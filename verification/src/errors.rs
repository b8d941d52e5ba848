//! The ways in which inference fails, and the constraints it collects.

use crate::types::{clone_type, ty_views, Ty, Type};
use vstd::prelude::*;

verus! {

/// Model of a [`TypeError`].
pub enum Failure {
    UnificationError(Ty, Ty),
    MatchingError(Ty, Ty),
    SubstitutionConflict(Seq<char>, Ty, Ty),
    NotInScope(Seq<char>),
    RecursiveType(Seq<char>, Ty),
    DifferentLengths(Seq<Ty>, Seq<Ty>),
    LimitExceeded,
}

/// Why a type could not be inferred.
#[derive(Debug)]
pub enum TypeError {
    /// Two types cannot be made equal.
    UnificationError(Type, Type),
    /// An inferred type does not fit its annotation.
    MatchingError(Type, Type),
    /// Two substitutions that were to be joined bind one variable to
    /// different types.
    SubstitutionConflict(String, Type, Type),
    /// An identifier has no entry in the environment.
    NotInScope(String),
    /// Binding the variable to the type would give an infinite type.
    RecursiveType(String, Type),
    /// Two lists of types that were to be unified pairwise differ in
    /// length.
    DifferentLengths(Vec<Type>, Vec<Type>),
    /// The solver would have to go deeper than the context allows, or the
    /// context has used up its fresh names.
    LimitExceeded,
}

impl View for TypeError {
    type V = Failure;

    open spec fn view(&self) -> Failure {
        match *self {
            TypeError::UnificationError(a, b) => Failure::UnificationError(a@, b@),
            TypeError::MatchingError(a, b) => Failure::MatchingError(a@, b@),
            TypeError::SubstitutionConflict(n, a, b) => Failure::SubstitutionConflict(n@, a@, b@),
            TypeError::NotInScope(n) => Failure::NotInScope(n@),
            TypeError::RecursiveType(n, t) => Failure::RecursiveType(n@, t@),
            TypeError::DifferentLengths(a, b) => Failure::DifferentLengths(
                ty_views(a@),
                ty_views(b@),
            ),
            TypeError::LimitExceeded => Failure::LimitExceeded,
        }
    }
}

/// Model of a [`TypeConstraint`].
pub enum Constraint {
    Match(Ty, Ty),
    Unify(Ty, Ty),
}

/// An obligation between two types, to be discharged by the solver.
#[derive(Debug)]
pub enum TypeConstraint {
    /// The first type must fit the second; only variables of the first
    /// may be bound.
    Match(Type, Type),
    /// The two types must become equal; either side may be refined.
    Unify(Type, Type),
}

impl View for TypeConstraint {
    type V = Constraint;

    open spec fn view(&self) -> Constraint {
        match *self {
            TypeConstraint::Match(a, b) => Constraint::Match(a@, b@),
            TypeConstraint::Unify(a, b) => Constraint::Unify(a@, b@),
        }
    }
}

impl Clone for TypeConstraint {
    fn clone(&self) -> (r: Self)
        ensures
            r@ == self@,
    {
        match self {
            TypeConstraint::Match(a, b) => TypeConstraint::Match(clone_type(a), clone_type(b)),
            TypeConstraint::Unify(a, b) => TypeConstraint::Unify(clone_type(a), clone_type(b)),
        }
    }
}

/// The models of a list of constraints, in order.
pub open spec fn constraint_views(cs: Seq<TypeConstraint>) -> Seq<Constraint> {
    cs.map_values(|c: TypeConstraint| c@)
}

/// A copy of a list of constraints.
pub fn clone_constraints(cs: &Vec<TypeConstraint>) -> (r: Vec<TypeConstraint>)
    ensures
        constraint_views(r@) == constraint_views(cs@),
{
    let mut out: Vec<TypeConstraint> = Vec::new();
    let mut i: usize = 0;
    while i < cs.len()
        invariant
            i <= cs.len(),
            out@.len() == i,
            forall|j: int| 0 <= j < i ==> out@[j]@ == cs@[j]@,
        decreases cs.len() - i,
    {
        out.push(cs[i].clone());
        i += 1;
    }
    assert(constraint_views(out@) =~= constraint_views(cs@));
    out
}

} // verus!
