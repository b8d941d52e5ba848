//! The constraint solver: unification, one-sided matching, the binding of a
//! variable with its occurs check, and the loop that discharges the pending
//! constraints.

use crate::collections::{subst_map, subst_new, subst_update, Substitution};
use crate::context::{Context, TypeContext};
use crate::errors::{constraint_views, Constraint, Failure, TypeConstraint, TypeError};
use crate::substitution::{
    apply_constraints, apply_type, apply_types, compose, merge_substitutions, safe_compose,
    safe_merge_substitution, subst_constraints, subst_result, subst_types,
};
use crate::types::{clone_type, ty_views, type_eq, Ty, Type};
use vstd::prelude::*;

verus! {

impl Context {
    /// The substitution that makes `l` and `r` equal, and the context
    /// after finding it. The cases, in order:
    ///
    /// 1. the two are the same type, or one of them is `NoKind`: nothing
    ///    is bound;
    /// 2. no depth is left: the limit is exceeded;
    /// 3. both are constructors of one name: their kinds are unified;
    /// 4. one is a scheme, the left one first: it is instantiated, and
    ///    the instance takes its place;
    /// 5. one is a variable, the left one first: it is bound to the
    ///    other;
    /// 6. both are applications: the kinds on each side are reconciled,
    ///    then functions and arguments are unified, in one list;
    /// 7. anything else cannot be unified.
    pub open spec fn unify(self, l: Ty, r: Ty, depth: nat) -> (
        Context,
        Result<Map<Seq<char>, Ty>, Failure>,
    )
        decreases depth,
    {
        if l == r || l is NoKind || r is NoKind {
            (self, Ok(Map::empty()))
        } else if depth == 0 {
            (self, Err(Failure::LimitExceeded))
        } else if l is Constructor && r is Constructor && l->Constructor_0.name
            == r->Constructor_0.name {
            self.unify(*l->Constructor_0.kind, *r->Constructor_0.kind, (depth - 1) as nat)
        } else if l is Scheme {
            let (cx, instance) = self.instantiate(l);
            match instance {
                Ok(t) => cx.unify(t, r, (depth - 1) as nat),
                Err(e) => (cx, Err(e)),
            }
        } else if r is Scheme {
            let (cx, instance) = self.instantiate(r);
            match instance {
                Ok(t) => cx.unify(l, t, (depth - 1) as nat),
                Err(e) => (cx, Err(e)),
            }
        } else if l is Variable {
            self.bind(l->Variable_0.name, Some(*l->Variable_0.kind), r, (depth - 1) as nat)
        } else if r is Variable {
            self.bind(r->Variable_0.name, Some(*r->Variable_0.kind), l, (depth - 1) as nat)
        } else if l is Apply && r is Apply {
            let (cx1, left_kinds) = self.constrain(*l->Apply_0, *l->Apply_1);
            match left_kinds {
                Err(e) => (cx1, Err(e)),
                Ok(a) => {
                    let (cx2, right_kinds) = cx1.constrain(*r->Apply_0, *r->Apply_1);
                    match right_kinds {
                        Err(e) => (cx2, Err(e)),
                        Ok(b) => cx2.unify_many(
                            seq![a.0, b.0, *l->Apply_0, *l->Apply_1],
                            seq![a.1, b.1, *r->Apply_0, *r->Apply_1],
                            (depth - 1) as nat,
                        ),
                    }
                },
            }
        } else {
            (self, Err(Failure::UnificationError(l, r)))
        }
    }

    /// The substitution that unifies two lists of types pairwise, front to
    /// back. What the first pair binds is applied to the rest before it is
    /// unified, and the results are composed. Lists of different lengths are
    /// an error that holds what was left of both.
    pub open spec fn unify_many(self, ls: Seq<Ty>, rs: Seq<Ty>, depth: nat) -> (
        Context,
        Result<Map<Seq<char>, Ty>, Failure>,
    )
        decreases depth,
    {
        if ls.len() == 0 && rs.len() == 0 {
            (self, Ok(Map::empty()))
        } else if ls.len() == 0 || rs.len() == 0 {
            (self, Err(Failure::DifferentLengths(ls, rs)))
        } else if depth == 0 {
            (self, Err(Failure::LimitExceeded))
        } else {
            let (cx1, first) = self.unify(ls[0], rs[0], (depth - 1) as nat);
            match first {
                Err(e) => (cx1, Err(e)),
                Ok(s) => {
                    let (cx2, rest) = cx1.unify_many(
                        subst_types(ls.drop_first(), s),
                        subst_types(rs.drop_first(), s),
                        (depth - 1) as nat,
                    );
                    match rest {
                        Err(e) => (cx2, Err(e)),
                        Ok(others) => (cx2, Ok(compose(others, s))),
                    }
                },
            }
        }
    }

    /// The substitution that binds the variable `name` to `t`.
    ///
    /// Where `t` is that variable itself, the kinds are unified if a kind
    /// is required, and else the variable is bound to itself. Where the
    /// variable occurs free in `t`, the type would be infinite. Otherwise,
    /// if a kind is required, the kind of `t` is unified with it, and the
    /// variable is bound to `t` under the resulting substitution, which is
    /// kept. The depth counts only where kinds are unified: the occurs check
    /// comes before it.
    pub open spec fn bind(self, name: Seq<char>, kind: Option<Ty>, t: Ty, depth: nat) -> (
        Context,
        Result<Map<Seq<char>, Ty>, Failure>,
    )
        decreases depth,
    {
        if t is Variable && t->Variable_0.name == name {
            match kind {
                None => (self, Ok(Map::empty().insert(name, t))),
                Some(k) => if depth == 0 {
                    (self, Err(Failure::LimitExceeded))
                } else {
                    self.unify(*t->Variable_0.kind, k, (depth - 1) as nat)
                },
            }
        } else if t.mentions(name) {
            (self, Err(Failure::RecursiveType(name, t)))
        } else {
            match kind {
                None => (self, Ok(Map::empty().insert(name, t))),
                Some(k) => if depth == 0 {
                    (self, Err(Failure::LimitExceeded))
                } else {
                    let (cx1, own_kind) = self.kind_of(t);
                    match own_kind {
                        Err(e) => (cx1, Err(e)),
                        Ok(k_other) => {
                            let (cx2, kinds) = cx1.unify(k_other, k, (depth - 1) as nat);
                            match kinds {
                                Err(e) => (cx2, Err(e)),
                                Ok(s) => (cx2, Ok(s.insert(name, t.subst(s)))),
                            }
                        },
                    }
                },
            }
        }
    }

    /// The substitution that makes `l` fit `r`, binding variables of `l`
    /// only. The cases are those of unification, but a variable on the right
    /// is never bound, and for two applications the function and the
    /// argument are matched apart, under the substitution that reconciling
    /// the kinds gave; their substitutions must agree, and that of the
    /// kinds is composed onto their join.
    pub open spec fn matching(self, l: Ty, r: Ty, depth: nat) -> (
        Context,
        Result<Map<Seq<char>, Ty>, Failure>,
    )
        decreases depth,
    {
        if l == r || l is NoKind || r is NoKind {
            (self, Ok(Map::empty()))
        } else if depth == 0 {
            (self, Err(Failure::LimitExceeded))
        } else if l is Constructor && r is Constructor && l->Constructor_0.name
            == r->Constructor_0.name {
            self.matching(*l->Constructor_0.kind, *r->Constructor_0.kind, (depth - 1) as nat)
        } else if l is Scheme {
            let (cx, instance) = self.instantiate(l);
            match instance {
                Ok(t) => cx.matching(t, r, (depth - 1) as nat),
                Err(e) => (cx, Err(e)),
            }
        } else if r is Scheme {
            let (cx, instance) = self.instantiate(r);
            match instance {
                Ok(t) => cx.matching(l, t, (depth - 1) as nat),
                Err(e) => (cx, Err(e)),
            }
        } else if l is Variable {
            self.bind(l->Variable_0.name, Some(*l->Variable_0.kind), r, (depth - 1) as nat)
        } else if l is Apply && r is Apply {
            let (cx1, left_kinds) = self.constrain(*l->Apply_0, *l->Apply_1);
            match left_kinds {
                Err(e) => (cx1, Err(e)),
                Ok(a) => {
                    let (cx2, right_kinds) = cx1.constrain(*r->Apply_0, *r->Apply_1);
                    match right_kinds {
                        Err(e) => (cx2, Err(e)),
                        Ok(b) => {
                            let (cx3, kinds) = cx2.unify_many(
                                seq![a.0, b.0],
                                seq![a.1, b.1],
                                (depth - 1) as nat,
                            );
                            match kinds {
                                Err(e) => (cx3, Err(e)),
                                Ok(s) => {
                                    let (cx4, functions) = cx3.matching(
                                        l->Apply_0.subst(s),
                                        r->Apply_0.subst(s),
                                        (depth - 1) as nat,
                                    );
                                    match functions {
                                        Err(e) => (cx4, Err(e)),
                                        Ok(fun_subst) => {
                                            let (cx5, inputs) = cx4.matching(
                                                l->Apply_1.subst(s),
                                                r->Apply_1.subst(s),
                                                (depth - 1) as nat,
                                            );
                                            match inputs {
                                                Err(e) => (cx5, Err(e)),
                                                Ok(input_subst) => match safe_compose(
                                                    fun_subst,
                                                    input_subst,
                                                ) {
                                                    Err(e) => (cx5, Err(e)),
                                                    Ok(joined) => (cx5, Ok(compose(s, joined))),
                                                },
                                            }
                                        },
                                    }
                                },
                            }
                        },
                    }
                },
            }
        } else {
            (self, Err(Failure::MatchingError(l, r)))
        }
    }
}

impl Context {
    /// What one constraint asks of the solver: unification or matching of
    /// its two sides, as deep as the context allows.
    pub open spec fn discharge(self, c: Constraint) -> (Context, Result<Map<Seq<char>, Ty>, Failure>) {
        match c {
            Constraint::Unify(l, r) => self.unify(l, r, self.depth_limit),
            Constraint::Match(l, r) => self.matching(l, r, self.depth_limit),
        }
    }

    /// Solves a list of constraints front to back, starting from the
    /// substitution `acc`. What a constraint yields is composed onto what
    /// came before, and the result is applied to the constraints that are
    /// left before the next one is taken.
    pub open spec fn solve_list(self, cs: Seq<Constraint>, acc: Map<Seq<char>, Ty>) -> (
        Context,
        Result<Map<Seq<char>, Ty>, Failure>,
    )
        decreases cs.len(),
    {
        if cs.len() == 0 {
            (self, Ok(acc))
        } else {
            let (cx, first) = self.discharge(cs[0]);
            match first {
                Err(e) => (cx, Err(e)),
                Ok(s) => {
                    let next = compose(s, acc);
                    cx.solve_list(subst_constraints(cs.drop_first(), next), next)
                },
            }
        }
    }

    /// Solves the pending constraints, in at most `rounds` rounds. A round
    /// takes the pending constraints away and solves them in order. Where
    /// that left new constraints pending, the substitution found is applied
    /// to them, they are solved in the next round, and its result is
    /// composed onto that of this one.
    pub open spec fn solve(self, rounds: nat) -> (Context, Result<Map<Seq<char>, Ty>, Failure>)
        decreases rounds,
    {
        if rounds == 0 {
            (self, Err(Failure::LimitExceeded))
        } else {
            let (cx, first) = self.with_constraints(Seq::empty()).solve_list(
                self.constraints,
                Map::empty(),
            );
            match first {
                Err(e) => (cx, Err(e)),
                Ok(s) => if cx.constraints.len() > 0 {
                    let (cx2, more) = cx.with_constraints(subst_constraints(cx.constraints, s)).solve(
                        (rounds - 1) as nat,
                    );
                    match more {
                        Err(e) => (cx2, Err(e)),
                        Ok(s2) => (cx2, Ok(compose(s2, s))),
                    }
                } else {
                    (cx, Ok(s))
                },
            }
        }
    }
}

/// The model of an optional type.
pub open spec fn option_view(t: Option<Type>) -> Option<Ty> {
    match t {
        Some(k) => Some(k@),
        None => None,
    }
}

/// The list of constraints without its first element.
pub fn without_first_constraint(cs: &Vec<TypeConstraint>) -> (r: Vec<TypeConstraint>)
    requires
        cs.len() > 0,
    ensures
        constraint_views(r@) == constraint_views(cs@).drop_first(),
{
    let mut out: Vec<TypeConstraint> = Vec::new();
    let mut i: usize = 1;
    while i < cs.len()
        invariant
            1 <= i <= cs.len(),
            out@.len() == i - 1,
            forall|j: int| 0 <= j < i - 1 ==> out@[j]@ == cs@[j + 1]@,
        decreases cs.len() - i,
    {
        out.push(cs[i].clone());
        i += 1;
    }
    assert(constraint_views(out@) =~= constraint_views(cs@).drop_first());
    out
}

/// The list without its first element.
pub fn without_first(ts: &Vec<Type>) -> (r: Vec<Type>)
    requires
        ts.len() > 0,
    ensures
        ty_views(r@) == ty_views(ts@).drop_first(),
{
    let mut out: Vec<Type> = Vec::new();
    let mut i: usize = 1;
    while i < ts.len()
        invariant
            1 <= i <= ts.len(),
            out@.len() == i - 1,
            forall|j: int| 0 <= j < i - 1 ==> out@[j]@ == ts@[j + 1]@,
        decreases ts.len() - i,
    {
        out.push(clone_type(&ts[i]));
        i += 1;
    }
    assert(ty_views(out@) =~= ty_views(ts@).drop_first());
    out
}

impl TypeContext {
    /// Unifies two types, going at most `depth` deep.
    pub fn unify_within(&mut self, left: Type, right: Type, depth: u32) -> (r: Result<
        Substitution,
        TypeError,
    >)
        ensures
            (final(self)@, subst_result(r)) == old(self)@.unify(left@, right@, depth as nat),
        decreases depth,
    {
        if type_eq(&left, &right) {
            return Ok(subst_new());
        }
        let wildcard = match (&left, &right) {
            (Type::NoKind, _) => true,
            (_, Type::NoKind) => true,
            _ => false,
        };
        if wildcard {
            return Ok(subst_new());
        }
        if depth == 0 {
            return Err(TypeError::LimitExceeded);
        }
        match (&left, &right) {
            (Type::NoKind, _) => Ok(subst_new()),
            (_, Type::NoKind) => Ok(subst_new()),
            (Type::Constructor(a), Type::Constructor(b)) if a.name == b.name => {
                self.unify_within(clone_type(&a.kind), clone_type(&b.kind), depth - 1)
            },
            (Type::Scheme { .. }, _) => {
                match self.try_instantiate(&left) {
                    Ok(instance) => self.unify_within(instance, right, depth - 1),
                    Err(e) => Err(e),
                }
            },
            (_, Type::Scheme { .. }) => {
                match self.try_instantiate(&right) {
                    Ok(instance) => self.unify_within(left, instance, depth - 1),
                    Err(e) => Err(e),
                }
            },
            (Type::Variable(var), _) => {
                self.bind_within(var.name.clone(), Some(clone_type(&var.kind)), right, depth - 1)
            },
            (_, Type::Variable(var)) => {
                self.bind_within(var.name.clone(), Some(clone_type(&var.kind)), left, depth - 1)
            },
            (Type::TApply(fun_left, input_left), Type::TApply(fun_right, input_right)) => {
                let a = match self.try_constrain_type_application(
                    clone_type(fun_left),
                    clone_type(input_left),
                ) {
                    Ok(pair) => pair,
                    Err(e) => {
                        return Err(e);
                    },
                };
                let b = match self.try_constrain_type_application(
                    clone_type(fun_right),
                    clone_type(input_right),
                ) {
                    Ok(pair) => pair,
                    Err(e) => {
                        return Err(e);
                    },
                };
                let mut ls: Vec<Type> = Vec::new();
                let mut rs: Vec<Type> = Vec::new();
                let ghost spec_ls = seq![a.0@, b.0@, fun_left@, input_left@];
                let ghost spec_rs = seq![a.1@, b.1@, fun_right@, input_right@];
                ls.push(a.0);
                rs.push(a.1);
                ls.push(b.0);
                rs.push(b.1);
                ls.push(clone_type(fun_left));
                rs.push(clone_type(fun_right));
                ls.push(clone_type(input_left));
                rs.push(clone_type(input_right));
                assert(ty_views(ls@) =~= spec_ls);
                assert(ty_views(rs@) =~= spec_rs);
                self.unify_many_within(ls, rs, depth - 1)
            },
            _ => Err(TypeError::UnificationError(left, right)),
        }
    }

    /// Unifies two lists of types pairwise, going at most `depth` deep.
    pub fn unify_many_within(&mut self, types1: Vec<Type>, types2: Vec<Type>, depth: u32) -> (r:
        Result<Substitution, TypeError>)
        ensures
            (final(self)@, subst_result(r)) == old(self)@.unify_many(
                ty_views(types1@),
                ty_views(types2@),
                depth as nat,
            ),
        decreases depth,
    {
        if types1.len() == 0 && types2.len() == 0 {
            return Ok(subst_new());
        }
        if types1.len() == 0 || types2.len() == 0 {
            return Err(TypeError::DifferentLengths(types1, types2));
        }
        if depth == 0 {
            return Err(TypeError::LimitExceeded);
        }
        let substitution = match self.unify_within(
            clone_type(&types1[0]),
            clone_type(&types2[0]),
            depth - 1,
        ) {
            Ok(s) => s,
            Err(e) => {
                return Err(e);
            },
        };
        let rest1 = apply_types(without_first(&types1), &substitution);
        let rest2 = apply_types(without_first(&types2), &substitution);
        match self.unify_many_within(rest1, rest2, depth - 1) {
            Ok(others) => Ok(merge_substitutions(others, substitution)),
            Err(e) => Err(e),
        }
    }

    /// Binds a type variable to a type, going at most `depth` deep.
    pub fn bind_within(
        &mut self,
        var_name: String,
        var_kind: Option<Type>,
        ty: Type,
        depth: u32,
    ) -> (r: Result<Substitution, TypeError>)
        ensures
            (final(self)@, subst_result(r)) == old(self)@.bind(
                var_name@,
                option_view(var_kind),
                ty@,
                depth as nat,
            ),
        decreases depth,
    {
        let same = match &ty {
            Type::Variable(other) => other.name == var_name,
            _ => false,
        };
        if same {
            match var_kind {
                None => Ok(subst_update(&subst_new(), var_name, ty)),
                Some(kind) => {
                    if depth == 0 {
                        return Err(TypeError::LimitExceeded);
                    }
                    let own = match &ty {
                        Type::Variable(other) => clone_type(&other.kind),
                        _ => Type::NoKind,
                    };
                    self.unify_within(own, kind, depth - 1)
                },
            }
        } else if ty.is_recursive(&var_name) {
            Err(TypeError::RecursiveType(var_name, ty))
        } else {
            match var_kind {
                None => Ok(subst_update(&subst_new(), var_name, ty)),
                Some(kind) => {
                    if depth == 0 {
                        return Err(TypeError::LimitExceeded);
                    }
                    let k_other = match self.try_get_kind(clone_type(&ty)) {
                        Ok(k) => k,
                        Err(e) => {
                            return Err(e);
                        },
                    };
                    match self.unify_within(k_other, kind, depth - 1) {
                        Ok(subst) => {
                            let bound = apply_type(ty, &subst);
                            Ok(subst_update(&subst, var_name, bound))
                        },
                        Err(e) => Err(e),
                    }
                },
            }
        }
    }

    /// Matches the left type against the right one, going at most `depth`
    /// deep.
    pub fn match_within(&mut self, left: Type, right: Type, depth: u32) -> (r: Result<
        Substitution,
        TypeError,
    >)
        ensures
            (final(self)@, subst_result(r)) == old(self)@.matching(left@, right@, depth as nat),
        decreases depth,
    {
        if type_eq(&left, &right) {
            return Ok(subst_new());
        }
        let wildcard = match (&left, &right) {
            (Type::NoKind, _) => true,
            (_, Type::NoKind) => true,
            _ => false,
        };
        if wildcard {
            return Ok(subst_new());
        }
        if depth == 0 {
            return Err(TypeError::LimitExceeded);
        }
        match (&left, &right) {
            (Type::NoKind, _) => Ok(subst_new()),
            (_, Type::NoKind) => Ok(subst_new()),
            (Type::Constructor(a), Type::Constructor(b)) if a.name == b.name => {
                self.match_within(clone_type(&a.kind), clone_type(&b.kind), depth - 1)
            },
            (Type::Scheme { .. }, _) => {
                match self.try_instantiate(&left) {
                    Ok(instance) => self.match_within(instance, right, depth - 1),
                    Err(e) => Err(e),
                }
            },
            (_, Type::Scheme { .. }) => {
                match self.try_instantiate(&right) {
                    Ok(instance) => self.match_within(left, instance, depth - 1),
                    Err(e) => Err(e),
                }
            },
            (Type::Variable(var), _) => {
                self.bind_within(var.name.clone(), Some(clone_type(&var.kind)), right, depth - 1)
            },
            (Type::TApply(fun_left, input_left), Type::TApply(fun_right, input_right)) => {
                let a = match self.try_constrain_type_application(
                    clone_type(fun_left),
                    clone_type(input_left),
                ) {
                    Ok(pair) => pair,
                    Err(e) => {
                        return Err(e);
                    },
                };
                let b = match self.try_constrain_type_application(
                    clone_type(fun_right),
                    clone_type(input_right),
                ) {
                    Ok(pair) => pair,
                    Err(e) => {
                        return Err(e);
                    },
                };
                let mut ls: Vec<Type> = Vec::new();
                let mut rs: Vec<Type> = Vec::new();
                let ghost spec_ls = seq![a.0@, b.0@];
                let ghost spec_rs = seq![a.1@, b.1@];
                ls.push(a.0);
                rs.push(a.1);
                ls.push(b.0);
                rs.push(b.1);
                assert(ty_views(ls@) =~= spec_ls);
                assert(ty_views(rs@) =~= spec_rs);
                let subst2 = match self.unify_many_within(ls, rs, depth - 1) {
                    Ok(s) => s,
                    Err(e) => {
                        return Err(e);
                    },
                };
                let fun_subst = match self.match_within(
                    apply_type(clone_type(fun_left), &subst2),
                    apply_type(clone_type(fun_right), &subst2),
                    depth - 1,
                ) {
                    Ok(s) => s,
                    Err(e) => {
                        return Err(e);
                    },
                };
                let input_subst = match self.match_within(
                    apply_type(clone_type(input_left), &subst2),
                    apply_type(clone_type(input_right), &subst2),
                    depth - 1,
                ) {
                    Ok(s) => s,
                    Err(e) => {
                        return Err(e);
                    },
                };
                match safe_merge_substitution(fun_subst, input_subst) {
                    Ok(joined) => Ok(merge_substitutions(subst2, joined)),
                    Err(e) => Err(e),
                }
            },
            _ => Err(TypeError::MatchingError(left, right)),
        }
    }
    /// Unifies two types: finds the substitution that makes them equal.
    pub fn unify(&mut self, left: Type, right: Type) -> (r: Result<Substitution, TypeError>)
        ensures
            (final(self)@, subst_result(r)) == old(self)@.unify(
                left@,
                right@,
                old(self)@.depth_limit,
            ),
    {
        let depth = self.depth_limit();
        self.unify_within(left, right, depth)
    }

    /// Matching is like unification, but variables are bound on the left
    /// side only.
    pub fn match_types(&mut self, left: Type, right: Type) -> (r: Result<Substitution, TypeError>)
        ensures
            (final(self)@, subst_result(r)) == old(self)@.matching(
                left@,
                right@,
                old(self)@.depth_limit,
            ),
    {
        let depth = self.depth_limit();
        self.match_within(left, right, depth)
    }

    /// Unifies two lists of types one by one.
    pub fn unify_many(&mut self, types1: Vec<Type>, types2: Vec<Type>) -> (r: Result<
        Substitution,
        TypeError,
    >)
        ensures
            (final(self)@, subst_result(r)) == old(self)@.unify_many(
                ty_views(types1@),
                ty_views(types2@),
                old(self)@.depth_limit,
            ),
    {
        let depth = self.depth_limit();
        self.unify_many_within(types1, types2, depth)
    }

    /// Binds a type variable to a type.
    pub fn bind_type_variable(&mut self, var_name: String, var_kind: Option<Type>, ty: Type) -> (r:
        Result<Substitution, TypeError>)
        ensures
            (final(self)@, subst_result(r)) == old(self)@.bind(
                var_name@,
                option_view(var_kind),
                ty@,
                old(self)@.depth_limit,
            ),
    {
        let depth = self.depth_limit();
        self.bind_within(var_name, var_kind, ty, depth)
    }

    /// Solves the given constraints in order, starting from
    /// `substitution`.
    pub fn solve_constraints_with_subst(
        &mut self,
        constraints: &Vec<TypeConstraint>,
        substitution: Substitution,
    ) -> (r: Result<Substitution, TypeError>)
        ensures
            (final(self)@, subst_result(r)) == old(self)@.solve_list(
                constraint_views(constraints@),
                subst_map(substitution),
            ),
    {
        let mut pending = crate::errors::clone_constraints(constraints);
        let mut acc = substitution;
        while pending.len() > 0
            invariant
                self@.solve_list(constraint_views(pending@), subst_map(acc)) == old(self)@.solve_list(
                    constraint_views(constraints@),
                    subst_map(substitution),
                ),
            decreases pending.len(),
        {
            let ghost cs = constraint_views(pending@);
            let found = match pending[0].clone() {
                TypeConstraint::Unify(left, right) => self.unify(left, right),
                TypeConstraint::Match(left, right) => self.match_types(left, right),
            };
            match found {
                Err(e) => {
                    return Err(e);
                },
                Ok(s) => {
                    acc = merge_substitutions(s, acc);
                    pending = apply_constraints(without_first_constraint(&pending), &acc);
                },
            }
        }
        Ok(acc)
    }

    /// Solves the pending constraints, in at most `rounds` rounds.
    pub fn solve_constraints_within(&mut self, rounds: u32) -> (r: Result<Substitution, TypeError>)
        ensures
            (final(self)@, subst_result(r)) == old(self)@.solve(rounds as nat),
        decreases rounds,
    {
        if rounds == 0 {
            return Err(TypeError::LimitExceeded);
        }
        let initial = self.take_constraints();
        let subst = match self.solve_constraints_with_subst(&initial, subst_new()) {
            Ok(s) => s,
            Err(e) => {
                return Err(e);
            },
        };
        if self.has_constraints() {
            let found = self.take_constraints();
            self.set_constraints(apply_constraints(found, &subst));
            match self.solve_constraints_within(rounds - 1) {
                Ok(subst2) => Ok(merge_substitutions(subst2, subst)),
                Err(e) => Err(e),
            }
        } else {
            Ok(subst)
        }
    }

    /// Solves the pending constraints and leaves none. The result is the
    /// substitution that they ask for.
    pub fn solve_constraints(&mut self) -> (r: Result<Substitution, TypeError>)
        ensures
            (final(self)@, subst_result(r)) == old(self)@.solve(old(self)@.depth_limit),
    {
        let rounds = self.depth_limit();
        self.solve_constraints_within(rounds)
    }
}

} // verus!