//! Substitutions: applying them, composing them, and joining two that must
//! agree.

use crate::collections::{
    subst_clone, subst_get, subst_insert, subst_intersection, subst_keys, subst_map, subst_new,
    subst_overlay, subst_union, Substitution,
};
use crate::errors::{constraint_views, Constraint, Failure, TypeConstraint, TypeError};
use crate::names::{lemma_name_asymmetric, lemma_name_total, lemma_name_transitive, name_less, name_lt};
use crate::types::{clone_type, ty_views, Ty, Type};
use vstd::prelude::*;

verus! {

impl Ty {
    /// The type with each variable that `s` binds replaced by what `s`
    /// binds it to. Kinds, and the inside of a scheme, stay as they are.
    pub open spec fn subst(self, s: Map<Seq<char>, Ty>) -> Ty
        decreases self,
    {
        match self {
            Ty::Variable(v) => if s.contains_key(v.name) {
                s[v.name]
            } else {
                self
            },
            Ty::Apply(f, x) => Ty::Apply(Box::new(f.subst(s)), Box::new(x.subst(s))),
            _ => self,
        }
    }
}

impl Constraint {
    /// The constraint with `s` applied to both sides.
    pub open spec fn subst(self, s: Map<Seq<char>, Ty>) -> Constraint {
        match self {
            Constraint::Match(a, b) => Constraint::Match(a.subst(s), b.subst(s)),
            Constraint::Unify(a, b) => Constraint::Unify(a.subst(s), b.subst(s)),
        }
    }
}

/// `s` applied to each type of a list.
pub open spec fn subst_types(ts: Seq<Ty>, s: Map<Seq<char>, Ty>) -> Seq<Ty> {
    Seq::new(ts.len(), |i: int| ts[i].subst(s))
}

/// `s` applied to each constraint of a list.
pub open spec fn subst_constraints(cs: Seq<Constraint>, s: Map<Seq<char>, Ty>) -> Seq<Constraint> {
    Seq::new(cs.len(), |i: int| cs[i].subst(s))
}

/// `s` applied to each type that `m` binds a name to.
pub open spec fn subst_values(m: Map<Seq<char>, Ty>, s: Map<Seq<char>, Ty>) -> Map<Seq<char>, Ty> {
    Map::new(|k: Seq<char>| m.contains_key(k), |k: Seq<char>| m[k].subst(s))
}

/// The composition of two substitutions: `later` is applied to every type
/// that `earlier` binds, and the bindings of `later` are added. Where both
/// bind a name, the binding of `later` stays.
pub open spec fn compose(later: Map<Seq<char>, Ty>, earlier: Map<Seq<char>, Ty>) -> Map<
    Seq<char>,
    Ty,
> {
    subst_values(earlier, later).union_prefer_right(later)
}

/// Whether both substitutions bind `k`, to different types.
pub open spec fn clash(a: Map<Seq<char>, Ty>, b: Map<Seq<char>, Ty>, k: Seq<char>) -> bool {
    a.contains_key(k) && b.contains_key(k) && a[k] != b[k]
}

/// Whether `k` is the first name, in the order of names, on which the two
/// substitutions clash.
pub open spec fn first_clash(a: Map<Seq<char>, Ty>, b: Map<Seq<char>, Ty>, k: Seq<char>) -> bool {
    clash(a, b, k) && forall|other: Seq<char>| clash(a, b, other) ==> !name_lt(other, k)
}

/// The join of two substitutions that must agree: the bindings of both
/// where no name is bound to two different types, and else the conflict on
/// the first such name.
pub open spec fn safe_compose(a: Map<Seq<char>, Ty>, b: Map<Seq<char>, Ty>) -> Result<
    Map<Seq<char>, Ty>,
    Failure,
> {
    if exists|k: Seq<char>| clash(a, b, k) {
        let k = choose|k: Seq<char>| first_clash(a, b, k);
        Err(Failure::SubstitutionConflict(k, a[k], b[k]))
    } else {
        Ok(a.union_prefer_right(b))
    }
}

/// At most one name is the first clash.
pub proof fn lemma_first_clash_unique(
    a: Map<Seq<char>, Ty>,
    b: Map<Seq<char>, Ty>,
    k1: Seq<char>,
    k2: Seq<char>,
)
    requires
        first_clash(a, b, k1),
        first_clash(a, b, k2),
    ensures
        k1 == k2,
{
    lemma_name_total(k1, k2);
}

/// The model of what a substitution or an error stands for.
pub open spec fn subst_result(r: Result<Substitution, TypeError>) -> Result<
    Map<Seq<char>, Ty>,
    Failure,
> {
    match r {
        Ok(s) => Ok(subst_map(s)),
        Err(e) => Err(e@),
    }
}

/// Applies a substitution to a type.
pub fn apply_type(t: Type, s: &Substitution) -> (r: Type)
    ensures
        r@ == t@.subst(subst_map(*s)),
    decreases t,
{
    match t {
        Type::Variable(v) => match subst_get(s, &v.name) {
            Some(bound) => clone_type(bound),
            None => Type::Variable(v),
        },
        Type::TApply(f, x) => Type::TApply(Box::new(apply_type(*f, s)), Box::new(apply_type(*x, s))),
        other => other,
    }
}

/// Applies a substitution to every type of a list.
pub fn apply_types(ts: Vec<Type>, s: &Substitution) -> (r: Vec<Type>)
    ensures
        ty_views(r@) == subst_types(ty_views(ts@), subst_map(*s)),
{
    let mut out: Vec<Type> = Vec::new();
    let mut i: usize = 0;
    while i < ts.len()
        invariant
            i <= ts.len(),
            out@.len() == i,
            forall|j: int| 0 <= j < i ==> out@[j]@ == ts@[j]@.subst(subst_map(*s)),
        decreases ts.len() - i,
    {
        out.push(apply_type(clone_type(&ts[i]), s));
        i += 1;
    }
    assert(ty_views(out@) =~= subst_types(ty_views(ts@), subst_map(*s)));
    out
}

/// Applies a substitution to both sides of a constraint.
pub fn apply_constraint(c: TypeConstraint, s: &Substitution) -> (r: TypeConstraint)
    ensures
        r@ == c@.subst(subst_map(*s)),
{
    match c {
        TypeConstraint::Match(a, b) => TypeConstraint::Match(apply_type(a, s), apply_type(b, s)),
        TypeConstraint::Unify(a, b) => TypeConstraint::Unify(apply_type(a, s), apply_type(b, s)),
    }
}

/// Applies a substitution to every constraint of a list.
pub fn apply_constraints(cs: Vec<TypeConstraint>, s: &Substitution) -> (r: Vec<TypeConstraint>)
    ensures
        constraint_views(r@) == subst_constraints(constraint_views(cs@), subst_map(*s)),
{
    let mut out: Vec<TypeConstraint> = Vec::new();
    let mut i: usize = 0;
    while i < cs.len()
        invariant
            i <= cs.len(),
            out@.len() == i,
            forall|j: int| 0 <= j < i ==> out@[j]@ == cs@[j]@.subst(subst_map(*s)),
        decreases cs.len() - i,
    {
        out.push(apply_constraint(cs[i].clone(), s));
        i += 1;
    }
    assert(constraint_views(out@) =~= subst_constraints(constraint_views(cs@), subst_map(*s)));
    out
}

/// Applies a substitution to every type that another substitution binds.
pub fn apply_substitution_map(m: Substitution, s: &Substitution) -> (r: Substitution)
    ensures
        subst_map(r) == subst_values(subst_map(m), subst_map(*s)),
{
    let keys = subst_keys(&m);
    let mut out = subst_new();
    let mut i: usize = 0;
    while i < keys.len()
        invariant
            i <= keys.len(),
            forall|j: int| 0 <= j < keys@.len() ==> subst_map(m).contains_key(#[trigger] keys@[j]@),
            forall|k: Seq<char>| #[trigger]
                subst_map(out).contains_key(k) <==> exists|j: int| 0 <= j < i && keys@[j]@ == k,
            forall|k: Seq<char>| #[trigger]
                subst_map(out).contains_key(k) ==> subst_map(out)[k] == subst_map(m)[k].subst(
                    subst_map(*s),
                ),
        decreases keys.len() - i,
    {
        let key = keys[i].clone();
        match subst_get(&m, &key) {
            Some(bound) => {
                let value = apply_type(clone_type(bound), s);
                subst_insert(&mut out, key, value);
            },
            None => {},
        }
        i += 1;
    }
    assert(subst_map(out) =~= subst_values(subst_map(m), subst_map(*s)));
    out
}

/// Composes two substitutions: applies `subst1` to every type that
/// `subst2` binds and adds the bindings of `subst1`, which stay where both
/// bind a name.
pub fn merge_substitutions(subst1: Substitution, subst2: Substitution) -> (r: Substitution)
    ensures
        subst_map(r) == compose(subst_map(subst1), subst_map(subst2)),
{
    let applied = apply_substitution_map(subst2, &subst1);
    subst_overlay(applied, subst1)
}

/// Joins two substitutions that must agree. Where they bind a name to two
/// different types, the conflict on the first such name is the error.
pub fn safe_merge_substitution(subst1: Substitution, subst2: Substitution) -> (r: Result<
    Substitution,
    TypeError,
>)
    ensures
        subst_result(r) == safe_compose(subst_map(subst1), subst_map(subst2)),
{
    let ghost a = subst_map(subst1);
    let ghost b = subst_map(subst2);
    let shared = subst_intersection(subst_clone(&subst1), subst_clone(&subst2));
    let keys = subst_keys(&shared);
    let mut found: Option<(String, Type, Type)> = None;
    let mut i: usize = 0;
    while i < keys.len()
        invariant
            i <= keys.len(),
            a == subst_map(subst1),
            b == subst_map(subst2),
            forall|j: int|
                0 <= j < keys@.len() ==> a.contains_key(#[trigger] keys@[j]@) && b.contains_key(
                    keys@[j]@,
                ),
            match found {
                Some((k, l, r)) => clash(a, b, k@) && l@ == a[k@] && r@ == b[k@],
                None => true,
            },
            forall|j: int|
                0 <= j < i && clash(a, b, #[trigger] keys@[j]@) ==> found is Some && !name_lt(
                    keys@[j]@,
                    (found->0).0@,
                ),
        decreases keys.len() - i,
    {
        let left = apply_type(Type::from_string(keys[i].clone()), &subst1);
        let right = apply_type(Type::from_string(keys[i].clone()), &subst2);
        if left != right {
            let better = match &found {
                Some((k, _, _)) => name_less(&keys[i], k),
                None => true,
            };
            proof {
                let now = keys@[i as int]@;
                lemma_name_asymmetric(now, now);
                if found is Some {
                    let old_k = (found->0).0@;
                    if better {
                        assert forall|j: int| 0 <= j < i && clash(a, b, #[trigger] keys@[j]@) implies !name_lt(
                            keys@[j]@,
                            now,
                        ) by {
                            if name_lt(keys@[j]@, now) {
                                lemma_name_transitive(keys@[j]@, now, old_k);
                            }
                        }
                    }
                }
            }
            if better {
                found = Some((keys[i].clone(), left, right));
            }
        }
        i += 1;
    }
    match found {
        Some((k, l, r)) => {
            proof {
                assert forall|other: Seq<char>| clash(a, b, other) implies !name_lt(other, k@) by {
                    assert(subst_map(shared).contains_key(other));
                    let j = choose|j: int| 0 <= j < keys@.len() && keys@[j]@ == other;
                }
                assert(first_clash(a, b, k@));
                let c = choose|c: Seq<char>| first_clash(a, b, c);
                lemma_first_clash_unique(a, b, k@, c);
            }
            Err(TypeError::SubstitutionConflict(k, l, r))
        },
        None => {
            proof {
                assert forall|other: Seq<char>| !clash(a, b, other) by {
                    if clash(a, b, other) {
                        assert(subst_map(shared).contains_key(other));
                        let j = choose|j: int| 0 <= j < keys@.len() && keys@[j]@ == other;
                    }
                }
                let ab = a.union_prefer_right(b);
                let ba = b.union_prefer_right(a);
                assert forall|k: Seq<char>| #[trigger] ab.dom().contains(k) implies ab[k] == ba[k] by {
                    assert(!clash(a, b, k));
                }
                assert(ab.dom() =~= ba.dom());
                assert(ba =~= ab);
            }
            Ok(subst_union(subst1, subst2))
        },
    }
}

} // verus!
