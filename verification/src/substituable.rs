//! What a substitution can be applied to: types, constraints, lists of
//! these, substitutions, environments and contexts.

use crate::collections::{
    subst_get, subst_keys, subst_map, var_set, var_set_new, var_set_union, Substitution,
};
use crate::context::TypeContext;
use crate::env::{free_in_values, TypeEnv};
use crate::errors::TypeConstraint;
use crate::substitution::{apply_constraint, apply_substitution_map, apply_type, subst_values};
use crate::types::{Ty, TyVar, Type, VarName};
use crate::vars::free_variables;
use vstd::prelude::*;

verus! {

/// A value with free type variables, to which a substitution can be
/// applied.
pub trait Substituable: Sized {
    /// The free type variables of the value.
    spec fn free(&self) -> Set<TyVar>;

    /// Whether `result` is this value with `s` applied.
    spec fn becomes(&self, s: Map<Seq<char>, Ty>, result: &Self) -> bool;

    /// The free type variables of the value.
    fn free_variables(&self) -> (r: im::HashSet<VarName>)
        ensures
            var_set(r) == self.free(),
    ;

    /// The value with the substitution applied.
    fn apply_substitution(self, substitution: &Substitution) -> (r: Self)
        ensures
            self.becomes(subst_map(*substitution), &r),
    ;
}

impl Substituable for Type {
    open spec fn free(&self) -> Set<TyVar> {
        self@.free_variables()
    }

    open spec fn becomes(&self, s: Map<Seq<char>, Ty>, result: &Self) -> bool {
        result@ == self@.subst(s)
    }

    fn free_variables(&self) -> (r: im::HashSet<VarName>) {
        free_variables(self)
    }

    fn apply_substitution(self, substitution: &Substitution) -> (r: Self) {
        apply_type(self, substitution)
    }
}

impl Substituable for TypeConstraint {
    open spec fn free(&self) -> Set<TyVar> {
        match *self {
            TypeConstraint::Match(l, r) => l@.free_variables().union(r@.free_variables()),
            TypeConstraint::Unify(l, r) => l@.free_variables().union(r@.free_variables()),
        }
    }

    open spec fn becomes(&self, s: Map<Seq<char>, Ty>, result: &Self) -> bool {
        result@ == self@.subst(s)
    }

    fn free_variables(&self) -> (r: im::HashSet<VarName>) {
        let (left, right) = match self {
            TypeConstraint::Match(left, right) => (left, right),
            TypeConstraint::Unify(left, right) => (left, right),
        };
        var_set_union(free_variables(left), free_variables(right))
    }

    fn apply_substitution(self, substitution: &Substitution) -> (r: Self) {
        apply_constraint(self, substitution)
    }
}

impl<T: Substituable + Clone> Substituable for Vec<T> {
    open spec fn free(&self) -> Set<TyVar> {
        Set::new(|v: TyVar| exists|i: int| 0 <= i < self@.len() && #[trigger] self@[i].free().contains(v))
    }

    open spec fn becomes(&self, s: Map<Seq<char>, Ty>, result: &Self) -> bool {
        &&& result@.len() == self@.len()
        &&& forall|i: int| 0 <= i < self@.len() ==> #[trigger] self@[i].becomes(s, &result@[i])
    }

    fn free_variables(&self) -> (r: im::HashSet<VarName>) {
        let mut out = var_set_new();
        let mut i: usize = 0;
        while i < self.len()
            invariant
                i <= self.len(),
                forall|v: TyVar| #[trigger]
                    var_set(out).contains(v) <==> exists|j: int|
                        0 <= j < i && #[trigger] self@[j].free().contains(v),
            decreases self.len() - i,
        {
            out = var_set_union(out, self[i].free_variables());
            i += 1;
        }
        assert(var_set(out) =~= self.free());
        out
    }

    fn apply_substitution(self, substitution: &Substitution) -> (r: Self) {
        let ghost s = subst_map(*substitution);
        let ghost n = self@.len();
        let ghost start = self@;
        let mut rest = self;
        let mut reversed: Vec<T> = Vec::new();
        while rest.len() > 0
            invariant
                rest@.len() + reversed@.len() == n,
                rest@ == start.subrange(0, rest@.len() as int),
                forall|j: int|
                    0 <= j < reversed@.len() ==> #[trigger] start[n - 1 - j].becomes(s, &reversed@[j]),
                s == subst_map(*substitution),
                n == start.len(),
            decreases rest.len(),
        {
            match rest.pop() {
                Some(item) => {
                    reversed.push(item.apply_substitution(substitution));
                },
                None => {},
            }
        }
        let mut out: Vec<T> = Vec::new();
        let ghost turned = reversed@;
        while reversed.len() > 0
            invariant
                reversed@.len() + out@.len() == n,
                turned.len() == n,
                reversed@ == turned.subrange(0, reversed@.len() as int),
                forall|j: int| 0 <= j < out@.len() ==> out@[j] == #[trigger] turned[n - 1 - j],
            decreases reversed.len(),
        {
            match reversed.pop() {
                Some(item) => {
                    out.push(item);
                },
                None => {},
            }
        }
        assert forall|i: int| 0 <= i < n implies #[trigger] start[i].becomes(s, &out@[i]) by {
            assert(out@[i] == turned[n - 1 - i]);
            assert(start[n - 1 - (n - 1 - i)].becomes(s, &turned[n - 1 - i]));
        }
        out
    }
}

impl Substituable for Substitution {
    open spec fn free(&self) -> Set<TyVar> {
        free_in_values(subst_map(*self))
    }

    open spec fn becomes(&self, s: Map<Seq<char>, Ty>, result: &Self) -> bool {
        subst_map(*result) == subst_values(subst_map(*self), s)
    }

    fn free_variables(&self) -> (r: im::HashSet<VarName>) {
        let keys = subst_keys(self);
        let ghost m = subst_map(*self);
        let mut out = var_set_new();
        let mut i: usize = 0;
        while i < keys.len()
            invariant
                i <= keys.len(),
                m == subst_map(*self),
                forall|j: int| 0 <= j < keys@.len() ==> m.contains_key(#[trigger] keys@[j]@),
                forall|v: TyVar| #[trigger]
                    var_set(out).contains(v) <==> exists|j: int|
                        0 <= j < i && #[trigger] m[keys@[j]@].free_variables().contains(v),
            decreases keys.len() - i,
        {
            match subst_get(self, &keys[i]) {
                Some(bound) => {
                    out = var_set_union(out, free_variables(bound));
                },
                None => {},
            }
            i += 1;
        }
        assert forall|v: TyVar| var_set(out).contains(v) <==> self.free().contains(v) by {
            if self.free().contains(v) {
                let k = choose|k: Seq<char>| m.contains_key(k) && #[trigger] m[k].free_variables().contains(v);
                let j = choose|j: int| 0 <= j < keys@.len() && keys@[j]@ == k;
                assert(m[keys@[j]@].free_variables().contains(v));
            }
            if var_set(out).contains(v) {
                let j = choose|j: int| 0 <= j < i && #[trigger] m[keys@[j]@].free_variables().contains(v);
                assert(m.contains_key(keys@[j]@));
            }
        }
        assert(var_set(out) =~= self.free());
        out
    }

    fn apply_substitution(self, substitution: &Substitution) -> (r: Self) {
        apply_substitution_map(self, substitution)
    }
}

impl Substituable for TypeEnv {
    open spec fn free(&self) -> Set<TyVar> {
        free_in_values(self@)
    }

    open spec fn becomes(&self, s: Map<Seq<char>, Ty>, result: &Self) -> bool {
        result@ == subst_values(self@, s)
    }

    fn free_variables(&self) -> (r: im::HashSet<VarName>) {
        self.free_variable_set()
    }

    fn apply_substitution(self, substitution: &Substitution) -> (r: Self) {
        self.substituted(substitution)
    }
}

impl Substituable for TypeContext {
    open spec fn free(&self) -> Set<TyVar> {
        free_in_values(self@.environment)
    }

    open spec fn becomes(&self, s: Map<Seq<char>, Ty>, result: &Self) -> bool {
        result@ == self@.with_substitution(s)
    }

    fn free_variables(&self) -> (r: im::HashSet<VarName>) {
        self.environment_variables()
    }

    fn apply_substitution(self, substitution: &Substitution) -> (r: Self) {
        let mut context = self;
        context.with_substitution(substitution);
        context
    }
}

} // verus!
