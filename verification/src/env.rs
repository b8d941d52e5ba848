//! The typing environment: what is known of each identifier in scope.

use crate::collections::{subst_map, var_set, var_set_new, var_set_union, Substitution};
use crate::substitution::{apply_type, subst_values};
use crate::types::{clone_type, Ty, TyVar, Type, VarName};
use crate::vars::free_variables;
use vstd::prelude::*;

verus! {

/// The free variables of the types that `m` binds names to.
pub open spec fn free_in_values(m: Map<Seq<char>, Ty>) -> Set<TyVar> {
    Set::new(
        |v: TyVar|
            exists|k: Seq<char>| m.contains_key(k) && #[trigger] m[k].free_variables().contains(v),
    )
}

/// What the first `n` entries bind: each name to the type of its last
/// entry.
pub open spec fn bindings(entries: Seq<(String, Type)>, n: nat) -> Map<Seq<char>, Ty>
    decreases n,
{
    if n == 0 || n > entries.len() {
        Map::empty()
    } else {
        bindings(entries, (n - 1) as nat).insert(entries[n - 1].0@, entries[n - 1].1@)
    }
}

/// A finite mapping from identifiers to types. A later entry for a name
/// hides an earlier one.
#[derive(Debug)]
pub struct TypeEnv {
    pub(crate) entries: Vec<(String, Type)>,
}

impl View for TypeEnv {
    type V = Map<Seq<char>, Ty>;

    closed spec fn view(&self) -> Map<Seq<char>, Ty> {
        bindings(self.entries@, self.entries@.len())
    }
}

/// A name is bound by the first `n` entries exactly when one of them has
/// it, and then to the type of the last of these.
pub proof fn lemma_bindings(entries: Seq<(String, Type)>, n: nat, name: Seq<char>)
    requires
        n <= entries.len(),
    ensures
        bindings(entries, n).contains_key(name) <==> exists|j: int|
            0 <= j < n && entries[j].0@ == name,
        forall|j: int|
            0 <= j < n && entries[j].0@ == name && (forall|k: int| j < k < n ==> entries[k].0@ != name)
                ==> bindings(entries, n)[name] == entries[j].1@,
    decreases n,
{
    if n > 0 {
        lemma_bindings(entries, (n - 1) as nat, name);
        if entries[n - 1].0@ == name {
        } else {
            if bindings(entries, n).contains_key(name) {
                let j = choose|j: int| 0 <= j < n - 1 && entries[j].0@ == name;
            }
        }
    }
}

impl TypeEnv {
    /// The environment without entries.
    pub fn new() -> (r: TypeEnv)
        ensures
            r@ == Map::<Seq<char>, Ty>::empty(),
    {
        TypeEnv { entries: Vec::new() }
    }

    /// Binds `name` to `ty`, hiding what it was bound to.
    pub fn insert(&mut self, name: String, ty: Type)
        ensures
            final(self)@ == old(self)@.insert(name@, ty@),
    {
        let ghost before = self.entries@;
        self.entries.push((name, ty));
        proof {
            lemma_bindings_prefix(before, self.entries@, before.len());
        }
    }

    /// The type that `name` is bound to, if any.
    pub fn get(&self, name: &String) -> (r: Option<&Type>)
        ensures
            match r {
                Some(t) => self@.contains_key(name@) && t@ == self@[name@],
                None => !self@.contains_key(name@),
            },
    {
        let mut i: usize = self.entries.len();
        while i > 0
            invariant
                i <= self.entries.len(),
                forall|k: int| i <= k < self.entries@.len() ==> self.entries@[k].0@ != name@,
            decreases i,
        {
            i -= 1;
            if self.entries[i].0 == *name {
                proof {
                    lemma_bindings(self.entries@, self.entries@.len(), name@);
                }
                return Some(&self.entries[i].1);
            }
        }
        proof {
            lemma_bindings(self.entries@, self.entries@.len(), name@);
        }
        None
    }

    /// Whether `name` is bound.
    pub fn contains_key(&self, name: &String) -> (r: bool)
        ensures
            r == self@.contains_key(name@),
    {
        self.get(name).is_some()
    }

    /// Whether one of the entries after position `i` has the name of entry
    /// `i`.
    fn hidden(&self, i: usize) -> (r: bool)
        requires
            i < self.entries.len(),
        ensures
            r == exists|k: int| i < k < self.entries@.len() && self.entries@[k].0@ == self.entries@[i as int].0@,
    {
        let mut k: usize = i + 1;
        while k < self.entries.len()
            invariant
                i < k <= self.entries.len(),
                forall|j: int| i < j < k ==> self.entries@[j].0@ != self.entries@[i as int].0@,
            decreases self.entries.len() - k,
        {
            if self.entries[k].0 == self.entries[i].0 {
                return true;
            }
            k += 1;
        }
        false
    }

    /// The free variables of the types that the environment binds names
    /// to.
    pub fn free_variable_set(&self) -> (r: im::HashSet<VarName>)
        ensures
            var_set(r) == free_in_values(self@),
    {
        let mut out = var_set_new();
        let mut i: usize = 0;
        let ghost entries = self.entries@;
        let ghost n = entries.len();
        while i < self.entries.len()
            invariant
                i <= self.entries.len(),
                entries == self.entries@,
                n == entries.len(),
                forall|v: TyVar| #[trigger]
                    var_set(out).contains(v) <==> exists|j: int|
                        0 <= j < i && #[trigger] entries[j].1@.free_variables().contains(v) && forall|
                            k: int,
                        |
                            j < k < n ==> entries[k].0@ != entries[j].0@,
            decreases self.entries.len() - i,
        {
            if !self.hidden(i) {
                out = var_set_union(out, free_variables(&self.entries[i].1));
            }
            i += 1;
        }
        proof {
            assert forall|v: TyVar|
                var_set(out).contains(v) <==> exists|k: Seq<char>|
                    self@.contains_key(k) && #[trigger] self@[k].free_variables().contains(v) by {
                if var_set(out).contains(v) {
                    let j = choose|j: int|
                        0 <= j < n && #[trigger] entries[j].1@.free_variables().contains(v) && forall|
                            k: int,
                        |
                            j < k < n ==> entries[k].0@ != entries[j].0@;
                    lemma_bindings(entries, n, entries[j].0@);
                    assert(self@[entries[j].0@].free_variables().contains(v));
                }
                if exists|k: Seq<char>|
                    self@.contains_key(k) && #[trigger] self@[k].free_variables().contains(v) {
                    let k = choose|k: Seq<char>|
                        self@.contains_key(k) && #[trigger] self@[k].free_variables().contains(v);
                    lemma_bindings(entries, n, k);
                    let j = last_entry(entries, k, n);
                    assert(entries[j].1@.free_variables().contains(v));
                }
            }
            assert(var_set(out) =~= free_in_values(self@));
        }
        out
    }

    /// Applies a substitution to every type of the environment.
    pub fn substituted(self, s: &Substitution) -> (r: TypeEnv)
        ensures
            r@ == subst_values(self@, subst_map(*s)),
    {
        let mut out: Vec<(String, Type)> = Vec::new();
        let mut i: usize = 0;
        while i < self.entries.len()
            invariant
                i <= self.entries.len(),
                out@.len() == i,
                forall|j: int|
                    0 <= j < i ==> out@[j].0@ == self.entries@[j].0@ && out@[j].1@
                        == self.entries@[j].1@.subst(subst_map(*s)),
            decreases self.entries.len() - i,
        {
            let name = self.entries[i].0.clone();
            let ty = apply_type(clone_type(&self.entries[i].1), s);
            out.push((name, ty));
            i += 1;
        }
        proof {
            lemma_bindings_substituted(self.entries@, out@, subst_map(*s), out@.len());
        }
        TypeEnv { entries: out }
    }
}

impl Clone for TypeEnv {
    fn clone(&self) -> (r: Self)
        ensures
            r@ == self@,
    {
        let mut out: Vec<(String, Type)> = Vec::new();
        let mut i: usize = 0;
        while i < self.entries.len()
            invariant
                i <= self.entries.len(),
                out@.len() == i,
                forall|j: int|
                    0 <= j < i ==> out@[j].0@ == self.entries@[j].0@ && out@[j].1@
                        == self.entries@[j].1@,
            decreases self.entries.len() - i,
        {
            out.push((self.entries[i].0.clone(), clone_type(&self.entries[i].1)));
            i += 1;
        }
        proof {
            lemma_bindings_same(self.entries@, out@, out@.len());
        }
        TypeEnv { entries: out }
    }
}

/// The position of the last of the first `n` entries that has the name
/// `name`.
pub proof fn last_entry(entries: Seq<(String, Type)>, name: Seq<char>, n: nat) -> (j: int)
    requires
        n <= entries.len(),
        exists|i: int| 0 <= i < n && entries[i].0@ == name,
    ensures
        0 <= j < n,
        entries[j].0@ == name,
        forall|k: int| j < k < n ==> entries[k].0@ != name,
    decreases n,
{
    if entries[n - 1].0@ == name {
        n - 1
    } else {
        let i = choose|i: int| 0 <= i < n && entries[i].0@ == name;
        assert(i < n - 1);
        last_entry(entries, name, (n - 1) as nat)
    }
}

/// The bindings of a prefix do not depend on what follows it.
pub proof fn lemma_bindings_prefix(a: Seq<(String, Type)>, b: Seq<(String, Type)>, n: nat)
    requires
        n <= a.len() <= b.len(),
        forall|j: int| 0 <= j < a.len() ==> a[j] == b[j],
    ensures
        bindings(a, n) == bindings(b, n),
    decreases n,
{
    if n > 0 {
        lemma_bindings_prefix(a, b, (n - 1) as nat);
    }
}

/// Entries with the same models bind the same.
pub proof fn lemma_bindings_same(a: Seq<(String, Type)>, b: Seq<(String, Type)>, n: nat)
    requires
        n <= a.len(),
        a.len() == b.len(),
        forall|j: int| 0 <= j < a.len() ==> a[j].0@ == b[j].0@ && a[j].1@ == b[j].1@,
    ensures
        bindings(a, n) == bindings(b, n),
    decreases n,
{
    if n > 0 {
        lemma_bindings_same(a, b, (n - 1) as nat);
    }
}

/// Applying a substitution entry by entry applies it to what is bound.
pub proof fn lemma_bindings_substituted(
    a: Seq<(String, Type)>,
    b: Seq<(String, Type)>,
    s: Map<Seq<char>, Ty>,
    n: nat,
)
    requires
        n <= a.len(),
        a.len() == b.len(),
        forall|j: int| 0 <= j < a.len() ==> a[j].0@ == b[j].0@ && b[j].1@ == a[j].1@.subst(s),
    ensures
        bindings(b, n) == subst_values(bindings(a, n), s),
    decreases n,
{
    if n > 0 {
        lemma_bindings_substituted(a, b, s, (n - 1) as nat);
        assert(bindings(b, n) =~= subst_values(bindings(a, n), s));
    } else {
        assert(bindings(b, n) =~= subst_values(bindings(a, n), s));
    }
}

} // verus!
