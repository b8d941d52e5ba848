//! Free type variables.

use crate::collections::{var_set, var_set_insert, var_set_items, var_set_new, var_set_union};
use crate::types::{lemma_scheme_view, var_eq, var_views, Ty, TyVar, Type, VarName};
use vstd::prelude::*;

verus! {

/// Whether one of the quantifiers `vs` has the name `name`.
pub open spec fn quantifies(vs: Seq<TyVar>, name: Seq<char>) -> bool {
    exists|i: int| 0 <= i < vs.len() && #[trigger] vs[i].name == name
}

impl Ty {
    /// The variables that occur in the type outside the reach of a
    /// quantifier of the same name. Kinds are not searched.
    pub open spec fn free_variables(self) -> Set<TyVar>
        decreases self,
    {
        match self {
            Ty::Variable(v) => set![v],
            Ty::Apply(f, x) => f.free_variables().union(x.free_variables()),
            Ty::Scheme(vs, body) => body.free_variables().filter(unquantified(vs)),
            _ => Set::empty(),
        }
    }

    /// The free variables in the order of their first occurrence, each
    /// once.
    pub open spec fn free_variable_list(self) -> Seq<TyVar>
        decreases self,
    {
        match self {
            Ty::Variable(v) => seq![v],
            Ty::Apply(f, x) => append_new(f.free_variable_list(), x.free_variable_list()),
            Ty::Scheme(vs, body) => keep_all(body.free_variable_list(), unquantified(vs)),
            _ => Seq::empty(),
        }
    }

    /// Whether a variable named `name` occurs free in the type.
    pub open spec fn mentions(self, name: Seq<char>) -> bool {
        exists|v: TyVar| #[trigger] self.free_variables().contains(v) && v.name == name
    }
}

/// Those of the first `n` elements of `l` that `keep` accepts, in order.
pub open spec fn keep_prefix(l: Seq<TyVar>, keep: spec_fn(TyVar) -> bool, n: nat) -> Seq<TyVar>
    decreases n,
{
    if n == 0 || n > l.len() {
        Seq::empty()
    } else {
        let before = keep_prefix(l, keep, (n - 1) as nat);
        if keep(l[n - 1]) {
            before.push(l[n - 1])
        } else {
            before
        }
    }
}

/// The elements of `l` that `keep` accepts, in order.
pub open spec fn keep_all(l: Seq<TyVar>, keep: spec_fn(TyVar) -> bool) -> Seq<TyVar> {
    keep_prefix(l, keep, l.len())
}

/// The test that accepts what `a` does not hold.
pub open spec fn absent_from(a: Seq<TyVar>) -> spec_fn(TyVar) -> bool {
    |v: TyVar| !a.contains(v)
}

/// The test that accepts the names that none of the quantifiers `vs` has.
pub open spec fn unquantified(vs: Seq<TyVar>) -> spec_fn(TyVar) -> bool {
    |v: TyVar| !quantifies(vs, v.name)
}

/// `a`, followed by the elements of `b` that `a` does not hold.
pub open spec fn append_new(a: Seq<TyVar>, b: Seq<TyVar>) -> Seq<TyVar> {
    a + keep_all(b, absent_from(a))
}

/// What `keep_prefix` holds: the accepted ones among the first `n`
/// elements, and no duplicates where `l` has none.
pub proof fn lemma_keep_prefix(l: Seq<TyVar>, keep: spec_fn(TyVar) -> bool, n: nat)
    requires
        n <= l.len(),
    ensures
        forall|v: TyVar|
            #[trigger] keep_prefix(l, keep, n).contains(v) <==> keep(v) && exists|i: int|
                0 <= i < n && l[i] == v,
        l.no_duplicates() ==> keep_prefix(l, keep, n).no_duplicates(),
    decreases n,
{
    if n == 0 {
    } else {
        let before = keep_prefix(l, keep, (n - 1) as nat);
        lemma_keep_prefix(l, keep, (n - 1) as nat);
        let last = l[n - 1];
        let now = keep_prefix(l, keep, n);
        assert forall|v: TyVar| now.contains(v) <==> keep(v) && exists|i: int|
            0 <= i < n && l[i] == v by {
            if now.contains(v) {
                let j = choose|j: int| 0 <= j < now.len() && now[j] == v;
                if j < before.len() {
                    assert(before.contains(v));
                } else {
                    assert(l[n - 1] == v);
                }
            }
            if keep(v) && exists|i: int| 0 <= i < n && l[i] == v {
                let i = choose|i: int| 0 <= i < n && l[i] == v;
                if i < n - 1 {
                    assert(before.contains(v));
                    let j = choose|j: int| 0 <= j < before.len() && before[j] == v;
                    assert(now[j] == v);
                } else {
                    assert(now[before.len() as int] == v);
                }
            }
        }
        if l.no_duplicates() && keep(last) {
            assert(!before.contains(last)) by {
                if before.contains(last) {
                    let i = choose|i: int| 0 <= i < n - 1 && l[i] == last;
                    assert(l[i] == l[n - 1]);
                }
            }
            assert forall|i: int, j: int| 0 <= i < now.len() && 0 <= j < now.len() && i != j implies now[i]
                != now[j] by {
                if i < before.len() && j < before.len() {
                } else if i < before.len() {
                    assert(before.contains(now[i]));
                } else {
                    assert(before.contains(now[j]));
                }
            }
        }
    }
}

/// What `keep_all` holds: the accepted elements of `l`, and no duplicates
/// where `l` has none.
pub proof fn lemma_keep_all(l: Seq<TyVar>, keep: spec_fn(TyVar) -> bool)
    ensures
        forall|v: TyVar| #[trigger] keep_all(l, keep).contains(v) <==> keep(v) && l.contains(v),
        l.no_duplicates() ==> keep_all(l, keep).no_duplicates(),
{
    lemma_keep_prefix(l, keep, l.len());
}

/// What `append_new` holds: the elements of both, and no duplicates where
/// neither has any.
pub proof fn lemma_append_new(a: Seq<TyVar>, b: Seq<TyVar>)
    ensures
        forall|v: TyVar| #[trigger] append_new(a, b).contains(v) <==> a.contains(v) || b.contains(v),
        a.no_duplicates() && b.no_duplicates() ==> append_new(a, b).no_duplicates(),
{
    let keep = absent_from(a);
    let rest = keep_all(b, keep);
    let now = append_new(a, b);
    lemma_keep_all(b, keep);
    assert forall|v: TyVar| now.contains(v) <==> a.contains(v) || b.contains(v) by {
        if now.contains(v) {
            let j = choose|j: int| 0 <= j < now.len() && now[j] == v;
            if j < a.len() {
                assert(a[j] == v);
            } else {
                assert(rest[j - a.len()] == v);
                assert(rest.contains(v));
            }
        }
        if a.contains(v) {
            let j = choose|j: int| 0 <= j < a.len() && a[j] == v;
            assert(now[j] == v);
        } else if b.contains(v) {
            assert(rest.contains(v));
            let j = choose|j: int| 0 <= j < rest.len() && rest[j] == v;
            assert(now[a.len() + j] == v);
        }
    }
    if a.no_duplicates() && b.no_duplicates() {
        assert forall|i: int, j: int| 0 <= i < now.len() && 0 <= j < now.len() && i != j implies now[i]
            != now[j] by {
            if i < a.len() && j < a.len() {
                assert(now[i] == a[i] && now[j] == a[j]);
            } else if i >= a.len() && j >= a.len() {
                assert(now[i] == rest[i - a.len()]);
                assert(now[j] == rest[j - a.len()]);
                assert(rest.no_duplicates());
            } else if i < a.len() {
                let r = rest[j - a.len()];
                assert(now[i] == a[i] && now[j] == r);
                assert(rest.contains(r));
                assert(keep(r));
                assert(a.contains(a[i]));
            } else {
                let r = rest[i - a.len()];
                assert(now[j] == a[j] && now[i] == r);
                assert(rest.contains(r));
                assert(keep(r));
                assert(a.contains(a[j]));
            }
        }
    }
}

/// The free-variable list holds each free variable once.
pub proof fn lemma_free_variable_list(t: Ty)
    ensures
        t.free_variable_list().no_duplicates(),
        forall|v: TyVar| #[trigger]
            t.free_variable_list().contains(v) <==> t.free_variables().contains(v),
    decreases t,
{
    match t {
        Ty::Variable(v) => {
            let l = t.free_variable_list();
            assert(l.len() == 1 && l[0] == v);
            assert forall|x: TyVar| l.contains(x) <==> t.free_variables().contains(x) by {
                if l.contains(x) {
                    let i = choose|i: int| 0 <= i < l.len() && l[i] == x;
                }
            }
        },
        Ty::Apply(f, x) => {
            lemma_free_variable_list(*f);
            lemma_free_variable_list(*x);
            lemma_append_new(f.free_variable_list(), x.free_variable_list());
        },
        Ty::Scheme(vs, body) => {
            lemma_free_variable_list(*body);
            lemma_keep_all(body.free_variable_list(), unquantified(vs));
        },
        _ => {},
    }
}

/// Whether one of the quantifiers `vs` is named `name`.
pub fn has_name(vs: &Vec<VarName>, name: &String) -> (r: bool)
    ensures
        r == quantifies(var_views(vs@), name@),
{
    let mut i: usize = 0;
    while i < vs.len()
        invariant
            i <= vs.len(),
            forall|j: int| 0 <= j < i ==> var_views(vs@)[j].name != name@,
        decreases vs.len() - i,
    {
        if vs[i].name == *name {
            assert(var_views(vs@)[i as int].name == name@);
            return true;
        }
        i += 1;
    }
    false
}

/// Whether one of the first `n` names of `vs` equals `v`.
pub fn holds_var(vs: &Vec<VarName>, n: usize, v: &VarName) -> (r: bool)
    requires
        n <= vs.len(),
    ensures
        r == exists|j: int| 0 <= j < n && vs@[j]@ == v@,
{
    let mut i: usize = 0;
    while i < n
        invariant
            i <= n <= vs.len(),
            forall|j: int| 0 <= j < i ==> vs@[j]@ != v@,
        decreases n - i,
    {
        if var_eq(&vs[i], v) {
            return true;
        }
        i += 1;
    }
    false
}

/// The free variables of a type, as a set.
pub fn free_variables(t: &Type) -> (r: im::HashSet<VarName>)
    ensures
        var_set(r) == t@.free_variables(),
    decreases t,
{
    match t {
        Type::Variable(v) => {
            let mut out = var_set_new();
            var_set_insert(&mut out, v.clone());
            assert(var_set(out) =~= set![v@]);
            out
        },
        Type::TApply(f, x) => var_set_union(free_variables(&**f), free_variables(&**x)),
        Type::Scheme { variables, ty } => {
            proof {
                lemma_scheme_view(*variables, *ty);
            }
            let inner = free_variables(&**ty);
            let items = var_set_items(&inner);
            let mut out = var_set_new();
            let mut i: usize = 0;
            let ghost vs = var_views(variables@);
            while i < items.len()
                invariant
                    i <= items.len(),
                    vs == var_views(variables@),
                    forall|v: TyVar| #[trigger]
                        var_set(out).contains(v) <==> !quantifies(vs, v.name) && exists|j: int|
                            0 <= j < i && items@[j]@ == v,
                decreases items.len() - i,
            {
                if !has_name(variables, &items[i].name) {
                    var_set_insert(&mut out, items[i].clone());
                }
                i += 1;
            }
            assert(var_set(out) =~= var_set(inner).filter(unquantified(vs)));
            out
        },
        _ => var_set_new(),
    }
}

/// The free variables of a type in the order of their first occurrence,
/// each once.
pub fn free_variable_list(t: &Type) -> (r: Vec<VarName>)
    ensures
        var_views(r@) == t@.free_variable_list(),
    decreases t,
{
    match t {
        Type::Variable(v) => {
            let mut out: Vec<VarName> = Vec::new();
            out.push(v.clone());
            assert(var_views(out@) =~= seq![v@]);
            out
        },
        Type::TApply(f, x) => {
            let mut out = free_variable_list(&**f);
            let more = free_variable_list(&**x);
            let n = out.len();
            let ghost a = var_views(out@);
            let ghost b = var_views(more@);
            let mut i: usize = 0;
            assert(var_views(out@) =~= a + keep_prefix(b, absent_from(a), 0));
            while i < more.len()
                invariant
                    i <= more.len(),
                    n == a.len(),
                    n <= out.len(),
                    b == var_views(more@),
                    var_views(out@) == a + keep_prefix(b, absent_from(a), i as nat),
                decreases more.len() - i,
            {
                let ghost before = var_views(out@);
                assert(forall|j: int| 0 <= j < n ==> out@[j]@ == before[j]);
                assert(forall|j: int| 0 <= j < n ==> before[j] == a[j]);
                if !holds_var(&out, n, &more[i]) {
                    out.push(more[i].clone());
                    assert(!a.contains(b[i as int]));
                    assert(var_views(out@) =~= before.push(b[i as int]));
                } else {
                    let ghost j = choose|j: int| 0 <= j < n && out@[j]@ == more@[i as int]@;
                    assert(a[j] == b[i as int]);
                    assert(a.contains(b[i as int]));
                }
                i += 1;
                assert(var_views(out@) =~= a + keep_prefix(b, absent_from(a), i as nat));
            }
            out
        },
        Type::Scheme { variables, ty } => {
            proof {
                lemma_scheme_view(*variables, *ty);
            }
            let inner = free_variable_list(&**ty);
            let mut out: Vec<VarName> = Vec::new();
            let ghost vs = var_views(variables@);
            let ghost l = var_views(inner@);
            let mut i: usize = 0;
            assert(var_views(out@) =~= keep_prefix(l, unquantified(vs), 0));
            while i < inner.len()
                invariant
                    i <= inner.len(),
                    vs == var_views(variables@),
                    l == var_views(inner@),
                    var_views(out@) == keep_prefix(l, unquantified(vs), i as nat),
                decreases inner.len() - i,
            {
                let ghost before = var_views(out@);
                if !has_name(variables, &inner[i].name) {
                    out.push(inner[i].clone());
                    assert(var_views(out@) =~= before.push(l[i as int]));
                }
                i += 1;
            }
            out
        },
        _ => {
            let out: Vec<VarName> = Vec::new();
            assert(var_views(out@) =~= Seq::<TyVar>::empty());
            out
        },
    }
}

impl Type {
    /// Whether a variable named `variable` occurs free in the type.
    pub fn is_recursive(&self, variable: &String) -> (r: bool)
        ensures
            r == self@.mentions(variable@),
    {
        let set = free_variables(self);
        let items = var_set_items(&set);
        let mut i: usize = 0;
        while i < items.len()
            invariant
                i <= items.len(),
                forall|j: int| 0 <= j < i ==> items@[j]@.name != variable@,
                forall|j: int|
                    0 <= j < items@.len() ==> self@.free_variables().contains(#[trigger] items@[j]@),
            decreases items.len() - i,
        {
            if items[i].name == *variable {
                assert(self@.free_variables().contains(items@[i as int]@));
                return true;
            }
            i += 1;
        }
        assert forall|v: TyVar| #[trigger] self@.free_variables().contains(v) implies v.name
            != variable@ by {
            let j = choose|j: int| 0 <= j < items@.len() && items@[j]@ == v;
        }
        false
    }
}

} // verus!
