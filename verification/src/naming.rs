//! Where the names of type variables come from: the solver and the
//! inference engine make no variable whose name is not that of a variable
//! they were given, or a fresh one.

use crate::context::{fresh_bindings, fresh_name, unbound_in, Context};
use crate::errors::Constraint;
use crate::kinds::{lemma_fresh_bindings_flat, lemma_subst_spine};
use crate::substitution::{compose, safe_compose, subst_constraints, subst_types, subst_values};
use crate::types::{Ty, TyVar};
use crate::vars::{keep_all, lemma_append_new, lemma_keep_all, unquantified};
use vstd::prelude::*;

verus! {

impl Ty {
    /// Whether every variable of the type, in kinds and under quantifiers
    /// too, has a name that `p` accepts.
    pub open spec fn named(self, p: spec_fn(Seq<char>) -> bool) -> bool
        decreases self,
    {
        match self {
            Ty::Variable(v) => p(v.name) && v.kind.named(p),
            Ty::Constructor(v) => v.kind.named(p),
            Ty::Apply(f, x) => f.named(p) && x.named(p),
            Ty::Scheme(vs, body) => body.named(p) && forall|i: int|
                0 <= i < vs.len() ==> (#[trigger] vs[i]).kind.named(p),
            _ => true,
        }
    }
}

impl Constraint {
    /// Whether both sides are named by `p`.
    pub open spec fn named(self, p: spec_fn(Seq<char>) -> bool) -> bool {
        match self {
            Constraint::Match(a, b) => a.named(p) && b.named(p),
            Constraint::Unify(a, b) => a.named(p) && b.named(p),
        }
    }
}

/// The test that accepts every name.
pub open spec fn always() -> spec_fn(Seq<char>) -> bool {
    |n: Seq<char>| true
}

/// Every type is named by the test that accepts every name.
pub proof fn lemma_named_always(t: Ty)
    ensures
        t.named(always()),
    decreases t,
{
    match t {
        Ty::Variable(v) => {
            lemma_named_always(*v.kind);
        },
        Ty::Constructor(v) => {
            lemma_named_always(*v.kind);
        },
        Ty::Apply(f, x) => {
            lemma_named_always(*f);
            lemma_named_always(*x);
        },
        Ty::Scheme(vs, body) => {
            lemma_named_always(*body);
            assert forall|i: int| 0 <= i < vs.len() implies (#[trigger] vs[i]).kind.named(always()) by {
                lemma_named_always(*vs[i].kind);
            }
        },
        _ => {},
    }
}

/// Whether `p` accepts the name of every fresh variable.
pub open spec fn fresh_named(p: spec_fn(Seq<char>) -> bool) -> bool {
    forall|i: nat| p(#[trigger] fresh_name(i))
}

/// Whether every type that `m` binds a name to is named by `p`.
pub open spec fn map_named(m: Map<Seq<char>, Ty>, p: spec_fn(Seq<char>) -> bool) -> bool {
    forall|k: Seq<char>| #[trigger] m.contains_key(k) ==> m[k].named(p)
}

/// Whether every type of the list is named by `p`.
pub open spec fn types_named(ts: Seq<Ty>, p: spec_fn(Seq<char>) -> bool) -> bool {
    forall|i: int| 0 <= i < ts.len() ==> (#[trigger] ts[i]).named(p)
}

/// Whether every constraint of the list is named by `p`.
pub open spec fn constraints_named(cs: Seq<Constraint>, p: spec_fn(Seq<char>) -> bool) -> bool {
    forall|i: int| 0 <= i < cs.len() ==> (#[trigger] cs[i]).named(p)
}

/// Whether a step of the solver left constraints named by `p` and gave,
/// if it gave any, a substitution named by `p`; and if it failed, not for
/// an identifier out of scope.
pub open spec fn step_named(
    step: (Context, Result<Map<Seq<char>, Ty>, crate::errors::Failure>),
    p: spec_fn(Seq<char>) -> bool,
) -> bool {
    &&& constraints_named(step.0.constraints, p)
    &&& step.1 is Ok ==> map_named(step.1->Ok_0, p)
    &&& step.1 is Err ==> !(step.1->Err_0 is NotInScope)
}

/// Whether a step left constraints named by `p` and gave, if it gave any,
/// a type named by `p`.
pub open spec fn type_step_named(
    step: (Context, Result<Ty, crate::errors::Failure>),
    p: spec_fn(Seq<char>) -> bool,
) -> bool {
    &&& constraints_named(step.0.constraints, p)
    &&& step.1 is Ok ==> (step.1->Ok_0).named(p)
    &&& step.1 is Err ==> !(step.1->Err_0 is NotInScope)
}

/// Substitution keeps names.
pub proof fn lemma_subst_named(t: Ty, m: Map<Seq<char>, Ty>, p: spec_fn(Seq<char>) -> bool)
    requires
        t.named(p),
        map_named(m, p),
    ensures
        t.subst(m).named(p),
    decreases t,
{
    match t {
        Ty::Apply(f, x) => {
            lemma_subst_named(*f, m, p);
            lemma_subst_named(*x, m, p);
        },
        _ => {},
    }
}

/// Substitution in a list keeps names.
pub proof fn lemma_subst_types_named(ts: Seq<Ty>, m: Map<Seq<char>, Ty>, p: spec_fn(Seq<char>) -> bool)
    requires
        types_named(ts, p),
        map_named(m, p),
    ensures
        types_named(subst_types(ts, m), p),
{
    assert forall|i: int| 0 <= i < ts.len() implies (#[trigger] subst_types(ts, m)[i]).named(p) by {
        assert(ts[i].named(p));
        lemma_subst_named(ts[i], m, p);
    }
}

/// Substitution in constraints keeps names.
pub proof fn lemma_subst_constraints_named(
    cs: Seq<Constraint>,
    m: Map<Seq<char>, Ty>,
    p: spec_fn(Seq<char>) -> bool,
)
    requires
        constraints_named(cs, p),
        map_named(m, p),
    ensures
        constraints_named(subst_constraints(cs, m), p),
{
    assert forall|i: int| 0 <= i < cs.len() implies (#[trigger] subst_constraints(cs, m)[i]).named(
        p,
    ) by {
        assert(cs[i].named(p));
        match cs[i] {
            Constraint::Match(a, b) => {
                lemma_subst_named(a, m, p);
                lemma_subst_named(b, m, p);
            },
            Constraint::Unify(a, b) => {
                lemma_subst_named(a, m, p);
                lemma_subst_named(b, m, p);
            },
        }
    }
}

/// Substitution in what a map binds keeps names.
pub proof fn lemma_subst_values_named(
    m: Map<Seq<char>, Ty>,
    s: Map<Seq<char>, Ty>,
    p: spec_fn(Seq<char>) -> bool,
)
    requires
        map_named(m, p),
        map_named(s, p),
    ensures
        map_named(subst_values(m, s), p),
{
    assert forall|k: Seq<char>| #[trigger] subst_values(m, s).contains_key(k) implies subst_values(
        m,
        s,
    )[k].named(p) by {
        assert(m.contains_key(k));
        lemma_subst_named(m[k], s, p);
    }
}

/// Composition keeps names.
pub proof fn lemma_compose_named(
    later: Map<Seq<char>, Ty>,
    earlier: Map<Seq<char>, Ty>,
    p: spec_fn(Seq<char>) -> bool,
)
    requires
        map_named(later, p),
        map_named(earlier, p),
    ensures
        map_named(compose(later, earlier), p),
{
    lemma_subst_values_named(earlier, later, p);
    let applied = subst_values(earlier, later);
    assert forall|k: Seq<char>| #[trigger] compose(later, earlier).contains_key(k) implies compose(
        later,
        earlier,
    )[k].named(p) by {
        if later.contains_key(k) {
        } else {
            assert(applied.contains_key(k));
        }
    }
}

/// Joining keeps names.
pub proof fn lemma_safe_compose_named(
    a: Map<Seq<char>, Ty>,
    b: Map<Seq<char>, Ty>,
    p: spec_fn(Seq<char>) -> bool,
)
    requires
        map_named(a, p),
        map_named(b, p),
    ensures
        safe_compose(a, b) is Ok ==> map_named(safe_compose(a, b)->Ok_0, p),
        safe_compose(a, b) is Err ==> safe_compose(a, b)->Err_0 is SubstitutionConflict,
{
    let joined = a.union_prefer_right(b);
    assert forall|k: Seq<char>| #[trigger] joined.contains_key(k) implies joined[k].named(p) by {
        if b.contains_key(k) {
        } else {
            assert(a.contains_key(k));
        }
    }
}

/// The variables that instantiation makes are named.
pub proof fn lemma_fresh_bindings_named(
    vs: Seq<TyVar>,
    start: nat,
    n: nat,
    p: spec_fn(Seq<char>) -> bool,
)
    requires
        fresh_named(p),
        forall|i: int| 0 <= i < vs.len() ==> (#[trigger] vs[i]).kind.named(p),
    ensures
        map_named(fresh_bindings(vs, start, n), p),
    decreases n,
{
    if n == 0 || n > vs.len() {
    } else {
        lemma_fresh_bindings_named(vs, start, (n - 1) as nat, p);
        let before = fresh_bindings(vs, start, (n - 1) as nat);
        let now = fresh_bindings(vs, start, n);
        assert(vs[n - 1].kind.named(p));
        assert(p(fresh_name((start + n - 1) as nat)));
        assert forall|k: Seq<char>| #[trigger] now.contains_key(k) implies now[k].named(p) by {
            if k != vs[n - 1].name {
                assert(before.contains_key(k));
            }
        }
    }
}

/// An instance of a named type is named.
pub proof fn lemma_instantiate_named(cx: Context, t: Ty, p: spec_fn(Seq<char>) -> bool)
    requires
        fresh_named(p),
        t.named(p),
        constraints_named(cx.constraints, p),
    ensures
        type_step_named(cx.instantiate(t), p),
{
    match t {
        Ty::Scheme(vs, body) => {
            lemma_fresh_bindings_named(vs, cx.next_id, vs.len(), p);
            lemma_subst_named(*body, fresh_bindings(vs, cx.next_id, vs.len()), p);
        },
        _ => {},
    }
}

/// The free variables of a named type have accepted names and named
/// kinds.
pub proof fn lemma_free_list_named(t: Ty, p: spec_fn(Seq<char>) -> bool)
    requires
        t.named(p),
    ensures
        forall|v: TyVar| #[trigger]
            t.free_variable_list().contains(v) ==> p(v.name) && v.kind.named(p),
    decreases t,
{
    match t {
        Ty::Variable(v) => {
            let l = t.free_variable_list();
            assert forall|x: TyVar| #[trigger] l.contains(x) implies p(x.name) && x.kind.named(p) by {
                let i = choose|i: int| 0 <= i < l.len() && l[i] == x;
                assert(l[0] == v);
            }
        },
        Ty::Apply(f, x) => {
            lemma_free_list_named(*f, p);
            lemma_free_list_named(*x, p);
            lemma_append_new(f.free_variable_list(), x.free_variable_list());
        },
        Ty::Scheme(vs, body) => {
            lemma_free_list_named(*body, p);
            lemma_keep_all(body.free_variable_list(), unquantified(vs));
        },
        _ => {},
    }
}

/// Closing a named type gives a named scheme.
pub proof fn lemma_generalize_named(t: Ty, env: Map<Seq<char>, Ty>, p: spec_fn(Seq<char>) -> bool)
    requires
        t.named(p),
    ensures
        t.generalize(env).named(p),
{
    lemma_free_list_named(t, p);
    let vs = keep_all(t.free_variable_list(), unbound_in(env));
    lemma_keep_all(t.free_variable_list(), unbound_in(env));
    assert forall|i: int| 0 <= i < vs.len() implies (#[trigger] vs[i]).kind.named(p) by {
        assert(vs.contains(vs[i]));
    }
}

/// Two tests that agree on the elements of a list keep the same
/// elements.
pub proof fn lemma_keep_alike(
    l: Seq<TyVar>,
    first: spec_fn(TyVar) -> bool,
    second: spec_fn(TyVar) -> bool,
    n: nat,
)
    requires
        n <= l.len(),
        forall|v: TyVar| #[trigger] l.contains(v) ==> first(v) == second(v),
    ensures
        crate::vars::keep_prefix(l, first, n) == crate::vars::keep_prefix(l, second, n),
    decreases n,
{
    if n > 0 {
        lemma_keep_alike(l, first, second, (n - 1) as nat);
        assert(l.contains(l[n - 1]));
    }
}

/// The kind of a named type is named, and so are the constraints that
/// computing it adds.
pub proof fn lemma_kind_named(cx: Context, t: Ty, p: spec_fn(Seq<char>) -> bool)
    requires
        fresh_named(p),
        t.named(p),
        constraints_named(cx.constraints, p),
    ensures
        type_step_named(cx.kind_of(t), p),
    decreases t.spine(),
{
    match t {
        Ty::Scheme(vs, body) => {
            let (c, r) = cx.instantiate(t);
            lemma_instantiate_named(cx, t, p);
            if r is Ok {
                lemma_fresh_bindings_flat(vs, cx.next_id, vs.len());
                lemma_subst_spine(*body, fresh_bindings(vs, cx.next_id, vs.len()));
                lemma_kind_named(c, r->Ok_0, p);
            }
        },
        Ty::ArrowKind => {
            let arrow = Ty::arrow(Ty::NoKind, Ty::arrow(Ty::NoKind, Ty::NoKind));
            assert(arrow.named(p)) by {
                reveal_with_fuel(Ty::named, 5);
            }
            lemma_generalize_named(arrow, cx.environment, p);
        },
        Ty::Apply(f, x) => {
            if *f != Ty::ArrowKind {
                let (c1, k) = cx.fresh(Ty::NoKind);
                if k is Ok {
                    assert(p(fresh_name(cx.next_id)));
                    assert((k->Ok_0).named(p)) by {
                        reveal_with_fuel(Ty::named, 2);
                    }
                    lemma_kind_named(c1, *x, p);
                    let (c2, ki) = c1.kind_of(*x);
                    if ki is Ok {
                        lemma_kind_named(c2, *f, p);
                        let (c3, kf) = c2.kind_of(*f);
                        if kf is Ok {
                            let added = Constraint::Unify(kf->Ok_0, Ty::arrow(ki->Ok_0, k->Ok_0));
                            assert(added.named(p)) by {
                                reveal_with_fuel(Ty::named, 3);
                            }
                            lemma_push_named(c3.constraints, added, p);
                        }
                    }
                }
            }
        },
        _ => {},
    }
}

/// One more named constraint keeps the list named.
pub proof fn lemma_push_named(cs: Seq<Constraint>, c: Constraint, p: spec_fn(Seq<char>) -> bool)
    requires
        constraints_named(cs, p),
        c.named(p),
    ensures
        constraints_named(cs.push(c), p),
{
    assert forall|i: int| 0 <= i < cs.push(c).len() implies (#[trigger] cs.push(c)[i]).named(p) by {
        if i < cs.len() {
            assert(cs[i].named(p));
        }
    }
}

/// Whether reconciling kinds left constraints named by `p` and gave, if
/// it gave any, two kinds named by `p`.
pub open spec fn pair_step_named(
    step: (Context, Result<(Ty, Ty), crate::errors::Failure>),
    p: spec_fn(Seq<char>) -> bool,
) -> bool {
    &&& constraints_named(step.0.constraints, p)
    &&& step.1 is Ok ==> (step.1->Ok_0).0.named(p) && (step.1->Ok_0).1.named(p)
    &&& step.1 is Err ==> !(step.1->Err_0 is NotInScope)
}

/// Reconciling the kinds of named types gives named kinds.
pub proof fn lemma_constrain_named(cx: Context, func: Ty, input: Ty, p: spec_fn(Seq<char>) -> bool)
    requires
        fresh_named(p),
        func.named(p),
        input.named(p),
        constraints_named(cx.constraints, p),
    ensures
        pair_step_named(cx.constrain(func, input), p),
{
    let (c1, k) = cx.fresh(Ty::NoKind);
    if k is Ok {
        assert(p(fresh_name(cx.next_id)));
        assert((k->Ok_0).named(p)) by {
            reveal_with_fuel(Ty::named, 2);
        }
        lemma_kind_named(c1, func, p);
        let (c2, kf) = c1.kind_of(func);
        if kf is Ok {
            lemma_kind_named(c2, input, p);
            let (c3, ki) = c2.kind_of(input);
            if ki is Ok {
                assert(Ty::arrow(ki->Ok_0, k->Ok_0).named(p)) by {
                    reveal_with_fuel(Ty::named, 3);
                }
            }
        }
    }
}

/// A substitution that binds one name to a named type is named.
pub proof fn lemma_single_named(name: Seq<char>, t: Ty, p: spec_fn(Seq<char>) -> bool)
    requires
        t.named(p),
    ensures
        map_named(Map::<Seq<char>, Ty>::empty().insert(name, t), p),
{
}

/// One more named binding keeps a substitution named.
pub proof fn lemma_insert_named(
    m: Map<Seq<char>, Ty>,
    name: Seq<char>,
    t: Ty,
    p: spec_fn(Seq<char>) -> bool,
)
    requires
        map_named(m, p),
        t.named(p),
    ensures
        map_named(m.insert(name, t), p),
{
    assert forall|k: Seq<char>| #[trigger] m.insert(name, t).contains_key(k) implies m.insert(
        name,
        t,
    )[k].named(p) by {
        if k != name {
            assert(m.contains_key(k));
        }
    }
}

/// Unifying named types leaves named constraints and gives a named
/// substitution.
pub proof fn lemma_unify_named(cx: Context, l: Ty, r: Ty, depth: nat, p: spec_fn(Seq<char>) -> bool)
    requires
        fresh_named(p),
        l.named(p),
        r.named(p),
        constraints_named(cx.constraints, p),
    ensures
        step_named(cx.unify(l, r, depth), p),
    decreases depth,
{
    if depth > 0 {
        let d = (depth - 1) as nat;
        if l == r || l is NoKind || r is NoKind {
        } else if l is Constructor && r is Constructor && l->Constructor_0.name
            == r->Constructor_0.name {
            lemma_unify_named(cx, *l->Constructor_0.kind, *r->Constructor_0.kind, d, p);
        } else if l is Scheme {
            lemma_instantiate_named(cx, l, p);
            let (c, t) = cx.instantiate(l);
            if t is Ok {
                lemma_unify_named(c, t->Ok_0, r, d, p);
            }
        } else if r is Scheme {
            lemma_instantiate_named(cx, r, p);
            let (c, t) = cx.instantiate(r);
            if t is Ok {
                lemma_unify_named(c, l, t->Ok_0, d, p);
            }
        } else if l is Variable {
            lemma_bind_named(cx, l->Variable_0.name, Some(*l->Variable_0.kind), r, d, p);
        } else if r is Variable {
            lemma_bind_named(cx, r->Variable_0.name, Some(*r->Variable_0.kind), l, d, p);
        } else if l is Apply && r is Apply {
            lemma_constrain_named(cx, *l->Apply_0, *l->Apply_1, p);
            let (c1, a) = cx.constrain(*l->Apply_0, *l->Apply_1);
            if a is Ok {
                lemma_constrain_named(c1, *r->Apply_0, *r->Apply_1, p);
                let (c2, b) = c1.constrain(*r->Apply_0, *r->Apply_1);
                if b is Ok {
                    let ls = seq![(a->Ok_0).0, (b->Ok_0).0, *l->Apply_0, *l->Apply_1];
                    let rs = seq![(a->Ok_0).1, (b->Ok_0).1, *r->Apply_0, *r->Apply_1];
                    assert(types_named(ls, p));
                    assert(types_named(rs, p));
                    lemma_unify_many_named(c2, ls, rs, d, p);
                }
            }
        }
    }
}

/// Unifying lists of named types leaves named constraints and gives a
/// named substitution.
pub proof fn lemma_unify_many_named(
    cx: Context,
    ls: Seq<Ty>,
    rs: Seq<Ty>,
    depth: nat,
    p: spec_fn(Seq<char>) -> bool,
)
    requires
        fresh_named(p),
        types_named(ls, p),
        types_named(rs, p),
        constraints_named(cx.constraints, p),
    ensures
        step_named(cx.unify_many(ls, rs, depth), p),
    decreases depth,
{
    if depth > 0 && ls.len() > 0 && rs.len() > 0 {
        let d = (depth - 1) as nat;
        assert(ls[0].named(p) && rs[0].named(p));
        lemma_unify_named(cx, ls[0], rs[0], d, p);
        let (c1, first) = cx.unify(ls[0], rs[0], d);
        if first is Ok {
            let s = first->Ok_0;
            assert(types_named(ls.drop_first(), p)) by {
                assert forall|i: int| 0 <= i < ls.drop_first().len() implies (
                #[trigger] ls.drop_first()[i]).named(p) by {
                    assert(ls[i + 1].named(p));
                }
            }
            assert(types_named(rs.drop_first(), p)) by {
                assert forall|i: int| 0 <= i < rs.drop_first().len() implies (
                #[trigger] rs.drop_first()[i]).named(p) by {
                    assert(rs[i + 1].named(p));
                }
            }
            lemma_subst_types_named(ls.drop_first(), s, p);
            lemma_subst_types_named(rs.drop_first(), s, p);
            lemma_unify_many_named(
                c1,
                subst_types(ls.drop_first(), s),
                subst_types(rs.drop_first(), s),
                d,
                p,
            );
            let (c2, rest) = c1.unify_many(
                subst_types(ls.drop_first(), s),
                subst_types(rs.drop_first(), s),
                d,
            );
            if rest is Ok {
                lemma_compose_named(rest->Ok_0, s, p);
            }
        }
    }
}

/// Binding a variable to a named type leaves named constraints and gives
/// a named substitution.
pub proof fn lemma_bind_named(
    cx: Context,
    name: Seq<char>,
    kind: Option<Ty>,
    t: Ty,
    depth: nat,
    p: spec_fn(Seq<char>) -> bool,
)
    requires
        fresh_named(p),
        t.named(p),
        kind is Some ==> (kind->Some_0).named(p),
        constraints_named(cx.constraints, p),
    ensures
        step_named(cx.bind(name, kind, t, depth), p),
    decreases depth,
{
    lemma_single_named(name, t, p);
    if depth > 0 {
        let d = (depth - 1) as nat;
        if t is Variable && t->Variable_0.name == name {
            if kind is Some {
                lemma_unify_named(cx, *t->Variable_0.kind, kind->Some_0, d, p);
            }
        } else if t.mentions(name) {
        } else if kind is Some {
            lemma_kind_named(cx, t, p);
            let (c1, k) = cx.kind_of(t);
            if k is Ok {
                lemma_unify_named(c1, k->Ok_0, kind->Some_0, d, p);
                let (c2, kinds) = c1.unify(k->Ok_0, kind->Some_0, d);
                if kinds is Ok {
                    lemma_subst_named(t, kinds->Ok_0, p);
                    lemma_insert_named(kinds->Ok_0, name, t.subst(kinds->Ok_0), p);
                }
            }
        }
    }
}

/// Matching named types leaves named constraints and gives a named
/// substitution.
pub proof fn lemma_matching_named(
    cx: Context,
    l: Ty,
    r: Ty,
    depth: nat,
    p: spec_fn(Seq<char>) -> bool,
)
    requires
        fresh_named(p),
        l.named(p),
        r.named(p),
        constraints_named(cx.constraints, p),
    ensures
        step_named(cx.matching(l, r, depth), p),
    decreases depth,
{
    if depth > 0 {
        let d = (depth - 1) as nat;
        if l == r || l is NoKind || r is NoKind {
        } else if l is Constructor && r is Constructor && l->Constructor_0.name
            == r->Constructor_0.name {
            lemma_matching_named(cx, *l->Constructor_0.kind, *r->Constructor_0.kind, d, p);
        } else if l is Scheme {
            lemma_instantiate_named(cx, l, p);
            let (c, t) = cx.instantiate(l);
            if t is Ok {
                lemma_matching_named(c, t->Ok_0, r, d, p);
            }
        } else if r is Scheme {
            lemma_instantiate_named(cx, r, p);
            let (c, t) = cx.instantiate(r);
            if t is Ok {
                lemma_matching_named(c, l, t->Ok_0, d, p);
            }
        } else if l is Variable {
            lemma_bind_named(cx, l->Variable_0.name, Some(*l->Variable_0.kind), r, d, p);
        } else if l is Apply && r is Apply {
            lemma_constrain_named(cx, *l->Apply_0, *l->Apply_1, p);
            let (c1, a) = cx.constrain(*l->Apply_0, *l->Apply_1);
            if a is Ok {
                lemma_constrain_named(c1, *r->Apply_0, *r->Apply_1, p);
                let (c2, b) = c1.constrain(*r->Apply_0, *r->Apply_1);
                if b is Ok {
                    let ls = seq![(a->Ok_0).0, (b->Ok_0).0];
                    let rs = seq![(a->Ok_0).1, (b->Ok_0).1];
                    assert(types_named(ls, p));
                    assert(types_named(rs, p));
                    lemma_unify_many_named(c2, ls, rs, d, p);
                    let (c3, kinds) = c2.unify_many(ls, rs, d);
                    if kinds is Ok {
                        let s = kinds->Ok_0;
                        lemma_subst_named(*l->Apply_0, s, p);
                        lemma_subst_named(*r->Apply_0, s, p);
                        lemma_subst_named(*l->Apply_1, s, p);
                        lemma_subst_named(*r->Apply_1, s, p);
                        lemma_matching_named(c3, l->Apply_0.subst(s), r->Apply_0.subst(s), d, p);
                        let (c4, functions) = c3.matching(
                            l->Apply_0.subst(s),
                            r->Apply_0.subst(s),
                            d,
                        );
                        if functions is Ok {
                            lemma_matching_named(
                                c4,
                                l->Apply_1.subst(s),
                                r->Apply_1.subst(s),
                                d,
                                p,
                            );
                            let (c5, inputs) = c4.matching(
                                l->Apply_1.subst(s),
                                r->Apply_1.subst(s),
                                d,
                            );
                            if inputs is Ok {
                                lemma_safe_compose_named(functions->Ok_0, inputs->Ok_0, p);
                                let joined = safe_compose(functions->Ok_0, inputs->Ok_0);
                                if joined is Ok {
                                    lemma_compose_named(s, joined->Ok_0, p);
                                }
                            }
                        }
                    }
                }
            }
        }
    }
}

/// Solving named constraints leaves named constraints and gives a named
/// substitution.
pub proof fn lemma_solve_list_named(
    cx: Context,
    cs: Seq<Constraint>,
    acc: Map<Seq<char>, Ty>,
    p: spec_fn(Seq<char>) -> bool,
)
    requires
        fresh_named(p),
        constraints_named(cs, p),
        map_named(acc, p),
        constraints_named(cx.constraints, p),
    ensures
        step_named(cx.solve_list(cs, acc), p),
    decreases cs.len(),
{
    if cs.len() > 0 {
        assert(cs[0].named(p));
        match cs[0] {
            Constraint::Unify(l, r) => lemma_unify_named(cx, l, r, cx.depth_limit, p),
            Constraint::Match(l, r) => lemma_matching_named(cx, l, r, cx.depth_limit, p),
        }
        let (c, first) = cx.discharge(cs[0]);
        if first is Ok {
            let next = compose(first->Ok_0, acc);
            lemma_compose_named(first->Ok_0, acc, p);
            assert(constraints_named(cs.drop_first(), p)) by {
                assert forall|i: int| 0 <= i < cs.drop_first().len() implies (
                #[trigger] cs.drop_first()[i]).named(p) by {
                    assert(cs[i + 1].named(p));
                }
            }
            lemma_subst_constraints_named(cs.drop_first(), next, p);
            lemma_solve_list_named(c, subst_constraints(cs.drop_first(), next), next, p);
        }
    }
}

/// Solving the pending constraints, where they are named, leaves named
/// constraints and gives a named substitution.
pub proof fn lemma_solve_named(cx: Context, rounds: nat, p: spec_fn(Seq<char>) -> bool)
    requires
        fresh_named(p),
        constraints_named(cx.constraints, p),
    ensures
        step_named(cx.solve(rounds), p),
    decreases rounds,
{
    if rounds > 0 {
        let start = cx.with_constraints(Seq::empty());
        lemma_solve_list_named(start, cx.constraints, Map::empty(), p);
        let (c, first) = start.solve_list(cx.constraints, Map::empty());
        if first is Ok && c.constraints.len() > 0 {
            let s = first->Ok_0;
            lemma_subst_constraints_named(c.constraints, s, p);
            let again = c.with_constraints(subst_constraints(c.constraints, s));
            lemma_solve_named(again, (rounds - 1) as nat, p);
            let (c2, more) = again.solve((rounds - 1) as nat);
            if more is Ok {
                lemma_compose_named(more->Ok_0, s, p);
            }
        }
    }
}

/// The solver never fails for an identifier out of scope.
pub proof fn lemma_solve_errors(cx: Context, rounds: nat)
    ensures
        cx.solve(rounds).1 is Err ==> !(cx.solve(rounds).1->Err_0 is NotInScope),
{
    assert forall|j: int| 0 <= j < cx.constraints.len() implies (#[trigger] cx.constraints[j]).named(
        always(),
    ) by {
        match cx.constraints[j] {
            Constraint::Match(a, b) => {
                lemma_named_always(a);
                lemma_named_always(b);
            },
            Constraint::Unify(a, b) => {
                lemma_named_always(a);
                lemma_named_always(b);
            },
        }
    }
    lemma_solve_named(cx, rounds, always());
}

} // verus!
