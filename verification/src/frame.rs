//! The solver looks neither at the environment nor, below the loop that
//! discharges the constraints, at the depth limit of its context: run in
//! two contexts that differ in these only, it gives the same result and
//! leaves contexts that differ in the same way.

use crate::context::{fresh_bindings, Context};
use crate::errors::{Constraint, Failure};
use crate::kinds::{lemma_fresh_bindings_flat, lemma_subst_spine};
use crate::substitution::{compose, subst_constraints, subst_types};
use crate::types::{Ty, TyVar};
use crate::vars::{keep_all, keep_prefix};
use vstd::prelude::*;

verus! {

impl Context {
    /// The context with `env` in place of its environment.
    pub open spec fn with_environment(self, env: Map<Seq<char>, Ty>) -> Context {
        Context { environment: env, ..self }
    }
}

impl Context {
    /// The context with `env` and `limit` in place of its environment and
    /// its depth limit.
    pub open spec fn relocated(self, env: Map<Seq<char>, Ty>, limit: nat) -> Context {
        Context { environment: env, depth_limit: limit, ..self }
    }
}

/// What a step of the solver gives, seen from a context with the
/// environment `env` and the depth limit `limit`.
pub open spec fn reframed<T>(
    step: (Context, Result<T, Failure>),
    env: Map<Seq<char>, Ty>,
    limit: nat,
) -> (Context, Result<T, Failure>) {
    (step.0.relocated(env, limit), step.1)
}

/// What a step of the solver gives, seen from a context with the
/// environment `env`.
pub open spec fn framed<T>(step: (Context, Result<T, Failure>), env: Map<Seq<char>, Ty>) -> (
    Context,
    Result<T, Failure>,
) {
    (step.0.with_environment(env), step.1)
}

/// A type without free variables is closed over nothing, whatever the
/// environment.
pub proof fn lemma_generalize_closed(t: Ty, env: Map<Seq<char>, Ty>)
    requires
        t.free_variable_list().len() == 0,
    ensures
        t.generalize(env) == Ty::Scheme(Seq::empty(), Box::new(t)),
{
    assert(keep_all(t.free_variable_list(), crate::context::unbound_in(env)) =~= Seq::<TyVar>::empty());
}

/// The kind of the arrow does not depend on the environment.
pub proof fn lemma_arrow_kind_closed(env: Map<Seq<char>, Ty>)
    ensures
        Ty::arrow(Ty::NoKind, Ty::arrow(Ty::NoKind, Ty::NoKind)).generalize(env) == Ty::Scheme(
            Seq::empty(),
            Box::new(Ty::arrow(Ty::NoKind, Ty::arrow(Ty::NoKind, Ty::NoKind))),
        ),
{
    let inner = Ty::arrow(Ty::NoKind, Ty::NoKind);
    let t = Ty::arrow(Ty::NoKind, inner);
    let none = Seq::<TyVar>::empty();
    assert(Ty::NoKind.free_variable_list() == none);
    assert(Ty::ArrowKind.free_variable_list() == none);
    lemma_no_new(none, none);
    assert(Ty::ArrowKind.app(Ty::NoKind).free_variable_list() == none);
    assert(inner.free_variable_list() == none);
    assert(t.free_variable_list() == none);
    lemma_generalize_closed(t, env);
}

/// Nothing appended to nothing is nothing.
pub proof fn lemma_no_new(a: Seq<TyVar>, b: Seq<TyVar>)
    requires
        a.len() == 0,
        b.len() == 0,
    ensures
        crate::vars::append_new(a, b) == Seq::<TyVar>::empty(),
{
    assert(keep_prefix(b, crate::vars::absent_from(a), 0) =~= Seq::<TyVar>::empty());
    assert(a + keep_all(b, crate::vars::absent_from(a)) =~= Seq::<TyVar>::empty());
}

/// Computing a kind does not look at the environment.
pub proof fn lemma_kind_frame(cx: Context, env: Map<Seq<char>, Ty>, limit: nat, t: Ty)
    ensures
        cx.relocated(env, limit).kind_of(t) == reframed(cx.kind_of(t), env, limit),
    decreases t.spine(),
{
    match t {
        Ty::Scheme(vs, body) => {
            let (c, r) = cx.instantiate(t);
            if r is Ok {
                lemma_fresh_bindings_flat(vs, cx.next_id, vs.len());
                lemma_subst_spine(*body, fresh_bindings(vs, cx.next_id, vs.len()));
                lemma_kind_frame(c, env, limit, r->Ok_0);
            }
        },
        Ty::ArrowKind => {
            lemma_arrow_kind_closed(env);
            lemma_arrow_kind_closed(cx.environment);
        },
        Ty::Apply(f, x) => {
            if *f != Ty::ArrowKind {
                let (c1, k) = cx.fresh(Ty::NoKind);
                if k is Ok {
                    lemma_kind_frame(c1, env, limit, *x);
                    let (c2, ki) = c1.kind_of(*x);
                    if ki is Ok {
                        lemma_kind_frame(c2, env, limit, *f);
                    }
                }
            }
        },
        _ => {},
    }
}

/// Reconciling the kinds of an application does not look at the
/// environment.
pub proof fn lemma_constrain_frame(cx: Context, env: Map<Seq<char>, Ty>, limit: nat, func: Ty, input: Ty)
    ensures
        cx.relocated(env, limit).constrain(func, input) == reframed(
            cx.constrain(func, input),
            env,
            limit,
        ),
{
    let (c1, k) = cx.fresh(Ty::NoKind);
    if k is Ok {
        lemma_kind_frame(c1, env, limit, func);
        let (c2, kf) = c1.kind_of(func);
        if kf is Ok {
            lemma_kind_frame(c2, env, limit, input);
        }
    }
}

/// Unification does not look at the environment.
pub proof fn lemma_unify_frame(cx: Context, env: Map<Seq<char>, Ty>, limit: nat, l: Ty, r: Ty, depth: nat)
    ensures
        cx.relocated(env, limit).unify(l, r, depth) == reframed(cx.unify(l, r, depth), env, limit),
    decreases depth,
{
    if depth > 0 {
        let d = (depth - 1) as nat;
        if l == r || l is NoKind || r is NoKind {
        } else if l is Constructor && r is Constructor && l->Constructor_0.name
            == r->Constructor_0.name {
            lemma_unify_frame(cx, env, limit, *l->Constructor_0.kind, *r->Constructor_0.kind, d);
        } else if l is Scheme {
            let (c, t) = cx.instantiate(l);
            if t is Ok {
                lemma_unify_frame(c, env, limit, t->Ok_0, r, d);
            }
        } else if r is Scheme {
            let (c, t) = cx.instantiate(r);
            if t is Ok {
                lemma_unify_frame(c, env, limit, l, t->Ok_0, d);
            }
        } else if l is Variable {
            lemma_bind_frame(cx, env, limit, l->Variable_0.name, Some(*l->Variable_0.kind), r, d);
        } else if r is Variable {
            lemma_bind_frame(cx, env, limit, r->Variable_0.name, Some(*r->Variable_0.kind), l, d);
        } else if l is Apply && r is Apply {
            lemma_constrain_frame(cx, env, limit, *l->Apply_0, *l->Apply_1);
            let (c1, a) = cx.constrain(*l->Apply_0, *l->Apply_1);
            if a is Ok {
                lemma_constrain_frame(c1, env, limit, *r->Apply_0, *r->Apply_1);
                let (c2, b) = c1.constrain(*r->Apply_0, *r->Apply_1);
                if b is Ok {
                    lemma_unify_many_frame(
                        c2,
                        env,
                        limit,
                        seq![(a->Ok_0).0, (b->Ok_0).0, *l->Apply_0, *l->Apply_1],
                        seq![(a->Ok_0).1, (b->Ok_0).1, *r->Apply_0, *r->Apply_1],
                        d,
                    );
                }
            }
        }
    }
}

/// Unification of lists does not look at the environment.
pub proof fn lemma_unify_many_frame(
    cx: Context,
    env: Map<Seq<char>, Ty>,
    limit: nat,
    ls: Seq<Ty>,
    rs: Seq<Ty>,
    depth: nat,
)
    ensures
        cx.relocated(env, limit).unify_many(ls, rs, depth) == reframed(
            cx.unify_many(ls, rs, depth),
            env,
            limit,
        ),
    decreases depth,
{
    if depth > 0 && ls.len() > 0 && rs.len() > 0 {
        let d = (depth - 1) as nat;
        lemma_unify_frame(cx, env, limit, ls[0], rs[0], d);
        let (c1, first) = cx.unify(ls[0], rs[0], d);
        if first is Ok {
            let s = first->Ok_0;
            lemma_unify_many_frame(
                c1,
                env,
                limit,
                subst_types(ls.drop_first(), s),
                subst_types(rs.drop_first(), s),
                d,
            );
        }
    }
}

/// Binding a variable does not look at the environment.
pub proof fn lemma_bind_frame(
    cx: Context,
    env: Map<Seq<char>, Ty>,
    limit: nat,
    name: Seq<char>,
    kind: Option<Ty>,
    t: Ty,
    depth: nat,
)
    ensures
        cx.relocated(env, limit).bind(name, kind, t, depth) == reframed(
            cx.bind(name, kind, t, depth),
            env,
            limit,
        ),
    decreases depth,
{
    if depth > 0 {
        let d = (depth - 1) as nat;
        if t is Variable && t->Variable_0.name == name {
            if kind is Some {
                lemma_unify_frame(cx, env, limit, *t->Variable_0.kind, kind->Some_0, d);
            }
        } else if t.mentions(name) {
        } else if kind is Some {
            lemma_kind_frame(cx, env, limit, t);
            let (c1, k) = cx.kind_of(t);
            if k is Ok {
                lemma_unify_frame(c1, env, limit, k->Ok_0, kind->Some_0, d);
            }
        }
    }
}

/// Matching does not look at the environment.
pub proof fn lemma_matching_frame(cx: Context, env: Map<Seq<char>, Ty>, limit: nat, l: Ty, r: Ty, depth: nat)
    ensures
        cx.relocated(env, limit).matching(l, r, depth) == reframed(
            cx.matching(l, r, depth),
            env,
            limit,
        ),
    decreases depth,
{
    if depth > 0 {
        let d = (depth - 1) as nat;
        if l == r || l is NoKind || r is NoKind {
        } else if l is Constructor && r is Constructor && l->Constructor_0.name
            == r->Constructor_0.name {
            lemma_matching_frame(cx, env, limit, *l->Constructor_0.kind, *r->Constructor_0.kind, d);
        } else if l is Scheme {
            let (c, t) = cx.instantiate(l);
            if t is Ok {
                lemma_matching_frame(c, env, limit, t->Ok_0, r, d);
            }
        } else if r is Scheme {
            let (c, t) = cx.instantiate(r);
            if t is Ok {
                lemma_matching_frame(c, env, limit, l, t->Ok_0, d);
            }
        } else if l is Variable {
            lemma_bind_frame(cx, env, limit, l->Variable_0.name, Some(*l->Variable_0.kind), r, d);
        } else if l is Apply && r is Apply {
            lemma_constrain_frame(cx, env, limit, *l->Apply_0, *l->Apply_1);
            let (c1, a) = cx.constrain(*l->Apply_0, *l->Apply_1);
            if a is Ok {
                lemma_constrain_frame(c1, env, limit, *r->Apply_0, *r->Apply_1);
                let (c2, b) = c1.constrain(*r->Apply_0, *r->Apply_1);
                if b is Ok {
                    lemma_unify_many_frame(
                        c2,
                        env,
                        limit,
                        seq![(a->Ok_0).0, (b->Ok_0).0],
                        seq![(a->Ok_0).1, (b->Ok_0).1],
                        d,
                    );
                    let (c3, kinds) = c2.unify_many(
                        seq![(a->Ok_0).0, (b->Ok_0).0],
                        seq![(a->Ok_0).1, (b->Ok_0).1],
                        d,
                    );
                    if kinds is Ok {
                        let s = kinds->Ok_0;
                        lemma_matching_frame(c3, env, limit, l->Apply_0.subst(s), r->Apply_0.subst(s), d);
                        let (c4, functions) = c3.matching(
                            l->Apply_0.subst(s),
                            r->Apply_0.subst(s),
                            d,
                        );
                        if functions is Ok {
                            lemma_matching_frame(
                                c4,
                                env,
                                limit,
                                l->Apply_1.subst(s),
                                r->Apply_1.subst(s),
                                d,
                            );
                        }
                    }
                }
            }
        }
    }
}

/// Solving a list of constraints does not look at the environment.
pub proof fn lemma_solve_list_frame(
    cx: Context,
    env: Map<Seq<char>, Ty>,
    cs: Seq<Constraint>,
    acc: Map<Seq<char>, Ty>,
)
    ensures
        cx.with_environment(env).solve_list(cs, acc) == framed(cx.solve_list(cs, acc), env),
    decreases cs.len(),
{
    if cs.len() > 0 {
        match cs[0] {
            Constraint::Unify(l, r) => lemma_unify_frame(cx, env, cx.depth_limit, l, r, cx.depth_limit),
            Constraint::Match(l, r) => lemma_matching_frame(
                cx,
                env,
                cx.depth_limit,
                l,
                r,
                cx.depth_limit,
            ),
        }
        assert(cx.relocated(env, cx.depth_limit) == cx.with_environment(env));
        let (c, first) = cx.discharge(cs[0]);
        assert(c.depth_limit == cx.depth_limit) by {
            lemma_discharge_keeps_limit(cx, cs[0]);
        }
        if first is Ok {
            let next = compose(first->Ok_0, acc);
            lemma_solve_list_frame(c, env, subst_constraints(cs.drop_first(), next), next);
        }
    }
}

/// Discharging a constraint leaves the depth limit as it is.
pub proof fn lemma_discharge_keeps_limit(cx: Context, c: Constraint)
    ensures
        cx.discharge(c).0.depth_limit == cx.depth_limit,
        cx.discharge(c).0.environment == cx.environment,
{
    match c {
        Constraint::Unify(l, r) => lemma_unify_frame(
            cx,
            cx.environment,
            cx.depth_limit,
            l,
            r,
            cx.depth_limit,
        ),
        Constraint::Match(l, r) => lemma_matching_frame(
            cx,
            cx.environment,
            cx.depth_limit,
            l,
            r,
            cx.depth_limit,
        ),
    }
    assert(cx.relocated(cx.environment, cx.depth_limit) == cx);
}

/// Solving the pending constraints does not look at the environment.
pub proof fn lemma_solve_frame(cx: Context, env: Map<Seq<char>, Ty>, rounds: nat)
    ensures
        cx.with_environment(env).solve(rounds) == framed(cx.solve(rounds), env),
    decreases rounds,
{
    if rounds > 0 {
        let start = cx.with_constraints(Seq::empty());
        lemma_solve_list_frame(start, env, cx.constraints, Map::empty());
        assert(cx.with_environment(env).with_constraints(Seq::empty()) == start.with_environment(env));
        let (c, first) = start.solve_list(cx.constraints, Map::empty());
        if first is Ok && c.constraints.len() > 0 {
            let s = first->Ok_0;
            let again = c.with_constraints(subst_constraints(c.constraints, s));
            lemma_solve_frame(again, env, (rounds - 1) as nat);
            assert(c.with_environment(env).with_constraints(subst_constraints(c.constraints, s))
                == again.with_environment(env));
        }
    }
}

} // verus!
