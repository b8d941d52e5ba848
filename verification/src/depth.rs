//! The depth limit only ever ends a search: what the solver finds within a
//! limit, it finds within every larger limit.

use crate::ast::Expr;
use crate::context::Context;
use crate::errors::{Constraint, Failure};
use crate::frame::{
    lemma_discharge_keeps_limit, lemma_matching_frame, lemma_unify_frame,
};
use crate::infer::type_of_within;
use crate::substitution::{compose, subst_constraints, subst_types};
use crate::types::Ty;
use vstd::prelude::*;

verus! {

/// Whether a result is the error that a limit was exceeded.
pub open spec fn limited<T>(r: Result<T, Failure>) -> bool {
    r is Err && r->Err_0 is LimitExceeded
}

impl Context {
    /// The context with `limit` in place of its depth limit.
    pub open spec fn relimited(self, limit: nat) -> Context {
        Context { depth_limit: limit, ..self }
    }
}

/// What a step gives, seen from a context with the depth limit `limit`.
pub open spec fn deepened<T>(step: (Context, Result<T, Failure>), limit: nat) -> (
    Context,
    Result<T, Failure>,
) {
    (step.0.relimited(limit), step.1)
}

/// Unification that does not exceed a limit at one depth gives the same
/// at every greater depth.
pub proof fn lemma_unify_deeper(cx: Context, l: Ty, r: Ty, depth: nat, deeper: nat)
    requires
        depth <= deeper,
    ensures
        !limited(cx.unify(l, r, depth).1) ==> cx.unify(l, r, deeper) == cx.unify(l, r, depth),
    decreases depth,
{
    if depth > 0 {
        let d = (depth - 1) as nat;
        let e = (deeper - 1) as nat;
        if l == r || l is NoKind || r is NoKind {
        } else if l is Constructor && r is Constructor && l->Constructor_0.name
            == r->Constructor_0.name {
            lemma_unify_deeper(cx, *l->Constructor_0.kind, *r->Constructor_0.kind, d, e);
        } else if l is Scheme {
            let (c, t) = cx.instantiate(l);
            if t is Ok {
                lemma_unify_deeper(c, t->Ok_0, r, d, e);
            }
        } else if r is Scheme {
            let (c, t) = cx.instantiate(r);
            if t is Ok {
                lemma_unify_deeper(c, l, t->Ok_0, d, e);
            }
        } else if l is Variable {
            lemma_bind_deeper(cx, l->Variable_0.name, Some(*l->Variable_0.kind), r, d, e);
        } else if r is Variable {
            lemma_bind_deeper(cx, r->Variable_0.name, Some(*r->Variable_0.kind), l, d, e);
        } else if l is Apply && r is Apply {
            let (c1, a) = cx.constrain(*l->Apply_0, *l->Apply_1);
            if a is Ok {
                let (c2, b) = c1.constrain(*r->Apply_0, *r->Apply_1);
                if b is Ok {
                    lemma_unify_many_deeper(
                        c2,
                        seq![(a->Ok_0).0, (b->Ok_0).0, *l->Apply_0, *l->Apply_1],
                        seq![(a->Ok_0).1, (b->Ok_0).1, *r->Apply_0, *r->Apply_1],
                        d,
                        e,
                    );
                }
            }
        }
    }
}

/// Unification of lists that does not exceed a limit at one depth gives
/// the same at every greater depth.
pub proof fn lemma_unify_many_deeper(cx: Context, ls: Seq<Ty>, rs: Seq<Ty>, depth: nat, deeper: nat)
    requires
        depth <= deeper,
    ensures
        !limited(cx.unify_many(ls, rs, depth).1) ==> cx.unify_many(ls, rs, deeper) == cx.unify_many(
            ls,
            rs,
            depth,
        ),
    decreases depth,
{
    if depth > 0 && ls.len() > 0 && rs.len() > 0 {
        let d = (depth - 1) as nat;
        let e = (deeper - 1) as nat;
        lemma_unify_deeper(cx, ls[0], rs[0], d, e);
        let (c1, first) = cx.unify(ls[0], rs[0], d);
        if first is Ok {
            let s = first->Ok_0;
            lemma_unify_many_deeper(
                c1,
                subst_types(ls.drop_first(), s),
                subst_types(rs.drop_first(), s),
                d,
                e,
            );
        }
    }
}

/// Binding a variable that does not exceed a limit at one depth gives the
/// same at every greater depth.
pub proof fn lemma_bind_deeper(
    cx: Context,
    name: Seq<char>,
    kind: Option<Ty>,
    t: Ty,
    depth: nat,
    deeper: nat,
)
    requires
        depth <= deeper,
    ensures
        !limited(cx.bind(name, kind, t, depth).1) ==> cx.bind(name, kind, t, deeper) == cx.bind(
            name,
            kind,
            t,
            depth,
        ),
    decreases depth,
{
    if depth > 0 {
        let d = (depth - 1) as nat;
        let e = (deeper - 1) as nat;
        if t is Variable && t->Variable_0.name == name {
            if kind is Some {
                lemma_unify_deeper(cx, *t->Variable_0.kind, kind->Some_0, d, e);
            }
        } else if t.mentions(name) {
        } else if kind is Some {
            let (c1, k) = cx.kind_of(t);
            if k is Ok {
                lemma_unify_deeper(c1, k->Ok_0, kind->Some_0, d, e);
            }
        }
    }
}

/// Matching that does not exceed a limit at one depth gives the same at
/// every greater depth.
pub proof fn lemma_matching_deeper(cx: Context, l: Ty, r: Ty, depth: nat, deeper: nat)
    requires
        depth <= deeper,
    ensures
        !limited(cx.matching(l, r, depth).1) ==> cx.matching(l, r, deeper) == cx.matching(
            l,
            r,
            depth,
        ),
    decreases depth,
{
    if depth > 0 {
        let d = (depth - 1) as nat;
        let e = (deeper - 1) as nat;
        if l == r || l is NoKind || r is NoKind {
        } else if l is Constructor && r is Constructor && l->Constructor_0.name
            == r->Constructor_0.name {
            lemma_matching_deeper(cx, *l->Constructor_0.kind, *r->Constructor_0.kind, d, e);
        } else if l is Scheme {
            let (c, t) = cx.instantiate(l);
            if t is Ok {
                lemma_matching_deeper(c, t->Ok_0, r, d, e);
            }
        } else if r is Scheme {
            let (c, t) = cx.instantiate(r);
            if t is Ok {
                lemma_matching_deeper(c, l, t->Ok_0, d, e);
            }
        } else if l is Variable {
            lemma_bind_deeper(cx, l->Variable_0.name, Some(*l->Variable_0.kind), r, d, e);
        } else if l is Apply && r is Apply {
            let (c1, a) = cx.constrain(*l->Apply_0, *l->Apply_1);
            if a is Ok {
                let (c2, b) = c1.constrain(*r->Apply_0, *r->Apply_1);
                if b is Ok {
                    let ls = seq![(a->Ok_0).0, (b->Ok_0).0];
                    let rs = seq![(a->Ok_0).1, (b->Ok_0).1];
                    lemma_unify_many_deeper(c2, ls, rs, d, e);
                    let (c3, kinds) = c2.unify_many(ls, rs, d);
                    if kinds is Ok {
                        let s = kinds->Ok_0;
                        lemma_matching_deeper(c3, l->Apply_0.subst(s), r->Apply_0.subst(s), d, e);
                        let (c4, functions) = c3.matching(
                            l->Apply_0.subst(s),
                            r->Apply_0.subst(s),
                            d,
                        );
                        if functions is Ok {
                            lemma_matching_deeper(
                                c4,
                                l->Apply_1.subst(s),
                                r->Apply_1.subst(s),
                                d,
                                e,
                            );
                        }
                    }
                }
            }
        }
    }
}

/// A constraint that is discharged within the limit of its context is
/// discharged alike under every greater limit.
pub proof fn lemma_discharge_deeper(cx: Context, c: Constraint, limit: nat)
    requires
        cx.depth_limit <= limit,
    ensures
        !limited(cx.discharge(c).1) ==> cx.relimited(limit).discharge(c) == deepened(
            cx.discharge(c),
            limit,
        ),
{
    lemma_discharge_keeps_limit(cx, c);
    assert(cx.relimited(limit) == cx.relocated(cx.environment, limit));
    match c {
        Constraint::Unify(l, r) => {
            lemma_unify_deeper(cx, l, r, cx.depth_limit, limit);
            lemma_unify_frame(cx, cx.environment, limit, l, r, limit);
        },
        Constraint::Match(l, r) => {
            lemma_matching_deeper(cx, l, r, cx.depth_limit, limit);
            lemma_matching_frame(cx, cx.environment, limit, l, r, limit);
        },
    }
}

/// Solving a list of constraints leaves the depth limit and the
/// environment as they are.
pub proof fn lemma_solve_list_keeps(cx: Context, cs: Seq<Constraint>, acc: Map<Seq<char>, Ty>)
    ensures
        cx.solve_list(cs, acc).0.depth_limit == cx.depth_limit,
        cx.solve_list(cs, acc).0.environment == cx.environment,
    decreases cs.len(),
{
    if cs.len() > 0 {
        lemma_discharge_keeps_limit(cx, cs[0]);
        let (c, first) = cx.discharge(cs[0]);
        if first is Ok {
            let next = compose(first->Ok_0, acc);
            lemma_solve_list_keeps(c, subst_constraints(cs.drop_first(), next), next);
        }
    }
}

/// Solving the pending constraints leaves the depth limit and the
/// environment as they are.
pub proof fn lemma_solve_keeps(cx: Context, rounds: nat)
    ensures
        cx.solve(rounds).0.depth_limit == cx.depth_limit,
        cx.solve(rounds).0.environment == cx.environment,
    decreases rounds,
{
    if rounds > 0 {
        let start = cx.with_constraints(Seq::empty());
        lemma_solve_list_keeps(start, cx.constraints, Map::empty());
        let (c, first) = start.solve_list(cx.constraints, Map::empty());
        if first is Ok && c.constraints.len() > 0 {
            let again = c.with_constraints(subst_constraints(c.constraints, first->Ok_0));
            lemma_solve_keeps(again, (rounds - 1) as nat);
        }
    }
}

/// A list of constraints that is solved within the limit of its context
/// is solved alike under every greater limit.
pub proof fn lemma_solve_list_deeper(
    cx: Context,
    cs: Seq<Constraint>,
    acc: Map<Seq<char>, Ty>,
    limit: nat,
)
    requires
        cx.depth_limit <= limit,
    ensures
        !limited(cx.solve_list(cs, acc).1) ==> cx.relimited(limit).solve_list(cs, acc) == deepened(
            cx.solve_list(cs, acc),
            limit,
        ),
    decreases cs.len(),
{
    if cs.len() > 0 {
        lemma_discharge_deeper(cx, cs[0], limit);
        lemma_discharge_keeps_limit(cx, cs[0]);
        let (c, first) = cx.discharge(cs[0]);
        if first is Ok {
            let next = compose(first->Ok_0, acc);
            lemma_solve_list_deeper(c, subst_constraints(cs.drop_first(), next), next, limit);
        }
    }
}

/// Constraints that are solved in a number of rounds within the limit of
/// their context are solved alike in every greater number of rounds under
/// every greater limit.
pub proof fn lemma_solve_deeper(cx: Context, rounds: nat, more: nat, limit: nat)
    requires
        rounds <= more,
        cx.depth_limit <= limit,
    ensures
        !limited(cx.solve(rounds).1) ==> cx.relimited(limit).solve(more) == deepened(
            cx.solve(rounds),
            limit,
        ),
    decreases rounds,
{
    if rounds > 0 {
        let start = cx.with_constraints(Seq::empty());
        lemma_solve_list_deeper(start, cx.constraints, Map::empty(), limit);
        lemma_solve_list_keeps(start, cx.constraints, Map::empty());
        assert(cx.relimited(limit).with_constraints(Seq::empty()) == start.relimited(limit));
        let (c, first) = start.solve_list(cx.constraints, Map::empty());
        if first is Ok && c.constraints.len() > 0 {
            let s = first->Ok_0;
            let again = c.with_constraints(subst_constraints(c.constraints, s));
            lemma_solve_deeper(again, (rounds - 1) as nat, (more - 1) as nat, limit);
            assert(c.relimited(limit).with_constraints(subst_constraints(c.constraints, s))
                == again.relimited(limit));
        }
    }
}

/// An expression whose type is inferred within the limit of its context
/// has the same type under every greater limit.
pub proof fn lemma_infer_deeper(cx: Context, e: Expr, limit: nat)
    requires
        cx.depth_limit <= limit,
    ensures
        cx.infer(e).0.depth_limit == cx.depth_limit,
        !limited(cx.infer(e).1) ==> cx.relimited(limit).infer(e) == deepened(cx.infer(e), limit),
    decreases e, 0nat,
{
    match e {
        Expr::FloatLiteral(_) => {},
        Expr::StringLiteral(_) => {},
        Expr::Annotation(inner, annotation) => {
            lemma_infer_deeper(cx, *inner, limit);
        },
        Expr::If(condition, first, second) => {
            lemma_infer_deeper(cx, *condition, limit);
            let (c1, r1) = cx.infer(*condition);
            if r1 is Ok {
                lemma_infer_deeper(c1, *first, limit);
                let (c2, r2) = c1.infer(*first);
                if r2 is Ok {
                    lemma_infer_deeper(c2, *second, limit);
                }
            }
        },
        Expr::Variable(name) => {},
        Expr::FunctionCall(function, argument) => {
            let (c1, r) = cx.fresh(Ty::NoKind);
            if r is Ok {
                assert(cx.relimited(limit).fresh(Ty::NoKind).0 == c1.relimited(limit));
                lemma_infer_deeper(c1, *function, limit);
                let (c2, r2) = c1.infer(*function);
                if r2 is Ok {
                    lemma_infer_deeper(c2, *argument, limit);
                }
            }
        },
        Expr::Lambda(parameter, body) => {
            let (c1, r) = cx.fresh(Ty::NoKind);
            if r is Ok {
                assert(cx.relimited(limit).fresh(Ty::NoKind).0 == c1.relimited(limit));
                lemma_infer_with_deeper(c1, parameter, r->Ok_0, *body, limit);
            }
        },
        Expr::Let(name, value, body) => {
            let child0 = cx.with_constraints(Seq::empty());
            assert(cx.relimited(limit).with_constraints(Seq::empty()) == child0.relimited(limit));
            lemma_infer_deeper(child0, *value, limit);
            let (child1, v) = child0.infer(*value);
            if v is Ok {
                lemma_solve_deeper(child1, child1.depth_limit, limit, limit);
                lemma_solve_keeps(child1, child1.depth_limit);
                let (child2, solved) = child1.solve(child1.depth_limit);
                if solved is Ok {
                    let s = solved->Ok_0;
                    let parent = cx.with_substitution(s);
                    let scheme = v->Ok_0.subst(s).generalize(parent.environment);
                    let joined = parent.synced(child2);
                    assert(cx.relimited(limit).with_substitution(s).synced(child2.relimited(limit))
                        == joined.relimited(limit));
                    lemma_infer_with_deeper(joined, name, scheme, *body, limit);
                }
            }
        },
    }
}

/// An expression whose type is inferred under one more binding within the
/// limit of its context has the same type under every greater limit.
pub proof fn lemma_infer_with_deeper(cx: Context, name: Seq<char>, scheme: Ty, body: Expr, limit: nat)
    requires
        cx.depth_limit <= limit,
    ensures
        cx.infer_with(name, scheme, body).0.depth_limit == cx.depth_limit,
        !limited(cx.infer_with(name, scheme, body).1) ==> cx.relimited(limit).infer_with(
            name,
            scheme,
            body,
        ) == deepened(cx.infer_with(name, scheme, body), limit),
    decreases body, 1nat,
{
    let inner = cx.with_binding(name, scheme);
    assert(cx.relimited(limit).with_binding(name, scheme) == inner.relimited(limit));
    lemma_infer_deeper(inner, body, limit);
    let (child, r) = inner.infer(body);
    assert(cx.relimited(limit).synced(child.relimited(limit)) == cx.synced(child).relimited(limit));
}

/// Unifying two equal types, or a type with `NoKind`, needs no depth.
/// Unifying a variable without a kind with a type that is no scheme never
/// needs to go deeper than two: with that depth or more left, and the fresh
/// variables that the kind of the type takes, the limit is not exceeded.
pub proof fn law_variable_within_two(cx: Context, variable: Ty, t: Ty, depth: nat)
    requires
        depth >= 2,
        variable is Variable,
        *variable->Variable_0.kind == Ty::NoKind,
        !(t is Scheme),
        cx.can_make(t.kind_cost()),
    ensures
        !limited(cx.unify(variable, t, depth).1),
        !limited(cx.unify(t, variable, depth).1),
        cx.unify(t, t, 0).1 is Ok,
        cx.unify(t, Ty::NoKind, 0).1 is Ok,
        cx.unify(Ty::NoKind, t, 0).1 is Ok,
{
    let name = variable->Variable_0.name;
    let d = (depth - 1) as nat;
    let kind = Some(*variable->Variable_0.kind);
    crate::kinds::lemma_kind_cost(cx, t);
    let (c1, own) = cx.kind_of(t);
    assert(!limited(cx.bind(name, kind, t, d).1)) by {
        if t is Variable && t->Variable_0.name == name {
            assert(cx.unify(*t->Variable_0.kind, Ty::NoKind, (d - 1) as nat).1 is Ok);
        } else if t.mentions(name) {
        } else {
            assert(own is Ok);
            assert(c1.unify(own->Ok_0, Ty::NoKind, (d - 1) as nat).1 is Ok);
        }
    }
    if t is Variable {
        let other = t->Variable_0.name;
        let required = *t->Variable_0.kind;
        assert(!limited(cx.bind(other, Some(required), variable, d).1)) by {
            if other == name {
                assert(cx.unify(Ty::NoKind, required, (d - 1) as nat).1 is Ok);
            } else if variable.mentions(other) {
            } else {
                assert(cx.kind_of(variable) == (cx, Ok::<Ty, Failure>(Ty::NoKind)));
                assert(cx.unify(Ty::NoKind, required, (d - 1) as nat).1 is Ok);
            }
        }
    }
}

/// The depth limit only ever ends a search: an expression that gets a
/// type scheme, or an error other than that of the limit, under one limit
/// gets the same under every greater limit.
pub proof fn law_limit_only_ends(e: Expr, limit: nat, greater: nat)
    requires
        limit <= greater,
        !limited(type_of_within(e, limit)),
    ensures
        type_of_within(e, greater) == type_of_within(e, limit),
{
    let start = Context::initial(limit);
    assert(Context::initial(greater) == start.relimited(greater));
    lemma_infer_deeper(start, e, greater);
    let (cx1, inferred) = start.infer(e);
    if inferred is Ok {
        lemma_solve_deeper(cx1, cx1.depth_limit, greater, greater);
        lemma_solve_keeps(cx1, cx1.depth_limit);
    }
}

} // verus!
