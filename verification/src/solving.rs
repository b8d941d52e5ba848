//! The solver solves: where the pending constraints ask for the
//! unification of tidy types, the substitution that it gives makes the two
//! sides of each alike.

use crate::ast::Expr;
use crate::context::{fresh_name, Context};
use crate::errors::Constraint;
use crate::laws::{lemma_apply_twice, lemma_compose_acts_in_turn, settled};
use crate::soundness::{lemma_closed, lemma_fresh_index, lemma_instance_tidy, constraints_fit, either, fits, fresh_in, given_before, known, lemma_alike_subst, lemma_compose_proper, lemma_empty_proper, lemma_fits_ready, lemma_subst_occurs, lemma_subst_tidy, lemma_subst_untouched, lemma_unify_sound, made_before, proper, ready};
use crate::substitution::{compose, subst_constraints};
use crate::types::Ty;
use vstd::prelude::*;

verus! {

/// The test for the names of the variables of a list of constraints.
pub open spec fn names_of(cs: Seq<Constraint>) -> spec_fn(Seq<char>) -> bool {
    |n: Seq<char>|
        exists|j: int|
            0 <= j < cs.len() && (#[trigger] cs[j]) is Unify && (cs[j]->Unify_0.occurs(n)
                || cs[j]->Unify_1.occurs(n))
}

/// Whether every constraint of the list asks for the unification of two
/// tidy types that hold no variable still to be made.
pub open spec fn constraints_ready(cs: Seq<Constraint>, next: nat) -> bool {
    forall|j: int|
        0 <= j < cs.len() ==> (#[trigger] cs[j]) is Unify && ready(cs[j]->Unify_0, next) && ready(
            cs[j]->Unify_1,
            next,
        )
}

/// Whether a substitution makes the two sides of every constraint alike.
pub open spec fn solves(cs: Seq<Constraint>, s: Map<Seq<char>, Ty>) -> bool {
    forall|j: int|
        0 <= j < cs.len() ==> (#[trigger] cs[j]) is Unify && cs[j]->Unify_0.subst(s).alike(
            cs[j]->Unify_1.subst(s),
        )
}

/// Whether `acc` binds no variable of the constraints.
pub open spec fn apart(cs: Seq<Constraint>, acc: Map<Seq<char>, Ty>) -> bool {
    forall|n: Seq<char>| #[trigger] names_of(cs)(n) ==> !acc.contains_key(n)
}

/// Whether applying `acc` before `s` is applying `s`.
pub open spec fn absorbs(s: Map<Seq<char>, Ty>, acc: Map<Seq<char>, Ty>) -> bool {
    forall|t: Ty| (#[trigger] t.subst(acc)).subst(s) == t.subst(s)
}

/// A proper substitution is settled.
pub proof fn lemma_proper_settled(
    s: Map<Seq<char>, Ty>,
    given: spec_fn(Seq<char>) -> bool,
    start: nat,
    end: nat,
)
    requires
        proper(s, given, start, end),
    ensures
        settled(s),
{
    assert forall|k: Seq<char>| #[trigger] s.contains_key(k) implies s[k].subst(s) == s[k] by {
        assert forall|n: Seq<char>| s[k].occurs(n) implies !s.contains_key(n) by {}
        lemma_subst_untouched(s[k], s);
    }
}

/// Constraints that are ready fit their own names.
pub proof fn lemma_ready_fits(cs: Seq<Constraint>, next: nat)
    requires
        constraints_ready(cs, next),
    ensures
        constraints_fit(cs, names_of(cs), next, next),
        given_before(names_of(cs), next),
{
    let given = names_of(cs);
    assert forall|j: int| 0 <= j < cs.len() implies (#[trigger] cs[j]) is Unify && fits(
        cs[j]->Unify_0,
        given,
        next,
        next,
    ) && fits(cs[j]->Unify_1, given, next, next) by {
        let a = cs[j]->Unify_0;
        let b = cs[j]->Unify_1;
        assert(ready(a, next) && ready(b, next));
        assert forall|n: Seq<char>| #[trigger] a.occurs(n) implies known(n, given, next, next) by {
            assert(cs[j] is Unify && (cs[j]->Unify_0.occurs(n) || cs[j]->Unify_1.occurs(n)));
        }
        assert forall|n: Seq<char>| #[trigger] b.occurs(n) implies known(n, given, next, next) by {
            assert(cs[j] is Unify && (cs[j]->Unify_0.occurs(n) || cs[j]->Unify_1.occurs(n)));
        }
    }
    assert forall|n: Seq<char>| #[trigger] given(n) implies made_before(n, next) by {
        let j = choose|j: int|
            0 <= j < cs.len() && (#[trigger] cs[j]) is Unify && (cs[j]->Unify_0.occurs(n)
                || cs[j]->Unify_1.occurs(n));
        assert(ready(cs[j]->Unify_0, next) && ready(cs[j]->Unify_1, next));
    }
}

/// A type that fits, under a proper substitution whose names are known,
/// fits, and holds no variable that the substitution binds.
pub proof fn lemma_subst_fits(
    t: Ty,
    s: Map<Seq<char>, Ty>,
    given: spec_fn(Seq<char>) -> bool,
    start: nat,
    next: nat,
    local: spec_fn(Seq<char>) -> bool,
    from: nat,
)
    requires
        fits(t, given, start, next),
        proper(s, local, from, next),
        forall|n: Seq<char>| known(n, local, from, next) ==> known(n, given, start, next),
    ensures
        fits(t.subst(s), given, start, next),
        forall|n: Seq<char>| #[trigger] t.subst(s).occurs(n) ==> !s.contains_key(n),
{
    lemma_subst_tidy(t, s);
    assert forall|n: Seq<char>| #[trigger] t.subst(s).occurs(n) implies known(n, given, start, next)
        && !s.contains_key(n) by {
        lemma_subst_occurs(t, s, n);
        if t.occurs(n) && !s.contains_key(n) {
        } else {
            let k = choose|k: Seq<char>|
                #![trigger s.contains_key(k)]
                t.occurs(k) && s.contains_key(k) && s[k].occurs(n);
            assert(s[k].occurs(n));
            assert(known(n, local, from, next));
        }
    }
}

/// Constraints that fit, under a proper substitution whose names are
/// known, fit, and hold no variable that the substitution binds.
pub proof fn lemma_subst_constraints_fit(
    cs: Seq<Constraint>,
    s: Map<Seq<char>, Ty>,
    given: spec_fn(Seq<char>) -> bool,
    start: nat,
    next: nat,
    local: spec_fn(Seq<char>) -> bool,
    from: nat,
)
    requires
        constraints_fit(cs, given, start, next),
        proper(s, local, from, next),
        forall|n: Seq<char>| known(n, local, from, next) ==> known(n, given, start, next),
    ensures
        constraints_fit(subst_constraints(cs, s), given, start, next),
        apart(subst_constraints(cs, s), s),
{
    let to = subst_constraints(cs, s);
    assert forall|j: int| 0 <= j < to.len() implies (#[trigger] to[j]) is Unify && fits(
        to[j]->Unify_0,
        given,
        start,
        next,
    ) && fits(to[j]->Unify_1, given, start, next) by {
        assert(cs[j] is Unify);
        lemma_subst_fits(cs[j]->Unify_0, s, given, start, next, local, from);
        lemma_subst_fits(cs[j]->Unify_1, s, given, start, next, local, from);
    }
    assert forall|n: Seq<char>| #[trigger] names_of(to)(n) implies !s.contains_key(n) by {
        let j = choose|j: int|
            0 <= j < to.len() && (#[trigger] to[j]) is Unify && (to[j]->Unify_0.occurs(n)
                || to[j]->Unify_1.occurs(n));
        assert(cs[j] is Unify);
        lemma_subst_fits(cs[j]->Unify_0, s, given, start, next, local, from);
        lemma_subst_fits(cs[j]->Unify_1, s, given, start, next, local, from);
    }
}

/// What solving a list of constraints gives, where it gives a
/// substitution.
pub open spec fn solved(
    before: Context,
    after: Context,
    cs: Seq<Constraint>,
    acc: Map<Seq<char>, Ty>,
    s: Map<Seq<char>, Ty>,
    given: spec_fn(Seq<char>) -> bool,
    since: nat,
) -> bool {
    &&& before.next_id <= after.next_id
    &&& proper(s, given, since, after.next_id)
    &&& constraints_fit(after.constraints, given, since, after.next_id)
    &&& solves(cs, s)
    &&& absorbs(s, acc)
}

/// Solving a list of constraints that fit, from a proper substitution
/// that binds none of their variables, gives a proper substitution that
/// solves them.
pub proof fn lemma_solve_list_sound(
    cx: Context,
    cs: Seq<Constraint>,
    acc: Map<Seq<char>, Ty>,
    given: spec_fn(Seq<char>) -> bool,
    since: nat,
)
    requires
        since <= cx.next_id,
        given_before(given, since),
        constraints_fit(cs, given, since, cx.next_id),
        constraints_fit(cx.constraints, given, since, cx.next_id),
        proper(acc, given, since, cx.next_id),
        apart(cs, acc),
    ensures
        cx.solve_list(cs, acc).1 is Ok ==> solved(
            cx,
            cx.solve_list(cs, acc).0,
            cs,
            acc,
            cx.solve_list(cs, acc).1->Ok_0,
            given,
            since,
        ),
    decreases cs.len(),
{
    let start = cx.next_id;
    lemma_proper_settled(acc, given, since, start);
    if cs.len() == 0 {
        assert forall|t: Ty| (#[trigger] t.subst(acc)).subst(acc) == t.subst(acc) by {
            lemma_apply_twice(t, acc);
        }
    } else {
        assert(cs[0] is Unify);
        let l0 = cs[0]->Unify_0;
        let r0 = cs[0]->Unify_1;
        lemma_fits_ready(l0, given, since, start);
        lemma_fits_ready(r0, given, since, start);
        lemma_unify_sound(cx, l0, r0, cx.depth_limit, given, since);
        let (c1, first) = cx.discharge(cs[0]);
        if first is Ok {
            let s = first->Ok_0;
            let middle = c1.next_id;
            let next = compose(s, acc);
            assert forall|n: Seq<char>| #[trigger] either(l0, r0)(n) implies !acc.contains_key(n)
                && known(n, given, since, start) by {
                assert(names_of(cs)(n)) by {
                    assert(cs[0] is Unify && (cs[0]->Unify_0.occurs(n) || cs[0]->Unify_1.occurs(n)));
                }
                if l0.occurs(n) {
                } else {
                    assert(r0.occurs(n));
                }
            }
            lemma_compose_proper(acc, s, given, either(l0, r0), given, since, start, middle);
            let rest = subst_constraints(cs.drop_first(), next);
            assert forall|n: Seq<char>| known(n, either(l0, r0), start, middle) implies known(
                n,
                given,
                since,
                middle,
            ) by {
                if either(l0, r0)(n) {
                }
            }
            crate::soundness::lemma_constraints_fit_later(cs, given, since, start, middle);
            assert(constraints_fit(cs.drop_first(), given, since, middle)) by {
                assert forall|j: int| 0 <= j < cs.drop_first().len() implies (
                #[trigger] cs.drop_first()[j]) is Unify && fits(
                    cs.drop_first()[j]->Unify_0,
                    given,
                    since,
                    middle,
                ) && fits(cs.drop_first()[j]->Unify_1, given, since, middle) by {
                    assert(cs[j + 1] is Unify);
                }
            }
            assert forall|j: int| 0 <= j < cs.len() implies (#[trigger] cs[j])->Unify_0.subst(next)
                == cs[j]->Unify_0.subst(s) && cs[j]->Unify_1.subst(next) == cs[j]->Unify_1.subst(
                s,
            ) by {
                let a = cs[j]->Unify_0;
                let b = cs[j]->Unify_1;
                assert forall|n: Seq<char>| a.occurs(n) implies !acc.contains_key(n) by {
                    assert(cs[j] is Unify && (cs[j]->Unify_0.occurs(n) || cs[j]->Unify_1.occurs(n)));
                    assert(names_of(cs)(n));
                }
                assert forall|n: Seq<char>| b.occurs(n) implies !acc.contains_key(n) by {
                    assert(cs[j] is Unify && (cs[j]->Unify_0.occurs(n) || cs[j]->Unify_1.occurs(n)));
                    assert(names_of(cs)(n));
                }
                lemma_subst_untouched(a, acc);
                lemma_subst_untouched(b, acc);
                lemma_compose_acts_in_turn(a, s, acc);
                lemma_compose_acts_in_turn(b, s, acc);
            }
            lemma_subst_constraints_fit(
                cs.drop_first(),
                s,
                given,
                since,
                middle,
                either(l0, r0),
                start,
            );
            assert(rest =~= subst_constraints(cs.drop_first(), s)) by {
                assert forall|j: int| 0 <= j < rest.len() implies rest[j] == subst_constraints(
                    cs.drop_first(),
                    s,
                )[j] by {
                    assert(cs[j + 1] is Unify);
                }
            }
            assert(apart(rest, next)) by {
                assert forall|n: Seq<char>| #[trigger] names_of(rest)(n) implies !next.contains_key(n) by {
                    assert(!s.contains_key(n));
                    let j = choose|j: int|
                        0 <= j < rest.len() && (#[trigger] rest[j]) is Unify && (
                        rest[j]->Unify_0.occurs(n) || rest[j]->Unify_1.occurs(n));
                    assert(fits(rest[j]->Unify_0, given, since, middle));
                    assert(fits(rest[j]->Unify_1, given, since, middle));
                    if acc.contains_key(n) {
                        let t = if rest[j]->Unify_0.occurs(n) {
                            cs[j + 1]->Unify_0
                        } else {
                            cs[j + 1]->Unify_1
                        };
                        assert(cs[j + 1] is Unify);
                        assert(t.subst(s).occurs(n));
                        lemma_subst_occurs(t, s, n);
                        if t.occurs(n) && !s.contains_key(n) {
                            assert(names_of(cs)(n)) by {
                                assert(cs[j + 1] is Unify && (cs[j + 1]->Unify_0.occurs(n)
                                    || cs[j + 1]->Unify_1.occurs(n)));
                            }
                        } else {
                            let k = choose|k: Seq<char>|
                                #![trigger s.contains_key(k)]
                                t.occurs(k) && s.contains_key(k) && s[k].occurs(n);
                            assert(s[k].occurs(n));
                            assert(known(n, either(l0, r0), start, middle));
                            assert(known(n, given, since, start));
                            if either(l0, r0)(n) {
                            } else {
                                assert(fresh_in(n, start, middle));
                                if given(n) {
                                    assert(made_before(n, since));
                                }
                            }
                        }
                    }
                }
            }
            lemma_solve_list_sound(c1, rest, next, given, since);
            let (c2, last) = c1.solve_list(rest, next);
            if last is Ok {
                let found = last->Ok_0;
                assert forall|j: int| 0 <= j < cs.len() implies (#[trigger] cs[j]) is Unify
                    && cs[j]->Unify_0.subst(found).alike(cs[j]->Unify_1.subst(found)) by {
                    let a = cs[j]->Unify_0;
                    let b = cs[j]->Unify_1;
                    assert(a.subst(next).subst(found) == a.subst(found));
                    assert(b.subst(next).subst(found) == b.subst(found));
                    if j == 0 {
                        lemma_alike_subst(a.subst(s), b.subst(s), found);
                    } else {
                        assert(rest[j - 1] is Unify);
                        assert(rest[j - 1]->Unify_0 == a.subst(next));
                        assert(rest[j - 1]->Unify_1 == b.subst(next));
                    }
                }
                assert forall|t: Ty| (#[trigger] t.subst(acc)).subst(found) == t.subst(found) by {
                    let once = t.subst(acc);
                    lemma_apply_twice(t, acc);
                    lemma_compose_acts_in_turn(t, s, acc);
                    lemma_compose_acts_in_turn(once, s, acc);
                    assert(once.subst(next) == t.subst(next));
                    assert(once.subst(next).subst(found) == once.subst(found));
                    assert(t.subst(next).subst(found) == t.subst(found));
                }
            }
        }
    }
}

/// The solver solves. Where the pending constraints ask for the
/// unification of tidy types that hold no variable named like a fresh
/// variable still to be made, the substitution that the solver gives makes
/// the two sides of each constraint alike. It binds variables of the
/// constraints and fresh variables made on the way only.
pub proof fn law_solve_solves(cx: Context, rounds: nat)
    requires
        constraints_ready(cx.constraints, cx.next_id),
    ensures
        cx.solve(rounds).1 is Ok ==> {
            let s = cx.solve(rounds).1->Ok_0;
            &&& cx.next_id <= cx.solve(rounds).0.next_id
            &&& solves(cx.constraints, s)
            &&& proper(s, names_of(cx.constraints), cx.next_id, cx.solve(rounds).0.next_id)
        },
    decreases rounds,
{
    if rounds > 0 {
        let cs = cx.constraints;
        let given = names_of(cs);
        let start = cx.next_id;
        let fresh_start = cx.with_constraints(Seq::empty());
        lemma_ready_fits(cs, start);
        lemma_empty_proper(given, start, start);
        lemma_solve_list_sound(fresh_start, cs, Map::empty(), given, start);
        let (c, first) = fresh_start.solve_list(cs, Map::empty());
        if first is Ok && c.constraints.len() > 0 {
            let s = first->Ok_0;
            let middle = c.next_id;
            let pending = subst_constraints(c.constraints, s);
            let again = c.with_constraints(pending);
            lemma_subst_constraints_fit(c.constraints, s, given, start, middle, given, start);
            assert(constraints_ready(pending, middle)) by {
                assert forall|j: int| 0 <= j < pending.len() implies (#[trigger] pending[j]) is Unify
                    && ready(pending[j]->Unify_0, middle) && ready(pending[j]->Unify_1, middle) by {
                    lemma_fits_ready(pending[j]->Unify_0, given, start, middle);
                    lemma_fits_ready(pending[j]->Unify_1, given, start, middle);
                }
            }
            law_solve_solves(again, (rounds - 1) as nat);
            let (c2, more) = again.solve((rounds - 1) as nat);
            if more is Ok {
                let s2 = more->Ok_0;
                let end = c2.next_id;
                assert forall|n: Seq<char>| #[trigger] names_of(pending)(n) implies !s.contains_key(n)
                    && known(n, given, start, middle) by {
                    let j = choose|j: int|
                        0 <= j < pending.len() && (#[trigger] pending[j]) is Unify && (
                        pending[j]->Unify_0.occurs(n) || pending[j]->Unify_1.occurs(n));
                    assert(fits(pending[j]->Unify_0, given, start, middle));
                    assert(fits(pending[j]->Unify_1, given, start, middle));
                }
                lemma_compose_proper(s, s2, given, names_of(pending), given, start, middle, end);
                let found = compose(s2, s);
                assert forall|j: int| 0 <= j < cs.len() implies (#[trigger] cs[j]) is Unify
                    && cs[j]->Unify_0.subst(found).alike(cs[j]->Unify_1.subst(found)) by {
                    let a = cs[j]->Unify_0;
                    let b = cs[j]->Unify_1;
                    lemma_compose_acts_in_turn(a, s2, s);
                    lemma_compose_acts_in_turn(b, s2, s);
                    lemma_alike_subst(a.subst(s), b.subst(s), s2);
                }
            }
        }
    }
}

impl Expr {
    /// Whether the expression is simple: it has no annotation and no
    /// binding.
    pub open spec fn simple(self) -> bool
        decreases self,
    {
        match self {
            Expr::FloatLiteral(_) => true,
            Expr::StringLiteral(_) => true,
            Expr::Variable(_) => true,
            Expr::Annotation(_, _) => false,
            Expr::If(c, a, b) => c.simple() && a.simple() && b.simple(),
            Expr::FunctionCall(f, a) => f.simple() && a.simple(),
            Expr::Lambda(_, body) => body.simple(),
            Expr::Let(_, _, _) => false,
        }
    }
}

/// Whether every type that the environment binds a name to is tidy and
/// holds no variable still to be made.
pub open spec fn env_ready(env: Map<Seq<char>, Ty>, next: nat) -> bool {
    forall|k: Seq<char>| #[trigger] env.contains_key(k) ==> ready(env[k], next)
}

/// Whether a context is ready for the walk: its environment and its
/// pending constraints hold tidy types without variables still to be made.
pub open spec fn context_ready(cx: Context) -> bool {
    env_ready(cx.environment, cx.next_id) && constraints_ready(cx.constraints, cx.next_id)
}

/// A type that is ready stays ready while the counter goes on.
pub proof fn lemma_ready_later(t: Ty, next: nat, later: nat)
    requires
        ready(t, next),
        next <= later,
    ensures
        ready(t, later),
{
    assert forall|n: Seq<char>| #[trigger] t.occurs(n) implies made_before(n, later) by {
        assert(made_before(n, next));
    }
}

/// A context that is ready stays ready while its counter goes on.
pub proof fn lemma_context_ready_later(cx: Context, later: nat)
    requires
        context_ready(cx),
        cx.next_id <= later,
    ensures
        context_ready(cx.advanced((later - cx.next_id) as nat)),
{
    let to = cx.advanced((later - cx.next_id) as nat);
    assert forall|k: Seq<char>| #[trigger] to.environment.contains_key(k) implies ready(
        to.environment[k],
        later,
    ) by {
        lemma_ready_later(cx.environment[k], cx.next_id, later);
    }
    assert forall|j: int| 0 <= j < to.constraints.len() implies (#[trigger] to.constraints[j]) is Unify
        && ready(to.constraints[j]->Unify_0, later) && ready(to.constraints[j]->Unify_1, later) by {
        assert(cx.constraints[j] is Unify);
        lemma_ready_later(cx.constraints[j]->Unify_0, cx.next_id, later);
        lemma_ready_later(cx.constraints[j]->Unify_1, cx.next_id, later);
    }
}

/// One more ready constraint keeps a context ready.
pub proof fn lemma_context_ready_push(cx: Context, a: Ty, b: Ty)
    requires
        context_ready(cx),
        ready(a, cx.next_id),
        ready(b, cx.next_id),
    ensures
        context_ready(cx.with_constraint(Constraint::Unify(a, b))),
{
    let to = cx.with_constraint(Constraint::Unify(a, b));
    assert forall|j: int| 0 <= j < to.constraints.len() implies (#[trigger] to.constraints[j]) is Unify
        && ready(to.constraints[j]->Unify_0, to.next_id) && ready(
        to.constraints[j]->Unify_1,
        to.next_id,
    ) by {
        if j < cx.constraints.len() {
            assert(cx.constraints[j] is Unify);
        }
    }
}

/// The constants of the language are ready at any time.
pub proof fn lemma_constant_ready(name: Seq<char>, next: nat)
    ensures
        ready(Ty::constant(name), next),
        ready(Ty::star(), next),
{
    assert(Ty::star().closed()) by {
        reveal_with_fuel(Ty::closed, 2);
    }
    lemma_closed(Ty::star(), Seq::empty());
    assert(Ty::constant(name).tidy());
}

/// What the walk over a simple expression gives, where it gives a type.
pub open spec fn walked(before: Context, step: (Context, Result<Ty, crate::errors::Failure>)) -> bool {
    step.1 is Ok ==> {
        &&& before.next_id <= step.0.next_id
        &&& context_ready(step.0)
        &&& step.0.environment == before.environment
        &&& step.0.depth_limit == before.depth_limit
        &&& ready(step.1->Ok_0, step.0.next_id)
    }
}

/// The walk over a simple expression, from a ready context, ends in a
/// ready context, with a ready type.
pub proof fn lemma_infer_ready(cx: Context, e: Expr)
    requires
        e.simple(),
        context_ready(cx),
    ensures
        walked(cx, cx.infer(e)),
    decreases e, 0nat,
{
    match e {
        Expr::FloatLiteral(_) => {
            lemma_constant_ready("Number"@, cx.next_id);
        },
        Expr::StringLiteral(_) => {
            lemma_constant_ready("String"@, cx.next_id);
        },
        Expr::Annotation(_, _) => {},
        Expr::If(condition, first, second) => {
            lemma_infer_ready(cx, *condition);
            let (c1, r1) = cx.infer(*condition);
            if r1 is Ok {
                lemma_infer_ready(c1, *first);
                let (c2, r2) = c1.infer(*first);
                if r2 is Ok {
                    lemma_infer_ready(c2, *second);
                    let (c3, r3) = c2.infer(*second);
                    if r3 is Ok {
                        lemma_constant_ready("Boolean"@, c3.next_id);
                        lemma_ready_later(r1->Ok_0, c1.next_id, c3.next_id);
                        lemma_ready_later(r2->Ok_0, c2.next_id, c3.next_id);
                        lemma_context_ready_push(c3, r1->Ok_0, Ty::constant("Boolean"@));
                        lemma_context_ready_push(
                            c3.with_constraint(
                                Constraint::Unify(r1->Ok_0, Ty::constant("Boolean"@)),
                            ),
                            r2->Ok_0,
                            r3->Ok_0,
                        );
                    }
                }
            }
        },
        Expr::Variable(name) => {
            if cx.environment.contains_key(name) {
                let found = cx.environment[name];
                assert(ready(found, cx.next_id));
                let (c1, r) = cx.instantiate(found);
                if r is Ok {
                    lemma_context_ready_later(cx, c1.next_id);
                    assert(c1 == cx.advanced((c1.next_id - cx.next_id) as nat));
                    match found {
                        Ty::Scheme(vs, body) => {
                            lemma_instance_tidy(*body, vs, cx.next_id);
                        },
                        _ => {},
                    }
                }
            }
        },
        Expr::FunctionCall(function, argument) => {
            let (c1, r) = cx.fresh(Ty::NoKind);
            if r is Ok {
                lemma_fresh_index(cx.next_id);
                lemma_context_ready_later(cx, c1.next_id);
                assert(ready(r->Ok_0, c1.next_id)) by {
                    assert forall|n: Seq<char>| #[trigger] (r->Ok_0).occurs(n) implies made_before(
                        n,
                        c1.next_id,
                    ) by {
                        assert(n == fresh_name(cx.next_id));
                    }
                }
                lemma_infer_ready(c1, *function);
                let (c2, r2) = c1.infer(*function);
                if r2 is Ok {
                    lemma_infer_ready(c2, *argument);
                    let (c3, r3) = c2.infer(*argument);
                    if r3 is Ok {
                        lemma_ready_later(r->Ok_0, c1.next_id, c3.next_id);
                        lemma_ready_later(r2->Ok_0, c2.next_id, c3.next_id);
                        let to = Ty::arrow(r3->Ok_0, r->Ok_0);
                        assert(ready(to, c3.next_id)) by {
                            reveal_with_fuel(Ty::tidy, 3);
                            reveal_with_fuel(Ty::occurs, 3);
                            assert forall|n: Seq<char>| #[trigger] to.occurs(n) implies made_before(
                                n,
                                c3.next_id,
                            ) by {
                                if (r3->Ok_0).occurs(n) {
                                } else {
                                    assert((r->Ok_0).occurs(n));
                                }
                            }
                        }
                        lemma_context_ready_push(c3, r2->Ok_0, to);
                    }
                }
            }
        },
        Expr::Lambda(parameter, body) => {
            let (c1, r) = cx.fresh(Ty::NoKind);
            if r is Ok {
                lemma_fresh_index(cx.next_id);
                lemma_context_ready_later(cx, c1.next_id);
                assert(ready(r->Ok_0, c1.next_id)) by {
                    assert forall|n: Seq<char>| #[trigger] (r->Ok_0).occurs(n) implies made_before(
                        n,
                        c1.next_id,
                    ) by {
                        assert(n == fresh_name(cx.next_id));
                    }
                }
                lemma_infer_with_ready(c1, parameter, r->Ok_0, *body);
                let (c2, r2) = c1.infer_with(parameter, r->Ok_0, *body);
                if r2 is Ok {
                    lemma_ready_later(r->Ok_0, c1.next_id, c2.next_id);
                    let to = Ty::arrow(r->Ok_0, r2->Ok_0);
                    assert(ready(to, c2.next_id)) by {
                        reveal_with_fuel(Ty::tidy, 3);
                        reveal_with_fuel(Ty::occurs, 3);
                        assert forall|n: Seq<char>| #[trigger] to.occurs(n) implies made_before(
                            n,
                            c2.next_id,
                        ) by {
                            if (r->Ok_0).occurs(n) {
                            } else {
                                assert((r2->Ok_0).occurs(n));
                            }
                        }
                    }
                }
            }
        },
        Expr::Let(_, _, _) => {},
    }
}

/// The walk over a simple expression under one more binding, from a ready
/// context, ends in a ready context, with a ready type.
pub proof fn lemma_infer_with_ready(cx: Context, name: Seq<char>, scheme: Ty, body: Expr)
    requires
        body.simple(),
        context_ready(cx),
        ready(scheme, cx.next_id),
    ensures
        walked(cx, cx.infer_with(name, scheme, body)),
    decreases body, 1nat,
{
    let inner = cx.with_binding(name, scheme);
    assert(env_ready(inner.environment, inner.next_id)) by {
        assert forall|k: Seq<char>| #[trigger] inner.environment.contains_key(k) implies ready(
            inner.environment[k],
            inner.next_id,
        ) by {
            if k != name {
                assert(cx.environment.contains_key(k));
            }
        }
    }
    lemma_infer_ready(inner, body);
    let (child, r) = inner.infer(body);
    if r is Ok {
        let to = cx.synced(child);
        lemma_context_ready_later(cx, child.next_id);
        assert forall|j: int| 0 <= j < to.constraints.len() implies (#[trigger] to.constraints[j]) is Unify
            && ready(to.constraints[j]->Unify_0, to.next_id) && ready(
            to.constraints[j]->Unify_1,
            to.next_id,
        ) by {
            if j < cx.constraints.len() {
                assert(cx.constraints[j] is Unify);
                lemma_ready_later(cx.constraints[j]->Unify_0, cx.next_id, to.next_id);
                lemma_ready_later(cx.constraints[j]->Unify_1, cx.next_id, to.next_id);
            } else {
                assert(child.constraints[j - cx.constraints.len()] is Unify);
            }
        }
        assert(env_ready(to.environment, to.next_id)) by {
            assert forall|k: Seq<char>| #[trigger] to.environment.contains_key(k) implies ready(
                to.environment[k],
                to.next_id,
            ) by {
                lemma_ready_later(cx.environment[k], cx.next_id, to.next_id);
            }
        }
    }
}

/// The solution solves what the walk collected. For an expression
/// without annotations and bindings, the substitution that the solver
/// finds makes the two sides of every constraint that the walk over the
/// expression collected alike: the function of each application is alike
/// to a function from its argument, the condition of each conditional is
/// alike to `Boolean`, and the branches of each conditional are alike.
pub proof fn law_solution_solves(e: Expr, limit: nat)
    requires
        e.simple(),
    ensures
        ({
            let (walk, inferred) = Context::initial(limit).infer(e);
            inferred is Ok && walk.solve(limit).1 is Ok ==> solves(
                walk.constraints,
                walk.solve(limit).1->Ok_0,
            )
        }),
{
    let start = Context::initial(limit);
    lemma_constant_ready("Type"@, 0);
    assert(env_ready(start.environment, 0)) by {
        assert forall|k: Seq<char>| #[trigger] start.environment.contains_key(k) implies ready(
            start.environment[k],
            0,
        ) by {
            assert(k == "Type"@);
        }
    }
    lemma_infer_ready(start, e);
    let (walk, inferred) = start.infer(e);
    if inferred is Ok {
        law_solve_solves(walk, limit);
    }
}

} // verus!
