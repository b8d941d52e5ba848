//! Inference does not depend on how the identifiers of an expression are
//! spelled.

use crate::ast::Expr;
use crate::context::{unbound_in, Context};
use crate::env::free_in_values;
use crate::errors::Failure;
use crate::frame::lemma_solve_frame;
use crate::infer::type_of_within;
use crate::naming::{lemma_keep_alike, lemma_solve_errors};
use crate::substitution::subst_values;
use crate::types::{Ty, TyVar};
use vstd::prelude::*;

verus! {

/// The expression with every identifier `x` replaced by `f(x)`.
pub open spec fn renamed(e: Expr, f: spec_fn(Seq<char>) -> Seq<char>) -> Expr
    decreases e,
{
    match e {
        Expr::FloatLiteral(_) => e,
        Expr::StringLiteral(_) => e,
        Expr::Variable(x) => Expr::Variable(f(x)),
        Expr::Annotation(inner, ty) => Expr::Annotation(Box::new(renamed(*inner, f)), ty),
        Expr::If(c, a, b) => Expr::If(
            Box::new(renamed(*c, f)),
            Box::new(renamed(*a, f)),
            Box::new(renamed(*b, f)),
        ),
        Expr::FunctionCall(g, a) => Expr::FunctionCall(
            Box::new(renamed(*g, f)),
            Box::new(renamed(*a, f)),
        ),
        Expr::Lambda(x, body) => Expr::Lambda(f(x), Box::new(renamed(*body, f))),
        Expr::Let(x, value, body) => Expr::Let(
            f(x),
            Box::new(renamed(*value, f)),
            Box::new(renamed(*body, f)),
        ),
    }
}

/// Whether `f` gives different names for different names among those
/// that `used` accepts.
pub open spec fn injective(
    f: spec_fn(Seq<char>) -> Seq<char>,
    used: spec_fn(Seq<char>) -> bool,
) -> bool {
    forall|a: Seq<char>, b: Seq<char>|
        used(a) && used(b) && #[trigger] f(a) == #[trigger] f(b) ==> a == b
}

impl Expr {
    /// Whether `used` accepts every identifier of the expression, those
    /// that it binds and those that it finds in scope.
    pub open spec fn spelled(self, used: spec_fn(Seq<char>) -> bool) -> bool
        decreases self,
    {
        match self {
            Expr::FloatLiteral(_) => true,
            Expr::StringLiteral(_) => true,
            Expr::Variable(x) => used(x),
            Expr::Annotation(inner, _) => inner.spelled(used),
            Expr::If(c, a, b) => c.spelled(used) && a.spelled(used) && b.spelled(used),
            Expr::FunctionCall(g, a) => g.spelled(used) && a.spelled(used),
            Expr::Lambda(x, body) => used(x) && body.spelled(used),
            Expr::Let(x, value, body) => used(x) && value.spelled(used) && body.spelled(used),
        }
    }
}

/// Whether `other` binds `f(x)` to what `env` binds `x` to, and nothing
/// else.
pub open spec fn env_renamed(
    env: Map<Seq<char>, Ty>,
    other: Map<Seq<char>, Ty>,
    f: spec_fn(Seq<char>) -> Seq<char>,
) -> bool {
    &&& forall|k: Seq<char>| #[trigger]
        env.contains_key(k) ==> other.contains_key(f(k)) && other[f(k)] == env[k]
    &&& forall|k: Seq<char>| #[trigger]
        other.contains_key(k) ==> exists|x: Seq<char>| #[trigger] env.contains_key(x) && f(x) == k
}

/// The error for the renamed expression: an identifier out of scope is
/// named as `f` renames it, any other error is the same.
pub open spec fn failure_renamed(e: Failure, f: spec_fn(Seq<char>) -> Seq<char>) -> Failure {
    match e {
        Failure::NotInScope(x) => Failure::NotInScope(f(x)),
        _ => e,
    }
}

/// The result for the renamed expression: the same type, or the error as
/// `failure_renamed` gives it.
pub open spec fn result_renamed(r: Result<Ty, Failure>, f: spec_fn(Seq<char>) -> Seq<char>) -> Result<
    Ty,
    Failure,
> {
    match r {
        Ok(t) => Ok(t),
        Err(e) => Err(failure_renamed(e, f)),
    }
}

/// Whether two contexts are the same but for the names that their
/// environments bind, which `f` maps onto each other.
pub open spec fn paired(
    cx: Context,
    other: Context,
    f: spec_fn(Seq<char>) -> Seq<char>,
    used: spec_fn(Seq<char>) -> bool,
) -> bool {
    &&& other == cx.with_environment(other.environment)
    &&& env_renamed(cx.environment, other.environment, f)
    &&& forall|k: Seq<char>| #[trigger] cx.environment.contains_key(k) ==> used(k)
}

/// Whether two steps of inference ended in paired contexts with the same
/// result, up to the renaming.
pub open spec fn steps_paired(
    step: (Context, Result<Ty, Failure>),
    other: (Context, Result<Ty, Failure>),
    f: spec_fn(Seq<char>) -> Seq<char>,
    used: spec_fn(Seq<char>) -> bool,
) -> bool {
    &&& paired(step.0, other.0, f, used)
    &&& other.1 == result_renamed(step.1, f)
}

/// Binding `x` in one environment and `f(x)` in the other keeps them
/// renamed.
pub proof fn lemma_env_renamed_insert(
    env: Map<Seq<char>, Ty>,
    other: Map<Seq<char>, Ty>,
    f: spec_fn(Seq<char>) -> Seq<char>,
    x: Seq<char>,
    t: Ty,
    used: spec_fn(Seq<char>) -> bool,
)
    requires
        injective(f, used),
        used(x),
        forall|k: Seq<char>| #[trigger] env.contains_key(k) ==> used(k),
        env_renamed(env, other, f),
    ensures
        env_renamed(env.insert(x, t), other.insert(f(x), t), f),
{
    let env2 = env.insert(x, t);
    let other2 = other.insert(f(x), t);
    assert forall|k: Seq<char>| #[trigger] env2.contains_key(k) implies other2.contains_key(f(k))
        && other2[f(k)] == env2[k] by {
        if k != x {
            assert(env.contains_key(k));
            assert(f(k) != f(x));
        }
    }
    assert forall|k: Seq<char>| #[trigger] other2.contains_key(k) implies exists|y: Seq<char>|
        #[trigger] env2.contains_key(y) && f(y) == k by {
        if k == f(x) {
            assert(env2.contains_key(x));
        } else {
            assert(other.contains_key(k));
            let y = choose|y: Seq<char>| #[trigger] env.contains_key(y) && f(y) == k;
            assert(env2.contains_key(y));
        }
    }
}

/// Applying one substitution to both environments keeps them renamed.
pub proof fn lemma_env_renamed_subst(
    env: Map<Seq<char>, Ty>,
    other: Map<Seq<char>, Ty>,
    f: spec_fn(Seq<char>) -> Seq<char>,
    s: Map<Seq<char>, Ty>,
)
    requires
        env_renamed(env, other, f),
    ensures
        env_renamed(subst_values(env, s), subst_values(other, s), f),
{
    let env2 = subst_values(env, s);
    let other2 = subst_values(other, s);
    assert forall|k: Seq<char>| #[trigger] env2.contains_key(k) implies other2.contains_key(f(k))
        && other2[f(k)] == env2[k] by {
        assert(env.contains_key(k));
    }
    assert forall|k: Seq<char>| #[trigger] other2.contains_key(k) implies exists|y: Seq<char>|
        #[trigger] env2.contains_key(y) && f(y) == k by {
        assert(other.contains_key(k));
        let y = choose|y: Seq<char>| #[trigger] env.contains_key(y) && f(y) == k;
        assert(env2.contains_key(y));
    }
}

/// Environments that bind the same types under renamed identifiers hold
/// the same free variables.
pub proof fn lemma_env_renamed_free(
    env: Map<Seq<char>, Ty>,
    other: Map<Seq<char>, Ty>,
    f: spec_fn(Seq<char>) -> Seq<char>,
)
    requires
        env_renamed(env, other, f),
    ensures
        free_in_values(env) == free_in_values(other),
{
    assert forall|w: TyVar| free_in_values(env).contains(w) <==> free_in_values(other).contains(w) by {
        if free_in_values(env).contains(w) {
            let k = choose|k: Seq<char>|
                env.contains_key(k) && #[trigger] env[k].free_variables().contains(w);
            assert(other.contains_key(f(k)));
            assert(other[f(k)].free_variables().contains(w));
        }
        if free_in_values(other).contains(w) {
            let k = choose|k: Seq<char>|
                other.contains_key(k) && #[trigger] other[k].free_variables().contains(w);
            let x = choose|x: Seq<char>| #[trigger] env.contains_key(x) && f(x) == k;
            assert(other[f(x)] == env[x]);
            assert(env[x].free_variables().contains(w));
        }
    }
    assert(free_in_values(env) =~= free_in_values(other));
}

/// A type is closed alike under environments that bind the same types
/// under renamed identifiers.
pub proof fn lemma_generalize_renamed(
    t: Ty,
    env: Map<Seq<char>, Ty>,
    other: Map<Seq<char>, Ty>,
    f: spec_fn(Seq<char>) -> Seq<char>,
)
    requires
        env_renamed(env, other, f),
    ensures
        t.generalize(env) == t.generalize(other),
{
    lemma_env_renamed_free(env, other, f);
    let l = t.free_variable_list();
    lemma_keep_alike(l, unbound_in(env), unbound_in(other), l.len());
}

/// Inference of an expression and of the renamed expression, in paired
/// contexts, ends in paired contexts with the same result.
pub proof fn lemma_infer_renamed(
    cx: Context,
    other: Context,
    e: Expr,
    f: spec_fn(Seq<char>) -> Seq<char>,
    used: spec_fn(Seq<char>) -> bool,
)
    requires
        injective(f, used),
        e.spelled(used),
        paired(cx, other, f, used),
    ensures
        steps_paired(cx.infer(e), other.infer(renamed(e, f)), f, used),
    decreases e, 0nat,
{
    match e {
        Expr::FloatLiteral(_) => {},
        Expr::StringLiteral(_) => {},
        Expr::Annotation(inner, annotation) => {
            lemma_infer_renamed(cx, other, *inner, f, used);
        },
        Expr::If(condition, first, second) => {
            lemma_infer_renamed(cx, other, *condition, f, used);
            let (c1, r1) = cx.infer(*condition);
            let (o1, q1) = other.infer(renamed(*condition, f));
            if r1 is Ok {
                lemma_infer_renamed(c1, o1, *first, f, used);
                let (c2, r2) = c1.infer(*first);
                let (o2, q2) = o1.infer(renamed(*first, f));
                if r2 is Ok {
                    lemma_infer_renamed(c2, o2, *second, f, used);
                }
            }
        },
        Expr::Variable(name) => {
            if cx.environment.contains_key(name) {
                assert(other.environment.contains_key(f(name)));
            } else {
                if other.environment.contains_key(f(name)) {
                    let y = choose|y: Seq<char>| #[trigger]
                        cx.environment.contains_key(y) && f(y) == f(name);
                    assert(y == name);
                }
            }
        },
        Expr::FunctionCall(function, argument) => {
            let (c1, r) = cx.fresh(Ty::NoKind);
            let (o1, q) = other.fresh(Ty::NoKind);
            if r is Ok {
                lemma_infer_renamed(c1, o1, *function, f, used);
                let (c2, r2) = c1.infer(*function);
                let (o2, q2) = o1.infer(renamed(*function, f));
                if r2 is Ok {
                    lemma_infer_renamed(c2, o2, *argument, f, used);
                }
            }
        },
        Expr::Lambda(parameter, body) => {
            let (c1, r) = cx.fresh(Ty::NoKind);
            let (o1, q) = other.fresh(Ty::NoKind);
            if r is Ok {
                lemma_infer_with_renamed(c1, o1, parameter, r->Ok_0, *body, f, used);
            }
        },
        Expr::Let(name, value, body) => {
            let child0 = cx.with_constraints(Seq::empty());
            let other0 = other.with_constraints(Seq::empty());
            lemma_infer_renamed(child0, other0, *value, f, used);
            let (child1, v) = child0.infer(*value);
            let (other1, w) = other0.infer(renamed(*value, f));
            if v is Ok {
                let value_type = v->Ok_0;
                lemma_solve_frame(child1, other1.environment, child1.depth_limit);
                lemma_solve_errors(child1, child1.depth_limit);
                let (child2, solved) = child1.solve(child1.depth_limit);
                let (other2, solved2) = other1.solve(other1.depth_limit);
                assert(solved2 == solved);
                assert(other2 == child2.with_environment(other1.environment));
                if solved is Ok {
                    let s = solved->Ok_0;
                    let parent = cx.with_substitution(s);
                    let parent2 = other.with_substitution(s);
                    lemma_env_renamed_subst(cx.environment, other.environment, f, s);
                    lemma_generalize_renamed(
                        value_type.subst(s),
                        parent.environment,
                        parent2.environment,
                        f,
                    );
                    let scheme = value_type.subst(s).generalize(parent.environment);
                    let joined = parent.synced(child2);
                    let joined2 = parent2.synced(other2);
                    assert(paired(joined, joined2, f, used)) by {
                        assert forall|k: Seq<char>| #[trigger]
                            joined.environment.contains_key(k) implies used(k) by {
                            assert(cx.environment.contains_key(k));
                        }
                    }
                    lemma_infer_with_renamed(joined, joined2, name, scheme, *body, f, used);
                }
            }
        },
    }
}

/// Inference under one more binding, and under the renamed binding, in
/// paired contexts, ends in paired contexts with the same result.
pub proof fn lemma_infer_with_renamed(
    cx: Context,
    other: Context,
    name: Seq<char>,
    scheme: Ty,
    body: Expr,
    f: spec_fn(Seq<char>) -> Seq<char>,
    used: spec_fn(Seq<char>) -> bool,
)
    requires
        injective(f, used),
        used(name),
        body.spelled(used),
        paired(cx, other, f, used),
    ensures
        steps_paired(
            cx.infer_with(name, scheme, body),
            other.infer_with(f(name), scheme, renamed(body, f)),
            f,
            used,
        ),
    decreases body, 1nat,
{
    let inner = cx.with_binding(name, scheme);
    let inner2 = other.with_binding(f(name), scheme);
    lemma_env_renamed_insert(cx.environment, other.environment, f, name, scheme, used);
    assert(paired(inner, inner2, f, used)) by {
        assert forall|k: Seq<char>| #[trigger] inner.environment.contains_key(k) implies used(k) by {
            if k != name {
                assert(cx.environment.contains_key(k));
            }
        }
    }
    lemma_infer_renamed(inner, inner2, body, f, used);
}

/// The context in which inference starts is paired with itself where the
/// renaming leaves `Type` alone.
pub proof fn lemma_start_paired(
    f: spec_fn(Seq<char>) -> Seq<char>,
    used: spec_fn(Seq<char>) -> bool,
    limit: nat,
)
    requires
        used("Type"@),
        f("Type"@) == "Type"@,
    ensures
        paired(Context::initial(limit), Context::initial(limit), f, used),
{
    let start = Context::initial(limit);
    assert forall|k: Seq<char>| #[trigger] start.environment.contains_key(k) implies k == "Type"@ by {}
    assert(start.environment.contains_key("Type"@));
    assert forall|k: Seq<char>| #[trigger] start.environment.contains_key(k) implies exists|
        x: Seq<char>,
    | #[trigger] start.environment.contains_key(x) && f(x) == k by {
        assert(start.environment.contains_key("Type"@) && f("Type"@) == k);
    }
}

/// Renaming the identifiers of an expression does not change its type
/// scheme, and changes an error in the name of an identifier out of scope
/// only. The renaming may be any that keeps the identifiers of the
/// expression and `Type`, which every expression finds in scope, different
/// from each other, and leaves `Type` alone. How it renames any other name
/// does not matter.
pub proof fn law_renaming(
    e: Expr,
    f: spec_fn(Seq<char>) -> Seq<char>,
    used: spec_fn(Seq<char>) -> bool,
    limit: nat,
)
    requires
        e.spelled(used),
        used("Type"@),
        injective(f, used),
        f("Type"@) == "Type"@,
    ensures
        type_of_within(renamed(e, f), limit) == result_renamed(type_of_within(e, limit), f),
{
    let start = Context::initial(limit);
    lemma_start_paired(f, used, limit);
    lemma_infer_renamed(start, start, e, f, used);
    let (cx1, inferred) = start.infer(e);
    let (other1, inferred2) = start.infer(renamed(e, f));
    if inferred is Ok {
        let t = inferred->Ok_0;
        lemma_solve_frame(cx1, other1.environment, cx1.depth_limit);
        lemma_solve_frame(cx1, cx1.environment, cx1.depth_limit);
        lemma_solve_errors(cx1, cx1.depth_limit);
        let (cx2, solved) = cx1.solve(cx1.depth_limit);
        let (other2, solved2) = other1.solve(other1.depth_limit);
        assert(cx1.with_environment(cx1.environment) == cx1);
        assert(cx2.environment == cx1.environment);
        assert(other2.environment == other1.environment);
        if solved is Ok {
            let s = solved->Ok_0;
            lemma_generalize_renamed(t.subst(s), cx2.environment, other2.environment, f);
        }
    }
}

} // verus!
