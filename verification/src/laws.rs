//! What holds of substitutions, whatever they bind.

use crate::context::{decimal, digit, env_mentions, fresh_name, unbound_in, Context};
use crate::names::{lemma_name_asymmetric, lemma_name_transitive, name_lt};
use crate::substitution::{clash, compose, first_clash, safe_compose};
use crate::errors::Failure;
use crate::types::{Ty, TyVar};
use crate::vars::{lemma_free_variable_list, lemma_keep_all, quantifies};
use vstd::prelude::*;

verus! {

/// Whether a substitution leaves every type that it binds as it is.
pub open spec fn settled(s: Map<Seq<char>, Ty>) -> bool {
    forall|k: Seq<char>| #[trigger] s.contains_key(k) ==> s[k].subst(s) == s[k]
}

/// Whether two substitutions agree where both bind a name: what `later`
/// binds it to is what `earlier` binds it to, seen through `later`.
pub open spec fn agree(later: Map<Seq<char>, Ty>, earlier: Map<Seq<char>, Ty>) -> bool {
    forall|k: Seq<char>|
        #![trigger later.contains_key(k), earlier.contains_key(k)]
        later.contains_key(k) && earlier.contains_key(k) ==> later[k] == earlier[k].subst(later)
}

/// Applying a settled substitution a second time changes nothing.
pub proof fn lemma_apply_twice(t: Ty, s: Map<Seq<char>, Ty>)
    requires
        settled(s),
    ensures
        t.subst(s).subst(s) == t.subst(s),
    decreases t,
{
    match t {
        Ty::Apply(f, x) => {
            lemma_apply_twice(*f, s);
            lemma_apply_twice(*x, s);
        },
        _ => {},
    }
}

/// Applying a substitution is idempotent on every type exactly when the
/// substitution is settled.
pub proof fn law_apply_idempotent(s: Map<Seq<char>, Ty>)
    ensures
        settled(s) <==> forall|t: Ty| #[trigger] t.subst(s).subst(s) == t.subst(s),
{
    if settled(s) {
        assert forall|t: Ty| #[trigger] t.subst(s).subst(s) == t.subst(s) by {
            lemma_apply_twice(t, s);
        }
    }
    if forall|t: Ty| #[trigger] t.subst(s).subst(s) == t.subst(s) {
        assert forall|k: Seq<char>| #[trigger] s.contains_key(k) implies s[k].subst(s) == s[k] by {
            let t = Ty::var(k);
            assert(t.subst(s) == s[k]);
            assert(t.subst(s).subst(s) == t.subst(s));
        }
    }
}

/// Where two substitutions agree, their composition acts as the earlier
/// one followed by the later one.
pub proof fn lemma_compose_acts_in_turn(t: Ty, later: Map<Seq<char>, Ty>, earlier: Map<Seq<char>, Ty>)
    requires
        agree(later, earlier),
    ensures
        t.subst(compose(later, earlier)) == t.subst(earlier).subst(later),
    decreases t,
{
    match t {
        Ty::Apply(f, x) => {
            lemma_compose_acts_in_turn(*f, later, earlier);
            lemma_compose_acts_in_turn(*x, later, earlier);
        },
        Ty::Variable(v) => {
            if later.contains_key(v.name) && earlier.contains_key(v.name) {
            }
        },
        _ => {},
    }
}

/// Composition is associative where the second and the third substitution
/// agree: composing the first two and then the third gives the substitution
/// that composing the first with the composition of the other two gives.
pub proof fn law_compose_associative(
    first: Map<Seq<char>, Ty>,
    second: Map<Seq<char>, Ty>,
    third: Map<Seq<char>, Ty>,
)
    requires
        agree(third, second),
    ensures
        compose(third, compose(second, first)) == compose(compose(third, second), first),
        forall|t: Ty|
            t.subst(compose(third, compose(second, first))) == t.subst(
                compose(compose(third, second), first),
            ),
{
    let left = compose(third, compose(second, first));
    let right = compose(compose(third, second), first);
    assert forall|k: Seq<char>| #[trigger] left.dom().contains(k) implies left[k] == right[k] by {
        if !third.contains_key(k) && !second.contains_key(k) {
            lemma_compose_acts_in_turn(first[k], third, second);
        }
    }
    assert(left.dom() =~= right.dom());
    assert(left =~= right);
}

/// The free variables of a scheme are those of its body whose name is not
/// among the quantifiers.
pub proof fn law_free_variables_of_scheme(vs: Seq<TyVar>, body: Ty)
    ensures
        forall|v: TyVar|
            Ty::Scheme(vs, Box::new(body)).free_variables().contains(v) <==> (
            body.free_variables().contains(v) && forall|i: int| 0 <= i < vs.len() ==> vs[i].name
                != v.name),
{
    assert forall|v: TyVar|
        Ty::Scheme(vs, Box::new(body)).free_variables().contains(v) <==> (
        body.free_variables().contains(v) && forall|i: int| 0 <= i < vs.len() ==> vs[i].name
            != v.name) by {
        if quantifies(vs, v.name) {
            let i = choose|i: int| 0 <= i < vs.len() && #[trigger] vs[i].name == v.name;
        }
    }
}

/// Whether the composition of `third` and `second` acts, on every type
/// that `first` binds a name to that the other two do not bind, as the
/// second followed by the third.
pub open spec fn in_turn_after(
    first: Map<Seq<char>, Ty>,
    second: Map<Seq<char>, Ty>,
    third: Map<Seq<char>, Ty>,
) -> bool {
    forall|k: Seq<char>|
        #![trigger first.contains_key(k)]
        first.contains_key(k) && !second.contains_key(k) && !third.contains_key(k) ==> first[k].subst(
            compose(third, second),
        ) == first[k].subst(second).subst(third)
}

/// The two ways of composing three substitutions act alike on every type
/// exactly when they give the same substitution, and that exactly when the
/// composition of the last two acts in turn on what the first one binds
/// alone.
pub proof fn law_compose_associative_exactly(
    first: Map<Seq<char>, Ty>,
    second: Map<Seq<char>, Ty>,
    third: Map<Seq<char>, Ty>,
)
    ensures
        compose(third, compose(second, first)) == compose(compose(third, second), first)
            <==> in_turn_after(first, second, third),
        (forall|t: Ty| #[trigger]
            t.subst(compose(third, compose(second, first))) == t.subst(
                compose(compose(third, second), first),
            )) <==> in_turn_after(first, second, third),
        agree(third, second) ==> in_turn_after(first, second, third),
{
    let left = compose(third, compose(second, first));
    let right = compose(compose(third, second), first);
    assert(left.dom() =~= right.dom());
    assert forall|k: Seq<char>|
        left.contains_key(k) && (second.contains_key(k) || third.contains_key(k)) implies left[k]
        == right[k] by {}
    if in_turn_after(first, second, third) {
        assert forall|k: Seq<char>| #[trigger] left.dom().contains(k) implies left[k] == right[k] by {
            if !second.contains_key(k) && !third.contains_key(k) {
                assert(first.contains_key(k));
            }
        }
        assert(left =~= right);
    }
    if forall|t: Ty| #[trigger] t.subst(left) == t.subst(right) {
        assert forall|k: Seq<char>|
            #![trigger first.contains_key(k)]
            first.contains_key(k) && !second.contains_key(k) && !third.contains_key(k) implies first[k].subst(
            compose(third, second),
        ) == first[k].subst(second).subst(third) by {
            let t = Ty::var(k);
            assert(t.subst(left) == t.subst(right));
            assert(t.subst(left) == left[k]);
            assert(t.subst(right) == right[k]);
        }
    }
    if agree(third, second) {
        assert forall|k: Seq<char>|
            #![trigger first.contains_key(k)]
            first.contains_key(k) && !second.contains_key(k) && !third.contains_key(k) implies first[k].subst(
            compose(third, second),
        ) == first[k].subst(second).subst(third) by {
            lemma_compose_acts_in_turn(first[k], third, second);
        }
    }
}

/// A closed type quantifies, each once, exactly the free variables of
/// the type whose name no variable has that occurs free in a type of the
/// environment.
pub proof fn law_generalize_quantifiers(t: Ty, env: Map<Seq<char>, Ty>)
    ensures
        t.generalize(env) matches Ty::Scheme(vs, body) && *body == t && vs.no_duplicates() && forall|
            v: TyVar,
        | #[trigger]
            vs.contains(v) <==> t.free_variables().contains(v) && !env_mentions(env, v.name),
{
    lemma_free_variable_list(t);
    lemma_keep_all(t.free_variable_list(), unbound_in(env));
}

/// A name that does not occur free in a type can be bound, or bound
/// otherwise, without a change to what a substitution makes of the type.
pub proof fn lemma_subst_without(t: Ty, s: Map<Seq<char>, Ty>, name: Seq<char>, to: Ty)
    requires
        !t.mentions(name),
    ensures
        t.subst(s.insert(name, to)) == t.subst(s),
    decreases t,
{
    match t {
        Ty::Variable(v) => {
            assert(t.free_variables().contains(v));
        },
        Ty::Apply(f, x) => {
            assert(!f.mentions(name)) by {
                if f.mentions(name) {
                    let v = choose|v: TyVar| #[trigger] f.free_variables().contains(v) && v.name == name;
                    assert(t.free_variables().contains(v));
                }
            }
            assert(!x.mentions(name)) by {
                if x.mentions(name) {
                    let v = choose|v: TyVar| #[trigger] x.free_variables().contains(v) && v.name == name;
                    assert(t.free_variables().contains(v));
                }
            }
            lemma_subst_without(*f, s, name, to);
            lemma_subst_without(*x, s, name, to);
        },
        _ => {},
    }
}

/// The empty substitution changes nothing.
pub proof fn lemma_subst_empty(t: Ty)
    ensures
        t.subst(Map::empty()) == t,
    decreases t,
{
    match t {
        Ty::Apply(f, x) => {
            lemma_subst_empty(*f);
            lemma_subst_empty(*x);
        },
        _ => {},
    }
}

/// Binding a variable to a type that is not that variable gives, where it
/// gives any, a substitution that makes the two identical: applied to the
/// variable, whatever kind the occurrence carries, and applied to the type,
/// it yields the same type.
pub proof fn law_bind_unifies(
    cx: Context,
    name: Seq<char>,
    kind: Option<Ty>,
    t: Ty,
    depth: nat,
    occurrence: Ty,
)
    requires
        cx.bind(name, kind, t, depth).1 is Ok,
        !(t is Variable && t->Variable_0.name == name),
        occurrence is Variable,
        occurrence->Variable_0.name == name,
    ensures
        occurrence.subst(cx.bind(name, kind, t, depth).1->Ok_0) == t.subst(
            cx.bind(name, kind, t, depth).1->Ok_0,
        ),
{
    let s = cx.bind(name, kind, t, depth).1->Ok_0;
    match kind {
        None => {
            lemma_subst_empty(t);
            lemma_subst_without(t, Map::empty(), name, t);
        },
        Some(k) => {
            let (c1, own) = cx.kind_of(t);
            let (c2, kinds) = c1.unify(own->Ok_0, k, (depth - 1) as nat);
            let s0 = kinds->Ok_0;
            lemma_subst_without(t, s0, name, t.subst(s0));
        },
    }
}

/// Binding a variable to a type in which it occurs, and which is not the
/// variable itself, fails, whatever kind is required and however deep the
/// solver may go: the type would be infinite.
pub proof fn law_occurs_check(cx: Context, name: Seq<char>, kind: Option<Ty>, t: Ty, depth: nat)
    requires
        t.mentions(name),
        !(t is Variable && t->Variable_0.name == name),
    ensures
        cx.bind(name, kind, t, depth) == (cx, Err::<Map<Seq<char>, Ty>, Failure>(Failure::RecursiveType(name, t))),
{
}

/// The join of two substitutions holds every binding of both, and no
/// other.
pub proof fn law_safe_compose_joins(a: Map<Seq<char>, Ty>, b: Map<Seq<char>, Ty>)
    requires
        safe_compose(a, b) is Ok,
    ensures
        forall|k: Seq<char>| #[trigger]
            a.contains_key(k) ==> (safe_compose(a, b)->Ok_0).contains_key(k) && (safe_compose(
                a,
                b,
            )->Ok_0)[k] == a[k],
        forall|k: Seq<char>| #[trigger]
            b.contains_key(k) ==> (safe_compose(a, b)->Ok_0).contains_key(k) && (safe_compose(
                a,
                b,
            )->Ok_0)[k] == b[k],
        forall|k: Seq<char>| #[trigger]
            (safe_compose(a, b)->Ok_0).contains_key(k) ==> a.contains_key(k) || b.contains_key(k),
{
    assert forall|k: Seq<char>| #[trigger] a.contains_key(k) implies a.union_prefer_right(b)[k]
        == a[k] by {
        assert(!clash(a, b, k));
    }
}

/// A finite set of names that is not empty has a first name.
pub proof fn lemma_first_name(names: Set<Seq<char>>) -> (least: Seq<char>)
    requires
        names.finite(),
        names.len() > 0,
    ensures
        names.contains(least),
        forall|other: Seq<char>| names.contains(other) ==> !name_lt(other, least),
    decreases names.len(),
{
    let x = names.choose();
    let rest = names.remove(x);
    if rest.len() == 0 {
        assert forall|other: Seq<char>| names.contains(other) implies !name_lt(other, x) by {
            if other != x {
                assert(rest.contains(other));
            }
            lemma_name_asymmetric(x, x);
        }
        x
    } else {
        let m = lemma_first_name(rest);
        if name_lt(x, m) {
            assert forall|other: Seq<char>| names.contains(other) implies !name_lt(other, x) by {
                lemma_name_asymmetric(x, x);
                if other != x {
                    assert(rest.contains(other));
                    if name_lt(other, x) {
                        lemma_name_transitive(other, x, m);
                    }
                }
            }
            x
        } else {
            assert forall|other: Seq<char>| names.contains(other) implies !name_lt(other, m) by {
                if other != x {
                    assert(rest.contains(other));
                }
            }
            m
        }
    }
}

/// Two substitutions that cannot be joined bind one name to two different
/// types, and the error names the first such name, with what each binds it
/// to.
pub proof fn law_safe_compose_conflict(a: Map<Seq<char>, Ty>, b: Map<Seq<char>, Ty>)
    requires
        a.dom().finite(),
        safe_compose(a, b) is Err,
    ensures
        safe_compose(a, b)->Err_0 matches Failure::SubstitutionConflict(k, x, y) && first_clash(a, b, k)
            && x == a[k] && y == b[k],
{
    let witness = choose|k: Seq<char>| clash(a, b, k);
    let clashes = Set::new(|k: Seq<char>| clash(a, b, k));
    assert(clashes.contains(witness));
    assert(clashes.subset_of(a.dom()));
    vstd::set_lib::lemma_len_subset(clashes, a.dom());
    assert(clashes.len() > 0) by {
        if clashes.len() == 0 {
            assert(clashes =~= Set::empty()) by {
                clashes.lemma_len0_is_empty();
            }
        }
    }
    let least = lemma_first_name(clashes);
    assert(first_clash(a, b, least));
}

/// The decimal notation of a number is not empty, and its last character
/// is the digit of the number's remainder by ten.
pub proof fn lemma_decimal_last(n: nat)
    ensures
        decimal(n).len() > 0,
        decimal(n).last() == digit(n % 10),
        n >= 10 ==> decimal(n).drop_last() == decimal(n / 10),
    decreases n,
{
    if n >= 10 {
        lemma_decimal_last(n / 10);
        assert(decimal(n).drop_last() =~= decimal(n / 10));
    }
}

/// Different numbers have different decimal notations.
pub proof fn lemma_decimal_injective(a: nat, b: nat)
    requires
        decimal(a) == decimal(b),
    ensures
        a == b,
    decreases a,
{
    lemma_decimal_last(a);
    lemma_decimal_last(b);
    assert(digit(a % 10) == digit(b % 10));
    assert(a % 10 == b % 10);
    if a >= 10 && b >= 10 {
        lemma_decimal_injective(a / 10, b / 10);
    } else if a >= 10 {
        lemma_decimal_last(a / 10);
        assert(decimal(a).len() >= 2);
        assert(decimal(b).len() == 1);
    } else if b >= 10 {
        lemma_decimal_last(b / 10);
        assert(decimal(b).len() >= 2);
        assert(decimal(a).len() == 1);
    }
}

/// Fresh variables with different numbers have different names.
pub proof fn law_fresh_names_differ(a: nat, b: nat)
    requires
        a != b,
    ensures
        fresh_name(a) != fresh_name(b),
{
    if fresh_name(a) == fresh_name(b) {
        assert(fresh_name(a).subrange(1, fresh_name(a).len() as int) =~= decimal(a));
        assert(fresh_name(b).subrange(1, fresh_name(b).len() as int) =~= decimal(b));
        lemma_decimal_injective(a, b);
    }
}

/// A variable that occurs free in a type of the environment is not
/// quantified when a type is closed: it occurs free in the scheme wherever
/// it occurs free in the type.
pub proof fn law_generalize_spares_environment(
    t: Ty,
    env: Map<Seq<char>, Ty>,
    identifier: Seq<char>,
    v: TyVar,
)
    requires
        env.contains_key(identifier),
        env[identifier].free_variables().contains(v),
        t.free_variables().contains(v),
    ensures
        t.generalize(env).free_variables().contains(v),
{
    law_generalize_quantifiers(t, env);
    let vs = t.generalize(env)->Scheme_0;
    assert(crate::env::free_in_values(env).contains(v));
    assert(env_mentions(env, v.name));
    assert(!quantifies(vs, v.name)) by {
        if quantifies(vs, v.name) {
            let i = choose|i: int| 0 <= i < vs.len() && #[trigger] vs[i].name == v.name;
            assert(vs.contains(vs[i]));
        }
    }
}

} // verus!
