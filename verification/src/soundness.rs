//! Unification finds a unifier: on tidy types, the substitution that it
//! gives makes the two types alike.

use crate::context::{fresh_bindings, fresh_name, Context};
use crate::errors::{Constraint, Failure};
use crate::kinds::{lemma_fresh_bindings_flat, lemma_subst_spine};
use crate::laws::{agree, law_fresh_names_differ, lemma_compose_acts_in_turn, lemma_subst_empty};
use crate::substitution::{compose, subst_types};
use crate::types::{Ty, TyVar};
use crate::vars::quantifies;
use vstd::prelude::*;

verus! {

/// Whether `n` is the name of a fresh variable.
pub open spec fn is_fresh(n: Seq<char>) -> bool {
    exists|i: nat| n == #[trigger] fresh_name(i)
}

/// The number of the fresh variable named `n`.
pub open spec fn index_of(n: Seq<char>) -> nat {
    choose|i: nat| n == #[trigger] fresh_name(i)
}

/// Whether `n` is the name of a fresh variable with a number from `from`
/// up to, but without, `to`.
pub open spec fn fresh_in(n: Seq<char>, from: nat, to: nat) -> bool {
    is_fresh(n) && from <= index_of(n) < to
}

/// Whether `n` is no name of a fresh variable numbered `from` or above.
pub open spec fn made_before(n: Seq<char>, from: nat) -> bool {
    is_fresh(n) ==> index_of(n) < from
}

/// The name of the fresh variable numbered `i` is fresh, with that
/// number.
pub proof fn lemma_fresh_index(i: nat)
    ensures
        is_fresh(fresh_name(i)),
        index_of(fresh_name(i)) == i,
{
    let j = index_of(fresh_name(i));
    if j != i {
        law_fresh_names_differ(i, j);
    }
}

impl Ty {
    /// Whether a variable named `n` occurs in the type where a
    /// substitution acts: not in a kind, and not under a quantifier.
    pub open spec fn occurs(self, n: Seq<char>) -> bool
        decreases self,
    {
        match self {
            Ty::Variable(v) => v.name == n,
            Ty::Apply(f, x) => f.occurs(n) || x.occurs(n),
            _ => false,
        }
    }

    /// Whether the type holds no variable and no scheme, in kinds
    /// neither.
    pub open spec fn closed(self) -> bool
        decreases self,
    {
        match self {
            Ty::Variable(_) => false,
            Ty::Constructor(v) => v.kind.closed(),
            Ty::Apply(f, x) => f.closed() && x.closed(),
            Ty::Scheme(_, _) => false,
            _ => true,
        }
    }

    /// Whether the type can stand under the quantifiers `vs`: it holds no
    /// scheme, its variables are quantified and carry no kind, and the
    /// kinds of its constructors are closed.
    pub open spec fn bound_by(self, vs: Seq<TyVar>) -> bool
        decreases self,
    {
        match self {
            Ty::Variable(v) => *v.kind == Ty::NoKind && quantifies(vs, v.name),
            Ty::Constructor(v) => v.kind.closed(),
            Ty::Apply(f, x) => f.bound_by(vs) && x.bound_by(vs),
            Ty::Scheme(_, _) => false,
            _ => true,
        }
    }

    /// Whether the type is tidy: its variables carry no kind, the kinds
    /// of its constructors are closed, and a scheme in it quantifies, with
    /// quantifiers that carry no kind, every variable of its body, which
    /// holds no scheme.
    pub open spec fn tidy(self) -> bool
        decreases self,
    {
        match self {
            Ty::Variable(v) => *v.kind == Ty::NoKind,
            Ty::Constructor(v) => v.kind.closed(),
            Ty::Apply(f, x) => f.tidy() && x.tidy(),
            Ty::Scheme(vs, body) => body.bound_by(vs) && forall|i: int|
                0 <= i < vs.len() ==> *(#[trigger] vs[i]).kind == Ty::NoKind,
            _ => true,
        }
    }

    /// Whether two types are alike: the same but for the kinds that
    /// variables and constructors carry, where `NoKind` and a scheme on
    /// either side are alike to anything.
    pub open spec fn alike(self, other: Ty) -> bool
        decreases self,
    {
        if self is NoKind || other is NoKind || self is Scheme || other is Scheme {
            true
        } else {
            match self {
                Ty::Variable(v) => other is Variable && other->Variable_0.name == v.name,
                Ty::Constructor(v) => other is Constructor && other->Constructor_0.name == v.name,
                Ty::Apply(f, x) => other is Apply && f.alike(*other->Apply_0) && x.alike(
                    *other->Apply_1,
                ),
                Ty::ArrowKind => other is ArrowKind,
                _ => true,
            }
        }
    }
}

/// A closed type is tidy, can stand under any quantifiers, and holds no
/// variable.
pub proof fn lemma_closed(t: Ty, vs: Seq<TyVar>)
    requires
        t.closed(),
    ensures
        t.tidy(),
        t.bound_by(vs),
        forall|n: Seq<char>| !#[trigger] t.occurs(n),
    decreases t,
{
    match t {
        Ty::Apply(f, x) => {
            lemma_closed(*f, vs);
            lemma_closed(*x, vs);
            assert forall|n: Seq<char>| !#[trigger] t.occurs(n) by {
                assert(!f.occurs(n));
                assert(!x.occurs(n));
            }
        },
        _ => {},
    }
}

/// Every type is alike to itself.
pub proof fn lemma_alike_same(t: Ty)
    ensures
        t.alike(t),
    decreases t,
{
    match t {
        Ty::Apply(f, x) => {
            lemma_alike_same(*f);
            lemma_alike_same(*x);
        },
        _ => {},
    }
}

/// Types that are alike stay alike under a substitution.
pub proof fn lemma_alike_subst(a: Ty, b: Ty, s: Map<Seq<char>, Ty>)
    requires
        a.alike(b),
    ensures
        a.subst(s).alike(b.subst(s)),
    decreases a,
{
    if a is NoKind || b is NoKind || a is Scheme || b is Scheme {
    } else {
        match a {
            Ty::Variable(v) => {
                if s.contains_key(v.name) {
                    lemma_alike_same(s[v.name]);
                }
            },
            Ty::Apply(f, x) => {
                lemma_alike_subst(*f, *b->Apply_0, s);
                lemma_alike_subst(*x, *b->Apply_1, s);
            },
            _ => {},
        }
    }
}

/// A substitution that binds no variable of a type leaves the type as it
/// is.
pub proof fn lemma_subst_untouched(t: Ty, s: Map<Seq<char>, Ty>)
    requires
        forall|n: Seq<char>| t.occurs(n) ==> !s.contains_key(n),
    ensures
        t.subst(s) == t,
    decreases t,
{
    match t {
        Ty::Variable(v) => {
            assert(t.occurs(v.name));
        },
        Ty::Apply(f, x) => {
            assert forall|n: Seq<char>| f.occurs(n) implies !s.contains_key(n) by {
                assert(t.occurs(n));
            }
            assert forall|n: Seq<char>| x.occurs(n) implies !s.contains_key(n) by {
                assert(t.occurs(n));
            }
            lemma_subst_untouched(*f, s);
            lemma_subst_untouched(*x, s);
        },
        _ => {},
    }
}

/// A variable of a type under a substitution is a variable of the type
/// that the substitution does not bind, or a variable of what the
/// substitution binds a variable of the type to.
pub proof fn lemma_subst_occurs(t: Ty, s: Map<Seq<char>, Ty>, w: Seq<char>)
    requires
        t.subst(s).occurs(w),
    ensures
        (t.occurs(w) && !s.contains_key(w)) || exists|k: Seq<char>|
            #![trigger s.contains_key(k)]
            t.occurs(k) && s.contains_key(k) && s[k].occurs(w),
    decreases t,
{
    match t {
        Ty::Variable(v) => {
            if s.contains_key(v.name) {
                assert(t.occurs(v.name) && s.contains_key(v.name) && s[v.name].occurs(w));
            }
        },
        Ty::Apply(f, x) => {
            if f.subst(s).occurs(w) {
                lemma_subst_occurs(*f, s, w);
                if !(f.occurs(w) && !s.contains_key(w)) {
                    let k = choose|k: Seq<char>|
                        #![trigger s.contains_key(k)]
                        f.occurs(k) && s.contains_key(k) && s[k].occurs(w);
                    assert(t.occurs(k) && s.contains_key(k) && s[k].occurs(w));
                }
            } else {
                lemma_subst_occurs(*x, s, w);
                if !(x.occurs(w) && !s.contains_key(w)) {
                    let k = choose|k: Seq<char>|
                        #![trigger s.contains_key(k)]
                        x.occurs(k) && s.contains_key(k) && s[k].occurs(w);
                    assert(t.occurs(k) && s.contains_key(k) && s[k].occurs(w));
                }
            }
        },
        _ => {},
    }
}

/// A tidy type stays tidy under a substitution that binds names to tidy
/// types.
pub proof fn lemma_subst_tidy(t: Ty, s: Map<Seq<char>, Ty>)
    requires
        t.tidy(),
        forall|k: Seq<char>| #[trigger] s.contains_key(k) ==> s[k].tidy(),
    ensures
        t.subst(s).tidy(),
    decreases t,
{
    match t {
        Ty::Apply(f, x) => {
            lemma_subst_tidy(*f, s);
            lemma_subst_tidy(*x, s);
        },
        _ => {},
    }
}

/// A variable that occurs where a substitution acts is free.
pub proof fn lemma_occurs_mentions(t: Ty, n: Seq<char>)
    requires
        t.occurs(n),
    ensures
        t.mentions(n),
    decreases t,
{
    match t {
        Ty::Variable(v) => {
            assert(t.free_variables().contains(v));
        },
        Ty::Apply(f, x) => {
            if f.occurs(n) {
                lemma_occurs_mentions(*f, n);
                let v = choose|v: TyVar| #[trigger] f.free_variables().contains(v) && v.name == n;
                assert(t.free_variables().contains(v));
            } else {
                lemma_occurs_mentions(*x, n);
                let v = choose|v: TyVar| #[trigger] x.free_variables().contains(v) && v.name == n;
                assert(t.free_variables().contains(v));
            }
        },
        _ => {},
    }
}

/// Instantiation binds each quantified name to a fresh variable without a
/// kind, numbered from `start` up to, but without, `start + n`.
pub proof fn lemma_fresh_bindings_shape(vs: Seq<TyVar>, start: nat, n: nat)
    requires
        n <= vs.len(),
        forall|i: int| 0 <= i < vs.len() ==> *(#[trigger] vs[i]).kind == Ty::NoKind,
    ensures
        forall|k: Seq<char>| #[trigger]
            fresh_bindings(vs, start, n).contains_key(k) <==> exists|i: int|
                0 <= i < n && #[trigger] vs[i].name == k,
        forall|k: Seq<char>| #[trigger]
            fresh_bindings(vs, start, n).contains_key(k) ==> {
                let to = fresh_bindings(vs, start, n)[k];
                &&& to is Variable
                &&& *to->Variable_0.kind == Ty::NoKind
                &&& fresh_in(to->Variable_0.name, start, start + n)
            },
    decreases n,
{
    if n > 0 {
        lemma_fresh_bindings_shape(vs, start, (n - 1) as nat);
        let before = fresh_bindings(vs, start, (n - 1) as nat);
        let now = fresh_bindings(vs, start, n);
        lemma_fresh_index((start + n - 1) as nat);
        assert forall|k: Seq<char>| #[trigger] now.contains_key(k) <==> exists|i: int|
            0 <= i < n && #[trigger] vs[i].name == k by {
            if now.contains_key(k) {
                if k == vs[n - 1].name {
                } else {
                    assert(before.contains_key(k));
                    let i = choose|i: int| 0 <= i < n - 1 && #[trigger] vs[i].name == k;
                    assert(0 <= i < n && vs[i].name == k);
                }
            }
            if exists|i: int| 0 <= i < n && #[trigger] vs[i].name == k {
                let i = choose|i: int| 0 <= i < n && #[trigger] vs[i].name == k;
                if i < n - 1 {
                    assert(before.contains_key(k));
                }
            }
        }
        assert forall|k: Seq<char>| #[trigger] now.contains_key(k) implies {
            let to = now[k];
            &&& to is Variable
            &&& *to->Variable_0.kind == Ty::NoKind
            &&& fresh_in(to->Variable_0.name, start, start + n)
        } by {
            if k != vs[n - 1].name {
                assert(before.contains_key(k));
            }
        }
    }
}

/// The body of a tidy scheme, with its quantified names bound to fresh
/// variables, is tidy, holds no scheme, and holds these fresh variables
/// only.
pub proof fn lemma_instance_tidy(body: Ty, vs: Seq<TyVar>, start: nat)
    requires
        body.bound_by(vs),
        forall|i: int| 0 <= i < vs.len() ==> *(#[trigger] vs[i]).kind == Ty::NoKind,
    ensures
        body.subst(fresh_bindings(vs, start, vs.len())).tidy(),
        !(body.subst(fresh_bindings(vs, start, vs.len())) is Scheme),
        forall|w: Seq<char>| #[trigger]
            body.subst(fresh_bindings(vs, start, vs.len())).occurs(w) ==> fresh_in(
                w,
                start,
                start + vs.len(),
            ),
    decreases body,
{
    let m = fresh_bindings(vs, start, vs.len());
    let to = body.subst(m);
    lemma_fresh_bindings_shape(vs, start, vs.len());
    match body {
        Ty::Variable(v) => {
            let i = choose|i: int| 0 <= i < vs.len() && #[trigger] vs[i].name == v.name;
            assert(m.contains_key(v.name));
            assert(to == m[v.name]);
            assert forall|w: Seq<char>| #[trigger] to.occurs(w) implies fresh_in(
                w,
                start,
                start + vs.len(),
            ) by {
                assert(w == to->Variable_0.name);
            }
        },
        Ty::Constructor(v) => {
            lemma_closed(*v.kind, vs);
        },
        Ty::Apply(f, x) => {
            lemma_instance_tidy(*f, vs, start);
            lemma_instance_tidy(*x, vs, start);
            assert forall|w: Seq<char>| #[trigger] to.occurs(w) implies fresh_in(
                w,
                start,
                start + vs.len(),
            ) by {
                if f.subst(m).occurs(w) {
                } else {
                    assert(x.subst(m).occurs(w));
                }
            }
        },
        _ => {},
    }
}

/// Whether a type is tidy and holds known variables only.
pub open spec fn fits(t: Ty, given: spec_fn(Seq<char>) -> bool, start: nat, next: nat) -> bool {
    t.tidy() && forall|n: Seq<char>| #[trigger] t.occurs(n) ==> known(n, given, start, next)
}

/// Whether every constraint of the list asks for the unification of two
/// tidy types that hold known variables only.
pub open spec fn constraints_fit(
    cs: Seq<Constraint>,
    given: spec_fn(Seq<char>) -> bool,
    start: nat,
    next: nat,
) -> bool {
    forall|j: int|
        0 <= j < cs.len() ==> (#[trigger] cs[j]) is Unify && fits(cs[j]->Unify_0, given, start, next)
            && fits(cs[j]->Unify_1, given, start, next)
}

/// Whether `given` accepts no name of a fresh variable numbered `start`
/// or above.
pub open spec fn given_before(given: spec_fn(Seq<char>) -> bool, start: nat) -> bool {
    forall|n: Seq<char>| #[trigger] given(n) ==> made_before(n, start)
}

/// A type that fits names given before the counter started holds no
/// variable still to be made.
pub proof fn lemma_fits_ready(t: Ty, given: spec_fn(Seq<char>) -> bool, start: nat, next: nat)
    requires
        fits(t, given, start, next),
        given_before(given, start),
        start <= next,
    ensures
        ready(t, next),
{
    assert forall|n: Seq<char>| #[trigger] t.occurs(n) implies made_before(n, next) by {
        assert(known(n, given, start, next));
    }
}

/// Constraints that fit go on to fit while the counter goes on.
pub proof fn lemma_constraints_fit_later(
    cs: Seq<Constraint>,
    given: spec_fn(Seq<char>) -> bool,
    start: nat,
    next: nat,
    later: nat,
)
    requires
        constraints_fit(cs, given, start, next),
        next <= later,
    ensures
        constraints_fit(cs, given, start, later),
{
    assert forall|j: int| 0 <= j < cs.len() implies (#[trigger] cs[j]) is Unify && fits(
        cs[j]->Unify_0,
        given,
        start,
        later,
    ) && fits(cs[j]->Unify_1, given, start, later) by {
        let a = cs[j]->Unify_0;
        let b = cs[j]->Unify_1;
        assert(fits(a, given, start, next) && fits(b, given, start, next));
        assert forall|n: Seq<char>| #[trigger] a.occurs(n) implies known(n, given, start, later) by {
            assert(known(n, given, start, next));
        }
        assert forall|n: Seq<char>| #[trigger] b.occurs(n) implies known(n, given, start, later) by {
            assert(known(n, given, start, next));
        }
    }
}

/// One more constraint that fits keeps a list fitting.
pub proof fn lemma_constraints_fit_push(
    cs: Seq<Constraint>,
    a: Ty,
    b: Ty,
    given: spec_fn(Seq<char>) -> bool,
    start: nat,
    next: nat,
)
    requires
        constraints_fit(cs, given, start, next),
        fits(a, given, start, next),
        fits(b, given, start, next),
    ensures
        constraints_fit(cs.push(Constraint::Unify(a, b)), given, start, next),
{
    let more = cs.push(Constraint::Unify(a, b));
    assert forall|j: int| 0 <= j < more.len() implies (#[trigger] more[j]) is Unify && fits(
        more[j]->Unify_0,
        given,
        start,
        next,
    ) && fits(more[j]->Unify_1, given, start, next) by {
        if j < cs.len() {
            assert(cs[j] is Unify);
        }
    }
}

/// A tidy type whose variables are fresh ones made since `start` fits.
pub proof fn lemma_fresh_fits(
    t: Ty,
    from: nat,
    given: spec_fn(Seq<char>) -> bool,
    start: nat,
    next: nat,
)
    requires
        t.tidy(),
        start <= from,
        forall|w: Seq<char>| #[trigger] t.occurs(w) ==> fresh_in(w, from, next),
    ensures
        fits(t, given, start, next),
{
    assert forall|n: Seq<char>| #[trigger] t.occurs(n) implies known(n, given, start, next) by {
        assert(fresh_in(n, from, next));
    }
}

/// What the kind of a tidy type is like: it is tidy, holds no variable
/// but fresh ones made on the way, and the counter has not gone back.
pub proof fn lemma_kind_tidy(cx: Context, t: Ty, given: spec_fn(Seq<char>) -> bool, since: nat)
    requires
        t.tidy(),
        since <= cx.next_id,
    ensures
        cx.kind_of(t).1 is Ok ==> {
            let k = cx.kind_of(t).1->Ok_0;
            let after = cx.kind_of(t).0.next_id;
            &&& cx.next_id <= after
            &&& k.tidy()
            &&& forall|w: Seq<char>| #[trigger] k.occurs(w) ==> fresh_in(w, cx.next_id, after)
            &&& constraints_fit(cx.constraints, given, since, cx.next_id) ==> constraints_fit(
                cx.kind_of(t).0.constraints,
                given,
                since,
                after,
            )
        },
    decreases t.spine(),
{
    match t {
        Ty::Scheme(vs, body) => {
            let (c, r) = cx.instantiate(t);
            if r is Ok {
                lemma_fresh_bindings_flat(vs, cx.next_id, vs.len());
                lemma_subst_spine(*body, fresh_bindings(vs, cx.next_id, vs.len()));
                lemma_instance_tidy(*body, vs, cx.next_id);
                lemma_kind_tidy(c, r->Ok_0, given, since);
                if c.kind_of(r->Ok_0).1 is Ok {
                    let k = c.kind_of(r->Ok_0).1->Ok_0;
                    let after = c.kind_of(r->Ok_0).0.next_id;
                    if constraints_fit(cx.constraints, given, since, cx.next_id) {
                        lemma_constraints_fit_later(cx.constraints, given, since, cx.next_id, c.next_id);
                    }
                    assert forall|w: Seq<char>| #[trigger] k.occurs(w) implies fresh_in(
                        w,
                        cx.next_id,
                        after,
                    ) by {
                        assert(fresh_in(w, c.next_id, after));
                    }
                }
            }
        },
        Ty::Constructor(v) => {
            lemma_closed(*v.kind, Seq::empty());
        },
        Ty::ArrowKind => {
            crate::frame::lemma_arrow_kind_closed(cx.environment);
            let arrow = Ty::arrow(Ty::NoKind, Ty::arrow(Ty::NoKind, Ty::NoKind));
            assert(arrow.bound_by(Seq::empty())) by {
                reveal_with_fuel(Ty::bound_by, 5);
            }
        },
        Ty::Apply(f, x) => {
            if *f != Ty::ArrowKind {
                let (c1, k) = cx.fresh(Ty::NoKind);
                if k is Ok {
                    lemma_fresh_index(cx.next_id);
                    lemma_kind_tidy(c1, *x, given, since);
                    let (c2, ki) = c1.kind_of(*x);
                    if ki is Ok {
                        lemma_kind_tidy(c2, *f, given, since);
                        let (c3, kf) = c2.kind_of(*f);
                        if kf is Ok {
                            assert forall|w: Seq<char>| #[trigger] (k->Ok_0).occurs(w) implies fresh_in(
                                w,
                                cx.next_id,
                                c3.next_id,
                            ) by {
                                assert(w == fresh_name(cx.next_id));
                            }
                            if constraints_fit(cx.constraints, given, since, cx.next_id) {
                                lemma_constraints_fit_later(
                                    cx.constraints,
                                    given,
                                    since,
                                    cx.next_id,
                                    c1.next_id,
                                );
                                let to = Ty::arrow(ki->Ok_0, k->Ok_0);
                                assert(to.tidy()) by {
                                    reveal_with_fuel(Ty::tidy, 3);
                                }
                                assert forall|w: Seq<char>| #[trigger] to.occurs(w) implies fresh_in(
                                    w,
                                    cx.next_id,
                                    c3.next_id,
                                ) by {
                                    reveal_with_fuel(Ty::occurs, 3);
                                    if (ki->Ok_0).occurs(w) {
                                        assert(fresh_in(w, c1.next_id, c2.next_id));
                                    } else {
                                        assert((k->Ok_0).occurs(w));
                                    }
                                }
                                assert forall|w: Seq<char>| #[trigger] (kf->Ok_0).occurs(w) implies fresh_in(
                                    w,
                                    cx.next_id,
                                    c3.next_id,
                                ) by {
                                    assert(fresh_in(w, c2.next_id, c3.next_id));
                                }
                                lemma_fresh_fits(to, cx.next_id, given, since, c3.next_id);
                                lemma_fresh_fits(kf->Ok_0, cx.next_id, given, since, c3.next_id);
                                lemma_constraints_fit_push(
                                    c3.constraints,
                                    kf->Ok_0,
                                    to,
                                    given,
                                    since,
                                    c3.next_id,
                                );
                            }
                        }
                    }
                }
            }
        },
        _ => {},
    }
}

/// What the kinds that an application reconciles are like: they are
/// tidy, hold no variable but fresh ones made on the way, and the counter
/// has not gone back.
pub proof fn lemma_constrain_tidy(
    cx: Context,
    func: Ty,
    input: Ty,
    given: spec_fn(Seq<char>) -> bool,
    since: nat,
)
    requires
        func.tidy(),
        input.tidy(),
        since <= cx.next_id,
    ensures
        cx.constrain(func, input).1 is Ok ==> {
            let pair = cx.constrain(func, input).1->Ok_0;
            let after = cx.constrain(func, input).0.next_id;
            &&& cx.next_id <= after
            &&& pair.0.tidy()
            &&& pair.1.tidy()
            &&& forall|w: Seq<char>| #[trigger] pair.0.occurs(w) ==> fresh_in(w, cx.next_id, after)
            &&& forall|w: Seq<char>| #[trigger] pair.1.occurs(w) ==> fresh_in(w, cx.next_id, after)
            &&& constraints_fit(cx.constraints, given, since, cx.next_id) ==> constraints_fit(
                cx.constrain(func, input).0.constraints,
                given,
                since,
                after,
            )
        },
{
    let (c1, k) = cx.fresh(Ty::NoKind);
    if k is Ok {
        lemma_fresh_index(cx.next_id);
        if constraints_fit(cx.constraints, given, since, cx.next_id) {
            lemma_constraints_fit_later(cx.constraints, given, since, cx.next_id, c1.next_id);
        }
        lemma_kind_tidy(c1, func, given, since);
        let (c2, kf) = c1.kind_of(func);
        if kf is Ok {
            lemma_kind_tidy(c2, input, given, since);
            let (c3, ki) = c2.kind_of(input);
            if ki is Ok {
                let to = Ty::arrow(ki->Ok_0, k->Ok_0);
                assert(to.tidy()) by {
                    reveal_with_fuel(Ty::tidy, 3);
                }
                assert forall|w: Seq<char>| #[trigger] to.occurs(w) implies fresh_in(
                    w,
                    cx.next_id,
                    c3.next_id,
                ) by {
                    reveal_with_fuel(Ty::occurs, 3);
                    if (ki->Ok_0).occurs(w) {
                        assert(fresh_in(w, c2.next_id, c3.next_id));
                    } else {
                        assert((k->Ok_0).occurs(w));
                        assert(w == fresh_name(cx.next_id));
                    }
                }
                assert forall|w: Seq<char>| #[trigger] (kf->Ok_0).occurs(w) implies fresh_in(
                    w,
                    cx.next_id,
                    c3.next_id,
                ) by {
                    assert(fresh_in(w, c1.next_id, c2.next_id));
                }
            }
        }
    }
}

/// Being alike does not depend on the side.
pub proof fn lemma_alike_symmetric(a: Ty, b: Ty)
    requires
        a.alike(b),
    ensures
        b.alike(a),
    decreases a,
{
    if a is NoKind || b is NoKind || a is Scheme || b is Scheme {
    } else {
        match a {
            Ty::Apply(f, x) => {
                lemma_alike_symmetric(*f, *b->Apply_0);
                lemma_alike_symmetric(*x, *b->Apply_1);
            },
            _ => {},
        }
    }
}

/// The test for the names of the variables of two types.
pub open spec fn either(l: Ty, r: Ty) -> spec_fn(Seq<char>) -> bool {
    |n: Seq<char>| l.occurs(n) || r.occurs(n)
}

/// The test for the names of the variables of two lists of types.
pub open spec fn any_of(ls: Seq<Ty>, rs: Seq<Ty>) -> spec_fn(Seq<char>) -> bool {
    |n: Seq<char>|
        (exists|j: int| 0 <= j < ls.len() && (#[trigger] ls[j]).occurs(n)) || (exists|j: int|
            0 <= j < rs.len() && (#[trigger] rs[j]).occurs(n))
}

/// Whether `n` is a name that `given` accepts or the name of a fresh
/// variable numbered from `start` up to, but without, `end`.
pub open spec fn known(n: Seq<char>, given: spec_fn(Seq<char>) -> bool, start: nat, end: nat) -> bool {
    given(n) || fresh_in(n, start, end)
}

/// Whether a substitution is a proper outcome of unification: it binds
/// known names only, to tidy types that hold known variables only and none
/// that it binds.
pub open spec fn proper(
    s: Map<Seq<char>, Ty>,
    given: spec_fn(Seq<char>) -> bool,
    start: nat,
    end: nat,
) -> bool {
    &&& forall|k: Seq<char>| #[trigger] s.contains_key(k) ==> known(k, given, start, end) && s[k].tidy()
    &&& forall|k: Seq<char>, w: Seq<char>|
        s.contains_key(k) && #[trigger] s[k].occurs(w) ==> known(w, given, start, end)
            && !s.contains_key(w)
}

/// Whether every type of the list is tidy and holds no variable that is
/// still to be made.
pub open spec fn ready_list(ts: Seq<Ty>, next: nat) -> bool {
    forall|j: int|
        0 <= j < ts.len() ==> (#[trigger] ts[j]).tidy() && forall|n: Seq<char>| #[trigger]
            ts[j].occurs(n) ==> made_before(n, next)
}

/// Whether the type is tidy and holds no variable that is still to be
/// made.
pub open spec fn ready(t: Ty, next: nat) -> bool {
    t.tidy() && forall|n: Seq<char>| #[trigger] t.occurs(n) ==> made_before(n, next)
}

/// A proper substitution stays proper where more names are known.
pub proof fn lemma_proper_wider(
    s: Map<Seq<char>, Ty>,
    given: spec_fn(Seq<char>) -> bool,
    start: nat,
    end: nat,
    wider: spec_fn(Seq<char>) -> bool,
    from: nat,
    to: nat,
)
    requires
        proper(s, given, start, end),
        forall|n: Seq<char>| known(n, given, start, end) ==> known(n, wider, from, to),
    ensures
        proper(s, wider, from, to),
{
    assert forall|k: Seq<char>| #[trigger] s.contains_key(k) implies known(k, wider, from, to)
        && s[k].tidy() by {
        assert(known(k, given, start, end));
    }
    assert forall|k: Seq<char>, w: Seq<char>|
        s.contains_key(k) && #[trigger] s[k].occurs(w) implies known(w, wider, from, to)
            && !s.contains_key(w) by {
        assert(known(w, given, start, end));
    }
}

/// The composition of two proper substitutions, the later of which was
/// found for types to which the earlier one had been applied, is proper,
/// and the two bind different names.
pub proof fn lemma_compose_proper(
    s: Map<Seq<char>, Ty>,
    others: Map<Seq<char>, Ty>,
    first: spec_fn(Seq<char>) -> bool,
    rest: spec_fn(Seq<char>) -> bool,
    all: spec_fn(Seq<char>) -> bool,
    start: nat,
    middle: nat,
    end: nat,
)
    requires
        start <= middle <= end,
        proper(s, first, start, middle),
        proper(others, rest, middle, end),
        forall|n: Seq<char>| #[trigger] first(n) ==> all(n) && made_before(n, start),
        forall|n: Seq<char>| #[trigger] rest(n) ==> !s.contains_key(n) && known(n, all, start, middle),
    ensures
        proper(compose(others, s), all, start, end),
        forall|k: Seq<char>| !(#[trigger] s.contains_key(k) && others.contains_key(k)),
        agree(others, s),
{
    let joined = compose(others, s);
    assert forall|n: Seq<char>| known(n, rest, middle, end) implies !s.contains_key(n) && known(
        n,
        all,
        start,
        end,
    ) by {
        if rest(n) {
        } else {
            assert(fresh_in(n, middle, end));
            if s.contains_key(n) {
                assert(known(n, first, start, middle));
                if first(n) {
                    assert(made_before(n, start));
                }
            }
        }
    }
    assert forall|k: Seq<char>| !(#[trigger] s.contains_key(k) && others.contains_key(k)) by {
        if others.contains_key(k) {
            assert(known(k, rest, middle, end));
        }
    }
    assert forall|k: Seq<char>| #[trigger] joined.contains_key(k) implies known(k, all, start, end)
        && joined[k].tidy() by {
        if others.contains_key(k) {
            assert(known(k, rest, middle, end));
        } else {
            assert(s.contains_key(k));
            assert(known(k, first, start, middle));
            lemma_subst_tidy(s[k], others);
        }
    }
    assert forall|k: Seq<char>, w: Seq<char>|
        joined.contains_key(k) && #[trigger] joined[k].occurs(w) implies known(w, all, start, end)
            && !joined.contains_key(w) by {
        if others.contains_key(k) {
            assert(others[k].occurs(w));
            assert(known(w, rest, middle, end));
        } else {
            assert(s.contains_key(k));
            lemma_subst_occurs(s[k], others, w);
            if s[k].occurs(w) && !others.contains_key(w) {
                assert(known(w, first, start, middle));
            } else {
                let via = choose|via: Seq<char>|
                    #![trigger others.contains_key(via)]
                    s[k].occurs(via) && others.contains_key(via) && others[via].occurs(w);
                assert(others[via].occurs(w));
                assert(known(w, rest, middle, end));
            }
        }
    }
}

/// Whether a step of the solver, where it gave a substitution, gave a
/// proper one that makes `l` and `r` alike, without the counter going
/// back.
pub open spec fn unifies(
    step: (Context, Result<Map<Seq<char>, Ty>, Failure>),
    l: Ty,
    r: Ty,
    given: spec_fn(Seq<char>) -> bool,
    start: nat,
) -> bool {
    step.1 is Ok ==> {
        let s = step.1->Ok_0;
        &&& start <= step.0.next_id
        &&& proper(s, given, start, step.0.next_id)
        &&& l.subst(s).alike(r.subst(s))
    }
}

/// Whether a step of the solver, where it gave a substitution, left
/// pending constraints that fit, if those that were pending before did.
pub open spec fn keeps_fit(
    before: Context,
    step: (Context, Result<Map<Seq<char>, Ty>, Failure>),
    held: spec_fn(Seq<char>) -> bool,
    since: nat,
) -> bool {
    step.1 is Ok && constraints_fit(before.constraints, held, since, before.next_id)
        ==> constraints_fit(step.0.constraints, held, since, step.0.next_id)
}

/// Whether a step of the solver, where it gave a substitution, gave a
/// proper one that makes the types of two lists alike pair by pair, without
/// the counter going back.
pub open spec fn unifies_all(
    step: (Context, Result<Map<Seq<char>, Ty>, Failure>),
    ls: Seq<Ty>,
    rs: Seq<Ty>,
    given: spec_fn(Seq<char>) -> bool,
    start: nat,
) -> bool {
    step.1 is Ok ==> {
        let s = step.1->Ok_0;
        &&& start <= step.0.next_id
        &&& proper(s, given, start, step.0.next_id)
        &&& forall|j: int|
            0 <= j < ls.len() && j < rs.len() ==> (#[trigger] ls[j].subst(s)).alike(rs[j].subst(s))
    }
}

/// The substitution without bindings is proper.
pub proof fn lemma_empty_proper(given: spec_fn(Seq<char>) -> bool, start: nat, end: nat)
    ensures
        proper(Map::empty(), given, start, end),
{
}

/// Binding a tidy variable to a tidy type gives a unifier of the two.
pub proof fn lemma_bind_sound(
    cx: Context,
    variable: Ty,
    t: Ty,
    depth: nat,
    held: spec_fn(Seq<char>) -> bool,
    since: nat,
)
    requires
        variable is Variable,
        ready(variable, cx.next_id),
        ready(t, cx.next_id),
        since <= cx.next_id,
    ensures
        unifies(
            cx.bind(variable->Variable_0.name, Some(*variable->Variable_0.kind), t, depth),
            variable,
            t,
            either(variable, t),
            cx.next_id,
        ),
        keeps_fit(
            cx,
            cx.bind(variable->Variable_0.name, Some(*variable->Variable_0.kind), t, depth),
            held,
            since,
        ),
    decreases depth, 0nat,
{
    let name = variable->Variable_0.name;
    let given = either(variable, t);
    if depth > 0 {
        let d = (depth - 1) as nat;
        if t is Variable && t->Variable_0.name == name {
            if depth > 0 {
                let none = Map::<Seq<char>, Ty>::empty();
                assert(cx.unify(*t->Variable_0.kind, *variable->Variable_0.kind, d) == (
                    cx,
                    Ok::<Map<Seq<char>, Ty>, Failure>(none),
                ));
                lemma_empty_proper(given, cx.next_id, cx.next_id);
                assert(variable.subst(none) == variable);
                assert(t.subst(none) == t);
            }
        } else if t.mentions(name) {
        } else {
            lemma_kind_tidy(cx, t, held, since);
            let (c1, k) = cx.kind_of(t);
            if k is Ok {
                let none = Map::<Seq<char>, Ty>::empty();
                assert(c1.unify(k->Ok_0, *variable->Variable_0.kind, d) == (
                    c1,
                    Ok::<Map<Seq<char>, Ty>, Failure>(none),
                ));
                lemma_subst_empty(t);
                let s = none.insert(name, t);
                assert(cx.bind(name, Some(*variable->Variable_0.kind), t, depth) == (
                    c1,
                    Ok::<Map<Seq<char>, Ty>, Failure>(s),
                ));
                assert forall|w: Seq<char>| #[trigger] t.occurs(w) implies w != name by {
                    if w == name {
                        lemma_occurs_mentions(t, name);
                    }
                }
                assert forall|n: Seq<char>| t.occurs(n) implies !s.contains_key(n) by {}
                lemma_subst_untouched(t, s);
                lemma_alike_same(t);
                assert(variable.subst(s) == t);
                assert(given(name)) by {
                    assert(variable.occurs(name));
                }
                assert forall|k2: Seq<char>, w: Seq<char>|
                    s.contains_key(k2) && #[trigger] s[k2].occurs(w) implies known(
                        w,
                        given,
                        cx.next_id,
                        c1.next_id,
                    ) && !s.contains_key(w) by {
                    assert(t.occurs(w));
                    assert(given(w));
                }
            }
        }
    }
}

/// Unifying two tidy types gives a unifier of the two.
pub proof fn lemma_unify_sound(
    cx: Context,
    l: Ty,
    r: Ty,
    depth: nat,
    held: spec_fn(Seq<char>) -> bool,
    since: nat,
)
    requires
        ready(l, cx.next_id),
        ready(r, cx.next_id),
        since <= cx.next_id,
    ensures
        unifies(cx.unify(l, r, depth), l, r, either(l, r), cx.next_id),
        keeps_fit(cx, cx.unify(l, r, depth), held, since),
    decreases depth, 1nat,
{
    let given = either(l, r);
    let start = cx.next_id;
    if l == r || l is NoKind || r is NoKind {
        lemma_empty_proper(given, start, start);
        lemma_subst_empty(l);
        lemma_subst_empty(r);
        lemma_alike_same(l);
    } else if depth > 0 {
        let d = (depth - 1) as nat;
        let none = Map::<Seq<char>, Ty>::empty();
        if l == r || l is NoKind || r is NoKind {
            lemma_empty_proper(given, start, start);
            lemma_subst_empty(l);
            lemma_subst_empty(r);
            lemma_alike_same(l);
        } else if l is Constructor && r is Constructor && l->Constructor_0.name
            == r->Constructor_0.name {
            let k1 = *l->Constructor_0.kind;
            let k2 = *r->Constructor_0.kind;
            lemma_closed(k1, Seq::empty());
            lemma_closed(k2, Seq::empty());
            lemma_unify_sound(cx, k1, k2, d, held, since);
            let step = cx.unify(k1, k2, d);
            if step.1 is Ok {
                let s = step.1->Ok_0;
                assert forall|n: Seq<char>| known(n, either(k1, k2), start, step.0.next_id) implies known(
                    n,
                    given,
                    start,
                    step.0.next_id,
                ) by {
                    assert(!k1.occurs(n) && !k2.occurs(n));
                }
                lemma_proper_wider(s, either(k1, k2), start, step.0.next_id, given, start, step.0.next_id);
            }
        } else if l is Scheme {
            let (c, t) = cx.instantiate(l);
            if t is Ok {
                let vs = l->Scheme_0;
                let inst = t->Ok_0;
                lemma_instance_tidy(*l->Scheme_1, vs, start);
                assert(ready(inst, c.next_id));
                assert(ready(r, c.next_id));
                if constraints_fit(cx.constraints, held, since, start) {
                    lemma_constraints_fit_later(cx.constraints, held, since, start, c.next_id);
                }
                lemma_unify_sound(c, inst, r, d, held, since);
                let step = c.unify(inst, r, d);
                if step.1 is Ok {
                    let s = step.1->Ok_0;
                    assert forall|n: Seq<char>| known(n, either(inst, r), c.next_id, step.0.next_id) implies known(
                        n,
                        given,
                        start,
                        step.0.next_id,
                    ) by {
                        if inst.occurs(n) {
                            assert(fresh_in(n, start, c.next_id));
                        }
                    }
                    lemma_proper_wider(
                        s,
                        either(inst, r),
                        c.next_id,
                        step.0.next_id,
                        given,
                        start,
                        step.0.next_id,
                    );
                }
            }
        } else if r is Scheme {
            let (c, t) = cx.instantiate(r);
            if t is Ok {
                let vs = r->Scheme_0;
                let inst = t->Ok_0;
                lemma_instance_tidy(*r->Scheme_1, vs, start);
                assert(ready(inst, c.next_id));
                assert(ready(l, c.next_id));
                if constraints_fit(cx.constraints, held, since, start) {
                    lemma_constraints_fit_later(cx.constraints, held, since, start, c.next_id);
                }
                lemma_unify_sound(c, l, inst, d, held, since);
                let step = c.unify(l, inst, d);
                if step.1 is Ok {
                    let s = step.1->Ok_0;
                    assert forall|n: Seq<char>| known(n, either(l, inst), c.next_id, step.0.next_id) implies known(
                        n,
                        given,
                        start,
                        step.0.next_id,
                    ) by {
                        if inst.occurs(n) {
                            assert(fresh_in(n, start, c.next_id));
                        }
                    }
                    lemma_proper_wider(
                        s,
                        either(l, inst),
                        c.next_id,
                        step.0.next_id,
                        given,
                        start,
                        step.0.next_id,
                    );
                }
            }
        } else if l is Variable {
            lemma_bind_sound(cx, l, r, d, held, since);
        } else if r is Variable {
            lemma_bind_sound(cx, r, l, d, held, since);
            let step = cx.bind(r->Variable_0.name, Some(*r->Variable_0.kind), l, d);
            if step.1 is Ok {
                let s = step.1->Ok_0;
                lemma_alike_symmetric(r.subst(s), l.subst(s));
                assert forall|n: Seq<char>| known(n, either(r, l), start, step.0.next_id) implies known(
                    n,
                    given,
                    start,
                    step.0.next_id,
                ) by {}
                lemma_proper_wider(s, either(r, l), start, step.0.next_id, given, start, step.0.next_id);
            }
        } else if l is Apply && r is Apply {
            let lf = *l->Apply_0;
            let lx = *l->Apply_1;
            let rf = *r->Apply_0;
            let rx = *r->Apply_1;
            lemma_constrain_tidy(cx, lf, lx, held, since);
            let (c1, a) = cx.constrain(lf, lx);
            if a is Ok {
                lemma_constrain_tidy(c1, rf, rx, held, since);
                let (c2, b) = c1.constrain(rf, rx);
                if b is Ok {
                    let ls = seq![(a->Ok_0).0, (b->Ok_0).0, lf, lx];
                    let rs = seq![(a->Ok_0).1, (b->Ok_0).1, rf, rx];
                    assert(ready_list(ls, c2.next_id)) by {
                        assert forall|j: int| 0 <= j < ls.len() implies (#[trigger] ls[j]).tidy()
                            && forall|n: Seq<char>| #[trigger]
                            ls[j].occurs(n) ==> made_before(n, c2.next_id) by {
                            assert forall|n: Seq<char>| #[trigger] ls[j].occurs(n) implies made_before(
                                n,
                                c2.next_id,
                            ) by {
                                if j == 0 {
                                    assert(fresh_in(n, start, c1.next_id));
                                } else if j == 1 {
                                    assert(fresh_in(n, c1.next_id, c2.next_id));
                                } else {
                                    assert(l.occurs(n));
                                }
                            }
                        }
                    }
                    assert(ready_list(rs, c2.next_id)) by {
                        assert forall|j: int| 0 <= j < rs.len() implies (#[trigger] rs[j]).tidy()
                            && forall|n: Seq<char>| #[trigger]
                            rs[j].occurs(n) ==> made_before(n, c2.next_id) by {
                            assert forall|n: Seq<char>| #[trigger] rs[j].occurs(n) implies made_before(
                                n,
                                c2.next_id,
                            ) by {
                                if j == 0 {
                                    assert(fresh_in(n, start, c1.next_id));
                                } else if j == 1 {
                                    assert(fresh_in(n, c1.next_id, c2.next_id));
                                } else {
                                    assert(r.occurs(n));
                                }
                            }
                        }
                    }
                    lemma_unify_many_sound(c2, ls, rs, d, held, since);
                    let step = c2.unify_many(ls, rs, d);
                    if step.1 is Ok {
                        let s = step.1->Ok_0;
                        assert forall|n: Seq<char>| known(n, any_of(ls, rs), c2.next_id, step.0.next_id) implies known(
                            n,
                            given,
                            start,
                            step.0.next_id,
                        ) by {
                            if any_of(ls, rs)(n) {
                                if exists|j: int| 0 <= j < ls.len() && (#[trigger] ls[j]).occurs(n) {
                                    let j = choose|j: int| 0 <= j < ls.len() && (#[trigger] ls[j]).occurs(n);
                                    if j == 0 {
                                        assert(fresh_in(n, start, c1.next_id));
                                    } else if j == 1 {
                                        assert(fresh_in(n, c1.next_id, c2.next_id));
                                    } else {
                                        assert(l.occurs(n));
                                    }
                                } else {
                                    let j = choose|j: int| 0 <= j < rs.len() && (#[trigger] rs[j]).occurs(n);
                                    if j == 0 {
                                        assert(fresh_in(n, start, c1.next_id));
                                    } else if j == 1 {
                                        assert(fresh_in(n, c1.next_id, c2.next_id));
                                    } else {
                                        assert(r.occurs(n));
                                    }
                                }
                            }
                        }
                        lemma_proper_wider(
                            s,
                            any_of(ls, rs),
                            c2.next_id,
                            step.0.next_id,
                            given,
                            start,
                            step.0.next_id,
                        );
                        assert(ls[2].subst(s).alike(rs[2].subst(s)));
                        assert(ls[3].subst(s).alike(rs[3].subst(s)));
                    }
                }
            }
        }
    }
}

/// Unifying two lists of tidy types gives a unifier of each pair.
pub proof fn lemma_unify_many_sound(
    cx: Context,
    ls: Seq<Ty>,
    rs: Seq<Ty>,
    depth: nat,
    held: spec_fn(Seq<char>) -> bool,
    since: nat,
)
    requires
        ready_list(ls, cx.next_id),
        ready_list(rs, cx.next_id),
        since <= cx.next_id,
    ensures
        unifies_all(cx.unify_many(ls, rs, depth), ls, rs, any_of(ls, rs), cx.next_id),
        keeps_fit(cx, cx.unify_many(ls, rs, depth), held, since),
    decreases depth, 1nat,
{
    let given = any_of(ls, rs);
    let start = cx.next_id;
    if ls.len() == 0 && rs.len() == 0 {
        lemma_empty_proper(given, start, start);
    } else if depth > 0 {
        let d = (depth - 1) as nat;
        if ls.len() == 0 && rs.len() == 0 {
            lemma_empty_proper(given, start, start);
        } else if ls.len() == 0 || rs.len() == 0 {
        } else {
            assert(ready(ls[0], start) && ready(rs[0], start));
            lemma_unify_sound(cx, ls[0], rs[0], d, held, since);
            let (c1, first) = cx.unify(ls[0], rs[0], d);
            if first is Ok {
                let s = first->Ok_0;
                let middle = c1.next_id;
                let rest_l = subst_types(ls.drop_first(), s);
                let rest_r = subst_types(rs.drop_first(), s);
                lemma_rest_ready(ls, rs, s, start, middle, true);
                lemma_rest_ready(ls, rs, s, start, middle, false);
                lemma_unify_many_sound(c1, rest_l, rest_r, d, held, since);
                let (c2, rest) = c1.unify_many(rest_l, rest_r, d);
                if rest is Ok {
                    let others = rest->Ok_0;
                    let end = c2.next_id;
                    assert forall|n: Seq<char>| #[trigger] either(ls[0], rs[0])(n) implies given(n)
                        && made_before(n, start) by {
                        if ls[0].occurs(n) {
                        } else {
                            assert(rs[0].occurs(n));
                        }
                    }
                    assert forall|n: Seq<char>| #[trigger] any_of(rest_l, rest_r)(n) implies !s.contains_key(n)
                        && known(n, given, start, middle) by {
                        lemma_rest_known(ls, rs, s, start, middle, n);
                    }
                    lemma_compose_proper(
                        s,
                        others,
                        either(ls[0], rs[0]),
                        any_of(rest_l, rest_r),
                        given,
                        start,
                        middle,
                        end,
                    );
                    let joined = compose(others, s);
                    assert forall|j: int| 0 <= j < ls.len() && j < rs.len() implies (
                    #[trigger] ls[j].subst(joined)).alike(rs[j].subst(joined)) by {
                        lemma_compose_acts_in_turn(ls[j], others, s);
                        lemma_compose_acts_in_turn(rs[j], others, s);
                        if j == 0 {
                            lemma_alike_subst(ls[0].subst(s), rs[0].subst(s), others);
                        } else {
                            assert(rest_l[j - 1] == ls[j].subst(s));
                            assert(rest_r[j - 1] == rs[j].subst(s));
                            assert(rest_l[j - 1].subst(others).alike(rest_r[j - 1].subst(others)));
                        }
                    }
                }
            }
        }
    }
}

/// The types that are left of two lists, under a proper substitution for
/// their first pair, are ready for what comes after it.
pub proof fn lemma_rest_ready(
    ls: Seq<Ty>,
    rs: Seq<Ty>,
    s: Map<Seq<char>, Ty>,
    start: nat,
    middle: nat,
    left: bool,
)
    requires
        ls.len() > 0,
        rs.len() > 0,
        start <= middle,
        ready_list(ls, start),
        ready_list(rs, start),
        proper(s, either(ls[0], rs[0]), start, middle),
    ensures
        left ==> ready_list(subst_types(ls.drop_first(), s), middle),
        !left ==> ready_list(subst_types(rs.drop_first(), s), middle),
{
    let ts = if left {
        ls
    } else {
        rs
    };
    let rest = subst_types(ts.drop_first(), s);
    assert forall|j: int| 0 <= j < rest.len() implies (#[trigger] rest[j]).tidy() && forall|
        n: Seq<char>,
    | #[trigger] rest[j].occurs(n) ==> made_before(n, middle) by {
        assert(rest[j] == ts[j + 1].subst(s));
        assert(ts[j + 1].tidy());
        lemma_subst_tidy(ts[j + 1], s);
        assert forall|n: Seq<char>| #[trigger] rest[j].occurs(n) implies made_before(n, middle) by {
            lemma_subst_occurs(ts[j + 1], s, n);
            if ts[j + 1].occurs(n) && !s.contains_key(n) {
            } else {
                let k = choose|k: Seq<char>|
                    #![trigger s.contains_key(k)]
                    ts[j + 1].occurs(k) && s.contains_key(k) && s[k].occurs(n);
                assert(s[k].occurs(n));
                assert(known(n, either(ls[0], rs[0]), start, middle));
                if ls[0].occurs(n) {
                } else if rs[0].occurs(n) {
                }
            }
        }
    }
}

/// A variable of the types that are left of two lists, under a proper
/// substitution for their first pair, is not bound by the substitution,
/// and is a variable of the lists or a fresh one made for the first pair.
pub proof fn lemma_rest_known(
    ls: Seq<Ty>,
    rs: Seq<Ty>,
    s: Map<Seq<char>, Ty>,
    start: nat,
    middle: nat,
    n: Seq<char>,
)
    requires
        ls.len() > 0,
        rs.len() > 0,
        proper(s, either(ls[0], rs[0]), start, middle),
        any_of(subst_types(ls.drop_first(), s), subst_types(rs.drop_first(), s))(n),
    ensures
        !s.contains_key(n),
        known(n, any_of(ls, rs), start, middle),
{
    let rest_l = subst_types(ls.drop_first(), s);
    let rest_r = subst_types(rs.drop_first(), s);
    let left = exists|j: int| 0 <= j < rest_l.len() && (#[trigger] rest_l[j]).occurs(n);
    let ts = if left {
        ls
    } else {
        rs
    };
    let rest = if left {
        rest_l
    } else {
        rest_r
    };
    let j = if left {
        choose|j: int| 0 <= j < rest_l.len() && (#[trigger] rest_l[j]).occurs(n)
    } else {
        choose|j: int| 0 <= j < rest_r.len() && (#[trigger] rest_r[j]).occurs(n)
    };
    assert(rest[j] == ts[j + 1].subst(s));
    lemma_subst_occurs(ts[j + 1], s, n);
    if ts[j + 1].occurs(n) && !s.contains_key(n) {
        assert(any_of(ls, rs)(n));
    } else {
        let k = choose|k: Seq<char>|
            #![trigger s.contains_key(k)]
            ts[j + 1].occurs(k) && s.contains_key(k) && s[k].occurs(n);
        assert(s[k].occurs(n));
        assert(known(n, either(ls[0], rs[0]), start, middle));
        if ls[0].occurs(n) {
            assert(any_of(ls, rs)(n));
        } else if rs[0].occurs(n) {
            assert(any_of(ls, rs)(n));
        }
    }
}

impl Ty {
    /// Whether the type is plain under the signature `kinds`: it holds
    /// neither `NoKind` nor a scheme, its variables carry no kind, and each
    /// of its constructors carries the kind that `kinds` gives for its
    /// name.
    pub open spec fn plain(self, kinds: spec_fn(Seq<char>) -> Ty) -> bool
        decreases self,
    {
        match self {
            Ty::Variable(v) => *v.kind == Ty::NoKind,
            Ty::Constructor(v) => *v.kind == kinds(v.name),
            Ty::Apply(f, x) => f.plain(kinds) && x.plain(kinds),
            Ty::ArrowKind => true,
            _ => false,
        }
    }
}

/// Plain types that are alike are the same type.
pub proof fn lemma_alike_plain(a: Ty, b: Ty, kinds: spec_fn(Seq<char>) -> Ty)
    requires
        a.alike(b),
        a.plain(kinds),
        b.plain(kinds),
    ensures
        a == b,
    decreases a,
{
    match a {
        Ty::Apply(f, x) => {
            lemma_alike_plain(*f, *b->Apply_0, kinds);
            lemma_alike_plain(*x, *b->Apply_1, kinds);
        },
        _ => {},
    }
}

/// Unification finds a unifier. Where two tidy types that hold no
/// variable named like a fresh variable still to be made are unified, the
/// substitution found makes them alike; where it makes them plain, it
/// makes them the same type. It binds variables of the two types and fresh
/// variables made on the way only, to tidy types that hold none of the
/// variables that it binds.
pub proof fn law_unify_unifies(cx: Context, l: Ty, r: Ty, depth: nat, kinds: spec_fn(Seq<char>) -> Ty)
    requires
        l.tidy(),
        r.tidy(),
        forall|n: Seq<char>| l.occurs(n) || r.occurs(n) ==> made_before(n, cx.next_id),
        cx.unify(l, r, depth).1 is Ok,
    ensures
        ({
            let s = cx.unify(l, r, depth).1->Ok_0;
            let after = cx.unify(l, r, depth).0.next_id;
            &&& l.subst(s).alike(r.subst(s))
            &&& l.subst(s).plain(kinds) && r.subst(s).plain(kinds) ==> l.subst(s) == r.subst(s)
            &&& proper(s, either(l, r), cx.next_id, after)
        }),
{
    lemma_unify_sound(cx, l, r, depth, either(l, r), cx.next_id);
    let s = cx.unify(l, r, depth).1->Ok_0;
    if l.subst(s).plain(kinds) && r.subst(s).plain(kinds) {
        lemma_alike_plain(l.subst(s), r.subst(s), kinds);
    }
}

/// Unification of two lists finds a unifier of each pair, under the
/// conditions under which unification of two types does.
pub proof fn law_unify_many_unifies(cx: Context, ls: Seq<Ty>, rs: Seq<Ty>, depth: nat)
    requires
        ready_list(ls, cx.next_id),
        ready_list(rs, cx.next_id),
        cx.unify_many(ls, rs, depth).1 is Ok,
    ensures
        forall|j: int|
            0 <= j < ls.len() && j < rs.len() ==> (#[trigger] ls[j].subst(
                cx.unify_many(ls, rs, depth).1->Ok_0,
            )).alike(rs[j].subst(cx.unify_many(ls, rs, depth).1->Ok_0)),
{
    lemma_unify_many_sound(cx, ls, rs, depth, any_of(ls, rs), cx.next_id);
}

} // verus!
