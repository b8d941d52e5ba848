//! Matching matches: on tidy types without a common variable, the
//! substitution that matching gives binds variables of the left side and
//! fresh ones only, and makes the left side alike to the right side as it
//! stands.

use crate::context::Context;
use crate::errors::Failure;
use crate::laws::{law_safe_compose_joins, lemma_subst_empty};
use crate::soundness::{any_of, either, fresh_in, known, lemma_alike_same, lemma_bind_sound, lemma_closed, lemma_constrain_tidy, lemma_instance_tidy, lemma_subst_untouched, lemma_unify_many_sound, made_before, ready, ready_list};
use crate::substitution::{compose, safe_compose};
use crate::types::Ty;
use vstd::prelude::*;

verus! {

/// Whether two types have no variable in common.
pub open spec fn separate(l: Ty, r: Ty) -> bool {
    forall|n: Seq<char>| #[trigger] l.occurs(n) ==> !r.occurs(n)
}

/// Whether a step of the solver, where it gave a substitution, gave one
/// that matches `l` against `r`: it binds variables of `l` and fresh ones
/// only, binds each variable of `l` to a tidy type whose variables are
/// variables of `r` or fresh ones, and makes `l` alike to `r`.
pub open spec fn matches_left(
    step: (Context, Result<Map<Seq<char>, Ty>, Failure>),
    l: Ty,
    r: Ty,
    start: nat,
) -> bool {
    step.1 is Ok ==> {
        let s = step.1->Ok_0;
        let end = step.0.next_id;
        &&& start <= end
        &&& forall|k: Seq<char>| #[trigger] s.contains_key(k) ==> l.occurs(k) || fresh_in(k, start, end)
        &&& forall|k: Seq<char>, w: Seq<char>|
            s.contains_key(k) && l.occurs(k) && #[trigger] s[k].occurs(w) ==> r.occurs(w)
                || fresh_in(w, start, end)
        &&& l.subst(s).alike(r)
    }
}

/// A substitution that makes a type alike to another one without a
/// common variable still does so when it binds more.
pub proof fn lemma_alike_extended(a: Ty, b: Ty, s: Map<Seq<char>, Ty>, more: Map<Seq<char>, Ty>)
    requires
        a.subst(s).alike(b),
        separate(a, b),
        forall|k: Seq<char>| #[trigger] s.contains_key(k) ==> more.contains_key(k) && more[k] == s[k],
    ensures
        a.subst(more).alike(b),
    decreases a,
{
    if b is NoKind || b is Scheme {
    } else {
        match a {
            Ty::Variable(v) => {
                if s.contains_key(v.name) {
                } else {
                    assert(a.occurs(v.name));
                    assert(!b.occurs(v.name));
                }
            },
            Ty::Apply(f, x) => {
                let bf = *b->Apply_0;
                let bx = *b->Apply_1;
                assert(separate(*f, bf)) by {
                    assert forall|n: Seq<char>| #[trigger] f.occurs(n) implies !bf.occurs(n) by {
                        assert(a.occurs(n));
                        assert(!b.occurs(n));
                    }
                }
                assert(separate(*x, bx)) by {
                    assert forall|n: Seq<char>| #[trigger] x.occurs(n) implies !bx.occurs(n) by {
                        assert(a.occurs(n));
                        assert(!b.occurs(n));
                    }
                }
                lemma_alike_extended(*f, bf, s, more);
                lemma_alike_extended(*x, bx, s, more);
            },
            _ => {},
        }
    }
}

/// A substitution acts on a type through the variables of the type only:
/// two substitutions that agree on them give the same type.
pub proof fn lemma_subst_same(t: Ty, a: Map<Seq<char>, Ty>, b: Map<Seq<char>, Ty>)
    requires
        forall|n: Seq<char>| #[trigger]
            t.occurs(n) ==> (a.contains_key(n) <==> b.contains_key(n)) && (a.contains_key(n)
                ==> a[n] == b[n]),
    ensures
        t.subst(a) == t.subst(b),
    decreases t,
{
    match t {
        Ty::Variable(v) => {
            assert(t.occurs(v.name));
        },
        Ty::Apply(f, x) => {
            assert forall|n: Seq<char>| #[trigger] f.occurs(n) implies (a.contains_key(n)
                <==> b.contains_key(n)) && (a.contains_key(n) ==> a[n] == b[n]) by {
                assert(t.occurs(n));
            }
            assert forall|n: Seq<char>| #[trigger] x.occurs(n) implies (a.contains_key(n)
                <==> b.contains_key(n)) && (a.contains_key(n) ==> a[n] == b[n]) by {
                assert(t.occurs(n));
            }
            lemma_subst_same(*f, a, b);
            lemma_subst_same(*x, a, b);
        },
        _ => {},
    }
}

/// Matching a tidy type against a tidy type without a common variable
/// gives a substitution that matches the first against the second.
pub proof fn lemma_matching_sound(cx: Context, l: Ty, r: Ty, depth: nat)
    requires
        ready(l, cx.next_id),
        ready(r, cx.next_id),
        separate(l, r),
    ensures
        matches_left(cx.matching(l, r, depth), l, r, cx.next_id),
    decreases depth,
{
    let start = cx.next_id;
    if l == r || l is NoKind || r is NoKind {
        lemma_subst_empty(l);
        lemma_alike_same(l);
    } else if depth > 0 {
        let d = (depth - 1) as nat;
        if l == r || l is NoKind || r is NoKind {
            lemma_subst_empty(l);
            lemma_alike_same(l);
        } else if l is Constructor && r is Constructor && l->Constructor_0.name
            == r->Constructor_0.name {
            let k1 = *l->Constructor_0.kind;
            let k2 = *r->Constructor_0.kind;
            lemma_closed(k1, Seq::empty());
            lemma_closed(k2, Seq::empty());
            lemma_matching_sound(cx, k1, k2, d);
        } else if l is Scheme {
            let (c, t) = cx.instantiate(l);
            if t is Ok {
                let inst = t->Ok_0;
                lemma_instance_tidy(*l->Scheme_1, l->Scheme_0, start);
                assert(ready(inst, c.next_id));
                assert(ready(r, c.next_id));
                assert(separate(inst, r)) by {
                    assert forall|n: Seq<char>| #[trigger] inst.occurs(n) implies !r.occurs(n) by {
                        assert(fresh_in(n, start, c.next_id));
                        if r.occurs(n) {
                            assert(made_before(n, start));
                        }
                    }
                }
                lemma_matching_sound(c, inst, r, d);
                let step = c.matching(inst, r, d);
                if step.1 is Ok {
                    let s = step.1->Ok_0;
                    assert forall|k: Seq<char>| #[trigger] s.contains_key(k) implies l.occurs(k)
                        || fresh_in(k, start, step.0.next_id) by {
                        if inst.occurs(k) {
                            assert(fresh_in(k, start, c.next_id));
                        }
                    }
                }
            }
        } else if r is Scheme {
            let (c, t) = cx.instantiate(r);
            if t is Ok {
                let inst = t->Ok_0;
                lemma_instance_tidy(*r->Scheme_1, r->Scheme_0, start);
                assert(ready(inst, c.next_id));
                assert(ready(l, c.next_id));
                assert(separate(l, inst)) by {
                    assert forall|n: Seq<char>| #[trigger] l.occurs(n) implies !inst.occurs(n) by {
                        if inst.occurs(n) {
                            assert(fresh_in(n, start, c.next_id));
                            assert(made_before(n, start));
                        }
                    }
                }
                lemma_matching_sound(c, l, inst, d);
                let step = c.matching(l, inst, d);
                if step.1 is Ok {
                    let s = step.1->Ok_0;
                    assert forall|k: Seq<char>, w: Seq<char>|
                        s.contains_key(k) && l.occurs(k) && #[trigger] s[k].occurs(w) implies r.occurs(
                            w,
                        ) || fresh_in(w, start, step.0.next_id) by {
                        if inst.occurs(w) {
                            assert(fresh_in(w, start, c.next_id));
                        }
                    }
                }
            }
        } else if l is Variable {
            lemma_bind_sound(cx, l, r, d, either(l, r), start);
            let step = cx.bind(l->Variable_0.name, Some(*l->Variable_0.kind), r, d);
            if step.1 is Ok {
                let s = step.1->Ok_0;
                let name = l->Variable_0.name;
                assert(l.occurs(name));
                assert(!r.occurs(name));
                if depth > 0 {
                    assert(!(r is Variable && r->Variable_0.name == name)) by {
                        if r is Variable && r->Variable_0.name == name {
                            assert(r.occurs(name));
                        }
                    }
                    let (c1, k) = cx.kind_of(r);
                    lemma_subst_empty(r);
                    assert(s == Map::<Seq<char>, Ty>::empty().insert(name, r));
                    lemma_alike_same(r);
                }
            }
        } else if l is Apply && r is Apply {
            let lf = *l->Apply_0;
            let lx = *l->Apply_1;
            let rf = *r->Apply_0;
            let rx = *r->Apply_1;
            lemma_constrain_tidy(cx, lf, lx, either(l, r), start);
            let (c1, a) = cx.constrain(lf, lx);
            if a is Ok {
                lemma_constrain_tidy(c1, rf, rx, either(l, r), start);
                let (c2, b) = c1.constrain(rf, rx);
                if b is Ok {
                    let ls = seq![(a->Ok_0).0, (b->Ok_0).0];
                    let rs = seq![(a->Ok_0).1, (b->Ok_0).1];
                    assert(ready_list(ls, c2.next_id)) by {
                        assert forall|j: int| 0 <= j < ls.len() implies (#[trigger] ls[j]).tidy()
                            && forall|n: Seq<char>| #[trigger]
                            ls[j].occurs(n) ==> made_before(n, c2.next_id) by {
                            assert forall|n: Seq<char>| #[trigger] ls[j].occurs(n) implies made_before(
                                n,
                                c2.next_id,
                            ) by {
                                if j == 0 {
                                    assert(fresh_in(n, start, c1.next_id));
                                } else {
                                    assert(fresh_in(n, c1.next_id, c2.next_id));
                                }
                            }
                        }
                    }
                    assert(ready_list(rs, c2.next_id)) by {
                        assert forall|j: int| 0 <= j < rs.len() implies (#[trigger] rs[j]).tidy()
                            && forall|n: Seq<char>| #[trigger]
                            rs[j].occurs(n) ==> made_before(n, c2.next_id) by {
                            assert forall|n: Seq<char>| #[trigger] rs[j].occurs(n) implies made_before(
                                n,
                                c2.next_id,
                            ) by {
                                if j == 0 {
                                    assert(fresh_in(n, start, c1.next_id));
                                } else {
                                    assert(fresh_in(n, c1.next_id, c2.next_id));
                                }
                            }
                        }
                    }
                    lemma_unify_many_sound(c2, ls, rs, d, either(l, r), start);
                    let (c3, kinds) = c2.unify_many(ls, rs, d);
                    if kinds is Ok {
                        let s = kinds->Ok_0;
                        let third = c3.next_id;
                        assert forall|k: Seq<char>| #[trigger] s.contains_key(k) implies fresh_in(
                            k,
                            start,
                            third,
                        ) by {
                            assert(known(k, any_of(ls, rs), c2.next_id, third));
                            if any_of(ls, rs)(k) {
                                if exists|j: int| 0 <= j < ls.len() && (#[trigger] ls[j]).occurs(k) {
                                    let j = choose|j: int| 0 <= j < ls.len() && (#[trigger] ls[j]).occurs(k);
                                    if j == 0 {
                                        assert(fresh_in(k, start, c1.next_id));
                                    } else {
                                        assert(fresh_in(k, c1.next_id, c2.next_id));
                                    }
                                } else {
                                    let j = choose|j: int| 0 <= j < rs.len() && (#[trigger] rs[j]).occurs(k);
                                    if j == 0 {
                                        assert(fresh_in(k, start, c1.next_id));
                                    } else {
                                        assert(fresh_in(k, c1.next_id, c2.next_id));
                                    }
                                }
                            }
                        }
                        lemma_part_untouched(lf, l, s, start, third);
                        lemma_part_untouched(lx, l, s, start, third);
                        lemma_part_untouched(rf, r, s, start, third);
                        lemma_part_untouched(rx, r, s, start, third);
                        lemma_part_ready(lf, l, start, third, true);
                        lemma_part_ready(lx, l, start, third, false);
                        lemma_part_ready(rf, r, start, third, true);
                        lemma_part_ready(rx, r, start, third, false);
                        lemma_part_separate(l, r);
                        lemma_matching_sound(c3, lf, rf, d);
                        let (c4, functions) = c3.matching(lf, rf, d);
                        if functions is Ok {
                            let fun_subst = functions->Ok_0;
                            let fourth = c4.next_id;
                            lemma_part_ready(lx, l, start, fourth, false);
                            lemma_part_ready(rx, r, start, fourth, false);
                            lemma_matching_sound(c4, lx, rx, d);
                            let (c5, inputs) = c4.matching(lx, rx, d);
                            if inputs is Ok {
                                let input_subst = inputs->Ok_0;
                                let end = c5.next_id;
                                let join = safe_compose(fun_subst, input_subst);
                                if join is Ok {
                                    let joined = join->Ok_0;
                                    law_safe_compose_joins(fun_subst, input_subst);
                                    let found = compose(s, joined);
                                    lemma_alike_extended(lf, rf, fun_subst, joined);
                                    lemma_alike_extended(lx, rx, input_subst, joined);
                                    assert forall|k: Seq<char>| #[trigger] joined.contains_key(k) implies (
                                    l.occurs(k) || fresh_in(k, third, end)) by {
                                        if fun_subst.contains_key(k) {
                                            if lf.occurs(k) {
                                            } else {
                                                assert(fresh_in(k, third, fourth));
                                            }
                                        } else {
                                            assert(input_subst.contains_key(k));
                                            if lx.occurs(k) {
                                            } else {
                                                assert(fresh_in(k, fourth, end));
                                            }
                                        }
                                    }
                                    assert forall|k: Seq<char>, w: Seq<char>|
                                        joined.contains_key(k) && l.occurs(k) && #[trigger] joined[k].occurs(
                                            w,
                                        ) implies r.occurs(w) || fresh_in(w, third, end) by {
                                        assert(made_before(k, start));
                                        if fun_subst.contains_key(k) {
                                            assert(joined[k] == fun_subst[k]);
                                            assert(lf.occurs(k));
                                            assert(fun_subst[k].occurs(w));
                                            if rf.occurs(w) {
                                            } else {
                                                assert(fresh_in(w, third, fourth));
                                            }
                                        } else {
                                            assert(input_subst.contains_key(k));
                                            assert(joined[k] == input_subst[k]);
                                            assert(lx.occurs(k));
                                            assert(input_subst[k].occurs(w));
                                            if rx.occurs(w) {
                                            } else {
                                                assert(fresh_in(w, fourth, end));
                                            }
                                        }
                                    }
                                    assert forall|n: Seq<char>| #[trigger] l.occurs(n) implies (
                                    found.contains_key(n) <==> joined.contains_key(n)) && (
                                    found.contains_key(n) ==> found[n] == joined[n]) by {
                                        assert(made_before(n, start));
                                        assert(!s.contains_key(n));
                                        if joined.contains_key(n) {
                                            assert forall|w: Seq<char>| joined[n].occurs(w) implies !s.contains_key(
                                                w,
                                            ) by {
                                                assert(r.occurs(w) || fresh_in(w, third, end));
                                                if r.occurs(w) {
                                                    assert(made_before(w, start));
                                                }
                                            }
                                            lemma_subst_untouched(joined[n], s);
                                        }
                                    }
                                    lemma_subst_same(l, found, joined);
                                    assert(l.subst(joined).alike(r));
                                    assert forall|k: Seq<char>, w: Seq<char>|
                                        found.contains_key(k) && l.occurs(k) && #[trigger] found[k].occurs(
                                            w,
                                        ) implies r.occurs(w) || fresh_in(w, start, end) by {
                                        assert(joined.contains_key(k) && found[k] == joined[k]);
                                        assert(joined[k].occurs(w));
                                    }
                                }
                            }
                        }
                    }
                }
            }
        }
    }
}

/// A substitution that binds fresh variables made since `start` only
/// leaves a part of a type that holds no such variable as it is.
pub proof fn lemma_part_untouched(part: Ty, whole: Ty, s: Map<Seq<char>, Ty>, start: nat, end: nat)
    requires
        whole is Apply,
        part == *whole->Apply_0 || part == *whole->Apply_1,
        ready(whole, start),
        forall|k: Seq<char>| #[trigger] s.contains_key(k) ==> fresh_in(k, start, end),
    ensures
        part.subst(s) == part,
{
    assert forall|n: Seq<char>| part.occurs(n) implies !s.contains_key(n) by {
        assert(whole.occurs(n));
        assert(made_before(n, start));
    }
    lemma_subst_untouched(part, s);
}

/// A part of an application that is ready is ready, also later.
pub proof fn lemma_part_ready(part: Ty, whole: Ty, start: nat, later: nat, function: bool)
    requires
        whole is Apply,
        function ==> part == *whole->Apply_0,
        !function ==> part == *whole->Apply_1,
        ready(whole, start),
        start <= later,
    ensures
        ready(part, later),
{
    assert forall|n: Seq<char>| #[trigger] part.occurs(n) implies made_before(n, later) by {
        assert(whole.occurs(n));
        assert(made_before(n, start));
    }
}

/// The parts of two applications without a common variable have no
/// common variable.
pub proof fn lemma_part_separate(l: Ty, r: Ty)
    requires
        l is Apply,
        r is Apply,
        separate(l, r),
    ensures
        separate(*l->Apply_0, *r->Apply_0),
        separate(*l->Apply_1, *r->Apply_1),
{
    assert forall|n: Seq<char>| #[trigger] l->Apply_0.occurs(n) implies !r->Apply_0.occurs(n) by {
        assert(l.occurs(n));
        assert(!r.occurs(n));
    }
    assert forall|n: Seq<char>| #[trigger] l->Apply_1.occurs(n) implies !r->Apply_1.occurs(n) by {
        assert(l.occurs(n));
        assert(!r.occurs(n));
    }
}

/// Matching matches. Where a tidy type is matched against a tidy type
/// with which it has no variable in common, and neither holds a variable
/// named like a fresh variable still to be made, the substitution found
/// binds variables of the left type and fresh variables made on the way
/// only, leaves the right type as it is, and makes the left type alike to
/// it.
pub proof fn law_match_matches(cx: Context, l: Ty, r: Ty, depth: nat)
    requires
        l.tidy(),
        r.tidy(),
        forall|n: Seq<char>| l.occurs(n) || r.occurs(n) ==> made_before(n, cx.next_id),
        separate(l, r),
        cx.matching(l, r, depth).1 is Ok,
    ensures
        ({
            let s = cx.matching(l, r, depth).1->Ok_0;
            let end = cx.matching(l, r, depth).0.next_id;
            &&& forall|k: Seq<char>| #[trigger]
                s.contains_key(k) ==> l.occurs(k) || fresh_in(k, cx.next_id, end)
            &&& r.subst(s) == r
            &&& l.subst(s).alike(r)
        }),
{
    lemma_matching_sound(cx, l, r, depth);
    let s = cx.matching(l, r, depth).1->Ok_0;
    assert forall|n: Seq<char>| r.occurs(n) implies !s.contains_key(n) by {
        if s.contains_key(n) {
            if l.occurs(n) {
            } else {
                assert(made_before(n, cx.next_id));
            }
        }
    }
    lemma_subst_untouched(r, s);
}

} // verus!
