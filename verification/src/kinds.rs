//! Kinds: the types of types. Computing the kind of a type may make fresh
//! variables and add constraints to the context.

use crate::context::{fresh_bindings, type_result, Context, TypeContext};
use crate::errors::{Constraint, Failure, TypeError};
use crate::types::{lemma_scheme_view, Ty, TyVar, Type, VarName};
use vstd::prelude::*;

verus! {

impl Ty {
    /// The number of applications and schemes that the type is built
    /// from, kinds aside.
    pub open spec fn spine(self) -> nat
        decreases self,
    {
        match self {
            Ty::Apply(f, x) => 1 + f.spine() + x.spine(),
            Ty::Scheme(_, body) => 1 + body.spine(),
            _ => 0,
        }
    }
}

impl Ty {
    /// The number of fresh variables that computing the kind of the type
    /// takes: one for each quantifier of a scheme, and one for each
    /// application of anything but the arrow.
    pub open spec fn kind_cost(self) -> nat
        decreases self,
    {
        match self {
            Ty::Apply(f, x) => if *f == Ty::ArrowKind {
                0
            } else {
                1 + x.kind_cost() + f.kind_cost()
            },
            Ty::Scheme(vs, body) => vs.len() + body.kind_cost(),
            _ => 0,
        }
    }
}

/// Instantiation binds names to variables.
pub proof fn lemma_fresh_bindings_variables(vs: Seq<TyVar>, start: nat, n: nat)
    ensures
        forall|k: Seq<char>| #[trigger]
            fresh_bindings(vs, start, n).contains_key(k) ==> fresh_bindings(vs, start, n)[k] is Variable,
    decreases n,
{
    if n == 0 || n > vs.len() {
    } else {
        lemma_fresh_bindings_variables(vs, start, (n - 1) as nat);
        let before = fresh_bindings(vs, start, (n - 1) as nat);
        let now = fresh_bindings(vs, start, n);
        assert forall|k: Seq<char>| #[trigger] now.contains_key(k) implies now[k] is Variable by {
            if k != vs[n - 1].name {
                assert(before.contains_key(k));
            }
        }
    }
}

/// Replacing variables by variables keeps the cost of the kind.
pub proof fn lemma_subst_kind_cost(t: Ty, m: Map<Seq<char>, Ty>)
    requires
        forall|k: Seq<char>| #[trigger] m.contains_key(k) ==> m[k] is Variable,
    ensures
        t.subst(m).kind_cost() == t.kind_cost(),
        t is ArrowKind <==> t.subst(m) is ArrowKind,
    decreases t,
{
    match t {
        Ty::Apply(f, x) => {
            lemma_subst_kind_cost(*f, m);
            lemma_subst_kind_cost(*x, m);
        },
        _ => {},
    }
}

/// Computing a kind succeeds exactly where the context can make the fresh
/// variables that it takes, and makes exactly these.
pub proof fn lemma_kind_cost(cx: Context, t: Ty)
    requires
        cx.can_make(0),
    ensures
        cx.kind_of(t).1 is Ok <==> cx.can_make(t.kind_cost()),
        cx.kind_of(t).1 is Ok ==> cx.kind_of(t).0.next_id == cx.next_id + t.kind_cost(),
        cx.kind_of(t).1 is Err ==> cx.kind_of(t).1->Err_0 == Failure::LimitExceeded,
    decreases t.spine(),
{
    match t {
        Ty::Scheme(vs, body) => {
            let (c, r) = cx.instantiate(t);
            if r is Ok {
                let m = fresh_bindings(vs, cx.next_id, vs.len());
                lemma_fresh_bindings_flat(vs, cx.next_id, vs.len());
                lemma_fresh_bindings_variables(vs, cx.next_id, vs.len());
                lemma_subst_spine(*body, m);
                lemma_subst_kind_cost(*body, m);
                lemma_kind_cost(c, r->Ok_0);
            }
        },
        Ty::Apply(f, x) => {
            if *f != Ty::ArrowKind {
                let (c1, k) = cx.fresh(Ty::NoKind);
                if k is Ok {
                    lemma_kind_cost(c1, *x);
                    let (c2, ki) = c1.kind_of(*x);
                    if ki is Ok {
                        lemma_kind_cost(c2, *f);
                    }
                }
            }
        },
        _ => {},
    }
}

/// Reconciling the kinds of an application succeeds exactly where the
/// context can make one fresh variable more than the two kinds take.
pub proof fn lemma_constrain_cost(cx: Context, func: Ty, input: Ty)
    requires
        cx.can_make(0),
    ensures
        cx.constrain(func, input).1 is Ok <==> cx.can_make(
            1 + func.kind_cost() + input.kind_cost(),
        ),
{
    let (c1, k) = cx.fresh(Ty::NoKind);
    if k is Ok {
        lemma_kind_cost(c1, func);
        let (c2, kf) = c1.kind_of(func);
        if kf is Ok {
            lemma_kind_cost(c2, input);
        }
    }
}

/// Instantiation binds names to variables only.
pub proof fn lemma_fresh_bindings_flat(vs: Seq<TyVar>, start: nat, n: nat)
    ensures
        forall|k: Seq<char>| #[trigger]
            fresh_bindings(vs, start, n).contains_key(k) ==> fresh_bindings(vs, start, n)[k].spine()
                == 0,
    decreases n,
{
    if n == 0 || n > vs.len() {
    } else {
        lemma_fresh_bindings_flat(vs, start, (n - 1) as nat);
        let before = fresh_bindings(vs, start, (n - 1) as nat);
        let now = fresh_bindings(vs, start, n);
        assert forall|k: Seq<char>| #[trigger] now.contains_key(k) implies now[k].spine() == 0 by {
            if k != vs[n - 1].name {
                assert(before.contains_key(k));
            }
        }
    }
}

/// Replacing variables by variables keeps the spine.
pub proof fn lemma_subst_spine(t: Ty, m: Map<Seq<char>, Ty>)
    requires
        forall|k: Seq<char>| #[trigger] m.contains_key(k) ==> m[k].spine() == 0,
    ensures
        t.subst(m).spine() == t.spine(),
    decreases t,
{
    match t {
        Ty::Apply(f, x) => {
            lemma_subst_spine(*f, m);
            lemma_subst_spine(*x, m);
        },
        _ => {},
    }
}

impl Context {
    /// The kind of a type, and the context after computing it.
    ///
    /// A scheme is instantiated first. A constructor and a variable carry
    /// their kind. The arrow has the kind `NoKind -> NoKind -> NoKind`,
    /// closed; an arrow applied to one type has kind `NoKind`. For any
    /// other application a fresh variable stands for the kind of the result:
    /// the kinds of the argument and of the function are computed, in this
    /// order, and the constraint that the function's kind is an arrow from
    /// the argument's kind to that variable is added to the context.
    pub open spec fn kind_of(self, t: Ty) -> (Context, Result<Ty, Failure>)
        decreases t.spine(),
    {
        match t {
            Ty::Scheme(vs, body) => {
                let (cx, r) = self.instantiate(t);
                match r {
                    Ok(instance) => {
                        proof {
                            lemma_fresh_bindings_flat(vs, self.next_id, vs.len());
                            lemma_subst_spine(*body, fresh_bindings(vs, self.next_id, vs.len()));
                        }
                        cx.kind_of(instance)
                    },
                    Err(e) => (cx, Err(e)),
                }
            },
            Ty::Constructor(v) => (self, Ok(*v.kind)),
            Ty::Variable(v) => (self, Ok(*v.kind)),
            Ty::ArrowKind => (
                self,
                Ok(
                    Ty::arrow(Ty::NoKind, Ty::arrow(Ty::NoKind, Ty::NoKind)).generalize(
                        self.environment,
                    ),
                ),
            ),
            Ty::Apply(f, x) => if *f == Ty::ArrowKind {
                (self, Ok(Ty::NoKind))
            } else {
                let (cx1, result_kind) = self.fresh(Ty::NoKind);
                match result_kind {
                    Err(e) => (cx1, Err(e)),
                    Ok(k_ret) => {
                        let (cx2, input_kind) = cx1.kind_of(*x);
                        match input_kind {
                            Err(e) => (cx2, Err(e)),
                            Ok(k_input) => {
                                let (cx3, fun_kind) = cx2.kind_of(*f);
                                match fun_kind {
                                    Err(e) => (cx3, Err(e)),
                                    Ok(k_fun) => (
                                        cx3.with_constraint(
                                            Constraint::Unify(k_fun, Ty::arrow(k_input, k_ret)),
                                        ),
                                        Ok(k_ret),
                                    ),
                                }
                            },
                        }
                    },
                }
            },
            Ty::NoKind => (self, Ok(Ty::NoKind)),
        }
    }

    /// The two kinds that must agree for `func` to be applied to `input`:
    /// the kind of `func`, and the arrow from the kind of `input` to a
    /// fresh variable. The variable is made first, then the kind of `func`
    /// is computed, then that of `input`.
    pub open spec fn constrain(self, func: Ty, input: Ty) -> (Context, Result<(Ty, Ty), Failure>) {
        let (cx1, result_kind) = self.fresh(Ty::NoKind);
        match result_kind {
            Err(e) => (cx1, Err(e)),
            Ok(k_ret) => {
                let (cx2, fun_kind) = cx1.kind_of(func);
                match fun_kind {
                    Err(e) => (cx2, Err(e)),
                    Ok(k_fun) => {
                        let (cx3, input_kind) = cx2.kind_of(input);
                        match input_kind {
                            Err(e) => (cx3, Err(e)),
                            Ok(k_input) => (cx3, Ok((k_fun, Ty::arrow(k_input, k_ret)))),
                        }
                    },
                }
            },
        }
    }
}

/// The model of what a pair of types or an error stands for.
pub open spec fn pair_result(r: Result<(Type, Type), TypeError>) -> Result<(Ty, Ty), Failure> {
    match r {
        Ok((a, b)) => Ok((a@, b@)),
        Err(e) => Err(e@),
    }
}

impl TypeContext {
    /// The kind of a type, or the error where the fresh names are used
    /// up. Adds the constraints that the kinds must meet.
    pub fn try_get_kind(&mut self, ty: Type) -> (r: Result<Type, TypeError>)
        ensures
            (final(self)@, type_result(r)) == old(self)@.kind_of(ty@),
        decreases ty@.spine(),
    {
        match ty {
            Type::Scheme { variables, ty: body } => {
                let scheme = Type::Scheme { variables, ty: body };
                proof {
                    lemma_scheme_view(variables, body);
                    let vs = scheme@->Scheme_0;
                    lemma_fresh_bindings_flat(vs, self@.next_id, vs.len());
                    lemma_subst_spine(body@, fresh_bindings(vs, self@.next_id, vs.len()));
                }
                match self.try_instantiate(&scheme) {
                    Ok(instance) => self.try_get_kind(instance),
                    Err(e) => Err(e),
                }
            },
            Type::Constructor(VarName { name: _, kind }) => Ok(*kind),
            Type::Variable(VarName { name: _, kind }) => Ok(*kind),
            Type::ArrowKind => {
                let arrow = Type::create_lambda(
                    Type::NoKind,
                    Type::create_lambda(Type::NoKind, Type::NoKind),
                );
                Ok(arrow.generalize(self))
            },
            Type::TApply(fun, input) => {
                assert(fun@ is ArrowKind <==> *fun is ArrowKind);
                if let Type::ArrowKind = &*fun {
                    Ok(Type::NoKind)
                } else {
                    let k_ret = match self.try_fresh(Type::NoKind) {
                        Ok(k) => k,
                        Err(e) => {
                            return Err(e);
                        },
                    };
                    let k_input = match self.try_get_kind(*input) {
                        Ok(k) => k,
                        Err(e) => {
                            return Err(e);
                        },
                    };
                    let k_fun = match self.try_get_kind(*fun) {
                        Ok(k) => k,
                        Err(e) => {
                            return Err(e);
                        },
                    };
                    self.should_unify(&k_fun, &Type::create_lambda(k_input, k_ret.clone()));
                    Ok(k_ret)
                }
            },
            Type::NoKind => Ok(Type::NoKind),
        }
    }

    /// The kind of a type. Adds the constraints that the kinds must
    /// meet.
    pub fn get_kind(&mut self, ty: Type) -> (r: Type)
        requires
            old(self)@.can_make(ty@.kind_cost()),
        ensures
            (final(self)@, Ok::<Ty, Failure>(r@)) == old(self)@.kind_of(ty@),
    {
        proof {
            lemma_kind_cost(self@, ty@);
        }
        match self.try_get_kind(ty) {
            Ok(kind) => kind,
            Err(_) => Type::NoKind,
        }
    }

    /// As [`TypeContext::constrain_type_application`], with the error where
    /// the fresh names are used up.
    pub fn try_constrain_type_application(&mut self, func: Type, input: Type) -> (r: Result<
        (Type, Type),
        TypeError,
    >)
        ensures
            (final(self)@, pair_result(r)) == old(self)@.constrain(func@, input@),
    {
        let k_ret = match self.try_fresh(Type::NoKind) {
            Ok(k) => k,
            Err(e) => {
                return Err(e);
            },
        };
        let k_fun = match self.try_get_kind(func) {
            Ok(k) => k,
            Err(e) => {
                return Err(e);
            },
        };
        let k_input = match self.try_get_kind(input) {
            Ok(k) => k,
            Err(e) => {
                return Err(e);
            },
        };
        Ok((k_fun, Type::create_lambda(k_input, k_ret)))
    }

    /// The two kinds that must agree for `func` to be applied to `input`.
    pub fn constrain_type_application(&mut self, func: Type, input: Type) -> (r: (Type, Type))
        requires
            old(self)@.can_make(1 + func@.kind_cost() + input@.kind_cost()),
        ensures
            (final(self)@, Ok::<(Ty, Ty), Failure>((r.0@, r.1@))) == old(self)@.constrain(
                func@,
                input@,
            ),
    {
        proof {
            lemma_constrain_cost(self@, func@, input@);
        }
        match self.try_constrain_type_application(func, input) {
            Ok(pair) => pair,
            Err(_) => (Type::NoKind, Type::NoKind),
        }
    }
}

} // verus!
