//! The inference engine: a walk over the expression that collects
//! constraints, and the entry point that solves them.

use crate::ast::{Ast, Expr};
use crate::context::{type_result, Context, TypeContext, DEFAULT_DEPTH_LIMIT};
use crate::errors::{Constraint, Failure, TypeError};
use crate::substitution::apply_type;
use crate::types::{Ty, Type};
use vstd::prelude::*;

verus! {

impl Context {
    /// The type of an expression, and the context after inferring it.
    ///
    /// - A number has type `Number`, a string has type `String`.
    /// - An annotated expression has the type of the expression, which
    ///   must fit the annotation.
    /// - A conditional has the type of its first branch; the condition
    ///   must be a `Boolean`, and the branches must agree.
    /// - An identifier has an instance of its type in the environment.
    /// - An application has a fresh type `r`, made before function and
    ///   argument are inferred; the function must map the argument to `r`.
    /// - A function maps a fresh type to the type of its body, inferred
    ///   with the parameter bound to the fresh type.
    /// - For a binding, the value is inferred in a context of its own
    ///   that starts without constraints, and its constraints are solved
    ///   there. The substitution found is applied to the environment, the
    ///   type of the value is closed over its variables that do not occur
    ///   free in the environment, and the body is inferred with the name
    ///   bound to that scheme.
    pub open spec fn infer(self, e: Expr) -> (Context, Result<Ty, Failure>)
        decreases e, 0nat,
    {
        match e {
            Expr::FloatLiteral(_) => (self, Ok(Ty::constant("Number"@))),
            Expr::StringLiteral(_) => (self, Ok(Ty::constant("String"@))),
            Expr::Annotation(inner, annotation) => {
                let (cx, inferred) = self.infer(*inner);
                match inferred {
                    Err(e) => (cx, Err(e)),
                    Ok(t) => (cx.with_constraint(Constraint::Match(t, annotation)), Ok(t)),
                }
            },
            Expr::If(condition, first, second) => {
                let (cx1, c) = self.infer(*condition);
                match c {
                    Err(e) => (cx1, Err(e)),
                    Ok(type_condition) => {
                        let (cx2, a) = cx1.infer(*first);
                        match a {
                            Err(e) => (cx2, Err(e)),
                            Ok(type_first) => {
                                let (cx3, b) = cx2.infer(*second);
                                match b {
                                    Err(e) => (cx3, Err(e)),
                                    Ok(type_second) => (
                                        cx3.with_constraint(
                                            Constraint::Unify(
                                                type_condition,
                                                Ty::constant("Boolean"@),
                                            ),
                                        ).with_constraint(
                                            Constraint::Unify(type_first, type_second),
                                        ),
                                        Ok(type_first),
                                    ),
                                }
                            },
                        }
                    },
                }
            },
            Expr::Variable(name) => if self.environment.contains_key(name) {
                self.instantiate(self.environment[name])
            } else {
                (self, Err(Failure::NotInScope(name)))
            },
            Expr::FunctionCall(function, argument) => {
                let (cx1, r) = self.fresh(Ty::NoKind);
                match r {
                    Err(e) => (cx1, Err(e)),
                    Ok(return_type) => {
                        let (cx2, f) = cx1.infer(*function);
                        match f {
                            Err(e) => (cx2, Err(e)),
                            Ok(function_type) => {
                                let (cx3, a) = cx2.infer(*argument);
                                match a {
                                    Err(e) => (cx3, Err(e)),
                                    Ok(argument_type) => (
                                        cx3.with_constraint(
                                            Constraint::Unify(
                                                function_type,
                                                Ty::arrow(argument_type, return_type),
                                            ),
                                        ),
                                        Ok(return_type),
                                    ),
                                }
                            },
                        }
                    },
                }
            },
            Expr::Lambda(parameter, body) => {
                let (cx1, a) = self.fresh(Ty::NoKind);
                match a {
                    Err(e) => (cx1, Err(e)),
                    Ok(arg_type) => {
                        let (cx2, r) = cx1.infer_with(parameter, arg_type, *body);
                        match r {
                            Err(e) => (cx2, Err(e)),
                            Ok(return_type) => (cx2, Ok(Ty::arrow(arg_type, return_type))),
                        }
                    },
                }
            },
            Expr::Let(name, value, body) => {
                let (child1, v) = self.with_constraints(Seq::empty()).infer(*value);
                match v {
                    Err(e) => (self, Err(e)),
                    Ok(value_type) => {
                        let (child2, solved) = child1.solve(child1.depth_limit);
                        match solved {
                            Err(e) => (self, Err(e)),
                            Ok(s) => {
                                let parent = self.with_substitution(s);
                                let scheme = value_type.subst(s).generalize(parent.environment);
                                parent.synced(child2).infer_with(name, scheme, *body)
                            },
                        }
                    },
                }
            },
        }
    }

    /// The type of `body` where `name` has the type `scheme`. The body is
    /// inferred in a context of its own, whose constraints and counter are
    /// taken over afterwards; the binding is not.
    pub open spec fn infer_with(self, name: Seq<char>, scheme: Ty, body: Expr) -> (
        Context,
        Result<Ty, Failure>,
    )
        decreases body, 1nat,
    {
        let (child, r) = self.with_binding(name, scheme).infer(body);
        (self.synced(child), r)
    }
}

/// The type scheme of an expression, with the default depth limit.
pub open spec fn type_of(e: Expr) -> Result<Ty, Failure> {
    type_of_within(e, DEFAULT_DEPTH_LIMIT as nat)
}

/// The type scheme of an expression: its type is inferred in the initial
/// context, the constraints are solved, the substitution found is applied
/// to the type, and the result is closed over the variables that are left.
/// The solver goes at most `limit` deep.
pub open spec fn type_of_within(e: Expr, limit: nat) -> Result<Ty, Failure> {
    let (cx1, inferred) = Context::initial(limit).infer(e);
    match inferred {
        Err(e) => Err(e),
        Ok(t) => {
            let (cx2, solved) = cx1.solve(cx1.depth_limit);
            match solved {
                Err(e) => Err(e),
                Ok(s) => Ok(t.subst(s).generalize(cx2.environment)),
            }
        },
    }
}

impl TypeContext {
    /// Infers the type of an expression and collects the constraints that
    /// it has to meet.
    pub fn infer(&mut self, expression: Ast) -> (r: Result<Type, TypeError>)
        ensures
            (final(self)@, type_result(r)) == old(self)@.infer(expression@),
        decreases expression, 0nat,
    {
        match expression {
            Ast::FloatLiteral(_) => Ok(Type::number()),
            Ast::StringLiteral(_) => Ok(Type::string()),
            Ast::Annotation(annotated, annotation) => {
                let inferred = match self.infer(*annotated) {
                    Ok(t) => t,
                    Err(e) => {
                        return Err(e);
                    },
                };
                self.should_match(&inferred, &annotation);
                Ok(inferred)
            },
            Ast::If(condition, first, second) => {
                let type_condition = match self.infer(*condition) {
                    Ok(t) => t,
                    Err(e) => {
                        return Err(e);
                    },
                };
                let type_first = match self.infer(*first) {
                    Ok(t) => t,
                    Err(e) => {
                        return Err(e);
                    },
                };
                let type_second = match self.infer(*second) {
                    Ok(t) => t,
                    Err(e) => {
                        return Err(e);
                    },
                };
                self.should_unify(&type_condition, &Type::boolean());
                self.should_unify(&type_first, &type_second);
                Ok(type_first)
            },
            Ast::Variable(name) => match self.lookup(&name) {
                Some(found) => self.try_instantiate(&found),
                None => Err(TypeError::NotInScope(name)),
            },
            Ast::FunctionCall(function, argument) => {
                let return_type = match self.try_fresh(Type::NoKind) {
                    Ok(t) => t,
                    Err(e) => {
                        return Err(e);
                    },
                };
                let function_type = match self.infer(*function) {
                    Ok(t) => t,
                    Err(e) => {
                        return Err(e);
                    },
                };
                let argument_type = match self.infer(*argument) {
                    Ok(t) => t,
                    Err(e) => {
                        return Err(e);
                    },
                };
                self.should_unify(
                    &function_type,
                    &Type::create_lambda(argument_type, return_type.clone()),
                );
                Ok(return_type)
            },
            Ast::Lambda(argument, body) => {
                let arg_type = match self.try_fresh(Type::NoKind) {
                    Ok(t) => t,
                    Err(e) => {
                        return Err(e);
                    },
                };
                match self.infer_with(argument, arg_type.clone(), *body) {
                    Ok(return_type) => Ok(Type::create_lambda(arg_type, return_type)),
                    Err(e) => Err(e),
                }
            },
            Ast::Let(name, value, body) => {
                let mut value_ctx = self.create_isolated();
                let value_type = match value_ctx.infer(*value) {
                    Ok(t) => t,
                    Err(e) => {
                        return Err(e);
                    },
                };
                let substitution = match value_ctx.solve_constraints() {
                    Ok(s) => s,
                    Err(e) => {
                        return Err(e);
                    },
                };
                self.with_substitution(&substitution);
                let scheme = apply_type(value_type, &substitution).generalize(self);
                self.sync(value_ctx);
                self.infer_with(name, scheme, *body)
            },
        }
    }

    /// Infers an expression with one more name in scope.
    pub fn infer_with(&mut self, name: String, scheme: Type, ast: Ast) -> (r: Result<
        Type,
        TypeError,
    >)
        ensures
            (final(self)@, type_result(r)) == old(self)@.infer_with(name@, scheme@, ast@),
        decreases ast, 1nat,
    {
        let mut new_ctx = self.create_closure(name, scheme);
        let result = new_ctx.infer(ast);
        self.sync(new_ctx);
        result
    }
}

/// The type of an expression: the type scheme that the walk and the
/// solver find for it, or the reason why it has none.
pub fn get_type_of(expression: Ast) -> (r: Result<Type, TypeError>)
    ensures
        type_result(r) == type_of(expression@),
{
    get_type_of_within(expression, DEFAULT_DEPTH_LIMIT)
}

/// The type of an expression, found by a solver that goes at most
/// `depth_limit` deep.
pub fn get_type_of_within(expression: Ast, depth_limit: u32) -> (r: Result<Type, TypeError>)
    ensures
        type_result(r) == type_of_within(expression@, depth_limit as nat),
{
    let mut context = TypeContext::with_depth_limit(depth_limit);
    let resulting_type = match context.infer(expression) {
        Ok(t) => t,
        Err(e) => {
            return Err(e);
        },
    };
    let subst = match context.solve_constraints() {
        Ok(s) => s,
        Err(e) => {
            return Err(e);
        },
    };
    Ok(apply_type(resulting_type, &subst).generalize(&context))
}

} // verus!
