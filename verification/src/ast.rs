//! The expressions whose types are inferred.

use crate::types::{Ty, Type};
use vstd::prelude::*;

verus! {

/// Model of an [`Ast`].
pub enum Expr {
    FloatLiteral(u64),
    StringLiteral(Seq<char>),
    Variable(Seq<char>),
    Annotation(Box<Expr>, Ty),
    If(Box<Expr>, Box<Expr>, Box<Expr>),
    FunctionCall(Box<Expr>, Box<Expr>),
    Lambda(Seq<char>, Box<Expr>),
    Let(Seq<char>, Box<Expr>, Box<Expr>),
}

/// An expression of the language.
#[derive(Debug)]
pub enum Ast {
    /// A number, held as the bits of its 64-bit floating-point notation.
    FloatLiteral(u64),
    /// A string.
    StringLiteral(String),
    /// An identifier.
    Variable(String),
    /// An expression together with the type that its author gave it.
    Annotation(Box<Ast>, Type),
    /// A condition, the expression for the case that it holds, and the
    /// expression for the case that it does not.
    If(Box<Ast>, Box<Ast>, Box<Ast>),
    /// A function applied to one argument.
    FunctionCall(Box<Ast>, Box<Ast>),
    /// A function of one parameter.
    Lambda(String, Box<Ast>),
    /// A name, the value bound to it, and the expression in which it is
    /// bound. The value cannot refer to the name.
    Let(String, Box<Ast>, Box<Ast>),
}

/// The model of an expression.
pub open spec fn ast_view(e: Ast) -> Expr
    decreases e,
{
    match e {
        Ast::FloatLiteral(bits) => Expr::FloatLiteral(bits),
        Ast::StringLiteral(s) => Expr::StringLiteral(s@),
        Ast::Variable(name) => Expr::Variable(name@),
        Ast::Annotation(inner, ty) => Expr::Annotation(Box::new(ast_view(*inner)), ty@),
        Ast::If(c, t, f) => Expr::If(
            Box::new(ast_view(*c)),
            Box::new(ast_view(*t)),
            Box::new(ast_view(*f)),
        ),
        Ast::FunctionCall(f, a) => Expr::FunctionCall(Box::new(ast_view(*f)), Box::new(ast_view(*a))),
        Ast::Lambda(x, body) => Expr::Lambda(x@, Box::new(ast_view(*body))),
        Ast::Let(x, value, body) => Expr::Let(
            x@,
            Box::new(ast_view(*value)),
            Box::new(ast_view(*body)),
        ),
    }
}

impl View for Ast {
    type V = Expr;

    open spec fn view(&self) -> Expr {
        ast_view(*self)
    }
}

} // verus!
