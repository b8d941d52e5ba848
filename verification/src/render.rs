//! Types and errors as text.

use crate::context::{decimal, decimal_text};
use crate::errors::{Failure, TypeError};
use crate::types::{lemma_scheme_view, ty_view, ty_views, var_views, Ty, TyVar, Type, VarName};
use vstd::prelude::*;
use vstd::string::StringExecFns;

verus! {

impl TyVar {
    /// The name as text: the bare name where no kind is recorded, and
    /// else the name and the kind in parentheses.
    pub open spec fn rendered(self) -> Seq<char>
        decreases self, 0nat,
    {
        if *self.kind == Ty::NoKind {
            self.name
        } else {
            "("@ + self.name + " :: "@ + self.kind.rendered() + ")"@
        }
    }
}

/// The first `n` quantifiers as text, with a blank between two.
pub open spec fn quantifiers_rendered(vs: Seq<TyVar>, n: nat) -> Seq<char>
    decreases vs, n,
{
    if n == 0 || n > vs.len() {
        Seq::empty()
    } else if n == 1 {
        vs[0].rendered()
    } else {
        quantifiers_rendered(vs, (n - 1) as nat) + " "@ + vs[n - 1].rendered()
    }
}

impl Ty {
    /// The type as text.
    ///
    /// A variable and a constructor are their names. A function type is
    /// its two sides around an arrow, the left one in parentheses where it is
    /// a function itself. Any other application is the function and its
    /// argument with a blank between them, the argument in parentheses where
    /// it is an application. A scheme is its body, after `forall` and the
    /// quantifiers where it has any.
    pub open spec fn rendered(self) -> Seq<char>
        decreases self, 0nat,
    {
        match self {
            Ty::Variable(v) => v.name,
            Ty::NoKind => "[no kind]"@,
            Ty::Constructor(v) => v.name,
            Ty::ArrowKind => "kind(->)"@,
            Ty::Apply(first, to) => if self.unwrap_function() is Some {
                let from = *first->Apply_1;
                if from.unwrap_function() is Some {
                    "("@ + from.rendered() + ") -> "@ + to.rendered()
                } else {
                    from.rendered() + " -> "@ + to.rendered()
                }
            } else if *to is Apply {
                first.rendered() + " ("@ + to.rendered() + ")"@
            } else {
                first.rendered() + " "@ + to.rendered()
            },
            Ty::Scheme(vs, body) => if vs.len() == 0 {
                body.rendered()
            } else {
                "forall "@ + quantifiers_rendered(vs, vs.len()) + ". "@ + body.rendered()
            },
        }
    }
}

/// The first `n` types of a list as text, with a comma and a blank between
/// two.
pub open spec fn types_rendered(ts: Seq<Ty>, n: nat) -> Seq<char>
    decreases n,
{
    if n == 0 || n > ts.len() {
        Seq::empty()
    } else if n == 1 {
        ts[0].rendered()
    } else {
        types_rendered(ts, (n - 1) as nat) + ", "@ + ts[n - 1].rendered()
    }
}

impl Failure {
    /// The error as text, with the types and names that it is about.
    pub open spec fn rendered(self) -> Seq<char> {
        match self {
            Failure::UnificationError(a, b) => "Cannot unify type\n    "@ + a.rendered()
                + "\nwith type\n    "@ + b.rendered(),
            Failure::MatchingError(a, b) => "Cannot match type\n    "@ + a.rendered()
                + "\nwith type\n    "@ + b.rendered(),
            Failure::SubstitutionConflict(key, a, b) => "Conflicting substitutions: \n    "@ + key
                + " = "@ + a.rendered() + "\nand\n    "@ + key + " = "@ + b.rendered(),
            Failure::NotInScope(name) => "Variable "@ + name + " is not in scope"@,
            Failure::RecursiveType(name, t) => "Type \n    "@ + name + " = "@ + t.rendered()
                + "\ncontains references to itself"@,
            Failure::DifferentLengths(a, b) => "Cannot match length "@ + decimal(a.len()) + " with "@
                + decimal(b.len()) + " while trying to unify types\n    ["@ + types_rendered(
                a,
                a.len(),
            ) + "]\nwith\n    ["@ + types_rendered(b, b.len()) + "]"@,
            Failure::LimitExceeded => "The limits of the inference context were exceeded"@,
        }
    }
}

impl VarName {
    /// The name as text.
    pub fn render(&self) -> (r: String)
        ensures
            r@ == self@.rendered(),
        decreases self, 0nat,
    {
        assert(self.kind@ is NoKind <==> *self.kind is NoKind);
        if let Type::NoKind = &*self.kind {
            self.name.clone()
        } else {
            let mut out = String::from_str("(");
            out.append(self.name.as_str());
            out.append(" :: ");
            out.append(self.kind.render().as_str());
            out.append(")");
            out
        }
    }
}

impl Type {
    /// The type as text.
    pub fn render(&self) -> (r: String)
        ensures
            r@ == self@.rendered(),
        decreases self, 0nat,
    {
        match self {
            Type::Variable(name) => name.name.clone(),
            Type::NoKind => String::from_str("[no kind]"),
            Type::Constructor(name) => name.name.clone(),
            Type::ArrowKind => String::from_str("kind(->)"),
            Type::TApply(fun, input) => {
                proof {
                    reveal_with_fuel(ty_view, 3);
                }
                let arrow = match &**fun {
                    Type::TApply(head, from) => match &**head {
                        Type::ArrowKind => Some(from),
                        _ => None,
                    },
                    _ => None,
                };
                match arrow {
                    Some(from) => {
                        let mut out = String::new();
                        if from.unwrap_function().is_some() {
                            out.append("(");
                            out.append(from.render().as_str());
                            out.append(") -> ");
                        } else {
                            out.append(from.render().as_str());
                            out.append(" -> ");
                        }
                        out.append(input.render().as_str());
                        proof {
                            let f = from@.rendered();
                            let t = input@.rendered();
                            assert(Seq::<char>::empty() + "("@ + f + ") -> "@ + t =~= "("@ + f + ") -> "@ + t);
                            assert(Seq::<char>::empty() + f + " -> "@ + t =~= f + " -> "@ + t);
                        }
                        out
                    },
                    None => {
                        let mut out = fun.render();
                        if let Type::TApply(_, _) = &**input {
                            out.append(" (");
                            out.append(input.render().as_str());
                            out.append(")");
                        } else {
                            out.append(" ");
                            out.append(input.render().as_str());
                        }
                        out
                    },
                }
            },
            Type::Scheme { variables, ty } => {
                proof {
                    lemma_scheme_view(*variables, *ty);
                }
                if variables.len() == 0 {
                    ty.render()
                } else {
                    let ghost vs = var_views(variables@);
                    let mut out = String::from_str("forall ");
                    let mut names = variables[0].render();
                    let mut i: usize = 1;
                    while i < variables.len()
                        invariant
                            1 <= i <= variables.len(),
                            vs == var_views(variables@),
                            self matches Type::Scheme { variables: own, .. } && own == variables,
                            names@ == quantifiers_rendered(vs, i as nat),
                        decreases variables.len() - i,
                    {
                        names.append(" ");
                        names.append(variables[i].render().as_str());
                        i += 1;
                    }
                    out.append(names.as_str());
                    out.append(". ");
                    out.append(ty.render().as_str());
                    out
                }
            },
        }
    }
}

/// A list of types as text, with a comma and a blank between two.
pub fn render_types(ts: &Vec<Type>) -> (r: String)
    ensures
        r@ == types_rendered(ty_views(ts@), ts@.len()),
{
    if ts.len() == 0 {
        return String::new();
    }
    let ghost models = ty_views(ts@);
    let mut out = ts[0].render();
    let mut i: usize = 1;
    while i < ts.len()
        invariant
            1 <= i <= ts.len(),
            models == ty_views(ts@),
            out@ == types_rendered(models, i as nat),
        decreases ts.len() - i,
    {
        out.append(", ");
        out.append(ts[i].render().as_str());
        i += 1;
    }
    out
}

impl TypeError {
    /// The error as text.
    pub fn render(&self) -> (r: String)
        ensures
            r@ == self@.rendered(),
    {
        match self {
            TypeError::UnificationError(t1, t2) => {
                let mut out = String::from_str("Cannot unify type\n    ");
                out.append(t1.render().as_str());
                out.append("\nwith type\n    ");
                out.append(t2.render().as_str());
                out
            },
            TypeError::MatchingError(t1, t2) => {
                let mut out = String::from_str("Cannot match type\n    ");
                out.append(t1.render().as_str());
                out.append("\nwith type\n    ");
                out.append(t2.render().as_str());
                out
            },
            TypeError::SubstitutionConflict(key, t1, t2) => {
                let mut out = String::from_str("Conflicting substitutions: \n    ");
                out.append(key.as_str());
                out.append(" = ");
                out.append(t1.render().as_str());
                out.append("\nand\n    ");
                out.append(key.as_str());
                out.append(" = ");
                out.append(t2.render().as_str());
                out
            },
            TypeError::NotInScope(name) => {
                let mut out = String::from_str("Variable ");
                out.append(name.as_str());
                out.append(" is not in scope");
                out
            },
            TypeError::RecursiveType(name, ty) => {
                let mut out = String::from_str("Type \n    ");
                out.append(name.as_str());
                out.append(" = ");
                out.append(ty.render().as_str());
                out.append("\ncontains references to itself");
                out
            },
            TypeError::DifferentLengths(tys1, tys2) => {
                let mut out = String::from_str("Cannot match length ");
                out.append(decimal_text(tys1.len() as u64).as_str());
                out.append(" with ");
                out.append(decimal_text(tys2.len() as u64).as_str());
                out.append(" while trying to unify types\n    [");
                out.append(render_types(tys1).as_str());
                out.append("]\nwith\n    [");
                out.append(render_types(tys2).as_str());
                out.append("]");
                out
            },
            TypeError::LimitExceeded => String::from_str(
                "The limits of the inference context were exceeded",
            ),
        }
    }
}

} // verus!
