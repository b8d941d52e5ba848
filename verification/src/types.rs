//! Types, kinds and their mathematical model.

use vstd::prelude::*;
use vstd::std_specs::cmp::PartialEqSpecImpl;

verus! {

/// Model of a [`VarName`]: a name with the kind it is annotated with.
pub struct TyVar {
    pub name: Seq<char>,
    pub kind: Box<Ty>,
}

/// Model of a [`Type`]: names are character sequences and quantifier lists
/// are sequences, so two models are equal exactly when the types have the
/// same structure.
pub enum Ty {
    Constructor(TyVar),
    Apply(Box<Ty>, Box<Ty>),
    Variable(TyVar),
    NoKind,
    ArrowKind,
    Scheme(Seq<TyVar>, Box<Ty>),
}

/// A name together with its kind. Used for type variables, type
/// constructors and quantifiers alike.
#[derive(Debug, Hash)]
pub struct VarName {
    pub name: String,
    pub kind: Box<Type>,
}

/// A type or a kind.
#[derive(Debug, Hash)]
pub enum Type {
    Constructor(VarName),
    TApply(Box<Type>, Box<Type>),
    Variable(VarName),
    NoKind,
    ArrowKind,
    Scheme { variables: Vec<VarName>, ty: Box<Type> },
}

/// The model of a type.
pub open spec fn ty_view(t: Type) -> Ty
    decreases t,
{
    match t {
        Type::Constructor(v) => Ty::Constructor(
            TyVar { name: v.name@, kind: Box::new(ty_view(*v.kind)) },
        ),
        Type::TApply(f, x) => Ty::Apply(Box::new(ty_view(*f)), Box::new(ty_view(*x))),
        Type::Variable(v) => Ty::Variable(
            TyVar { name: v.name@, kind: Box::new(ty_view(*v.kind)) },
        ),
        Type::NoKind => Ty::NoKind,
        Type::ArrowKind => Ty::ArrowKind,
        Type::Scheme { variables, ty } => Ty::Scheme(
            Seq::new(
                variables@.len(),
                |i: int|
                    if 0 <= i < variables@.len() {
                        TyVar {
                            name: variables@[i].name@,
                            kind: Box::new(ty_view(*variables@[i].kind)),
                        }
                    } else {
                        arbitrary()
                    },
            ),
            Box::new(ty_view(*ty)),
        ),
    }
}

/// The models of a list of names, in order.
pub open spec fn var_views(vs: Seq<VarName>) -> Seq<TyVar> {
    vs.map_values(|v: VarName| v@)
}

/// The models of a list of types, in order.
pub open spec fn ty_views(ts: Seq<Type>) -> Seq<Ty> {
    ts.map_values(|t: Type| t@)
}

impl View for Type {
    type V = Ty;

    open spec fn view(&self) -> Ty {
        ty_view(*self)
    }
}

impl View for VarName {
    type V = TyVar;

    open spec fn view(&self) -> TyVar {
        TyVar { name: self.name@, kind: Box::new(ty_view(*self.kind)) }
    }
}

/// The model of a scheme is the scheme of the models.
pub proof fn lemma_scheme_view(variables: Vec<VarName>, ty: Box<Type>)
    ensures
        (Type::Scheme { variables, ty })@ == Ty::Scheme(var_views(variables@), Box::new(ty@)),
{
    let t = Type::Scheme { variables, ty };
    assert(t@->Scheme_0 =~= var_views(variables@));
}

impl Ty {
    /// The kind `*` of every type that has values.
    pub open spec fn star() -> Ty {
        Ty::Constructor(TyVar { name: "*"@, kind: Box::new(Ty::NoKind) })
    }

    /// The nullary constructor `name`, of kind `*`.
    pub open spec fn constant(name: Seq<char>) -> Ty {
        Ty::Constructor(TyVar { name, kind: Box::new(Ty::star()) })
    }

    /// The variable `name` with no kind recorded.
    pub open spec fn var(name: Seq<char>) -> Ty {
        Ty::Variable(TyVar { name, kind: Box::new(Ty::NoKind) })
    }

    /// The application of `self` to `arg`.
    pub open spec fn app(self, arg: Ty) -> Ty {
        Ty::Apply(Box::new(self), Box::new(arg))
    }

    /// The function type from `from` to `to`.
    pub open spec fn arrow(from: Ty, to: Ty) -> Ty {
        Ty::ArrowKind.app(from).app(to)
    }

    /// `self` applied to the first `n` of `args`, one after the other.
    pub open spec fn app_prefix(self, args: Seq<Ty>, n: nat) -> Ty
        decreases n,
    {
        if n == 0 || n > args.len() {
            self
        } else {
            self.app_prefix(args, (n - 1) as nat).app(args[n - 1])
        }
    }

    /// `self` applied to all of `args`, one after the other.
    pub open spec fn app_chain(self, args: Seq<Ty>) -> Ty {
        self.app_prefix(args, args.len())
    }

    /// The two sides of a function type; `None` for any other type.
    pub open spec fn unwrap_function(self) -> Option<(Ty, Ty)> {
        match self {
            Ty::Apply(first, to) => match *first {
                Ty::Apply(fun, from) => if *fun == Ty::ArrowKind {
                    Some((*from, *to))
                } else {
                    None
                },
                _ => None,
            },
            _ => None,
        }
    }
}

impl Type {
    /// The kind of all types with a runtime value.
    pub fn star() -> (r: Type)
        ensures
            r@ == Ty::star(),
    {
        proof {
            reveal_with_fuel(ty_view, 2);
        }
        Type::Constructor(VarName { name: "*".to_owned(), kind: Box::new(Type::NoKind) })
    }

    /// Chains type applications: `self` applied to each of `args` in turn.
    pub fn app_chain(self, args: Vec<Type>) -> (r: Type)
        ensures
            r@ == self@.app_chain(ty_views(args@)),
    {
        let mut result = self;
        let mut i: usize = 0;
        while i < args.len()
            invariant
                i <= args.len(),
                result@ == self@.app_prefix(ty_views(args@), i as nat),
            decreases args.len() - i,
        {
            result = Type::TApply(Box::new(result), Box::new(args[i].clone()));
            i += 1;
        }
        result
    }

    /// The application of `self` to `other`.
    pub fn apply(&self, other: Type) -> (r: Type)
        ensures
            r@ == self@.app(other@),
    {
        Type::TApply(Box::new(self.clone()), Box::new(other))
    }

    /// The type variable `name`, with no kind recorded.
    pub fn from_string(name: String) -> (r: Type)
        ensures
            r@ == Ty::var(name@),
    {
        proof {
            reveal_with_fuel(ty_view, 2);
        }
        Type::Variable(VarName { name, kind: Box::new(Type::NoKind) })
    }

    /// `self` quantified over `variables`.
    pub fn to_scheme(&self, variables: Vec<VarName>) -> (r: Type)
        ensures
            r@ == Ty::Scheme(var_views(variables@), Box::new(self@)),
    {
        let body = Box::new(self.clone());
        proof {
            lemma_scheme_view(variables, body);
        }
        Type::Scheme { variables, ty: body }
    }

    /// The function type from `from` to `to`.
    pub fn create_lambda(from: Type, to: Type) -> (r: Type)
        ensures
            r@ == Ty::arrow(from@, to@),
    {
        proof {
            reveal_with_fuel(ty_view, 3);
        }
        Type::TApply(Box::new(Type::TApply(Box::new(Type::ArrowKind), Box::new(from))), Box::new(to))
    }

    /// The nullary constructor `name`, of kind `*`.
    pub fn constant(name: &str) -> (r: Type)
        ensures
            r@ == Ty::constant(name@),
    {
        Type::Constructor(VarName { name: name.to_owned(), kind: Box::new(Type::star()) })
    }

    /// The type of numbers.
    pub fn number() -> (r: Type)
        ensures
            r@ == Ty::constant("Number"@),
    {
        Type::constant("Number")
    }

    /// The type of strings.
    pub fn string() -> (r: Type)
        ensures
            r@ == Ty::constant("String"@),
    {
        Type::constant("String")
    }

    /// The type of truth values.
    pub fn boolean() -> (r: Type)
        ensures
            r@ == Ty::constant("Boolean"@),
    {
        Type::constant("Boolean")
    }

    /// Whether this is a quantified type.
    pub fn is_scheme(&self) -> (r: bool)
        ensures
            r == (self@ is Scheme),
    {
        match self {
            Type::Scheme { .. } => true,
            _ => false,
        }
    }

    /// The argument and result of a function type; `None` for any type that
    /// is not `ArrowKind` applied to exactly two types.
    pub fn unwrap_function(&self) -> (r: Option<(Type, Type)>)
        ensures
            match r {
                Some((from, to)) => self@.unwrap_function() == Some((from@, to@)),
                None => self@.unwrap_function() is None,
            },
    {
        proof {
            reveal_with_fuel(ty_view, 3);
        }
        if let Type::TApply(first, to) = self {
            if let Type::TApply(fun, from) = &**first {
                if let Type::ArrowKind = &**fun {
                    return Some(((**from).clone(), (**to).clone()));
                }
            }
        }
        None
    }
}

/// Structural equality of two names.
pub fn var_eq(a: &VarName, b: &VarName) -> (r: bool)
    ensures
        r == (a@ == b@),
    decreases a,
{
    a.name == b.name && type_eq(&*a.kind, &*b.kind)
}

/// Structural equality of two types: same variant, same names, same
/// parts, quantifiers in the same order.
pub fn type_eq(a: &Type, b: &Type) -> (r: bool)
    ensures
        r == (a@ == b@),
    decreases a,
{
    match (a, b) {
        (Type::Constructor(x), Type::Constructor(y)) => var_eq(x, y),
        (Type::Variable(x), Type::Variable(y)) => var_eq(x, y),
        (Type::TApply(f, x), Type::TApply(g, y)) => type_eq(&**f, &**g) && type_eq(&**x, &**y),
        (Type::NoKind, Type::NoKind) => true,
        (Type::ArrowKind, Type::ArrowKind) => true,
        (Type::Scheme { variables: vs, ty: s }, Type::Scheme { variables: ws, ty: t }) => {
            proof {
                lemma_scheme_view(*vs, *s);
                lemma_scheme_view(*ws, *t);
            }
            if vs.len() != ws.len() {
                assert(var_views(vs@).len() != var_views(ws@).len());
                return false;
            }
            let mut i: usize = 0;
            while i < vs.len()
                invariant
                    a matches Type::Scheme { variables, .. } && variables == *vs,
                    a@ == Ty::Scheme(var_views(vs@), Box::new(s@)),
                    b@ == Ty::Scheme(var_views(ws@), Box::new(t@)),
                    vs.len() == ws.len(),
                    i <= vs.len(),
                    forall|j: int| 0 <= j < i ==> vs@[j]@ == ws@[j]@,
                decreases vs.len() - i,
            {
                if !var_eq(&vs[i], &ws[i]) {
                    assert(var_views(vs@)[i as int] != var_views(ws@)[i as int]);
                    return false;
                }
                i += 1;
            }
            assert(var_views(vs@) =~= var_views(ws@));
            type_eq(&**s, &**t)
        },
        _ => false,
    }
}

/// A copy of a name.
pub fn clone_var(v: &VarName) -> (r: VarName)
    ensures
        r@ == v@,
    decreases v,
{
    VarName { name: v.name.clone(), kind: Box::new(clone_type(&*v.kind)) }
}

/// A copy of a list of names.
pub fn clone_vars(vs: &Vec<VarName>) -> (r: Vec<VarName>)
    ensures
        var_views(r@) == var_views(vs@),
    decreases vs,
{
    let mut out: Vec<VarName> = Vec::new();
    let mut i: usize = 0;
    while i < vs.len()
        invariant
            i <= vs.len(),
            out@.len() == i,
            forall|j: int| 0 <= j < i ==> out@[j]@ == vs@[j]@,
        decreases vs.len() - i,
    {
        out.push(clone_var(&vs[i]));
        i += 1;
    }
    assert(var_views(out@) =~= var_views(vs@));
    out
}

/// A copy of a type.
pub fn clone_type(t: &Type) -> (r: Type)
    ensures
        r@ == t@,
    decreases t,
{
    match t {
        Type::Constructor(v) => Type::Constructor(clone_var(v)),
        Type::Variable(v) => Type::Variable(clone_var(v)),
        Type::TApply(f, x) => Type::TApply(Box::new(clone_type(&**f)), Box::new(clone_type(&**x))),
        Type::NoKind => Type::NoKind,
        Type::ArrowKind => Type::ArrowKind,
        Type::Scheme { variables, ty } => {
            let vs = clone_vars(variables);
            let body = Box::new(clone_type(&**ty));
            proof {
                lemma_scheme_view(*variables, *ty);
                lemma_scheme_view(vs, body);
            }
            Type::Scheme { variables: vs, ty: body }
        },
    }
}

impl PartialEq for VarName {
    fn eq(&self, other: &Self) -> (r: bool) {
        var_eq(self, other)
    }
}

impl PartialEqSpecImpl for VarName {
    open spec fn obeys_eq_spec() -> bool {
        true
    }

    open spec fn eq_spec(&self, other: &Self) -> bool {
        self@ == other@
    }
}

impl Eq for VarName {

}

impl PartialEq for Type {
    fn eq(&self, other: &Self) -> (r: bool) {
        type_eq(self, other)
    }
}

impl PartialEqSpecImpl for Type {
    open spec fn obeys_eq_spec() -> bool {
        true
    }

    open spec fn eq_spec(&self, other: &Self) -> bool {
        self@ == other@
    }
}

impl Eq for Type {

}

impl Clone for VarName {
    fn clone(&self) -> (r: Self)
        ensures
            r@ == self@,
    {
        clone_var(self)
    }
}

impl Clone for Type {
    fn clone(&self) -> (r: Self)
        ensures
            r@ == self@,
    {
        clone_type(self)
    }
}

} // verus!
