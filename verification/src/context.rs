//! The inference context: the environment, the constraints collected so
//! far, and the supply of fresh type variables.

use crate::collections::{
    subst_insert, subst_map, subst_new, var_set, var_set_items, Substitution,
};
use crate::env::{free_in_values, TypeEnv};
use crate::errors::{clone_constraints, constraint_views, Constraint, Failure, TypeConstraint, TypeError};
use crate::substitution::{apply_type, subst_values};
use crate::types::{clone_type, lemma_scheme_view, ty_view, var_views, Ty, TyVar, Type, VarName};
use crate::vars::{free_variable_list, has_name, keep_all, keep_prefix, quantifies};
use vstd::prelude::*;
use vstd::string::StringExecFns;

verus! {

/// How deep the solver goes in a context made by [`TypeContext::new`]: as
/// deep as a limit can be set.
pub const DEFAULT_DEPTH_LIMIT: u32 = 0xffff_ffff;

/// The decimal digit for `d`, where `d` is below ten.
pub open spec fn digit(d: nat) -> char {
    if d == 0 {
        '0'
    } else if d == 1 {
        '1'
    } else if d == 2 {
        '2'
    } else if d == 3 {
        '3'
    } else if d == 4 {
        '4'
    } else if d == 5 {
        '5'
    } else if d == 6 {
        '6'
    } else if d == 7 {
        '7'
    } else if d == 8 {
        '8'
    } else {
        '9'
    }
}

/// The decimal notation of `n`.
pub open spec fn decimal(n: nat) -> Seq<char>
    decreases n,
{
    if n < 10 {
        seq![digit(n)]
    } else {
        decimal(n / 10).push(digit(n % 10))
    }
}

/// The name of the fresh variable with number `id`: the letter `t` and the
/// number in decimal notation.
pub open spec fn fresh_name(id: nat) -> Seq<char> {
    seq!['t'] + decimal(id)
}

/// The text of the decimal digit for `d`.
pub fn digit_text(d: u64) -> (r: &'static str)
    requires
        d < 10,
    ensures
        r@ == seq![digit(d as nat)],
{
    proof {
        reveal_strlit("0");
        reveal_strlit("1");
        reveal_strlit("2");
        reveal_strlit("3");
        reveal_strlit("4");
        reveal_strlit("5");
        reveal_strlit("6");
        reveal_strlit("7");
        reveal_strlit("8");
        reveal_strlit("9");
    }
    let r = if d == 0 {
        "0"
    } else if d == 1 {
        "1"
    } else if d == 2 {
        "2"
    } else if d == 3 {
        "3"
    } else if d == 4 {
        "4"
    } else if d == 5 {
        "5"
    } else if d == 6 {
        "6"
    } else if d == 7 {
        "7"
    } else if d == 8 {
        "8"
    } else {
        "9"
    };
    assert(r@ =~= seq![digit(d as nat)]);
    r
}

/// A number in decimal notation.
pub fn decimal_text(n: u64) -> (r: String)
    ensures
        r@ == decimal(n as nat),
    decreases n,
{
    if n < 10 {
        String::from_str(digit_text(n))
    } else {
        let mut text = decimal_text(n / 10);
        text.append(digit_text(n % 10));
        assert(text@ =~= decimal((n / 10) as nat).push(digit((n % 10) as nat)));
        text
    }
}

/// The name of the fresh variable numbered `id`.
pub fn variable_name(id: u32) -> (r: String)
    ensures
        r@ == fresh_name(id as nat),
{
    let mut name = String::from_str("t");
    name.append(decimal_text(id as u64).as_str());
    proof {
        reveal_strlit("t");
        assert("t"@ =~= seq!['t']);
    }
    name
}

/// The name of the quantifier at position `i` of a canonical scheme: the
/// letter `a` and the position in decimal notation.
pub open spec fn canonical_name(i: nat) -> Seq<char> {
    seq!['a'] + decimal(i)
}

/// The bindings that rename the first `n` quantifiers to their canonical
/// names: each name is bound to the variable named by its position, with
/// the quantifier's kind. A name that occurs twice keeps the later
/// variable.
pub open spec fn canonical_bindings(vs: Seq<TyVar>, n: nat) -> Map<Seq<char>, Ty>
    decreases n,
{
    if n == 0 || n > vs.len() {
        Map::empty()
    } else {
        canonical_bindings(vs, (n - 1) as nat).insert(
            vs[n - 1].name,
            Ty::Variable(TyVar { name: canonical_name((n - 1) as nat), kind: vs[n - 1].kind }),
        )
    }
}

/// The first `n` quantifiers under their canonical names.
pub open spec fn canonical_quantifiers(vs: Seq<TyVar>, n: nat) -> Seq<TyVar>
    decreases n,
{
    if n == 0 || n > vs.len() {
        Seq::empty()
    } else {
        canonical_quantifiers(vs, (n - 1) as nat).push(
            TyVar { name: canonical_name((n - 1) as nat), kind: vs[n - 1].kind },
        )
    }
}

impl Ty {
    /// The scheme with its quantifiers renamed, from left to right, to
    /// `a0`, `a1` and so on; any other type as it is.
    pub open spec fn canonical(self) -> Ty {
        match self {
            Ty::Scheme(vs, body) => Ty::Scheme(
                canonical_quantifiers(vs, vs.len()),
                Box::new(body.subst(canonical_bindings(vs, vs.len()))),
            ),
            _ => self,
        }
    }
}

/// Model of a [`TypeContext`].
pub struct Context {
    /// The type of each identifier in scope.
    pub environment: Map<Seq<char>, Ty>,
    /// The constraints that wait to be solved, oldest first.
    pub constraints: Seq<Constraint>,
    /// The number of the next fresh variable.
    pub next_id: nat,
    /// How deep the solver may go.
    pub depth_limit: nat,
}

/// The test that accepts the variables whose name no variable has that
/// occurs free in a type of the environment `env`.
pub open spec fn unbound_in(env: Map<Seq<char>, Ty>) -> spec_fn(TyVar) -> bool {
    |v: TyVar| !env_mentions(env, v.name)
}

/// Whether a variable named `name` occurs free in a type that the
/// environment binds an identifier to.
pub open spec fn env_mentions(env: Map<Seq<char>, Ty>, name: Seq<char>) -> bool {
    exists|w: TyVar| #[trigger] free_in_values(env).contains(w) && w.name == name
}

/// The bindings that instantiation makes for the first `n` quantifiers:
/// each name is bound to the fresh variable numbered by its position after
/// `start`, with the quantifier's kind. A name that occurs twice keeps the
/// later variable.
pub open spec fn fresh_bindings(vs: Seq<TyVar>, start: nat, n: nat) -> Map<Seq<char>, Ty>
    decreases n,
{
    if n == 0 || n > vs.len() {
        Map::empty()
    } else {
        fresh_bindings(vs, start, (n - 1) as nat).insert(
            vs[n - 1].name,
            Ty::Variable(TyVar { name: fresh_name((start + n - 1) as nat), kind: vs[n - 1].kind }),
        )
    }
}

impl Ty {
    /// The type closed over its free variables, in the order of their
    /// first occurrence, but for those whose name a variable has that occurs
    /// free in a type of the environment: these stay free.
    pub open spec fn generalize(self, env: Map<Seq<char>, Ty>) -> Ty {
        Ty::Scheme(keep_all(self.free_variable_list(), unbound_in(env)), Box::new(self))
    }
}

impl Context {
    /// The context in which inference starts: `Type` is bound to the kind
    /// `*`, and nothing else is known.
    pub open spec fn initial(depth_limit: nat) -> Context {
        Context {
            environment: Map::empty().insert("Type"@, Ty::star()),
            constraints: Seq::empty(),
            next_id: 0,
            depth_limit,
        }
    }

    /// Whether the context can still make `n` fresh variables.
    pub open spec fn can_make(self, n: nat) -> bool {
        self.next_id + n <= u32::MAX
    }

    /// The context after `n` fresh variables were made.
    pub open spec fn advanced(self, n: nat) -> Context {
        Context { next_id: self.next_id + n, ..self }
    }

    /// The context with one more constraint.
    pub open spec fn with_constraint(self, c: Constraint) -> Context {
        Context { constraints: self.constraints.push(c), ..self }
    }

    /// The context with the given constraints in place of its own.
    pub open spec fn with_constraints(self, cs: Seq<Constraint>) -> Context {
        Context { constraints: cs, ..self }
    }

    /// The context with `name` bound to `ty`.
    pub open spec fn with_binding(self, name: Seq<char>, ty: Ty) -> Context {
        Context { environment: self.environment.insert(name, ty), ..self }
    }

    /// The context with `s` applied to its environment.
    pub open spec fn with_substitution(self, s: Map<Seq<char>, Ty>) -> Context {
        Context { environment: subst_values(self.environment, s), ..self }
    }

    /// The context after a child context has finished: the child's
    /// constraints follow its own, and the counter is the larger of the
    /// two.
    pub open spec fn synced(self, child: Context) -> Context {
        Context {
            constraints: self.constraints + child.constraints,
            next_id: if child.next_id >= self.next_id {
                child.next_id
            } else {
                self.next_id
            },
            ..self
        }
    }

    /// The fresh variable that the context makes next, with the given kind.
    pub open spec fn fresh_variable(self, kind: Ty) -> Ty {
        Ty::Variable(TyVar { name: fresh_name(self.next_id), kind: Box::new(kind) })
    }

    /// A fresh variable of the given kind, and the context after it was
    /// made; the error where the names are used up.
    pub open spec fn fresh(self, kind: Ty) -> (Context, Result<Ty, Failure>) {
        if self.can_make(1) {
            (self.advanced(1), Ok(self.fresh_variable(kind)))
        } else {
            (self, Err(Failure::LimitExceeded))
        }
    }

    /// The type with its quantifiers replaced by fresh variables; a type
    /// that is no scheme stays as it is. Where the names do not suffice for
    /// all quantifiers, none is made.
    pub open spec fn instantiate(self, t: Ty) -> (Context, Result<Ty, Failure>) {
        match t {
            Ty::Scheme(vs, body) => if self.can_make(vs.len()) {
                (
                    self.advanced(vs.len()),
                    Ok(body.subst(fresh_bindings(vs, self.next_id, vs.len()))),
                )
            } else {
                (self, Err(Failure::LimitExceeded))
            },
            _ => (self, Ok(t)),
        }
    }
}

/// The model of what a type or an error stands for.
pub open spec fn type_result(r: Result<Type, TypeError>) -> Result<Ty, Failure> {
    match r {
        Ok(t) => Ok(t@),
        Err(e) => Err(e@),
    }
}

/// The environment, the pending constraints and the supply of fresh
/// variables of one run of inference.
#[derive(Debug)]
pub struct TypeContext {
    pub(crate) environment: TypeEnv,
    pub(crate) constraints: Vec<TypeConstraint>,
    pub(crate) next_id: u32,
    pub(crate) depth_limit: u32,
}

impl View for TypeContext {
    type V = Context;

    closed spec fn view(&self) -> Context {
        Context {
            environment: self.environment@,
            constraints: constraint_views(self.constraints@),
            next_id: self.next_id as nat,
            depth_limit: self.depth_limit as nat,
        }
    }
}

impl Clone for TypeContext {
    fn clone(&self) -> (r: Self)
        ensures
            r@ == self@,
    {
        TypeContext {
            environment: self.environment.clone(),
            constraints: clone_constraints(&self.constraints),
            next_id: self.next_id,
            depth_limit: self.depth_limit,
        }
    }
}

impl TypeContext {
    /// The context in which inference starts, with the default depth
    /// limit.
    pub fn new() -> (r: TypeContext)
        ensures
            r@ == Context::initial(DEFAULT_DEPTH_LIMIT as nat),
    {
        TypeContext::with_depth_limit(DEFAULT_DEPTH_LIMIT)
    }

    /// The context in which inference starts, with a solver that goes at
    /// most `depth_limit` deep.
    pub fn with_depth_limit(depth_limit: u32) -> (r: TypeContext)
        ensures
            r@ == Context::initial(depth_limit as nat),
    {
        let mut environment = TypeEnv::new();
        environment.insert("Type".to_owned(), Type::star());
        let constraints: Vec<TypeConstraint> = Vec::new();
        assert(constraint_views(constraints@) =~= Seq::<Constraint>::empty());
        TypeContext { environment, constraints, next_id: 0, depth_limit }
    }

    /// How deep the solver may go.
    pub fn depth_limit(&self) -> (r: u32)
        ensures
            r == self@.depth_limit,
    {
        self.depth_limit
    }

    /// Whether the context can still make `n` fresh variables.
    pub fn can_make(&self, n: usize) -> (r: bool)
        ensures
            r == self@.can_make(n as nat),
    {
        n <= (u32::MAX - self.next_id) as usize
    }

    /// Whether constraints wait to be solved.
    pub fn has_constraints(&self) -> (r: bool)
        ensures
            r == (self@.constraints.len() > 0),
    {
        self.constraints.len() > 0
    }

    /// Adds the constraint that two types must become equal.
    pub fn should_unify(&mut self, from: &Type, to: &Type)
        ensures
            final(self)@ == old(self)@.with_constraint(Constraint::Unify(from@, to@)),
    {
        let ghost before = constraint_views(self.constraints@);
        self.constraints.push(TypeConstraint::Unify(clone_type(from), clone_type(to)));
        assert(constraint_views(self.constraints@) =~= before.push(Constraint::Unify(from@, to@)));
    }

    /// Adds the constraint that the first type must fit the second.
    pub fn should_match(&mut self, from: &Type, to: &Type)
        ensures
            final(self)@ == old(self)@.with_constraint(Constraint::Match(from@, to@)),
    {
        let ghost before = constraint_views(self.constraints@);
        self.constraints.push(TypeConstraint::Match(clone_type(from), clone_type(to)));
        assert(constraint_views(self.constraints@) =~= before.push(Constraint::Match(from@, to@)));
    }

    /// Hands out the pending constraints and leaves the context with
    /// none.
    pub fn take_constraints(&mut self) -> (r: Vec<TypeConstraint>)
        ensures
            constraint_views(r@) == old(self)@.constraints,
            final(self)@ == old(self)@.with_constraints(Seq::empty()),
    {
        let mut taken: Vec<TypeConstraint> = Vec::new();
        std::mem::swap(&mut taken, &mut self.constraints);
        assert(constraint_views(self.constraints@) =~= Seq::<Constraint>::empty());
        taken
    }

    /// Puts the given constraints in place of the pending ones.
    pub fn set_constraints(&mut self, constraints: Vec<TypeConstraint>)
        ensures
            final(self)@ == old(self)@.with_constraints(constraint_views(constraints@)),
    {
        self.constraints = constraints;
    }

    /// A copy of the pending constraints.
    pub fn pending_constraints(&self) -> (r: Vec<TypeConstraint>)
        ensures
            constraint_views(r@) == self@.constraints,
    {
        clone_constraints(&self.constraints)
    }

    /// The type that the environment has for `name`, if any.
    pub fn lookup(&self, name: &String) -> (r: Option<Type>)
        ensures
            match r {
                Some(t) => self@.environment.contains_key(name@) && t@ == self@.environment[name@],
                None => !self@.environment.contains_key(name@),
            },
    {
        match self.environment.get(name) {
            Some(t) => Some(clone_type(t)),
            None => None,
        }
    }

    /// The free variables of the types that the environment binds names
    /// to.
    pub fn environment_variables(&self) -> (r: im::HashSet<VarName>)
        ensures
            var_set(r) == free_in_values(self@.environment),
    {
        self.environment.free_variable_set()
    }

    /// A new unique number.
    pub fn get_id(&mut self) -> (id: u32)
        requires
            old(self)@.can_make(1),
        ensures
            id == old(self)@.next_id,
            final(self)@ == old(self)@.advanced(1),
    {
        let id = self.next_id;
        self.next_id += 1;
        id
    }

    /// A new unique type variable of the given kind.
    pub fn fresh(&mut self, kind: Type) -> (r: Type)
        requires
            old(self)@.can_make(1),
        ensures
            (final(self)@, Ok::<Ty, Failure>(r@)) == old(self)@.fresh(kind@),
    {
        let id = self.get_id();
        let name = variable_name(id);
        proof {
            reveal_with_fuel(ty_view, 2);
        }
        Type::Variable(VarName { kind: Box::new(kind), name })
    }

    /// Replaces the quantifiers of a scheme with fresh variables; a type
    /// that is no scheme is handed back as it is.
    pub fn instantiate(&mut self, ty: &Type) -> (r: Type)
        requires
            ty@ matches Ty::Scheme(vs, _) ==> old(self)@.can_make(vs.len()),
        ensures
            (final(self)@, Ok::<Ty, Failure>(r@)) == old(self)@.instantiate(ty@),
    {
        match ty {
            Type::Scheme { variables, ty: body } => {
                proof {
                    lemma_scheme_view(*variables, *body);
                }
                let ghost vs = var_views(variables@);
                let ghost start = self@.next_id;
                let mut substitution = subst_new();
                let mut i: usize = 0;
                while i < variables.len()
                    invariant
                        i <= variables.len(),
                        vs == var_views(variables@),
                        start + variables.len() <= u32::MAX,
                        self@ == old(self)@.advanced(i as nat),
                        start == old(self)@.next_id,
                        subst_map(substitution) == fresh_bindings(vs, start, i as nat),
                    decreases variables.len() - i,
                {
                    let variable = self.fresh(clone_type(&variables[i].kind));
                    subst_insert(&mut substitution, variables[i].name.clone(), variable);
                    i += 1;
                }
                apply_type(clone_type(body), &substitution)
            },
            other => clone_type(other),
        }
    }

    /// As [`TypeContext::instantiate`], with the error where the fresh
    /// names do not suffice.
    pub fn try_instantiate(&mut self, ty: &Type) -> (r: Result<Type, TypeError>)
        ensures
            (final(self)@, type_result(r)) == old(self)@.instantiate(ty@),
    {
        let enough = match ty {
            Type::Scheme { variables, ty: body } => {
                proof {
                    lemma_scheme_view(*variables, *body);
                }
                self.can_make(variables.len())
            },
            _ => true,
        };
        if enough {
            Ok(self.instantiate(ty))
        } else {
            Err(TypeError::LimitExceeded)
        }
    }

    /// As [`TypeContext::fresh`], with the error where the fresh names are
    /// used up.
    pub fn try_fresh(&mut self, kind: Type) -> (r: Result<Type, TypeError>)
        ensures
            (final(self)@, type_result(r)) == old(self)@.fresh(kind@),
    {
        if self.can_make(1) {
            Ok(self.fresh(kind))
        } else {
            Err(TypeError::LimitExceeded)
        }
    }

    /// A new context based on this one, with `name` bound to `scheme`.
    pub fn create_closure(&self, name: String, scheme: Type) -> (r: TypeContext)
        ensures
            r@ == self@.with_binding(name@, scheme@),
    {
        let mut context = self.clone();
        context.environment.insert(name, scheme);
        context
    }

    /// A new context based on this one, with no constraints pending.
    pub fn create_isolated(&self) -> (r: TypeContext)
        ensures
            r@ == self@.with_constraints(Seq::empty()),
    {
        let mut context = self.clone();
        context.constraints = Vec::new();
        assert(constraint_views(context.constraints@) =~= Seq::<Constraint>::empty());
        context
    }

    /// Takes over the constraints and the counter of a context that was
    /// based on this one.
    pub fn sync(&mut self, other: TypeContext)
        ensures
            final(self)@ == old(self)@.synced(other@),
    {
        let ghost before = constraint_views(self.constraints@);
        let mut theirs = other.constraints;
        let ghost added = constraint_views(theirs@);
        self.constraints.append(&mut theirs);
        assert(constraint_views(self.constraints@) =~= before + added);
        if other.next_id > self.next_id {
            self.next_id = other.next_id;
        }
    }

    /// Applies a substitution to the environment.
    pub fn with_substitution(&mut self, substitution: &Substitution)
        ensures
            final(self)@ == old(self)@.with_substitution(subst_map(*substitution)),
    {
        let mut environment = TypeEnv::new();
        std::mem::swap(&mut environment, &mut self.environment);
        self.environment = environment.substituted(substitution);
    }

    /// Hands the type back as it is.
    pub fn kind_unkinded(&mut self, ty: Type) -> (r: Type)
        ensures
            r@ == ty@,
            final(self)@ == old(self)@,
    {
        ty
    }
}

impl Type {
    /// Renames the quantifiers of a scheme, from left to right, to `a0`,
    /// `a1` and so on, so that two schemes that differ in the names of their
    /// quantifiers only become the same. Any other type is handed back as it
    /// is.
    pub fn canonical(&self) -> (r: Type)
        ensures
            r@ == self@.canonical(),
    {
        match self {
            Type::Scheme { variables, ty: body } => {
                proof {
                    lemma_scheme_view(*variables, *body);
                }
                let ghost vs = var_views(variables@);
                let mut renaming = subst_new();
                let mut renamed: Vec<VarName> = Vec::new();
                let mut i: usize = 0;
                assert(var_views(renamed@) =~= canonical_quantifiers(vs, 0));
                while i < variables.len()
                    invariant
                        i <= variables.len(),
                        vs == var_views(variables@),
                        subst_map(renaming) == canonical_bindings(vs, i as nat),
                        var_views(renamed@) == canonical_quantifiers(vs, i as nat),
                    decreases variables.len() - i,
                {
                    let mut name = String::from_str("a");
                    name.append(decimal_text(i as u64).as_str());
                    proof {
                        reveal_strlit("a");
                        assert("a"@ =~= seq!['a']);
                        reveal_with_fuel(ty_view, 2);
                    }
                    let ghost before = var_views(renamed@);
                    let variable = VarName { name, kind: Box::new(clone_type(&variables[i].kind)) };
                    subst_insert(
                        &mut renaming,
                        variables[i].name.clone(),
                        Type::Variable(variable.clone()),
                    );
                    renamed.push(variable);
                    assert(var_views(renamed@) =~= before.push(
                        TyVar { name: canonical_name(i as nat), kind: vs[i as int].kind },
                    ));
                    i += 1;
                }
                apply_type(clone_type(body), &renaming).to_scheme(renamed)
            },
            other => clone_type(other),
        }
    }

    /// Closes the type over its free variables. A variable whose name a
    /// variable has that occurs free in a type of the context's environment
    /// is not quantified. The quantifiers stand in the order in which the
    /// variables first occur in the type.
    pub fn generalize(&self, context: &TypeContext) -> (r: Type)
        ensures
            r@ == self@.generalize(context@.environment),
    {
        let free = free_variable_list(self);
        let held = var_set_items(&context.environment_variables());
        let mut quantifiers: Vec<VarName> = Vec::new();
        let ghost l = var_views(free@);
        let ghost env = context@.environment;
        let ghost keep = unbound_in(env);
        let mut i: usize = 0;
        assert(var_views(quantifiers@) =~= keep_prefix(l, keep, 0));
        assert forall|n: Seq<char>| quantifies(var_views(held@), n) <==> env_mentions(env, n) by {
            if quantifies(var_views(held@), n) {
                let j = choose|j: int|
                    0 <= j < var_views(held@).len() && #[trigger] var_views(held@)[j].name == n;
                assert(free_in_values(env).contains(held@[j]@));
            }
            if env_mentions(env, n) {
                let w = choose|w: TyVar| #[trigger] free_in_values(env).contains(w) && w.name == n;
                let j = choose|j: int| 0 <= j < held@.len() && held@[j]@ == w;
                assert(var_views(held@)[j].name == n);
            }
        }
        while i < free.len()
            invariant
                i <= free.len(),
                l == var_views(free@),
                keep == unbound_in(env),
                forall|n: Seq<char>| quantifies(var_views(held@), n) <==> env_mentions(env, n),
                var_views(quantifiers@) == keep_prefix(l, keep, i as nat),
            decreases free.len() - i,
        {
            let ghost before = var_views(quantifiers@);
            if !has_name(&held, &free[i].name) {
                quantifiers.push(free[i].clone());
                assert(var_views(quantifiers@) =~= before.push(l[i as int]));
            }
            i += 1;
        }
        self.to_scheme(quantifiers)
    }
}

impl TypeContext {
    /// The counter of a context is a 32-bit number: a context can always
    /// make no fresh variable.
    pub proof fn law_counter_fits(&self)
        ensures
            self@.can_make(0),
            self@.next_id <= u32::MAX,
            self@.depth_limit <= u32::MAX,
    {
    }
}

} // verus!
