use typeinfer::ast::Ast;
use typeinfer::collections::Substitution;
use typeinfer::context::{TypeContext, DEFAULT_DEPTH_LIMIT};
use typeinfer::errors::{TypeConstraint, TypeError};
use typeinfer::substituable::Substituable;
use typeinfer::substitution::apply_type;
use typeinfer::types::{Type, VarName};

fn tv(identifier: &str) -> Type {
    Type::from_string(identifier.to_string())
}

fn quantifier(identifier: &str) -> VarName {
    VarName {
        name: identifier.to_string(),
        kind: Box::new(Type::NoKind),
    }
}

fn kinded(identifier: &str, kind: Type) -> Type {
    Type::Variable(VarName {
        name: identifier.to_string(),
        kind: Box::new(kind),
    })
}

fn arrow(from: Type, to: Type) -> Type {
    Type::create_lambda(from, to)
}

#[test]
fn fresh_variables_are_numbered_from_zero() {
    let mut context = TypeContext::new();
    assert_eq!(context.depth_limit(), DEFAULT_DEPTH_LIMIT);
    assert_eq!(context.get_id(), 0);
    assert_eq!(context.get_id(), 1);
    assert_eq!(context.fresh(Type::NoKind), tv("t2"));
    assert_eq!(context.fresh(Type::star()), kinded("t3", Type::star()));
    for _ in 0..8 {
        context.get_id();
    }
    assert_eq!(context.fresh(Type::NoKind), tv("t12"));
    assert_eq!(context.try_fresh(Type::NoKind).unwrap(), tv("t13"));
}

#[test]
fn instantiate_replaces_each_quantifier_with_a_fresh_variable() {
    let mut context = TypeContext::new();
    let scheme = arrow(tv("a"), arrow(tv("b"), tv("c"))).to_scheme(vec![
        quantifier("a"),
        VarName {
            name: "b".to_string(),
            kind: Box::new(Type::star()),
        },
    ]);
    assert_eq!(
        context.instantiate(&scheme),
        arrow(tv("t0"), arrow(kinded("t1", Type::star()), tv("c")))
    );
    assert_eq!(
        context.instantiate(&scheme),
        arrow(tv("t2"), arrow(kinded("t3", Type::star()), tv("c")))
    );
    assert_eq!(context.instantiate(&tv("a")), tv("a"));
    assert_eq!(context.get_id(), 4);
}

#[test]
fn instantiate_with_a_repeated_quantifier_keeps_the_later_variable() {
    let mut context = TypeContext::new();
    let scheme = tv("a").to_scheme(vec![quantifier("a"), quantifier("a")]);
    assert_eq!(context.instantiate(&scheme), tv("t1"));
    assert_eq!(context.get_id(), 2);
}

#[test]
fn kinds_of_the_simple_types() {
    let mut context = TypeContext::new();
    assert_eq!(context.get_kind(Type::number()), Type::star());
    assert_eq!(context.get_kind(kinded("a", Type::star())), Type::star());
    assert_eq!(context.get_kind(tv("a")), Type::NoKind);
    assert_eq!(context.get_kind(Type::NoKind), Type::NoKind);
    assert_eq!(
        context.get_kind(Type::ArrowKind),
        arrow(Type::NoKind, arrow(Type::NoKind, Type::NoKind)).to_scheme(vec![])
    );
    assert_eq!(
        context.get_kind(Type::ArrowKind.apply(Type::number())),
        Type::NoKind
    );
    assert!(!context.has_constraints());
    assert_eq!(context.get_id(), 0);
}

#[test]
fn kind_of_an_application_is_a_fresh_variable_under_a_constraint() {
    let mut context = TypeContext::new();
    let list = Type::Constructor(VarName {
        name: "List".to_string(),
        kind: Box::new(arrow(Type::star(), Type::star())),
    });
    let kind = context.get_kind(list.apply(Type::number()));
    assert_eq!(kind, tv("t0"));
    let pending = context.pending_constraints();
    assert_eq!(pending.len(), 1);
    match &pending[0] {
        TypeConstraint::Unify(left, right) => {
            assert_eq!(*left, arrow(Type::star(), Type::star()));
            assert_eq!(*right, arrow(Type::star(), tv("t0")));
        }
        other => panic!("expected a unification, got {:?}", other),
    }
    let substitution = context.solve_constraints().unwrap();
    assert_eq!(apply_type(kind, &substitution), Type::star());
    assert!(!context.has_constraints());
}

#[test]
fn kind_of_a_scheme_is_that_of_an_instance() {
    let mut context = TypeContext::new();
    let scheme = tv("a").to_scheme(vec![VarName {
        name: "a".to_string(),
        kind: Box::new(Type::star()),
    }]);
    assert_eq!(context.get_kind(scheme), Type::star());
    assert_eq!(context.get_id(), 1);
}

#[test]
fn constrain_type_application_pairs_the_kinds() {
    let mut context = TypeContext::new();
    let (function_kind, expected) =
        context.constrain_type_application(Type::number(), kinded("a", Type::star()));
    assert_eq!(function_kind, Type::star());
    assert_eq!(expected, arrow(Type::star(), tv("t0")));
    assert!(!context.has_constraints());
}

#[test]
fn unify_equal_types_and_wildcards_binds_nothing() {
    let mut context = TypeContext::new();
    assert!(context
        .unify(arrow(tv("a"), tv("b")), arrow(tv("a"), tv("b")))
        .unwrap()
        .is_empty());
    assert!(context.unify(Type::NoKind, Type::number()).unwrap().is_empty());
    assert!(context.unify(tv("a"), Type::NoKind).unwrap().is_empty());
    assert!(context
        .unify(Type::ArrowKind, Type::ArrowKind)
        .unwrap()
        .is_empty());
}

#[test]
fn unify_binds_a_variable_on_either_side() {
    let mut context = TypeContext::new();
    let left = context.unify(tv("a"), Type::number()).unwrap();
    assert_eq!(left.len(), 1);
    assert_eq!(left.get("a"), Some(&Type::number()));
    let right = context.unify(Type::number(), tv("a")).unwrap();
    assert_eq!(right.len(), 1);
    assert_eq!(right.get("a"), Some(&Type::number()));
    let both = context.unify(tv("a"), tv("b")).unwrap();
    assert_eq!(both.get("a"), Some(&tv("b")));
    assert_eq!(both.get("b"), None);
}

#[test]
fn unify_constructors_of_one_name_unifies_their_kinds() {
    let mut context = TypeContext::new();
    let left = Type::Constructor(VarName {
        name: "C".to_string(),
        kind: Box::new(tv("k")),
    });
    let right = Type::Constructor(VarName {
        name: "C".to_string(),
        kind: Box::new(Type::star()),
    });
    let found = context.unify(left, right).unwrap();
    assert_eq!(found.get("k"), Some(&Type::star()));
    match context.unify(Type::number(), Type::string()) {
        Err(TypeError::UnificationError(left, right)) => {
            assert_eq!(left, Type::number());
            assert_eq!(right, Type::string());
        }
        other => panic!("expected a unification error, got {:?}", other),
    }
}

#[test]
fn unify_instantiates_a_scheme_on_either_side() {
    let mut context = TypeContext::new();
    let scheme = tv("a").to_scheme(vec![quantifier("a")]);
    let found = context.unify(scheme.clone(), Type::number()).unwrap();
    assert_eq!(found.get("t0"), Some(&Type::number()));
    let found = context.unify(Type::number(), scheme).unwrap();
    assert_eq!(found.get("t1"), Some(&Type::number()));
}

#[test]
fn unify_functions_binds_argument_and_result() {
    let mut context = TypeContext::new();
    let found = context
        .unify(
            arrow(tv("a"), tv("b")),
            arrow(Type::number(), Type::string()),
        )
        .unwrap();
    assert_eq!(found.get("a"), Some(&Type::number()));
    assert_eq!(found.get("b"), Some(&Type::string()));
    assert_eq!(
        apply_type(arrow(tv("a"), tv("b")), &found),
        arrow(Type::number(), Type::string())
    );
}

#[test]
fn unify_refuses_an_infinite_type() {
    let mut context = TypeContext::new();
    match context.unify(tv("a"), arrow(tv("a"), tv("b"))) {
        Err(TypeError::RecursiveType(name, ty)) => {
            assert_eq!(name, "a");
            assert_eq!(ty, arrow(tv("a"), tv("b")));
        }
        other => panic!("expected a recursive type, got {:?}", other),
    }
}

#[test]
fn unify_many_needs_lists_of_one_length() {
    let mut context = TypeContext::new();
    assert!(context.unify_many(vec![], vec![]).unwrap().is_empty());
    let found = context
        .unify_many(
            vec![tv("a"), tv("b")],
            vec![Type::number(), tv("a")],
        )
        .unwrap();
    assert_eq!(found.get("a"), Some(&Type::number()));
    assert_eq!(found.get("b"), Some(&Type::number()));
    match context.unify_many(vec![tv("a"), tv("b"), tv("c")], vec![Type::number()]) {
        Err(TypeError::DifferentLengths(left, right)) => {
            assert_eq!(left, vec![tv("b"), tv("c")]);
            assert_eq!(right, Vec::<Type>::new());
        }
        other => panic!("expected lists of different lengths, got {:?}", other),
    }
}

#[test]
fn the_occurs_check_comes_before_the_depth_limit() {
    let mut context = TypeContext::with_depth_limit(0);
    for kind in [None, Some(Type::NoKind), Some(Type::star())] {
        match context.bind_type_variable("a".to_string(), kind, arrow(tv("a"), tv("b"))) {
            Err(TypeError::RecursiveType(name, ty)) => {
                assert_eq!(name, "a");
                assert_eq!(ty, arrow(tv("a"), tv("b")));
            }
            other => panic!("expected a recursive type, got {:?}", other),
        }
    }
    match context.bind_type_variable("a".to_string(), Some(Type::NoKind), Type::number()) {
        Err(TypeError::LimitExceeded) => {}
        other => panic!("expected the limit to be exceeded, got {:?}", other),
    }
    assert!(context
        .bind_type_variable("a".to_string(), None, Type::number())
        .is_ok());
}

#[test]
fn bind_without_a_kind_binds_the_variable() {
    let mut context = TypeContext::new();
    let found = context
        .bind_type_variable("a".to_string(), None, Type::number())
        .unwrap();
    assert_eq!(found.len(), 1);
    assert_eq!(found.get("a"), Some(&Type::number()));
    let found = context
        .bind_type_variable("a".to_string(), None, tv("a"))
        .unwrap();
    assert_eq!(found.get("a"), Some(&tv("a")));
}

#[test]
fn bind_with_a_kind_unifies_the_kinds() {
    let mut context = TypeContext::new();
    let found = context
        .bind_type_variable("a".to_string(), Some(tv("k")), Type::number())
        .unwrap();
    assert_eq!(found.len(), 2);
    assert_eq!(found.get("k"), Some(&Type::star()));
    assert_eq!(found.get("a"), Some(&Type::number()));
    let found = context
        .bind_type_variable(
            "a".to_string(),
            Some(Type::star()),
            kinded("a", tv("k")),
        )
        .unwrap();
    assert_eq!(found.len(), 1);
    assert_eq!(found.get("k"), Some(&Type::star()));
    match context.bind_type_variable("a".to_string(), Some(Type::number()), Type::number()) {
        Err(TypeError::UnificationError(left, right)) => {
            assert_eq!(left, Type::star());
            assert_eq!(right, Type::number());
        }
        other => panic!("expected a unification error, got {:?}", other),
    }
}

#[test]
fn match_binds_variables_of_the_left_side_only() {
    let mut context = TypeContext::new();
    let found = context.match_types(tv("a"), Type::number()).unwrap();
    assert_eq!(found.get("a"), Some(&Type::number()));
    match context.match_types(Type::number(), tv("a")) {
        Err(TypeError::MatchingError(left, right)) => {
            assert_eq!(left, Type::number());
            assert_eq!(right, tv("a"));
        }
        other => panic!("expected a matching error, got {:?}", other),
    }
    let found = context
        .match_types(
            arrow(tv("a"), tv("b")),
            arrow(Type::number(), Type::string()),
        )
        .unwrap();
    assert_eq!(found.get("a"), Some(&Type::number()));
    assert_eq!(found.get("b"), Some(&Type::string()));
}

#[test]
fn match_refuses_two_types_for_one_variable() {
    let mut context = TypeContext::new();
    match context.match_types(
        arrow(tv("a"), tv("a")),
        arrow(Type::number(), Type::string()),
    ) {
        Err(TypeError::SubstitutionConflict(name, first, second)) => {
            assert_eq!(name, "a");
            assert_eq!(first, Type::number());
            assert_eq!(second, Type::string());
        }
        other => panic!("expected a conflict, got {:?}", other),
    }
}

#[test]
fn solver_stops_at_the_depth_limit() {
    let mut context = TypeContext::with_depth_limit(0);
    assert!(context.unify(tv("a"), tv("a")).unwrap().is_empty());
    assert!(context.unify(Type::NoKind, Type::number()).unwrap().is_empty());
    assert!(context.match_types(tv("a"), tv("a")).unwrap().is_empty());
    assert!(context.unify_many(vec![], vec![]).unwrap().is_empty());
    match context.unify(tv("a"), Type::number()) {
        Err(TypeError::LimitExceeded) => {}
        other => panic!("expected the limit to be exceeded, got {:?}", other),
    }
    match context.match_types(tv("a"), Type::number()) {
        Err(TypeError::LimitExceeded) => {}
        other => panic!("expected the limit to be exceeded, got {:?}", other),
    }
    match context.unify_many(vec![tv("a")], vec![tv("b")]) {
        Err(TypeError::LimitExceeded) => {}
        other => panic!("expected the limit to be exceeded, got {:?}", other),
    }
    match context.solve_constraints() {
        Err(TypeError::LimitExceeded) => {}
        other => panic!("expected the limit to be exceeded, got {:?}", other),
    }
    let mut context = TypeContext::with_depth_limit(2);
    assert!(context.unify(tv("a"), Type::number()).is_ok());
    assert!(context.unify(Type::number(), tv("a")).is_ok());
    match context.unify(arrow(tv("a"), tv("b")), arrow(tv("b"), tv("a"))) {
        Err(TypeError::LimitExceeded) => {}
        other => panic!("expected the limit to be exceeded, got {:?}", other),
    }
    let mut context = TypeContext::with_depth_limit(0);
    assert!(context.unify_within(tv("a"), Type::number(), 2).is_ok());
    assert!(context.match_within(tv("a"), Type::number(), 2).is_ok());
    assert!(context
        .bind_within("a".to_string(), None, Type::number(), 0)
        .is_ok());
    assert!(context
        .bind_within("a".to_string(), Some(Type::NoKind), Type::number(), 1)
        .is_ok());
    assert!(context.unify_many_within(vec![], vec![], 0).is_ok());
    match context.unify_within(tv("a"), Type::number(), 1) {
        Err(TypeError::LimitExceeded) => {}
        other => panic!("expected the limit to be exceeded, got {:?}", other),
    }
}

#[test]
fn constraints_are_solved_in_order() {
    let mut context = TypeContext::new();
    context.should_unify(&tv("a"), &tv("b"));
    context.should_unify(&tv("b"), &Type::number());
    context.should_match(&tv("c"), &arrow(tv("a"), tv("a")));
    assert!(context.has_constraints());
    let found = context.solve_constraints().unwrap();
    assert!(!context.has_constraints());
    assert_eq!(found.get("a"), Some(&Type::number()));
    assert_eq!(found.get("b"), Some(&Type::number()));
    assert_eq!(
        found.get("c"),
        Some(&arrow(Type::number(), Type::number()))
    );
}

#[test]
fn constraints_can_be_solved_from_a_given_substitution() {
    let mut context = TypeContext::new();
    let mut start = Substitution::new();
    start.insert("z".to_string(), tv("a"));
    let constraints = vec![TypeConstraint::Unify(tv("a"), Type::number())];
    let found = context
        .solve_constraints_with_subst(&constraints, start)
        .unwrap();
    assert_eq!(found.get("z"), Some(&Type::number()));
    assert_eq!(found.get("a"), Some(&Type::number()));
    assert_eq!(context.solve_constraints_within(1).unwrap().len(), 0);
}

#[test]
fn sync_appends_constraints_and_keeps_the_larger_counter() {
    let mut parent = TypeContext::new();
    parent.should_unify(&tv("a"), &tv("b"));
    let mut child = parent.create_closure("x".to_string(), Type::number());
    assert_eq!(child.lookup(&"x".to_string()), Some(Type::number()));
    assert_eq!(parent.lookup(&"x".to_string()), None);
    assert_eq!(parent.lookup(&"Type".to_string()), Some(Type::star()));
    child.get_id();
    child.get_id();
    child.should_match(&tv("c"), &tv("d"));
    parent.sync(child);
    assert_eq!(parent.pending_constraints().len(), 3);
    assert_eq!(parent.get_id(), 2);
    let taken = parent.take_constraints();
    assert_eq!(taken.len(), 3);
    assert!(!parent.has_constraints());
    parent.set_constraints(taken);
    assert!(parent.has_constraints());
    let isolated = parent.create_isolated();
    assert!(!isolated.has_constraints());
}

#[test]
fn infer_with_binds_the_name_for_the_body_only() {
    let mut context = TypeContext::new();
    let found = context
        .infer_with(
            "x".to_string(),
            Type::number(),
            Ast::Variable("x".to_string()),
        )
        .unwrap();
    assert_eq!(found, Type::number());
    assert_eq!(context.lookup(&"x".to_string()), None);
}

#[test]
fn with_substitution_rewrites_the_environment() {
    let mut context = TypeContext::new().create_closure("x".to_string(), tv("a"));
    let mut substitution = Substitution::new();
    substitution.insert("a".to_string(), Type::number());
    context.with_substitution(&substitution);
    assert_eq!(context.lookup(&"x".to_string()), Some(Type::number()));
    assert_eq!(context.kind_unkinded(tv("a")), tv("a"));
    assert!(context.can_make(10));
}

#[test]
fn the_trait_reaches_every_substitutable_value() {
    let mut substitution = Substitution::new();
    substitution.insert("a".to_string(), Type::number());
    assert_eq!(
        tv("a").apply_substitution(&substitution),
        Type::number()
    );
    assert_eq!(Substituable::free_variables(&arrow(tv("a"), tv("b"))).len(), 2);
    let list = vec![tv("a"), arrow(tv("b"), tv("a")), tv("c")];
    assert_eq!(list.free_variables().len(), 3);
    assert_eq!(
        list.apply_substitution(&substitution),
        vec![Type::number(), arrow(tv("b"), Type::number()), tv("c")]
    );
    let constraint = TypeConstraint::Match(tv("a"), tv("b"));
    assert_eq!(constraint.free_variables().len(), 2);
    match constraint.apply_substitution(&substitution) {
        TypeConstraint::Match(left, right) => {
            assert_eq!(left, Type::number());
            assert_eq!(right, tv("b"));
        }
        other => panic!("the constraint changed its kind: {:?}", other),
    }
    let mut inner = Substitution::new();
    inner.insert("x".to_string(), arrow(tv("a"), tv("b")));
    inner.insert("y".to_string(), tv("b"));
    assert_eq!(Substituable::free_variables(&inner).len(), 2);
    let applied = inner.apply_substitution(&substitution);
    assert_eq!(applied.get("x"), Some(&arrow(Type::number(), tv("b"))));
    let context = TypeContext::new()
        .create_closure("x".to_string(), tv("a"))
        .create_closure("x".to_string(), tv("b"))
        .create_closure("y".to_string(), arrow(tv("b"), tv("c")));
    let free = Substituable::free_variables(&context);
    assert_eq!(free.len(), 2);
    assert!(free.contains(&quantifier("b")));
    assert!(free.contains(&quantifier("c")));
    let context = TypeContext::new()
        .create_closure("x".to_string(), tv("a"))
        .apply_substitution(&substitution);
    assert_eq!(context.lookup(&"x".to_string()), Some(Type::number()));
}

fn curried(prefix: &str, parameters: usize) -> Type {
    let mut ty = tv(&format!("{}_result", prefix));
    for index in (0..parameters).rev() {
        ty = arrow(tv(&format!("{}{}", prefix, index)), ty);
    }
    ty
}

#[test]
fn long_function_types_unify_within_the_default_limit() {
    let mut context = TypeContext::new();
    let found = context.unify(curried("a", 100), curried("b", 100)).unwrap();
    assert_eq!(found.get("a0"), Some(&tv("b0")));
    assert_eq!(found.get("a99"), Some(&tv("b99")));
    assert_eq!(found.get("a_result"), Some(&tv("b_result")));
    assert_eq!(
        apply_type(curried("a", 100), &found),
        apply_type(curried("b", 100), &found)
    );
}

#[test]
fn a_limit_ends_a_search_that_goes_too_deep() {
    assert_eq!(TypeContext::new().depth_limit(), u32::MAX);
    let mut context = TypeContext::with_depth_limit(4096);
    match context.unify(curried("a", 1500), curried("b", 1500)) {
        Err(TypeError::LimitExceeded) => {}
        other => panic!("expected the limit to be exceeded, got {:?}", other.map(|s| s.len())),
    }
}
