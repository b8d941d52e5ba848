use typeinfer::collections::Substitution;
use typeinfer::errors::{TypeConstraint, TypeError};
use typeinfer::substitution::{
    apply_constraint, apply_constraints, apply_substitution_map, apply_type, apply_types,
    merge_substitutions, safe_merge_substitution,
};
use typeinfer::types::{Type, VarName};
use typeinfer::vars::{free_variable_list, free_variables};

fn tv(identifier: &str) -> Type {
    Type::from_string(identifier.to_string())
}

fn quantifier(identifier: &str) -> VarName {
    VarName {
        name: identifier.to_string(),
        kind: Box::new(Type::NoKind),
    }
}

fn arrow(from: Type, to: Type) -> Type {
    Type::create_lambda(from, to)
}

fn substitution(entries: &[(&str, Type)]) -> Substitution {
    let mut map = Substitution::new();
    for (key, value) in entries {
        map.insert(key.to_string(), value.clone());
    }
    map
}

fn corpus() -> Vec<Type> {
    vec![
        tv("a"),
        tv("b"),
        tv("c"),
        Type::number(),
        Type::NoKind,
        Type::ArrowKind,
        arrow(tv("a"), tv("b")),
        arrow(arrow(tv("c"), tv("a")), Type::string()),
        tv("a").to_scheme(vec![quantifier("a")]),
        Type::constant("List").apply(tv("b")),
    ]
}

#[test]
fn apply_replaces_bound_variables_only() {
    let s = substitution(&[("a", Type::number())]);
    assert_eq!(apply_type(tv("a"), &s), Type::number());
    assert_eq!(apply_type(tv("b"), &s), tv("b"));
    assert_eq!(
        apply_type(arrow(tv("a"), tv("b")), &s),
        arrow(Type::number(), tv("b"))
    );
}

#[test]
fn apply_keeps_the_kind_of_a_variable_and_the_inside_of_a_scheme() {
    let s = substitution(&[("a", Type::number()), ("k", Type::string())]);
    let kinded = Type::Variable(VarName {
        name: "x".to_string(),
        kind: Box::new(tv("k")),
    });
    assert_eq!(apply_type(kinded.clone(), &s), kinded);
    let closed = arrow(tv("a"), tv("a")).to_scheme(vec![quantifier("b")]);
    assert_eq!(apply_type(closed.clone(), &s), closed);
    let constructor = Type::Constructor(VarName {
        name: "a".to_string(),
        kind: Box::new(tv("a")),
    });
    assert_eq!(apply_type(constructor.clone(), &s), constructor);
}

#[test]
fn apply_to_a_list_and_to_constraints() {
    let s = substitution(&[("a", Type::number())]);
    assert_eq!(
        apply_types(vec![tv("a"), tv("b")], &s),
        vec![Type::number(), tv("b")]
    );
    match apply_constraint(TypeConstraint::Unify(tv("a"), tv("b")), &s) {
        TypeConstraint::Unify(left, right) => {
            assert_eq!(left, Type::number());
            assert_eq!(right, tv("b"));
        }
        other => panic!("the constraint changed its kind: {:?}", other),
    }
    let applied = apply_constraints(
        vec![
            TypeConstraint::Match(tv("b"), tv("a")),
            TypeConstraint::Unify(tv("a"), tv("a")),
        ],
        &s,
    );
    assert_eq!(applied.len(), 2);
    match &applied[0] {
        TypeConstraint::Match(left, right) => {
            assert_eq!(*left, tv("b"));
            assert_eq!(*right, Type::number());
        }
        other => panic!("the constraint changed its kind: {:?}", other),
    }
}

#[test]
fn apply_to_a_substitution_rewrites_its_values() {
    let inner = substitution(&[("x", tv("a")), ("y", Type::string())]);
    let s = substitution(&[("a", Type::number())]);
    let applied = apply_substitution_map(inner, &s);
    assert_eq!(applied.len(), 2);
    assert_eq!(applied.get("x"), Some(&Type::number()));
    assert_eq!(applied.get("y"), Some(&Type::string()));
}

#[test]
fn applying_a_settled_substitution_twice_is_applying_it_once() {
    let s = substitution(&[("a", Type::number()), ("b", arrow(tv("c"), tv("c")))]);
    for ty in corpus() {
        let once = apply_type(ty.clone(), &s);
        let twice = apply_type(once.clone(), &s);
        assert_eq!(once, twice);
    }
}

#[test]
fn applying_an_unsettled_substitution_twice_goes_on() {
    let s = substitution(&[("a", tv("b")), ("b", tv("c"))]);
    let once = apply_type(tv("a"), &s);
    let twice = apply_type(once.clone(), &s);
    assert_eq!(once, tv("b"));
    assert_eq!(twice, tv("c"));
}

#[test]
fn merge_applies_the_first_to_the_second_and_keeps_the_first_on_conflict() {
    let later = substitution(&[("b", Type::number()), ("c", Type::string())]);
    let earlier = substitution(&[("a", arrow(tv("b"), tv("b"))), ("c", Type::boolean())]);
    let merged = merge_substitutions(later, earlier);
    assert_eq!(merged.len(), 3);
    assert_eq!(
        merged.get("a"),
        Some(&arrow(Type::number(), Type::number()))
    );
    assert_eq!(merged.get("b"), Some(&Type::number()));
    assert_eq!(merged.get("c"), Some(&Type::string()));
}

#[test]
fn merge_keeps_the_first_on_conflict_whatever_the_sizes() {
    let small = substitution(&[("a", Type::number())]);
    let large = substitution(&[
        ("a", Type::string()),
        ("b", Type::string()),
        ("c", Type::string()),
    ]);
    let merged = merge_substitutions(small.clone(), large.clone());
    assert_eq!(merged.get("a"), Some(&Type::number()));
    let merged = merge_substitutions(large, small);
    assert_eq!(merged.get("a"), Some(&Type::string()));
}

#[test]
fn composition_is_associative_where_the_substitutions_agree() {
    let first = substitution(&[("a", arrow(tv("b"), tv("c")))]);
    let second = substitution(&[("b", tv("c"))]);
    let third = substitution(&[("c", Type::number())]);
    let left = merge_substitutions(
        third.clone(),
        merge_substitutions(second.clone(), first.clone()),
    );
    let right = merge_substitutions(merge_substitutions(third, second), first);
    for ty in corpus() {
        assert_eq!(apply_type(ty.clone(), &left), apply_type(ty, &right));
    }
}

#[test]
fn composition_is_not_associative_where_they_disagree() {
    let first = substitution(&[("a", tv("u"))]);
    let second = substitution(&[("u", Type::number())]);
    let third = substitution(&[("u", Type::string())]);
    let left = merge_substitutions(
        third.clone(),
        merge_substitutions(second.clone(), first.clone()),
    );
    let right = merge_substitutions(merge_substitutions(third, second), first);
    assert_eq!(apply_type(tv("a"), &left), Type::number());
    assert_eq!(apply_type(tv("a"), &right), Type::string());
}

#[test]
fn safe_merge_joins_substitutions_that_agree() {
    let left = substitution(&[("a", Type::number()), ("b", Type::string())]);
    let right = substitution(&[("b", Type::string()), ("c", Type::boolean())]);
    let joined = safe_merge_substitution(left, right).unwrap();
    assert_eq!(joined.len(), 3);
    assert_eq!(joined.get("a"), Some(&Type::number()));
    assert_eq!(joined.get("b"), Some(&Type::string()));
    assert_eq!(joined.get("c"), Some(&Type::boolean()));
}

#[test]
fn safe_merge_reports_the_first_conflict_by_name() {
    let left = substitution(&[
        ("zeta", Type::number()),
        ("beta", Type::number()),
        ("alpha", Type::number()),
        ("be", Type::number()),
    ]);
    let right = substitution(&[
        ("zeta", Type::string()),
        ("beta", Type::string()),
        ("alpha", Type::number()),
        ("be", Type::boolean()),
    ]);
    match safe_merge_substitution(left, right) {
        Err(TypeError::SubstitutionConflict(key, first, second)) => {
            assert_eq!(key, "be");
            assert_eq!(first, Type::number());
            assert_eq!(second, Type::boolean());
        }
        other => panic!("expected a conflict, got {:?}", other),
    }
}

#[test]
fn free_variables_of_a_scheme_are_those_of_the_body_without_the_quantifiers() {
    let body = arrow(tv("a"), arrow(tv("b"), tv("c")));
    let closed = body.to_scheme(vec![quantifier("b")]);
    let of_body = free_variables(&body);
    let of_scheme = free_variables(&closed);
    assert_eq!(of_body.len(), 3);
    assert_eq!(of_scheme.len(), 2);
    assert!(of_scheme.contains(&quantifier("a")));
    assert!(of_scheme.contains(&quantifier("c")));
    assert!(!of_scheme.contains(&quantifier("b")));
    for variable in of_body.iter() {
        assert_eq!(
            of_scheme.contains(variable),
            variable.name != "b",
        );
    }
}

#[test]
fn a_quantifier_shadows_by_name_whatever_its_kind() {
    let kinded = Type::Variable(VarName {
        name: "a".to_string(),
        kind: Box::new(Type::star()),
    });
    let closed = arrow(kinded, tv("b")).to_scheme(vec![quantifier("a")]);
    let found = free_variables(&closed);
    assert_eq!(found.len(), 1);
    assert!(found.contains(&quantifier("b")));
}

#[test]
fn free_variables_skip_constructors_and_kinds() {
    let ty = Type::Constructor(VarName {
        name: "C".to_string(),
        kind: Box::new(tv("k")),
    })
    .apply(Type::NoKind)
    .apply(Type::ArrowKind);
    assert!(free_variables(&ty).is_empty());
    assert!(free_variable_list(&ty).is_empty());
}

#[test]
fn free_variable_list_is_in_order_of_first_occurrence() {
    let ty = arrow(arrow(tv("c"), tv("a")), arrow(tv("c"), arrow(tv("b"), tv("a"))));
    assert_eq!(
        free_variable_list(&ty),
        vec![quantifier("c"), quantifier("a"), quantifier("b")]
    );
    let found = free_variables(&ty);
    assert_eq!(found.len(), 3);
}

#[test]
fn variables_of_one_name_and_two_kinds_are_two_variables() {
    let plain = tv("a");
    let kinded = Type::Variable(VarName {
        name: "a".to_string(),
        kind: Box::new(Type::star()),
    });
    let ty = arrow(plain, kinded);
    assert_eq!(free_variables(&ty).len(), 2);
    assert_eq!(free_variable_list(&ty).len(), 2);
}

#[test]
fn is_recursive_looks_for_the_name_among_the_free_variables() {
    let ty = arrow(tv("a"), tv("b"));
    assert!(ty.is_recursive(&"a".to_string()));
    assert!(ty.is_recursive(&"b".to_string()));
    assert!(!ty.is_recursive(&"c".to_string()));
    let closed = ty.to_scheme(vec![quantifier("a")]);
    assert!(!closed.is_recursive(&"a".to_string()));
    assert!(closed.is_recursive(&"b".to_string()));
}
