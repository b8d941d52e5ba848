use typeinfer::context::TypeContext;
use typeinfer::env::TypeEnv;
use typeinfer::errors::TypeError;
use typeinfer::names::name_less;
use typeinfer::types::{Type, VarName};

fn tv(identifier: &str) -> Type {
    Type::from_string(identifier.to_string())
}

fn quantifier(identifier: &str) -> VarName {
    VarName {
        name: identifier.to_string(),
        kind: Box::new(Type::NoKind),
    }
}

fn arrow(from: Type, to: Type) -> Type {
    Type::create_lambda(from, to)
}

#[test]
fn star_is_a_constructor_without_a_kind() {
    assert_eq!(
        Type::star(),
        Type::Constructor(VarName {
            name: "*".to_string(),
            kind: Box::new(Type::NoKind),
        })
    );
}

#[test]
fn constants_have_kind_star() {
    assert_eq!(
        Type::number(),
        Type::Constructor(VarName {
            name: "Number".to_string(),
            kind: Box::new(Type::star()),
        })
    );
    assert_eq!(Type::string(), Type::constant("String"));
    assert_eq!(Type::boolean(), Type::constant("Boolean"));
    assert_ne!(Type::string(), Type::number());
}

#[test]
fn a_function_type_is_the_arrow_applied_twice() {
    let expected = Type::TApply(
        Box::new(Type::TApply(
            Box::new(Type::ArrowKind),
            Box::new(tv("a")),
        )),
        Box::new(tv("b")),
    );
    assert_eq!(arrow(tv("a"), tv("b")), expected);
    assert_eq!(Type::ArrowKind.apply(tv("a")).apply(tv("b")), expected);
    assert_eq!(
        Type::ArrowKind.app_chain(vec![tv("a"), tv("b")]),
        expected
    );
}

#[test]
fn app_chain_applies_from_left_to_right() {
    let list = Type::constant("Map");
    assert_eq!(list.clone().app_chain(vec![]), list);
    assert_eq!(
        list.clone().app_chain(vec![tv("k"), tv("v"), tv("w")]),
        list.apply(tv("k")).apply(tv("v")).apply(tv("w"))
    );
}

#[test]
fn unwrap_function_sees_exactly_the_arrow_shape() {
    assert_eq!(
        arrow(tv("a"), tv("b")).unwrap_function(),
        Some((tv("a"), tv("b")))
    );
    assert_eq!(Type::ArrowKind.apply(tv("a")).unwrap_function(), None);
    assert_eq!(
        Type::constant("Pair")
            .apply(tv("a"))
            .apply(tv("b"))
            .unwrap_function(),
        None
    );
    assert_eq!(tv("a").unwrap_function(), None);
    assert_eq!(
        arrow(tv("a"), tv("b"))
            .to_scheme(vec![])
            .unwrap_function(),
        None
    );
}

#[test]
fn is_scheme_tells_schemes_from_other_types() {
    assert!(tv("a").to_scheme(vec![]).is_scheme());
    assert!(tv("a").to_scheme(vec![quantifier("a")]).is_scheme());
    assert!(!tv("a").is_scheme());
    assert!(!Type::NoKind.is_scheme());
}

#[test]
fn equality_is_structural() {
    let plain = tv("a");
    let kinded = Type::Variable(VarName {
        name: "a".to_string(),
        kind: Box::new(Type::star()),
    });
    assert_ne!(plain, kinded);
    assert_eq!(plain.clone(), plain);
    assert_ne!(
        tv("a").to_scheme(vec![quantifier("a"), quantifier("b")]),
        tv("a").to_scheme(vec![quantifier("b"), quantifier("a")])
    );
    assert_ne!(
        tv("a").to_scheme(vec![quantifier("a")]),
        tv("a").to_scheme(vec![quantifier("a"), quantifier("a")])
    );
    assert_ne!(Type::NoKind, Type::ArrowKind);
    assert_ne!(
        Type::Constructor(quantifier("a")),
        Type::Variable(quantifier("a"))
    );
}

#[test]
fn generalize_leaves_out_the_variables_of_the_environment() {
    let ty = arrow(tv("c"), arrow(tv("b"), arrow(tv("a"), tv("c"))));
    let closed = TypeContext::new().create_closure("b".to_string(), Type::number());
    assert_eq!(
        ty.generalize(&closed),
        ty.to_scheme(vec![quantifier("c"), quantifier("b"), quantifier("a")])
    );
    let holding = TypeContext::new()
        .create_closure("x".to_string(), arrow(tv("b"), Type::number()))
        .create_closure(
            "y".to_string(),
            arrow(tv("a"), tv("q")).to_scheme(vec![quantifier("a")]),
        );
    assert_eq!(
        ty.generalize(&holding),
        ty.to_scheme(vec![quantifier("c"), quantifier("a")])
    );
    let kinded = Type::Variable(VarName {
        name: "c".to_string(),
        kind: Box::new(Type::star()),
    });
    let by_name = TypeContext::new().create_closure("z".to_string(), kinded);
    assert_eq!(
        ty.generalize(&by_name),
        ty.to_scheme(vec![quantifier("b"), quantifier("a")])
    );
    assert_eq!(
        tv("Type").generalize(&TypeContext::new()),
        tv("Type").to_scheme(vec![quantifier("Type")])
    );
}

#[test]
fn names_are_ordered_by_their_characters() {
    let less = |a: &str, b: &str| name_less(&a.to_string(), &b.to_string());
    assert!(less("", "a"));
    assert!(!less("a", ""));
    assert!(!less("a", "a"));
    assert!(less("a", "b"));
    assert!(less("ab", "b"));
    assert!(less("be", "beta"));
    assert!(!less("beta", "be"));
    assert!(less("t10", "t9"));
    assert!(less("z", "\u{e9}"));
}

#[test]
fn environment_keeps_the_last_binding_of_a_name() {
    let mut environment = TypeEnv::new();
    assert!(!environment.contains_key(&"x".to_string()));
    environment.insert("x".to_string(), Type::number());
    environment.insert("y".to_string(), Type::string());
    environment.insert("x".to_string(), Type::boolean());
    assert_eq!(environment.get(&"x".to_string()), Some(&Type::boolean()));
    assert_eq!(environment.get(&"y".to_string()), Some(&Type::string()));
    assert_eq!(environment.get(&"z".to_string()), None);
    let copy = environment.clone();
    assert_eq!(copy.get(&"x".to_string()), Some(&Type::boolean()));
}

#[test]
fn types_are_rendered_as_text() {
    assert_eq!(tv("a").render(), "a");
    assert_eq!(Type::NoKind.render(), "[no kind]");
    assert_eq!(Type::ArrowKind.render(), "kind(->)");
    assert_eq!(Type::number().render(), "Number");
    assert_eq!(arrow(tv("a"), tv("b")).render(), "a -> b");
    assert_eq!(
        arrow(arrow(tv("a"), tv("b")), arrow(tv("a"), tv("b"))).render(),
        "(a -> b) -> a -> b"
    );
    assert_eq!(
        Type::constant("Pair")
            .apply(tv("a"))
            .apply(Type::constant("List").apply(tv("b")))
            .render(),
        "Pair a (List b)"
    );
    assert_eq!(Type::ArrowKind.apply(tv("a")).render(), "kind(->) a");
    assert_eq!(tv("a").to_scheme(vec![]).render(), "a");
    assert_eq!(
        arrow(tv("a"), tv("b"))
            .to_scheme(vec![
                quantifier("a"),
                VarName {
                    name: "b".to_string(),
                    kind: Box::new(Type::star()),
                },
            ])
            .render(),
        "forall a (b :: *). a -> b"
    );
    assert_eq!(quantifier("x").render(), "x");
}

#[test]
fn errors_are_rendered_as_text() {
    assert_eq!(
        TypeError::UnificationError(Type::number(), Type::string()).render(),
        "Cannot unify type\n    Number\nwith type\n    String"
    );
    assert_eq!(
        TypeError::MatchingError(Type::number(), tv("a")).render(),
        "Cannot match type\n    Number\nwith type\n    a"
    );
    assert_eq!(
        TypeError::SubstitutionConflict("a".to_string(), Type::number(), Type::string()).render(),
        "Conflicting substitutions: \n    a = Number\nand\n    a = String"
    );
    assert_eq!(
        TypeError::NotInScope("x".to_string()).render(),
        "Variable x is not in scope"
    );
    assert_eq!(
        TypeError::RecursiveType("t0".to_string(), arrow(tv("t0"), tv("t1"))).render(),
        "Type \n    t0 = t0 -> t1\ncontains references to itself"
    );
    let many: Vec<Type> = (0..12).map(|_| Type::number()).collect();
    let rendered = TypeError::DifferentLengths(many, vec![tv("a"), tv("b")]).render();
    assert!(rendered.starts_with("Cannot match length 12 with 2 while trying to unify types\n    [Number, Number, "));
    assert!(rendered.ends_with("]\nwith\n    [a, b]"));
    assert_eq!(
        TypeError::DifferentLengths(vec![], vec![tv("a")]).render(),
        "Cannot match length 0 with 1 while trying to unify types\n    []\nwith\n    [a]"
    );
    assert_eq!(
        TypeError::LimitExceeded.render(),
        "The limits of the inference context were exceeded"
    );
}
