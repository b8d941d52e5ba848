use typeinfer::ast::Ast;
use typeinfer::context::TypeContext;
use typeinfer::errors::{TypeConstraint, TypeError};
use typeinfer::infer::{get_type_of, get_type_of_within};
use typeinfer::substitution::apply_type;
use typeinfer::types::{Type, VarName};

fn num(value: f64) -> Ast {
    Ast::FloatLiteral(value.to_bits())
}

fn text(value: &str) -> Ast {
    Ast::StringLiteral(value.to_string())
}

fn name(value: &str) -> Ast {
    Ast::Variable(value.to_string())
}

fn lam(parameter: &str, body: Ast) -> Ast {
    Ast::Lambda(parameter.to_string(), Box::new(body))
}

fn call(function: Ast, argument: Ast) -> Ast {
    Ast::FunctionCall(Box::new(function), Box::new(argument))
}

fn bind(identifier: &str, value: Ast, body: Ast) -> Ast {
    Ast::Let(identifier.to_string(), Box::new(value), Box::new(body))
}

fn when(condition: Ast, first: Ast, second: Ast) -> Ast {
    Ast::If(Box::new(condition), Box::new(first), Box::new(second))
}

fn annotated(expression: Ast, annotation: Type) -> Ast {
    Ast::Annotation(Box::new(expression), annotation)
}

fn tv(identifier: &str) -> Type {
    Type::from_string(identifier.to_string())
}

fn quantifier(identifier: &str) -> VarName {
    VarName {
        name: identifier.to_string(),
        kind: Box::new(Type::NoKind),
    }
}

fn arrow(from: Type, to: Type) -> Type {
    Type::create_lambda(from, to)
}

fn scheme(names: &[&str], body: Type) -> Type {
    body.to_scheme(names.iter().map(|n| quantifier(n)).collect())
}

fn infer_closed(expression: Ast) -> Type {
    get_type_of(expression)
        .expect("the expression has a type")
        .canonical()
}

#[test]
fn number_literal_is_a_number() {
    assert_eq!(get_type_of(num(42.0)).unwrap(), scheme(&[], Type::number()));
}

#[test]
fn string_literal_is_a_string() {
    assert_eq!(get_type_of(text("hi")).unwrap(), scheme(&[], Type::string()));
}

#[test]
fn identity_is_polymorphic() {
    let found = get_type_of(lam("x", name("x"))).unwrap();
    assert_eq!(found, scheme(&["t0"], arrow(tv("t0"), tv("t0"))));
    match found {
        Type::Scheme { variables, ty } => {
            assert_eq!(variables.len(), 1);
            let (from, to) = ty.unwrap_function().unwrap();
            assert_eq!(from, to);
            assert_eq!(from, Type::Variable(variables[0].clone()));
        }
        other => panic!("not a scheme: {:?}", other),
    }
}

#[test]
fn application_of_a_parameter() {
    let found = infer_closed(lam("f", lam("x", call(name("f"), name("x")))));
    let expected = scheme(
        &["a0", "a1"],
        arrow(arrow(tv("a0"), tv("a1")), arrow(tv("a0"), tv("a1"))),
    );
    assert_eq!(found, expected);
}

#[test]
fn let_bound_identity() {
    let found = infer_closed(bind("id", lam("x", name("x")), name("id")));
    assert_eq!(found, scheme(&["a0"], arrow(tv("a0"), tv("a0"))));
}

#[test]
fn let_generalizes_each_use() {
    let found = infer_closed(bind(
        "id",
        lam("x", name("x")),
        call(name("id"), name("id")),
    ));
    assert_eq!(found, scheme(&["a0"], arrow(tv("a0"), tv("a0"))));
}

#[test]
fn let_bound_value_is_used_at_two_types() {
    let expression = bind(
        "id",
        lam("x", name("x")),
        call(
            lam("a", call(name("id"), text("a"))),
            call(name("id"), num(1.0)),
        ),
    );
    assert_eq!(get_type_of(expression).unwrap(), scheme(&[], Type::string()));
}

#[test]
fn lambda_parameter_is_monomorphic() {
    let expression = lam(
        "f",
        call(
            lam("a", call(name("f"), text("a"))),
            call(name("f"), num(1.0)),
        ),
    );
    match get_type_of(expression) {
        Err(TypeError::UnificationError(_, _)) => {}
        other => panic!("expected a unification error, got {:?}", other),
    }
}

#[test]
fn condition_is_forced_to_boolean() {
    let found = get_type_of(lam("x", when(name("x"), num(1.0), num(2.0)))).unwrap();
    assert_eq!(found, scheme(&[], arrow(Type::boolean(), Type::number())));
}

#[test]
fn conditional_with_known_condition() {
    let mut context = TypeContext::new().create_closure("true".to_string(), Type::boolean());
    let inferred = context
        .infer(when(name("true"), num(1.0), num(2.0)))
        .unwrap();
    let substitution = context.solve_constraints().unwrap();
    let found = apply_type(inferred, &substitution).generalize(&context);
    assert_eq!(found, scheme(&[], Type::number()));
}

#[test]
fn branches_must_agree() {
    let mut context = TypeContext::new().create_closure("true".to_string(), Type::boolean());
    context
        .infer(when(name("true"), num(1.0), text("a")))
        .unwrap();
    match context.solve_constraints() {
        Err(TypeError::UnificationError(left, right)) => {
            assert_eq!(left, Type::number());
            assert_eq!(right, Type::string());
        }
        other => panic!("expected a unification error, got {:?}", other),
    }
}

#[test]
fn annotation_with_a_scheme_is_accepted() {
    let annotation = scheme(&["a"], arrow(tv("a"), tv("a")));
    let found = infer_closed(annotated(lam("x", name("x")), annotation));
    assert_eq!(found, scheme(&["a0"], arrow(tv("a0"), tv("a0"))));
}

#[test]
fn annotation_with_an_instance_is_accepted() {
    let annotation = arrow(Type::number(), Type::number());
    let found = get_type_of(annotated(lam("x", name("x")), annotation)).unwrap();
    assert_eq!(found, scheme(&[], arrow(Type::number(), Type::number())));
}

#[test]
fn annotation_more_general_than_the_type_is_refused() {
    let mut context = TypeContext::new().create_closure(
        "inc".to_string(),
        arrow(Type::number(), Type::number()),
    );
    let annotation = scheme(&["a"], arrow(tv("a"), tv("a")));
    context
        .infer(annotated(
            lam("x", call(name("inc"), name("x"))),
            annotation,
        ))
        .unwrap();
    match context.solve_constraints() {
        Err(TypeError::MatchingError(_, _)) => {}
        other => panic!("expected a matching error, got {:?}", other),
    }
}

#[test]
fn self_application_is_an_infinite_type() {
    match get_type_of(lam("x", call(name("x"), name("x")))) {
        Err(TypeError::RecursiveType(variable, _)) => assert_eq!(variable, "t0"),
        other => panic!("expected a recursive type, got {:?}", other),
    }
}

#[test]
fn free_identifier_is_not_in_scope() {
    match get_type_of(name("nowhere")) {
        Err(TypeError::NotInScope(identifier)) => assert_eq!(identifier, "nowhere"),
        other => panic!("expected an identifier out of scope, got {:?}", other),
    }
}

#[test]
fn renaming_bound_identifiers_keeps_the_type() {
    let first = infer_closed(bind(
        "id",
        lam("x", name("x")),
        lam("f", lam("y", call(name("f"), call(name("id"), name("y"))))),
    ));
    let second = infer_closed(bind(
        "same",
        lam("p", name("p")),
        lam("g", lam("q", call(name("g"), call(name("same"), name("q"))))),
    ));
    assert_eq!(first, second);
}

#[test]
fn an_identifier_spelled_like_a_fresh_variable_changes_nothing() {
    let program = |parameter: &str| {
        lam(
            parameter,
            bind(
                "y",
                lam("x", name("x")),
                call(
                    lam("a", call(name("y"), text("s"))),
                    call(name("y"), num(1.0)),
                ),
            ),
        )
    };
    let expected = scheme(&["a0"], arrow(tv("a0"), Type::string()));
    assert_eq!(infer_closed(program("z")), expected);
    assert_eq!(infer_closed(program("t0")), expected);
    assert_eq!(infer_closed(program("t1")), expected);
    assert_eq!(
        get_type_of(program("z")).unwrap(),
        get_type_of(program("t1")).unwrap()
    );
}

#[test]
fn a_binding_of_a_parameter_has_the_type_of_the_parameter() {
    let program = |parameter: &str| {
        lam(
            parameter,
            bind("y", name(parameter), name("y")),
        )
    };
    let found = get_type_of(program("x")).unwrap();
    assert_eq!(found, scheme(&["t0"], arrow(tv("t0"), tv("t0"))));
    assert_eq!(get_type_of(program("t0")).unwrap(), found);
    assert_eq!(get_type_of(program("t1")).unwrap(), found);
    let mut context = TypeContext::new();
    let inferred = context.infer(program("x")).unwrap();
    let (from, to) = inferred.unwrap_function().unwrap();
    assert_eq!(from, to);
}

#[test]
fn renaming_a_free_identifier_renames_the_error() {
    match get_type_of(lam("x", name("y"))) {
        Err(TypeError::NotInScope(identifier)) => assert_eq!(identifier, "y"),
        other => panic!("expected an identifier out of scope, got {:?}", other),
    }
    match get_type_of(lam("u", name("v"))) {
        Err(TypeError::NotInScope(identifier)) => assert_eq!(identifier, "v"),
        other => panic!("expected an identifier out of scope, got {:?}", other),
    }
}

#[test]
fn shadowing_hides_the_outer_binding() {
    let found = infer_closed(lam("x", lam("x", name("x"))));
    assert_eq!(
        found,
        scheme(&["a0", "a1"], arrow(tv("a0"), arrow(tv("a1"), tv("a1"))))
    );
}

#[test]
fn let_does_not_bind_its_name_in_the_value() {
    match get_type_of(bind("f", name("f"), name("f"))) {
        Err(TypeError::NotInScope(identifier)) => assert_eq!(identifier, "f"),
        other => panic!("expected an identifier out of scope, got {:?}", other),
    }
}

#[test]
fn let_keeps_the_variables_of_the_environment_monomorphic() {
    let expression = lam(
        "x",
        bind(
            "y",
            name("x"),
            call(lam("a", call(name("y"), text("s"))), call(name("y"), num(1.0))),
        ),
    );
    match get_type_of(expression) {
        Err(TypeError::UnificationError(_, _)) => {}
        other => panic!("expected a unification error, got {:?}", other),
    }
}

#[test]
fn let_closes_over_what_the_environment_does_not_hold() {
    let found = infer_closed(lam(
        "x",
        bind(
            "pair",
            lam("a", lam("b", name("x"))),
            call(call(name("pair"), num(1.0)), call(call(name("pair"), text("s")), num(2.0))),
        ),
    ));
    assert_eq!(found, scheme(&["a0"], arrow(tv("a0"), tv("a0"))));
}

#[test]
fn the_type_kind_is_in_scope_from_the_start() {
    assert_eq!(get_type_of(name("Type")).unwrap(), scheme(&[], Type::star()));
}

#[test]
fn a_greater_limit_gives_the_same_type() {
    let program = || lam("f", lam("x", call(name("f"), name("x"))));
    match get_type_of_within(program(), 1) {
        Err(TypeError::LimitExceeded) => {}
        other => panic!("expected the limit to be exceeded, got {:?}", other),
    }
    let small = get_type_of_within(program(), 64).unwrap();
    let large = get_type_of_within(program(), 100_000).unwrap();
    assert_eq!(small, large);
    assert_eq!(small, get_type_of(program()).unwrap());
}

#[test]
fn the_solution_makes_the_sides_of_each_constraint_the_same() {
    let mut context = TypeContext::new();
    let inferred = context
        .infer(lam(
            "f",
            lam(
                "x",
                when(call(name("f"), name("x")), name("x"), num(1.0)),
            ),
        ))
        .unwrap();
    let collected = context.pending_constraints();
    assert_eq!(collected.len() > 0, true);
    let solution = context.solve_constraints().unwrap();
    for constraint in collected {
        match constraint {
            TypeConstraint::Unify(left, right) => {
                assert_eq!(apply_type(left, &solution), apply_type(right, &solution));
            }
            other => panic!("expected a unification, got {:?}", other),
        }
    }
    assert_eq!(
        apply_type(inferred, &solution),
        arrow(
            arrow(Type::number(), Type::boolean()),
            arrow(Type::number(), Type::number())
        )
    );
}

#[test]
fn canonical_renames_quantifiers_from_left_to_right() {
    let kinded = VarName {
        name: "t7".to_string(),
        kind: Box::new(Type::star()),
    };
    let found = arrow(tv("t3"), arrow(Type::Variable(kinded.clone()), tv("free")))
        .to_scheme(vec![quantifier("t3"), kinded])
        .canonical();
    let expected = arrow(
        tv("a0"),
        arrow(
            Type::Variable(VarName {
                name: "a1".to_string(),
                kind: Box::new(Type::star()),
            }),
            tv("free"),
        ),
    )
    .to_scheme(vec![
        quantifier("a0"),
        VarName {
            name: "a1".to_string(),
            kind: Box::new(Type::star()),
        },
    ]);
    assert_eq!(found, expected);
    assert_eq!(tv("t3").canonical(), tv("t3"));
    let long = tv("z").to_scheme((0..12).map(|_| quantifier("z")).collect());
    match long.canonical() {
        Type::Scheme { variables, ty } => {
            assert_eq!(variables[11].name, "a11");
            assert_eq!(*ty, tv("a11"));
        }
        other => panic!("not a scheme: {:?}", other),
    }
}
