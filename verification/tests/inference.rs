use typesystems::{
    close, generalize, genarrow, infer, instantiate, unify, Env, Error, Gen, Term, Type,
};

fn var(name: &str) -> Term {
    Term::Var(name.to_owned())
}

fn abs(params: &[&str], body: Term) -> Term {
    Term::Abs(params.iter().map(|p| (*p).to_owned()).collect(), Box::new(body))
}

fn app(f: Term, args: Vec<Term>) -> Term {
    Term::App(Box::new(f), args)
}

fn let_in(name: &str, bound: Term, body: Term) -> Term {
    Term::Let(name.to_owned(), Box::new(bound), Box::new(body))
}

fn arrow(params: Vec<Type>, ret: Type) -> Type {
    Type::Arrow(params, Box::new(ret))
}

fn constant(name: &str) -> Type {
    Type::Const(name.to_owned())
}

fn check(term: &Term) -> Result<Type, Error> {
    infer(term, &Env::new(), &Gen::new())
}

#[test]
fn identity_is_generic() {
    let t = check(&abs(&["x"], var("x")));
    assert_eq!(t, Ok(arrow(vec![Type::Generic(1)], Type::Generic(1))));
}

#[test]
fn identity_applied_to_itself() {
    // let id = \x -> x in id(id)
    let term = let_in("id", abs(&["x"], var("x")), app(var("id"), vec![var("id")]));
    let t = check(&term);
    assert_eq!(t, Ok(arrow(vec![Type::Generic(3)], Type::Generic(3))));
}

#[test]
fn self_application_fails() {
    // \x -> x(x)
    let term = abs(&["x"], app(var("x"), vec![var("x")]));
    assert_eq!(check(&term), Err(Error::InfiniteType(2)));
}

#[test]
fn unbound_function_gets_an_arrow() {
    // \f a b -> f(a, b)
    let term = abs(&["f", "a", "b"], app(var("f"), vec![var("a"), var("b")]));
    assert_eq!(
        check(&term),
        Ok(arrow(
            vec![
                arrow(vec![Type::Generic(2), Type::Generic(3)], Type::Generic(6)),
                Type::Generic(2),
                Type::Generic(3),
            ],
            Type::Generic(6)
        ))
    );
}

#[test]
fn later_use_must_agree_with_arity() {
    // \f a b -> let x = f(a, b) in f(a)
    let term = abs(
        &["f", "a", "b"],
        let_in(
            "x",
            app(var("f"), vec![var("a"), var("b")]),
            app(var("f"), vec![var("a")]),
        ),
    );
    assert_eq!(check(&term), Err(Error::ArityMismatch(2, 1)));
}

#[test]
fn genarrow_binds_the_variable() {
    let mut env: Env<Type> = Env::new();
    let mut gen: Gen<Type> = Gen::new();
    let f: Type = gen.newvar(Some(0));
    assert_eq!(f, Type::TypeVar(1, 0));
    let shape = genarrow(f.clone(), 2, &mut env, &mut gen);
    assert_eq!(
        shape,
        Ok((vec![Type::TypeVar(2, 0), Type::TypeVar(3, 0)], Type::TypeVar(4, 0)))
    );
    assert_eq!(
        env.lookup_binding(1, 0),
        Some(&arrow(vec![Type::TypeVar(2, 0), Type::TypeVar(3, 0)], Type::TypeVar(4, 0)))
    );
    assert_eq!(genarrow(f.clone(), 3, &mut env, &mut gen), Err(Error::ArityMismatch(2, 3)));
    assert_eq!(
        genarrow(f, 2, &mut env, &mut gen),
        Ok((vec![Type::TypeVar(2, 0), Type::TypeVar(3, 0)], Type::TypeVar(4, 0)))
    );
    assert_eq!(
        genarrow(constant("int"), 1, &mut env, &mut gen),
        Err(Error::NotAFunction(constant("int")))
    );
}

#[test]
fn undefined_name() {
    assert_eq!(
        check(&var("undefined_name")),
        Err(Error::UndefinedVariable("undefined_name".to_owned()))
    );
}

#[test]
fn duplicate_parameter() {
    let term = abs(&["x", "x"], var("x"));
    assert_eq!(check(&term), Err(Error::ConflictingParameterNames(term.clone())));
}

#[test]
fn unify_binds_and_follows() {
    let mut env: Env<Type> = Env::new();
    let a = Type::TypeVar(1, 0);
    let b = Type::TypeVar(2, 0);
    assert_eq!(unify(&a, &b, &mut env), Ok(b.clone()));
    assert_eq!(env.lookup_binding(1, 0), Some(&b));
    assert_eq!(unify(&a, &constant("int"), &mut env), Ok(constant("int")));
    assert_eq!(env.lookup_binding(2, 0), Some(&constant("int")));
    assert_eq!(env.lookup_binding(1, 0), Some(&constant("int")));
    assert_eq!(
        unify(&a, &constant("bool"), &mut env),
        Err(Error::UnificationFailure(constant("int"), constant("bool")))
    );
}

#[test]
fn unify_lowers_levels() {
    let mut env: Env<Type> = Env::new();
    let outer = Type::TypeVar(1, 0);
    let inner = arrow(vec![Type::TypeVar(2, 3)], constant("int"));
    assert_eq!(unify(&outer, &inner, &mut env), Ok(inner.clone()));
    assert_eq!(env.lookup_binding(2, 3), Some(&Type::TypeVar(2, 0)));
    assert_eq!(
        generalize(&Type::TypeVar(2, 3), 0, &env),
        Type::TypeVar(2, 0)
    );
}

#[test]
fn unify_arity_and_shapes() {
    let mut env: Env<Type> = Env::new();
    let one = arrow(vec![constant("int")], constant("int"));
    let two = arrow(vec![constant("int"), constant("int")], constant("int"));
    assert_eq!(unify(&one, &two, &mut env), Err(Error::ArityMismatch(1, 2)));
    assert_eq!(
        unify(&constant("int"), &one, &mut env),
        Err(Error::UnificationFailure(constant("int"), one.clone()))
    );
    assert_eq!(
        unify(&Type::TypeVar(7, 0), &Type::TypeVar(7, 1), &mut env),
        Err(Error::InfiniteType(7))
    );
    assert_eq!(unify(&one, &one, &mut env), Ok(one.clone()));
}

#[test]
fn generalize_then_instantiate() {
    let env: Env<Type> = Env::new();
    let mut gen: Gen<Type> = Gen::new();
    let a: Type = gen.newvar(Some(1));
    let b: Type = gen.newvar(Some(0));
    let t = arrow(vec![a.clone(), b.clone()], a.clone());
    let scheme = generalize(&t, 0, &env);
    assert_eq!(scheme, arrow(vec![Type::Generic(1), b.clone()], Type::Generic(1)));
    let again = instantiate(&scheme, 0, &mut gen, &env);
    assert_eq!(
        again,
        Ok(arrow(vec![Type::TypeVar(3, 0), b.clone()], Type::TypeVar(3, 0)))
    );
}

#[test]
fn unify_does_not_go_by_the_order() {
    let t = arrow(vec![Type::TypeVar(1, 0), Type::TypeVar(2, 1)], Type::TypeVar(1, 0));
    let g = arrow(vec![constant("int"), constant("bool")], constant("int"));
    let mut one: Env<Type> = Env::new();
    let mut other: Env<Type> = Env::new();
    assert_eq!(unify(&t, &g, &mut one), Ok(g.clone()));
    assert_eq!(unify(&g, &t, &mut other), Ok(g.clone()));
    assert_eq!(one.lookup_binding(1, 0), other.lookup_binding(1, 0));
    assert_eq!(one.lookup_binding(2, 1), other.lookup_binding(2, 1));
    assert_eq!(one.lookup_binding(2, 1), Some(&constant("bool")));

    let clash = arrow(vec![constant("int"), constant("bool")], constant("bool"));
    let mut one: Env<Type> = Env::new();
    let mut other: Env<Type> = Env::new();
    assert_eq!(
        unify(&t, &clash, &mut one),
        Err(Error::UnificationFailure(constant("int"), constant("bool")))
    );
    assert_eq!(
        unify(&clash, &t, &mut other),
        Err(Error::UnificationFailure(constant("int"), constant("bool")))
    );
}

#[test]
fn two_unbound_variables_go_by_the_order() {
    let a = Type::TypeVar(1, 0);
    let b = Type::TypeVar(2, 0);
    let mut one: Env<Type> = Env::new();
    let mut other: Env<Type> = Env::new();
    assert_eq!(unify(&a, &b, &mut one), Ok(b.clone()));
    assert_eq!(unify(&b, &a, &mut other), Ok(a.clone()));
    assert_eq!(one.lookup_binding(1, 0), Some(&b));
    assert_eq!(other.lookup_binding(2, 0), Some(&a));
}

#[test]
fn a_resolved_variable_is_followed_whichever_side_it_is_on() {
    let mut env: Env<Type> = Env::new();
    env.bind(5, 3, Type::TypeVar(5, 0));
    assert_eq!(
        unify(&Type::TypeVar(5, 3), &Type::TypeVar(5, 0), &mut env),
        Ok(Type::TypeVar(5, 0))
    );
    assert_eq!(
        unify(&Type::TypeVar(5, 0), &Type::TypeVar(5, 3), &mut env),
        Ok(Type::TypeVar(5, 0))
    );
    assert_eq!(env.lookup_binding(5, 0), None);
}

#[test]
fn unify_never_rebinds() {
    let mut env: Env<Type> = Env::new();
    let a = Type::TypeVar(1, 0);
    assert_eq!(unify(&a, &constant("int"), &mut env), Ok(constant("int")));
    let inner = arrow(vec![a.clone()], Type::TypeVar(2, 4));
    assert_eq!(unify(&Type::TypeVar(3, 1), &inner, &mut env), Ok(inner.clone()));
    assert_eq!(env.lookup_binding(1, 0), Some(&constant("int")));
    assert_eq!(env.lookup_binding(2, 4), Some(&Type::TypeVar(2, 1)));
    assert_eq!(env.lookup_binding(3, 1), Some(&inner));
}

#[test]
fn an_infinite_type_is_found_through_resolutions() {
    let mut env: Env<Type> = Env::new();
    let a = Type::TypeVar(1, 0);
    let b = Type::TypeVar(2, 0);
    assert_eq!(
        unify(&a, &arrow(vec![b.clone()], constant("int")), &mut env),
        Ok(arrow(vec![b.clone()], constant("int")))
    );
    assert_eq!(
        unify(&b, &arrow(vec![a.clone()], constant("int")), &mut env),
        Err(Error::InfiniteType(2))
    );
}

#[test]
fn resolutions_that_loop_run_into_the_guard() {
    let mut env: Env<Type> = Env::new();
    env.bind(1, 0, arrow(vec![Type::TypeVar(1, 0)], constant("int")));
    env.bind(2, 0, arrow(vec![Type::TypeVar(2, 0)], constant("int")));
    assert_eq!(
        unify(&Type::TypeVar(1, 0), &Type::TypeVar(2, 0), &mut env),
        Err(Error::DepthExceeded)
    );
}

#[test]
fn a_term_nested_too_deeply() {
    let mut term = var("x");
    for _ in 0..typesystems::MAX_DEPTH {
        term = abs(&["x"], term);
    }
    assert_eq!(check(&term), Err(Error::DepthExceeded));
    let mut term = var("x");
    for _ in 0..10 {
        term = abs(&["x"], term);
    }
    assert!(check(&term).is_ok());
}

#[test]
fn running_out_of_ids() {
    let env: Env<Type> = Env::new();
    let mut gen: Gen<Type> = Gen::starting_at(usize::MAX - 1);
    let scheme = arrow(vec![Type::Generic(1)], Type::Generic(2));
    assert_eq!(instantiate(&scheme, 0, &mut gen, &env), Err(Error::IdsExhausted));
    let gen: Gen<Type> = Gen::starting_at(usize::MAX);
    assert_eq!(infer(&abs(&["x"], var("x")), &env, &gen), Err(Error::IdsExhausted));
    let mut env: Env<Type> = Env::new();
    let mut gen: Gen<Type> = Gen::starting_at(usize::MAX - 2);
    assert_eq!(
        genarrow(Type::TypeVar(1, 0), 2, &mut env, &mut gen),
        Err(Error::IdsExhausted)
    );
    assert_eq!(env.lookup_binding(1, 0), None);
}

#[test]
fn applying_what_is_no_function() {
    let mut env: Env<Type> = Env::new();
    env.insert("one", constant("int"));
    let gen: Gen<Type> = Gen::new();
    assert_eq!(
        infer(&app(var("one"), vec![]), &env, &gen),
        Err(Error::NotAFunction(constant("int")))
    );
    env.insert("succ", arrow(vec![constant("int")], constant("int")));
    assert_eq!(
        infer(&app(var("succ"), vec![var("one")]), &env, &gen),
        Ok(constant("int"))
    );
    assert_eq!(
        infer(&app(var("succ"), vec![var("succ")]), &env, &gen),
        Err(Error::UnificationFailure(
            constant("int"),
            arrow(vec![constant("int")], constant("int"))
        ))
    );
    assert_eq!(
        infer(&app(var("succ"), vec![var("one"), var("one")]), &env, &gen),
        Err(Error::ArityMismatch(1, 2))
    );
    assert_eq!(env.lookup("succ"), Some(&arrow(vec![constant("int")], constant("int"))));
}

#[test]
fn let_is_polymorphic_and_lambda_is_not() {
    let mut env: Env<Type> = Env::new();
    env.insert("one", constant("int"));
    env.insert("yes", constant("bool"));
    env.insert(
        "pair",
        arrow(
            vec![Type::Generic(1), Type::Generic(2)],
            Type::App(
                Box::new(constant("pair")),
                vec![Type::Generic(1), Type::Generic(2)],
            ),
        ),
    );
    let gen: Gen<Type> = Gen::new();
    // let id = \x -> x in pair(id(one), id(yes))
    let both = app(
        var("pair"),
        vec![app(var("id"), vec![var("one")]), app(var("id"), vec![var("yes")])],
    );
    let term = let_in("id", abs(&["x"], var("x")), both);
    assert_eq!(
        infer(&term, &env, &gen),
        Ok(Type::App(
            Box::new(constant("pair")),
            vec![constant("int"), constant("bool")]
        ))
    );
    // \id -> pair(id(one), id(yes))
    let both = app(
        var("pair"),
        vec![app(var("id"), vec![var("one")]), app(var("id"), vec![var("yes")])],
    );
    let term = abs(&["id"], both);
    assert_eq!(
        infer(&term, &env, &gen),
        Err(Error::UnificationFailure(constant("int"), constant("bool")))
    );
}

#[test]
fn shadowed_names_come_back() {
    let mut env: Env<Type> = Env::new();
    env.insert("x", constant("int"));
    let gen: Gen<Type> = Gen::new();
    // let y = (\x -> x) in x
    let term = let_in("y", abs(&["x"], var("x")), var("x"));
    assert_eq!(infer(&term, &env, &gen), Ok(constant("int")));
    // let x = \x -> x in x
    let term = let_in("x", abs(&["x"], var("x")), var("x"));
    assert_eq!(
        infer(&term, &env, &gen),
        Ok(arrow(vec![Type::Generic(2)], Type::Generic(2)))
    );
    // (\y -> y)(x), where y is unknown outside
    let term = app(abs(&["y"], var("y")), vec![var("x")]);
    assert_eq!(infer(&term, &env, &gen), Ok(constant("int")));
    assert_eq!(
        infer(&var("y"), &env, &gen),
        Err(Error::UndefinedVariable("y".to_owned()))
    );
}

#[test]
fn lowering_onto_a_resolved_variable_finds_the_loop() {
    let mut env: Env<Type> = Env::new();
    env.bind(2, 0, arrow(vec![Type::TypeVar(2, 3)], constant("int")));
    env.insert("f", arrow(vec![Type::TypeVar(1, 0)], Type::TypeVar(2, 3)));
    env.insert("y", Type::TypeVar(2, 3));
    let gen: Gen<Type> = Gen::starting_at(3);
    assert_eq!(
        infer(&app(var("f"), vec![var("y")]), &env, &gen),
        Err(Error::InfiniteType(2))
    );
    assert_eq!(
        unify(&Type::TypeVar(1, 0), &Type::TypeVar(2, 3), &mut env),
        Err(Error::InfiniteType(2))
    );
}

#[test]
fn lowering_onto_a_resolved_variable_lowers_what_it_stands_for() {
    let mut env: Env<Type> = Env::new();
    env.bind(2, 0, arrow(vec![Type::TypeVar(4, 5)], constant("int")));
    assert_eq!(
        unify(&Type::TypeVar(1, 0), &Type::TypeVar(2, 3), &mut env),
        Ok(Type::TypeVar(2, 3))
    );
    assert_eq!(
        env.lookup_binding(2, 3),
        Some(&arrow(vec![Type::TypeVar(4, 5)], constant("int")))
    );
    assert_eq!(env.lookup_binding(4, 5), Some(&Type::TypeVar(4, 0)));
}

#[test]
fn no_variable_is_resolved_to_a_generic_placeholder() {
    let mut env: Env<Type> = Env::new();
    assert_eq!(
        unify(&Type::TypeVar(1, 0), &Type::Generic(7), &mut env),
        Err(Error::UnificationFailure(Type::TypeVar(1, 0), Type::Generic(7)))
    );
    let mut env: Env<Type> = Env::new();
    assert_eq!(
        unify(
            &arrow(vec![Type::Generic(7)], constant("int")),
            &Type::TypeVar(1, 0),
            &mut env
        ),
        Err(Error::UnificationFailure(
            Type::TypeVar(1, 0),
            arrow(vec![Type::Generic(7)], constant("int"))
        ))
    );
    assert_eq!(env.lookup_binding(1, 0), None);
    env.bind(2, 0, Type::Generic(7));
    assert_eq!(
        unify(&Type::TypeVar(1, 0), &Type::TypeVar(2, 0), &mut env),
        Err(Error::UnificationFailure(Type::TypeVar(1, 0), Type::Generic(7)))
    );
    let mut env: Env<Type> = Env::new();
    assert_eq!(
        unify(&Type::Generic(7), &Type::Generic(7), &mut env),
        Ok(Type::Generic(7))
    );
}

#[test]
fn a_closed_type_holds_no_variable() {
    let mut env: Env<Type> = Env::new();
    env.bind(1, 0, arrow(vec![Type::TypeVar(2, -5)], Type::TypeVar(3, 4)));
    assert_eq!(
        close(&arrow(vec![Type::TypeVar(1, 0)], Type::TypeVar(2, -5)), &env),
        Ok(arrow(
            vec![arrow(vec![Type::Generic(2)], Type::Generic(3))],
            Type::Generic(2)
        ))
    );
    assert_eq!(
        generalize(&arrow(vec![Type::TypeVar(1, 0)], Type::TypeVar(3, 4)), -1, &env),
        arrow(
            vec![arrow(vec![Type::TypeVar(2, -5)], Type::Generic(3))],
            Type::Generic(3)
        )
    );
}

#[test]
fn a_type_that_holds_itself_has_no_scheme() {
    let mut env: Env<Type> = Env::new();
    env.bind(1, 0, arrow(vec![Type::TypeVar(1, 0)], constant("int")));
    env.insert("x", Type::TypeVar(1, 0));
    assert_eq!(close(&Type::TypeVar(1, 0), &env), Err(Error::InfiniteType(1)));
    let gen: Gen<Type> = Gen::starting_at(2);
    assert_eq!(infer(&var("x"), &env, &gen), Err(Error::InfiniteType(1)));
}

#[test]
fn clones_of_the_environment_and_the_generator() {
    let mut env: Env<Type> = Env::new();
    env.insert("x", constant("int"));
    env.bind(1, 0, constant("bool"));
    let mut copy = env.clone();
    copy.insert("x", constant("unit"));
    copy.bind(1, 0, constant("unit"));
    assert_eq!(env.lookup("x"), Some(&constant("int")));
    assert_eq!(env.lookup_binding(1, 0), Some(&constant("bool")));
    assert_eq!(copy.lookup("x"), Some(&constant("unit")));
    let mut gen: Gen<Type> = Gen::new();
    let _: Type = gen.newvar(Some(0));
    let mut other = gen.clone();
    assert_eq!(gen.newvar(Some(0)), other.newvar(Some(0)));
}

#[test]
fn lowering_can_fail_one_way_round_only() {
    let resolved = arrow(vec![Type::TypeVar(2, 3)], constant("int"));
    let mut one: Env<Type> = Env::new();
    one.bind(2, 0, resolved.clone());
    let mut other = one.clone();
    assert_eq!(
        unify(&Type::TypeVar(1, 0), &Type::TypeVar(2, 3), &mut one),
        Err(Error::InfiniteType(2))
    );
    assert_eq!(
        unify(&Type::TypeVar(2, 3), &Type::TypeVar(1, 0), &mut other),
        Ok(Type::TypeVar(1, 0))
    );
    assert_eq!(other.lookup_binding(2, 3), Some(&Type::TypeVar(1, 0)));
}
