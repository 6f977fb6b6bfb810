use typesystems::{Bindable, Env, Gen, Type};

#[test]
fn gen_gives_rising_ids() {
    let mut gen: Gen<Type> = Gen::new();
    assert_eq!(gen.newvar(Some(0)), Type::TypeVar(1, 0));
    assert_eq!(gen.newvar(Some(3)), Type::TypeVar(2, 3));
    assert_eq!(gen.newvar(None), Type::Generic(3));
    assert_eq!(gen.peek(), 4);
    assert!(!gen.exhausted());
    let mut copy = gen.duplicate();
    gen.reset();
    assert_eq!(gen.newvar(Some(-1)), Type::TypeVar(1, -1));
    assert_eq!(copy.newvar(Some(0)), Type::TypeVar(4, 0));
    assert!(Gen::<Type>::starting_at(usize::MAX).exhausted());
}

#[test]
fn names_are_inserted_looked_up_and_removed() {
    let mut env: Env<Type> = Env::new();
    assert_eq!(env.lookup("x"), None);
    assert_eq!(env.insert("x", Type::Generic(1)), None);
    assert_eq!(env.insert("y", Type::Generic(2)), None);
    assert_eq!(env.insert("x", Type::Generic(3)), Some(Type::Generic(1)));
    assert_eq!(env.lookup("x"), Some(&Type::Generic(3)));
    assert_eq!(env.lookup("y"), Some(&Type::Generic(2)));
    assert_eq!(env.remove("x"), Some(Type::Generic(3)));
    assert_eq!(env.remove("x"), None);
    assert_eq!(env.lookup("x"), None);
    assert_eq!(env.lookup("y"), Some(&Type::Generic(2)));
}

#[test]
fn bindings_are_followed_to_their_end() {
    let mut env: Env<Type> = Env::new();
    assert_eq!(env.lookup_binding(1, 0), None);
    assert_eq!(env.bind(1, 0, Type::TypeVar(2, 0)), None);
    assert_eq!(env.lookup_binding(1, 0), Some(&Type::TypeVar(2, 0)));
    assert_eq!(env.bind(2, 0, Type::TypeVar(3, 1)), None);
    assert_eq!(env.bind(3, 1, Type::Const("int".to_owned())), None);
    assert_eq!(env.lookup_binding(1, 0), Some(&Type::Const("int".to_owned())));
    assert_eq!(env.lookup_binding(2, 0), Some(&Type::Const("int".to_owned())));
    assert_eq!(env.lookup_binding(3, 0), None);
    assert_eq!(env.binding_count(), 3);
    assert_eq!(env.unbind(3, 1), Some(Type::Const("int".to_owned())));
    assert_eq!(env.lookup_binding(1, 0), Some(&Type::TypeVar(3, 1)));
    assert_eq!(
        env.bind(1, 0, Type::Generic(9)),
        Some(Type::TypeVar(2, 0))
    );
    assert_eq!(env.lookup_binding(1, 0), Some(&Type::Generic(9)));
    let copy = env.duplicate();
    assert_eq!(copy.lookup_binding(2, 0), Some(&Type::TypeVar(3, 1)));
}

#[test]
fn bindings_that_loop_are_followed_only_so_far() {
    let mut env: Env<Type> = Env::new();
    env.bind(1, 0, Type::TypeVar(2, 0));
    env.bind(2, 0, Type::TypeVar(1, 0));
    assert_eq!(env.lookup_binding(1, 0), Some(&Type::TypeVar(2, 0)));
    assert_eq!(env.lookup_binding(2, 0), Some(&Type::TypeVar(1, 0)));
}

#[test]
fn a_type_knows_whether_it_is_a_variable() {
    assert_eq!(Type::get_unbound_id_level(&Type::TypeVar(4, 2)), Some((4, 2)));
    assert_eq!(Type::get_unbound_id_level(&Type::Generic(4)), None);
    assert_eq!(Type::get_unbound_id_level(&Type::Const("a".to_owned())), None);
    assert!(Type::TypeVar(4, 2).same(&Type::TypeVar(4, 2).duplicate()));
    assert!(!Type::TypeVar(4, 2).same(&Type::TypeVar(4, 3)));
}
