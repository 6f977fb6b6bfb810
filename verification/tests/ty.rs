use typesystems::Ty::{App, Arrow, Const, Forall};
use std::str::FromStr;
use typesystems::{Lexer, Ty};

fn collect(s: &str) -> Option<Ty> {
    Ty::from_str(s).ok()
}

#[test]
fn ty_invalid() {
    assert_eq!(collect(""), None);
    assert_eq!(collect("a b"), None);
    assert_eq!(collect("t[]"), None);
    assert_eq!(collect("[]"), None);
    assert_eq!(collect("->"), None);
    assert_eq!(collect("() -> t[]"), None);
}

#[test]
fn type_const() {
    assert_eq!(collect("int"), Some(Const(String::from("int"))));
    assert_eq!(collect("((int ) )"), Some(Const(String::from("int"))));
}

#[test]
fn arrow() {
    assert_eq!(
        collect("() -> b"),
        Some(Arrow(vec![], Box::new(Const(String::from("b")))))
    );
    assert_eq!(
        collect("() -> a -> b"),
        Some(Arrow(
            vec![],
            Box::new(Arrow(
                vec![Const(String::from("a"))],
                Box::new(Const(String::from("b")))
            ))
        ))
    );
    assert_eq!(
        collect("(( () -> a ) -> b)"),
        Some(Arrow(
            vec![Arrow(vec![], Box::new(Const(String::from("a"))))],
            Box::new(Const(String::from("b")))
        ))
    );
    assert_eq!(
        collect("a -> ( a , b ) -> b"),
        Some(Arrow(
            vec![Const(String::from("a")),],
            Box::new(Arrow(
                vec![Const(String::from("a")), Const(String::from("b"))],
                Box::new(Const(String::from("b")))
            ))
        ))
    );
}

#[test]
fn application() {
    assert_eq!(
        collect("t[a]"),
        Some(App(
            Box::new(Const(String::from("t"))),
            vec![Const(String::from("a"))]
        ))
    );
    assert_eq!(
        collect("t[ a , ( b ) ]"),
        Some(App(
            Box::new(Const(String::from("t"))),
            vec![Const(String::from("a")), Const(String::from("b"))]
        ))
    );
    assert_eq!(
        collect("t[() -> a, b[(c, d) -> c]]"),
        Some(App(
            Box::new(Const(String::from("t"))),
            vec![
                Arrow(vec![], Box::new(Const(String::from("a")))),
                App(
                    Box::new(Const(String::from("b"))),
                    vec![Arrow(
                        vec![Const(String::from("c")), Const(String::from("d"))],
                        Box::new(Const(String::from("c")))
                    )]
                )
            ]
        ))
    );
}

#[test]
fn ty_forall() {
    assert_eq!(
        collect("forall[a, b] (a -> b, c) -> a"),
        Some(Forall(
            vec![String::from("a"), String::from("b")],
            Box::new(Arrow(
                vec![
                    Arrow(
                        vec![Const(String::from("a"))],
                        Box::new(Const(String::from("b")))
                    ),
                    Const(String::from("c"))
                ],
                Box::new(Const(String::from("a")))
            ))
        ))
    );
}

#[test]
fn types_are_written_as_they_are_read() {
    for text in [
        "int",
        "t[a]",
        "t[a, b][c]",
        "() -> b",
        "a -> b",
        "t[a] -> b",
        "(a -> b) -> c",
        "(a, b) -> c",
        "a -> (a, b) -> b",
        "forall[a, b] (a -> b, c) -> a",
        "forall[a] a",
    ] {
        let t = collect(text).unwrap();
        assert_eq!(t.to_text(), text);
    }
    assert_eq!(collect("((a) )->(  (b) )").unwrap().to_text(), "a -> b");
    assert_eq!(collect("((a->b))->c").unwrap().to_text(), "(a -> b) -> c");
}

#[test]
fn a_type_is_read_from_text_or_from_tokens() {
    let text = "t[a] -> (b, c) -> d";
    let tokens = Lexer::new(text.chars().collect()).collect().unwrap();
    assert_eq!(Ty::from_tokens(tokens), Ty::from_text(text));
    assert_eq!(Ty::from_text(text), text.parse().ok());
    assert_eq!(Ty::from_text("a $ b"), None);
    assert_eq!(Ty::from_str("a $ b"), Err(()));
}
