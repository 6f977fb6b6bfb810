use typesystems::Term::{Abs, App, Let, Var};
use typesystems::{term, term_eof, Lexer, Stream, Term, Token};

fn collect(s: &str) -> Option<Term> {
    let tokens = Lexer::new(s.chars().collect()).collect().unwrap();
    let mut stream = Stream::new(tokens);
    term_eof(&mut stream)
}

#[test]
fn term_invalid() {
    assert_eq!(collect(""), None);
    assert_eq!(collect("()"), None);
    assert_eq!(collect("a b"), None);
    assert_eq!(collect("a, b"), None);
    assert_eq!(collect("a = b"), None);
    assert_eq!(collect("let a = b in ()"), None);
    assert_eq!(collect("f(a"), None);
    assert_eq!(collect("(f a)"), None);
}

#[test]
fn var() {
    assert_eq!(collect("a"), Some(Var(String::from("a"))));
    assert_eq!(collect("(((a)))"), Some(Var(String::from("a"))));
}

#[test]
fn call() {
    assert_eq!(
        collect("(fn)((a), b)"),
        Some(App(
            Box::new(Var(String::from("fn"))),
            vec![Var(String::from("a")), Var(String::from("b"))]
        ))
    );
    assert_eq!(
        collect("(f)(a, g(b))"),
        Some(App(
            Box::new(Var(String::from("f"))),
            vec![
                Var(String::from("a")),
                App(
                    Box::new(Var(String::from("g"))),
                    vec![Var(String::from("b"))]
                )
            ]
        ))
    );
    assert_eq!(
        collect("((((fn(a)))((b))))"),
        Some(App(
            Box::new(App(
                Box::new(Var(String::from("fn"))),
                vec![Var(String::from("a"))]
            )),
            vec![Var(String::from("b"))]
        ))
    );
    assert_eq!(
        collect("f(a)(g(b))"),
        Some(App(
            Box::new(App(
                Box::new(Var(String::from("f"))),
                vec![Var(String::from("a"))]
            )),
            vec![App(
                Box::new(Var(String::from("g"))),
                vec![Var(String::from("b"))]
            )]
        ))
    );
}

#[test]
fn f() {
    assert_eq!(
        collect(r"\x y -> x"),
        Some(Abs(
            vec![String::from("x"), String::from("y")],
            Box::new(Var(String::from("x")))
        ))
    );
}

#[test]
fn let_in() {
    assert_eq!(
        collect(r"let c = \f g x -> f(g(x)) in c(f, g)"),
        Some(Let(
            String::from("c"),
            Box::new(Abs(
                vec![String::from("f"), String::from("g"), String::from("x")],
                Box::new(App(
                    Box::new(Var(String::from("f"))),
                    vec![App(
                        Box::new(Var(String::from("g"))),
                        vec![Var(String::from("x"))]
                    )]
                )),
            )),
            Box::new(App(
                Box::new(Var(String::from("c"))),
                vec![Var(String::from("f")), Var(String::from("g"))]
            ))
        ))
    );
    assert_eq!(
        collect("let a = x in let b = y in f(x, y)"),
        Some(Let(
            String::from("a"),
            Box::new(Var(String::from("x"))),
            Box::new(Let(
                String::from("b"),
                Box::new(Var(String::from("y"))),
                Box::new(App(
                    Box::new(Var(String::from("f"))),
                    vec![Var(String::from("x")), Var(String::from("y"))]
                ))
            ))
        ))
    )
}

#[test]
fn a_term_that_fails_leaves_the_stream() {
    let tokens = Lexer::new("x (y".chars().collect()).collect().unwrap();
    let mut stream = Stream::new(tokens);
    assert_eq!(term(&mut stream), Some(Var("x".to_owned())));
    assert_eq!(stream.next(), Some(Token::Spacing));
    assert_eq!(term(&mut stream), None);
    assert_eq!(stream.offset(), 2);
    assert_eq!(stream.next(), Some(Token::Lparen));
}

#[test]
fn a_function_in_brackets() {
    assert_eq!(
        collect(r"(\x -> x)(y)"),
        Some(App(
            Box::new(Abs(vec!["x".to_owned()], Box::new(Var("x".to_owned())))),
            vec![Var("y".to_owned())]
        ))
    );
}

#[test]
fn at_most_two_argument_lists() {
    assert_eq!(collect("f()"), Some(App(Box::new(Var("f".to_owned())), vec![])));
    assert_eq!(collect("f( )"), Some(App(Box::new(Var("f".to_owned())), vec![])));
    assert_eq!(collect("f(a)(b)(c)"), None);
}
