use typesystems::Token::{
    And, Arrow, Colon, Comma, Comment, Dot, Else, Equals, Fn, Forall, Ident, If, In, Lbracket,
    Let, Lparen, Newline, Number, Or, Percent, Plus, Rbracket, Rparen, Semicolon, Spacing, Star,
    Then, EQ, GT, LE, NE,
};
use typesystems::{identifier, number, Lexer, Stream, Token, Tokenizer, Unexpected};

fn collect(s: &str) -> Vec<Token> {
    Lexer::new(s.chars().collect()).collect().unwrap()
}

fn tokens(s: &str) -> Vec<Token> {
    let mut tokenizer: Tokenizer<char, Token> = Tokenizer::new(s.chars().collect());
    tokenizer.collect().unwrap()
}

#[test]
fn lexer_symbols() {
    assert_eq!(
        collect(",.()[]="),
        vec![Comma, Dot, Lparen, Rparen, Lbracket, Rbracket, Equals]
    );
}

#[test]
fn lexer_spacing() {
    assert_eq!(collect(" \t\r \r\t \n\n\n"), vec![Spacing, Newline]);
}

#[test]
fn lexer_keywords() {
    assert_eq!(
        collect("let->fn forall in"),
        vec![Let, Arrow, Fn, Spacing, Forall, Spacing, In]
    );
}

#[test]
fn lexer_identifiers() {
    assert_eq!(
        collect("_1abc -- ab"),
        vec![
            Ident("_1abc".to_owned()),
            Spacing,
            Comment(" ab".to_owned())
        ]
    );
    assert_eq!(
        collect("abc_def_42_--abc"),
        vec![Ident("abc_def_42_".to_owned()), Comment("abc".to_owned())]
    );
}

#[test]
fn lexer_numbers() {
    assert_eq!(
        collect("42 -0.42.42.0"),
        vec![
            Number("42".to_owned()),
            Spacing,
            Number("-0.42".to_owned()),
            Dot,
            Number("42.0".to_owned())
        ]
    );
    assert_eq!(
        collect("-42.0e12.-42.0.e2"),
        vec![
            Number("-42.0e12".to_owned()),
            Dot,
            Number("-42.0".to_owned()),
            Dot,
            Ident("e2".to_owned())
        ]
    )
}

#[test]
fn operators() {
    assert_eq!(
        tokens("<=>%.+*!====:;"),
        vec![LE, GT, Percent, Dot, Plus, Star, NE, EQ, Equals, Colon, Semicolon]
    );
}

#[test]
fn token_symbols() {
    assert_eq!(
        tokens(",.()[]="),
        vec![Comma, Dot, Lparen, Rparen, Lbracket, Rbracket, Equals]
    );
}

#[test]
fn token_spacing() {
    assert_eq!(tokens(" \t\r \r\t \n\n\n"), vec![Spacing, Newline]);
}

#[test]
fn token_keywords() {
    assert_eq!(
        tokens("let->fn forall in"),
        vec![Let, Arrow, Fn, Spacing, Forall, Spacing, In]
    );
    assert_eq!(
        tokens("if a or b"),
        vec![
            If,
            Spacing,
            Ident("a".to_owned()),
            Spacing,
            Or,
            Spacing,
            Ident("b".to_owned())
        ]
    );
    assert_eq!(
        tokens("then c else and"),
        vec![
            Then,
            Spacing,
            Ident("c".to_owned()),
            Spacing,
            Else,
            Spacing,
            And
        ]
    );
}

#[test]
fn token_identifiers() {
    assert_eq!(
        tokens("_1abc -- ab"),
        vec![
            Ident("_1abc".to_owned()),
            Spacing,
            Comment(" ab".to_owned())
        ]
    );
    assert_eq!(
        tokens("abc_def_42_--abc"),
        vec![Ident("abc_def_42_".to_owned()), Comment("abc".to_owned())]
    );
}

#[test]
fn token_numbers() {
    assert_eq!(
        tokens("42 -0.42.42.0"),
        vec![
            Number("42".to_owned()),
            Spacing,
            Number("-0.42".to_owned()),
            Dot,
            Number("42.0".to_owned())
        ]
    );
    assert_eq!(
        tokens("-42.0e12.-42.0.e2"),
        vec![
            Number("-42.0e12".to_owned()),
            Dot,
            Number("-42.0".to_owned()),
            Dot,
            Ident("e2".to_owned())
        ]
    )
}

#[test]
fn tests_symbols() {
    assert_eq!(
        collect(",.()[]="),
        vec![Comma, Dot, Lparen, Rparen, Lbracket, Rbracket, Equals]
    );
}

#[test]
fn tests_spacing() {
    assert_eq!(collect(" \t\r \r\t \n\n\n"), vec![Spacing, Newline]);
}

#[test]
fn tests_keywords() {
    assert_eq!(
        collect("let->fn forall in"),
        vec![Let, Arrow, Fn, Spacing, Forall, Spacing, In]
    );
}

#[test]
fn tests_identifiers() {
    assert_eq!(
        collect("_1abc -- ab"),
        vec![
            Ident("_1abc".to_owned()),
            Spacing,
            Comment(" ab".to_owned())
        ]
    );
    assert_eq!(
        collect("abc_def_42_--abc"),
        vec![Ident("abc_def_42_".to_owned()), Comment("abc".to_owned())]
    );
}

#[test]
fn tests_numbers() {
    assert_eq!(
        collect("42 -0.42.42.0"),
        vec![
            Number("42".to_owned()),
            Spacing,
            Number("-0.42".to_owned()),
            Dot,
            Number("42.0".to_owned())
        ]
    );
    assert_eq!(
        collect("-42.0e12.-42.0.e2"),
        vec![
            Number("-42.0e12".to_owned()),
            Dot,
            Number("-42.0".to_owned()),
            Dot,
            Ident("e2".to_owned())
        ]
    )
}

#[test]
fn unexpected_character_is_fatal() {
    let mut lexer = Lexer::new("ab $c".chars().collect());
    assert_eq!(lexer.next(), Some(Ok(Ident("ab".to_owned()))));
    assert_eq!(lexer.next(), Some(Ok(Spacing)));
    let failure = Some(Err(Unexpected { element: '$', position: 3 }));
    assert_eq!(lexer.next(), failure);
    assert_eq!(lexer.next(), failure);
    assert_eq!(
        Lexer::new("ab $c".chars().collect()).collect(),
        Err(Unexpected { element: '$', position: 3 })
    );
    assert_eq!(
        Lexer::new("a - b".chars().collect()).collect(),
        Err(Unexpected { element: '-', position: 2 })
    );
    assert_eq!(
        Lexer::new("a!".chars().collect()).collect(),
        Err(Unexpected { element: '!', position: 1 })
    );
    assert_eq!(Lexer::new(Vec::new()).next(), None);
}

#[test]
fn number_swallows_a_bare_dot_or_exponent() {
    let mut s = Stream::new("1.e5x".chars().collect());
    assert_eq!(number(&mut s), "1e5");
    assert_eq!(s.next(), Some('x'));
    let mut s = Stream::new("7ex".chars().collect());
    assert_eq!(number(&mut s), "7");
    assert_eq!(s.next(), Some('x'));
    let mut s = Stream::new("x1".chars().collect());
    assert_eq!(number(&mut s), "");
    assert_eq!(s.next(), Some('x'));
}

#[test]
fn identifier_reads_a_name() {
    let mut s = Stream::new("_a1-b".chars().collect());
    assert_eq!(identifier(&mut s), "_a1");
    assert_eq!(s.next(), Some('-'));
    let mut s = Stream::new("1a".chars().collect());
    assert_eq!(identifier(&mut s), "");
    assert_eq!(s.next(), Some('1'));
}
