use typesystems::{
    between, many, sep_by, sep_by1, some, Built, Combinator, Select, Stream, Token,
};

type Leaf = Select<char, char, Box<dyn Fn(&char) -> Option<char>>>;
type Parser = Combinator<char, Leaf>;

/// Matches one character that `accepts` accepts, and gives it back.
fn one(accepts: impl Fn(char) -> bool + 'static) -> Parser {
    Combinator::new(Select::new(Box::new(move |c: &char| {
        if accepts(*c) {
            Some(*c)
        } else {
            None
        }
    })))
}

fn is(c: char) -> Parser {
    one(move |x| x == c)
}

fn digit() -> Parser {
    one(|c| c.is_ascii_digit())
}

fn letter() -> Parser {
    one(|c| c.is_ascii_alphabetic())
}

fn stream(s: &str) -> Stream<char> {
    Stream::new(s.chars().collect())
}

#[test]
fn failure_restores_the_position() {
    let mut s = stream("ab1");
    let p = letter().both(letter()).both(letter());
    assert_eq!(s.run(&p), None);
    assert_eq!(s.offset(), 0);
    assert_eq!(s.next(), Some('a'));
    let q = letter().keep_right(digit()).keep_left(digit());
    assert_eq!(s.run(&q), None);
    assert_eq!(s.offset(), 1);
    assert_eq!(s.run(&(letter() & digit())), Some(vec!['b', '1']));
    assert_eq!(s.offset(), 3);
}

#[test]
fn choice_is_left_biased() {
    let mut s = stream("ab");
    let first = letter();
    let second = letter().both(letter());
    assert_eq!(s.run(&first.or_else(second)), Some(vec!['a']));
    assert_eq!(s.offset(), 1);
    let mut s = stream("1a");
    assert_eq!(s.run(&(letter() | digit())), Some(vec!['1']));
    let mut s = stream("a1");
    let specific = letter().both(digit());
    assert_eq!(s.run(&(specific | letter())), Some(vec!['a', '1']));
}

#[test]
fn sequencing_keeps_one_side() {
    let mut s = stream("a1b2");
    assert_eq!(s.run(&(letter() << digit())), Some(vec!['a']));
    assert_eq!(s.offset(), 2);
    assert_eq!(s.run(&(letter() >> digit())), Some(vec!['2']));
    assert_eq!(s.offset(), 4);
}

#[test]
fn pure_takes_nothing() {
    let mut s = stream("x");
    let p: Parser = Combinator::pure(vec!['a', 'b']);
    assert_eq!(s.run(&p), Some(vec!['a', 'b']));
    assert_eq!(s.offset(), 0);
    assert_eq!(s.run(&(letter() & p)), Some(vec!['x', 'a', 'b']));
}

#[test]
fn many_is_greedy_and_always_matches() {
    let mut s = stream("123ab");
    assert_eq!(s.run(&many(digit())), Some(vec!['1', '2', '3']));
    assert_eq!(s.run(&many(digit())), Some(vec![]));
    assert_eq!(s.offset(), 3);
    assert_eq!(s.run(&some(digit())), None);
    assert_eq!(s.offset(), 3);
    assert_eq!(s.run(&some(letter())), Some(vec!['a', 'b']));
    assert_eq!(s.run(&many(letter())), Some(vec![]));
}

#[test]
fn many_ends_on_a_match_that_takes_nothing() {
    let mut s = stream("ab");
    let nothing: Parser = Combinator::pure(vec!['z']);
    assert_eq!(s.run(&many(nothing)), Some(vec!['z']));
    assert_eq!(s.offset(), 0);
}

#[test]
fn sep_by_drops_the_separators() {
    let mut s = stream("1,2,3,x");
    assert_eq!(s.run(&sep_by(is(','), digit())), Some(vec!['1', '2', '3']));
    assert_eq!(s.offset(), 5);
    assert_eq!(s.next(), Some(','));
}

#[test]
fn sep_by_matches_where_there_is_no_item() {
    let mut s = stream("x1");
    assert_eq!(s.run(&sep_by(is(','), digit())), Some(vec![]));
    assert_eq!(s.offset(), 0);
    let mut s = stream("");
    assert_eq!(s.run(&sep_by(is(','), digit())), Some(vec![]));
    let mut s = stream("7");
    assert_eq!(s.run(&sep_by(is(','), digit())), Some(vec!['7']));
    assert_eq!(s.offset(), 1);
}

#[test]
fn sep_by1_needs_an_item() {
    let mut s = stream("x1");
    assert_eq!(s.run(&sep_by1(is(','), digit())), None);
    assert_eq!(s.offset(), 0);
    let mut s = stream("1,2,");
    assert_eq!(s.run(&sep_by1(is(','), digit())), Some(vec!['1', '2']));
    assert_eq!(s.offset(), 3);
}

#[test]
fn between_drops_both_ends() {
    let mut s = stream("(7)(8");
    assert_eq!(s.run(&between(is('('), is(')'), digit())), Some(vec!['7']));
    assert_eq!(s.run(&between(is('('), is(')'), digit())), None);
    assert_eq!(s.offset(), 3);
}

#[test]
fn bind_chooses_the_next_parser() {
    // A letter, and then the same letter again.
    let mut s = stream("aab");
    let twice = |out: Vec<char>| is(out[0]);
    assert_eq!(s.bind(&letter(), twice), Some(vec!['a']));
    assert_eq!(s.offset(), 2);
    let mut s = stream("abb");
    assert_eq!(s.bind(&letter(), twice), None);
    assert_eq!(s.offset(), 0);
}

#[test]
fn fmap_maps_the_outputs() {
    let mut s = stream("12a");
    let value = |c: char| c.to_digit(10).unwrap();
    assert_eq!(s.fmap(&many(digit()), value), Some(vec![1, 2]));
    assert_eq!(s.fmap(&some(digit()), value), None);
    assert_eq!(s.offset(), 2);
}

#[test]
fn tokens_through_a_combinator() {
    let mut s = stream("let x=1 $");
    let token: Combinator<Token, Built<Token>> = Combinator::new(Built::new());
    assert_eq!(
        s.run(&many(token)),
        Some(vec![
            Token::Let,
            Token::Spacing,
            Token::Ident("x".to_owned()),
            Token::Equals,
            Token::Number("1".to_owned()),
            Token::Spacing,
        ])
    );
    assert_eq!(s.next(), Some('$'));
}

#[test]
fn borrowed_parsers_are_put_together_too() {
    let token: Combinator<Token, Built<Token>> = Combinator::new(Built::new());
    let two = &token & &token;
    let mut s = stream("a b");
    assert_eq!(
        s.run(&two),
        Some(vec![Token::Ident("a".to_owned()), Token::Spacing])
    );
    let either = &two | &token;
    assert_eq!(s.run(&either), Some(vec![Token::Ident("b".to_owned())]));
    let mut s = stream("a b");
    assert_eq!(s.run(&(&token >> &token)), Some(vec![Token::Spacing]));
    assert_eq!(
        s.run(&(&token << &many(token.clone()))),
        Some(vec![Token::Ident("b".to_owned())])
    );
    assert_eq!(s.run(&many(token.clone())), Some(vec![]));
}
