//! The tokens of the language, and how a run of characters is read as one.

use vstd::prelude::*;
use crate::stream::Stream;
use crate::tokenizer::Streamable;
use crate::util::{lemma_span_holds, lemma_span_unique, span};

verus! {

/// A token of the language.
#[derive(Debug, PartialEq, Eq)]
pub enum Token {
    Comma,
    Colon,
    Semicolon,
    Dot,
    Lparen,
    Rparen,
    Lbracket,
    Rbracket,
    Plus,
    Star,
    Slash,
    Percent,
    Equals,
    GT,
    LT,
    GE,
    LE,
    EQ,
    NE,
    Spacing,
    Newline,
    Arrow,
    Fn,
    Lambda,
    Forall,
    In,
    Let,
    If,
    Then,
    Else,
    Not,
    And,
    Or,
    True,
    False,
    Ident(String),
    Number(String),
    Comment(String),
}

/// What a [`Token`] is, as a mathematical value.
pub enum TokenView {
    Comma,
    Colon,
    Semicolon,
    Dot,
    Lparen,
    Rparen,
    Lbracket,
    Rbracket,
    Plus,
    Star,
    Slash,
    Percent,
    Equals,
    GT,
    LT,
    GE,
    LE,
    EQ,
    NE,
    Spacing,
    Newline,
    Arrow,
    Fn,
    Lambda,
    Forall,
    In,
    Let,
    If,
    Then,
    Else,
    Not,
    And,
    Or,
    True,
    False,
    Ident(Seq<char>),
    Number(Seq<char>),
    Comment(Seq<char>),
}

impl View for Token {
    type V = TokenView;

    open spec fn view(&self) -> TokenView {
        match self {
            Token::Comma => TokenView::Comma,
            Token::Colon => TokenView::Colon,
            Token::Semicolon => TokenView::Semicolon,
            Token::Dot => TokenView::Dot,
            Token::Lparen => TokenView::Lparen,
            Token::Rparen => TokenView::Rparen,
            Token::Lbracket => TokenView::Lbracket,
            Token::Rbracket => TokenView::Rbracket,
            Token::Plus => TokenView::Plus,
            Token::Star => TokenView::Star,
            Token::Slash => TokenView::Slash,
            Token::Percent => TokenView::Percent,
            Token::Equals => TokenView::Equals,
            Token::GT => TokenView::GT,
            Token::LT => TokenView::LT,
            Token::GE => TokenView::GE,
            Token::LE => TokenView::LE,
            Token::EQ => TokenView::EQ,
            Token::NE => TokenView::NE,
            Token::Spacing => TokenView::Spacing,
            Token::Newline => TokenView::Newline,
            Token::Arrow => TokenView::Arrow,
            Token::Fn => TokenView::Fn,
            Token::Lambda => TokenView::Lambda,
            Token::Forall => TokenView::Forall,
            Token::In => TokenView::In,
            Token::Let => TokenView::Let,
            Token::If => TokenView::If,
            Token::Then => TokenView::Then,
            Token::Else => TokenView::Else,
            Token::Not => TokenView::Not,
            Token::And => TokenView::And,
            Token::Or => TokenView::Or,
            Token::True => TokenView::True,
            Token::False => TokenView::False,
            Token::Ident(name) => TokenView::Ident(name@),
            Token::Number(text) => TokenView::Number(text@),
            Token::Comment(text) => TokenView::Comment(text@),
        }
    }
}

impl Clone for Token {
    fn clone(&self) -> (r: Self)
        ensures
            r == *self,
    {
        match self {
            Token::Comma => Token::Comma,
            Token::Colon => Token::Colon,
            Token::Semicolon => Token::Semicolon,
            Token::Dot => Token::Dot,
            Token::Lparen => Token::Lparen,
            Token::Rparen => Token::Rparen,
            Token::Lbracket => Token::Lbracket,
            Token::Rbracket => Token::Rbracket,
            Token::Plus => Token::Plus,
            Token::Star => Token::Star,
            Token::Slash => Token::Slash,
            Token::Percent => Token::Percent,
            Token::Equals => Token::Equals,
            Token::GT => Token::GT,
            Token::LT => Token::LT,
            Token::GE => Token::GE,
            Token::LE => Token::LE,
            Token::EQ => Token::EQ,
            Token::NE => Token::NE,
            Token::Spacing => Token::Spacing,
            Token::Newline => Token::Newline,
            Token::Arrow => Token::Arrow,
            Token::Fn => Token::Fn,
            Token::Lambda => Token::Lambda,
            Token::Forall => Token::Forall,
            Token::In => Token::In,
            Token::Let => Token::Let,
            Token::If => Token::If,
            Token::Then => Token::Then,
            Token::Else => Token::Else,
            Token::Not => Token::Not,
            Token::And => Token::And,
            Token::Or => Token::Or,
            Token::True => Token::True,
            Token::False => Token::False,
            Token::Ident(name) => Token::Ident(name.clone()),
            Token::Number(text) => Token::Number(text.clone()),
            Token::Comment(text) => Token::Comment(text.clone()),
        }
    }
}

/// A number for each kind of token.
pub open spec fn kind_view(t: TokenView) -> u8 {
    match t {
        TokenView::Comma => 0,
        TokenView::Colon => 1,
        TokenView::Semicolon => 2,
        TokenView::Dot => 3,
        TokenView::Lparen => 4,
        TokenView::Rparen => 5,
        TokenView::Lbracket => 6,
        TokenView::Rbracket => 7,
        TokenView::Plus => 8,
        TokenView::Star => 9,
        TokenView::Slash => 10,
        TokenView::Percent => 11,
        TokenView::Equals => 12,
        TokenView::GT => 13,
        TokenView::LT => 14,
        TokenView::GE => 15,
        TokenView::LE => 16,
        TokenView::EQ => 17,
        TokenView::NE => 18,
        TokenView::Spacing => 19,
        TokenView::Newline => 20,
        TokenView::Arrow => 21,
        TokenView::Fn => 22,
        TokenView::Forall => 23,
        TokenView::In => 24,
        TokenView::Let => 25,
        TokenView::If => 26,
        TokenView::Then => 27,
        TokenView::Else => 28,
        TokenView::Not => 29,
        TokenView::And => 30,
        TokenView::Or => 31,
        TokenView::True => 32,
        TokenView::False => 33,
        TokenView::Ident(_) => 34,
        TokenView::Number(_) => 35,
        TokenView::Comment(_) => 36,
        TokenView::Lambda => 37,
    }
}

impl Token {
    /// The number of the token's kind.
    pub fn kind(&self) -> (k: u8)
        ensures
            k == kind_view(self@),
    {
        match self {
            Token::Comma => 0,
            Token::Colon => 1,
            Token::Semicolon => 2,
            Token::Dot => 3,
            Token::Lparen => 4,
            Token::Rparen => 5,
            Token::Lbracket => 6,
            Token::Rbracket => 7,
            Token::Plus => 8,
            Token::Star => 9,
            Token::Slash => 10,
            Token::Percent => 11,
            Token::Equals => 12,
            Token::GT => 13,
            Token::LT => 14,
            Token::GE => 15,
            Token::LE => 16,
            Token::EQ => 17,
            Token::NE => 18,
            Token::Spacing => 19,
            Token::Newline => 20,
            Token::Arrow => 21,
            Token::Fn => 22,
            Token::Forall => 23,
            Token::In => 24,
            Token::Let => 25,
            Token::If => 26,
            Token::Then => 27,
            Token::Else => 28,
            Token::Not => 29,
            Token::And => 30,
            Token::Or => 31,
            Token::True => 32,
            Token::False => 33,
            Token::Ident(_) => 34,
            Token::Number(_) => 35,
            Token::Comment(_) => 36,
            Token::Lambda => 37,
        }
    }
}

/// A blank other than the end of a line.
pub open spec fn is_blank(c: char) -> bool {
    c == ' ' || c == '\t' || c == '\r'
}

pub open spec fn is_digit(c: char) -> bool {
    '0' <= c && c <= '9'
}

/// A character that a name can start with.
pub open spec fn is_ident_start(c: char) -> bool {
    ('a' <= c && c <= 'z') || ('A' <= c && c <= 'Z') || c == '_'
}

/// A character that a name can go on with.
pub open spec fn is_ident_char(c: char) -> bool {
    is_ident_start(c) || is_digit(c)
}

pub open spec fn blanks() -> spec_fn(char) -> bool {
    |c: char| is_blank(c)
}

pub open spec fn newlines() -> spec_fn(char) -> bool {
    |c: char| c == '\n'
}

pub open spec fn digits() -> spec_fn(char) -> bool {
    |c: char| is_digit(c)
}

pub open spec fn ident_chars() -> spec_fn(char) -> bool {
    |c: char| is_ident_char(c)
}

pub open spec fn within_line() -> spec_fn(char) -> bool {
    |c: char| c != '\n'
}

/// The keyword that `name` is, if it is one.
pub open spec fn keyword_view(name: Seq<char>) -> Option<TokenView> {
    if name == seq!['f', 'n'] {
        Some(TokenView::Fn)
    } else if name == seq!['f', 'o', 'r', 'a', 'l', 'l'] {
        Some(TokenView::Forall)
    } else if name == seq!['i', 'n'] {
        Some(TokenView::In)
    } else if name == seq!['l', 'e', 't'] {
        Some(TokenView::Let)
    } else if name == seq!['i', 'f'] {
        Some(TokenView::If)
    } else if name == seq!['t', 'h', 'e', 'n'] {
        Some(TokenView::Then)
    } else if name == seq!['e', 'l', 's', 'e'] {
        Some(TokenView::Else)
    } else if name == seq!['n', 'o', 't'] {
        Some(TokenView::Not)
    } else if name == seq!['a', 'n', 'd'] {
        Some(TokenView::And)
    } else if name == seq!['o', 'r'] {
        Some(TokenView::Or)
    } else if name == seq!['t', 'r', 'u', 'e'] {
        Some(TokenView::True)
    } else if name == seq!['f', 'a', 'l', 's', 'e'] {
        Some(TokenView::False)
    } else {
        None
    }
}

/// The name at the front of `s`: a letter or `_`, and the letters, digits
/// and `_` that follow. Empty where `s` starts with something else.
pub open spec fn scan_identifier(s: Seq<char>) -> Seq<char> {
    if s.len() > 0 && is_ident_start(s[0]) {
        s.take(span(s, ident_chars()) as int)
    } else {
        Seq::empty()
    }
}

/// The number at the front of `s`, as its text and how many characters it
/// takes up: digits; then, after a `.`, more digits; then, after an `e`,
/// more digits. A `.` or an `e` that no digit follows is taken up but not
/// part of the text. Empty where `s` does not start with a digit.
pub open spec fn scan_number(s: Seq<char>) -> (Seq<char>, nat) {
    let whole = span(s, digits()) as int;
    if whole == 0 {
        (Seq::empty(), 0)
    } else {
        let (text, at): (Seq<char>, int) = if whole < s.len() && s[whole] == '.' {
            let fraction = span(s.skip(whole + 1), digits()) as int;
            (
                if fraction > 0 {
                    s.take(whole).push('.') + s.subrange(whole + 1, whole + 1 + fraction)
                } else {
                    s.take(whole)
                },
                whole + 1 + fraction,
            )
        } else {
            (s.take(whole), whole)
        };
        if at < s.len() && s[at] == 'e' {
            let exponent = span(s.skip(at + 1), digits()) as int;
            (
                if exponent > 0 {
                    text.push('e') + s.subrange(at + 1, at + 1 + exponent)
                } else {
                    text
                },
                (at + 1 + exponent) as nat,
            )
        } else {
            (text, at as nat)
        }
    }
}

/// The token at the front of `s` and how many characters it takes up, or
/// `None` where `s` starts with no token.
pub open spec fn lex(s: Seq<char>) -> Option<(TokenView, nat)> {
    if s.len() == 0 {
        None
    } else {
        let c = s[0];
        if c == ',' {
            Some((TokenView::Comma, 1))
        } else if c == ':' {
            Some((TokenView::Colon, 1))
        } else if c == ';' {
            Some((TokenView::Semicolon, 1))
        } else if c == '.' {
            Some((TokenView::Dot, 1))
        } else if c == '(' {
            Some((TokenView::Lparen, 1))
        } else if c == ')' {
            Some((TokenView::Rparen, 1))
        } else if c == '[' {
            Some((TokenView::Lbracket, 1))
        } else if c == ']' {
            Some((TokenView::Rbracket, 1))
        } else if c == '+' {
            Some((TokenView::Plus, 1))
        } else if c == '*' {
            Some((TokenView::Star, 1))
        } else if c == '/' {
            Some((TokenView::Slash, 1))
        } else if c == '%' {
            Some((TokenView::Percent, 1))
        } else if c == '\\' {
            Some((TokenView::Lambda, 1))
        } else if c == '<' {
            if s.len() > 1 && s[1] == '=' {
                Some((TokenView::LE, 2))
            } else {
                Some((TokenView::LT, 1))
            }
        } else if c == '>' {
            if s.len() > 1 && s[1] == '=' {
                Some((TokenView::GE, 2))
            } else {
                Some((TokenView::GT, 1))
            }
        } else if c == '=' {
            if s.len() > 1 && s[1] == '=' {
                Some((TokenView::EQ, 2))
            } else {
                Some((TokenView::Equals, 1))
            }
        } else if c == '!' {
            if s.len() > 1 && s[1] == '=' {
                Some((TokenView::NE, 2))
            } else {
                None
            }
        } else if is_blank(c) {
            Some((TokenView::Spacing, span(s, blanks())))
        } else if c == '\n' {
            Some((TokenView::Newline, span(s, newlines())))
        } else if c == '-' {
            if s.len() == 1 {
                None
            } else if s[1] == '>' {
                Some((TokenView::Arrow, 2))
            } else if s[1] == '-' {
                let n = span(s.skip(2), within_line()) as int;
                Some((TokenView::Comment(s.subrange(2, 2 + n)), (2 + n) as nat))
            } else if is_digit(s[1]) {
                let (text, n) = scan_number(s.skip(1));
                Some((TokenView::Number(seq!['-'] + text), 1 + n))
            } else {
                None
            }
        } else if is_ident_start(c) {
            let name = scan_identifier(s);
            Some(
                (
                    match keyword_view(name) {
                        Some(k) => k,
                        None => TokenView::Ident(name),
                    },
                    name.len(),
                ),
            )
        } else if is_digit(c) {
            let (text, n) = scan_number(s);
            Some((TokenView::Number(text), n))
        } else {
            None
        }
    }
}

/// `String::push`: the string with `c` added at its end.
#[verifier::external_body]
fn push_char(s: &mut String, c: char)
    ensures
        final(s)@ == old(s)@.push(c),
{
    s.push(c)
}

/// The string that holds the characters of `chars`, in order.
pub fn string_of(chars: &Vec<char>) -> (s: String)
    ensures
        s@ == chars@,
{
    let mut s = String::new();
    let mut i: usize = 0;
    while i < chars.len()
        invariant
            i <= chars.len(),
            s@ == chars@.take(i as int),
        decreases chars.len() - i,
    {
        push_char(&mut s, chars[i]);
        assert(chars@.take(i + 1) =~= chars@.take(i as int).push(chars@[i as int]));
        i = i + 1;
    }
    assert(chars@.take(chars.len() as int) =~= chars@);
    s
}

/// Takes the characters at the front of `s` that `predicate` accepts, where
/// `predicate` decides as `class` does.
fn take_class<P: Fn(&char) -> bool>(
    s: &mut Stream<char>,
    predicate: P,
    Ghost(class): Ghost<spec_fn(char) -> bool>,
) -> (taken: Vec<char>)
    requires
        forall|c: &char| call_requires(predicate, (c,)),
        forall|c: &char, b: bool| call_ensures(predicate, (c,), b) ==> b == class(*c),
    ensures
        final(s).source() == old(s).source(),
        final(s).committed() == old(s).committed(),
        taken@ == old(s).rest().take(span(old(s).rest(), class) as int),
        taken.len() == span(old(s).rest(), class),
        final(s).position() == old(s).position() + span(old(s).rest(), class),
        final(s).position() <= old(s).source().len(),
        final(s).rest() == old(s).rest().skip(span(old(s).rest(), class) as int),
{
    let ghost rest = s.rest();
    let taken = s.take_while(predicate);
    proof {
        let n = taken.len() as nat;
        assert(s.rest() =~= rest.skip(n as int));
        if s.rest().len() > 0 {
            assert(s.rest()[0] == rest[n as int]);
        }
        assert forall|i: int| 0 <= i < n implies class(#[trigger] rest[i]) by {
            assert(call_ensures(predicate, (&rest[i],), true));
        }
        lemma_span_unique(rest, class, n);
        assert(taken@ =~= rest.take(n as int));
    }
    taken
}

/// Takes the digits at the front of `s`.
fn take_digits(s: &mut Stream<char>) -> (taken: Vec<char>)
    ensures
        final(s).source() == old(s).source(),
        final(s).committed() == old(s).committed(),
        taken@ == old(s).rest().take(span(old(s).rest(), digits()) as int),
        taken.len() == span(old(s).rest(), digits()),
        final(s).position() == old(s).position() + span(old(s).rest(), digits()),
        final(s).position() <= old(s).source().len(),
        final(s).rest() == old(s).rest().skip(span(old(s).rest(), digits()) as int),
{
    let accept = |c: &char| -> (b: bool)
        ensures
            b == is_digit(*c),
        { digit(*c) };
    take_class(s, accept, Ghost(digits()))
}

/// Whether `c` is a digit.
fn digit(c: char) -> (b: bool)
    ensures
        b == is_digit(c),
{
    c >= '0' && c <= '9'
}

/// Whether `c` can start a name.
fn starts_ident(c: char) -> (b: bool)
    ensures
        b == is_ident_start(c),
{
    (c >= 'a' && c <= 'z') || (c >= 'A' && c <= 'Z') || c == '_'
}

/// Whether the next character of `s` is `c`.
fn next_is(s: &Stream<char>, c: char) -> (b: bool)
    ensures
        b == (s.rest().len() > 0 && s.rest()[0] == c),
{
    match s.peek() {
        Some(x) => *x == c,
        None => false,
    }
}

/// Reads the number at the front of `s`, as its characters.
fn number_chars(s: &mut Stream<char>) -> (text: Vec<char>)
    ensures
        final(s).source() == old(s).source(),
        final(s).committed() == old(s).committed(),
        text@ == scan_number(old(s).rest()).0,
        final(s).position() == old(s).position() + scan_number(old(s).rest()).1,
        final(s).position() <= old(s).source().len(),
{
    let ghost rest = s.rest();
    let mut text = take_digits(s);
    let ghost whole = text.len() as int;
    if text.len() == 0 {
        assert(text@ =~= Seq::<char>::empty());
        return text;
    }
    let ghost mut at = whole;
    if next_is(s, '.') {
        s.advance();
        assert(s.rest() =~= rest.skip(whole + 1));
        let mut fraction = take_digits(s);
        proof {
            at = whole + 1 + fraction.len();
            assert(fraction@ =~= rest.subrange(whole + 1, whole + 1 + fraction.len()));
            assert(s.rest() =~= rest.skip(at));
        }
        if fraction.len() > 0 {
            text.push('.');
            text.append(&mut fraction);
        }
    }
    let ghost first = text@;
    if next_is(s, 'e') {
        s.advance();
        assert(s.rest() =~= rest.skip(at + 1));
        let mut exponent = take_digits(s);
        proof {
            assert(exponent@ =~= rest.subrange(at + 1, at + 1 + exponent.len()));
        }
        if exponent.len() > 0 {
            text.push('e');
            text.append(&mut exponent);
        }
    }
    text
}

/// Reads the number at the front of `s`: digits, a fraction, an exponent.
/// Where `s` does not start with a digit, nothing is read.
pub fn number(s: &mut Stream<char>) -> (r: String)
    ensures
        final(s).source() == old(s).source(),
        final(s).committed() == old(s).committed(),
        r@ == scan_number(old(s).rest()).0,
        final(s).position() == old(s).position() + scan_number(old(s).rest()).1,
{
    let text = number_chars(s);
    string_of(&text)
}

/// Reads the name at the front of `s`, as its characters.
fn identifier_chars(s: &mut Stream<char>) -> (name: Vec<char>)
    ensures
        final(s).source() == old(s).source(),
        final(s).committed() == old(s).committed(),
        name@ == scan_identifier(old(s).rest()),
        final(s).position() == old(s).position() + name.len(),
        final(s).position() <= old(s).source().len(),
        old(s).rest().len() > 0 && is_ident_start(old(s).rest()[0]) ==> name.len() > 0,
{
    let starts = match s.peek() {
        Some(c) => starts_ident(*c),
        None => false,
    };
    if starts {
        proof {
            lemma_span_holds(s.rest(), ident_chars());
            if span(s.rest(), ident_chars()) == 0 {
                assert(!ident_chars()(s.rest()[0]));
            }
        }
        let accept = |c: &char| -> (b: bool)
            ensures
                b == is_ident_char(*c),
            { starts_ident(*c) || digit(*c) };
        take_class(s, accept, Ghost(ident_chars()))
    } else {
        let _ = s.remaining();
        let name: Vec<char> = Vec::new();
        assert(name@ =~= Seq::<char>::empty());
        name
    }
}

/// Reads the name at the front of `s`. Where `s` does not start with a
/// letter or `_`, nothing is read.
pub fn identifier(s: &mut Stream<char>) -> (r: String)
    ensures
        final(s).source() == old(s).source(),
        final(s).committed() == old(s).committed(),
        r@ == scan_identifier(old(s).rest()),
        final(s).position() == old(s).position() + r@.len(),
{
    let name = identifier_chars(s);
    string_of(&name)
}

/// Whether `name` reads as `word`.
fn reads(name: &Vec<char>, word: &[char]) -> (b: bool)
    ensures
        b == (name@ == word@),
{
    if name.len() != word.len() {
        return false;
    }
    let mut i: usize = 0;
    while i < name.len()
        invariant
            i <= name.len(),
            name.len() == word.len(),
            forall|j: int| 0 <= j < i ==> name@[j] == word@[j],
        decreases name.len() - i,
    {
        if name[i] != word[i] {
            return false;
        }
        i = i + 1;
    }
    assert(name@ =~= word@);
    true
}

/// The keyword that `name` is, if it is one.
fn keyword(name: &Vec<char>) -> (r: Option<Token>)
    ensures
        match r {
            Some(t) => keyword_view(name@) == Some(t@),
            None => keyword_view(name@) is None,
        },
{
    if reads(name, &['f', 'n']) {
        Some(Token::Fn)
    } else if reads(name, &['f', 'o', 'r', 'a', 'l', 'l']) {
        Some(Token::Forall)
    } else if reads(name, &['i', 'n']) {
        Some(Token::In)
    } else if reads(name, &['l', 'e', 't']) {
        Some(Token::Let)
    } else if reads(name, &['i', 'f']) {
        Some(Token::If)
    } else if reads(name, &['t', 'h', 'e', 'n']) {
        Some(Token::Then)
    } else if reads(name, &['e', 'l', 's', 'e']) {
        Some(Token::Else)
    } else if reads(name, &['n', 'o', 't']) {
        Some(Token::Not)
    } else if reads(name, &['a', 'n', 'd']) {
        Some(Token::And)
    } else if reads(name, &['o', 'r']) {
        Some(Token::Or)
    } else if reads(name, &['t', 'r', 'u', 'e']) {
        Some(Token::True)
    } else if reads(name, &['f', 'a', 'l', 's', 'e']) {
        Some(Token::False)
    } else {
        None
    }
}

/// Steps over the characters at the front of `s` that `predicate`
/// accepts, where `predicate` decides as `class` does.
fn skip_class<P: Fn(&char) -> bool>(
    s: &mut Stream<char>,
    predicate: P,
    Ghost(class): Ghost<spec_fn(char) -> bool>,
)
    requires
        forall|c: &char| call_requires(predicate, (c,)),
        forall|c: &char, b: bool| call_ensures(predicate, (c,), b) ==> b == class(*c),
    ensures
        final(s).source() == old(s).source(),
        final(s).committed() == old(s).committed(),
        final(s).position() == old(s).position() + span(old(s).rest(), class),
        final(s).position() <= old(s).source().len(),
{
    let ghost rest = s.rest();
    let ghost source = s.source();
    let ghost start = s.position();
    let _ = s.remaining();
    s.squash(predicate);
    proof {
        let n = (s.position() - start) as nat;
        assert(s.rest() =~= rest.skip(n as int));
        if s.rest().len() > 0 {
            assert(s.rest()[0] == rest[n as int]);
        }
        assert forall|i: int| 0 <= i < n implies class(#[trigger] rest[i]) by {
            assert(rest[i] == source[start + i]);
            assert(call_ensures(predicate, (&source[start + i],), true));
        }
        lemma_span_unique(rest, class, n);
    }
}

/// Whether `c` is a blank other than the end of a line.
fn blank(c: char) -> (b: bool)
    ensures
        b == is_blank(c),
{
    c == ' ' || c == '\t' || c == '\r'
}

impl Streamable<char> for Token {
    open spec fn build(input: Seq<char>) -> Option<(TokenView, nat)> {
        lex(input)
    }

    /// Reads one token off the front of `s`.
    fn from(s: &mut Stream<char>) -> (r: Option<Token>) {
        let ghost rest = s.rest();
        let _ = s.remaining();
        let c = match s.next() {
            Some(c) => c,
            None => {
                return None;
            },
        };
        assert(c == rest[0]);
        assert(s.rest() =~= rest.skip(1));
        if c == ',' {
            Some(Token::Comma)
        } else if c == ':' {
            Some(Token::Colon)
        } else if c == ';' {
            Some(Token::Semicolon)
        } else if c == '.' {
            Some(Token::Dot)
        } else if c == '(' {
            Some(Token::Lparen)
        } else if c == ')' {
            Some(Token::Rparen)
        } else if c == '[' {
            Some(Token::Lbracket)
        } else if c == ']' {
            Some(Token::Rbracket)
        } else if c == '+' {
            Some(Token::Plus)
        } else if c == '*' {
            Some(Token::Star)
        } else if c == '/' {
            Some(Token::Slash)
        } else if c == '%' {
            Some(Token::Percent)
        } else if c == '\\' {
            Some(Token::Lambda)
        } else if c == '<' {
            if next_is(s, '=') {
                s.advance();
                Some(Token::LE)
            } else {
                Some(Token::LT)
            }
        } else if c == '>' {
            if next_is(s, '=') {
                s.advance();
                Some(Token::GE)
            } else {
                Some(Token::GT)
            }
        } else if c == '=' {
            if next_is(s, '=') {
                s.advance();
                Some(Token::EQ)
            } else {
                Some(Token::Equals)
            }
        } else if c == '!' {
            if next_is(s, '=') {
                s.advance();
                Some(Token::NE)
            } else {
                s.fallback(1)
            }
        } else if blank(c) {
            let accept = |x: &char| -> (b: bool)
                ensures
                    b == is_blank(*x),
                { blank(*x) };
            skip_class(s, accept, Ghost(blanks()));
            Some(Token::Spacing)
        } else if c == '\n' {
            let accept = |x: &char| -> (b: bool)
                ensures
                    b == (*x == '\n'),
                { *x == '\n' };
            skip_class(s, accept, Ghost(newlines()));
            Some(Token::Newline)
        } else if c == '-' {
            if next_is(s, '>') {
                s.advance();
                Some(Token::Arrow)
            } else if next_is(s, '-') {
                s.advance();
                assert(s.rest() =~= rest.skip(2));
                let accept = |x: &char| -> (b: bool)
                    ensures
                        b == (*x != '\n'),
                    { *x != '\n' };
                let text = take_class(s, accept, Ghost(within_line()));
                assert(text@ =~= rest.subrange(2, 2 + text.len()));
                Some(Token::Comment(string_of(&text)))
            } else {
                let number_follows = match s.peek() {
                    Some(d) => digit(*d),
                    None => false,
                };
                if number_follows {
                    let mut text: Vec<char> = Vec::new();
                    text.push('-');
                    let mut digits = number_chars(s);
                    text.append(&mut digits);
                    assert(text@ =~= seq!['-'] + scan_number(rest.skip(1)).0);
                    Some(Token::Number(string_of(&text)))
                } else {
                    s.fallback(1)
                }
            }
        } else if starts_ident(c) {
            s.undo(1);
            assert(s.rest() =~= rest);
            let name = identifier_chars(s);
            match keyword(&name) {
                Some(k) => Some(k),
                None => Some(Token::Ident(string_of(&name))),
            }
        } else if digit(c) {
            s.undo(1);
            assert(s.rest() =~= rest);
            proof {
                lemma_span_holds(rest, digits());
                if span(rest, digits()) == 0 {
                    assert(!digits()(rest[0]));
                }
            }
            let text = number_chars(s);
            Some(Token::Number(string_of(&text)))
        } else {
            s.fallback(1)
        }
    }
}

} // verus!
