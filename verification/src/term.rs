//! The terms of the language as they are written: how a run of tokens is
//! read as a term.

use vstd::prelude::*;
use crate::stream::Stream;
use crate::token::{kind_view, string_of, Token, TokenView};
use crate::types::{Term, TermView};

verus! {

/// The token at place `at` of `ts`, if there is one.
pub open spec fn token_at(ts: Seq<Token>, at: int) -> Option<TokenView> {
    if 0 <= at < ts.len() {
        Some(ts[at]@)
    } else {
        None
    }
}

/// Whether the token at place `at` of `ts` is blank space.
pub open spec fn space_at(ts: Seq<Token>, at: int) -> bool {
    token_at(ts, at) == Some(TokenView::Spacing) || token_at(ts, at) == Some(TokenView::Newline)
}

/// The first place from `at` on that holds no blank space.
pub open spec fn after_space(ts: Seq<Token>, at: int) -> int
    decreases ts.len() - at,
{
    if space_at(ts, at) {
        after_space(ts, at + 1)
    } else {
        at
    }
}

/// Skipping blank space moves on, and not past the end.
pub proof fn lemma_after_space(ts: Seq<Token>, at: int)
    requires
        0 <= at <= ts.len(),
    ensures
        at <= after_space(ts, at) <= ts.len(),
        !space_at(ts, after_space(ts, at)),
    decreases ts.len() - at,
{
    if space_at(ts, at) {
        lemma_after_space(ts, at + 1);
    }
}

/// The name at place `at`, where an identifier stands there.
pub open spec fn ident_at(ts: Seq<Token>, at: int) -> Option<Seq<char>> {
    match token_at(ts, at) {
        Some(TokenView::Ident(name)) => Some(name),
        _ => None,
    }
}

/// `f` applied to the arguments in brackets at `at`, or `f` itself where
/// there are none; and the place after.
pub open spec fn with_args(ts: Seq<Token>, f: TermView, at: int) -> (TermView, int)
    decreases ts.len() - at, 1nat,
{
    if 0 <= at <= ts.len() {
        match term_args(ts, at) {
            Some((args, end)) => (TermView::App(Box::new(f), args), end),
            None => (f, at),
        }
    } else {
        (f, at)
    }
}

/// The term that starts at `at` and the place after it: a simple term, or
/// else a `let`, or else a function.
pub open spec fn term_at(ts: Seq<Token>, at: int) -> Option<(TermView, int)>
    decreases ts.len() - at, 4nat,
{
    if !(0 <= at <= ts.len()) {
        None
    } else {
        match simple_term_at(ts, at) {
            Some(r) => Some(r),
            None => match let_at(ts, at) {
                Some(r) => Some(r),
                None => fn_at(ts, at),
            },
        }
    }
}

/// A simple term: a name or a term in brackets, applied to arguments in
/// brackets right after it up to two times over.
pub open spec fn simple_term_at(ts: Seq<Token>, at: int) -> Option<(TermView, int)>
    decreases ts.len() - at, 3nat,
{
    if !(0 <= at <= ts.len()) {
        None
    } else {
        match head_at(ts, at) {
            Some((head, a1)) => if at < a1 <= ts.len() {
                let (once, a2) = with_args(ts, head, a1);
                if a1 <= a2 <= ts.len() {
                    Some(with_args(ts, once, a2))
                } else {
                    None
                }
            } else {
                None
            },
            None => None,
        }
    }
}

/// A name, or a term in brackets with blank space at will inside them.
/// The word `fn` counts as a name here.
pub open spec fn head_at(ts: Seq<Token>, at: int) -> Option<(TermView, int)>
    decreases ts.len() - at, 2nat,
{
    if !(0 <= at <= ts.len()) {
        None
    } else {
        proof {
            if at < ts.len() {
                lemma_after_space(ts, at + 1);
            }
        }
        match token_at(ts, at) {
            Some(TokenView::Ident(name)) => Some((TermView::Var(name), at + 1)),
            Some(TokenView::Fn) => Some((TermView::Var(seq!['f', 'n']), at + 1)),
            Some(TokenView::Lparen) => match term_at(ts, after_space(ts, at + 1)) {
                Some((t, a1)) => {
                    let a2 = after_space(ts, a1);
                    if token_at(ts, a2) == Some(TokenView::Rparen) {
                        Some((t, a2 + 1))
                    } else {
                        None
                    }
                },
                None => None,
            },
            _ => None,
        }
    }
}

/// Arguments in brackets: terms with commas in between, none at all too,
/// with blank space at will around each.
pub open spec fn term_args(ts: Seq<Token>, at: int) -> Option<(Seq<TermView>, int)>
    decreases ts.len() - at, 0nat,
{
    if !(0 <= at <= ts.len()) {
        None
    } else if token_at(ts, at) == Some(TokenView::Lparen) {
        proof {
            lemma_after_space(ts, at + 1);
        }
        let a1 = after_space(ts, at + 1);
        let (args, a2) = match term_item(ts, a1) {
            Some((first, a)) => if a1 <= a <= ts.len() {
                more_terms(ts, seq![first], a)
            } else {
                (Seq::empty(), a1)
            },
            None => (Seq::empty(), a1),
        };
        let a3 = after_space(ts, a2);
        if token_at(ts, a3) == Some(TokenView::Rparen) {
            Some((args, a3 + 1))
        } else {
            None
        }
    } else {
        None
    }
}

/// A term with blank space at will around it.
pub open spec fn term_item(ts: Seq<Token>, at: int) -> Option<(TermView, int)>
    decreases ts.len() - at, 5nat,
{
    if !(0 <= at <= ts.len()) {
        None
    } else {
        proof {
            lemma_after_space(ts, at);
        }
        match term_at(ts, after_space(ts, at)) {
            Some((t, a)) => Some((t, after_space(ts, a))),
            None => None,
        }
    }
}

/// The terms in `found` and those that follow at `at`, each after a comma.
pub open spec fn more_terms(ts: Seq<Token>, found: Seq<TermView>, at: int) -> (Seq<TermView>, int)
    decreases ts.len() - at, 6nat,
{
    if 0 <= at < ts.len() && token_at(ts, at) == Some(TokenView::Comma) {
        match term_item(ts, at + 1) {
            Some((t, a)) => if at < a <= ts.len() {
                more_terms(ts, found.push(t), a)
            } else {
                (found, at)
            },
            None => (found, at),
        }
    } else {
        (found, at)
    }
}

/// `let name = bound in body`, with blank space at will between the parts.
pub open spec fn let_at(ts: Seq<Token>, at: int) -> Option<(TermView, int)>
    decreases ts.len() - at, 3nat,
{
    if !(0 <= at <= ts.len()) {
        None
    } else if token_at(ts, at) == Some(TokenView::Let) {
        let a1 = after_space(ts, at + 1);
        proof {
            lemma_after_space(ts, at + 1);
        }
        match ident_at(ts, a1) {
            Some(name) => {
                let a2 = after_space(ts, a1 + 1);
                proof {
                    lemma_after_space(ts, a1 + 1);
                }
                if token_at(ts, a2) == Some(TokenView::Equals) {
                    proof {
                        lemma_after_space(ts, a2 + 1);
                    }
                    match term_at(ts, after_space(ts, a2 + 1)) {
                        Some((bound, a3)) => {
                            let a4 = after_space(ts, a3);
                            if at < a4 < ts.len() && token_at(ts, a4) == Some(TokenView::In) {
                                proof {
                                    lemma_after_space(ts, a4 + 1);
                                }
                                match term_at(ts, after_space(ts, a4 + 1)) {
                                    Some((body, a5)) => Some(
                                        (
                                            TermView::Let(name, Box::new(bound), Box::new(body)),
                                            a5,
                                        ),
                                    ),
                                    None => None,
                                }
                            } else {
                                None
                            }
                        },
                        None => None,
                    }
                } else {
                    None
                }
            },
            None => None,
        }
    } else {
        None
    }
}

/// The names in `found` and those that follow at `at`, each after blank
/// space at will.
pub open spec fn more_names(ts: Seq<Token>, found: Seq<Seq<char>>, at: int) -> (
    Seq<Seq<char>>,
    int,
)
    decreases ts.len() - at,
{
    if 0 <= at <= ts.len() {
        let a1 = after_space(ts, at);
        match ident_at(ts, a1) {
            Some(name) => if at <= a1 < ts.len() {
                more_names(ts, found.push(name), a1 + 1)
            } else {
                (found, at)
            },
            None => (found, at),
        }
    } else {
        (found, at)
    }
}

/// A function: the function sign, one name or more, an arrow and the body,
/// with blank space at will between the parts.
pub open spec fn fn_at(ts: Seq<Token>, at: int) -> Option<(TermView, int)>
    decreases ts.len() - at, 3nat,
{
    if !(0 <= at <= ts.len()) {
        None
    } else if token_at(ts, at) == Some(TokenView::Lambda) {
        let a1 = after_space(ts, at + 1);
        match ident_at(ts, a1) {
            Some(first) => {
                let (names, a2) = more_names(ts, seq![first], a1 + 1);
                let a3 = after_space(ts, a2);
                if at < a3 < ts.len() && token_at(ts, a3) == Some(TokenView::Arrow) {
                    proof {
                        lemma_after_space(ts, a3 + 1);
                    }
                    match term_at(ts, after_space(ts, a3 + 1)) {
                        Some((body, a4)) => Some((TermView::Abs(names, Box::new(body)), a4)),
                        None => None,
                    }
                } else {
                    None
                }
            },
            None => None,
        }
    } else {
        None
    }
}

/// The term that all of `ts` from `at` on is, if it is one.
pub open spec fn term_eof_at(ts: Seq<Token>, at: int) -> Option<TermView> {
    match term_at(ts, at) {
        Some((t, end)) => if end == ts.len() {
            Some(t)
        } else {
            None
        },
        None => None,
    }
}

/// Whether the next token of `s` is of the kind of `want`.
pub fn next_is(s: &Stream<Token>, want: &Token) -> (b: bool)
    ensures
        b == match token_at(s.source(), s.position() as int) {
            Some(t) => kind_view(t) == kind_view(want@),
            None => false,
        },
        s.committed() <= s.position() <= s.source().len(),
{
    let _ = s.remaining();
    match s.peek() {
        Some(t) => {
            assert(*t == s.source()[s.position() as int]);
            t.kind() == want.kind()
        },
        None => false,
    }
}

/// Steps over the blank space at the front of `s`.
pub fn skip_space(s: &mut Stream<Token>)
    ensures
        final(s).source() == old(s).source(),
        final(s).committed() == old(s).committed(),
        final(s).position() == after_space(old(s).source(), old(s).position() as int),
        old(s).position() <= final(s).position() <= old(s).source().len(),
{
    let mut left = s.remaining();
    proof {
        lemma_after_space(s.source(), s.position() as int);
    }
    while next_is(s, &Token::Spacing) || next_is(s, &Token::Newline)
        invariant
            s.source() == old(s).source(),
            s.committed() == old(s).committed(),
            old(s).position() <= s.position() <= s.source().len(),
            left == s.rest().len(),
            after_space(s.source(), s.position() as int) == after_space(
                old(s).source(),
                old(s).position() as int,
            ),
        decreases left,
    {
        s.advance();
        left = left - 1;
    }
}

/// Takes the name at the front of `s`, where an identifier stands there.
pub fn ident(s: &mut Stream<Token>) -> (r: Option<String>)
    ensures
        final(s).source() == old(s).source(),
        final(s).committed() == old(s).committed(),
        match r {
            Some(name) => {
                &&& ident_at(old(s).source(), old(s).position() as int) == Some(name@)
                &&& final(s).position() == old(s).position() + 1
                &&& final(s).position() <= old(s).source().len()
            },
            None => {
                &&& ident_at(old(s).source(), old(s).position() as int) is None
                &&& final(s).position() == old(s).position()
            },
        },
{
    let _ = s.remaining();
    let name = match s.peek() {
        Some(t) => {
            assert(*t == s.source()[s.position() as int]);
            match t {
                Token::Ident(name) => Some(name.clone()),
                _ => None,
            }
        },
        None => None,
    };
    if name.is_some() {
        s.advance();
    }
    name
}

/// Puts `s` back to the place `start`, which it has passed since the last
/// commit.
pub(crate) fn rewind(s: &mut Stream<Token>, start: usize)
    requires
        old(s).committed() <= start <= old(s).position(),
    ensures
        final(s).source() == old(s).source(),
        final(s).committed() == old(s).committed(),
        final(s).position() == start,
{
    let now = s.offset();
    s.undo(now - start);
}

/// Takes the token of the kind of `want` at the front of `s`, where one
/// stands there.
pub(crate) fn eat(s: &mut Stream<Token>, want: &Token) -> (b: bool)
    ensures
        final(s).source() == old(s).source(),
        final(s).committed() == old(s).committed(),
        b == match token_at(old(s).source(), old(s).position() as int) {
            Some(t) => kind_view(t) == kind_view(want@),
            None => false,
        },
        final(s).position() == old(s).position() + if b { 1nat } else { 0nat },
        old(s).committed() <= old(s).position() <= final(s).position() <= old(s).source().len(),
{
    let b = next_is(s, want);
    if b {
        s.advance();
    }
    b
}

/// Reads the term at the front of `s`. Where there is none, `s` stands
/// where it stood.
pub fn term(s: &mut Stream<Token>) -> (r: Option<Term>)
    ensures
        final(s).source() == old(s).source(),
        final(s).committed() == old(s).committed(),
        old(s).position() <= final(s).position() <= old(s).source().len(),
        match r {
            Some(t) => term_at(old(s).source(), old(s).position() as int) == Some(
                (t@, final(s).position() as int),
            ),
            None => {
                &&& term_at(old(s).source(), old(s).position() as int) is None
                &&& final(s).position() == old(s).position()
            },
        },
    decreases old(s).rest().len(), 4nat,
{
    let _ = s.remaining();
    match simple_term(s) {
        Some(t) => Some(t),
        None => match let_in(s) {
            Some(t) => Some(t),
            None => fn_arrow(s),
        },
    }
}

/// Reads a simple term: a name or a term in brackets, applied to
/// arguments up to two times over.
fn simple_term(s: &mut Stream<Token>) -> (r: Option<Term>)
    ensures
        final(s).source() == old(s).source(),
        final(s).committed() == old(s).committed(),
        old(s).position() <= final(s).position() <= old(s).source().len(),
        match r {
            Some(t) => simple_term_at(old(s).source(), old(s).position() as int) == Some(
                (t@, final(s).position() as int),
            ),
            None => {
                &&& simple_term_at(old(s).source(), old(s).position() as int) is None
                &&& final(s).position() == old(s).position()
            },
        },
    decreases old(s).rest().len(), 3nat,
{
    let _ = s.remaining();
    match head(s) {
        Some(h) => {
            let once = call(s, h);
            let twice = call(s, once);
            Some(twice)
        },
        None => None,
    }
}

/// Applies `f` to the arguments in brackets at the front of `s`, if there
/// are any.
fn call(s: &mut Stream<Token>, f: Term) -> (r: Term)
    ensures
        final(s).source() == old(s).source(),
        final(s).committed() == old(s).committed(),
        old(s).position() <= final(s).position() <= old(s).source().len(),
        with_args(old(s).source(), f@, old(s).position() as int) == (
            r@,
            final(s).position() as int,
        ),
    decreases old(s).rest().len(), 1nat,
{
    let _ = s.remaining();
    match arguments(s) {
        Some(args) => Term::App(Box::new(f), args),
        None => f,
    }
}

/// Reads a name, or a term in brackets.
fn head(s: &mut Stream<Token>) -> (r: Option<Term>)
    ensures
        final(s).source() == old(s).source(),
        final(s).committed() == old(s).committed(),
        old(s).position() <= final(s).position() <= old(s).source().len(),
        match r {
            Some(t) => {
                &&& head_at(old(s).source(), old(s).position() as int) == Some(
                    (t@, final(s).position() as int),
                )
                &&& final(s).position() > old(s).position()
            },
            None => {
                &&& head_at(old(s).source(), old(s).position() as int) is None
                &&& final(s).position() == old(s).position()
            },
        },
    decreases old(s).rest().len(), 2nat,
{
    let start = s.offset();
    match ident(s) {
        Some(name) => {
            return Some(Term::Var(name));
        },
        None => {},
    }
    if eat(s, &Token::Fn) {
        let mut word: Vec<char> = Vec::new();
        word.push('f');
        word.push('n');
        assert(word@ =~= seq!['f', 'n']);
        return Some(Term::Var(string_of(&word)));
    }
    if !eat(s, &Token::Lparen) {
        return None;
    }
    skip_space(s);
    let inner = match term(s) {
        Some(t) => t,
        None => {
            rewind(s, start);
            return None;
        },
    };
    skip_space(s);
    if eat(s, &Token::Rparen) {
        Some(inner)
    } else {
        rewind(s, start);
        None
    }
}

/// Reads arguments in brackets.
fn arguments(s: &mut Stream<Token>) -> (r: Option<Vec<Term>>)
    ensures
        final(s).source() == old(s).source(),
        final(s).committed() == old(s).committed(),
        old(s).position() <= final(s).position() <= old(s).source().len(),
        match r {
            Some(args) => term_args(old(s).source(), old(s).position() as int) == Some(
                (crate::types::terms_view(args), final(s).position() as int),
            ),
            None => {
                &&& term_args(old(s).source(), old(s).position() as int) is None
                &&& final(s).position() == old(s).position()
            },
        },
    decreases old(s).rest().len(), 0nat,
{
    let ghost ts = s.source();
    let start = s.offset();
    if !eat(s, &Token::Lparen) {
        return None;
    }
    skip_space(s);
    let mut args: Vec<Term> = Vec::new();
    assert(crate::types::terms_view(args) =~= Seq::<TermView>::empty());
    let ghost a1 = s.position() as int;
    match item(s) {
        Some(first) => {
            args.push(first);
            assert(crate::types::terms_view(args) =~= seq![first@]);
            let ghost goal = more_terms(ts, crate::types::terms_view(args), s.position() as int);
            let mut left = s.remaining();
            let mut open = true;
            while open
                invariant
                    s.source() == ts,
                    ts == old(s).source(),
                    s.committed() == old(s).committed(),
                    start == old(s).position(),
                    start < s.position() <= ts.len(),
                    left == s.rest().len(),
                    open ==> goal == more_terms(
                        ts,
                        crate::types::terms_view(args),
                        s.position() as int,
                    ),
                    !open ==> goal == (crate::types::terms_view(args), s.position() as int),
                decreases left + if open { 1nat } else { 0nat },
            {
                let here = s.offset();
                let ghost found = crate::types::terms_view(args);
                if eat(s, &Token::Comma) {
                    match item(s) {
                        Some(t) => {
                            args.push(t);
                            assert(crate::types::terms_view(args) =~= found.push(t@));
                            left = s.remaining();
                        },
                        None => {
                            rewind(s, here);
                            open = false;
                        },
                    }
                } else {
                    open = false;
                }
            }
        },
        None => {},
    }
    skip_space(s);
    if eat(s, &Token::Rparen) {
        Some(args)
    } else {
        rewind(s, start);
        None
    }
}

/// Reads a term with blank space at will around it.
fn item(s: &mut Stream<Token>) -> (r: Option<Term>)
    ensures
        final(s).source() == old(s).source(),
        final(s).committed() == old(s).committed(),
        old(s).position() <= final(s).position() <= old(s).source().len(),
        match r {
            Some(t) => term_item(old(s).source(), old(s).position() as int) == Some(
                (t@, final(s).position() as int),
            ),
            None => {
                &&& term_item(old(s).source(), old(s).position() as int) is None
                &&& final(s).position() == old(s).position()
            },
        },
    decreases old(s).rest().len(), 5nat,
{
    let start = s.offset();
    skip_space(s);
    match term(s) {
        Some(t) => {
            skip_space(s);
            Some(t)
        },
        None => {
            rewind(s, start);
            None
        },
    }
}

/// Reads `let name = bound in body`.
fn let_in(s: &mut Stream<Token>) -> (r: Option<Term>)
    ensures
        final(s).source() == old(s).source(),
        final(s).committed() == old(s).committed(),
        old(s).position() <= final(s).position() <= old(s).source().len(),
        match r {
            Some(t) => let_at(old(s).source(), old(s).position() as int) == Some(
                (t@, final(s).position() as int),
            ),
            None => {
                &&& let_at(old(s).source(), old(s).position() as int) is None
                &&& final(s).position() == old(s).position()
            },
        },
    decreases old(s).rest().len(), 3nat,
{
    let start = s.offset();
    if !eat(s, &Token::Let) {
        return None;
    }
    skip_space(s);
    let name = match ident(s) {
        Some(name) => name,
        None => {
            rewind(s, start);
            return None;
        },
    };
    skip_space(s);
    if !eat(s, &Token::Equals) {
        rewind(s, start);
        return None;
    }
    skip_space(s);
    let bound = match term(s) {
        Some(t) => t,
        None => {
            rewind(s, start);
            return None;
        },
    };
    skip_space(s);
    if !eat(s, &Token::In) {
        rewind(s, start);
        return None;
    }
    skip_space(s);
    match term(s) {
        Some(body) => Some(Term::Let(name, Box::new(bound), Box::new(body))),
        None => {
            rewind(s, start);
            None
        },
    }
}

/// Reads a function: the function sign, its parameters, an arrow and its
/// body.
fn fn_arrow(s: &mut Stream<Token>) -> (r: Option<Term>)
    ensures
        final(s).source() == old(s).source(),
        final(s).committed() == old(s).committed(),
        old(s).position() <= final(s).position() <= old(s).source().len(),
        match r {
            Some(t) => fn_at(old(s).source(), old(s).position() as int) == Some(
                (t@, final(s).position() as int),
            ),
            None => {
                &&& fn_at(old(s).source(), old(s).position() as int) is None
                &&& final(s).position() == old(s).position()
            },
        },
    decreases old(s).rest().len(), 3nat,
{
    let ghost ts = s.source();
    let start = s.offset();
    if !eat(s, &Token::Lambda) {
        return None;
    }
    skip_space(s);
    let first = match ident(s) {
        Some(name) => name,
        None => {
            rewind(s, start);
            return None;
        },
    };
    let mut names: Vec<String> = Vec::new();
    names.push(first);
    assert(crate::types::names_view(names) =~= seq![first@]);
    let ghost goal = more_names(ts, crate::types::names_view(names), s.position() as int);
    let mut left = s.remaining();
    let mut open = true;
    while open
        invariant
            s.source() == ts,
            ts == old(s).source(),
            s.committed() == old(s).committed(),
            start < s.position() <= ts.len(),
            left == s.rest().len(),
            open ==> goal == more_names(ts, crate::types::names_view(names), s.position() as int),
            !open ==> goal == (crate::types::names_view(names), s.position() as int),
        decreases left + if open { 1nat } else { 0nat },
    {
        let here = s.offset();
        let ghost found = crate::types::names_view(names);
        skip_space(s);
        match ident(s) {
            Some(name) => {
                names.push(name);
                assert(crate::types::names_view(names) =~= found.push(name@));
                left = s.remaining();
            },
            None => {
                rewind(s, here);
                open = false;
            },
        }
    }
    skip_space(s);
    if !eat(s, &Token::Arrow) {
        rewind(s, start);
        return None;
    }
    skip_space(s);
    match term(s) {
        Some(body) => Some(Term::Abs(names, Box::new(body))),
        None => {
            rewind(s, start);
            None
        },
    }
}

/// Reads all that is left in `s` as one term. Where it is not one, `s`
/// stands where it stood.
pub fn term_eof(s: &mut Stream<Token>) -> (r: Option<Term>)
    ensures
        final(s).source() == old(s).source(),
        final(s).committed() == old(s).committed(),
        match r {
            Some(t) => {
                &&& term_eof_at(old(s).source(), old(s).position() as int) == Some(t@)
                &&& final(s).position() == old(s).source().len()
            },
            None => {
                &&& term_eof_at(old(s).source(), old(s).position() as int) is None
                &&& final(s).position() == old(s).position()
            },
        },
{
    let start = s.offset();
    match term(s) {
        Some(t) => {
            if s.remaining() == 0 {
                Some(t)
            } else {
                rewind(s, start);
                None
            }
        },
        None => None,
    }
}

} // verus!
