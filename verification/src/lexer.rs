//! The lexer: characters in, tokens out.

use vstd::prelude::*;
use crate::stream::Stream;
use crate::token::{lex, Token, TokenView};
use crate::tokenizer::{tokenize, Tokenizer, Unexpected};

verus! {

/// The tokens that `input` is made of, in order; or the place of the first
/// character at which it goes on with no token.
pub open spec fn tokens_of(input: Seq<char>) -> Result<Seq<TokenView>, nat> {
    tokenize::<char, Token>(input)
}

/// Hands out the tokens that a text is made of, one at a time.
pub struct Lexer {
    tokens: Tokenizer<char, Token>,
}

impl Lexer {
    /// The stream of characters that the tokens are read from.
    pub closed spec fn stream(&self) -> Stream<char> {
        self.tokens.stream()
    }

    /// The characters that have not been read yet.
    pub open spec fn rest(&self) -> Seq<char> {
        self.stream().rest()
    }

    pub fn new(chars: Vec<char>) -> (l: Self)
        ensures
            l.stream().source() == chars@,
            l.stream().position() == 0,
            l.stream().committed() == 0,
    {
        Lexer { tokens: Tokenizer::new(chars) }
    }

    /// The next token: `None` at the end of the text, the token where the
    /// text goes on with one, and otherwise the character at which it goes
    /// on with none.
    pub fn next(&mut self) -> (r: Option<Result<Token, Unexpected<char>>>)
        ensures
            final(self).stream().source() == old(self).stream().source(),
            match r {
                None => old(self).rest().len() == 0 && final(self).stream() == old(self).stream(),
                Some(Ok(t)) => {
                    &&& final(self).stream().position() > old(self).stream().position()
                    &&& final(self).stream().committed() == final(self).stream().position()
                    &&& lex(old(self).rest()) == Some(
                        (
                            t@,
                            (final(self).stream().position() - old(self).stream().position()) as nat,
                        ),
                    )
                },
                Some(Err(e)) => {
                    &&& old(self).rest().len() > 0
                    &&& lex(old(self).rest()) is None
                    &&& e.element == old(self).rest()[0]
                    &&& e.position == old(self).stream().position()
                    &&& final(self).stream().position() == old(self).stream().position()
                    &&& final(self).stream().committed() == old(self).stream().committed()
                },
            },
    {
        self.tokens.next()
    }

    /// All the tokens that are left in the text, in order; or the first
    /// character at which the text goes on with none.
    pub fn collect(&mut self) -> (r: Result<Vec<Token>, Unexpected<char>>)
        ensures
            final(self).stream().source() == old(self).stream().source(),
            match r {
                Ok(out) => {
                    &&& tokens_of(old(self).rest()) == Ok::<Seq<TokenView>, nat>(
                        Seq::new(out.len() as nat, |i: int| out[i]@),
                    )
                    &&& final(self).rest().len() == 0
                },
                Err(e) => {
                    &&& tokens_of(old(self).rest()) == Err::<Seq<TokenView>, nat>(
                        (e.position - old(self).stream().position()) as nat,
                    )
                    &&& old(self).stream().position() <= e.position < old(
                        self,
                    ).stream().source().len()
                    &&& e.element == old(self).stream().source()[e.position as int]
                    &&& final(self).stream().position() == e.position
                },
            },
    {
        self.tokens.collect()
    }
}

} // verus!
