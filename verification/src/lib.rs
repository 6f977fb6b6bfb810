//! A transactional input stream with parser combinators on top of it, and a
//! level-based Hindley-Milner type checker for a small functional language.

pub mod stream;
pub mod util;
pub mod env;
pub mod types;
pub mod infer;
pub mod laws;
pub mod tokenizer;
pub mod token;
pub mod lexer;
pub mod combinator;
pub mod term;
pub mod ty;

pub use combinator::{
    between, many, sep_by, sep_by1, some, Built, Combinator, Rule, Select,
};
pub use env::{Bindable, Env, Gen, Id, Level};
pub use infer::{close, generalize, genarrow, infer, instantiate, unify};
pub use lexer::Lexer;
pub use stream::Stream;
pub use term::{term, term_eof};
pub use ty::{scheme, ty, Ty};
pub use token::{identifier, number, Token};
pub use tokenizer::{Streamable, Tokenizer, Unexpected};
pub use types::{Error, Term, Type, MAX_DEPTH};
