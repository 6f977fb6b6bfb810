//! Types as they are written: how a run of tokens is read as a type, and
//! how a type is written out.

use vstd::prelude::*;
use crate::lexer::{tokens_of, Lexer};
use crate::stream::Stream;
use crate::term::{
    after_space, eat, ident, ident_at, lemma_after_space, rewind, skip_space, token_at,
};
use crate::token::{string_of, Token, TokenView};
use crate::types::names_view;

verus! {

/// A type as it is written.
#[derive(Debug, PartialEq, Eq)]
pub enum Ty {
    /// A base type, known by its name.
    Const(String),
    /// A type applied to arguments in square brackets.
    App(Box<Ty>, Vec<Ty>),
    /// A function type: the parameters in order, then the result.
    Arrow(Vec<Ty>, Box<Ty>),
    /// A type for every choice of the named types.
    Forall(Vec<String>, Box<Ty>),
}

/// What a [`Ty`] is, as a mathematical value.
pub enum TyView {
    Const(Seq<char>),
    App(Box<TyView>, Seq<TyView>),
    Arrow(Seq<TyView>, Box<TyView>),
    Forall(Seq<Seq<char>>, Box<TyView>),
}

/// The value that `t` is modelled by.
pub open spec fn ty_view(t: Ty) -> TyView
    decreases t, 0nat,
{
    match t {
        Ty::Const(name) => TyView::Const(name@),
        Ty::App(head, params) => TyView::App(Box::new(ty_view(*head)), tys_view(params)),
        Ty::Arrow(params, ret) => TyView::Arrow(tys_view(params), Box::new(ty_view(*ret))),
        Ty::Forall(names, body) => TyView::Forall(names_view(names), Box::new(ty_view(*body))),
    }
}

/// The values that the types in `ts` are modelled by, in order.
pub open spec fn tys_view(ts: Vec<Ty>) -> Seq<TyView>
    decreases ts, 1nat,
{
    Seq::new(
        ts.len() as nat,
        |i: int|
            if 0 <= i < ts.len() {
                ty_view(ts[i])
            } else {
                TyView::Const(Seq::empty())
            },
    )
}

impl View for Ty {
    type V = TyView;

    open spec fn view(&self) -> TyView {
        ty_view(*self)
    }
}

/// `t` applied to the parameters in square brackets at `at`, or `t` itself
/// where there are none; and the place after.
pub open spec fn with_params(ts: Seq<Token>, t: TyView, at: int) -> (TyView, int)
    decreases ts.len() - at, 1nat,
{
    if 0 <= at <= ts.len() {
        match ty_params(ts, at) {
            Some((params, end)) => (TyView::App(Box::new(t), params), end),
            None => (t, at),
        }
    } else {
        (t, at)
    }
}

/// The type that starts at `at` and the place after it: a function type,
/// or else a simple type.
pub open spec fn ty_at(ts: Seq<Token>, at: int) -> Option<(TyView, int)>
    decreases ts.len() - at, 6nat,
{
    if !(0 <= at <= ts.len()) {
        None
    } else {
        match arrow_at(ts, at) {
            Some(r) => Some(r),
            None => simple_ty_at(ts, at),
        }
    }
}

/// The parameters of a function type: `()` for none, or else a simple
/// type for one, or else two or more types in brackets with commas in
/// between.
pub open spec fn init_at(ts: Seq<Token>, at: int) -> Option<(Seq<TyView>, int)>
    decreases ts.len() - at, 4nat,
{
    if !(0 <= at <= ts.len()) {
        None
    } else if token_at(ts, at) == Some(TokenView::Lparen) && token_at(ts, at + 1) == Some(
        TokenView::Rparen,
    ) {
        Some((Seq::empty(), at + 2))
    } else {
        match simple_ty_at(ts, at) {
            Some((t, end)) => Some((seq![t], end)),
            None => tuple_at(ts, at),
        }
    }
}

/// A function type: the parameters, an arrow with blank space at will
/// around it, and the result.
pub open spec fn arrow_at(ts: Seq<Token>, at: int) -> Option<(TyView, int)>
    decreases ts.len() - at, 5nat,
{
    if !(0 <= at <= ts.len()) {
        None
    } else {
        match init_at(ts, at) {
            Some((init, a1)) => {
                let a2 = after_space(ts, a1);
                if at < a2 < ts.len() && token_at(ts, a2) == Some(TokenView::Arrow) {
                    proof {
                        lemma_after_space(ts, a2 + 1);
                    }
                    match ty_at(ts, after_space(ts, a2 + 1)) {
                        Some((ret, a3)) => Some((TyView::Arrow(init, Box::new(ret)), a3)),
                        None => None,
                    }
                } else {
                    None
                }
            },
            None => None,
        }
    }
}

/// Two or more types in brackets with commas in between and blank space
/// at will around each.
pub open spec fn tuple_at(ts: Seq<Token>, at: int) -> Option<(Seq<TyView>, int)>
    decreases ts.len() - at, 3nat,
{
    if !(0 <= at < ts.len()) {
        None
    } else if token_at(ts, at) == Some(TokenView::Lparen) {
        match ty_item(ts, at + 1) {
            Some((first, a1)) => if at < a1 < ts.len() && token_at(ts, a1) == Some(
                TokenView::Comma,
            ) {
                match ty_item(ts, a1 + 1) {
                    Some((second, a2)) => if a1 < a2 <= ts.len() {
                        let (all, a3) = more_tys(ts, seq![first, second], a2);
                        if token_at(ts, a3) == Some(TokenView::Rparen) {
                            Some((all, a3 + 1))
                        } else {
                            None
                        }
                    } else {
                        None
                    },
                    None => None,
                }
            } else {
                None
            },
            None => None,
        }
    } else {
        None
    }
}

/// A simple type: a name or a type in brackets, applied to parameters in
/// square brackets right after it up to two times over.
pub open spec fn simple_ty_at(ts: Seq<Token>, at: int) -> Option<(TyView, int)>
    decreases ts.len() - at, 3nat,
{
    if !(0 <= at <= ts.len()) {
        None
    } else {
        match ty_head_at(ts, at) {
            Some((head, a1)) => if at < a1 <= ts.len() {
                let (once, a2) = with_params(ts, head, a1);
                if a1 <= a2 <= ts.len() {
                    Some(with_params(ts, once, a2))
                } else {
                    None
                }
            } else {
                None
            },
            None => None,
        }
    }
}

/// A name, or a type in brackets with blank space at will inside them.
pub open spec fn ty_head_at(ts: Seq<Token>, at: int) -> Option<(TyView, int)>
    decreases ts.len() - at, 2nat,
{
    if !(0 <= at <= ts.len()) {
        None
    } else {
        proof {
            if at < ts.len() {
                lemma_after_space(ts, at + 1);
            }
        }
        match token_at(ts, at) {
            Some(TokenView::Ident(name)) => Some((TyView::Const(name), at + 1)),
            Some(TokenView::Lparen) => match ty_at(ts, after_space(ts, at + 1)) {
                Some((t, a1)) => {
                    let a2 = after_space(ts, a1);
                    if token_at(ts, a2) == Some(TokenView::Rparen) {
                        Some((t, a2 + 1))
                    } else {
                        None
                    }
                },
                None => None,
            },
            _ => None,
        }
    }
}

/// Parameters in square brackets: one type or more with commas in between
/// and blank space at will around each.
pub open spec fn ty_params(ts: Seq<Token>, at: int) -> Option<(Seq<TyView>, int)>
    decreases ts.len() - at, 0nat,
{
    if !(0 <= at < ts.len()) {
        None
    } else if token_at(ts, at) == Some(TokenView::Lbracket) {
        match ty_item(ts, at + 1) {
            Some((first, a1)) => if at < a1 <= ts.len() {
                let (all, a2) = more_tys(ts, seq![first], a1);
                if token_at(ts, a2) == Some(TokenView::Rbracket) {
                    Some((all, a2 + 1))
                } else {
                    None
                }
            } else {
                None
            },
            None => None,
        }
    } else {
        None
    }
}

/// A type with blank space at will around it.
pub open spec fn ty_item(ts: Seq<Token>, at: int) -> Option<(TyView, int)>
    decreases ts.len() - at, 7nat,
{
    if !(0 <= at <= ts.len()) {
        None
    } else {
        proof {
            lemma_after_space(ts, at);
        }
        match ty_at(ts, after_space(ts, at)) {
            Some((t, a)) => Some((t, after_space(ts, a))),
            None => None,
        }
    }
}

/// The types in `found` and those that follow at `at`, each after a comma.
pub open spec fn more_tys(ts: Seq<Token>, found: Seq<TyView>, at: int) -> (Seq<TyView>, int)
    decreases ts.len() - at, 8nat,
{
    if 0 <= at < ts.len() && token_at(ts, at) == Some(TokenView::Comma) {
        match ty_item(ts, at + 1) {
            Some((t, a)) => if at < a <= ts.len() {
                more_tys(ts, found.push(t), a)
            } else {
                (found, at)
            },
            None => (found, at),
        }
    } else {
        (found, at)
    }
}

/// The names in `found` and those that follow at `at`, each after a comma
/// and with blank space at will around it.
pub open spec fn more_params(ts: Seq<Token>, found: Seq<Seq<char>>, at: int) -> (
    Seq<Seq<char>>,
    int,
)
    decreases ts.len() - at,
{
    if 0 <= at < ts.len() && token_at(ts, at) == Some(TokenView::Comma) {
        let a1 = after_space(ts, at + 1);
        match ident_at(ts, a1) {
            Some(name) => if at < a1 < ts.len() {
                proof {
                    lemma_after_space(ts, a1 + 1);
                }
                more_params(ts, found.push(name), after_space(ts, a1 + 1))
            } else {
                (found, at)
            },
            None => (found, at),
        }
    } else {
        (found, at)
    }
}

/// A type for every choice of the types named in square brackets after
/// `forall`; or else a plain type.
pub open spec fn forall_at(ts: Seq<Token>, at: int) -> Option<(TyView, int)> {
    match quantified_at(ts, at) {
        Some(r) => Some(r),
        None => ty_at(ts, at),
    }
}

/// `forall`, one name or more in square brackets with commas in between,
/// and a type.
pub open spec fn quantified_at(ts: Seq<Token>, at: int) -> Option<(TyView, int)> {
    if token_at(ts, at) == Some(TokenView::Forall) && token_at(ts, at + 1) == Some(
        TokenView::Lbracket,
    ) {
        let a1 = after_space(ts, at + 2);
        match ident_at(ts, a1) {
            Some(first) => {
                let (names, a2) = more_params(ts, seq![first], after_space(ts, a1 + 1));
                if token_at(ts, a2) == Some(TokenView::Rbracket) {
                    match ty_at(ts, after_space(ts, a2 + 1)) {
                        Some((body, a3)) => Some((TyView::Forall(names, Box::new(body)), a3)),
                        None => None,
                    }
                } else {
                    None
                }
            },
            None => None,
        }
    } else {
        None
    }
}

/// The type that all of `ts` from `at` on is, if it is one: a plain type,
/// or else one with `forall`.
pub open spec fn ty_eof_at(ts: Seq<Token>, at: int) -> Option<TyView> {
    match ty_at(ts, at) {
        Some((t, end)) if end == ts.len() => Some(t),
        _ => match forall_at(ts, at) {
            Some((t, end)) if end == ts.len() => Some(t),
            _ => None,
        },
    }
}

/// Reads the type at the front of `s`. Where there is none, `s` stands
/// where it stood.
pub fn ty(s: &mut Stream<Token>) -> (r: Option<Ty>)
    ensures
        final(s).source() == old(s).source(),
        final(s).committed() == old(s).committed(),
        old(s).position() <= final(s).position() <= old(s).source().len(),
        match r {
            Some(t) => ty_at(old(s).source(), old(s).position() as int) == Some(
                (t@, final(s).position() as int),
            ),
            None => {
                &&& ty_at(old(s).source(), old(s).position() as int) is None
                &&& final(s).position() == old(s).position()
            },
        },
    decreases old(s).rest().len(), 6nat,
{
    let _ = s.remaining();
    match arrow(s) {
        Some(t) => Some(t),
        None => simple_ty(s),
    }
}

/// Reads a function type.
fn arrow(s: &mut Stream<Token>) -> (r: Option<Ty>)
    ensures
        final(s).source() == old(s).source(),
        final(s).committed() == old(s).committed(),
        old(s).position() <= final(s).position() <= old(s).source().len(),
        match r {
            Some(t) => arrow_at(old(s).source(), old(s).position() as int) == Some(
                (t@, final(s).position() as int),
            ),
            None => {
                &&& arrow_at(old(s).source(), old(s).position() as int) is None
                &&& final(s).position() == old(s).position()
            },
        },
    decreases old(s).rest().len(), 5nat,
{
    let start = s.offset();
    let params = match init(s) {
        Some(params) => params,
        None => {
            return None;
        },
    };
    skip_space(s);
    if !eat(s, &Token::Arrow) {
        rewind(s, start);
        return None;
    }
    skip_space(s);
    match ty(s) {
        Some(ret) => Some(Ty::Arrow(params, Box::new(ret))),
        None => {
            rewind(s, start);
            None
        },
    }
}

/// Reads the parameters of a function type.
fn init(s: &mut Stream<Token>) -> (r: Option<Vec<Ty>>)
    ensures
        final(s).source() == old(s).source(),
        final(s).committed() == old(s).committed(),
        old(s).position() <= final(s).position() <= old(s).source().len(),
        match r {
            Some(params) => init_at(old(s).source(), old(s).position() as int) == Some(
                (tys_view(params), final(s).position() as int),
            ),
            None => {
                &&& init_at(old(s).source(), old(s).position() as int) is None
                &&& final(s).position() == old(s).position()
            },
        },
    decreases old(s).rest().len(), 4nat,
{
    let start = s.offset();
    if eat(s, &Token::Lparen) {
        if eat(s, &Token::Rparen) {
            let none: Vec<Ty> = Vec::new();
            assert(tys_view(none) =~= Seq::<TyView>::empty());
            return Some(none);
        }
        rewind(s, start);
    }
    match simple_ty(s) {
        Some(t) => {
            let mut one: Vec<Ty> = Vec::new();
            one.push(t);
            assert(tys_view(one) =~= seq![t@]);
            Some(one)
        },
        None => tuple(s),
    }
}

/// Reads two or more types in brackets with commas in between.
fn tuple(s: &mut Stream<Token>) -> (r: Option<Vec<Ty>>)
    ensures
        final(s).source() == old(s).source(),
        final(s).committed() == old(s).committed(),
        old(s).position() <= final(s).position() <= old(s).source().len(),
        match r {
            Some(params) => tuple_at(old(s).source(), old(s).position() as int) == Some(
                (tys_view(params), final(s).position() as int),
            ),
            None => {
                &&& tuple_at(old(s).source(), old(s).position() as int) is None
                &&& final(s).position() == old(s).position()
            },
        },
    decreases old(s).rest().len(), 3nat,
{
    let start = s.offset();
    if !eat(s, &Token::Lparen) {
        return None;
    }
    let first = match item(s) {
        Some(t) => t,
        None => {
            rewind(s, start);
            return None;
        },
    };
    if !eat(s, &Token::Comma) {
        rewind(s, start);
        return None;
    }
    let second = match item(s) {
        Some(t) => t,
        None => {
            rewind(s, start);
            return None;
        },
    };
    let mut found: Vec<Ty> = Vec::new();
    found.push(first);
    found.push(second);
    assert(tys_view(found) =~= seq![first@, second@]);
    let all = more(s, found);
    if eat(s, &Token::Rparen) {
        Some(all)
    } else {
        rewind(s, start);
        None
    }
}

/// Reads the types that follow at the front of `s`, each after a comma,
/// and adds them to `found`.
fn more(s: &mut Stream<Token>, found: Vec<Ty>) -> (all: Vec<Ty>)
    requires
        old(s).position() > 0,
    ensures
        final(s).source() == old(s).source(),
        final(s).committed() == old(s).committed(),
        old(s).position() <= final(s).position() <= old(s).source().len(),
        more_tys(old(s).source(), tys_view(found), old(s).position() as int) == (
            tys_view(all),
            final(s).position() as int,
        ),
    decreases old(s).rest().len(), 8nat,
{
    let ghost ts = s.source();
    let ghost goal = more_tys(ts, tys_view(found), s.position() as int);
    let mut all = found;
    let mut left = s.remaining();
    let mut open = true;
    while open
        invariant
            s.source() == ts,
            ts == old(s).source(),
            s.committed() == old(s).committed(),
            old(s).position() <= s.position() <= ts.len(),
            left == s.rest().len(),
            open ==> goal == more_tys(ts, tys_view(all), s.position() as int),
            !open ==> goal == (tys_view(all), s.position() as int),
        decreases left + if open { 1nat } else { 0nat },
    {
        let here = s.offset();
        let ghost before = tys_view(all);
        if eat(s, &Token::Comma) {
            match item(s) {
                Some(t) => {
                    all.push(t);
                    assert(tys_view(all) =~= before.push(t@));
                    left = s.remaining();
                },
                None => {
                    rewind(s, here);
                    open = false;
                },
            }
        } else {
            open = false;
        }
    }
    all
}

/// Reads a simple type: a name or a type in brackets, applied to
/// parameters up to two times over.
fn simple_ty(s: &mut Stream<Token>) -> (r: Option<Ty>)
    ensures
        final(s).source() == old(s).source(),
        final(s).committed() == old(s).committed(),
        old(s).position() <= final(s).position() <= old(s).source().len(),
        match r {
            Some(t) => simple_ty_at(old(s).source(), old(s).position() as int) == Some(
                (t@, final(s).position() as int),
            ),
            None => {
                &&& simple_ty_at(old(s).source(), old(s).position() as int) is None
                &&& final(s).position() == old(s).position()
            },
        },
    decreases old(s).rest().len(), 3nat,
{
    let _ = s.remaining();
    match ty_head(s) {
        Some(h) => {
            let once = apply(s, h);
            let twice = apply(s, once);
            Some(twice)
        },
        None => None,
    }
}

/// Applies `t` to the parameters in square brackets at the front of `s`,
/// if there are any.
fn apply(s: &mut Stream<Token>, t: Ty) -> (r: Ty)
    ensures
        final(s).source() == old(s).source(),
        final(s).committed() == old(s).committed(),
        old(s).position() <= final(s).position() <= old(s).source().len(),
        with_params(old(s).source(), t@, old(s).position() as int) == (
            r@,
            final(s).position() as int,
        ),
    decreases old(s).rest().len(), 1nat,
{
    let _ = s.remaining();
    match params(s) {
        Some(ps) => Ty::App(Box::new(t), ps),
        None => t,
    }
}

/// Reads a name, or a type in brackets.
fn ty_head(s: &mut Stream<Token>) -> (r: Option<Ty>)
    ensures
        final(s).source() == old(s).source(),
        final(s).committed() == old(s).committed(),
        old(s).position() <= final(s).position() <= old(s).source().len(),
        match r {
            Some(t) => {
                &&& ty_head_at(old(s).source(), old(s).position() as int) == Some(
                    (t@, final(s).position() as int),
                )
                &&& final(s).position() > old(s).position()
            },
            None => {
                &&& ty_head_at(old(s).source(), old(s).position() as int) is None
                &&& final(s).position() == old(s).position()
            },
        },
    decreases old(s).rest().len(), 2nat,
{
    let start = s.offset();
    match ident(s) {
        Some(name) => {
            return Some(Ty::Const(name));
        },
        None => {},
    }
    if !eat(s, &Token::Lparen) {
        return None;
    }
    skip_space(s);
    let inner = match ty(s) {
        Some(t) => t,
        None => {
            rewind(s, start);
            return None;
        },
    };
    skip_space(s);
    if eat(s, &Token::Rparen) {
        Some(inner)
    } else {
        rewind(s, start);
        None
    }
}

/// Reads parameters in square brackets.
fn params(s: &mut Stream<Token>) -> (r: Option<Vec<Ty>>)
    ensures
        final(s).source() == old(s).source(),
        final(s).committed() == old(s).committed(),
        old(s).position() <= final(s).position() <= old(s).source().len(),
        match r {
            Some(ps) => ty_params(old(s).source(), old(s).position() as int) == Some(
                (tys_view(ps), final(s).position() as int),
            ),
            None => {
                &&& ty_params(old(s).source(), old(s).position() as int) is None
                &&& final(s).position() == old(s).position()
            },
        },
    decreases old(s).rest().len(), 0nat,
{
    let start = s.offset();
    if !eat(s, &Token::Lbracket) {
        return None;
    }
    let first = match item(s) {
        Some(t) => t,
        None => {
            rewind(s, start);
            return None;
        },
    };
    let mut found: Vec<Ty> = Vec::new();
    found.push(first);
    assert(tys_view(found) =~= seq![first@]);
    let all = more(s, found);
    if eat(s, &Token::Rbracket) {
        Some(all)
    } else {
        rewind(s, start);
        None
    }
}

/// Reads a type with blank space at will around it.
fn item(s: &mut Stream<Token>) -> (r: Option<Ty>)
    ensures
        final(s).source() == old(s).source(),
        final(s).committed() == old(s).committed(),
        old(s).position() <= final(s).position() <= old(s).source().len(),
        match r {
            Some(t) => ty_item(old(s).source(), old(s).position() as int) == Some(
                (t@, final(s).position() as int),
            ),
            None => {
                &&& ty_item(old(s).source(), old(s).position() as int) is None
                &&& final(s).position() == old(s).position()
            },
        },
    decreases old(s).rest().len(), 7nat,
{
    let start = s.offset();
    skip_space(s);
    match ty(s) {
        Some(t) => {
            skip_space(s);
            Some(t)
        },
        None => {
            rewind(s, start);
            None
        },
    }
}

/// Reads a type with `forall` before it.
fn quantified(s: &mut Stream<Token>) -> (r: Option<Ty>)
    ensures
        final(s).source() == old(s).source(),
        final(s).committed() == old(s).committed(),
        old(s).position() <= final(s).position() <= old(s).source().len(),
        match r {
            Some(t) => quantified_at(old(s).source(), old(s).position() as int) == Some(
                (t@, final(s).position() as int),
            ),
            None => {
                &&& quantified_at(old(s).source(), old(s).position() as int) is None
                &&& final(s).position() == old(s).position()
            },
        },
{
    let ghost ts = s.source();
    let start = s.offset();
    if !eat(s, &Token::Forall) {
        return None;
    }
    if !eat(s, &Token::Lbracket) {
        rewind(s, start);
        return None;
    }
    skip_space(s);
    let first = match ident(s) {
        Some(name) => name,
        None => {
            rewind(s, start);
            return None;
        },
    };
    skip_space(s);
    let mut names: Vec<String> = Vec::new();
    names.push(first);
    assert(names_view(names) =~= seq![first@]);
    let ghost goal = more_params(ts, names_view(names), s.position() as int);
    let mut left = s.remaining();
    let mut open = true;
    while open
        invariant
            s.source() == ts,
            ts == old(s).source(),
            s.committed() == old(s).committed(),
            start < s.position() <= ts.len(),
            left == s.rest().len(),
            open ==> goal == more_params(ts, names_view(names), s.position() as int),
            !open ==> goal == (names_view(names), s.position() as int),
        decreases left + if open { 1nat } else { 0nat },
    {
        let here = s.offset();
        let ghost found = names_view(names);
        if eat(s, &Token::Comma) {
            skip_space(s);
            match ident(s) {
                Some(name) => {
                    skip_space(s);
                    names.push(name);
                    assert(names_view(names) =~= found.push(name@));
                    left = s.remaining();
                },
                None => {
                    rewind(s, here);
                    open = false;
                },
            }
        } else {
            open = false;
        }
    }
    if !eat(s, &Token::Rbracket) {
        rewind(s, start);
        return None;
    }
    skip_space(s);
    match ty(s) {
        Some(body) => Some(Ty::Forall(names, Box::new(body))),
        None => {
            rewind(s, start);
            None
        },
    }
}

/// Reads the type at the front of `s`, with `forall` before it or
/// without. Where there is none, `s` stands where it stood.
pub fn scheme(s: &mut Stream<Token>) -> (r: Option<Ty>)
    ensures
        final(s).source() == old(s).source(),
        final(s).committed() == old(s).committed(),
        old(s).position() <= final(s).position() <= old(s).source().len(),
        match r {
            Some(t) => forall_at(old(s).source(), old(s).position() as int) == Some(
                (t@, final(s).position() as int),
            ),
            None => {
                &&& forall_at(old(s).source(), old(s).position() as int) is None
                &&& final(s).position() == old(s).position()
            },
        },
{
    match quantified(s) {
        Some(t) => Some(t),
        None => ty(s),
    }
}

impl Ty {
    /// Reads all of `tokens` as one type: a plain type, or else one with
    /// `forall` before it.
    pub fn from_tokens(tokens: Vec<Token>) -> (r: Option<Ty>)
        ensures
            match r {
                Some(t) => ty_eof_at(tokens@, 0) == Some(t@),
                None => ty_eof_at(tokens@, 0) is None,
            },
    {
        let mut s = Stream::new(tokens);
        match ty(&mut s) {
            Some(t) => {
                if s.remaining() == 0 {
                    return Some(t);
                }
                let now = s.offset();
                s.undo(now);
            },
            None => {},
        }
        match scheme(&mut s) {
            Some(t) => {
                if s.remaining() == 0 {
                    Some(t)
                } else {
                    None
                }
            },
            None => None,
        }
    }
}

/// How `t` is written.
///
/// A name is written as it is; an application as the type and, in square
/// brackets, its parameters with `, ` in between; a function type as its
/// parameters, ` -> ` and its result, where no parameter is `()`, one that
/// is a name or an application stands bare, and any others stand in
/// brackets with `, ` in between; a type with `forall` as `forall`, the
/// names in square brackets with `, ` in between, a blank and the type.
pub open spec fn written(t: TyView) -> Seq<char>
    decreases t, 0nat,
{
    match t {
        TyView::Const(name) => name,
        TyView::App(head, params) => written(*head) + seq!['['] + listed(params, params.len())
            + seq![']'],
        TyView::Arrow(init, tail) => (if init.len() == 0 {
            seq!['(', ')']
        } else if init.len() == 1 {
            match init[0] {
                TyView::Const(_) => written(init[0]),
                TyView::App(_, _) => written(init[0]),
                _ => seq!['('] + written(init[0]) + seq![')'],
            }
        } else {
            seq!['('] + listed(init, init.len()) + seq![')']
        }) + seq![' ', '-', '>', ' '] + written(*tail),
        TyView::Forall(names, body) => seq!['f', 'o', 'r', 'a', 'l', 'l', '['] + named(
            names,
            names.len(),
        ) + seq![']', ' '] + written(*body),
    }
}

/// The first `n` of `ts` as they are written, with `, ` in between.
pub open spec fn listed(ts: Seq<TyView>, n: nat) -> Seq<char>
    decreases ts, n,
{
    if n == 0 || n > ts.len() {
        Seq::empty()
    } else if n == 1 {
        written(ts[0])
    } else {
        listed(ts, (n - 1) as nat) + seq![',', ' '] + written(ts[n - 1])
    }
}

/// The first `n` of `names`, with `, ` in between.
pub open spec fn named(names: Seq<Seq<char>>, n: nat) -> Seq<char>
    decreases n,
{
    if n == 0 || n > names.len() {
        Seq::empty()
    } else if n == 1 {
        names[0]
    } else {
        named(names, (n - 1) as nat) + seq![',', ' '] + names[n - 1]
    }
}

/// Adds the characters of `more` to the end of `out`.
fn push_all(out: &mut Vec<char>, more: &[char])
    ensures
        final(out)@ == old(out)@ + more@,
{
    let mut i: usize = 0;
    while i < more.len()
        invariant
            i <= more.len(),
            out@ == old(out)@ + more@.take(i as int),
        decreases more.len() - i,
    {
        out.push(more[i]);
        assert(more@.take(i + 1) =~= more@.take(i as int).push(more@[i as int]));
        i = i + 1;
    }
    assert(more@.take(more.len() as int) =~= more@);
}

/// Adds the characters of `text` to the end of `out`.
fn push_text(out: &mut Vec<char>, text: &String)
    ensures
        final(out)@ == old(out)@ + text@,
{
    let s = text.as_str();
    let n = s.unicode_len();
    let mut i: usize = 0;
    while i < n
        invariant
            s@ == text@,
            n == s@.len(),
            i <= n,
            out@ == old(out)@ + s@.take(i as int),
        decreases n - i,
    {
        out.push(s.get_char(i));
        assert(s@.take(i + 1) =~= s@.take(i as int).push(s@[i as int]));
        i = i + 1;
    }
    assert(s@.take(n as int) =~= s@);
}

/// Adds the types in `ts` as they are written to the end of `out`, with
/// `, ` in between.
fn write_all(ts: &Vec<Ty>, out: &mut Vec<char>)
    ensures
        final(out)@ == old(out)@ + listed(tys_view(*ts), ts.len() as nat),
    decreases ts, 1nat,
{
    let ghost tv = tys_view(*ts);
    let mut i: usize = 0;
    assert(old(out)@ + Seq::<char>::empty() =~= old(out)@);
    while i < ts.len()
        invariant
            tv == tys_view(*ts),
            i <= ts.len(),
            out@ == old(out)@ + listed(tv, i as nat),
        decreases ts.len() - i,
    {
        let ghost before = out@;
        if i > 0 {
            push_all(out, &[',', ' ']);
        }
        ts[i].write(out);
        proof {
            assert(tv[i as int] == ty_view(ts[i as int]));
            if i > 0 {
                assert(out@ =~= old(out)@ + (listed(tv, i as nat) + seq![',', ' '] + written(
                    tv[i as int],
                )));
            } else {
                assert(out@ =~= old(out)@ + written(tv[0]));
            }
        }
        i = i + 1;
    }
}

impl Ty {
    /// Adds the type as it is written to the end of `out`.
    pub fn write(&self, out: &mut Vec<char>)
        ensures
            final(out)@ == old(out)@ + written(self@),
        decreases self, 0nat,
    {
        match self {
            Ty::Const(name) => {
                push_text(out, name);
            },
            Ty::App(head, params) => {
                assert(tys_view(*params).len() == params.len());
                head.write(out);
                push_all(out, &['[']);
                write_all(params, out);
                push_all(out, &[']']);
                assert(out@ =~= old(out)@ + written(self@));
            },
            Ty::Arrow(init, tail) => {
                assert(tys_view(*init).len() == init.len());
                if init.len() == 0 {
                    push_all(out, &['(', ')']);
                } else if init.len() == 1 {
                    assert(tys_view(*init)[0] == ty_view(init[0]));
                    let bare = match &init[0] {
                        Ty::Const(_) => true,
                        Ty::App(_, _) => true,
                        _ => false,
                    };
                    if bare {
                        init[0].write(out);
                    } else {
                        push_all(out, &['(']);
                        init[0].write(out);
                        push_all(out, &[')']);
                    }
                } else {
                    push_all(out, &['(']);
                    write_all(init, out);
                    push_all(out, &[')']);
                }
                push_all(out, &[' ', '-', '>', ' ']);
                tail.write(out);
                assert(out@ =~= old(out)@ + written(self@));
            },
            Ty::Forall(names, body) => {
                assert(names_view(*names).len() == names.len());
                push_all(out, &['f', 'o', 'r', 'a', 'l', 'l', '[']);
                let ghost nv = names_view(*names);
                let ghost start = out@;
                let mut i: usize = 0;
                assert(start + Seq::<char>::empty() =~= start);
                while i < names.len()
                    invariant
                        nv == names_view(*names),
                        i <= names.len(),
                        out@ == start + named(nv, i as nat),
                    decreases names.len() - i,
                {
                    if i > 0 {
                        push_all(out, &[',', ' ']);
                    }
                    push_text(out, &names[i]);
                    proof {
                        if i > 0 {
                            assert(out@ =~= start + (named(nv, i as nat) + seq![',', ' ']
                                + nv[i as int]));
                        } else {
                            assert(out@ =~= start + nv[0]);
                        }
                    }
                    i = i + 1;
                }
                push_all(out, &[']', ' ']);
                body.write(out);
                assert(out@ =~= old(out)@ + written(self@));
            },
        }
    }

    /// The type as it is written.
    pub fn to_text(&self) -> (r: String)
        ensures
            r@ == written(self@),
    {
        let mut out: Vec<char> = Vec::new();
        self.write(&mut out);
        assert(out@ =~= written(self@));
        string_of(&out)
    }
}

/// The mathematical values of the tokens in `ts`, in order.
pub open spec fn token_views(ts: Seq<Token>) -> Seq<TokenView> {
    Seq::new(ts.len(), |i: int| ts[i]@)
}

/// Whether `r` is what reading `text` as a type gives: nothing where
/// `text` is not made of tokens, and otherwise what its tokens are as a
/// type.
pub open spec fn read_as_ty(text: Seq<char>, r: Option<TyView>) -> bool {
    match tokens_of(text) {
        Err(_) => r is None,
        Ok(vs) => exists|ts: Seq<Token>| #[trigger] token_views(ts) == vs && r == ty_eof_at(ts, 0),
    }
}

/// The characters of `text`, in order.
fn chars_of(text: &str) -> (chars: Vec<char>)
    ensures
        chars@ == text@,
{
    let n = text.unicode_len();
    let mut chars: Vec<char> = Vec::new();
    let mut i: usize = 0;
    while i < n
        invariant
            n == text@.len(),
            i <= n,
            chars@ == text@.take(i as int),
        decreases n - i,
    {
        chars.push(text.get_char(i));
        assert(text@.take(i + 1) =~= text@.take(i as int).push(text@[i as int]));
        i = i + 1;
    }
    assert(text@.take(n as int) =~= text@);
    chars
}

impl Ty {
    /// Reads all of `text` as one type: a plain type, or else one with
    /// `forall` before it.
    pub fn from_text(text: &str) -> (r: Option<Ty>)
        ensures
            read_as_ty(
                text@,
                match r {
                    Some(t) => Some(t@),
                    None => None,
                },
            ),
    {
        let chars = chars_of(text);
        let mut lexer = Lexer::new(chars);
        assert(lexer.rest() =~= text@);
        match lexer.collect() {
            Ok(tokens) => {
                assert(token_views(tokens@) =~= Seq::new(
                    tokens.len() as nat,
                    |i: int| tokens[i]@,
                ));
                Ty::from_tokens(tokens)
            },
            Err(_) => None,
        }
    }
}

impl std::str::FromStr for Ty {
    type Err = ();

    /// Reads all of `s` as one type.
    fn from_str(s: &str) -> (r: Result<Ty, ()>)
        ensures
            read_as_ty(
                s@,
                match r {
                    Ok(t) => Some(t@),
                    Err(_) => None,
                },
            ),
    {
        match Ty::from_text(s) {
            Some(t) => Ok(t),
            None => Err(()),
        }
    }
}

} // verus!
