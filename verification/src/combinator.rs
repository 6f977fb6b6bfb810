//! Parsers as values: primitives that read off a [`Stream`], and the ways
//! to put parsers together. Running one is all or nothing: where it does
//! not match, the stream stands where it stood.

use vstd::prelude::*;
use std::marker::PhantomData;
use crate::stream::Stream;
use crate::tokenizer::Streamable;

verus! {

/// A primitive parser: something that can try to read outputs off the
/// front of a stream.
pub trait Rule<In: Clone, Out: View> {
    /// What the rule reads off the front of `input`: the outputs, as the
    /// mathematical values they are modelled by, and how many elements they
    /// are made of; or `None` where the rule does not match there.
    spec fn matches(&self, input: Seq<In>) -> Option<(Seq<Out::V>, nat)>;

    /// Tries the rule at the front of the stream. It may leave the stream
    /// further on whether it matches or not, but it commits nothing and
    /// does not step back behind where it started.
    fn apply(&self, s: &mut Stream<In>) -> (out: Option<Vec<Out>>)
        ensures
            final(s).source() == old(s).source(),
            final(s).committed() == old(s).committed(),
            old(s).position() <= final(s).position() <= old(s).source().len(),
            match out {
                Some(v) => self.matches(old(s).rest()) == Some(
                    (views(v), (final(s).position() - old(s).position()) as nat),
                ),
                None => self.matches(old(s).rest()) is None,
            },
    ;
}

/// The mathematical values of the outputs in `v`, in order.
pub open spec fn views<Out: View>(v: Vec<Out>) -> Seq<Out::V> {
    Seq::new(v.len() as nat, |i: int| v[i]@)
}

/// Whether a clone of an output stands for the same mathematical value.
pub open spec fn clone_keeps_view<Out: Clone + View>() -> bool {
    forall|a: Out, b: Out| cloned(a, b) ==> a@ == b@
}

/// The rule that builds one output with the builder that the output type
/// brings along.
pub struct Built<Out> {
    out: PhantomData<Out>,
}

impl<Out> Built<Out> {
    pub fn new() -> Self {
        Built { out: PhantomData }
    }
}

impl<In: Clone, Out: Streamable<In>> Rule<In, Out> for Built<Out> {
    open spec fn matches(&self, input: Seq<In>) -> Option<(Seq<Out::V>, nat)> {
        if input.len() == 0 {
            None
        } else {
            match Out::build(input) {
                Some((v, n)) => Some((seq![v], n)),
                None => None,
            }
        }
    }

    fn apply(&self, s: &mut Stream<In>) -> (out: Option<Vec<Out>>) {
        if s.remaining() == 0 {
            return None;
        }
        let built = Out::from(s);
        let _ = s.remaining();
        match built {
            Some(t) => {
                let mut v: Vec<Out> = Vec::new();
                v.push(t);
                assert(views(v) =~= seq![t@]);
                Some(v)
            },
            None => None,
        }
    }
}

/// The mathematical value of what `r` holds, if it holds something.
pub open spec fn option_view<Out: View>(r: Option<Out>) -> Option<Out::V> {
    match r {
        Some(o) => Some(o@),
        None => None,
    }
}

/// Whether `f` can be asked about every element and its answer about an
/// element is always the same, as a mathematical value.
pub open spec fn determined<In, Out: View, F: Fn(&In) -> Option<Out>>(f: F) -> bool {
    &&& forall|x: &In| call_requires(f, (x,))
    &&& forall|x: &In, a: Option<Out>, b: Option<Out>|
        call_ensures(f, (x,), a) && call_ensures(f, (x,), b) ==> option_view(a) == option_view(b)
}

/// What `f` makes of the element `x`, as a mathematical value.
pub open spec fn selected<In, Out: View, F: Fn(&In) -> Option<Out>>(f: F, x: In) -> Option<Out::V> {
    if exists|o: Out| call_ensures(f, (&x,), Some(o)) {
        Some((choose|o: Out| call_ensures(f, (&x,), Some(o)))@)
    } else {
        None
    }
}

/// The rule that takes one element and gives what a function makes of it;
/// no match where the function makes nothing of it.
#[verifier::reject_recursive_types(In)]
#[verifier::reject_recursive_types(Out)]
pub struct Select<In, Out: View, F: Fn(&In) -> Option<Out>> {
    f: F,
    input: PhantomData<In>,
    output: PhantomData<Out>,
}

impl<In, Out: View, F: Fn(&In) -> Option<Out>> Select<In, Out, F> {
    #[verifier::type_invariant]
    spec fn well_formed(&self) -> bool {
        determined::<In, Out, F>(self.f)
    }

    /// The function that the rule asks.
    pub closed spec fn function(&self) -> F {
        self.f
    }

    pub fn new(f: F) -> (r: Self)
        requires
            determined::<In, Out, F>(f),
        ensures
            r.function() == f,
    {
        Select { f, input: PhantomData, output: PhantomData }
    }
}

impl<In: Clone, Out: View, F: Fn(&In) -> Option<Out>> Rule<In, Out> for Select<In, Out, F> {
    open spec fn matches(&self, input: Seq<In>) -> Option<(Seq<Out::V>, nat)> {
        if input.len() == 0 {
            None
        } else {
            match selected::<In, Out, F>(self.function(), input[0]) {
                Some(v) => Some((seq![v], 1)),
                None => None,
            }
        }
    }

    fn apply(&self, s: &mut Stream<In>) -> (out: Option<Vec<Out>>) {
        proof {
            use_type_invariant(self);
        }
        let ghost rest = s.rest();
        let made = match s.peek() {
            Some(x) => (self.f)(x),
            None => {
                return None;
            },
        };
        proof {
            assert(call_ensures(self.f, (&rest[0],), made));
            if exists|o: Out| call_ensures(self.f, (&rest[0],), Some(o)) {
                let o = choose|o: Out| call_ensures(self.f, (&rest[0],), Some(o));
                assert(option_view(Some(o)) == option_view(made));
            }
        }
        match made {
            Some(o) => {
                s.advance();
                let mut v: Vec<Out> = Vec::new();
                v.push(o);
                assert(views(v) =~= seq![o@]);
                Some(v)
            },
            None => None,
        }
    }
}

/// A parser put together from primitives of type `M`.
pub enum Combinator<Out, M> {
    /// The primitive itself.
    Rule(M),
    /// Matches anywhere, takes nothing and gives these outputs.
    Pure(Vec<Out>),
    /// First the one, then the other; the outputs of the first.
    KeepLeft(Box<Combinator<Out, M>>, Box<Combinator<Out, M>>),
    /// First the one, then the other; the outputs of the second.
    KeepRight(Box<Combinator<Out, M>>, Box<Combinator<Out, M>>),
    /// The first if it matches, else the second from the same place.
    Or(Box<Combinator<Out, M>>, Box<Combinator<Out, M>>),
    /// First the one, then the other; the outputs of both, in order.
    And(Box<Combinator<Out, M>>, Box<Combinator<Out, M>>),
    /// The parser again and again for as long as it matches.
    Many(Box<Combinator<Out, M>>),
    /// As `Many`, but no match where there is no output.
    Many1(Box<Combinator<Out, M>>),
    /// The first parser none or more times with the second in between: the
    /// first once, then the second and the first again and again for as long
    /// as they match, with the outputs of the first; or nothing at all where
    /// the first does not match to begin with.
    SepBy(Box<Combinator<Out, M>>, Box<Combinator<Out, M>>),
    /// As `SepBy`, but no match where the first parser does not match to
    /// begin with.
    SepBy1(Box<Combinator<Out, M>>, Box<Combinator<Out, M>>),
}

/// What the parser reads off the front of `input`: its outputs and how
/// many elements it takes, or `None` where it does not match.
pub open spec fn parse<In: Clone, Out: View, M: Rule<In, Out>>(
    c: Combinator<Out, M>,
    input: Seq<In>,
) -> Option<(Seq<Out::V>, nat)>
    decreases c, input.len() + 2,
{
    match c {
        Combinator::Rule(m) => match m.matches(input) {
            Some((out, n)) => if n <= input.len() {
                Some((out, n))
            } else {
                None
            },
            None => None,
        },
        Combinator::Pure(v) => Some((views(v), 0)),
        Combinator::KeepLeft(a, b) => match parse(*a, input) {
            Some((x, n)) => match parse(*b, input.skip(n as int)) {
                Some((_, k)) => Some((x, n + k)),
                None => None,
            },
            None => None,
        },
        Combinator::KeepRight(a, b) => match parse(*a, input) {
            Some((_, n)) => match parse(*b, input.skip(n as int)) {
                Some((y, k)) => Some((y, n + k)),
                None => None,
            },
            None => None,
        },
        Combinator::Or(a, b) => match parse(*a, input) {
            Some(r) => Some(r),
            None => parse(*b, input),
        },
        Combinator::And(a, b) => match parse(*a, input) {
            Some((x, n)) => match parse(*b, input.skip(n as int)) {
                Some((y, k)) => Some((x + y, n + k)),
                None => None,
            },
            None => None,
        },
        Combinator::Many(_) => Some(repeat(c, input)),
        Combinator::Many1(_) => {
            let (out, n) = repeat(c, input);
            if out.len() == 0 {
                None
            } else {
                Some((out, n))
            }
        },
        Combinator::SepBy(item, _) => match parse(*item, input) {
            Some((x, n)) => if n <= input.len() {
                let (more, k) = repeat(c, input.skip(n as int));
                Some((x + more, n + k))
            } else {
                None
            },
            None => Some((Seq::empty(), 0)),
        },
        Combinator::SepBy1(item, _) => match parse(*item, input) {
            Some((x, n)) => if n <= input.len() {
                let (more, k) = repeat(c, input.skip(n as int));
                Some((x + more, n + k))
            } else {
                None
            },
            None => None,
        },
    }
}

/// What one round of the repetition in `c` reads off the front of `input`:
/// the repeated parser of a `Many` or `Many1`; the separator and then the
/// item of a `SepBy` or `SepBy1`, with the outputs of the item.
pub open spec fn round<In: Clone, Out: View, M: Rule<In, Out>>(
    c: Combinator<Out, M>,
    input: Seq<In>,
) -> Option<(Seq<Out::V>, nat)>
    decreases c, input.len(),
{
    match c {
        Combinator::Many(a) => parse(*a, input),
        Combinator::Many1(a) => parse(*a, input),
        Combinator::SepBy(item, sep) => match parse(*sep, input) {
            Some((_, n)) => match parse(*item, input.skip(n as int)) {
                Some((y, k)) => Some((y, n + k)),
                None => None,
            },
            None => None,
        },
        Combinator::SepBy1(item, sep) => match parse(*sep, input) {
            Some((_, n)) => match parse(*item, input.skip(n as int)) {
                Some((y, k)) => Some((y, n + k)),
                None => None,
            },
            None => None,
        },
        _ => None,
    }
}

/// What the rounds of the repetition in `c` read off the front of `input`,
/// one after the other for as long as they match. A round that takes
/// nothing is the last.
pub open spec fn repeat<In: Clone, Out: View, M: Rule<In, Out>>(
    c: Combinator<Out, M>,
    input: Seq<In>,
) -> (Seq<Out::V>, nat)
    decreases c, input.len() + 1,
{
    match round(c, input) {
        Some((x, n)) => if 0 < n <= input.len() {
            let (more, k) = repeat(c, input.skip(n as int));
            (x + more, n + k)
        } else {
            (x, n)
        },
        None => (Seq::empty(), 0),
    }
}

/// Whether the parser can be run: where it holds outputs of its own,
/// clones of them must stand for the same values.
pub open spec fn replicable<Out: Clone + View, M>(c: Combinator<Out, M>) -> bool
    decreases c,
{
    match c {
        Combinator::Rule(_) => true,
        Combinator::Pure(_) => clone_keeps_view::<Out>(),
        Combinator::KeepLeft(a, b) => replicable(*a) && replicable(*b),
        Combinator::KeepRight(a, b) => replicable(*a) && replicable(*b),
        Combinator::Or(a, b) => replicable(*a) && replicable(*b),
        Combinator::And(a, b) => replicable(*a) && replicable(*b),
        Combinator::Many(a) => replicable(*a),
        Combinator::Many1(a) => replicable(*a),
        Combinator::SepBy(item, sep) => replicable(*item) && replicable(*sep),
        Combinator::SepBy1(item, sep) => replicable(*item) && replicable(*sep),
    }
}

impl<Out, M> Combinator<Out, M> {
    /// The parser that is the primitive `rule`.
    pub fn new(rule: M) -> (c: Self)
        ensures
            c == Combinator::<Out, M>::Rule(rule),
    {
        Combinator::Rule(rule)
    }

    /// The parser that matches anywhere, takes nothing and gives `outputs`.
    pub fn pure(outputs: Vec<Out>) -> (c: Self)
        ensures
            c == Combinator::<Out, M>::Pure(outputs),
    {
        Combinator::Pure(outputs)
    }

    /// This parser and then `next`, with the outputs of this one.
    pub fn keep_left(self, next: Self) -> (c: Self)
        ensures
            c == Combinator::KeepLeft(Box::new(self), Box::new(next)),
    {
        Combinator::KeepLeft(Box::new(self), Box::new(next))
    }

    /// This parser and then `next`, with the outputs of `next`.
    pub fn keep_right(self, next: Self) -> (c: Self)
        ensures
            c == Combinator::KeepRight(Box::new(self), Box::new(next)),
    {
        Combinator::KeepRight(Box::new(self), Box::new(next))
    }

    /// This parser, or else `other` from the same place.
    pub fn or_else(self, other: Self) -> (c: Self)
        ensures
            c == Combinator::Or(Box::new(self), Box::new(other)),
    {
        Combinator::Or(Box::new(self), Box::new(other))
    }

    /// This parser and then `next`, with the outputs of both.
    pub fn both(self, next: Self) -> (c: Self)
        ensures
            c == Combinator::And(Box::new(self), Box::new(next)),
    {
        Combinator::And(Box::new(self), Box::new(next))
    }
}

/// `c` none or more times.
pub fn many<Out, M>(c: Combinator<Out, M>) -> (r: Combinator<Out, M>)
    ensures
        r == Combinator::Many(Box::new(c)),
{
    Combinator::Many(Box::new(c))
}

/// `c` once or more, with at least one output.
pub fn some<Out, M>(c: Combinator<Out, M>) -> (r: Combinator<Out, M>)
    ensures
        r == Combinator::Many1(Box::new(c)),
{
    Combinator::Many1(Box::new(c))
}

/// `c` none or more times, with `sep` in between. Where `c` does not match
/// to begin with, the parser matches all the same, takes nothing and gives
/// no output.
pub fn sep_by<Out, M>(sep: Combinator<Out, M>, c: Combinator<Out, M>) -> (r: Combinator<Out, M>)
    ensures
        r == Combinator::SepBy(Box::new(c), Box::new(sep)),
{
    Combinator::SepBy(Box::new(c), Box::new(sep))
}

/// `c` once or more, with `sep` in between.
pub fn sep_by1<Out, M>(sep: Combinator<Out, M>, c: Combinator<Out, M>) -> (r: Combinator<Out, M>)
    ensures
        r == Combinator::SepBy1(Box::new(c), Box::new(sep)),
{
    Combinator::SepBy1(Box::new(c), Box::new(sep))
}

/// `c` with `l` before it and `r` after it, and the outputs of `c`.
pub fn between<Out, M>(l: Combinator<Out, M>, r: Combinator<Out, M>, c: Combinator<Out, M>) -> (b:
    Combinator<Out, M>)
    ensures
        b == Combinator::KeepLeft(
            Box::new(Combinator::KeepRight(Box::new(l), Box::new(c))),
            Box::new(r),
        ),
{
    l.keep_right(c).keep_left(r)
}

/// A clone of each output in `v`, in order.
fn clone_outputs<Out: Clone + View>(v: &Vec<Out>) -> (r: Vec<Out>)
    requires
        clone_keeps_view::<Out>(),
    ensures
        views(r) == views(*v),
{
    let mut r: Vec<Out> = Vec::new();
    let mut i: usize = 0;
    while i < v.len()
        invariant
            clone_keeps_view::<Out>(),
            i <= v.len(),
            r.len() == i,
            forall|j: int| 0 <= j < i ==> r[j]@ == v[j]@,
        decreases v.len() - i,
    {
        let x = v[i].clone();
        assert(cloned(v[i as int], x));
        r.push(x);
        i = i + 1;
    }
    assert(views(r) =~= views(*v));
    r
}

/// Moves the outputs in `more` to the end of `out`.
fn extend<Out: View>(out: &mut Vec<Out>, more: Vec<Out>)
    ensures
        views(*final(out)) == views(*old(out)) + views(more),
{
    let mut more = more;
    let ghost tail = views(more);
    out.append(&mut more);
    assert(views(*out) =~= views(*old(out)) + tail);
}

impl<In: Clone> Stream<In> {
    /// Runs `combinator` at the front of the stream. Where it matches, the
    /// stream has moved on past what it took; where it does not, the
    /// stream stands where it stood. Nothing is committed.
    pub fn run<Out: Clone + View, M: Rule<In, Out>>(
        &mut self,
        combinator: &Combinator<Out, M>,
    ) -> (out: Option<Vec<Out>>)
        requires
            replicable(*combinator),
        ensures
            final(self).source() == old(self).source(),
            final(self).committed() == old(self).committed(),
            old(self).position() <= final(self).position() <= old(self).source().len(),
            match out {
                Some(v) => parse(*combinator, old(self).rest()) == Some(
                    (views(v), (final(self).position() - old(self).position()) as nat),
                ),
                None => {
                    &&& parse(*combinator, old(self).rest()) is None
                    &&& final(self).position() == old(self).position()
                },
            },
        decreases combinator, 3nat,
    {
        let start = self.offset();
        let out = self.attempt(combinator);
        if out.is_none() {
            let now = self.offset();
            self.undo(now - start);
        }
        out
    }

    /// Runs `combinator` at the front of the stream, leaving the stream
    /// wherever the attempt ended.
    fn attempt<Out: Clone + View, M: Rule<In, Out>>(
        &mut self,
        combinator: &Combinator<Out, M>,
    ) -> (out: Option<Vec<Out>>)
        requires
            replicable(*combinator),
        ensures
            final(self).source() == old(self).source(),
            final(self).committed() == old(self).committed(),
            old(self).position() <= final(self).position() <= old(self).source().len(),
            match out {
                Some(v) => parse(*combinator, old(self).rest()) == Some(
                    (views(v), (final(self).position() - old(self).position()) as nat),
                ),
                None => parse(*combinator, old(self).rest()) is None,
            },
        decreases combinator, 2nat,
    {
        let ghost rest = self.rest();
        let ghost origin = self.position();
        let _ = self.remaining();
        match combinator {
            Combinator::Rule(m) => m.apply(self),
            Combinator::Pure(v) => Some(clone_outputs(v)),
            Combinator::KeepLeft(a, b) => {
                match self.attempt(a) {
                    Some(x) => {
                        assert(self.rest() =~= rest.skip(self.position() - origin));
                        match self.attempt(b) {
                            Some(_) => Some(x),
                            None => None,
                        }
                    },
                    None => None,
                }
            },
            Combinator::KeepRight(a, b) => {
                match self.attempt(a) {
                    Some(_) => {
                        assert(self.rest() =~= rest.skip(self.position() - origin));
                        self.attempt(b)
                    },
                    None => None,
                }
            },
            Combinator::Or(a, b) => {
                match self.run(a) {
                    Some(x) => Some(x),
                    None => {
                        assert(self.rest() =~= rest);
                        self.attempt(b)
                    },
                }
            },
            Combinator::And(a, b) => {
                match self.attempt(a) {
                    Some(x) => {
                        assert(self.rest() =~= rest.skip(self.position() - origin));
                        match self.attempt(b) {
                            Some(y) => {
                                let mut x = x;
                                extend(&mut x, y);
                                Some(x)
                            },
                            None => None,
                        }
                    },
                    None => None,
                }
            },
            Combinator::Many(_) => Some(self.repeat(combinator)),
            Combinator::Many1(_) => {
                let out = self.repeat(combinator);
                assert(views(out).len() == out.len());
                if out.len() == 0 {
                    None
                } else {
                    Some(out)
                }
            },
            Combinator::SepBy(item, _) => {
                match self.run(item) {
                    Some(x) => {
                        assert(self.rest() =~= rest.skip(self.position() - origin));
                        let more = self.repeat(combinator);
                        let mut x = x;
                        extend(&mut x, more);
                        Some(x)
                    },
                    None => {
                        let none: Vec<Out> = Vec::new();
                        assert(views(none) =~= Seq::<Out::V>::empty());
                        Some(none)
                    },
                }
            },
            Combinator::SepBy1(item, _) => {
                match self.attempt(item) {
                    Some(x) => {
                        assert(self.rest() =~= rest.skip(self.position() - origin));
                        let more = self.repeat(combinator);
                        let mut x = x;
                        extend(&mut x, more);
                        Some(x)
                    },
                    None => None,
                }
            },
        }
    }

    /// Runs the rounds of the repetition in `combinator` for as long as
    /// they match.
    fn repeat<Out: Clone + View, M: Rule<In, Out>>(
        &mut self,
        combinator: &Combinator<Out, M>,
    ) -> (out: Vec<Out>)
        requires
            replicable(*combinator),
        ensures
            final(self).source() == old(self).source(),
            final(self).committed() == old(self).committed(),
            old(self).position() <= final(self).position() <= old(self).source().len(),
            repeat(*combinator, old(self).rest()) == (
                views(out),
                (final(self).position() - old(self).position()) as nat,
            ),
        decreases combinator, 1nat,
    {
        let ghost start = self.rest();
        let ghost origin = self.position();
        let ghost source = self.source();
        let mut out: Vec<Out> = Vec::new();
        let mut left = self.remaining();
        let mut open = true;
        assert(views(out) =~= Seq::<Out::V>::empty());
        while open
            invariant
                replicable(*combinator),
                self.source() == source,
                source == old(self).source(),
                self.committed() == old(self).committed(),
                origin == old(self).position(),
                origin <= self.position() <= source.len(),
                left == self.rest().len(),
                open ==> repeat(*combinator, start) == (
                    views(out) + repeat(*combinator, self.rest()).0,
                    ((self.position() - origin) + repeat(*combinator, self.rest()).1) as nat,
                ),
                !open ==> repeat(*combinator, start) == (
                    views(out),
                    (self.position() - origin) as nat,
                ),
            decreases left + if open { 1nat } else { 0nat },
        {
            let ghost before = self.rest();
            let ghost done = views(out);
            let at = self.offset();
            match self.round(combinator) {
                Some(x) => {
                    let ghost n = self.position() - at;
                    let ghost xv = views(x);
                    extend(&mut out, x);
                    proof {
                        assert(self.rest() =~= before.skip(n));
                        let (more, k) = repeat(*combinator, self.rest());
                        assert(done + (xv + more) =~= (done + xv) + more);
                    }
                    if self.offset() == at {
                        open = false;
                    }
                    left = self.remaining();
                },
                None => {
                    assert(done + Seq::<Out::V>::empty() =~= done);
                    open = false;
                },
            }
        }
        out
    }

    /// Runs one round of the repetition in `combinator`, all or nothing.
    fn round<Out: Clone + View, M: Rule<In, Out>>(
        &mut self,
        combinator: &Combinator<Out, M>,
    ) -> (out: Option<Vec<Out>>)
        requires
            replicable(*combinator),
        ensures
            final(self).source() == old(self).source(),
            final(self).committed() == old(self).committed(),
            old(self).position() <= final(self).position() <= old(self).source().len(),
            match out {
                Some(v) => round(*combinator, old(self).rest()) == Some(
                    (views(v), (final(self).position() - old(self).position()) as nat),
                ),
                None => {
                    &&& round(*combinator, old(self).rest()) is None
                    &&& final(self).position() == old(self).position()
                },
            },
        decreases combinator, 0nat,
    {
        let ghost rest = self.rest();
        let ghost origin = self.position();
        let start = self.offset();
        match combinator {
            Combinator::Many(a) => self.run(a),
            Combinator::Many1(a) => self.run(a),
            Combinator::SepBy(item, sep) => {
                let out = match self.attempt(sep) {
                    Some(_) => {
                        assert(self.rest() =~= rest.skip(self.position() - origin));
                        self.attempt(item)
                    },
                    None => None,
                };
                if out.is_none() {
                    let now = self.offset();
                    self.undo(now - start);
                }
                out
            },
            Combinator::SepBy1(item, sep) => {
                let out = match self.attempt(sep) {
                    Some(_) => {
                        assert(self.rest() =~= rest.skip(self.position() - origin));
                        self.attempt(item)
                    },
                    None => None,
                };
                if out.is_none() {
                    let now = self.offset();
                    self.undo(now - start);
                }
                out
            },
            _ => None,
        }
    }
}

/// Whether `result` is what comes of running `first` on `input` and then,
/// on what is left, the parser that `next` makes of its outputs.
pub open spec fn bound<
    In: Clone,
    A: View,
    B: View,
    M: Rule<In, A>,
    N: Rule<In, B>,
    F: FnOnce(Vec<A>) -> Combinator<B, N>,
>(first: Combinator<A, M>, next: F, input: Seq<In>, result: Option<(Seq<B::V>, nat)>) -> bool {
    match parse(first, input) {
        None => result is None,
        Some((x, n)) => exists|xs: Vec<A>, c: Combinator<B, N>|
            {
                &&& views(xs) == x
                &&& #[trigger] call_ensures(next, (xs,), c)
                &&& result == match parse(c, input.skip(n as int)) {
                    Some((y, k)) => Some((y, n + k)),
                    None => None,
                }
            },
    }
}

/// Whether `ys` holds, place by place, what `f` makes of the values in `xs`.
pub open spec fn mapped<A, B, F: Fn(A) -> B>(f: F, xs: Seq<A>, ys: Seq<B>) -> bool {
    &&& xs.len() == ys.len()
    &&& forall|i: int| 0 <= i < xs.len() ==> call_ensures(f, (xs[i],), #[trigger] ys[i])
}

/// Whether `ys` is what `f` makes of the outputs that `c` reads off the
/// front of `input`, taking `n` elements.
pub open spec fn fmapped<In: Clone, A: View, B, M: Rule<In, A>, F: Fn(A) -> B>(
    c: Combinator<A, M>,
    f: F,
    input: Seq<In>,
    ys: Seq<B>,
    n: nat,
) -> bool {
    exists|xs: Vec<A>|
        {
            &&& parse(c, input) == Some((views(xs), n))
            &&& #[trigger] mapped(f, xs@, ys)
        }
}

impl<In: Clone> Stream<In> {
    /// Runs `first` and then the parser that `next` makes of its outputs,
    /// all or nothing. The outputs are those of the second parser.
    pub fn bind<
        A: Clone + View,
        B: Clone + View,
        M: Rule<In, A>,
        N: Rule<In, B>,
        F: FnOnce(Vec<A>) -> Combinator<B, N>,
    >(&mut self, first: &Combinator<A, M>, next: F) -> (out: Option<Vec<B>>)
        requires
            replicable(*first),
            forall|x: Vec<A>| call_requires(next, (x,)),
            forall|x: Vec<A>, c: Combinator<B, N>| call_ensures(next, (x,), c) ==> replicable(c),
        ensures
            final(self).source() == old(self).source(),
            final(self).committed() == old(self).committed(),
            old(self).position() <= final(self).position() <= old(self).source().len(),
            match out {
                Some(v) => bound(
                    *first,
                    next,
                    old(self).rest(),
                    Some((views(v), (final(self).position() - old(self).position()) as nat)),
                ),
                None => {
                    &&& bound(*first, next, old(self).rest(), None)
                    &&& final(self).position() == old(self).position()
                },
            },
    {
        let ghost rest = self.rest();
        let ghost origin = self.position();
        let start = self.offset();
        let out = match self.attempt(first) {
            Some(x) => {
                let ghost xs = x;
                let ghost n = self.position() - origin;
                assert(self.rest() =~= rest.skip(n));
                let second = next(x);
                let out = self.attempt(&second);
                let ghost got = out;
                proof {
                    let result = match got {
                        Some(v) => Some((views(v), (self.position() - origin) as nat)),
                        None => None,
                    };
                    assert(result == match parse(second, rest.skip(n)) {
                        Some((y, k)) => Some((y, (n + k) as nat)),
                        None => None,
                    });
                    assert(bound(*first, next, rest, result));
                }
                out
            },
            None => None,
        };
        if out.is_none() {
            let now = self.offset();
            self.undo(now - start);
        }
        out
    }

    /// Runs `c` and hands each of its outputs through `f`.
    pub fn fmap<A: Clone + View, B, M: Rule<In, A>, F: Fn(A) -> B>(
        &mut self,
        c: &Combinator<A, M>,
        f: F,
    ) -> (out: Option<Vec<B>>)
        requires
            replicable(*c),
            forall|a: A| call_requires(f, (a,)),
        ensures
            final(self).source() == old(self).source(),
            final(self).committed() == old(self).committed(),
            old(self).position() <= final(self).position() <= old(self).source().len(),
            match out {
                Some(v) => fmapped(
                    *c,
                    f,
                    old(self).rest(),
                    v@,
                    (final(self).position() - old(self).position()) as nat,
                ),
                None => {
                    &&& parse(*c, old(self).rest()) is None
                    &&& final(self).position() == old(self).position()
                },
            },
    {
        match self.run(c) {
            Some(x) => {
                let ghost xs = x;
                let mut x = x;
                let mut backwards: Vec<B> = Vec::new();
                while x.len() > 0
                    invariant
                        forall|a: A| call_requires(f, (a,)),
                        x.len() + backwards.len() == xs.len(),
                        x@ == xs@.take(x.len() as int),
                        forall|j: int|
                            0 <= j < backwards.len() ==> call_ensures(
                                f,
                                (xs@[xs.len() - 1 - j],),
                                #[trigger] backwards@[j],
                            ),
                    decreases x.len(),
                {
                    let a = x.pop().unwrap();
                    let b = f(a);
                    backwards.push(b);
                    assert(x@ =~= xs@.take(x.len() as int));
                }
                let mut out: Vec<B> = Vec::new();
                let ghost total = backwards.len();
                while backwards.len() > 0
                    invariant
                        total == xs.len(),
                        out.len() + backwards.len() == total,
                        forall|j: int|
                            0 <= j < backwards.len() ==> call_ensures(
                                f,
                                (xs@[total - 1 - j],),
                                #[trigger] backwards@[j],
                            ),
                        forall|i: int|
                            0 <= i < out.len() ==> call_ensures(f, (xs@[i],), #[trigger] out@[i]),
                    decreases backwards.len(),
                {
                    let ghost j = backwards.len() - 1;
                    let b = backwards.pop().unwrap();
                    assert(call_ensures(f, (xs@[total - 1 - j],), b));
                    out.push(b);
                }
                assert(parse(*c, old(self).rest()) == Some(
                    (views(xs), (self.position() - old(self).position()) as nat),
                ));
                assert(mapped(f, xs@, out@));
                assert(fmapped(
                    *c,
                    f,
                    old(self).rest(),
                    out@,
                    (self.position() - old(self).position()) as nat,
                ));
                Some(out)
            },
            None => None,
        }
    }
}

/// A choice between two parsers goes by the first wherever the first
/// matches, whatever the second would do there.
pub proof fn lemma_choice_is_left_biased<In: Clone, Out: View, M: Rule<In, Out>>(
    a: Combinator<Out, M>,
    b: Combinator<Out, M>,
    input: Seq<In>,
)
    requires
        parse(a, input) is Some,
    ensures
        parse(Combinator::Or(Box::new(a), Box::new(b)), input) == parse(a, input),
{
}

/// Whether `copy` is what cloning `c` can give: the same parser, with a
/// clone of each primitive and of each output that `c` holds.
pub open spec fn replica<Out: Clone, M: Clone>(
    c: Combinator<Out, M>,
    copy: Combinator<Out, M>,
) -> bool
    decreases c,
{
    match (c, copy) {
        (Combinator::Rule(m), Combinator::Rule(n)) => cloned(m, n),
        (Combinator::Pure(v), Combinator::Pure(w)) => v.len() == w.len() && forall|i: int|
            0 <= i < v.len() ==> cloned(#[trigger] v[i], w[i]),
        (Combinator::KeepLeft(a, b), Combinator::KeepLeft(x, y)) => replica(*a, *x) && replica(
            *b,
            *y,
        ),
        (Combinator::KeepRight(a, b), Combinator::KeepRight(x, y)) => replica(*a, *x) && replica(
            *b,
            *y,
        ),
        (Combinator::Or(a, b), Combinator::Or(x, y)) => replica(*a, *x) && replica(*b, *y),
        (Combinator::And(a, b), Combinator::And(x, y)) => replica(*a, *x) && replica(*b, *y),
        (Combinator::Many(a), Combinator::Many(x)) => replica(*a, *x),
        (Combinator::Many1(a), Combinator::Many1(x)) => replica(*a, *x),
        (Combinator::SepBy(a, b), Combinator::SepBy(x, y)) => replica(*a, *x) && replica(*b, *y),
        (Combinator::SepBy1(a, b), Combinator::SepBy1(x, y)) => replica(*a, *x) && replica(
            *b,
            *y,
        ),
        _ => false,
    }
}

impl<Out: Clone, M: Clone> Combinator<Out, M> {
    /// A copy of the parser, with a clone of each primitive and of each
    /// output that it holds.
    pub fn duplicate(&self) -> (r: Self)
        ensures
            replica(*self, r),
        decreases self,
    {
        match self {
            Combinator::Rule(m) => Combinator::Rule(m.clone()),
            Combinator::Pure(v) => Combinator::Pure(v.clone()),
            Combinator::KeepLeft(a, b) => Combinator::KeepLeft(
                Box::new(a.duplicate()),
                Box::new(b.duplicate()),
            ),
            Combinator::KeepRight(a, b) => Combinator::KeepRight(
                Box::new(a.duplicate()),
                Box::new(b.duplicate()),
            ),
            Combinator::Or(a, b) => Combinator::Or(
                Box::new(a.duplicate()),
                Box::new(b.duplicate()),
            ),
            Combinator::And(a, b) => Combinator::And(
                Box::new(a.duplicate()),
                Box::new(b.duplicate()),
            ),
            Combinator::Many(a) => Combinator::Many(Box::new(a.duplicate())),
            Combinator::Many1(a) => Combinator::Many1(Box::new(a.duplicate())),
            Combinator::SepBy(a, b) => Combinator::SepBy(
                Box::new(a.duplicate()),
                Box::new(b.duplicate()),
            ),
            Combinator::SepBy1(a, b) => Combinator::SepBy1(
                Box::new(a.duplicate()),
                Box::new(b.duplicate()),
            ),
        }
    }
}

impl<Out: Clone, M: Clone> Clone for Combinator<Out, M> {
    fn clone(&self) -> (r: Self)
        ensures
            replica(*self, r),
    {
        self.duplicate()
    }
}

impl<Out> Clone for Built<Out> {
    fn clone(&self) -> (r: Self)
        ensures
            r == *self,
    {
        Built { out: PhantomData }
    }
}

/// `a << b` is `a.keep_left(b)`.
impl<Out, M> core::ops::Shl for Combinator<Out, M> {
    type Output = Combinator<Out, M>;

    fn shl(self, rhs: Combinator<Out, M>) -> (r: Combinator<Out, M>) {
        Combinator::KeepLeft(Box::new(self), Box::new(rhs))
    }
}

impl<Out, M> vstd::std_specs::ops::ShlSpecImpl for Combinator<Out, M> {
    open spec fn obeys_shl_spec() -> bool {
        true
    }

    open spec fn shl_req(self, rhs: Combinator<Out, M>) -> bool {
        true
    }

    open spec fn shl_spec(self, rhs: Combinator<Out, M>) -> Combinator<Out, M> {
        Combinator::KeepLeft(Box::new(self), Box::new(rhs))
    }
}

/// `a >> b` is `a.keep_right(b)`.
impl<Out, M> core::ops::Shr for Combinator<Out, M> {
    type Output = Combinator<Out, M>;

    fn shr(self, rhs: Combinator<Out, M>) -> (r: Combinator<Out, M>) {
        Combinator::KeepRight(Box::new(self), Box::new(rhs))
    }
}

impl<Out, M> vstd::std_specs::ops::ShrSpecImpl for Combinator<Out, M> {
    open spec fn obeys_shr_spec() -> bool {
        true
    }

    open spec fn shr_req(self, rhs: Combinator<Out, M>) -> bool {
        true
    }

    open spec fn shr_spec(self, rhs: Combinator<Out, M>) -> Combinator<Out, M> {
        Combinator::KeepRight(Box::new(self), Box::new(rhs))
    }
}

/// `a | b` is `a.or_else(b)`.
impl<Out, M> core::ops::BitOr for Combinator<Out, M> {
    type Output = Combinator<Out, M>;

    fn bitor(self, rhs: Combinator<Out, M>) -> (r: Combinator<Out, M>) {
        Combinator::Or(Box::new(self), Box::new(rhs))
    }
}

impl<Out, M> vstd::std_specs::ops::BitOrSpecImpl for Combinator<Out, M> {
    open spec fn obeys_bitor_spec() -> bool {
        true
    }

    open spec fn bitor_req(self, rhs: Combinator<Out, M>) -> bool {
        true
    }

    open spec fn bitor_spec(self, rhs: Combinator<Out, M>) -> Combinator<Out, M> {
        Combinator::Or(Box::new(self), Box::new(rhs))
    }
}

/// `a & b` is `a.both(b)`.
impl<Out, M> core::ops::BitAnd for Combinator<Out, M> {
    type Output = Combinator<Out, M>;

    fn bitand(self, rhs: Combinator<Out, M>) -> (r: Combinator<Out, M>) {
        Combinator::And(Box::new(self), Box::new(rhs))
    }
}

impl<Out, M> vstd::std_specs::ops::BitAndSpecImpl for Combinator<Out, M> {
    open spec fn obeys_bitand_spec() -> bool {
        true
    }

    open spec fn bitand_req(self, rhs: Combinator<Out, M>) -> bool {
        true
    }

    open spec fn bitand_spec(self, rhs: Combinator<Out, M>) -> Combinator<Out, M> {
        Combinator::And(Box::new(self), Box::new(rhs))
    }
}

/// `&a << &b` is `keep_left` of a copy of each.
impl<'a, Out: Clone, M: Clone> core::ops::Shl<&'a Combinator<Out, M>> for &'a Combinator<Out, M> {
    type Output = Combinator<Out, M>;

    fn shl(self, rhs: &'a Combinator<Out, M>) -> (r: Combinator<Out, M>)
        ensures
            match r {
                Combinator::KeepLeft(a, b) => replica(*self, *a) && replica(*rhs, *b),
                _ => false,
            },
    {
        Combinator::KeepLeft(Box::new(self.duplicate()), Box::new(rhs.duplicate()))
    }
}

impl<'a, Out: Clone, M: Clone> vstd::std_specs::ops::ShlSpecImpl<&'a Combinator<Out, M>> for &'a Combinator<Out, M> {
    open spec fn obeys_shl_spec() -> bool {
        false
    }

    open spec fn shl_req(self, rhs: &'a Combinator<Out, M>) -> bool {
        true
    }

    open spec fn shl_spec(self, rhs: &'a Combinator<Out, M>) -> Combinator<Out, M> {
        Combinator::KeepLeft(Box::new(*self), Box::new(*rhs))
    }
}

/// `&a >> &b` is `keep_right` of a copy of each.
impl<'a, Out: Clone, M: Clone> core::ops::Shr<&'a Combinator<Out, M>> for &'a Combinator<Out, M> {
    type Output = Combinator<Out, M>;

    fn shr(self, rhs: &'a Combinator<Out, M>) -> (r: Combinator<Out, M>)
        ensures
            match r {
                Combinator::KeepRight(a, b) => replica(*self, *a) && replica(*rhs, *b),
                _ => false,
            },
    {
        Combinator::KeepRight(Box::new(self.duplicate()), Box::new(rhs.duplicate()))
    }
}

impl<'a, Out: Clone, M: Clone> vstd::std_specs::ops::ShrSpecImpl<&'a Combinator<Out, M>> for &'a Combinator<Out, M> {
    open spec fn obeys_shr_spec() -> bool {
        false
    }

    open spec fn shr_req(self, rhs: &'a Combinator<Out, M>) -> bool {
        true
    }

    open spec fn shr_spec(self, rhs: &'a Combinator<Out, M>) -> Combinator<Out, M> {
        Combinator::KeepRight(Box::new(*self), Box::new(*rhs))
    }
}

/// `&a | &b` is `or_else` of a copy of each.
impl<'a, Out: Clone, M: Clone> core::ops::BitOr<&'a Combinator<Out, M>> for &'a Combinator<Out, M> {
    type Output = Combinator<Out, M>;

    fn bitor(self, rhs: &'a Combinator<Out, M>) -> (r: Combinator<Out, M>)
        ensures
            match r {
                Combinator::Or(a, b) => replica(*self, *a) && replica(*rhs, *b),
                _ => false,
            },
    {
        Combinator::Or(Box::new(self.duplicate()), Box::new(rhs.duplicate()))
    }
}

impl<'a, Out: Clone, M: Clone> vstd::std_specs::ops::BitOrSpecImpl<&'a Combinator<Out, M>> for &'a Combinator<Out, M> {
    open spec fn obeys_bitor_spec() -> bool {
        false
    }

    open spec fn bitor_req(self, rhs: &'a Combinator<Out, M>) -> bool {
        true
    }

    open spec fn bitor_spec(self, rhs: &'a Combinator<Out, M>) -> Combinator<Out, M> {
        Combinator::Or(Box::new(*self), Box::new(*rhs))
    }
}

/// `&a & &b` is `both` of a copy of each.
impl<'a, Out: Clone, M: Clone> core::ops::BitAnd<&'a Combinator<Out, M>> for &'a Combinator<Out, M> {
    type Output = Combinator<Out, M>;

    fn bitand(self, rhs: &'a Combinator<Out, M>) -> (r: Combinator<Out, M>)
        ensures
            match r {
                Combinator::And(a, b) => replica(*self, *a) && replica(*rhs, *b),
                _ => false,
            },
    {
        Combinator::And(Box::new(self.duplicate()), Box::new(rhs.duplicate()))
    }
}

impl<'a, Out: Clone, M: Clone> vstd::std_specs::ops::BitAndSpecImpl<&'a Combinator<Out, M>> for &'a Combinator<Out, M> {
    open spec fn obeys_bitand_spec() -> bool {
        false
    }

    open spec fn bitand_req(self, rhs: &'a Combinator<Out, M>) -> bool {
        true
    }

    open spec fn bitand_spec(self, rhs: &'a Combinator<Out, M>) -> Combinator<Out, M> {
        Combinator::And(Box::new(*self), Box::new(*rhs))
    }
}

} // verus!
