//! Turning a stream of elements into a sequence of larger ones, one at a
//! time, with a builder that the output type brings along.

use vstd::prelude::*;
use std::marker::PhantomData;
use crate::stream::Stream;

verus! {

/// A type whose values can be built from the front of a stream of `In`.
pub trait Streamable<In: Clone>: Sized + View {
    /// What building a value from the front of `input` gives: the value,
    /// as the mathematical value it is modelled by, and how many elements
    /// it is made of; or `None` where the front of `input` is no value.
    spec fn build(input: Seq<In>) -> Option<(Self::V, nat)>;

    /// Builds one value from the front of the stream. A value is made of at
    /// least one element. Where there is none, the stream is left as it
    /// was found. Nothing is committed either way.
    fn from(s: &mut Stream<In>) -> (r: Option<Self>)
        requires
            old(s).rest().len() > 0,
        ensures
            final(s).source() == old(s).source(),
            final(s).committed() == old(s).committed(),
            match r {
                Some(t) => {
                    &&& final(s).position() > old(s).position()
                    &&& Self::build(old(s).rest()) == Some(
                        (t@, (final(s).position() - old(s).position()) as nat),
                    )
                },
                None => {
                    &&& final(s).position() == old(s).position()
                    &&& Self::build(old(s).rest()) is None
                },
            },
    ;
}

/// The values that `input` is made of, in order; or, where some part of it
/// is no value, the place of the element at which that part starts.
pub open spec fn tokenize<In: Clone, Out: Streamable<In>>(input: Seq<In>) -> Result<
    Seq<Out::V>,
    nat,
>
    decreases input.len(),
{
    if input.len() == 0 {
        Ok(Seq::empty())
    } else {
        match Out::build(input) {
            Some((v, n)) => if 0 < n <= input.len() {
                match tokenize::<In, Out>(input.skip(n as int)) {
                    Ok(vs) => Ok(seq![v] + vs),
                    Err(at) => Err(n + at),
                }
            } else {
                Err(0)
            },
            None => Err(0),
        }
    }
}

/// An element that no value starts with, and its place in the input.
#[derive(Debug, PartialEq, Eq)]
pub struct Unexpected<In> {
    pub element: In,
    pub position: usize,
}

/// Hands out the values that a stream of elements is made of, one at a
/// time, committing the stream after each.
pub struct Tokenizer<In, Out> {
    from_stream: Stream<In>,
    to_t: PhantomData<Out>,
}

impl<In: Clone, Out: Streamable<In>> Tokenizer<In, Out> {
    /// The stream that the values are built from.
    pub closed spec fn stream(&self) -> Stream<In> {
        self.from_stream
    }

    /// The part of the input that has not been turned into values yet.
    pub open spec fn rest(&self) -> Seq<In> {
        self.stream().rest()
    }

    pub fn new(tokens: Vec<In>) -> (t: Self)
        ensures
            t.stream().source() == tokens@,
            t.stream().position() == 0,
            t.stream().committed() == 0,
    {
        Tokenizer { from_stream: Stream::new(tokens), to_t: PhantomData }
    }

    /// The next value: `None` at the end of the input, the value where the
    /// input goes on with one, and otherwise the element at which it goes
    /// on with none. The last is final: asked again, the answer is the
    /// same.
    pub fn next(&mut self) -> (r: Option<Result<Out, Unexpected<In>>>)
        ensures
            final(self).stream().source() == old(self).stream().source(),
            final(self).stream().position() <= final(self).stream().source().len(),
            match r {
                None => {
                    &&& old(self).rest().len() == 0
                    &&& final(self).stream() == old(self).stream()
                },
                Some(Ok(t)) => {
                    &&& old(self).rest().len() > 0
                    &&& final(self).stream().position() > old(self).stream().position()
                    &&& final(self).stream().committed() == final(self).stream().position()
                    &&& Out::build(old(self).rest()) == Some(
                        (
                            t@,
                            (final(self).stream().position() - old(self).stream().position()) as nat,
                        ),
                    )
                },
                Some(Err(e)) => {
                    &&& old(self).rest().len() > 0
                    &&& Out::build(old(self).rest()) is None
                    &&& cloned(old(self).rest()[0], e.element)
                    &&& e.position == old(self).stream().position()
                    &&& final(self).stream().position() == old(self).stream().position()
                    &&& final(self).stream().committed() == old(self).stream().committed()
                },
            },
    {
        let at = self.from_stream.offset();
        let first = match self.from_stream.peek() {
            Some(x) => x.clone(),
            None => {
                return None;
            },
        };
        let built = Out::from(&mut self.from_stream);
        let _ = self.from_stream.remaining();
        match built {
            Some(t) => {
                self.from_stream.commit();
                Some(Ok(t))
            },
            None => Some(Err(Unexpected { element: first, position: at })),
        }
    }

    /// All the values that are left in the input, in order; or the first
    /// element at which the input goes on with none.
    pub fn collect(&mut self) -> (r: Result<Vec<Out>, Unexpected<In>>)
        ensures
            final(self).stream().source() == old(self).stream().source(),
            match r {
                Ok(out) => {
                    &&& tokenize::<In, Out>(old(self).rest()) == Ok::<Seq<Out::V>, nat>(
                        Seq::new(out.len() as nat, |i: int| out[i]@),
                    )
                    &&& final(self).rest().len() == 0
                },
                Err(e) => {
                    &&& tokenize::<In, Out>(old(self).rest()) == Err::<Seq<Out::V>, nat>(
                        (e.position - old(self).stream().position()) as nat,
                    )
                    &&& old(self).stream().position() <= e.position < old(
                        self,
                    ).stream().source().len()
                    &&& cloned(old(self).stream().source()[e.position as int], e.element)
                    &&& final(self).stream().position() == e.position
                },
            },
    {
        let mut out: Vec<Out> = Vec::new();
        let ghost start = self.rest();
        let ghost origin = self.stream().position();
        let ghost source = self.stream().source();
        let mut left = self.from_stream.remaining();
        assert(Seq::new(out.len() as nat, |i: int| out[i]@) =~= Seq::<Out::V>::empty());
        loop
            invariant
                self.stream().source() == source,
                source == old(self).stream().source(),
                start == old(self).rest(),
                origin == old(self).stream().position(),
                origin <= self.stream().position() <= source.len(),
                left == self.rest().len(),
                tokenize::<In, Out>(start) == match tokenize::<In, Out>(self.rest()) {
                    Ok(vs) => Ok::<Seq<Out::V>, nat>(
                        Seq::new(out.len() as nat, |i: int| out[i]@) + vs,
                    ),
                    Err(at) => Err(((self.stream().position() - origin) + at) as nat),
                },
            decreases left,
        {
            let ghost before = self.rest();
            let ghost p0 = self.stream().position();
            let ghost done = Seq::new(out.len() as nat, |i: int| out[i]@);
            match self.next() {
                None => {
                    assert(done + Seq::<Out::V>::empty() =~= done);
                    return Ok(out);
                },
                Some(Ok(t)) => {
                    let ghost n = self.stream().position() - p0;
                    out.push(t);
                    proof {
                        assert(self.rest() =~= before.skip(n));
                        let now = Seq::new(out.len() as nat, |i: int| out[i]@);
                        assert(now =~= done.push(t@));
                        match tokenize::<In, Out>(self.rest()) {
                            Ok(vs) => {
                                assert(done + (seq![t@] + vs) =~= now + vs);
                            },
                            Err(_) => {},
                        }
                    }
                    left = self.from_stream.remaining();
                },
                Some(Err(e)) => {
                    return Err(e);
                },
            }
        }
    }
}

} // verus!
