//! Helpers that read runs of elements off a [`Stream`].

use vstd::prelude::*;
use crate::stream::Stream;

verus! {

/// The length of the longest prefix of `s` whose elements all satisfy `p`.
pub open spec fn span<T>(s: Seq<T>, p: spec_fn(T) -> bool) -> nat
    decreases s.len(),
{
    if s.len() > 0 && p(s[0]) {
        1 + span(s.skip(1), p)
    } else {
        0
    }
}

/// `span` is the one length at which the prefix satisfies `p` and either the
/// sequence ends or the next element does not.
pub proof fn lemma_span_unique<T>(s: Seq<T>, p: spec_fn(T) -> bool, n: nat)
    requires
        n <= s.len(),
        forall|i: int| 0 <= i < n ==> p(#[trigger] s[i]),
        n == s.len() || !p(s[n as int]),
    ensures
        span(s, p) == n,
    decreases n,
{
    if n > 0 {
        let t = s.skip(1);
        assert forall|i: int| 0 <= i < n - 1 implies p(#[trigger] t[i]) by {
            assert(t[i] == s[i + 1]);
        }
        lemma_span_unique(t, p, (n - 1) as nat);
    }
}

/// What `span` counts: a prefix that satisfies `p`, ended by the end of the
/// sequence or by an element that does not.
pub proof fn lemma_span_holds<T>(s: Seq<T>, p: spec_fn(T) -> bool)
    ensures
        span(s, p) <= s.len(),
        forall|i: int| 0 <= i < span(s, p) ==> p(#[trigger] s[i]),
        span(s, p) == s.len() || !p(s[span(s, p) as int]),
    decreases s.len(),
{
    if s.len() > 0 && p(s[0]) {
        let t = s.skip(1);
        lemma_span_holds(t, p);
        assert forall|i: int| 0 <= i < span(s, p) implies p(#[trigger] s[i]) by {
            if i > 0 {
                assert(s[i] == t[i - 1]);
            }
        }
        if span(s, p) < s.len() {
            assert(s[span(s, p) as int] == t[span(t, p) as int]);
        }
    }
}

impl<T: Clone> Stream<T> {
    /// Steps back `len` elements and reports no match.
    pub fn fallback<Any>(&mut self, len: usize) -> (r: Option<Any>)
        ensures
            r is None,
            final(self).source() == old(self).source(),
            final(self).committed() == old(self).committed(),
            final(self).position() == old(self).position_after_undo(len as nat),
    {
        self.undo(len);
        None
    }

    /// Consumes elements for as long as `predicate` accepts them. The first
    /// element that it refuses stays in the stream.
    pub fn squash<P: Fn(&T) -> bool>(&mut self, predicate: P)
        requires
            forall|x: &T| call_requires(predicate, (x,)),
        ensures
            final(self).source() == old(self).source(),
            final(self).committed() == old(self).committed(),
            old(self).position() <= final(self).position() <= old(self).source().len(),
            forall|i: int|
                old(self).position() <= i < final(self).position() ==> call_ensures(
                    predicate,
                    (&#[trigger] old(self).source()[i],),
                    true,
                ),
            final(self).rest().len() == 0 || call_ensures(
                predicate,
                (&final(self).rest()[0],),
                false,
            ),
    {
        let mut left = self.remaining();
        let mut open = true;
        while open
            invariant
                self.source() == old(self).source(),
                self.committed() == old(self).committed(),
                old(self).position() <= self.position() <= old(self).source().len(),
                left == self.rest().len(),
                forall|x: &T| call_requires(predicate, (x,)),
                forall|i: int|
                    old(self).position() <= i < self.position() ==> call_ensures(
                        predicate,
                        (&#[trigger] old(self).source()[i],),
                        true,
                    ),
                !open ==> self.rest().len() == 0 || call_ensures(
                    predicate,
                    (&self.rest()[0],),
                    false,
                ),
            decreases left + if open { 1nat } else { 0nat },
        {
            let accepted = match self.peek() {
                Some(x) => predicate(x),
                None => false,
            };
            if accepted {
                self.advance();
                left = left - 1;
            } else {
                open = false;
            }
        }
    }

    /// Consumes elements for as long as `predicate` accepts them and hands
    /// them out in order. The first element that it refuses stays in the
    /// stream.
    pub fn take_while<P: Fn(&T) -> bool>(&mut self, predicate: P) -> (taken: Vec<T>)
        requires
            forall|x: &T| call_requires(predicate, (x,)),
        ensures
            final(self).source() == old(self).source(),
            final(self).committed() == old(self).committed(),
            final(self).position() == old(self).position() + taken.len(),
            final(self).position() <= old(self).source().len(),
            forall|i: int|
                0 <= i < taken.len() ==> cloned(old(self).rest()[i], #[trigger] taken[i]),
            forall|i: int|
                0 <= i < taken.len() ==> call_ensures(
                    predicate,
                    (&#[trigger] old(self).rest()[i],),
                    true,
                ),
            final(self).rest().len() == 0 || call_ensures(
                predicate,
                (&final(self).rest()[0],),
                false,
            ),
    {
        let mut taken: Vec<T> = Vec::new();
        let mut left = self.remaining();
        let mut open = true;
        while open
            invariant
                self.source() == old(self).source(),
                self.committed() == old(self).committed(),
                self.position() == old(self).position() + taken.len(),
                self.position() <= old(self).source().len(),
                left == self.rest().len(),
                forall|x: &T| call_requires(predicate, (x,)),
                forall|i: int|
                    0 <= i < taken.len() ==> cloned(old(self).rest()[i], #[trigger] taken[i]),
                forall|i: int|
                    0 <= i < taken.len() ==> call_ensures(
                        predicate,
                        (&#[trigger] old(self).rest()[i],),
                        true,
                    ),
                !open ==> self.rest().len() == 0 || call_ensures(
                    predicate,
                    (&self.rest()[0],),
                    false,
                ),
            decreases left + if open { 1nat } else { 0nat },
        {
            let accepted = match self.peek() {
                Some(x) => predicate(x),
                None => false,
            };
            if accepted {
                match self.next() {
                    Some(t) => {
                        taken.push(t);
                    },
                    None => {},
                }
                left = left - 1;
            } else {
                open = false;
            }
        }
        taken
    }

    /// Consumes elements for as long as `predicate` accepts them.
    pub fn skip<P: Fn(&T) -> bool>(&mut self, predicate: P)
        requires
            forall|x: &T| call_requires(predicate, (x,)),
        ensures
            final(self).source() == old(self).source(),
            final(self).committed() == old(self).committed(),
            old(self).position() <= final(self).position() <= old(self).source().len(),
            forall|i: int|
                old(self).position() <= i < final(self).position() ==> call_ensures(
                    predicate,
                    (&#[trigger] old(self).source()[i],),
                    true,
                ),
            final(self).rest().len() == 0 || call_ensures(
                predicate,
                (&final(self).rest()[0],),
                false,
            ),
    {
        self.squash(predicate)
    }

    /// Consumes elements for as long as `predicate` accepts them and hands
    /// them out in order.
    pub fn take<P: Fn(&T) -> bool>(&mut self, predicate: P) -> (taken: Vec<T>)
        requires
            forall|x: &T| call_requires(predicate, (x,)),
        ensures
            final(self).source() == old(self).source(),
            final(self).committed() == old(self).committed(),
            final(self).position() == old(self).position() + taken.len(),
            final(self).position() <= old(self).source().len(),
            forall|i: int|
                0 <= i < taken.len() ==> cloned(old(self).rest()[i], #[trigger] taken[i]),
            forall|i: int|
                0 <= i < taken.len() ==> call_ensures(
                    predicate,
                    (&#[trigger] old(self).rest()[i],),
                    true,
                ),
            final(self).rest().len() == 0 || call_ensures(
                predicate,
                (&final(self).rest()[0],),
                false,
            ),
    {
        self.take_while(predicate)
    }
}

} // verus!
