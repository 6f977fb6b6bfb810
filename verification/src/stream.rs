//! A cursor over a sequence of elements that remembers what it has handed out,
//! so that a speculative reader can step back and read the same elements again.

use vstd::prelude::*;

verus! {

/// A transactional cursor over `source`.
///
/// Elements between the commit point and the cursor form the history: they
/// were handed out and can still be taken back by `undo`. Elements before
/// the commit point are gone for good.
pub struct Stream<T> {
    source: Vec<T>,
    committed: usize,
    cursor: usize,
}

impl<T> Stream<T> {
    #[verifier::type_invariant]
    spec fn well_formed(&self) -> bool {
        self.committed <= self.cursor <= self.source.len()
    }

    /// Every element of the input, consumed or not.
    pub closed spec fn source(&self) -> Seq<T> {
        self.source@
    }

    /// How many elements have been consumed, net of what was undone.
    pub closed spec fn position(&self) -> nat {
        self.cursor as nat
    }

    /// The position below which `undo` cannot step back.
    pub closed spec fn committed(&self) -> nat {
        self.committed as nat
    }

    /// The elements that `next` has yet to hand out, in order.
    pub open spec fn rest(&self) -> Seq<T> {
        self.source().skip(self.position() as int)
    }

    /// How many consumed elements can still be taken back.
    pub open spec fn history(&self) -> nat {
        (self.position() - self.committed()) as nat
    }

    /// The position that `undo(times)` steps back to.
    pub open spec fn position_after_undo(&self, times: nat) -> nat {
        if times <= self.history() {
            (self.position() - times) as nat
        } else {
            self.committed()
        }
    }

    pub fn new(source: Vec<T>) -> (s: Self)
        ensures
            s.source() == source@,
            s.position() == 0,
            s.committed() == 0,
    {
        Stream { source, committed: 0, cursor: 0 }
    }

    /// The number of consumed elements that `undo` can still take back.
    pub fn len(&self) -> (n: usize)
        ensures
            n == self.history(),
            self.committed() <= self.position() <= self.source().len(),
    {
        proof {
            use_type_invariant(self);
        }
        self.cursor - self.committed
    }

    /// How many elements have been consumed, net of what was undone.
    pub fn offset(&self) -> (n: usize)
        ensures
            n == self.position(),
            self.committed() <= self.position() <= self.source().len(),
    {
        proof {
            use_type_invariant(self);
        }
        self.cursor
    }

    /// The number of elements left to read.
    pub fn remaining(&self) -> (n: usize)
        ensures
            n == self.rest().len(),
            self.committed() <= self.position() <= self.source().len(),
    {
        proof {
            use_type_invariant(self);
        }
        self.source.len() - self.cursor
    }

    /// The next element, without consuming it.
    pub fn peek(&self) -> (r: Option<&T>)
        ensures
            self.committed() <= self.position() <= self.source().len(),
            match r {
                Some(x) => self.rest().len() > 0 && *x == self.rest()[0],
                None => self.rest().len() == 0,
            },
    {
        proof {
            use_type_invariant(self);
        }
        if self.cursor < self.source.len() {
            Some(&self.source[self.cursor])
        } else {
            None
        }
    }

    /// Steps over the next element without looking at it. At the end of the
    /// input nothing happens.
    pub fn advance(&mut self)
        ensures
            final(self).source() == old(self).source(),
            final(self).committed() == old(self).committed(),
            final(self).position() == if old(self).rest().len() > 0 {
                old(self).position() + 1
            } else {
                old(self).position()
            },
    {
        proof {
            use_type_invariant(&*self);
        }
        if self.cursor < self.source.len() {
            self.cursor = self.cursor + 1;
        }
    }

    /// Marks the last `times` consumed elements as pending again. Asking for
    /// more than the history holds takes back all of it.
    pub fn undo(&mut self, times: usize)
        ensures
            final(self).source() == old(self).source(),
            final(self).committed() == old(self).committed(),
            final(self).position() == old(self).position_after_undo(times as nat),
    {
        proof {
            use_type_invariant(&*self);
        }
        if times <= self.cursor - self.committed {
            self.cursor = self.cursor - times;
        } else {
            self.cursor = self.committed;
        }
    }

    /// Makes everything consumed so far permanent: the history becomes empty.
    pub fn commit(&mut self)
        ensures
            final(self).source() == old(self).source(),
            final(self).position() == old(self).position(),
            final(self).committed() == old(self).position(),
    {
        proof {
            use_type_invariant(&*self);
        }
        self.committed = self.cursor;
    }
}

impl<T: Clone> Stream<T> {
    /// Consumes the next element and hands out a clone of it; `None` at the
    /// end of the input, however often it is asked.
    pub fn next(&mut self) -> (r: Option<T>)
        ensures
            final(self).source() == old(self).source(),
            final(self).committed() == old(self).committed(),
            match r {
                Some(x) => {
                    &&& old(self).rest().len() > 0
                    &&& cloned(old(self).rest()[0], x)
                    &&& final(self).position() == old(self).position() + 1
                },
                None => {
                    &&& old(self).rest().len() == 0
                    &&& final(self).position() == old(self).position()
                },
            },
    {
        proof {
            use_type_invariant(&*self);
        }
        if self.cursor < self.source.len() {
            let x = self.source[self.cursor].clone();
            self.cursor = self.cursor + 1;
            Some(x)
        } else {
            None
        }
    }
}

/// What `undo` gives back is what was consumed last: where `after` is
/// `before` after `undo(k)`, with `k` no more than the history holds, the
/// next `k` elements that `after` hands out are the last `k` that `before`
/// had consumed, in the order in which they came, and `after` then goes on
/// where `before` stood.
pub proof fn lemma_undo_replays<T>(before: Stream<T>, after: Stream<T>, k: nat)
    requires
        before.committed() <= before.position() <= before.source().len(),
        after.source() == before.source(),
        after.position() == before.position_after_undo(k),
        k <= before.history(),
    ensures
        after.rest().take(k as int) == before.source().subrange(
            before.position() - k,
            before.position() as int,
        ),
        after.rest().skip(k as int) == before.rest(),
{
    assert(after.rest().take(k as int) =~= before.source().subrange(
        before.position() - k,
        before.position() as int,
    ));
    assert(after.rest().skip(k as int) =~= before.rest());
}

/// `undo` beyond the history takes back all of it and no more: however
/// large `k` is, `after` stands at the commit point or later, and at the
/// commit point itself once `k` is all the history or more.
pub proof fn lemma_undo_clamps<T>(before: Stream<T>, k: nat)
    requires
        before.committed() <= before.position() <= before.source().len(),
    ensures
        before.committed() <= before.position_after_undo(k) <= before.position(),
        k >= before.history() ==> before.position_after_undo(k) == before.committed(),
{
}

/// To commit twice is to commit once: where `twice` is `once` after
/// `commit`, and `once` is a stream after `commit`, the two stand alike.
pub proof fn lemma_commit_idempotent<T>(before: Stream<T>, once: Stream<T>, twice: Stream<T>)
    requires
        once.source() == before.source(),
        once.position() == before.position(),
        once.committed() == before.position(),
        twice.source() == once.source(),
        twice.position() == once.position(),
        twice.committed() == once.position(),
    ensures
        twice.source() == once.source(),
        twice.position() == once.position(),
        twice.committed() == once.committed(),
        twice.rest() == once.rest(),
        twice.history() == 0,
{
}

} // verus!
