//! Readers that lend their messages, and the adapter that hands out copies.
use crate::mpmc;
use crate::spmc;
use vstd::prelude::*;

verus! {

/// Lending queue consumer.
///
/// A lending reader returns `&Item`, a borrow of the message where it lies in
/// the queue. The borrow holds the queue, so the message is dealt with before
/// the next one is asked for.
pub trait LendingReader: Sized {
    /// The messages.
    type Item;

    /// The queue that the reader reads from.
    type Queue;

    /// The reader and the queue are in order, and `next` may be called.
    spec fn ready(&self, queue: &Self::Queue) -> bool;

    /// `new` and `new_queue` are `old` and `old_queue` after one call of `next`
    /// that returned `out`.
    spec fn stepped(
        old: &Self,
        old_queue: &Self::Queue,
        new: &Self,
        new_queue: &Self::Queue,
        out: Option<Self::Item>,
    ) -> bool;

    /// The next message, if there is one.
    fn next<'a>(&mut self, queue: &'a mut Self::Queue) -> (r: Option<&'a Self::Item>)
        requires
            old(self).ready(old(queue)),
        ensures
            Self::stepped(
                old(self),
                old(queue),
                final(self),
                final(queue),
                match r {
                    Some(v) => Some(*v),
                    None => None,
                },
            ),
    ;

    /// A reader that hands out a copy of each message.
    #[inline]
    fn cloned(self) -> (r: ClonedReader<Self>)
        ensures
            r.reader == self,
    {
        ClonedReader { reader: self }
    }
}

/// Cloning queue consumer: a reader that clones each message it returns.
///
/// Made by [`LendingReader::cloned`].
pub struct ClonedReader<R: LendingReader> {
    pub reader: R,
}

impl<R: LendingReader> ClonedReader<R> {
    /// A copy of the next message, if there is one.
    #[inline]
    pub fn next(&mut self, queue: &mut R::Queue) -> (r: Option<R::Item>) where R::Item: Clone
        requires
            old(self).reader.ready(old(queue)),
        ensures
            exists|out: Option<R::Item>|
                {
                    &&& R::stepped(
                        &old(self).reader,
                        old(queue),
                        &final(self).reader,
                        final(queue),
                        out,
                    )
                    &&& out is Some <==> r is Some
                    &&& out is Some ==> cloned(out->0, r->0)
                },
    {
        let got = self.reader.next(queue);
        let ghost out = match got {
            Some(v) => Some(*v),
            None => None,
        };
        let r = match got {
            Some(v) => Some(v.clone()),
            None => None,
        };
        proof {
            assert(R::stepped(&old(self).reader, old(queue), &self.reader, queue, out));
        }
        r
    }
}

impl<T> LendingReader for spmc::Reader<T> {
    type Item = T;

    type Queue = spmc::Queue<T>;

    open spec fn ready(&self, queue: &spmc::Queue<T>) -> bool {
        &&& queue.wf()
        &&& self.wf(queue)
        &&& self.can_next(queue)
    }

    open spec fn stepped(
        old: &Self,
        old_queue: &spmc::Queue<T>,
        new: &Self,
        new_queue: &spmc::Queue<T>,
        out: Option<T>,
    ) -> bool {
        &&& new_queue.wf()
        &&& new.wf(new_queue)
        &&& spmc::Reader::advanced(old, old_queue, new, new_queue, out)
    }

    #[inline]
    fn next<'a>(&mut self, queue: &'a mut spmc::Queue<T>) -> (r: Option<&'a T>) {
        spmc::Reader::next(self, queue)
    }
}

impl<T> LendingReader for mpmc::Reader<T> {
    type Item = T;

    type Queue = mpmc::Queue<T>;

    open spec fn ready(&self, queue: &mpmc::Queue<T>) -> bool {
        &&& queue.wf()
        &&& self.wf(queue)
        &&& self.can_next(queue)
    }

    open spec fn stepped(
        old: &Self,
        old_queue: &mpmc::Queue<T>,
        new: &Self,
        new_queue: &mpmc::Queue<T>,
        out: Option<T>,
    ) -> bool {
        &&& new_queue.wf()
        &&& new.wf(new_queue)
        &&& mpmc::Reader::advanced(old, old_queue, new, new_queue, out)
    }

    #[inline]
    fn next<'a>(&mut self, queue: &'a mut mpmc::Queue<T>) -> (r: Option<&'a T>) {
        mpmc::Reader::next(self, queue)
    }
}

} // verus!
