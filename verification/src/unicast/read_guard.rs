//! Guards: what a unicast reader gets for a slot that it claimed.
//!
//! A guard owns the message in its slot. The message is read through the
//! guard, or taken out; either way the slot is empty once the guard is gone,
//! and the block counts it as emptied.
use crate::block::BlockArc;
use crate::block_list::with_block;
use crate::unicast::block::BLOCK_SIZE;
use crate::unicast::list::{claimed, lemma_block, lemma_ends, lemma_update, list_wf, Store};
use crate::unicast::spmc::Queue;
use branch_hints::unlikely;
use std::marker::PhantomData;
use vstd::prelude::*;

verus! {

broadcast use {vstd::set::group_set_axioms, vstd::map::group_map_axioms};

/// Owner of the message in a claimed slot.
///
/// The reader is not copied a message for every claim: the guard gives a
/// reference to the message where it lies, and the message can be
/// [`take`](ReadGuard::take)n out.
pub struct ReadGuard<'a, T> {
    /// Handle of the reader to the block of the slot.
    pub block: &'a BlockArc,
    /// Index of the slot in the block.
    pub index: usize,
    pub phantom_data: PhantomData<T>,
}

impl<'a, T> ReadGuard<'a, T> {
    /// The guard's slot is a claimed slot of a block of `queue` that still
    /// holds its message.
    pub open spec fn wf(&self, queue: &Queue<T>) -> bool {
        &&& queue.store().dom().contains(self.block.ptr)
        &&& queue.store()[self.block.ptr].block.claimed_at(self.index as int)
    }

    /// The message that the guard owns.
    pub open spec fn value(&self, queue: &Queue<T>) -> T {
        queue.store()[self.block.ptr].block.mem->0[self.index as int]->0
    }

    /// Has the block count the guard's slot, which was emptied, and give up
    /// its storage if that was the last.
    #[inline]
    fn mark_readed(&mut self, queue: &mut Queue<T>)
        requires
            old(queue).inv(),
            crate::block_list::chain_wf(old(queue).store()),
            old(queue).store().dom().contains(old(self).block.ptr),
            old(queue).store()[old(self).block.ptr].block.wf_unsettled(),
            old(queue).store()[old(self).block.ptr].block.pending >= 1,
        ensures
            final(queue).inv(),
            *final(self) == *old(self),
            final(queue).history() == old(queue).history(),
            final(queue).read_block() == old(queue).read_block(),
            final(queue).write_block() == old(queue).write_block(),
            final(queue).store() == with_block(
                old(queue).store(),
                old(self).block.ptr,
                old(queue).store()[old(self).block.ptr].block.settled(1),
            ),
    {
        let block = queue.block_mut(self.block.ptr);
        if unlikely(block.fetch_add_read_succ(1) == BLOCK_SIZE - 1) {
            block.dealloc_destructed_mem();
        }
    }

    /// The message, to look at.
    #[inline]
    pub fn get<'q>(&self, queue: &'q Queue<T>) -> (r: &'q T)
        requires
            self.wf(queue),
        ensures
            *r == self.value(queue),
    {
        queue.block(self.block.ptr).slot(self.index)
    }

    /// The message, to be changed in place.
    #[inline]
    pub fn get_mut<'q>(&mut self, queue: &'q mut Queue<T>) -> (r: &'q mut T)
        requires
            old(queue).wf(),
            old(self).wf(old(queue)),
        ensures
            *r == old(self).value(old(queue)),
            *final(self) == *old(self),
            final(queue).wf(),
            final(self).wf(final(queue)),
            final(self).value(final(queue)) == *final(r),
            final(queue).history() == old(queue).history(),
            final(queue).read_block() == old(queue).read_block(),
            final(queue).write_block() == old(queue).write_block(),
            final(queue).claimed() == old(queue).claimed(),
            final(queue).store() == with_block(
                old(queue).store(),
                old(self).block.ptr,
                old(queue).store()[old(self).block.ptr].block.with_slot(
                    old(self).index as int,
                    *final(r),
                ),
            ),
    {
        let ghost m = queue.store();
        let ghost rb = queue.read_block();
        let ghost wb = queue.write_block();
        let ghost h = queue.history();
        let ghost b = self.block.ptr;
        proof {
            lemma_ends(m, rb, wb, h);
            lemma_block(m, rb, wb, h, b);
        }
        let r = queue.block_mut(self.block.ptr).slot_mut(self.index);
        proof {
            Self::lemma_changed(m, rb, wb, h, b, self.index as int, *final(r));
        }
        r
    }

    /// Takes the message out. The slot is empty and counted.
    #[inline]
    pub fn take(self, queue: &mut Queue<T>) -> (r: T)
        requires
            old(queue).wf(),
            self.wf(old(queue)),
        ensures
            final(queue).wf(),
            r == self.value(old(queue)),
            final(queue).history() == old(queue).history(),
            final(queue).read_block() == old(queue).read_block(),
            final(queue).write_block() == old(queue).write_block(),
            final(queue).claimed() == old(queue).claimed(),
            final(queue).store() == with_block(
                old(queue).store(),
                self.block.ptr,
                old(queue).store()[self.block.ptr].block.emptied_at(self.index as int).settled(1),
            ),
    {
        let ghost m = queue.store();
        let ghost rb = queue.read_block();
        let ghost wb = queue.write_block();
        let ghost h = queue.history();
        let ghost b = self.block.ptr;
        let ghost v = m[b].block;
        proof {
            lemma_ends(m, rb, wb, h);
            lemma_block(m, rb, wb, h, b);
        }
        let value = queue.block_mut(self.block.ptr).take_slot(self.index);
        let mut this = self;
        this.mark_readed(queue);
        proof {
            Self::lemma_emptied(m, rb, wb, h, b, self.index as int);
            assert(queue.store() =~= with_block(m, b, v.emptied_at(self.index as int).settled(1)));
        }
        value
    }

    /// Gives the guard up: the message is destroyed where it lies, and the
    /// slot is empty and counted.
    #[inline]
    pub fn drop(self, queue: &mut Queue<T>)
        requires
            old(queue).wf(),
            self.wf(old(queue)),
        ensures
            final(queue).wf(),
            final(queue).history() == old(queue).history(),
            final(queue).read_block() == old(queue).read_block(),
            final(queue).write_block() == old(queue).write_block(),
            final(queue).claimed() == old(queue).claimed(),
            final(queue).store() == with_block(
                old(queue).store(),
                self.block.ptr,
                old(queue).store()[self.block.ptr].block.emptied_at(self.index as int).settled(1),
            ),
    {
        // Drop the value, then have the block count the slot.
        let _ = self.take(queue);
    }

    /// Emptying a claimed slot and counting it keeps the queue in order.
    proof fn lemma_emptied(m: Store<T>, rb: usize, wb: usize, history: Seq<T>, b: usize, index: int)
        requires
            list_wf(m, rb, wb, history),
            m.dom().contains(b),
            m[b].block.claimed_at(index),
        ensures
            list_wf(with_block(m, b, m[b].block.emptied_at(index).settled(1)), rb, wb, history),
            claimed(with_block(m, b, m[b].block.emptied_at(index).settled(1)), rb) == claimed(
                m,
                rb,
            ),
    {
        lemma_block(m, rb, wb, history, b);
        let v = m[b].block;
        v.lemma_emptied_at(index);
        let e = v.emptied_at(index);
        let w = e.settled(1);
        lemma_update(m, rb, wb, history, b, w);
    }

    /// A change of the message in a claimed slot keeps the queue in order.
    proof fn lemma_changed(
        m: Store<T>,
        rb: usize,
        wb: usize,
        history: Seq<T>,
        b: usize,
        index: int,
        value: T,
    )
        requires
            list_wf(m, rb, wb, history),
            m.dom().contains(b),
            m[b].block.claimed_at(index),
        ensures
            list_wf(with_block(m, b, m[b].block.with_slot(index, value)), rb, wb, history),
            claimed(with_block(m, b, m[b].block.with_slot(index, value)), rb) == claimed(m, rb),
    {
        lemma_block(m, rb, wb, history, b);
        let v = m[b].block;
        v.lemma_with_slot(index, value);
        let w = v.with_slot(index, value);
        lemma_update(m, rb, wb, history, b, w);
    }
}

/// Owner of the message in a slot that was claimed in a session: as
/// [`ReadGuard`], but the emptied slot is counted by the session.
pub struct ReadSessionGuard<'a, T> {
    /// Slot of the block in its store.
    pub block: usize,
    /// Index of the slot in the block.
    pub index: usize,
    /// The session's count of emptied slots.
    pub read_succ: &'a mut usize,
    pub phantom_data: PhantomData<T>,
}

impl<'a, T> ReadSessionGuard<'a, T> {
    /// The guard's slot is a claimed slot of a block of `queue` that still
    /// holds its message, and the block has still to count at least the
    /// slots that the session emptied.
    pub open spec fn wf(&self, queue: &Queue<T>) -> bool {
        &&& queue.store().dom().contains(self.block)
        &&& queue.store()[self.block].block.claimed_at(self.index as int)
        &&& *self.read_succ <= queue.store()[self.block].block.pending
    }

    /// The message that the guard owns.
    pub open spec fn value(&self, queue: &Queue<T>) -> T {
        queue.store()[self.block].block.mem->0[self.index as int]->0
    }

    /// The message, to look at.
    #[inline]
    pub fn get<'q>(&self, queue: &'q Queue<T>) -> (r: &'q T)
        requires
            self.wf(queue),
        ensures
            *r == self.value(queue),
    {
        queue.block(self.block).slot(self.index)
    }

    /// The message, to be changed in place.
    #[inline]
    pub fn get_mut<'q>(&mut self, queue: &'q mut Queue<T>) -> (r: &'q mut T)
        requires
            old(queue).wf(),
            old(self).wf(old(queue)),
        ensures
            *r == old(self).value(old(queue)),
            final(self).block == old(self).block,
            final(self).index == old(self).index,
            *final(self).read_succ == *old(self).read_succ,
            final(queue).wf(),
            final(self).wf(final(queue)),
            final(self).value(final(queue)) == *final(r),
            final(queue).history() == old(queue).history(),
            final(queue).read_block() == old(queue).read_block(),
            final(queue).write_block() == old(queue).write_block(),
            final(queue).claimed() == old(queue).claimed(),
            final(queue).store() == with_block(
                old(queue).store(),
                old(self).block,
                old(queue).store()[old(self).block].block.with_slot(
                    old(self).index as int,
                    *final(r),
                ),
            ),
    {
        let ghost m = queue.store();
        let ghost rb = queue.read_block();
        let ghost wb = queue.write_block();
        let ghost h = queue.history();
        let ghost b = self.block;
        proof {
            lemma_ends(m, rb, wb, h);
            lemma_block(m, rb, wb, h, b);
        }
        let r = queue.block_mut(self.block).slot_mut(self.index);
        proof {
            ReadGuard::<T>::lemma_changed(m, rb, wb, h, b, self.index as int, *final(r));
        }
        r
    }

    /// Takes the message out. The slot is empty, and the session counts one
    /// more emptied slot.
    #[inline]
    pub fn take(self, queue: &mut Queue<T>) -> (r: T)
        requires
            old(queue).wf(),
            self.wf(old(queue)),
        ensures
            final(queue).wf(),
            r == self.value(old(queue)),
            *final(self.read_succ) == *old(self.read_succ) + 1,
            *final(self.read_succ) <= final(queue).store()[self.block].block.pending,
            final(queue).history() == old(queue).history(),
            final(queue).read_block() == old(queue).read_block(),
            final(queue).write_block() == old(queue).write_block(),
            final(queue).claimed() == old(queue).claimed(),
            final(queue).store() == with_block(
                old(queue).store(),
                self.block,
                old(queue).store()[self.block].block.emptied_at(self.index as int),
            ),
    {
        let ghost m = queue.store();
        let ghost rb = queue.read_block();
        let ghost wb = queue.write_block();
        let ghost h = queue.history();
        let ghost b = self.block;
        let ghost v = m[b].block;
        proof {
            lemma_ends(m, rb, wb, h);
            lemma_block(m, rb, wb, h, b);
            v.lemma_emptied_at(self.index as int);
            let w = v.emptied_at(self.index as int);
            lemma_update(m, rb, wb, h, b, w);
        }
        let value = queue.block_mut(self.block).take_slot(self.index);
        *self.read_succ += 1;
        value
    }

    /// Gives the guard up: the message is destroyed where it lies, the slot is
    /// empty, and the session counts one more emptied slot.
    #[inline]
    pub fn drop(self, queue: &mut Queue<T>)
        requires
            old(queue).wf(),
            self.wf(old(queue)),
        ensures
            final(queue).wf(),
            *final(self.read_succ) == *old(self.read_succ) + 1,
            *final(self.read_succ) <= final(queue).store()[self.block].block.pending,
            final(queue).history() == old(queue).history(),
            final(queue).read_block() == old(queue).read_block(),
            final(queue).write_block() == old(queue).write_block(),
            final(queue).claimed() == old(queue).claimed(),
            final(queue).store() == with_block(
                old(queue).store(),
                self.block,
                old(queue).store()[self.block].block.emptied_at(self.index as int),
            ),
    {
        let _ = self.take(queue);
    }
}

} // verus!
