//! Unbounded unicast queue with one producer and competing consumers.
//!
//! Every message is claimed by exactly one reader, in the order of the pushes:
//! whichever reader asks next gets the first message that nobody has claimed.
use crate::block::BlockArc;
use crate::block_list::{acquired, chained, with_block, BlockList};
use crate::unicast::block::{Block, BlockView, BLOCK_SIZE};
use crate::unicast::list::{
    claimed, dropped, first, flushed, holders, kept, lemma_acquire, lemma_advance, lemma_block,
    lemma_chain, lemma_dropped, lemma_ends, lemma_flushed, lemma_new, lemma_read_next,
    lemma_read_next_keeps, lemma_release, lemma_switched, lemma_write, list_wf, next_base,
    read_next, reader_wf, step_ok, Step, Store,
};
use crate::unicast::read_guard::{ReadGuard, ReadSessionGuard};
use branch_hints::{likely, unlikely};
use std::marker::PhantomData;
use vstd::prelude::*;

verus! {

broadcast use {vstd::set::group_set_axioms, vstd::map::group_map_axioms};

/// The queue: its blocks, the handle to the write block, into which the next
/// message goes, and the handle to the read block, which the readers share:
/// the oldest block in which a slot can still be claimed.
pub struct Queue<T> {
    pub(crate) blocks: BlockList<Block<T>>,
    pub(crate) read_block: BlockArc,
    pub(crate) write_block: BlockArc,
    pub(crate) history: Ghost<Seq<T>>,
}

impl<T> Queue<T> {
    /// The blocks of the queue.
    pub closed spec fn store(&self) -> Store<T> {
        self.blocks@
    }

    /// Slot of the read block.
    pub closed spec fn read_block(&self) -> usize {
        self.read_block.ptr
    }

    /// Slot of the write block.
    pub closed spec fn write_block(&self) -> usize {
        self.write_block.ptr
    }

    /// Every message that ever went into the queue, in the order of the pushes.
    pub closed spec fn history(&self) -> Seq<T> {
        self.history@
    }

    /// The store keeps its own books.
    pub closed spec fn inv(&self) -> bool {
        self.blocks.inv()
    }

    /// The queue is in order.
    pub open spec fn wf(&self) -> bool {
        &&& self.inv()
        &&& list_wf(self.store(), self.read_block(), self.write_block(), self.history())
    }

    /// Number of handles that readers hold to block `b`.
    pub open spec fn holders(&self, b: usize) -> int {
        holders(self.store(), self.read_block(), self.write_block(), b)
    }

    /// Number of messages that readers have claimed: the next claim gets the
    /// message at this position of the history.
    pub open spec fn claimed(&self) -> nat {
        claimed(self.store(), self.read_block())
    }

    /// `new` is `old` after `value` was pushed.
    ///
    /// The message is the last of the history, and no claim is made. Where the
    /// write block had room it took the message. Where it was full, a new
    /// block with the message in its first slot was chained behind it and
    /// became the write block, and the queue gave up its handle to the old
    /// one.
    pub open spec fn pushed(old: &Self, new: &Self, value: T) -> bool {
        let m = old.store();
        let wb = old.write_block();
        &&& new.history() == old.history().push(value)
        &&& new.read_block() == old.read_block()
        &&& if m[wb].block.write_counter < BLOCK_SIZE {
            &&& new.write_block() == wb
            &&& new.store() == with_block(m, wb, m[wb].block.written(value))
        } else {
            &&& !m.dom().contains(new.write_block())
            &&& new.store() == dropped(
                chained(
                    m,
                    wb,
                    new.write_block(),
                    0,
                    BlockView::empty(next_base(m, wb)).written(value),
                ),
                wb,
            )
        }
    }

    /// An empty queue: one empty block, which is its read block and its write
    /// block.
    #[inline]
    pub fn new() -> (r: Self)
        ensures
            r.wf(),
            r.history() == Seq::<T>::empty(),
            r.read_block() == r.write_block(),
            r.store() == first::<T>(r.write_block()),
            r.claimed() == 0,
    {
        let mut blocks = BlockList::new();
        let write_block = BlockArc::from_raw(blocks.insert(Block::default(Ghost(0)), 1));
        let read_block = write_block.clone(&mut blocks);
        let r = Queue { blocks, read_block, write_block, history: Ghost(Seq::empty()) };
        proof {
            lemma_new::<T>(r.write_block());
            assert(r.store() =~= first::<T>(r.write_block()));
        }
        r
    }

    /// Number of blocks that the queue and its readers keep.
    pub fn live_blocks(&self) -> (r: usize)
        requires
            self.wf(),
        ensures
            r == self.store().dom().len(),
    {
        proof {
            lemma_ends(self.store(), self.read_block(), self.write_block(), self.history());
        }
        self.blocks.live_blocks()
    }

    /// Number of references to the block in slot `b`, or 0 where the store has
    /// no such block.
    pub fn use_count(&self, b: usize) -> (r: usize)
        ensures
            r == if self.store().dom().contains(b) {
                self.store()[b].use_count
            } else {
                0
            },
    {
        if self.blocks.is_live(b) {
            self.blocks.use_count(b)
        } else {
            0
        }
    }

    /// Number of slots that the block in slot `b` has counted as emptied, and
    /// whether it still has its storage; `None` where the store has no such
    /// block.
    pub fn read_succ(&self, b: usize) -> (r: Option<(usize, bool)>)
        ensures
            r is Some <==> self.store().dom().contains(b),
            r matches Some(p) ==> p.0 == self.store()[b].block.read_succ && p.1 == (
            self.store()[b].block.mem is Some),
    {
        if self.blocks.is_live(b) {
            let block = self.blocks.get(b);
            Some((block.load_read_succ(), block.has_mem()))
        } else {
            None
        }
    }

    /// The block in slot `b`.
    pub fn block(&self, b: usize) -> (r: &Block<T>)
        requires
            self.store().dom().contains(b),
        ensures
            r@ == self.store()[b].block,
    {
        self.blocks.get(b)
    }

    /// The block in slot `b`, to be changed in place.
    pub(crate) fn block_mut(&mut self, b: usize) -> (r: &mut Block<T>)
        requires
            old(self).inv(),
            crate::block_list::chain_wf(old(self).store()),
            old(self).store().dom().contains(b),
        ensures
            r@ == old(self).store()[b].block,
            final(self).inv(),
            crate::block_list::chain_wf(final(self).store()),
            final(self).history() == old(self).history(),
            final(self).read_block() == old(self).read_block(),
            final(self).write_block() == old(self).write_block(),
            final(self).store() == with_block(old(self).store(), b, final(r)@),
    {
        self.blocks.get_mut(b)
    }

    /// Appends `value` to the queue.
    #[inline]
    pub fn push(&mut self, value: T)
        requires
            old(self).wf(),
        ensures
            final(self).wf(),
            Self::pushed(old(self), final(self), value),
            final(self).claimed() == old(self).claimed(),
            forall|r: Reader<T>| #[trigger]
                r.wf(old(self)) ==> r.wf(final(self)),
    {
        let ghost m = self.store();
        let ghost rb = self.read_block();
        let ghost wb = self.write_block();
        let ghost h = self.history();
        proof {
            lemma_ends(m, rb, wb, h);
        }
        let len = self.blocks.get(self.write_block.ptr).load_write_counter();
        if unlikely(len == BLOCK_SIZE) {
            let new_block = BlockArc::from_raw(
                self.blocks.insert(Block::default(Ghost(next_base(m, wb))), 1),
            );
            let ghost c = new_block.ptr;
            // The link from the old block holds a handle of its own.
            let link = new_block.clone(&mut self.blocks);
            self.blocks.store_next(self.write_block.ptr, link.into_raw());
            let ghost m1 = self.blocks@;
            proof {
                assert(m1 =~= chained(m, wb, c, 0, BlockView::empty(next_base(m, wb))));
                lemma_chain(m, rb, wb, h, c);
                lemma_ends(m1, rb, c, h);
            }
            let old_block = BlockArc::from_raw(self.write_block.ptr);
            self.write_block = new_block;
            old_block.drop(&mut self.blocks);
            proof {
                let m2 = self.blocks@;
                lemma_release(m1, m2, rb, c, h, wb);
            }
        }
        let ghost m2 = self.store();
        let ghost c = self.write_block();
        self.blocks.get_mut(self.write_block.ptr).write(value);
        proof {
            self.history@ = h.push(value);
            let m3 = self.store();
            lemma_write(m2, rb, c, h, value);
            if m[wb].block.write_counter == BLOCK_SIZE {
                assert(m3 =~= dropped(
                    chained(m, wb, c, 0, BlockView::empty(next_base(m, wb)).written(value)),
                    wb,
                ));
            }
        }
    }

    /// Whether the counter of the read block has room for one more handle,
    /// as `reader` needs it.
    pub fn room_for_reader(&self) -> (r: bool)
        requires
            self.wf(),
        ensures
            r == (self.store()[self.read_block()].use_count < usize::MAX),
    {
        proof {
            lemma_ends(self.store(), self.read_block(), self.write_block(), self.history());
        }
        self.blocks.use_count(self.read_block.ptr) < usize::MAX
    }

    /// A reader, with a handle to the read block. It competes with the other
    /// readers for the messages that nobody has claimed.
    #[inline]
    pub fn reader(&mut self) -> (r: Reader<T>)
        requires
            old(self).wf(),
            old(self).store()[old(self).read_block()].use_count < usize::MAX,
        ensures
            final(self).wf(),
            r.wf(final(self)),
            r.block.ptr == old(self).read_block(),
            r.write_counter == old(self).store()[old(self).read_block()].block.write_counter,
            final(self).history() == old(self).history(),
            final(self).read_block() == old(self).read_block(),
            final(self).write_block() == old(self).write_block(),
            final(self).store() == acquired(old(self).store(), old(self).read_block()),
            final(self).claimed() == old(self).claimed(),
            forall|x: Reader<T>| #[trigger] x.wf(old(self)) ==> x.wf(final(self)),
    {
        let ghost m = self.store();
        let ghost rb = self.read_block();
        let ghost wb = self.write_block();
        proof {
            lemma_ends(m, rb, wb, self.history());
            lemma_acquire(m, rb, wb, self.history(), rb);
        }
        let block = self.read_block.clone(&mut self.blocks);
        let write_counter = self.blocks.get(block.ptr).load_write_counter();
        Reader { write_counter, block, phantom_data: PhantomData }
    }
}

impl<T> Default for Queue<T> {
    /// An empty queue, as [`Queue::new`] makes it.
    #[inline]
    fn default() -> (r: Self)
        ensures
            r.wf(),
            r.history() == Seq::<T>::empty(),
            r.read_block() == r.write_block(),
            r.store() == first::<T>(r.write_block()),
            r.claimed() == 0,
    {
        Queue::new()
    }
}

/// Number of spin hints that a reader waits for after its claim failed for
/// the `exp`-th time in a row: 1, 2, 4 and so on.
pub open spec fn backoff_spins_spec(exp: u32) -> nat {
    vstd::arithmetic::power2::pow2(exp as nat)
}

/// Number of spin hints to wait for at backoff step `exp`, which is at most
/// 10: two to the power of `exp`, so 1024 at most.
pub fn backoff_spins(exp: u32) -> (r: usize)
    requires
        exp <= 10,
    ensures
        r == backoff_spins_spec(exp),
        1 <= r <= 1024,
{
    proof {
        vstd::arithmetic::power2::lemma2_to64();
        vstd::bits::lemma_u64_shl_is_mul(1, exp as u64);
    }
    (1u64 << (exp as u64)) as usize
}

/// The backoff step after step `exp`: one more, up to 10.
pub fn backoff_next(exp: u32) -> (r: u32)
    ensures
        r == if exp < 10 {
            (exp + 1) as u32
        } else {
            exp
        },
{
    if exp < 10 {
        exp + 1
    } else {
        exp
    }
}

/// Queue consumer. It holds a handle to the block in which it claims slots:
/// the read block of the queue, or an earlier one, whose slots are all
/// claimed.
///
/// Made by [`Queue::reader`].
pub struct Reader<T> {
    /// Number of written slots of the block that the reader knows of.
    pub write_counter: usize,
    /// Handle to the block.
    pub block: BlockArc,
    pub phantom_data: PhantomData<T>,
}

impl<T> Reader<T> {
    /// The reader is in order: it holds its block, which is the read block of
    /// `queue` or one before it.
    pub open spec fn wf(&self, queue: &Queue<T>) -> bool {
        reader_wf(
            queue.store(),
            queue.read_block(),
            queue.write_block(),
            self.block.ptr,
            self.write_counter,
        )
    }

    /// A second reader on the same block, with a handle of its own.
    pub fn clone(&self, queue: &mut Queue<T>) -> (r: Self)
        requires
            old(queue).wf(),
            self.wf(old(queue)),
            old(queue).store()[self.block.ptr].use_count < usize::MAX,
        ensures
            final(queue).wf(),
            r.wf(final(queue)),
            r.block.ptr == self.block.ptr,
            r.write_counter == self.write_counter,
            final(queue).history() == old(queue).history(),
            final(queue).read_block() == old(queue).read_block(),
            final(queue).write_block() == old(queue).write_block(),
            final(queue).store() == acquired(old(queue).store(), self.block.ptr),
            final(queue).claimed() == old(queue).claimed(),
            forall|x: Reader<T>| #[trigger] x.wf(old(queue)) ==> x.wf(final(queue)),
    {
        let ghost m = queue.store();
        let ghost rb = queue.read_block();
        let ghost wb = queue.write_block();
        let ghost b = self.block.ptr;
        proof {
            lemma_ends(m, rb, wb, queue.history());
            lemma_acquire(m, rb, wb, queue.history(), b);
        }
        let block = self.block.clone(&mut queue.blocks);
        Self { write_counter: self.write_counter, block, phantom_data: PhantomData }
    }

    /// Gives the reader up, and with it its handle. Its block goes if it is a
    /// block before the read block that no other reader holds.
    pub fn drop(self, queue: &mut Queue<T>)
        requires
            old(queue).wf(),
            self.wf(old(queue)),
        ensures
            final(queue).wf(),
            final(queue).history() == old(queue).history(),
            final(queue).read_block() == old(queue).read_block(),
            final(queue).write_block() == old(queue).write_block(),
            final(queue).store() == dropped(old(queue).store(), self.block.ptr),
            final(queue).claimed() == old(queue).claimed(),
            forall|x: Reader<T>|
                x.block.ptr != self.block.ptr && #[trigger] x.wf(old(queue)) ==> x.wf(final(queue)),
    {
        let ghost m = queue.store();
        let ghost rb = queue.read_block();
        let ghost wb = queue.write_block();
        let ghost b = self.block.ptr;
        proof {
            lemma_ends(m, rb, wb, queue.history());
        }
        self.block.drop(&mut queue.blocks);
        proof {
            let m2 = queue.store();
            lemma_release(m, m2, rb, wb, queue.history(), b);
        }
    }

    /// Has the reader's block count the `read_succ` slots that the reader
    /// emptied, and sets `read_succ` to 0. A block that has counted all its
    /// slots gives up its storage.
    #[inline]
    pub(crate) fn flush_read_succ(&mut self, queue: &mut Queue<T>, read_succ: &mut usize)
        requires
            old(queue).wf(),
            old(queue).store().dom().contains(old(self).block.ptr),
            *old(read_succ) <= old(queue).store()[old(self).block.ptr].block.pending,
        ensures
            final(queue).wf(),
            *final(self) == *old(self),
            *final(read_succ) == 0,
            final(queue).history() == old(queue).history(),
            final(queue).read_block() == old(queue).read_block(),
            final(queue).write_block() == old(queue).write_block(),
            final(queue).store() == flushed(
                old(queue).store(),
                old(self).block.ptr,
                *old(read_succ),
            ),
    {
        let ghost m = queue.store();
        let ghost b = self.block.ptr;
        proof {
            lemma_ends(m, queue.read_block(), queue.write_block(), queue.history());
            lemma_block(m, queue.read_block(), queue.write_block(), queue.history(), b);
            lemma_flushed(m, queue.read_block(), queue.write_block(), queue.history(), b, *read_succ);
        }
        let read_succ_value = *read_succ;
        if likely(read_succ_value > 0) {
            let block = queue.blocks.get_mut(self.block.ptr);
            if unlikely(block.fetch_add_read_succ(read_succ_value) == BLOCK_SIZE - read_succ_value) {
                block.dealloc_destructed_mem();
            }
        }
        *read_succ = 0;
    }

    /// The outcome of one call of `next` on `queue`: the reader claims the
    /// first message that nobody has claimed, if there is one, after it has
    /// gone to the read block where all slots of its own block are claimed.
    pub open spec fn step(&self, queue: &Queue<T>, read_succ: usize) -> Step<T> {
        read_next(
            queue.store(),
            queue.read_block(),
            self.block.ptr,
            self.write_counter,
            read_succ,
            2,
        )
    }

    /// `new` and `new_queue` are what `s` says.
    pub open spec fn stepped(new: &Self, new_queue: &Queue<T>, s: Step<T>) -> bool {
        &&& new_queue.store() == s.m
        &&& new_queue.read_block() == s.rb
        &&& new.block.ptr == s.block
        &&& new.write_counter == s.write_counter
    }

    /// Every block that a reader holds in `old_queue`, besides the handle of
    /// the reader on `block` that made a call, is kept in `new_queue`: the
    /// readers and guards on it are in order as before, and the guards hold
    /// the same messages.
    pub open spec fn others_kept(old_queue: &Queue<T>, new_queue: &Queue<T>, block: usize) -> bool {
        forall|y: usize| #[trigger]
            old_queue.store().dom().contains(y) && old_queue.holders(y) >= 1 && (y != block
                || old_queue.holders(block) >= 2) && old_queue.store()[y].block.base
                <= old_queue.store()[old_queue.read_block()].block.base ==> kept(
                old_queue.store(),
                old_queue.read_block(),
                new_queue.store(),
                new_queue.read_block(),
                new_queue.write_block(),
                y,
            )
    }

    /// No counter of a block that `next` may take a handle to is at its
    /// largest value.
    pub open spec fn can_step(&self, queue: &Queue<T>) -> bool {
        let m = queue.store();
        let rb = queue.read_block();
        &&& m[rb].use_count < usize::MAX
        &&& m[rb].next matches Some(c) ==> m[c].use_count < usize::MAX
    }

    /// Whether no counter of a block that `next` may take a handle to is at
    /// its largest value.
    pub fn room_for_step(&self, queue: &Queue<T>) -> (r: bool)
        requires
            queue.wf(),
        ensures
            r == self.can_step(queue),
    {
        proof {
            lemma_ends(queue.store(), queue.read_block(), queue.write_block(), queue.history());
            lemma_block(
                queue.store(),
                queue.read_block(),
                queue.write_block(),
                queue.history(),
                queue.read_block(),
            );
        }
        let rb = queue.read_block.ptr;
        if queue.blocks.use_count(rb) < usize::MAX {
            match queue.blocks.load_next(rb) {
                Some(next) => queue.blocks.use_count(next) < usize::MAX,
                None => true,
            }
        } else {
            false
        }
    }

    /// Whether the counter of the reader's block has room for one more
    /// handle, as `clone` needs it.
    pub fn room_for_clone(&self, queue: &Queue<T>) -> (r: bool)
        requires
            queue.wf(),
            self.wf(queue),
        ensures
            r == (queue.store()[self.block.ptr].use_count < usize::MAX),
    {
        queue.blocks.use_count(self.block.ptr) < usize::MAX
    }

    /// Claims the next slot of the queue, and returns its index in the block
    /// that the reader is on afterwards. `read_succ` is the number of slots
    /// that the reader has emptied and not had counted; they are counted when
    /// the reader leaves its block.
    pub(crate) fn read_next_impl(&mut self, queue: &mut Queue<T>, read_succ: &mut usize) -> (r: Option<
        usize,
    >)
        requires
            old(queue).wf(),
            old(self).wf(old(queue)),
            old(self).can_step(old(queue)),
            *old(read_succ) <= old(queue).store()[old(self).block.ptr].block.pending,
        ensures
            final(queue).wf(),
            final(self).wf(final(queue)),
            final(queue).history() == old(queue).history(),
            final(queue).write_block() == old(queue).write_block(),
            Self::stepped(final(self), final(queue), old(self).step(old(queue), *old(read_succ))),
            r == old(self).step(old(queue), *old(read_succ)).out,
            *final(read_succ) == old(self).step(old(queue), *old(read_succ)).k,
            step_ok(
                old(queue).store(),
                old(queue).read_block(),
                old(queue).write_block(),
                old(queue).history(),
                old(self).step(old(queue), *old(read_succ)),
            ),
            Self::others_kept(old(queue), final(queue), old(self).block.ptr),
    {
        let ghost m0 = queue.store();
        let ghost rb0 = queue.read_block();
        let ghost wb = queue.write_block();
        let ghost h = queue.history();
        let ghost goal = self.step(queue, *read_succ);
        let ghost b0 = self.block.ptr;
        proof {
            lemma_read_next(m0, rb0, wb, h, self.block.ptr, self.write_counter, *read_succ, 2);
            assert forall|y: usize| #[trigger]
                m0.dom().contains(y) && holders(m0, rb0, wb, y) >= 1 && (y != b0 || holders(
                    m0,
                    rb0,
                    wb,
                    b0,
                ) >= 2) && m0[y].block.base <= m0[rb0].block.base implies kept(
                m0,
                rb0,
                goal.m,
                goal.rb,
                wb,
                y,
            ) by {
                lemma_read_next_keeps(
                    m0,
                    rb0,
                    wb,
                    h,
                    b0,
                    self.write_counter,
                    *read_succ,
                    2,
                    y,
                );
            }
        }
        let mut exp: u32 = 0;
        let mut read_counter = queue.blocks.get(self.block.ptr).load_read_counter();
        let ghost mut fuel: nat = 2;
        loop
            invariant
                queue.wf(),
                self.wf(queue),
                queue.history() == h,
                queue.write_block() == wb,
                *read_succ <= queue.store()[self.block.ptr].block.pending,
                read_counter == queue.store()[self.block.ptr].block.read_counter,
                exp <= 10,
                fuel <= 2,
                fuel == 2 ==> self.can_step(queue),
                fuel == 1 ==> self.block.ptr == queue.read_block(),
                fuel == 1 && read_counter == BLOCK_SIZE ==> (queue.store()[queue.read_block()].next
                    is Some ==> queue.store()[queue.store()[queue.read_block()].next->0].use_count
                    < usize::MAX),
                fuel == 0 ==> read_counter < BLOCK_SIZE,
                goal == read_next(
                    queue.store(),
                    queue.read_block(),
                    self.block.ptr,
                    self.write_counter,
                    *read_succ,
                    fuel,
                ),
                step_ok(m0, rb0, wb, h, goal),
                m0 == old(queue).store(),
                rb0 == old(queue).read_block(),
                wb == old(queue).write_block(),
                h == old(queue).history(),
                goal == old(self).step(old(queue), *old(read_succ)),
                b0 == old(self).block.ptr,
                forall|y: usize| #[trigger]
                    m0.dom().contains(y) && holders(m0, rb0, wb, y) >= 1 && (y != b0 || holders(
                        m0,
                        rb0,
                        wb,
                        b0,
                    ) >= 2) && m0[y].block.base <= m0[rb0].block.base ==> kept(
                        m0,
                        rb0,
                        goal.m,
                        goal.rb,
                        wb,
                        y,
                    ),
            decreases fuel,
        {
            let ghost m = queue.store();
            let ghost rb = queue.read_block();
            let ghost b = self.block.ptr;
            let ghost k = *read_succ;
            proof {
                lemma_ends(m, rb, wb, h);
                lemma_block(m, rb, wb, h, b);
            }
            if read_counter >= self.write_counter {
                if unlikely(read_counter == BLOCK_SIZE) {
                    proof {
                        lemma_switched(m, rb, wb, h, b, self.write_counter, k);
                    }
                    let next_block = if queue.read_block.ptr != self.block.ptr {
                        // Use the read block of the queue.
                        proof {
                            lemma_acquire(m, rb, wb, h, rb);
                        }
                        queue.read_block.clone(&mut queue.blocks)
                    } else {
                        // Try to get the block from "next".
                        match queue.blocks.take_next(self.block.ptr) {
                            Some(next) => {
                                let ghost c = next;
                                proof {
                                    lemma_advance(m, rb, wb, h, c);
                                }
                                // Update the read block of the queue.
                                queue.blocks.inc_use_count(next);
                                let ghost m1 = queue.store();
                                let old_read_block = BlockArc::from_raw(queue.read_block.ptr);
                                queue.read_block = BlockArc::from_raw(next);
                                old_read_block.drop(&mut queue.blocks);
                                proof {
                                    lemma_release(m1, queue.store(), c, wb, h, rb);
                                    lemma_dropped(m1, queue.store(), c, wb, h, rb);
                                }
                                BlockArc::from_raw(next)
                            },
                            None => {
                                // There are no more blocks.
                                return None;
                            },
                        }
                    };
                    let ghost rb2 = queue.read_block();
                    // Have the old block count what this reader emptied.
                    self.flush_read_succ(queue, read_succ);
                    let ghost m3 = queue.store();
                    proof {
                        lemma_ends(m3, rb2, wb, h);
                    }
                    // Read everything again for the new block.
                    read_counter = queue.blocks.get(next_block.ptr).load_read_counter();
                    self.write_counter = queue.blocks.get(next_block.ptr).load_write_counter();
                    let old_block = BlockArc::from_raw(self.block.ptr);
                    self.block = next_block;
                    old_block.drop(&mut queue.blocks);
                    proof {
                        let m4 = queue.store();
                        lemma_dropped(m3, m4, rb2, wb, h, b);
                        fuel = (fuel - 1) as nat;
                    }
                    continue ;
                } else {
                    let write_counter = queue.blocks.get(self.block.ptr).load_write_counter();
                    if write_counter <= read_counter {
                        return None;
                    }
                    self.write_counter = write_counter;
                }
            }
            let result = queue.blocks.get_mut(self.block.ptr).compare_exchange_read_counter(
                read_counter,
                read_counter + 1,
            );
            match result {
                Ok(_) => {
                    return Some(read_counter);
                },
                Err(new_read_counter) => {
                    read_counter = new_read_counter;
                },
            }
            // The claim failed: wait a little longer each time before the
            // next attempt.
            let _spins = backoff_spins(exp);
            exp = backoff_next(exp);
        }
    }

    /// A scope in which the slots that the reader empties are counted in one
    /// go, when the scope ends or the reader leaves its block.
    #[inline]
    pub fn session<'a>(&'a mut self) -> (r: ReadSession<'a, T>)
        ensures
            *r.reader == *old(self),
            r.read_succ == 0,
            *final(self) == *final(r.reader),
    {
        ReadSession { reader: self, read_succ: 0, phantom_data: PhantomData }
    }

    /// Claims the first message that nobody has claimed, if there is one, and
    /// returns a guard that owns it: the message is read or taken through the
    /// guard, and is gone from the queue when the guard is.
    #[inline]
    pub fn next<'a>(&'a mut self, queue: &mut Queue<T>) -> (r: Option<ReadGuard<'a, T>>)
        requires
            old(queue).wf(),
            old(self).wf(old(queue)),
            old(self).can_step(old(queue)),
        ensures
            final(queue).wf(),
            final(self).wf(final(queue)),
            final(queue).history() == old(queue).history(),
            final(queue).write_block() == old(queue).write_block(),
            Self::stepped(final(self), final(queue), old(self).step(old(queue), 0)),
            step_ok(
                old(queue).store(),
                old(queue).read_block(),
                old(queue).write_block(),
                old(queue).history(),
                old(self).step(old(queue), 0),
            ),
            Self::others_kept(old(queue), final(queue), old(self).block.ptr),
            r is Some <==> old(queue).claimed() < old(queue).history().len(),
            final(queue).claimed() == old(queue).claimed() + if r is Some {
                1nat
            } else {
                0nat
            },
            r matches Some(g) ==> {
                &&& g.wf(final(queue))
                &&& g.block.ptr == final(self).block.ptr
                &&& Some(g.index) == old(self).step(old(queue), 0).out
                &&& g.value(final(queue)) == old(queue).history()[old(queue).claimed() as int]
            },
    {
        let mut read_succ: usize = 0;
        match self.read_next_impl(queue, &mut read_succ) {
            Some(index) => Some(ReadGuard { block: &self.block, index, phantom_data: PhantomData }),
            None => None,
        }
    }
}

/// A scope of a reader in which emptied slots are counted in one go.
///
/// Made by [`Reader::session`]; ended by [`ReadSession::drop`].
pub struct ReadSession<'a, T> {
    pub reader: &'a mut Reader<T>,
    /// Number of slots that the reader emptied in this session and that its
    /// block has not counted yet.
    pub read_succ: usize,
    pub phantom_data: PhantomData<T>,
}

impl<'a, T> ReadSession<'a, T> {
    /// The session is in order: its reader is, and the reader's block has
    /// still to count at least the slots that the session emptied.
    pub open spec fn wf(&self, queue: &Queue<T>) -> bool {
        &&& self.reader.wf(queue)
        &&& self.read_succ <= queue.store()[self.reader.block.ptr].block.pending
    }

    /// Claims the first message that nobody has claimed, if there is one, and
    /// returns a guard that owns it. Where the reader leaves its block for
    /// that, the block counts the slots that the session emptied.
    #[inline]
    pub fn next<'b>(&'b mut self, queue: &mut Queue<T>) -> (r: Option<ReadSessionGuard<'b, T>>)
        requires
            old(queue).wf(),
            old(self).wf(old(queue)),
            old(self).reader.can_step(old(queue)),
        ensures
            final(queue).wf(),
            final(queue).history() == old(queue).history(),
            final(queue).write_block() == old(queue).write_block(),
            Reader::stepped(
                final(self).reader,
                final(queue),
                old(self).reader.step(old(queue), old(self).read_succ),
            ),
            step_ok(
                old(queue).store(),
                old(queue).read_block(),
                old(queue).write_block(),
                old(queue).history(),
                old(self).reader.step(old(queue), old(self).read_succ),
            ),
            Reader::others_kept(old(queue), final(queue), old(self).reader.block.ptr),
            r is Some <==> old(queue).claimed() < old(queue).history().len(),
            final(queue).claimed() == old(queue).claimed() + if r is Some {
                1nat
            } else {
                0nat
            },
            r is None ==> final(self).wf(final(queue)) && final(self).read_succ == old(
                self,
            ).reader.step(old(queue), old(self).read_succ).k,
            r matches Some(g) ==> {
                &&& g.wf(final(queue))
                &&& g.block == final(self).reader.block.ptr
                &&& Some(g.index) == old(self).reader.step(old(queue), old(self).read_succ).out
                &&& *g.read_succ == old(self).reader.step(old(queue), old(self).read_succ).k
                &&& g.value(final(queue)) == old(queue).history()[old(queue).claimed() as int]
                &&& final(self).read_succ == *final(g.read_succ)
            },
    {
        match self.reader.read_next_impl(queue, &mut self.read_succ) {
            Some(index) => Some(
                ReadSessionGuard {
                    block: self.reader.block.ptr,
                    index,
                    read_succ: &mut self.read_succ,
                    phantom_data: PhantomData,
                },
            ),
            None => None,
        }
    }

    /// Ends the session: the reader's block counts the slots that the session
    /// emptied.
    #[inline]
    pub fn drop(self, queue: &mut Queue<T>)
        requires
            old(queue).wf(),
            self.wf(old(queue)),
        ensures
            final(queue).wf(),
            final(self.reader).wf(final(queue)),
            *final(self.reader) == *old(self.reader),
            final(queue).history() == old(queue).history(),
            final(queue).read_block() == old(queue).read_block(),
            final(queue).write_block() == old(queue).write_block(),
            final(queue).store() == flushed(
                old(queue).store(),
                old(self.reader).block.ptr,
                self.read_succ,
            ),
            final(queue).claimed() == old(queue).claimed(),
    {
        let mut this = self;
        this.reader.flush_read_succ(queue, &mut this.read_succ);
    }
}

} // verus!
