//! Single-producer, multi-consumer multicast queue.
//!
//! Every reader gets every message that goes into the queue after the reader
//! was made, in the order of the pushes.
use crate::block::{Block, BlockArc, BlockView, BLOCK_SIZE};
use crate::block_list::{released, BlockList, NodeView};
use crate::chain::{
    acquired, all_bounded, chained, cursor_pos, cursor_wf, holders, lemma_acquire, lemma_append,
    lemma_block, lemma_bounded_at, lemma_bounded_sub, lemma_bounded_with, lemma_chain,
    lemma_cursor, lemma_new, lemma_release, lemma_released_block, lemma_tail, list_wf, next_base,
    with_block, Store,
};
use branch_hints::unlikely;
use std::marker::PhantomData;
use vstd::prelude::*;

verus! {

broadcast use {vstd::set::group_set_axioms, vstd::map::group_map_axioms};

/// The queue: its blocks, and the handle to the tail block, into which the
/// next message goes.
pub struct Queue<T> {
    blocks: BlockList<Block<T>>,
    last_block: BlockArc,
    history: Ghost<Seq<T>>,
}

impl<T> Queue<T> {
    /// The blocks of the queue.
    pub closed spec fn store(&self) -> Store<T> {
        self.blocks@
    }

    /// Slot of the tail block.
    pub closed spec fn tail(&self) -> usize {
        self.last_block.ptr
    }

    /// Every message that ever went into the queue, in the order of the pushes.
    pub closed spec fn history(&self) -> Seq<T> {
        self.history@
    }

    /// The store keeps its own books.
    pub closed spec fn inv(&self) -> bool {
        self.blocks.inv()
    }

    /// The queue is in order.
    pub open spec fn wf(&self) -> bool {
        &&& self.inv()
        &&& list_wf(self.store(), self.tail(), self.history())
        &&& all_bounded(self.store())
    }

    /// Number of handles that readers hold to block `b`.
    pub open spec fn holders(&self, b: usize) -> int {
        holders(self.store(), self.tail(), b)
    }

    /// `new` is `old` after `value` was pushed.
    ///
    /// The message is the last of the history. Where the tail block had room
    /// it took the message and nothing else changed. Where it was full, a new
    /// block with the message in its first slot was chained behind it and
    /// became the tail, and the queue gave up its handle to the old tail block.
    pub open spec fn pushed(old: &Self, new: &Self, value: T) -> bool {
        let m = old.store();
        let t = old.tail();
        &&& new.history() == old.history().push(value)
        &&& if !m[t].block.full() {
            &&& new.tail() == t
            &&& new.store() == with_block(m, t, m[t].block.appended(value))
        } else {
            &&& !m.dom().contains(new.tail())
            &&& released(
                chained(
                    m,
                    t,
                    new.tail(),
                    0,
                    BlockView::empty(next_base(m, t)).appended(value),
                ),
                new.store(),
                t,
            )
        }
    }

    /// An empty queue: one empty block, which nobody but the queue holds.
    #[inline]
    pub fn new() -> (r: Self)
        ensures
            r.wf(),
            r.history() == Seq::<T>::empty(),
            r.store() == Map::<usize, NodeView<BlockView<T>>>::empty().insert(
                r.tail(),
                NodeView { use_count: 1, next: None, pred: None, block: BlockView::empty(0) },
            ),
    {
        let mut blocks = BlockList::new();
        let last_block = Block::new(&mut blocks, Ghost(0));
        let r = Queue { blocks, last_block, history: Ghost(Seq::empty()) };
        proof {
            lemma_new::<T>(r.tail());
            reveal(all_bounded);
        }
        r
    }

    /// Number of blocks that the queue and its readers keep.
    pub fn live_blocks(&self) -> (r: usize)
        requires
            self.wf(),
        ensures
            r == self.store().dom().len(),
    {
        proof {
            lemma_tail(self.store(), self.tail(), self.history());
        }
        self.blocks.live_blocks()
    }

    /// Number of references to the block in slot `b`, or 0 where the store has
    /// no such block.
    pub fn use_count(&self, b: usize) -> (r: usize)
        ensures
            r == if self.store().dom().contains(b) {
                self.store()[b].use_count
            } else {
                0
            },
    {
        if self.blocks.is_live(b) {
            self.blocks.use_count(b)
        } else {
            0
        }
    }

    /// Chains a new, empty block behind the full tail block and makes it the
    /// tail. The queue's handle to the old tail block is given up.
    #[inline(never)]
    fn insert_block(&mut self)
        requires
            old(self).wf(),
            old(self).store()[old(self).tail()].block.full(),
        ensures
            final(self).wf(),
            final(self).history() == old(self).history(),
            !old(self).store().dom().contains(final(self).tail()),
            final(self).store().dom().contains(final(self).tail()),
            final(self).store()[final(self).tail()].block == BlockView::<T>::empty(
                next_base(old(self).store(), old(self).tail()),
            ),
            released(
                chained(
                    old(self).store(),
                    old(self).tail(),
                    final(self).tail(),
                    0,
                    BlockView::empty(next_base(old(self).store(), old(self).tail())),
                ),
                final(self).store(),
                old(self).tail(),
            ),
            forall|b: usize|
                old(self).store().dom().contains(b) && #[trigger] holders(
                    old(self).store(),
                    old(self).tail(),
                    b,
                ) >= 1 ==> final(self).store().dom().contains(b) && final(self).holders(b) == old(
                    self,
                ).holders(b) && final(self).store()[b].block == old(self).store()[b].block,
    {
        let ghost m = self.store();
        let ghost t = self.tail();
        let ghost h = self.history();
        proof {
            lemma_tail(m, t, h);
        }
        // One reference for the queue's handle, one for the link.
        let mut new_block = Block::with_counter(&mut self.blocks, 2, Ghost(next_base(m, t)));
        let ghost c = new_block.ptr;
        self.blocks.store_next(self.last_block.ptr, new_block.as_non_null());
        let ghost m1 = self.blocks@;
        proof {
            assert(m1 =~= chained(m, t, c, 0, BlockView::empty(next_base(m, t))));
            lemma_chain(m, t, h, c, 0);
        }
        let old_block = BlockArc::from_raw(self.last_block.ptr);
        self.last_block = new_block;
        old_block.drop(&mut self.blocks);
        proof {
            let m2 = self.blocks@;
            lemma_release(m1, m2, c, h, t);
            lemma_tail(m2, c, h);
            lemma_bounded_sub(m, m2, c);
            assert forall|b: usize|
                m.dom().contains(b) && #[trigger] holders(m, t, b) >= 1 implies m2.dom().contains(b)
                && holders(m2, c, b) == holders(m, t, b) && m2[b].block == m[b].block by {
                if b != t {
                    assert(holders(m1, c, b) >= 1);
                }
            }
        }
    }

    /// Appends `value` to the queue.
    #[inline]
    pub fn push(&mut self, value: T)
        requires
            old(self).wf(),
        ensures
            final(self).wf(),
            Self::pushed(old(self), final(self), value),
            forall|r: Reader<T>| #[trigger]
                r.wf(old(self)) ==> r.wf(final(self)) && r.position(final(self)) == r.position(
                    old(self),
                ),
    {
        let ghost m = self.store();
        let ghost t = self.tail();
        let ghost h = self.history();
        proof {
            lemma_tail(m, t, h);
            lemma_bounded_at(m, t);
        }
        let len = self.blocks.get(self.last_block.ptr).load_len();
        if unlikely(len == BLOCK_SIZE) {
            self.insert_block();
        }
        let ghost m1 = self.store();
        let ghost c = self.tail();
        proof {
            lemma_tail(m1, c, h);
        }
        let last_block = self.blocks.get_mut(self.last_block.ptr);
        last_block.append(value);
        proof {
            self.history@ = h.push(value);
            let block = m1[c].block.appended(value);
            lemma_append(m1, c, h, value, block);
            lemma_bounded_with(m1, c, block);
            if m[t].block.full() {
                let m0 = chained(m, t, c, 0, BlockView::empty(next_base(m, t)));
                lemma_released_block(m0, m1, t, c, block);
                assert(with_block(m0, c, block) =~= chained(
                    m,
                    t,
                    c,
                    0,
                    BlockView::empty(next_base(m, t)).appended(value),
                ));
            }
        }
    }

    /// Whether the counter of the tail block has room for one more handle,
    /// as `reader` needs it.
    pub fn room_for_reader(&self) -> (r: bool)
        requires
            self.wf(),
        ensures
            r == (self.store()[self.tail()].use_count < usize::MAX),
    {
        proof {
            lemma_tail(self.store(), self.tail(), self.history());
        }
        self.blocks.use_count(self.last_block.ptr) < usize::MAX
    }

    /// A reader that gets every message pushed from now on, and none pushed
    /// before. It holds a handle to the tail block.
    #[must_use]
    #[inline]
    pub fn reader(&mut self) -> (r: Reader<T>)
        requires
            old(self).wf(),
            old(self).store()[old(self).tail()].use_count < usize::MAX,
        ensures
            final(self).wf(),
            r.wf(final(self)),
            r.block.ptr == old(self).tail(),
            r.position(final(self)) == old(self).history().len(),
            final(self).history() == old(self).history(),
            final(self).tail() == old(self).tail(),
            final(self).store() == acquired(old(self).store(), old(self).tail()),
            forall|x: Reader<T>| #[trigger]
                x.wf(old(self)) ==> x.wf(final(self)) && x.position(final(self)) == x.position(
                    old(self),
                ),
    {
        let ghost m = self.store();
        let ghost t = self.tail();
        proof {
            lemma_tail(m, t, self.history());
            lemma_acquire(m, t, self.history(), t);
            lemma_bounded_at(m, t);
            lemma_bounded_sub(m, acquired(m, t), t);
        }
        let last_block = self.last_block.clone(&mut self.blocks);
        let block_len = self.blocks.get(last_block.ptr).load_len();
        Reader { block: last_block, index: block_len, len: block_len, phantom_data: PhantomData }
    }
}

impl<T> Default for Queue<T> {
    /// An empty queue, as [`Queue::new`] makes it.
    #[inline]
    fn default() -> (r: Self)
        ensures
            r.wf(),
            r.history() == Seq::<T>::empty(),
            r.store() == Map::<usize, NodeView<BlockView<T>>>::empty().insert(
                r.tail(),
                NodeView { use_count: 1, next: None, pred: None, block: BlockView::empty(0) },
            ),
    {
        Queue::new()
    }
}

/// Queue consumer: a cursor into the blocks of a [`Queue`].
///
/// Made by [`Queue::reader`].
pub struct Reader<T> {
    /// Handle to the block that the reader reads.
    pub block: BlockArc,
    /// The slot that the reader reads next.
    pub index: usize,
    /// Number of slots of the block that the reader knows to be written.
    pub len: usize,
    pub phantom_data: PhantomData<T>,
}

impl<T> Reader<T> {
    /// The reader is a cursor in order into `queue`.
    pub open spec fn wf(&self, queue: &Queue<T>) -> bool {
        cursor_wf(queue.store(), queue.tail(), self.block.ptr, self.index, self.len)
    }

    /// Number of messages that went into `queue` before the one that the
    /// reader gets next.
    pub open spec fn position(&self, queue: &Queue<T>) -> nat {
        cursor_pos(queue.store(), self.block.ptr, self.index)
    }

    /// The reader moves from a block to its successor: it is at the end of a
    /// full block that has one.
    pub open spec fn hops(&self, queue: &Queue<T>) -> bool {
        self.index == self.len && self.len == BLOCK_SIZE
            && queue.store()[self.block.ptr].next is Some
    }

    /// `new` and `new_queue` are `old` and `old_queue` after one call of
    /// `next` that returned `out`.
    ///
    /// The reader gets the message at its position and moves one on, or gets
    /// nothing where no message is left. It moves to the next block, and gives
    /// up its handle to the one it leaves, only at the end of a full block.
    pub open spec fn advanced(
        old: &Self,
        old_queue: &Queue<T>,
        new: &Self,
        new_queue: &Queue<T>,
        out: Option<T>,
    ) -> bool {
        let m = old_queue.store();
        let b = old.block.ptr;
        let pos = old.position(old_queue);
        let history = old_queue.history();
        &&& new_queue.history() == history
        &&& new_queue.tail() == old_queue.tail()
        &&& out == if pos < history.len() {
            Some(history[pos as int])
        } else {
            None
        }
        &&& new.position(new_queue) == pos + if out is Some {
            1nat
        } else {
            0nat
        }
        &&& if old.hops(old_queue) {
            let c = m[b].next->0;
            &&& new.block.ptr == c
            &&& new.len == m[c].block.mem.len()
            &&& released(acquired(m, c), new_queue.store(), b)
        } else {
            &&& new.block.ptr == b
            &&& new.len == if old.index < old.len {
                old.len as nat
            } else {
                m[b].block.mem.len()
            }
            &&& new_queue.store() == m
        }
    }

    /// The counter of the block that `next` would take a handle to has room
    /// for it.
    pub open spec fn can_next(&self, queue: &Queue<T>) -> bool {
        self.hops(queue) ==> queue.store()[queue.store()[self.block.ptr].next->0].use_count
            < usize::MAX
    }

    /// Whether the counter of the block that `next` would take a handle to
    /// has room for it.
    pub fn room_for_next(&self, queue: &Queue<T>) -> (r: bool)
        requires
            queue.wf(),
            self.wf(queue),
        ensures
            r == self.can_next(queue),
    {
        proof {
            lemma_block(queue.store(), queue.tail(), queue.history(), self.block.ptr);
        }
        if self.index == self.len && self.len == BLOCK_SIZE {
            match queue.blocks.load_next(self.block.ptr) {
                Some(next) => queue.blocks.use_count(next) < usize::MAX,
                None => true,
            }
        } else {
            true
        }
    }

    /// Whether the counter of the reader's block has room for one more
    /// handle, as `clone` needs it.
    pub fn room_for_clone(&self, queue: &Queue<T>) -> (r: bool)
        requires
            queue.wf(),
            self.wf(queue),
        ensures
            r == (queue.store()[self.block.ptr].use_count < usize::MAX),
    {
        queue.blocks.use_count(self.block.ptr) < usize::MAX
    }

    /// The next message, if there is one.
    #[inline]
    pub fn next<'a>(&mut self, queue: &'a mut Queue<T>) -> (r: Option<&'a T>)
        requires
            old(queue).wf(),
            old(self).wf(old(queue)),
            old(self).can_next(old(queue)),
        ensures
            final(queue).wf(),
            final(self).wf(final(queue)),
            Self::advanced(
                old(self),
                old(queue),
                final(self),
                final(queue),
                match r {
                    Some(v) => Some(*v),
                    None => None,
                },
            ),
            forall|x: Reader<T>|
                (x.block.ptr != old(self).block.ptr || old(queue).holders(old(self).block.ptr) >= 2)
                    && #[trigger] x.wf(old(queue)) ==> x.wf(final(queue)) && x.position(
                    final(queue),
                ) == x.position(old(queue)),
    {
        let ghost m = queue.store();
        let ghost t = queue.tail();
        let ghost h = queue.history();
        let ghost b = self.block.ptr;
        proof {
            lemma_tail(m, t, h);
            lemma_cursor(m, t, h, b, self.index, self.len);
            lemma_bounded_at(m, b);
            lemma_bounded_at(m, t);
        }
        if self.index == self.len {
            if unlikely(self.len == BLOCK_SIZE) {
                // Fetch the next block, release the current one.
                if let Some(next_block) = Block::try_load_next(&mut queue.blocks, self.block.ptr) {
                    let ghost c = next_block.ptr;
                    let ghost m1 = queue.store();
                    proof {
                        lemma_acquire(m, t, h, c);
                        lemma_bounded_at(m, c);
                        lemma_block(m, t, h, c);
                    }
                    self.index = 0;
                    self.len = queue.blocks.get(next_block.ptr).load_len();
                    let old_block = BlockArc::from_raw(self.block.ptr);
                    self.block = next_block;
                    old_block.drop(&mut queue.blocks);
                    proof {
                        let m2 = queue.store();
                        lemma_release(m1, m2, t, h, b);
                        lemma_bounded_sub(m, m2, t);
                        assert forall|x: Reader<T>|
                            (x.block.ptr != b || holders(m, t, b) >= 2) && #[trigger] x.wf(
                                old(queue),
                            ) implies x.wf(queue) && x.position(queue) == x.position(
                            old(queue),
                        ) by {
                            let y = x.block.ptr;
                            assert(holders(m1, t, y) >= 1);
                        }
                    }
                    if self.len == 0 {
                        return None;
                    }
                } else {
                    return None;
                }
            } else {
                // Read the length again: the writer may have moved it.
                let block_len = queue.blocks.get(self.block.ptr).load_len();
                if self.len == block_len {
                    // Nothing changed.
                    return None;
                }
                self.len = block_len;
            }
        }
        let value = &queue.blocks.get(self.block.ptr).mem()[self.index];
        self.index += 1;
        Some(value)
    }

    /// A second reader at the same position, with a handle of its own.
    #[inline]
    pub fn clone(&self, queue: &mut Queue<T>) -> (r: Self)
        requires
            old(queue).wf(),
            self.wf(old(queue)),
            old(queue).store()[self.block.ptr].use_count < usize::MAX,
        ensures
            final(queue).wf(),
            r.wf(final(queue)),
            r.block.ptr == self.block.ptr,
            r.index == self.index,
            r.len == self.len,
            final(queue).history() == old(queue).history(),
            final(queue).tail() == old(queue).tail(),
            final(queue).store() == acquired(old(queue).store(), self.block.ptr),
            forall|x: Reader<T>| #[trigger]
                x.wf(old(queue)) ==> x.wf(final(queue)) && x.position(final(queue)) == x.position(
                    old(queue),
                ),
    {
        let ghost m = queue.store();
        let ghost t = queue.tail();
        let ghost b = self.block.ptr;
        proof {
            lemma_tail(m, t, queue.history());
            lemma_acquire(m, t, queue.history(), b);
            lemma_bounded_at(m, b);
            lemma_bounded_sub(m, acquired(m, b), b);
        }
        let block = self.block.clone(&mut queue.blocks);
        Self { block, index: self.index, len: self.len, phantom_data: PhantomData }
    }

    /// Gives the reader up, and with it its handle. A block that nobody holds
    /// any more, and that no block before it keeps, leaves the queue.
    #[inline]
    pub fn drop(self, queue: &mut Queue<T>)
        requires
            old(queue).wf(),
            self.wf(old(queue)),
        ensures
            final(queue).wf(),
            final(queue).history() == old(queue).history(),
            final(queue).tail() == old(queue).tail(),
            released(old(queue).store(), final(queue).store(), self.block.ptr),
            forall|x: Reader<T>|
                (x.block.ptr != self.block.ptr || old(queue).holders(self.block.ptr) >= 2)
                    && #[trigger] x.wf(old(queue)) ==> x.wf(final(queue)) && x.position(
                    final(queue),
                ) == x.position(old(queue)),
    {
        let ghost m = queue.store();
        let ghost t = queue.tail();
        let ghost b = self.block.ptr;
        proof {
            lemma_tail(m, t, queue.history());
        }
        self.block.drop(&mut queue.blocks);
        proof {
            let m2 = queue.store();
            lemma_release(m, m2, t, queue.history(), b);
            lemma_bounded_at(m, t);
            lemma_bounded_sub(m, m2, t);
        }
    }
}

} // verus!
