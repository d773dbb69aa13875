//! Multi-producer, multi-consumer multicast queue.
//!
//! Every reader gets every message that goes into the queue after the reader
//! was made. Messages of one writer arrive in the order in which it pushed
//! them.
use crate::block::{
    lemma_low_ones_run, ready_len, Block, BlockArc, BlockView, BITBLOCKS_LEN, BLOCK_SIZE,
};
use crate::block_list::{released, BlockList, NodeView};
use crate::chain::{
    acquired, all_published, chained, cursor_pos, cursor_wf, holders, lemma_acquire, lemma_append,
    lemma_block, lemma_chain, lemma_cursor, lemma_new, lemma_published_at, lemma_published_with,
    lemma_refuse, lemma_release, lemma_released_block, lemma_released_counted,
    lemma_released_lowered, lemma_released_unique, lemma_tail, lemma_tail_is_last, list_wf,
    lowered, next_base, with_block, Store,
};
use branch_hints::unlikely;
use std::marker::PhantomData;
use vstd::prelude::*;

verus! {

broadcast use {vstd::set::group_set_axioms, vstd::map::group_map_axioms};

/// The queue: its blocks, and the pointer to the tail block.
///
/// The tail pointer doubles as a lock: whoever changes the chain takes the
/// pointer out, and puts the pointer to the tail block back when done.
pub struct Queue<T> {
    blocks: BlockList<Block<T>>,
    last_block: Option<usize>,
    history: Ghost<Seq<T>>,
}

impl<T> Queue<T> {
    /// The blocks of the queue.
    pub closed spec fn store(&self) -> Store<T> {
        self.blocks@
    }

    /// Slot of the tail block.
    pub closed spec fn tail(&self) -> usize {
        self.last_block->0
    }

    /// Every message that ever went into the queue, in the order in which
    /// their slots were claimed.
    pub closed spec fn history(&self) -> Seq<T> {
        self.history@
    }

    /// The store keeps its own books, and the tail pointer is in its place.
    pub closed spec fn inv(&self) -> bool {
        self.blocks.inv() && self.last_block is Some
    }

    /// The blocks form the chain of the queue, and every written slot is
    /// published.
    pub open spec fn chain_ok(&self) -> bool {
        &&& self.inv()
        &&& list_wf(self.store(), self.tail(), self.history())
        &&& all_published(self.store())
    }

    /// The queue is in order.
    pub open spec fn wf(&self) -> bool {
        &&& self.chain_ok()
        &&& self.store()[self.tail()].block.len <= BLOCK_SIZE
    }

    /// Number of handles that readers and writers hold to block `b`.
    pub open spec fn holders(&self, b: usize) -> int {
        holders(self.store(), self.tail(), b)
    }

    /// An empty queue: one empty block, which nobody but the queue holds.
    #[must_use]
    #[inline]
    pub fn new() -> (r: Self)
        ensures
            r.wf(),
            r.history() == Seq::<T>::empty(),
            r.store() == Map::<usize, NodeView<BlockView<T>>>::empty().insert(
                r.tail(),
                NodeView { use_count: 1, next: None, pred: None, block: BlockView::empty(0) },
            ),
    {
        let mut blocks = BlockList::new();
        let last_block = Block::new(&mut blocks, Ghost(0)).into_raw();
        let r = Queue { blocks, last_block: Some(last_block), history: Ghost(Seq::empty()) };
        proof {
            lemma_new::<T>(r.tail());
        }
        r
    }

    /// Number of blocks that the queue, its readers and its writers keep.
    pub fn live_blocks(&self) -> (r: usize)
        requires
            self.wf(),
        ensures
            r == self.store().dom().len(),
    {
        proof {
            lemma_tail(self.store(), self.tail(), self.history());
        }
        self.blocks.live_blocks()
    }

    /// Number of references to the block in slot `b`, or 0 where the store has
    /// no such block.
    pub fn use_count(&self, b: usize) -> (r: usize)
        ensures
            r == if self.store().dom().contains(b) {
                self.store()[b].use_count
            } else {
                0
            },
    {
        if self.blocks.is_live(b) {
            self.blocks.use_count(b)
        } else {
            0
        }
    }

    /// Takes the tail pointer out, which locks the chain against change. It
    /// tries until it finds the pointer in its place; as one call runs at a
    /// time, and every call puts the pointer back, that is at the first try.
    #[inline]
    fn lock_last_block(&mut self) -> (ptr: usize)
        requires
            old(self).last_block is Some,
        ensures
            ptr == old(self).last_block->0,
            final(self).last_block is None,
            final(self).blocks == old(self).blocks,
            final(self).history == old(self).history,
    {
        loop
            invariant
                self.last_block is Some,
                *self == *old(self),
            decreases 0nat,
        {
            let ptr = self.last_block.take();
            if let Some(ptr) = ptr {
                return ptr;
            }
        }
    }

    /// Puts `ptr` in as the tail pointer, which unlocks the chain.
    #[inline]
    fn unlock_last_block(&mut self, ptr: usize)
        ensures
            final(self).last_block == Some(ptr),
            final(self).blocks == old(self).blocks,
            final(self).history == old(self).history,
    {
        self.last_block = Some(ptr);
    }

    /// A counted handle to the tail block.
    #[must_use]
    #[inline]
    fn load_last_block(&mut self) -> (arc: BlockArc)
        requires
            old(self).chain_ok(),
            old(self).store()[old(self).tail()].use_count < usize::MAX,
        ensures
            final(self).chain_ok(),
            arc.ptr == old(self).tail(),
            final(self).tail() == old(self).tail(),
            final(self).history() == old(self).history(),
            final(self).store() == acquired(old(self).store(), old(self).tail()),
    {
        let ghost m = self.store();
        let ghost t = self.tail();
        proof {
            lemma_tail(m, t, self.history());
            lemma_acquire(m, t, self.history(), t);
        }
        // Fetch the pointer and "lock".
        let ptr = self.lock_last_block();
        Block::inc_use_count(&mut self.blocks, ptr);
        let arc = BlockArc::from_raw(ptr);
        // Release the "lock".
        self.unlock_last_block(ptr);
        arc
    }

    /// `new` is `old` after a new, empty block was chained behind the full
    /// tail block `old.tail()`, with a handle for the caller, and the queue
    /// gave up its handle to the old tail block.
    pub open spec fn block_chained(old: &Self, new: &Self) -> bool {
        let m = old.store();
        let t = old.tail();
        &&& new.history() == old.history()
        &&& !m.dom().contains(new.tail())
        &&& released(
            chained(m, t, new.tail(), 1, BlockView::empty(next_base(m, t))),
            new.store(),
            t,
        )
    }

    /// Chains a new block behind the old tail block `last_block` while the
    /// tail pointer is out, and returns a handle to the new block, which the
    /// caller puts in as the tail.
    ///
    /// The new block is made with three references: one for the queue's tail
    /// pointer, one for the link from its predecessor, one for the handle that
    /// is returned.
    #[inline(never)]
    fn chain_block(&mut self, last_block: usize) -> (arc: BlockArc)
        requires
            old(self).blocks.inv(),
            list_wf(old(self).blocks@, last_block, old(self).history@),
            all_published(old(self).blocks@),
            old(self).blocks@[last_block].block.full(),
        ensures
            final(self).blocks.inv(),
            final(self).last_block == old(self).last_block,
            final(self).history == old(self).history,
            list_wf(final(self).blocks@, arc.ptr, final(self).history@),
            all_published(final(self).blocks@),
            !old(self).blocks@.dom().contains(arc.ptr),
            final(self).blocks@.dom().contains(arc.ptr),
            final(self).blocks@[arc.ptr].block == BlockView::<T>::empty(
                next_base(old(self).blocks@, last_block),
            ),
            holders(final(self).blocks@, arc.ptr, arc.ptr) == 1,
            final(self).blocks@[arc.ptr].use_count >= 2,
            final(self).blocks@[arc.ptr].use_count <= 3,
            released(
                chained(
                    old(self).blocks@,
                    last_block,
                    arc.ptr,
                    1,
                    BlockView::empty(next_base(old(self).blocks@, last_block)),
                ),
                final(self).blocks@,
                last_block,
            ),
            forall|b: usize|
                old(self).blocks@.dom().contains(b) && #[trigger] holders(
                    old(self).blocks@,
                    last_block,
                    b,
                ) >= 1 ==> final(self).blocks@.dom().contains(b) && holders(
                    final(self).blocks@,
                    arc.ptr,
                    b,
                ) == holders(old(self).blocks@, last_block, b) && final(self).blocks@[b].block
                    == old(self).blocks@[b].block,
    {
        let ghost m = self.blocks@;
        let ghost t = last_block;
        let ghost h = self.history@;
        proof {
            lemma_tail(m, t, h);
        }
        let mut new_block = Block::with_counter(&mut self.blocks, 3, Ghost(next_base(m, t)));
        let ghost c = new_block.ptr;
        // Connect the new block with the old one.
        self.blocks.store_next(last_block, new_block.as_non_null());
        let ghost m1 = self.blocks@;
        proof {
            assert(m1 =~= chained(m, t, c, 1, BlockView::empty(next_base(m, t))));
            lemma_chain(m, t, h, c, 1);
        }
        // The queue's reference to the old block goes.
        Block::dec_use_count(&mut self.blocks, last_block);
        proof {
            let m2 = self.blocks@;
            lemma_release(m1, m2, c, h, t);
            assert forall|b: usize|
                m.dom().contains(b) && #[trigger] holders(m, t, b) >= 1 implies m2.dom().contains(b)
                && holders(m2, c, b) == holders(m, t, b) && m2[b].block == m[b].block by {
                if b != t {
                    assert(holders(m1, c, b) >= 1);
                }
            }
        }
        new_block
    }

    /// A handle to the tail block, and whether a new block was chained to get
    /// it: that is done where the tail block is full.
    #[must_use]
    #[inline]
    fn insert_block(&mut self) -> (r: (BlockArc, bool))
        requires
            old(self).chain_ok(),
            old(self).store()[old(self).tail()].use_count < usize::MAX,
        ensures
            final(self).wf(),
            r.0.ptr == final(self).tail(),
            r.1 == old(self).store()[old(self).tail()].block.full(),
            final(self).store().dom().contains(r.0.ptr),
            final(self).holders(r.0.ptr) >= 1,
            !final(self).store()[final(self).tail()].block.full(),
            !r.1 ==> final(self).tail() == old(self).tail() && final(self).history() == old(
                self,
            ).history() && final(self).store() == acquired(old(self).store(), old(self).tail()),
            r.1 ==> Self::block_chained(old(self), final(self)) && final(self).store()[r.0.ptr].block
                == BlockView::<T>::empty(next_base(old(self).store(), old(self).tail())),
            forall|b: usize|
                old(self).store().dom().contains(b) && #[trigger] holders(
                    old(self).store(),
                    old(self).tail(),
                    b,
                ) >= 1 ==> final(self).store().dom().contains(b) && final(self).holders(b) >= holders(
                    old(self).store(),
                    old(self).tail(),
                    b,
                ) && final(self).store()[b].block == old(self).store()[b].block,
    {
        let ghost m = self.store();
        let ghost t = self.tail();
        let ghost h = self.history();
        proof {
            lemma_tail(m, t, h);
        }
        // Lock.
        let last_block = self.lock_last_block();
        if self.blocks.get(last_block).load_len() < BLOCK_SIZE {
            proof {
                lemma_acquire(m, t, h, t);
            }
            Block::inc_use_count(&mut self.blocks, last_block);
            let arc = BlockArc::from_raw(last_block);
            // Unlock.
            self.unlock_last_block(last_block);
            return (arc, false);
        }
        let new_block = self.chain_block(last_block);
        // Set the new block as the last one, and release the lock.
        self.unlock_last_block(new_block.ptr);
        (new_block, true)
    }

    /// `new` is `old` after `value` was pushed by `blocking_push`.
    ///
    /// The message is the last of the history. Where the tail block had room
    /// it took the message and nothing else changed. Where it was full, it
    /// counted the attempt, a new block with the message in its first slot
    /// was chained behind it and became the tail, and the queue gave up its
    /// handle to the old tail block.
    pub open spec fn pushed(old: &Self, new: &Self, value: T) -> bool {
        let m = old.store();
        let t = old.tail();
        &&& new.history() == old.history().push(value)
        &&& if !m[t].block.full() {
            &&& new.tail() == t
            &&& new.store() == with_block(m, t, m[t].block.pushed(value))
        } else {
            &&& !m.dom().contains(new.tail())
            &&& released(
                chained(
                    with_block(m, t, m[t].block.refused()),
                    t,
                    new.tail(),
                    0,
                    BlockView::empty(next_base(m, t)).pushed(value),
                ),
                new.store(),
                t,
            )
        }
    }

    /// Chains a new block behind the full tail block `last_block`, pushes
    /// `value` into it and puts it in as the tail.
    #[inline(never)]
    fn insert_block_and_push(&mut self, last_block: usize, value: T)
        requires
            old(self).blocks.inv(),
            list_wf(old(self).blocks@, last_block, old(self).history@),
            all_published(old(self).blocks@),
            old(self).blocks@[last_block].block.full(),
        ensures
            final(self).wf(),
            final(self).history() == old(self).history@.push(value),
            !old(self).blocks@.dom().contains(final(self).tail()),
            released(
                chained(
                    old(self).blocks@,
                    last_block,
                    final(self).tail(),
                    0,
                    BlockView::empty(next_base(old(self).blocks@, last_block)).pushed(value),
                ),
                final(self).store(),
                last_block,
            ),
            forall|b: usize|
                old(self).blocks@.dom().contains(b) && #[trigger] holders(
                    old(self).blocks@,
                    last_block,
                    b,
                ) >= 1 ==> final(self).store().dom().contains(b) && final(self).holders(b) == holders(
                    old(self).blocks@,
                    last_block,
                    b,
                ) && final(self).store()[b].block == old(self).blocks@[b].block,
    {
        let ghost m = self.blocks@;
        let ghost t = last_block;
        let ghost h = self.history@;
        let ghost h2 = h.push(value);
        proof {
            lemma_tail(m, t, h);
        }
        let mut new_block = self.chain_block(last_block);
        let ghost c = new_block.ptr;
        let ghost m1 = chained(m, t, c, 1, BlockView::empty(next_base(m, t)));
        let ghost m2 = self.blocks@;
        let ghost pushed = BlockView::empty(next_base(m, t)).pushed(value);
        proof {
            lemma_tail(m2, c, h);
            crate::chain::lemma_empty_published::<T>(next_base(m, t));
        }
        let block = self.blocks.get_mut(new_block.ptr);
        let result = block.try_push(value);
        if result.is_err() {
            // The new block is empty: the push cannot fail.
            vstd::pervasive::unreached::<()>();
        }
        let ghost m3 = self.blocks@;
        proof {
            self.history@ = h2;
            lemma_append(m2, c, h, value, pushed);
            lemma_published_with(m2, c, pushed);
            lemma_released_block(m1, m2, t, c, pushed);
        }
        // Set the new block as the last one, and release the lock.
        self.unlock_last_block(new_block.as_non_null());
        new_block.drop(&mut self.blocks);
        proof {
            let m4 = self.blocks@;
            lemma_release(m3, m4, c, h2, c);
            lemma_released_counted(m3, c);
            lemma_released_unique(m3, m4, lowered(m3, c), c, h2, c);
            lemma_released_lowered(with_block(m1, c, pushed), m3, t, c);
            assert(lowered(with_block(m1, c, pushed), c) =~= chained(m, t, c, 0, pushed));
        }
    }

    /// Pushes `value` into the tail block, with the tail pointer held for the
    /// time of the push, so that a new block can be chained where the tail
    /// block is full.
    ///
    /// Needs no writer; for many pushes a [`Writer`] is the faster way.
    #[inline]
    pub fn blocking_push(&mut self, value: T)
        requires
            old(self).wf(),
        ensures
            final(self).wf(),
            Self::pushed(old(self), final(self), value),
            forall|r: Reader<T>| #[trigger]
                r.wf(old(self)) ==> r.wf(final(self)) && r.position(final(self)) == r.position(
                    old(self),
                ),
            forall|w: Writer<T>| #[trigger] w.wf(old(self)) ==> w.wf(final(self)),
    {
        let ghost m = self.store();
        let ghost t = self.tail();
        let ghost h = self.history();
        proof {
            lemma_tail(m, t, h);
            lemma_published_at(m, t);
        }
        // Lock.
        let block = self.lock_last_block();
        let result = self.blocks.get_mut(block).try_push(value);
        if let Err(value) = result {
            let ghost ma = with_block(m, t, m[t].block.refused());
            proof {
                lemma_refuse(m, t, h, t);
            }
            self.insert_block_and_push(block, value);
            proof {
                assert forall|r: Reader<T>| #[trigger] r.wf(old(self)) implies r.wf(self)
                    && r.position(self) == r.position(old(self)) by {
                    let b = r.block.ptr;
                    assert(holders(ma, t, b) == holders(m, t, b));
                }
                assert forall|w: Writer<T>| #[trigger] w.wf(old(self)) implies w.wf(self) by {
                    let b = w.block.ptr;
                    assert(holders(ma, t, b) == holders(m, t, b));
                }
            }
            return ;
        }
        proof {
            self.history@ = h.push(value);
            let pushed = m[t].block.pushed(value);
            lemma_append(m, t, h, value, pushed);
            lemma_published_with(m, t, pushed);
        }
        self.unlock_last_block(block);
    }

    /// Whether the counter of the tail block has room for one more handle,
    /// as `reader`, `writer`, `Writer::push` and `Writer::update` need it.
    pub fn room_at_tail(&self) -> (r: bool)
        requires
            self.wf(),
        ensures
            r == (self.store()[self.tail()].use_count < usize::MAX),
    {
        proof {
            lemma_tail(self.store(), self.tail(), self.history());
        }
        match self.last_block {
            Some(ptr) => self.blocks.use_count(ptr) < usize::MAX,
            None => vstd::pervasive::unreached(),
        }
    }

    /// A writer, with a handle to the tail block.
    #[must_use]
    #[inline]
    pub fn writer(&mut self) -> (w: Writer<T>)
        requires
            old(self).wf(),
            old(self).store()[old(self).tail()].use_count < usize::MAX,
        ensures
            final(self).wf(),
            w.wf(final(self)),
            w.block.ptr == old(self).tail(),
            final(self).history() == old(self).history(),
            final(self).tail() == old(self).tail(),
            final(self).store() == acquired(old(self).store(), old(self).tail()),
            forall|r: Reader<T>| #[trigger]
                r.wf(old(self)) ==> r.wf(final(self)) && r.position(final(self)) == r.position(
                    old(self),
                ),
            forall|x: Writer<T>| #[trigger] x.wf(old(self)) ==> x.wf(final(self)),
    {
        let ghost m = self.store();
        let ghost t = self.tail();
        proof {
            lemma_tail(m, t, self.history());
        }
        let block = self.load_last_block();
        Writer { block, phantom_data: PhantomData }
    }

    /// A reader that gets every message pushed after this call, and none
    /// pushed before. It holds a handle to the tail block.
    #[must_use]
    #[inline]
    pub fn reader(&mut self) -> (r: Reader<T>)
        requires
            old(self).wf(),
            old(self).store()[old(self).tail()].use_count < usize::MAX,
        ensures
            final(self).wf(),
            r.wf(final(self)),
            r.block.ptr == old(self).tail(),
            r.position(final(self)) == old(self).history().len(),
            final(self).history() == old(self).history(),
            final(self).tail() == old(self).tail(),
            final(self).store() == acquired(old(self).store(), old(self).tail()),
            forall|x: Reader<T>| #[trigger]
                x.wf(old(self)) ==> x.wf(final(self)) && x.position(final(self)) == x.position(
                    old(self),
                ),
            forall|w: Writer<T>| #[trigger] w.wf(old(self)) ==> w.wf(final(self)),
    {
        let ghost m = self.store();
        let ghost t = self.tail();
        proof {
            lemma_tail(m, t, self.history());
        }
        let last_block = self.load_last_block();
        let block_len = self.blocks.get(last_block.ptr).load_len();
        Reader {
            block: last_block,
            index: block_len,
            len: block_len,
            bitblock_index: block_len / 64,
            phantom_data: PhantomData,
        }
    }
}

impl<T> Default for Queue<T> {
    /// An empty queue, as [`Queue::new`] makes it.
    #[inline]
    fn default() -> (r: Self)
        ensures
            r.wf(),
            r.history() == Seq::<T>::empty(),
            r.store() == Map::<usize, NodeView<BlockView<T>>>::empty().insert(
                r.tail(),
                NodeView { use_count: 1, next: None, pred: None, block: BlockView::empty(0) },
            ),
    {
        Queue::new()
    }
}

/// Queue producer: it holds a handle to the block into which it pushes, which
/// is the tail block or one before it.
///
/// A writer keeps its block, and so every block behind it, in the queue. Its
/// handle moves to the tail block with each [`push`](Writer::push) that finds
/// its block full and with each [`update`](Writer::update).
///
/// Made by [`Queue::writer`].
pub struct Writer<T> {
    /// Handle to the block that the writer pushes into.
    pub block: BlockArc,
    pub phantom_data: PhantomData<T>,
}

/// Queue consumer: a cursor into the blocks of a [`Queue`].
///
/// Made by [`Queue::reader`].
pub struct Reader<T> {
    /// Handle to the block that the reader reads.
    pub block: BlockArc,
    /// The slot that the reader reads next.
    pub index: usize,
    /// Number of slots of the block that the reader knows to be written.
    pub len: usize,
    /// Index of the bitmap word that the reader looks at next.
    pub bitblock_index: usize,
    pub phantom_data: PhantomData<T>,
}

impl<T> Writer<T> {
    /// The writer holds a handle to a block of `queue`.
    pub open spec fn wf(&self, queue: &Queue<T>) -> bool {
        queue.store().dom().contains(self.block.ptr) && queue.holders(self.block.ptr) >= 1
    }

    /// Number of links from the writer's block to the tail block of `queue`.
    pub open spec fn lag(&self, queue: &Queue<T>) -> int {
        (queue.store()[queue.tail()].block.base - queue.store()[self.block.ptr].block.base)
            / BLOCK_SIZE as int
    }

    /// `new` and `new_queue` are `old` and `old_queue` after the writer's
    /// handle moved to the tail block: a handle to the tail block was counted
    /// and the one to the writer's old block given up, unless that was the
    /// tail block already.
    pub open spec fn moved_to_tail(
        old: &Self,
        old_queue: &Queue<T>,
        new: &Self,
        new_queue: &Queue<T>,
    ) -> bool {
        let m = old_queue.store();
        let t = old_queue.tail();
        let w = old.block.ptr;
        &&& new.block.ptr == t
        &&& new_queue.tail() == t
        &&& new_queue.history() == old_queue.history()
        &&& if w == t {
            new_queue.store() == m
        } else {
            released(acquired(m, t), new_queue.store(), w)
        }
    }

    /// Moves the writer's handle from its block to the tail block, which is
    /// another one.
    fn move_to(&mut self, queue: &mut Queue<T>, block: BlockArc, Ghost(m): Ghost<Store<T>>)
        requires
            old(queue).chain_ok(),
            old(queue).store()[old(queue).tail()].block.len <= BLOCK_SIZE,
            list_wf(m, old(queue).tail(), old(queue).history()),
            m.dom().contains(old(self).block.ptr),
            holders(m, old(queue).tail(), old(self).block.ptr) >= 1,
            old(queue).store() == acquired(m, old(queue).tail()),
            block.ptr == old(queue).tail(),
            old(self).block.ptr != old(queue).tail(),
        ensures
            final(queue).wf(),
            final(self).wf(final(queue)),
            final(self).block.ptr == old(queue).tail(),
            final(queue).tail() == old(queue).tail(),
            final(queue).history() == old(queue).history(),
            released(old(queue).store(), final(queue).store(), old(self).block.ptr),
            forall|b: usize|
                (b != old(self).block.ptr || holders(m, old(queue).tail(), b) >= 2)
                    && m.dom().contains(b) && #[trigger] holders(m, old(queue).tail(), b) >= 1
                    ==> final(queue).store().dom().contains(b) && final(queue).holders(b) >= 1
                    && final(queue).store()[b].block == m[b].block,
    {
        let ghost t = queue.tail();
        let ghost h = queue.history();
        let ghost w = self.block.ptr;
        let ghost m1 = queue.store();
        proof {
            lemma_tail(m, t, h);
            lemma_tail(m1, t, h);
        }
        let old_block = BlockArc::from_raw(self.block.ptr);
        self.block = block;
        old_block.drop(&mut queue.blocks);
        proof {
            let m2 = queue.store();
            lemma_release(m1, m2, t, h, w);
            assert forall|b: usize|
                (b != w || holders(m, t, b) >= 2) && m.dom().contains(b) && #[trigger] holders(
                    m,
                    t,
                    b,
                ) >= 1 implies m2.dom().contains(b) && holders(m2, t, b) >= 1 && m2[b].block
                == m[b].block by {
                assert(holders(m1, t, b) >= 1);
            }
        }
    }

    /// Walks from the writer's block along the links, `max_jumps` blocks at
    /// most. Where that reaches the tail block, the writer's handle moves
    /// there; where it does not, nothing changes and the result is `Err`.
    #[inline]
    fn fast_forward_to_last_block(&mut self, queue: &mut Queue<T>, max_jumps: usize) -> (r: Result<
        (),
        (),
    >)
        requires
            old(queue).wf(),
            old(self).wf(old(queue)),
            old(queue).store()[old(queue).tail()].use_count < usize::MAX,
        ensures
            final(queue).wf(),
            final(self).wf(final(queue)),
            r is Ok <==> old(self).lag(old(queue)) < max_jumps,
            r is Ok ==> Self::moved_to_tail(old(self), old(queue), final(self), final(queue)),
            r is Err ==> *final(self) == *old(self) && *final(queue) == *old(queue),
            forall|x: Reader<T>|
                (x.block.ptr != old(self).block.ptr || old(queue).holders(old(self).block.ptr) >= 2)
                    && #[trigger] x.wf(old(queue)) ==> x.wf(final(queue)) && x.position(
                    final(queue),
                ) == x.position(old(queue)),
            forall|x: Writer<T>|
                (x.block.ptr != old(self).block.ptr || old(queue).holders(old(self).block.ptr) >= 2)
                    && #[trigger] x.wf(old(queue)) ==> x.wf(final(queue)),
    {
        let ghost m = queue.store();
        let ghost t = queue.tail();
        let ghost h = queue.history();
        let ghost w = self.block.ptr;
        let mut last = self.block.as_non_null();
        let mut jumps: usize = 0;
        while jumps < max_jumps
            invariant
                jumps <= max_jumps,
                *queue == *old(queue),
                *self == *old(self),
                queue.wf(),
                self.wf(queue),
                m == queue.store(),
                t == queue.tail(),
                h == queue.history(),
                w == self.block.ptr,
                m.dom().contains(last),
                m[last].block.base == m[w].block.base + jumps * BLOCK_SIZE,
                m[t].use_count < usize::MAX,
            decreases max_jumps - jumps,
        {
            proof {
                lemma_tail(m, t, h);
                lemma_block(m, t, h, last);
            }
            let next = queue.blocks.load_next(last);
            if let Some(next) = next {
                last = next;
            } else {
                proof {
                    let d = m[t].block.base - m[w].block.base;
                    assert(d / 4096 == jumps) by (nonlinear_arith)
                        requires
                            d == jumps * 4096,
                    ;
                }
                // Update the counters, change the block.
                if last != self.block.as_non_null() {
                    Block::inc_use_count(&mut queue.blocks, last);
                    proof {
                        lemma_acquire(m, t, h, t);
                    }
                    self.move_to(queue, BlockArc::from_raw(last), Ghost(m));
                }
                return Ok(());
            }
            jumps += 1;
        }
        proof {
            lemma_tail_is_last(m, t, h, last);
            let d = m[t].block.base - m[w].block.base;
            assert(d / 4096 >= max_jumps) by (nonlinear_arith)
                requires
                    d >= max_jumps * 4096,
            ;
        }
        Err(())
    }

    /// Moves the writer's handle to the tail block, so that the writer keeps
    /// no earlier block in the queue.
    pub fn update(&mut self, queue: &mut Queue<T>)
        requires
            old(queue).wf(),
            old(self).wf(old(queue)),
            old(queue).store()[old(queue).tail()].use_count < usize::MAX,
        ensures
            final(queue).wf(),
            final(self).wf(final(queue)),
            Self::moved_to_tail(old(self), old(queue), final(self), final(queue)),
            forall|x: Reader<T>|
                (x.block.ptr != old(self).block.ptr || old(queue).holders(old(self).block.ptr) >= 2)
                    && #[trigger] x.wf(old(queue)) ==> x.wf(final(queue)) && x.position(
                    final(queue),
                ) == x.position(old(queue)),
            forall|x: Writer<T>|
                (x.block.ptr != old(self).block.ptr || old(queue).holders(old(self).block.ptr) >= 2)
                    && #[trigger] x.wf(old(queue)) ==> x.wf(final(queue)),
    {
        let ghost m = queue.store();
        if self.fast_forward_to_last_block(queue, 5).is_err() {
            let block = queue.load_last_block();
            self.move_to(queue, block, Ghost(m));
        }
    }

    /// `new` and `new_queue` are `old` and `old_queue` after the writer pushed
    /// `value`.
    ///
    /// The message is the last of the history, and the writer's handle is on
    /// the tail block. Where the writer's block had room it took the message.
    /// Where it was full, it counted the attempt and the writer's handle moved
    /// to the tail block, which took the message; where that was full too, a
    /// new block was chained behind it first and became the tail, and the
    /// queue gave up its handle to the old tail block.
    pub open spec fn pushed(
        old: &Self,
        old_queue: &Queue<T>,
        new: &Self,
        new_queue: &Queue<T>,
        value: T,
    ) -> bool {
        let m = old_queue.store();
        let t = old_queue.tail();
        let w = old.block.ptr;
        &&& new_queue.history() == old_queue.history().push(value)
        &&& new.block.ptr == new_queue.tail()
        &&& if !m[w].block.full() {
            &&& new_queue.tail() == t
            &&& new_queue.store() == with_block(m, w, m[w].block.pushed(value))
        } else {
            Self::pushed_behind(
                with_block(m, w, m[w].block.refused()),
                t,
                w,
                new_queue.store(),
                new_queue.tail(),
                value,
            )
        }
    }

    /// `new` is the store `ma` after a writer whose full block `w` turned it
    /// away moved to the tail block `t` and pushed `value` there, or, where
    /// that was full, into a new block chained behind it.
    pub open spec fn pushed_behind(
        ma: Store<T>,
        t: usize,
        w: usize,
        new: Store<T>,
        new_tail: usize,
        value: T,
    ) -> bool {
        if !ma[t].block.full() {
            &&& new_tail == t
            &&& released(with_block(acquired(ma, t), t, ma[t].block.pushed(value)), new, w)
        } else {
            &&& !ma.dom().contains(new_tail)
            &&& exists|mid: Store<T>|
                released(
                    chained(
                        ma,
                        t,
                        new_tail,
                        1,
                        BlockView::empty(next_base(ma, t)).pushed(value),
                    ),
                    mid,
                    t,
                ) && released(mid, new, w)
        }
    }

    /// Moves the writer's handle to the tail block, behind which a new block
    /// is chained first if it is full, and pushes `value` there.
    #[inline(never)]
    fn insert_block_and_push(&mut self, queue: &mut Queue<T>, value: T)
        requires
            old(queue).chain_ok(),
            old(self).wf(old(queue)),
            old(queue).store()[old(self).block.ptr].block.full(),
            old(queue).store()[old(queue).tail()].use_count < usize::MAX,
        ensures
            final(queue).wf(),
            final(self).wf(final(queue)),
            final(queue).history() == old(queue).history().push(value),
            final(self).block.ptr == final(queue).tail(),
            Self::pushed_behind(
                old(queue).store(),
                old(queue).tail(),
                old(self).block.ptr,
                final(queue).store(),
                final(queue).tail(),
                value,
            ),
            forall|b: usize|
                (b != old(self).block.ptr || holders(old(queue).store(), old(queue).tail(), b) >= 2)
                    && old(queue).store().dom().contains(b) && #[trigger] holders(
                    old(queue).store(),
                    old(queue).tail(),
                    b,
                ) >= 1 ==> {
                    &&& final(queue).store().dom().contains(b)
                    &&& final(queue).holders(b) >= 1
                    &&& final(queue).store()[b].block.mem.len() >= old(
                        queue,
                    ).store()[b].block.mem.len()
                    &&& final(queue).store()[b].block.base == old(queue).store()[b].block.base
                },
    {
        let ghost ma = queue.store();
        let ghost t = queue.tail();
        let ghost h = queue.history();
        let ghost w = self.block.ptr;
        let ghost v0 = value;
        let mut value = value;
        proof {
            lemma_tail(ma, t, h);
        }
        loop
            invariant_except_break
                *queue == *old(queue),
                *self == *old(self),
            invariant
                ma == old(queue).store(),
                t == old(queue).tail(),
                h == old(queue).history(),
                w == old(self).block.ptr,
                ma.dom().contains(t),
                old(queue).chain_ok(),
                old(self).wf(old(queue)),
                ma[w].block.full(),
                ma[t].use_count < usize::MAX,
                value == v0,
            ensures
                queue.wf(),
                self.wf(queue),
                queue.history() == h.push(v0),
                self.block.ptr == queue.tail(),
                Self::pushed_behind(ma, t, w, queue.store(), queue.tail(), v0),
                forall|b: usize|
                    (b != w || holders(ma, t, b) >= 2) && ma.dom().contains(b)
                        && #[trigger] holders(ma, t, b) >= 1 ==> queue.store().dom().contains(b)
                        && queue.holders(b) >= 1
                        && queue.store()[b].block.mem.len() >= ma[b].block.mem.len()
                        && queue.store()[b].block.base == ma[b].block.base,
            decreases 0nat,
        {
            let (block, inserted) = queue.insert_block();
            let ghost c = block.ptr;
            let ghost mc = queue.store();
            proof {
                lemma_tail(mc, c, h);
            }
            let old_block = BlockArc::from_raw(self.block.ptr);
            self.block = block;
            old_block.drop(&mut queue.blocks);
            let ghost md = queue.store();
            proof {
                lemma_release(mc, md, c, h, w);
                lemma_published_at(md, c);
            }
            let result = queue.blocks.get_mut(self.block.ptr).try_push(value);
            match result {
                Err(v) => {
                    proof {
                        // The tail block had room, and no other call ran.
                    }
                    value = v;
                },
                Ok(()) => {
                    proof {
                        let pushed = md[c].block.pushed(value);
                        queue.history@ = h.push(value);
                        lemma_append(md, c, h, value, pushed);
                        lemma_published_with(md, c, pushed);
                        lemma_released_block(mc, md, w, c, pushed);
                        if inserted {
                            let mb = chained(ma, t, c, 1, BlockView::empty(next_base(ma, t)));
                            lemma_released_block(mb, mc, t, c, pushed);
                            assert(with_block(mb, c, pushed) =~= chained(
                                ma,
                                t,
                                c,
                                1,
                                BlockView::empty(next_base(ma, t)).pushed(value),
                            ));
                        }
                    }
                    break ;
                },
            }
        }
    }

    /// Pushes `value`: into the writer's block where that has room, else into
    /// the tail block of the queue, behind which a new block is chained first
    /// if it is full too.
    #[inline]
    pub fn push(&mut self, queue: &mut Queue<T>, value: T)
        requires
            old(queue).wf(),
            old(self).wf(old(queue)),
            old(queue).store()[old(queue).tail()].use_count < usize::MAX,
        ensures
            final(queue).wf(),
            final(self).wf(final(queue)),
            Self::pushed(old(self), old(queue), final(self), final(queue), value),
            forall|x: Reader<T>|
                (x.block.ptr != old(self).block.ptr || old(queue).holders(old(self).block.ptr) >= 2)
                    && #[trigger] x.wf(old(queue)) ==> x.wf(final(queue)) && x.position(
                    final(queue),
                ) == x.position(old(queue)),
            forall|x: Reader<T>|
                !old(queue).store()[old(self).block.ptr].block.full() && #[trigger] x.wf(old(queue))
                    ==> x.wf(final(queue)) && x.position(final(queue)) == x.position(old(queue)),
            forall|x: Writer<T>|
                (x.block.ptr != old(self).block.ptr || old(queue).holders(old(self).block.ptr) >= 2)
                    && #[trigger] x.wf(old(queue)) ==> x.wf(final(queue)),
    {
        let ghost m = queue.store();
        let ghost t = queue.tail();
        let ghost h = queue.history();
        let ghost w = self.block.ptr;
        proof {
            lemma_tail(m, t, h);
            lemma_block(m, t, h, w);
            lemma_published_at(m, w);
        }
        let inserted = queue.blocks.get_mut(self.block.ptr).try_push(value);
        if let Err(value) = inserted {
            let ghost ma = queue.store();
            proof {
                lemma_refuse(m, t, h, w);
            }
            self.insert_block_and_push(queue, value);
            proof {
                assert forall|x: Reader<T>|
                    (x.block.ptr != w || holders(m, t, w) >= 2) && #[trigger] x.wf(
                        old(queue),
                    ) implies x.wf(queue) && x.position(queue) == x.position(old(queue)) by {
                    let b = x.block.ptr;
                    assert(holders(ma, t, b) == holders(m, t, b));
                }
                assert forall|x: Writer<T>|
                    (x.block.ptr != w || holders(m, t, w) >= 2) && #[trigger] x.wf(
                        old(queue),
                    ) implies x.wf(queue) by {
                    let b = x.block.ptr;
                    assert(holders(ma, t, b) == holders(m, t, b));
                }
            }
        } else {
            proof {
                queue.history@ = h.push(value);
                let pushed = m[t].block.pushed(value);
                lemma_append(m, t, h, value, pushed);
                lemma_published_with(m, t, pushed);
            }
        }
    }

    /// Gives the writer up, and with it its handle.
    #[inline]
    pub fn drop(self, queue: &mut Queue<T>)
        requires
            old(queue).wf(),
            self.wf(old(queue)),
        ensures
            final(queue).wf(),
            final(queue).history() == old(queue).history(),
            final(queue).tail() == old(queue).tail(),
            released(old(queue).store(), final(queue).store(), self.block.ptr),
            forall|x: Reader<T>|
                (x.block.ptr != self.block.ptr || old(queue).holders(self.block.ptr) >= 2)
                    && #[trigger] x.wf(old(queue)) ==> x.wf(final(queue)) && x.position(
                    final(queue),
                ) == x.position(old(queue)),
            forall|x: Writer<T>|
                (x.block.ptr != self.block.ptr || old(queue).holders(self.block.ptr) >= 2)
                    && #[trigger] x.wf(old(queue)) ==> x.wf(final(queue)),
    {
        let ghost m = queue.store();
        let ghost t = queue.tail();
        let ghost b = self.block.ptr;
        proof {
            lemma_tail(m, t, queue.history());
        }
        self.block.drop(&mut queue.blocks);
        proof {
            let m2 = queue.store();
            lemma_release(m, m2, t, queue.history(), b);
            lemma_tail(m2, t, queue.history());
        }
    }
}

impl<T> Reader<T> {
    /// The reader is a cursor in order into `queue`, and looks next at the
    /// bitmap word of the first slot it does not know to be written.
    pub open spec fn wf(&self, queue: &Queue<T>) -> bool {
        &&& cursor_wf(queue.store(), queue.tail(), self.block.ptr, self.index, self.len)
        &&& self.bitblock_index == self.len / 64
    }

    /// Number of messages that went into `queue` before the one that the
    /// reader gets next.
    pub open spec fn position(&self, queue: &Queue<T>) -> nat {
        cursor_pos(queue.store(), self.block.ptr, self.index)
    }

    /// The reader moves from a block to its successor: it is at the end of a
    /// full block that has one.
    pub open spec fn hops(&self, queue: &Queue<T>) -> bool {
        self.index == self.len && self.len == BLOCK_SIZE
            && queue.store()[self.block.ptr].next is Some
    }

    /// The length that a reader which knows of `len` written slots learns
    /// from the bitmap word of slot `len`, in a block with `written` written
    /// slots: all of them, or as many as that word covers.
    pub open spec fn polled_len(len: usize, written: nat) -> nat {
        if written <= (len / 64) * 64 + 64 {
            written
        } else {
            ((len / 64) * 64 + 64) as nat
        }
    }

    /// `new` and `new_queue` are `old` and `old_queue` after one call of
    /// `next` that returned `out`.
    ///
    /// The reader gets the message at its position and moves one on, or gets
    /// nothing where no message is left. It moves to the next block, and gives
    /// up its handle to the one it leaves, only at the end of a full block.
    pub open spec fn advanced(
        old: &Self,
        old_queue: &Queue<T>,
        new: &Self,
        new_queue: &Queue<T>,
        out: Option<T>,
    ) -> bool {
        let m = old_queue.store();
        let b = old.block.ptr;
        let pos = old.position(old_queue);
        let history = old_queue.history();
        &&& new_queue.history() == history
        &&& new_queue.tail() == old_queue.tail()
        &&& out == if pos < history.len() {
            Some(history[pos as int])
        } else {
            None
        }
        &&& new.position(new_queue) == pos + if out is Some {
            1nat
        } else {
            0nat
        }
        &&& if old.hops(old_queue) {
            let c = m[b].next->0;
            &&& new.block.ptr == c
            &&& new.len == m[c].block.mem.len()
            &&& released(acquired(m, c), new_queue.store(), b)
        } else {
            &&& new.block.ptr == b
            &&& new.len == if old.index < old.len || old.len == BLOCK_SIZE {
                old.len as nat
            } else {
                Self::polled_len(old.len, m[b].block.mem.len())
            }
            &&& new_queue.store() == m
        }
    }

    /// Takes note of `bit_block`, the bitmap word that the reader looks at:
    /// the reader knows of the slots that the word shows as written without a
    /// gap from its first slot, and of no slot behind a gap. Where the whole
    /// word is set, the reader looks at the next word from now on. Returns
    /// whether the length that the reader knows of changed; where it did not,
    /// nothing changes.
    #[inline]
    pub fn poll(&mut self, bit_block: u64) -> (r: bool)
        requires
            old(self).bitblock_index < BITBLOCKS_LEN,
        ensures
            r == (old(self).len != crate::block::ready_len_spec(
                old(self).bitblock_index,
                bit_block,
            )),
            !r ==> *final(self) == *old(self),
            r ==> final(self).len == crate::block::ready_len_spec(
                old(self).bitblock_index,
                bit_block,
            ) && final(self).bitblock_index == old(self).bitblock_index + if bit_block
                == u64::MAX {
                1int
            } else {
                0int
            } && final(self).index == old(self).index && final(self).block == old(self).block,
    {
        let new_len = ready_len(self.bitblock_index, bit_block);
        if self.len == new_len {
            return false;
        }
        // Switch to the next bitmap word.
        if bit_block == u64::MAX {
            self.bitblock_index = self.bitblock_index + 1;
        }
        self.len = new_len;
        true
    }

    /// Starts at the first slot of a block, of which the reader knows what
    /// `bit_block`, the bitmap word with index `bitblock_index`, shows.
    #[inline]
    pub fn enter(&mut self, bitblock_index: usize, bit_block: u64)
        requires
            bitblock_index < BITBLOCKS_LEN,
        ensures
            final(self).index == 0,
            final(self).len == crate::block::ready_len_spec(bitblock_index, bit_block),
            final(self).bitblock_index == bitblock_index + if bit_block == u64::MAX {
                1int
            } else {
                0int
            },
            final(self).block == old(self).block,
    {
        self.index = 0;
        self.len = ready_len(bitblock_index, bit_block);
        self.bitblock_index = if bit_block == u64::MAX {
            bitblock_index + 1
        } else {
            bitblock_index
        };
    }

    /// What the bitmap word `word` of a published block says: as many set
    /// bits from bit 0 as slots of the word are written.
    proof fn lemma_word(block: BlockView<T>, word: usize)
        requires
            block.wf(),
            block.published(),
            word < BITBLOCKS_LEN,
        ensures
            crate::block::ready_len_spec(word, block.bit_blocks[word as int]) == word * 64
                + block.written_in(word as int),
            block.bit_blocks[word as int] == u64::MAX <==> block.written_in(word as int) == 64,
    {
        let k = block.written_in(word as int);
        lemma_low_ones_run(k);
    }

    /// The counter of the block that `next` would take a handle to has room
    /// for it.
    pub open spec fn can_next(&self, queue: &Queue<T>) -> bool {
        self.hops(queue) ==> queue.store()[queue.store()[self.block.ptr].next->0].use_count
            < usize::MAX
    }

    /// Whether the counter of the block that `next` would take a handle to
    /// has room for it.
    pub fn room_for_next(&self, queue: &Queue<T>) -> (r: bool)
        requires
            queue.wf(),
            self.wf(queue),
        ensures
            r == self.can_next(queue),
    {
        proof {
            lemma_block(queue.store(), queue.tail(), queue.history(), self.block.ptr);
        }
        if self.index == self.len && self.len == BLOCK_SIZE {
            match queue.blocks.load_next(self.block.ptr) {
                Some(next) => queue.blocks.use_count(next) < usize::MAX,
                None => true,
            }
        } else {
            true
        }
    }

    /// Whether the counter of the reader's block has room for one more
    /// handle, as `clone` needs it.
    pub fn room_for_clone(&self, queue: &Queue<T>) -> (r: bool)
        requires
            queue.wf(),
            self.wf(queue),
        ensures
            r == (queue.store()[self.block.ptr].use_count < usize::MAX),
    {
        queue.blocks.use_count(self.block.ptr) < usize::MAX
    }

    /// The next message, if there is one.
    #[inline]
    pub fn next<'a>(&mut self, queue: &'a mut Queue<T>) -> (r: Option<&'a T>)
        requires
            old(queue).wf(),
            old(self).wf(old(queue)),
            old(self).can_next(old(queue)),
        ensures
            final(queue).wf(),
            final(self).wf(final(queue)),
            Self::advanced(
                old(self),
                old(queue),
                final(self),
                final(queue),
                match r {
                    Some(v) => Some(*v),
                    None => None,
                },
            ),
            forall|x: Reader<T>|
                (x.block.ptr != old(self).block.ptr || old(queue).holders(old(self).block.ptr) >= 2)
                    && #[trigger] x.wf(old(queue)) ==> x.wf(final(queue)) && x.position(
                    final(queue),
                ) == x.position(old(queue)),
            forall|x: Writer<T>|
                (x.block.ptr != old(self).block.ptr || old(queue).holders(old(self).block.ptr) >= 2)
                    && #[trigger] x.wf(old(queue)) ==> x.wf(final(queue)),
    {
        let ghost m = queue.store();
        let ghost t = queue.tail();
        let ghost h = queue.history();
        let ghost b = self.block.ptr;
        proof {
            lemma_tail(m, t, h);
            lemma_cursor(m, t, h, b, self.index, self.len);
            lemma_published_at(m, b);
        }
        if self.index == self.len {
            if unlikely(self.len == BLOCK_SIZE) {
                // Fetch the next block, release the current one.
                if let Some(next_block) = Block::try_load_next(&mut queue.blocks, self.block.ptr) {
                    let ghost c = next_block.ptr;
                    let ghost m1 = queue.store();
                    proof {
                        lemma_acquire(m, t, h, c);
                        lemma_block(m, t, h, c);
                        lemma_published_at(m, c);
                    }
                    // Skip the bitmap words that are all set.
                    let bitblock_index = queue.blocks.get(next_block.ptr).first_open_bit_block();
                    // Read the word at which the scan stopped.
                    let bit_block = queue.blocks.get(next_block.ptr).load_bit_block(
                        bitblock_index,
                    );
                    proof {
                        Self::lemma_word(m[c].block, bitblock_index);
                        if bitblock_index > 0 {
                            Self::lemma_word(m[c].block, (bitblock_index - 1) as usize);
                        }
                    }
                    // Update self.
                    let old_block = BlockArc::from_raw(self.block.ptr);
                    self.block = next_block;
                    self.enter(bitblock_index, bit_block);
                    old_block.drop(&mut queue.blocks);
                    proof {
                        let m2 = queue.store();
                        lemma_release(m1, m2, t, h, b);
                        lemma_tail(m2, t, h);
                        assert forall|x: Reader<T>|
                            (x.block.ptr != b || holders(m, t, b) >= 2) && #[trigger] x.wf(
                                old(queue),
                            ) implies x.wf(queue) && x.position(queue) == x.position(
                            old(queue),
                        ) by {
                            let y = x.block.ptr;
                            assert(holders(m1, t, y) >= 1);
                        }
                        assert forall|x: Writer<T>|
                            (x.block.ptr != b || holders(m, t, b) >= 2) && #[trigger] x.wf(
                                old(queue),
                            ) implies x.wf(queue) by {
                            let y = x.block.ptr;
                            assert(holders(m1, t, y) >= 1);
                        }
                    }
                    if self.len == 0 {
                        return None;
                    }
                } else {
                    return None;
                }
            } else {
                // Read the bitmap word again: writers may have set bits.
                let bit_block = queue.blocks.get(self.block.ptr).load_bit_block(
                    self.bitblock_index,
                );
                proof {
                    Self::lemma_word(m[b].block, self.bitblock_index);
                }
                if !self.poll(bit_block) {
                    // Nothing changed.
                    return None;
                }
            }
        }
        let value = &queue.blocks.get(self.block.ptr).mem()[self.index];
        self.index += 1;
        Some(value)
    }

    /// A second reader at the same position, with a handle of its own.
    #[inline]
    pub fn clone(&self, queue: &mut Queue<T>) -> (r: Self)
        requires
            old(queue).wf(),
            self.wf(old(queue)),
            old(queue).store()[self.block.ptr].use_count < usize::MAX,
        ensures
            final(queue).wf(),
            r.wf(final(queue)),
            r.block.ptr == self.block.ptr,
            r.index == self.index,
            r.len == self.len,
            r.bitblock_index == self.bitblock_index,
            final(queue).history() == old(queue).history(),
            final(queue).tail() == old(queue).tail(),
            final(queue).store() == acquired(old(queue).store(), self.block.ptr),
            forall|x: Reader<T>| #[trigger]
                x.wf(old(queue)) ==> x.wf(final(queue)) && x.position(final(queue)) == x.position(
                    old(queue),
                ),
            forall|x: Writer<T>| #[trigger] x.wf(old(queue)) ==> x.wf(final(queue)),
    {
        let ghost m = queue.store();
        let ghost t = queue.tail();
        let ghost b = self.block.ptr;
        proof {
            lemma_tail(m, t, queue.history());
            lemma_acquire(m, t, queue.history(), b);
        }
        let block = self.block.clone(&mut queue.blocks);
        Self {
            block,
            index: self.index,
            len: self.len,
            bitblock_index: self.bitblock_index,
            phantom_data: PhantomData,
        }
    }

    /// Gives the reader up, and with it its handle. A block that nobody holds
    /// any more, and that no block before it keeps, leaves the queue.
    #[inline]
    pub fn drop(self, queue: &mut Queue<T>)
        requires
            old(queue).wf(),
            self.wf(old(queue)),
        ensures
            final(queue).wf(),
            final(queue).history() == old(queue).history(),
            final(queue).tail() == old(queue).tail(),
            released(old(queue).store(), final(queue).store(), self.block.ptr),
            forall|x: Reader<T>|
                (x.block.ptr != self.block.ptr || old(queue).holders(self.block.ptr) >= 2)
                    && #[trigger] x.wf(old(queue)) ==> x.wf(final(queue)) && x.position(
                    final(queue),
                ) == x.position(old(queue)),
            forall|x: Writer<T>|
                (x.block.ptr != self.block.ptr || old(queue).holders(self.block.ptr) >= 2)
                    && #[trigger] x.wf(old(queue)) ==> x.wf(final(queue)),
    {
        let ghost m = queue.store();
        let ghost t = queue.tail();
        let ghost b = self.block.ptr;
        proof {
            lemma_tail(m, t, queue.history());
        }
        self.block.drop(&mut queue.blocks);
        proof {
            let m2 = queue.store();
            lemma_release(m, m2, t, queue.history(), b);
            lemma_tail(m2, t, queue.history());
        }
    }
}

} // verus!
