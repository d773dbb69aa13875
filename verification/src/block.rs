//! Fixed-size message blocks of the multicast queues, their ready bitmap, and
//! the counted handle to a block.
use crate::block_list::{acquired, released, BlockList, NodeView};
use branch_hints::unlikely;
use vstd::prelude::*;
use vstd::std_specs::bits::u64_trailing_ones;

verus! {

broadcast use {vstd::std_specs::bits::axiom_u64_trailing_ones, vstd::seq::group_seq_axioms};

/// Number of message slots in one block.
pub const BLOCK_SIZE: usize = 4096;

/// Number of 64-bit words in a block's ready bitmap.
pub const BITBLOCKS_LEN: usize = BLOCK_SIZE / 64;

/// `branch_hints::likely` returns its argument; it only tells the compiler
/// which way the branch usually goes.
pub assume_specification[ branch_hints::likely ](b: bool) -> (r: bool)
    ensures
        r == b,
;

/// `branch_hints::unlikely` returns its argument; it only tells the compiler
/// which way the branch usually goes.
pub assume_specification[ branch_hints::unlikely ](b: bool) -> (r: bool)
    ensures
        r == b,
;

/// Marks a counter that several parties touch often, and that is best kept
/// apart from its neighbours. The wrapper adds nothing to the value.
#[derive(Default)]
pub struct CacheLineAlign<T>(pub T);

impl<T> CacheLineAlign<T> {
    /// Wraps `value`.
    #[inline]
    pub fn new(value: T) -> (r: Self)
        ensures
            r.0 == value,
    {
        CacheLineAlign(value)
    }

    /// The wrapped value.
    #[inline]
    pub fn get(&self) -> (r: &T)
        ensures
            *r == self.0,
    {
        &self.0
    }
}

/// The bitmap word whose lowest `k` bits are set and no others
/// (all 64 where `k` is 64 or more).
pub open spec fn low_ones(k: nat) -> u64 {
    if k >= 64 {
        u64::MAX
    } else {
        (((1u64 << (k as u64)) - 1) as u64)
    }
}

/// Length of the run of set bits that starts at bit 0 of `bit_block`.
pub open spec fn ready_run(bit_block: u64) -> nat {
    u64_trailing_ones(bit_block) as nat
}

/// A word with exactly its `k` lowest bits set has a ready run of `k`.
pub proof fn lemma_low_ones_run(k: nat)
    ensures
        ready_run(low_ones(k)) == if k >= 64 {
            64
        } else {
            k
        },
{
    let w = low_ones(k);
    let t = u64_trailing_ones(w);
    if k < 64 {
        let k64 = k as u64;
        assert(w != u64::MAX) by (bit_vector)
            requires
                k64 < 64,
                w == (((1u64 << k64) - 1) as u64),
        ;
        assert((w >> k64) & 1u64 == 0u64) by (bit_vector)
            requires
                k64 < 64,
                w == (((1u64 << k64) - 1) as u64),
        ;
        if t < k {
            let t64 = t as u64;
            assert((w >> t64) & 1u64 == 1u64) by (bit_vector)
                requires
                    k64 < 64,
                    t64 < k64,
                    w == (((1u64 << k64) - 1) as u64),
            ;
        }
    }
}

/// Setting bit `k` of the word with its `k` lowest bits set gives the word
/// with its `k + 1` lowest bits set.
pub proof fn lemma_low_ones_set(k: nat)
    requires
        k < 64,
    ensures
        low_ones(k) | (1u64 << (k as u64)) == low_ones(k + 1),
{
    let k64 = k as u64;
    if k < 63 {
        assert((((1u64 << k64) - 1) as u64) | (1u64 << k64) == (((1u64 << ((k64 + 1) as u64)) - 1) as u64))
            by (bit_vector)
            requires
                k64 < 63,
        ;
    } else {
        assert((((1u64 << 63u64) - 1) as u64) | (1u64 << 63u64) == u64::MAX) by (bit_vector);
    }
}

/// Index of the bitmap word that holds the ready bit of slot `index`.
pub fn bit_block_index(index: usize) -> (r: usize)
    ensures
        r == index / 64,
{
    index / 64
}

/// The bitmap word in which only the ready bit of slot `index` is set.
pub fn bit_mask(index: usize) -> (r: u64)
    ensures
        r == 1u64 << ((index % 64) as u64),
{
    1u64 << ((index % 64) as u64)
}

/// Number of slots that the bitmap word `bit_block`, the word with index
/// `bitblock_index`, shows as written without a gap from the word's first slot.
pub open spec fn ready_len_spec(bitblock_index: usize, bit_block: u64) -> nat {
    (bitblock_index * 64 + ready_run(bit_block)) as nat
}

/// The length that a reader may advance to after it has read `bit_block`, the
/// bitmap word with index `bitblock_index`: the word's first slot plus the run
/// of set bits from bit 0. Every slot below the result, from the word's first
/// slot on, has its ready bit set, and the slot at the result has not, unless
/// the whole word is set.
pub fn ready_len(bitblock_index: usize, bit_block: u64) -> (r: usize)
    requires
        bitblock_index < BITBLOCKS_LEN,
    ensures
        r == ready_len_spec(bitblock_index, bit_block),
        bitblock_index * 64 <= r <= bitblock_index * 64 + 64,
        r == bitblock_index * 64 + 64 <==> bit_block == u64::MAX,
        forall|j: u64| 0 <= j < r - bitblock_index * 64 ==> #[trigger] (bit_block >> j) & 1u64 == 1u64,
        r < bitblock_index * 64 + 64 ==> (bit_block >> ((r - bitblock_index * 64) as u64)) & 1u64
            == 0u64,
{
    let run: u32 = bit_block.trailing_ones();
    bitblock_index * 64 + run as usize
}

/// A block as contracts see it.
pub struct BlockView<T> {
    /// Number of slots handed out to writers. It may pass `BLOCK_SIZE`: a
    /// writer that finds the block full still counts.
    pub len: usize,
    /// The ready bitmap: bit `i % 64` of word `i / 64` says that slot `i` is
    /// written.
    pub bit_blocks: Seq<u64>,
    /// The written slots, in order.
    pub mem: Seq<T>,
    /// Number of messages that went into the queue before the first slot of
    /// this block.
    pub base: nat,
}

impl<T> BlockView<T> {
    /// The block is consistent: the written slots are the ones handed out,
    /// up to the capacity.
    pub open spec fn wf(self) -> bool {
        &&& self.bit_blocks.len() == BITBLOCKS_LEN
        &&& self.mem.len() == if self.len < BLOCK_SIZE {
            self.len
        } else {
            BLOCK_SIZE
        }
    }

    /// Number of written slots that belong to bitmap word `g`.
    pub open spec fn written_in(self, g: int) -> nat {
        if self.mem.len() <= 64 * g {
            0
        } else if self.mem.len() >= 64 * g + 64 {
            64
        } else {
            (self.mem.len() - 64 * g) as nat
        }
    }

    /// The ready bitmap shows every written slot and no other.
    pub open spec fn published(self) -> bool {
        forall|g: int|
            0 <= g < BITBLOCKS_LEN ==> #[trigger] self.bit_blocks[g] == low_ones(self.written_in(g))
    }

    /// The block is full.
    pub open spec fn full(self) -> bool {
        self.len >= BLOCK_SIZE
    }

    /// An empty block at position `base`.
    pub open spec fn empty(base: nat) -> Self {
        BlockView {
            len: 0,
            bit_blocks: Seq::new(BITBLOCKS_LEN as nat, |g: int| 0u64),
            mem: Seq::empty(),
            base,
        }
    }

    /// The block after `value` went into its next slot and was published.
    pub open spec fn pushed(self, value: T) -> Self {
        BlockView {
            len: (self.len + 1) as usize,
            bit_blocks: self.bit_blocks.update(
                self.len as int / 64,
                self.bit_blocks[self.len as int / 64] | (1u64 << ((self.len % 64) as u64)),
            ),
            mem: self.mem.push(value),
            base: self.base,
        }
    }

    /// The block after `value` went into its next slot, the bitmap left alone.
    pub open spec fn appended(self, value: T) -> Self {
        BlockView { len: (self.len + 1) as usize, mem: self.mem.push(value), ..self }
    }

    /// The full block after it turned a writer away: only the count of slots
    /// handed out moved, and it stops at the largest number.
    pub open spec fn refused(self) -> Self {
        BlockView {
            len: if self.len < usize::MAX {
                (self.len + 1) as usize
            } else {
                self.len
            },
            ..self
        }
    }

    /// Publishing the next slot keeps the bitmap exact.
    pub proof fn lemma_pushed_published(self, value: T)
        requires
            self.wf(),
            self.published(),
            !self.full(),
        ensures
            self.pushed(value).wf(),
            self.pushed(value).published(),
    {
        let k = (self.len % 64) as nat;
        lemma_low_ones_set(k);
    }
}

/// Storage for `BLOCK_SIZE` messages.
pub struct Block<T> {
    /// Number of slots handed out to writers.
    len: CacheLineAlign<usize>,
    /// The ready bitmap. The single-writer queue leaves it empty.
    bit_blocks: Vec<u64>,
    mem: Vec<T>,
    base: Ghost<nat>,
}

impl<T> View for Block<T> {
    type V = BlockView<T>;

    closed spec fn view(&self) -> BlockView<T> {
        BlockView { len: self.len.0, bit_blocks: self.bit_blocks@, mem: self.mem@, base: self.base@ }
    }
}

impl<T> Block<T> {
    /// Puts an empty block at position `base` into `blocks`, with `counter`
    /// references to it: one for each handle that the caller is going to give
    /// out without counting again.
    #[must_use]
    pub fn with_counter(
        blocks: &mut BlockList<Block<T>>,
        counter: usize,
        Ghost(base): Ghost<nat>,
    ) -> (r: BlockArc)
        requires
            old(blocks).wf(),
            counter >= 1,
        ensures
            final(blocks).wf(),
            !old(blocks).contains(r.ptr),
            final(blocks)@ == old(blocks)@.insert(
                r.ptr,
                NodeView {
                    use_count: counter as nat,
                    next: None,
                    pred: None,
                    block: BlockView::empty(base),
                },
            ),
    {
        let mut bit_blocks: Vec<u64> = Vec::with_capacity(BITBLOCKS_LEN);
        let mut g: usize = 0;
        while g < BITBLOCKS_LEN
            invariant
                g <= BITBLOCKS_LEN,
                bit_blocks.len() == g,
                forall|i: int| 0 <= i < g ==> bit_blocks[i] == 0,
            decreases BITBLOCKS_LEN - g,
        {
            bit_blocks.push(0);
            g = g + 1;
        }
        let block = Block {
            len: CacheLineAlign::new(0),
            bit_blocks,
            mem: Vec::with_capacity(BLOCK_SIZE),
            base: Ghost(base),
        };
        assert(block@.bit_blocks =~= BlockView::<T>::empty(base).bit_blocks);
        assert(block@.mem =~= BlockView::<T>::empty(base).mem);
        let ptr = blocks.insert(block, counter);
        BlockArc::from_raw(ptr)
    }

    /// Puts an empty block at position `base` into `blocks`, with one
    /// reference to it.
    #[must_use]
    pub fn new(blocks: &mut BlockList<Block<T>>, Ghost(base): Ghost<nat>) -> (r: BlockArc)
        requires
            old(blocks).wf(),
        ensures
            final(blocks).wf(),
            !old(blocks).contains(r.ptr),
            final(blocks)@ == old(blocks)@.insert(
                r.ptr,
                NodeView { use_count: 1, next: None, pred: None, block: BlockView::empty(base) },
            ),
    {
        Self::with_counter(blocks, 1, Ghost(base))
    }

    /// Counts one more reference to the block in slot `this`.
    #[inline]
    pub fn inc_use_count(blocks: &mut BlockList<Block<T>>, this: usize)
        requires
            old(blocks).wf(),
            old(blocks).contains(this),
            old(blocks)@[this].use_count < usize::MAX,
        ensures
            final(blocks).wf(),
            final(blocks)@ == acquired(old(blocks)@, this),
    {
        blocks.inc_use_count(this);
    }

    /// Gives up one reference to the block in slot `this`. A block left
    /// without references leaves the store with its messages, and gives up
    /// its link to its successor in turn.
    #[inline]
    pub fn dec_use_count(blocks: &mut BlockList<Block<T>>, this: usize)
        requires
            old(blocks).wf(),
            old(blocks).contains(this),
            old(blocks)@[this].external() >= 1,
        ensures
            final(blocks).wf(),
            released(old(blocks)@, final(blocks)@, this),
    {
        blocks.dec_use_count(this);
    }

    /// A counted handle to the successor of the block in slot `this`, if one
    /// was linked.
    #[must_use]
    #[inline]
    pub fn try_load_next(blocks: &mut BlockList<Block<T>>, this: usize) -> (r: Option<BlockArc>)
        requires
            old(blocks).wf(),
            old(blocks).contains(this),
            old(blocks)@[this].next matches Some(c) ==> old(blocks)@[c].use_count < usize::MAX,
        ensures
            final(blocks).wf(),
            r is Some <==> old(blocks)@[this].next is Some,
            r matches Some(arc) ==> old(blocks)@[this].next == Some(arc.ptr) && old(
                blocks,
            ).contains(arc.ptr) && final(blocks)@ == acquired(old(blocks)@, arc.ptr),
            r is None ==> final(blocks)@ == old(blocks)@,
    {
        match blocks.try_load_next(this) {
            Some(next) => Some(BlockArc::from_raw(next)),
            None => None,
        }
    }

    /// Number of slots handed out to writers.
    #[inline]
    pub fn load_len(&self) -> (r: usize)
        ensures
            r == self@.len,
    {
        *self.len.get()
    }

    /// Word `word` of the ready bitmap.
    #[inline]
    pub fn load_bit_block(&self, word: usize) -> (r: u64)
        requires
            word < self@.bit_blocks.len(),
        ensures
            r == self@.bit_blocks[word as int],
    {
        self.bit_blocks[word]
    }

    /// Index of the first word of the ready bitmap that is not all set, or of
    /// the last word where all are: the word at which a reader that enters
    /// the block looks first, as no slot before it is left to be published.
    pub fn first_open_bit_block(&self) -> (r: usize)
        requires
            self@.bit_blocks.len() == BITBLOCKS_LEN,
        ensures
            r < BITBLOCKS_LEN,
            forall|g: int| 0 <= g < r ==> #[trigger] self@.bit_blocks[g] == u64::MAX,
            r < BITBLOCKS_LEN - 1 ==> self@.bit_blocks[r as int] != u64::MAX,
    {
        let mut bitblock_index: usize = 0;
        loop
            invariant
                bitblock_index < BITBLOCKS_LEN,
                self@.bit_blocks.len() == BITBLOCKS_LEN,
                forall|g: int| 0 <= g < bitblock_index ==> #[trigger] self@.bit_blocks[g] == u64::MAX,
            ensures
                bitblock_index == BITBLOCKS_LEN - 1 || self@.bit_blocks[bitblock_index as int]
                    != u64::MAX,
            decreases BITBLOCKS_LEN - bitblock_index,
        {
            let bit_block = self.load_bit_block(bitblock_index);
            if bit_block != u64::MAX {
                break ;
            }
            if bitblock_index == BITBLOCKS_LEN - 1 {
                break ;
            }
            bitblock_index += 1;
        }
        bitblock_index
    }

    /// The written slots.
    #[inline]
    pub fn mem(&self) -> (r: &Vec<T>)
        ensures
            r@ == self@.mem,
    {
        &self.mem
    }

    /// Claims the next slot for `value`, writes it and sets its ready bit.
    /// A full block claims nothing and hands `value` back; it still counts
    /// the attempt in `len`, which stops at the largest number.
    #[inline]
    pub fn try_push(&mut self, value: T) -> (r: Result<(), T>)
        requires
            old(self)@.wf(),
        ensures
            final(self)@.wf(),
            !old(self)@.full() ==> r is Ok && final(self)@ == old(self)@.pushed(value),
            old(self)@.full() ==> r == Err::<(), T>(value) && final(self)@ == old(self)@.refused(),
            old(self)@.published() ==> final(self)@.published(),
    {
        let ghost before = self@;
        let occupied_len = self.len.0;
        if occupied_len < usize::MAX {
            self.len.0 = occupied_len + 1;
        }
        if unlikely(occupied_len >= BLOCK_SIZE) {
            assert(self@.bit_blocks =~= before.bit_blocks);
            return Err(value);
        }
        let index = occupied_len;
        self.mem.push(value);
        let word = bit_block_index(index);
        let bitmask = bit_mask(index);
        let bits = self.bit_blocks[word];
        self.bit_blocks[word] = bits | bitmask;
        proof {
            if before.published() {
                before.lemma_pushed_published(value);
            }
        }
        Ok(())
    }

    /// Writes `value` into the next slot of a block that is not full. The
    /// ready bitmap is left alone: the single writer publishes through `len`.
    #[inline]
    pub fn append(&mut self, value: T)
        requires
            old(self)@.wf(),
            !old(self)@.full(),
        ensures
            final(self)@.wf(),
            final(self)@ == old(self)@.appended(value),
    {
        let len = self.len.0;
        self.mem.push(value);
        self.len.0 = len + 1;
    }
}

/// A counted reference to a block of a store: whoever holds it keeps the block,
/// and every block behind it, in the store.
pub struct BlockArc {
    /// Slot of the block in its store.
    pub ptr: usize,
}

impl BlockArc {
    /// A handle for a reference to the block in slot `ptr` that is already
    /// counted.
    #[inline]
    pub fn from_raw(ptr: usize) -> (r: Self)
        ensures
            r.ptr == ptr,
    {
        Self { ptr }
    }

    /// Gives up the handle without giving up the reference it stood for.
    #[inline]
    pub fn into_raw(self) -> (r: usize)
        ensures
            r == self.ptr,
    {
        self.ptr
    }

    /// Slot of the block.
    #[inline]
    pub fn as_non_null(&mut self) -> (r: usize)
        ensures
            r == old(self).ptr,
            final(self).ptr == old(self).ptr,
    {
        self.ptr
    }

    /// A second handle to the same block, counted in `blocks`.
    #[inline]
    pub fn clone<B: View>(&self, blocks: &mut BlockList<B>) -> (r: Self)
        requires
            old(blocks).wf(),
            old(blocks).contains(self.ptr),
            old(blocks)@[self.ptr].use_count < usize::MAX,
        ensures
            r.ptr == self.ptr,
            final(blocks).wf(),
            final(blocks)@ == acquired(old(blocks)@, self.ptr),
    {
        blocks.inc_use_count(self.ptr);
        Self { ptr: self.ptr }
    }

    /// Gives up the handle and the reference it stood for.
    #[inline]
    pub fn drop<B: View>(self, blocks: &mut BlockList<B>)
        requires
            old(blocks).wf(),
            old(blocks).contains(self.ptr),
            old(blocks)@[self.ptr].external() >= 1,
        ensures
            final(blocks).wf(),
            released(old(blocks)@, final(blocks)@, self.ptr),
    {
        blocks.dec_use_count(self.ptr);
    }
}

} // verus!
