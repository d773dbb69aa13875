//! Blocks of the unicast queue.
//!
//! A slot is written once by the writer, claimed once by one reader, and read
//! or taken by that reader, which leaves it empty. A block counts the slots
//! that were emptied; when that count reaches the capacity, the block gives up
//! its storage, while its header stays for as long as it is referenced.
use crate::block::CacheLineAlign;
use vstd::prelude::*;
use vstd::set_lib::{lemma_int_range, lemma_len_subset, lemma_subset_equality, set_int_range};

verus! {

broadcast use {vstd::set::group_set_axioms, vstd::seq::group_seq_axioms};

/// Number of message slots in one block.
pub const BLOCK_SIZE: usize = 4096;

/// A block as contracts see it.
pub struct BlockView<T> {
    /// Number of emptied slots that the block has counted.
    pub read_succ: usize,
    /// Number of written slots.
    pub write_counter: usize,
    /// Number of claimed slots: the next reader claims this slot.
    pub read_counter: usize,
    /// The storage: one entry for each written slot, which holds the message
    /// until the reader that claimed the slot has emptied it; `None` once the
    /// storage is given up.
    pub mem: Option<Seq<Option<T>>>,
    /// Number of messages that went into the queue before the first slot of
    /// this block.
    pub base: nat,
    /// Number of emptied slots that the block has not counted yet.
    pub pending: nat,
}

impl<T> BlockView<T> {
    /// The slots that were emptied.
    pub open spec fn emptied(self) -> Set<int> {
        Set::new(|i: int| self.mem is Some && 0 <= i < self.mem->0.len() && self.mem->0[i] is None)
    }

    /// Slot `index` holds a message that a reader has claimed.
    pub open spec fn claimed_at(self, index: int) -> bool {
        &&& self.mem is Some
        &&& 0 <= index < self.read_counter
        &&& index < self.mem->0.len()
        &&& self.mem->0[index] is Some
    }

    /// The counters are in order and the storage holds what they say: every
    /// written slot, the unclaimed ones full, and as many emptied ones as the
    /// block has counted or has yet to count.
    pub open spec fn wf_unsettled(self) -> bool {
        &&& self.read_succ + self.pending <= self.read_counter <= self.write_counter <= BLOCK_SIZE
        &&& self.mem is None ==> self.read_succ == BLOCK_SIZE
        &&& self.mem matches Some(s) ==> {
            &&& s.len() == self.write_counter
            &&& forall|i: int| self.read_counter <= i < s.len() ==> (#[trigger] s[i]) is Some
            &&& self.emptied().finite()
            &&& self.emptied().len() == self.read_succ + self.pending
        }
    }

    /// The block is in order: as `wf_unsettled`, and the storage is given up
    /// once every slot is counted as emptied.
    pub open spec fn wf(self) -> bool {
        &&& self.wf_unsettled()
        &&& self.read_succ == BLOCK_SIZE ==> self.mem is None
    }

    /// An empty block at position `base`.
    pub open spec fn empty(base: nat) -> Self {
        BlockView {
            read_succ: 0,
            write_counter: 0,
            read_counter: 0,
            mem: Some(Seq::empty()),
            base,
            pending: 0,
        }
    }

    /// The block after `value` was written into its next slot.
    pub open spec fn written(self, value: T) -> Self {
        BlockView {
            write_counter: (self.write_counter + 1) as usize,
            mem: Some(self.mem->0.push(Some(value))),
            ..self
        }
    }

    /// The block after a reader claimed its next slot.
    pub open spec fn claimed(self) -> Self {
        BlockView { read_counter: (self.read_counter + 1) as usize, ..self }
    }

    /// The block after slot `index` was emptied.
    pub open spec fn emptied_at(self, index: int) -> Self {
        BlockView {
            mem: Some(self.mem->0.update(index, None)),
            pending: self.pending + 1,
            ..self
        }
    }

    /// The block after the message in the claimed slot `index` changed to
    /// `value`.
    pub open spec fn with_slot(self, index: int, value: T) -> Self {
        BlockView { mem: Some(self.mem->0.update(index, Some(value))), ..self }
    }

    /// The block after it counted `n` emptied slots.
    pub open spec fn counted(self, n: usize) -> Self {
        BlockView {
            read_succ: (self.read_succ + n) as usize,
            pending: (self.pending - n) as nat,
            ..self
        }
    }

    /// The block after it gave up its storage.
    pub open spec fn freed(self) -> Self {
        BlockView { mem: None, ..self }
    }

    /// The block after it counted `n` emptied slots, and gave up its storage
    /// if these were the last.
    pub open spec fn settled(self, n: usize) -> Self {
        if self.read_succ + n == BLOCK_SIZE {
            self.counted(n).freed()
        } else {
            self.counted(n)
        }
    }

    /// While a claimed slot still holds its message, not every slot is counted
    /// or waits to be: the storage is there, and one more slot can be emptied.
    pub proof fn lemma_claimed_at(self, index: int)
        requires
            self.wf_unsettled(),
            self.claimed_at(index),
        ensures
            self.read_succ + self.pending < self.read_counter,
            self.read_succ + self.pending < BLOCK_SIZE,
    {
        let range = set_int_range(0, self.read_counter as int);
        lemma_int_range(0, self.read_counter as int);
        let rest = range.remove(index);
        lemma_len_subset(self.emptied(), rest);
    }

    /// Once as many slots are emptied as the block has, every slot is.
    pub proof fn lemma_all_emptied(self)
        requires
            self.wf_unsettled(),
            self.mem is Some,
            self.read_succ + self.pending == BLOCK_SIZE,
        ensures
            self.write_counter == BLOCK_SIZE,
            self.read_counter == BLOCK_SIZE,
            forall|i: int| 0 <= i < BLOCK_SIZE ==> (#[trigger] self.mem->0[i]) is None,
    {
        let range = set_int_range(0, self.read_counter as int);
        lemma_int_range(0, self.read_counter as int);
        lemma_subset_equality(self.emptied(), range);
        assert forall|i: int| 0 <= i < BLOCK_SIZE implies (#[trigger] self.mem->0[i]) is None by {
            assert(range.contains(i));
        }
    }

    /// Writing into the next slot keeps the block in order.
    pub proof fn lemma_written(self, value: T)
        requires
            self.wf(),
            self.write_counter < BLOCK_SIZE,
        ensures
            self.mem is Some,
            self.written(value).wf(),
    {
        let after = self.written(value);
        assert(after.emptied() =~= self.emptied());
    }

    /// Emptying a claimed slot keeps the block in order, with one more slot
    /// to count.
    pub proof fn lemma_emptied_at(self, index: int)
        requires
            self.wf_unsettled(),
            self.claimed_at(index),
        ensures
            self.emptied_at(index).wf_unsettled(),
            self.wf() ==> self.emptied_at(index).wf(),
            forall|i: int|
                i != index ==> (#[trigger] self.emptied_at(index).claimed_at(i)) == self.claimed_at(i),
    {
        let after = self.emptied_at(index);
        self.lemma_claimed_at(index);
        assert(after.emptied() =~= self.emptied().insert(index));
    }

    /// A change of the message in a claimed slot keeps the block in order.
    pub proof fn lemma_with_slot(self, index: int, value: T)
        requires
            self.wf(),
            self.claimed_at(index),
        ensures
            self.with_slot(index, value).wf(),
            forall|i: int| (#[trigger] self.with_slot(index, value).claimed_at(i)) == self.claimed_at(i),
    {
        let after = self.with_slot(index, value);
        assert(after.emptied() =~= self.emptied());
    }

    /// Counting emptied slots keeps the block in order but for its storage,
    /// which is to be given up once all slots are counted.
    pub proof fn lemma_counted(self, n: usize)
        requires
            self.wf_unsettled(),
            n <= self.pending,
        ensures
            self.counted(n).wf_unsettled(),
            self.read_succ + n <= BLOCK_SIZE,
            self.read_succ + n < BLOCK_SIZE && self.wf() ==> self.counted(n).wf(),
            forall|i: int| (#[trigger] self.counted(n).claimed_at(i)) == self.claimed_at(i),
    {
    }

    /// Giving up the storage of a block whose slots are all counted puts the
    /// block in order, and loses no message.
    pub proof fn lemma_freed(self)
        requires
            self.wf_unsettled(),
            self.read_succ == BLOCK_SIZE,
        ensures
            self.freed().wf(),
            self.pending == 0,
            self.mem matches Some(s) ==> forall|i: int| 0 <= i < s.len() ==> (#[trigger] s[i]) is None,
    {
        if self.mem is Some {
            self.lemma_all_emptied();
        }
    }
}

/// Storage for `BLOCK_SIZE` messages, with the counters of the writer and of
/// the readers.
pub struct Block<T> {
    read_succ: CacheLineAlign<usize>,
    write_counter: usize,
    read_counter: CacheLineAlign<usize>,
    /// Given up as soon as `read_succ` is `BLOCK_SIZE`.
    mem: Option<Vec<Option<T>>>,
    base: Ghost<nat>,
    pending: Ghost<nat>,
}

impl<T> View for Block<T> {
    type V = BlockView<T>;

    closed spec fn view(&self) -> BlockView<T> {
        BlockView {
            read_succ: self.read_succ.0,
            write_counter: self.write_counter,
            read_counter: self.read_counter.0,
            mem: match self.mem {
                Some(v) => Some(v@),
                None => None,
            },
            base: self.base@,
            pending: self.pending@,
        }
    }
}

impl<T> Block<T> {
    /// An empty block at position `base`, with storage for its slots.
    pub fn default(Ghost(base): Ghost<nat>) -> (r: Self)
        ensures
            r@ == BlockView::<T>::empty(base),
            r@.wf(),
    {
        let r = Block {
            read_succ: CacheLineAlign::new(0),
            write_counter: 0,
            read_counter: CacheLineAlign::new(0),
            mem: Some(Vec::with_capacity(BLOCK_SIZE)),
            base: Ghost(base),
            pending: Ghost(0),
        };
        proof {
            assert(r@.emptied() =~= Set::<int>::empty());
        }
        r
    }

    /// Number of written slots.
    #[inline]
    pub fn load_write_counter(&self) -> (r: usize)
        ensures
            r == self@.write_counter,
    {
        self.write_counter
    }

    /// Number of claimed slots.
    #[inline]
    pub fn load_read_counter(&self) -> (r: usize)
        ensures
            r == self@.read_counter,
    {
        *self.read_counter.get()
    }

    /// Number of emptied slots that the block has counted.
    #[inline]
    pub fn load_read_succ(&self) -> (r: usize)
        ensures
            r == self@.read_succ,
    {
        *self.read_succ.get()
    }

    /// Whether the block still has its storage.
    #[inline]
    pub fn has_mem(&self) -> (r: bool)
        ensures
            r == (self@.mem is Some),
    {
        self.mem.is_some()
    }

    /// The storage, which must not have been given up.
    #[inline]
    pub fn mem_unchecked(&self) -> (r: &Vec<Option<T>>)
        requires
            self@.mem is Some,
        ensures
            r@ == self@.mem->0,
    {
        match &self.mem {
            Some(mem) => mem,
            None => vstd::pervasive::unreached(),
        }
    }

    /// Writes `value` into the next slot of a block that is not full.
    #[inline]
    pub fn write(&mut self, value: T)
        requires
            old(self)@.wf(),
            old(self)@.write_counter < BLOCK_SIZE,
        ensures
            final(self)@ == old(self)@.written(value),
            final(self)@.wf(),
    {
        proof {
            self@.lemma_written(value);
        }
        let len = self.write_counter;
        match &mut self.mem {
            Some(mem) => {
                mem.push(Some(value));
            },
            None => {},
        }
        self.write_counter = len + 1;
    }

    /// Sets the number of claimed slots to `new` if it is `current`, and
    /// returns what it was, as `Ok` if it was set.
    #[inline]
    pub fn compare_exchange_read_counter(&mut self, current: usize, new: usize) -> (r: Result<
        usize,
        usize,
    >)
        ensures
            old(self)@.read_counter == current ==> r == Ok::<usize, usize>(current) && final(self)@
                == (BlockView { read_counter: new, ..old(self)@ }),
            old(self)@.read_counter != current ==> r == Err::<usize, usize>(
                old(self)@.read_counter,
            ) && final(self)@ == old(self)@,
    {
        let was = self.read_counter.0;
        if was == current {
            self.read_counter.0 = new;
            Ok(was)
        } else {
            Err(was)
        }
    }

    /// The message in slot `index`, which a reader has claimed and not
    /// emptied.
    #[inline]
    pub fn slot(&self, index: usize) -> (r: &T)
        requires
            self@.claimed_at(index as int),
        ensures
            *r == self@.mem->0[index as int]->0,
    {
        match &self.mem {
            Some(mem) => match &mem[index] {
                Some(value) => value,
                None => vstd::pervasive::unreached(),
            },
            None => vstd::pervasive::unreached(),
        }
    }

    /// The message in slot `index`, which a reader has claimed and not
    /// emptied, to be changed in place.
    #[inline]
    pub fn slot_mut(&mut self, index: usize) -> (r: &mut T)
        requires
            old(self)@.wf(),
            old(self)@.claimed_at(index as int),
        ensures
            *r == old(self)@.mem->0[index as int]->0,
            final(self)@ == old(self)@.with_slot(index as int, *final(r)),
            final(self)@.wf(),
    {
        let ghost before = self@;
        let r = match &mut self.mem {
            Some(mem) => match &mut mem[index] {
                Some(value) => value,
                None => vstd::pervasive::unreached(),
            },
            None => vstd::pervasive::unreached(),
        };
        proof {
            before.lemma_with_slot(index as int, *final(r));
        }
        r
    }

    /// Takes the message out of slot `index`, which a reader has claimed and
    /// not emptied. The slot is left empty, and is yet to be counted.
    #[inline]
    pub fn take_slot(&mut self, index: usize) -> (r: T)
        requires
            old(self)@.wf_unsettled(),
            old(self)@.claimed_at(index as int),
        ensures
            r == old(self)@.mem->0[index as int]->0,
            final(self)@ == old(self)@.emptied_at(index as int),
            final(self)@.wf_unsettled(),
            old(self)@.wf() ==> final(self)@.wf(),
    {
        proof {
            self@.lemma_emptied_at(index as int);
        }
        let taken = match &mut self.mem {
            Some(mem) => mem[index].take(),
            None => None,
        };
        proof {
            self.pending@ = self.pending@ + 1;
        }
        match taken {
            Some(value) => value,
            None => vstd::pervasive::unreached(),
        }
    }

    /// Counts `n` slots that were emptied, and returns the count before.
    #[inline]
    pub fn fetch_add_read_succ(&mut self, n: usize) -> (r: usize)
        requires
            old(self)@.wf_unsettled(),
            n <= old(self)@.pending,
        ensures
            r == old(self)@.read_succ,
            final(self)@ == old(self)@.counted(n),
            final(self)@.wf_unsettled(),
            r + n <= BLOCK_SIZE,
            r + n < BLOCK_SIZE && old(self)@.wf() ==> final(self)@.wf(),
    {
        proof {
            self@.lemma_counted(n);
        }
        let was = self.read_succ.0;
        self.read_succ.0 = was + n;
        proof {
            self.pending@ = (self.pending@ - n) as nat;
        }
        was
    }

    /// Gives up the storage. To be called once, when every slot is emptied
    /// and counted.
    #[inline]
    pub fn dealloc_destructed_mem(&mut self)
        requires
            old(self)@.wf_unsettled(),
            old(self)@.read_succ == BLOCK_SIZE,
        ensures
            final(self)@ == old(self)@.freed(),
            final(self)@.wf(),
    {
        proof {
            self@.lemma_freed();
        }
        self.mem = None;
    }
}

} // verus!
