//! The store of reference-counted, singly linked blocks.
//!
//! A block is named by the index of its slot in the store. Every reference to a
//! block is counted once in the block's use counter: each handle that a queue, a
//! reader or a writer holds, and the link from the block's predecessor. A block
//! whose counter reaches zero leaves the store, and gives up its reference to
//! its successor, which may leave in turn.
use vstd::prelude::*;

verus! {

broadcast use {vstd::set::group_set_axioms, vstd::map::group_map_axioms};

/// One block of the store as contracts see it.
pub struct NodeView<V> {
    /// Number of references to the block.
    pub use_count: nat,
    /// The successor, once one was linked.
    pub next: Option<usize>,
    /// The block whose `next` names this one.
    pub pred: Option<usize>,
    /// What the block holds.
    pub block: V,
}

impl<V> NodeView<V> {
    /// References to the block other than the link from its predecessor:
    /// the handles held outside the store.
    pub open spec fn external(self) -> int {
        self.use_count - if self.pred is Some { 1int } else { 0int }
    }
}

/// `b` names a block of the store `m`.
#[verifier::opaque]
pub open spec fn present<V>(m: Map<usize, NodeView<V>>, b: usize) -> bool {
    m.dom().contains(b)
}

/// `present` says that the block is in the store.
pub proof fn lemma_present<V>(m: Map<usize, NodeView<V>>, b: usize)
    ensures
        present(m, b) == m.dom().contains(b),
{
    reveal(present);
}

/// Block `b` is referenced, and its `next` and `pred` are mirrored by the
/// blocks they name, which are in the store.
pub open spec fn node_wf<V>(m: Map<usize, NodeView<V>>, b: usize) -> bool {
    &&& m[b].use_count >= 1
    &&& (m[b].next matches Some(c) ==> present(m, c) && c != b && m[c].pred == Some(b))
    &&& (m[b].pred matches Some(p) ==> present(m, p) && m[p].next == Some(b))
}

/// The links of a store are consistent: every block is referenced, `next` and
/// `pred` mirror each other and stay inside the store.
pub open spec fn chain_wf<V>(m: Map<usize, NodeView<V>>) -> bool {
    forall|b: usize| #[trigger] m.dom().contains(b) ==> node_wf(m, b)
}

/// `b` lost one reference when a handle to `this` was given up and `new` is what
/// remained: it is `this` itself, or its predecessor left the store.
pub open spec fn given_up<V>(
    old: Map<usize, NodeView<V>>,
    new: Map<usize, NodeView<V>>,
    this: usize,
    b: usize,
) -> bool {
    b == this || (b != this && old[b].pred is Some && !present(new, old[b].pred->0))
}

/// What became of block `b` when a handle to `this` was given up.
///
/// A block that lost no reference is unchanged. A block that lost one and has
/// others left stays with its counter one lower. A block that lost its last
/// reference is gone, and so its successor lost the link from it.
pub open spec fn released_at<V>(
    old: Map<usize, NodeView<V>>,
    new: Map<usize, NodeView<V>>,
    this: usize,
    b: usize,
) -> bool {
    if !given_up(old, new, this, b) {
        new.dom().contains(b) && new[b] == old[b]
    } else if old[b].use_count > 1 {
        new.dom().contains(b) && new[b] == (NodeView {
            use_count: (old[b].use_count - 1) as nat,
            pred: if b == this {
                old[b].pred
            } else {
                None
            },
            ..old[b]
        })
    } else {
        !new.dom().contains(b)
    }
}

/// `new` is `old` after one handle to `this` was given up: no block came, and
/// each block of `old` fared as `released_at` says.
#[verifier::opaque]
pub open spec fn released<V>(
    old: Map<usize, NodeView<V>>,
    new: Map<usize, NodeView<V>>,
    this: usize,
) -> bool {
    &&& forall|b: usize| #[trigger] new.dom().contains(b) ==> old.dom().contains(b)
    &&& forall|b: usize| #[trigger] old.dom().contains(b) ==> released_at(old, new, this, b)
}

/// What `released` says of one block.
pub proof fn lemma_released_at<V>(
    old: Map<usize, NodeView<V>>,
    new: Map<usize, NodeView<V>>,
    this: usize,
    b: usize,
)
    requires
        released(old, new, this),
    ensures
        new.dom().contains(b) ==> old.dom().contains(b),
        old.dom().contains(b) ==> released_at(old, new, this, b),
{
    reveal(released);
}

/// A store with the same blocks, links and positive counters as a consistent
/// one is consistent.
pub proof fn lemma_same_links<V>(m: Map<usize, NodeView<V>>, m2: Map<usize, NodeView<V>>)
    requires
        chain_wf(m),
        m2.dom() =~= m.dom(),
        forall|b: usize| #[trigger]
            m.dom().contains(b) ==> m2[b].next == m[b].next && m2[b].pred == m[b].pred
                && m2[b].use_count >= 1,
    ensures
        chain_wf(m2),
{
    assert forall|x: usize| #[trigger] m2.dom().contains(x) implies node_wf(m2, x) by {
        if m[x].next is Some {
            let c = m[x].next->0;
            lemma_present(m, c);
            lemma_present(m2, c);
        }
        if m[x].pred is Some {
            let q = m[x].pred->0;
            lemma_present(m, q);
            lemma_present(m2, q);
        }
    }
}

/// The store after a new block `c`, holding `block`, was chained behind the
/// full tail block `t`: `c` is referenced by the link and by the queue, which
/// now has it as its tail, and by `extra` further handles.
pub open spec fn chained<V>(
    m: Map<usize, NodeView<V>>,
    t: usize,
    c: usize,
    extra: nat,
    block: V,
) -> Map<usize, NodeView<V>> {
    m.insert(c, NodeView { use_count: 2 + extra, next: None, pred: Some(t), block }).insert(
        t,
        NodeView { next: Some(c), ..m[t] },
    )
}

/// The store after the block in slot `b` changed to `block`.
pub open spec fn with_block<V>(m: Map<usize, NodeView<V>>, b: usize, block: V) -> Map<usize, NodeView<V>> {
    m.insert(b, NodeView { block, ..m[b] })
}

/// The store after one more handle to block `b` was counted.
pub open spec fn acquired<V>(m: Map<usize, NodeView<V>>, b: usize) -> Map<usize, NodeView<V>> {
    m.insert(b, NodeView { use_count: m[b].use_count + 1, ..m[b] })
}

/// The store after the link from block `b` to its successor `c` was taken
/// out.
pub open spec fn unlinked<V>(m: Map<usize, NodeView<V>>, b: usize, c: usize) -> Map<
    usize,
    NodeView<V>,
> {
    m.insert(b, NodeView { next: None, ..m[b] }).insert(c, NodeView { pred: None, ..m[c] })
}

/// The store after block `c` was linked behind block `b`.
pub open spec fn linked<V>(m: Map<usize, NodeView<V>>, b: usize, c: usize) -> Map<
    usize,
    NodeView<V>,
> {
    m.insert(b, NodeView { next: Some(c), ..m[b] }).insert(c, NodeView { pred: Some(b), ..m[c] })
}

/// The store after the counter of block `b`, which is above one, went down by
/// one.
pub open spec fn lowered<V>(m: Map<usize, NodeView<V>>, b: usize) -> Map<usize, NodeView<V>> {
    m.insert(b, NodeView { use_count: (m[b].use_count - 1) as nat, ..m[b] })
}

/// What a block holds has no part in which blocks stay when a handle is given
/// up: the change of a block that stays may come before or after.
pub proof fn lemma_released_block<V>(
    m: Map<usize, NodeView<V>>,
    m2: Map<usize, NodeView<V>>,
    x: usize,
    b: usize,
    block: V,
)
    requires
        released(m, m2, x),
        m2.dom().contains(b),
    ensures
        released(with_block(m, b, block), with_block(m2, b, block), x),
{
    let n = with_block(m, b, block);
    let n2 = with_block(m2, b, block);
    assert forall|y: usize| #[trigger] n.dom().contains(y) implies released_at(n, n2, x, y) by {
        lemma_released_at(m, m2, x, y);
        if m[y].pred is Some {
            lemma_present(m2, m[y].pred->0);
            lemma_present(n2, m[y].pred->0);
        }
    }
    reveal(released);
}

/// A handle to a block that stays may be given up before or after a handle to
/// another block is: what remains is the same.
pub proof fn lemma_released_lowered<V>(
    m: Map<usize, NodeView<V>>,
    m2: Map<usize, NodeView<V>>,
    x: usize,
    b: usize,
)
    requires
        released(m, m2, x),
        b != x,
        m2.dom().contains(b),
        m2[b].use_count >= 2,
    ensures
        released(lowered(m, b), lowered(m2, b), x),
{
    let n = lowered(m, b);
    let n2 = lowered(m2, b);
    assert forall|y: usize| #[trigger] n.dom().contains(y) implies released_at(n, n2, x, y) by {
        lemma_released_at(m, m2, x, y);
        if m[y].pred is Some {
            lemma_present(m2, m[y].pred->0);
            lemma_present(n2, m[y].pred->0);
        }
    }
    reveal(released);
}

/// Giving up a handle to a block that has other references left only lowers
/// its counter.
pub proof fn lemma_released_counted<V>(m: Map<usize, NodeView<V>>, x: usize)
    requires
        chain_wf(m),
        m.dom().contains(x),
        m[x].use_count >= 2,
    ensures
        released(m, lowered(m, x), x),
{
    let m2 = lowered(m, x);
    assert forall|y: usize| #[trigger] m.dom().contains(y) implies released_at(m, m2, x, y) by {
        if y != x && m[y].pred is Some {
            lemma_present(m, m[y].pred->0);
            lemma_present(m2, m[y].pred->0);
        }
    }
    reveal(released);
}

/// One slot of the store.
pub struct Node<B> {
    use_count: usize,
    next: Option<usize>,
    pred: Ghost<Option<usize>>,
    block: B,
}

impl<B: View> Node<B> {
    pub closed spec fn view(&self) -> NodeView<B::V> {
        NodeView {
            use_count: self.use_count as nat,
            next: self.next,
            pred: self.pred@,
            block: self.block@,
        }
    }
}

/// A store of blocks of type `B`.
pub struct BlockList<B> {
    slots: Vec<Option<Node<B>>>,
    free: Vec<usize>,
    live: usize,
}

impl<B: View> View for BlockList<B> {
    type V = Map<usize, NodeView<B::V>>;

    /// The blocks in the store, by slot index.
    closed spec fn view(&self) -> Map<usize, NodeView<B::V>> {
        Map::new(
            |i: usize| i < self.slots.len() && self.slots[i as int] is Some,
            |i: usize| self.slots[i as int]->0.view(),
        )
    }
}

impl<B: View> BlockList<B> {
    /// The free list names exactly the empty slots, each once, and `live`
    /// counts the others.
    pub closed spec fn inv(&self) -> bool {
        &&& self@.dom().finite()
        &&& self.live == self@.dom().len()
        &&& self.live + self.free.len() == self.slots.len()
        &&& forall|k: int|
            0 <= k < self.free.len() ==> (#[trigger] self.free[k]) < self.slots.len()
                && self.slots[self.free[k] as int] is None
        &&& forall|j: int, k: int|
            0 <= j < k < self.free.len() ==> self.free[j] != self.free[k]
        &&& forall|i: int|
            0 <= i < self.slots.len() && (#[trigger] self.slots[i]) is None ==> exists|k: int|
                0 <= k < self.free.len() && self.free[k] == i
    }

    /// The store is consistent.
    pub open spec fn wf(&self) -> bool {
        self.inv() && chain_wf(self@)
    }

    /// `this` names a block of the store.
    pub open spec fn contains(&self, this: usize) -> bool {
        self@.dom().contains(this)
    }

    /// An empty store.
    pub fn new() -> (r: Self)
        ensures
            r.wf(),
            r@ == Map::<usize, NodeView<B::V>>::empty(),
    {
        let r = BlockList { slots: Vec::new(), free: Vec::new(), live: 0 };
        assert(r@ =~= Map::<usize, NodeView<B::V>>::empty());
        r
    }

    /// Puts `block` into the store, with `counter` references to it and no
    /// successor, and returns the slot it got.
    pub fn insert(&mut self, block: B, counter: usize) -> (this: usize)
        requires
            old(self).wf(),
            counter >= 1,
        ensures
            final(self).wf(),
            !old(self).contains(this),
            final(self)@ == old(self)@.insert(
                this,
                NodeView { use_count: counter as nat, next: None, pred: None, block: block@ },
            ),
    {
        let node = Node { use_count: counter, next: None, pred: Ghost(None), block };
        let ghost before = *self;
        let this = match self.free.pop() {
            Some(i) => {
                self.slots[i] = Some(node);
                i
            },
            None => {
                self.slots.push(Some(node));
                self.slots.len() - 1
            },
        };
        self.live = self.live + 1;
        proof {
            let after = before@.insert(
                this,
                NodeView { use_count: counter as nat, next: None, pred: None, block: block@ },
            );
            assert(self@ =~= after);
            assert forall|i: int|
                0 <= i < self.slots.len() && (#[trigger] self.slots[i]) is None implies exists|
                k: int,
            |
                0 <= k < self.free.len() && self.free[k] == i by {
                let k = choose|k: int| 0 <= k < before.free.len() && before.free[k] == i;
                assert(self.free[k] == i);
            }
            assert forall|x: usize| #[trigger] after.dom().contains(x) implies node_wf(after, x) by {
                if x != this {
                    if before@[x].next is Some {
                        lemma_present(before@, before@[x].next->0);
                        lemma_present(after, before@[x].next->0);
                    }
                    if before@[x].pred is Some {
                        lemma_present(before@, before@[x].pred->0);
                        lemma_present(after, before@[x].pred->0);
                    }
                }
            }
        }
        this
    }

    /// The block in slot `this`.
    pub fn get(&self, this: usize) -> (r: &B)
        requires
            self.contains(this),
        ensures
            r@ == self@[this].block,
    {
        match &self.slots[this] {
            Some(node) => &node.block,
            None => vstd::pervasive::unreached(),
        }
    }

    /// The block in slot `this`, to be changed in place.
    pub fn get_mut(&mut self, this: usize) -> (r: &mut B)
        requires
            old(self).wf(),
            old(self).contains(this),
        ensures
            r@ == old(self)@[this].block,
            final(self).wf(),
            final(self)@ == old(self)@.insert(
                this,
                NodeView { block: final(r)@, ..old(self)@[this] },
            ),
    {
        let ghost before = *self;
        let ghost end = *final(self);
        let r = match &mut self.slots[this] {
            Some(node) => &mut node.block,
            None => vstd::pervasive::unreached(),
        };
        proof {
            let after = before@.insert(this, NodeView { block: final(r)@, ..before@[this] });
            assert(end@ =~= after);
            lemma_same_links(before@, after);
        }
        r
    }

    /// Number of references to the block in slot `this`.
    pub fn use_count(&self, this: usize) -> (r: usize)
        requires
            self.contains(this),
        ensures
            r == self@[this].use_count,
    {
        match &self.slots[this] {
            Some(node) => node.use_count,
            None => vstd::pervasive::unreached(),
        }
    }

    /// The successor of the block in slot `this`, if one was linked. No
    /// reference is taken.
    pub fn load_next(&self, this: usize) -> (r: Option<usize>)
        requires
            self.contains(this),
        ensures
            r == self@[this].next,
    {
        match &self.slots[this] {
            Some(node) => node.next,
            None => vstd::pervasive::unreached(),
        }
    }

    /// Counts one more reference to the block in slot `this`.
    pub fn inc_use_count(&mut self, this: usize)
        requires
            old(self).wf(),
            old(self).contains(this),
            old(self)@[this].use_count < usize::MAX,
        ensures
            final(self).wf(),
            final(self)@ == acquired(old(self)@, this),
    {
        let ghost before = *self;
        match &mut self.slots[this] {
            Some(node) => {
                node.use_count = node.use_count + 1;
            },
            None => {},
        }
        proof {
            let after = before@.insert(
                this,
                NodeView { use_count: before@[this].use_count + 1, ..before@[this] },
            );
            assert(self@ =~= after);
            lemma_same_links(before@, after);
        }
    }

    /// Links `next` behind `this`. One counted reference to `next`, which the
    /// caller held, becomes the link.
    pub fn store_next(&mut self, this: usize, next: usize)
        requires
            old(self).wf(),
            old(self).contains(this),
            old(self).contains(next),
            this != next,
            old(self)@[this].next is None,
            old(self)@[next].pred is None,
        ensures
            final(self).wf(),
            final(self)@ == linked(old(self)@, this, next),
    {
        let ghost before = *self;
        match &mut self.slots[this] {
            Some(node) => {
                node.next = Some(next);
            },
            None => {},
        }
        match &mut self.slots[next] {
            Some(node) => {
                node.pred = Ghost(Some(this));
            },
            None => {},
        }
        proof {
            let after = before@.insert(
                this,
                NodeView { next: Some(next), ..before@[this] },
            ).insert(next, NodeView { pred: Some(this), ..before@[next] });
            assert(self@ =~= after);
            lemma_present(after, next);
            lemma_present(after, this);
            assert forall|x: usize| #[trigger] after.dom().contains(x) implies node_wf(after, x) by {
                if before@[x].next is Some {
                    let c = before@[x].next->0;
                    lemma_present(before@, c);
                    lemma_present(after, c);
                }
                if before@[x].pred is Some {
                    let q = before@[x].pred->0;
                    lemma_present(before@, q);
                    lemma_present(after, q);
                }
            }
        }
    }

    /// Unlinks the successor of `this` and hands it out. The link becomes a
    /// counted reference that the caller holds.
    pub fn take_next(&mut self, this: usize) -> (r: Option<usize>)
        requires
            old(self).wf(),
            old(self).contains(this),
        ensures
            final(self).wf(),
            r == old(self)@[this].next,
            final(self)@ == match r {
                Some(c) => unlinked(old(self)@, this, c),
                None => old(self)@,
            },
    {
        let ghost before = *self;
        let r = match &mut self.slots[this] {
            Some(node) => node.next.take(),
            None => None,
        };
        match r {
            Some(c) => {
                proof {
                    lemma_present(before@, c);
                }
                match &mut self.slots[c] {
                    Some(node) => {
                        node.pred = Ghost(None);
                    },
                    None => {},
                }
                proof {
                    let after = before@.insert(
                        this,
                        NodeView { next: None, ..before@[this] },
                    ).insert(c, NodeView { pred: None, ..before@[c] });
                    assert(self@ =~= after);
                    assert forall|x: usize| #[trigger] after.dom().contains(x) implies node_wf(
                        after,
                        x,
                    ) by {
                        if before@[x].next is Some {
                            let d = before@[x].next->0;
                            lemma_present(before@, d);
                            lemma_present(after, d);
                        }
                        if before@[x].pred is Some {
                            let q = before@[x].pred->0;
                            lemma_present(before@, q);
                            lemma_present(after, q);
                        }
                    }
                }
            },
            None => {
                proof {
                    assert(self@ =~= before@);
                }
            },
        }
        r
    }

    /// The successor of the block in slot `this`, with one more reference
    /// counted for the caller, if one was linked.
    pub fn try_load_next(&mut self, this: usize) -> (r: Option<usize>)
        requires
            old(self).wf(),
            old(self).contains(this),
            old(self)@[this].next matches Some(c) ==> old(self)@[c].use_count < usize::MAX,
        ensures
            final(self).wf(),
            r == old(self)@[this].next,
            r matches Some(c) ==> old(self).contains(c),
            final(self)@ == match r {
                Some(c) => acquired(old(self)@, c),
                None => old(self)@,
            },
    {
        let next = self.load_next(this);
        match next {
            Some(c) => {
                proof {
                    lemma_present(self@, c);
                }
                self.inc_use_count(c);
                Some(c)
            },
            None => None,
        }
    }

    /// Takes the block in slot `this`, which nothing references any more but the
    /// caller, out of the store and drops what it holds. Returns its successor,
    /// which thereby lost the link and is owed one decrement.
    fn drop_this(&mut self, this: usize) -> (r: Option<usize>)
        requires
            old(self).wf(),
            old(self).contains(this),
            old(self)@[this].use_count == 1,
            old(self)@[this].pred is None,
        ensures
            final(self).wf(),
            r == old(self)@[this].next,
            r matches Some(c) ==> old(self).contains(c) && c != this && old(self)@[c].pred == Some(
                this,
            ),
            final(self)@ == match r {
                Some(c) => old(self)@.remove(this).insert(
                    c,
                    NodeView { pred: None, ..old(self)@[c] },
                ),
                None => old(self)@.remove(this),
            },
    {
        let ghost before = *self;
        let next = self.load_next(this);
        self.slots[this] = None;
        self.free.push(this);
        self.live = self.live - 1;
        let ghost after = match next {
            Some(c) => before@.remove(this).insert(c, NodeView { pred: None, ..before@[c] }),
            None => before@.remove(this),
        };
        match next {
            Some(c) => {
                proof {
                    lemma_present(before@, c);
                }
                match &mut self.slots[c] {
                    Some(node) => {
                        node.pred = Ghost(None);
                    },
                    None => {},
                }
                proof {
                    assert(self@ =~= after);
                }
            },
            None => {
                proof {
                    assert(self@ =~= after);
                }
            },
        }
        proof {
            assert forall|i: int|
                0 <= i < self.slots.len() && (#[trigger] self.slots[i]) is None implies exists|
                k: int,
            |
                0 <= k < self.free.len() && self.free[k] == i by {
                if i == this {
                    assert(self.free[self.free.len() - 1] == i);
                } else {
                    let k = choose|k: int| 0 <= k < before.free.len() && before.free[k] == i;
                    assert(self.free[k] == i);
                }
            }
            assert forall|x: usize| #[trigger] after.dom().contains(x) implies node_wf(after, x) by {
                if before@[x].next is Some {
                    let d = before@[x].next->0;
                    lemma_present(before@, d);
                    lemma_present(after, d);
                }
                if before@[x].pred is Some {
                    let q = before@[x].pred->0;
                    lemma_present(before@, q);
                    lemma_present(after, q);
                }
            }
        }
        next
    }

    /// Gives up one reference to the block in slot `this`, which the caller
    /// held. A block left without references leaves the store and gives up its
    /// link to its successor in turn, one block after the other.
    pub fn dec_use_count(&mut self, this: usize)
        requires
            old(self).wf(),
            old(self).contains(this),
            old(self)@[this].external() >= 1,
        ensures
            final(self).wf(),
            released(old(self)@, final(self)@, this),
    {
        let ghost before = self@;
        let mut cur = this;
        loop
            invariant_except_break
                self@.dom().contains(cur),
                self@[cur].external() >= 1,
                cur != this ==> !self@.dom().contains(this),
                given_up(before, self@, this, cur),
                self@[cur] == (NodeView {
                    pred: if cur == this {
                        before[cur].pred
                    } else {
                        None
                    },
                    ..before[cur]
                }),
                forall|b: usize| #[trigger]
                    before.dom().contains(b) && b != cur ==> released_at(before, self@, this, b),
            invariant
                self.wf(),
                chain_wf(before),
                before.dom().contains(this),
                forall|b: usize| #[trigger] self@.dom().contains(b) ==> before.dom().contains(b),
            ensures
                self.wf(),
                released(before, self@, this),
            decreases self@.dom().len(),
        {
            let ghost prev = self@;
            if self.use_count(cur) > 1 {
                match &mut self.slots[cur] {
                    Some(node) => {
                        node.use_count = node.use_count - 1;
                    },
                    None => {},
                }
                proof {
                    let after = prev.insert(
                        cur,
                        NodeView { use_count: (prev[cur].use_count - 1) as nat, ..prev[cur] },
                    );
                    assert(self@ =~= after);
                    lemma_same_links(prev, after);
                    assert forall|b: usize| #[trigger] before.dom().contains(b) implies released_at(
                        before,
                        self@,
                        this,
                        b,
                    ) by {
                        if before[b].pred is Some {
                            lemma_present(prev, before[b].pred->0);
                            lemma_present(self@, before[b].pred->0);
                        }
                    }
                    reveal(released);
                }
                break ;
            }
            let next = self.drop_this(cur);
            proof {
                assert forall|b: usize| #[trigger]
                    before.dom().contains(b) && next != Some(b) implies released_at(
                    before,
                    self@,
                    this,
                    b,
                ) by {
                    if before[b].pred is Some {
                        let q = before[b].pred->0;
                        lemma_present(prev, q);
                        lemma_present(self@, q);
                    }
                }
            }
            match next {
                Some(c) => {
                    proof {
                        lemma_present(self@, cur);
                    }
                    cur = c;
                },
                None => {
                    proof {
                        reveal(released);
                    }
                    break ;
                },
            }
        }
    }

    /// Number of blocks in the store.
    pub fn live_blocks(&self) -> (r: usize)
        requires
            self.wf(),
        ensures
            r == self@.dom().len(),
    {
        self.live
    }

    /// Whether `this` names a block of the store.
    pub fn is_live(&self, this: usize) -> (r: bool)
        ensures
            r == self.contains(this),
    {
        this < self.slots.len() && self.slots[this].is_some()
    }
}

} // verus!
