//! What holds of the blocks of a unicast queue.
//!
//! The blocks from the read block to the write block form a chain. The read
//! block is the oldest block in which a slot can still be claimed; every
//! block before it has all its slots claimed, is linked to no other block and
//! stays only for as long as a reader holds it.
use crate::block_list::{
    acquired, chain_wf, chained, lemma_present, lemma_released_at, lemma_same_links, lowered,
    node_wf, released, unlinked, with_block, NodeView,
};
use crate::unicast::block::{BlockView, BLOCK_SIZE};
use vstd::prelude::*;

verus! {

broadcast use {vstd::set::group_set_axioms, vstd::map::group_map_axioms};

/// The blocks of a unicast queue, by slot.
pub type Store<T> = Map<usize, NodeView<BlockView<T>>>;

/// Every slot of `v` that nobody has claimed holds the message that went into
/// the queue at the position of the slot. A claimed slot is its reader's.
pub open spec fn slots_ok<T>(v: BlockView<T>, history: Seq<T>) -> bool {
    v.mem matches Some(s) ==> forall|i: int|
        v.read_counter <= i < s.len() ==> (#[trigger] s[i]) == Some(history[v.base + i])
}

/// Block `b` is in its place: before the read block with all slots claimed and
/// no link, or in the chain from the read block to the write block.
pub open spec fn block_ok<T>(m: Store<T>, rb: usize, wb: usize, history: Seq<T>, b: usize) -> bool {
    let v = m[b].block;
    &&& v.wf()
    &&& slots_ok(v, history)
    &&& v.base + v.write_counter <= history.len()
    &&& v.base <= m[wb].block.base
    &&& (v.base == m[rb].block.base ==> b == rb)
    &&& (v.base < m[rb].block.base ==> v.read_counter == BLOCK_SIZE && m[b].next is None)
    &&& (v.base > m[rb].block.base ==> v.read_counter == 0 && m[b].pred is Some)
    &&& (v.base >= m[rb].block.base && b != wb ==> m[b].next is Some)
    &&& (m[b].next matches Some(c) ==> v.write_counter == BLOCK_SIZE && m[c].block.base == v.base
        + BLOCK_SIZE)
}

/// Number of handles to block `b` that readers hold: the references to it
/// other than the link from its predecessor and the queue's own handles to its
/// read block and its write block.
pub open spec fn holders<T>(m: Store<T>, rb: usize, wb: usize, b: usize) -> int {
    m[b].external() - if b == rb {
        1int
    } else {
        0int
    } - if b == wb {
        1int
    } else {
        0int
    }
}

/// The blocks in `m` are those of a queue with read block `rb` and write block
/// `wb`, into which the messages `history` went, in that order.
#[verifier::opaque]
pub open spec fn list_wf<T>(m: Store<T>, rb: usize, wb: usize, history: Seq<T>) -> bool {
    &&& chain_wf(m)
    &&& m.dom().contains(rb)
    &&& m.dom().contains(wb)
    &&& m[wb].next is None
    &&& history.len() == m[wb].block.base + m[wb].block.write_counter
    &&& holders(m, rb, wb, rb) >= 0
    &&& holders(m, rb, wb, wb) >= 0
    &&& forall|b: usize| #[trigger] m.dom().contains(b) ==> block_ok(m, rb, wb, history, b)
}

/// Number of messages that readers have claimed.
pub open spec fn claimed<T>(m: Store<T>, rb: usize) -> nat {
    m[rb].block.base + m[rb].block.read_counter as nat
}

/// A reader on block `block`, which knows of `write_counter` written slots
/// there, is in order: it holds a handle to the block, which is the read block
/// or one before it.
pub open spec fn reader_wf<T>(m: Store<T>, rb: usize, wb: usize, block: usize, write_counter: usize) -> bool {
    &&& m.dom().contains(block)
    &&& holders(m, rb, wb, block) >= 1
    &&& write_counter <= m[block].block.write_counter
    &&& m[block].block.base <= m[rb].block.base
}

/// The store of a new queue: one empty block, which the queue holds as its
/// read block and as its write block.
pub open spec fn first<T>(t: usize) -> Store<T> {
    Map::<usize, NodeView<BlockView<T>>>::empty().insert(
        t,
        NodeView { use_count: 2, next: None, pred: None, block: BlockView::empty(0) },
    )
}

/// The blocks of a new queue are in order.
pub proof fn lemma_new<T>(t: usize)
    ensures
        list_wf(first::<T>(t), t, t, Seq::<T>::empty()),
{
    reveal(list_wf);
    let v = BlockView::<T>::empty(0);
    assert(v.emptied() =~= Set::<int>::empty());
}

/// What the invariant says of the read block and the write block.
pub proof fn lemma_ends<T>(m: Store<T>, rb: usize, wb: usize, history: Seq<T>)
    requires
        list_wf(m, rb, wb, history),
    ensures
        chain_wf(m),
        m.dom().contains(rb),
        m.dom().contains(wb),
        m[wb].next is None,
        history.len() == m[wb].block.base + m[wb].block.write_counter,
        holders(m, rb, wb, rb) >= 0,
        holders(m, rb, wb, wb) >= 0,
        block_ok(m, rb, wb, history, rb),
        block_ok(m, rb, wb, history, wb),
        claimed(m, rb) <= history.len(),
        m[rb].pred is None,
{
    reveal(list_wf);
    if m[rb].pred is Some {
        let p = m[rb].pred->0;
        lemma_present(m, p);
    }
}

/// What the invariant says of one block.
pub proof fn lemma_block<T>(m: Store<T>, rb: usize, wb: usize, history: Seq<T>, b: usize)
    requires
        list_wf(m, rb, wb, history),
        m.dom().contains(b),
    ensures
        block_ok(m, rb, wb, history, b),
        node_wf(m, b),
        holders(m, rb, wb, b) >= 0,
        m[b].block.base < m[rb].block.base ==> m[b].pred is None && holders(m, rb, wb, b) >= 1,
        m[b].next matches Some(c) ==> m.dom().contains(c) && c != b && m[c].pred == Some(b) && c
            != rb,
        m[b].pred matches Some(p) ==> m.dom().contains(p) && p != b && m[p].next == Some(b),
{
    reveal(list_wf);
    if m[b].next is Some {
        let c = m[b].next->0;
        lemma_present(m, c);
    }
    if m[b].pred is Some {
        let p = m[b].pred->0;
        lemma_present(m, p);
    }
}

/// Counting one more handle to a block keeps the queue in order, and adds one
/// holder to that block and to no other.
pub proof fn lemma_acquire<T>(m: Store<T>, rb: usize, wb: usize, history: Seq<T>, b: usize)
    requires
        list_wf(m, rb, wb, history),
        m.dom().contains(b),
    ensures
        list_wf(acquired(m, b), rb, wb, history),
        holders(acquired(m, b), rb, wb, b) == holders(m, rb, wb, b) + 1,
        forall|x: usize|
            x != b ==> #[trigger] holders(acquired(m, b), rb, wb, x) == holders(m, rb, wb, x),
        acquired(m, b).dom() == m.dom(),
        forall|x: usize| #[trigger]
            acquired(m, b).dom().contains(x) ==> m.dom().contains(x) && acquired(m, b)[x].block
                == m[x].block && acquired(m, b)[x].next == m[x].next,
{
    let m2 = acquired(m, b);
    lemma_ends(m, rb, wb, history);
    lemma_same_links(m, m2);
    reveal(list_wf);
}

/// Giving up a handle that a reader held keeps the queue in order: the blocks
/// of the chain stay, a block that others hold stays with the same holders,
/// and the block of the handle stays if another holder is left.
pub proof fn lemma_release<T>(
    m: Store<T>,
    m2: Store<T>,
    rb: usize,
    wb: usize,
    history: Seq<T>,
    x: usize,
)
    requires
        list_wf(m, rb, wb, history),
        m.dom().contains(x),
        holders(m, rb, wb, x) >= 1,
        released(m, m2, x),
        chain_wf(m2),
    ensures
        list_wf(m2, rb, wb, history),
        forall|b: usize| #[trigger]
            m2.dom().contains(b) ==> m.dom().contains(b) && m2[b].block == m[b].block && m2[b].next
                == m[b].next && m2[b].pred == m[b].pred,
        forall|b: usize| #[trigger]
            m.dom().contains(b) && b != x ==> m2.dom().contains(b) && holders(m2, rb, wb, b)
                == holders(m, rb, wb, b),
        m2.dom().contains(x) <==> (m[x].use_count >= 2),
        m[x].block.base >= m[rb].block.base ==> m2.dom().contains(x),
        m2.dom().contains(x) ==> holders(m2, rb, wb, x) == holders(m, rb, wb, x) - 1,
{
    lemma_ends(m, rb, wb, history);
    lemma_block(m, rb, wb, history, x);
    lemma_released_at(m, m2, x, x);
    // The block of the handle has no successor that depends on it alone: if
    // it goes, it was a block before the read block.
    assert forall|b: usize| #[trigger] m.dom().contains(b) && b != x implies m2.dom().contains(b)
        && m2[b] == m[b] by {
        lemma_released_at(m, m2, x, b);
        lemma_block(m, rb, wb, history, b);
        if m[b].pred is Some {
            let p = m[b].pred->0;
            lemma_present(m2, p);
            if p == x {
                // `x` has a successor, so it is in the chain and stays.
            } else {
                lemma_release_stays(m, m2, rb, wb, history, x, p, m[p].block.base);
            }
        }
    }
    assert forall|b: usize| #[trigger] m2.dom().contains(b) implies m.dom().contains(b)
        && m2[b].block == m[b].block && m2[b].next == m[b].next && m2[b].pred == m[b].pred by {
        lemma_released_at(m, m2, x, b);
    }
    assert forall|b: usize| #[trigger] m2.dom().contains(b) implies block_ok(
        m2,
        rb,
        wb,
        history,
        b,
    ) by {
        lemma_block(m, rb, wb, history, b);
    }
    reveal(list_wf);
}

/// A block other than the one whose handle was given up stays, whatever its
/// position `base`.
proof fn lemma_release_stays<T>(
    m: Store<T>,
    m2: Store<T>,
    rb: usize,
    wb: usize,
    history: Seq<T>,
    x: usize,
    b: usize,
    base: nat,
)
    requires
        list_wf(m, rb, wb, history),
        m.dom().contains(x),
        holders(m, rb, wb, x) >= 1,
        released(m, m2, x),
        m.dom().contains(b),
        b != x,
        base == m[b].block.base,
    ensures
        m2.dom().contains(b),
        m2[b] == m[b],
    decreases base,
{
    lemma_block(m, rb, wb, history, b);
    lemma_released_at(m, m2, x, b);
    lemma_released_at(m, m2, x, x);
    if m[b].pred is Some {
        let p = m[b].pred->0;
        lemma_present(m2, p);
        lemma_block(m, rb, wb, history, p);
        if p != x {
            lemma_release_stays(m, m2, rb, wb, history, x, p, m[p].block.base);
        }
    }
}

/// A change of what a block holds that moves none of its counters but those
/// of the emptied slots, and puts no message in, keeps the queue in order.
pub proof fn lemma_update<T>(
    m: Store<T>,
    rb: usize,
    wb: usize,
    history: Seq<T>,
    b: usize,
    block: BlockView<T>,
)
    requires
        list_wf(m, rb, wb, history),
        m.dom().contains(b),
        block.wf(),
        block.base == m[b].block.base,
        block.write_counter == m[b].block.write_counter,
        block.read_counter == m[b].block.read_counter,
        slots_ok(block, history),
    ensures
        list_wf(with_block(m, b, block), rb, wb, history),
        with_block(m, b, block).dom() == m.dom(),
        claimed(with_block(m, b, block), rb) == claimed(m, rb),
        forall|x: usize| #[trigger]
            holders(with_block(m, b, block), rb, wb, x) == holders(m, rb, wb, x),
        forall|x: usize| x != b ==> #[trigger] with_block(m, b, block)[x].block == m[x].block,
{
    let m2 = with_block(m, b, block);
    lemma_ends(m, rb, wb, history);
    lemma_same_links(m, m2);
    reveal(list_wf);
}

/// Claiming the next slot of the read block keeps the queue in order, and
/// the claimed slot holds the message at the position of the claim.
pub proof fn lemma_claim<T>(m: Store<T>, rb: usize, wb: usize, history: Seq<T>)
    requires
        list_wf(m, rb, wb, history),
        m[rb].block.read_counter < m[rb].block.write_counter,
    ensures
        list_wf(with_block(m, rb, m[rb].block.claimed()), rb, wb, history),
        with_block(m, rb, m[rb].block.claimed()).dom() == m.dom(),
        claimed(with_block(m, rb, m[rb].block.claimed()), rb) == claimed(m, rb) + 1,
        claimed(m, rb) < history.len(),
        m[rb].block.claimed().claimed_at(m[rb].block.read_counter as int),
        m[rb].block.mem->0[m[rb].block.read_counter as int] == Some(history[claimed(m, rb) as int]),
        forall|x: usize| #[trigger]
            holders(with_block(m, rb, m[rb].block.claimed()), rb, wb, x) == holders(m, rb, wb, x),
        forall|x: usize|
            x != rb ==> #[trigger] with_block(m, rb, m[rb].block.claimed())[x].block == m[x].block,
{
    let block = m[rb].block.claimed();
    let m2 = with_block(m, rb, block);
    lemma_ends(m, rb, wb, history);
    lemma_same_links(m, m2);
    reveal(list_wf);
}

/// Writing one more message into the write block keeps the queue in order,
/// with the message at the end of the history.
pub proof fn lemma_write<T>(m: Store<T>, rb: usize, wb: usize, history: Seq<T>, value: T)
    requires
        list_wf(m, rb, wb, history),
        m[wb].block.write_counter < BLOCK_SIZE,
    ensures
        list_wf(with_block(m, wb, m[wb].block.written(value)), rb, wb, history.push(value)),
        with_block(m, wb, m[wb].block.written(value)).dom() == m.dom(),
        claimed(with_block(m, wb, m[wb].block.written(value)), rb) == claimed(m, rb),
        forall|x: usize| #[trigger]
            holders(with_block(m, wb, m[wb].block.written(value)), rb, wb, x) == holders(
                m,
                rb,
                wb,
                x,
            ),
        forall|x: usize|
            x != wb ==> #[trigger] with_block(m, wb, m[wb].block.written(value))[x].block
                == m[x].block,
{
    let block = m[wb].block.written(value);
    let m2 = with_block(m, wb, block);
    lemma_ends(m, rb, wb, history);
    m[wb].block.lemma_written(value);
    lemma_same_links(m, m2);
    reveal(list_wf);
}

/// Position of the block that follows block `t`.
pub open spec fn next_base<T>(m: Store<T>, t: usize) -> nat {
    m[t].block.base + BLOCK_SIZE as nat
}

/// Chaining a new, empty block behind the full write block keeps the queue
/// in order, with the new block as the write block. The handle that the queue
/// had to the old write block is now one that waits to be given up.
pub proof fn lemma_chain<T>(m: Store<T>, rb: usize, wb: usize, history: Seq<T>, c: usize)
    requires
        list_wf(m, rb, wb, history),
        m[wb].block.write_counter == BLOCK_SIZE,
        !m.dom().contains(c),
    ensures
        list_wf(chained(m, wb, c, 0, BlockView::empty(next_base(m, wb))), rb, c, history),
        claimed(chained(m, wb, c, 0, BlockView::empty(next_base(m, wb))), rb) == claimed(m, rb),
        holders(chained(m, wb, c, 0, BlockView::empty(next_base(m, wb))), rb, c, wb) == holders(
            m,
            rb,
            wb,
            wb,
        ) + 1,
        holders(chained(m, wb, c, 0, BlockView::empty(next_base(m, wb))), rb, c, c) == 0,
        forall|b: usize|
            b != wb && b != c ==> #[trigger] holders(
                chained(m, wb, c, 0, BlockView::empty(next_base(m, wb))),
                rb,
                c,
                b,
            ) == holders(m, rb, wb, b),
        forall|b: usize|
            b != c ==> #[trigger] chained(
                m,
                wb,
                c,
                0,
                BlockView::empty(next_base(m, wb)),
            )[b].block == m[b].block,
        forall|b: usize| #[trigger]
            m.dom().contains(b) ==> chained(
                m,
                wb,
                c,
                0,
                BlockView::empty(next_base(m, wb)),
            ).dom().contains(b),
{
    let v = BlockView::<T>::empty(next_base(m, wb));
    let m2 = chained(m, wb, c, 0, v);
    lemma_ends(m, rb, wb, history);
    assert(v.emptied() =~= Set::<int>::empty());
    lemma_present(m2, c);
    lemma_present(m2, wb);
    assert forall|x: usize| #[trigger] m2.dom().contains(x) implies node_wf(m2, x) && block_ok(
        m2,
        rb,
        c,
        history,
        x,
    ) by {
        if x != c {
            lemma_block(m, rb, wb, history, x);
            if m[x].next is Some {
                lemma_present(m2, m[x].next->0);
            }
            if m[x].pred is Some {
                lemma_present(m2, m[x].pred->0);
            }
        }
    }
    reveal(list_wf);
}

/// Moving the read block on, from an exhausted read block to its successor,
/// keeps the queue in order: the link between the two is taken out, the
/// successor gets the queue's handle, and the handle that the queue had to the
/// old read block and the one that stood for the link wait to be given up.
pub proof fn lemma_advance<T>(m: Store<T>, rb: usize, wb: usize, history: Seq<T>, c: usize)
    requires
        list_wf(m, rb, wb, history),
        m[rb].block.read_counter == BLOCK_SIZE,
        m[rb].next == Some(c),
    ensures
        m.dom().contains(c),
        c != rb,
        list_wf(acquired(unlinked(m, rb, c), c), c, wb, history),
        claimed(acquired(unlinked(m, rb, c), c), c) == claimed(m, rb),
        acquired(unlinked(m, rb, c), c).dom() == m.dom(),
        holders(acquired(unlinked(m, rb, c), c), c, wb, rb) == holders(m, rb, wb, rb) + 1,
        holders(acquired(unlinked(m, rb, c), c), c, wb, c) == holders(m, rb, wb, c) + 1,
        forall|b: usize|
            b != rb && b != c ==> #[trigger] holders(acquired(unlinked(m, rb, c), c), c, wb, b)
                == holders(m, rb, wb, b),
        forall|b: usize| #[trigger] acquired(unlinked(m, rb, c), c)[b].block == m[b].block,
{
    let m1 = unlinked(m, rb, c);
    let m2 = acquired(m1, c);
    lemma_ends(m, rb, wb, history);
    lemma_block(m, rb, wb, history, rb);
    assert forall|x: usize| #[trigger] m2.dom().contains(x) implies node_wf(m2, x) && block_ok(
        m2,
        c,
        wb,
        history,
        x,
    ) by {
        lemma_block(m, rb, wb, history, x);
        if m[x].next is Some {
            lemma_present(m2, m[x].next->0);
        }
        if m[x].pred is Some {
            let q = m[x].pred->0;
            lemma_present(m2, q);
            lemma_block(m, rb, wb, history, q);
        }
    }
    reveal(list_wf);
}

/// The store after a handle to block `x` was given up: the block stays with
/// its counter one lower, or goes if the handle was the last reference.
pub open spec fn dropped<T>(m: Store<T>, x: usize) -> Store<T> {
    if m[x].use_count >= 2 {
        lowered(m, x)
    } else {
        m.remove(x)
    }
}

/// Giving up a handle that a reader held changes the block of the handle and
/// no other: in a unicast queue no block is kept by its predecessor alone.
pub proof fn lemma_dropped<T>(
    m: Store<T>,
    m2: Store<T>,
    rb: usize,
    wb: usize,
    history: Seq<T>,
    x: usize,
)
    requires
        list_wf(m, rb, wb, history),
        m.dom().contains(x),
        holders(m, rb, wb, x) >= 1,
        released(m, m2, x),
        chain_wf(m2),
    ensures
        m2 == dropped(m, x),
{
    lemma_release(m, m2, rb, wb, history, x);
}

/// The store after the reader on block `b` had the block count `k` slots
/// that the reader emptied.
pub open spec fn flushed<T>(m: Store<T>, b: usize, k: usize) -> Store<T> {
    if k > 0 {
        with_block(m, b, m[b].block.settled(k))
    } else {
        m
    }
}

/// Where a reader that leaves its block goes, and what that makes of the
/// queue.
pub struct Switch<T> {
    /// The blocks after the move.
    pub m: Store<T>,
    /// The read block after the move.
    pub rb: usize,
    /// The block that the reader is on after the move; `None` if there is no
    /// block to go to, and nothing changed.
    pub block: Option<usize>,
}

/// A reader on block `b`, all of whose slots are claimed, leaves it, after
/// having it count the `k` slots that the reader emptied.
///
/// Where `b` is a block before the read block, the reader goes to the read
/// block. Where it is the read block, the read block moves on to its
/// successor, of which the queue takes a handle while it gives up the one to
/// `b`, and the reader goes there. In both cases the reader gives up its
/// handle to `b`. Where `b` is the read block and has no successor, nothing
/// changes.
pub open spec fn switched<T>(m: Store<T>, rb: usize, b: usize, k: usize) -> Switch<T> {
    if b != rb {
        Switch { m: dropped(flushed(acquired(m, rb), b, k), b), rb, block: Some(rb) }
    } else {
        match m[rb].next {
            Some(c) => Switch {
                m: dropped(flushed(dropped(acquired(unlinked(m, rb, c), c), rb), rb, k), rb),
                rb: c,
                block: Some(c),
            },
            None => Switch { m, rb, block: None },
        }
    }
}

/// The outcome of one attempt of a reader to claim a slot.
pub struct Step<T> {
    /// The blocks after the attempt.
    pub m: Store<T>,
    /// The read block after the attempt.
    pub rb: usize,
    /// The block that the reader is on after the attempt.
    pub block: usize,
    /// Number of written slots of that block that the reader knows of.
    pub write_counter: usize,
    /// Number of slots that the reader has emptied and not had counted.
    pub k: usize,
    /// The slot of `block` that the reader claimed, if there was one to
    /// claim.
    pub out: Option<usize>,
}

/// A reader on block `b`, which knows of `cached` written slots there, claims
/// the next slot of `b` if there is a written slot that nobody has claimed.
pub open spec fn claim_at<T>(m: Store<T>, rb: usize, b: usize, cached: usize, k: usize) -> Step<T> {
    let v = m[b].block;
    if v.read_counter < v.write_counter {
        Step {
            m: with_block(m, b, v.claimed()),
            rb,
            block: b,
            write_counter: if v.read_counter < cached {
                cached
            } else {
                v.write_counter
            },
            k,
            out: Some(v.read_counter),
        }
    } else {
        Step { m, rb, block: b, write_counter: cached, k, out: None }
    }
}

/// A reader on block `b` claims the next slot of the queue: of `b`, or, where
/// all slots of `b` are claimed, of the block it goes to as `switched` says.
/// It leaves a block at most `fuel` times.
pub open spec fn read_next<T>(
    m: Store<T>,
    rb: usize,
    b: usize,
    cached: usize,
    k: usize,
    fuel: nat,
) -> Step<T>
    decreases fuel,
{
    if m[b].block.read_counter < BLOCK_SIZE || fuel == 0 {
        claim_at(m, rb, b, cached, k)
    } else {
        let s = switched(m, rb, b, k);
        match s.block {
            None => Step { m, rb, block: b, write_counter: cached, k, out: None },
            Some(b1) => read_next(s.m, s.rb, b1, s.m[b1].block.write_counter, 0, (fuel - 1) as nat),
        }
    }
}

/// Having a block count slots that a reader emptied keeps the queue in order,
/// and touches no slot that still holds a message.
pub proof fn lemma_flushed<T>(m: Store<T>, rb: usize, wb: usize, history: Seq<T>, b: usize, k: usize)
    requires
        list_wf(m, rb, wb, history),
        m.dom().contains(b),
        k <= m[b].block.pending,
    ensures
        list_wf(flushed(m, b, k), rb, wb, history),
        flushed(m, b, k).dom() == m.dom(),
        claimed(flushed(m, b, k), rb) == claimed(m, rb),
        forall|x: usize| #[trigger]
            holders(flushed(m, b, k), rb, wb, x) == holders(m, rb, wb, x),
        forall|x: usize| x != b ==> #[trigger] flushed(m, b, k)[x] == m[x],
        flushed(m, b, k)[b].use_count == m[b].use_count,
        flushed(m, b, k)[b].next == m[b].next,
        flushed(m, b, k)[b].pred == m[b].pred,
        flushed(m, b, k)[b].block.base == m[b].block.base,
        flushed(m, b, k)[b].block.write_counter == m[b].block.write_counter,
        flushed(m, b, k)[b].block.read_counter == m[b].block.read_counter,
        flushed(m, b, k)[b].block.pending == m[b].block.pending - k,
        forall|i: int| #[trigger]
            m[b].block.claimed_at(i) ==> flushed(m, b, k)[b].block.claimed_at(i) && flushed(
                m,
                b,
                k,
            )[b].block.mem->0[i] == m[b].block.mem->0[i],
{
    lemma_block(m, rb, wb, history, b);
    let v = m[b].block;
    if k > 0 {
        let w = v.counted(k);
        if v.read_succ + k == BLOCK_SIZE {
            w.lemma_freed();
        }
        lemma_update(m, rb, wb, history, b, v.settled(k));
    }
}

/// Leaving a block keeps the queue in order. The reader holds the block it
/// went to, which is the read block, and no claim was made.
pub proof fn lemma_switched<T>(
    m: Store<T>,
    rb: usize,
    wb: usize,
    history: Seq<T>,
    b: usize,
    cached: usize,
    k: usize,
)
    requires
        list_wf(m, rb, wb, history),
        reader_wf(m, rb, wb, b, cached),
        m[b].block.read_counter == BLOCK_SIZE,
        k <= m[b].block.pending,
    ensures
        switched(m, rb, b, k).block is None <==> b == rb && m[rb].next is None,
        switched(m, rb, b, k).block is None ==> claimed(m, rb) == history.len(),
        switched(m, rb, b, k).block matches Some(b1) ==> {
            let s = switched(m, rb, b, k);
            &&& list_wf(s.m, s.rb, wb, history)
            &&& b1 == s.rb
            &&& b1 != b
            &&& m.dom().contains(b1)
            &&& reader_wf(s.m, s.rb, wb, b1, s.m[b1].block.write_counter)
            &&& claimed(s.m, s.rb) == claimed(m, rb)
            &&& (b == rb ==> s.m[b1].block.read_counter == 0)
            &&& m[b1].block.base > m[b].block.base
        },
{
    lemma_ends(m, rb, wb, history);
    lemma_block(m, rb, wb, history, b);
    if b != rb {
        let m1 = acquired(m, rb);
        lemma_acquire(m, rb, wb, history, rb);
        lemma_flushed(m1, rb, wb, history, b, k);
        let m2 = flushed(m1, b, k);
        lemma_dropped_wf(m2, rb, wb, history, b);
    } else {
        if m[rb].next is Some {
            let c = m[rb].next->0;
            lemma_advance(m, rb, wb, history, c);
            let m1 = acquired(unlinked(m, rb, c), c);
            lemma_dropped_wf(m1, c, wb, history, rb);
            let m2 = dropped(m1, rb);
            lemma_flushed(m2, c, wb, history, rb, k);
            let m3 = flushed(m2, rb, k);
            lemma_dropped_wf(m3, c, wb, history, rb);
        }
    }
}

/// Giving up a handle that a reader held keeps the queue in order, in the
/// functional form.
pub proof fn lemma_dropped_wf<T>(m: Store<T>, rb: usize, wb: usize, history: Seq<T>, x: usize)
    requires
        list_wf(m, rb, wb, history),
        m.dom().contains(x),
        holders(m, rb, wb, x) >= 1,
    ensures
        list_wf(dropped(m, x), rb, wb, history),
        claimed(dropped(m, x), rb) == claimed(m, rb),
        forall|b: usize| #[trigger]
            m.dom().contains(b) && b != x ==> dropped(m, x).dom().contains(b) && dropped(m, x)[b]
                == m[b],
        forall|b: usize| #[trigger] dropped(m, x).dom().contains(b) ==> m.dom().contains(b),
        dropped(m, x).dom().contains(x) <==> m[x].use_count >= 2,
        m[x].block.base >= m[rb].block.base ==> dropped(m, x).dom().contains(x),
        holders(m, rb, wb, x) >= 2 ==> dropped(m, x).dom().contains(x),
        dropped(m, x).dom().contains(x) ==> dropped(m, x)[x].block == m[x].block && holders(
            dropped(m, x),
            rb,
            wb,
            x,
        ) == holders(m, rb, wb, x) - 1 && dropped(m, x)[x].next == m[x].next,
        forall|b: usize|
            b != x ==> #[trigger] holders(dropped(m, x), rb, wb, b) == holders(m, rb, wb, b),
{
    let m2 = dropped(m, x);
    lemma_block(m, rb, wb, history, x);
    assert forall|y: usize| #[trigger] m2.dom().contains(y) implies node_wf(m2, y) && block_ok(
        m2,
        rb,
        wb,
        history,
        y,
    ) by {
        lemma_block(m, rb, wb, history, y);
        if m[y].next is Some {
            let c = m[y].next->0;
            lemma_present(m2, c);
        }
        if m[y].pred is Some {
            let q = m[y].pred->0;
            lemma_present(m2, q);
        }
    }
    reveal(list_wf);
}

/// An attempt to claim at a block whose slots are not all claimed keeps the
/// queue in order. A slot is claimed if and only if a message is left, and it
/// holds the first message that nobody had claimed.
pub proof fn lemma_claim_at<T>(
    m: Store<T>,
    rb: usize,
    wb: usize,
    history: Seq<T>,
    b: usize,
    cached: usize,
    k: usize,
)
    requires
        list_wf(m, rb, wb, history),
        reader_wf(m, rb, wb, b, cached),
        m[b].block.read_counter < BLOCK_SIZE || (b == rb && m[rb].next is None),
        k <= m[b].block.pending,
    ensures
        step_ok(m, rb, wb, history, claim_at(m, rb, b, cached, k)),
        claim_at(m, rb, b, cached, k).block == b,
        claim_at(m, rb, b, cached, k).k == k,
{
    lemma_ends(m, rb, wb, history);
    lemma_block(m, rb, wb, history, b);
    let v = m[b].block;
    if v.read_counter < v.write_counter {
        lemma_claim(m, rb, wb, history);
    }
}

/// What holds of the outcome `s` of an attempt to claim a slot, made on a
/// queue that was in order with the blocks `m` and the read block `rb`.
///
/// The queue is in order and the reader holds its block. A slot was claimed if
/// and only if a message was left that nobody had claimed; it is a slot of the
/// read block and holds the first such message.
pub open spec fn step_ok<T>(m: Store<T>, rb: usize, wb: usize, history: Seq<T>, s: Step<T>) -> bool {
    &&& list_wf(s.m, s.rb, wb, history)
    &&& reader_wf(s.m, s.rb, wb, s.block, s.write_counter)
    &&& s.k <= s.m[s.block].block.pending
    &&& s.out is Some <==> claimed(m, rb) < history.len()
    &&& claimed(s.m, s.rb) == claimed(m, rb) + if s.out is Some {
        1nat
    } else {
        0nat
    }
    &&& s.out matches Some(i) ==> {
        &&& s.block == s.rb
        &&& s.m[s.block].block.base + i == claimed(m, rb)
        &&& s.m[s.block].block.claimed_at(i as int)
        &&& s.m[s.block].block.mem->0[i as int] == Some(history[claimed(m, rb) as int])
    }
}

/// An attempt to claim a slot keeps the queue in order, and claims the first
/// message that nobody had claimed, if there is one.
pub proof fn lemma_read_next<T>(
    m: Store<T>,
    rb: usize,
    wb: usize,
    history: Seq<T>,
    b: usize,
    cached: usize,
    k: usize,
    fuel: nat,
)
    requires
        list_wf(m, rb, wb, history),
        reader_wf(m, rb, wb, b, cached),
        k <= m[b].block.pending,
        fuel >= 2 || (fuel == 1 && b == rb) || (fuel == 0 && m[b].block.read_counter < BLOCK_SIZE),
    ensures
        step_ok(m, rb, wb, history, read_next(m, rb, b, cached, k, fuel)),
    decreases fuel,
{
    if m[b].block.read_counter < BLOCK_SIZE || fuel == 0 {
        lemma_claim_at(m, rb, wb, history, b, cached, k);
    } else {
        lemma_block(m, rb, wb, history, b);
        lemma_switched(m, rb, wb, history, b, cached, k);
        let s = switched(m, rb, b, k);
        match s.block {
            None => {},
            Some(b1) => {
                lemma_read_next(
                    s.m,
                    s.rb,
                    wb,
                    history,
                    b1,
                    s.m[b1].block.write_counter,
                    0,
                    (fuel - 1) as nat,
                );
            },
        }
    }
}

/// Block `y`, which a reader holds, is kept from the blocks `m` to the blocks
/// `m2`: it is still there and still held, at the same position, with every
/// written slot, and every claimed slot that held a message holds the same.
pub open spec fn kept<T>(
    m: Store<T>,
    rb: usize,
    m2: Store<T>,
    rb2: usize,
    wb: usize,
    y: usize,
) -> bool {
    &&& m2.dom().contains(y)
    &&& holders(m2, rb2, wb, y) >= 1
    &&& m2[y].block.base == m[y].block.base
    &&& m2[y].block.base <= m2[rb2].block.base
    &&& m2[y].block.write_counter == m[y].block.write_counter
    &&& m2[y].block.read_counter >= m[y].block.read_counter
    &&& forall|i: int| #[trigger]
        m[y].block.claimed_at(i) ==> m2[y].block.claimed_at(i) && m2[y].block.mem->0[i]
            == m[y].block.mem->0[i]
}

/// The slots that a block has yet to count are as many after a reader on
/// block `b` had `k` of them counted, but for those.
pub open spec fn pending_kept<T>(m: Store<T>, m2: Store<T>, y: usize, b: usize, k: usize) -> bool {
    m2[y].block.pending == m[y].block.pending - if y == b {
        k as int
    } else {
        0int
    }
}

/// A reader that leaves its block keeps every block that another reader
/// holds.
pub proof fn lemma_switched_keeps<T>(
    m: Store<T>,
    rb: usize,
    wb: usize,
    history: Seq<T>,
    b: usize,
    cached: usize,
    k: usize,
    y: usize,
)
    requires
        list_wf(m, rb, wb, history),
        reader_wf(m, rb, wb, b, cached),
        m[b].block.read_counter == BLOCK_SIZE,
        k <= m[b].block.pending,
        switched(m, rb, b, k).block is Some,
        m.dom().contains(y),
        holders(m, rb, wb, y) >= 1,
        y != b || holders(m, rb, wb, b) >= 2,
        m[y].block.base <= m[rb].block.base,
    ensures
        kept(m, rb, switched(m, rb, b, k).m, switched(m, rb, b, k).rb, wb, y),
        pending_kept(m, switched(m, rb, b, k).m, y, b, k),
        y != switched(m, rb, b, k).block->0 ==> switched(m, rb, b, k).m[y].block.read_counter
            == m[y].block.read_counter,
        y == switched(m, rb, b, k).block->0 ==> holders(
            switched(m, rb, b, k).m,
            switched(m, rb, b, k).rb,
            wb,
            y,
        ) >= 2,
        switched(m, rb, b, k).m[y].block.read_counter == m[y].block.read_counter,
{
    lemma_ends(m, rb, wb, history);
    if b != rb {
        let m1 = acquired(m, rb);
        lemma_acquire(m, rb, wb, history, rb);
        lemma_flushed(m1, rb, wb, history, b, k);
    } else {
        let c = m[rb].next->0;
        lemma_advance(m, rb, wb, history, c);
        let m1 = acquired(unlinked(m, rb, c), c);
        lemma_dropped_wf(m1, c, wb, history, rb);
        let m2 = dropped(m1, rb);
        lemma_flushed(m2, c, wb, history, rb, k);
    }
}

/// An attempt of a reader to claim a slot keeps every block that another
/// reader holds.
pub proof fn lemma_read_next_keeps<T>(
    m: Store<T>,
    rb: usize,
    wb: usize,
    history: Seq<T>,
    b: usize,
    cached: usize,
    k: usize,
    fuel: nat,
    y: usize,
)
    requires
        list_wf(m, rb, wb, history),
        reader_wf(m, rb, wb, b, cached),
        k <= m[b].block.pending,
        fuel >= 2 || (fuel == 1 && b == rb) || (fuel == 0 && m[b].block.read_counter < BLOCK_SIZE),
        m.dom().contains(y),
        holders(m, rb, wb, y) >= 1,
        y != b || holders(m, rb, wb, b) >= 2,
        m[y].block.base <= m[rb].block.base,
    ensures
        kept(m, rb, read_next(m, rb, b, cached, k, fuel).m, read_next(m, rb, b, cached, k, fuel).rb, wb, y),
        read_next(m, rb, b, cached, k, fuel).m[y].block.pending >= m[y].block.pending - if y == b {
            k as int
        } else {
            0int
        },
    decreases fuel,
{
    lemma_block(m, rb, wb, history, b);
    if m[b].block.read_counter == BLOCK_SIZE && fuel > 0 {
        lemma_switched(m, rb, wb, history, b, cached, k);
        let s = switched(m, rb, b, k);
        match s.block {
            None => {},
            Some(b1) => {
                lemma_switched_keeps(m, rb, wb, history, b, cached, k, y);
                lemma_read_next_keeps(
                    s.m,
                    s.rb,
                    wb,
                    history,
                    b1,
                    s.m[b1].block.write_counter,
                    0,
                    (fuel - 1) as nat,
                    y,
                );
            },
        }
    }
}

} // verus!
