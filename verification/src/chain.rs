//! What holds of the blocks of a multicast queue, and how giving up a handle
//! changes them.
//!
//! The blocks of a queue form one chain that ends in the tail block. Every block
//! but the tail is full and linked to its successor, and the written slots of
//! the blocks in the store are, in order, a part of the messages that ever went
//! into the queue.
use crate::block::{BlockView, BLOCK_SIZE};
use crate::block_list::{
    chain_wf, lemma_present, lemma_released_at, lemma_same_links, node_wf, released, NodeView,
};
pub use crate::block_list::{
    acquired, chained, lemma_released_block, lemma_released_counted, lemma_released_lowered,
    lowered, with_block,
};
use vstd::prelude::*;

verus! {

broadcast use {vstd::set::group_set_axioms, vstd::map::group_map_axioms};

/// The blocks of a multicast queue, by slot.
pub type Store<T> = Map<usize, NodeView<BlockView<T>>>;

/// Block `b` is in its place in the chain: full and linked unless it is the
/// tail, and its written slots are the messages from its position on.
pub open spec fn block_ok<T>(m: Store<T>, tail: usize, history: Seq<T>, b: usize) -> bool {
    &&& m[b].block.wf()
    &&& m[b].block.base % BLOCK_SIZE as nat == 0
    &&& (b != tail ==> m[b].next is Some)
    &&& (m[b].next matches Some(c) ==> m[b].block.full() && m[c].block.base == m[b].block.base
        + BLOCK_SIZE)
    &&& m[b].block.base + m[b].block.mem.len() <= history.len()
    &&& m[b].block.mem == history.subrange(
        m[b].block.base as int,
        m[b].block.base + m[b].block.mem.len() as int,
    )
}

/// The blocks in `m` form the chain of a queue whose tail block is `tail` and
/// into which the messages `history` went, in that order.
#[verifier::opaque]
pub open spec fn list_wf<T>(m: Store<T>, tail: usize, history: Seq<T>) -> bool {
    &&& chain_wf(m)
    &&& m.dom().contains(tail)
    &&& m[tail].next is None
    &&& m[tail].external() >= 1
    &&& history.len() == m[tail].block.base + m[tail].block.mem.len()
    &&& forall|b: usize| #[trigger] m.dom().contains(b) ==> block_ok(m, tail, history, b)
}

/// Every block of the store shows in its ready bitmap exactly the slots that
/// are written.
#[verifier::opaque]
pub open spec fn all_published<T>(m: Store<T>) -> bool {
    forall|b: usize| #[trigger] m.dom().contains(b) ==> m[b].block.published()
}

/// Number of handles to block `b` that readers and writers hold: the
/// references to it other than the link from its predecessor and the queue's
/// own handle to its tail block.
pub open spec fn holders<T>(m: Store<T>, tail: usize, b: usize) -> int {
    m[b].external() - if b == tail {
        1int
    } else {
        0int
    }
}

/// Position of the block that follows block `t`.
pub open spec fn next_base<T>(m: Store<T>, t: usize) -> nat {
    m[t].block.base + BLOCK_SIZE as nat
}

/// A cursor at slot `index` of block `block`, which knows of `len` written
/// slots there, is in order: it holds a handle to the block and looks at no
/// slot that is not written.
pub open spec fn cursor_wf<T>(m: Store<T>, tail: usize, block: usize, index: usize, len: usize) -> bool {
    &&& m.dom().contains(block)
    &&& holders(m, tail, block) >= 1
    &&& index <= len <= m[block].block.mem.len()
}

/// Number of messages that went into the queue before the one that a cursor at
/// slot `index` of block `block` reads next.
pub open spec fn cursor_pos<T>(m: Store<T>, block: usize, index: usize) -> nat {
    m[block].block.base + index as nat
}

/// An empty block is in order, and published.
pub proof fn lemma_empty_published<T>(base: nat)
    ensures
        BlockView::<T>::empty(base).published(),
        BlockView::<T>::empty(base).wf(),
{
    assert(1u64 << 0u64 == 1u64) by (bit_vector);
}

/// The chain of a new queue: one empty block, which only the queue holds.
pub proof fn lemma_new<T>(t: usize)
    ensures
        list_wf(
            Map::<usize, NodeView<BlockView<T>>>::empty().insert(
                t,
                NodeView { use_count: 1, next: None, pred: None, block: BlockView::empty(0) },
            ),
            t,
            Seq::<T>::empty(),
        ),
        all_published(
            Map::<usize, NodeView<BlockView<T>>>::empty().insert(
                t,
                NodeView { use_count: 1, next: None, pred: None, block: BlockView::<T>::empty(0) },
            ),
        ),
{
    reveal(list_wf);
    reveal(all_published);
    let m = Map::<usize, NodeView<BlockView<T>>>::empty().insert(
        t,
        NodeView { use_count: 1, next: None, pred: None, block: BlockView::<T>::empty(0) },
    );
    let h = Seq::<T>::empty();
    assert(m[t].block.mem =~= h.subrange(0, 0));
    lemma_empty_published::<T>(0);
}

/// What the chain says of its tail block.
pub proof fn lemma_tail<T>(m: Store<T>, tail: usize, history: Seq<T>)
    requires
        list_wf(m, tail, history),
    ensures
        chain_wf(m),
        m.dom().contains(tail),
        m[tail].next is None,
        m[tail].external() >= 1,
        holders(m, tail, tail) >= 0,
        history.len() == m[tail].block.base + m[tail].block.mem.len(),
        block_ok(m, tail, history, tail),
{
    reveal(list_wf);
}

/// What the chain says of one of its blocks.
pub proof fn lemma_block<T>(m: Store<T>, tail: usize, history: Seq<T>, b: usize)
    requires
        list_wf(m, tail, history),
        m.dom().contains(b),
    ensures
        block_ok(m, tail, history, b),
        node_wf(m, b),
        holders(m, tail, b) >= 0,
        m[b].next matches Some(c) ==> m.dom().contains(c) && c != b && m[c].pred == Some(b),
        m[b].pred matches Some(p) ==> m.dom().contains(p) && p != b && m[p].next == Some(b),
{
    reveal(list_wf);
    if m[b].next is Some {
        lemma_present(m, m[b].next->0);
    }
    if m[b].pred is Some {
        lemma_present(m, m[b].pred->0);
    }
}

/// A block of a published store is published.
pub proof fn lemma_published_at<T>(m: Store<T>, b: usize)
    requires
        all_published(m),
        m.dom().contains(b),
    ensures
        m[b].block.published(),
{
    reveal(all_published);
}

/// A block of the chain lies at or before the tail block, and only the tail
/// block has no successor.
pub proof fn lemma_tail_is_last<T>(m: Store<T>, tail: usize, history: Seq<T>, b: usize)
    requires
        list_wf(m, tail, history),
        m.dom().contains(b),
    ensures
        m[b].block.base <= m[tail].block.base,
        m[b].next is None <==> b == tail,
        b != tail ==> m[b].block.base + BLOCK_SIZE <= m[tail].block.base,
{
    lemma_tail(m, tail, history);
    lemma_block(m, tail, history, b);
    if b != tail {
        let c = m[b].next->0;
        lemma_block(m, tail, history, c);
    }
}

/// A cursor in order points into the messages of the queue or just past them,
/// and the message it points to is the one in its slot.
pub proof fn lemma_cursor<T>(
    m: Store<T>,
    tail: usize,
    history: Seq<T>,
    block: usize,
    index: usize,
    len: usize,
)
    requires
        list_wf(m, tail, history),
        cursor_wf(m, tail, block, index, len),
    ensures
        m[block].block.wf(),
        cursor_pos(m, block, index) <= history.len(),
        index < m[block].block.mem.len() ==> cursor_pos(m, block, index) < history.len()
            && m[block].block.mem[index as int] == history[cursor_pos(m, block, index) as int],
        index == m[block].block.mem.len() && m[block].next is None ==> cursor_pos(m, block, index)
            == history.len(),
        block != tail ==> m[block].next is Some,
        m[block].next matches Some(c) ==> m.dom().contains(c) && m[block].block.mem.len()
            == BLOCK_SIZE && cursor_pos(m, c, 0) == cursor_pos(m, block, BLOCK_SIZE),
{
    lemma_tail(m, tail, history);
    lemma_block(m, tail, history, block);
}

/// The messages before the last are the same with and without the last.
pub proof fn lemma_subrange_push<T>(h: Seq<T>, value: T, lo: int, hi: int)
    requires
        0 <= lo <= hi <= h.len(),
    ensures
        h.push(value).subrange(lo, hi) == h.subrange(lo, hi),
{
}

/// The messages from `lo` on, with a new last one, are the old ones from `lo`
/// on and then the new one.
pub proof fn lemma_subrange_push_end<T>(h: Seq<T>, value: T, lo: int)
    requires
        0 <= lo <= h.len(),
    ensures
        h.push(value).subrange(lo, h.len() as int + 1) == h.subrange(lo, h.len() as int).push(
            value,
        ),
{
}

/// Writing one more message into the tail block keeps the chain, with the
/// message at the end of the history, and moves no holder.
pub proof fn lemma_append<T>(m: Store<T>, tail: usize, history: Seq<T>, value: T, block: BlockView<T>)
    requires
        list_wf(m, tail, history),
        !m[tail].block.full(),
        block.wf(),
        block.mem == m[tail].block.mem.push(value),
        block.base == m[tail].block.base,
    ensures
        list_wf(with_block(m, tail, block), tail, history.push(value)),
        with_block(m, tail, block).dom() == m.dom(),
        forall|b: usize| #[trigger]
            holders(with_block(m, tail, block), tail, b) == holders(m, tail, b),
        forall|b: usize|
            b != tail ==> #[trigger] with_block(m, tail, block)[b].block == m[b].block,
{
    let m2 = with_block(m, tail, block);
    let h2 = history.push(value);
    lemma_tail(m, tail, history);
    lemma_same_links(m, m2);
    assert forall|x: usize| #[trigger] m2.dom().contains(x) implies block_ok(m2, tail, h2, x) by {
        lemma_block(m, tail, history, x);
        let base = m[x].block.base as int;
        if x == tail {
            lemma_subrange_push_end(history, value, base);
        } else {
            lemma_subrange_push(history, value, base, base + m[x].block.mem.len());
        }
    }
    reveal(list_wf);
}

/// Chaining a new, empty block behind the full tail block keeps the chain,
/// with the new block as the tail. The handle that the queue had to the old
/// tail block is now one that waits to be given up.
pub proof fn lemma_chain<T>(m: Store<T>, t: usize, history: Seq<T>, c: usize, extra: nat)
    requires
        list_wf(m, t, history),
        m[t].block.full(),
        !m.dom().contains(c),
    ensures
        list_wf(chained(m, t, c, extra, BlockView::empty(next_base(m, t))), c, history),
        holders(chained(m, t, c, extra, BlockView::empty(next_base(m, t))), c, t) == holders(m, t, t)
            + 1,
        holders(chained(m, t, c, extra, BlockView::empty(next_base(m, t))), c, c) == extra,
        forall|b: usize|
            b != t && b != c ==> #[trigger] holders(
                chained(m, t, c, extra, BlockView::empty(next_base(m, t))),
                c,
                b,
            ) == holders(m, t, b),
        forall|b: usize|
            b != c ==> #[trigger] chained(
                m,
                t,
                c,
                extra,
                BlockView::empty(next_base(m, t)),
            )[b].block == m[b].block,
        forall|b: usize| #[trigger]
            m.dom().contains(b) ==> chained(
                m,
                t,
                c,
                extra,
                BlockView::empty(next_base(m, t)),
            ).dom().contains(b),
        all_published(m) ==> all_published(
            chained(m, t, c, extra, BlockView::empty(next_base(m, t))),
        ),
{
    let m2 = chained(m, t, c, extra, BlockView::empty(next_base(m, t)));
    lemma_tail(m, t, history);
    lemma_empty_published::<T>(next_base(m, t));
    lemma_present(m2, c);
    lemma_present(m2, t);
    assert forall|x: usize| #[trigger] m2.dom().contains(x) implies node_wf(m2, x) && block_ok(
        m2,
        c,
        history,
        x,
    ) by {
        if x != c {
            lemma_block(m, t, history, x);
            if m[x].next is Some {
                lemma_present(m2, m[x].next->0);
            }
            if m[x].pred is Some {
                lemma_present(m2, m[x].pred->0);
            }
        } else {
            assert(m2[c].block.mem =~= history.subrange(
                m2[c].block.base as int,
                m2[c].block.base as int,
            ));
        }
    }
    if all_published(m) {
        reveal(all_published);
    }
    reveal(list_wf);
}

/// Counting one more handle to a block keeps the chain, and adds one holder
/// to that block and to no other.
pub proof fn lemma_acquire<T>(m: Store<T>, tail: usize, history: Seq<T>, b: usize)
    requires
        list_wf(m, tail, history),
        m.dom().contains(b),
    ensures
        list_wf(acquired(m, b), tail, history),
        holders(acquired(m, b), tail, b) == holders(m, tail, b) + 1,
        forall|x: usize|
            x != b ==> #[trigger] holders(acquired(m, b), tail, x) == holders(m, tail, x),
        acquired(m, b).dom() == m.dom(),
        forall|x: usize| #[trigger]
            acquired(m, b).dom().contains(x) ==> m.dom().contains(x) && acquired(m, b)[x].block
                == m[x].block && acquired(m, b)[x].next == m[x].next,
        all_published(m) ==> all_published(acquired(m, b)),
{
    let m2 = acquired(m, b);
    lemma_tail(m, tail, history);
    lemma_same_links(m, m2);
    if all_published(m) {
        lemma_published_sub(m, m2);
    }
    reveal(list_wf);
}

/// Giving up a handle that a reader or a writer held keeps the chain: the
/// tail block stays, a block that others hold stays with the same holders,
/// and the block of the handle stays if another holder is left.
pub proof fn lemma_release<T>(m: Store<T>, m2: Store<T>, tail: usize, history: Seq<T>, x: usize)
    requires
        list_wf(m, tail, history),
        m.dom().contains(x),
        holders(m, tail, x) >= 1,
        released(m, m2, x),
        chain_wf(m2),
    ensures
        list_wf(m2, tail, history),
        forall|b: usize| #[trigger]
            m2.dom().contains(b) ==> m.dom().contains(b) && m2[b].block == m[b].block && m2[b].next
                == m[b].next,
        forall|b: usize|
            m.dom().contains(b) && b != x && #[trigger] holders(m, tail, b) >= 1
                ==> m2.dom().contains(b) && holders(m2, tail, b) == holders(m, tail, b),
        holders(m, tail, x) >= 2 ==> m2.dom().contains(x),
        m[x].use_count >= 2 ==> m2.dom().contains(x),
        m2.dom().contains(x) ==> holders(m2, tail, x) == holders(m, tail, x) - 1,
        forall|b: usize|
            m2.dom().contains(b) && b != x ==> #[trigger] holders(m2, tail, b) == holders(
                m,
                tail,
                b,
            ),
        all_published(m) ==> all_published(m2),
{
    lemma_released_at(m, m2, x, tail);
    lemma_released_at(m, m2, x, x);
    assert forall|b: usize| #[trigger] m2.dom().contains(b) implies m.dom().contains(b)
        && m2[b].block == m[b].block && m2[b].next == m[b].next && holders(m2, tail, b) == holders(
        m,
        tail,
        b,
    ) - if b == x {
        1int
    } else {
        0int
    } by {
        lemma_released_at(m, m2, x, b);
    }
    assert forall|b: usize|
        m.dom().contains(b) && b != x && #[trigger] holders(m, tail, b) >= 1 implies m2.dom().contains(
        b,
    ) by {
        lemma_released_at(m, m2, x, b);
    }
    assert forall|b: usize| #[trigger] m2.dom().contains(b) implies block_ok(
        m2,
        tail,
        history,
        b,
    ) by {
        lemma_block(m, tail, history, b);
        if m2[b].next is Some {
            let c = m2[b].next->0;
            lemma_present(m2, c);
        }
    }
    if all_published(m) {
        lemma_published_sub(m, m2);
    }
    reveal(list_wf);
}

/// What is left after a handle was given up is fixed by what was there before.
pub proof fn lemma_released_unique<T>(
    m: Store<T>,
    m2: Store<T>,
    m3: Store<T>,
    tail: usize,
    history: Seq<T>,
    x: usize,
)
    requires
        list_wf(m, tail, history),
        m.dom().contains(x),
        released(m, m2, x),
        released(m, m3, x),
    ensures
        m2 == m3,
{
    assert forall|b: usize| m2.dom().contains(b) <==> m3.dom().contains(b) by {
        lemma_released_at(m, m2, x, b);
        lemma_released_at(m, m3, x, b);
        if m.dom().contains(b) {
            lemma_released_unique_at(m, m2, m3, tail, history, x, b, m[b].block.base);
        }
    }
    assert forall|b: usize| m2.dom().contains(b) implies m2[b] == m3[b] by {
        lemma_released_at(m, m2, x, b);
        lemma_released_unique_at(m, m2, m3, tail, history, x, b, m[b].block.base);
    }
}

/// Two stores left after the same handle was given up agree on block `b`,
/// whose position is `base`.
proof fn lemma_released_unique_at<T>(
    m: Store<T>,
    m2: Store<T>,
    m3: Store<T>,
    tail: usize,
    history: Seq<T>,
    x: usize,
    b: usize,
    base: nat,
)
    requires
        list_wf(m, tail, history),
        m.dom().contains(x),
        released(m, m2, x),
        released(m, m3, x),
        m.dom().contains(b),
        base == m[b].block.base,
    ensures
        m2.dom().contains(b) <==> m3.dom().contains(b),
        m2.dom().contains(b) ==> m2[b] == m3[b],
    decreases base,
{
    lemma_released_at(m, m2, x, b);
    lemma_released_at(m, m3, x, b);
    lemma_block(m, tail, history, b);
    if b != x && m[b].pred is Some {
        let p = m[b].pred->0;
        lemma_block(m, tail, history, p);
        lemma_released_unique_at(m, m2, m3, tail, history, x, p, m[p].block.base);
        lemma_present(m2, p);
        lemma_present(m3, p);
    }
}

/// A full block that turns a writer away stays what it was in the chain.
pub proof fn lemma_refuse<T>(m: Store<T>, tail: usize, history: Seq<T>, b: usize)
    requires
        list_wf(m, tail, history),
        m.dom().contains(b),
        m[b].block.full(),
    ensures
        list_wf(with_block(m, b, m[b].block.refused()), tail, history),
        with_block(m, b, m[b].block.refused()).dom() == m.dom(),
        forall|x: usize| #[trigger]
            holders(with_block(m, b, m[b].block.refused()), tail, x) == holders(m, tail, x),
        forall|x: usize|
            x != b ==> #[trigger] with_block(m, b, m[b].block.refused())[x].block == m[x].block,
        with_block(m, b, m[b].block.refused())[b].block.mem == m[b].block.mem,
        with_block(m, b, m[b].block.refused())[b].block.base == m[b].block.base,
        all_published(m) ==> all_published(with_block(m, b, m[b].block.refused())),
{
    let m2 = with_block(m, b, m[b].block.refused());
    lemma_tail(m, tail, history);
    lemma_same_links(m, m2);
    if all_published(m) {
        lemma_published_at(m, b);
        lemma_published_with(m, b, m[b].block.refused());
    }
    reveal(list_wf);
}

/// Changing one block to a published one keeps every block published.
pub proof fn lemma_published_with<T>(m: Store<T>, b: usize, block: BlockView<T>)
    requires
        all_published(m),
        block.published(),
    ensures
        all_published(with_block(m, b, block)),
{
    reveal(all_published);
}

/// A store whose blocks all come unchanged from a published store is
/// published.
pub proof fn lemma_published_sub<T>(m: Store<T>, m2: Store<T>)
    requires
        all_published(m),
        forall|x: usize| #[trigger]
            m2.dom().contains(x) ==> m.dom().contains(x) && m2[x].block == m[x].block,
    ensures
        all_published(m2),
{
    reveal(all_published);
}

/// No block of the store has handed out more slots than it has.
#[verifier::opaque]
pub open spec fn all_bounded<T>(m: Store<T>) -> bool {
    forall|b: usize| #[trigger] m.dom().contains(b) ==> m[b].block.len <= BLOCK_SIZE
}

/// A block of a bounded store has handed out no more slots than it has, so
/// that all of them are written.
pub proof fn lemma_bounded_at<T>(m: Store<T>, b: usize)
    requires
        all_bounded(m),
        m.dom().contains(b),
    ensures
        m[b].block.len <= BLOCK_SIZE,
{
    reveal(all_bounded);
}

/// Changing one block to a bounded one keeps the store bounded.
pub proof fn lemma_bounded_with<T>(m: Store<T>, b: usize, block: BlockView<T>)
    requires
        all_bounded(m),
        block.len <= BLOCK_SIZE,
    ensures
        all_bounded(with_block(m, b, block)),
{
    reveal(all_bounded);
}

/// A store whose blocks all come unchanged from a bounded store, but for a
/// bounded one, is bounded.
pub proof fn lemma_bounded_sub<T>(m: Store<T>, m2: Store<T>, c: usize)
    requires
        all_bounded(m),
        m2.dom().contains(c) ==> m2[c].block.len <= BLOCK_SIZE,
        forall|x: usize| #[trigger]
            m2.dom().contains(x) && x != c ==> m.dom().contains(x) && m2[x].block == m[x].block,
    ensures
        all_bounded(m2),
{
    reveal(all_bounded);
}

/// No two blocks of the chain lie at the same position.
pub proof fn lemma_same_base<T>(m: Store<T>, tail: usize, history: Seq<T>, b: usize, c: usize)
    requires
        list_wf(m, tail, history),
        m.dom().contains(b),
        m.dom().contains(c),
        m[b].block.base == m[c].block.base,
    ensures
        b == c,
    decreases m[tail].block.base - m[b].block.base,
{
    lemma_tail_is_last(m, tail, history, b);
    lemma_tail_is_last(m, tail, history, c);
    lemma_block(m, tail, history, b);
    lemma_block(m, tail, history, c);
    if b != tail && c != tail {
        let b1 = m[b].next->0;
        let c1 = m[c].next->0;
        lemma_same_base(m, tail, history, b1, c1);
    }
}

/// A block that lies behind block `b` is linked from a block that lies at `b`
/// or behind it: the chain from `b` leads to it.
pub proof fn lemma_on_chain<T>(m: Store<T>, tail: usize, history: Seq<T>, b: usize, c: usize)
    requires
        list_wf(m, tail, history),
        m.dom().contains(b),
        m.dom().contains(c),
        m[c].block.base >= m[b].block.base,
    ensures
        c == b || (m[c].pred is Some && m.dom().contains(m[c].pred->0) && m[m[c].pred->0].block.base
            >= m[b].block.base && m[m[c].pred->0].block.base < m[c].block.base),
    decreases m[c].block.base - m[b].block.base,
{
    lemma_tail(m, tail, history);
    lemma_block(m, tail, history, b);
    lemma_block(m, tail, history, c);
    if m[c].block.base == m[b].block.base {
        lemma_same_base(m, tail, history, b, c);
    } else {
        let b1 = m[b].next->0;
        lemma_on_chain(m, tail, history, b1, c);
    }
}

/// While a handle other than the one that is given up holds block `b`,
/// neither `b` nor any block behind it leaves the store.
pub proof fn lemma_release_keeps_suffix<T>(
    m: Store<T>,
    m2: Store<T>,
    tail: usize,
    history: Seq<T>,
    x: usize,
    b: usize,
    c: usize,
)
    requires
        list_wf(m, tail, history),
        m.dom().contains(x),
        holders(m, tail, x) >= 1,
        released(m, m2, x),
        chain_wf(m2),
        m.dom().contains(b),
        holders(m, tail, b) >= if b == x {
            2int
        } else {
            1int
        },
        m.dom().contains(c),
        m[c].block.base >= m[b].block.base,
    ensures
        m2.dom().contains(c),
        m2[c].block == m[c].block,
        m2[c].next == m[c].next,
    decreases m[c].block.base - m[b].block.base,
{
    lemma_on_chain(m, tail, history, b, c);
    lemma_released_at(m, m2, x, c);
    if c != b {
        let p = m[c].pred->0;
        lemma_release_keeps_suffix(m, m2, tail, history, x, b, p);
        lemma_present(m2, p);
    }
}

/// Counting a handle to a block and giving it up again leaves the store as it
/// was.
pub proof fn lemma_round_trip<T>(m: Store<T>, m2: Store<T>, tail: usize, history: Seq<T>, b: usize)
    requires
        list_wf(m, tail, history),
        m.dom().contains(b),
        released(acquired(m, b), m2, b),
    ensures
        m2 == m,
{
    let m1 = acquired(m, b);
    lemma_acquire(m, tail, history, b);
    lemma_tail(m1, tail, history);
    lemma_block(m, tail, history, b);
    lemma_released_counted(m1, b);
    lemma_released_unique(m1, m2, lowered(m1, b), tail, history, b);
}

} // verus!
