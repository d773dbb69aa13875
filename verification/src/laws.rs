//! What the queues guarantee over a run of calls.
//!
//! A run is written down as the states of a queue and of a reader before and
//! after each call, with what each call is known to do from its contract.
//! The laws say what follows for the messages that the reader gets.
use crate::block_list::{acquired, chain_wf, released};
use crate::chain;
use crate::mpmc;
use crate::spmc;
use crate::unicast;
use vstd::prelude::*;

verus! {

broadcast use {vstd::seq::group_seq_axioms, vstd::map::group_map_axioms};

/// What one call does to the messages of a queue and to one reader.
pub enum Move<T> {
    /// A message is pushed.
    Push(T),
    /// The reader asks for its next message, and gets this.
    Next(Option<T>),
    /// Another call, which pushes nothing and leaves the reader alone.
    Idle,
}

/// The move `mv` takes the history `h`, with a reader at position `p`, to `h2`
/// and `p_after`.
pub open spec fn move_ok<T>(h: Seq<T>, p: nat, mv: Move<T>, h2: Seq<T>, p_after: nat) -> bool {
    match mv {
        Move::Push(v) => h2 == h.push(v) && p_after == p,
        Move::Next(out) => {
            &&& h2 == h
            &&& out == if p < h.len() {
                Some(h[p as int])
            } else {
                None
            }
            &&& p_after == p + if out is Some {
                1nat
            } else {
                0nat
            }
        },
        Move::Idle => h2 == h && p_after == p,
    }
}

/// The messages pushed in the run, in order.
pub open spec fn pushes<T>(moves: Seq<Move<T>>) -> Seq<T>
    decreases moves.len(),
{
    if moves.len() == 0 {
        Seq::empty()
    } else {
        match moves.last() {
            Move::Push(v) => pushes(moves.drop_last()).push(v),
            _ => pushes(moves.drop_last()),
        }
    }
}

/// The messages that the reader got in the run, in order.
pub open spec fn received<T>(moves: Seq<Move<T>>) -> Seq<T>
    decreases moves.len(),
{
    if moves.len() == 0 {
        Seq::empty()
    } else {
        match moves.last() {
            Move::Next(Some(v)) => received(moves.drop_last()).push(v),
            _ => received(moves.drop_last()),
        }
    }
}

/// The histories `hs` and positions `ps` are those before and after each of
/// the moves.
pub open spec fn trace_ok<T>(hs: Seq<Seq<T>>, ps: Seq<nat>, moves: Seq<Move<T>>) -> bool {
    &&& hs.len() == moves.len() + 1
    &&& ps.len() == moves.len() + 1
    &&& forall|i: int|
        0 <= i < moves.len() ==> #[trigger] move_ok(hs[i], ps[i], moves[i], hs[i + 1], ps[i + 1])
}

/// Over any run, the history grows by the messages pushed, and the reader
/// gets the messages from its first position to its last, in the order of the
/// pushes, each once.
pub proof fn lemma_trace<T>(hs: Seq<Seq<T>>, ps: Seq<nat>, moves: Seq<Move<T>>)
    requires
        trace_ok(hs, ps, moves),
        ps[0] <= hs[0].len(),
    ensures
        hs.last() == hs[0] + pushes(moves),
        ps.last() == ps[0] + received(moves).len(),
        ps.last() <= hs.last().len(),
        received(moves) == hs.last().subrange(ps[0] as int, ps.last() as int),
    decreases moves.len(),
{
    if moves.len() == 0 {
        assert(hs.last() =~= hs[0] + pushes(moves));
        assert(received(moves) =~= hs.last().subrange(ps[0] as int, ps.last() as int));
    } else {
        let n = moves.len() as int;
        let hs1 = hs.drop_last();
        let ps1 = ps.drop_last();
        let moves1 = moves.drop_last();
        assert forall|i: int| 0 <= i < moves1.len() implies #[trigger] move_ok(
            hs1[i],
            ps1[i],
            moves1[i],
            hs1[i + 1],
            ps1[i + 1],
        ) by {
            assert(move_ok(hs[i], ps[i], moves[i], hs[i + 1], ps[i + 1]));
        }
        lemma_trace(hs1, ps1, moves1);
        assert(move_ok(hs[n - 1], ps[n - 1], moves[n - 1], hs[n], ps[n]));
        let h = hs[n - 1];
        let p = ps[n - 1];
        assert(hs1.last() == h);
        assert(ps1.last() == p);
        match moves.last() {
            Move::Push(v) => {
                assert(hs.last() =~= hs[0] + pushes(moves));
                assert(received(moves) =~= hs.last().subrange(ps[0] as int, ps.last() as int));
            },
            Move::Next(out) => {
                assert(received(moves) =~= hs.last().subrange(ps[0] as int, ps.last() as int));
            },
            Move::Idle => {},
        }
    }
}

/// A reader that starts at the end of the history gets, in a run, the
/// messages pushed in the run: in their order, without a gap, and all of them
/// once it is at the end again.
pub proof fn lemma_trace_from_end<T>(hs: Seq<Seq<T>>, ps: Seq<nat>, moves: Seq<Move<T>>)
    requires
        trace_ok(hs, ps, moves),
        ps[0] == hs[0].len(),
    ensures
        received(moves).len() <= pushes(moves).len(),
        received(moves) == pushes(moves).subrange(0, received(moves).len() as int),
        ps.last() == hs.last().len() ==> received(moves) == pushes(moves),
        ps.last() == hs.last().len() ==> received(moves).to_multiset() == pushes(
            moves,
        ).to_multiset(),
{
    lemma_trace(hs, ps, moves);
    let r = received(moves);
    let a = pushes(moves);
    assert(hs.last().len() == hs[0].len() + a.len());
    assert(r =~= a.subrange(0, r.len() as int));
    if ps.last() == hs.last().len() {
        assert(r =~= a);
    }
}

/// One call on a single-producer queue as seen by one of its readers.
pub enum SpmcEvent<T> {
    /// `Queue::push` of this message.
    Push(T),
    /// `Reader::next` of the reader, which returned this.
    Next(Option<T>),
    /// A call that makes, copies, moves or gives up another reader.
    Other,
}

/// The event `ev` takes the queue `q` and its reader `r` to `q2` and `r2`, by
/// what the contract of the call says.
pub open spec fn spmc_step<T>(
    q: spmc::Queue<T>,
    r: spmc::Reader<T>,
    ev: SpmcEvent<T>,
    q2: spmc::Queue<T>,
    r2: spmc::Reader<T>,
) -> bool {
    &&& q2.wf()
    &&& r2.wf(&q2)
    &&& match ev {
        SpmcEvent::Push(v) => spmc::Queue::pushed(&q, &q2, v) && r2 == r && r.position(&q2)
            == r.position(&q),
        SpmcEvent::Next(out) => spmc::Reader::advanced(&r, &q, &r2, &q2, out),
        SpmcEvent::Other => q2.history() == q.history() && r2 == r && r.position(&q2)
            == r.position(&q),
    }
}

/// The queues `qs` and readers `rs` are those before and after each of the
/// events.
pub open spec fn spmc_run<T>(
    qs: Seq<spmc::Queue<T>>,
    rs: Seq<spmc::Reader<T>>,
    events: Seq<SpmcEvent<T>>,
) -> bool {
    &&& qs.len() == events.len() + 1
    &&& rs.len() == events.len() + 1
    &&& qs[0].wf()
    &&& rs[0].wf(&qs[0])
    &&& forall|i: int|
        0 <= i < events.len() ==> #[trigger] spmc_step(qs[i], rs[i], events[i], qs[i + 1], rs[i + 1])
}

/// The event as a move.
pub open spec fn spmc_move<T>(ev: SpmcEvent<T>) -> Move<T> {
    match ev {
        SpmcEvent::Push(v) => Move::Push(v),
        SpmcEvent::Next(out) => Move::Next(out),
        SpmcEvent::Other => Move::Idle,
    }
}

/// In every run of a single-producer queue, a reader gets the messages from
/// its position on in the order of the pushes, each once and none but these.
///
/// A reader that was made at the start of the run, or had read everything by
/// then, gets no message pushed before the run, and it gets the messages
/// pushed in the run in their order without a gap. Once it has read
/// everything it has got exactly the messages pushed in the run, as a
/// sequence and so as a multiset.
pub proof fn law_spmc_reader_gets_the_pushes_in_order<T>(
    qs: Seq<spmc::Queue<T>>,
    rs: Seq<spmc::Reader<T>>,
    events: Seq<SpmcEvent<T>>,
)
    requires
        spmc_run(qs, rs, events),
    ensures
        qs.last().history() == qs[0].history() + pushes(events.map_values(|e| spmc_move(e))),
        received(events.map_values(|e| spmc_move(e))) == qs.last().history().subrange(
            rs[0].position(&qs[0]) as int,
            rs.last().position(&qs.last()) as int,
        ),
        rs[0].position(&qs[0]) == qs[0].history().len() ==> {
            let got = received(events.map_values(|e| spmc_move(e)));
            let put = pushes(events.map_values(|e| spmc_move(e)));
            &&& got.len() <= put.len()
            &&& got == put.subrange(0, got.len() as int)
            &&& rs.last().position(&qs.last()) == qs.last().history().len() ==> got == put
                && got.to_multiset() == put.to_multiset()
        },
{
    let hs = Seq::new(qs.len(), |i: int| qs[i].history());
    let ps = Seq::new(qs.len(), |i: int| rs[i].position(&qs[i]));
    let moves = events.map_values(|e| spmc_move(e));
    assert forall|i: int| 0 <= i < moves.len() implies #[trigger] move_ok(
        hs[i],
        ps[i],
        moves[i],
        hs[i + 1],
        ps[i + 1],
    ) by {
        assert(spmc_step(qs[i], rs[i], events[i], qs[i + 1], rs[i + 1]));
    }
    chain::lemma_cursor(
        qs[0].store(),
        qs[0].tail(),
        qs[0].history(),
        rs[0].block.ptr,
        rs[0].index,
        rs[0].len,
    );
    lemma_trace(hs, ps, moves);
    if ps[0] == hs[0].len() {
        lemma_trace_from_end(hs, ps, moves);
    }
}

/// One call on a multi-producer queue as seen by one of its readers.
pub enum MpmcEvent<T> {
    /// `Queue::blocking_push` of this message.
    BlockingPush(T),
    /// `Writer::push` of this message, by the writer that was the first of
    /// these before the call and the second after it.
    WriterPush(mpmc::Writer<T>, mpmc::Writer<T>, T),
    /// `Reader::next` of the reader, which returned this.
    Next(Option<T>),
    /// A call that makes, copies, moves or gives up a writer or another
    /// reader.
    Other,
}

/// The event `ev` takes the queue `q` and its reader `r` to `q2` and `r2`, by
/// what the contract of the call says.
pub open spec fn mpmc_step<T>(
    q: mpmc::Queue<T>,
    r: mpmc::Reader<T>,
    ev: MpmcEvent<T>,
    q2: mpmc::Queue<T>,
    r2: mpmc::Reader<T>,
) -> bool {
    &&& q2.wf()
    &&& r2.wf(&q2)
    &&& match ev {
        MpmcEvent::BlockingPush(v) => mpmc::Queue::pushed(&q, &q2, v) && r2 == r && r.position(&q2)
            == r.position(&q),
        MpmcEvent::WriterPush(w, w2, v) => mpmc::Writer::pushed(&w, &q, &w2, &q2, v) && r2 == r
            && r.position(&q2) == r.position(&q),
        MpmcEvent::Next(out) => mpmc::Reader::advanced(&r, &q, &r2, &q2, out),
        MpmcEvent::Other => q2.history() == q.history() && r2 == r && r.position(&q2)
            == r.position(&q),
    }
}

/// The queues `qs` and readers `rs` are those before and after each of the
/// events.
pub open spec fn mpmc_run<T>(
    qs: Seq<mpmc::Queue<T>>,
    rs: Seq<mpmc::Reader<T>>,
    events: Seq<MpmcEvent<T>>,
) -> bool {
    &&& qs.len() == events.len() + 1
    &&& rs.len() == events.len() + 1
    &&& qs[0].wf()
    &&& rs[0].wf(&qs[0])
    &&& forall|i: int|
        0 <= i < events.len() ==> #[trigger] mpmc_step(qs[i], rs[i], events[i], qs[i + 1], rs[i + 1])
}

/// The event as a move.
pub open spec fn mpmc_move<T>(ev: MpmcEvent<T>) -> Move<T> {
    match ev {
        MpmcEvent::BlockingPush(v) => Move::Push(v),
        MpmcEvent::WriterPush(w, w2, v) => Move::Push(v),
        MpmcEvent::Next(out) => Move::Next(out),
        MpmcEvent::Other => Move::Idle,
    }
}

/// In every run of a multi-producer queue, with any number of writers taking
/// turns, a reader gets the messages from its position on in the order in
/// which they went into the queue, each once and none but these.
///
/// A reader that was made at the start of the run, or had read everything by
/// then, gets no message pushed before the run, and it gets the messages
/// pushed in the run in their order without a gap. Once it has read
/// everything it has got exactly the messages pushed in the run, as a
/// sequence and so as a multiset.
pub proof fn law_mpmc_reader_gets_the_pushes_in_order<T>(
    qs: Seq<mpmc::Queue<T>>,
    rs: Seq<mpmc::Reader<T>>,
    events: Seq<MpmcEvent<T>>,
)
    requires
        mpmc_run(qs, rs, events),
    ensures
        qs.last().history() == qs[0].history() + pushes(events.map_values(|e| mpmc_move(e))),
        received(events.map_values(|e| mpmc_move(e))) == qs.last().history().subrange(
            rs[0].position(&qs[0]) as int,
            rs.last().position(&qs.last()) as int,
        ),
        rs[0].position(&qs[0]) == qs[0].history().len() ==> {
            let got = received(events.map_values(|e| mpmc_move(e)));
            let put = pushes(events.map_values(|e| mpmc_move(e)));
            &&& got.len() <= put.len()
            &&& got == put.subrange(0, got.len() as int)
            &&& rs.last().position(&qs.last()) == qs.last().history().len() ==> got == put
                && got.to_multiset() == put.to_multiset()
        },
{
    let hs = Seq::new(qs.len(), |i: int| qs[i].history());
    let ps = Seq::new(qs.len(), |i: int| rs[i].position(&qs[i]));
    let moves = events.map_values(|e| mpmc_move(e));
    assert forall|i: int| 0 <= i < moves.len() implies #[trigger] move_ok(
        hs[i],
        ps[i],
        moves[i],
        hs[i + 1],
        ps[i + 1],
    ) by {
        assert(mpmc_step(qs[i], rs[i], events[i], qs[i + 1], rs[i + 1]));
    }
    chain::lemma_cursor(
        qs[0].store(),
        qs[0].tail(),
        qs[0].history(),
        rs[0].block.ptr,
        rs[0].index,
        rs[0].len,
    );
    lemma_trace(hs, ps, moves);
    if ps[0] == hs[0].len() {
        lemma_trace_from_end(hs, ps, moves);
    }
}

/// The messages of one writer arrive in the order in which it pushed them:
/// of the messages that a reader got and of the messages that were pushed,
/// those of the writer, told by `from_writer`, are the same, in the same
/// order, once the reader has read everything.
pub proof fn law_mpmc_messages_of_a_writer_come_in_order<T>(
    qs: Seq<mpmc::Queue<T>>,
    rs: Seq<mpmc::Reader<T>>,
    events: Seq<MpmcEvent<T>>,
    from_writer: spec_fn(T) -> bool,
)
    requires
        mpmc_run(qs, rs, events),
        rs[0].position(&qs[0]) == qs[0].history().len(),
        rs.last().position(&qs.last()) == qs.last().history().len(),
    ensures
        received(events.map_values(|e| mpmc_move(e))).filter(from_writer) == pushes(
            events.map_values(|e| mpmc_move(e)),
        ).filter(from_writer),
{
    law_mpmc_reader_gets_the_pushes_in_order(qs, rs, events);
}

/// Every block that the queue or a reader leads to is in the store and is
/// counted: the tail block, the block of every reader that is in order, and
/// the successor of every block of the store.
pub proof fn law_spmc_blocks_in_reach_are_counted<T>(
    q: spmc::Queue<T>,
    r: spmc::Reader<T>,
    b: usize,
)
    requires
        q.wf(),
    ensures
        q.store().dom().contains(q.tail()),
        q.store()[q.tail()].use_count >= 1,
        r.wf(&q) ==> q.store().dom().contains(r.block.ptr) && q.store()[r.block.ptr].use_count
            >= 1,
        q.store().dom().contains(b) ==> q.store()[b].use_count >= 1 && (q.store()[b].next matches Some(
            c,
        ) ==> q.store().dom().contains(c) && q.store()[c].use_count >= 1),
{
    let m = q.store();
    chain::lemma_tail(m, q.tail(), q.history());
    chain::lemma_block(m, q.tail(), q.history(), q.tail());
    if r.wf(&q) {
        chain::lemma_block(m, q.tail(), q.history(), r.block.ptr);
    }
    if m.dom().contains(b) {
        chain::lemma_block(m, q.tail(), q.history(), b);
        if m[b].next is Some {
            chain::lemma_block(m, q.tail(), q.history(), m[b].next->0);
        }
    }
}

/// Every block that the queue, a reader or a writer leads to is in the store
/// and is counted: the tail block, the block of every reader and writer that
/// is in order, and the successor of every block of the store.
pub proof fn law_mpmc_blocks_in_reach_are_counted<T>(
    q: mpmc::Queue<T>,
    r: mpmc::Reader<T>,
    w: mpmc::Writer<T>,
    b: usize,
)
    requires
        q.wf(),
    ensures
        q.store().dom().contains(q.tail()),
        q.store()[q.tail()].use_count >= 1,
        r.wf(&q) ==> q.store().dom().contains(r.block.ptr) && q.store()[r.block.ptr].use_count
            >= 1,
        w.wf(&q) ==> q.store().dom().contains(w.block.ptr) && q.store()[w.block.ptr].use_count
            >= 1,
        q.store().dom().contains(b) ==> q.store()[b].use_count >= 1 && (q.store()[b].next matches Some(
            c,
        ) ==> q.store().dom().contains(c) && q.store()[c].use_count >= 1),
{
    let m = q.store();
    chain::lemma_tail(m, q.tail(), q.history());
    chain::lemma_block(m, q.tail(), q.history(), q.tail());
    if r.wf(&q) {
        chain::lemma_block(m, q.tail(), q.history(), r.block.ptr);
    }
    if w.wf(&q) {
        chain::lemma_block(m, q.tail(), q.history(), w.block.ptr);
    }
    if m.dom().contains(b) {
        chain::lemma_block(m, q.tail(), q.history(), b);
        if m[b].next is Some {
            chain::lemma_block(m, q.tail(), q.history(), m[b].next->0);
        }
    }
}

/// Every block that a unicast queue or one of its readers leads to is in the
/// store and is counted: the read block, the write block, the block of every
/// reader that is in order, and the successor of every block of the store.
pub proof fn law_unicast_blocks_in_reach_are_counted<T>(
    q: unicast::spmc::Queue<T>,
    r: unicast::spmc::Reader<T>,
    b: usize,
)
    requires
        q.wf(),
    ensures
        q.store().dom().contains(q.read_block()),
        q.store().dom().contains(q.write_block()),
        r.wf(&q) ==> q.store().dom().contains(r.block.ptr) && q.store()[r.block.ptr].use_count
            >= 1,
        q.store().dom().contains(b) ==> q.store()[b].use_count >= 1 && (q.store()[b].next matches Some(
            c,
        ) ==> q.store().dom().contains(c) && q.store()[c].use_count >= 1),
{
    let m = q.store();
    unicast::list::lemma_ends(m, q.read_block(), q.write_block(), q.history());
    if r.wf(&q) {
        unicast::list::lemma_block(m, q.read_block(), q.write_block(), q.history(), r.block.ptr);
    }
    if m.dom().contains(b) {
        unicast::list::lemma_block(m, q.read_block(), q.write_block(), q.history(), b);
        if m[b].next is Some {
            unicast::list::lemma_block(
                m,
                q.read_block(),
                q.write_block(),
                q.history(),
                m[b].next->0,
            );
        }
    }
}

/// No block leaves a multicast queue while a reader or a writer holds a
/// handle to it, and no block behind such a block does.
///
/// The blocks `m` are those of a queue in order, and `m2` is what is left
/// after a handle to block `x` was given up, as every call that gives one up
/// says of its queue. Block `b` is held by another handle, and block `c` is
/// `b` or lies behind it. Then `c` is still there, with its messages and its
/// link.
pub proof fn law_held_blocks_and_those_behind_stay<T>(
    m: chain::Store<T>,
    m2: chain::Store<T>,
    tail: usize,
    history: Seq<T>,
    x: usize,
    b: usize,
    c: usize,
)
    requires
        chain::list_wf(m, tail, history),
        m.dom().contains(x),
        chain::holders(m, tail, x) >= 1,
        released(m, m2, x),
        chain_wf(m2),
        m.dom().contains(b),
        chain::holders(m, tail, b) >= if b == x {
            2int
        } else {
            1int
        },
        m.dom().contains(c),
        m[c].block.base >= m[b].block.base,
    ensures
        m2.dom().contains(c),
        m2[c].block == m[c].block,
        m2[c].next == m[c].next,
{
    chain::lemma_release_keeps_suffix(m, m2, tail, history, x, b, c);
}

/// No block leaves a unicast queue while a reader holds a handle to it, and
/// no block of the chain from the read block to the write block ever does.
///
/// The blocks `m` are those of a queue in order, and `m2` is what is left
/// after a reader's handle to block `x` was given up. Then every other block
/// is still there, unchanged, and so is `x` if another handle holds it or if
/// it is in the chain.
pub proof fn law_unicast_held_blocks_stay<T>(
    m: unicast::list::Store<T>,
    m2: unicast::list::Store<T>,
    rb: usize,
    wb: usize,
    history: Seq<T>,
    x: usize,
    b: usize,
)
    requires
        unicast::list::list_wf(m, rb, wb, history),
        m.dom().contains(x),
        unicast::list::holders(m, rb, wb, x) >= 1,
        released(m, m2, x),
        chain_wf(m2),
        m.dom().contains(b),
        b != x || unicast::list::holders(m, rb, wb, x) >= 2 || m[x].block.base
            >= m[rb].block.base,
    ensures
        m2.dom().contains(b),
        m2[b].block == m[b].block,
        m2[b].next == m[b].next,
{
    unicast::list::lemma_release(m, m2, rb, wb, history, x);
    unicast::list::lemma_block(m, rb, wb, history, x);
}

/// Making a reader and giving it up at once leaves a single-producer queue as
/// it was: no block stays that would not have stayed.
pub proof fn law_spmc_reader_made_and_given_up<T>(
    q: spmc::Queue<T>,
    q1: spmc::Queue<T>,
    q2: spmc::Queue<T>,
    r: spmc::Reader<T>,
)
    requires
        q.wf(),
        // What `Queue::reader` says.
        r.block.ptr == q.tail(),
        q1.tail() == q.tail(),
        q1.history() == q.history(),
        q1.store() == acquired(q.store(), q.tail()),
        // What `Reader::drop` says.
        q2.tail() == q1.tail(),
        q2.history() == q1.history(),
        released(q1.store(), q2.store(), r.block.ptr),
    ensures
        q2.store() == q.store(),
        q2.tail() == q.tail(),
        q2.history() == q.history(),
{
    chain::lemma_tail(q.store(), q.tail(), q.history());
    chain::lemma_round_trip(q.store(), q2.store(), q.tail(), q.history(), q.tail());
}

/// Copying a reader and giving up the copy, or the reader, leaves a
/// single-producer queue as it was.
pub proof fn law_spmc_reader_copied_and_given_up<T>(
    q: spmc::Queue<T>,
    q1: spmc::Queue<T>,
    q2: spmc::Queue<T>,
    r: spmc::Reader<T>,
)
    requires
        q.wf(),
        r.wf(&q),
        // What `Reader::clone` says.
        q1.tail() == q.tail(),
        q1.history() == q.history(),
        q1.store() == acquired(q.store(), r.block.ptr),
        // What `Reader::drop` says of the copy, or of the reader.
        q2.tail() == q1.tail(),
        q2.history() == q1.history(),
        released(q1.store(), q2.store(), r.block.ptr),
    ensures
        q2.store() == q.store(),
        q2.tail() == q.tail(),
        q2.history() == q.history(),
        r.wf(&q2),
{
    chain::lemma_round_trip(q.store(), q2.store(), q.tail(), q.history(), r.block.ptr);
}

/// Making a reader or a writer and giving it up at once leaves a
/// multi-producer queue as it was: no block stays that would not have stayed,
/// and no message is lost.
pub proof fn law_mpmc_handle_made_and_given_up<T>(
    q: mpmc::Queue<T>,
    q1: mpmc::Queue<T>,
    q2: mpmc::Queue<T>,
    block: usize,
)
    requires
        q.wf(),
        // What `Queue::reader` and `Queue::writer` say.
        block == q.tail(),
        q1.tail() == q.tail(),
        q1.history() == q.history(),
        q1.store() == acquired(q.store(), q.tail()),
        // What `Reader::drop` and `Writer::drop` say.
        q2.tail() == q1.tail(),
        q2.history() == q1.history(),
        released(q1.store(), q2.store(), block),
    ensures
        q2.store() == q.store(),
        q2.tail() == q.tail(),
        q2.history() == q.history(),
{
    chain::lemma_tail(q.store(), q.tail(), q.history());
    chain::lemma_round_trip(q.store(), q2.store(), q.tail(), q.history(), q.tail());
}

/// Copying a reader and giving up the copy, or the reader, leaves a
/// multi-producer queue as it was.
pub proof fn law_mpmc_reader_copied_and_given_up<T>(
    q: mpmc::Queue<T>,
    q1: mpmc::Queue<T>,
    q2: mpmc::Queue<T>,
    r: mpmc::Reader<T>,
)
    requires
        q.wf(),
        r.wf(&q),
        // What `Reader::clone` says.
        q1.tail() == q.tail(),
        q1.history() == q.history(),
        q1.store() == acquired(q.store(), r.block.ptr),
        // What `Reader::drop` says of the copy, or of the reader.
        q2.tail() == q1.tail(),
        q2.history() == q1.history(),
        released(q1.store(), q2.store(), r.block.ptr),
    ensures
        q2.store() == q.store(),
        q2.tail() == q.tail(),
        q2.history() == q.history(),
        r.wf(&q2),
{
    chain::lemma_round_trip(q.store(), q2.store(), q.tail(), q.history(), r.block.ptr);
}

/// Making or copying a reader of a unicast queue and giving it up again
/// leaves the queue as it was.
pub proof fn law_unicast_reader_made_and_given_up<T>(
    q: unicast::spmc::Queue<T>,
    q1: unicast::spmc::Queue<T>,
    q2: unicast::spmc::Queue<T>,
    block: usize,
)
    requires
        q.wf(),
        q.store().dom().contains(block),
        // What `Queue::reader` and `Reader::clone` say.
        q1.store() == acquired(q.store(), block),
        q1.history() == q.history(),
        // What `Reader::drop` says.
        q2.store() == unicast::list::dropped(q1.store(), block),
        q2.history() == q1.history(),
    ensures
        q2.store() == q.store(),
        q2.history() == q.history(),
{
    unicast::list::lemma_block(q.store(), q.read_block(), q.write_block(), q.history(), block);
    assert(q2.store() =~= q.store());
}

/// A handle to a block counted and given up again leaves the store of a
/// multicast queue as it was.
pub proof fn law_block_handle_copied_and_given_up<T>(
    m: chain::Store<T>,
    m2: chain::Store<T>,
    tail: usize,
    history: Seq<T>,
    b: usize,
)
    requires
        chain::list_wf(m, tail, history),
        m.dom().contains(b),
        // What `BlockArc::clone` and then `BlockArc::drop` say.
        released(acquired(m, b), m2, b),
    ensures
        m2 == m,
        chain::list_wf(m2, tail, history),
{
    chain::lemma_round_trip(m, m2, tail, history, b);
}

/// One call on a unicast queue.
pub enum UnicastEvent<T> {
    /// `Queue::push` of this message.
    Push(T),
    /// `Reader::next` or `ReadSession::next` of the reader with this number,
    /// which returned a guard for this message, or nothing.
    Claim(nat, Option<T>),
    /// Any other call: one that makes, copies or gives up a reader, begins or
    /// ends a session, or reads, takes or gives up the message of a guard.
    Other,
}

/// The event `ev` takes the queue `q` to `q2`, by what the contract of the
/// call says.
pub open spec fn unicast_step<T>(
    q: unicast::spmc::Queue<T>,
    ev: UnicastEvent<T>,
    q2: unicast::spmc::Queue<T>,
) -> bool {
    &&& q2.wf()
    &&& match ev {
        UnicastEvent::Push(v) => unicast::spmc::Queue::pushed(&q, &q2, v) && q2.claimed()
            == q.claimed(),
        UnicastEvent::Claim(who, out) => {
            &&& q2.history() == q.history()
            &&& out is Some <==> q.claimed() < q.history().len()
            &&& q2.claimed() == q.claimed() + if out is Some {
                1nat
            } else {
                0nat
            }
            &&& out matches Some(v) ==> v == q.history()[q.claimed() as int]
        },
        UnicastEvent::Other => q2.history() == q.history() && q2.claimed() == q.claimed(),
    }
}

/// The queues `qs` are those before and after each of the events.
pub open spec fn unicast_run<T>(
    qs: Seq<unicast::spmc::Queue<T>>,
    events: Seq<UnicastEvent<T>>,
) -> bool {
    &&& qs.len() == events.len() + 1
    &&& qs[0].wf()
    &&& forall|i: int| 0 <= i < events.len() ==> #[trigger] unicast_step(qs[i], events[i], qs[i + 1])
}

/// The event as a move of the one cursor that all readers share.
pub open spec fn unicast_move<T>(ev: UnicastEvent<T>) -> Move<T> {
    match ev {
        UnicastEvent::Push(v) => Move::Push(v),
        UnicastEvent::Claim(who, out) => Move::Next(out),
        UnicastEvent::Other => Move::Idle,
    }
}

/// The messages that the reader `who` got in the run, in order.
pub open spec fn claimed_by<T>(events: Seq<UnicastEvent<T>>, who: nat) -> Seq<T>
    decreases events.len(),
{
    if events.len() == 0 {
        Seq::empty()
    } else {
        match events.last() {
            UnicastEvent::Claim(w, Some(v)) => if w == who {
                claimed_by(events.drop_last(), who).push(v)
            } else {
                claimed_by(events.drop_last(), who)
            },
            _ => claimed_by(events.drop_last(), who),
        }
    }
}

/// The positions in the history of the messages that the reader `who` got in
/// the run, in order, where `start` messages were claimed before the run.
pub open spec fn positions_by<T>(events: Seq<UnicastEvent<T>>, who: nat, start: nat) -> Seq<nat>
    decreases events.len(),
{
    if events.len() == 0 {
        Seq::empty()
    } else {
        match events.last() {
            UnicastEvent::Claim(w, Some(v)) => if w == who {
                positions_by(events.drop_last(), who, start).push(
                    start + received(events.drop_last().map_values(|e| unicast_move(e))).len(),
                )
            } else {
                positions_by(events.drop_last(), who, start)
            },
            _ => positions_by(events.drop_last(), who, start),
        }
    }
}

/// The messages that the readers with the numbers below `n` got in the run,
/// reader by reader.
pub open spec fn claimed_by_all<T>(events: Seq<UnicastEvent<T>>, n: nat) -> Seq<T>
    decreases n,
{
    if n == 0 {
        Seq::empty()
    } else {
        claimed_by_all(events, (n - 1) as nat) + claimed_by(events, (n - 1) as nat)
    }
}

/// Every claim in the run was made by a reader with a number below `n`.
pub open spec fn readers_below<T>(events: Seq<UnicastEvent<T>>, n: nat) -> bool {
    forall|i: int|
        0 <= i < events.len() ==> ((#[trigger] events[i]) matches UnicastEvent::Claim(w, out) ==> w
            < n)
}

/// The histories and the numbers of claimed messages of a run make a trace
/// of moves.
proof fn lemma_unicast_trace<T>(
    qs: Seq<unicast::spmc::Queue<T>>,
    events: Seq<UnicastEvent<T>>,
)
    requires
        unicast_run(qs, events),
    ensures
        trace_ok(
            Seq::new(qs.len(), |i: int| qs[i].history()),
            Seq::new(qs.len(), |i: int| qs[i].claimed()),
            events.map_values(|e| unicast_move(e)),
        ),
        qs[0].claimed() <= qs[0].history().len(),
{
    let hs = Seq::new(qs.len(), |i: int| qs[i].history());
    let ps = Seq::new(qs.len(), |i: int| qs[i].claimed());
    let moves = events.map_values(|e| unicast_move(e));
    assert forall|i: int| 0 <= i < moves.len() implies #[trigger] move_ok(
        hs[i],
        ps[i],
        moves[i],
        hs[i + 1],
        ps[i + 1],
    ) by {
        assert(unicast_step(qs[i], events[i], qs[i + 1]));
    }
    unicast::list::lemma_ends(
        qs[0].store(),
        qs[0].read_block(),
        qs[0].write_block(),
        qs[0].history(),
    );
}

/// In every run of a unicast queue, with any number of readers taking turns,
/// every message is claimed at most once, and the claims follow the order of
/// the pushes: the messages that the readers got, in the order of their
/// calls, are the messages from the first that nobody had claimed to the
/// last that was claimed.
///
/// Where nothing was left to claim at the start, the readers got no message
/// pushed before the run, and once nothing is left to claim they have got
/// exactly the messages pushed in the run.
pub proof fn law_unicast_messages_are_claimed_once_in_order<T>(
    qs: Seq<unicast::spmc::Queue<T>>,
    events: Seq<UnicastEvent<T>>,
)
    requires
        unicast_run(qs, events),
    ensures
        qs.last().history() == qs[0].history() + pushes(events.map_values(|e| unicast_move(e))),
        qs.last().claimed() == qs[0].claimed() + received(
            events.map_values(|e| unicast_move(e)),
        ).len(),
        received(events.map_values(|e| unicast_move(e))) == qs.last().history().subrange(
            qs[0].claimed() as int,
            qs.last().claimed() as int,
        ),
        qs[0].claimed() == qs[0].history().len() ==> {
            let got = received(events.map_values(|e| unicast_move(e)));
            let put = pushes(events.map_values(|e| unicast_move(e)));
            &&& got.len() <= put.len()
            &&& got == put.subrange(0, got.len() as int)
            &&& qs.last().claimed() == qs.last().history().len() ==> got == put
        },
{
    let hs = Seq::new(qs.len(), |i: int| qs[i].history());
    let ps = Seq::new(qs.len(), |i: int| qs[i].claimed());
    let moves = events.map_values(|e| unicast_move(e));
    lemma_unicast_trace(qs, events);
    lemma_trace(hs, ps, moves);
    if ps[0] == hs[0].len() {
        lemma_trace_from_end(hs, ps, moves);
    }
}

/// The messages of one reader of a unicast queue come in the order of the
/// pushes, and no other reader gets any of them.
///
/// The messages that reader `who` got in the run lie in the history at the
/// positions `positions_by` names. These positions grow from one message of
/// the reader to the next, they lie among the messages claimed in the run,
/// and none of them is a position of a message of another reader `other`.
pub proof fn law_unicast_reader_gets_its_own_messages_in_order<T>(
    qs: Seq<unicast::spmc::Queue<T>>,
    events: Seq<UnicastEvent<T>>,
    who: nat,
    other: nat,
)
    requires
        unicast_run(qs, events),
    ensures
        positions_by(events, who, qs[0].claimed()).len() == claimed_by(events, who).len(),
        forall|j: int|
            0 <= j < claimed_by(events, who).len() ==> {
                let p = #[trigger] positions_by(events, who, qs[0].claimed())[j];
                &&& qs[0].claimed() <= p < qs.last().claimed()
                &&& p < qs.last().history().len()
                &&& claimed_by(events, who)[j] == qs.last().history()[p as int]
            },
        forall|i: int, j: int|
            0 <= i < j < claimed_by(events, who).len() ==> positions_by(
                events,
                who,
                qs[0].claimed(),
            )[i] < positions_by(events, who, qs[0].claimed())[j],
        other != who ==> forall|i: int, j: int|
            0 <= i < claimed_by(events, who).len() && 0 <= j < claimed_by(events, other).len()
                ==> positions_by(events, who, qs[0].claimed())[i] != positions_by(
                events,
                other,
                qs[0].claimed(),
            )[j],
    decreases events.len(),
{
    let c0 = qs[0].claimed();
    law_unicast_messages_are_claimed_once_in_order(qs, events);
    if events.len() > 0 {
        let n = events.len() as int;
        let qs1 = qs.drop_last();
        let events1 = events.drop_last();
        assert forall|i: int| 0 <= i < events1.len() implies #[trigger] unicast_step(
            qs1[i],
            events1[i],
            qs1[i + 1],
        ) by {
            assert(unicast_step(qs[i], events[i], qs[i + 1]));
        }
        law_unicast_reader_gets_its_own_messages_in_order(qs1, events1, who, other);
        law_unicast_reader_gets_its_own_messages_in_order(qs1, events1, other, who);
        law_unicast_messages_are_claimed_once_in_order(qs1, events1);
        assert(unicast_step(qs[n - 1], events[n - 1], qs[n]));
        assert(qs1.last() == qs[n - 1]);
        assert(qs1[0] == qs[0]);
        assert(events1.map_values(|e| unicast_move(e)) =~= events.map_values(
            |e| unicast_move(e),
        ).drop_last());
        let h1 = qs1.last().history();
        let h = qs.last().history();
        assert(forall|p: int| 0 <= p < h1.len() ==> h1[p] == h[p]) by {
            match events.last() {
                UnicastEvent::Push(v) => {},
                _ => {},
            }
        }
    }
}

/// One more claim by reader `w` adds its message to what the readers below
/// `n` got, if `w` is one of them.
proof fn lemma_claimed_by_all_push<T>(events: Seq<UnicastEvent<T>>, n: nat, w: nat, v: T)
    requires
        events.len() > 0,
        events.last() == UnicastEvent::Claim(w, Some(v)),
    ensures
        claimed_by_all(events, n).to_multiset() == if w < n {
            claimed_by_all(events.drop_last(), n).to_multiset().insert(v)
        } else {
            claimed_by_all(events.drop_last(), n).to_multiset()
        },
    decreases n,
{
    broadcast use vstd::multiset::group_multiset_axioms;

    let prev = events.drop_last();
    if n > 0 {
        let k = (n - 1) as nat;
        lemma_claimed_by_all_push(events, k, w, v);
        vstd::seq_lib::lemma_multiset_commutative(claimed_by_all(events, k), claimed_by(events, k));
        vstd::seq_lib::lemma_multiset_commutative(claimed_by_all(prev, k), claimed_by(prev, k));
        if w == k {
            vstd::seq_lib::to_multiset_build(claimed_by(prev, k), v);
        }
        assert(claimed_by_all(events, n).to_multiset() =~= if w < n {
            claimed_by_all(prev, n).to_multiset().insert(v)
        } else {
            claimed_by_all(prev, n).to_multiset()
        });
    }
}

/// An event that is no claim of a message adds nothing to what the readers
/// below `n` got.
proof fn lemma_claimed_by_all_same<T>(events: Seq<UnicastEvent<T>>, n: nat)
    requires
        events.len() > 0,
        !(events.last() matches UnicastEvent::Claim(w, Some(v))),
    ensures
        claimed_by_all(events, n) == claimed_by_all(events.drop_last(), n),
    decreases n,
{
    if n > 0 {
        lemma_claimed_by_all_same(events, (n - 1) as nat);
    }
}

/// With no event, the readers below `n` got nothing.
proof fn lemma_claimed_by_all_none<T>(events: Seq<UnicastEvent<T>>, n: nat)
    requires
        events.len() == 0,
    ensures
        claimed_by_all(events, n) == Seq::<T>::empty(),
    decreases n,
{
    if n > 0 {
        lemma_claimed_by_all_none(events, (n - 1) as nat);
        assert(claimed_by_all(events, n) =~= Seq::<T>::empty());
    }
}

/// What the readers of a unicast queue got, put together reader by reader, is
/// a permutation of the messages that were claimed in the run: of all
/// messages pushed in the run, once nothing is left to claim and nothing was
/// left at the start.
pub proof fn law_unicast_readers_share_out_the_messages<T>(
    qs: Seq<unicast::spmc::Queue<T>>,
    events: Seq<UnicastEvent<T>>,
    n: nat,
)
    requires
        unicast_run(qs, events),
        readers_below(events, n),
    ensures
        claimed_by_all(events, n).to_multiset() == qs.last().history().subrange(
            qs[0].claimed() as int,
            qs.last().claimed() as int,
        ).to_multiset(),
        qs[0].claimed() == qs[0].history().len() && qs.last().claimed()
            == qs.last().history().len() ==> claimed_by_all(events, n).to_multiset() == pushes(
            events.map_values(|e| unicast_move(e)),
        ).to_multiset(),
    decreases events.len(),
{
    broadcast use vstd::multiset::group_multiset_axioms;

    law_unicast_messages_are_claimed_once_in_order(qs, events);
    let moves = events.map_values(|e| unicast_move(e));
    assert(claimed_by_all(events, n).to_multiset() == received(moves).to_multiset()) by {
        lemma_claimed_by_all_received(events, n);
    }
}

/// What the readers below `n` got is, as a multiset, what was claimed.
proof fn lemma_claimed_by_all_received<T>(events: Seq<UnicastEvent<T>>, n: nat)
    requires
        readers_below(events, n),
    ensures
        claimed_by_all(events, n).to_multiset() == received(
            events.map_values(|e| unicast_move(e)),
        ).to_multiset(),
    decreases events.len(),
{
    broadcast use vstd::multiset::group_multiset_axioms;

    let moves = events.map_values(|e| unicast_move(e));
    if events.len() == 0 {
        lemma_claimed_by_all_none(events, n);
        assert(received(moves) =~= Seq::<T>::empty());
    } else {
        let prev = events.drop_last();
        assert(prev.map_values(|e| unicast_move(e)) =~= moves.drop_last());
        assert forall|i: int| 0 <= i < prev.len() implies ((#[trigger] prev[i]) matches UnicastEvent::Claim(
            w,
            out,
        ) ==> w < n) by {
            assert(prev[i] == events[i]);
        }
        lemma_claimed_by_all_received(prev, n);
        match events.last() {
            UnicastEvent::Claim(w, Some(v)) => {
                assert(events[events.len() - 1] == events.last());
                lemma_claimed_by_all_push(events, n, w, v);
                vstd::seq_lib::to_multiset_build(received(moves.drop_last()), v);
            },
            _ => {
                lemma_claimed_by_all_same(events, n);
            },
        }
    }
}

/// A block of a unicast queue whose messages are all emptied, and counted,
/// has counted as many emptied slots as messages lived in it, and a full one
/// has given up its storage.
pub proof fn law_unicast_drained_block_has_counted_its_messages<T>(
    v: unicast::block::BlockView<T>,
)
    requires
        v.wf(),
        v.pending == 0,
        v.mem matches Some(s) ==> forall|i: int| 0 <= i < s.len() ==> (#[trigger] s[i]) is None,
    ensures
        v.read_succ == v.write_counter,
        v.read_counter == v.write_counter,
        v.write_counter == unicast::block::BLOCK_SIZE ==> v.mem is None,
{
    broadcast use vstd::set::group_set_axioms;

    if v.mem is Some {
        let s = v.mem->0;
        let range = vstd::set_lib::set_int_range(0, v.write_counter as int);
        vstd::set_lib::lemma_int_range(0, v.write_counter as int);
        assert(v.emptied() =~= range);
        if v.read_counter < v.write_counter {
            assert(s[v.read_counter as int] is Some);
        }
    }
}

/// Counting emptied slots, whenever a session does it, frees no message and
/// frees the storage of a block at most once: a block gives up its storage
/// only when every slot is emptied, and a block without storage has nothing
/// left to count.
pub proof fn law_unicast_counting_frees_no_message<T>(
    m: unicast::list::Store<T>,
    rb: usize,
    wb: usize,
    history: Seq<T>,
    b: usize,
    k: usize,
)
    requires
        unicast::list::list_wf(m, rb, wb, history),
        m.dom().contains(b),
        k <= m[b].block.pending,
    ensures
        unicast::list::list_wf(unicast::list::flushed(m, b, k), rb, wb, history),
        m[b].block.mem is None ==> k == 0 && unicast::list::flushed(m, b, k) == m,
        forall|i: int| #[trigger]
            m[b].block.claimed_at(i) ==> unicast::list::flushed(m, b, k)[b].block.claimed_at(i)
                && unicast::list::flushed(m, b, k)[b].block.mem->0[i] == m[b].block.mem->0[i],
        forall|x: usize| x != b ==> #[trigger] unicast::list::flushed(m, b, k)[x] == m[x],
{
    unicast::list::lemma_flushed(m, rb, wb, history, b, k);
    unicast::list::lemma_block(m, rb, wb, history, b);
    if m[b].block.mem is None {
        m[b].block.lemma_freed();
    }
}

} // verus!
