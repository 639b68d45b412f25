//! Laws of the lookahead buffer, stated over the postcondition predicates of
//! its operations and proved once and for all.

use vstd::prelude::*;
use crate::source::ByteSource;
use crate::buffer::LookaheadBuffer;
use crate::buffer::fill_ok_post;
use crate::buffer::consume_post;
use crate::text::decode_front;

verus! {

/// Idempotence: two `fill_request(0)` calls with no consume in between
/// return byte-identical views, whenever the first view is non-empty.
pub proof fn law_fill_idempotent<S: ByteSource>(
    b0: LookaheadBuffer<S>,
    b1: LookaheadBuffer<S>,
    b2: LookaheadBuffer<S>,
    v1: Seq<u8>,
    v2: Seq<u8>,
)
    requires
        fill_ok_post(b0, b1, 0, v1),
        v1.len() > 0,
        fill_ok_post(b1, b2, 0, v2),
    ensures
        v2 == v1,
{
    assert(v2.len() == v1.len());
    assert(v2 =~= v1);
}

/// A chain of consumes, each committing within the view outstanding at its
/// turn, starting from state `states[0]` and consuming `ns[i]` bytes at
/// step `i`.
pub open spec fn consume_chain<S: ByteSource>(
    states: Seq<LookaheadBuffer<S>>,
    ns: Seq<nat>,
) -> bool {
    &&& states.len() == ns.len() + 1
    &&& forall|i: int|
        0 <= i < ns.len() ==> consume_post(states[i], states[i + 1], #[trigger] ns[i])
}

pub open spec fn total_consumed(ns: Seq<nat>) -> nat
    decreases ns.len(),
{
    if ns.len() == 0 {
        0
    } else {
        ns[0] + total_consumed(ns.drop_first())
    }
}

/// Monotonic consumption: any legal chain of consumes commits no more bytes
/// than the view outstanding when it started.
pub proof fn law_consume_chain_bounded<S: ByteSource>(
    states: Seq<LookaheadBuffer<S>>,
    ns: Seq<nat>,
)
    requires
        consume_chain(states, ns),
    ensures
        total_consumed(ns) <= states[0].view_len(),
    decreases ns.len(),
{
    if ns.len() > 0 {
        assert(consume_post(states[0], states[1], ns[0]));
        let states2 = states.drop_first();
        let ns2 = ns.drop_first();
        assert forall|i: int|
            0 <= i < ns2.len() implies consume_post(states2[i], states2[i + 1], #[trigger] ns2[i]) by {
            assert(ns2[i] == ns[i + 1]);
            assert(consume_post(states[i + 1], states[i + 2], ns[i + 1]));
            assert(states2[i] == states[i + 1]);
            assert(states2[i + 1] == states[i + 2]);
        }
        law_consume_chain_bounded(states2, ns2);
    }
}

/// Monotonic consumption against a fill: after `fill_request` returns the
/// view `v`, the bytes committed by any legal chain of consumes never
/// exceed the bytes that view returned.
pub proof fn law_monotonic_consumption<S: ByteSource>(
    b0: LookaheadBuffer<S>,
    amt: nat,
    v: Seq<u8>,
    states: Seq<LookaheadBuffer<S>>,
    ns: Seq<nat>,
)
    requires
        states.len() > 0,
        fill_ok_post(b0, states[0], amt, v),
        consume_chain(states, ns),
    ensures
        total_consumed(ns) <= v.len(),
{
    law_consume_chain_bounded(states, ns);
}

/// Lookahead consistency: a satisfied `fill_request(n)` followed by
/// `fill_request(m)` with `m <= n` and no consume in between returns a view
/// agreeing with the first on its first `n` bytes.
pub proof fn law_lookahead_consistency<S: ByteSource>(
    b0: LookaheadBuffer<S>,
    b1: LookaheadBuffer<S>,
    b2: LookaheadBuffer<S>,
    n: nat,
    m: nat,
    v1: Seq<u8>,
    v2: Seq<u8>,
)
    requires
        fill_ok_post(b0, b1, n, v1),
        v1.len() >= n,
        m <= n,
        fill_ok_post(b1, b2, m, v2),
    ensures
        v2.take(n as int) == v1.take(n as int),
{
    if n > 0 {
        assert(b1.view_len() == v1.len());
        assert(v2.len() == v1.len());
        assert(v2 =~= v1);
    } else {
        assert(v2.take(0) =~= v1.take(0));
    }
}

/// Chunk-boundary transparency: two buffers whose available byte sequences
/// are equal are indistinguishable through `fill_request`, no matter how
/// differently their sources parcel the bytes into chunks: the views agree
/// on every byte the request is entitled to.
pub proof fn law_chunk_transparency<S: ByteSource, T: ByteSource>(
    a0: LookaheadBuffer<S>,
    a1: LookaheadBuffer<S>,
    b0: LookaheadBuffer<T>,
    b1: LookaheadBuffer<T>,
    n: nat,
    v: Seq<u8>,
    w: Seq<u8>,
)
    requires
        a0.available() == b0.available(),
        fill_ok_post(a0, a1, n, v),
        fill_ok_post(b0, b1, n, w),
    ensures
        ({
            let k = vstd::math::min(n as int, a0.available().len() as int);
            v.take(k) == w.take(k)
        }),
{
    let k = vstd::math::min(n as int, a0.available().len() as int);
    assert(v.len() >= k);
    assert(w.len() >= k);
    assert(v.take(k) =~= a0.available().take(k));
    assert(w.take(k) =~= b0.available().take(k));
}

/// Boundary-safe decoding: what `peek_char` reports is a function of the
/// available byte sequence alone, so a codepoint split across chunk
/// deliveries decodes exactly as an unsplit one.
pub proof fn law_peek_chunk_transparency<S: ByteSource, T: ByteSource>(
    a: LookaheadBuffer<S>,
    b: LookaheadBuffer<T>,
    o1: Option<char>,
    o2: Option<char>,
)
    requires
        a.available() == b.available(),
        o1 == decode_front(a.available()),
        o2 == decode_front(b.available()),
    ensures
        o1 == o2,
{
}

/// One observable buffer operation, with what it handed back: a fill that
/// returned the view `v`, or a consume of `n` bytes.
pub enum BufOp {
    Fill(nat, Seq<u8>),
    Consume(nat),
}

pub open spec fn op_post<S: ByteSource>(
    pre: LookaheadBuffer<S>,
    post: LookaheadBuffer<S>,
    op: BufOp,
) -> bool {
    match op {
        BufOp::Fill(amt, v) => fill_ok_post(pre, post, amt, v),
        BufOp::Consume(n) => consume_post(pre, post, n),
    }
}

/// A legal interleaving of fills and consumes.
pub open spec fn op_trace<S: ByteSource>(
    states: Seq<LookaheadBuffer<S>>,
    ops: Seq<BufOp>,
) -> bool {
    &&& states.len() == ops.len() + 1
    &&& forall|i: int| 0 <= i < ops.len() ==> op_post(states[i], states[i + 1], #[trigger] ops[i])
}

pub open spec fn trace_consumed(ops: Seq<BufOp>) -> nat
    decreases ops.len(),
{
    if ops.len() == 0 {
        0
    } else {
        (match ops[0] {
            BufOp::Consume(n) => n,
            BufOp::Fill(_, _) => 0,
        }) + trace_consumed(ops.drop_first())
    }
}

pub open spec fn trace_returned(ops: Seq<BufOp>) -> nat
    decreases ops.len(),
{
    if ops.len() == 0 {
        0
    } else {
        (match ops[0] {
            BufOp::Fill(_, v) => v.len(),
            BufOp::Consume(_) => 0,
        }) + trace_returned(ops.drop_first())
    }
}

/// Monotonic consumption in full: across any legal interleaving of fills
/// and consumes, the bytes committed never exceed the bytes the fills
/// returned plus whatever view was outstanding at the start.
pub proof fn law_monotonic_consumption_interleaved<S: ByteSource>(
    states: Seq<LookaheadBuffer<S>>,
    ops: Seq<BufOp>,
)
    requires
        op_trace(states, ops),
    ensures
        trace_consumed(ops) <= trace_returned(ops) + states[0].view_len(),
    decreases ops.len(),
{
    if ops.len() > 0 {
        assert(op_post(states[0], states[1], ops[0]));
        let states2 = states.drop_first();
        let ops2 = ops.drop_first();
        assert forall|i: int|
            0 <= i < ops2.len() implies op_post(states2[i], states2[i + 1], #[trigger] ops2[i]) by {
            assert(ops2[i] == ops[i + 1]);
            assert(op_post(states[i + 1], states[i + 2], ops[i + 1]));
            assert(states2[i] == states[i + 1]);
            assert(states2[i + 1] == states[i + 2]);
        }
        law_monotonic_consumption_interleaved(states2, ops2);
        assert(states2[0] == states[1]);
    }
}

/// Chunk-boundary transparency under consumption: buffers with equal
/// available byte sequences stay equal through matching consumes, so the
/// per-call transparency law extends along any call sequence.
pub proof fn law_consume_transparency<S: ByteSource, T: ByteSource>(
    a0: LookaheadBuffer<S>,
    a1: LookaheadBuffer<S>,
    b0: LookaheadBuffer<T>,
    b1: LookaheadBuffer<T>,
    n: nat,
)
    requires
        a0.available() == b0.available(),
        consume_post(a0, a1, n),
        consume_post(b0, b1, n),
    ensures
        a1.available() == b1.available(),
{
}

} // verus!
