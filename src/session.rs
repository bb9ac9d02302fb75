//! One reliable session: what has been delivered inbound, and what has been
//! sent, acknowledged and is still pending outbound.
use vstd::prelude::*;

verus! {

/// The largest payload of one outbound DATA frame, before escaping.
pub const MAX_CHUNK: usize = 450;

/// An outbound segment: its absolute position in the stream and its bytes.
pub type SegmentView = (u64, Seq<u8>);

/// The stream offset just past a segment.
pub open spec fn seg_end(s: SegmentView) -> int {
    s.0 + s.1.len()
}

/// The state of a session as the contracts see it.
pub struct SessionView<A> {
    pub peer: A,
    pub delivered_bytes: u64,
    pub sent_bytes: u64,
    pub outbound_ack: u64,
    pub pending: Seq<SegmentView>,
    pub should_close: bool,
}

/// A fresh session, as a CONNECT creates it.
pub open spec fn new_session<A>(peer: A) -> SessionView<A> {
    SessionView {
        peer,
        delivered_bytes: 0,
        sent_bytes: 0,
        outbound_ack: 0,
        pending: Seq::empty(),
        should_close: false,
    }
}

/// The pending segments are the unacknowledged part of what was sent: each
/// non-empty and at most `MAX_CHUNK` long, in stream order, each ending past
/// `outbound_ack` and at most at `sent_bytes`, the last one at `sent_bytes`.
pub open spec fn pending_ok(p: Seq<SegmentView>, ack: u64, sent: u64) -> bool {
    &&& forall|i: int| 0 <= i < p.len() ==> 0 < (#[trigger] p[i]).1.len() <= MAX_CHUNK
    &&& forall|i: int, j: int| 0 <= i < j < p.len() ==> seg_end(#[trigger] p[i]) <= (#[trigger] p[j]).0
    &&& forall|i: int| 0 <= i < p.len() ==> ack < seg_end(#[trigger] p[i]) <= sent
    &&& (p.len() == 0 <==> ack == sent)
    &&& (p.len() > 0 ==> seg_end(p.last()) == sent)
}

/// The invariant of a session.
pub open spec fn session_ok<A>(s: SessionView<A>) -> bool {
    &&& s.outbound_ack <= s.sent_bytes
    &&& (s.should_close ==> s.outbound_ack < s.sent_bytes)
    &&& pending_ok(s.pending, s.outbound_ack, s.sent_bytes)
}

/// How many leading segments end at or before `ack`.
pub open spec fn acked_count(p: Seq<SegmentView>, ack: u64) -> nat
    decreases p.len(),
{
    if p.len() == 0 {
        0
    } else if seg_end(p[0]) <= ack {
        1 + acked_count(p.drop_first(), ack)
    } else {
        0
    }
}

/// `d` cut into segments of `MAX_CHUNK` bytes (the last one may be shorter),
/// the first one at position `pos`.
pub open spec fn chunks(pos: int, d: Seq<u8>) -> Seq<SegmentView>
    decreases d.len(),
{
    if d.len() == 0 {
        Seq::empty()
    } else {
        let k = if d.len() < MAX_CHUNK { d.len() as int } else { MAX_CHUNK as int };
        seq![(pos as u64, d.take(k))] + chunks(pos + k, d.skip(k))
    }
}

/// The bytes of a run of segments, one after another.
pub open spec fn concat(p: Seq<SegmentView>) -> Seq<u8>
    decreases p.len(),
{
    if p.len() == 0 {
        Seq::empty()
    } else {
        p[0].1 + concat(p.drop_first())
    }
}

pub proof fn lemma_acked_count(p: Seq<SegmentView>, ack: u64)
    ensures
        acked_count(p, ack) <= p.len(),
        forall|i: int| 0 <= i < acked_count(p, ack) ==> seg_end(#[trigger] p[i]) <= ack,
        acked_count(p, ack) < p.len() ==> seg_end(p[acked_count(p, ack) as int]) > ack,
    decreases p.len(),
{
    if p.len() > 0 && seg_end(p[0]) <= ack {
        let q = p.drop_first();
        lemma_acked_count(q, ack);
        assert forall|i: int| 0 <= i < acked_count(p, ack) implies seg_end(#[trigger] p[i])
            <= ack by {
            if i > 0 {
                assert(p[i] == q[i - 1]);
            }
        }
        if acked_count(p, ack) < p.len() {
            assert(p[acked_count(p, ack) as int] == q[acked_count(q, ack) as int]);
        }
    }
}

/// The segments that `chunks` cuts cover `d` from `pos` on, in order.
pub proof fn lemma_chunks(pos: int, d: Seq<u8>)
    requires
        pos >= 0,
        pos + d.len() <= u64::MAX,
    ensures
        forall|i: int|
            0 <= i < chunks(pos, d).len() ==> 0 < (#[trigger] chunks(pos, d)[i]).1.len()
                <= MAX_CHUNK,
        forall|i: int|
            0 <= i < chunks(pos, d).len() ==> pos <= (#[trigger] chunks(pos, d)[i]).0 && seg_end(
                chunks(pos, d)[i],
            ) <= pos + d.len(),
        forall|i: int, j: int|
            0 <= i < j < chunks(pos, d).len() ==> seg_end(#[trigger] chunks(pos, d)[i]) <= (
            #[trigger] chunks(pos, d)[j]).0,
        chunks(pos, d).len() == 0 <==> d.len() == 0,
        chunks(pos, d).len() > 0 ==> seg_end(chunks(pos, d).last()) == pos + d.len(),
        concat(chunks(pos, d)) == d,
    decreases d.len(),
{
    if d.len() > 0 {
        let k = if d.len() < MAX_CHUNK { d.len() as int } else { MAX_CHUNK as int };
        let first: SegmentView = (pos as u64, d.take(k));
        let rest = chunks(pos + k, d.skip(k));
        lemma_chunks(pos + k, d.skip(k));
        let c = chunks(pos, d);
        assert(c == seq![first] + rest);
        assert(c.drop_first() =~= rest);
        assert forall|i: int| 0 < i < c.len() implies c[i] == rest[i - 1] by {}
        assert(d.take(k) + d.skip(k) =~= d);
        if rest.len() > 0 {
            assert(c.last() == rest.last());
        }
    }
}

/// Whether DATA at `pos` carrying `d` is taken: the bytes must continue the
/// inbound stream exactly, and its length must still fit in a `u64`.
pub open spec fn data_accepted<A>(s: SessionView<A>, pos: u64, d: Seq<u8>) -> bool {
    pos == s.delivered_bytes && s.delivered_bytes + d.len() <= u64::MAX
}

/// The session after outbound bytes `d` are queued: they are cut into pending
/// segments from `sent_bytes` on, unless their count would not fit.
pub open spec fn queued<A>(s: SessionView<A>, d: Seq<u8>) -> SessionView<A> {
    if s.sent_bytes + d.len() <= u64::MAX {
        SessionView {
            sent_bytes: (s.sent_bytes + d.len()) as u64,
            pending: s.pending + chunks(s.sent_bytes as int, d),
            ..s
        }
    } else {
        s
    }
}

/// The session after the peer acknowledged `len` bytes, with
/// `outbound_ack < len <= sent_bytes`: the segments that end at or before `len`
/// are no longer pending.
pub open spec fn acked<A>(s: SessionView<A>, len: u64) -> SessionView<A> {
    SessionView {
        outbound_ack: len,
        pending: s.pending.skip(acked_count(s.pending, len) as int),
        ..s
    }
}

pub proof fn lemma_acked_ok<A>(s: SessionView<A>, len: u64)
    requires
        session_ok(s),
        s.outbound_ack < len <= s.sent_bytes,
    ensures
        session_ok(acked(s, len)) || (acked(s, len).should_close && len == s.sent_bytes),
        acked(s, len).pending.len() == 0 <==> len == s.sent_bytes,
        forall|i: int|
            0 <= i < acked(s, len).pending.len() ==> len < seg_end(
                #[trigger] acked(s, len).pending[i],
            ),
{
    let p = s.pending;
    let k = acked_count(p, len) as int;
    lemma_acked_count(p, len);
    let q = acked(s, len).pending;
    assert forall|i: int| 0 <= i < q.len() implies q[i] == p[i + k] by {}
    assert forall|i: int| 0 <= i < q.len() implies len < seg_end(#[trigger] q[i]) by {
        if i > 0 {
            assert(seg_end(p[k]) <= p[i + k].0);
        }
    }
    if q.len() > 0 {
        assert(q.last() == p.last());
    }
    if len == s.sent_bytes && q.len() > 0 {
        assert(seg_end(q[0]) <= s.sent_bytes);
    }
    if q.len() == 0 && len < s.sent_bytes {
        assert(p.len() > 0);
        assert(seg_end(p[p.len() - 1]) <= len);
    }
}

pub proof fn lemma_queued_ok<A>(s: SessionView<A>, d: Seq<u8>)
    requires
        session_ok(s),
    ensures
        session_ok(queued(s, d)),
        queued(s, d).outbound_ack == s.outbound_ack,
        queued(s, d).sent_bytes >= s.sent_bytes,
{
    if s.sent_bytes + d.len() <= u64::MAX {
        let p = s.pending;
        let c = chunks(s.sent_bytes as int, d);
        lemma_chunks(s.sent_bytes as int, d);
        let q = p + c;
        assert forall|i: int| 0 <= i < q.len() implies 0 < (#[trigger] q[i]).1.len()
            <= MAX_CHUNK by {
            if i >= p.len() {
                assert(q[i] == c[i - p.len()]);
            }
        }
        assert forall|i: int| 0 <= i < q.len() implies s.outbound_ack < seg_end(#[trigger] q[i])
            <= s.sent_bytes + d.len() by {
            if i >= p.len() {
                assert(q[i] == c[i - p.len()]);
            }
        }
        assert forall|i: int, j: int| 0 <= i < j < q.len() implies seg_end(#[trigger] q[i]) <= (
        #[trigger] q[j]).0 by {
            if j >= p.len() {
                assert(q[j] == c[j - p.len()]);
                if i >= p.len() {
                    assert(q[i] == c[i - p.len()]);
                }
            }
        }
        if c.len() > 0 {
            assert(q.last() == c.last());
        } else if p.len() > 0 {
            assert(q.last() == p.last());
        }
    }
}

/// An outbound segment that waits for its acknowledgement.
pub struct Segment {
    pub pos: u64,
    pub data: Vec<u8>,
}

impl View for Segment {
    type V = SegmentView;

    open spec fn view(&self) -> SegmentView {
        (self.pos, self.data@)
    }
}

/// The state of one open session, reached with the address of its peer.
pub struct Session<A> {
    pub peer: A,
    pub delivered_bytes: u64,
    pub sent_bytes: u64,
    pub outbound_ack: u64,
    pub pending: Vec<Segment>,
    pub should_close: bool,
}

impl<A> View for Session<A> {
    type V = SessionView<A>;

    open spec fn view(&self) -> SessionView<A> {
        SessionView {
            peer: self.peer,
            delivered_bytes: self.delivered_bytes,
            sent_bytes: self.sent_bytes,
            outbound_ack: self.outbound_ack,
            pending: self.pending@.map_values(|s: Segment| s@),
            should_close: self.should_close,
        }
    }
}

} // verus!
