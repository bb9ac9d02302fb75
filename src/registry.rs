//! The table of open sessions, and what each incoming frame does to it.
use vstd::prelude::*;
use std::collections::HashMap;
use crate::codec::{frame_text, lemma_data_frame_fits, Frame, Message, MAX_DATAGRAM};
use crate::session::{
    acked, acked_count, chunks, data_accepted, lemma_acked_count, lemma_acked_ok, lemma_chunks,
    lemma_queued_ok, new_session, queued, session_ok, Segment, SegmentView, Session, SessionView,
    MAX_CHUNK,
};

verus! {

/// What handling one frame asks of the caller: a frame to send back to the
/// peer, bytes to hand to the application, and whether the application should
/// flush its last partial input because the peer is closing.
pub struct Reaction {
    pub reply: Option<Message>,
    pub deliver: Option<Vec<u8>>,
    pub flush: bool,
}

/// A reaction as the contracts see it.
pub struct ReactionView {
    pub reply: Option<Frame>,
    pub deliver: Option<Seq<u8>>,
    pub flush: bool,
}

impl View for Reaction {
    type V = ReactionView;

    open spec fn view(&self) -> ReactionView {
        ReactionView {
            reply: match self.reply {
                Some(m) => Some(m@),
                None => None,
            },
            deliver: match self.deliver {
                Some(d) => Some(d@),
                None => None,
            },
            flush: self.flush,
        }
    }
}

/// Nothing to send, deliver or flush.
pub open spec fn no_reaction() -> ReactionView {
    ReactionView { reply: None, deliver: None, flush: false }
}

/// Only a reply.
pub open spec fn reply_with(f: Frame) -> ReactionView {
    ReactionView { reply: Some(f), deliver: None, flush: false }
}

/// The open sessions by id.
pub type Sessions<A> = Map<u64, SessionView<A>>;

/// CONNECT: a new session for an unseen id, and an acknowledgement of
/// nothing either way.
pub open spec fn on_connect<A>(m: Sessions<A>, session: u64, from: A) -> (Sessions<A>, ReactionView) {
    let m2 = if m.contains_key(session) {
        m
    } else {
        m.insert(session, new_session(from))
    };
    (m2, reply_with(Frame::Ack { session, len: 0 }))
}

/// DATA: the bytes are taken only where they continue the inbound stream;
/// either way the reply acknowledges the whole inbound stream.
pub open spec fn on_data<A>(m: Sessions<A>, session: u64, pos: u64, data: Seq<u8>) -> (
    Sessions<A>,
    ReactionView,
) {
    if !m.contains_key(session) || m[session].should_close {
        (m, no_reaction())
    } else {
        let s = m[session];
        if data_accepted(s, pos, data) {
            let delivered = (s.delivered_bytes + data.len()) as u64;
            (
                m.insert(session, SessionView { delivered_bytes: delivered, ..s }),
                ReactionView {
                    reply: Some(Frame::Ack { session, len: delivered }),
                    deliver: if data.len() > 0 {
                        Some(data)
                    } else {
                        None
                    },
                    flush: false,
                },
            )
        } else {
            (m, reply_with(Frame::Ack { session, len: s.delivered_bytes }))
        }
    }
}

/// ACK: a stale one changes nothing; one past what was sent closes the
/// session at once; any other advances `outbound_ack`, drops the segments it
/// covers, and completes a pending close once nothing is left.
pub open spec fn on_ack<A>(m: Sessions<A>, session: u64, len: u64) -> (Sessions<A>, ReactionView) {
    if !m.contains_key(session) || len <= m[session].outbound_ack {
        (m, no_reaction())
    } else if len > m[session].sent_bytes {
        (m.remove(session), reply_with(Frame::Close { session }))
    } else {
        let s = acked(m[session], len);
        if s.pending.len() == 0 && s.should_close {
            (m.remove(session), reply_with(Frame::Close { session }))
        } else {
            (m.insert(session, s), no_reaction())
        }
    }
}

/// CLOSE: answered at once when nothing is left unacknowledged (or the session
/// is unknown); otherwise the close waits for the last acknowledgement.
pub open spec fn on_close<A>(m: Sessions<A>, session: u64) -> (Sessions<A>, ReactionView) {
    if !m.contains_key(session) {
        (m, reply_with(Frame::Close { session }))
    } else {
        let s = m[session];
        if s.outbound_ack == s.sent_bytes {
            (m.remove(session), reply_with(Frame::Close { session }))
        } else if s.should_close {
            (m, no_reaction())
        } else {
            (
                m.insert(session, SessionView { should_close: true, ..s }),
                ReactionView { reply: None, deliver: None, flush: true },
            )
        }
    }
}

/// The sessions after one incoming frame from `from`, and what the caller
/// must do.
pub open spec fn step<A>(m: Sessions<A>, f: Frame, from: A) -> (Sessions<A>, ReactionView) {
    match f {
        Frame::Connect { session } => on_connect(m, session, from),
        Frame::Data { session, pos, data } => on_data(m, session, pos, data),
        Frame::Ack { session, len } => on_ack(m, session, len),
        Frame::Close { session } => on_close(m, session),
    }
}

/// The DATA frames that carry the segments `p` of `session`.
pub open spec fn data_frames(session: u64, p: Seq<SegmentView>) -> Seq<Frame> {
    p.map_values(|c: SegmentView| Frame::Data { session, pos: c.0, data: c.1 })
}

/// The frames that were handed out, as the contracts see them.
pub open spec fn frames_of(v: Seq<Message>) -> Seq<Frame> {
    v.map_values(|m: Message| m@)
}

/// The DATA frames of segments no longer than `MAX_CHUNK` each fit in one
/// datagram.
pub proof fn lemma_frames_fit(session: u64, p: Seq<SegmentView>)
    requires
        forall|i: int| 0 <= i < p.len() ==> (#[trigger] p[i]).1.len() <= MAX_CHUNK,
    ensures
        forall|i: int|
            0 <= i < p.len() ==> frame_text(#[trigger] data_frames(session, p)[i]).len()
                <= MAX_DATAGRAM,
{
    assert forall|i: int| 0 <= i < p.len() implies frame_text(
        #[trigger] data_frames(session, p)[i],
    ).len() <= MAX_DATAGRAM by {
        lemma_data_frame_fits(session, p[i].0, p[i].1);
    }
}

/// The segments as the contracts see them.
pub open spec fn segments_of(v: Seq<Segment>) -> Seq<SegmentView> {
    v.map_values(|s: Segment| s@)
}

/// A copy of `b[from..to]`.
fn copy_range(b: &[u8], from: usize, to: usize) -> (r: Vec<u8>)
    requires
        from <= to <= b@.len(),
    ensures
        r@ == b@.subrange(from as int, to as int),
{
    let mut r: Vec<u8> = Vec::new();
    let mut i: usize = from;
    while i < to
        invariant
            from <= i <= to <= b@.len(),
            r@ == b@.subrange(from as int, i as int),
        decreases to - i,
    {
        r.push(b[i]);
        i += 1;
        assert(r@ =~= b@.subrange(from as int, i as int));
    }
    r
}

/// Cuts `bytes` into segments from position `start` on, appends them to
/// `pending`, and returns the DATA frames that carry them.
fn push_chunks(pending: &mut Vec<Segment>, session: u64, start: u64, bytes: &[u8]) -> (r: Vec<
    Message,
>)
    requires
        start + bytes@.len() <= u64::MAX,
    ensures
        segments_of(final(pending)@) == segments_of(old(pending)@) + chunks(start as int, bytes@),
        frames_of(r@) == data_frames(session, chunks(start as int, bytes@)),
{
    let n = bytes.len();
    let mut i: usize = 0;
    let mut out: Vec<Message> = Vec::new();
    assert(bytes@.subrange(0, n as int) =~= bytes@);
    assert(segments_of(pending@) + chunks(start as int, bytes@) =~= segments_of(old(pending)@)
        + chunks(start as int, bytes@));
    assert(frames_of(out@) + data_frames(session, chunks(start as int, bytes@)) =~= data_frames(
        session,
        chunks(start as int, bytes@),
    ));
    while i < n
        invariant
            i <= n == bytes@.len(),
            start + n <= u64::MAX,
            segments_of(pending@) + chunks(start + i, bytes@.subrange(i as int, n as int))
                == segments_of(old(pending)@) + chunks(start as int, bytes@),
            frames_of(out@) + data_frames(session, chunks(start + i, bytes@.subrange(i as int, n as int)))
                == data_frames(session, chunks(start as int, bytes@)),
        decreases n - i,
    {
        let k: usize = if n - i < MAX_CHUNK {
            n - i
        } else {
            MAX_CHUNK
        };
        let ghost rest = bytes@.subrange(i as int, n as int);
        let ghost c = chunks(start + i + k, bytes@.subrange(i + k, n as int));
        let ghost seg: SegmentView = ((start + i) as u64, bytes@.subrange(i as int, i + k));
        assert(rest.take(k as int) =~= bytes@.subrange(i as int, i + k));
        assert(rest.skip(k as int) =~= bytes@.subrange(i + k, n as int));
        assert(chunks(start + i, rest) == seq![seg] + c);
        let ghost p0 = segments_of(pending@);
        let ghost o0 = frames_of(out@);
        let pos = start + i as u64;
        pending.push(Segment { pos, data: copy_range(bytes, i, i + k) });
        out.push(Message::Data { session, pos, data: copy_range(bytes, i, i + k) });
        assert(segments_of(pending@) =~= p0.push(seg));
        assert(frames_of(out@) =~= o0.push(Frame::Data { session, pos, data: seg.1 }));
        assert(p0 + (seq![seg] + c) =~= p0.push(seg) + c);
        assert(data_frames(session, seq![seg] + c) =~= seq![Frame::Data { session, pos, data: seg.1 }]
            + data_frames(session, c));
        assert(o0 + (seq![Frame::Data { session, pos, data: seg.1 }] + data_frames(session, c))
            =~= o0.push(Frame::Data { session, pos, data: seg.1 }) + data_frames(session, c));
        i += k;
    }
    assert(bytes@.subrange(n as int, n as int) =~= Seq::<u8>::empty());
    assert(segments_of(pending@) + Seq::<SegmentView>::empty() =~= segments_of(pending@));
    assert(frames_of(out@) + Seq::<Frame>::empty() =~= frames_of(out@));
    out
}

/// How many leading segments of `p` end at or before `len`.
fn count_acked(p: &Vec<Segment>, len: u64) -> (r: usize)
    ensures
        r == acked_count(segments_of(p@), len),
{
    let ghost v = segments_of(p@);
    let mut i: usize = 0;
    assert(v.skip(0) =~= v);
    while i < p.len()
        invariant
            i <= p@.len(),
            v == segments_of(p@),
            acked_count(v, len) == i + acked_count(v.skip(i as int), len),
        decreases p@.len() - i,
    {
        let seg = &p[i];
        assert(v.skip(i as int)[0] == seg@);
        assert(v.skip(i as int).drop_first() =~= v.skip(i + 1));
        if seg.pos as u128 + seg.data.len() as u128 > len as u128 {
            return i;
        }
        i += 1;
    }
    assert(v.skip(i as int) =~= Seq::<SegmentView>::empty());
    i
}

/// The session table.
pub struct Registry<A> {
    sessions: HashMap<u64, Session<A>>,
}

impl<A> View for Registry<A> {
    type V = Sessions<A>;

    closed spec fn view(&self) -> Sessions<A> {
        self.sessions@.map_values(|s: Session<A>| s@)
    }
}

/// The invariant of the table: every session keeps its own.
pub open spec fn sessions_ok<A>(m: Sessions<A>) -> bool {
    forall|id: u64| #[trigger] m.contains_key(id) ==> session_ok(m[id])
}

impl<A> Registry<A> {
    /// Every session in the table keeps its invariant; `new` establishes it
    /// and every method that changes the table keeps it.
    pub open spec fn inv(&self) -> bool {
        sessions_ok(self@)
    }

    /// An empty table.
    pub fn new() -> (r: Self)
        ensures
            r@ == Map::<u64, SessionView<A>>::empty(),
            r.inv(),
    {
        let r = Registry { sessions: HashMap::new() };
        assert(r@ =~= Map::<u64, SessionView<A>>::empty());
        r
    }

    /// Whether `session` is open.
    pub fn contains(&self, session: u64) -> (r: bool)
        ensures
            r == self@.contains_key(session),
    {
        self.sessions.contains_key(&session)
    }

    /// The open session `session`, if there is one.
    pub fn session(&self, session: u64) -> (r: Option<&Session<A>>)
        ensures
            match r {
                Some(s) => self@.contains_key(session) && s@ == self@[session],
                None => !self@.contains_key(session),
            },
    {
        self.sessions.get(&session)
    }

    fn put(&mut self, session: u64, s: Session<A>)
        ensures
            final(self)@ == old(self)@.insert(session, s@),
    {
        self.sessions.insert(session, s);
        assert(self@ =~= old(self)@.insert(session, s@));
    }

    fn drop_session(&mut self, session: u64)
        ensures
            final(self)@ == old(self)@.remove(session),
    {
        self.sessions.remove(&session);
        assert(self@ =~= old(self)@.remove(session));
    }
}

impl<A> Registry<A> {
    /// Handles one frame received from `from`.
    pub fn handle(&mut self, msg: Message, from: A) -> (r: Reaction)
        requires
            old(self).inv(),
        ensures
            final(self)@ == step(old(self)@, msg@, from).0,
            r@ == step(old(self)@, msg@, from).1,
            final(self).inv(),
    {
        proof {
            lemma_step_keeps_invariant(self@, msg@, from);
        }
        match msg {
            Message::Connect { session } => self.connect(session, from),
            Message::Data { session, pos, data } => self.data(session, pos, data),
            Message::Ack { session, len } => self.ack(session, len),
            Message::Close { session } => self.close(session),
        }
    }

    fn connect(&mut self, session: u64, from: A) -> (r: Reaction)
        ensures
            final(self)@ == on_connect(old(self)@, session, from).0,
            r@ == on_connect(old(self)@, session, from).1,
    {
        if !self.sessions.contains_key(&session) {
            let s = Session {
                peer: from,
                delivered_bytes: 0,
                sent_bytes: 0,
                outbound_ack: 0,
                pending: Vec::new(),
                should_close: false,
            };
            assert(s@.pending =~= Seq::<SegmentView>::empty());
            self.put(session, s);
        }
        Reaction { reply: Some(Message::Ack { session, len: 0 }), deliver: None, flush: false }
    }

    fn data(&mut self, session: u64, pos: u64, data: Vec<u8>) -> (r: Reaction)
        ensures
            final(self)@ == on_data(old(self)@, session, pos, data@).0,
            r@ == on_data(old(self)@, session, pos, data@).1,
    {
        match self.sessions.remove(&session) {
            None => {
                assert(self@ =~= old(self)@);
                Reaction { reply: None, deliver: None, flush: false }
            },
            Some(mut s) => {
                assert(self@ =~= old(self)@.remove(session));
                assert(old(self)@[session] == s@);
                if s.should_close {
                    self.put(session, s);
                    assert(self@ =~= old(self)@);
                    return Reaction { reply: None, deliver: None, flush: false };
                }
                if pos == s.delivered_bytes && data.len() as u64 <= u64::MAX - s.delivered_bytes {
                    s.delivered_bytes = s.delivered_bytes + data.len() as u64;
                    let len = s.delivered_bytes;
                    self.put(session, s);
                    assert(self@ =~= old(self)@.insert(session, s@));
                    let deliver = if data.len() > 0 {
                        Some(data)
                    } else {
                        None
                    };
                    Reaction { reply: Some(Message::Ack { session, len }), deliver, flush: false }
                } else {
                    let len = s.delivered_bytes;
                    self.put(session, s);
                    assert(self@ =~= old(self)@);
                    Reaction { reply: Some(Message::Ack { session, len }), deliver: None, flush: false }
                }
            },
        }
    }

    fn ack(&mut self, session: u64, len: u64) -> (r: Reaction)
        ensures
            final(self)@ == on_ack(old(self)@, session, len).0,
            r@ == on_ack(old(self)@, session, len).1,
    {
        match self.sessions.remove(&session) {
            None => {
                assert(self@ =~= old(self)@);
                Reaction { reply: None, deliver: None, flush: false }
            },
            Some(mut s) => {
                assert(self@ =~= old(self)@.remove(session));
                assert(old(self)@[session] == s@);
                if len <= s.outbound_ack {
                    self.put(session, s);
                    assert(self@ =~= old(self)@);
                    return Reaction { reply: None, deliver: None, flush: false };
                }
                if len > s.sent_bytes {
                    return Reaction {
                        reply: Some(Message::Close { session }),
                        deliver: None,
                        flush: false,
                    };
                }
                let ghost before = s@;
                let k = count_acked(&s.pending, len);
                proof {
                    lemma_acked_count(before.pending, len);
                }
                let rest = s.pending.split_off(k);
                s.pending = rest;
                s.outbound_ack = len;
                assert(s@.pending =~= before.pending.skip(k as int));
                assert(s@ == acked(before, len));
                if s.pending.len() == 0 && s.should_close {
                    Reaction { reply: Some(Message::Close { session }), deliver: None, flush: false }
                } else {
                    self.put(session, s);
                    Reaction { reply: None, deliver: None, flush: false }
                }
            },
        }
    }

    fn close(&mut self, session: u64) -> (r: Reaction)
        ensures
            final(self)@ == on_close(old(self)@, session).0,
            r@ == on_close(old(self)@, session).1,
    {
        match self.sessions.remove(&session) {
            None => {
                assert(self@ =~= old(self)@);
                Reaction { reply: Some(Message::Close { session }), deliver: None, flush: false }
            },
            Some(mut s) => {
                assert(self@ =~= old(self)@.remove(session));
                assert(old(self)@[session] == s@);
                if s.outbound_ack == s.sent_bytes {
                    Reaction { reply: Some(Message::Close { session }), deliver: None, flush: false }
                } else if s.should_close {
                    self.put(session, s);
                    assert(self@ =~= old(self)@);
                    Reaction { reply: None, deliver: None, flush: false }
                } else {
                    s.should_close = true;
                    self.put(session, s);
                    Reaction { reply: None, deliver: None, flush: true }
                }
            },
        }
    }

    /// Queues outbound bytes of `session`: they take the positions from
    /// `sent_bytes` on, are cut into pending segments, and the DATA frames
    /// that carry them are returned for a first transmission. Nothing happens
    /// for an unknown session, or where the stream would pass `u64::MAX`.
    pub fn queue_outbound(&mut self, session: u64, bytes: &[u8]) -> (r: Vec<Message>)
        requires
            old(self).inv(),
        ensures
            final(self).inv(),
            final(self)@ == (if old(self)@.contains_key(session) {
                old(self)@.insert(session, queued(old(self)@[session], bytes@))
            } else {
                old(self)@
            }),
            frames_of(r@) == (if old(self)@.contains_key(session) && old(self)@[session].sent_bytes
                + bytes@.len() <= u64::MAX {
                data_frames(session, chunks(old(self)@[session].sent_bytes as int, bytes@))
            } else {
                Seq::empty()
            }),
            forall|i: int| 0 <= i < r@.len() ==> frame_text(#[trigger] r@[i]@).len() <= MAX_DATAGRAM,
    {
        proof {
            lemma_queue_keeps_invariant(self@, session, bytes@);
        }
        match self.sessions.remove(&session) {
            None => {
                assert(self@ =~= old(self)@);
                let r: Vec<Message> = Vec::new();
                assert(frames_of(r@) =~= Seq::<Frame>::empty());
                r
            },
            Some(mut s) => {
                assert(self@ =~= old(self)@.remove(session));
                assert(old(self)@[session] == s@);
                if bytes.len() as u64 > u64::MAX - s.sent_bytes {
                    self.put(session, s);
                    assert(self@ =~= old(self)@.insert(session, s@));
                    assert(queued(old(self)@[session], bytes@) == s@);
                    let r: Vec<Message> = Vec::new();
                    assert(frames_of(r@) =~= Seq::<Frame>::empty());
                    return r;
                }
                let ghost before = s@;
                let out = push_chunks(&mut s.pending, session, s.sent_bytes, bytes);
                proof {
                    lemma_chunks(before.sent_bytes as int, bytes@);
                    lemma_frames_fit(session, chunks(before.sent_bytes as int, bytes@));
                    assert forall|i: int| 0 <= i < out@.len() implies frame_text(
                        #[trigger] out@[i]@,
                    ).len() <= MAX_DATAGRAM by {
                        assert(frames_of(out@).len() == out@.len());
                        assert(i < chunks(before.sent_bytes as int, bytes@).len());
                        assert(frames_of(out@)[i] == out@[i]@);
                        assert(frames_of(out@)[i] == data_frames(
                            session,
                            chunks(before.sent_bytes as int, bytes@),
                        )[i]);
                    }
                }
                s.sent_bytes = s.sent_bytes + bytes.len() as u64;
                assert(s@ == queued(before, bytes@));
                self.put(session, s);
                assert(self@ == old(self)@.insert(session, queued(old(self)@[session], bytes@)));
                out
            },
        }
    }

    /// The DATA frames of every segment of `session` that still waits for its
    /// acknowledgement; `None` once the session is gone.
    pub fn retransmit(&self, session: u64) -> (r: Option<Vec<Message>>)
        requires
            self.inv(),
        ensures
            match r {
                Some(v) => {
                    &&& self@.contains_key(session)
                    &&& frames_of(v@) == data_frames(session, self@[session].pending)
                    &&& forall|i: int|
                        0 <= i < v@.len() ==> frame_text(#[trigger] v@[i]@).len() <= MAX_DATAGRAM
                },
                None => !self@.contains_key(session),
            },
    {
        match self.sessions.get(&session) {
            None => None,
            Some(s) => {
                let ghost p = segments_of(s.pending@);
                let mut out: Vec<Message> = Vec::new();
                let mut i: usize = 0;
                while i < s.pending.len()
                    invariant
                        i <= s.pending@.len(),
                        p == segments_of(s.pending@),
                        frames_of(out@) == data_frames(session, p.subrange(0, i as int)),
                    decreases s.pending@.len() - i,
                {
                    let seg = &s.pending[i];
                    let data = copy_range(seg.data.as_slice(), 0, seg.data.len());
                    assert(data@ =~= seg.data@);
                    assert(p[i as int] == seg@);
                    let ghost o0 = frames_of(out@);
                    out.push(Message::Data { session, pos: seg.pos, data });
                    assert(frames_of(out@) =~= o0.push(Frame::Data { session, pos: seg.pos, data: seg.data@ }));
                    i += 1;
                    assert(frames_of(out@) =~= data_frames(session, p.subrange(0, i as int)));
                }
                assert(p.subrange(0, i as int) =~= p);
                proof {
                    assert(self.sessions@.contains_key(session));
                    assert(self@.contains_key(session));
                    assert(session_ok(self@[session]));
                    lemma_frames_fit(session, p);
                    assert forall|j: int| 0 <= j < out@.len() implies frame_text(
                        #[trigger] out@[j]@,
                    ).len() <= MAX_DATAGRAM by {
                        assert(frames_of(out@)[j] == out@[j]@);
                        assert(frames_of(out@)[j] == data_frames(session, p)[j]);
                    }
                }
                Some(out)
            },
        }
    }
}

/// Every frame keeps the invariant of every session in the table.
pub proof fn lemma_step_keeps_invariant<A>(m: Sessions<A>, f: Frame, from: A)
    requires
        sessions_ok(m),
    ensures
        sessions_ok(step(m, f, from).0),
{
    let m2 = step(m, f, from).0;
    match f {
        Frame::Ack { session, len } => {
            if m.contains_key(session) && m[session].outbound_ack < len <= m[session].sent_bytes {
                lemma_acked_ok(m[session], len);
            }
        },
        _ => {},
    }
    assert forall|id: u64| #[trigger] m2.contains_key(id) implies session_ok(m2[id]) by {
        assert(m.contains_key(id) ==> session_ok(m[id]));
    }
}

/// Queueing outbound bytes keeps the invariant of every session in the table.
pub proof fn lemma_queue_keeps_invariant<A>(m: Sessions<A>, session: u64, d: Seq<u8>)
    requires
        sessions_ok(m),
    ensures
        m.contains_key(session) ==> sessions_ok(m.insert(session, queued(m[session], d))),
{
    if m.contains_key(session) {
        lemma_queued_ok(m[session], d);
        let m2 = m.insert(session, queued(m[session], d));
        assert forall|id: u64| #[trigger] m2.contains_key(id) implies session_ok(m2[id]) by {
            assert(m.contains_key(id) ==> session_ok(m[id]));
        }
    }
}

/// A second CONNECT for the same id changes nothing that the first one did
/// not, and is answered the same way.
pub proof fn lemma_connect_idempotent<A>(m: Sessions<A>, session: u64, from: A, again: A)
    ensures
        step(step(m, Frame::Connect { session }, from).0, Frame::Connect { session }, again).0
            == step(m, Frame::Connect { session }, from).0,
        step(step(m, Frame::Connect { session }, from).0, Frame::Connect { session }, again).1
            == step(m, Frame::Connect { session }, from).1,
{
}

/// While a session stays open, no frame lowers its `delivered_bytes` or its
/// `outbound_ack`.
pub proof fn lemma_step_monotone<A>(m: Sessions<A>, f: Frame, from: A, id: u64)
    requires
        m.contains_key(id),
        step(m, f, from).0.contains_key(id),
    ensures
        step(m, f, from).0[id].delivered_bytes >= m[id].delivered_bytes,
        step(m, f, from).0[id].outbound_ack >= m[id].outbound_ack,
{
}

/// Queueing outbound bytes lowers neither counter of any session.
pub proof fn lemma_queue_monotone<A>(m: Sessions<A>, session: u64, d: Seq<u8>, id: u64)
    requires
        m.contains_key(id),
        m.contains_key(session),
    ensures
        m.insert(session, queued(m[session], d))[id].delivered_bytes >= m[id].delivered_bytes,
        m.insert(session, queued(m[session], d))[id].outbound_ack >= m[id].outbound_ack,
{
}

/// DATA hands bytes to the application only when they start exactly at the
/// end of the inbound stream, and then moves that end past them.
pub proof fn lemma_delivery_extends_stream<A>(
    m: Sessions<A>,
    session: u64,
    pos: u64,
    data: Seq<u8>,
    from: A,
)
    ensures
        step(m, Frame::Data { session, pos, data }, from).1.deliver is Some ==> {
            &&& m.contains_key(session)
            &&& pos == m[session].delivered_bytes
            &&& data.len() > 0
            &&& step(m, Frame::Data { session, pos, data }, from).1.deliver == Some(data)
            &&& step(m, Frame::Data { session, pos, data }, from).0[session].delivered_bytes == pos
                + data.len()
        },
{
}

/// Once the inbound stream of a session has passed offset `pos`, DATA at
/// `pos` hands nothing more to the application.
pub proof fn lemma_no_delivery_behind_stream<A>(
    m: Sessions<A>,
    session: u64,
    pos: u64,
    data: Seq<u8>,
    from: A,
)
    requires
        m.contains_key(session),
        pos < m[session].delivered_bytes,
    ensures
        step(m, Frame::Data { session, pos, data }, from).1.deliver is None,
{
}

/// A duplicate of a DATA frame that was just delivered delivers nothing.
pub proof fn lemma_duplicate_data_not_delivered<A>(
    m: Sessions<A>,
    session: u64,
    pos: u64,
    data: Seq<u8>,
    from: A,
    again: A,
)
    requires
        step(m, Frame::Data { session, pos, data }, from).1.deliver is Some,
    ensures
        step(
            step(m, Frame::Data { session, pos, data }, from).0,
            Frame::Data { session, pos, data },
            again,
        ).1.deliver is None,
{
}

/// A session leaves the table only on an ACK of bytes never sent, or when
/// it has been asked to close (by this frame or before) and everything sent
/// is acknowledged; and no session that was asked to close and has
/// everything acknowledged stays in the table.
pub proof fn lemma_removal<A>(m: Sessions<A>, f: Frame, from: A, id: u64)
    requires
        sessions_ok(m),
    ensures
        m.contains_key(id) && !step(m, f, from).0.contains_key(id) ==> {
            ||| (f matches Frame::Ack { session, len } && session == id && len
                > m[id].sent_bytes)
            ||| (f matches Frame::Ack { session, len } && session == id && m[id].should_close
                && len == m[id].sent_bytes)
            ||| (f == Frame::Close { session: id } && m[id].outbound_ack == m[id].sent_bytes)
        },
        step(m, f, from).0.contains_key(id) ==> !(step(m, f, from).0[id].should_close && step(
            m,
            f,
            from,
        ).0[id].outbound_ack == step(m, f, from).0[id].sent_bytes),
{
    lemma_step_keeps_invariant(m, f, from);
    match f {
        Frame::Ack { session, len } => {
            if m.contains_key(session) && m[session].outbound_ack < len <= m[session].sent_bytes {
                lemma_acked_ok(m[session], len);
            }
        },
        _ => {},
    }
}

} // verus!
