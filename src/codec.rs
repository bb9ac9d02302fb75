//! The wire format of frames: four slash-delimited ASCII message kinds, with
//! `\` and `/` escaped inside DATA payloads.
use vstd::prelude::*;

verus! {

pub const SLASH: u8 = 47;

pub const BACKSLASH: u8 = 92;

/// Whether `b` is an ASCII decimal digit.
pub open spec fn is_digit(b: u8) -> bool {
    48 <= b <= 57
}

/// The canonical decimal text of `n`: no sign, no leading zero.
pub open spec fn num_text(n: nat) -> Seq<u8>
    decreases n,
{
    if n < 10 {
        seq![(48 + n) as u8]
    } else {
        num_text(n / 10).push((48 + n % 10) as u8)
    }
}

/// The value of a string of decimal digits.
pub open spec fn num_value(s: Seq<u8>) -> nat
    decreases s.len(),
{
    if s.len() == 0 {
        0
    } else {
        num_value(s.drop_last()) * 10 + (s.last() - 48) as nat
    }
}

/// A numeric field: one or more digits, without a leading zero unless it is
/// the single digit `0`.
pub open spec fn is_num_text(s: Seq<u8>) -> bool {
    &&& s.len() > 0
    &&& forall|i: int| 0 <= i < s.len() ==> is_digit(#[trigger] s[i])
    &&& (s.len() == 1 || s[0] != 48)
}

/// The number that a field holds, when it is a numeric field whose value
/// fits in a `u64`.
pub open spec fn field_num(s: Seq<u8>) -> Option<u64> {
    if is_num_text(s) && num_value(s) <= u64::MAX {
        Some(num_value(s) as u64)
    } else {
        None
    }
}

/// The escaped form of one payload byte.
pub open spec fn escape_byte(b: u8) -> Seq<u8> {
    if b == SLASH {
        seq![BACKSLASH, SLASH]
    } else if b == BACKSLASH {
        seq![BACKSLASH, BACKSLASH]
    } else {
        seq![b]
    }
}

/// The escaped form of a payload, byte by byte from the left.
pub open spec fn escape(d: Seq<u8>) -> Seq<u8>
    decreases d.len(),
{
    if d.len() == 0 {
        Seq::empty()
    } else {
        escape_byte(d[0]) + escape(d.drop_first())
    }
}

/// Prepends `p` to the payload that `r` may hold.
pub open spec fn prepend(p: Seq<u8>, r: Option<Seq<u8>>) -> Option<Seq<u8>> {
    match r {
        Some(t) => Some(p + t),
        None => None,
    }
}

/// Reads an escaped payload from the left: `\\` and `\/` stand for `\` and
/// `/`; any other `\`, and any bare `/`, makes the payload invalid.
pub open spec fn unescape(p: Seq<u8>) -> Option<Seq<u8>>
    decreases p.len(),
{
    if p.len() == 0 {
        Some(Seq::empty())
    } else if p[0] == BACKSLASH {
        if p.len() >= 2 && (p[1] == BACKSLASH || p[1] == SLASH) {
            prepend(seq![p[1]], unescape(p.subrange(2, p.len() as int)))
        } else {
            None
        }
    } else if p[0] == SLASH {
        None
    } else {
        prepend(seq![p[0]], unescape(p.drop_first()))
    }
}

proof fn lemma_num_text_digits(n: nat)
    ensures
        is_num_text(num_text(n)),
        num_value(num_text(n)) == n,
        num_text(n).len() >= 1,
    decreases n,
{
    assert(num_value(Seq::<u8>::empty()) == 0);
    if n >= 10 {
        lemma_num_text_digits(n / 10);
        let t = num_text(n / 10);
        let s = t.push((48 + n % 10) as u8);
        assert(s.drop_last() =~= t);
        assert forall|i: int| 0 <= i < s.len() implies is_digit(#[trigger] s[i]) by {
            if i < t.len() {
                assert(s[i] == t[i]);
            }
        }
        assert(s[0] == t[0]);
        if t.len() == 1 && t[0] == 48 {
            assert(t.drop_last() =~= Seq::<u8>::empty());
            assert(t.last() == t[0]);
            assert(num_value(t) == 0);
        }
        assert(s.last() == (48 + n % 10) as u8);
        assert(num_value(s) == num_value(t) * 10 + n % 10);
        assert(n == (n / 10) * 10 + n % 10);
    } else {
        let s = num_text(n);
        assert(s.drop_last() =~= Seq::<u8>::empty());
        assert(s.last() == s[0]);
        assert(is_digit(s[0]));
    }
}

proof fn lemma_num_value_text(s: Seq<u8>)
    requires
        is_num_text(s),
    ensures
        num_text(num_value(s)) == s,
    decreases s.len(),
{
    let v = num_value(s);
    let t = s.drop_last();
    if s.len() == 1 {
        assert(t =~= Seq::<u8>::empty());
        assert(is_digit(s[0]));
        assert(num_text(v) =~= s);
    } else {
        assert(is_digit(s[s.len() - 1]));
        assert forall|i: int| 0 <= i < t.len() implies is_digit(#[trigger] t[i]) by {
            assert(t[i] == s[i]);
        }
        assert(t[0] == s[0]);
        lemma_num_value_text(t);
        lemma_num_value_positive(t);
        assert(v / 10 == num_value(t));
        assert(v % 10 == (s.last() - 48) as nat);
        assert(num_text(v) =~= s);
    }
}

proof fn lemma_num_value_positive(s: Seq<u8>)
    requires
        is_num_text(s),
        s.len() >= 1,
        s[0] != 48,
    ensures
        num_value(s) >= 1,
    decreases s.len(),
{
    if s.len() > 1 {
        let t = s.drop_last();
        assert(t[0] == s[0]);
        assert forall|i: int| 0 <= i < t.len() implies is_digit(#[trigger] t[i]) by {
            assert(t[i] == s[i]);
        }
        lemma_num_value_positive(t);
    } else {
        assert(is_digit(s[0]));
        assert(s.drop_last() =~= Seq::<u8>::empty());
    }
}

/// A number written by `num_text` reads back as itself.
pub proof fn lemma_field_num_round_trip(n: u64)
    ensures
        field_num(num_text(n as nat)) == Some(n),
{
    lemma_num_text_digits(n as nat);
}

/// A numeric field is the canonical text of the number it holds.
pub proof fn lemma_field_text_round_trip(s: Seq<u8>)
    requires
        field_num(s) is Some,
    ensures
        num_text(field_num(s).unwrap() as nat) == s,
{
    lemma_num_value_text(s);
}

/// Escaping and then unescaping gives the payload back.
pub proof fn lemma_unescape_escape(d: Seq<u8>)
    ensures
        unescape(escape(d)) == Some(d),
    decreases d.len(),
{
    if d.len() > 0 {
        let rest = d.drop_first();
        lemma_unescape_escape(rest);
        let e = escape(d);
        let er = escape(rest);
        assert(e == escape_byte(d[0]) + er);
        if d[0] == SLASH || d[0] == BACKSLASH {
            assert(e.subrange(2, e.len() as int) =~= er);
        } else {
            assert(e.drop_first() =~= er);
        }
        assert(seq![d[0]] + rest =~= d);
    } else {
        assert(escape(d) =~= Seq::<u8>::empty());
    }
}

/// A payload that unescapes is the escaped form of what it unescapes to.
pub proof fn lemma_escape_unescape(p: Seq<u8>)
    requires
        unescape(p) is Some,
    ensures
        escape(unescape(p).unwrap()) == p,
    decreases p.len(),
{
    if p.len() > 0 {
        let d = unescape(p).unwrap();
        if p[0] == BACKSLASH {
            let rest = p.subrange(2, p.len() as int);
            lemma_escape_unescape(rest);
            let dr = unescape(rest).unwrap();
            assert(d == seq![p[1]] + dr);
            assert(d.drop_first() =~= dr);
            assert(escape(d) == escape_byte(d[0]) + escape(dr));
            assert(escape(d) =~= p);
        } else {
            let rest = p.drop_first();
            lemma_escape_unescape(rest);
            let dr = unescape(rest).unwrap();
            assert(d == seq![p[0]] + dr);
            assert(d.drop_first() =~= dr);
            assert(escape(d) == escape_byte(d[0]) + escape(dr));
            assert(escape(d) =~= p);
        }
    } else {
        assert(unescape(p).unwrap() =~= Seq::<u8>::empty());
    }
}

/// What a frame says, with its payload as a sequence of bytes.
pub enum Frame {
    Connect { session: u64 },
    Data { session: u64, pos: u64, data: Seq<u8> },
    Ack { session: u64, len: u64 },
    Close { session: u64 },
}

/// `/connect/`
pub open spec fn connect_tag() -> Seq<u8> {
    seq![47u8, 99, 111, 110, 110, 101, 99, 116, 47]
}

/// `/data/`
pub open spec fn data_tag() -> Seq<u8> {
    seq![47u8, 100, 97, 116, 97, 47]
}

/// `/ack/`
pub open spec fn ack_tag() -> Seq<u8> {
    seq![47u8, 97, 99, 107, 47]
}

/// `/close/`
pub open spec fn close_tag() -> Seq<u8> {
    seq![47u8, 99, 108, 111, 115, 101, 47]
}

/// The wire text of a frame.
pub open spec fn frame_text(f: Frame) -> Seq<u8> {
    let sl = seq![SLASH];
    match f {
        Frame::Connect { session } => connect_tag() + num_text(session as nat) + sl,
        Frame::Data { session, pos, data } => data_tag() + num_text(session as nat) + sl
            + num_text(pos as nat) + sl + escape(data) + sl,
        Frame::Ack { session, len } => ack_tag() + num_text(session as nat) + sl + num_text(
            len as nat,
        ) + sl,
        Frame::Close { session } => close_tag() + num_text(session as nat) + sl,
    }
}

pub open spec fn starts_with(s: Seq<u8>, t: Seq<u8>) -> bool {
    t.len() <= s.len() && s.subrange(0, t.len() as int) == t
}

/// The index of the first `/` in `s` at or after `i`, or `s.len()` if there
/// is none.
pub open spec fn slash_from(s: Seq<u8>, i: nat) -> nat
    decreases s.len() - i,
{
    if i >= s.len() {
        s.len()
    } else if s[i as int] == SLASH {
        i
    } else {
        slash_from(s, i + 1)
    }
}

/// Reads the fields of an ACK body `SESSION/LENGTH`.
#[verifier::opaque]
pub open spec fn ack_fields(rest: Seq<u8>) -> Option<Frame> {
    let k = slash_from(rest, 0) as int;
    if k < rest.len() {
        match (field_num(rest.subrange(0, k)), field_num(rest.subrange(k + 1, rest.len() as int))) {
            (Some(session), Some(len)) => Some(Frame::Ack { session, len }),
            _ => None,
        }
    } else {
        None
    }
}

/// Reads the fields of a DATA body `SESSION/POS/PAYLOAD`.
#[verifier::opaque]
pub open spec fn data_fields(rest: Seq<u8>) -> Option<Frame> {
    let k1 = slash_from(rest, 0) as int;
    let rest2 = rest.subrange(k1 + 1, rest.len() as int);
    let k2 = slash_from(rest2, 0) as int;
    if k1 < rest.len() && k2 < rest2.len() {
        match (
            field_num(rest.subrange(0, k1)),
            field_num(rest2.subrange(0, k2)),
            unescape(rest2.subrange(k2 + 1, rest2.len() as int)),
        ) {
            (Some(session), Some(pos), Some(data)) => Some(Frame::Data { session, pos, data }),
            _ => None,
        }
    } else {
        None
    }
}

/// Reads a frame from its wire text: `None` when the text is not a frame.
pub open spec fn parse_frame(s: Seq<u8>) -> Option<Frame> {
    if s.len() == 0 || s.last() != SLASH {
        None
    } else {
        let body = s.drop_last();
        if starts_with(body, connect_tag()) {
            match field_num(body.subrange(9, body.len() as int)) {
                Some(session) => Some(Frame::Connect { session }),
                None => None,
            }
        } else if starts_with(body, data_tag()) {
            data_fields(body.subrange(6, body.len() as int))
        } else if starts_with(body, ack_tag()) {
            ack_fields(body.subrange(5, body.len() as int))
        } else if starts_with(body, close_tag()) {
            match field_num(body.subrange(7, body.len() as int)) {
                Some(session) => Some(Frame::Close { session }),
                None => None,
            }
        } else {
            None
        }
    }
}

proof fn lemma_slash_from_found(s: Seq<u8>, i: nat)
    ensures
        i <= slash_from(s, i) <= s.len() || (i > s.len() && slash_from(s, i) == s.len()),
        slash_from(s, i) < s.len() ==> s[slash_from(s, i) as int] == SLASH,
        forall|j: int| i <= j < slash_from(s, i) ==> s[j] != SLASH,
    decreases s.len() - i,
{
    if i < s.len() && s[i as int] != SLASH {
        lemma_slash_from_found(s, i + 1);
    }
}

/// In `t / u` with no `/` in `t`, the first `/` follows `t`.
proof fn lemma_slash_after(t: Seq<u8>, u: Seq<u8>, i: nat)
    requires
        forall|j: int| 0 <= j < t.len() ==> t[j] != SLASH,
        i <= t.len(),
    ensures
        slash_from(t + seq![SLASH] + u, i) == t.len(),
    decreases t.len() - i,
{
    let s = t + seq![SLASH] + u;
    if i < t.len() {
        assert(s[i as int] == t[i as int]);
        lemma_slash_after(t, u, i + 1);
    } else {
        assert(s[i as int] == SLASH);
    }
}

proof fn lemma_num_text_no_slash(n: nat)
    ensures
        forall|j: int| 0 <= j < num_text(n).len() ==> num_text(n)[j] != SLASH,
        num_text(n).len() >= 1,
{
    lemma_num_text_digits(n);
    assert forall|j: int| 0 <= j < num_text(n).len() implies num_text(n)[j] != SLASH by {
        assert(is_digit(num_text(n)[j]));
    }
}

proof fn lemma_parse_connect(session: u64)
    ensures
        parse_frame(frame_text(Frame::Connect { session })) == Some(Frame::Connect { session }),
{
    let s = frame_text(Frame::Connect { session });
    let body = s.drop_last();
    let t = num_text(session as nat);
    lemma_field_num_round_trip(session);
    assert(body =~= connect_tag() + t);
    assert(body.subrange(0, 9) =~= connect_tag());
    assert(body.subrange(9, body.len() as int) =~= t);
}

proof fn lemma_parse_close(session: u64)
    ensures
        parse_frame(frame_text(Frame::Close { session })) == Some(Frame::Close { session }),
{
    let s = frame_text(Frame::Close { session });
    let body = s.drop_last();
    let t = num_text(session as nat);
    lemma_field_num_round_trip(session);
    lemma_num_text_no_slash(session as nat);
    assert(body =~= close_tag() + t);
    assert(body.subrange(0, 7) =~= close_tag());
    assert(body.subrange(7, body.len() as int) =~= t);
    assert(body[2] != connect_tag()[2]);
    assert(body[1] != data_tag()[1]);
    assert(body[1] != ack_tag()[1]);
}

proof fn lemma_ack_fields_text(session: u64, len: u64)
    ensures
        ack_fields(num_text(session as nat) + seq![SLASH] + num_text(len as nat)) == Some(
            Frame::Ack { session, len },
        ),
{
    reveal(ack_fields);
    let t = num_text(session as nat);
    let u = num_text(len as nat);
    let rest = t + seq![SLASH] + u;
    lemma_field_num_round_trip(session);
    lemma_field_num_round_trip(len);
    lemma_num_text_no_slash(session as nat);
    lemma_slash_after(t, u, 0);
    assert(rest.subrange(0, t.len() as int) =~= t);
    assert(rest.subrange(t.len() as int + 1, rest.len() as int) =~= u);
}

proof fn lemma_parse_ack(session: u64, len: u64)
    ensures
        parse_frame(frame_text(Frame::Ack { session, len })) == Some(Frame::Ack { session, len }),
{
    let s = frame_text(Frame::Ack { session, len });
    let body = s.drop_last();
    let rest = num_text(session as nat) + seq![SLASH] + num_text(len as nat);
    lemma_num_text_no_slash(session as nat);
    lemma_ack_fields_text(session, len);
    assert(body =~= ack_tag() + rest);
    assert(body.subrange(0, 5) =~= ack_tag());
    assert(body.subrange(5, body.len() as int) =~= rest);
    assert(body[1] != connect_tag()[1]);
    assert(body[1] != data_tag()[1]);
}

proof fn lemma_data_fields_text(session: u64, pos: u64, data: Seq<u8>)
    ensures
        data_fields(
            num_text(session as nat) + seq![SLASH] + (num_text(pos as nat) + seq![SLASH] + escape(
                data,
            )),
        ) == Some(Frame::Data { session, pos, data }),
{
    reveal(data_fields);
    let sl = seq![SLASH];
    let t = num_text(session as nat);
    let u = num_text(pos as nat);
    let e = escape(data);
    let rest = t + sl + (u + sl + e);
    lemma_field_num_round_trip(session);
    lemma_field_num_round_trip(pos);
    lemma_num_text_no_slash(session as nat);
    lemma_num_text_no_slash(pos as nat);
    lemma_unescape_escape(data);
    lemma_slash_after(t, u + sl + e, 0);
    assert(rest.subrange(0, t.len() as int) =~= t);
    let rest2 = rest.subrange(t.len() as int + 1, rest.len() as int);
    assert(rest2 =~= u + sl + e);
    lemma_slash_after(u, e, 0);
    assert(rest2.subrange(0, u.len() as int) =~= u);
    assert(rest2.subrange(u.len() as int + 1, rest2.len() as int) =~= e);
}

proof fn lemma_data_text(session: u64, pos: u64, data: Seq<u8>)
    ensures
        frame_text(Frame::Data { session, pos, data }) == data_tag() + (num_text(session as nat)
            + seq![SLASH] + (num_text(pos as nat) + seq![SLASH] + escape(data))) + seq![SLASH],
{
    let sl = seq![SLASH];
    assert(frame_text(Frame::Data { session, pos, data }) =~= data_tag() + (num_text(
        session as nat,
    ) + sl + (num_text(pos as nat) + sl + escape(data))) + sl);
}

#[verifier::rlimit(20)]
proof fn lemma_parse_data(session: u64, pos: u64, data: Seq<u8>)
    ensures
        parse_frame(frame_text(Frame::Data { session, pos, data })) == Some(
            Frame::Data { session, pos, data },
        ),
{
    let sl = seq![SLASH];
    let t = num_text(session as nat);
    let rest = t + sl + (num_text(pos as nat) + sl + escape(data));
    lemma_data_text(session, pos, data);
    lemma_data_fields_text(session, pos, data);
    lemma_num_text_no_slash(session as nat);
    let body = data_tag() + rest;
    assert((body + sl).drop_last() =~= body);
    assert(body.subrange(0, 6) =~= data_tag());
    assert(body.subrange(6, body.len() as int) =~= rest);
    assert(body[1] != connect_tag()[1]);
}

/// Decoding the wire text of a frame gives the frame back.
pub proof fn lemma_parse_frame_text(f: Frame)
    ensures
        parse_frame(frame_text(f)) == Some(f),
{
    match f {
        Frame::Connect { session } => lemma_parse_connect(session),
        Frame::Close { session } => lemma_parse_close(session),
        Frame::Ack { session, len } => lemma_parse_ack(session, len),
        Frame::Data { session, pos, data } => lemma_parse_data(session, pos, data),
    }
}

proof fn lemma_ack_fields_parse(rest: Seq<u8>)
    requires
        ack_fields(rest) is Some,
    ensures
        frame_text(ack_fields(rest).unwrap()) == ack_tag() + rest + seq![SLASH],
{
    reveal(ack_fields);
    let sl = seq![SLASH];
    let k = slash_from(rest, 0) as int;
    lemma_slash_from_found(rest, 0);
    let t = rest.subrange(0, k);
    let u = rest.subrange(k + 1, rest.len() as int);
    lemma_field_text_round_trip(t);
    lemma_field_text_round_trip(u);
    assert(rest =~= t + sl + u);
    assert(ack_tag() + rest + sl =~= ack_tag() + t + sl + u + sl);
}

proof fn lemma_data_fields_parse(rest: Seq<u8>)
    requires
        data_fields(rest) is Some,
    ensures
        frame_text(data_fields(rest).unwrap()) == data_tag() + rest + seq![SLASH],
{
    reveal(data_fields);
    let sl = seq![SLASH];
    let k1 = slash_from(rest, 0) as int;
    lemma_slash_from_found(rest, 0);
    let rest2 = rest.subrange(k1 + 1, rest.len() as int);
    let k2 = slash_from(rest2, 0) as int;
    lemma_slash_from_found(rest2, 0);
    let t = rest.subrange(0, k1);
    let u = rest2.subrange(0, k2);
    let e = rest2.subrange(k2 + 1, rest2.len() as int);
    lemma_field_text_round_trip(t);
    lemma_field_text_round_trip(u);
    lemma_escape_unescape(e);
    assert(rest2 =~= u + sl + e);
    assert(rest =~= t + sl + rest2);
    assert(data_tag() + rest + sl =~= data_tag() + t + sl + u + sl + e + sl);
}

/// Any text that decodes is the wire text of the frame it decodes to.
pub proof fn lemma_frame_text_parse(s: Seq<u8>)
    requires
        parse_frame(s) is Some,
    ensures
        frame_text(parse_frame(s).unwrap()) == s,
{
    let sl = seq![SLASH];
    let body = s.drop_last();
    assert(s =~= body + sl);
    if starts_with(body, connect_tag()) {
        let t = body.subrange(9, body.len() as int);
        lemma_field_text_round_trip(t);
        assert(body =~= connect_tag() + t);
    } else if starts_with(body, data_tag()) {
        let rest = body.subrange(6, body.len() as int);
        assert(body =~= data_tag() + rest);
        lemma_data_fields_parse(rest);
    } else if starts_with(body, ack_tag()) {
        let rest = body.subrange(5, body.len() as int);
        assert(body =~= ack_tag() + rest);
        lemma_ack_fields_parse(rest);
    } else {
        let t = body.subrange(7, body.len() as int);
        lemma_field_text_round_trip(t);
        assert(body =~= close_tag() + t);
    }
}

/// A frame as the program holds it.
#[derive(Debug, PartialEq, Eq)]
pub enum Message {
    Connect { session: u64 },
    Data { session: u64, pos: u64, data: Vec<u8> },
    Ack { session: u64, len: u64 },
    Close { session: u64 },
}

impl View for Message {
    type V = Frame;

    open spec fn view(&self) -> Frame {
        match self {
            Message::Connect { session } => Frame::Connect { session: *session },
            Message::Data { session, pos, data } => Frame::Data {
                session: *session,
                pos: *pos,
                data: data@,
            },
            Message::Ack { session, len } => Frame::Ack { session: *session, len: *len },
            Message::Close { session } => Frame::Close { session: *session },
        }
    }
}

/// A datagram that is not a frame.
#[derive(Debug, PartialEq, Eq, Clone, Copy)]
pub struct FrameError;

/// Whether `b` starts with `tag`.
fn has_tag(b: &[u8], tag: &[u8]) -> (r: bool)
    ensures
        r == starts_with(b@, tag@),
{
    if tag.len() > b.len() {
        return false;
    }
    let mut i: usize = 0;
    while i < tag.len()
        invariant
            tag@.len() <= b@.len(),
            i <= tag@.len(),
            forall|j: int| 0 <= j < i ==> b@[j] == tag@[j],
        decreases tag@.len() - i,
    {
        if b[i] != tag[i] {
            assert(b@.subrange(0, tag@.len() as int)[i as int] != tag@[i as int]);
            return false;
        }
        i += 1;
    }
    assert(b@.subrange(0, tag@.len() as int) =~= tag@);
    true
}

/// The first `/` at or after `from`, and before `end`; `end` if there is none.
fn find_slash(b: &[u8], from: usize, end: usize) -> (r: usize)
    requires
        from <= end <= b@.len(),
    ensures
        r == from + slash_from(b@.subrange(from as int, end as int), 0),
{
    let ghost sub = b@.subrange(from as int, end as int);
    let mut i: usize = from;
    while i < end
        invariant
            from <= i <= end <= b@.len(),
            sub == b@.subrange(from as int, end as int),
            slash_from(sub, 0) == slash_from(sub, (i - from) as nat),
        decreases end - i,
    {
        assert(sub[i - from] == b@[i as int]);
        if b[i] == SLASH {
            return i;
        }
        i += 1;
    }
    i
}

proof fn lemma_num_value_prefix(s: Seq<u8>, k: int)
    requires
        0 <= k <= s.len(),
    ensures
        num_value(s.subrange(0, k)) <= num_value(s),
    decreases s.len(),
{
    if k < s.len() {
        let t = s.drop_last();
        lemma_num_value_prefix(t, k);
        assert(t.subrange(0, k) =~= s.subrange(0, k));
    } else {
        assert(s.subrange(0, k) =~= s);
    }
}

/// Reads the numeric field `b[from..end]`.
fn parse_field(b: &[u8], from: usize, end: usize) -> (r: Option<u64>)
    requires
        from <= end <= b@.len(),
    ensures
        r == field_num(b@.subrange(from as int, end as int)),
{
    let ghost sub = b@.subrange(from as int, end as int);
    if from == end {
        return None;
    }
    if end - from > 1 && b[from] == 48 {
        assert(sub[0] == 48);
        return None;
    }
    let mut acc: u64 = 0;
    let mut i: usize = from;
    assert(b@.subrange(from as int, from as int) =~= Seq::<u8>::empty());
    while i < end
        invariant
            from < end <= b@.len(),
            from <= i <= end,
            sub == b@.subrange(from as int, end as int),
            end - from == 1 || sub[0] != 48,
            acc == num_value(b@.subrange(from as int, i as int)),
            forall|j: int| 0 <= j < i - from ==> is_digit(#[trigger] sub[j]),
        decreases end - i,
    {
        let c = b[i];
        assert(sub[i - from] == c);
        if c < 48 || c > 57 {
            return None;
        }
        let next: u128 = acc as u128 * 10 + (c - 48) as u128;
        let ghost pre = b@.subrange(from as int, i as int + 1);
        assert(pre.drop_last() =~= b@.subrange(from as int, i as int));
        assert(pre.last() == c);
        if next > u64::MAX as u128 {
            proof {
                assert(sub.subrange(0, i - from + 1) =~= pre);
                lemma_num_value_prefix(sub, i - from + 1);
            }
            return None;
        }
        acc = next as u64;
        i += 1;
    }
    assert(b@.subrange(from as int, i as int) =~= sub);
    Some(acc)
}

/// Reads the escaped payload `b[from..end]` from the left.
fn unescape_field(b: &[u8], from: usize, end: usize) -> (r: Option<Vec<u8>>)
    requires
        from <= end <= b@.len(),
    ensures
        match r {
            Some(v) => unescape(b@.subrange(from as int, end as int)) == Some(v@),
            None => unescape(b@.subrange(from as int, end as int)) is None,
        },
{
    let mut out: Vec<u8> = Vec::new();
    let mut i: usize = from;
    assert(out@ + b@.subrange(from as int, end as int) =~= b@.subrange(from as int, end as int));
    while i < end
        invariant
            from <= i <= end <= b@.len(),
            unescape(b@.subrange(from as int, end as int)) == prepend(
                out@,
                unescape(b@.subrange(i as int, end as int)),
            ),
        decreases end - i,
    {
        let ghost rest = b@.subrange(i as int, end as int);
        let ghost o = out@;
        let c = b[i];
        assert(rest[0] == c);
        if c == BACKSLASH {
            if i + 1 < end && (b[i + 1] == BACKSLASH || b[i + 1] == SLASH) {
                let d = b[i + 1];
                assert(rest[1] == d);
                assert(rest.subrange(2, rest.len() as int) =~= b@.subrange(i + 2, end as int));
                out.push(d);
                i += 2;
                proof {
                    match unescape(b@.subrange(i as int, end as int)) {
                        Some(t) => assert(o + (seq![d] + t) =~= out@ + t),
                        None => {},
                    }
                }
            } else {
                return None;
            }
        } else if c == SLASH {
            return None;
        } else {
            assert(rest.drop_first() =~= b@.subrange(i + 1, end as int));
            out.push(c);
            i += 1;
            proof {
                match unescape(b@.subrange(i as int, end as int)) {
                    Some(t) => assert(o + (seq![c] + t) =~= out@ + t),
                    None => {},
                }
            }
        }
    }
    assert(b@.subrange(i as int, end as int) =~= Seq::<u8>::empty());
    assert(out@ + Seq::<u8>::empty() =~= out@);
    Some(out)
}

fn connect_tag_bytes() -> (r: Vec<u8>)
    ensures
        r@ == connect_tag(),
{
    let r = vec![47u8, 99, 111, 110, 110, 101, 99, 116, 47];
    assert(r@ =~= connect_tag());
    r
}

fn data_tag_bytes() -> (r: Vec<u8>)
    ensures
        r@ == data_tag(),
{
    let r = vec![47u8, 100, 97, 116, 97, 47];
    assert(r@ =~= data_tag());
    r
}

fn ack_tag_bytes() -> (r: Vec<u8>)
    ensures
        r@ == ack_tag(),
{
    let r = vec![47u8, 97, 99, 107, 47];
    assert(r@ =~= ack_tag());
    r
}

fn close_tag_bytes() -> (r: Vec<u8>)
    ensures
        r@ == close_tag(),
{
    let r = vec![47u8, 99, 108, 111, 115, 101, 47];
    assert(r@ =~= close_tag());
    r
}

/// Whether the text before the final byte of `b` starts with `tag`.
fn body_has_tag(b: &[u8], tag: &Vec<u8>) -> (r: bool)
    requires
        b@.len() >= 1,
    ensures
        r == starts_with(b@.drop_last(), tag@),
{
    if tag.len() > b.len() - 1 {
        return false;
    }
    let r = has_tag(b, tag.as_slice());
    assert(b@.drop_last().subrange(0, tag@.len() as int) =~= b@.subrange(0, tag@.len() as int));
    r
}

/// Appends `src` to `out`.
fn push_all(out: &mut Vec<u8>, src: &Vec<u8>)
    ensures
        final(out)@ == old(out)@ + src@,
{
    let mut i: usize = 0;
    while i < src.len()
        invariant
            i <= src@.len(),
            out@ == old(out)@ + src@.subrange(0, i as int),
        decreases src@.len() - i,
    {
        out.push(src[i]);
        i += 1;
        assert(out@ =~= old(out)@ + src@.subrange(0, i as int));
    }
    assert(src@.subrange(0, i as int) =~= src@);
}

/// Appends the decimal text of `n` to `out`.
fn push_num(out: &mut Vec<u8>, n: u64)
    ensures
        final(out)@ == old(out)@ + num_text(n as nat),
    decreases n,
{
    if n >= 10 {
        push_num(out, n / 10);
    }
    out.push(48 + (n % 10) as u8);
    assert(out@ =~= old(out)@ + num_text(n as nat));
}

/// Appends the escaped form of `data` to `out`.
fn push_escaped(out: &mut Vec<u8>, data: &Vec<u8>)
    ensures
        final(out)@ == old(out)@ + escape(data@),
{
    let mut i: usize = 0;
    assert(data@.subrange(0, data@.len() as int) =~= data@);
    while i < data.len()
        invariant
            i <= data@.len(),
            out@ + escape(data@.subrange(i as int, data@.len() as int)) == old(out)@ + escape(
                data@,
            ),
        decreases data@.len() - i,
    {
        let ghost rest = data@.subrange(i as int, data@.len() as int);
        let ghost o = out@;
        let c = data[i];
        assert(rest[0] == c);
        assert(rest.drop_first() =~= data@.subrange(i + 1, data@.len() as int));
        if c == SLASH || c == BACKSLASH {
            out.push(BACKSLASH);
        }
        out.push(c);
        i += 1;
        assert(o + escape(rest) =~= out@ + escape(data@.subrange(i as int, data@.len() as int)));
    }
    assert(data@.subrange(i as int, data@.len() as int) =~= Seq::<u8>::empty());
    assert(out@ + Seq::<u8>::empty() =~= out@);
}

/// Reads the fields `b[6..end]` of a DATA frame.
fn parse_data_fields(b: &[u8], end: usize) -> (r: Option<Message>)
    requires
        6 <= end <= b@.len(),
    ensures
        match r {
            Some(m) => data_fields(b@.subrange(6, end as int)) == Some(m@),
            None => data_fields(b@.subrange(6, end as int)) is None,
        },
{
    reveal(data_fields);
    let ghost rest = b@.subrange(6, end as int);
    let k1 = find_slash(b, 6, end);
    proof {
        lemma_slash_from_found(rest, 0);
    }
    if k1 == end {
        return None;
    }
    let ghost rest2 = rest.subrange(k1 - 6 + 1, rest.len() as int);
    assert(rest.subrange(0, k1 - 6) =~= b@.subrange(6, k1 as int));
    assert(rest2 =~= b@.subrange(k1 + 1, end as int));
    let k2 = find_slash(b, k1 + 1, end);
    proof {
        lemma_slash_from_found(rest2, 0);
    }
    if k2 == end {
        return None;
    }
    assert(rest2.subrange(0, k2 - (k1 + 1)) =~= b@.subrange(k1 + 1, k2 as int));
    assert(rest2.subrange(k2 - (k1 + 1) + 1, rest2.len() as int) =~= b@.subrange(
        k2 + 1,
        end as int,
    ));
    let session = parse_field(b, 6, k1);
    let pos = parse_field(b, k1 + 1, k2);
    let payload = unescape_field(b, k2 + 1, end);
    match (session, pos, payload) {
        (Some(session), Some(pos), Some(data)) => Some(Message::Data { session, pos, data }),
        _ => None,
    }
}

/// Reads the fields `b[5..end]` of an ACK frame.
fn parse_ack_fields(b: &[u8], end: usize) -> (r: Option<Message>)
    requires
        5 <= end <= b@.len(),
    ensures
        match r {
            Some(m) => ack_fields(b@.subrange(5, end as int)) == Some(m@),
            None => ack_fields(b@.subrange(5, end as int)) is None,
        },
{
    reveal(ack_fields);
    let ghost rest = b@.subrange(5, end as int);
    let k = find_slash(b, 5, end);
    proof {
        lemma_slash_from_found(rest, 0);
    }
    if k == end {
        return None;
    }
    assert(rest.subrange(0, k - 5) =~= b@.subrange(5, k as int));
    assert(rest.subrange(k - 5 + 1, rest.len() as int) =~= b@.subrange(k + 1, end as int));
    let session = parse_field(b, 5, k);
    let len = parse_field(b, k + 1, end);
    match (session, len) {
        (Some(session), Some(len)) => Some(Message::Ack { session, len }),
        _ => None,
    }
}

impl Message {
    /// Decodes one datagram.
    pub fn parse(b: &[u8]) -> (r: Result<Message, FrameError>)
        ensures
            match r {
                Ok(m) => parse_frame(b@) == Some(m@),
                Err(_) => parse_frame(b@) is None,
            },
    {
        let n = b.len();
        if n == 0 || b[n - 1] != SLASH {
            return Err(FrameError);
        }
        let end = n - 1;
        let ghost body = b@.drop_last();
        assert(body.len() == end);
        let connect = connect_tag_bytes();
        let data = data_tag_bytes();
        let ack = ack_tag_bytes();
        let close = close_tag_bytes();
        if body_has_tag(b, &connect) {
            assert(body.subrange(9, end as int) =~= b@.subrange(9, end as int));
            match parse_field(b, 9, end) {
                Some(session) => Ok(Message::Connect { session }),
                None => Err(FrameError),
            }
        } else if body_has_tag(b, &data) {
            assert(body.subrange(6, end as int) =~= b@.subrange(6, end as int));
            match parse_data_fields(b, end) {
                Some(m) => Ok(m),
                None => Err(FrameError),
            }
        } else if body_has_tag(b, &ack) {
            assert(body.subrange(5, end as int) =~= b@.subrange(5, end as int));
            match parse_ack_fields(b, end) {
                Some(m) => Ok(m),
                None => Err(FrameError),
            }
        } else if body_has_tag(b, &close) {
            assert(body.subrange(7, end as int) =~= b@.subrange(7, end as int));
            match parse_field(b, 7, end) {
                Some(session) => Ok(Message::Close { session }),
                None => Err(FrameError),
            }
        } else {
            Err(FrameError)
        }
    }

    /// Encodes the frame as one datagram.
    pub fn serialize(&self) -> (r: Vec<u8>)
        ensures
            r@ == frame_text(self@),
    {
        let mut out: Vec<u8> = Vec::new();
        match self {
            Message::Connect { session } => {
                push_all(&mut out, &connect_tag_bytes());
                push_num(&mut out, *session);
                out.push(SLASH);
            },
            Message::Data { session, pos, data } => {
                push_all(&mut out, &data_tag_bytes());
                push_num(&mut out, *session);
                out.push(SLASH);
                push_num(&mut out, *pos);
                out.push(SLASH);
                push_escaped(&mut out, data);
                out.push(SLASH);
            },
            Message::Ack { session, len } => {
                push_all(&mut out, &ack_tag_bytes());
                push_num(&mut out, *session);
                out.push(SLASH);
                push_num(&mut out, *len);
                out.push(SLASH);
            },
            Message::Close { session } => {
                push_all(&mut out, &close_tag_bytes());
                push_num(&mut out, *session);
                out.push(SLASH);
            },
        }
        assert(out@ =~= frame_text(self@));
        out
    }
}

/// The largest datagram this library emits.
pub const MAX_DATAGRAM: usize = 1000;

pub open spec fn pow10(k: nat) -> nat
    decreases k,
{
    if k == 0 {
        1
    } else {
        10 * pow10((k - 1) as nat)
    }
}

proof fn lemma_num_text_len(n: nat, k: nat)
    requires
        k >= 1,
        n < pow10(k),
    ensures
        num_text(n).len() <= k,
    decreases k,
{
    if n >= 10 {
        assert(k >= 2) by {
            if k == 1 {
                assert(pow10(1) == 10 * pow10(0));
            }
        }
        lemma_num_text_len(n / 10, (k - 1) as nat);
    }
}

/// A `u64` is written with at most 20 digits.
pub proof fn lemma_num_text_u64(n: u64)
    ensures
        num_text(n as nat).len() <= 20,
{
    reveal_with_fuel(pow10, 21);
    assert(pow10(20) == 100_000_000_000_000_000_000nat);
    lemma_num_text_len(n as nat, 20);
}

/// Escaping at most doubles a payload.
pub proof fn lemma_escape_len(d: Seq<u8>)
    ensures
        escape(d).len() <= 2 * d.len(),
    decreases d.len(),
{
    if d.len() > 0 {
        lemma_escape_len(d.drop_first());
    }
}

/// A DATA frame whose payload holds at most 450 bytes fits in one datagram.
pub proof fn lemma_data_frame_fits(session: u64, pos: u64, data: Seq<u8>)
    requires
        data.len() <= 450,
    ensures
        frame_text(Frame::Data { session, pos, data }).len() <= MAX_DATAGRAM,
{
    lemma_num_text_u64(session);
    lemma_num_text_u64(pos);
    lemma_escape_len(data);
}

} // verus!
