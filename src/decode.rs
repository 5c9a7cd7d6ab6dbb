//! The streaming decoder: bytes are fed in chunks of any size, and each call
//! of `decode` yields the next complete protocol message, asks for more
//! input, or fails.

use crate::buffer::{buffer_advance, buffer_bytes, buffer_extend, buffer_slice, buffer_with_capacity};
use crate::encode::{crlf, decimal, push_all, CR, LF};
use crate::json::{json_accepts, json_bool_field, json_bool_member};
use crate::token::{
    all_printable, all_tokens, digits_value, find_lf, is_digits, is_token, join_words,
    lemma_decimal_digits, lemma_words_join,
    parse_decimal, split_words, starts_with, words,
};
use bytes::BytesMut;
use vstd::prelude::*;
use vstd::slice::slice_subrange;

verus! {

/// Why decoding failed. The protocol offers no point to resynchronise at,
/// so the connection ends.
#[derive(Debug, PartialEq, Eq)]
pub enum Error {
    Parse,
}

/// A message, or the news that the buffer does not hold one yet.
#[derive(Debug, PartialEq, Eq)]
pub enum Poll<T> {
    Ready(T),
    Pending,
}

impl<T> Poll<T> {
    pub fn is_pending(&self) -> (r: bool)
        ensures
            r == (self is Pending),
    {
        match self {
            Poll::Pending => true,
            Poll::Ready(_) => false,
        }
    }
}

/// The body of a CONNECT, with the two members the broker reads.
#[derive(Debug, PartialEq, Eq)]
pub struct ConnectInfo {
    pub json: Vec<u8>,
    pub verbose: Option<bool>,
    pub ssl_require: Option<bool>,
}

/// A message from a client.
#[derive(Debug, PartialEq, Eq)]
pub enum Message {
    Connect(ConnectInfo),
    /// Subject, queue group, sid.
    Sub(Vec<u8>, Option<Vec<u8>>, Vec<u8>),
    /// Subject, reply subject, payload.
    Pub(Vec<u8>, Option<Vec<u8>>, Vec<u8>),
    /// Sid, number of further deliveries.
    UnSub(Vec<u8>, Option<u32>),
    Pong,
    Ping,
}

/// A message as the bytes it carries.
pub enum Frame {
    Connect { json: Seq<u8>, verbose: Option<bool>, ssl_require: Option<bool> },
    Sub { subject: Seq<u8>, queue: Option<Seq<u8>>, sid: Seq<u8> },
    Pub { subject: Seq<u8>, reply: Option<Seq<u8>>, payload: Seq<u8> },
    UnSub { sid: Seq<u8>, max: Option<u32> },
    Pong,
    Ping,
}

pub open spec fn opt_bytes(o: Option<Vec<u8>>) -> Option<Seq<u8>> {
    match o {
        Some(v) => Some(v@),
        None => None,
    }
}

impl Message {
    pub open spec fn view(&self) -> Frame {
        match self {
            Message::Connect(c) => Frame::Connect {
                json: c.json@,
                verbose: c.verbose,
                ssl_require: c.ssl_require,
            },
            Message::Sub(s, q, i) => Frame::Sub { subject: s@, queue: opt_bytes(*q), sid: i@ },
            Message::Pub(s, r, p) => Frame::Pub { subject: s@, reply: opt_bytes(*r), payload: p@ },
            Message::UnSub(i, m) => Frame::UnSub { sid: i@, max: *m },
            Message::Pong => Frame::Pong,
            Message::Ping => Frame::Ping,
        }
    }
}

/// `PING`
pub open spec fn word_ping() -> Seq<u8> {
    seq![0x50u8, 0x49u8, 0x4eu8, 0x47u8]
}

/// `PONG`
pub open spec fn word_pong() -> Seq<u8> {
    seq![0x50u8, 0x4fu8, 0x4eu8, 0x47u8]
}

/// `CONNECT ` with its space.
pub open spec fn verb_connect() -> Seq<u8> {
    seq![0x43u8, 0x4fu8, 0x4eu8, 0x4eu8, 0x45u8, 0x43u8, 0x54u8, 0x20u8]
}

/// `SUB ` with its space.
pub open spec fn verb_sub() -> Seq<u8> {
    seq![0x53u8, 0x55u8, 0x42u8, 0x20u8]
}

/// `PUB ` with its space.
pub open spec fn verb_pub() -> Seq<u8> {
    seq![0x50u8, 0x55u8, 0x42u8, 0x20u8]
}

/// `UNSUB ` with its space.
pub open spec fn verb_unsub() -> Seq<u8> {
    seq![0x55u8, 0x4eu8, 0x53u8, 0x55u8, 0x42u8, 0x20u8]
}

pub open spec fn has_prefix(s: Seq<u8>, prefix: Seq<u8>) -> bool {
    prefix.len() <= s.len() && s.subrange(0, prefix.len() as int) == prefix
}

/// A line without the CR that may end it.
pub open spec fn strip_cr(line: Seq<u8>) -> Seq<u8> {
    if line.len() > 0 && line.last() == CR {
        line.drop_last()
    } else {
        line
    }
}

/// `i` is where the first LF of `b` stands.
pub open spec fn is_first_lf(b: Seq<u8>, i: int) -> bool {
    &&& 0 <= i < b.len()
    &&& b[i] == LF
    &&& forall|j: int| 0 <= j < i ==> b[j] != LF
}

pub open spec fn first_lf(b: Seq<u8>) -> Option<int> {
    if exists|i: int| is_first_lf(b, i) {
        Some(choose|i: int| is_first_lf(b, i))
    } else {
        None
    }
}

/// What one complete line says.
pub enum Line {
    /// A whole message.
    Done(Frame),
    /// The header of a PUB: subject, reply subject and payload length.
    PubHeader(Seq<u8>, Option<Seq<u8>>, nat),
    Bad,
}

/// The meaning of a line, without its line end.
pub open spec fn classify(c: Seq<u8>) -> Line {
    if c == word_ping() {
        Line::Done(Frame::Ping)
    } else if c == word_pong() {
        Line::Done(Frame::Pong)
    } else if has_prefix(c, verb_connect()) {
        let body = c.subrange(8, c.len() as int);
        if json_accepts(body) {
            Line::Done(
                Frame::Connect {
                    json: body,
                    verbose: json_bool_field(body, "verbose"@),
                    ssl_require: json_bool_field(body, "ssl_require"@),
                },
            )
        } else {
            Line::Bad
        }
    } else if has_prefix(c, verb_sub()) {
        let w = words(c.subrange(4, c.len() as int));
        if !all_tokens(w) {
            Line::Bad
        } else if w.len() == 2 {
            Line::Done(Frame::Sub { subject: w[0], queue: None, sid: w[1] })
        } else if w.len() == 3 {
            Line::Done(Frame::Sub { subject: w[0], queue: Some(w[1]), sid: w[2] })
        } else {
            Line::Bad
        }
    } else if has_prefix(c, verb_unsub()) {
        let w = words(c.subrange(6, c.len() as int));
        if !all_tokens(w) {
            Line::Bad
        } else if w.len() == 1 {
            Line::Done(Frame::UnSub { sid: w[0], max: None })
        } else if w.len() == 2 && is_digits(w[1]) && digits_value(w[1]) <= u32::MAX {
            Line::Done(Frame::UnSub { sid: w[0], max: Some(digits_value(w[1]) as u32) })
        } else {
            Line::Bad
        }
    } else if has_prefix(c, verb_pub()) {
        let w = words(c.subrange(4, c.len() as int));
        if !all_tokens(w) {
            Line::Bad
        } else if (w.len() == 2 || w.len() == 3) && is_digits(w.last()) && digits_value(w.last())
            <= usize::MAX {
            Line::PubHeader(
                w[0],
                if w.len() == 3 {
                    Some(w[1])
                } else {
                    None
                },
                digits_value(w.last()),
            )
        } else {
            Line::Bad
        }
    } else {
        Line::Bad
    }
}

/// The outcome of reading the front of a buffer.
pub enum Parsed {
    /// The buffer holds no complete message yet.
    Incomplete,
    /// The buffer starts with something that is no message.
    Invalid,
    /// The buffer starts with a message taking this many bytes.
    Complete(Frame, nat),
}

/// What follows a PUB header line: the payload, `n` bytes whatever they
/// are, then a line end.
pub enum Tail {
    /// Not all of it has come yet.
    Short,
    /// The payload is not followed by a line end.
    Bad,
    /// Payload and line end are there; the line end takes this many bytes.
    Ends(nat),
}

pub open spec fn pub_tail(rest: Seq<u8>, n: nat) -> Tail {
    if rest.len() <= n {
        Tail::Short
    } else if rest[n as int] == LF {
        Tail::Ends(1)
    } else if rest[n as int] == CR {
        if rest.len() <= n + 1 {
            Tail::Short
        } else if rest[n as int + 1] == LF {
            Tail::Ends(2)
        } else {
            Tail::Bad
        }
    } else {
        Tail::Bad
    }
}

/// What the front of the buffer `b` holds. The payload of a PUB is the
/// number of bytes its header states, whatever they are, and a line end
/// must follow it.
pub open spec fn parse(b: Seq<u8>) -> Parsed {
    match first_lf(b) {
        None => Parsed::Incomplete,
        Some(i) => match classify(strip_cr(b.subrange(0, i))) {
            Line::Done(f) => Parsed::Complete(f, (i + 1) as nat),
            Line::Bad => Parsed::Invalid,
            Line::PubHeader(subject, reply, n) => {
                let rest = b.subrange(i + 1, b.len() as int);
                match pub_tail(rest, n) {
                    Tail::Short => Parsed::Incomplete,
                    Tail::Bad => Parsed::Invalid,
                    Tail::Ends(m) => Parsed::Complete(
                        Frame::Pub { subject, reply, payload: rest.subrange(0, n as int) },
                        (i + 1 + n + m) as nat,
                    ),
                }
            },
        },
    }
}

proof fn lemma_first_lf_extend(b: Seq<u8>, c: Seq<u8>)
    requires
        first_lf(b) is Some,
    ensures
        first_lf(b + c) == first_lf(b),
{
    let i = first_lf(b)->0;
    assert(is_first_lf(b, i));
    assert(is_first_lf(b + c, i));
}

/// Once the front of the buffer holds a message or an error, bytes fed
/// later do not change what it holds: the result does not depend on how the
/// input was cut into chunks.
pub proof fn lemma_parse_extends(b: Seq<u8>, c: Seq<u8>)
    requires
        !(parse(b) is Incomplete),
    ensures
        parse(b + c) == parse(b),
{
    let bc = b + c;
    lemma_first_lf_extend(b, c);
    let i = first_lf(b)->0;
    assert(bc.subrange(0, i) =~= b.subrange(0, i));
    match classify(strip_cr(b.subrange(0, i))) {
        Line::PubHeader(subject, reply, n) => {
            let rest = b.subrange(i + 1, b.len() as int);
            let rest2 = bc.subrange(i + 1, bc.len() as int);
            assert(rest2 =~= rest + c);
            assert(rest.len() > n);
            assert(rest2[n as int] == rest[n as int]);
            if rest.len() > n + 1 {
                assert(rest2[n as int + 1] == rest[n as int + 1]);
            }
            assert(rest2.subrange(0, n as int) =~= rest.subrange(0, n as int));
        },
        _ => {},
    }
}

proof fn lemma_complete_len(b: Seq<u8>)
    ensures
        parse(b) matches Parsed::Complete(_, n) ==> 1 <= n <= b.len(),
{
    if let Some(i) = first_lf(b) {
        assert(is_first_lf(b, i));
    }
}

/// The messages read one after another from the front of `b`, and what
/// stops the reading: `Some` of the bytes left waiting, or `None` for an
/// error.
pub open spec fn drain(b: Seq<u8>) -> (Seq<Frame>, Option<Seq<u8>>)
    decreases b.len(),
{
    match parse(b) {
        Parsed::Incomplete => (Seq::empty(), Some(b)),
        Parsed::Invalid => (Seq::empty(), None),
        Parsed::Complete(f, n) => {
            if 1 <= n <= b.len() {
                let rest = drain(b.subrange(n as int, b.len() as int));
                (seq![f] + rest.0, rest.1)
            } else {
                (Seq::empty(), None)
            }
        },
    }
}

/// Draining after one more chunk `c`, from what draining so far gave.
pub open spec fn drain_more(so_far: (Seq<Frame>, Option<Seq<u8>>), c: Seq<u8>) -> (
    Seq<Frame>,
    Option<Seq<u8>>,
) {
    match so_far.1 {
        None => so_far,
        Some(left) => {
            let more = drain(left + c);
            (so_far.0 + more.0, more.1)
        },
    }
}

/// Feeding the chunks `cs` one by one and draining after each.
pub open spec fn drain_chunks(cs: Seq<Seq<u8>>) -> (Seq<Frame>, Option<Seq<u8>>)
    decreases cs.len(),
{
    if cs.len() == 0 {
        (Seq::empty(), Some(Seq::empty()))
    } else {
        drain_more(drain_chunks(cs.drop_last()), cs.last())
    }
}

/// The chunks `cs` one after another.
pub open spec fn concat_all(cs: Seq<Seq<u8>>) -> Seq<u8>
    decreases cs.len(),
{
    if cs.len() == 0 {
        Seq::empty()
    } else {
        concat_all(cs.drop_last()) + cs.last()
    }
}

proof fn lemma_drain_extends(a: Seq<u8>, c: Seq<u8>)
    ensures
        drain(a + c) == drain_more(drain(a), c),
    decreases a.len(),
{
    lemma_complete_len(a);
    match parse(a) {
        Parsed::Incomplete => {
            assert(drain(a).1 == Some(a));
            assert(drain(a).0 + drain(a + c).0 =~= drain(a + c).0);
        },
        Parsed::Invalid => {
            lemma_parse_extends(a, c);
        },
        Parsed::Complete(f, n) => {
            lemma_parse_extends(a, c);
            let ac = a + c;
            let ra = a.subrange(n as int, a.len() as int);
            assert(ac.subrange(n as int, ac.len() as int) =~= ra + c);
            lemma_drain_extends(ra, c);
            let d = drain(ra);
            if d.1 is Some {
                let more = drain(d.1->0 + c);
                assert(seq![f] + (d.0 + more.0) =~= seq![f] + d.0 + more.0);
            }
        },
    }
}

/// However the input is cut into chunks, feeding them one by one and
/// draining after each reads the same messages, in the same order, and
/// ends in the same way (the same bytes left waiting, or an error), as
/// draining all the input at once.
pub proof fn lemma_chunks_invariant(cs: Seq<Seq<u8>>)
    ensures
        drain_chunks(cs) == drain(concat_all(cs)),
    decreases cs.len(),
{
    if cs.len() == 0 {
        assert(parse(Seq::<u8>::empty()) is Incomplete);
    } else {
        lemma_chunks_invariant(cs.drop_last());
        lemma_drain_extends(concat_all(cs.drop_last()), cs.last());
    }
}

/// Two ways of cutting the same input read the same messages and end the
/// same way.
pub proof fn lemma_two_chunkings(cs: Seq<Seq<u8>>, ds: Seq<Seq<u8>>)
    requires
        concat_all(cs) == concat_all(ds),
    ensures
        drain_chunks(cs) == drain_chunks(ds),
{
    lemma_chunks_invariant(cs);
    lemma_chunks_invariant(ds);
}

/// A PUB whose bytes run on past the payload length its header states,
/// with no line end where that length ends, is rejected.
pub proof fn lemma_pub_length_checked(header: Seq<u8>, t: Seq<u8>, payload: Seq<u8>, rest: Seq<u8>)
    requires
        plain_line(header),
        is_line_end(t),
        classify(header) matches Line::PubHeader(_, _, n) && n < payload.len() && payload[n as int]
            != CR && payload[n as int] != LF,
    ensures
        parse(header + t + payload + rest) is Invalid,
{
    let b = header + t + payload + rest;
    assert(b =~= header + t + (payload + rest));
    lemma_read_line(header, t, payload + rest);
    let i: int = header.len() + t.len() as int - 1;
    let r = b.subrange(i + 1, b.len() as int);
    assert(r =~= payload + rest);
    if let Line::PubHeader(_, _, n) = classify(header) {
        assert(r[n as int] == payload[n as int]);
    }
}

/// A PUB is only ever read with a payload of the length its header states.
pub proof fn lemma_pub_payload_len(b: Seq<u8>)
    ensures
        parse(b) matches Parsed::Complete(Frame::Pub { subject, reply, payload }, _) ==> classify(
            strip_cr(b.subrange(0, first_lf(b)->0)),
        ) == Line::PubHeader(subject, reply, payload.len()),
{
    if let Some(i) = first_lf(b) {
        if let Line::PubHeader(_, _, n) = classify(strip_cr(b.subrange(0, i))) {
            let rest = b.subrange(i + 1, b.len() as int);
            if !(pub_tail(rest, n) is Short) {
                assert(rest.subrange(0, n as int).len() == n);
            }
        }
    }
}

/// The first line of a frame as a client writes it, without its line end.
pub open spec fn frame_line(f: Frame) -> Seq<u8> {
    match f {
        Frame::Ping => word_ping(),
        Frame::Pong => word_pong(),
        Frame::Connect { json, .. } => verb_connect() + json,
        Frame::Sub { subject, queue, sid } => verb_sub() + join_words(
            match queue {
                Some(q) => seq![subject, q, sid],
                None => seq![subject, sid],
            },
        ),
        Frame::UnSub { sid, max } => verb_unsub() + join_words(
            match max {
                Some(m) => seq![sid, decimal(m as nat)],
                None => seq![sid],
            },
        ),
        Frame::Pub { subject, reply, payload } => verb_pub() + join_words(
            match reply {
                Some(r) => seq![subject, r, decimal(payload.len())],
                None => seq![subject, decimal(payload.len())],
            },
        ),
    }
}

/// The bytes of a frame as a client writes it, with the line ends `t`
/// and `u`.
/// `t` ends the first line and `u` the payload line.
pub open spec fn frame_bytes(f: Frame, t: Seq<u8>, u: Seq<u8>) -> Seq<u8> {
    match f {
        Frame::Pub { payload, .. } => frame_line(f) + t + payload + u,
        _ => frame_line(f) + t,
    }
}

/// A line end: CR LF, or LF alone.
pub open spec fn is_line_end(t: Seq<u8>) -> bool {
    t == crlf() || t == seq![LF]
}

/// A line that holds no LF and does not end in CR.
pub open spec fn plain_line(l: Seq<u8>) -> bool {
    &&& forall|i: int| 0 <= i < l.len() ==> l[i] != LF
    &&& l.len() == 0 || l.last() != CR
}

/// A frame that can be written on the wire: tokens are printable, the JSON
/// body holds no line end, the CONNECT members are the ones its body holds,
/// and a PUB payload is any bytes.
pub open spec fn valid_frame(f: Frame) -> bool {
    match f {
        Frame::Ping => true,
        Frame::Pong => true,
        Frame::Connect { json, verbose, ssl_require } => {
            &&& json_accepts(json)
            &&& plain_line(json)
            &&& verbose == json_bool_field(json, "verbose"@)
            &&& ssl_require == json_bool_field(json, "ssl_require"@)
        },
        Frame::Sub { subject, queue, sid } => {
            &&& is_token(subject)
            &&& is_token(sid)
            &&& queue is Some ==> is_token(queue->0)
        },
        Frame::UnSub { sid, .. } => is_token(sid),
        Frame::Pub { subject, reply, payload } => {
            &&& is_token(subject)
            &&& reply is Some ==> is_token(reply->0)
            &&& payload.len() <= usize::MAX
        },
    }
}

proof fn lemma_differs_at(c: Seq<u8>, x: Seq<u8>, k: int)
    requires
        0 <= k < x.len(),
        k < c.len(),
        c[k] != x[k],
    ensures
        !has_prefix(c, x),
        c != x,
{
    if has_prefix(c, x) {
        assert(c.subrange(0, x.len() as int)[k] == c[k]);
    }
}

/// A plain line followed by a line end is read as that line.
proof fn lemma_read_line(l: Seq<u8>, t: Seq<u8>, rest: Seq<u8>)
    requires
        plain_line(l),
        is_line_end(t),
    ensures
        first_lf(l + t + rest) == Some(l.len() + t.len() - 1),
        strip_cr((l + t + rest).subrange(0, l.len() + t.len() - 1)) == l,
        forall|j: int| 0 <= j < l.len() + t.len() - 1 ==> (l + t + rest)[j] != LF,
{
    let b = l + t + rest;
    let n: int = l.len() as int;
    if t == crlf() {
        assert(b[n] == CR);
        assert(is_first_lf(b, n + 1));
        assert(b.subrange(0, n + 1) =~= l + seq![CR]);
        assert((l + seq![CR]).drop_last() =~= l);
    } else {
        assert(b[n] == LF);
        assert(is_first_lf(b, n));
        assert(b.subrange(0, n) =~= l);
    }
}

/// A frame's line is classified as that frame, or as the header of that
/// PUB.
#[verifier::rlimit(40)]
proof fn lemma_classify_frame_line(f: Frame)
    requires
        valid_frame(f),
    ensures
        plain_line(frame_line(f)),
        classify(frame_line(f)) == match f {
            Frame::Pub { subject, reply, payload } => Line::PubHeader(subject, reply, payload.len()),
            _ => Line::Done(f),
        },
{
    let c = frame_line(f);
    match f {
        Frame::Ping => {},
        Frame::Pong => {},
        Frame::Connect { json, verbose, ssl_require } => {
            lemma_differs_at(c, word_ping(), 0);
            lemma_differs_at(c, word_pong(), 0);
            assert(c.subrange(0, 8) =~= verb_connect());
            assert(c.subrange(8, c.len() as int) =~= json);
            assert(c.last() == json.last() || json.len() == 0);
        },
        Frame::Sub { subject, queue, sid } => {
            let ws = match queue {
                Some(q) => seq![subject, q, sid],
                None => seq![subject, sid],
            };
            lemma_words_join(ws);
            lemma_differs_at(c, word_ping(), 0);
            lemma_differs_at(c, word_pong(), 0);
            lemma_differs_at(c, verb_connect(), 0);
            assert(c.subrange(0, 4) =~= verb_sub());
            assert(c.subrange(4, c.len() as int) =~= join_words(ws));
            assert(c.last() == join_words(ws).last());
        },
        Frame::UnSub { sid, max } => {
            let ws = match max {
                Some(m) => seq![sid, decimal(m as nat)],
                None => seq![sid],
            };
            if let Some(m) = max {
                lemma_decimal_digits(m as nat);
            }
            lemma_words_join(ws);
            lemma_differs_at(c, word_ping(), 0);
            lemma_differs_at(c, word_pong(), 0);
            lemma_differs_at(c, verb_connect(), 0);
            lemma_differs_at(c, verb_sub(), 0);
            assert(c.subrange(0, 6) =~= verb_unsub());
            assert(c.subrange(6, c.len() as int) =~= join_words(ws));
            assert(c.last() == join_words(ws).last());
        },
        Frame::Pub { subject, reply, payload } => {
            let ws = match reply {
                Some(r) => seq![subject, r, decimal(payload.len())],
                None => seq![subject, decimal(payload.len())],
            };
            lemma_decimal_digits(payload.len());
            lemma_words_join(ws);
            lemma_differs_at(c, word_ping(), 1);
            lemma_differs_at(c, word_pong(), 1);
            lemma_differs_at(c, verb_connect(), 0);
            lemma_differs_at(c, verb_sub(), 0);
            lemma_differs_at(c, verb_unsub(), 0);
            assert(c.subrange(0, 4) =~= verb_pub());
            assert(c.subrange(4, c.len() as int) =~= join_words(ws));
            assert(c.last() == join_words(ws).last());
        },
    }
}

/// A one-line message followed by a line end: read whole, and waited for
/// until its LF has come.
proof fn lemma_line_frame(l: Seq<u8>, f: Frame, t: Seq<u8>, rest: Seq<u8>)
    requires
        plain_line(l),
        is_line_end(t),
        classify(l) == Line::Done(f),
    ensures
        parse(l + t + rest) == Parsed::Complete(f, l.len() + t.len()),
        forall|k: int| 0 <= k < l.len() + t.len() ==> #[trigger] parse((l + t).subrange(0, k)) is Incomplete,
{
    lemma_read_line(l, t, rest);
    lemma_read_line(l, t, Seq::empty());
    let whole = l + t;
    assert(whole + Seq::<u8>::empty() =~= whole);
    assert forall|k: int| 0 <= k < l.len() + t.len() implies #[trigger] parse(whole.subrange(0, k)) is Incomplete by {
        let p = whole.subrange(0, k);
        assert forall|j: int| 0 <= j < p.len() implies p[j] != LF by {
            assert(p[j] == whole[j]);
        }
    }
}

/// A PUB header line, a line end, a payload of the stated length, a line
/// end: read whole.
proof fn lemma_pub_frame(
    l: Seq<u8>,
    subject: Seq<u8>,
    reply: Option<Seq<u8>>,
    payload: Seq<u8>,
    t: Seq<u8>,
    u: Seq<u8>,
    rest: Seq<u8>,
)
    requires
        plain_line(l),
        is_line_end(t),
        is_line_end(u),
        classify(l) == Line::PubHeader(subject, reply, payload.len()),
    ensures
        parse(l + t + payload + u + rest) == Parsed::Complete(
            Frame::Pub { subject, reply, payload },
            l.len() + t.len() + payload.len() + u.len(),
        ),
{
    let n: int = payload.len() as int;
    let h: int = l.len() + t.len() as int;
    let b = l + t + payload + u + rest;
    assert(b =~= l + t + (payload + u + rest));
    lemma_read_line(l, t, payload + u + rest);
    let r = b.subrange(h, b.len() as int);
    assert(r =~= payload + u + rest);
    assert(r[n] == u[0]);
    if u == crlf() {
        assert(r[n + 1] == u[1]);
    }
    assert(r.subrange(0, n) =~= payload);
}

/// Every proper prefix of a PUB frame leaves the decoder waiting.
proof fn lemma_pub_prefixes(
    l: Seq<u8>,
    subject: Seq<u8>,
    reply: Option<Seq<u8>>,
    payload: Seq<u8>,
    t: Seq<u8>,
    u: Seq<u8>,
)
    requires
        plain_line(l),
        is_line_end(t),
        is_line_end(u),
        classify(l) == Line::PubHeader(subject, reply, payload.len()),
    ensures
        forall|k: int|
            0 <= k < l.len() + t.len() + payload.len() + u.len() ==> #[trigger] parse(
                (l + t + payload + u).subrange(0, k),
            ) is Incomplete,
{
    assert forall|k: int| 0 <= k < l.len() + t.len() + payload.len() + u.len() implies #[trigger] parse(
        (l + t + payload + u).subrange(0, k),
    ) is Incomplete by {
        lemma_pub_prefix(l, subject, reply, payload, t, u, k);
    }
}

proof fn lemma_pub_prefix(
    l: Seq<u8>,
    subject: Seq<u8>,
    reply: Option<Seq<u8>>,
    payload: Seq<u8>,
    t: Seq<u8>,
    u: Seq<u8>,
    k: int,
)
    requires
        plain_line(l),
        is_line_end(t),
        is_line_end(u),
        classify(l) == Line::PubHeader(subject, reply, payload.len()),
        0 <= k < l.len() + t.len() + payload.len() + u.len(),
    ensures
        parse((l + t + payload + u).subrange(0, k)) is Incomplete,
{
    let h: int = l.len() + t.len() as int;
    let n: int = payload.len() as int;
    let tail = payload + u;
    let whole = l + t + payload + u;
    assert(whole =~= l + t + tail);
    lemma_read_line(l, t, tail);
    let p = whole.subrange(0, k);
    if k <= h - 1 {
        assert forall|j: int| 0 <= j < p.len() implies p[j] != LF by {
            assert(p[j] == whole[j]);
        }
    } else {
        assert(is_first_lf(p, h - 1)) by {
            assert forall|j: int| 0 <= j < h - 1 implies p[j] != LF by {
                assert(p[j] == whole[j]);
            }
            assert(p[h - 1] == whole[h - 1]);
        }
        assert(p.subrange(0, h - 1) =~= whole.subrange(0, h - 1));
        let pr = p.subrange(h, p.len() as int);
        assert(pr.len() == k - h);
        if pr.len() > n {
            assert(u == crlf());
            assert(pr[n] == whole[h + n]);
            assert(whole[h + n] == tail[n]);
            assert(tail[n] == u[0]);
        }
    }
}

/// Decoding the bytes of a valid frame, with either line end on each line,
/// whatever follows them, yields that frame and consumes exactly its bytes;
/// and every proper prefix of those bytes leaves the decoder waiting,
/// however the input was cut.
pub proof fn lemma_round_trip(f: Frame, t: Seq<u8>, u: Seq<u8>, rest: Seq<u8>)
    requires
        valid_frame(f),
        is_line_end(t),
        is_line_end(u),
    ensures
        parse(frame_bytes(f, t, u) + rest) == Parsed::Complete(f, frame_bytes(f, t, u).len()),
        forall|k: int| 0 <= k < frame_bytes(f, t, u).len() ==> #[trigger] parse(
            frame_bytes(f, t, u).subrange(0, k),
        ) is Incomplete,
{
    lemma_classify_frame_line(f);
    let l = frame_line(f);
    if let Frame::Pub { subject, reply, payload } = f {
        lemma_pub_frame(l, subject, reply, payload, t, u, rest);
        lemma_pub_prefixes(l, subject, reply, payload, t, u);
    } else {
        lemma_line_frame(l, f, t, rest);
    }
}

/// A copy of `s`.
fn copy_bytes(s: &[u8]) -> (r: Vec<u8>)
    ensures
        r@ == s@,
{
    let mut r: Vec<u8> = Vec::new();
    push_all(&mut r, s);
    r
}

fn strip_cr_slice(line: &[u8]) -> (r: &[u8])
    ensures
        r@ == strip_cr(line@),
{
    if line.len() > 0 && line[line.len() - 1] == CR {
        slice_subrange(line, 0, line.len() - 1)
    } else {
        line
    }
}

/// What a line says, as values.
enum Classified {
    Done(Message),
    PubHeader(Vec<u8>, Option<Vec<u8>>, usize),
    Bad,
}

impl Classified {
    spec fn view(&self) -> Line {
        match self {
            Classified::Done(m) => Line::Done(m@),
            Classified::PubHeader(s, r, n) => Line::PubHeader(s@, opt_bytes(*r), *n as nat),
            Classified::Bad => Line::Bad,
        }
    }
}

fn classify_line(c: &[u8]) -> (r: Classified)
    ensures
        r@ == classify(c@),
{
    let ping: Vec<u8> = vec![0x50u8, 0x49u8, 0x4eu8, 0x47u8];
    let pong: Vec<u8> = vec![0x50u8, 0x4fu8, 0x4eu8, 0x47u8];
    let connect: Vec<u8> = vec![0x43u8, 0x4fu8, 0x4eu8, 0x4eu8, 0x45u8, 0x43u8, 0x54u8, 0x20u8];
    let sub: Vec<u8> = vec![0x53u8, 0x55u8, 0x42u8, 0x20u8];
    let unsub: Vec<u8> = vec![0x55u8, 0x4eu8, 0x53u8, 0x55u8, 0x42u8, 0x20u8];
    let publ: Vec<u8> = vec![0x50u8, 0x55u8, 0x42u8, 0x20u8];
    proof {
        assert(ping@ =~= word_ping());
        assert(pong@ =~= word_pong());
        assert(connect@ =~= verb_connect());
        assert(sub@ =~= verb_sub());
        assert(unsub@ =~= verb_unsub());
        assert(publ@ =~= verb_pub());
    }
    if c.len() == 4 && starts_with(c, ping.as_slice()) {
        proof {
            assert(c@ =~= word_ping());
        }
        return Classified::Done(Message::Ping);
    }
    if c.len() == 4 && starts_with(c, pong.as_slice()) {
        proof {
            assert(c@ =~= word_pong());
            assert(c@ != word_ping());
        }
        return Classified::Done(Message::Pong);
    }
    proof {
        if c@ == word_ping() {
            assert(c@.subrange(0, 4) =~= c@);
        }
        if c@ == word_pong() {
            assert(c@.subrange(0, 4) =~= c@);
        }
    }
    if starts_with(c, connect.as_slice()) {
        let body = slice_subrange(c, 8, c.len());
        if let Some(verbose) = json_bool_member(body, "verbose") {
            if let Some(ssl_require) = json_bool_member(body, "ssl_require") {
                return Classified::Done(
                    Message::Connect(ConnectInfo { json: copy_bytes(body), verbose, ssl_require }),
                );
            }
        }
        return Classified::Bad;
    }
    if starts_with(c, sub.as_slice()) {
        proof {
            assert(!has_prefix(c@, verb_connect()));
        }
        let w = split_words(slice_subrange(c, 4, c.len()));
        if !all_printable(&w) {
            return Classified::Bad;
        }
        if w.len() == 2 {
            return Classified::Done(
                Message::Sub(copy_bytes(w[0].as_slice()), None, copy_bytes(w[1].as_slice())),
            );
        } else if w.len() == 3 {
            return Classified::Done(
                Message::Sub(
                    copy_bytes(w[0].as_slice()),
                    Some(copy_bytes(w[1].as_slice())),
                    copy_bytes(w[2].as_slice()),
                ),
            );
        }
        return Classified::Bad;
    }
    if starts_with(c, unsub.as_slice()) {
        proof {
            assert(!has_prefix(c@, verb_connect()));
            assert(!has_prefix(c@, verb_sub()));
        }
        let w = split_words(slice_subrange(c, 6, c.len()));
        if !all_printable(&w) {
            return Classified::Bad;
        }
        if w.len() == 1 {
            return Classified::Done(Message::UnSub(copy_bytes(w[0].as_slice()), None));
        } else if w.len() == 2 {
            match parse_decimal(w[1].as_slice(), 0xffff_ffffu64) {
                Some(n) => {
                    return Classified::Done(
                        Message::UnSub(copy_bytes(w[0].as_slice()), Some(n as u32)),
                    );
                },
                None => {
                    return Classified::Bad;
                },
            }
        }
        return Classified::Bad;
    }
    if starts_with(c, publ.as_slice()) {
        proof {
            assert(!has_prefix(c@, verb_connect()));
            assert(!has_prefix(c@, verb_sub()));
            assert(!has_prefix(c@, verb_unsub()));
        }
        let w = split_words(slice_subrange(c, 4, c.len()));
        if !all_printable(&w) {
            return Classified::Bad;
        }
        if w.len() == 2 || w.len() == 3 {
            let last = w.len() - 1;
            match parse_decimal(w[last].as_slice(), usize::MAX as u64) {
                Some(n) => {
                    let reply = if w.len() == 3 {
                        Some(copy_bytes(w[1].as_slice()))
                    } else {
                        None
                    };
                    return Classified::PubHeader(copy_bytes(w[0].as_slice()), reply, n as usize);
                },
                None => {
                    return Classified::Bad;
                },
            }
        }
        return Classified::Bad;
    }
    Classified::Bad
}

/// Reads what follows a PUB header line, from `start` on.
fn read_tail(data: &[u8], start: usize, n: usize) -> (r: Option<Option<usize>>)
    requires
        start <= data@.len(),
    ensures
        match pub_tail(data@.subrange(start as int, data@.len() as int), n as nat) {
            Tail::Short => r == None::<Option<usize>>,
            Tail::Bad => r == Some(None::<usize>),
            Tail::Ends(m) => r == Some(Some(m as usize)),
        },
{
    let ghost rest = data@.subrange(start as int, data@.len() as int);
    let len = data.len();
    if len - start <= n {
        return None;
    }
    let k = start + n;
    proof {
        assert(rest[n as int] == data@[k as int]);
    }
    if data[k] == LF {
        Some(Some(1))
    } else if data[k] == CR {
        if k + 1 >= len {
            return None;
        }
        proof {
            assert(rest[n as int + 1] == data@[k + 1]);
        }
        if data[k + 1] == LF {
            Some(Some(2))
        } else {
            Some(None)
        }
    } else {
        Some(None)
    }
}

/// Where the decoder stands in the current frame.
enum State {
    /// Looking for the end of the first line.
    Start,
    /// A PUB header line was read; waiting for its payload and line end.
    PubPayload,
}

/// The decoder: its buffer, how far into it the search for the first line
/// end has already gone, and how much input it agrees to hold while a
/// message is incomplete.
pub struct Decode {
    state: State,
    buff: BytesMut,
    /// No LF stands before this index, counting from the start of the line
    /// being searched.
    end: usize,
    /// In `PubPayload`, the index of the LF that ends the header line.
    line: usize,
    /// In `PubPayload`, the payload length the header states.
    need: usize,
    /// The length of the frame handed out by the last `decode`, if it
    /// handed one out.
    ready: usize,
    /// The most bytes held while no complete message is at the front.
    limit: usize,
}

impl Decode {
    /// The bytes fed and not yet discarded.
    pub closed spec fn contents(&self) -> Seq<u8> {
        buffer_bytes(self.buff)
    }

    /// The length of the message that the last `decode` handed out, or zero.
    pub closed spec fn ready_len(&self) -> nat {
        self.ready as nat
    }

    /// The most bytes held while no complete message is at the front.
    pub closed spec fn limit(&self) -> nat {
        self.limit as nat
    }

    pub closed spec fn wf(&self) -> bool {
        let b = self.contents();
        &&& self.ready <= b.len()
        &&& match self.state {
            State::Start => {
                &&& self.end <= b.len()
                &&& forall|j: int| 0 <= j < self.end ==> b[j] != LF
            },
            State::PubPayload => {
                &&& is_first_lf(b, self.line as int)
                &&& classify(strip_cr(b.subrange(0, self.line as int))) matches Line::PubHeader(
                    _,
                    _,
                    n,
                ) && n == self.need
            },
        }
    }

    /// A decoder that holds as much input as an incomplete message needs.
    pub fn new(capacity: usize) -> (r: Self)
        requires
            capacity <= isize::MAX,
        ensures
            r.wf(),
            r.contents() == Seq::<u8>::empty(),
            r.ready_len() == 0,
            r.limit() == usize::MAX,
    {
        Self::with_limit(capacity, usize::MAX)
    }

    /// A decoder that fails once more than `limit` bytes are held without a
    /// complete message at their front.
    pub fn with_limit(capacity: usize, limit: usize) -> (r: Self)
        requires
            capacity <= isize::MAX,
        ensures
            r.wf(),
            r.contents() == Seq::<u8>::empty(),
            r.ready_len() == 0,
            r.limit() == limit,
    {
        Decode {
            state: State::Start,
            buff: buffer_with_capacity(capacity),
            end: 0,
            line: 0,
            need: 0,
            ready: 0,
            limit,
        }
    }

    /// How many bytes are held.
    pub fn buffered_len(&self) -> (r: usize)
        ensures
            r == self.contents().len(),
    {
        buffer_slice(&self.buff).len()
    }

    /// Appends a chunk of input.
    pub fn set_buff(&mut self, buff: &[u8])
        requires
            old(self).wf(),
            old(self).contents().len() + buff@.len() <= isize::MAX,
        ensures
            final(self).wf(),
            final(self).contents() == old(self).contents() + buff@,
            final(self).ready_len() == old(self).ready_len(),
            final(self).limit() == old(self).limit(),
    {
        buffer_extend(&mut self.buff, buff);
        proof {
            let b = old(self).contents();
            let nb = self.contents();
            assert forall|j: int| 0 <= j < b.len() implies nb[j] == b[j] by {}
            if let State::PubPayload = self.state {
                assert(nb.subrange(0, self.line as int) =~= b.subrange(0, self.line as int));
            }
        }
    }

    /// Reads the message at the front of the buffer, if it is complete.
    /// Nothing is consumed: `reset` discards the message once it is used.
    /// While the message is incomplete, holding more than the limit fails.
    #[verifier::rlimit(40)]
    pub fn decode(&mut self) -> (r: Result<Poll<Message>, Error>)
        requires
            old(self).wf(),
        ensures
            final(self).wf(),
            final(self).contents() == old(self).contents(),
            final(self).limit() == old(self).limit(),
            match parse(old(self).contents()) {
                Parsed::Incomplete => final(self).ready_len() == 0 && if old(self).contents().len()
                    > old(self).limit() {
                    r == Err::<Poll<Message>, Error>(Error::Parse)
                } else {
                    r == Ok::<Poll<Message>, Error>(Poll::Pending)
                },
                Parsed::Invalid => r == Err::<Poll<Message>, Error>(Error::Parse)
                    && final(self).ready_len() == 0,
                Parsed::Complete(f, n) => r matches Ok(Poll::Ready(m)) && m@ == f
                    && final(self).ready_len() == n,
            },
    {
        let ghost b = self.contents();
        let data = buffer_slice(&self.buff);
        let len = data.len();
        self.ready = 0;
        if let State::Start = self.state {
            match find_lf(data, self.end) {
                None => {
                    self.end = data.len();
                    proof {
                        assert(!exists|i: int| is_first_lf(b, i));
                    }
                    if len > self.limit {
                        return Err(Error::Parse);
                    }
                    return Ok(Poll::Pending);
                },
                Some(i) => {
                    proof {
                        assert(is_first_lf(b, i as int));
                        assert(first_lf(b) == Some(i as int));
                    }
                    let content = strip_cr_slice(slice_subrange(data, 0, i));
                    match classify_line(content) {
                        Classified::Done(m) => {
                            self.end = 0;
                            self.ready = i + 1;
                            return Ok(Poll::Ready(m));
                        },
                        Classified::Bad => {
                            self.end = 0;
                            return Err(Error::Parse);
                        },
                        Classified::PubHeader(_, _, n) => {
                            self.state = State::PubPayload;
                            self.line = i;
                            self.need = n;
                            self.end = 0;
                        },
                    }
                },
            }
        }
        let line = self.line;
        let n = self.need;
        proof {
            assert(first_lf(b) == Some(line as int));
        }
        let start = line + 1;
        let ghost rest = b.subrange(start as int, b.len() as int);
        match read_tail(data, start, n) {
            None => {
                if len > self.limit {
                    return Err(Error::Parse);
                }
                Ok(Poll::Pending)
            },
            Some(None) => {
                self.state = State::Start;
                self.end = 0;
                Err(Error::Parse)
            },
            Some(Some(m)) => {
                self.state = State::Start;
                self.end = 0;
                let header = strip_cr_slice(slice_subrange(data, 0, line));
                let payload = slice_subrange(data, start, start + n);
                proof {
                    assert(payload@ =~= rest.subrange(0, n as int));
                }
                match classify_line(header) {
                    Classified::PubHeader(subject, reply, _) => {
                        self.ready = start + n + m;
                        Ok(Poll::Ready(Message::Pub(subject, reply, copy_bytes(payload))))
                    },
                    _ => Err(Error::Parse),
                }
            },
        }
    }

    /// Discards the message that the last `decode` handed out, and starts
    /// on the next one.
    pub fn reset(&mut self)
        requires
            old(self).wf(),
        ensures
            final(self).wf(),
            final(self).contents() == old(self).contents().subrange(
                old(self).ready_len() as int,
                old(self).contents().len() as int,
            ),
            final(self).ready_len() == 0,
            final(self).limit() == old(self).limit(),
    {
        buffer_advance(&mut self.buff, self.ready);
        self.state = State::Start;
        self.end = 0;
        self.ready = 0;
    }
}

} // verus!
