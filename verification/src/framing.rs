//! The two framings that the proxy translates between, as mathematical
//! functions on byte sequences.
//!
//! DNS over TCP (RFC 1035, Section 4.2.2) puts a big-endian 16-bit length in
//! front of each message. A WebSocket (RFC 6455, Section 5.2) server sends each
//! message as an unmasked binary frame.

use vstd::prelude::*;

verus! {

pub const BINARY_DATA: u8 = 0x2;

pub const CLOSE: u8 = 0x8;

pub const PING: u8 = 0x9;

pub const PONG: u8 = 0xA;

/// The last frame of a message.
pub const FIN: u8 = 0x80;

pub const MASKED: u8 = 0x80;

/// The actual len is encoded in the next 2 bytes.
pub const EXTENDED_LEN_2: u8 = 126;

/// The actual len is encoded in the next 8 bytes (never occurs in DoWS).
pub const EXTENDED_LEN_8: u8 = 127;

/// The longest DNS message: what a 16-bit length can express.
pub const MAX_MESSAGE: usize = 65535;

/// `n` as two bytes, the more significant one first.
pub open spec fn be16(n: int) -> Seq<u8> {
    seq![(n / 256) as u8, (n % 256) as u8]
}

/// The number that two bytes stand for, the more significant one first.
pub open spec fn be16_value(hi: u8, lo: u8) -> int {
    hi * 256 + lo
}

/// The first message of a DNS over TCP stream, if all of it has arrived.
pub open spec fn dns_first(s: Seq<u8>) -> Option<Seq<u8>> {
    if s.len() >= 2 && s.len() >= 2 + be16_value(s[0], s[1]) {
        Some(s.subrange(2, 2 + be16_value(s[0], s[1])))
    } else {
        None
    }
}

/// The messages at the front of a DNS over TCP stream that are complete.
pub open spec fn dns_messages(s: Seq<u8>) -> Seq<Seq<u8>>
    decreases s.len(),
{
    match dns_first(s) {
        Some(m) => seq![m] + dns_messages(s.skip(2 + m.len() as int)),
        None => seq![],
    }
}

/// What follows the complete messages in a DNS over TCP stream.
pub open spec fn dns_rest(s: Seq<u8>) -> Seq<u8>
    decreases s.len(),
{
    match dns_first(s) {
        Some(m) => dns_rest(s.skip(2 + m.len() as int)),
        None => s,
    }
}

/// A message as it stands in a DNS over TCP stream.
pub open spec fn dns_packet(m: Seq<u8>) -> Seq<u8> {
    be16(m.len() as int) + m
}

/// Messages one after the other as they stand in a DNS over TCP stream.
pub open spec fn dns_stream(ms: Seq<Seq<u8>>) -> Seq<u8>
    decreases ms.len(),
{
    if ms.len() == 0 {
        seq![]
    } else {
        dns_packet(ms[0]) + dns_stream(ms.drop_first())
    }
}

/// Whether a message of this length needs the 2-byte extended length field.
pub open spec fn is_extended(len: nat) -> bool {
    len >= EXTENDED_LEN_2
}

/// A message as the server sends it: one final, unmasked binary frame.
pub open spec fn ws_frame(m: Seq<u8>) -> Seq<u8> {
    if is_extended(m.len()) {
        seq![FIN | BINARY_DATA, EXTENDED_LEN_2] + be16(m.len() as int) + m
    } else {
        seq![FIN | BINARY_DATA, m.len() as u8] + m
    }
}

/// Messages one after the other, each in a frame of its own.
pub open spec fn ws_stream(ms: Seq<Seq<u8>>) -> Seq<u8>
    decreases ms.len(),
{
    if ms.len() == 0 {
        seq![]
    } else {
        ws_frame(ms[0]) + ws_stream(ms.drop_first())
    }
}

/// How many of the messages need the extended length field.
pub open spec fn extended_count(ms: Seq<Seq<u8>>) -> nat
    decreases ms.len(),
{
    if ms.len() == 0 {
        0
    } else {
        (if is_extended(ms[0].len()) { 1nat } else { 0nat }) + extended_count(ms.drop_first())
    }
}

/// Appending one message to a stream of frames.
pub proof fn lemma_ws_stream_push(ms: Seq<Seq<u8>>, m: Seq<u8>)
    ensures
        ws_stream(ms.push(m)) == ws_stream(ms) + ws_frame(m),
        extended_count(ms.push(m)) == extended_count(ms) + (if is_extended(m.len()) {
            1nat
        } else {
            0nat
        }),
    decreases ms.len(),
{
    if ms.len() == 0 {
        assert(ms.push(m).drop_first() =~= Seq::<Seq<u8>>::empty());
        assert(ws_stream(ms.push(m).drop_first()) =~= seq![]);
        assert(extended_count(ms.push(m).drop_first()) == 0);
        assert(ws_stream(ms) + ws_frame(m) =~= ws_frame(m));
        assert(ws_frame(m) + ws_stream(Seq::empty()) =~= ws_frame(m));
    } else {
        assert(ms.push(m).drop_first() =~= ms.drop_first().push(m));
        lemma_ws_stream_push(ms.drop_first(), m);
        assert(ws_frame(ms[0]) + (ws_stream(ms.drop_first()) + ws_frame(m)) =~= ws_frame(ms[0])
            + ws_stream(ms.drop_first()) + ws_frame(m));
    }
}

/// The extended lengths of two runs of messages add up.
pub proof fn lemma_extended_count_add(a: Seq<Seq<u8>>, b: Seq<Seq<u8>>)
    ensures
        extended_count(a + b) == extended_count(a) + extended_count(b),
    decreases a.len(),
{
    if a.len() == 0 {
        assert(a + b =~= b);
    } else {
        assert((a + b).drop_first() =~= a.drop_first() + b);
        lemma_extended_count_add(a.drop_first(), b);
    }
}

/// The front of a server's byte stream as a client reads it (RFC 6455,
/// Section 5.2): the payload of a final, unmasked binary frame, and how many
/// bytes the frame takes up.
pub open spec fn ws_first(s: Seq<u8>) -> Option<(Seq<u8>, int)> {
    if s.len() < 2 || s[0] != FIN | BINARY_DATA || s[1] > EXTENDED_LEN_2 {
        None
    } else if s[1] < EXTENDED_LEN_2 {
        ws_payload(s, 2, s[1] as int)
    } else if s.len() >= 4 {
        ws_payload(s, 4, be16_value(s[2], s[3]))
    } else {
        None
    }
}

/// The `len` bytes of payload behind a header of `at` bytes.
pub open spec fn ws_payload(s: Seq<u8>, at: int, len: int) -> Option<(Seq<u8>, int)> {
    if s.len() >= at + len {
        Some((s.subrange(at, at + len), at + len))
    } else {
        None
    }
}

/// The messages that a client reads from a server's byte stream.
pub open spec fn ws_messages(s: Seq<u8>) -> Seq<Seq<u8>>
    decreases s.len(),
{
    match ws_first(s) {
        Some((m, len)) => seq![m] + ws_messages(s.skip(len)),
        None => seq![],
    }
}

/// Whether every message is one that DNS over TCP can carry.
pub open spec fn all_sendable(ms: Seq<Seq<u8>>) -> bool {
    forall|i: int| 0 <= i < ms.len() ==> (#[trigger] ms[i]).len() <= MAX_MESSAGE
}

/// Two bytes hold a 16-bit number and give it back.
pub proof fn be16_round_trip(n: int)
    requires
        0 <= n <= 65535,
    ensures
        be16(n).len() == 2,
        be16_value(be16(n)[0], be16(n)[1]) == n,
{
}

/// Reading a DNS over TCP stream gives back the messages that were written to
/// it, and nothing is left over.
pub proof fn dns_stream_round_trip(ms: Seq<Seq<u8>>)
    requires
        all_sendable(ms),
    ensures
        dns_messages(dns_stream(ms)) == ms,
        dns_rest(dns_stream(ms)) == Seq::<u8>::empty(),
    decreases ms.len(),
{
    let s = dns_stream(ms);
    if ms.len() > 0 {
        let m = ms[0];
        let tail = ms.drop_first();
        dns_stream_round_trip(tail);
        be16_round_trip(m.len() as int);
        assert(s.subrange(2, 2 + m.len() as int) =~= m);
        assert(s.skip(2 + m.len() as int) =~= dns_stream(tail));
        assert(dns_first(s) == Some(m));
        assert(seq![m] + tail =~= ms);
    }
}

/// A DNS over TCP stream is made up of its complete messages and what follows
/// them: nothing is lost or added in reading it.
pub proof fn dns_messages_cover(s: Seq<u8>)
    ensures
        s == dns_stream(dns_messages(s)) + dns_rest(s),
        all_sendable(dns_messages(s)),
    decreases s.len(),
{
    match dns_first(s) {
        Some(m) => {
            let tail = s.skip(2 + m.len() as int);
            dns_messages_cover(tail);
            let ms = dns_messages(s);
            assert(ms.drop_first() =~= dns_messages(tail));
            assert(be16(m.len() as int) =~= seq![s[0], s[1]]);
            assert(s =~= dns_packet(m) + tail);
            assert(dns_packet(m) + (dns_stream(ms.drop_first()) + dns_rest(tail)) =~= dns_stream(ms)
                + dns_rest(s));
            assert forall|i: int| 0 <= i < ms.len() implies (#[trigger] ms[i]).len()
                <= MAX_MESSAGE by {
                if i > 0 {
                    assert(ms[i] == ms.drop_first()[i - 1]);
                }
            }
        },
        None => {
            assert(dns_stream(dns_messages(s)) + dns_rest(s) =~= s);
        },
    }
}

/// What follows the complete messages is less than a message of full length
/// with its length bytes.
pub proof fn dns_rest_is_incomplete(s: Seq<u8>)
    ensures
        dns_first(dns_rest(s)) is None,
        dns_rest(s).len() < 2 + MAX_MESSAGE,
        dns_rest(s).len() <= s.len(),
        dns_messages(dns_rest(s)) == Seq::<Seq<u8>>::empty(),
        dns_rest(dns_rest(s)) == dns_rest(s),
    decreases s.len(),
{
    if let Some(m) = dns_first(s) {
        dns_rest_is_incomplete(s.skip(2 + m.len() as int));
    }
}

/// How a DNS over TCP stream is cut into chunks on the way does not matter: the
/// messages in a chunk, and then those in what was left of it and the next
/// chunk, are the messages in both chunks together.
pub proof fn dns_messages_by_chunk(a: Seq<u8>, b: Seq<u8>)
    ensures
        dns_messages(a + b) == dns_messages(a) + dns_messages(dns_rest(a) + b),
        dns_rest(a + b) == dns_rest(dns_rest(a) + b),
    decreases a.len(),
{
    match dns_first(a) {
        Some(m) => {
            let tail = a.skip(2 + m.len() as int);
            dns_messages_by_chunk(tail, b);
            assert((a + b).subrange(2, 2 + m.len() as int) =~= m);
            assert(dns_first(a + b) == Some(m));
            assert((a + b).skip(2 + m.len() as int) =~= tail + b);
            assert(seq![m] + (dns_messages(tail) + dns_messages(dns_rest(tail) + b))
                =~= dns_messages(a) + dns_messages(dns_rest(a) + b));
        },
        None => {
            assert(dns_messages(a) + dns_messages(a + b) =~= dns_messages(a + b));
        },
    }
}

/// The frames of two runs of messages follow one another.
pub proof fn ws_stream_add(a: Seq<Seq<u8>>, b: Seq<Seq<u8>>)
    ensures
        ws_stream(a + b) == ws_stream(a) + ws_stream(b),
    decreases a.len(),
{
    if a.len() == 0 {
        assert(a + b =~= b);
        assert(ws_stream(a) + ws_stream(b) =~= ws_stream(b));
    } else {
        assert((a + b).drop_first() =~= a.drop_first() + b);
        ws_stream_add(a.drop_first(), b);
        assert(ws_stream(a + b) =~= ws_stream(a) + ws_stream(b));
    }
}

/// A client reads back the messages that were framed for it, each from a binary
/// frame of its own.
pub proof fn ws_stream_round_trip(ms: Seq<Seq<u8>>)
    requires
        all_sendable(ms),
    ensures
        ws_messages(ws_stream(ms)) == ms,
    decreases ms.len(),
{
    let s = ws_stream(ms);
    if ms.len() > 0 {
        let m = ms[0];
        let tail = ms.drop_first();
        ws_stream_round_trip(tail);
        be16_round_trip(m.len() as int);
        let head = if is_extended(m.len()) { 4int } else { 2int };
        assert(s.subrange(head, head + m.len()) =~= m);
        assert(s.skip(head + m.len()) =~= ws_stream(tail));
        assert(ws_first(s) == Some((m, head + m.len())));
        assert(seq![m] + tail =~= ms);
    }
}

/// The worst case of the framing overhead: 2 bytes for every 128 bytes of input.
pub proof fn framing_overhead(s: Seq<u8>)
    ensures
        2 * extended_count(dns_messages(s)) <= 2 * (s.len() as int / 128),
        ws_stream(dns_messages(s)).len() == s.len() - dns_rest(s).len() + 2 * extended_count(
            dns_messages(s),
        ),
    decreases s.len(),
{
    if let Some(m) = dns_first(s) {
        let tail = s.skip(2 + m.len() as int);
        framing_overhead(tail);
        assert(dns_messages(s).drop_first() =~= dns_messages(tail));
    }
}

/// What the bytes at the front of an upstream's stream are sent to the client as,
/// and what is left of them: a message whose length and content have all come as a
/// final binary frame with that length and content, and nothing otherwise.
pub proof fn framing_of_bytes(s: Seq<u8>)
    ensures
        ({
            let n = s[0] * 256 + s[1];
            let complete = s.len() >= 2 && s.len() >= 2 + n;
            let rest = s.skip(2 + n);
            &&& complete && n < 126 ==> ws_stream(dns_messages(s)) == seq![0x82u8, s[1]]
                + s.subrange(2, 2 + n) + ws_stream(dns_messages(rest))
            &&& complete && n >= 126 ==> ws_stream(dns_messages(s)) == seq![
                0x82u8,
                126u8,
                s[0],
                s[1],
            ] + s.subrange(2, 2 + n) + ws_stream(dns_messages(rest))
            &&& complete ==> dns_messages(s) == seq![s.subrange(2, 2 + n)] + dns_messages(rest)
            &&& complete ==> dns_rest(s) == dns_rest(rest)
            &&& !complete ==> ws_stream(dns_messages(s)) == Seq::<u8>::empty()
            &&& !complete ==> dns_messages(s) == Seq::<Seq<u8>>::empty()
            &&& !complete ==> dns_rest(s) == s
        }),
{
    assert(0x80u8 | 0x2u8 == 0x82) by (bit_vector);
    if let Some(m) = dns_first(s) {
        let n = s[0] * 256 + s[1];
        let tail = dns_messages(s.skip(2 + n));
        assert(m.len() == n);
        assert((seq![m] + tail).drop_first() =~= tail);
        assert(be16(n) =~= seq![s[0], s[1]]);
        assert(n < 256 ==> s[0] == 0 && s[1] == n);
        assert(seq![0x82u8, s[1]] + m + ws_stream(tail) =~= seq![0x82u8, s[1]] + (m + ws_stream(
            tail,
        )));
    }
}

/// A message in a DNS over TCP stream: its length in two bytes, the more
/// significant one first, and then its bytes.
pub proof fn dns_stream_bytes(m: Seq<u8>, ms: Seq<Seq<u8>>)
    requires
        m.len() <= 65535,
    ensures
        ({
            let s = dns_stream(seq![m] + ms);
            &&& s[0] * 256 + s[1] == m.len()
            &&& s.subrange(2, 2 + m.len() as int) == m
            &&& s.skip(2 + m.len() as int) == dns_stream(ms)
            &&& dns_stream(Seq::<Seq<u8>>::empty()) == Seq::<u8>::empty()
        }),
{
    let s = dns_stream(seq![m] + ms);
    assert((seq![m] + ms).drop_first() =~= ms);
    be16_round_trip(m.len() as int);
    assert(s.subrange(2, 2 + m.len() as int) =~= m);
    assert(s.skip(2 + m.len() as int) =~= dns_stream(ms));
}

/// A message in a stream of frames: a final binary frame without a mask, with the
/// length in the second byte if it is under 126 and in the two bytes behind it
/// otherwise, and then the bytes of the message.
pub proof fn ws_stream_bytes(m: Seq<u8>, ms: Seq<Seq<u8>>)
    requires
        m.len() <= 65535,
    ensures
        ({
            let s = ws_stream(seq![m] + ms);
            let at: int = if m.len() < 126 {
                2
            } else {
                4
            };
            &&& s[0] == 0x82
            &&& m.len() < 126 ==> s[1] == m.len()
            &&& m.len() >= 126 ==> s[1] == 126 && s[2] * 256 + s[3] == m.len()
            &&& s.subrange(at, at + m.len()) == m
            &&& s.skip(at + m.len()) == ws_stream(ms)
            &&& ws_stream(Seq::<Seq<u8>>::empty()) == Seq::<u8>::empty()
        }),
{
    assert(0x80u8 | 0x2u8 == 0x82) by (bit_vector);
    let s = ws_stream(seq![m] + ms);
    assert((seq![m] + ms).drop_first() =~= ms);
    be16_round_trip(m.len() as int);
    let at: int = if m.len() < 126 {
        2
    } else {
        4
    };
    assert(s.subrange(at, at + m.len()) =~= m);
    assert(s.skip(at + m.len()) =~= ws_stream(ms));
}

} // verus!
