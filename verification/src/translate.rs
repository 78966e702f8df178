//! Translation between DNS over TCP and WebSocket framing.

use std::ops::Range;

use vstd::prelude::*;
use vstd::slice::slice_subrange;

use crate::client::{
    lemma_first_bytes, pong_frame, scan, scan_data, unmasked, Scan, Session, Step, MESSAGE_TOO_BIG, NORMAL_CLOSURE,
    PROTOCOL_ERROR, UNSUPPORTED_DATA,
};
use crate::framing::{
    be16, dns_first, dns_messages, dns_packet, dns_rest, extended_count, is_extended,
    lemma_extended_count_add, lemma_ws_stream_push, ws_frame, ws_stream, BINARY_DATA, CLOSE,
    EXTENDED_LEN_2, EXTENDED_LEN_8, FIN, MASKED, MAX_MESSAGE, PING, PONG,
};

verus! {

/// Moves `buf[from..to]` down to `dest`.
pub(crate) fn move_down(buf: &mut [u8], from: usize, to: usize, dest: usize)
    requires
        dest <= from <= to <= old(buf)@.len(),
    ensures
        final(buf)@.len() == old(buf)@.len(),
        forall|i: int|
            #![trigger final(buf)@[i]]
            0 <= i < final(buf)@.len() ==> final(buf)@[i] == if dest <= i < dest + (to - from) {
                old(buf)@[i - dest + from]
            } else {
                old(buf)@[i]
            },
{
    let n = to - from;
    for k in 0..n
        invariant
            dest <= from <= to <= old(buf)@.len(),
            n == to - from,
            buf@.len() == old(buf)@.len(),
            forall|i: int|
                #![trigger buf@[i]]
                0 <= i < buf@.len() ==> buf@[i] == if dest <= i < dest + k {
                    old(buf)@[i - dest + from]
                } else {
                    old(buf)@[i]
                },
    {
        buf[dest + k] = buf[from + k];
    }
}

/// Frames the message at `buffer[from..from + len]` so that the frame starts at
/// `at`, and returns the end of the frame.
fn frame_down(buffer: &mut [u8], from: usize, len: u16, at: usize) -> (end: usize)
    requires
        from + len <= old(buffer)@.len(),
        at + (if is_extended(len as nat) { 4int } else { 2int }) <= from,
    ensures
        ({
            let frame = ws_frame(old(buffer)@.subrange(from as int, from + len));
            &&& end == at + frame.len()
            &&& end <= from + len
            &&& final(buffer)@ == old(buffer)@.take(at as int) + frame + old(buffer)@.skip(
                end as int,
            )
        }),
{
    let hi = (len / 256) as u8;
    let lo = (len % 256) as u8;
    let start: usize;
    buffer[at] = FIN | BINARY_DATA;
    if len < EXTENDED_LEN_2 as u16 {
        buffer[at + 1] = lo;
        start = at + 2;
    } else {
        buffer[at + 1] = EXTENDED_LEN_2;
        buffer[at + 2] = hi;
        buffer[at + 3] = lo;
        start = at + 4;
    }
    move_down(buffer, from, from + len as usize, start);
    proof {
        let m = old(buffer)@.subrange(from as int, from + len);
        assert(buffer@ =~= old(buffer)@.take(at as int) + ws_frame(m) + old(buffer)@.skip(
            start + len as int,
        ));
    }
    start + len as usize
}

/// The DNS over TCP input in a working buffer: what stands from `offset` on.
pub open spec fn input_from(buffer: Seq<u8>, offset: int) -> Seq<u8> {
    if offset <= buffer.len() {
        buffer.skip(offset)
    } else {
        seq![]
    }
}

/// Converts DNS TCP framing (u16) to WebSocket framing in-place.
///
/// The input `buffer` must have a prefix area with unspecified data. The prefix
/// area must contain 2 bytes per DNS message of 126 bytes or larger. The worst
/// case overhead is 2 * floor(length / 128). The real input data starts at
/// `offset`. The first returned index is the end of the translated output. The
/// second returned index is the end of processed input. Unprocessed input
/// should be supplied at `offset` on the next call.
///
/// Nothing is written behind the translated output.
#[verifier::rlimit(40)]
pub fn dns_to_ws(buffer: &mut [u8], offset: usize) -> (r: (usize, usize))
    requires
        2 * extended_count(dns_messages(input_from(old(buffer)@, offset as int))) <= offset,
    ensures
        ({
            let input = input_from(old(buffer)@, offset as int);
            let output = ws_stream(dns_messages(input));
            &&& r.0 == output.len()
            &&& r.1 == offset + input.len() - dns_rest(input).len()
            &&& final(buffer)@ == output + old(buffer)@.skip(output.len() as int)
        }),
{
    let ghost input = input_from(buffer@, offset as int);
    let ghost mut done: Seq<Seq<u8>> = seq![];
    let mut input_pos: usize = offset;
    let mut output_pos: usize = 0;
    proof {
        assert(ws_stream(done) =~= seq![]);
        assert(input.skip(0) =~= input);
        assert(done + dns_messages(input) =~= dns_messages(input));
    }
    while input_pos <= buffer.len() && buffer.len() - input_pos >= 2
        invariant
            offset <= input_pos,
            input == input_from(old(buffer)@, offset as int),
            2 * extended_count(dns_messages(input)) <= offset,
            buffer@.len() == old(buffer)@.len(),
            input_pos - offset <= input.len(),
            dns_messages(input) == done + dns_messages(input.skip(input_pos - offset)),
            dns_rest(input) == dns_rest(input.skip(input_pos - offset)),
            output_pos == ws_stream(done).len(),
            output_pos == input_pos - offset + 2 * extended_count(done),
            output_pos <= input_pos,
            buffer@ == ws_stream(done) + old(buffer)@.skip(output_pos as int),
        ensures
            dns_first(input.skip(input_pos - offset)) is None,
        decreases buffer@.len() - input_pos,
    {
        let ghost here = input.skip(input_pos - offset);
        let hi = buffer[input_pos];
        let lo = buffer[input_pos + 1];
        let len: u16 = (hi as u16) * 256 + lo as u16;
        assert(here[0] == hi && here[1] == lo);
        if len as usize > buffer.len() - input_pos - 2 {
            break ;
        }
        let ghost m = here.subrange(2, 2 + len as int);
        let ghost tail = here.skip(2 + len as int);
        proof {
            assert(dns_first(here) == Some(m));
            assert(m =~= buffer@.subrange(input_pos + 2, input_pos + 2 + len));
            assert(tail =~= input.skip(input_pos - offset + 2 + len));
            lemma_ws_stream_push(done, m);
            lemma_extended_count_add(done.push(m), dns_messages(tail));
            assert(done + (seq![m] + dns_messages(tail)) =~= done.push(m) + dns_messages(tail));
        }
        output_pos = frame_down(buffer, input_pos + 2, len, output_pos);
        input_pos = input_pos + 2 + len as usize;
        proof {
            done = done.push(m);
            assert(buffer@ =~= ws_stream(done) + old(buffer)@.skip(output_pos as int));
        }
    }
    (output_pos, input_pos)
}

/// Unmasks WebSocket payload data (RFC 6455, Section 5.3) from `src` into
/// `dst`, which must be at least as long as `src`.
pub fn unmask_into(src: &[u8], mask: [u8; 4], dst: &mut [u8])
    requires
        src@.len() <= old(dst)@.len(),
    ensures
        final(dst)@ == unmasked(src@, mask@) + old(dst)@.skip(src@.len() as int),
        forall|i: int| 0 <= i < src@.len() ==> final(dst)@[i] == src@[i] ^ mask@[i % 4],
        forall|i: int| src@.len() <= i < old(dst)@.len() ==> final(dst)@[i] == old(dst)@[i],
{
    let n = src.len();
    for i in 0..n
        invariant
            n == src@.len(),
            n <= old(dst)@.len(),
            dst@.len() == old(dst)@.len(),
            forall|j: int| 0 <= j < i ==> dst@[j] == unmasked(src@, mask@)[j],
            forall|j: int| i <= j < dst@.len() ==> dst@[j] == old(dst)@[j],
    {
        dst[i] = src[i] ^ mask[i % 4];
    }
    assert(dst@ =~= unmasked(src@, mask@) + old(dst)@.skip(src@.len() as int));
}

/// Buffers and cursors holding the in- and outputs of [`ws_to_dns`].
pub struct WsToDnsState {
    /// End of pending pong replies at the front of `ws`. The caller consumes
    /// them by sending `ws[..pong]` and resetting `pong`.
    pub pong: usize,
    /// Unprocessed WS input in `ws`; `pong..ws_remainder.start` is processed
    /// input of no further use. The caller reclaims the space of both areas
    /// by moving `ws[ws_remainder]` to the front and resetting `pong` and
    /// `ws_remainder`. New input should be read into `ws[ws_remainder.end..]`.
    pub ws_remainder: Range<usize>,
    /// End of complete DNS TCP messages at the front of `dns`. The caller
    /// consumes them by reading `dns[..dns_out]` and resetting `dns_out`.
    pub dns_out: usize,
    /// End of the incomplete DNS message fragment in `dns_out..dns_pos`.
    pub dns_pos: usize,
    /// WS input; fits a maximum sized frame: 2 header bytes, 2 extended
    /// length bytes, 4 mask bytes, and 65535 data bytes.
    pub ws: [u8; 65543],
    /// DNS TCP output; fits a maximum sized message with its 2 length bytes.
    pub dns: [u8; 65537],
}

/// The length of [`WsToDnsState::ws`].
pub const WS_CAPACITY: usize = 65543;

/// The length of [`WsToDnsState::dns`].
pub const DNS_CAPACITY: usize = 65537;

impl WsToDnsState {
    /// The cursors keep their order. A message in progress takes up its 2
    /// length bytes from the start, so it is never just 1 byte long.
    pub open spec fn wf(self) -> bool {
        &&& self.pong <= self.ws_remainder.start
        &&& self.pong <= WS_CAPACITY
        &&& self.ws_remainder.end <= WS_CAPACITY
        &&& self.dns_pos == self.dns_out || self.dns_pos >= self.dns_out + 2
        &&& self.dns_pos <= DNS_CAPACITY
    }

    /// What the buffers hold for the client and for the upstream.
    pub open spec fn session(self) -> Session {
        Session {
            pongs: self.ws@.take(self.pong as int),
            done: self.dns@.take(self.dns_out as int),
            partial: if self.dns_pos == self.dns_out {
                None
            } else {
                Some(self.dns@.subrange(self.dns_out + 2, self.dns_pos as int))
            },
        }
    }

    /// The input that has not been processed.
    pub open spec fn input(self) -> Seq<u8> {
        if self.ws_remainder.start <= self.ws_remainder.end {
            self.ws@.subrange(self.ws_remainder.start as int, self.ws_remainder.end as int)
        } else {
            seq![]
        }
    }

    /// Whether `after` differs from `self` only in what the session of `after`
    /// and the start of its input say: every other byte and cursor is the same.
    pub open spec fn same_elsewhere(self, after: WsToDnsState) -> bool {
        &&& after.ws_remainder.end == self.ws_remainder.end
        &&& after.ws@.skip(after.pong as int) =~= self.ws@.skip(after.pong as int)
        &&& after.dns@.skip(after.dns_pos as int) =~= self.dns@.skip(after.dns_pos as int)
        &&& after.dns_pos > after.dns_out ==> after.dns@.subrange(
            after.dns_out as int,
            after.dns_out + 2,
        ) =~= self.dns@.subrange(after.dns_out as int, after.dns_out + 2)
    }
}

/// What two processing steps leave alone, both together leave alone.
proof fn lemma_same_elsewhere(a: WsToDnsState, b: WsToDnsState, c: WsToDnsState)
    requires
        a.same_elsewhere(b),
        b.same_elsewhere(c),
        b.wf(),
        c.wf(),
        b.pong <= c.pong,
        b.dns_pos <= c.dns_pos,
        c.dns_out == b.dns_out || c.dns_out == c.dns_pos,
    ensures
        a.same_elsewhere(c),
{
    assert forall|i: int| c.pong <= i < WS_CAPACITY implies a.ws@[i] == c.ws@[i] by {
        assert(c.ws@.skip(c.pong as int)[i - c.pong] == b.ws@.skip(c.pong as int)[i - c.pong]);
        assert(b.ws@.skip(b.pong as int)[i - b.pong] == a.ws@.skip(b.pong as int)[i - b.pong]);
    }
    assert forall|i: int| c.dns_pos <= i < DNS_CAPACITY implies a.dns@[i] == c.dns@[i] by {
        assert(c.dns@.skip(c.dns_pos as int)[i - c.dns_pos] == b.dns@.skip(c.dns_pos as int)[i
            - c.dns_pos]);
        assert(b.dns@.skip(b.dns_pos as int)[i - b.dns_pos] == a.dns@.skip(b.dns_pos as int)[i
            - b.dns_pos]);
    }
    if c.dns_pos > c.dns_out {
        let at = c.dns_out as int;
        assert forall|i: int| at <= i < at + 2 implies a.dns@[i] == c.dns@[i] by {
            assert(c.dns@.subrange(at, at + 2)[i - at] == b.dns@.subrange(at, at + 2)[i - at]);
            if b.dns_pos > b.dns_out {
                assert(b.dns@.subrange(at, at + 2)[i - at] == a.dns@.subrange(at, at + 2)[i - at]);
            } else {
                assert(b.dns@.skip(at)[i - at] == a.dns@.skip(at)[i - at]);
            }
        }
    }
}

impl Default for WsToDnsState {
    fn default() -> (state: Self)
        ensures
            state.wf(),
            state.pong == 0,
            state.ws_remainder == (0usize..0usize),
            state.dns_out == 0,
            state.dns_pos == 0,
            state.ws@ == Seq::new(WS_CAPACITY as nat, |i: int| 0u8),
            state.dns@ == Seq::new(DNS_CAPACITY as nat, |i: int| 0u8),
    {
        let state = WsToDnsState {
            pong: 0,
            ws_remainder: 0..0,
            dns_out: 0,
            dns_pos: 0,
            ws: [0;65543],
            dns: [0;65537],
        };
        assert(state.ws@ =~= Seq::new(WS_CAPACITY as nat, |i: int| 0u8));
        assert(state.dns@ =~= Seq::new(DNS_CAPACITY as nat, |i: int| 0u8));
        state
    }
}

/// Where the parts of a frame stand in the WS input.
struct FrameAt {
    first: u8,
    mask: [u8; 4],
    data_start: usize,
    data_end: usize,
}

impl FrameAt {
    /// Whether these are the positions of the frame that starts at `pos`.
    spec fn fits(self, ws: Seq<u8>, pos: int, end: int) -> bool {
        &&& pos + 6 <= self.data_start <= self.data_end <= end
        &&& scan(ws.subrange(pos, end)) == Scan::Frame(
            self.first,
            unmasked(ws.subrange(self.data_start as int, self.data_end as int), self.mask@),
            self.data_end - pos,
        )
    }
}

/// Reads the mask at `at` and finds the `len` bytes of payload behind it.
fn find_data(ws: &[u8], pos: usize, at: usize, len: u16, end: usize) -> (r: Option<FrameAt>)
    requires
        pos + 2 <= at <= pos + 4,
        at <= end <= ws@.len() <= WS_CAPACITY,
    ensures
        r is None <==> end < at + 4 + len,
        r matches Some(frame) ==> {
            &&& frame.first == ws@[pos as int]
            &&& frame.mask@ == ws@.subrange(at as int, at + 4)
            &&& frame.data_start == at + 4
            &&& frame.data_end == at + 4 + len
        },
{
    if end < at + 4 + len as usize {
        None
    } else {
        let mask: [u8; 4] = [ws[at], ws[at + 1], ws[at + 2], ws[at + 3]];
        assert(mask@ =~= ws@.subrange(at as int, at + 4));
        Some(
            FrameAt {
                first: ws[pos],
                mask,
                data_start: at + 4,
                data_end: at + 4 + len as usize,
            },
        )
    }
}

/// Reads the frame at the front of `ws[pos..end]`: `Ok(None)` while it is
/// incomplete, and the close code where it is not accepted.
fn find_frame(ws: &[u8], pos: usize, end: usize) -> (r: Result<Option<FrameAt>, u16>)
    requires
        pos <= end <= ws@.len() <= WS_CAPACITY,
    ensures
        match scan(ws@.subrange(pos as int, end as int)) {
            Scan::Incomplete => r == Ok::<Option<FrameAt>, u16>(None),
            Scan::Violation(code) => r == Err::<Option<FrameAt>, u16>(code),
            Scan::Frame(first, payload, len) => r matches Ok(Some(frame)) && frame.fits(
                ws@,
                pos as int,
                end as int,
            ),
        },
{
    let ghost s = ws@.subrange(pos as int, end as int);
    if end - pos < 2 {
        return Ok(None);
    }
    let first = ws[pos];
    let second = ws[pos + 1];
    match first {
        0x00 | 0x02 | 0x80 | 0x82 | 0x88 | 0x89 | 0x8a => {},
        _ => {
            return Err(UNSUPPORTED_DATA);
        },
    }
    if second < MASKED {
        return Err(PROTOCOL_ERROR);
    }
    let simple_len = second - MASKED;
    let at: usize;
    let len: u16;
    if simple_len == EXTENDED_LEN_2 {
        if end - pos < 4 {
            return Ok(None);
        }
        at = pos + 4;
        len = (ws[pos + 2] as u16) * 256 + ws[pos + 3] as u16;
    } else if simple_len == EXTENDED_LEN_8 {
        return Err(MESSAGE_TOO_BIG);
    } else {
        at = pos + 2;
        len = simple_len as u16;
    }
    let found = find_data(ws, pos, at, len, end);
    proof {
        let head = at - pos;
        assert(scan(s) == scan_data(s, head, len as int));
        if found is Some {
            assert(s.subrange(head, head + 4) =~= ws@.subrange(at as int, at + 4));
            assert(s.subrange(head + 4, head + 4 + len) =~= ws@.subrange(at + 4, at + 4 + len));
        }
    }
    Ok(found)
}

/// Writes the pong frame that answers a ping at `at`, in front of the ping's
/// payload, and returns the end of the pong frame.
fn answer_ping(ws: &mut [u8], at: usize, frame: &FrameAt) -> (end: usize)
    requires
        at + 2 <= frame.data_start <= frame.data_end <= old(ws)@.len(),
        frame.data_end - frame.data_start < EXTENDED_LEN_2,
    ensures
        ({
            let payload = unmasked(
                old(ws)@.subrange(frame.data_start as int, frame.data_end as int),
                frame.mask@,
            );
            &&& end == at + 2 + payload.len()
            &&& final(ws)@ == old(ws)@.take(at as int) + pong_frame(payload) + old(ws)@.skip(
                end as int,
            )
        }),
        final(ws)@[at as int] == 0x8a,
        final(ws)@[at + 1] == frame.data_end - frame.data_start,
        forall|i: int|
            0 <= i < frame.data_end - frame.data_start ==> #[trigger] final(ws)@[at + 2 + i]
                == old(ws)@[frame.data_start + i] ^ frame.mask@[i % 4],
{
    proof {
        lemma_first_bytes();
    }
    let n = frame.data_end - frame.data_start;
    let ghost data = ws@.subrange(frame.data_start as int, frame.data_end as int);
    ws[at] = FIN | PONG;
    ws[at + 1] = n as u8;
    for i in 0..n
        invariant
            n == frame.data_end - frame.data_start,
            at + 2 <= frame.data_start <= frame.data_end <= old(ws)@.len(),
            data == old(ws)@.subrange(frame.data_start as int, frame.data_end as int),
            n < EXTENDED_LEN_2,
            ws@.len() == old(ws)@.len(),
            ws@[at as int] == FIN | PONG,
            ws@[at + 1] == n as u8,
            forall|j: int| 0 <= j < at ==> ws@[j] == old(ws)@[j],
            forall|j: int|
                at + 2 <= j < at + 2 + i ==> ws@[j] == unmasked(data, frame.mask@)[j - at - 2],
            forall|j: int| at + 2 + i <= j < ws@.len() ==> ws@[j] == old(ws)@[j],
    {
        ws[at + 2 + i] = ws[frame.data_start + i] ^ frame.mask[i % 4];
    }
    assert forall|i: int| 0 <= i < n implies #[trigger] ws@[at + 2 + i] == old(ws)@[frame.data_start + i]
        ^ frame.mask@[i % 4] by {
        assert(ws@[at + 2 + i] == unmasked(data, frame.mask@)[i]);
    }
    assert(ws@ =~= old(ws)@.take(at as int) + pong_frame(unmasked(data, frame.mask@))
        + old(ws)@.skip(at + 2 + n));
    at + 2 + n
}

/// Unmasks `src` into `dns` from `start` on.
fn put_fragment(dns: &mut [u8], start: usize, src: &[u8], mask: [u8; 4])
    requires
        start + src@.len() <= old(dns)@.len(),
    ensures
        final(dns)@ == old(dns)@.take(start as int) + unmasked(src@, mask@) + old(dns)@.skip(
            start + src@.len(),
        ),
{
    let (_, dst) = dns.split_at_mut(start);
    unmask_into(src, mask, dst);
    assert(dns@ =~= old(dns)@.take(start as int) + unmasked(src@, mask@) + old(dns)@.skip(
        start + src@.len(),
    ));
}

/// Writes the length of a message to `dns[at..at + 2]`.
fn put_length(dns: &mut [u8], at: usize, len: u16)
    requires
        at + 2 <= old(dns)@.len(),
    ensures
        final(dns)@ == old(dns)@.take(at as int) + be16(len as int) + old(dns)@.skip(at + 2),
{
    dns[at] = (len / 256) as u8;
    dns[at + 1] = (len % 256) as u8;
    assert(dns@ =~= old(dns)@.take(at as int) + be16(len as int) + old(dns)@.skip(at + 2));
}

/// The effect of a data frame on the DNS side of the buffers.
#[verifier::rlimit(40)]
fn take_data(buf: &mut WsToDnsState, frame: &FrameAt) -> (r: Option<Result<(), u16>>)
    requires
        old(buf).wf(),
        frame.data_start <= frame.data_end <= old(buf).ws_remainder.end,
        frame.data_end - frame.data_start <= MAX_MESSAGE,
    ensures
        ({
            let payload = unmasked(
                old(buf).ws@.subrange(frame.data_start as int, frame.data_end as int),
                frame.mask@,
            );
            let fresh = frame.first == BINARY_DATA || frame.first == FIN | BINARY_DATA;
            let last = frame.first >= FIN;
            match old(buf).session().on_data(fresh, last, payload, DNS_CAPACITY as int) {
                Step::Next(session) => {
                    &&& r is None
                    &&& final(buf).wf()
                    &&& final(buf).session() == session
                    &&& final(buf).ws == old(buf).ws
                    &&& final(buf).ws_remainder == old(buf).ws_remainder
                    &&& final(buf).pong == old(buf).pong
                    &&& final(buf).dns_pos >= old(buf).dns_pos
                    &&& old(buf).same_elsewhere(*final(buf))
                },
                Step::Stop(result) => r == Some(result) && *final(buf) == *old(buf),
            }
        }),
{
    let ghost data = buf.ws@.subrange(frame.data_start as int, frame.data_end as int);
    let ghost payload = unmasked(data, frame.mask@);
    let fresh = frame.first == BINARY_DATA || frame.first == FIN | BINARY_DATA;
    if fresh != (buf.dns_pos == buf.dns_out) {
        return Some(Err(PROTOCOL_ERROR));
    }
    let start = if fresh {
        buf.dns_pos + 2
    } else {
        buf.dns_pos
    };
    let len = frame.data_end - frame.data_start;
    let message_len = start - buf.dns_out - 2 + len;
    if message_len > MAX_MESSAGE {
        return Some(Err(MESSAGE_TOO_BIG));
    }
    if start + len > DNS_CAPACITY {
        return Some(Ok(()));
    }
    let src = slice_subrange(buf.ws.as_slice(), frame.data_start, frame.data_end);
    put_fragment(&mut buf.dns, start, src, frame.mask);
    buf.dns_pos = start + len;
    if frame.first >= FIN {
        put_length(&mut buf.dns, buf.dns_out, message_len as u16);
        buf.dns_out = buf.dns_pos;
    }
    proof {
        let before = old(buf).session();
        let message = before.begun() + payload;
        assert(message.len() == message_len);
        if frame.first >= FIN {
            assert(buf.session().done =~= before.done + dns_packet(message));
        } else {
            assert(buf.session().done =~= before.done);
            assert(buf.session().partial->0 =~= message);
        }
    }
    None
}

/// Takes the frame at the front of the input, or says with what result it
/// stops the processing.
fn take_frame(buf: &mut WsToDnsState, frame: &FrameAt) -> (r: Option<Result<(), u16>>)
    requires
        old(buf).wf(),
        old(buf).ws_remainder.start <= old(buf).ws_remainder.end,
        frame.fits(
            old(buf).ws@,
            old(buf).ws_remainder.start as int,
            old(buf).ws_remainder.end as int,
        ),
    ensures
        ({
            let input = old(buf).input();
            let (first, payload, len) = match scan(input) {
                Scan::Frame(first, payload, len) => (first, payload, len),
                _ => arbitrary(),
            };
            match old(buf).session().on_frame(first, payload, DNS_CAPACITY as int) {
                Step::Next(session) => {
                    &&& r is None
                    &&& final(buf).wf()
                    &&& final(buf).session() == session
                    &&& final(buf).input() == input.skip(len)
                    &&& final(buf).ws_remainder.start == frame.data_end
                    &&& old(buf).same_elsewhere(*final(buf))
                    &&& final(buf).pong >= old(buf).pong
                    &&& final(buf).dns_pos >= old(buf).dns_pos
                    &&& final(buf).dns_out == old(buf).dns_out || final(buf).dns_out
                        == final(buf).dns_pos
                },
                Step::Stop(result) => r == Some(result) && *final(buf) == *old(buf),
            }
        }),
{
    let len = frame.data_end - frame.data_start;
    if frame.first == FIN | CLOSE {
        return Some(Err(NORMAL_CLOSURE));
    } else if frame.first == FIN | PING {
        if len >= EXTENDED_LEN_2 as usize {
            return Some(Err(PROTOCOL_ERROR));
        }
        let ws: &mut [u8] = &mut buf.ws;
        buf.pong = answer_ping(ws, buf.pong, frame);
    } else if frame.first != FIN | PONG {
        if let Some(result) = take_data(buf, frame) {
            return Some(result);
        }
    }
    buf.ws_remainder.start = frame.data_end;
    proof {
        let before = old(buf).session();
        let data = old(buf).ws@.subrange(frame.data_start as int, frame.data_end as int);
        if frame.first == FIN | PING {
            assert(buf.session().pongs =~= before.pongs + pong_frame(unmasked(data, frame.mask@)));
        }
        assert(buf.input() =~= old(buf).input().skip(frame.data_end - old(buf).ws_remainder.start));
    }
    None
}

/// Converts WebSocket framing to DNS TCP framing, translating WS binary data
/// frames from `buf.ws` to DNS messages in `buf.dns` and answering WS ping
/// frames with pong replies built in-place at the front of `buf.ws`.
///
/// Processing stops when the input is exhausted or `dns` is full, or with the
/// WS close code as error on a close frame or protocol violation.
/// Processed input is consumed by advancing `ws_remainder.start`; the frame
/// that stopped processing is not consumed, so an unchanged `WsToDnsState`
/// yields the same result again.
pub fn ws_to_dns(buf: &mut WsToDnsState) -> (r: Result<(), u16>)
    requires
        old(buf).wf(),
    ensures
        final(buf).wf(),
        ({
            let (session, rest, result) = old(buf).session().run(
                old(buf).input(),
                DNS_CAPACITY as int,
            );
            &&& r == result
            &&& final(buf).session() == session
            &&& final(buf).input() == rest
            &&& final(buf).ws_remainder.start == old(buf).ws_remainder.start
                + old(buf).input().len() - rest.len()
            &&& old(buf).same_elsewhere(*final(buf))
            &&& final(buf).ws_remainder.end == old(buf).ws_remainder.end
            &&& final(buf).ws@.take(final(buf).pong as int) == session.pongs
            &&& final(buf).dns@.take(final(buf).dns_out as int) == session.done
            &&& session.partial is None <==> final(buf).dns_pos == final(buf).dns_out
            &&& session.partial matches Some(m) ==> final(buf).dns@.subrange(
                final(buf).dns_out + 2,
                final(buf).dns_pos as int,
            ) == m
        }),
{
    if buf.ws_remainder.start > buf.ws_remainder.end {
        return Ok(());
    }
    loop
        invariant
            old(buf).wf(),
            buf.wf(),
            buf.ws_remainder.start <= buf.ws_remainder.end,
            old(buf).session().run(old(buf).input(), DNS_CAPACITY as int) == buf.session().run(
                buf.input(),
                DNS_CAPACITY as int,
            ),
            buf.ws_remainder.start + buf.input().len() == old(buf).ws_remainder.start
                + old(buf).input().len(),
            old(buf).same_elsewhere(*buf),
        decreases buf.ws_remainder.end - buf.ws_remainder.start,
    {
        match find_frame(buf.ws.as_slice(), buf.ws_remainder.start, buf.ws_remainder.end) {
            Err(code) => {
                return Err(code);
            },
            Ok(None) => {
                return Ok(());
            },
            Ok(Some(frame)) => {
                let ghost before = *buf;
                if let Some(result) = take_frame(buf, &frame) {
                    return result;
                }
                proof {
                    lemma_same_elsewhere(*old(buf), before, *buf);
                }
            },
        }
    }
}

impl WsToDnsState {
    /// What the buffers hold stands between the cursors: the pongs and the messages
    /// at the front, the message in progress behind its 2 length bytes, and the
    /// input between the ends of its range.
    pub proof fn holds_between_cursors(self)
        requires
            self.wf(),
            self.ws_remainder.start <= self.ws_remainder.end,
        ensures
            self.session().pongs == self.ws@.subrange(0, self.pong as int),
            self.session().done == self.dns@.subrange(0, self.dns_out as int),
            self.session().partial is None <==> self.dns_pos == self.dns_out,
            self.session().partial matches Some(m) ==> m == self.dns@.subrange(
                self.dns_out + 2,
                self.dns_pos as int,
            ),
            self.input() == self.ws@.subrange(
                self.ws_remainder.start as int,
                self.ws_remainder.end as int,
            ),
    {
    }
}

/// The buffers have room for the largest frame and the largest message.
pub proof fn largest_fits()
    ensures
        WS_CAPACITY == 2 + 2 + 4 + 65535,
        DNS_CAPACITY == 2 + 65535,
{
}

/// The input is what stands behind the prefix area.
pub proof fn input_is_behind_offset(buffer: Seq<u8>, offset: int)
    requires
        0 <= offset,
    ensures
        offset <= buffer.len() ==> buffer.take(offset) + input_from(buffer, offset) == buffer,
        offset > buffer.len() ==> input_from(buffer, offset).len() == 0,
{
    if offset <= buffer.len() {
        assert(buffer.take(offset) + input_from(buffer, offset) =~= buffer);
    }
}

/// What a client's frame at the front of the input does to the buffers, byte by
/// byte: a whole message becomes its 2 length bytes and its bytes without the mask,
/// behind the messages that are there, for each mask that the client may pick.
pub proof fn whole_message_bytes(before: WsToDnsState, at: int, n: int)
    requires
        before.wf(),
        before.ws_remainder.start <= before.ws_remainder.end,
        before.dns_pos == before.dns_out,
        ({
            let start = before.ws_remainder.start as int;
            &&& before.ws@[start] == 0x82
            &&& before.ws_remainder.end == start + at + 4 + n
            &&& before.dns_out + 2 + n <= 65537
            &&& {
                ||| at == 2 && 0 <= n < 126 && before.ws@[start + 1] == 0x80 + n
                ||| at == 4 && before.ws@[start + 1] == 0xfe && before.ws@[start + 2] * 256
                    + before.ws@[start + 3] == n
            }
        }),
    ensures
        ({
            let start = before.ws_remainder.start as int;
            let (session, rest, result) = before.session().run(
                before.input(),
                DNS_CAPACITY as int,
            );
            let out = before.dns_out as int;
            &&& result is Ok
            &&& rest.len() == 0
            &&& session.partial is None
            &&& session.pongs == before.session().pongs
            &&& session.done.len() == out + 2 + n
            &&& session.done.take(out) == before.dns@.take(out)
            &&& session.done[out] * 256 + session.done[out + 1] == n
            &&& forall|i: int|
                0 <= i < n ==> #[trigger] session.done[out + 2 + i] == before.ws@[start + at + 4
                    + i] ^ before.ws@[start + at + i % 4]
        }),
{
    let start = before.ws_remainder.start as int;
    let s = before.input();
    let payload = Seq::new(n as nat, |i: int| s[at + 4 + i] ^ s[at + i % 4]);
    before.session().run_frame_bytes(s, at, payload, DNS_CAPACITY as int);
    let message = Seq::<u8>::empty() + payload;
    assert(message =~= payload);
    assert(s.skip(at + 4 + n) =~= seq![]);
    let done = before.session().done + seq![(n / 256) as u8, (n % 256) as u8] + payload;
    assert(done.take(before.dns_out as int) =~= before.dns@.take(before.dns_out as int));
}

/// Whatever the translation has no use for is left alone, byte by byte.
pub proof fn same_elsewhere_bytes(before: WsToDnsState, after: WsToDnsState)
    requires
        after.wf(),
        before.same_elsewhere(after),
    ensures
        after.ws_remainder.end == before.ws_remainder.end,
        forall|i: int| after.pong <= i < 65543 ==> #[trigger] after.ws@[i] == before.ws@[i],
        forall|i: int| after.dns_pos <= i < 65537 ==> #[trigger] after.dns@[i] == before.dns@[i],
{
    let p = after.pong as int;
    let d = after.dns_pos as int;
    assert forall|i: int| p <= i < 65543 implies #[trigger] after.ws@[i] == before.ws@[i] by {
        assert(after.ws@.skip(p)[i - p] == before.ws@.skip(p)[i - p]);
    }
    assert forall|i: int| d <= i < 65537 implies #[trigger] after.dns@[i] == before.dns@[i] by {
        assert(after.dns@.skip(d)[i - d] == before.dns@.skip(d)[i - d]);
    }
}

} // verus!
