//! What a WebSocket client sends, and what the proxy makes of it, as
//! mathematical functions on byte sequences.

use vstd::prelude::*;

use crate::framing::{
    all_sendable, be16, be16_round_trip, be16_value, dns_packet, dns_stream, BINARY_DATA, CLOSE,
    EXTENDED_LEN_2, EXTENDED_LEN_8, FIN, MASKED, MAX_MESSAGE, PING, PONG,
};

verus! {

/// Close code: the purpose of the connection is fulfilled.
pub const NORMAL_CLOSURE: u16 = 1000;

/// Close code: the client broke the protocol.
pub const PROTOCOL_ERROR: u16 = 1002;

/// Close code: the client sent a type of data that is not accepted.
pub const UNSUPPORTED_DATA: u16 = 1003;

/// Close code: a message is too big.
pub const MESSAGE_TOO_BIG: u16 = 1009;

/// Payload data with its masking undone, or put on (RFC 6455, Section 5.3).
pub open spec fn unmasked(data: Seq<u8>, mask: Seq<u8>) -> Seq<u8> {
    Seq::new(data.len(), |i: int| data[i] ^ mask[i % 4])
}

/// The first bytes of a frame that a client may send: continuation and binary
/// frames, final or not, and close, ping and pong frames, which are not to be
/// fragmented.
pub open spec fn is_allowed(first: u8) -> bool {
    first == 0x00 || first == 0x02 || first == 0x80 || first == 0x82 || first == 0x88 || first
        == 0x89 || first == 0x8a
}

/// What stands at the front of a client's byte stream.
pub enum Scan {
    /// The front of a frame that more bytes may complete.
    Incomplete,
    /// Bytes that no frame the proxy accepts starts with, and the close code.
    Violation(u16),
    /// A whole frame: its first byte, its payload without the masking, and how
    /// many bytes it takes up.
    Frame(u8, Seq<u8>, int),
}

/// Reads the frame at the front of a client's byte stream.
pub open spec fn scan(s: Seq<u8>) -> Scan {
    if s.len() < 2 {
        Scan::Incomplete
    } else if !is_allowed(s[0]) {
        Scan::Violation(UNSUPPORTED_DATA)
    } else if s[1] < MASKED {
        Scan::Violation(PROTOCOL_ERROR)
    } else if s[1] == MASKED + EXTENDED_LEN_8 {
        Scan::Violation(MESSAGE_TOO_BIG)
    } else if s[1] == MASKED + EXTENDED_LEN_2 {
        if s.len() < 4 {
            Scan::Incomplete
        } else {
            scan_data(s, 4, be16_value(s[2], s[3]))
        }
    } else {
        scan_data(s, 2, s[1] - MASKED)
    }
}

/// Reads the mask at `at` and the `len` bytes of payload behind it.
pub open spec fn scan_data(s: Seq<u8>, at: int, len: int) -> Scan {
    if s.len() < at + 4 + len {
        Scan::Incomplete
    } else {
        Scan::Frame(
            s[0],
            unmasked(s.subrange(at + 4, at + 4 + len), s.subrange(at, at + 4)),
            at + 4 + len,
        )
    }
}

/// The server's answer to a ping.
pub open spec fn pong_frame(payload: Seq<u8>) -> Seq<u8> {
    seq![FIN | PONG, payload.len() as u8] + payload
}

/// What the proxy holds for a client between two frames.
#[verifier::ext_equal]
pub struct Session {
    /// Pong frames that wait to be sent to the client.
    pub pongs: Seq<u8>,
    /// Complete DNS over TCP messages that wait to be sent upstream.
    pub done: Seq<u8>,
    /// What has come of a message whose last fragment has not.
    pub partial: Option<Seq<u8>>,
}

/// What the proxy does about a frame.
pub enum Step {
    /// It takes the frame and goes on with the next one.
    Next(Session),
    /// It leaves the frame where it is and stops, with the close code if there
    /// is one.
    Stop(Result<(), u16>),
}

impl Session {
    /// The payload of the message in progress, if there is one.
    pub open spec fn begun(self) -> Seq<u8> {
        match self.partial {
            Some(m) => m,
            None => seq![],
        }
    }

    /// The effect of a data frame: `fresh` if it starts a message, `last` if it
    /// ends one. `room` is how many bytes of DNS over TCP can be held.
    pub open spec fn on_data(self, fresh: bool, last: bool, payload: Seq<u8>, room: int) -> Step {
        let message = self.begun() + payload;
        if fresh != (self.partial is None) {
            Step::Stop(Err(PROTOCOL_ERROR))
        } else if message.len() > MAX_MESSAGE {
            Step::Stop(Err(MESSAGE_TOO_BIG))
        } else if self.done.len() + 2 + message.len() > room {
            Step::Stop(Ok(()))
        } else if last {
            Step::Next(
                Session { done: self.done + dns_packet(message), partial: None, ..self },
            )
        } else {
            Step::Next(Session { partial: Some(message), ..self })
        }
    }

    /// The effect of a frame.
    pub open spec fn on_frame(self, first: u8, payload: Seq<u8>, room: int) -> Step {
        if first == FIN | CLOSE {
            Step::Stop(Err(NORMAL_CLOSURE))
        } else if first == FIN | PING {
            if payload.len() < EXTENDED_LEN_2 {
                Step::Next(Session { pongs: self.pongs + pong_frame(payload), ..self })
            } else {
                Step::Stop(Err(PROTOCOL_ERROR))
            }
        } else if first == FIN | PONG {
            Step::Next(self)
        } else {
            self.on_data(
                first == BINARY_DATA || first == FIN | BINARY_DATA,
                first >= FIN,
                payload,
                room,
            )
        }
    }

    /// Takes frames from the front of `input` until one stops it or the input is
    /// exhausted: what is held then, the input that is left, and the result.
    pub open spec fn run(self, input: Seq<u8>, room: int) -> (Session, Seq<u8>, Result<(), u16>)
        decreases input.len(),
    {
        match scan(input) {
            Scan::Incomplete => (self, input, Ok(())),
            Scan::Violation(code) => (self, input, Err(code)),
            Scan::Frame(first, payload, len) => match self.on_frame(first, payload, room) {
                Step::Next(session) => session.run(input.skip(len), room),
                Step::Stop(result) => (self, input, result),
            },
        }
    }
}

/// A frame as a client sends it.
pub open spec fn client_frame(first: u8, payload: Seq<u8>, mask: Seq<u8>) -> Seq<u8> {
    client_header(first, payload.len()) + mask + unmasked(payload, mask)
}

/// The header of a client's frame, up to the mask.
pub open spec fn client_header(first: u8, len: nat) -> Seq<u8> {
    if len < EXTENDED_LEN_2 {
        seq![first, (MASKED + len) as u8]
    } else {
        seq![first, (MASKED + EXTENDED_LEN_2) as u8] + be16(len as int)
    }
}

/// The first byte of a fragment of a message: `fresh` if it is the first one,
/// `last` if it is the last.
pub open spec fn fragment_first(fresh: bool, last: bool) -> u8 {
    match (fresh, last) {
        (true, true) => FIN | BINARY_DATA,
        (true, false) => BINARY_DATA,
        (false, true) => FIN,
        (false, false) => 0,
    }
}

/// The frames in which a client sends the fragments of a message.
pub open spec fn client_fragments(
    fragments: Seq<Seq<u8>>,
    masks: Seq<Seq<u8>>,
    fresh: bool,
) -> Seq<u8>
    decreases fragments.len(),
{
    if fragments.len() == 0 {
        seq![]
    } else {
        client_frame(fragment_first(fresh, fragments.len() == 1), fragments[0], masks[0])
            + client_fragments(fragments.skip(1), masks.skip(1), false)
    }
}

/// The frames in which a client sends messages, one for each.
pub open spec fn client_stream(messages: Seq<Seq<u8>>, masks: Seq<Seq<u8>>) -> Seq<u8>
    decreases messages.len(),
{
    if messages.len() == 0 {
        seq![]
    } else {
        client_frame(FIN | BINARY_DATA, messages[0], masks[0]) + client_stream(
            messages.skip(1),
            masks.skip(1),
        )
    }
}

/// Rounds without new input.
pub open spec fn no_chunks(n: nat) -> Seq<Seq<u8>> {
    Seq::new(n, |i: int| Seq::<u8>::empty())
}

/// The fragments of a message, or the chunks of a stream, put together.
pub open spec fn joined(fragments: Seq<Seq<u8>>) -> Seq<u8>
    decreases fragments.len(),
{
    if fragments.len() == 0 {
        seq![]
    } else {
        fragments[0] + joined(fragments.skip(1))
    }
}

/// The first bytes of the frames that the proxy treats in different ways.
pub proof fn lemma_first_bytes()
    ensures
        FIN | BINARY_DATA == 0x82,
        FIN | CLOSE == 0x88,
        FIN | PING == 0x89,
        FIN | PONG == 0x8a,
{
    assert(0x80u8 | 0x2u8 == 0x82) by (bit_vector);
    assert(0x80u8 | 0x8u8 == 0x88) by (bit_vector);
    assert(0x80u8 | 0x9u8 == 0x89) by (bit_vector);
    assert(0x80u8 | 0xAu8 == 0x8a) by (bit_vector);
}

/// Masking twice with the same mask undoes itself.
pub proof fn unmasked_twice(data: Seq<u8>, mask: Seq<u8>)
    ensures
        unmasked(unmasked(data, mask), mask) == data,
{
    assert forall|i: int| 0 <= i < data.len() implies unmasked(unmasked(data, mask), mask)[i]
        == data[i] by {
        let x = data[i];
        let m = mask[i % 4];
        assert((x ^ m) ^ m == x) by (bit_vector);
    }
    assert(unmasked(unmasked(data, mask), mask) =~= data);
}

/// The proxy reads from the front of its input the frame that the client wrote
/// there, whatever the mask and whatever follows.
pub proof fn scan_round_trip(first: u8, payload: Seq<u8>, mask: Seq<u8>, rest: Seq<u8>)
    requires
        is_allowed(first),
        payload.len() <= MAX_MESSAGE,
        mask.len() == 4,
    ensures
        scan(client_frame(first, payload, mask) + rest) == Scan::Frame(
            first,
            payload,
            client_frame(first, payload, mask).len() as int,
        ),
        (client_frame(first, payload, mask) + rest).skip(
            client_frame(first, payload, mask).len() as int,
        ) == rest,
{
    let frame = client_frame(first, payload, mask);
    let s = frame + rest;
    let at = client_header(first, payload.len()).len() as int;
    be16_round_trip(payload.len() as int);
    assert(scan(s) == scan_data(s, at, payload.len() as int));
    assert(s.subrange(at, at + 4) =~= mask);
    assert(s.subrange(at + 4, at + 4 + payload.len()) =~= unmasked(payload, mask));
    unmasked_twice(payload, mask);
    assert(s.skip(frame.len() as int) =~= rest);
}

/// More bytes do not change what the bytes that are there were read as.
pub proof fn scan_is_stable(s: Seq<u8>, more: Seq<u8>)
    ensures
        scan(s) is Incomplete || scan(s + more) == scan(s),
{
    if s.len() >= 6 && s[1] >= MASKED {
        let at: int = if s[1] == MASKED + EXTENDED_LEN_2 {
            4
        } else {
            2
        };
        let len = if at == 4 {
            be16_value(s[2], s[3])
        } else {
            s[1] - MASKED
        };
        if s.len() >= at + 4 + len {
            assert((s + more).subrange(at, at + 4) =~= s.subrange(at, at + 4));
            assert((s + more).subrange(at + 4, at + 4 + len) =~= s.subrange(
                at + 4,
                at + 4 + len,
            ));
        }
    }
}

proof fn lemma_prefix_trans(a: Seq<u8>, b: Seq<u8>, c: Seq<u8>)
    requires
        a.is_prefix_of(b),
        b.is_prefix_of(c),
    ensures
        a.is_prefix_of(c),
{
}

/// An incomplete frame is shorter than the longest frame there can be.
pub proof fn incomplete_is_short(s: Seq<u8>)
    requires
        scan(s) is Incomplete,
    ensures
        s.len() < 8 + MAX_MESSAGE,
{
}

impl Session {
    /// The frame that stopped the processing stops it again: the same result,
    /// with nothing taken or produced twice.
    pub proof fn run_again(self, input: Seq<u8>, room: int)
        ensures
            ({
                let (session, rest, result) = self.run(input, room);
                session.run(rest, room) == (session, rest, result)
            }),
        decreases input.len(),
    {
        if let Scan::Frame(first, payload, len) = scan(input) {
            if let Step::Next(session) = self.on_frame(first, payload, room) {
                session.run_again(input.skip(len), room);
            }
        }
    }

    /// Processing what is there, and going on when there is more input, more room,
    /// or both, is processing all of it with all the room at once.
    pub proof fn run_continued(self, a: Seq<u8>, b: Seq<u8>, room: int, more: int)
        requires
            room <= more,
        ensures
            ({
                let (session, rest, result) = self.run(a, room);
                self.run(a + b, more) == session.run(rest + b, more)
            }),
        decreases a.len(),
    {
        scan_is_stable(a, b);
        if let Scan::Frame(first, payload, len) = scan(a) {
            if let Step::Next(next) = self.on_frame(first, payload, room) {
                assert(self.on_frame(first, payload, more) == Step::Next(next));
                next.run_continued(a.skip(len), b, room, more);
                assert((a + b).skip(len) =~= a.skip(len) + b);
            }
        }
    }

    /// How the client's bytes are cut into chunks on the way does not matter:
    /// processing a chunk, and then what was left of it and the next chunk, is
    /// processing both chunks together.
    pub proof fn run_by_chunk(self, a: Seq<u8>, b: Seq<u8>, room: int)
        ensures
            ({
                let (session, rest, result) = self.run(a, room);
                self.run(a + b, room) == session.run(rest + b, room)
            }),
    {
        self.run_continued(a, b, room, room);
    }

    /// What is held only grows at its end, and the input only shrinks at its
    /// front.
    pub proof fn run_extends(self, input: Seq<u8>, room: int)
        ensures
            ({
                let (session, rest, result) = self.run(input, room);
                &&& self.pongs.is_prefix_of(session.pongs)
                &&& self.done.is_prefix_of(session.done)
                &&& rest.is_suffix_of(input)
            }),
        decreases input.len(),
    {
        if let Scan::Frame(first, payload, len) = scan(input) {
            if let Step::Next(next) = self.on_frame(first, payload, room) {
                next.run_extends(input.skip(len), room);
                let (session, rest, result) = next.run(input.skip(len), room);
                self.lemma_on_frame_extends(first, payload, room);
                lemma_prefix_trans(self.pongs, next.pongs, session.pongs);
                lemma_prefix_trans(self.done, next.done, session.done);
            }
        }
    }

    proof fn lemma_on_frame_extends(self, first: u8, payload: Seq<u8>, room: int)
        ensures
            self.on_frame(first, payload, room) matches Step::Next(next) ==> {
                &&& self.pongs.is_prefix_of(next.pongs)
                &&& self.done.is_prefix_of(next.done)
            },
    {
    }

    /// What stops the processing when it produced no message is the end of the
    /// input in the middle of a frame: for one message there is always room.
    pub proof fn run_ends_in_a_frame(self, input: Seq<u8>, room: int)
        requires
            room >= 2 + MAX_MESSAGE,
            self.run(input, room).2 is Ok,
            self.run(input, room).0.done.len() == 0,
        ensures
            scan(self.run(input, room).1) is Incomplete,
            self.run(input, room).1.len() < 8 + MAX_MESSAGE,
        decreases input.len(),
    {
        if let Scan::Frame(first, payload, len) = scan(input) {
            if let Step::Next(next) = self.on_frame(first, payload, room) {
                next.run_ends_in_a_frame(input.skip(len), room);
            }
        } else {
            incomplete_is_short(input);
        }
    }

    /// To produce anything takes input.
    pub proof fn run_takes_input(self, input: Seq<u8>, room: int)
        requires
            self.run(input, room).0 != self,
        ensures
            self.run(input, room).1.len() < input.len(),
    {
        if let Scan::Frame(first, payload, len) = scan(input) {
            if let Step::Next(next) = self.on_frame(first, payload, room) {
                next.run_extends(input.skip(len), room);
            }
        }
    }

    /// A ping is answered with a pong of the same payload, also in the middle of
    /// a fragmented message.
    pub proof fn run_ping(self, payload: Seq<u8>, mask: Seq<u8>, rest: Seq<u8>, room: int)
        requires
            payload.len() < EXTENDED_LEN_2,
            mask.len() == 4,
        ensures
            self.run(client_frame(FIN | PING, payload, mask) + rest, room) == (Session {
                pongs: self.pongs + pong_frame(payload),
                ..self
            }).run(rest, room),
    {
        lemma_first_bytes();
        scan_round_trip(FIN | PING, payload, mask, rest);
    }

    /// A pong is passed over.
    pub proof fn run_pong(self, payload: Seq<u8>, mask: Seq<u8>, rest: Seq<u8>, room: int)
        requires
            payload.len() <= MAX_MESSAGE,
            mask.len() == 4,
        ensures
            self.run(client_frame(FIN | PONG, payload, mask) + rest, room) == self.run(rest, room),
    {
        lemma_first_bytes();
        scan_round_trip(FIN | PONG, payload, mask, rest);
    }

    /// A close frame ends the session normally and stays in the input.
    pub proof fn run_close(self, payload: Seq<u8>, mask: Seq<u8>, rest: Seq<u8>, room: int)
        requires
            payload.len() <= MAX_MESSAGE,
            mask.len() == 4,
        ensures
            self.run(client_frame(FIN | CLOSE, payload, mask) + rest, room) == (
                self,
                client_frame(FIN | CLOSE, payload, mask) + rest,
                Err::<(), u16>(NORMAL_CLOSURE),
            ),
    {
        lemma_first_bytes();
        scan_round_trip(FIN | CLOSE, payload, mask, rest);
    }

    /// A message that the client sends in one frame becomes the DNS over TCP
    /// message with the same content.
    pub proof fn run_message(self, message: Seq<u8>, mask: Seq<u8>, rest: Seq<u8>, room: int)
        requires
            self.partial is None,
            message.len() <= MAX_MESSAGE,
            self.done.len() + 2 + message.len() <= room,
            mask.len() == 4,
        ensures
            self.run(client_frame(FIN | BINARY_DATA, message, mask) + rest, room) == (Session {
                done: self.done + dns_packet(message),
                ..self
            }).run(rest, room),
    {
        lemma_first_bytes();
        scan_round_trip(FIN | BINARY_DATA, message, mask, rest);
        assert(self.begun() + message =~= message);
    }

    /// A message that the client sends in any number of fragments becomes the
    /// same DNS over TCP message as in one frame.
    pub proof fn run_fragments(
        self,
        fragments: Seq<Seq<u8>>,
        masks: Seq<Seq<u8>>,
        rest: Seq<u8>,
        room: int,
    )
        requires
            fragments.len() >= 1,
            masks.len() == fragments.len(),
            forall|i: int| 0 <= i < masks.len() ==> #[trigger] masks[i].len() == 4,
            self.begun().len() + joined(fragments).len() <= MAX_MESSAGE,
            self.done.len() + 2 + self.begun().len() + joined(fragments).len() <= room,
        ensures
            self.run(client_fragments(fragments, masks, self.partial is None) + rest, room) == (
            Session {
                done: self.done + dns_packet(self.begun() + joined(fragments)),
                partial: None,
                ..self
            }).run(rest, room),
        decreases fragments.len(),
    {
        let fresh = self.partial is None;
        let last = fragments.len() == 1;
        let payload = fragments[0];
        let message = self.begun() + payload;
        let tail = if last {
            rest
        } else {
            client_fragments(fragments.skip(1), masks.skip(1), false) + rest
        };
        assert(masks[0].len() == 4);
        assert(joined(fragments) == payload + joined(fragments.skip(1)));
        assert(message + joined(fragments.skip(1)) =~= self.begun() + joined(fragments));
        if last {
            assert(client_fragments(fragments.skip(1), masks.skip(1), false) =~= seq![]);
            assert(joined(fragments.skip(1)) =~= seq![]);
            assert(message =~= self.begun() + joined(fragments));
        }
        assert(client_fragments(fragments, masks, fresh) + rest =~= client_frame(
            fragment_first(fresh, last),
            payload,
            masks[0],
        ) + tail);
        self.lemma_run_fragment(last, payload, masks[0], tail, room);
        if !last {
            let next = Session { partial: Some(message), ..self };
            next.run_fragments(fragments.skip(1), masks.skip(1), rest, room);
        }
    }

    /// A fragment is put behind the message in progress.
    proof fn lemma_run_fragment(
        self,
        last: bool,
        payload: Seq<u8>,
        mask: Seq<u8>,
        rest: Seq<u8>,
        room: int,
    )
        requires
            mask.len() == 4,
            self.begun().len() + payload.len() <= MAX_MESSAGE,
            self.done.len() + 2 + self.begun().len() + payload.len() <= room,
        ensures
            ({
                let message = self.begun() + payload;
                let next = if last {
                    Session { done: self.done + dns_packet(message), partial: None, ..self }
                } else {
                    Session { partial: Some(message), ..self }
                };
                self.run(
                    client_frame(fragment_first(self.partial is None, last), payload, mask) + rest,
                    room,
                ) == next.run(rest, room)
            }),
    {
        lemma_first_bytes();
        scan_round_trip(fragment_first(self.partial is None, last), payload, mask, rest);
    }

    /// A lack of room only delays: what a smaller room leaves undone is done
    /// once there is more of it.
    pub proof fn run_with_more_room(self, input: Seq<u8>, room: int, more: int)
        requires
            room <= more,
        ensures
            ({
                let (session, rest, result) = self.run(input, room);
                self.run(input, more) == session.run(rest, more)
            }),
    {
        let (session, rest, result) = self.run(input, room);
        self.run_continued(input, seq![], room, more);
        assert(input + seq![] =~= input);
        assert(rest + seq![] =~= rest);
    }

    /// The session with what waits to be sent taken out.
    pub open spec fn released(self) -> Session {
        Session { pongs: seq![], done: seq![], partial: self.partial }
    }

    /// The session with `other`'s pongs and messages ahead of its own.
    pub open spec fn behind(self, other: Session) -> Session {
        Session {
            pongs: other.pongs + self.pongs,
            done: other.done + self.done,
            partial: self.partial,
        }
    }

    /// What waits to be sent has no bearing on what follows it: to send it before
    /// going on only makes room.
    pub proof fn run_after_release(self, ahead: Session, input: Seq<u8>, room: int)
        ensures
            ({
                let (session, rest, result) = self.run(input, room);
                self.behind(ahead).run(input, room + ahead.done.len()) == (
                    session.behind(ahead),
                    rest,
                    result,
                )
            }),
        decreases input.len(),
    {
        if let Scan::Frame(first, payload, len) = scan(input) {
            if let Step::Next(next) = self.on_frame(first, payload, room) {
                self.lemma_on_frame_behind(ahead, first, payload, room);
                next.run_after_release(ahead, input.skip(len), room);
            }
        }
    }

    proof fn lemma_on_frame_behind(self, ahead: Session, first: u8, payload: Seq<u8>, room: int)
        ensures
            self.on_frame(first, payload, room) matches Step::Next(next) ==> self.behind(
                ahead,
            ).on_frame(first, payload, room + ahead.done.len()) == Step::Next(next.behind(ahead)),
    {
        if let Step::Next(next) = self.on_frame(first, payload, room) {
            let m = self.begun() + payload;
            assert(ahead.pongs + self.pongs + pong_frame(payload) =~= ahead.pongs + (self.pongs
                + pong_frame(payload)));
            assert(ahead.done + self.done + dns_packet(m) =~= ahead.done + (self.done
                + dns_packet(m)));
        }
    }

    /// Works in rounds, each of them on what the last one left and a chunk that
    /// has come since: what the rounds take out to be sent, what is held after
    /// them, and the input that is left.
    pub open spec fn rounds(
        self,
        input: Seq<u8>,
        chunks: Seq<Seq<u8>>,
        room: int,
    ) -> (Session, Session, Seq<u8>)
        decreases chunks.len(),
    {
        if chunks.len() == 0 {
            (Session { pongs: seq![], done: seq![], partial: None }, self, input)
        } else {
            let (round, rest, result) = self.run(input + chunks[0], room);
            let (sent, session, left) = round.released().rounds(rest, chunks.skip(1), room);
            (
                Session {
                    pongs: round.pongs + sent.pongs,
                    done: round.done + sent.done,
                    partial: None,
                },
                session,
                left,
            )
        }
    }

    proof fn lemma_rounds_released(self, input: Seq<u8>, chunks: Seq<Seq<u8>>, room: int)
        requires
            self.released() == self,
        ensures
            self.rounds(input, chunks, room).1.released() == self.rounds(input, chunks, room).1,
        decreases chunks.len(),
    {
        if chunks.len() > 0 {
            let (round, rest, result) = self.run(input + chunks[0], room);
            round.released().lemma_rounds_released(rest, chunks.skip(1), room);
        }
    }

    proof fn lemma_rounds_shorten(self, input: Seq<u8>, chunks: Seq<Seq<u8>>, room: int)
        ensures
            self.rounds(input, chunks, room).2.len() <= input.len() + joined(chunks).len(),
        decreases chunks.len(),
    {
        if chunks.len() > 0 {
            let (round, rest, result) = self.run(input + chunks[0], room);
            self.run_extends(input + chunks[0], room);
            round.released().lemma_rounds_shorten(rest, chunks.skip(1), room);
        }
    }

    /// Nothing is lost, repeated or reordered by working in rounds: processing as
    /// much as there is room for, sending it, and going on with the rest and what
    /// has come since gives the same pongs, the same messages and the same result
    /// as having all the input and all the room at once.
    pub proof fn rounds_lose_nothing(
        self,
        input: Seq<u8>,
        chunks: Seq<Seq<u8>>,
        room: int,
        more: int,
    )
        requires
            room <= more,
        ensures
            ({
                let (sent, session, left) = self.rounds(input, chunks, room);
                let (last, rest, result) = session.run(left, more);
                self.run(input + joined(chunks), more + sent.done.len()) == (
                    last.behind(sent),
                    rest,
                    result,
                )
            }),
        decreases chunks.len(),
    {
        let (sent, session, left) = self.rounds(input, chunks, room);
        let (last, rest, result) = session.run(left, more);
        if chunks.len() == 0 {
            assert(input + joined(chunks) =~= input);
            assert(last.behind(sent) =~= last);
        } else {
            let all = more + sent.done.len();
            let tail = joined(chunks.skip(1));
            let (round, after, _) = self.run(input + chunks[0], room);
            let (later, _, _) = round.released().rounds(after, chunks.skip(1), room);
            assert(input + joined(chunks) =~= input + chunks[0] + tail);
            self.run_continued(input + chunks[0], tail, room, all);
            assert(round.released().behind(round) =~= round);
            round.released().run_after_release(round, after + tail, all - round.done.len());
            round.released().rounds_lose_nothing(after, chunks.skip(1), room, more);
            assert(last.behind(later).behind(round) =~= last.behind(sent));
        }
    }

    /// Rounds follow one another.
    pub proof fn rounds_add(self, input: Seq<u8>, a: Seq<Seq<u8>>, b: Seq<Seq<u8>>, room: int)
        ensures
            ({
                let (first, session, left) = self.rounds(input, a, room);
                let (second, last, rest) = session.rounds(left, b, room);
                let (sent, end, remainder) = self.rounds(input, a + b, room);
                &&& sent.pongs == first.pongs + second.pongs
                &&& sent.done == first.done + second.done
                &&& end == last
                &&& remainder == rest
            }),
        decreases a.len(),
    {
        if a.len() == 0 {
            let (second, last, rest) = self.rounds(input, b, room);
            assert(a + b =~= b);
            assert(seq![] + second.pongs =~= second.pongs);
            assert(seq![] + second.done =~= second.done);
        } else {
            let (round, after, result) = self.run(input + a[0], room);
            round.released().rounds_add(after, a.skip(1), b, room);
            assert((a + b).skip(1) =~= a.skip(1) + b);
            let (first, session, left) = round.released().rounds(after, a.skip(1), room);
            let (second, last, rest) = session.rounds(left, b, room);
            assert(round.pongs + (first.pongs + second.pongs) =~= round.pongs + first.pongs
                + second.pongs);
            assert(round.done + (first.done + second.done) =~= round.done + first.done
                + second.done);
        }
    }

    /// Input that can be used up is used up by going on in rounds without new
    /// input, at the latest after as many rounds as it has bytes.
    pub proof fn rounds_use_up(self, input: Seq<u8>, n: nat, room: int, more: int)
        requires
            2 + MAX_MESSAGE <= room <= more,
            self.done.len() == 0,
            self.run(input, more).1.len() == 0,
            self.run(input, more).2 is Ok,
            input.len() <= n,
        ensures
            self.rounds(input, no_chunks(n), room).2.len() == 0,
        decreases n,
    {
        if n > 0 {
            let (round, rest, result) = self.run(input, room);
            assert(input + no_chunks(n)[0] =~= input);
            assert(no_chunks(n).skip(1) =~= no_chunks((n - 1) as nat));
            self.run_with_more_room(input, room, more);
            self.run_again(input, room);
            if round.done.len() > 0 {
                self.run_takes_input(input, room);
            } else if rest.len() > 0 {
                round.lemma_stuck(rest, room, more);
            }
            let next = round.released();
            let less = more - round.done.len();
            assert(next.behind(round) =~= round);
            next.run_after_release(round, rest, less);
            if less < room {
                next.run_with_more_room(rest, less, room);
                next.rounds_use_up(rest, (n - 1) as nat, room, room);
            } else {
                next.rounds_use_up(rest, (n - 1) as nat, room, less);
            }
        }
    }

    /// What stops at once with room for a message and no message done stops at
    /// once with more room.
    proof fn lemma_stuck(self, input: Seq<u8>, room: int, more: int)
        requires
            2 + MAX_MESSAGE <= room <= more,
            self.done.len() == 0,
            self.run(input, room).1 == input,
        ensures
            self.run(input, more).1 == input,
    {
        if let Scan::Frame(first, payload, len) = scan(input) {
            if let Step::Next(next) = self.on_frame(first, payload, room) {
                next.run_extends(input.skip(len), room);
            }
        }
    }

    /// Messages that a client sends, each in a frame of its own, become the DNS
    /// over TCP stream of the same messages in the same order.
    pub proof fn run_messages(self, messages: Seq<Seq<u8>>, masks: Seq<Seq<u8>>, room: int)
        requires
            self.partial is None,
            all_sendable(messages),
            masks.len() == messages.len(),
            forall|i: int| 0 <= i < masks.len() ==> #[trigger] masks[i].len() == 4,
            self.done.len() + dns_stream(messages).len() <= room,
        ensures
            self.run(client_stream(messages, masks), room) == (
                Session { done: self.done + dns_stream(messages), ..self },
                Seq::<u8>::empty(),
                Ok::<(), u16>(()),
            ),
        decreases messages.len(),
    {
        if messages.len() == 0 {
            assert(self.done + dns_stream(messages) =~= self.done);
        } else {
            let message = messages[0];
            let rest = client_stream(messages.skip(1), masks.skip(1));
            let next = Session { done: self.done + dns_packet(message), ..self };
            assert(message.len() <= MAX_MESSAGE);
            assert(masks[0].len() == 4);
            assert(messages.skip(1) =~= messages.drop_first());
            self.run_message(message, masks[0], rest, room);
            next.run_messages(messages.skip(1), masks.skip(1), room);
            assert(next.done + dns_stream(messages.skip(1)) =~= self.done + dns_stream(messages));
        }
    }
}

/// A frame that a client sends: its first byte, and its payload without the
/// masking.
pub struct Frame {
    pub first: u8,
    pub payload: Seq<u8>,
}

impl Frame {
    /// Whether it is a close, ping or pong frame.
    pub open spec fn is_control(self) -> bool {
        self.first >= FIN | CLOSE
    }
}

/// The complete and accepted frames at the front of a client's byte stream.
pub open spec fn frames_in(s: Seq<u8>) -> Seq<Frame>
    decreases s.len(),
{
    match scan(s) {
        Scan::Frame(first, payload, len) => seq![Frame { first, payload }] + frames_in(s.skip(len)),
        _ => seq![],
    }
}

/// The bytes in which a client sends frames.
pub open spec fn frames_sent(frames: Seq<Frame>, masks: Seq<Seq<u8>>) -> Seq<u8>
    decreases frames.len(),
{
    if frames.len() == 0 {
        seq![]
    } else {
        client_frame(frames[0].first, frames[0].payload, masks[0]) + frames_sent(
            frames.skip(1),
            masks.skip(1),
        )
    }
}

/// The messages that the data frames make up: their payloads joined up to each
/// final frame, when `begun` has come of the first one before.
pub open spec fn completed(begun: Seq<u8>, frames: Seq<Frame>) -> Seq<Seq<u8>>
    decreases frames.len(),
{
    if frames.len() == 0 {
        seq![]
    } else {
        let rest = frames.skip(1);
        if frames[0].is_control() {
            completed(begun, rest)
        } else if frames[0].first >= FIN {
            seq![begun + frames[0].payload] + completed(seq![], rest)
        } else {
            completed(begun + frames[0].payload, rest)
        }
    }
}

/// What has come of a message whose final frame is not among the frames, when
/// `partial` is what had come of it before.
pub open spec fn unfinished(partial: Option<Seq<u8>>, frames: Seq<Frame>) -> Option<Seq<u8>>
    decreases frames.len(),
{
    if frames.len() == 0 {
        partial
    } else {
        let rest = frames.skip(1);
        if frames[0].is_control() {
            unfinished(partial, rest)
        } else if frames[0].first >= FIN {
            unfinished(None, rest)
        } else {
            unfinished(Some(partial.unwrap_or(seq![]) + frames[0].payload), rest)
        }
    }
}

/// The pong frames that answer the ping frames, in order.
pub open spec fn answers(frames: Seq<Frame>) -> Seq<u8>
    decreases frames.len(),
{
    if frames.len() == 0 {
        seq![]
    } else if frames[0].first == FIN | PING {
        pong_frame(frames[0].payload) + answers(frames.skip(1))
    } else {
        answers(frames.skip(1))
    }
}

/// Whether a client that has sent `partial` of a message may go on with these
/// frames without a close frame among them: each message starts with a binary frame
/// and goes on with continuation frames, is not too big, and may have pings and
/// pongs between its fragments.
pub open spec fn proper(partial: Option<Seq<u8>>, frames: Seq<Frame>) -> bool
    decreases frames.len(),
{
    frames.len() > 0 ==> {
        let frame = frames[0];
        let rest = frames.skip(1);
        let message = partial.unwrap_or(seq![]) + frame.payload;
        &&& is_allowed(frame.first)
        &&& frame.first != FIN | CLOSE
        &&& frame.payload.len() <= MAX_MESSAGE
        &&& if frame.first == FIN | PING {
            frame.payload.len() < EXTENDED_LEN_2 && proper(partial, rest)
        } else if frame.first == FIN | PONG {
            proper(partial, rest)
        } else {
            &&& (frame.first == BINARY_DATA || frame.first == FIN | BINARY_DATA) == (partial
                is None)
            &&& message.len() <= MAX_MESSAGE
            &&& proper(
                if frame.first >= FIN {
                    None
                } else {
                    Some(message)
                },
                rest,
            )
        }
    }
}

impl Session {
    /// The session after frames that it takes.
    pub open spec fn after(self, frames: Seq<Frame>) -> Session {
        Session {
            pongs: self.pongs + answers(frames),
            done: self.done + dns_stream(completed(self.begun(), frames)),
            partial: unfinished(self.partial, frames),
        }
    }

    /// Taking a frame and then others is taking all of them.
    proof fn lemma_after_frame(self, frame: Frame, frames: Seq<Frame>, room: int)
        requires
            is_allowed(frame.first),
        ensures
            self.on_frame(frame.first, frame.payload, room) matches Step::Next(next) ==> next.after(
                frames,
            ) == self.after(seq![frame] + frames),
    {
        lemma_first_bytes();
        let all = seq![frame] + frames;
        assert(all.skip(1) =~= frames);
        assert(all[0] == frame);
        if let Step::Next(next) = self.on_frame(frame.first, frame.payload, room) {
            if frame.first == FIN | PING {
                assert(self.pongs + (pong_frame(frame.payload) + answers(frames)) =~= next.pongs
                    + answers(frames));
            } else if !frame.is_control() && frame.first >= FIN {
                let message = self.begun() + frame.payload;
                let later = completed(seq![], frames);
                assert((seq![message] + later).drop_first() =~= later);
                assert(self.done + (dns_packet(message) + dns_stream(later)) =~= self.done
                    + dns_packet(message) + dns_stream(later));
            }
            assert(next.after(frames) =~= self.after(all));
        }
    }

    /// What becomes of any input: of the bytes that are taken, every data frame
    /// goes into its message, every message that a final frame ends becomes a DNS
    /// over TCP message, and every ping is answered, all of it in order. Frames of
    /// the one kind between those of the other change nothing.
    pub proof fn run_takes_frames(self, input: Seq<u8>, room: int)
        ensures
            ({
                let (session, rest, result) = self.run(input, room);
                let taken = input.take(input.len() - rest.len());
                &&& rest.len() <= input.len()
                &&& taken + rest == input
                &&& session == self.after(frames_in(taken))
            }),
        decreases input.len(),
    {
        let (session, rest, result) = self.run(input, room);
        self.run_extends(input, room);
        let taken = input.take(input.len() - rest.len());
        assert(taken + rest =~= input);
        let stays = match scan(input) {
            Scan::Frame(first, payload, len) => !(self.on_frame(first, payload, room) is Next),
            _ => true,
        };
        if stays {
            assert(taken =~= seq![]);
            assert(self.after(frames_in(taken)) =~= self);
        } else if let Scan::Frame(first, payload, len) = scan(input) {
            if let Step::Next(next) = self.on_frame(first, payload, room) {
                next.run_takes_frames(input.skip(len), room);
                next.run_extends(input.skip(len), room);
                lemma_scan_taken(input, taken.len() as int);
                let after = input.skip(len).take(input.skip(len).len() - rest.len());
                assert(taken.skip(len) =~= after);
                self.lemma_after_frame(Frame { first, payload }, frames_in(after), room);
            }
        }
    }

    /// A client's frames, whether they are whole messages, fragments, or control
    /// frames between them, are all taken.
    pub proof fn run_frames(self, frames: Seq<Frame>, masks: Seq<Seq<u8>>, room: int)
        requires
            proper(self.partial, frames),
            masks.len() == frames.len(),
            forall|i: int| 0 <= i < masks.len() ==> #[trigger] masks[i].len() == 4,
            self.after(frames).done.len() + 2 + MAX_MESSAGE <= room,
        ensures
            self.run(frames_sent(frames, masks), room) == (
                self.after(frames),
                Seq::<u8>::empty(),
                Ok::<(), u16>(()),
            ),
        decreases frames.len(),
    {
        if frames.len() == 0 {
            assert(self.after(frames) =~= self);
        } else {
            let frame = frames[0];
            let rest = frames.skip(1);
            let tail = frames_sent(rest, masks.skip(1));
            assert(masks[0].len() == 4);
            lemma_first_bytes();
            scan_round_trip(frame.first, frame.payload, masks[0], tail);
            assert(seq![frame] + rest =~= frames);
            self.lemma_after_frame(frame, rest, room);
            let step = self.on_frame(frame.first, frame.payload, room);
            assert(step is Next);
            if let Step::Next(next) = step {
                next.run_frames(rest, masks.skip(1), room);
            }
        }
    }
}

/// A frame is read from as many bytes as it takes up.
proof fn lemma_scan_taken(s: Seq<u8>, n: int)
    requires
        scan(s) matches Scan::Frame(_, _, len) && len <= n <= s.len(),
    ensures
        scan(s.take(n)) == scan(s),
{
    scan_is_stable(s.take(n), s.skip(n));
    assert(s.take(n) + s.skip(n) =~= s);
}

/// However a client's frames are cut into chunks, and in whatever rounds they are
/// processed, what is sent once the input is used up is the DNS over TCP stream of
/// its messages and the answers to its pings, in order. The input is used up at the
/// latest after as many more rounds as there were bytes.
pub proof fn messages_are_relayed(
    frames: Seq<Frame>,
    masks: Seq<Seq<u8>>,
    chunks: Seq<Seq<u8>>,
    room: int,
)
    requires
        proper(None, frames),
        masks.len() == frames.len(),
        forall|i: int| 0 <= i < masks.len() ==> #[trigger] masks[i].len() == 4,
        joined(chunks) == frames_sent(frames, masks),
        room >= 2 + MAX_MESSAGE,
    ensures
        ({
            let fresh = Session { pongs: seq![], done: seq![], partial: None };
            let (sent, session, left) = fresh.rounds(seq![], chunks, room);
            left.len() == 0 ==> {
                &&& sent.done == dns_stream(completed(seq![], frames))
                &&& sent.pongs == answers(frames)
                &&& session == (Session { partial: unfinished(None, frames), ..fresh })
            }
        }),
        forall|n: nat| #![trigger no_chunks(n)]
            n >= joined(chunks).len() ==> {
                let fresh = Session { pongs: seq![], done: seq![], partial: None };
                fresh.rounds(seq![], chunks + no_chunks(n), room).2.len() == 0
            },
{
    let fresh = Session { pongs: seq![], done: seq![], partial: None };
    let (sent, session, left) = fresh.rounds(seq![], chunks, room);
    let end = fresh.after(frames);
    let more = room + end.done.len();
    assert(end.done =~= dns_stream(completed(seq![], frames)));
    assert(end.pongs =~= answers(frames));
    fresh.lemma_rounds_released(seq![], chunks, room);
    fresh.rounds_lose_nothing(seq![], chunks, room, more);
    fresh.run_frames(frames, masks, more + sent.done.len());
    assert(seq![] + joined(chunks) =~= joined(chunks));
    let (last, rest, result) = session.run(left, more);
    if left.len() == 0 {
        assert(last == session);
        assert(last.behind(sent).done =~= sent.done);
        assert(last.behind(sent).pongs =~= sent.pongs);
        assert(session =~= (Session { partial: unfinished(None, frames), ..fresh }));
    }
    assert forall|n: nat| #![trigger no_chunks(n)] n >= joined(chunks).len() implies fresh.rounds(
        seq![],
        chunks + no_chunks(n),
        room,
    ).2.len() == 0 by {
        fresh.lemma_rounds_shorten(seq![], chunks, room);
        session.rounds_use_up(left, n, room, more);
        fresh.rounds_add(seq![], chunks, no_chunks(n), room);
    }
}

/// Masking is an exclusive or with the mask, byte by byte, starting over with the
/// first byte of the mask after every fourth.
pub proof fn unmasked_by_xor(data: Seq<u8>, mask: Seq<u8>)
    requires
        mask.len() == 4,
    ensures
        unmasked(data, mask).len() == data.len(),
        forall|i: int|
            0 <= i < data.len() ==> #[trigger] unmasked(data, mask)[i] == data[i] ^ mask[i % 4],
        forall|k: int|
            0 <= 4 * k && 4 * k + 3 < data.len() ==> {
                &&& #[trigger] unmasked(data, mask)[4 * k] == data[4 * k] ^ mask[0]
                &&& unmasked(data, mask)[4 * k + 1] == data[4 * k + 1] ^ mask[1]
                &&& unmasked(data, mask)[4 * k + 2] == data[4 * k + 2] ^ mask[2]
                &&& unmasked(data, mask)[4 * k + 3] == data[4 * k + 3] ^ mask[3]
            },
{
}

/// A pong is a final, unmasked pong frame with the bytes of the ping: it says how
/// many there are, and each of them is where it was.
pub proof fn pong_gives_back(payload: Seq<u8>)
    requires
        payload.len() < 126,
    ensures
        pong_frame(payload).len() == 2 + payload.len(),
        pong_frame(payload)[0] == 0x8a,
        pong_frame(payload)[1] == payload.len(),
        forall|i: int|
            0 <= i < payload.len() ==> #[trigger] pong_frame(payload)[2 + i] == payload[i],
        pong_frame(payload).skip(2) == payload,
{
    lemma_first_bytes();
    assert(pong_frame(payload).skip(2) =~= payload);
}

impl Session {
    /// What the bytes of a complete frame at the front of the input do. `at` is
    /// where the mask stands: behind the length, in the second byte or in the two
    /// bytes that follow it. Byte `i` of the payload is the received byte `i` with
    /// byte `i` modulo 4 of the mask taken out of it by exclusive or.
    pub proof fn run_frame_bytes(self, s: Seq<u8>, at: int, payload: Seq<u8>, room: int)
        requires
            s.len() >= at + 4 + payload.len(),
            ({
                ||| at == 2 && payload.len() < 126 && s[1] == 0x80 + payload.len()
                ||| at == 4 && s[1] == 0xfe && s[2] * 256 + s[3] == payload.len()
            }),
            forall|i: int|
                0 <= i < payload.len() ==> #[trigger] payload[i] == s[at + 4 + i] ^ s[at + i % 4],
        ensures
            ({
                let rest = s.skip(at + 4 + payload.len());
                let stop = |code: u16| (self, s, Err::<(), u16>(code));
                let before: Seq<u8> = match self.partial {
                    Some(m) => m,
                    None => seq![],
                };
                let message = before + payload;
                let starts = s[0] == 0x02 || s[0] == 0x82;
                let goes_on = s[0] == 0x00 || s[0] == 0x80;
                let in_turn = starts && self.partial is None || goes_on && self.partial is Some;
                let fits = self.done.len() + 2 + message.len() <= room;
                // Close frames
                &&& s[0] == 0x88 ==> self.run(s, room) == stop(1000)
                // Ping frames
                &&& s[0] == 0x89 && payload.len() < 126 ==> self.run(s, room) == (Session {
                    pongs: self.pongs + seq![0x8au8, payload.len() as u8] + payload,
                    done: self.done,
                    partial: self.partial,
                }).run(rest, room)
                &&& s[0] == 0x89 && payload.len() >= 126 ==> self.run(s, room) == stop(1002)
                // Pong frames
                &&& s[0] == 0x8a ==> self.run(s, room) == self.run(rest, room)
                // Data frames
                &&& (starts || goes_on) && !in_turn ==> self.run(s, room) == stop(1002)
                &&& in_turn && message.len() > 65535 ==> self.run(s, room) == stop(1009)
                &&& in_turn && message.len() <= 65535 && !fits ==> self.run(s, room) == (
                    self,
                    s,
                    Ok::<(), u16>(()),
                )
                &&& in_turn && message.len() <= 65535 && fits && (s[0] == 0x80 || s[0] == 0x82)
                    ==> self.run(s, room) == (Session {
                    pongs: self.pongs,
                    done: self.done + seq![
                        (message.len() / 256) as u8,
                        (message.len() % 256) as u8,
                    ] + message,
                    partial: None,
                }).run(rest, room)
                &&& in_turn && message.len() <= 65535 && fits && (s[0] == 0x00 || s[0] == 0x02)
                    ==> self.run(s, room) == (Session {
                    pongs: self.pongs,
                    done: self.done,
                    partial: Some(message),
                }).run(rest, room)
                // Everything else
                &&& !starts && !goes_on && s[0] != 0x88 && s[0] != 0x89 && s[0] != 0x8a
                    ==> self.run(s, room) == stop(1003)
            }),
    {
        lemma_first_bytes();
        let data = s.subrange(at + 4, at + 4 + payload.len());
        let mask = s.subrange(at, at + 4);
        assert(unmasked(data, mask) =~= payload);
        let message = self.begun() + payload;
        assert(self.done + seq![(message.len() / 256) as u8, (message.len() % 256) as u8] + message
            =~= self.done + dns_packet(message));
        assert(self.pongs + seq![0x8au8, payload.len() as u8] + payload =~= self.pongs + pong_frame(
            payload,
        ));
        if is_allowed(s[0]) {
            assert(scan(s) == Scan::Frame(s[0], payload, at + 4 + payload.len()));
        }
    }

    /// What bytes at the front of the input do that are no complete frame: what can
    /// still become one waits, and everything else is refused as soon as it shows.
    pub proof fn run_other_bytes(self, s: Seq<u8>, room: int)
        ensures
            ({
                let wait = (self, s, Ok::<(), u16>(()));
                let stop = |code: u16| (self, s, Err::<(), u16>(code));
                let known = s[0] == 0x00 || s[0] == 0x02 || s[0] == 0x80 || s[0] == 0x82 || s[0]
                    == 0x88 || s[0] == 0x89 || s[0] == 0x8a;
                &&& s.len() < 2 ==> self.run(s, room) == wait
                &&& s.len() >= 2 && !known ==> self.run(s, room) == stop(1003)
                &&& s.len() >= 2 && known && s[1] < 0x80 ==> self.run(s, room) == stop(1002)
                &&& s.len() >= 2 && known && s[1] == 0xff ==> self.run(s, room) == stop(1009)
                &&& 2 <= s.len() < 4 && known && s[1] == 0xfe ==> self.run(s, room) == wait
                &&& 4 <= s.len() < 8 + s[2] * 256 + s[3] && known && s[1] == 0xfe ==> self.run(
                    s,
                    room,
                ) == wait
                &&& 2 <= s.len() < 6 + s[1] - 0x80 && known && 0x80 <= s[1] < 0xfe ==> self.run(
                    s,
                    room,
                ) == wait
            }),
    {
    }
}

} // verus!
