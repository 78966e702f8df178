//! The two directions of an open connection, as buffers that the connection
//! handler reads into and sends from.

use vstd::prelude::*;
use vstd::slice::slice_subrange;

use crate::client::{joined, Session, NORMAL_CLOSURE};
use crate::close::{close_frame, close_message};
use crate::framing::{
    dns_first, dns_messages, dns_messages_by_chunk, dns_messages_cover, dns_rest,
    dns_rest_is_incomplete, framing_overhead, ws_messages, ws_stream, ws_stream_add,
    ws_stream_round_trip,
};
use crate::translate::{
    dns_to_ws, move_down, ws_to_dns, WsToDnsState, DNS_CAPACITY, WS_CAPACITY,
};

verus! {

/// Size of the upstream-to-client working buffer: a maximum-size DNS message with
/// its 2-byte length prefix (65537 bytes) plus the prefix area required by
/// [`dns_to_ws`] (2 bytes per 128 bytes of input).
pub const RESPONSE_CAPACITY: usize = 66561;

/// Where the DNS input starts in the upstream-to-client working buffer.
pub const RESPONSE_OFFSET: usize = 1024;

/// Traffic from an upstream DNS server to a WebSocket client.
pub struct Responses {
    /// The translated output at the front, and the DNS input from
    /// [`RESPONSE_OFFSET`] on. New input should be read into `buf[fill..]`.
    pub buf: [u8; 66561],
    /// The start of the input that has not been translated.
    pub start: usize,
    /// The end of the input.
    pub fill: usize,
}

impl Responses {
    /// The cursors keep their order, and the input that has not been translated
    /// is the front of a message.
    pub open spec fn wf(self) -> bool {
        &&& RESPONSE_OFFSET <= self.start <= self.fill <= RESPONSE_CAPACITY
        &&& dns_first(self.rest()) is None
    }

    /// Whether new input can be read.
    pub open spec fn ready(self) -> bool {
        self.wf() && self.start == RESPONSE_OFFSET
    }

    /// The input that has not been translated.
    pub open spec fn rest(self) -> Seq<u8> {
        self.buf@.subrange(self.start as int, self.fill as int)
    }

    /// A buffer without input.
    pub fn new() -> (r: Responses)
        ensures
            r.ready(),
            r.rest() == Seq::<u8>::empty(),
    {
        Responses { buf: [0;66561], start: RESPONSE_OFFSET, fill: RESPONSE_OFFSET }
    }

    /// When new input can be read, there is room for it.
    pub proof fn ready_has_room(self)
        requires
            self.ready(),
        ensures
            self.fill < RESPONSE_CAPACITY,
    {
        dns_rest_is_incomplete(self.rest());
    }

    /// Takes note of `size` bytes that have been read into the buffer, translates
    /// the messages that are complete, and returns the length of the frames at the
    /// front of the buffer that are to be sent to the client. `None` if there are
    /// no bytes, for the upstream has closed the connection.
    pub fn received(&mut self, size: usize) -> (r: Option<usize>)
        requires
            old(self).ready(),
            size <= RESPONSE_CAPACITY - old(self).fill,
        ensures
            final(self).wf(),
            final(self).fill == old(self).fill + size,
            size == 0 ==> r is None && *final(self) == *old(self),
            size > 0 ==> {
                let input = old(self).buf@.subrange(RESPONSE_OFFSET as int, old(self).fill + size);
                &&& r matches Some(len) && len <= RESPONSE_CAPACITY && final(self).buf@.take(
                    len as int,
                ) == ws_stream(dns_messages(input))
                &&& final(self).rest() == dns_rest(input)
            },
    {
        if size == 0 {
            return None;
        }
        self.fill += size;
        let ghost before = self.buf@;
        let ghost input = self.buf@.subrange(RESPONSE_OFFSET as int, self.fill as int);
        let ghost output = ws_stream(dns_messages(input));
        let whole: &mut [u8] = &mut self.buf;
        let (front, _) = whole.split_at_mut(self.fill);
        proof {
            framing_overhead(input);
            dns_rest_is_incomplete(input);
            assert(front@.skip(RESPONSE_OFFSET as int) =~= input);
        }
        let (len, end) = dns_to_ws(front, RESPONSE_OFFSET);
        self.start = end;
        proof {
            dns_messages_cover(input);
            assert(self.buf@.take(len as int) =~= output);
            assert(self.rest() =~= input.skip(input.len() - dns_rest(input).len()));
            assert(input.skip(input.len() - dns_rest(input).len()) =~= dns_rest(input));
        }
        Some(len)
    }

    /// Makes room for new input when the frames have been sent.
    pub fn release(&mut self)
        requires
            old(self).wf(),
        ensures
            final(self).ready(),
            final(self).rest() == old(self).rest(),
    {
        let end = self.fill;
        let start = self.start;
        let buf: &mut [u8] = &mut self.buf;
        move_down(buf, start, end, RESPONSE_OFFSET);
        self.start = RESPONSE_OFFSET;
        self.fill = RESPONSE_OFFSET + (end - start);
        assert(self.rest() =~= old(self).rest());
    }
}

/// Builds the close frame that tells the client about the upstream: that it could
/// not be reached or read, and why, or that it has closed the connection.
pub fn upstream_close<'a>(buf: &'a mut [u8; 127], failure: Option<&str>) -> (frame: &'a [u8])
    ensures
        frame@ == close_message(
            NORMAL_CLOSURE,
            match failure {
                Some(reason) => reason@,
                None => ""@,
            },
        ),
{
    match failure {
        Some(reason) => close_frame(buf, NORMAL_CLOSURE, reason),
        None => close_frame(buf, NORMAL_CLOSURE, ""),
    }
}

/// The frames that are sent to the client for the chunks of an upstream's byte
/// stream, when `rest` is left of what came before.
pub open spec fn relayed(rest: Seq<u8>, chunks: Seq<Seq<u8>>) -> Seq<u8>
    decreases chunks.len(),
{
    if chunks.len() == 0 {
        seq![]
    } else {
        ws_stream(dns_messages(rest + chunks[0])) + relayed(
            dns_rest(rest + chunks[0]),
            chunks.skip(1),
        )
    }
}

proof fn lemma_relayed(rest: Seq<u8>, chunks: Seq<Seq<u8>>)
    requires
        dns_first(rest) is None,
    ensures
        relayed(rest, chunks) == ws_stream(dns_messages(rest + joined(chunks))),
    decreases chunks.len(),
{
    if chunks.len() == 0 {
        assert(rest + joined(chunks) =~= rest);
    } else {
        let a = rest + chunks[0];
        let b = joined(chunks.skip(1));
        assert(rest + joined(chunks) =~= a + b);
        dns_rest_is_incomplete(a);
        lemma_relayed(dns_rest(a), chunks.skip(1));
        dns_messages_by_chunk(a, b);
        ws_stream_add(dns_messages(a), dns_messages(dns_rest(a) + b));
    }
}

/// However an upstream's byte stream is cut into chunks, the client is sent each
/// of its complete messages, in order, in a binary frame of its own, and reads
/// them back as they were.
pub proof fn responses_are_relayed(chunks: Seq<Seq<u8>>)
    ensures
        relayed(seq![], chunks) == ws_stream(dns_messages(joined(chunks))),
        ws_messages(relayed(seq![], chunks)) == dns_messages(joined(chunks)),
{
    lemma_relayed(seq![], chunks);
    assert(seq![] + joined(chunks) =~= joined(chunks));
    dns_messages_cover(joined(chunks));
    ws_stream_round_trip(dns_messages(joined(chunks)));
}

/// Traffic from a WebSocket client to an upstream DNS server.
pub struct Requests {
    /// The buffers. New input should be read into `state.ws[state.ws_remainder.end..]`.
    pub state: WsToDnsState,
    /// Whether new input should be read. When the translation stops because the
    /// output buffer is full, it has to go on with more space in the output buffer
    /// without reading new input.
    pub read: bool,
}

impl Requests {
    /// The cursors keep their order.
    pub open spec fn wf(self) -> bool {
        self.state.wf() && self.state.ws_remainder.start <= self.state.ws_remainder.end
    }

    /// Whether the translation can go on: nothing waits to be sent, the input is at
    /// the front, and there is room for new input if it should be read.
    pub open spec fn ready(self) -> bool {
        &&& self.wf()
        &&& self.state.pong == 0
        &&& self.state.dns_out == 0
        &&& self.state.ws_remainder.start == 0
        &&& self.read ==> self.state.ws_remainder.end < WS_CAPACITY
    }

    /// Whether there is nothing more to translate without new input or more space.
    pub open spec fn settled(self) -> bool {
        &&& self.wf()
        &&& ({
            let (session, rest, result) = self.state.session().run(
                self.state.input(),
                DNS_CAPACITY as int,
            );
            session == self.state.session() && rest == self.state.input() && result is Ok
        })
    }

    /// Buffers without input.
    pub fn new() -> (r: Requests)
        ensures
            r.ready(),
            r.read,
            r.state.input() == Seq::<u8>::empty(),
            r.state.session() == (Session { pongs: seq![], done: seq![], partial: None }),
    {
        let r = Requests { state: WsToDnsState::default(), read: true };
        assert(r.state.input() =~= seq![]);
        assert(r.state.session() =~= (Session { pongs: seq![], done: seq![], partial: None }));
        r
    }

    /// Takes note of `size` bytes that have been read into the buffer, and
    /// translates. The error is the code to close the connection with, once the
    /// messages and pongs ahead of what caused it have been sent; there are no
    /// bytes when the client has closed it.
    pub fn received(&mut self, size: usize) -> (r: Result<(), u16>)
        requires
            old(self).ready(),
            size <= WS_CAPACITY - old(self).state.ws_remainder.end,
        ensures
            final(self).wf(),
            final(self).read == old(self).read,
            size == 0 ==> r == Err::<(), u16>(NORMAL_CLOSURE) && *final(self) == *old(self),
            size > 0 ==> {
                let input = old(self).state.ws@.take(old(self).state.ws_remainder.end + size);
                let (session, rest, result) = old(self).state.session().run(
                    input,
                    DNS_CAPACITY as int,
                );
                &&& r == result
                &&& final(self).state.session() == session
                &&& final(self).state.input() == rest
            },
            r is Ok ==> final(self).settled(),
    {
        if size == 0 {
            return Err(NORMAL_CLOSURE);
        }
        self.state.ws_remainder.end += size;
        assert(self.state.input() =~= old(self).state.ws@.take(
            old(self).state.ws_remainder.end + size,
        ));
        assert(self.state.session() =~= old(self).state.session());
        proof {
            self.state.session().run_again(self.state.input(), DNS_CAPACITY as int);
        }
        ws_to_dns(&mut self.state)
    }

    /// Translates without new input.
    pub fn resume(&mut self) -> (r: Result<(), u16>)
        requires
            old(self).ready(),
        ensures
            final(self).wf(),
            final(self).read == old(self).read,
            ({
                let (session, rest, result) = old(self).state.session().run(
                    old(self).state.input(),
                    DNS_CAPACITY as int,
                );
                &&& r == result
                &&& final(self).state.session() == session
                &&& final(self).state.input() == rest
            }),
            r is Ok ==> final(self).settled(),
    {
        proof {
            self.state.session().run_again(self.state.input(), DNS_CAPACITY as int);
        }
        ws_to_dns(&mut self.state)
    }

    /// The DNS over TCP messages to be sent upstream.
    pub fn messages(&self) -> (r: &[u8])
        requires
            self.wf(),
        ensures
            r@ == self.state.session().done,
            r@ == self.state.dns@.subrange(0, self.state.dns_out as int),
    {
        slice_subrange(self.state.dns.as_slice(), 0, self.state.dns_out)
    }

    /// The pong frames to be sent to the client.
    pub fn pongs(&self) -> (r: &[u8])
        requires
            self.wf(),
        ensures
            r@ == self.state.session().pongs,
            r@ == self.state.ws@.subrange(0, self.state.pong as int),
    {
        slice_subrange(self.state.ws.as_slice(), 0, self.state.pong)
    }

    /// The code to close the connection with, if it is to be closed, once the
    /// messages and pongs up to the one that `result` is about have been sent:
    /// `delivered` says whether the upstream took the messages.
    pub fn close_code(result: Result<(), u16>, delivered: bool) -> (r: Option<u16>)
        ensures
            match result {
                Err(code) => r == Some(code),
                Ok(_) => r == if delivered {
                    None::<u16>
                } else {
                    Some(NORMAL_CLOSURE)
                },
            },
    {
        match result {
            Err(code) => Some(code),
            Ok(_) => if delivered {
                None
            } else {
                Some(NORMAL_CLOSURE)
            },
        }
    }

    /// Makes room when messages and pongs have been sent, and decides whether new
    /// input should be read.
    pub fn release(&mut self)
        requires
            old(self).settled(),
        ensures
            final(self).ready(),
            final(self).state.session() == old(self).state.session().released(),
            final(self).state.input() == old(self).state.input(),
            final(self).read == (old(self).state.input().len() == 0
                || old(self).state.session().done.len() == 0),
    {
        let complete = self.state.dns_out;
        let pos = self.state.dns_pos;
        let start = self.state.ws_remainder.start;
        let end = self.state.ws_remainder.end;
        proof {
            if self.state.session().done.len() == 0 {
                self.state.session().run_ends_in_a_frame(
                    self.state.input(),
                    DNS_CAPACITY as int,
                );
            }
        }
        let dns: &mut [u8] = &mut self.state.dns;
        move_down(dns, complete, pos, 0);
        self.state.dns_pos = pos - complete;
        self.state.dns_out = 0;
        let ws: &mut [u8] = &mut self.state.ws;
        move_down(ws, start, end, 0);
        self.state.ws_remainder.start = 0;
        self.state.ws_remainder.end = end - start;
        self.state.pong = 0;
        self.read = end - start == 0 || complete == 0;
        assert(self.state.input() =~= old(self).state.input());
        assert(self.state.session() =~= old(self).state.session().released());
    }

    /// Going on without new input comes to an end: each time, the input gets
    /// shorter or new input is asked for.
    pub proof fn resume_makes_progress(self, after: Requests)
        requires
            self.ready(),
            ({
                let (session, rest, result) = self.state.session().run(
                    self.state.input(),
                    DNS_CAPACITY as int,
                );
                after.state.session() == session && after.state.input() == rest
            }),
        ensures
            ({
                ||| after.state.input().len() < self.state.input().len()
                ||| after.state.session().done.len() == 0
            }),
    {
        if after.state.session().done.len() > 0 {
            self.state.session().run_takes_input(self.state.input(), DNS_CAPACITY as int);
        }
    }
}

impl Responses {
    /// What is left to be translated stands between the cursors, and the input
    /// starts behind a prefix area of 2 bytes for each 128 bytes of the largest
    /// message.
    pub proof fn rest_is_between_cursors(self)
        requires
            self.wf(),
        ensures
            self.rest() == self.buf@.subrange(self.start as int, self.fill as int),
            self.ready() ==> self.start == 1024,
            RESPONSE_OFFSET == 65536int / 128 * 2,
            RESPONSE_CAPACITY == RESPONSE_OFFSET + 65537,
    {
    }
}

impl Requests {
    /// Between two rounds nothing waits to be sent, and all that has come and has
    /// not been taken is at the front of the buffer.
    pub proof fn ready_is_between_rounds(self)
        requires
            self.ready(),
        ensures
            self.state.session().pongs == Seq::<u8>::empty(),
            self.state.session().done == Seq::<u8>::empty(),
            self.state.input() == self.state.ws@.subrange(0, self.state.ws_remainder.end as int),
            self.read ==> self.state.ws_remainder.end < 65543,
    {
        assert(self.state.session().pongs =~= seq![]);
        assert(self.state.session().done =~= seq![]);
    }
}

/// Releasing takes out what was sent and keeps the message in progress.
pub proof fn released_keeps_the_rest(session: Session)
    ensures
        session.released().pongs == Seq::<u8>::empty(),
        session.released().done == Seq::<u8>::empty(),
        session.released().partial == session.partial,
{
}

} // verus!
