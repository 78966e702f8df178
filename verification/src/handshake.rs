//! The decisions of a WebSocket handshake: from the bytes of a request to the
//! answer, and to the DNS server to connect to.

use vstd::prelude::*;
use vstd::slice::{slice_subrange, slice_to_vec};
use vstd::string::StringExecFns;

use crate::accept::{accept_key, compute_accept_key};
use crate::client::NORMAL_CLOSURE;
use crate::close::{close_frame, close_message};
use crate::http::{
    fields, http_request, named, other_fields_do_not_matter, parse_request, upgrade_key,
    websocket_key, Field, HttpError, Request, MAX_HEADERS,
};
use crate::policy::{
    list_of, origins_allowed, other_fields_name_no_origin, upstream_allowed, Policy,
};
use crate::text::is_just;
use crate::upstream::{requested_upstream, target_addr};

verus! {

/// The answer to a request from an origin that is not allowed.
pub const FORBIDDEN: &'static str =
    "HTTP/1.1 403 Forbidden\r\nConnection: close\r\nContent-Type: text/plain\r\n\r\n";

/// The head of the page that says what this server is.
pub const OK: &'static str =
    "HTTP/1.1 200 OK\r\nConnection: close\r\nContent-Type: text/plain\r\n\r\n";

/// The head of the answer to a request that is not for a WebSocket connection.
pub const UPGRADE_REQUIRED: &'static str =
    "HTTP/1.1 426 Upgrade Required\r\nUpgrade: websocket\r\nConnection: upgrade, close\r\nContent-Type: text/plain\r\n\r\n";

/// The answer to a request with bytes behind it.
pub const BAD_REQUEST: &'static str =
    "HTTP/1.1 400 Bad Request\r\nConnection: close\r\nContent-Type: text/plain\r\n\r\n";

/// The answer that opens a WebSocket connection, up to the accept key.
pub const SWITCHING_PROTOCOLS: &'static str =
    "HTTP/1.1 101 Switching Protocols\r\nUpgrade: websocket\r\nConnection: upgrade\r\nSec-WebSocket-Accept: ";

/// The end of the head of an answer.
pub const END_OF_HEAD: &'static str = "\r\n\r\n";

/// The reason to close a connection for an upstream that is not allowed.
pub const PROHIBITED: &'static str = "upstream prohibited by proxy configuration";

/// What to do about what has been received of a request.
#[derive(Debug)]
pub enum Answer {
    /// Receive more of it.
    ReadMore,
    /// Give up: the client is done before its request is.
    Eof,
    /// Give up: it is not a request.
    Invalid(HttpError),
    /// Send this response and end the connection.
    Refuse(String),
    /// Send this response, which opens the WebSocket connection, and then this
    /// close frame.
    Prohibit(String, Vec<u8>),
    /// Send this response, which opens the WebSocket connection, and connect to
    /// the upstream of this address.
    Connect(String, String),
}

/// What to do about what has been received of a request, as text and bytes.
#[verifier::ext_equal]
pub enum Reply {
    ReadMore,
    Eof,
    Invalid(HttpError),
    Refuse(Seq<char>),
    Prohibit(Seq<char>, Seq<u8>),
    Connect(Seq<char>, Seq<char>),
}

impl View for Answer {
    type V = Reply;

    open spec fn view(&self) -> Reply {
        match *self {
            Answer::ReadMore => Reply::ReadMore,
            Answer::Eof => Reply::Eof,
            Answer::Invalid(e) => Reply::Invalid(e),
            Answer::Refuse(response) => Reply::Refuse(response@),
            Answer::Prohibit(response, close) => Reply::Prohibit(response@, close@),
            Answer::Connect(response, upstream) => Reply::Connect(response@, upstream@),
        }
    }
}

/// What the server says of itself: its name, its version, and where its source
/// code is.
pub open spec fn info_page(
    name: Seq<char>,
    version: Seq<char>,
    repository: Seq<char>,
    commit: Seq<char>,
) -> Seq<char> {
    name + " "@ + version + "\r\nSource code at "@ + repository + "/commit/"@ + commit + "\r\n"@
}

/// What the server says of itself.
pub fn info_text(name: &str, version: &str, repository: &str, commit: &str) -> (r: String)
    ensures
        r@ == info_page(name@, version@, repository@, commit@),
{
    let mut r = name.to_owned();
    r.append(" ");
    r.append(version);
    r.append("\r\nSource code at ");
    r.append(repository);
    r.append("/commit/");
    r.append(commit);
    r.append("\r\n");
    r
}

/// The response that opens a WebSocket connection.
pub open spec fn upgrade_response(accept: Seq<char>) -> Seq<char> {
    SWITCHING_PROTOCOLS@ + accept + END_OF_HEAD@
}

/// The answer to a request to open a WebSocket connection for an upstream.
pub open spec fn upgrade_reply(
    upstreams: Option<Seq<char>>,
    accept: Seq<char>,
    upstream: Seq<char>,
) -> Reply {
    if upstream_allowed(upstreams, upstream) {
        Reply::Connect(upgrade_response(accept), upstream)
    } else {
        Reply::Prohibit(upgrade_response(accept), close_message(NORMAL_CLOSURE, PROHIBITED@))
    }
}

/// Answers a request to open a WebSocket connection, given the accept key for it
/// and the address of the upstream that it asks for.
pub fn upgrade(policy: &Policy, accept: &str, upstream: String) -> (r: Answer)
    ensures
        r@ == upgrade_reply(list_of(policy.allowed_upstreams), accept@, upstream@),
{
    let mut response = SWITCHING_PROTOCOLS.to_owned();
    response.append(accept);
    response.append(END_OF_HEAD);
    if policy.allows_upstream(&upstream) {
        Answer::Connect(response, upstream)
    } else {
        let mut buf: [u8; 127] = [0;127];
        let close = slice_to_vec(close_frame(&mut buf, NORMAL_CLOSURE, PROHIBITED));
        Answer::Prohibit(response, close)
    }
}

/// The answer to a complete request. `whole` says that nothing was received behind
/// it, and `info` is what the server says of itself.
pub open spec fn reply_to(
    origins: Option<Seq<char>>,
    upstreams: Option<Seq<char>>,
    method: Seq<char>,
    version: u8,
    path: Seq<char>,
    fields: Seq<Field>,
    whole: bool,
    info: Seq<char>,
) -> Reply {
    if !origins_allowed(origins, fields) {
        Reply::Refuse(FORBIDDEN@)
    } else if path == "/"@ {
        Reply::Refuse(OK@ + info)
    } else {
        match upgrade_key(method, version, fields) {
            None => Reply::Refuse(UPGRADE_REQUIRED@ + info),
            Some(key) => if !whole {
                Reply::Refuse(BAD_REQUEST@)
            } else {
                upgrade_reply(upstreams, accept_key(key), target_addr(path))
            },
        }
    }
}

/// Answers a complete request.
pub fn answer(policy: &Policy, request: &Request, whole: bool, info: &str) -> (r: Answer)
    ensures
        r@ == reply_to(
            list_of(policy.allowed_origins),
            list_of(policy.allowed_upstreams),
            request.method@,
            request.version,
            request.path@,
            fields(request.headers@),
            whole,
            info@,
        ),
{
    if !policy.allows_origins(&request.headers) {
        return Answer::Refuse(FORBIDDEN.to_owned());
    }
    proof {
        reveal_strlit("/");
        assert("/"@ =~= seq!['/']);
    }
    if is_just(request.path.as_str(), '/') {
        let mut response = OK.to_owned();
        response.append(info);
        return Answer::Refuse(response);
    }
    match websocket_key(request) {
        None => {
            let mut response = UPGRADE_REQUIRED.to_owned();
            response.append(info);
            Answer::Refuse(response)
        },
        Some(key) => {
            if !whole {
                return Answer::Refuse(BAD_REQUEST.to_owned());
            }
            let accept = compute_accept_key(key);
            let upstream = requested_upstream(request.path.as_str());
            upgrade(policy, accept.as_str(), upstream)
        },
    }
}

/// The answer to what has been received.
pub open spec fn reply_to_data(
    origins: Option<Seq<char>>,
    upstreams: Option<Seq<char>>,
    data: Seq<u8>,
    info: Seq<char>,
) -> Reply {
    match http_request(data, MAX_HEADERS as nat) {
        Ok(Some(parsed)) => reply_to(
            origins,
            upstreams,
            parsed.method->0,
            parsed.version->0,
            parsed.path->0,
            parsed.fields,
            parsed.len == data.len(),
            info,
        ),
        Ok(None) => Reply::ReadMore,
        Err(e) => Reply::Invalid(e),
    }
}

/// Answers what has been received of a request.
pub fn answer_data(policy: &Policy, data: &[u8], info: &str) -> (r: Answer)
    ensures
        r@ == reply_to_data(
            list_of(policy.allowed_origins),
            list_of(policy.allowed_upstreams),
            data@,
            info@,
        ),
{
    match parse_request(data) {
        Ok(Some((request, len))) => answer(policy, &request, len == data.len(), info),
        Ok(None) => Answer::ReadMore,
        Err(e) => Answer::Invalid(e),
    }
}

/// How many bytes a request may have.
pub const REQUEST_CAPACITY: usize = 65536;

/// What has been received of a request.
pub struct Handshake {
    /// The bytes; only the first `len` have been received.
    pub buf: [u8; 65536],
    /// How many bytes have been received.
    pub len: usize,
}

impl Handshake {
    /// The length is within the buffer.
    pub open spec fn wf(self) -> bool {
        self.len <= REQUEST_CAPACITY
    }

    /// The bytes that have been received.
    pub open spec fn data(self) -> Seq<u8> {
        self.buf@.take(self.len as int)
    }

    /// A handshake of which nothing has been received, with a buffer of zeros.
    pub fn new() -> (r: Handshake)
        ensures
            r.wf(),
            r.len == 0,
            r.data() == Seq::<u8>::empty(),
            r.buf@ == Seq::new(REQUEST_CAPACITY as nat, |i: int| 0u8),
    {
        let r = Handshake { buf: [0;65536], len: 0 };
        assert(r.buf@ =~= Seq::new(REQUEST_CAPACITY as nat, |i: int| 0u8));
        r
    }

    /// Takes note of `size` bytes that have been received into the buffer behind
    /// those that were there, and says what to do. There are none at the end of
    /// what the client sends, and when the buffer is full.
    pub fn received(&mut self, policy: &Policy, size: usize, info: &str) -> (r: Answer)
        requires
            old(self).wf(),
            size <= REQUEST_CAPACITY - old(self).len,
        ensures
            final(self).wf(),
            final(self).buf == old(self).buf,
            final(self).len == old(self).len + size,
            r@ == if size == 0 {
                Reply::Eof
            } else {
                reply_to_data(
                    list_of(policy.allowed_origins),
                    list_of(policy.allowed_upstreams),
                    final(self).data(),
                    info@,
                )
            },
    {
        if size == 0 {
            return Answer::Eof;
        }
        self.len += size;
        answer_data(policy, slice_subrange(self.buf.as_slice(), 0, self.len), info)
    }
}

/// A connection to an upstream is made for exactly those requests that the policy
/// allows: whose origins and upstream are allowed, and which ask for a WebSocket
/// connection somewhere else than at the root, with nothing behind the request.
pub proof fn connected_as_allowed(
    origins: Option<Seq<char>>,
    upstreams: Option<Seq<char>>,
    method: Seq<char>,
    version: u8,
    path: Seq<char>,
    fields: Seq<Field>,
    whole: bool,
    info: Seq<char>,
)
    ensures
        reply_to(origins, upstreams, method, version, path, fields, whole, info) is Connect <==> {
            &&& origins_allowed(origins, fields)
            &&& path != "/"@
            &&& upgrade_key(method, version, fields) is Some
            &&& whole
            &&& upstream_allowed(upstreams, target_addr(path))
        },
        reply_to(origins, upstreams, method, version, path, fields, whole, info) matches Reply::Connect(
            response,
            upstream,
        ) ==> upstream == target_addr(path) && response == upgrade_response(
            accept_key(upgrade_key(method, version, fields)->0),
        ),
{
}

/// What a request that is not connected is answered: an origin that is not allowed
/// comes first; then the root, which shows what the server is; then a request
/// that is not for a WebSocket connection; then bytes behind the request; and last
/// an upstream that is not allowed, which is closed with a reason once the
/// connection is open.
pub proof fn refused_with_reason(
    origins: Option<Seq<char>>,
    upstreams: Option<Seq<char>>,
    method: Seq<char>,
    version: u8,
    path: Seq<char>,
    fields: Seq<Field>,
    whole: bool,
    info: Seq<char>,
)
    ensures
        ({
            let reply = reply_to(origins, upstreams, method, version, path, fields, whole, info);
            let from_allowed = origins_allowed(origins, fields);
            let page = path == "/"@;
            let key = upgrade_key(method, version, fields);
            &&& !from_allowed ==> reply == Reply::Refuse(FORBIDDEN@)
            &&& from_allowed && page ==> reply == Reply::Refuse(OK@ + info)
            &&& from_allowed && !page && key is None ==> reply == Reply::Refuse(
                UPGRADE_REQUIRED@ + info,
            )
            &&& from_allowed && !page && key is Some && !whole ==> reply == Reply::Refuse(
                BAD_REQUEST@,
            )
            &&& from_allowed && !page && key is Some && whole && !upstream_allowed(
                upstreams,
                target_addr(path),
            ) ==> reply == Reply::Prohibit(
                upgrade_response(accept_key(key->0)),
                close_message(NORMAL_CLOSURE, PROHIBITED@),
            )
        }),
{
}

/// The responses, word for word.
pub proof fn response_texts(accept: Seq<char>)
    ensures
        FORBIDDEN@
            == "HTTP/1.1 403 Forbidden\r\nConnection: close\r\nContent-Type: text/plain\r\n\r\n"@,
        OK@ == "HTTP/1.1 200 OK\r\nConnection: close\r\nContent-Type: text/plain\r\n\r\n"@,
        UPGRADE_REQUIRED@
            == "HTTP/1.1 426 Upgrade Required\r\nUpgrade: websocket\r\nConnection: upgrade, close\r\nContent-Type: text/plain\r\n\r\n"@,
        BAD_REQUEST@
            == "HTTP/1.1 400 Bad Request\r\nConnection: close\r\nContent-Type: text/plain\r\n\r\n"@,
        PROHIBITED@ == "upstream prohibited by proxy configuration"@,
        upgrade_response(accept)
            == "HTTP/1.1 101 Switching Protocols\r\nUpgrade: websocket\r\nConnection: upgrade\r\nSec-WebSocket-Accept: "@
            + accept + "\r\n\r\n"@,
{
}

/// What the server says of itself: its name and its version on the first line, and
/// on the second one where the source code of this commit is.
pub proof fn info_page_text(
    name: Seq<char>,
    version: Seq<char>,
    repository: Seq<char>,
    commit: Seq<char>,
)
    ensures
        info_page(name, version, repository, commit) == name + seq![' '] + version + seq![
            '\r',
            '\n',
        ] + "Source code at "@ + repository + "/commit/"@ + commit + seq!['\r', '\n'],
{
    reveal_strlit(" ");
    reveal_strlit("\r\nSource code at ");
    reveal_strlit("Source code at ");
    reveal_strlit("\r\n");
    assert("\r\nSource code at "@ =~= seq!['\r', '\n'] + "Source code at "@);
    let a = name + seq![' '] + version;
    assert(name + " "@ + version =~= a);
    assert(a + "\r\nSource code at "@ =~= a + seq!['\r', '\n'] + "Source code at "@);
    assert("\r\n"@ =~= seq!['\r', '\n']);
}

/// An upgrade is connected if the upstream is allowed, and opened and closed again
/// with code 1000 and the reason if it is not; either way the client gets the accept
/// key.
pub proof fn upgrade_is_answered(
    upstreams: Option<Seq<char>>,
    accept: Seq<char>,
    upstream: Seq<char>,
)
    ensures
        upstream_allowed(upstreams, upstream) ==> upgrade_reply(upstreams, accept, upstream)
            == Reply::Connect(upgrade_response(accept), upstream),
        !upstream_allowed(upstreams, upstream) ==> upgrade_reply(upstreams, accept, upstream)
            == Reply::Prohibit(
            upgrade_response(accept),
            close_message(1000, "upstream prohibited by proxy configuration"@),
        ),
{
}

/// What has been received is answered as the request that the parser finds in it,
/// which is whole if the request takes up all of it.
pub proof fn data_is_answered(
    origins: Option<Seq<char>>,
    upstreams: Option<Seq<char>>,
    data: Seq<u8>,
    info: Seq<char>,
)
    ensures
        match http_request(data, 64) {
            Ok(Some(parsed)) => reply_to_data(origins, upstreams, data, info) == reply_to(
                origins,
                upstreams,
                parsed.method.unwrap(),
                parsed.version.unwrap(),
                parsed.path.unwrap(),
                parsed.fields,
                parsed.len == data.len(),
                info,
            ),
            Ok(None) => reply_to_data(origins, upstreams, data, info) == Reply::ReadMore,
            Err(e) => reply_to_data(origins, upstreams, data, info) == Reply::Invalid(e),
        },
{
}

/// An answer stands for what it holds.
pub proof fn answer_is_what_it_holds(a: String, b: String, close: Vec<u8>, e: HttpError)
    ensures
        Answer::ReadMore@ == Reply::ReadMore,
        Answer::Eof@ == Reply::Eof,
        Answer::Invalid(e)@ == Reply::Invalid(e),
        Answer::Refuse(a)@ == Reply::Refuse(a@),
        Answer::Prohibit(a, close)@ == Reply::Prohibit(a@, close@),
        Answer::Connect(a, b)@ == Reply::Connect(a@, b@),
{
}

/// A header field that neither the policy nor the upgrade is about, wherever it is
/// put in, changes nothing about the answer.
pub proof fn other_fields_change_no_answer(
    origins: Option<Seq<char>>,
    upstreams: Option<Seq<char>>,
    method: Seq<char>,
    version: u8,
    path: Seq<char>,
    fields: Seq<Field>,
    whole: bool,
    info: Seq<char>,
    p: int,
    other: Field,
)
    requires
        0 <= p <= fields.len(),
        !named(other, "origin"@),
        !named(other, "host"@),
        !named(other, "upgrade"@),
        !named(other, "connection"@),
        !named(other, "sec-websocket-version"@),
        !named(other, "sec-websocket-key"@),
    ensures
        reply_to(
            origins,
            upstreams,
            method,
            version,
            path,
            fields.insert(p, other),
            whole,
            info,
        ) == reply_to(origins, upstreams, method, version, path, fields, whole, info),
{
    other_fields_name_no_origin(origins, fields, p, other);
    other_fields_do_not_matter(method, version, fields, p, other);
}

/// What the client is shown of a key that is accepted, and where it is connected to,
/// depend on the key and the target alone: two requests with the same key and the
/// same target that are both connected get the same answer.
pub proof fn connected_alike(
    origins: Option<Seq<char>>,
    upstreams: Option<Seq<char>>,
    path: Seq<char>,
    a: Seq<Field>,
    b: Seq<Field>,
    info: Seq<char>,
    other_info: Seq<char>,
)
    requires
        path != seq!['/'],
        origins_allowed(origins, a),
        origins_allowed(origins, b),
        upgrade_key(seq!['G', 'E', 'T'], 1, a) is Some,
        upgrade_key(seq!['G', 'E', 'T'], 1, a) == upgrade_key(seq!['G', 'E', 'T'], 1, b),
    ensures
        ({
            let get = seq!['G', 'E', 'T'];
            let key = upgrade_key(get, 1, a).unwrap();
            let reply = reply_to(origins, upstreams, get, 1, path, a, true, info);
            &&& reply == reply_to(origins, upstreams, get, 1, path, b, true, other_info)
            &&& reply == upgrade_reply(upstreams, accept_key(key), target_addr(path))
        }),
{
    reveal_strlit("/");
    if path == "/"@ {
        assert(path =~= seq!['/']);
    }
}

impl Handshake {
    /// What has been received is the front of the buffer.
    pub proof fn data_is_at_the_front(self)
        requires
            self.wf(),
        ensures
            self.data().len() == self.len,
            forall|i: int| 0 <= i < self.len ==> #[trigger] self.data()[i] == self.buf@[i],
    {
    }
}

} // verus!
