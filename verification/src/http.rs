//! The HTTP request of a WebSocket handshake.

use httparse::{Error, Status, EMPTY_HEADER};
use vstd::prelude::*;
use vstd::slice::slice_subrange;
use vstd::utf8::{
    decode_utf8, encode_utf8, encode_utf8_decode_utf8, encode_utf8_valid_utf8, is_ascii_chars_encode_utf8, valid_utf8,
};

use crate::accept::{base64, base64_digit, base64_group};
use crate::text::{
    byte_field_end, chars_of, eq_ignoring_case, field_is_item, field_of_one, fields_are_apart,
    fields_of_both, is_field, item_is_field, same_ignoring_case, same_ignoring_case_bytes,
    trim_ascii, trimmed_ascii, written,
};

verus! {

/// How many header fields a request may have.
pub const MAX_HEADERS: usize = 64;

/// The separator in a header field with more than one value.
pub const COMMA: u8 = 0x2c;

/// Why bytes are not an HTTP request.
#[derive(Clone, Copy, Debug, PartialEq, Eq, Structural)]
pub enum HttpError {
    /// Invalid byte in a header name.
    HeaderName,
    /// Invalid byte in a header value.
    HeaderValue,
    /// Invalid byte in a new line.
    NewLine,
    /// Invalid byte in a response status.
    Status,
    /// Invalid byte where a token is required.
    Token,
    /// More header fields than there is room for.
    TooManyHeaders,
    /// Invalid byte in the HTTP version.
    Version,
}

/// A header field.
#[derive(Debug)]
pub struct Header {
    /// The name, as the client spelled it.
    pub name: String,
    /// The value.
    pub value: Vec<u8>,
}

/// A header field as text and bytes.
#[verifier::ext_equal]
pub struct Field {
    pub name: Seq<char>,
    pub value: Seq<u8>,
}

impl View for Header {
    type V = Field;

    open spec fn view(&self) -> Field {
        Field { name: self.name@, value: self.value@ }
    }
}

/// Header fields as text and bytes.
pub open spec fn fields(headers: Seq<Header>) -> Seq<Field> {
    headers.map_values(|h: Header| h@)
}

/// A request, as far as the handshake looks at it.
#[derive(Debug)]
pub struct Request {
    /// The method.
    pub method: String,
    /// The minor version of HTTP/1.
    pub version: u8,
    /// The request target.
    pub path: String,
    /// The header fields, in the order in which they came.
    pub headers: Vec<Header>,
}

/// What the parser makes of complete bytes: how many of them the request takes
/// up, its method, the minor version of HTTP/1, its target, and its header fields.
pub struct Parsed {
    pub len: int,
    pub method: Option<Seq<char>>,
    pub version: Option<u8>,
    pub path: Option<Seq<char>>,
    pub fields: Seq<Field>,
}

/// What `httparse::Request::parse` makes of `data`, with room for `max_headers`
/// header fields. `None` stands for a request that is not complete.
pub uninterp spec fn http_request(data: Seq<u8>, max_headers: nat) -> Result<
    Option<Parsed>,
    HttpError,
>;

/// Runs `httparse::Request::parse` on `data` with `max_headers` empty header
/// fields. The contract says that the result depends on these two alone, and that
/// a complete request has a method, a target and a version: the parser gets to the
/// header fields only once it has set all three.
#[verifier::external_body]
fn run_parser(data: &[u8], max_headers: usize) -> (r: Result<
    Option<(usize, Option<String>, Option<String>, Option<u8>, Vec<Header>)>,
    HttpError,
>)
    requires
        max_headers <= MAX_HEADERS,
    ensures
        match (r, http_request(data@, max_headers as nat)) {
            (Ok(Some((len, method, path, version, headers))), Ok(Some(parsed))) => {
                &&& method matches Some(m) && parsed.method == Some(m@)
                &&& path matches Some(p) && parsed.path == Some(p@)
                &&& version matches Some(v) && parsed.version == Some(v)
                &&& len == parsed.len
                &&& fields(headers@) == parsed.fields
            },
            (Ok(None), Ok(None)) => true,
            (Err(e), Err(f)) => e == f,
            _ => false,
        },
{
    let mut headers = vec![EMPTY_HEADER; max_headers];
    let mut request = httparse::Request::new(&mut headers);
    let Status::Complete(len) = request.parse(data).map_err(|e| match e {
        Error::HeaderName => HttpError::HeaderName,
        Error::HeaderValue => HttpError::HeaderValue,
        Error::NewLine => HttpError::NewLine,
        Error::Status => HttpError::Status,
        Error::Token => HttpError::Token,
        Error::TooManyHeaders => HttpError::TooManyHeaders,
        Error::Version => HttpError::Version,
    })? else { return Ok(None) };
    let found = request.headers.iter().map(|h| Header { name: h.name.into(), value: h.value.into() });
    Ok(Some((len, request.method.map(String::from), request.path.map(String::from),
        request.version, found.collect())))
}

/// Parses what has been received of a request: the request and how many bytes it
/// takes up, or `None` if it is not complete yet.
pub fn parse_request(data: &[u8]) -> (r: Result<Option<(Request, usize)>, HttpError>)
    ensures
        match (r, http_request(data@, MAX_HEADERS as nat)) {
            (Ok(Some((request, len))), Ok(Some(parsed))) => {
                &&& parsed.method == Some(request.method@)
                &&& parsed.version == Some(request.version)
                &&& parsed.path == Some(request.path@)
                &&& fields(request.headers@) == parsed.fields
                &&& len == parsed.len
            },
            (Ok(None), Ok(None)) => true,
            (Err(e), Err(f)) => e == f,
            _ => false,
        },
{
    match run_parser(data, MAX_HEADERS) {
        Ok(Some((len, Some(method), Some(path), Some(version), headers))) => Ok(
            Some((Request { method, version, path, headers }, len)),
        ),
        Ok(_) => Ok(None),
        Err(e) => Err(e),
    }
}

/// Runs `std::str::from_utf8`: the bytes as text, if they are UTF-8.
#[verifier::external_body]
pub(crate) fn text_of(v: &[u8]) -> (r: Option<&str>)
    ensures
        r is Some <==> valid_utf8(v@),
        r matches Some(s) ==> s@ == decode_utf8(v@),
{
    std::str::from_utf8(v).ok()
}

/// Whether `needle` is one of the values in a comma separated header value,
/// whatever the blanks around it and the case of its letters.
pub open spec fn lists(value: Seq<u8>, needle: Seq<u8>) -> bool {
    exists|i: int, j: int| #[trigger]
        is_field(value, COMMA, i, j) && same_ignoring_case(
            trimmed_ascii(value.subrange(i, j)),
            needle,
        )
}

/// Checks if a value is contained in a multi-valued HTTP header.
pub fn contains_val(value: &[u8], needle: &[u8]) -> (r: bool)
    ensures
        r == lists(value@, needle@),
{
    let mut start: usize = 0;
    loop
        invariant
            start <= value@.len(),
            start == 0 || value@[start - 1] == COMMA,
            forall|i: int, j: int| #[trigger]
                is_field(value@, COMMA, i, j) && i < start ==> !same_ignoring_case(
                    trimmed_ascii(value@.subrange(i, j)),
                    needle@,
                ),
        decreases value@.len() - start,
    {
        let end = byte_field_end(value, COMMA, start);
        let field = trim_ascii(slice_subrange(value, start, end));
        if eq_ignoring_case(field, needle) {
            return true;
        }
        assert forall|i: int, j: int| #[trigger]
            is_field(value@, COMMA, i, j) && i <= end implies !same_ignoring_case(
            trimmed_ascii(value@.subrange(i, j)),
            needle@,
        ) by {
            if i >= start {
                fields_are_apart(value@, COMMA, start as int, end as int, i, j);
            }
        }
        if end == value.len() {
            return false;
        }
        start = end + 1;
    }
}

/// Whether a header field has the given name.
pub open spec fn named(field: Field, name: Seq<char>) -> bool {
    same_ignoring_case(encode_utf8(field.name), encode_utf8(name))
}

/// Whether one of the fields of the given name lists the given value.
pub open spec fn any_lists(fields: Seq<Field>, name: Seq<char>, value: Seq<char>) -> bool {
    exists|i: int|
        0 <= i < fields.len() && named(#[trigger] fields[i], name) && lists(
            fields[i].value,
            encode_utf8(value),
        )
}

/// The value of the last field of the given name.
pub open spec fn last_value(fields: Seq<Field>, name: Seq<char>) -> Option<Seq<u8>>
    decreases fields.len(),
{
    if fields.len() == 0 {
        None
    } else if named(fields.last(), name) {
        Some(fields.last().value)
    } else {
        last_value(fields.drop_last(), name)
    }
}

/// Whether there is a field of the given name.
pub open spec fn any_named(fields: Seq<Field>, name: Seq<char>) -> bool {
    exists|i: int| 0 <= i < fields.len() && named(#[trigger] fields[i], name)
}

/// The number that a digit of standard Base64 stands for.
pub open spec fn base64_value(b: u8) -> Option<int> {
    if 0x41 <= b <= 0x5a {
        Some(b - 0x41)
    } else if 0x61 <= b <= 0x7a {
        Some(b - 0x61 + 26)
    } else if 0x30 <= b <= 0x39 {
        Some(b - 0x30 + 52)
    } else if b == 0x2b {
        Some(62)
    } else if b == 0x2f {
        Some(63)
    } else {
        None
    }
}

/// Whether a header value is the Base64 form of 16 bytes: 22 digits, of which the
/// last one has 4 bits to spare, and padding.
pub open spec fn is_nonce(value: Seq<u8>) -> bool {
    &&& value.len() == 24
    &&& forall|i: int| 0 <= i < 22 ==> base64_value(#[trigger] value[i]) is Some
    &&& base64_value(value[21])->0 % 16 == 0
    &&& value[22] == 0x3d
    &&& value[23] == 0x3d
}

/// The key of a valid HTTP/1.1 WebSocket upgrade request (RFC 6455, Section 4.2.1).
pub open spec fn upgrade_key(method: Seq<char>, version: u8, fields: Seq<Field>) -> Option<
    Seq<char>,
> {
    match (
        last_value(fields, "sec-websocket-version"@),
        last_value(fields, "sec-websocket-key"@),
    ) {
        (Some(asked), Some(key)) if {
            &&& method == "GET"@
            &&& version == 1
            &&& any_named(fields, "host"@)
            &&& any_lists(fields, "upgrade"@, "websocket"@)
            &&& any_lists(fields, "connection"@, "upgrade"@)
            &&& same_ignoring_case(trimmed_ascii(asked), encode_utf8("13"@))
            &&& is_nonce(key)
        } => Some(decode_utf8(key)),
        _ => None,
    }
}

impl Header {
    /// Whether the field has the given name.
    pub fn is_named(&self, name: &str) -> (r: bool)
        ensures
            r == named(self@, name@),
    {
        eq_ignoring_case(self.name.as_str().as_bytes(), name.as_bytes())
    }
}

/// Whether a byte is a digit of standard Base64, and the number it stands for.
fn base64_digit_value(b: u8) -> (r: Option<u8>)
    ensures
        match (r, base64_value(b)) {
            (Some(n), Some(expected)) => n == expected,
            (None, None) => true,
            _ => false,
        },
{
    if 0x41 <= b && b <= 0x5a {
        Some(b - 0x41)
    } else if 0x61 <= b && b <= 0x7a {
        Some(b - 0x61 + 26)
    } else if 0x30 <= b && b <= 0x39 {
        Some(b - 0x30 + 52)
    } else if b == 0x2b {
        Some(62)
    } else if b == 0x2f {
        Some(63)
    } else {
        None
    }
}

/// Whether a header value is the Base64 form of 16 bytes.
pub fn check_nonce(value: &[u8]) -> (r: bool)
    ensures
        r == is_nonce(value@),
{
    if value.len() != 24 || value[22] != 0x3d || value[23] != 0x3d {
        return false;
    }
    for i in 0..22
        invariant
            value@.len() == 24,
            forall|k: int| 0 <= k < i ==> base64_value(#[trigger] value@[k]) is Some,
    {
        if base64_digit_value(value[i]).is_none() {
            assert(base64_value(value@[i as int]) is None);
            return false;
        }
    }
    match base64_digit_value(value[21]) {
        Some(n) => n % 16 == 0,
        None => false,
    }
}

/// Bytes as ASCII text.
pub open spec fn ascii_text(value: Seq<u8>) -> Seq<char> {
    value.map_values(|b: u8| b as char)
}

/// The keys that are accepted are exactly the Base64 forms of 16 bytes.
pub proof fn nonce_is_base64(value: Seq<u8>)
    ensures
        is_nonce(value) <==> exists|data: Seq<u8>|
            data.len() == 16 && #[trigger] base64(data) == ascii_text(value),
{
    if is_nonce(value) {
        lemma_nonce_decoded(value);
        assert(nonce_data(value).len() == 16);
    }
    if exists|data: Seq<u8>| data.len() == 16 && #[trigger] base64(data) == ascii_text(value) {
        let data = choose|data: Seq<u8>|
            data.len() == 16 && #[trigger] base64(data) == ascii_text(value);
        lemma_encoded_is_nonce(value, data);
    }
}

/// Digits and numbers stand for each other.
proof fn lemma_base64_digit(b: u8, n: int)
    requires
        0 <= n < 64,
    ensures
        base64_value(b) == Some(n) <==> b as char == base64_digit(n),
{
}

proof fn lemma_encoded_is_nonce(value: Seq<u8>, data: Seq<u8>)
    requires
        data.len() == 16,
        base64(data) == ascii_text(value),
    ensures
        is_nonce(value),
{
    let text = base64(data);
    assert(value.len() == text.len() == 24);
    assert forall|i: int| 0 <= i < 22 implies base64_value(#[trigger] value[i]) is Some by {
        let group = base64_group(data, i / 4 * 3);
        let n = if i % 4 == 0 {
            group / 262144 % 64
        } else if i % 4 == 1 {
            group / 4096 % 64
        } else if i % 4 == 2 {
            group / 64 % 64
        } else {
            group % 64
        };
        assert(text[i] == base64_digit(n));
        assert(text[i] == ascii_text(value)[i]);
        lemma_base64_digit(value[i], n);
    }
    let n = base64_group(data, 15) / 4096 % 64;
    assert(base64_group(data, 15) == data[15] * 65536);
    assert(text[21] == base64_digit(n));
    assert(text[21] == ascii_text(value)[21]);
    lemma_base64_digit(value[21], n);
    assert(n % 16 == 0);
    assert(text[22] == ascii_text(value)[22]);
    assert(text[23] == ascii_text(value)[23]);
}

/// The number that a digit stands for; padding counts as zero.
spec fn digit_or_zero(b: u8) -> int {
    match base64_value(b) {
        Some(n) => n,
        None => 0,
    }
}

/// The bits of four digits, as a number.
spec fn quad(value: Seq<u8>, at: int) -> int {
    digit_or_zero(value[at]) * 262144 + digit_or_zero(value[at + 1]) * 4096 + digit_or_zero(
        value[at + 2],
    ) * 64 + digit_or_zero(value[at + 3])
}

/// Four digits are found again in the three bytes that they make up.
proof fn lemma_quad(a: int, b: int, c: int, d: int)
    requires
        0 <= a < 64,
        0 <= b < 64,
        0 <= c < 64,
        0 <= d < 64,
    ensures
        ({
            let bits = a * 262144 + b * 4096 + c * 64 + d;
            &&& 0 <= bits < 16777216
            &&& bits / 65536 * 65536 + bits / 256 % 256 * 256 + bits % 256 == bits
            &&& bits / 262144 % 64 == a
            &&& bits / 4096 % 64 == b
            &&& bits / 64 % 64 == c
            &&& bits % 64 == d
        }),
{
    let bits = a * 262144 + b * 4096 + c * 64 + d;
    assert(bits / 64 == a * 4096 + b * 64 + c);
    assert(bits / 4096 == a * 64 + b);
    assert(bits / 262144 == a);
    assert(bits / 65536 == bits / 256 / 256);
    assert(bits / 256 == bits / 256 / 256 * 256 + bits / 256 % 256);
    assert(bits == bits / 256 * 256 + bits % 256);
}

/// The 16 bytes that a key stands for.
spec fn nonce_data(value: Seq<u8>) -> Seq<u8> {
    Seq::new(
        16,
        |j: int|
            {
                let bits = quad(value, j / 3 * 4);
                if j % 3 == 0 {
                    (bits / 65536) as u8
                } else if j % 3 == 1 {
                    (bits / 256 % 256) as u8
                } else {
                    (bits % 256) as u8
                }
            },
    )
}

proof fn lemma_nonce_group(value: Seq<u8>, q: int)
    requires
        is_nonce(value),
        0 <= q < 6,
    ensures
        base64_group(nonce_data(value), q * 3) == quad(value, q * 4),
{
    let data = nonce_data(value);
    let a = digit_or_zero(value[q * 4]);
    let b = digit_or_zero(value[q * 4 + 1]);
    let c = digit_or_zero(value[q * 4 + 2]);
    let d = digit_or_zero(value[q * 4 + 3]);
    lemma_quad(a, b, c, d);
    let bits = quad(value, q * 4);
    assert(q * 3 / 3 == q && (q * 3) % 3 == 0);
    assert(data[q * 3] == bits / 65536);
    if q < 5 {
        assert((q * 3 + 1) / 3 == q && (q * 3 + 1) % 3 == 1);
        assert((q * 3 + 2) / 3 == q && (q * 3 + 2) % 3 == 2);
        assert(data[q * 3 + 1] == bits / 256 % 256);
        assert(data[q * 3 + 2] == bits % 256);
    } else {
        assert(c == 0 && d == 0);
        assert(base64_value(value[21]) is Some);
        assert(b % 16 == 0);
    }
}

proof fn lemma_nonce_decoded(value: Seq<u8>)
    requires
        is_nonce(value),
    ensures
        base64(nonce_data(value)) == ascii_text(value),
{
    let data = nonce_data(value);
    let text = ascii_text(value);
    assert forall|i: int| 0 <= i < 24 implies base64(data)[i] == text[i] by {
        let q = i / 4;
        let bits = quad(value, q * 4);
        lemma_nonce_group(value, q);
        lemma_quad(
            digit_or_zero(value[q * 4]),
            digit_or_zero(value[q * 4 + 1]),
            digit_or_zero(value[q * 4 + 2]),
            digit_or_zero(value[q * 4 + 3]),
        );
        if i < 22 {
            assert(base64_value(value[i]) is Some);
            let n = digit_or_zero(value[i]);
            lemma_base64_digit(value[i], n);
            assert(i == q * 4 || i == q * 4 + 1 || i == q * 4 + 2 || i == q * 4 + 3);
            assert(base64(data)[i] == base64_digit(n));
        } else {
            assert(base64(data)[i] == '=');
        }
    }
    assert(base64(data) =~= text);
}

/// A key is text.
proof fn lemma_nonce_is_text(value: Seq<u8>)
    requires
        is_nonce(value),
    ensures
        valid_utf8(value),
{
    let text = Seq::new(value.len(), |i: int| value[i] as char);
    assert forall|i: int| 0 <= i < value.len() implies value[i] < 0x80 by {
        if i < 22 {
            assert(base64_value(value[i]) is Some);
        }
    }
    is_ascii_chars_encode_utf8(text);
    assert(encode_utf8(text) =~= value);
    encode_utf8_valid_utf8(text);
}

/// Returns the `Sec-WebSocket-Key` header value if the parsed request is a valid
/// HTTP/1.1 WebSocket upgrade request (RFC 6455, Section 4.2.1), or `None`
/// otherwise.
pub fn websocket_key<'a>(req: &'a Request) -> (r: Option<&'a str>)
    ensures
        match (r, upgrade_key(req.method@, req.version, fields(req.headers@))) {
            (Some(key), Some(expected)) => key@ == expected,
            (None, None) => true,
            _ => false,
        },
{
    proof {
        reveal_strlit("GET");
        assert("GET"@ =~= seq!['G', 'E', 'T']);
    }
    let method = chars_of(req.method.as_str());
    let get = method.len() == 3 && method[0] == 'G' && method[1] == 'E' && method[2] == 'T';
    assert(get ==> req.method@ =~= "GET"@);
    let mut host: bool = false;
    let mut upgrade: bool = false;
    let mut connection: bool = false;
    let mut version: bool = false;
    let mut key: Option<&'a [u8]> = None;
    let ghost all = fields(req.headers@);
    for i in 0..req.headers.len()
        invariant
            all == fields(req.headers@),
            host == any_named(all.take(i as int), "host"@),
            upgrade == any_lists(all.take(i as int), "upgrade"@, "websocket"@),
            connection == any_lists(all.take(i as int), "connection"@, "upgrade"@),
            version == (last_value(all.take(i as int), "sec-websocket-version"@) matches Some(v)
                && same_ignoring_case(trimmed_ascii(v), encode_utf8("13"@))),
            match (key, last_value(all.take(i as int), "sec-websocket-key"@)) {
                (Some(k), Some(v)) => k@ == v,
                (None, None) => true,
                _ => false,
            },
    {
        let h = &req.headers[i];
        proof {
            lemma_any_named_push(all, i as int, "host"@);
            lemma_any_lists_push(all, i as int, "upgrade"@, "websocket"@);
            lemma_any_lists_push(all, i as int, "connection"@, "upgrade"@);
            assert(all.take(i + 1).drop_last() =~= all.take(i as int));
            assert(all.take(i + 1).last() == h@);
        }
        if h.is_named("host") {
            host = true;
        }
        if h.is_named("upgrade") {
            let found = contains_val(h.value.as_slice(), "websocket".as_bytes());
            upgrade = upgrade || found;
        }
        if h.is_named("connection") {
            let found = contains_val(h.value.as_slice(), "upgrade".as_bytes());
            connection = connection || found;
        }
        if h.is_named("sec-websocket-version") {
            version = eq_ignoring_case(trim_ascii(h.value.as_slice()), "13".as_bytes());
        }
        if h.is_named("sec-websocket-key") {
            key = Some(h.value.as_slice());
        }
    }
    assert(all.take(all.len() as int) =~= all);
    let asked = get && req.version == 1 && host && upgrade && connection && version;
    match key {
        Some(value) if asked && check_nonce(value) => {
            proof {
                lemma_nonce_is_text(value@);
            }
            text_of(value)
        },
        _ => None,
    }
}

proof fn lemma_any_named_push(all: Seq<Field>, i: int, name: Seq<char>)
    requires
        0 <= i < all.len(),
    ensures
        any_named(all.take(i + 1), name) <==> any_named(all.take(i), name) || named(all[i], name),
{
    if any_named(all.take(i), name) {
        let k = choose|k: int| 0 <= k < i && named(#[trigger] all.take(i)[k], name);
        assert(all.take(i + 1)[k] == all.take(i)[k]);
    }
    if any_named(all.take(i + 1), name) {
        let k = choose|k: int| 0 <= k < i + 1 && named(#[trigger] all.take(i + 1)[k], name);
        if k < i {
            assert(all.take(i)[k] == all.take(i + 1)[k]);
        }
    }
    assert(all.take(i + 1)[i] == all[i]);
}

proof fn lemma_any_lists_push(all: Seq<Field>, i: int, name: Seq<char>, value: Seq<char>)
    requires
        0 <= i < all.len(),
    ensures
        any_lists(all.take(i + 1), name, value) <==> any_lists(all.take(i), name, value) || (named(
            all[i],
            name,
        ) && lists(all[i].value, encode_utf8(value))),
{
    if any_lists(all.take(i), name, value) {
        let k = choose|k: int|
            0 <= k < i && named(#[trigger] all.take(i)[k], name) && lists(
                all.take(i)[k].value,
                encode_utf8(value),
            );
        assert(all.take(i + 1)[k] == all.take(i)[k]);
    }
    if any_lists(all.take(i + 1), name, value) {
        let k = choose|k: int|
            0 <= k < i + 1 && named(#[trigger] all.take(i + 1)[k], name) && lists(
                all.take(i + 1)[k].value,
                encode_utf8(value),
            );
        if k < i {
            assert(all.take(i)[k] == all.take(i + 1)[k]);
        }
    }
    assert(all.take(i + 1)[i] == all[i]);
}

/// Each header field has the name and the value that came, at its place.
pub proof fn fields_are_headers(headers: Seq<Header>)
    ensures
        fields(headers).len() == headers.len(),
        forall|i: int|
            0 <= i < headers.len() ==> (#[trigger] fields(headers)[i]).name == headers[i].name@
                && fields(headers)[i].value == headers[i].value@,
{
}

/// A header value that is written as values with commas between them lists exactly
/// these values, each without the blanks around it and whatever its case.
pub proof fn lists_what_is_written(items: Seq<Seq<u8>>, needle: Seq<u8>)
    requires
        items.len() >= 1,
        forall|k: int| 0 <= k < items.len() ==> !(#[trigger] items[k]).contains(0x2c),
    ensures
        lists(written(items, 0x2c), needle) <==> exists|k: int|
            0 <= k < items.len() && same_ignoring_case(trimmed_ascii(#[trigger] items[k]), needle),
{
    let value = written(items, 0x2cu8);
    if lists(value, needle) {
        let (i, j) = choose|i: int, j: int| #[trigger]
            is_field(value, COMMA, i, j) && same_ignoring_case(
                trimmed_ascii(value.subrange(i, j)),
                needle,
            );
        let k = field_is_item(items, 0x2cu8, i, j);
        assert(same_ignoring_case(trimmed_ascii(items[k]), needle));
    }
    if exists|k: int|
        0 <= k < items.len() && same_ignoring_case(trimmed_ascii(#[trigger] items[k]), needle) {
        let k = choose|k: int|
            0 <= k < items.len() && same_ignoring_case(trimmed_ascii(#[trigger] items[k]), needle);
        let (i, j) = item_is_field(items, 0x2cu8, k);
        assert(is_field(value, COMMA, i, j));
    }
}

/// A field has a name if they are the same in UTF-8 but for the case of letters.
pub proof fn named_by_bytes(field: Field, name: Seq<char>)
    ensures
        ({
            let a = encode_utf8(field.name);
            let b = encode_utf8(name);
            named(field, name) <==> {
                &&& a.len() == b.len()
                &&& forall|i: int|
                    0 <= i < a.len() ==> {
                        ||| #[trigger] a[i] == b[i]
                        ||| 0x41 <= a[i] <= 0x5a && b[i] == a[i] + 32
                        ||| 0x41 <= b[i] <= 0x5a && a[i] == b[i] + 32
                    }
            }
        }),
{
    same_ignoring_case_bytes(encode_utf8(field.name), encode_utf8(name));
}

/// The last value is that of a field of the name with no field of the name behind
/// it.
pub proof fn last_value_is_last(fields: Seq<Field>, name: Seq<char>, k: int)
    requires
        0 <= k < fields.len(),
        named(fields[k], name),
        forall|l: int| k < l < fields.len() ==> !named(#[trigger] fields[l], name),
    ensures
        last_value(fields, name) == Some(fields[k].value),
    decreases fields.len(),
{
    if k < fields.len() - 1 {
        assert(!named(fields[fields.len() - 1], name));
        assert forall|l: int| k < l < fields.drop_last().len() implies !named(
            #[trigger] fields.drop_last()[l],
            name,
        ) by {
            assert(fields.drop_last()[l] == fields[l]);
        }
        last_value_is_last(fields.drop_last(), name, k);
    }
}

/// A last value comes from a field of the name with no field of the name behind it.
pub proof fn last_value_comes_from(fields: Seq<Field>, name: Seq<char>) -> (k: int)
    requires
        last_value(fields, name) is Some,
    ensures
        0 <= k < fields.len(),
        named(fields[k], name),
        forall|l: int| k < l < fields.len() ==> !named(#[trigger] fields[l], name),
        last_value(fields, name) == Some(fields[k].value),
    decreases fields.len(),
{
    if named(fields.last(), name) {
        fields.len() - 1
    } else {
        let k = last_value_comes_from(fields.drop_last(), name);
        assert forall|l: int| k < l < fields.len() implies !named(#[trigger] fields[l], name) by {
            if l < fields.len() - 1 {
                assert(fields.drop_last()[l] == fields[l]);
            }
        }
        k
    }
}

/// A GET request of HTTP/1.1 with a host, a field that lists the upgrade to
/// WebSocket, a field that lists the upgrade of the connection, 13 as the last
/// version and the Base64 form of 16 bytes as the last key has this key, whatever
/// other fields it has. The parameters are the places of these fields.
pub proof fn upgrade_key_is_found(
    fields: Seq<Field>,
    host: int,
    upgrade: int,
    connection: int,
    version: int,
    key: int,
    nonce: Seq<u8>,
)
    requires
        0 <= host < fields.len(),
        named(fields[host], "host"@),
        0 <= upgrade < fields.len(),
        named(fields[upgrade], "upgrade"@),
        lists(fields[upgrade].value, encode_utf8("websocket"@)),
        0 <= connection < fields.len(),
        named(fields[connection], "connection"@),
        lists(fields[connection].value, encode_utf8("upgrade"@)),
        0 <= version < fields.len(),
        named(fields[version], "sec-websocket-version"@),
        trimmed_ascii(fields[version].value) == seq![0x31u8, 0x33u8],
        forall|l: int|
            version < l < fields.len() ==> !named(#[trigger] fields[l], "sec-websocket-version"@),
        0 <= key < fields.len(),
        named(fields[key], "sec-websocket-key"@),
        forall|l: int|
            key < l < fields.len() ==> !named(#[trigger] fields[l], "sec-websocket-key"@),
        nonce.len() == 16,
        fields[key].value.len() == 24,
        forall|i: int| 0 <= i < 24 ==> #[trigger] fields[key].value[i] as char == base64(nonce)[i],
    ensures
        upgrade_key(seq!['G', 'E', 'T'], 1, fields) == Some(base64(nonce)),
{
    reveal_strlit("GET");
    assert("GET"@ =~= seq!['G', 'E', 'T']);
    reveal_strlit("13");
    is_ascii_chars_encode_utf8("13"@);
    assert(encode_utf8("13"@) =~= seq![0x31u8, 0x33u8]);
    same_ignoring_case_bytes(encode_utf8("13"@), encode_utf8("13"@));
    last_value_is_last(fields, "sec-websocket-version"@, version);
    last_value_is_last(fields, "sec-websocket-key"@, key);
    let value = fields[key].value;
    assert(ascii_text(value) =~= base64(nonce));
    lemma_encoded_is_nonce(value, nonce);
    lemma_nonce_text(value);
}

/// A key is the text of its bytes.
proof fn lemma_nonce_text(value: Seq<u8>)
    requires
        is_nonce(value),
    ensures
        decode_utf8(value) == ascii_text(value),
{
    let text = ascii_text(value);
    assert forall|i: int| 0 <= i < value.len() implies value[i] < 0x80 by {
        if i < 22 {
            assert(base64_value(value[i]) is Some);
        }
    }
    is_ascii_chars_encode_utf8(text);
    assert(encode_utf8(text) =~= value);
    encode_utf8_decode_utf8(text);
}

/// The places of the fields that make a request an upgrade request, as
/// [`upgrade_key_comes_from`] gives them.
pub struct UpgradeFields {
    pub host: int,
    pub upgrade: int,
    pub connection: int,
    pub version: int,
    pub key: int,
    pub nonce: Seq<u8>,
}

/// A request that has a key is a GET request of HTTP/1.1 with all of these fields,
/// and the key is the value of the last one of its name.
pub proof fn upgrade_key_comes_from(method: Seq<char>, version: u8, fields: Seq<Field>) -> (at:
    UpgradeFields)
    requires
        upgrade_key(method, version, fields) is Some,
    ensures
        method == seq!['G', 'E', 'T'],
        version == 1,
        0 <= at.host < fields.len(),
        named(fields[at.host], "host"@),
        0 <= at.upgrade < fields.len(),
        named(fields[at.upgrade], "upgrade"@),
        lists(fields[at.upgrade].value, encode_utf8("websocket"@)),
        0 <= at.connection < fields.len(),
        named(fields[at.connection], "connection"@),
        lists(fields[at.connection].value, encode_utf8("upgrade"@)),
        0 <= at.version < fields.len(),
        named(fields[at.version], "sec-websocket-version"@),
        trimmed_ascii(fields[at.version].value) == seq![0x31u8, 0x33u8],
        forall|l: int|
            at.version < l < fields.len() ==> !named(
                #[trigger] fields[l],
                "sec-websocket-version"@,
            ),
        0 <= at.key < fields.len(),
        named(fields[at.key], "sec-websocket-key"@),
        forall|l: int|
            at.key < l < fields.len() ==> !named(#[trigger] fields[l], "sec-websocket-key"@),
        at.nonce.len() == 16,
        fields[at.key].value.len() == 24,
        forall|i: int|
            0 <= i < 24 ==> #[trigger] fields[at.key].value[i] as char == base64(at.nonce)[i],
        upgrade_key(method, version, fields) == Some(base64(at.nonce)),
{
    reveal_strlit("GET");
    assert("GET"@ =~= seq!['G', 'E', 'T']);
    reveal_strlit("13");
    is_ascii_chars_encode_utf8("13"@);
    let expected = encode_utf8("13"@);
    assert(expected =~= seq![0x31u8, 0x33u8]);
    let v = last_value_comes_from(fields, "sec-websocket-version"@);
    let k = last_value_comes_from(fields, "sec-websocket-key"@);
    let given = trimmed_ascii(fields[v].value);
    same_ignoring_case_bytes(given, expected);
    assert(given[0] == expected[0] && given[1] == expected[1]);
    assert(given =~= seq![0x31u8, 0x33u8]);
    let host = choose|i: int| 0 <= i < fields.len() && named(#[trigger] fields[i], "host"@);
    let upgrade = choose|i: int|
        0 <= i < fields.len() && named(#[trigger] fields[i], "upgrade"@) && lists(
            fields[i].value,
            encode_utf8("websocket"@),
        );
    let connection = choose|i: int|
        0 <= i < fields.len() && named(#[trigger] fields[i], "connection"@) && lists(
            fields[i].value,
            encode_utf8("upgrade"@),
        );
    let value = fields[k].value;
    lemma_nonce_decoded(value);
    lemma_nonce_text(value);
    let nonce = nonce_data(value);
    assert forall|i: int| 0 <= i < 24 implies #[trigger] value[i] as char == base64(nonce)[i] by {
        assert(ascii_text(value)[i] == value[i] as char);
    }
    UpgradeFields { host, upgrade, connection, version: v, key: k, nonce }
}

/// A field of another name, wherever it is put in, changes nothing about the key.
pub proof fn other_fields_do_not_matter(
    method: Seq<char>,
    version: u8,
    fields: Seq<Field>,
    p: int,
    other: Field,
)
    requires
        0 <= p <= fields.len(),
        !named(other, "host"@),
        !named(other, "upgrade"@),
        !named(other, "connection"@),
        !named(other, "sec-websocket-version"@),
        !named(other, "sec-websocket-key"@),
    ensures
        upgrade_key(method, version, fields.insert(p, other)) == upgrade_key(
            method,
            version,
            fields,
        ),
{
    let more = fields.insert(p, other);
    lemma_last_value_insert(fields, p, other, "sec-websocket-version"@);
    lemma_last_value_insert(fields, p, other, "sec-websocket-key"@);
    lemma_inserted(fields, p, other);
    assert(any_named(more, "host"@) == any_named(fields, "host"@)) by {
        if any_named(more, "host"@) {
            let i = choose|i: int| 0 <= i < more.len() && named(#[trigger] more[i], "host"@);
            assert(fields[if i < p { i } else { i - 1 }] == more[i]);
        }
        if any_named(fields, "host"@) {
            let i = choose|i: int| 0 <= i < fields.len() && named(#[trigger] fields[i], "host"@);
            assert(more[if i < p { i } else { i + 1 }] == fields[i]);
        }
    }
    lemma_any_lists_insert(fields, p, other, "upgrade"@, "websocket"@);
    lemma_any_lists_insert(fields, p, other, "connection"@, "upgrade"@);
}

proof fn lemma_inserted(fields: Seq<Field>, p: int, other: Field)
    requires
        0 <= p <= fields.len(),
    ensures
        fields.insert(p, other).len() == fields.len() + 1,
        fields.insert(p, other)[p] == other,
        forall|i: int| 0 <= i < p ==> fields.insert(p, other)[i] == fields[i],
        forall|i: int| p < i <= fields.len() ==> fields.insert(p, other)[i] == fields[i - 1],
{
}

proof fn lemma_any_lists_insert(
    fields: Seq<Field>,
    p: int,
    other: Field,
    name: Seq<char>,
    value: Seq<char>,
)
    requires
        0 <= p <= fields.len(),
        !named(other, name),
    ensures
        any_lists(fields.insert(p, other), name, value) == any_lists(fields, name, value),
{
    let more = fields.insert(p, other);
    lemma_inserted(fields, p, other);
    if any_lists(more, name, value) {
        let i = choose|i: int|
            0 <= i < more.len() && named(#[trigger] more[i], name) && lists(
                more[i].value,
                encode_utf8(value),
            );
        assert(fields[if i < p { i } else { i - 1 }] == more[i]);
    }
    if any_lists(fields, name, value) {
        let i = choose|i: int|
            0 <= i < fields.len() && named(#[trigger] fields[i], name) && lists(
                fields[i].value,
                encode_utf8(value),
            );
        assert(more[if i < p { i } else { i + 1 }] == fields[i]);
    }
}

proof fn lemma_last_value_insert(fields: Seq<Field>, p: int, other: Field, name: Seq<char>)
    requires
        0 <= p <= fields.len(),
        !named(other, name),
    ensures
        last_value(fields.insert(p, other), name) == last_value(fields, name),
    decreases fields.len(),
{
    let more = fields.insert(p, other);
    lemma_inserted(fields, p, other);
    if p == fields.len() {
        assert(more.drop_last() =~= fields);
    } else {
        assert(more.last() == fields.last());
        assert(more.drop_last() =~= fields.drop_last().insert(p, other));
        lemma_last_value_insert(fields.drop_last(), p, other, name);
    }
}

/// Two header values with a comma between them list what either of them lists.
pub proof fn lists_of_both(a: Seq<u8>, b: Seq<u8>, needle: Seq<u8>)
    ensures
        lists(a + seq![0x2cu8] + b, needle) <==> lists(a, needle) || lists(b, needle),
{
    let s = a + seq![0x2cu8] + b;
    let n = a.len() + 1;
    if lists(s, needle) {
        let (i, j) = choose|i: int, j: int| #[trigger]
            is_field(s, 0x2cu8, i, j) && same_ignoring_case(trimmed_ascii(s.subrange(i, j)), needle);
        fields_of_both(a, b, 0x2cu8, i, j);
        if i >= n {
            fields_of_both(a, b, 0x2cu8, i - n, j - n);
            assert(is_field(b, 0x2cu8, i - n, j - n));
        } else {
            assert(is_field(a, 0x2cu8, i, j));
        }
    }
    if lists(a, needle) {
        let (i, j) = choose|i: int, j: int| #[trigger]
            is_field(a, 0x2cu8, i, j) && same_ignoring_case(trimmed_ascii(a.subrange(i, j)), needle);
        fields_of_both(a, b, 0x2cu8, i, j);
        assert(is_field(s, 0x2cu8, i, j));
    }
    if lists(b, needle) {
        let (i, j) = choose|i: int, j: int| #[trigger]
            is_field(b, 0x2cu8, i, j) && same_ignoring_case(trimmed_ascii(b.subrange(i, j)), needle);
        fields_of_both(a, b, 0x2cu8, i, j);
        assert(is_field(s, 0x2cu8, i + n, j + n));
    }
}

/// A header value without a comma lists what it is, without the blanks around it and
/// whatever its case.
pub proof fn lists_of_one(s: Seq<u8>, needle: Seq<u8>)
    requires
        !s.contains(0x2cu8),
    ensures
        lists(s, needle) <==> same_ignoring_case(trimmed_ascii(s), needle),
{
    field_of_one(s, 0x2cu8, 0, s.len() as int);
    if lists(s, needle) {
        let (i, j) = choose|i: int, j: int| #[trigger]
            is_field(s, 0x2cu8, i, j) && same_ignoring_case(trimmed_ascii(s.subrange(i, j)), needle);
        field_of_one(s, 0x2cu8, i, j);
    }
    assert(is_field(s, 0x2cu8, 0, s.len() as int));
}

} // verus!
