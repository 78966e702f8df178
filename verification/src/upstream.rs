//! The DNS server that a request asks for.

use percent_encoding::percent_decode_str;
use vstd::prelude::*;
use vstd::string::{StrSliceExecFns, StringExecFns};
use vstd::utf8::{
    decode_utf8, encode_utf8, encode_utf8_decode_utf8, encode_utf8_valid_utf8, is_ascii_chars,
    is_ascii_chars_encode_utf8, valid_utf8,
};

use crate::client::joined;
use crate::close::lemma_encode_add;
use crate::text::chars_of;

verus! {

/// Whether no port is put behind a host: there is no colon, or the colons are
/// inside of brackets.
pub open spec fn lacks_port(s: Seq<char>) -> bool {
    !s.contains(':') || s.last() == ']'
}

/// An address with the port for DNS put behind it if it has none, or an empty one.
pub open spec fn upstream_addr(s: Seq<char>) -> Seq<char> {
    if s.len() > 0 && s.last() == ':' && lacks_port(s.drop_last()) {
        s + "53"@
    } else if lacks_port(s) {
        s + ":53"@
    } else {
        s
    }
}

/// Whether no port is put behind the host in the first `len` characters.
fn without_port(v: &Vec<char>, len: usize) -> (r: bool)
    requires
        len <= v@.len(),
    ensures
        r == lacks_port(v@.take(len as int)),
{
    let ghost s = v@.take(len as int);
    if len > 0 && v[len - 1] == ']' {
        assert(s.last() == ']');
        return true;
    }
    for i in 0..len
        invariant
            s == v@.take(len as int),
            len <= v@.len(),
            len > 0 ==> s.last() != ']',
            forall|k: int| 0 <= k < i ==> s[k] != ':',
    {
        if v[i] == ':' {
            assert(s[i as int] == ':');
            return false;
        }
    }
    true
}

/// Normalizes the final path segment into a `host:port` string suitable for
/// connecting, defaulting the port to 53 if the argument doesn't already specify
/// one.
pub fn parse_upstream_addr(s: &str) -> (r: String)
    ensures
        r@ == upstream_addr(s@),
{
    let v = chars_of(s);
    let n = v.len();
    let mut r = s.to_owned();
    proof {
        assert(v@.take(n as int) =~= s@);
        if n > 0 {
            assert(v@.take(n - 1) =~= s@.drop_last());
        }
    }
    if n > 0 && v[n - 1] == ':' && without_port(&v, n - 1) {
        r.append("53");
    } else if without_port(&v, n) {
        r.append(":53");
    }
    r
}

/// An address that has been normalized stays as it is.
pub proof fn upstream_addr_again(s: Seq<char>)
    ensures
        upstream_addr(upstream_addr(s)) == upstream_addr(s),
{
    reveal_strlit(":53");
    reveal_strlit("53");
    if s.len() > 0 && s.last() == ':' && lacks_port(s.drop_last()) {
        let r = s + "53"@;
        assert(r[s.len() - 1] == ':');
        assert(r.last() == '3');
    } else if lacks_port(s) {
        let r = s + ":53"@;
        assert(r[s.len() as int] == ':');
        assert(r.last() == '3');
    }
}

/// An empty port is as good as none.
pub proof fn empty_port_is_no_port(s: Seq<char>)
    requires
        lacks_port(s),
    ensures
        upstream_addr(s + seq![':']) == upstream_addr(s),
{
    reveal_strlit(":53");
    reveal_strlit("53");
    if s.len() > 0 && s.last() == ':' {
        assert(s[s.len() - 1] == ':');
    }
    assert((s + seq![':']).drop_last() =~= s);
    assert(s + seq![':'] + "53"@ =~= s + ":53"@);
}

/// A request target without its query.
pub open spec fn without_query(path: Seq<char>) -> Seq<char> {
    match path.index_of_first('?') {
        Some(i) => path.take(i),
        None => path,
    }
}

/// What stands behind the last slash of a request target.
pub open spec fn segment_of(path: Seq<char>) -> Seq<char> {
    let p = without_query(path);
    match p.index_of_last('/') {
        Some(i) => p.skip(i + 1),
        None => p,
    }
}

/// The last segment of a request target, without the query.
pub fn final_segment(path: &str) -> (r: &str)
    ensures
        r@ == segment_of(path@),
{
    let v = chars_of(path);
    let mut end: usize = 0;
    while end < v.len() && v[end] != '?'
        invariant
            v@ == path@,
            end <= v@.len(),
            forall|k: int| 0 <= k < end ==> path@[k] != '?',
        decreases v@.len() - end,
    {
        end += 1;
    }
    let ghost p = path@.take(end as int);
    proof {
        path@.index_of_first_ensures('?');
        assert(without_query(path@) =~= p);
    }
    let mut start: usize = end;
    while start > 0 && v[start - 1] != '/'
        invariant
            v@ == path@,
            start <= end <= v@.len(),
            p == path@.take(end as int),
            forall|k: int| start <= k < end ==> p[k] != '/',
        decreases start,
    {
        start -= 1;
    }
    proof {
        p.index_of_last_ensures('/');
        if start > 0 {
            assert(p[start - 1] == '/');
        }
        assert(segment_of(path@) =~= path@.subrange(start as int, end as int));
    }
    path.substring_char(start, end)
}

/// Whatever stands ahead of the last slash and behind the question mark, the last
/// segment is what stands between them.
pub proof fn segment_of_path(front: Seq<char>, segment: Seq<char>, query: Seq<char>)
    requires
        !front.contains('?'),
        !segment.contains('?'),
        !segment.contains('/'),
    ensures
        segment_of(front + seq!['/'] + segment) == segment,
        segment_of(front + seq!['/'] + segment + seq!['?'] + query) == segment,
{
    let p = front + seq!['/'] + segment;
    let q = p + seq!['?'] + query;
    assert forall|k: int| 0 <= k < p.len() implies p[k] != '?' by {
        if k < front.len() {
            assert(p[k] == front[k]);
        } else if k > front.len() {
            assert(p[k] == segment[k - front.len() - 1]);
        }
    }
    assert(p[front.len() as int] == '/');
    assert forall|k: int| front.len() < k < p.len() implies p[k] != '/' by {
        assert(p[k] == segment[k - front.len() - 1]);
    }
    assert(q[p.len() as int] == '?');
    p.index_of_first_ensures('?');
    q.index_of_first_ensures('?');
    p.index_of_last_ensures('/');
    assert forall|k: int| 0 <= k < p.len() implies q[k] == p[k] by {}
    assert(without_query(p) == p);
    assert(q.index_of_first('?') == Some(p.len() as int));
    assert(without_query(q) =~= p);
    assert(p.skip(front.len() as int + 1) =~= segment);
}

/// The value of a hexadecimal digit.
pub open spec fn hex_value(b: u8) -> Option<int> {
    if 0x30 <= b <= 0x39 {
        Some(b - 0x30)
    } else if 0x41 <= b <= 0x46 {
        Some(b - 0x41 + 10)
    } else if 0x61 <= b <= 0x66 {
        Some(b - 0x61 + 10)
    } else {
        None
    }
}

/// Bytes with each percent sign that two hexadecimal digits follow replaced, and
/// the digits with it, by the byte that they stand for.
pub open spec fn percent_decoded(s: Seq<u8>) -> Seq<u8>
    decreases s.len(),
{
    if s.len() == 0 {
        seq![]
    } else if s[0] == 0x25 && s.len() >= 3 && hex_value(s[1]) is Some && hex_value(s[2]) is Some {
        seq![(hex_value(s[1])->0 * 16 + hex_value(s[2])->0) as u8] + percent_decoded(s.skip(3))
    } else {
        seq![s[0]] + percent_decoded(s.skip(1))
    }
}

/// Bytes without a percent sign stand for themselves.
pub proof fn percent_decoded_plain(s: Seq<u8>)
    requires
        !s.contains(0x25),
    ensures
        percent_decoded(s) == s,
    decreases s.len(),
{
    if s.len() > 0 {
        assert(s[0] != 0x25);
        assert forall|k: int| 0 <= k < s.skip(1).len() implies s.skip(1)[k] != 0x25 by {
            assert(s.skip(1)[k] == s[k + 1]);
        }
        percent_decoded_plain(s.skip(1));
        assert(seq![s[0]] + s.skip(1) =~= s);
    }
}

/// Plain ASCII text without a percent sign stands for itself.
pub proof fn percent_decoded_ascii(s: Seq<char>)
    requires
        is_ascii_chars(s),
        !s.contains('%'),
    ensures
        valid_utf8(percent_decoded(encode_utf8(s))),
        decode_utf8(percent_decoded(encode_utf8(s))) == s,
{
    is_ascii_chars_encode_utf8(s);
    encode_utf8_valid_utf8(s);
    encode_utf8_decode_utf8(s);
    assert forall|k: int| 0 <= k < encode_utf8(s).len() implies encode_utf8(s)[k] != 0x25 by {
        assert(s[k] != '%');
    }
    percent_decoded_plain(encode_utf8(s));
}

/// The hexadecimal digit for a number under 16.
pub open spec fn hex_digit(n: int) -> u8 {
    if n < 10 {
        (0x30 + n) as u8
    } else {
        (0x41 + n - 10) as u8
    }
}

/// Bytes with each of them written as a percent sign and two digits.
pub open spec fn percent_encoded(s: Seq<u8>) -> Seq<u8>
    decreases s.len(),
{
    if s.len() == 0 {
        seq![]
    } else {
        seq![0x25u8, hex_digit(s[0] as int / 16), hex_digit(s[0] as int % 16)] + percent_encoded(
            s.skip(1),
        )
    }
}

/// Whatever the bytes are, they come back when they were percent-encoded.
pub proof fn percent_decoded_encoded(s: Seq<u8>)
    ensures
        percent_decoded(percent_encoded(s)) == s,
    decreases s.len(),
{
    if s.len() > 0 {
        let e = percent_encoded(s);
        percent_decoded_encoded(s.skip(1));
        assert(e.skip(3) =~= percent_encoded(s.skip(1)));
        assert(hex_value(e[1]) == Some(s[0] as int / 16));
        assert(hex_value(e[2]) == Some(s[0] as int % 16));
        assert(seq![s[0]] + s.skip(1) =~= s);
    }
}

/// Bytes as text, with replacement characters in place of what is not UTF-8, as
/// `percent_encoding::PercentDecode::decode_utf8_lossy` has it.
pub uninterp spec fn lossy_text(bytes: Seq<u8>) -> Seq<char>;

/// Runs `percent_encoding::percent_decode_str` and `decode_utf8_lossy` on its
/// result. The contract says which bytes the first one gives, that the second one
/// decodes them where they are UTF-8, and that its result depends on the bytes
/// alone where they are not.
#[verifier::external_body]
fn percent_decode(s: &str) -> (r: String)
    ensures
        r@ == lossy_text(percent_decoded(encode_utf8(s@))),
        valid_utf8(percent_decoded(encode_utf8(s@))) ==> r@ == decode_utf8(
            percent_decoded(encode_utf8(s@)),
        ),
{
    percent_decode_str(s).decode_utf8_lossy().into_owned()
}

/// The address that a request target asks for: its last segment, percent-decoded,
/// with its port.
pub open spec fn target_addr(path: Seq<char>) -> Seq<char> {
    let bytes = percent_decoded(encode_utf8(segment_of(path)));
    upstream_addr(
        if valid_utf8(bytes) {
            decode_utf8(bytes)
        } else {
            lossy_text(bytes)
        },
    )
}

/// The address of the DNS server that a request target asks for.
pub fn requested_upstream(path: &str) -> (r: String)
    ensures
        r@ == target_addr(path@),
        valid_utf8(percent_decoded(encode_utf8(segment_of(path@)))) ==> r@ == upstream_addr(
            decode_utf8(percent_decoded(encode_utf8(segment_of(path@)))),
        ),
        !valid_utf8(percent_decoded(encode_utf8(segment_of(path@)))) ==> r@ == upstream_addr(
            lossy_text(percent_decoded(encode_utf8(segment_of(path@)))),
        ),
{
    let decoded = percent_decode(final_segment(path));
    parse_upstream_addr(decoded.as_str())
}

/// A plain address behind the last slash of a request target is the one that it
/// asks for.
pub proof fn plain_target(front: Seq<char>, addr: Seq<char>, query: Seq<char>)
    requires
        !front.contains('?'),
        is_ascii_chars(addr),
        !addr.contains('?'),
        !addr.contains('/'),
        !addr.contains('%'),
    ensures
        target_addr(front + seq!['/'] + addr) == upstream_addr(addr),
        target_addr(front + seq!['/'] + addr + seq!['?'] + query) == upstream_addr(addr),
{
    segment_of_path(front, addr, query);
    percent_decoded_ascii(addr);
}

/// An address that was percent-encoded, whatever its characters, is the one that a
/// request target with it asks for.
pub proof fn encoded_target(path: Seq<char>, addr: Seq<char>)
    requires
        encode_utf8(segment_of(path)) == percent_encoded(encode_utf8(addr)),
    ensures
        target_addr(path) == upstream_addr(addr),
{
    percent_decoded_encoded(encode_utf8(addr));
    encode_utf8_valid_utf8(addr);
    encode_utf8_decode_utf8(addr);
}

/// What becomes of an address, in all cases. A host without a colon, or in brackets,
/// gets the port 53, with or without a colon behind it. Anything else stays as it is.
pub proof fn port_is_put_behind(s: Seq<char>)
    ensures
        ({
            let colon = exists|i: int| 0 <= i < s.len() && #[trigger] s[i] == ':';
            let port = seq![':', '5', '3'];
            let n = s.len() as int;
            let trailing = n > 0 && s[n - 1] == ':';
            let inner = exists|i: int| 0 <= i < n - 1 && #[trigger] s[i] == ':';
            let bracket = n > 1 && s[n - 2] == ']';
            &&& !colon ==> upstream_addr(s) == s + port
            &&& n > 0 && s[n - 1] == ']' ==> upstream_addr(s) == s + port
            &&& trailing && (!inner || bracket) ==> upstream_addr(s) == s.take(n - 1) + port
            &&& trailing && inner && !bracket ==> upstream_addr(s) == s
            &&& colon && !trailing && s[n - 1] != ']' ==> upstream_addr(s) == s
        }),
{
    reveal_strlit(":53");
    reveal_strlit("53");
    let n = s.len() as int;
    assert(":53"@ =~= seq![':', '5', '3']);
    if n > 0 {
        let t = s.drop_last();
        assert forall|i: int| 0 <= i < n - 1 implies t[i] == #[trigger] s[i] by {}
        if t.contains(':') {
            let i = choose|i: int| 0 <= i < t.len() && t[i] == ':';
            assert(s[i] == ':');
        }
        if s[n - 1] == ':' {
            assert(s + "53"@ =~= s.take(n - 1) + seq![':', '5', '3']);
        }
    }
}

/// A host without a colon keeps any port that is put behind it, and so does a host
/// in brackets, whatever is in them.
pub proof fn given_port_is_kept(host: Seq<char>, port: Seq<char>)
    requires
        !host.contains(':') || host.last() == ']',
        port.len() > 0,
        port.last() != ']',
        port.last() != ':',
    ensures
        upstream_addr(host + seq![':'] + port) == host + seq![':'] + port,
        upstream_addr(host) == host + seq![':', '5', '3'],
        upstream_addr(host + seq![':']) == host + seq![':', '5', '3'],
{
    let s = host + seq![':'] + port;
    assert(s[host.len() as int] == ':');
    assert(s.last() == port.last());
    port_is_put_behind(s);
    reveal_strlit(":53");
    assert(":53"@ =~= seq![':', '5', '3']);
    if host.len() > 0 && host.last() == ':' {
        assert(host[host.len() - 1] == ':');
    }
    empty_port_is_no_port(host);
}

/// A request target without a slash is all segment, up to the question mark.
pub proof fn segment_without_slash(segment: Seq<char>, query: Seq<char>)
    requires
        !segment.contains('?'),
        !segment.contains('/'),
    ensures
        segment_of(segment) == segment,
        segment_of(segment + seq!['?'] + query) == segment,
{
    let q = segment + seq!['?'] + query;
    segment.index_of_first_ensures('?');
    segment.index_of_last_ensures('/');
    q.index_of_first_ensures('?');
    assert(q[segment.len() as int] == '?');
    assert forall|k: int| 0 <= k < segment.len() implies q[k] != '?' by {
        assert(q[k] == segment[k]);
    }
    assert(q.index_of_first('?') == Some(segment.len() as int));
    assert(without_query(q) =~= segment);
}

/// Whether a byte is the hexadecimal digit for a number under 16, in either case.
pub open spec fn is_hex_for(c: u8, n: int) -> bool {
    0 <= n < 16 && (c as char == "0123456789abcdef"@[n] || c as char == "0123456789ABCDEF"@[n])
}

/// Whether bytes of a segment are a way to write a byte: as itself, if it has no
/// meaning of its own there, or as a percent sign and two digits.
pub open spec fn spells(piece: Seq<u8>, b: u8) -> bool {
    ||| piece == seq![b] && b != 0x25 && b != 0x2f && b != 0x3f
    ||| piece.len() == 3 && piece[0] == 0x25 && is_hex_for(piece[1], b as int / 16) && is_hex_for(
        piece[2],
        b as int % 16,
    )
}

/// A digit has the value that it is the digit for, and is no character with a
/// meaning of its own.
proof fn lemma_hex_for(c: u8, n: int)
    requires
        is_hex_for(c, n),
    ensures
        hex_value(c) == Some(n),
        c != 0x2f,
        c != 0x3f,
{
    reveal_strlit("0123456789abcdef");
    reveal_strlit("0123456789ABCDEF");
}

/// Whichever of the bytes are percent-encoded, the same bytes come back.
pub proof fn percent_decoded_spelling(pieces: Seq<Seq<u8>>, bytes: Seq<u8>)
    requires
        pieces.len() == bytes.len(),
        forall|k: int| 0 <= k < bytes.len() ==> spells(#[trigger] pieces[k], bytes[k]),
    ensures
        percent_decoded(joined(pieces)) == bytes,
        !joined(pieces).contains(0x2f),
        !joined(pieces).contains(0x3f),
    decreases pieces.len(),
{
    let s = joined(pieces);
    if pieces.len() > 0 {
        let p = pieces[0];
        let b = bytes[0];
        let tail = joined(pieces.skip(1));
        assert(spells(p, b));
        assert forall|k: int| 0 <= k < bytes.skip(1).len() implies spells(
            #[trigger] pieces.skip(1)[k],
            bytes.skip(1)[k],
        ) by {
            assert(spells(pieces[k + 1], bytes[k + 1]));
        }
        percent_decoded_spelling(pieces.skip(1), bytes.skip(1));
        assert(s == p + tail);
        if p == seq![b] && b != 0x25 && b != 0x2f && b != 0x3f {
            assert(s.skip(1) =~= tail);
        } else {
            lemma_hex_for(p[1], b as int / 16);
            lemma_hex_for(p[2], b as int % 16);
            assert(s.skip(3) =~= tail);
            assert(hex_value(s[1])->0 * 16 + hex_value(s[2])->0 == b);
        }
        assert(seq![b] + bytes.skip(1) =~= bytes);
        assert forall|k: int| 0 <= k < s.len() implies s[k] != 0x2f && s[k] != 0x3f by {
            if k < p.len() {
                assert(s[k] == p[k]);
                assert(p.len() == 1 || p.len() == 3);
                assert(k == 0 || k == 1 || k == 2);
            } else {
                assert(s[k] == tail[k - p.len()]);
            }
        }
    } else {
        assert(s =~= bytes);
    }
}

/// An ASCII character in text is a byte of its UTF-8 form.
proof fn lemma_ascii_in_bytes(s: Seq<char>, c: char)
    requires
        s.contains(c),
        c < 0x80 as char,
    ensures
        encode_utf8(s).contains(c as u8),
{
    let k = choose|k: int| 0 <= k < s.len() && s[k] == c;
    let a = s.take(k);
    let one = seq![c];
    let b = s.skip(k + 1);
    assert(s =~= a + one + b);
    lemma_encode_add(a + one, b);
    lemma_encode_add(a, one);
    is_ascii_chars_encode_utf8(one);
    assert(encode_utf8(s)[encode_utf8(a).len() as int] == c as u8);
}

/// A target asks for an address whichever of its bytes are percent-encoded. `pieces`
/// are the ways in which the bytes of the address are written, one after the other.
pub proof fn spelled_target(
    front: Seq<char>,
    segment: Seq<char>,
    query: Seq<char>,
    addr: Seq<char>,
    pieces: Seq<Seq<u8>>,
)
    requires
        !front.contains('?'),
        pieces.len() == encode_utf8(addr).len(),
        forall|k: int| 0 <= k < pieces.len() ==> spells(#[trigger] pieces[k], encode_utf8(addr)[k]),
        encode_utf8(segment) == joined(pieces),
    ensures
        target_addr(segment) == upstream_addr(addr),
        target_addr(segment + seq!['?'] + query) == upstream_addr(addr),
        target_addr(front + seq!['/'] + segment) == upstream_addr(addr),
        target_addr(front + seq!['/'] + segment + seq!['?'] + query) == upstream_addr(addr),
{
    percent_decoded_spelling(pieces, encode_utf8(addr));
    if segment.contains('/') {
        lemma_ascii_in_bytes(segment, '/');
    }
    if segment.contains('?') {
        lemma_ascii_in_bytes(segment, '?');
    }
    segment_of_path(front, segment, query);
    segment_without_slash(segment, query);
    encode_utf8_valid_utf8(addr);
    encode_utf8_decode_utf8(addr);
}

/// A target whose last segment stands for bytes that are not UTF-8 asks for the text
/// with replacement characters; otherwise it asks for the text that the bytes are.
pub proof fn target_of_bytes(path: Seq<char>, bytes: Seq<u8>)
    requires
        bytes == percent_decoded(encode_utf8(segment_of(path))),
    ensures
        valid_utf8(bytes) ==> target_addr(path) == upstream_addr(decode_utf8(bytes)),
        !valid_utf8(bytes) ==> target_addr(path) == upstream_addr(lossy_text(bytes)),
{
}

/// A percent sign that two hexadecimal digits do not follow stands for itself.
pub proof fn lone_percent_sign(rest: Seq<u8>)
    requires
        rest.len() < 2 || (forall|n: int| !is_hex_for(rest[0], n)) || (forall|n: int|
            !is_hex_for(rest[1], n)),
    ensures
        percent_decoded(seq![0x25u8] + rest) == seq![0x25u8] + percent_decoded(rest),
{
    let s = seq![0x25u8] + rest;
    assert(s.skip(1) =~= rest);
    if rest.len() >= 2 {
        lemma_hex_value(rest[0]);
        lemma_hex_value(rest[1]);
        assert(s[1] == rest[0] && s[2] == rest[1]);
    }
}

proof fn lemma_hex_value(c: u8)
    ensures
        hex_value(c) matches Some(n) ==> is_hex_for(c, n),
{
    reveal_strlit("0123456789abcdef");
    reveal_strlit("0123456789ABCDEF");
}

/// Percent decoding goes from left to right: a byte other than the percent sign stays,
/// and a percent sign with two hexadecimal digits becomes the byte that they are for.
pub proof fn percent_decoded_by_byte(b: u8, h: u8, l: u8, rest: Seq<u8>)
    ensures
        percent_decoded(Seq::<u8>::empty()) == Seq::<u8>::empty(),
        b != 0x25 ==> percent_decoded(seq![b] + rest) == seq![b] + percent_decoded(rest),
        (h as char == "0123456789abcdef"@[b as int / 16] || h as char
            == "0123456789ABCDEF"@[b as int / 16]) && (l as char
            == "0123456789abcdef"@[b as int % 16] || l as char
            == "0123456789ABCDEF"@[b as int % 16]) ==> percent_decoded(
            seq![0x25u8, h, l] + rest,
        ) == seq![b] + percent_decoded(rest),
{
    assert((seq![b] + rest).skip(1) =~= rest);
    let s = seq![0x25u8, h, l] + rest;
    assert(s.skip(3) =~= rest);
    if is_hex_for(h, b as int / 16) && is_hex_for(l, b as int % 16) {
        lemma_hex_for(h, b as int / 16);
        lemma_hex_for(l, b as int % 16);
        assert(s[1] == h && s[2] == l);
        assert(hex_value(s[1])->0 * 16 + hex_value(s[2])->0 == b);
    }
}

} // verus!
