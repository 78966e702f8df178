//! The server's proof that it understood a WebSocket handshake.

use base64ct::{Base64, Encoding};
use sha1::{Digest, Sha1};
use vstd::prelude::*;
use vstd::utf8::{
    encode_utf8, encode_utf8_decode_utf8, is_ascii_chars, is_ascii_chars_encode_utf8,
};

verus! {

/// The text that is hashed together with the client's key (RFC 6455, Section 1.3).
pub const HANDSHAKE_ID: &'static str = "258EAFA5-E914-47DA-95CA-C5AB0DC85B11";

/// The SHA-1 digest of `data`.
pub uninterp spec fn sha1_digest(data: Seq<u8>) -> Seq<u8>;

/// Runs `sha1::Sha1::digest`. The contract names the digest, which depends on the
/// data alone, and gives its length.
#[verifier::external_body]
fn sha1(data: &[u8]) -> (r: Vec<u8>)
    ensures
        r@ == sha1_digest(data@),
        r@.len() == 20,
{
    Sha1::digest(data).to_vec()
}

/// The character that stands for a number under 64 in standard Base64.
pub open spec fn base64_digit(n: int) -> char {
    if n < 26 {
        ('A' as int + n) as char
    } else if n < 52 {
        ('a' as int + n - 26) as char
    } else if n < 62 {
        ('0' as int + n - 52) as char
    } else if n == 62 {
        '+'
    } else {
        '/'
    }
}

/// The bits of a group of three bytes that starts at `at`, as a number; bytes
/// behind the end count as zero.
pub open spec fn base64_group(data: Seq<u8>, at: int) -> int {
    let byte = |i: int|
        if i < data.len() {
            data[i] as int
        } else {
            0
        };
    byte(at) * 65536 + byte(at + 1) * 256 + byte(at + 2)
}

/// Data in standard Base64 with padding (RFC 4648, Section 4): four characters
/// for each three bytes, of which the first stands for the highest six bits.
pub open spec fn base64(data: Seq<u8>) -> Seq<char> {
    Seq::new(
        (data.len() + 2) / 3 * 4,
        |i: int|
            {
                let at = i / 4 * 3;
                if at + i % 4 > data.len() {
                    '='
                } else if i % 4 == 0 {
                    base64_digit(base64_group(data, at) / 262144 % 64)
                } else if i % 4 == 1 {
                    base64_digit(base64_group(data, at) / 4096 % 64)
                } else if i % 4 == 2 {
                    base64_digit(base64_group(data, at) / 64 % 64)
                } else {
                    base64_digit(base64_group(data, at) % 64)
                }
            },
    )
}

/// Runs `base64ct::Base64::encode_string`, which panics on longer input. The
/// contract says that it writes standard Base64 with padding.
#[verifier::external_body]
fn encode_base64(data: &[u8]) -> (r: String)
    requires
        data@.len() <= usize::MAX / 4,
    ensures
        r@ == base64(data@),
{
    Base64::encode_string(data)
}

/// What is hashed for a client's key.
pub open spec fn hashed(key: Seq<char>) -> Seq<u8> {
    encode_utf8(key) + encode_utf8(HANDSHAKE_ID@)
}

/// The accept key for a client's key.
pub open spec fn accept_key(key: Seq<char>) -> Seq<char> {
    base64(sha1_digest(hashed(key)))
}

/// What is hashed for a client's key.
pub fn hash_input(key: &str) -> (r: Vec<u8>)
    ensures
        r@ == hashed(key@),
        r@ == encode_utf8(key@) + encode_utf8("258EAFA5-E914-47DA-95CA-C5AB0DC85B11"@),
{
    let mut data: Vec<u8> = Vec::new();
    data.extend_from_slice(key.as_bytes());
    data.extend_from_slice(HANDSHAKE_ID.as_bytes());
    assert(data@ =~= hashed(key@));
    data
}

/// The accept key for the hash.
pub fn accept_for_digest(digest: &[u8]) -> (r: String)
    requires
        digest@.len() <= usize::MAX / 4,
    ensures
        r@ == base64(digest@),
{
    encode_base64(digest)
}

/// Computes the `Sec-WebSocket-Accept` header value for a given
/// `Sec-WebSocket-Key`, per RFC 6455, Section 1.3.
pub fn compute_accept_key(key: &str) -> (r: String)
    ensures
        r@ == accept_key(key@),
        r@ == base64(
            sha1_digest(
                encode_utf8(key@) + encode_utf8("258EAFA5-E914-47DA-95CA-C5AB0DC85B11"@),
            ),
        ),
        sha1_digest(hashed(key@)).len() == 20,
        r@.len() == 28,
        r@[27] == '=',
        forall|i: int| 0 <= i < 27 ==> r@[i] != '=',
{
    let data = hash_input(key);
    let digest = sha1(data.as_slice());
    accept_for_digest(digest.as_slice())
}

/// What is hashed begins with the bytes of the key, goes on with the 36 bytes of
/// the text that RFC 6455 gives, and has no others.
pub proof fn hashed_bytes(key: Seq<char>)
    ensures
        ({
            let k = encode_utf8(key);
            let id = "258EAFA5-E914-47DA-95CA-C5AB0DC85B11"@;
            &&& hashed(key).len() == k.len() + 36
            &&& forall|i: int| 0 <= i < k.len() ==> #[trigger] hashed(key)[i] == k[i]
            &&& forall|j: int|
                0 <= j < 36 ==> #[trigger] hashed(key)[k.len() + j] as char == id[j]
            &&& hashed(key).take(k.len() as int) == k
            &&& hashed(key).skip(k.len() as int) == encode_utf8(id)
        }),
{
    reveal_strlit("258EAFA5-E914-47DA-95CA-C5AB0DC85B11");
    let id = "258EAFA5-E914-47DA-95CA-C5AB0DC85B11"@;
    let k = encode_utf8(key);
    assert(is_ascii_chars(id));
    is_ascii_chars_encode_utf8(id);
    assert(hashed(key).take(k.len() as int) =~= k);
    assert(hashed(key).skip(k.len() as int) =~= encode_utf8(id));
}

/// Two keys of the same length that are hashed alike are the same, and what is
/// hashed for a key is the key's own bytes ahead of what is hashed for no key.
pub proof fn hashed_keeps_the_key(a: Seq<char>, b: Seq<char>)
    ensures
        hashed(a) == encode_utf8(a) + hashed(seq![]),
        hashed(a) == hashed(b) ==> a == b,
{
    let empty = Seq::<char>::empty();
    assert(encode_utf8(empty) =~= seq![]);
    assert(hashed(a) =~= encode_utf8(a) + hashed(empty));
    if hashed(a) == hashed(b) {
        hashed_bytes(a);
        hashed_bytes(b);
        assert(encode_utf8(a).len() == encode_utf8(b).len());
        assert(encode_utf8(a) == encode_utf8(b));
        encode_utf8_decode_utf8(a);
        encode_utf8_decode_utf8(b);
    }
}

/// The accept key is the Base64 form of the hash of these bytes.
pub proof fn accept_key_of_bytes(key: Seq<char>, data: Seq<u8>)
    requires
        data == encode_utf8(key) + encode_utf8("258EAFA5-E914-47DA-95CA-C5AB0DC85B11"@),
    ensures
        accept_key(key) == base64(sha1_digest(data)),
{
}

/// The digits of Base64 in their order (RFC 4648, Section 4).
pub proof fn base64_alphabet(n: int)
    requires
        0 <= n < 64,
    ensures
        base64_digit(n) == "ABCDEFGHIJKLMNOPQRSTUVWXYZabcdefghijklmnopqrstuvwxyz0123456789+/"@[n],
{
    reveal_strlit("ABCDEFGHIJKLMNOPQRSTUVWXYZabcdefghijklmnopqrstuvwxyz0123456789+/");
}

/// Four characters of Base64 hold the 24 bits of three bytes, the highest six bits
/// first.
pub proof fn base64_holds_bits(data: Seq<u8>, q: int) -> (digits: (int, int, int, int))
    requires
        0 <= q,
        3 * q + 3 <= data.len(),
    ensures
        0 <= digits.0 < 64,
        0 <= digits.1 < 64,
        0 <= digits.2 < 64,
        0 <= digits.3 < 64,
        base64(data)[4 * q] == base64_digit(digits.0),
        base64(data)[4 * q + 1] == base64_digit(digits.1),
        base64(data)[4 * q + 2] == base64_digit(digits.2),
        base64(data)[4 * q + 3] == base64_digit(digits.3),
        digits.0 * 262144 + digits.1 * 4096 + digits.2 * 64 + digits.3 == data[3 * q] * 65536
            + data[3 * q + 1] * 256 + data[3 * q + 2],
{
    let bits = base64_group(data, 3 * q);
    lemma_six_bits(bits);
    let text = base64(data);
    assert(text.len() >= 4 * q + 4);
    assert((4 * q) / 4 == q && (4 * q) % 4 == 0);
    assert((4 * q + 1) / 4 == q && (4 * q + 1) % 4 == 1);
    assert((4 * q + 2) / 4 == q && (4 * q + 2) % 4 == 2);
    assert((4 * q + 3) / 4 == q && (4 * q + 3) % 4 == 3);
    (bits / 262144 % 64, bits / 4096 % 64, bits / 64 % 64, bits % 64)
}

/// 24 bits fall into four times six.
proof fn lemma_six_bits(bits: int)
    requires
        0 <= bits < 16777216,
    ensures
        bits / 262144 % 64 * 262144 + bits / 4096 % 64 * 4096 + bits / 64 % 64 * 64 + bits % 64
            == bits,
{
    assert(bits / 4096 == bits / 64 / 64);
    assert(bits / 262144 == bits / 4096 / 64);
    assert(bits / 64 == bits / 4096 * 64 + bits / 64 % 64);
    assert(bits / 4096 == bits / 262144 * 64 + bits / 4096 % 64);
}

/// One or two bytes behind the last three take four characters more, with zeros for
/// the bits that are missing and padding for the digits that hold none.
pub proof fn base64_pads(data: Seq<u8>) -> (digits: (int, int, int))
    requires
        data.len() % 3 != 0,
    ensures
        ({
            let q = data.len() as int / 3;
            let text = base64(data);
            &&& text.len() == 4 * q + 4
            &&& 0 <= digits.0 < 64 && 0 <= digits.1 < 64 && 0 <= digits.2 < 64
            &&& text[4 * q] == base64_digit(digits.0)
            &&& text[4 * q + 1] == base64_digit(digits.1)
            &&& text[4 * q + 3] == '='
            &&& data.len() == 3 * q + 1 ==> text[4 * q + 2] == '=' && digits.0 * 64 + digits.1
                == data[3 * q] * 16
            &&& data.len() == 3 * q + 2 ==> text[4 * q + 2] == base64_digit(digits.2) && digits.0
                * 4096 + digits.1 * 64 + digits.2 == (data[3 * q] * 256 + data[3 * q + 1]) * 4
        }),
{
    let q = data.len() as int / 3;
    let bits = base64_group(data, 3 * q);
    assert((4 * q) / 4 == q && (4 * q + 1) / 4 == q && (4 * q + 2) / 4 == q && (4 * q + 3) / 4
        == q);
    assert(bits / 64 == bits / 4096 * 64 + bits / 64 % 64);
    assert(bits / 4096 == bits / 262144 * 64 + bits / 4096 % 64);
    assert(data.len() == 3 * q + 1 ==> bits == data[3 * q] * 65536);
    assert(data.len() == 3 * q + 2 ==> bits == data[3 * q] * 65536 + data[3 * q + 1] * 256);
    (bits / 262144 % 64, bits / 4096 % 64, bits / 64 % 64)
}

/// Whole groups of three bytes take four characters each, and nothing else.
pub proof fn base64_length(data: Seq<u8>)
    requires
        data.len() % 3 == 0,
    ensures
        base64(data).len() * 3 == data.len() * 4,
{
}

} // verus!
