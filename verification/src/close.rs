//! Close frames, with which the proxy ends a WebSocket connection.

use vstd::prelude::*;
use vstd::slice::slice_subrange;
use vstd::utf8::{
    encode_scalar, encode_utf8, encode_utf8_first_scalar, encode_utf8_valid_utf8,
    is_ascii_chars_encode_utf8, is_char_boundary, is_char_boundary_start_end_of_seq,
    length_of_first_scalar, pop_first_scalar,
};

use crate::framing::{be16, CLOSE, FIN};

verus! {

/// The most bytes that the reason in a close frame can have: a control frame
/// carries at most 125 bytes, and the first 2 are the code.
pub const MAX_REASON: usize = 123;

/// The most bytes of a longer reason that are sent, with `...` behind them.
pub const MAX_CUT_REASON: usize = 120;

/// The longest prefix of `text` that takes up at most `room` bytes in UTF-8.
pub open spec fn fitting(text: Seq<char>, room: int) -> Seq<char>
    decreases text.len(),
{
    if text.len() == 0 || encode_scalar(text[0] as u32).len() > room {
        seq![]
    } else {
        seq![text[0]] + fitting(text.drop_first(), room - encode_scalar(text[0] as u32).len())
    }
}

/// The reason as a close frame gives it: as it is, or cut short between two
/// characters, with `...` to show it.
pub open spec fn close_reason(reason: Seq<char>) -> Seq<char> {
    if encode_utf8(reason).len() <= MAX_REASON {
        reason
    } else {
        fitting(reason, MAX_CUT_REASON as int) + "..."@
    }
}

/// A server-to-client close frame (RFC 6455, Section 5.5.1).
pub open spec fn close_message(code: u16, reason: Seq<char>) -> Seq<u8> {
    let text = encode_utf8(close_reason(reason));
    seq![FIN | CLOSE, (text.len() + 2) as u8] + be16(code as int) + text
}

/// UTF-8 encodes character by character.
pub proof fn lemma_encode_add(a: Seq<char>, b: Seq<char>)
    ensures
        encode_utf8(a + b) == encode_utf8(a) + encode_utf8(b),
    decreases a.len(),
{
    if a.len() == 0 {
        assert(a + b =~= b);
        assert(encode_utf8(a) + encode_utf8(b) =~= encode_utf8(b));
    } else {
        assert((a + b).drop_first() =~= a.drop_first() + b);
        lemma_encode_add(a.drop_first(), b);
        assert(encode_utf8(a + b) =~= encode_utf8(a) + encode_utf8(b));
    }
}

/// The longest prefix that fits ends at the last character boundary within the
/// room there is.
proof fn lemma_fitting(text: Seq<char>, room: int)
    requires
        0 <= room,
    ensures
        ({
            let bytes = encode_utf8(text);
            let n = encode_utf8(fitting(text, room)).len() as int;
            &&& n <= room
            &&& n <= bytes.len()
            &&& encode_utf8(fitting(text, room)) == bytes.take(n)
            &&& is_char_boundary(bytes, n)
            &&& forall|k: int| n < k <= room ==> !is_char_boundary(bytes, k)
        }),
    decreases text.len(),
{
    let bytes = encode_utf8(text);
    encode_utf8_valid_utf8(text);
    is_char_boundary_start_end_of_seq(bytes);
    if text.len() == 0 {
        assert(bytes.take(0) =~= bytes);
    } else {
        let width = encode_scalar(text[0] as u32).len() as int;
        let rest = text.drop_first();
        encode_utf8_first_scalar(text);
        encode_utf8_valid_utf8(rest);
        assert(pop_first_scalar(bytes) =~= encode_utf8(rest));
        assert(length_of_first_scalar(bytes) == width);
        if width > room {
            assert(bytes.take(0) =~= encode_utf8(fitting(text, room)));
            assert forall|k: int| 0 < k <= room implies !is_char_boundary(bytes, k) by {
                reveal_with_fuel(is_char_boundary, 2);
            }
        } else {
            lemma_fitting(rest, room - width);
            let tail = fitting(rest, room - width);
            let n = encode_utf8(tail).len() as int;
            assert((seq![text[0]] + tail).drop_first() =~= tail);
            assert(encode_utf8(fitting(text, room)) =~= bytes.take(width + n));
            assert forall|k: int| width + n < k <= room implies !is_char_boundary(bytes, k) by {
                assert(!is_char_boundary(encode_utf8(rest), k - width));
            }
            assert(is_char_boundary(encode_utf8(rest), n));
        }
    }
}

/// Builds a server-to-client WebSocket close frame (RFC 6455,
/// Section 5.5.1) with the given status `code` and `reason` into `buf`,
/// returning the written slice. It is truncated to fit the 125-byte
/// control-frame payload limit.
pub fn close_frame<'a>(buf: &'a mut [u8; 127], code: u16, reason: &str) -> (frame: &'a [u8])
    ensures
        frame@ == close_message(code, reason@),
        final(buf)@ == frame@ + if encode_utf8(reason@).len() <= MAX_REASON {
            old(buf)@.skip(frame@.len() as int)
        } else {
            encode_utf8(reason@).subrange(frame@.len() - 4, MAX_REASON as int)
        },
{
    let bytes = reason.as_bytes();
    let cut = bytes.len() > MAX_REASON;
    let stored = if cut {
        MAX_REASON
    } else {
        bytes.len()
    };
    for i in 0..stored
        invariant
            stored <= bytes@.len(),
            stored <= MAX_REASON,
            forall|j: int| 0 <= j < i ==> buf@[4 + j] == bytes@[j],
            forall|j: int| 4 + stored <= j < 127 ==> buf@[j] == old(buf)@[j],
    {
        buf[4 + i] = bytes[i];
    }
    let mut len = stored;
    if cut {
        len = MAX_CUT_REASON;
        proof {
            lemma_fitting(reason@, MAX_CUT_REASON as int);
            encode_utf8_valid_utf8(reason@);
            is_char_boundary_start_end_of_seq(bytes@);
        }
        let ghost n = encode_utf8(fitting(reason@, MAX_CUT_REASON as int)).len() as int;
        // Truncation may have split a multi-byte character
        while !reason.is_char_boundary(len)
            invariant
                0 <= n <= len <= MAX_CUT_REASON,
                is_char_boundary(encode_utf8(reason@), n),
            decreases len,
        {
            len -= 1;
        }
        assert(len == n);
        // trailer to indicate truncation
        buf[4 + len] = 46;
        buf[5 + len] = 46;
        buf[6 + len] = 46;
        len += 3;
    }
    buf[0] = FIN | CLOSE;
    buf[1] = (len + 2) as u8;
    buf[2] = (code / 256) as u8;
    buf[3] = (code % 256) as u8;
    proof {
        reveal_strlit("...");
        if cut {
            lemma_encode_add(fitting(reason@, MAX_CUT_REASON as int), "..."@);
            is_ascii_chars_encode_utf8("..."@);
        }
        assert(buf@.take(4 + len) =~= close_message(code, reason@));
    }
    slice_subrange(buf.as_slice(), 0, 4 + len)
}

/// A close frame is within the limits of a control frame, whatever the reason:
/// its payload is at most 125 bytes. The reason in it is the given one, or as many
/// whole characters of it as there is room for, with `...` behind them.
pub proof fn close_message_fits(code: u16, reason: Seq<char>)
    ensures
        ({
            let kept = fitting(reason, MAX_CUT_REASON as int);
            let payload = close_message(code, reason).skip(2);
            &&& payload.len() <= 125
            &&& close_message(code, reason)[1] == payload.len()
            &&& payload == be16(code as int) + encode_utf8(close_reason(reason))
            &&& close_reason(reason) == reason || close_reason(reason) == kept + "..."@
            &&& kept.is_prefix_of(reason)
            &&& kept == reason || encode_utf8(reason.take(kept.len() as int + 1)).len() > MAX_CUT_REASON
        }),
{
    let kept = fitting(reason, MAX_CUT_REASON as int);
    lemma_fitting(reason, MAX_CUT_REASON as int);
    lemma_fitting_is_longest(reason, MAX_CUT_REASON as int);
    reveal_strlit("...");
    lemma_encode_add(kept, "..."@);
    is_ascii_chars_encode_utf8("..."@);
    assert(close_message(code, reason).skip(2) =~= be16(code as int) + encode_utf8(
        close_reason(reason),
    ));
}

proof fn lemma_fitting_is_longest(text: Seq<char>, room: int)
    requires
        0 <= room,
    ensures
        ({
            let kept = fitting(text, room);
            &&& kept.is_prefix_of(text)
            &&& kept == text || encode_utf8(text.take(kept.len() as int + 1)).len() > room
        }),
    decreases text.len(),
{
    let kept = fitting(text, room);
    if text.len() > 0 {
        let width = encode_scalar(text[0] as u32).len() as int;
        let more = text.take(kept.len() as int + 1);
        if width <= room {
            let rest = text.drop_first();
            let tail = fitting(rest, room - width);
            lemma_fitting_is_longest(rest, room - width);
            if tail.len() == rest.len() {
                assert(kept =~= text);
            } else {
                assert(more[0] == text[0]);
                assert(more.drop_first() =~= rest.take(tail.len() as int + 1));
            }
        } else {
            assert(more[0] == text[0]);
        }
    } else {
        assert(kept =~= text);
    }
}

/// The bytes of a close frame: a final close frame without a mask, its length, the
/// code with the more significant byte first, and then the reason in UTF-8. It is
/// all of the reason if that has at most 123 bytes. Otherwise it is the reason up
/// to the last character that ends within 120 bytes, and three full stops.
pub proof fn close_message_bytes(code: u16, reason: Seq<char>)
    ensures
        ({
            let f = close_message(code, reason);
            let shown = f.skip(4);
            &&& 4 <= f.len() <= 127
            &&& f[0] == 0x88
            &&& f[1] == f.len() - 2
            &&& f[2] * 256 + f[3] == code
            &&& encode_utf8(reason).len() <= 123 ==> shown == encode_utf8(reason)
            &&& encode_utf8(reason).len() > 123 ==> exists|k: int|
                {
                    &&& 0 <= k < reason.len()
                    &&& shown == #[trigger] encode_utf8(reason.take(k)) + seq![46u8, 46u8, 46u8]
                    &&& encode_utf8(reason.take(k)).len() <= 120
                    &&& encode_utf8(reason.take(k + 1)).len() > 120
                }
        }),
{
    let f = close_message(code, reason);
    let shown = f.skip(4);
    let kept = fitting(reason, MAX_CUT_REASON as int);
    assert(0x80u8 | 0x8u8 == 0x88) by (bit_vector);
    close_message_fits(code, reason);
    lemma_fitting(reason, MAX_CUT_REASON as int);
    reveal_strlit("...");
    lemma_encode_add(kept, "..."@);
    is_ascii_chars_encode_utf8("..."@);
    assert(encode_utf8("..."@) =~= seq![46u8, 46u8, 46u8]);
    assert(shown =~= encode_utf8(close_reason(reason)));
    if encode_utf8(reason).len() > 123 {
        let k = kept.len() as int;
        assert(reason.take(k) =~= kept);
        if k == reason.len() {
            assert(kept =~= reason);
        }
        assert(encode_utf8(kept).len() <= 120);
        assert(encode_utf8(reason.take(k + 1)).len() > 120);
        assert(shown == encode_utf8(reason.take(k)) + seq![46u8, 46u8, 46u8]);
    }
}

} // verus!
