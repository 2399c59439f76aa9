//! Line terminators in text and in its UTF-8 bytes.
//!
//! A line of the wire format ends at the first CR LF pair of bytes. Such a
//! pair can only come from the two characters CR and LF next to each other:
//! every byte of a longer encoding has its high bit set.

use vstd::prelude::*;
use vstd::utf8::{char_is_scalar, char_u32_cast, encode_scalar, encode_utf8, is_scalar};

verus! {

/// Carriage return, the first byte of a line terminator.
pub const CR: u8 = 0x0d;

/// Line feed, the second byte of a line terminator.
pub const LF: u8 = 0x0a;

/// Whether a line terminator stands at index `i` of `s`.
pub open spec fn ends_line_at(s: Seq<u8>, i: int) -> bool {
    0 <= i && i + 1 < s.len() && s[i] == CR && s[i + 1] == LF
}

/// Whether `s` holds a line terminator anywhere.
pub open spec fn has_crlf(s: Seq<u8>) -> bool {
    exists|i: int| ends_line_at(s, i)
}

/// Whether the characters CR and LF stand at index `i` of `text` and right
/// after it.
pub open spec fn breaks_line_at(text: Seq<char>, i: int) -> bool {
    0 <= i && i + 1 < text.len() && text[i] == '\r' && text[i + 1] == '\n'
}

/// Whether `text` holds a carriage return directly followed by a line feed.
pub open spec fn breaks_line(text: Seq<char>) -> bool {
    exists|i: int| breaks_line_at(text, i)
}

/// The encoding of an ASCII character is that one byte; every byte of the
/// encoding of any other character has its high bit set.
proof fn lemma_scalar_bytes(c: u32)
    requires
        is_scalar(c),
    ensures
        1 <= encode_scalar(c).len() <= 4,
        c <= 0x7f ==> encode_scalar(c) == seq![c as u8],
        c > 0x7f ==> forall|j: int|
            0 <= j < encode_scalar(c).len() ==> #[trigger] encode_scalar(c)[j] >= 0x80,
{
    assert(c <= 0x7f ==> (c & 0x7F) as u8 == c as u8) by (bit_vector);
    assert((0xC0u8 | ((c >> 6) & 0x1F) as u8) >= 0x80) by (bit_vector);
    assert((0xE0u8 | ((c >> 12) & 0x0F) as u8) >= 0x80) by (bit_vector);
    assert((0xF0u8 | ((c >> 18) & 0x7) as u8) >= 0x80) by (bit_vector);
    assert((0x80u8 | (c & 0x3F) as u8) >= 0x80) by (bit_vector);
    assert((0x80u8 | ((c >> 6) & 0x3F) as u8) >= 0x80) by (bit_vector);
    assert((0x80u8 | ((c >> 12) & 0x3F) as u8) >= 0x80) by (bit_vector);
}

/// The first byte of the encoding of a text is CR or LF exactly where the
/// first character is.
proof fn lemma_first_byte(text: Seq<char>)
    requires
        text.len() > 0,
    ensures
        encode_utf8(text).len() > 0,
        encode_utf8(text)[0] == CR <==> text[0] == '\r',
        encode_utf8(text)[0] == LF <==> text[0] == '\n',
{
    let c = text[0] as u32;
    char_is_scalar(text[0]);
    lemma_scalar_bytes(c);
    char_u32_cast(text[0], c);
    char_u32_cast('\r', 0x0du32);
    char_u32_cast('\n', 0x0au32);
}

/// The bytes of a text hold a line terminator exactly where the text holds
/// the characters CR and LF next to each other.
pub proof fn lemma_crlf_in_text(text: Seq<char>)
    ensures
        has_crlf(encode_utf8(text)) <==> breaks_line(text),
    decreases text.len(),
{
    let bytes = encode_utf8(text);
    if text.len() == 0 {
        assert forall|i: int| !breaks_line_at(text, i) by {}
        assert forall|i: int| !ends_line_at(bytes, i) by {}
    } else {
        let c = text[0] as u32;
        let head = encode_scalar(c);
        let others = text.drop_first();
        let tail = encode_utf8(others);
        char_is_scalar(text[0]);
        lemma_scalar_bytes(c);
        lemma_first_byte(text);
        lemma_crlf_in_text(others);
        let n = head.len() as int;
        if has_crlf(bytes) {
            let i = choose|i: int| ends_line_at(bytes, i);
            if i + 1 == n {
                lemma_first_byte(others);
                assert(breaks_line_at(text, 0));
            } else if i + 1 > n {
                assert(ends_line_at(tail, i - n));
                let j = choose|j: int| breaks_line_at(others, j);
                assert(breaks_line_at(text, j + 1));
            }
        }
        if breaks_line(text) {
            let i = choose|i: int| breaks_line_at(text, i);
            if i == 0 {
                lemma_first_byte(others);
                assert(ends_line_at(bytes, 0));
            } else {
                assert(breaks_line_at(others, i - 1));
                let j = choose|j: int| ends_line_at(tail, j);
                assert(ends_line_at(bytes, n + j));
            }
        }
    }
}

} // verus!
