//! The wire format: which bytes stand for which value.
//!
//! Every unit starts with a line: a tag byte, a header, and the two bytes CR
//! and LF. A bulk string carries its payload after that line, an array the
//! encodings of its items.

use vstd::prelude::*;
use vstd::utf8::{
    decode_utf8, decode_utf8_encode_utf8, encode_utf8, encode_utf8_decode_utf8,
    encode_utf8_valid_utf8, valid_utf8,
};
use crate::decimal::{digits_value, lemma_numeral, numeral, signed_text, MINUS};
use crate::text::{breaks_line, ends_line_at, has_crlf, lemma_crlf_in_text, CR, LF};
use crate::value::Model;

verus! {

/// The tag `+` of a simple string.
pub const TAG_SIMPLE: u8 = 0x2b;

/// The tag `-` of an error.
pub const TAG_ERROR: u8 = 0x2d;

/// The tag `$` of a bulk string and of the null value.
pub const TAG_BULK: u8 = 0x24;

/// The tag `*` of an array.
pub const TAG_ARRAY: u8 = 0x2a;

/// The line terminator.
pub open spec fn crlf() -> Seq<u8> {
    seq![CR, LF]
}

/// The bytes that stand for `v` on the wire.
pub open spec fn wire(v: Model) -> Seq<u8>
    decreases v,
{
    match v {
        Model::SimpleString(text) => seq![TAG_SIMPLE] + encode_utf8(text) + crlf(),
        Model::Error(text) => seq![TAG_ERROR] + encode_utf8(text) + crlf(),
        Model::BulkString(text) => seq![TAG_BULK] + numeral(encode_utf8(text).len()) + crlf()
            + encode_utf8(text) + crlf(),
        Model::NullValue => seq![TAG_BULK, MINUS, 0x31u8] + crlf(),
        Model::Array(items) => seq![TAG_ARRAY] + numeral(items.len()) + crlf() + wire_all(items),
    }
}

/// The encodings of `items`, one after the other.
pub open spec fn wire_all(items: Seq<Model>) -> Seq<u8>
    decreases items,
{
    if items.len() == 0 {
        Seq::<u8>::empty()
    } else {
        wire(items[0]) + wire_all(items.drop_first())
    }
}

/// Why bytes cannot be read as a value.
#[derive(Clone, Copy, Debug, PartialEq, Eq, Structural)]
pub enum ProtocolError {
    /// The line does not begin with one of the four tags.
    UnknownTag,
    /// The header is not an integer, or not one that a length can be.
    InvalidLength,
    /// The payload of a bulk string is not followed by a line terminator.
    MissingTerminator,
    /// The bytes of a string are not UTF-8 text.
    InvalidText,
    /// The stream ended in the middle of a value.
    Truncated,
}

/// What the front of a byte sequence holds.
pub enum Parsed<T> {
    /// A whole unit, which takes the first `len` bytes.
    Complete { value: T, len: nat },
    /// The beginning of a unit, or nothing at all: more bytes may complete it.
    Incomplete,
    /// Bytes that begin no unit, whatever follows them.
    Invalid(ProtocolError),
}

/// The index of the first line terminator in `s`, if it holds one.
pub open spec fn line_end(s: Seq<u8>) -> Option<int>
    decreases s.len(),
{
    if s.len() < 2 {
        None
    } else if s[0] == CR && s[1] == LF {
        Some(0)
    } else {
        match line_end(s.drop_first()) {
            Some(i) => Some(i + 1),
            None => None,
        }
    }
}

/// The index that [`line_end`] gives is that of a line terminator, and no
/// terminator stands before it; it gives none only where there is none.
pub proof fn lemma_line_end(s: Seq<u8>)
    ensures
        match line_end(s) {
            Some(n) => ends_line_at(s, n) && forall|j: int| 0 <= j < n ==> !ends_line_at(s, j),
            None => !has_crlf(s),
        },
    decreases s.len(),
{
    if s.len() < 2 {
    } else if s[0] == CR && s[1] == LF {
    } else {
        let t = s.drop_first();
        lemma_line_end(t);
        assert forall|j: int| ends_line_at(t, j) == ends_line_at(s, j + 1) by {}
        match line_end(t) {
            Some(m) => {
                assert forall|j: int| 0 <= j < m + 1 implies !ends_line_at(s, j) by {
                    if j > 0 {
                        assert(!ends_line_at(t, j - 1));
                    }
                }
            },
            None => {
                assert forall|j: int| !ends_line_at(s, j) by {
                    if j > 0 {
                        assert(!ends_line_at(t, j - 1));
                    }
                }
            },
        }
    }
}

/// The first line terminator of `s` is what [`line_end`] gives.
pub proof fn lemma_first_line_end(s: Seq<u8>, n: int)
    requires
        ends_line_at(s, n),
        forall|j: int| 0 <= j < n ==> !ends_line_at(s, j),
    ensures
        line_end(s) == Some(n),
{
    lemma_line_end(s);
}

/// The text that `bytes` are the UTF-8 encoding of, if they are one.
pub open spec fn text_of(bytes: Seq<u8>) -> Option<Seq<char>> {
    if valid_utf8(bytes) {
        Some(decode_utf8(bytes))
    } else {
        None
    }
}

/// The length that a header announces: a signed decimal integer that is
/// either -1 or a number of at most 64 bits.
pub open spec fn length_of(header: Seq<u8>) -> Option<int> {
    match signed_text(header) {
        Some(k) if -1 <= k <= u64::MAX => Some(k),
        _ => None,
    }
}

/// What a string line holds: the text after the tag.
pub open spec fn parse_line(header: Seq<u8>, error: bool, used: nat) -> Parsed<Model> {
    match text_of(header) {
        Some(text) => Parsed::Complete {
            value: if error {
                Model::Error(text)
            } else {
                Model::SimpleString(text)
            },
            len: used,
        },
        None => Parsed::Invalid(ProtocolError::InvalidText),
    }
}

/// What a bulk header and the bytes after its line hold. The header line took
/// `used` bytes.
pub open spec fn parse_bulk(header: Seq<u8>, body: Seq<u8>, used: nat) -> Parsed<Model> {
    match length_of(header) {
        None => Parsed::Invalid(ProtocolError::InvalidLength),
        Some(k) => if k == -1 {
            Parsed::Complete { value: Model::NullValue, len: used }
        } else if body.len() < k + 2 {
            Parsed::Incomplete
        } else if !(body[k] == CR && body[k + 1] == LF) {
            Parsed::Invalid(ProtocolError::MissingTerminator)
        } else {
            match text_of(body.take(k)) {
                Some(text) => Parsed::Complete {
                    value: Model::BulkString(text),
                    len: (used + k + 2) as nat,
                },
                None => Parsed::Invalid(ProtocolError::InvalidText),
            }
        },
    }
}

/// What the front of `s` holds: one line with a tag and a header, and what
/// the tag says comes after it.
pub open spec fn parse(s: Seq<u8>) -> Parsed<Model>
    decreases s.len(), 0nat,
{
    match line_end(s) {
        None => Parsed::Incomplete,
        Some(n) => {
            proof {
                lemma_line_end(s);
            }
            let line = s.take(n);
            let header = line.skip(1);
            let body = s.skip(n + 2);
            let used = (n + 2) as nat;
            if line.len() == 0 {
                Parsed::Invalid(ProtocolError::UnknownTag)
            } else if line[0] == TAG_SIMPLE {
                parse_line(header, false, used)
            } else if line[0] == TAG_ERROR {
                parse_line(header, true, used)
            } else if line[0] == TAG_BULK {
                parse_bulk(header, body, used)
            } else if line[0] == TAG_ARRAY {
                match length_of(header) {
                    Some(k) if k >= 0 => array_of(used, parse_items(body, k as nat)),
                    _ => Parsed::Invalid(ProtocolError::InvalidLength),
                }
            } else {
                Parsed::Invalid(ProtocolError::UnknownTag)
            }
        },
    }
}

/// The outcome for an array whose header line took `used` bytes and whose
/// items gave the outcome `items`.
pub open spec fn array_of(used: nat, items: Parsed<Seq<Model>>) -> Parsed<Model> {
    match items {
        Parsed::Complete { value, len } => Parsed::Complete {
            value: Model::Array(value),
            len: used + len,
        },
        Parsed::Incomplete => Parsed::Incomplete,
        Parsed::Invalid(e) => Parsed::Invalid(e),
    }
}

/// What the front of `s` holds when `count` units are expected one after the
/// other. A unit never takes more bytes than there are ([`lemma_parse_len`]),
/// so the test on `len` always succeeds; it is there to show that the
/// definition terminates.
pub open spec fn parse_items(s: Seq<u8>, count: nat) -> Parsed<Seq<Model>>
    decreases s.len(), count + 1,
{
    if count == 0 {
        Parsed::Complete { value: Seq::<Model>::empty(), len: 0 }
    } else {
        match parse(s) {
            Parsed::Complete { value, len } => if len <= s.len() {
                after(seq![value], len, parse_items(s.skip(len as int), (count - 1) as nat))
            } else {
                Parsed::Incomplete
            },
            Parsed::Incomplete => Parsed::Incomplete,
            Parsed::Invalid(e) => Parsed::Invalid(e),
        }
    }
}

/// The outcome for a run of units of which the first ones, `front`, have been
/// read from `used` bytes, and `rest` is the outcome for the others.
pub open spec fn after(front: Seq<Model>, used: nat, rest: Parsed<Seq<Model>>) -> Parsed<
    Seq<Model>,
> {
    match rest {
        Parsed::Complete { value, len } => Parsed::Complete {
            value: front + value,
            len: used + len,
        },
        Parsed::Incomplete => Parsed::Incomplete,
        Parsed::Invalid(e) => Parsed::Invalid(e),
    }
}

/// Reading some units, then some more, then the rest gives what reading the
/// first two runs as one and then the rest gives.
pub proof fn lemma_after_after(
    a: Seq<Model>,
    used_a: nat,
    b: Seq<Model>,
    used_b: nat,
    rest: Parsed<Seq<Model>>,
)
    ensures
        after(a, used_a, after(b, used_b, rest)) == after(a + b, used_a + used_b, rest),
{
    match rest {
        Parsed::Complete { value, len } => {
            assert(a + (b + value) =~= (a + b) + value);
        },
        _ => {},
    }
}

/// A unit takes at least one byte and never more than there are.
pub proof fn lemma_parse_len(s: Seq<u8>)
    ensures
        parse(s) matches Parsed::Complete { len, .. } ==> 0 < len <= s.len(),
    decreases s.len(), 0nat,
{
    lemma_line_end(s);
    match line_end(s) {
        None => {},
        Some(n) => {
            let line = s.take(n);
            let header = line.skip(1);
            if line.len() > 0 && line[0] == TAG_ARRAY {
                match length_of(header) {
                    Some(k) if k >= 0 => {
                        lemma_parse_items_len(s.skip(n + 2), k as nat);
                    },
                    _ => {},
                }
            }
        },
    }
}

/// A run of `count` units holds `count` values and never takes more bytes than
/// there are.
pub proof fn lemma_parse_items_len(s: Seq<u8>, count: nat)
    ensures
        parse_items(s, count) matches Parsed::Complete { value, len } ==> len <= s.len()
            && value.len() == count,
    decreases s.len(), count + 1,
{
    if count > 0 {
        lemma_parse_len(s);
        match parse(s) {
            Parsed::Complete { value, len } => {
                lemma_parse_items_len(s.skip(len as int), (count - 1) as nat);
            },
            _ => {},
        }
    }
}

/// More bytes never change what was found: where the front of `s` holds a
/// whole unit, or bytes that begin no unit, the same is found when `more`
/// follows `s`. Only an incomplete unit is open to what comes next.
pub proof fn lemma_parse_stable(s: Seq<u8>, more: Seq<u8>)
    ensures
        !(parse(s) is Incomplete) ==> parse(s + more) == parse(s),
    decreases s.len(), 0nat,
{
    if !(parse(s) is Incomplete) {
        lemma_line_end(s);
        let n = line_end(s)->0;
        let longer = s + more;
        assert forall|j: int| 0 <= j < n implies !ends_line_at(longer, j) by {
            assert(!ends_line_at(s, j));
        }
        lemma_first_line_end(longer, n);
        let line = s.take(n);
        let header = line.skip(1);
        let body = s.skip(n + 2);
        assert(longer.take(n) =~= line);
        assert(longer.skip(n + 2) =~= body + more);
        if line.len() > 0 && line[0] == TAG_BULK {
            match length_of(header) {
                Some(k) if k >= 0 => {
                    assert((body + more).take(k) =~= body.take(k));
                },
                _ => {},
            }
        } else if line.len() > 0 && line[0] == TAG_ARRAY {
            match length_of(header) {
                Some(k) if k >= 0 => {
                    lemma_parse_items_stable(body, more, k as nat);
                },
                _ => {},
            }
        }
    }
}

/// More bytes never change what was found in a run of units either.
pub proof fn lemma_parse_items_stable(s: Seq<u8>, more: Seq<u8>, count: nat)
    ensures
        !(parse_items(s, count) is Incomplete) ==> parse_items(s + more, count) == parse_items(
            s,
            count,
        ),
    decreases s.len(), count + 1,
{
    if count > 0 && !(parse_items(s, count) is Incomplete) {
        lemma_parse_stable(s, more);
        lemma_parse_len(s);
        match parse(s) {
            Parsed::Complete { value, len } => {
                assert((s + more).skip(len as int) =~= s.skip(len as int) + more);
                lemma_parse_items_stable(s.skip(len as int), more, (count - 1) as nat);
            },
            _ => {},
        }
    }
}

impl Model {
    /// Whether no status line and no error message in the value holds a
    /// carriage return directly followed by a line feed. A line that holds one
    /// is cut short there when it is read back.
    pub open spec fn unbroken(self) -> bool
        decreases self,
    {
        match self {
            Model::SimpleString(text) => !breaks_line(text),
            Model::Error(text) => !breaks_line(text),
            Model::BulkString(text) => true,
            Model::NullValue => true,
            Model::Array(items) => forall|i: int|
                0 <= i < items.len() ==> (#[trigger] items[i]).unbroken(),
        }
    }

    /// Whether every length in the value can stand in a header: no bulk
    /// string has more than `u64::MAX` bytes and no array more than
    /// `u64::MAX` items. This holds of every value that fits in memory.
    pub open spec fn sized(self) -> bool
        decreases self,
    {
        match self {
            Model::SimpleString(text) => true,
            Model::Error(text) => true,
            Model::BulkString(text) => encode_utf8(text).len() <= u64::MAX,
            Model::NullValue => true,
            Model::Array(items) => items.len() <= u64::MAX && forall|i: int|
                0 <= i < items.len() ==> (#[trigger] items[i]).sized(),
        }
    }
}

/// A header line made of a tag that is not CR and a numeral ends right after
/// the numeral, whatever follows the line.
proof fn lemma_numeral_line(tag: u8, n: nat, tail: Seq<u8>)
    requires
        tag != CR,
        n <= u64::MAX,
    ensures
        ({
            let s = seq![tag] + numeral(n) + crlf() + tail;
            let end = (1 + numeral(n).len()) as int;
            &&& line_end(s) == Some(end)
            &&& s.take(end).skip(1) == numeral(n)
            &&& s.take(end)[0] == tag
            &&& s.skip(end + 2) == tail
            &&& length_of(numeral(n)) == Some(n as int)
        }),
{
    let s = seq![tag] + numeral(n) + crlf() + tail;
    let end = (1 + numeral(n).len()) as int;
    lemma_numeral(n);
    assert forall|j: int| 0 <= j < end implies !ends_line_at(s, j) by {}
    lemma_first_line_end(s, end);
}

/// A line made of a tag that is not CR and bytes without a line terminator
/// ends right after those bytes, whatever follows the line.
proof fn lemma_text_line(tag: u8, bytes: Seq<u8>, tail: Seq<u8>)
    requires
        tag != CR,
        !has_crlf(bytes),
    ensures
        ({
            let s = seq![tag] + bytes + crlf() + tail;
            let end = (1 + bytes.len()) as int;
            &&& line_end(s) == Some(end)
            &&& s.take(end).skip(1) == bytes
            &&& s.take(end)[0] == tag
        }),
{
    let s = seq![tag] + bytes + crlf() + tail;
    let end = (1 + bytes.len()) as int;
    assert forall|j: int| 0 <= j < end implies !ends_line_at(s, j) by {
        if 0 < j && j + 1 < end {
            assert(!ends_line_at(bytes, j - 1));
        }
    }
    lemma_first_line_end(s, end);
}

/// A bulk string whose header announces more bytes than follow it, terminator
/// included, is incomplete.
pub proof fn lemma_short_bulk(n: nat, payload: Seq<u8>)
    requires
        n <= u64::MAX,
        payload.len() < n + 2,
    ensures
        parse(seq![TAG_BULK] + numeral(n) + crlf() + payload) is Incomplete,
{
    lemma_numeral_line(TAG_BULK, n, payload);
}

/// Decoding inverts encoding: the bytes of a value without a broken line,
/// whatever follows them, are read back as that value and as taking exactly
/// those bytes.
pub proof fn lemma_round_trip_before(v: Model, tail: Seq<u8>)
    requires
        v.unbroken(),
        v.sized(),
    ensures
        parse(wire(v) + tail) == (Parsed::Complete { value: v, len: wire(v).len() }),
    decreases v,
{
    let s = wire(v) + tail;
    match v {
        Model::SimpleString(text) => {
            let bytes = encode_utf8(text);
            lemma_crlf_in_text(text);
            lemma_text_line(TAG_SIMPLE, bytes, tail);
            encode_utf8_valid_utf8(text);
            encode_utf8_decode_utf8(text);
        },
        Model::Error(text) => {
            let bytes = encode_utf8(text);
            lemma_crlf_in_text(text);
            lemma_text_line(TAG_ERROR, bytes, tail);
            encode_utf8_valid_utf8(text);
            encode_utf8_decode_utf8(text);
        },
        Model::BulkString(text) => {
            let bytes = encode_utf8(text);
            let rest = bytes + crlf() + tail;
            assert(s =~= seq![TAG_BULK] + numeral(bytes.len()) + crlf() + rest);
            lemma_numeral_line(TAG_BULK, bytes.len(), rest);
            assert(rest.take(bytes.len() as int) =~= bytes);
            encode_utf8_valid_utf8(text);
            encode_utf8_decode_utf8(text);
        },
        Model::NullValue => {
            let header = seq![MINUS, 0x31u8];
            let digits = header.skip(1);
            assert forall|j: int| 0 <= j < 3 implies !ends_line_at(s, j) by {}
            lemma_first_line_end(s, 3);
            assert(s.take(3).skip(1) =~= header);
            assert(digits_value(digits.drop_last()) == 0);
        },
        Model::Array(items) => {
            let rest = wire_all(items) + tail;
            assert(s =~= seq![TAG_ARRAY] + numeral(items.len()) + crlf() + rest);
            lemma_numeral_line(TAG_ARRAY, items.len(), rest);
            lemma_round_trip_all(items, tail);
        },
    }
}

/// Decoding inverts encoding for a run of values: their bytes one after the
/// other, whatever follows them, are read back as those values.
pub proof fn lemma_round_trip_all(items: Seq<Model>, tail: Seq<u8>)
    requires
        forall|i: int| 0 <= i < items.len() ==> (#[trigger] items[i]).unbroken(),
        forall|i: int| 0 <= i < items.len() ==> (#[trigger] items[i]).sized(),
    ensures
        parse_items(wire_all(items) + tail, items.len()) == (Parsed::Complete {
            value: items,
            len: wire_all(items).len(),
        }),
    decreases items,
{
    if items.len() == 0 {
        assert(items =~= Seq::<Model>::empty());
    } else {
        let first = items[0];
        let others = items.drop_first();
        let s = wire_all(items) + tail;
        let next = wire_all(others) + tail;
        assert(s =~= wire(first) + next);
        lemma_round_trip_before(first, next);
        assert(s.skip(wire(first).len() as int) =~= next);
        assert forall|i: int| 0 <= i < others.len() implies (#[trigger] others[i]).unbroken()
            && others[i].sized() by {}
        lemma_round_trip_all(others, tail);
        assert(seq![first] + others =~= items);
    }
}

/// Decoding inverts encoding: the bytes of a value without a broken line are
/// read back as that value, and all of them are used.
pub proof fn lemma_round_trip(v: Model)
    requires
        v.unbroken(),
        v.sized(),
    ensures
        parse(wire(v)) == (Parsed::Complete { value: v, len: wire(v).len() }),
{
    lemma_round_trip_before(v, Seq::<u8>::empty());
}

/// A line whose text holds a line terminator is cut short when it is read
/// back: what is read, if anything, is another text.
proof fn lemma_broken_line(tag: u8, text: Seq<char>, tail: Seq<u8>)
    requires
        tag != CR,
        breaks_line(text),
    ensures
        ({
            let s = seq![tag] + encode_utf8(text) + crlf() + tail;
            &&& line_end(s) is Some
            &&& s.take(line_end(s)->0)[0] == tag
            &&& text_of(s.take(line_end(s)->0).skip(1)) != Some(text)
        }),
{
    let bytes = encode_utf8(text);
    let s = seq![tag] + bytes + crlf() + tail;
    lemma_crlf_in_text(text);
    let j = choose|j: int| ends_line_at(bytes, j);
    assert(ends_line_at(s, j + 1));
    lemma_line_end(s);
    let n = line_end(s)->0;
    let header = s.take(n).skip(1);
    assert(header =~= bytes.take(n - 1));
    if valid_utf8(header) {
        decode_utf8_encode_utf8(header);
    }
}

/// The values without a broken line are the only ones that are read back: of
/// the bytes of any other value, whatever follows them, something else is
/// read, if anything.
pub proof fn lemma_broken_is_not_read_back(v: Model, tail: Seq<u8>)
    requires
        v.sized(),
        !v.unbroken(),
    ensures
        parse(wire(v) + tail) matches Parsed::Complete { value, .. } ==> value != v,
    decreases v,
{
    match v {
        Model::SimpleString(text) => {
            lemma_broken_line(TAG_SIMPLE, text, tail);
        },
        Model::Error(text) => {
            lemma_broken_line(TAG_ERROR, text, tail);
        },
        Model::Array(items) => {
            let rest = wire_all(items) + tail;
            assert(wire(v) + tail =~= seq![TAG_ARRAY] + numeral(items.len()) + crlf() + rest);
            lemma_numeral_line(TAG_ARRAY, items.len(), rest);
            lemma_broken_run(items, tail);
        },
        _ => {},
    }
}

/// A run of values of which one has a broken line is not read back either.
pub proof fn lemma_broken_run(items: Seq<Model>, tail: Seq<u8>)
    requires
        forall|i: int| 0 <= i < items.len() ==> (#[trigger] items[i]).sized(),
        exists|i: int| 0 <= i < items.len() && !(#[trigger] items[i]).unbroken(),
    ensures
        parse_items(wire_all(items) + tail, items.len()) matches Parsed::Complete { value, .. }
            ==> value != items,
    decreases items,
{
    let first = items[0];
    let others = items.drop_first();
    let s = wire_all(items) + tail;
    let next = wire_all(others) + tail;
    assert(s =~= wire(first) + next);
    assert forall|i: int| 0 <= i < others.len() implies (#[trigger] others[i]).sized() by {
        assert(others[i] == items[i + 1]);
    }
    if first.unbroken() {
        lemma_round_trip_before(first, next);
        assert(s.skip(wire(first).len() as int) =~= next);
        let i = choose|i: int| 0 <= i < items.len() && !(#[trigger] items[i]).unbroken();
        assert(!others[i - 1].unbroken());
        lemma_broken_run(others, tail);
        if let Parsed::Complete { value, len } = parse_items(next, others.len()) {
            assert((seq![first] + value).drop_first() =~= value);
        }
    } else {
        lemma_broken_is_not_read_back(first, next);
        if let Parsed::Complete { value, len } = parse(s) {
            if let Parsed::Complete { value: more, len: used } = parse_items(
                s.skip(len as int),
                others.len(),
            ) {
                assert((seq![value] + more)[0] == value);
            }
        }
    }
}

} // verus!
