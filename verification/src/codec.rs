//! Encoding values to bytes and decoding bytes to values.

use std::string::FromUtf8Error;
use vstd::prelude::*;
use vstd::slice::{slice_subrange, slice_to_vec};
use vstd::utf8::{encode_utf8, encode_utf8_decode_utf8, valid_utf8};
use crate::decimal::{parse_i64, parse_u64, push_numeral, MINUS};
use crate::text::{ends_line_at, CR, LF};
use crate::value::{models, Model, Value};
use crate::wire::{
    after, array_of, crlf, lemma_after_after, lemma_first_line_end, lemma_line_end,
    lemma_parse_len, length_of, line_end, parse, parse_bulk, parse_items, parse_line, text_of,
    wire, wire_all, Parsed, ProtocolError, TAG_ARRAY, TAG_BULK, TAG_ERROR, TAG_SIMPLE,
};

verus! {

/// The error of `String::from_utf8`, which this library only tells from success.
#[verifier::external_type_specification]
#[verifier::external_body]
pub struct ExFromUtf8Error(FromUtf8Error);

/// `String::from_utf8` succeeds on exactly the byte vectors that are valid
/// UTF-8, and the string it then gives has those bytes as its encoding.
pub assume_specification[ String::from_utf8 ](vec: Vec<u8>) -> (r: Result<String, FromUtf8Error>)
    ensures
        r is Ok <==> valid_utf8(vec@),
        r matches Ok(text) ==> encode_utf8(text@) == vec@,
;

/// What a decoder found at the front of a buffer.
#[derive(Debug, PartialEq, Eq)]
pub enum Decoded {
    /// A whole value, which takes the first `len` bytes.
    Complete { value: Value, len: usize },
    /// The beginning of a value, or nothing at all: more bytes may complete it.
    Incomplete,
    /// Bytes that begin no value, whatever follows them.
    Invalid(ProtocolError),
}

impl View for Decoded {
    type V = Parsed<Model>;

    open spec fn view(&self) -> Parsed<Model> {
        match self {
            Decoded::Complete { value, len } => Parsed::Complete {
                value: value@,
                len: *len as nat,
            },
            Decoded::Incomplete => Parsed::Incomplete,
            Decoded::Invalid(e) => Parsed::Invalid(*e),
        }
    }
}

/// The length that a header announces.
enum Length {
    /// The header `-1` of the null value.
    Null,
    /// A number of bytes or of items.
    Count(u64),
}

/// Reads `bytes` as text.
fn read_text(bytes: &[u8]) -> (r: Option<String>)
    ensures
        match r {
            Some(text) => text_of(bytes@) == Some(text@),
            None => text_of(bytes@) is None,
        },
{
    match String::from_utf8(slice_to_vec(bytes)) {
        Ok(text) => {
            proof {
                encode_utf8_decode_utf8(text@);
            }
            Some(text)
        },
        Err(_) => None,
    }
}

/// Reads a header as a length.
fn read_length(header: &[u8]) -> (r: Option<Length>)
    ensures
        match r {
            Some(Length::Null) => length_of(header@) == Some(-1int),
            Some(Length::Count(k)) => length_of(header@) == Some(k as int),
            None => length_of(header@) is None,
        },
{
    if header.len() > 0 && header[0] == MINUS {
        match parse_i64(header) {
            Some(v) => if v == -1 {
                Some(Length::Null)
            } else if v == 0 {
                Some(Length::Count(0))
            } else {
                None
            },
            None => None,
        }
    } else {
        match parse_u64(header) {
            Some(k) => Some(Length::Count(k)),
            None => None,
        }
    }
}

/// Finds the first line terminator of `buf` at or after `start`.
fn find_line_end(buf: &[u8], start: usize) -> (r: Option<usize>)
    requires
        start <= buf@.len(),
    ensures
        match r {
            Some(i) => start <= i && i + 2 <= buf@.len() && line_end(buf@.skip(start as int))
                == Some(i - start),
            None => line_end(buf@.skip(start as int)) is None,
        },
{
    let ghost s = buf@.skip(start as int);
    let mut i: usize = start;
    while buf.len() - i >= 2
        invariant
            start <= i <= buf@.len(),
            s == buf@.skip(start as int),
            forall|j: int| 0 <= j < i - start ==> !ends_line_at(s, j),
        decreases buf@.len() - i,
    {
        if buf[i] == CR && buf[i + 1] == LF {
            proof {
                lemma_first_line_end(s, i - start);
            }
            return Some(i);
        }
        i = i + 1;
    }
    proof {
        lemma_line_end(s);
    }
    None
}

/// Reads what follows the header line of a bulk string. The line began at
/// `start` and the bytes after it begin at `next`.
fn decode_bulk(buf: &[u8], header: &[u8], start: usize, next: usize) -> (r: Decoded)
    requires
        start < next <= buf@.len(),
    ensures
        r@ == parse_bulk(header@, buf@.skip(next as int), (next - start) as nat),
        r matches Decoded::Complete { len, .. } ==> start + len <= buf@.len(),
{
    match read_length(header) {
        None => Decoded::Invalid(ProtocolError::InvalidLength),
        Some(Length::Null) => Decoded::Complete { value: Value::NullValue, len: next - start },
        Some(Length::Count(k)) => {
            let left: usize = buf.len() - next;
            if left < 2 || k > (left - 2) as u64 {
                return Decoded::Incomplete;
            }
            let n: usize = k as usize;
            if !(buf[next + n] == CR && buf[next + n + 1] == LF) {
                return Decoded::Invalid(ProtocolError::MissingTerminator);
            }
            let payload: &[u8] = slice_subrange(buf, next, next + n);
            assert(payload@ =~= buf@.skip(next as int).take(n as int));
            match read_text(payload) {
                Some(text) => Decoded::Complete {
                    value: Value::BulkString(text),
                    len: next - start + n + 2,
                },
                None => Decoded::Invalid(ProtocolError::InvalidText),
            }
        },
    }
}

/// Reads the line of a simple string or of an error, which began at `start`
/// and whose terminator ends before `next`.
fn decode_line(header: &[u8], error: bool, start: usize, next: usize) -> (r: Decoded)
    requires
        start < next,
    ensures
        r@ == parse_line(header@, error, (next - start) as nat),
{
    match read_text(header) {
        Some(text) => Decoded::Complete {
            value: if error {
                Value::Error(text)
            } else {
                Value::SimpleString(text)
            },
            len: next - start,
        },
        None => Decoded::Invalid(ProtocolError::InvalidText),
    }
}

/// Reads the value that begins at index `start` of `buf`.
fn decode_at(buf: &[u8], start: usize) -> (r: Decoded)
    requires
        start <= buf@.len(),
    ensures
        r@ == parse(buf@.skip(start as int)),
        r matches Decoded::Complete { len, .. } ==> start + len <= buf@.len(),
    decreases buf@.len() - start,
{
    let ghost s = buf@.skip(start as int);
    let end: usize = match find_line_end(buf, start) {
        None => {
            return Decoded::Incomplete;
        },
        Some(i) => i,
    };
    let ghost n = end - start;
    if end == start {
        return Decoded::Invalid(ProtocolError::UnknownTag);
    }
    let tag: u8 = buf[start];
    let header: &[u8] = slice_subrange(buf, start + 1, end);
    let next: usize = end + 2;
    proof {
        assert(header@ =~= s.take(n).skip(1));
        assert(buf@.skip(next as int) =~= s.skip(n + 2));
    }
    if tag == TAG_SIMPLE {
        decode_line(header, false, start, next)
    } else if tag == TAG_ERROR {
        decode_line(header, true, start, next)
    } else if tag == TAG_BULK {
        decode_bulk(buf, header, start, next)
    } else if tag == TAG_ARRAY {
        match read_length(header) {
            Some(Length::Count(k)) => {
                let ghost body = buf@.skip(next as int);
                let mut items: Vec<Value> = Vec::new();
                let mut pos: usize = next;
                let mut i: u64 = 0;
                while i < k
                    invariant
                        start < next <= pos <= buf@.len(),
                        i <= k,
                        buf@.len() == buf.len(),
                        body == buf@.skip(next as int),
                        parse(buf@.skip(start as int)) == array_of(
                            (next - start) as nat,
                            parse_items(body, k as nat),
                        ),
                        parse_items(body, k as nat) == after(
                            models(items@),
                            (pos - next) as nat,
                            parse_items(buf@.skip(pos as int), (k - i) as nat),
                        ),
                    decreases k - i,
                {
                    let ghost cur = buf@.skip(pos as int);
                    let ghost done = models(items@);
                    match decode_at(buf, pos) {
                        Decoded::Complete { value, len } => {
                            proof {
                                lemma_parse_len(cur);
                                assert(cur.skip(len as int) =~= buf@.skip(pos + len));
                                assert(models(items@.push(value)) =~= done + seq![value@]);
                                let rest = parse_items(buf@.skip(pos + len), (k - i - 1) as nat);
                                assert(parse_items(cur, (k - i) as nat) == after(
                                    seq![value@],
                                    len as nat,
                                    rest,
                                ));
                                lemma_after_after(
                                    done,
                                    (pos - next) as nat,
                                    seq![value@],
                                    len as nat,
                                    rest,
                                );
                            }
                            items.push(value);
                            pos = pos + len;
                            i = i + 1;
                        },
                        Decoded::Incomplete => {
                            return Decoded::Incomplete;
                        },
                        Decoded::Invalid(e) => {
                            return Decoded::Invalid(e);
                        },
                    }
                }
                Decoded::Complete { value: Value::Array(items), len: pos - start }
            },
            _ => Decoded::Invalid(ProtocolError::InvalidLength),
        }
    } else {
        Decoded::Invalid(ProtocolError::UnknownTag)
    }
}

/// Reads the value at the front of `buf`. The result says whether a whole
/// value stands there and how many bytes it takes, whether more bytes are
/// needed, or why no value can begin like this.
pub fn decode(buf: &[u8]) -> (r: Decoded)
    ensures
        r@ == parse(buf@),
        r matches Decoded::Complete { len, .. } ==> 0 < len <= buf@.len(),
{
    proof {
        assert(buf@.skip(0) =~= buf@);
        lemma_parse_len(buf@);
    }
    decode_at(buf, 0)
}

/// Appends the UTF-8 bytes of `text` to `out`.
fn put_text(out: &mut Vec<u8>, text: &String)
    ensures
        final(out)@ == old(out)@ + encode_utf8(text@),
{
    let bytes: &[u8] = text.as_str().as_bytes();
    out.extend_from_slice(bytes);
}

/// Appends a line terminator to `out`.
fn put_crlf(out: &mut Vec<u8>)
    ensures
        final(out)@ == old(out)@ + crlf(),
{
    out.push(CR);
    out.push(LF);
}

/// Appends the encoding of `value` to `out`. The encoder measures every
/// length in `value`, and so finds that each can stand in a header.
pub fn encode_into(value: &Value, out: &mut Vec<u8>)
    ensures
        final(out)@ == old(out)@ + wire(value@),
        value@.sized(),
    decreases value,
{
    match value {
        Value::SimpleString(text) => {
            out.push(TAG_SIMPLE);
            put_text(out, text);
            put_crlf(out);
        },
        Value::Error(text) => {
            out.push(TAG_ERROR);
            put_text(out, text);
            put_crlf(out);
        },
        Value::BulkString(text) => {
            out.push(TAG_BULK);
            let n: usize = text.as_str().as_bytes().len();
            push_numeral(out, n);
            put_crlf(out);
            put_text(out, text);
            put_crlf(out);
        },
        Value::NullValue => {
            out.push(TAG_BULK);
            out.push(MINUS);
            out.push(0x31);
            put_crlf(out);
        },
        Value::Array(items) => {
            out.push(TAG_ARRAY);
            push_numeral(out, items.len());
            put_crlf(out);
            let ghost models = value@->Array_0;
            let ghost head = out@;
            let mut i: usize = 0;
            assert(models.skip(0) =~= models);
            while i < items.len()
                invariant
                    0 <= i <= items@.len(),
                    *value == Value::Array(*items),
                    models.len() == items@.len(),
                    forall|j: int| 0 <= j < items@.len() ==> models[j] == (#[trigger] items@[j])@,
                    forall|j: int| 0 <= j < i ==> (#[trigger] models[j]).sized(),
                    out@ + wire_all(models.skip(i as int)) == head + wire_all(models),
                decreases items@.len() - i,
            {
                proof {
                    assert(decreases_to!(*value => value->Array_0));
                    assert(models.skip(i as int).drop_first() =~= models.skip(i + 1));
                }
                encode_into(&items[i], out);
                i = i + 1;
            }
        },
    }
}

/// Encodes `value` as the bytes that go on the wire. The encoder measures
/// every length in `value`, and so finds that each can stand in a header.
pub fn encode(value: &Value) -> (out: Vec<u8>)
    ensures
        out@ == wire(value@),
        value@.sized(),
{
    let mut out: Vec<u8> = Vec::new();
    encode_into(value, &mut out);
    out
}

} // verus!
