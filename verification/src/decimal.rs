//! Decimal numerals as they appear in length headers and in command arguments.
//!
//! A numeral is a run of ASCII digits, most significant first. A header may put
//! a sign in front of it. The functions here read and write such text and are
//! proved against the arithmetic meaning of a digit string.

use vstd::prelude::*;

verus! {

/// The byte `+`.
pub const PLUS: u8 = 0x2b;

/// The byte `-`.
pub const MINUS: u8 = 0x2d;

/// The byte `0`; the other digits follow it in order.
pub const ZERO: u8 = 0x30;

/// Whether `b` is one of the ASCII digits `0` to `9`.
pub open spec fn is_digit(b: u8) -> bool {
    0x30 <= b <= 0x39
}

/// The number a digit stands for; zero for any other byte.
pub open spec fn digit_value(b: u8) -> nat {
    if is_digit(b) {
        (b - 0x30) as nat
    } else {
        0
    }
}

/// Whether every byte of `s` is a digit.
pub open spec fn all_digits(s: Seq<u8>) -> bool {
    forall|i: int| 0 <= i < s.len() ==> is_digit(#[trigger] s[i])
}

/// The number that the digit string `s` denotes, most significant digit first.
pub open spec fn digits_value(s: Seq<u8>) -> nat
    decreases s.len(),
{
    if s.len() == 0 {
        0
    } else {
        digits_value(s.drop_last()) * 10 + digit_value(s.last())
    }
}

/// The shortest digit string that denotes `n`.
pub open spec fn numeral(n: nat) -> Seq<u8>
    decreases n,
{
    if n < 10 {
        seq![(0x30 + n) as u8]
    } else {
        numeral(n / 10).push((0x30 + n % 10) as u8)
    }
}

/// The number written as an optional `+` and one or more digits, if `s` has
/// that form.
pub open spec fn unsigned_text(s: Seq<u8>) -> Option<nat> {
    let digits = if s.len() > 0 && s[0] == PLUS {
        s.skip(1)
    } else {
        s
    };
    if digits.len() > 0 && all_digits(digits) {
        Some(digits_value(digits))
    } else {
        None
    }
}

/// The integer written as an optional sign and one or more digits, if `s` has
/// that form.
pub open spec fn signed_text(s: Seq<u8>) -> Option<int> {
    if s.len() > 0 && s[0] == MINUS {
        let digits = s.skip(1);
        if digits.len() > 0 && all_digits(digits) {
            Some(-(digits_value(digits) as int))
        } else {
            None
        }
    } else {
        match unsigned_text(s) {
            Some(n) => Some(n as int),
            None => None,
        }
    }
}

/// What reading `s` as a `u64` gives: the number it is written as, unless the
/// text is malformed or the number does not fit.
pub open spec fn u64_text(s: Seq<u8>) -> Option<u64> {
    match unsigned_text(s) {
        Some(n) if n <= u64::MAX => Some(n as u64),
        _ => None,
    }
}

/// What reading `s` as an `i64` gives: the integer it is written as, unless the
/// text is malformed or the integer does not fit.
pub open spec fn i64_text(s: Seq<u8>) -> Option<i64> {
    match signed_text(s) {
        Some(n) if i64::MIN <= n <= i64::MAX => Some(n as i64),
        _ => None,
    }
}

/// Dropping digits from the end of a digit string never makes its value larger.
pub proof fn lemma_prefix_value(s: Seq<u8>, k: int)
    requires
        0 <= k <= s.len(),
    ensures
        digits_value(s.take(k)) <= digits_value(s),
    decreases s.len(),
{
    if k == s.len() {
        assert(s.take(k) =~= s);
    } else {
        lemma_prefix_value(s.drop_last(), k);
        assert(s.drop_last().take(k) =~= s.take(k));
    }
}

/// A numeral is a non-empty digit string that denotes the number it was made
/// from, so reading it back gives that number.
pub proof fn lemma_numeral(n: nat)
    ensures
        numeral(n).len() >= 1,
        all_digits(numeral(n)),
        digits_value(numeral(n)) == n,
        unsigned_text(numeral(n)) == Some(n),
        signed_text(numeral(n)) == Some(n as int),
    decreases n,
{
    if n < 10 {
        assert(digits_value(numeral(n).drop_last()) == 0);
    } else {
        lemma_numeral(n / 10);
        assert(numeral(n).drop_last() =~= numeral(n / 10));
    }
}

/// Reads the digits of `bytes` from `start` on as one number.
fn read_digits(bytes: &[u8], start: usize) -> (r: Option<u64>)
    requires
        start <= bytes@.len(),
    ensures
        r == ({
            let digits = bytes@.skip(start as int);
            if digits.len() > 0 && all_digits(digits) && digits_value(digits) <= u64::MAX {
                Some(digits_value(digits) as u64)
            } else {
                None
            }
        }),
{
    let ghost digits = bytes@.skip(start as int);
    if start == bytes.len() {
        return None;
    }
    let mut acc: u64 = 0;
    let mut i: usize = start;
    while i < bytes.len()
        invariant
            start <= i <= bytes@.len(),
            digits == bytes@.skip(start as int),
            all_digits(digits.take(i - start)),
            acc == digits_value(digits.take(i - start)),
        decreases bytes@.len() - i,
    {
        let b: u8 = bytes[i];
        let ghost before = digits.take(i - start);
        let ghost after = digits.take(i + 1 - start);
        proof {
            assert(after.drop_last() =~= before);
            lemma_prefix_value(digits, i + 1 - start);
        }
        if b < ZERO || b > 0x39 {
            return None;
        }
        let d: u64 = (b - ZERO) as u64;
        if acc > (u64::MAX - d) / 10 {
            return None;
        }
        acc = acc * 10 + d;
        i = i + 1;
        proof {
            assert forall|j: int| 0 <= j < after.len() implies is_digit(#[trigger] after[j]) by {}
        }
    }
    proof {
        assert(digits.take(i - start) =~= digits);
    }
    Some(acc)
}

/// Reads `bytes` as an unsigned decimal number: an optional `+`, then one or
/// more digits, with a value that fits in 64 bits.
pub fn parse_u64(bytes: &[u8]) -> (r: Option<u64>)
    ensures
        r == u64_text(bytes@),
{
    if bytes.len() > 0 && bytes[0] == PLUS {
        read_digits(bytes, 1)
    } else {
        proof {
            assert(bytes@.skip(0) =~= bytes@);
        }
        read_digits(bytes, 0)
    }
}

/// Reads `bytes` as a signed decimal integer: an optional `+` or `-`, then one
/// or more digits, with a value that fits in 64 bits.
pub fn parse_i64(bytes: &[u8]) -> (r: Option<i64>)
    ensures
        r == i64_text(bytes@),
{
    if bytes.len() > 0 && bytes[0] == MINUS {
        match read_digits(bytes, 1) {
            Some(m) => {
                if m <= 0x7fff_ffff_ffff_ffff {
                    Some(-(m as i64))
                } else if m == 0x8000_0000_0000_0000 {
                    Some(i64::MIN)
                } else {
                    None
                }
            },
            None => None,
        }
    } else {
        match parse_u64(bytes) {
            Some(m) => {
                if m <= 0x7fff_ffff_ffff_ffff {
                    Some(m as i64)
                } else {
                    None
                }
            },
            None => None,
        }
    }
}

/// Appends the numeral of `n` to `out`.
pub fn push_numeral(out: &mut Vec<u8>, n: usize)
    ensures
        final(out)@ == old(out)@ + numeral(n as nat),
    decreases n,
{
    if n >= 10 {
        push_numeral(out, n / 10);
    }
    let d: u8 = (n % 10) as u8;
    out.push(ZERO + d);
}

} // verus!
