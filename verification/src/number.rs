//! Unsigned decimal numbers as sequences of characters.

use vstd::prelude::*;
use crate::text::push_chars;

verus! {

/// One of the ten ASCII digits.
pub open spec fn decimal_digit(c: char) -> bool {
    0x30 <= c as u32 <= 0x39
}

/// The number that a digit stands for.
pub open spec fn digit_value(c: char) -> nat {
    (c as u32 - 0x30) as nat
}

/// The digit that stands for `d`, for `d` below ten.
pub open spec fn digit_char(d: nat) -> char {
    (d + 0x30) as char
}

/// Whether `s` is made of digits alone.
pub open spec fn all_digits(s: Seq<char>) -> bool {
    forall|i: int| 0 <= i < s.len() ==> decimal_digit(#[trigger] s[i])
}

/// The number that a sequence of digits stands for, read in base ten.
pub open spec fn digits_value(s: Seq<char>) -> nat
    decreases s.len(),
{
    if s.len() == 0 {
        0
    } else {
        digits_value(s.drop_last()) * 10 + digit_value(s.last())
    }
}

/// `n` in base ten, without leading zeros.
pub open spec fn decimal(n: nat) -> Seq<char>
    decreases n,
{
    if n < 10 {
        seq![digit_char(n)]
    } else {
        decimal(n / 10).push(digit_char(n % 10))
    }
}

/// `k` times the digit zero.
pub open spec fn zeros(k: nat) -> Seq<char> {
    Seq::new(k, |i: int| '0')
}

/// `n` in base ten, with zeros in front where it has fewer than `width`
/// digits.
pub open spec fn zero_padded(n: nat, width: nat) -> Seq<char> {
    let d = decimal(n);
    if d.len() >= width {
        d
    } else {
        zeros((width - d.len()) as nat) + d
    }
}

/// Why a text is not an unsigned number that fits in 32 bits.
#[derive(Clone, Copy, Debug, PartialEq, Eq, Structural)]
pub enum NumberError {
    /// The text is empty.
    Empty,
    /// The text holds something else than digits behind an optional `+`,
    /// or no digit at all.
    InvalidDigit,
    /// The digits at the start, before anything that is no digit, stand for
    /// a number above `u32::MAX`.
    TooLarge,
}

/// `s` without a `+` at its start.
pub open spec fn unsigned_body(s: Seq<char>) -> Seq<char> {
    if s.len() > 0 && s[0] == '+' {
        s.skip(1)
    } else {
        s
    }
}

/// Whether the first `k` characters of `body` are digits that stand for a
/// number above `u32::MAX`.
pub open spec fn prefix_too_large(body: Seq<char>, k: int) -> bool {
    &&& 0 < k <= body.len()
    &&& all_digits(body.take(k))
    &&& digits_value(body.take(k)) > u32::MAX
}

/// The unsigned 32-bit number that `s` stands for: an optional `+`, then one
/// digit or more, leading zeros allowed. Where digits at the start already
/// stand for a number that is too large, the error is `TooLarge`, whatever
/// follows them.
pub open spec fn parse_u32_spec(s: Seq<char>) -> Result<u32, NumberError> {
    let body = unsigned_body(s);
    if s.len() == 0 {
        Err(NumberError::Empty)
    } else if body.len() > 0 && all_digits(body) && digits_value(body) <= u32::MAX {
        Ok(digits_value(body) as u32)
    } else if exists|k: int| prefix_too_large(body, k) {
        Err(NumberError::TooLarge)
    } else {
        Err(NumberError::InvalidDigit)
    }
}

/// What is written for `n` is made of digits, has at least one, and stands
/// for `n`.
pub proof fn lemma_decimal(n: nat)
    ensures
        decimal(n).len() >= 1,
        all_digits(decimal(n)),
        digits_value(decimal(n)) == n,
    decreases n,
{
    assert(digit_value(digit_char(n % 10)) == n % 10);
    if n < 10 {
        assert(decimal(n).drop_last() == Seq::<char>::empty());
        assert(digits_value(Seq::<char>::empty()) == 0);
    } else {
        lemma_decimal(n / 10);
        assert(decimal(n).drop_last() == decimal(n / 10));
    }
}

/// Zeros in front of digits do not change the number.
pub proof fn lemma_zeros_value(k: nat, d: Seq<char>)
    ensures
        digits_value(zeros(k) + d) == digits_value(d),
        all_digits(d) ==> all_digits(zeros(k) + d),
    decreases d.len(), k,
{
    if d.len() > 0 {
        lemma_zeros_value(k, d.drop_last());
        assert((zeros(k) + d).drop_last() == zeros(k) + d.drop_last());
    } else if k > 0 {
        lemma_zeros_value((k - 1) as nat, d);
        assert(zeros(k) + d == zeros(k));
        assert(zeros((k - 1) as nat) + d == zeros((k - 1) as nat));
        assert(zeros(k).drop_last() == zeros((k - 1) as nat));
    } else {
        assert(zeros(k) + d == Seq::<char>::empty());
    }
}

/// A padded number is made of digits that stand for it, and is at least as
/// long as asked.
pub proof fn lemma_zero_padded(n: nat, width: nat)
    ensures
        zero_padded(n, width).len() >= width,
        zero_padded(n, width).len() >= 1,
        all_digits(zero_padded(n, width)),
        digits_value(zero_padded(n, width)) == n,
{
    lemma_decimal(n);
    let d = decimal(n);
    if d.len() < width {
        lemma_zeros_value((width - d.len()) as nat, d);
    }
}

/// Tells whether a character is one of the ten ASCII digits.
pub fn is_decimal_digit(c: char) -> (r: bool)
    ensures
        r == decimal_digit(c),
{
    let u: u32 = c as u32;
    0x30 <= u && u <= 0x39
}

/// Appends `n` in base ten to `out`.
pub fn push_decimal(out: &mut Vec<char>, n: u64)
    ensures
        final(out)@ == old(out)@ + decimal(n as nat),
    decreases n,
{
    if n >= 10 {
        push_decimal(out, n / 10);
    }
    let d: u8 = (n % 10) as u8;
    let c: char = (d + 0x30) as char;
    assert(c == digit_char((n % 10) as nat));
    out.push(c);
    assert(out@ == old(out)@ + decimal(n as nat));
}

/// Appends `n` in base ten to `out`, with zeros in front where it has fewer
/// than `width` digits.
pub fn push_zero_padded(out: &mut Vec<char>, n: u64, width: usize)
    ensures
        final(out)@ == old(out)@ + zero_padded(n as nat, width as nat),
{
    let mut digits: Vec<char> = Vec::new();
    push_decimal(&mut digits, n);
    assert(digits@ == decimal(n as nat));
    let mut i: usize = digits.len();
    while i < width
        invariant
            digits.len() <= i <= width || (i == digits.len() && i > width),
            out@ == old(out)@ + zeros((i - digits.len()) as nat),
        decreases width - i,
    {
        out.push('0');
        assert(zeros((i + 1 - digits.len()) as nat) == zeros((i - digits.len()) as nat).push('0'));
        i += 1;
    }
    push_chars(out, digits.as_slice());
    proof {
        if digits.len() >= width {
            assert(zeros(0) == Seq::<char>::empty());
        }
    }
}

/// Reads an unsigned 32-bit number in base ten.
pub fn parse_u32(s: &[char]) -> (r: Result<u32, NumberError>)
    ensures
        r == parse_u32_spec(s@),
{
    if s.len() == 0 {
        return Err(NumberError::Empty);
    }
    let start: usize = if s[0] == '+' { 1 } else { 0 };
    let ghost body = unsigned_body(s@);
    assert(body == s@.skip(start as int));
    let mut acc: u64 = 0;
    let mut i: usize = start;
    assert(body.take(0) == Seq::<char>::empty());
    while i < s.len()
        invariant
            start <= i <= s.len(),
            start <= 1,
            s.len() > 0,
            body == unsigned_body(s@),
            body == s@.skip(start as int),
            all_digits(body.take(i - start)),
            acc == digits_value(body.take(i - start)),
            forall|k: int| 0 <= k <= i - start ==> digits_value(#[trigger] body.take(k)) <= u32::MAX,
        decreases s.len() - i,
    {
        let c = s[i];
        let ghost next = body.take(i - start + 1);
        assert(next.drop_last() == body.take(i - start));
        assert(next.last() == c);
        if !is_decimal_digit(c) {
            proof {
                assert(body[i - start] == c);
                assert(!all_digits(body));
                assert forall|k: int| !prefix_too_large(body, k) by {
                    if 0 < k <= body.len() {
                        if k <= i - start {
                            assert(digits_value(body.take(k)) <= u32::MAX);
                        } else {
                            assert(body.take(k)[i - start] == c);
                            assert(!all_digits(body.take(k)));
                        }
                    }
                }
            }
            return Err(NumberError::InvalidDigit);
        }
        let d: u64 = (c as u32 - 0x30) as u64;
        let value: u64 = acc * 10 + d;
        assert(all_digits(next)) by {
            assert forall|j: int| 0 <= j < next.len() implies decimal_digit(#[trigger] next[j]) by {
                if j < next.len() - 1 {
                    assert(next[j] == body.take(i - start)[j]);
                }
            }
        }
        assert(value == digits_value(next));
        if value > 0xffff_ffff {
            proof {
                assert(prefix_too_large(body, i - start + 1));
                if all_digits(body) && digits_value(body) <= u32::MAX {
                    lemma_digits_value_grows(body, i - start + 1);
                }
            }
            return Err(NumberError::TooLarge);
        }
        acc = value;
        i += 1;
    }
    assert(body.take(i - start) == body);
    if i == start {
        proof {
            assert forall|k: int| !prefix_too_large(body, k) by {}
        }
        return Err(NumberError::InvalidDigit);
    }
    Ok(acc as u32)
}

/// A number read from digits is at least the number read from fewer of them.
pub proof fn lemma_digits_value_grows(s: Seq<char>, k: int)
    requires
        0 <= k <= s.len(),
    ensures
        digits_value(s.take(k)) <= digits_value(s),
    decreases s.len(),
{
    if k < s.len() {
        lemma_digits_value_grows(s.drop_last(), k);
        assert(s.drop_last().take(k) == s.take(k));
    } else {
        assert(s.take(k) == s);
    }
}

} // verus!
