//! The time codec: between a time written as `H:MM:SS,mmm` and a signed
//! count of milliseconds.

use vstd::prelude::*;
use vstd::slice::slice_subrange;
use crate::number::{
    all_digits, decimal, decimal_digit, digits_value, lemma_zero_padded, parse_u32,
    parse_u32_spec, push_zero_padded, unsigned_body, zero_padded,
};
use crate::text::{
    chars_to_string, find_either, index_of, index_of_either, lemma_index_of_either_is,
    str_to_chars,
};

verus! {

/// The four fields of a written time. A field that the text leaves out is
/// empty.
pub struct TimeFields {
    pub hours: Seq<char>,
    pub minutes: Seq<char>,
    pub seconds: Seq<char>,
    pub fraction: Seq<char>,
}

/// Cuts a written time into its fields. The fraction is what follows the
/// first `.` or `,`. What stands before it is cut at each `:` into one, two
/// or three fields, the last of which is the seconds; a text with more
/// colons than two before the fraction is no time.
pub open spec fn split_time(s: Seq<char>) -> Option<TimeFields> {
    let mark = index_of_either(s, '.', ',', 0);
    let head = s.take(mark);
    let fraction = if mark < s.len() {
        s.skip(mark + 1)
    } else {
        Seq::<char>::empty()
    };
    let c1 = index_of(head, ':', 0);
    let c2 = index_of(head, ':', c1 + 1);
    let c3 = index_of(head, ':', c2 + 1);
    if c1 == head.len() {
        Some(
            TimeFields {
                hours: Seq::<char>::empty(),
                minutes: Seq::<char>::empty(),
                seconds: head,
                fraction,
            },
        )
    } else if c2 == head.len() {
        Some(
            TimeFields {
                hours: Seq::<char>::empty(),
                minutes: head.take(c1),
                seconds: head.skip(c1 + 1),
                fraction,
            },
        )
    } else if c3 == head.len() {
        Some(
            TimeFields {
                hours: head.take(c1),
                minutes: head.subrange(c1 + 1, c2),
                seconds: head.skip(c2 + 1),
                fraction,
            },
        )
    } else {
        None
    }
}

/// A field without the `-` that may stand at its start.
pub open spec fn field_body(f: Seq<char>) -> Seq<char> {
    if f.len() > 0 && f[0] == '-' {
        f.skip(1)
    } else {
        f
    }
}

/// Whether a field starts with `-`.
pub open spec fn field_negative(f: Seq<char>) -> bool {
    f.len() > 0 && f[0] == '-'
}

/// The number in a field: zero for an empty field, else the unsigned number
/// behind the optional `-`.
pub open spec fn field_value(f: Seq<char>) -> Option<nat> {
    if f.len() == 0 {
        Some(0)
    } else {
        match parse_u32_spec(field_body(f)) {
            Ok(v) => Some(v as nat),
            Err(_) => None,
        }
    }
}

/// What one unit of a fraction written with so many characters is worth in
/// milliseconds.
pub open spec fn fraction_scale(len: nat) -> nat {
    if len == 1 {
        100
    } else if len == 2 {
        10
    } else {
        1
    }
}

/// The milliseconds that the four fields stand for. There is no value where
/// all four are empty, where one of them is not a number, where the fraction
/// is longer than three characters behind its optional `-`, or where the
/// result does not fit in 32 bits. A `-` at the start of any field makes the
/// whole value negative.
pub open spec fn fields_value(f: TimeFields) -> Option<i32> {
    let fraction_len = field_body(f.fraction).len();
    if f.hours.len() == 0 && f.minutes.len() == 0 && f.seconds.len() == 0 && f.fraction.len()
        == 0 {
        None
    } else if fraction_len > 3 {
        None
    } else {
        match (
            field_value(f.hours),
            field_value(f.minutes),
            field_value(f.seconds),
            field_value(f.fraction),
        ) {
            (Some(h), Some(m), Some(s), Some(frac)) => {
                let magnitude = (h * 3600 + m * 60 + s) * 1000 + frac * fraction_scale(
                    fraction_len,
                );
                let negative = field_negative(f.hours) || field_negative(f.minutes)
                    || field_negative(f.seconds) || field_negative(f.fraction);
                let value = if negative {
                    -magnitude
                } else {
                    magnitude as int
                };
                if i32::MIN <= value <= i32::MAX {
                    Some(value as i32)
                } else {
                    None
                }
            },
            _ => None,
        }
    }
}

/// The milliseconds that a written time stands for.
pub open spec fn parse_time(s: Seq<char>) -> Option<i32> {
    match split_time(s) {
        Some(f) => fields_value(f),
        None => None,
    }
}

/// A count of milliseconds written as `HH:MM:SS,mmm`, with `-` in front of a
/// negative one. Hours, minutes and seconds have two digits or more, the
/// milliseconds three.
pub open spec fn format_time(ms: int) -> Seq<char> {
    let a = if ms < 0 {
        -ms
    } else {
        ms
    };
    let secs = a / 1000;
    let sign = if ms < 0 {
        seq!['-']
    } else {
        Seq::<char>::empty()
    };
    sign + zero_padded((secs / 3600) as nat, 2) + seq![':'] + zero_padded(
        ((secs % 3600) / 60) as nat,
        2,
    ) + seq![':'] + zero_padded((secs % 60) as nat, 2) + seq![','] + zero_padded(
        (a % 1000) as nat,
        3,
    )
}

/// Reads one field of a written time: whether it starts with `-`, and its
/// number.
pub fn parse_field(f: &[char]) -> (r: Option<(bool, u32)>)
    ensures
        match r {
            Some((negative, v)) => negative == field_negative(f@) && field_value(f@) == Some(
                v as nat,
            ),
            None => field_value(f@) is None,
        },
{
    if f.len() == 0 {
        return Some((false, 0));
    }
    let negative = f[0] == '-';
    let body = if negative {
        slice_subrange(f, 1, f.len())
    } else {
        f
    };
    assert(body@ == field_body(f@));
    match parse_u32(body) {
        Ok(v) => Some((negative, v)),
        Err(_) => None,
    }
}

/// The length of a field behind its optional `-`.
fn field_body_len(f: &[char]) -> (k: usize)
    ensures
        k == field_body(f@).len(),
{
    if f.len() > 0 && f[0] == '-' {
        f.len() - 1
    } else {
        f.len()
    }
}

/// Computes the milliseconds from the four fields of a written time.
pub fn fields_to_milli(hours: &[char], minutes: &[char], seconds: &[char], fraction: &[char]) -> (r:
    Option<i32>)
    ensures
        r == fields_value(
            (TimeFields {
                hours: hours@,
                minutes: minutes@,
                seconds: seconds@,
                fraction: fraction@,
            }),
        ),
{
    if hours.len() == 0 && minutes.len() == 0 && seconds.len() == 0 && fraction.len() == 0 {
        return None;
    }
    let fraction_len = field_body_len(fraction);
    if fraction_len > 3 {
        return None;
    }
    let h = parse_field(hours);
    let m = parse_field(minutes);
    let s = parse_field(seconds);
    let frac = parse_field(fraction);
    match (h, m, s, frac) {
        (Some((hn, hv)), Some((mn, mv)), Some((sn, sv)), Some((fn_, fv))) => {
            let scale: i64 = if fraction_len == 1 {
                100
            } else if fraction_len == 2 {
                10
            } else {
                1
            };
            let magnitude: i64 = (hv as i64 * 3600 + mv as i64 * 60 + sv as i64) * 1000 + fv as i64
                * scale;
            let value: i64 = if hn || mn || sn || fn_ {
                -magnitude
            } else {
                magnitude
            };
            if -0x8000_0000 <= value && value <= 0x7fff_ffff {
                Some(value as i32)
            } else {
                None
            }
        },
        _ => None,
    }
}

/// Reads a written time from its characters.
pub fn parse_time_chars(s: &[char]) -> (r: Option<i32>)
    ensures
        r == parse_time(s@),
{
    let mark = find_either(s, '.', ',', 0);
    let head = slice_subrange(s, 0, mark);
    assert(head@ == s@.take(mark as int));
    let fraction = if mark < s.len() {
        slice_subrange(s, mark + 1, s.len())
    } else {
        slice_subrange(s, 0, 0)
    };
    assert(fraction@ == if mark < s.len() {
        s@.skip(mark + 1)
    } else {
        Seq::<char>::empty()
    });
    let empty = slice_subrange(s, 0, 0);
    assert(empty@ == Seq::<char>::empty());
    let c1 = find_either(head, ':', ':', 0);
    if c1 == head.len() {
        return fields_to_milli(empty, empty, head, fraction);
    }
    let c2 = find_either(head, ':', ':', c1 + 1);
    if c2 == head.len() {
        let minutes = slice_subrange(head, 0, c1);
        let seconds = slice_subrange(head, c1 + 1, head.len());
        assert(minutes@ == head@.take(c1 as int));
        assert(seconds@ == head@.skip(c1 + 1));
        return fields_to_milli(empty, minutes, seconds, fraction);
    }
    let c3 = find_either(head, ':', ':', c2 + 1);
    if c3 == head.len() {
        let hours = slice_subrange(head, 0, c1);
        let minutes = slice_subrange(head, c1 + 1, c2);
        let seconds = slice_subrange(head, c2 + 1, head.len());
        assert(hours@ == head@.take(c1 as int));
        assert(seconds@ == head@.skip(c2 + 1));
        return fields_to_milli(hours, minutes, seconds, fraction);
    }
    None
}

/// Parses a time written as hours, minutes, seconds and milliseconds.
///
/// Hours and minutes may be left out, and so may the fraction, which is set
/// off by `.` or `,` and has one to three digits. A `+` may stand before a
/// number, and a `-` at the start of any field makes the whole time
/// negative. Returns the number of milliseconds.
pub fn parse_srt_time(time_str: &str) -> (r: Option<i32>)
    ensures
        r == parse_time(time_str@),
{
    let chars = str_to_chars(time_str);
    parse_time_chars(chars.as_slice())
}

/// Appends a count of milliseconds, written as `HH:MM:SS,mmm`, to `out`.
pub fn push_time(out: &mut Vec<char>, milli: i32)
    ensures
        final(out)@ == old(out)@ + format_time(milli as int),
{
    let a: u64 = if milli < 0 {
        (-(milli as i64)) as u64
    } else {
        milli as u64
    };
    let secs: u64 = a / 1000;
    if milli < 0 {
        out.push('-');
    }
    let ghost sign = if milli < 0 {
        seq!['-']
    } else {
        Seq::<char>::empty()
    };
    assert(out@ == old(out)@ + sign);
    push_zero_padded(out, secs / 3600, 2);
    out.push(':');
    push_zero_padded(out, (secs % 3600) / 60, 2);
    out.push(':');
    push_zero_padded(out, secs % 60, 2);
    out.push(',');
    push_zero_padded(out, a % 1000, 3);
    assert(out@ == old(out)@ + format_time(milli as int));
}

/// Writes a count of milliseconds as `HH:MM:SS,mmm`.
pub fn format_srt_time_from_milli(milli: i32) -> (r: String)
    ensures
        r@ == format_time(milli as int),
{
    let mut out: Vec<char> = Vec::new();
    push_time(&mut out, milli);
    chars_to_string(out.as_slice())
}

/// Whether neither `a` nor `b` occurs in `s`.
pub open spec fn lacks(s: Seq<char>, a: char, b: char) -> bool {
    forall|i: int| 0 <= i < s.len() ==> s[i] != a && s[i] != b
}

/// A text made of three fields without `.`, `,` or `:` in them, joined by
/// colons, then `,` and a fraction, is cut into just these four fields.
pub proof fn lemma_split_time(
    hours: Seq<char>,
    minutes: Seq<char>,
    seconds: Seq<char>,
    fraction: Seq<char>,
)
    requires
        lacks(hours, '.', ','),
        lacks(hours, ':', ':'),
        lacks(minutes, '.', ','),
        lacks(minutes, ':', ':'),
        lacks(seconds, '.', ','),
        lacks(seconds, ':', ':'),
    ensures
        split_time(hours + seq![':'] + minutes + seq![':'] + seconds + seq![','] + fraction)
            == Some((TimeFields { hours, minutes, seconds, fraction })),
{
    let s = hours + seq![':'] + minutes + seq![':'] + seconds + seq![','] + fraction;
    let c1 = hours.len() as int;
    let c2 = c1 + 1 + minutes.len();
    let mark = c2 + 1 + seconds.len();
    lemma_index_of_either_is(s, '.', ',', 0, mark);
    let head = s.take(mark);
    assert(head == hours + seq![':'] + minutes + seq![':'] + seconds);
    lemma_index_of_either_is(head, ':', ':', 0, c1);
    lemma_index_of_either_is(head, ':', ':', c1 + 1, c2);
    lemma_index_of_either_is(head, ':', ':', c2 + 1, head.len() as int);
    assert(head.take(c1) == hours);
    assert(head.subrange(c1 + 1, c2) == minutes);
    assert(head.skip(c2 + 1) == seconds);
    assert(s.skip(mark + 1) == fraction);
}

/// A number below a thousand has at most three digits.
pub proof fn lemma_decimal_short(n: nat)
    requires
        n < 1000,
    ensures
        decimal(n).len() <= 3,
{
    reveal_with_fuel(decimal, 3);
}

/// Digits, with a number behind them that fits in 32 bits, are a field with
/// that number.
pub proof fn lemma_digits_field(d: Seq<char>)
    requires
        d.len() > 0,
        all_digits(d),
        digits_value(d) <= u32::MAX,
    ensures
        field_value(d) == Some(digits_value(d)),
        !field_negative(d),
        field_body(d) == d,
        lacks(d, '.', ','),
        lacks(d, ':', ':'),
{
    assert(decimal_digit(d[0]));
    assert(unsigned_body(d) == d);
}

/// Reading a time that was written by `format_time` gives the time back.
pub proof fn lemma_time_round_trip(t: i32)
    ensures
        parse_time(format_time(t as int)) == Some(t),
{
    let a: int = if t < 0 {
        -t
    } else {
        t as int
    };
    let secs = a / 1000;
    let sign = if t < 0 {
        seq!['-']
    } else {
        Seq::<char>::empty()
    };
    let h = (secs / 3600) as nat;
    let m = ((secs % 3600) / 60) as nat;
    let sec = (secs % 60) as nat;
    let ms = (a % 1000) as nat;
    let hd = zero_padded(h, 2);
    let md = zero_padded(m, 2);
    let sd = zero_padded(sec, 2);
    let fd = zero_padded(ms, 3);
    lemma_zero_padded(h, 2);
    lemma_zero_padded(m, 2);
    lemma_zero_padded(sec, 2);
    lemma_zero_padded(ms, 3);
    lemma_decimal_short(ms);
    lemma_digits_field(hd);
    lemma_digits_field(md);
    lemma_digits_field(sd);
    lemma_digits_field(fd);
    let hours = sign + hd;
    assert(format_time(t as int) == hours + seq![':'] + md + seq![':'] + sd + seq![','] + fd);
    assert(lacks(hours, '.', ',') && lacks(hours, ':', ':'));
    lemma_split_time(hours, md, sd, fd);
    if t < 0 {
        assert(field_body(hours) == hd);
    } else {
        assert(hours == hd);
    }
    assert(field_value(hours) == Some(h));
    assert(field_negative(hours) == (t < 0));
    assert(fd.len() == 3);
    assert((h * 3600 + m * 60 + sec) * 1000 + ms * 1 == a);
}

} // verus!
