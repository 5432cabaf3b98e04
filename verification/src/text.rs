//! Character sequences: conversions between strings and vectors of
//! characters, white space, and searching.
//!
//! Every function here works on characters, never on bytes, so an index is
//! always the position of a character.

use vstd::prelude::*;
use vstd::slice::slice_subrange;

verus! {

/// `String::push`, which appends one character to a string. Nothing here
/// proves what it does. The contract takes the string to hold afterwards the
/// characters that it held, in their order, and then `c`.
pub assume_specification[ String::push ](s: &mut String, c: char)
    ensures
        final(s)@ == old(s)@.push(c),
;

/// The characters of `s`, in order.
pub fn str_to_chars(s: &str) -> (v: Vec<char>)
    ensures
        v@ == s@,
{
    let mut v: Vec<char> = Vec::new();
    for c in it: s.chars()
        invariant
            v@ == it.seq().take(it.index()),
            it.seq() == s@,
    {
        v.push(c);
    }
    v
}

/// The string made of the characters of `v`, in order.
pub fn chars_to_string(v: &[char]) -> (s: String)
    ensures
        s@ == v@,
{
    let mut s = String::new();
    let mut i: usize = 0;
    while i < v.len()
        invariant
            i <= v.len(),
            s@ == v@.take(i as int),
        decreases v.len() - i,
    {
        s.push(v[i]);
        i += 1;
    }
    s
}

/// Appends the characters of `tail` to `out`.
pub fn push_chars(out: &mut Vec<char>, tail: &[char])
    ensures
        final(out)@ == old(out)@ + tail@,
{
    let mut i: usize = 0;
    while i < tail.len()
        invariant
            i <= tail.len(),
            out@ == old(out)@ + tail@.take(i as int),
        decreases tail.len() - i,
    {
        out.push(tail[i]);
        i += 1;
    }
}

/// Appends the characters of the string `tail` to `out`.
pub fn push_str_chars(out: &mut Vec<char>, tail: &str)
    ensures
        final(out)@ == old(out)@ + tail@,
{
    for c in it: tail.chars()
        invariant
            out@ == old(out)@ + it.seq().take(it.index()),
            it.seq() == tail@,
    {
        out.push(c);
    }
}

/// Whether two slices hold the same characters.
pub fn same_chars(a: &[char], b: &[char]) -> (r: bool)
    ensures
        r == (a@ == b@),
{
    if a.len() != b.len() {
        return false;
    }
    let mut i: usize = 0;
    while i < a.len()
        invariant
            i <= a.len(),
            a.len() == b.len(),
            a@.take(i as int) == b@.take(i as int),
        decreases a.len() - i,
    {
        if a[i] != b[i] {
            return false;
        }
        assert(a@.take(i + 1) == a@.take(i as int).push(a@[i as int]));
        assert(b@.take(i + 1) == b@.take(i as int).push(b@[i as int]));
        i += 1;
    }
    assert(a@ == a@.take(a.len() as int));
    assert(b@ == b@.take(b.len() as int));
    true
}

/// A character that Unicode counts as white space (`White_Space`).
pub open spec fn is_whitespace(c: char) -> bool {
    let u = c as u32;
    ||| 0x09 <= u <= 0x0d
    ||| u == 0x20
    ||| u == 0x85
    ||| u == 0xa0
    ||| u == 0x1680
    ||| 0x2000 <= u <= 0x200a
    ||| u == 0x2028
    ||| u == 0x2029
    ||| u == 0x202f
    ||| u == 0x205f
    ||| u == 0x3000
}

/// Tells whether a character is white space.
pub fn is_whitespace_char(c: char) -> (r: bool)
    ensures
        r == is_whitespace(c),
{
    let u: u32 = c as u32;
    (0x09 <= u && u <= 0x0d) || u == 0x20 || u == 0x85 || u == 0xa0 || u == 0x1680 || (0x2000 <= u
        && u <= 0x200a) || u == 0x2028 || u == 0x2029 || u == 0x202f || u == 0x205f || u
        == 0x3000
}

/// `s` without the white space at its end.
pub open spec fn trim_end(s: Seq<char>) -> Seq<char>
    decreases s.len(),
{
    if s.len() > 0 && is_whitespace(s.last()) {
        trim_end(s.drop_last())
    } else {
        s
    }
}

/// `s` without the white space at its start.
pub open spec fn trim_start(s: Seq<char>) -> Seq<char>
    decreases s.len(),
{
    if s.len() > 0 && is_whitespace(s.first()) {
        trim_start(s.skip(1))
    } else {
        s
    }
}

/// `s` without the white space at either end.
pub open spec fn trim(s: Seq<char>) -> Seq<char> {
    trim_start(trim_end(s))
}

/// Appending white space to a sequence does not change what is left of it
/// once its end is trimmed.
pub proof fn lemma_trim_end_push(s: Seq<char>, c: char)
    requires
        is_whitespace(c),
    ensures
        trim_end(s.push(c)) == trim_end(s),
{
    assert(s.push(c).drop_last() == s);
}

/// The length of `s` once the white space at its end is removed.
pub fn trim_end_len(s: &[char]) -> (k: usize)
    ensures
        k <= s.len(),
        s@.take(k as int) == trim_end(s@),
{
    let mut k: usize = s.len();
    assert(s@.take(k as int) == s@);
    while k > 0 && is_whitespace_char(s[k - 1])
        invariant
            k <= s.len(),
            trim_end(s@.take(k as int)) == trim_end(s@),
        decreases k,
    {
        assert(s@.take(k as int).drop_last() == s@.take(k - 1));
        k -= 1;
    }
    k
}

/// The number of white space characters at the start of `s`.
pub fn trim_start_len(s: &[char]) -> (k: usize)
    ensures
        k <= s.len(),
        s@.skip(k as int) == trim_start(s@),
{
    let mut k: usize = 0;
    assert(s@.skip(0) == s@);
    while k < s.len() && is_whitespace_char(s[k])
        invariant
            k <= s.len(),
            trim_start(s@.skip(k as int)) == trim_start(s@),
        decreases s.len() - k,
    {
        assert(s@.skip(k as int).skip(1) == s@.skip(k + 1));
        k += 1;
    }
    k
}

/// The part of `s` between the white space at its two ends.
pub fn trimmed(s: &[char]) -> (t: &[char])
    ensures
        t@ == trim(s@),
{
    let end = trim_end_len(s);
    let head = slice_subrange(s, 0, end);
    assert(head@ == s@.take(end as int));
    let start = trim_start_len(head);
    let t = slice_subrange(head, start, end);
    assert(t@ == head@.skip(start as int));
    t
}

/// The first position at or after `from` where `s` holds `a` or `b`, or the
/// length of `s` when there is none.
pub open spec fn index_of_either(s: Seq<char>, a: char, b: char, from: int) -> int
    decreases s.len() - from,
{
    if from < 0 || from >= s.len() {
        s.len() as int
    } else if s[from] == a || s[from] == b {
        from
    } else {
        index_of_either(s, a, b, from + 1)
    }
}

/// The first position at or after `from` where `s` holds `c`, or the length
/// of `s` when there is none.
pub open spec fn index_of(s: Seq<char>, c: char, from: int) -> int {
    index_of_either(s, c, c, from)
}

/// `index_of_either` gives a position that holds one of the two characters,
/// and none of the positions skipped does.
pub proof fn lemma_index_of_either(s: Seq<char>, a: char, b: char, from: int)
    requires
        0 <= from <= s.len(),
    ensures
        from <= index_of_either(s, a, b, from) <= s.len(),
        forall|j: int| from <= j < index_of_either(s, a, b, from) ==> s[j] != a && s[j] != b,
        index_of_either(s, a, b, from) < s.len() ==> {
            let k = index_of_either(s, a, b, from);
            s[k] == a || s[k] == b
        },
    decreases s.len() - from,
{
    if from < s.len() && !(s[from] == a || s[from] == b) {
        lemma_index_of_either(s, a, b, from + 1);
    }
}

/// A position `k` that holds one of the two characters, with none of them
/// between `from` and `k`, is the one that `index_of_either` gives.
pub proof fn lemma_index_of_either_is(s: Seq<char>, a: char, b: char, from: int, k: int)
    requires
        0 <= from <= k <= s.len(),
        forall|j: int| from <= j < k ==> s[j] != a && s[j] != b,
        k < s.len() ==> s[k] == a || s[k] == b,
    ensures
        index_of_either(s, a, b, from) == k,
    decreases k - from,
{
    if from < k {
        lemma_index_of_either_is(s, a, b, from + 1, k);
    }
}

/// The first position at or after `from` where `s` holds `a` or `b`, or the
/// length of `s` when there is none.
pub fn find_either(s: &[char], a: char, b: char, from: usize) -> (k: usize)
    ensures
        k == index_of_either(s@, a, b, from as int),
        k <= s.len(),
        from <= s.len() ==> from <= k,
{
    if from >= s.len() {
        return s.len();
    }
    let mut k: usize = from;
    while k < s.len() && !(s[k] == a || s[k] == b)
        invariant
            from <= k <= s.len(),
            index_of_either(s@, a, b, k as int) == index_of_either(s@, a, b, from as int),
        decreases s.len() - k,
    {
        k += 1;
    }
    k
}

/// Whether `pat` stands in `s` at position `k`.
pub open spec fn matches_at(s: Seq<char>, pat: Seq<char>, k: int) -> bool {
    &&& 0 <= k
    &&& k + pat.len() <= s.len()
    &&& s.subrange(k, k + pat.len()) == pat
}

/// The first position at or after `from` where `pat` stands in `s`.
pub open spec fn find_from(s: Seq<char>, pat: Seq<char>, from: int) -> Option<int>
    decreases s.len() + 1 - from,
{
    if from < 0 || from + pat.len() > s.len() {
        None
    } else if matches_at(s, pat, from) {
        Some(from)
    } else {
        find_from(s, pat, from + 1)
    }
}

/// What `find_from` gives is a match, no earlier position from `from` on is
/// one, and where it gives nothing there is no match from `from` on.
pub proof fn lemma_find_from(s: Seq<char>, pat: Seq<char>, from: int)
    requires
        0 <= from,
    ensures
        match find_from(s, pat, from) {
            Some(k) => from <= k && matches_at(s, pat, k) && forall|j: int|
                from <= j < k ==> !matches_at(s, pat, j),
            None => forall|j: int| from <= j ==> !matches_at(s, pat, j),
        },
    decreases s.len() + 1 - from,
{
    if from + pat.len() <= s.len() && !matches_at(s, pat, from) {
        lemma_find_from(s, pat, from + 1);
    }
}

/// A match at `k` with none between `from` and `k` is what `find_from` gives.
pub proof fn lemma_find_from_is(s: Seq<char>, pat: Seq<char>, from: int, k: int)
    requires
        0 <= from <= k,
        matches_at(s, pat, k),
        forall|j: int| from <= j < k ==> !matches_at(s, pat, j),
    ensures
        find_from(s, pat, from) == Some(k),
    decreases k - from,
{
    if from < k {
        lemma_find_from_is(s, pat, from + 1, k);
    }
}

/// Whether `pat` stands in `s` at position `k`.
pub fn has_match_at(s: &[char], pat: &[char], k: usize) -> (r: bool)
    ensures
        r == matches_at(s@, pat@, k as int),
{
    if k > s.len() || pat.len() > s.len() - k {
        return false;
    }
    let part = slice_subrange(s, k, k + pat.len());
    same_chars(part, pat)
}

/// The first position at or after `from` where `pat` stands in `s`. An
/// empty pattern stands everywhere.
pub fn find_start_at(s: &[char], pat: &[char], from: usize) -> (r: Option<usize>)
    requires
        from <= s.len(),
    ensures
        match r {
            Some(k) => find_from(s@, pat@, from as int) == Some(k as int) && k + pat.len()
                <= s.len(),
            None => find_from(s@, pat@, from as int) is None,
        },
{
    if pat.len() > s.len() {
        return None;
    }
    if pat.len() == 0 {
        assert(s@.subrange(from as int, from as int) == pat@);
        return Some(from);
    }
    let last: usize = s.len() - pat.len();
    let mut k: usize = from;
    while k <= last
        invariant
            from <= k,
            last == s.len() - pat.len(),
            0 < pat.len() <= s.len(),
            find_from(s@, pat@, k as int) == find_from(s@, pat@, from as int),
        decreases last + 1 - k,
    {
        if has_match_at(s, pat, k) {
            return Some(k);
        }
        k += 1;
    }
    None
}

} // verus!
