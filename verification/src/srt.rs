//! Subtitles: the record, its written form, and the parser that reads a
//! whole file of them.

use vstd::prelude::*;
use vstd::slice::slice_subrange;
use crate::number::{decimal, parse_u32, parse_u32_spec, push_decimal, NumberError};
use crate::text::{
    chars_to_string, find_either, find_from, find_start_at, index_of, is_whitespace,
    lemma_index_of_either, push_str_chars, str_to_chars, trim, trim_end, trim_end_len, trimmed,
};
use crate::roundtrip::lemma_parse_text_chained;
use crate::time::{format_time, parse_time, parse_time_chars, push_time};

verus! {

/// The most text lines that one subtitle can hold.
pub const MAX_TEXT_LINES: usize = 5;

/// A subtitle as the contracts see it.
pub struct SubtitleView {
    pub num: u32,
    pub time_from: i32,
    pub time_to: i32,
    pub texts: Seq<Seq<char>>,
}

/// One subtitle: its number as the file gives it, the time range in
/// milliseconds, and its lines of text from top to bottom.
#[derive(Clone, Debug, PartialEq, Eq)]
pub struct Subtitle {
    /// The number of the subtitle, as the file gives it.
    pub num: u32,
    /// When the subtitle appears, in milliseconds.
    pub time_from: i32,
    /// When the subtitle goes, in milliseconds.
    pub time_to: i32,
    /// The lines of text, from top to bottom.
    pub texts: Vec<String>,
}

/// The lines of text as sequences of characters.
pub open spec fn text_views(texts: Seq<String>) -> Seq<Seq<char>> {
    Seq::new(texts.len(), |i: int| texts[i]@)
}

impl View for Subtitle {
    type V = SubtitleView;

    open spec fn view(&self) -> SubtitleView {
        SubtitleView {
            num: self.num,
            time_from: self.time_from,
            time_to: self.time_to,
            texts: text_views(self.texts@),
        }
    }
}

/// The views of the subtitles in a vector.
pub open spec fn subtitle_views(subs: Seq<Subtitle>) -> Seq<SubtitleView> {
    Seq::new(subs.len(), |i: int| subs[i]@)
}

/// A subtitle with number zero, both times zero and no text.
pub open spec fn blank() -> SubtitleView {
    SubtitleView { num: 0, time_from: 0, time_to: 0, texts: Seq::empty() }
}

/// A carriage return and a line feed.
pub open spec fn crlf() -> Seq<char> {
    seq!['\r', '\n']
}

/// The arrow between the two times of a subtitle.
pub open spec fn arrow() -> Seq<char> {
    seq!['-', '-', '>']
}

/// Lines of text, each followed by a carriage return and a line feed.
pub open spec fn serialize_texts(texts: Seq<Seq<char>>) -> Seq<char>
    decreases texts.len(),
{
    if texts.len() == 0 {
        Seq::empty()
    } else {
        texts.first() + crlf() + serialize_texts(texts.skip(1))
    }
}

/// The written form of one subtitle: its number, its two times around an
/// arrow, its lines of text, and an empty line.
pub open spec fn serialize(s: SubtitleView) -> Seq<char> {
    decimal(s.num as nat) + crlf() + format_time(s.time_from as int) + seq![' '] + arrow()
        + seq![' '] + format_time(s.time_to as int) + crlf() + serialize_texts(s.texts) + crlf()
}

/// The written form of subtitles, one after another.
pub open spec fn serialize_all(subs: Seq<SubtitleView>) -> Seq<char>
    decreases subs.len(),
{
    if subs.len() == 0 {
        Seq::empty()
    } else {
        serialize(subs.first()) + serialize_all(subs.skip(1))
    }
}

impl Default for Subtitle {
    /// A subtitle with number zero, both times zero and no text.
    fn default() -> (s: Subtitle)
        ensures
            s@ == blank(),
    {
        let s = Subtitle { num: 0, time_from: 0, time_to: 0, texts: Vec::new() };
        assert(s@.texts == Seq::<Seq<char>>::empty());
        s
    }
}

impl Subtitle {
    /// Appends the written form of the subtitle to `out`.
    pub fn push_to(&self, out: &mut Vec<char>)
        ensures
            final(out)@ == old(out)@ + serialize(self@),
    {
        push_decimal(out, self.num as u64);
        push_str_chars(out, "\r\n");
        push_time(out, self.time_from);
        push_str_chars(out, " --> ");
        push_time(out, self.time_to);
        push_str_chars(out, "\r\n");
        proof {
            reveal_strlit("\r\n");
            reveal_strlit(" --> ");
            assert("\r\n"@ == crlf());
            assert(" --> "@ == seq![' '] + arrow() + seq![' ']);
        }
        let ghost head = out@;
        assert(head == old(out)@ + (decimal(self.num as nat) + crlf() + format_time(
            self.time_from as int,
        ) + seq![' '] + arrow() + seq![' '] + format_time(self.time_to as int) + crlf()));
        let ghost texts = self@.texts;
        let mut i: usize = 0;
        assert(texts.skip(0) == texts);
        while i < self.texts.len()
            invariant
                i <= self.texts.len(),
                texts == self@.texts,
                out@ + serialize_texts(texts.skip(i as int)) == head + serialize_texts(texts),
            decreases self.texts.len() - i,
        {
            let ghost before = out@;
            push_str_chars(out, self.texts[i].as_str());
            push_str_chars(out, "\r\n");
            proof {
                reveal_strlit("\r\n");
                let rest = texts.skip(i as int);
                assert(rest.first() == self.texts[i as int]@);
                assert(rest.skip(1) == texts.skip(i + 1));
                assert(out@ == before + (rest.first() + crlf()));
                assert(out@ + serialize_texts(texts.skip(i + 1)) == before + (rest.first() + crlf()
                    + serialize_texts(rest.skip(1))));
            }
            i += 1;
        }
        assert(serialize_texts(texts.skip(i as int)) == Seq::<char>::empty());
        assert(out@ + Seq::<char>::empty() == out@);
        push_str_chars(out, "\r\n");
        proof {
            reveal_strlit("\r\n");
            assert(out@ == old(out)@ + serialize(self@));
        }
    }

    /// The written form of the subtitle.
    pub fn to_string(&self) -> (r: String)
        ensures
            r@ == serialize(self@),
    {
        let mut out: Vec<char> = Vec::new();
        self.push_to(&mut out);
        chars_to_string(out.as_slice())
    }

    /// The number of lines of text.
    pub fn text_count(&self) -> (n: usize)
        ensures
            n == self@.texts.len(),
    {
        self.texts.len()
    }

    /// Adds a line of text, unless the subtitle is full. Returns true if
    /// it is full, and then leaves it as it was.
    pub fn push_text(&mut self, line: &str) -> (full: bool)
        ensures
            full == (old(self).texts.len() >= MAX_TEXT_LINES),
            full ==> *final(self) == *old(self),
            !full ==> final(self)@ == (SubtitleView {
                texts: old(self)@.texts.push(line@),
                ..old(self)@
            }),
    {
        if self.texts.len() >= MAX_TEXT_LINES {
            true
        } else {
            self.texts.push(line.to_owned());
            assert(text_views(self.texts@) == text_views(old(self).texts@).push(line@));
            false
        }
    }
}

/// The written form of all the subtitles, one after another.
pub fn serialize_subtitles(subtitles: &Vec<Subtitle>) -> (r: String)
    ensures
        r@ == serialize_all(subtitle_views(subtitles@)),
{
    let ghost subs = subtitle_views(subtitles@);
    let mut text: Vec<char> = Vec::new();
    let mut i: usize = 0;
    assert(subs.skip(0) == subs);
    while i < subtitles.len()
        invariant
            i <= subtitles.len(),
            subs == subtitle_views(subtitles@),
            text@ + serialize_all(subs.skip(i as int)) == serialize_all(subs),
        decreases subtitles.len() - i,
    {
        let ghost before = text@;
        subtitles[i].push_to(&mut text);
        proof {
            let rest = subs.skip(i as int);
            assert(rest.first() == subtitles[i as int]@);
            assert(rest.skip(1) == subs.skip(i + 1));
            assert(text@ + serialize_all(subs.skip(i + 1)) == before + (serialize(rest.first())
                + serialize_all(rest.skip(1))));
        }
        i += 1;
    }
    assert(serialize_all(subs.skip(i as int)) == Seq::<char>::empty());
    assert(text@ + Seq::<char>::empty() == text@);
    chars_to_string(text.as_slice())
}

/// What the parser waits for.
#[derive(Clone, Copy, Debug, PartialEq, Eq, Structural)]
pub enum State {
    /// The number of the next subtitle.
    WantsIndex,
    /// The line with the two times.
    WantsTimeRange,
    /// The first line of text.
    WantsFirstText,
    /// The first line of text still, after an empty line where it should
    /// have stood.
    WantsFirstTextRetry,
    /// One more line of text, or the empty line that ends the subtitle.
    WantsMoreText,
}

/// What is wrong with a line.
#[derive(Clone, Copy, Debug, PartialEq, Eq, Structural)]
pub enum ParseErrorKind {
    /// The line should be the number of a subtitle and is not one.
    BadNumber(NumberError),
    /// The line should hold two times and has no arrow.
    BadSeparator,
    /// What stands before the arrow is not a time.
    BadTimeFrom,
    /// What stands after the arrow is not a time.
    BadTimeTo,
    /// The subtitle with this number has a line of text too many.
    TooMuchText(u32),
}

/// A parse error as the contracts see it.
pub struct ParseErrorView {
    pub kind: ParseErrorKind,
    pub line: nat,
    pub text: Seq<char>,
}

/// Why a file could not be parsed: what is wrong, the number of the line
/// (the first line is line 1), and the text that was refused.
#[derive(Clone, Debug, PartialEq, Eq)]
pub struct ParseError {
    pub kind: ParseErrorKind,
    pub line: usize,
    pub text: String,
}

impl View for ParseError {
    type V = ParseErrorView;

    open spec fn view(&self) -> ParseErrorView {
        ParseErrorView { kind: self.kind, line: self.line as nat, text: self.text@ }
    }
}

/// The words for what is wrong with a number.
pub open spec fn number_error_text(reason: NumberError) -> Seq<char> {
    match reason {
        NumberError::Empty => "cannot parse integer from empty string"@,
        NumberError::InvalidDigit => "invalid digit found in string"@,
        NumberError::TooLarge => "number too large to fit in target type"@,
    }
}

/// The message of a parse error.
pub open spec fn error_message(e: ParseErrorView) -> Seq<char> {
    match e.kind {
        ParseErrorKind::BadNumber(reason) => "Bad number at line "@ + decimal(e.line) + ": "@
            + number_error_text(reason) + ": '"@ + e.text + "'"@,
        ParseErrorKind::BadSeparator => "Bad duration separator at line "@ + decimal(e.line)
            + ": "@ + e.text,
        ParseErrorKind::BadTimeFrom => "Bad time 'from' at line "@ + decimal(e.line) + ": "@
            + e.text,
        ParseErrorKind::BadTimeTo => "Bad time 'to' at line "@ + decimal(e.line) + ": "@ + e.text,
        ParseErrorKind::TooMuchText(num) => "Too much text at line "@ + decimal(e.line) + " sub "@
            + decimal(num as nat),
    }
}

impl ParseError {
    /// The message of the error, for a reader.
    pub fn message(&self) -> (r: String)
        ensures
            r@ == error_message(self@),
    {
        let mut out: Vec<char> = Vec::new();
        match self.kind {
            ParseErrorKind::BadNumber(reason) => {
                push_str_chars(&mut out, "Bad number at line ");
                push_decimal(&mut out, self.line as u64);
                push_str_chars(&mut out, ": ");
                match reason {
                    NumberError::Empty => push_str_chars(
                        &mut out,
                        "cannot parse integer from empty string",
                    ),
                    NumberError::InvalidDigit => push_str_chars(
                        &mut out,
                        "invalid digit found in string",
                    ),
                    NumberError::TooLarge => push_str_chars(
                        &mut out,
                        "number too large to fit in target type",
                    ),
                }
                push_str_chars(&mut out, ": '");
                push_str_chars(&mut out, self.text.as_str());
                push_str_chars(&mut out, "'");
            },
            ParseErrorKind::BadSeparator => {
                push_str_chars(&mut out, "Bad duration separator at line ");
                push_decimal(&mut out, self.line as u64);
                push_str_chars(&mut out, ": ");
                push_str_chars(&mut out, self.text.as_str());
            },
            ParseErrorKind::BadTimeFrom => {
                push_str_chars(&mut out, "Bad time 'from' at line ");
                push_decimal(&mut out, self.line as u64);
                push_str_chars(&mut out, ": ");
                push_str_chars(&mut out, self.text.as_str());
            },
            ParseErrorKind::BadTimeTo => {
                push_str_chars(&mut out, "Bad time 'to' at line ");
                push_decimal(&mut out, self.line as u64);
                push_str_chars(&mut out, ": ");
                push_str_chars(&mut out, self.text.as_str());
            },
            ParseErrorKind::TooMuchText(num) => {
                push_str_chars(&mut out, "Too much text at line ");
                push_decimal(&mut out, self.line as u64);
                push_str_chars(&mut out, " sub ");
                push_decimal(&mut out, num as u64);
            },
        }
        assert(out@ == error_message(self@));
        chars_to_string(out.as_slice())
    }
}

/// The parser as the contracts see it.
pub struct ParserView {
    pub state: State,
    pub current: SubtitleView,
    pub done: Seq<SubtitleView>,
}

/// The parser between two lines: what it waits for, the subtitle it is
/// reading, and the subtitles it has read.
#[derive(Clone, Debug, PartialEq, Eq)]
pub struct Parser {
    pub state: State,
    pub current: Subtitle,
    pub done: Vec<Subtitle>,
}

impl View for Parser {
    type V = ParserView;

    open spec fn view(&self) -> ParserView {
        ParserView {
            state: self.state,
            current: self.current@,
            done: subtitle_views(self.done@),
        }
    }
}

/// The parser before the first line.
pub open spec fn initial() -> ParserView {
    ParserView { state: State::WantsIndex, current: blank(), done: Seq::empty() }
}

/// The subtitle with one more line of text.
pub open spec fn with_text(s: SubtitleView, line: Seq<char>) -> SubtitleView {
    SubtitleView { texts: s.texts.push(line), ..s }
}

/// Whether a line is the number that follows the number of `s`.
pub open spec fn is_next_number(s: SubtitleView, line: Seq<char>) -> bool {
    match parse_u32_spec(line) {
        Ok(n) => n == s.num + 1,
        Err(_) => false,
    }
}

/// What one line does to the parser. The line has no white space at its
/// end; `line_no` is its number in the file.
pub open spec fn step(p: ParserView, line: Seq<char>, line_no: nat) -> Result<
    ParserView,
    ParseErrorView,
> {
    match p.state {
        State::WantsIndex => {
            if line.len() == 0 {
                Ok(p)
            } else {
                match parse_u32_spec(line) {
                    Ok(n) => Ok(
                        ParserView {
                            state: State::WantsTimeRange,
                            current: SubtitleView { num: n, ..p.current },
                            ..p
                        },
                    ),
                    Err(reason) => Err(
                        ParseErrorView {
                            kind: ParseErrorKind::BadNumber(reason),
                            line: line_no,
                            text: line,
                        },
                    ),
                }
            }
        },
        State::WantsTimeRange => {
            match find_from(line, arrow(), 0) {
                None => Err(
                    ParseErrorView { kind: ParseErrorKind::BadSeparator, line: line_no, text: line },
                ),
                Some(idx) => {
                    let left = trim(line.take(idx));
                    let right = trim(line.skip(idx + 3));
                    match (parse_time(left), parse_time(right)) {
                        (None, _) => Err(
                            ParseErrorView {
                                kind: ParseErrorKind::BadTimeFrom,
                                line: line_no,
                                text: left,
                            },
                        ),
                        (Some(_), None) => Err(
                            ParseErrorView {
                                kind: ParseErrorKind::BadTimeTo,
                                line: line_no,
                                text: right,
                            },
                        ),
                        (Some(from), Some(to)) => Ok(
                            ParserView {
                                state: State::WantsFirstText,
                                current: SubtitleView {
                                    time_from: from,
                                    time_to: to,
                                    ..p.current
                                },
                                ..p
                            },
                        ),
                    }
                },
            }
        },
        State::WantsFirstText => {
            if line.len() == 0 {
                Ok(ParserView { state: State::WantsFirstTextRetry, ..p })
            } else {
                Ok(
                    ParserView {
                        state: State::WantsMoreText,
                        current: with_text(p.current, line),
                        ..p
                    },
                )
            }
        },
        State::WantsFirstTextRetry => {
            if line.len() == 0 {
                Ok(p)
            } else if is_next_number(p.current, line) {
                Ok(
                    ParserView {
                        state: State::WantsTimeRange,
                        current: SubtitleView { num: (p.current.num + 1) as u32, ..blank() },
                        done: p.done.push(p.current),
                    },
                )
            } else {
                Ok(
                    ParserView {
                        state: State::WantsMoreText,
                        current: with_text(p.current, line),
                        ..p
                    },
                )
            }
        },
        State::WantsMoreText => {
            if line.len() == 0 {
                Ok(
                    ParserView {
                        state: State::WantsIndex,
                        current: blank(),
                        done: p.done.push(p.current),
                    },
                )
            } else if p.current.texts.len() >= MAX_TEXT_LINES {
                Err(
                    ParseErrorView {
                        kind: ParseErrorKind::TooMuchText(p.current.num),
                        line: line_no,
                        text: line,
                    },
                )
            } else {
                Ok(ParserView { current: with_text(p.current, line), ..p })
            }
        },
    }
}

/// The subtitles once the input has ended: those read, and the one being
/// read if it has text.
pub open spec fn finish(p: ParserView) -> Seq<SubtitleView> {
    if p.current.texts.len() > 0 {
        p.done.push(p.current)
    } else {
        p.done
    }
}

/// What is left of a text behind its first line.
pub open spec fn after_first_line(s: Seq<char>) -> Seq<char> {
    let k = index_of(s, '\n', 0);
    if k < s.len() {
        s.skip(k + 1)
    } else {
        Seq::empty()
    }
}

/// The first line of a text, without its line feed and without the white
/// space at its end.
pub open spec fn first_line(s: Seq<char>) -> Seq<char> {
    trim_end(s.take(index_of(s, '\n', 0)))
}

/// What the parser makes of a text, line by line. A line ends at a line
/// feed or at the end of the text, and `line_no` is the number of the first
/// line of `s`.
pub open spec fn parse_lines(p: ParserView, s: Seq<char>, line_no: nat) -> Result<
    Seq<SubtitleView>,
    ParseErrorView,
>
    decreases s.len(),
    via parse_lines_decreases
{
    if s.len() == 0 {
        Ok(finish(p))
    } else {
        match step(p, first_line(s), line_no) {
            Err(e) => Err(e),
            Ok(next) => parse_lines(next, after_first_line(s), line_no + 1),
        }
    }
}

#[via_fn]
proof fn parse_lines_decreases(p: ParserView, s: Seq<char>, line_no: nat) {
    lemma_index_of_either(s, '\n', '\n', 0);
}

/// The subtitles that a whole text holds, or the first error in it.
pub open spec fn parse_text(s: Seq<char>) -> Result<Seq<SubtitleView>, ParseErrorView> {
    parse_lines(initial(), s, 1)
}

/// A line as the parser keeps it: not empty, without a line feed, and
/// without white space at its end.
pub open spec fn clean_line(l: Seq<char>) -> bool {
    &&& l.len() > 0
    &&& !is_whitespace(l.last())
    &&& forall|i: int| 0 <= i < l.len() ==> l[i] != '\n'
}

/// A subtitle as the parser keeps it: at most five lines of text, each of
/// them clean.
pub open spec fn clean_subtitle(s: SubtitleView) -> bool {
    &&& s.texts.len() <= MAX_TEXT_LINES
    &&& forall|j: int| 0 <= j < s.texts.len() ==> clean_line(#[trigger] s.texts[j])
}

/// Whether every subtitle is clean, and every subtitle without text but the
/// last is followed by the subtitle with the next number.
pub open spec fn well_chained(subs: Seq<SubtitleView>) -> bool {
    &&& forall|i: int| 0 <= i < subs.len() ==> clean_subtitle(#[trigger] subs[i])
    &&& forall|i: int|
        0 <= i < subs.len() - 1 && (#[trigger] subs[i]).texts.len() == 0 ==> subs[i + 1].num
            == subs[i].num + 1
}

/// The error for a line.
fn error_at(kind: ParseErrorKind, line_no: usize, text: &[char]) -> (e: ParseError)
    ensures
        e@ == (ParseErrorView { kind, line: line_no as nat, text: text@ }),
{
    ParseError { kind, line: line_no, text: chars_to_string(text) }
}

/// The subtitle with one more line of text.
fn add_text(s: Subtitle, line: &[char]) -> (r: Subtitle)
    ensures
        r@ == with_text(s@, line@),
{
    let mut r = s;
    r.texts.push(chars_to_string(line));
    assert(text_views(r.texts@) == text_views(s.texts@).push(line@));
    r
}

/// The subtitles with one more at the end.
fn add_subtitle(done: Vec<Subtitle>, s: Subtitle) -> (r: Vec<Subtitle>)
    ensures
        subtitle_views(r@) == subtitle_views(done@).push(s@),
{
    let mut r = done;
    r.push(s);
    assert(subtitle_views(r@) == subtitle_views(done@).push(s@));
    r
}

impl Parser {
    /// The parser before the first line.
    pub fn new() -> (p: Parser)
        ensures
            p@ == initial(),
    {
        let p = Parser { state: State::WantsIndex, current: Subtitle::default(), done: Vec::new() };
        assert(subtitle_views(p.done@) == Seq::<SubtitleView>::empty());
        p
    }

    /// Takes one line, which has no white space at its end, and gives the
    /// parser as it is after it, or the error that the line is.
    pub fn feed_line(self, line: &[char], line_no: usize) -> (r: Result<Parser, ParseError>)
        ensures
            match r {
                Ok(p) => step(self@, line@, line_no as nat) == Ok::<ParserView, ParseErrorView>(
                    p@,
                ),
                Err(e) => step(self@, line@, line_no as nat) == Err::<ParserView, ParseErrorView>(
                    e@,
                ),
            },
    {
        let Parser { state, current, done } = self;
        match state {
            State::WantsIndex => {
                if line.len() == 0 {
                    Ok(Parser { state, current, done })
                } else {
                    match parse_u32(line) {
                        Ok(n) => {
                            let mut current = current;
                            current.num = n;
                            Ok(Parser { state: State::WantsTimeRange, current, done })
                        },
                        Err(reason) => Err(
                            error_at(ParseErrorKind::BadNumber(reason), line_no, line),
                        ),
                    }
                }
            },
            State::WantsTimeRange => {
                let pattern: [char; 3] = ['-', '-', '>'];
                assert(pattern@ == arrow());
                match find_start_at(line, pattern.as_slice(), 0) {
                    None => Err(error_at(ParseErrorKind::BadSeparator, line_no, line)),
                    Some(idx) => {
                        let left = trimmed(slice_subrange(line, 0, idx));
                        let right = trimmed(slice_subrange(line, idx + 3, line.len()));
                        assert(left@ == trim(line@.take(idx as int)));
                        assert(right@ == trim(line@.skip(idx + 3)));
                        match parse_time_chars(left) {
                            None => Err(error_at(ParseErrorKind::BadTimeFrom, line_no, left)),
                            Some(from) => match parse_time_chars(right) {
                                None => Err(error_at(ParseErrorKind::BadTimeTo, line_no, right)),
                                Some(to) => {
                                    let mut current = current;
                                    current.time_from = from;
                                    current.time_to = to;
                                    Ok(Parser { state: State::WantsFirstText, current, done })
                                },
                            },
                        }
                    },
                }
            },
            State::WantsFirstText => {
                if line.len() == 0 {
                    Ok(Parser { state: State::WantsFirstTextRetry, current, done })
                } else {
                    Ok(
                        Parser {
                            state: State::WantsMoreText,
                            current: add_text(current, line),
                            done,
                        },
                    )
                }
            },
            State::WantsFirstTextRetry => {
                if line.len() == 0 {
                    Ok(Parser { state, current, done })
                } else {
                    let next: Option<u32> = match parse_u32(line) {
                        Ok(n) => if current.num < 0xffff_ffff && n == current.num + 1 {
                            Some(n)
                        } else {
                            None
                        },
                        Err(_) => None,
                    };
                    match next {
                        Some(n) => {
                            let mut fresh = Subtitle::default();
                            fresh.num = n;
                            Ok(
                                Parser {
                                    state: State::WantsTimeRange,
                                    current: fresh,
                                    done: add_subtitle(done, current),
                                },
                            )
                        },
                        None => Ok(
                            Parser {
                                state: State::WantsMoreText,
                                current: add_text(current, line),
                                done,
                            },
                        ),
                    }
                }
            },
            State::WantsMoreText => {
                if line.len() == 0 {
                    Ok(
                        Parser {
                            state: State::WantsIndex,
                            current: Subtitle::default(),
                            done: add_subtitle(done, current),
                        },
                    )
                } else if current.texts.len() >= MAX_TEXT_LINES {
                    Err(error_at(ParseErrorKind::TooMuchText(current.num), line_no, line))
                } else {
                    Ok(Parser { state, current: add_text(current, line), done })
                }
            },
        }
    }

    /// Ends the input: gives the subtitles read, with the one being read
    /// if it has text.
    pub fn finish(self) -> (subs: Vec<Subtitle>)
        ensures
            subtitle_views(subs@) == finish(self@),
    {
        let Parser { state, current, done } = self;
        if current.texts.len() > 0 {
            add_subtitle(done, current)
        } else {
            done
        }
    }
}

/// Parses the characters of a whole file.
pub fn parse_chars(content: &[char]) -> (r: Result<Vec<Subtitle>, ParseError>)
    ensures
        match r {
            Ok(subs) => parse_text(content@) == Ok::<Seq<SubtitleView>, ParseErrorView>(
                subtitle_views(subs@),
            ),
            Err(e) => parse_text(content@) == Err::<Seq<SubtitleView>, ParseErrorView>(e@),
        },
        r matches Ok(subs) ==> well_chained(subtitle_views(subs@)),
{
    proof {
        lemma_parse_text_chained(content@);
    }
    let mut parser = Parser::new();
    let mut pos: usize = 0;
    let mut line_no: usize = 1;
    assert(content@.skip(0) == content@);
    while pos < content.len()
        invariant
            pos <= content.len(),
            line_no <= pos + 1,
            pos < content.len() ==> parse_text(content@) == parse_lines(
                parser@,
                content@.skip(pos as int),
                line_no as nat,
            ),
            pos == content.len() ==> parse_text(content@) == Ok::<
                Seq<SubtitleView>,
                ParseErrorView,
            >(finish(parser@)),
        decreases content.len() - pos,
    {
        let rest = slice_subrange(content, pos, content.len());
        assert(rest@ == content@.skip(pos as int));
        let k = find_either(rest, '\n', '\n', 0);
        let raw = slice_subrange(rest, 0, k);
        assert(raw@ == rest@.take(k as int));
        let line = slice_subrange(raw, 0, trim_end_len(raw));
        assert(line@ == first_line(rest@));
        match parser.feed_line(line, line_no) {
            Err(e) => {
                return Err(e);
            },
            Ok(next) => {
                parser = next;
            },
        }
        proof {
            let tail = after_first_line(rest@);
            assert(parse_text(content@) == parse_lines(parser@, tail, (line_no + 1) as nat));
            if tail.len() == 0 {
                assert(parse_lines(parser@, tail, (line_no + 1) as nat) == Ok::<
                    Seq<SubtitleView>,
                    ParseErrorView,
                >(finish(parser@)));
            }
        }
        if k < rest.len() {
            assert(after_first_line(rest@) == content@.skip(pos + k + 1));
            pos = pos + k + 1;
            if pos < content.len() {
                line_no = line_no + 1;
            }
        } else {
            pos = content.len();
        }
    }
    Ok(parser.finish())
}

/// Parses the text of a whole file. An error comes back as its message.
pub fn parse_srt(content: &str) -> (r: Result<Vec<Subtitle>, String>)
    ensures
        match r {
            Ok(subs) => parse_text(content@) == Ok::<Seq<SubtitleView>, ParseErrorView>(
                subtitle_views(subs@),
            ),
            Err(message) => parse_text(content@) is Err && message@ == error_message(
                parse_text(content@)->Err_0,
            ),
        },
        r matches Ok(subs) ==> well_chained(subtitle_views(subs@)),
{
    let chars = str_to_chars(content);
    match parse_chars(chars.as_slice()) {
        Ok(subs) => Ok(subs),
        Err(e) => Err(e.message()),
    }
}

} // verus!
