//! What is written can be read again: the parser gives back the subtitles
//! that were written, for every list of subtitles that the parser can give
//! and that does not end with a subtitle without text.

use vstd::prelude::*;
use crate::number::{
    decimal, decimal_digit, lemma_decimal, lemma_zero_padded, parse_u32_spec, zero_padded,
    NumberError,
};
use crate::srt::{
    after_first_line, arrow, blank, clean_line, clean_subtitle, crlf, finish, first_line,
    initial, is_next_number, parse_lines, parse_text, serialize_all, serialize_texts, step,
    well_chained, with_text, ParseErrorView, ParserView, State, SubtitleView, MAX_TEXT_LINES,
};
use crate::text::{
    find_from, index_of, is_whitespace, lemma_find_from_is, lemma_index_of_either,
    lemma_index_of_either_is, lemma_trim_end_push, matches_at, trim, trim_end, trim_start,
};
use crate::time::{format_time, lemma_time_round_trip};

verus! {

/// What is left of a sequence once its end is trimmed is empty or ends with
/// something else than white space, and is a start of the sequence.
pub proof fn lemma_trim_end(s: Seq<char>)
    ensures
        trim_end(s).len() <= s.len(),
        trim_end(s) == s.take(trim_end(s).len() as int),
        trim_end(s).len() > 0 ==> !is_whitespace(trim_end(s).last()),
    decreases s.len(),
{
    if s.len() > 0 && is_whitespace(s.last()) {
        lemma_trim_end(s.drop_last());
        assert(s.drop_last().take(trim_end(s).len() as int) == s.take(trim_end(s).len() as int));
    } else {
        assert(s.take(s.len() as int) == s);
    }
}

/// The first line of a text is empty or clean.
pub proof fn lemma_first_line_clean(s: Seq<char>)
    ensures
        first_line(s).len() == 0 || clean_line(first_line(s)),
{
    lemma_index_of_either(s, '\n', '\n', 0);
    let k = index_of(s, '\n', 0);
    lemma_trim_end(s.take(k));
}

/// A text that starts with a clean or empty line, a carriage return and a
/// line feed has that line as its first line, and what follows as the rest.
pub proof fn lemma_peel_line(s: Seq<char>, l: Seq<char>, rest: Seq<char>)
    requires
        s == l + crlf() + rest,
        l.len() == 0 || clean_line(l),
    ensures
        s.len() > 0,
        first_line(s) == l,
        after_first_line(s) == rest,
{
    let k = l.len() as int + 1;
    assert(s[k] == '\n');
    assert(s[k - 1] == '\r');
    assert forall|j: int| 0 <= j < k implies s[j] != '\n' by {
        if j < l.len() {
            assert(s[j] == l[j]);
        }
    }
    lemma_index_of_either_is(s, '\n', '\n', 0, k);
    assert(s.take(k) == l.push('\r'));
    lemma_trim_end_push(l, '\r');
    assert(trim_end(l) == l);
    assert(s.skip(k + 1) == rest);
}

/// What holds of the parser between any two lines: the subtitles read are
/// well chained, the one being read is clean and has text just when more
/// text is awaited, and behind a subtitle without text the one with the next
/// number is being read.
pub open spec fn parser_inv(p: ParserView) -> bool {
    &&& well_chained(p.done)
    &&& clean_subtitle(p.current)
    &&& (p.state == State::WantsMoreText) == (p.current.texts.len() > 0)
    &&& p.done.len() > 0 && p.done.last().texts.len() == 0 ==> p.state != State::WantsIndex
        && p.current.num == p.done.last().num + 1
}

/// A clean subtitle can be added to well chained ones, unless the last of
/// them has no text and another number follows.
pub proof fn lemma_chain_push(done: Seq<SubtitleView>, s: SubtitleView)
    requires
        well_chained(done),
        clean_subtitle(s),
        done.len() > 0 && done.last().texts.len() == 0 ==> s.num == done.last().num + 1,
    ensures
        well_chained(done.push(s)),
{
    let all = done.push(s);
    assert forall|i: int| 0 <= i < all.len() implies clean_subtitle(#[trigger] all[i]) by {
        if i < done.len() {
            assert(all[i] == done[i]);
        }
    }
    assert forall|i: int|
        0 <= i < all.len() - 1 && (#[trigger] all[i]).texts.len() == 0 implies all[i + 1].num
        == all[i].num + 1 by {
        assert(all[i] == done[i]);
        if i < done.len() - 1 {
            assert(all[i + 1] == done[i + 1]);
        }
    }
}

/// A subtitle stays clean when a clean line is added to fewer than five.
pub proof fn lemma_with_text_clean(s: SubtitleView, line: Seq<char>)
    requires
        clean_subtitle(s),
        s.texts.len() < MAX_TEXT_LINES,
        clean_line(line),
    ensures
        clean_subtitle(with_text(s, line)),
{
    let t = with_text(s, line);
    assert forall|j: int| 0 <= j < t.texts.len() implies clean_line(#[trigger] t.texts[j]) by {
        if j < s.texts.len() {
            assert(t.texts[j] == s.texts[j]);
        }
    }
}

/// One line keeps what holds of the parser.
pub proof fn lemma_step_inv(p: ParserView, line: Seq<char>, line_no: nat)
    requires
        parser_inv(p),
        line.len() == 0 || clean_line(line),
    ensures
        step(p, line, line_no) matches Ok(q) ==> parser_inv(q),
{
    match step(p, line, line_no) {
        Err(_) => {},
        Ok(q) => {
            match p.state {
                State::WantsIndex => {},
                State::WantsTimeRange => {},
                State::WantsFirstText => {
                    if line.len() > 0 {
                        lemma_with_text_clean(p.current, line);
                    }
                },
                State::WantsFirstTextRetry => {
                    if line.len() == 0 {
                    } else if is_next_number(p.current, line) {
                        lemma_chain_push(p.done, p.current);
                        assert(clean_subtitle(q.current));
                        assert(q.done.last() == p.current);
                    } else {
                        lemma_with_text_clean(p.current, line);
                    }
                },
                State::WantsMoreText => {
                    if line.len() == 0 {
                        lemma_chain_push(p.done, p.current);
                        assert(q.done.last() == p.current);
                        assert(clean_subtitle(q.current));
                    } else {
                        lemma_with_text_clean(p.current, line);
                    }
                },
            }
        },
    }
}

/// At the end of the input the subtitles are well chained.
pub proof fn lemma_finish_chained(p: ParserView)
    requires
        parser_inv(p),
    ensures
        well_chained(finish(p)),
{
    if p.current.texts.len() > 0 {
        lemma_chain_push(p.done, p.current);
    }
}

/// Whatever text follows, the subtitles that the parser gives are well
/// chained.
pub proof fn lemma_parse_lines_chained(p: ParserView, s: Seq<char>, line_no: nat)
    requires
        parser_inv(p),
    ensures
        parse_lines(p, s, line_no) matches Ok(subs) ==> well_chained(subs),
    decreases s.len(),
{
    if s.len() == 0 {
        lemma_finish_chained(p);
    } else {
        lemma_first_line_clean(s);
        lemma_step_inv(p, first_line(s), line_no);
        lemma_index_of_either(s, '\n', '\n', 0);
        match step(p, first_line(s), line_no) {
            Err(_) => {},
            Ok(next) => {
                lemma_parse_lines_chained(next, after_first_line(s), line_no + 1);
            },
        }
    }
}

/// The subtitles that the parser gives for a text are well chained: each
/// has at most five lines of text, all clean, and each one without text,
/// but the last, is followed by the subtitle with the next number.
pub proof fn lemma_parse_text_chained(s: Seq<char>)
    ensures
        parse_text(s) matches Ok(subs) ==> well_chained(subs),
{
    lemma_parse_lines_chained(initial(), s, 1);
}

/// A character of a written time: a digit, `:`, `,` or `-`.
pub open spec fn time_char(c: char) -> bool {
    decimal_digit(c) || c == ':' || c == ',' || c == '-'
}

/// A written time is not empty and holds nothing but digits, `:`, `,` and
/// `-`.
pub proof fn lemma_format_time_chars(t: i32)
    ensures
        format_time(t as int).len() > 0,
        forall|i: int| 0 <= i < format_time(t as int).len() ==> time_char(format_time(t as int)[i]),
{
    let a: int = if t < 0 {
        -t
    } else {
        t as int
    };
    let secs = a / 1000;
    let sign = if t < 0 {
        seq!['-']
    } else {
        Seq::<char>::empty()
    };
    let hd = zero_padded((secs / 3600) as nat, 2);
    let md = zero_padded(((secs % 3600) / 60) as nat, 2);
    let sd = zero_padded((secs % 60) as nat, 2);
    let fd = zero_padded((a % 1000) as nat, 3);
    lemma_zero_padded((secs / 3600) as nat, 2);
    lemma_zero_padded(((secs % 3600) / 60) as nat, 2);
    lemma_zero_padded((secs % 60) as nat, 2);
    lemma_zero_padded((a % 1000) as nat, 3);
    let f = format_time(t as int);
    assert(f == sign + hd + seq![':'] + md + seq![':'] + sd + seq![','] + fd);
    let at_hours = sign.len() as int;
    let at_colon = at_hours + hd.len();
    let at_second_colon = at_colon + 1 + md.len();
    let at_comma = at_second_colon + 1 + sd.len();
    assert forall|i: int| 0 <= i < f.len() implies time_char(f[i]) by {
        if i < at_hours {
            assert(f[i] == sign[i]);
        } else if i < at_colon {
            assert(f[i] == hd[i - at_hours]);
        } else if i == at_colon {
            assert(f[i] == ':');
        } else if i < at_second_colon {
            assert(f[i] == md[i - at_colon - 1]);
        } else if i == at_second_colon {
            assert(f[i] == ':');
        } else if i < at_comma {
            assert(f[i] == sd[i - at_second_colon - 1]);
        } else if i == at_comma {
            assert(f[i] == ',');
        } else {
            assert(f[i] == fd[i - at_comma - 1]);
        }
    }
}

/// The line that holds the two times of a subtitle.
pub open spec fn time_line(from: i32, to: i32) -> Seq<char> {
    format_time(from as int) + seq![' '] + arrow() + seq![' '] + format_time(to as int)
}

/// The line with two times is clean, its arrow is found behind the first
/// time and a space, and the two times stand around it.
pub proof fn lemma_time_line(from: i32, to: i32)
    ensures
        clean_line(time_line(from, to)),
        find_from(time_line(from, to), arrow(), 0) == Some(format_time(from as int).len() as int + 1),
        trim(time_line(from, to).take(format_time(from as int).len() as int + 1)) == format_time(
            from as int,
        ),
        trim(time_line(from, to).skip(format_time(from as int).len() as int + 4)) == format_time(
            to as int,
        ),
{
    let a = format_time(from as int);
    let b = format_time(to as int);
    let line = time_line(from, to);
    lemma_format_time_chars(from);
    lemma_format_time_chars(to);
    let k = a.len() as int + 1;
    assert(line.len() == a.len() + b.len() + 5);
    assert forall|i: int| 0 <= i < line.len() implies line[i] != '\n' && (i < k + 2 ==> line[i]
        != '>') by {
        if i < a.len() {
            assert(line[i] == a[i]);
            assert(time_char(a[i]));
        } else if i >= k + 4 {
            assert(line[i] == b[i - k - 4]);
            assert(time_char(b[i - k - 4]));
        }
    }
    assert(line.last() == b.last());
    assert(time_char(b[b.len() - 1]));
    assert(line.subrange(k, k + 3) == arrow());
    assert forall|j: int| 0 <= j < k implies !matches_at(line, arrow(), j) by {
        if matches_at(line, arrow(), j) {
            assert(line.subrange(j, j + 3)[2] == '>');
            assert(line[j + 2] == '>');
        }
    }
    lemma_find_from_is(line, arrow(), 0, k);
    let left = line.take(k);
    assert(left == a.push(' '));
    assert(left.drop_last() == a);
    assert(time_char(a[a.len() - 1]));
    assert(time_char(a[0]));
    assert(trim_end(left) == trim_end(a));
    assert(trim_end(a) == a);
    assert(trim_start(a) == a);
    let right = line.skip(k + 3);
    assert(right == seq![' '] + b);
    assert(right.last() == b.last());
    assert(trim_end(right) == right);
    assert(right.skip(1) == b);
    assert(time_char(b[0]));
    assert(trim_start(right) == trim_start(b));
    assert(trim_start(b) == b);
}

/// The number of a subtitle as written is a clean line that reads as that
/// number.
pub proof fn lemma_number_line(n: u32)
    ensures
        clean_line(decimal(n as nat)),
        parse_u32_spec(decimal(n as nat)) == Ok::<u32, NumberError>(n),
{
    lemma_decimal(n as nat);
    let d = decimal(n as nat);
    assert(decimal_digit(d[0]));
    assert(decimal_digit(d.last()));
    assert forall|i: int| 0 <= i < d.len() implies d[i] != '\n' by {
        assert(decimal_digit(d[i]));
    }
}

/// The parser where a written subtitle with number `num` can start, to give
/// `read` and then that subtitle: it waits for a number with `read` behind
/// it, or it waits for text still, with a subtitle without text in hand
/// whose number is the one before `num`, which makes `read` complete.
pub open spec fn at_start(p: ParserView, read: Seq<SubtitleView>, num: u32) -> bool {
    ||| p.state == State::WantsIndex && p.current == blank() && read == p.done
    ||| p.state == State::WantsFirstTextRetry && p.current.texts.len() == 0 && num
        == p.current.num + 1 && read == p.done.push(p.current)
}

/// The parser behind a whole subtitle with text: it waits for a number, and
/// the subtitle that it was reading, with the lines `all`, is read.
pub open spec fn texts_read(p: ParserView, all: Seq<Seq<char>>) -> ParserView {
    ParserView {
        state: State::WantsIndex,
        current: blank(),
        done: p.done.push(SubtitleView { texts: all, ..p.current }),
    }
}

/// The parser behind the empty line that follows the times of the subtitle
/// `r`, which has no text: it waits for text still.
pub open spec fn text_awaited(read: Seq<SubtitleView>, r: SubtitleView) -> ParserView {
    ParserView { state: State::WantsFirstTextRetry, current: r, done: read }
}

/// Reading the lines of text of a written subtitle from line `j` on, and the
/// empty line behind them, adds the subtitle with all its lines to those
/// read, and leaves the parser waiting for a number.
pub proof fn lemma_read_texts(
    p: ParserView,
    all: Seq<Seq<char>>,
    j: int,
    tail: Seq<char>,
    line_no: nat,
)
    requires
        0 <= j <= all.len() <= MAX_TEXT_LINES,
        all.len() >= 1,
        forall|k: int| 0 <= k < all.len() ==> clean_line(#[trigger] all[k]),
        j == 0 ==> p.state == State::WantsFirstText,
        j > 0 ==> p.state == State::WantsMoreText,
        p.current.texts == all.take(j),
    ensures
        parse_lines(p, serialize_texts(all.skip(j)) + crlf() + tail, line_no) == parse_lines(
            texts_read(p, all),
            tail,
            (line_no + (all.len() - j) + 1) as nat,
        ),
    decreases all.len() - j,
{
    let text = serialize_texts(all.skip(j)) + crlf() + tail;
    if j == all.len() {
        assert(all.skip(j).len() == 0);
        assert(text == Seq::<char>::empty() + crlf() + tail);
        lemma_peel_line(text, Seq::empty(), tail);
        assert(all.take(j) == all);
        assert(p.current == SubtitleView { texts: all, ..p.current });
    } else {
        let line = all[j];
        let rest = all.skip(j);
        assert(rest.first() == line);
        assert(rest.skip(1) == all.skip(j + 1));
        let after = serialize_texts(all.skip(j + 1)) + crlf() + tail;
        assert(text == line + crlf() + after);
        lemma_peel_line(text, line, after);
        let next = step(p, line, line_no)->Ok_0;
        assert(all.take(j).push(line) == all.take(j + 1));
        assert(next.current.texts == all.take(j + 1));
        lemma_read_texts(next, all, j + 1, tail, line_no + 1);
    }
}

/// The parser behind the number of a subtitle.
pub open spec fn number_read(read: Seq<SubtitleView>, num: u32) -> ParserView {
    ParserView {
        state: State::WantsTimeRange,
        current: SubtitleView { num, ..blank() },
        done: read,
    }
}

/// The parser behind the number and the times of the subtitle `r`.
pub open spec fn times_read(read: Seq<SubtitleView>, r: SubtitleView) -> ParserView {
    ParserView {
        state: State::WantsFirstText,
        current: SubtitleView { texts: Seq::empty(), ..r },
        done: read,
    }
}

/// Reading the written number of a subtitle, where a subtitle can start.
pub proof fn lemma_read_number(
    p: ParserView,
    read: Seq<SubtitleView>,
    num: u32,
    after: Seq<char>,
    line_no: nat,
)
    requires
        at_start(p, read, num),
    ensures
        parse_lines(p, decimal(num as nat) + crlf() + after, line_no) == parse_lines(
            number_read(read, num),
            after,
            line_no + 1,
        ),
{
    let number = decimal(num as nat);
    let text = number + crlf() + after;
    lemma_number_line(num);
    lemma_peel_line(text, number, after);
    assert(step(p, number, line_no) == Ok::<ParserView, ParseErrorView>(number_read(read, num)));
}

/// Reading the written times of the subtitle `r` behind its number.
pub proof fn lemma_read_times(
    read: Seq<SubtitleView>,
    r: SubtitleView,
    after: Seq<char>,
    line_no: nat,
)
    ensures
        parse_lines(
            number_read(read, r.num),
            time_line(r.time_from, r.time_to) + crlf() + after,
            line_no,
        ) == parse_lines(times_read(read, r), after, line_no + 1),
{
    let times = time_line(r.time_from, r.time_to);
    let text = times + crlf() + after;
    lemma_time_line(r.time_from, r.time_to);
    lemma_time_round_trip(r.time_from);
    lemma_time_round_trip(r.time_to);
    lemma_peel_line(text, times, after);
    assert(step(number_read(read, r.num), times, line_no) == Ok::<ParserView, ParseErrorView>(
        times_read(read, r),
    ));
}

/// Reading the empty line of a written subtitle without text: the parser
/// goes on waiting for text.
pub proof fn lemma_read_no_text(
    read: Seq<SubtitleView>,
    r: SubtitleView,
    after: Seq<char>,
    line_no: nat,
)
    requires
        r.texts.len() == 0,
    ensures
        parse_lines(times_read(read, r), crlf() + after, line_no) == parse_lines(
            text_awaited(read, r),
            after,
            line_no + 1,
        ),
{
    let text = crlf() + after;
    assert(text == Seq::<char>::empty() + crlf() + after);
    lemma_peel_line(text, Seq::empty(), after);
    assert(r.texts == Seq::<Seq<char>>::empty());
    assert(times_read(read, r).current == r);
}

/// The written form of subtitles, cut into the lines of the first and the
/// written form of the others.
pub proof fn lemma_serialize_all_lines(subs: Seq<SubtitleView>)
    requires
        subs.len() > 0,
    ensures
        serialize_all(subs) == decimal(subs[0].num as nat) + crlf() + (time_line(
            subs[0].time_from,
            subs[0].time_to,
        ) + crlf() + (serialize_texts(subs[0].texts) + crlf() + serialize_all(subs.skip(1)))),
{
    assert(subs.first() == subs[0]);
}

/// Well chained subtitles without the first are well chained.
pub proof fn lemma_chain_skip(subs: Seq<SubtitleView>)
    requires
        well_chained(subs),
        subs.len() > 0,
    ensures
        well_chained(subs.skip(1)),
{
    let rest = subs.skip(1);
    assert forall|i: int| 0 <= i < rest.len() implies clean_subtitle(#[trigger] rest[i]) by {
        assert(rest[i] == subs[i + 1]);
    }
    assert forall|i: int|
        0 <= i < rest.len() - 1 && (#[trigger] rest[i]).texts.len() == 0 implies rest[i + 1].num
        == rest[i].num + 1 by {
        assert(rest[i] == subs[i + 1]);
        assert(rest[i + 1] == subs[i + 2]);
    }
}

/// Reading written subtitles gives them back behind those read before.
pub proof fn lemma_read_back(
    p: ParserView,
    read: Seq<SubtitleView>,
    subs: Seq<SubtitleView>,
    line_no: nat,
)
    requires
        well_chained(subs),
        subs.len() > 0 ==> subs.last().texts.len() > 0 && at_start(p, read, subs[0].num),
        subs.len() == 0 ==> p.state == State::WantsIndex && p.current == blank() && read == p.done,
    ensures
        parse_lines(p, serialize_all(subs), line_no) == Ok::<Seq<SubtitleView>, ParseErrorView>(
            read + subs,
        ),
    decreases subs.len(),
{
    if subs.len() == 0 {
        assert(read + subs == read);
    } else {
        let r = subs[0];
        let rest = subs.skip(1);
        let tail = serialize_all(rest);
        let s3 = crlf() + tail;
        let s2 = serialize_texts(r.texts) + crlf() + tail;
        let s1 = time_line(r.time_from, r.time_to) + crlf() + s2;
        lemma_serialize_all_lines(subs);
        lemma_read_number(p, read, r.num, s1, line_no);
        lemma_read_times(read, r, s2, line_no + 1);
        lemma_chain_skip(subs);
        if rest.len() > 0 {
            assert(rest.last() == subs.last());
        }
        assert(read.push(r) + rest == read + subs);
        assert(clean_subtitle(r));
        if r.texts.len() == 0 {
            assert(serialize_texts(r.texts) == Seq::<char>::empty());
            assert(s2 == s3);
            lemma_read_no_text(read, r, tail, line_no + 2);
            assert(rest[0] == subs[1]);
            assert(subs[1].num == subs[0].num + 1);
            lemma_read_back(text_awaited(read, r), read.push(r), rest, line_no + 3);
        } else {
            assert(r.texts.take(0) == Seq::<Seq<char>>::empty());
            assert(r.texts.skip(0) == r.texts);
            lemma_read_texts(times_read(read, r), r.texts, 0, tail, line_no + 2);
            assert(SubtitleView { texts: r.texts, ..times_read(read, r).current } == r);
            lemma_read_back(
                texts_read(times_read(read, r), r.texts),
                read.push(r),
                rest,
                (line_no + 2 + r.texts.len() + 1) as nat,
            );
        }
    }
}

/// Well chained subtitles of which the last has text are read back from
/// their written form just as they are.
pub proof fn lemma_written_reads_back(subs: Seq<SubtitleView>)
    requires
        well_chained(subs),
        subs.len() > 0 ==> subs.last().texts.len() > 0,
    ensures
        parse_text(serialize_all(subs)) == Ok::<Seq<SubtitleView>, ParseErrorView>(subs),
{
    lemma_read_back(initial(), Seq::empty(), subs, 1);
    assert(Seq::<SubtitleView>::empty() + subs == subs);
}

/// The round trip: subtitles that the parser gave for some text, written
/// and parsed again, come back the same. The one case left out is a list
/// that ends with a subtitle without text, which the parser gives for a text
/// that breaks off inside the subtitle that follows it.
pub proof fn lemma_round_trip(text: Seq<char>, subs: Seq<SubtitleView>)
    requires
        parse_text(text) == Ok::<Seq<SubtitleView>, ParseErrorView>(subs),
        subs.len() > 0 ==> subs.last().texts.len() > 0,
    ensures
        parse_text(serialize_all(subs)) == Ok::<Seq<SubtitleView>, ParseErrorView>(subs),
{
    lemma_parse_text_chained(text);
    lemma_written_reads_back(subs);
}

} // verus!
