//! Changes to a whole list of subtitles: rewriting every line of text, and
//! shifting and stretching the times.

use vstd::prelude::*;
use vstd::arithmetic::div_mod::lemma_fundamental_div_mod_converse;
use crate::srt::{subtitle_views, Subtitle, SubtitleView};
use crate::txt_rep::{
    language_rules, replace_with_rules, rewrite_all, rule_set, rule_views, Rule, RuleView,
};

verus! {

/// Five hours, in milliseconds.
pub const FIVE_HOURS_MS: i64 = 18_000_000;

/// Whether the last subtitle counts when the times are stretched. A single
/// subtitle counts if it starts after zero. Of two or more, the last one
/// counts unless it starts before the one before it, or more than five hours
/// after it.
pub open spec fn keeps_last(subs: Seq<SubtitleView>) -> bool {
    if subs.len() == 0 {
        true
    } else if subs.len() == 1 {
        subs[0].time_from > 0
    } else {
        let last = subs[subs.len() - 1].time_from;
        let before = subs[subs.len() - 2].time_from;
        before <= last && last - before <= FIVE_HOURS_MS
    }
}

/// Tells whether the last subtitle is fit to be stretched with the others.
pub fn should_keep_last_sub(subtitles: &Vec<Subtitle>) -> (keep: bool)
    ensures
        keep == keeps_last(subtitle_views(subtitles@)),
{
    let sub_count = subtitles.len();
    if sub_count == 0 {
        return true;
    }
    let last_time: i64 = subtitles[sub_count - 1].time_from as i64;
    if sub_count == 1 {
        return last_time > 0;
    }
    let prelast_time: i64 = subtitles[sub_count - 2].time_from as i64;
    prelast_time <= last_time && last_time - prelast_time <= FIVE_HOURS_MS
}

/// How many subtitles, counted from the first, are stretched: all of them, or
/// all but the last where the last does not count.
pub open spec fn stretch_count(subs: Seq<SubtitleView>) -> int {
    if keeps_last(subs) {
        subs.len() as int
    } else {
        subs.len() - 1
    }
}

/// What is added to both times of the subtitle at position `i`: the shift,
/// and for a subtitle that is stretched its share of the stretch, which
/// grows from nothing at the first to all of it at the last of them, rounded
/// down. Nothing is stretched where fewer than two subtitles count.
pub open spec fn time_offset(subs: Seq<SubtitleView>, shift: int, stretch: int, i: int) -> int {
    let n = stretch_count(subs);
    if stretch != 0 && n > 1 && i < n {
        shift + (i * stretch) / (n - 1)
    } else {
        shift
    }
}

/// Whether both times of every subtitle still fit in 32 bits once its
/// offset is added.
pub open spec fn times_fit(subs: Seq<SubtitleView>, shift: int, stretch: int) -> bool {
    forall|i: int|
        0 <= i < subs.len() ==> {
            let offset = #[trigger] time_offset(subs, shift, stretch, i);
            &&& i32::MIN <= subs[i].time_from + offset <= i32::MAX
            &&& i32::MIN <= subs[i].time_to + offset <= i32::MAX
        }
}

/// A subtitle with `offset` added to both of its times.
pub open spec fn moved(s: SubtitleView, offset: int) -> SubtitleView {
    SubtitleView {
        time_from: (s.time_from + offset) as i32,
        time_to: (s.time_to + offset) as i32,
        ..s
    }
}

/// The subtitles with their times shifted and stretched.
pub open spec fn time_changed(subs: Seq<SubtitleView>, shift: int, stretch: int) -> Seq<
    SubtitleView,
> {
    Seq::new(subs.len(), |i: int| moved(subs[i], time_offset(subs, shift, stretch, i)))
}

/// The stretch grows from nothing to all of it: the first subtitle is moved
/// by the shift alone, and the last one that is stretched by the shift and
/// the whole stretch.
pub proof fn lemma_stretch_ends(subs: Seq<SubtitleView>, shift: int, stretch: int)
    requires
        stretch_count(subs) > 1,
    ensures
        time_offset(subs, shift, stretch, 0) == shift,
        time_offset(subs, shift, stretch, stretch_count(subs) - 1) == shift + stretch,
{
    let d = stretch_count(subs) - 1;
    assert((0 * stretch) / d == 0);
    assert((d * stretch) / d == stretch) by (nonlinear_arith)
        requires
            d > 0,
    ;
}

/// The list is too long for the times to be stretched over it.
#[derive(Clone, Copy, Debug, PartialEq, Eq, Structural)]
pub struct TooManySubtitles;

/// The share of the stretch at position `i` of `n` stretched subtitles.
fn stretch_share(i: usize, stretch: i32, n: usize) -> (r: i64)
    requires
        1 < n <= i32::MAX,
        i < n,
    ensures
        r == (i * stretch) / (n - 1),
{
    let d: i64 = (n - 1) as i64;
    let a: i64 = i as i64;
    let b: i64 = stretch as i64;
    assert(-0x4000_0000_0000_0000 <= a * b <= 0x4000_0000_0000_0000) by (nonlinear_arith)
        requires
            0 <= a <= 0x7fff_ffff,
            -0x8000_0000 <= b <= 0x7fff_ffff,
    ;
    let p: i64 = a * b;
    if p >= 0 {
        p / d
    } else {
        let q: i64 = (-p + d - 1) / d;
        proof {
            let qi = q as int;
            let di = d as int;
            let pi = p as int;
            assert(qi * di <= -pi + di - 1 < qi * di + di) by (nonlinear_arith)
                requires
                    di > 0,
                    qi == (-pi + di - 1) / di,
            ;
            assert((-qi) * di == -(qi * di)) by (nonlinear_arith);
            lemma_fundamental_div_mod_converse(pi, di, -qi, pi + qi * di);
        }
        -q
    }
}

/// How many subtitles are stretched.
fn count_stretched(subtitles: &Vec<Subtitle>) -> (n: usize)
    ensures
        n == if keeps_last(subtitle_views(subtitles@)) {
            subtitles.len() as int
        } else if subtitles.len() == 0 {
            0
        } else {
            subtitles.len() - 1
        },
{
    if should_keep_last_sub(subtitles) {
        subtitles.len()
    } else {
        subtitles.len() - 1
    }
}

/// The offset of the subtitle at position `i`, where `n` subtitles are
/// stretched.
fn offset_at(i: usize, shift: i32, stretch: i32, n: usize) -> (r: i64)
    requires
        n <= i32::MAX,
    ensures
        r == if stretch != 0 && n > 1 && i < n {
            shift + (i * stretch) / (n - 1)
        } else {
            shift as int
        },
        -0x5000_0000_0000_0000 <= r <= 0x5000_0000_0000_0000,
{
    if stretch != 0 && n > 1 && i < n {
        let share = stretch_share(i, stretch, n);
        proof {
            let d = (n - 1) as int;
            let p = i * stretch;
            assert(-0x4000_0000_0000_0000 <= p <= 0x4000_0000_0000_0000) by (nonlinear_arith)
                requires
                    p == i * stretch,
                    0 <= i <= 0x7fff_ffff,
                    -0x8000_0000 <= stretch <= 0x7fff_ffff,
            ;
            assert(-0x4000_0000_0000_0000 <= p / d <= 0x4000_0000_0000_0000) by (nonlinear_arith)
                requires
                    d >= 1,
                    -0x4000_0000_0000_0000 <= p <= 0x4000_0000_0000_0000,
            ;
        }
        shift as i64 + share
    } else {
        shift as i64
    }
}

/// Tells whether `do_time_changes` can be called with these values: whether
/// every time still fits in 32 bits once it is shifted and stretched.
pub fn time_changes_fit(subtitles: &Vec<Subtitle>, time_shift_ms: i32, time_stretch_ms: i32) -> (ok:
    bool)
    requires
        subtitles.len() <= i32::MAX,
    ensures
        ok == times_fit(subtitle_views(subtitles@), time_shift_ms as int, time_stretch_ms as int),
{
    let n = count_stretched(subtitles);
    let ghost subs = subtitle_views(subtitles@);
    let mut i: usize = 0;
    while i < subtitles.len()
        invariant
            i <= subtitles.len(),
            subtitles.len() <= i32::MAX,
            subs == subtitle_views(subtitles@),
            n == stretch_count(subs) || (subs.len() == 0 && n == 0),
            forall|j: int|
                0 <= j < i ==> {
                    let offset = #[trigger] time_offset(
                        subs,
                        time_shift_ms as int,
                        time_stretch_ms as int,
                        j,
                    );
                    &&& i32::MIN <= subs[j].time_from + offset <= i32::MAX
                    &&& i32::MIN <= subs[j].time_to + offset <= i32::MAX
                },
        decreases subtitles.len() - i,
    {
        let offset = offset_at(i, time_shift_ms, time_stretch_ms, n);
        assert(offset == time_offset(subs, time_shift_ms as int, time_stretch_ms as int, i as int));
        let from: i64 = subtitles[i].time_from as i64 + offset;
        let to: i64 = subtitles[i].time_to as i64 + offset;
        if from < -0x8000_0000 || from > 0x7fff_ffff || to < -0x8000_0000 || to > 0x7fff_ffff {
            return false;
        }
        i += 1;
    }
    true
}

/// Shifts every subtitle by `time_shift_ms`, and stretches the times so that
/// the first subtitle stays and the last one that counts moves by
/// `time_stretch_ms`. A list with more subtitles than fit in 32 bits is left
/// as it is, and so is any list where both values are zero.
pub fn do_time_changes(subtitles: &mut Vec<Subtitle>, time_shift_ms: i32, time_stretch_ms: i32) -> (r:
    Result<(), TooManySubtitles>)
    requires
        old(subtitles).len() <= i32::MAX ==> times_fit(
            subtitle_views(old(subtitles)@),
            time_shift_ms as int,
            time_stretch_ms as int,
        ),
    ensures
        r is Err <==> old(subtitles).len() > i32::MAX && (time_shift_ms != 0 || time_stretch_ms
            != 0),
        r is Err ==> *final(subtitles) == *old(subtitles),
        final(subtitles).len() == old(subtitles).len(),
        r is Ok ==> subtitle_views(final(subtitles)@) == time_changed(
            subtitle_views(old(subtitles)@),
            time_shift_ms as int,
            time_stretch_ms as int,
        ),
{
    let ghost subs = subtitle_views(subtitles@);
    if time_shift_ms == 0 && time_stretch_ms == 0 {
        assert(subs == time_changed(subs, 0, 0));
        return Ok(());
    }
    let sub_count = subtitles.len();
    if sub_count > 0x7fff_ffff {
        return Err(TooManySubtitles);
    }
    let n = count_stretched(subtitles);
    let mut i: usize = 0;
    while i < sub_count
        invariant
            i <= sub_count,
            sub_count == subtitles.len(),
            sub_count <= i32::MAX,
            subs == subtitle_views(old(subtitles)@),
            subs.len() == sub_count,
            n == stretch_count(subs) || (subs.len() == 0 && n == 0),
            times_fit(subs, time_shift_ms as int, time_stretch_ms as int),
            forall|j: int|
                0 <= j < i ==> (#[trigger] subtitles[j])@ == moved(
                    subs[j],
                    time_offset(subs, time_shift_ms as int, time_stretch_ms as int, j),
                ),
            forall|j: int| i <= j < sub_count ==> (#[trigger] subtitles[j])@ == subs[j],
        decreases sub_count - i,
    {
        let offset = offset_at(i, time_shift_ms, time_stretch_ms, n);
        assert(offset == time_offset(subs, time_shift_ms as int, time_stretch_ms as int, i as int));
        assert(subtitles[i as int]@ == subs[i as int]);
        let from: i64 = subtitles[i].time_from as i64 + offset;
        let to: i64 = subtitles[i].time_to as i64 + offset;
        subtitles[i].time_from = from as i32;
        subtitles[i].time_to = to as i32;
        i += 1;
    }
    assert(subtitle_views(subtitles@) == time_changed(
        subs,
        time_shift_ms as int,
        time_stretch_ms as int,
    ));
    Ok(())
}

/// A subtitle with every line of text rewritten by the rules.
pub open spec fn replaced(s: SubtitleView, rules: Seq<RuleView>) -> SubtitleView {
    SubtitleView { texts: Seq::new(s.texts.len(), |j: int| rewrite_all(s.texts[j], rules)), ..s }
}

/// The subtitles with every line of text rewritten by the rules.
pub open spec fn replaced_all(subs: Seq<SubtitleView>, rules: Seq<RuleView>) -> Seq<SubtitleView> {
    Seq::new(subs.len(), |i: int| replaced(subs[i], rules))
}

/// Rewrites every line of text of one subtitle.
pub fn replace_in_subtitle(subtitle: &mut Subtitle, rules: &Vec<Rule>)
    ensures
        final(subtitle).texts.len() == old(subtitle).texts.len(),
        final(subtitle)@ == replaced(old(subtitle)@, rule_views(rules@)),
{
    let ghost before = subtitle@;
    let count = subtitle.texts.len();
    let mut j: usize = 0;
    while j < count
        invariant
            j <= count,
            count == subtitle.texts.len(),
            before == old(subtitle)@,
            before.texts.len() == count,
            subtitle.num == before.num,
            subtitle.time_from == before.time_from,
            subtitle.time_to == before.time_to,
            forall|k: int|
                0 <= k < j ==> (#[trigger] subtitle.texts[k])@ == rewrite_all(
                    before.texts[k],
                    rule_views(rules@),
                ),
            forall|k: int| j <= k < count ==> (#[trigger] subtitle.texts[k])@ == before.texts[k],
        decreases count - j,
    {
        let text = replace_with_rules(subtitle.texts[j].as_str(), rules);
        subtitle.texts[j] = text;
        j += 1;
    }
    assert(subtitle@.texts == replaced(before, rule_views(rules@)).texts);
}

/// Rewrites every line of text of every subtitle by the rules given.
pub fn replace_in_subtitles(subtitles: &mut Vec<Subtitle>, rules: &Vec<Rule>)
    ensures
        final(subtitles).len() == old(subtitles).len(),
        subtitle_views(final(subtitles)@) == replaced_all(
            subtitle_views(old(subtitles)@),
            rule_views(rules@),
        ),
{
    let ghost subs = subtitle_views(subtitles@);
    let count = subtitles.len();
    let mut i: usize = 0;
    while i < count
        invariant
            i <= count,
            count == subtitles.len(),
            subs == subtitle_views(old(subtitles)@),
            subs.len() == count,
            forall|k: int|
                0 <= k < i ==> (#[trigger] subtitles[k])@ == replaced(subs[k], rule_views(rules@)),
            forall|k: int| i <= k < count ==> (#[trigger] subtitles[k])@ == subs[k],
        decreases count - i,
    {
        replace_in_subtitle(&mut subtitles[i], rules);
        i += 1;
    }
    assert(subtitle_views(subtitles@) == replaced_all(subs, rule_views(rules@)));
}

/// Rewrites every line of text of every subtitle by the rules of a
/// language.
pub fn do_replacements(subtitles: &mut Vec<Subtitle>, language: &str)
    ensures
        final(subtitles).len() == old(subtitles).len(),
        subtitle_views(final(subtitles)@) == replaced_all(
            subtitle_views(old(subtitles)@),
            language_rules(language@),
        ),
{
    let rules = rule_set(language);
    replace_in_subtitles(subtitles, &rules);
}

} // verus!
