//! The rewriter: replaces words in a line of text, one rule after another.
//!
//! A rule is a pattern and its replacement. The pattern may carry a marker at
//! its start and one at its end that say what may stand before and after a
//! match: `*` anything, `+` a letter, `#` a digit, and without a marker only a
//! separator.

use vstd::prelude::*;
use vstd::slice::slice_subrange;
use crate::number::{decimal_digit, is_decimal_digit};
use crate::rules::{pair_rules, rules_from, RULES_EN, RULES_FR};
use crate::text::{
    chars_to_string, find_start_at, find_from, lemma_find_from, matches_at, push_chars, str_to_chars,
};

verus! {

/// A character that ends a word: space, no-break space, `.`, `,`, `"` or `-`.
pub open spec fn separator(c: char) -> bool {
    c == ' ' || c == '\u{A0}' || c == '.' || c == ',' || c == '"' || c == '-'
}

/// Any character that is not a separator.
pub open spec fn letter(c: char) -> bool {
    !separator(c)
}

/// Tells whether a character is a separator.
pub fn is_separator(c: char) -> (r: bool)
    ensures
        r == separator(c),
{
    c == ' ' || c == '\u{A0}' || c == '.' || c == ',' || c == '"' || c == '-'
}

/// Tells whether a character is a letter, which is anything but a separator.
pub fn is_letter(c: char) -> (r: bool)
    ensures
        r == letter(c),
{
    !is_separator(c)
}

/// Tells whether a character is one of the ten ASCII digits.
pub fn is_digit(c: char) -> (r: bool)
    ensures
        r == decimal_digit(c),
{
    is_decimal_digit(c)
}

/// What may stand next to a match for the rule to replace it.
#[derive(Clone, Copy, Debug, PartialEq, Eq, Structural)]
pub enum Follow {
    /// A separator; before a match, an apostrophe too.
    Nothing,
    /// Any character.
    Any,
    /// A letter.
    Letter,
    /// A digit.
    Digit,
}

/// The boundary that a marker character asks for.
pub open spec fn marker(c: char) -> Option<Follow> {
    if c == '*' {
        Some(Follow::Any)
    } else if c == '+' {
        Some(Follow::Letter)
    } else if c == '#' {
        Some(Follow::Digit)
    } else {
        None
    }
}

/// A rule as the contracts see it.
pub struct RuleView {
    /// The text to look for, without markers.
    pub what: Seq<char>,
    /// The text to put in its place.
    pub with: Seq<char>,
    /// What may stand before a match.
    pub precede: Follow,
    /// What may stand after a match.
    pub follow: Follow,
}

/// A rule, with its markers read once.
#[derive(Clone, Debug, PartialEq, Eq)]
pub struct Rule {
    /// The text to look for, without markers.
    pub what: Vec<char>,
    /// The text to put in its place.
    pub with: Vec<char>,
    /// What may stand before a match.
    pub precede: Follow,
    /// What may stand after a match.
    pub follow: Follow,
}

impl View for Rule {
    type V = RuleView;

    open spec fn view(&self) -> RuleView {
        RuleView {
            what: self.what@,
            with: self.with@,
            precede: self.precede,
            follow: self.follow,
        }
    }
}

/// A pattern without the marker at its end.
pub open spec fn without_end_marker(what: Seq<char>) -> Seq<char> {
    if what.len() > 0 && marker(what.last()) is Some {
        what.drop_last()
    } else {
        what
    }
}

/// The rule that a pattern and a replacement stand for. The marker at the
/// end is read first, then the marker at the start of what is left.
pub open spec fn parse_rule(what: Seq<char>, with: Seq<char>) -> RuleView {
    let rest = without_end_marker(what);
    RuleView {
        what: if rest.len() > 0 && marker(rest.first()) is Some {
            rest.skip(1)
        } else {
            rest
        },
        with,
        precede: if rest.len() > 0 && marker(rest.first()) is Some {
            marker(rest.first())->0
        } else {
            Follow::Nothing
        },
        follow: if what.len() > 0 && marker(what.last()) is Some {
            marker(what.last())->0
        } else {
            Follow::Nothing
        },
    }
}

/// Whether `c` may stand before a match.
pub open spec fn may_precede(kind: Follow, c: char) -> bool {
    match kind {
        Follow::Nothing => separator(c) || c == '\'',
        Follow::Any => true,
        Follow::Letter => letter(c),
        Follow::Digit => decimal_digit(c),
    }
}

/// Whether `c` may stand after a match.
pub open spec fn may_follow(kind: Follow, c: char) -> bool {
    match kind {
        Follow::Nothing => separator(c),
        Follow::Any => true,
        Follow::Letter => letter(c),
        Follow::Digit => decimal_digit(c),
    }
}

/// Whether the match of `rule` at `idx` in `line` is replaced: what stands
/// before it and after it is what the rule asks for. The start and the end of
/// the line always are.
pub open spec fn replaces_at(line: Seq<char>, rule: RuleView, idx: int) -> bool {
    let end = idx + rule.what.len();
    &&& idx <= 0 || may_precede(rule.precede, line[idx - 1])
    &&& end >= line.len() || may_follow(rule.follow, line[end])
}

/// What the result holds in place of the match at `idx`: the pattern itself
/// where the match is not replaced, else the replacement, which loses a space
/// at its end where the match ends the line.
pub open spec fn emitted_at(line: Seq<char>, rule: RuleView, idx: int) -> Seq<char> {
    if !replaces_at(line, rule, idx) {
        rule.what
    } else if idx + rule.what.len() >= line.len() && rule.with.len() > 0 && rule.with.last()
        == ' ' {
        rule.with.drop_last()
    } else {
        rule.with
    }
}

/// The line from `start` on, rewritten by one rule. Matches are taken from
/// left to right, each search starting behind the match before it.
pub open spec fn rewrite_from(line: Seq<char>, rule: RuleView, start: int) -> Seq<char>
    decreases line.len() - start,
    when 0 <= start
    via rewrite_from_decreases
{
    if rule.what.len() == 0 {
        line.skip(start)
    } else {
        match find_from(line, rule.what, start) {
            None => line.skip(start),
            Some(idx) => line.subrange(start, idx) + emitted_at(line, rule, idx) + rewrite_from(
                line,
                rule,
                idx + rule.what.len(),
            ),
        }
    }
}

#[via_fn]
proof fn rewrite_from_decreases(line: Seq<char>, rule: RuleView, start: int) {
    lemma_find_from(line, rule.what, start);
}

/// The line rewritten by one rule. A rule whose pattern is empty behind its
/// markers matches nothing.
pub open spec fn rewrite(line: Seq<char>, rule: RuleView) -> Seq<char> {
    rewrite_from(line, rule, 0)
}

/// The line rewritten by each rule in turn, each one working on what the one
/// before it gave.
pub open spec fn rewrite_all(line: Seq<char>, rules: Seq<RuleView>) -> Seq<char>
    decreases rules.len(),
{
    if rules.len() == 0 {
        line
    } else {
        rewrite(rewrite_all(line, rules.drop_last()), rules.last())
    }
}

/// The views of the rules in a vector.
pub open spec fn rule_views(rules: Seq<Rule>) -> Seq<RuleView> {
    Seq::new(rules.len(), |i: int| rules[i]@)
}

/// The boundary that a marker character asks for.
fn marker_of(c: char) -> (r: Option<Follow>)
    ensures
        r == marker(c),
{
    if c == '*' {
        Some(Follow::Any)
    } else if c == '+' {
        Some(Follow::Letter)
    } else if c == '#' {
        Some(Follow::Digit)
    } else {
        None
    }
}

impl Rule {
    /// Reads the markers of a pattern.
    pub fn new(what: &str, with: &str) -> (rule: Rule)
        ensures
            rule@ == parse_rule(what@, with@),
    {
        let chars = str_to_chars(what);
        let mut end: usize = chars.len();
        let mut follow = Follow::Nothing;
        if end > 0 {
            if let Some(kind) = marker_of(chars[end - 1]) {
                follow = kind;
                end = end - 1;
            }
        }
        let ghost rest = without_end_marker(what@);
        assert(rest == chars@.take(end as int));
        let mut start: usize = 0;
        let mut precede = Follow::Nothing;
        if end > 0 {
            if let Some(kind) = marker_of(chars[0]) {
                precede = kind;
                start = 1;
            }
        }
        let core = slice_subrange(chars.as_slice(), start, end);
        assert(core@ == if start == 1 {
            rest.skip(1)
        } else {
            rest
        });
        let mut what_chars: Vec<char> = Vec::new();
        push_chars(&mut what_chars, core);
        assert(what_chars@ == core@);
        Rule { what: what_chars, with: str_to_chars(with), precede, follow }
    }
}

/// Tells whether `c` may stand before a match.
fn precede_allows(kind: Follow, c: char) -> (r: bool)
    ensures
        r == may_precede(kind, c),
{
    match kind {
        Follow::Nothing => is_separator(c) || c == '\'',
        Follow::Any => true,
        Follow::Letter => is_letter(c),
        Follow::Digit => is_digit(c),
    }
}

/// Tells whether `c` may stand after a match.
fn follow_allows(kind: Follow, c: char) -> (r: bool)
    ensures
        r == may_follow(kind, c),
{
    match kind {
        Follow::Nothing => is_separator(c),
        Follow::Any => true,
        Follow::Letter => is_letter(c),
        Follow::Digit => is_digit(c),
    }
}

/// Rewrites a line by one rule.
pub fn apply_rule(line: &[char], rule: &Rule) -> (out: Vec<char>)
    ensures
        out@ == rewrite(line@, rule@),
{
    let mut out: Vec<char> = Vec::new();
    let what = rule.what.as_slice();
    if what.len() == 0 {
        push_chars(&mut out, line);
        assert(line@.skip(0) == line@);
        return out;
    }
    let mut start: usize = 0;
    assert(out@ + rewrite_from(line@, rule@, 0) == rewrite(line@, rule@));
    while start < line.len()
        invariant
            start <= line.len(),
            what@ == rule@.what,
            what.len() > 0,
            out@ + rewrite_from(line@, rule@, start as int) == rewrite(line@, rule@),
        decreases line.len() - start,
    {
        match find_start_at(line, what, start) {
            None => {
                let rest = slice_subrange(line, start, line.len());
                assert(rest@ == line@.skip(start as int));
                push_chars(&mut out, rest);
                return out;
            },
            Some(idx) => {
                proof {
                    lemma_find_from(line@, what@, start as int);
                }
                let end: usize = idx + what.len();
                let before_ok = idx == 0 || precede_allows(rule.precede, line[idx - 1]);
                let after_ok = end >= line.len() || follow_allows(rule.follow, line[end]);
                let ghost prev = out@;
                let ghost tail = rewrite_from(line@, rule@, end as int);
                push_chars(&mut out, slice_subrange(line, start, idx));
                if before_ok && after_ok {
                    let with = rule.with.as_slice();
                    let n: usize = with.len();
                    if end >= line.len() && n > 0 && with[n - 1] == ' ' {
                        let cut = slice_subrange(with, 0, n - 1);
                        assert(cut@ == rule@.with.drop_last());
                        push_chars(&mut out, cut);
                    } else {
                        push_chars(&mut out, with);
                    }
                } else {
                    push_chars(&mut out, what);
                }
                assert(out@ == prev + line@.subrange(start as int, idx as int) + emitted_at(
                    line@,
                    rule@,
                    idx as int,
                ));
                assert(out@ + tail == prev + (line@.subrange(start as int, idx as int)
                    + emitted_at(line@, rule@, idx as int) + tail));
                start = end;
            },
        }
    }
    proof {
        lemma_find_from(line@, what@, start as int);
        assert(line@.skip(start as int) == Seq::<char>::empty());
        assert(out@ + Seq::<char>::empty() == out@);
    }
    out
}

/// Replaces a word or several words in one line.
///
/// A `*`, `+` or `#` at the start or the end of `what` says what may stand
/// before or after a match; without one, only a separator may.
pub fn replace_by_rule(line_str: &str, what: &str, with: &str) -> (r: String)
    ensures
        r@ == rewrite(line_str@, parse_rule(what@, with@)),
{
    let line = str_to_chars(line_str);
    let rule = Rule::new(what, with);
    let out = apply_rule(line.as_slice(), &rule);
    chars_to_string(out.as_slice())
}

/// Rewrites a line by each rule in turn.
pub fn apply_rules(line: &[char], rules: &Vec<Rule>) -> (out: Vec<char>)
    ensures
        out@ == rewrite_all(line@, rule_views(rules@)),
{
    let mut out: Vec<char> = Vec::new();
    push_chars(&mut out, line);
    let ghost views = rule_views(rules@);
    assert(views.take(0) == Seq::<RuleView>::empty());
    let mut i: usize = 0;
    while i < rules.len()
        invariant
            i <= rules.len(),
            views == rule_views(rules@),
            out@ == rewrite_all(line@, views.take(i as int)),
        decreases rules.len() - i,
    {
        assert(views.take(i + 1).drop_last() == views.take(i as int));
        assert(views.take(i + 1).last() == rules[i as int]@);
        out = apply_rule(out.as_slice(), &rules[i]);
        i += 1;
    }
    assert(views.take(i as int) == views);
    out
}

/// Rewrites a line of text by the rules given.
pub fn replace_with_rules(text: &str, rules: &Vec<Rule>) -> (r: String)
    ensures
        r@ == rewrite_all(text@, rule_views(rules@)),
{
    let line = str_to_chars(text);
    let out = apply_rules(line.as_slice(), rules);
    chars_to_string(out.as_slice())
}

/// The rules of a language: those for English where `language` is `EN`,
/// those for French for anything else.
pub open spec fn language_rules(language: Seq<char>) -> Seq<RuleView> {
    if language == seq!['E', 'N'] {
        pair_rules(RULES_EN@)
    } else {
        pair_rules(RULES_FR@)
    }
}

/// The rules of a language, ready to be applied.
pub fn rule_set(language: &str) -> (rules: Vec<Rule>)
    ensures
        rule_views(rules@) == language_rules(language@),
{
    let lang = str_to_chars(language);
    if lang.len() == 2 && lang[0] == 'E' && lang[1] == 'N' {
        assert(lang@ == seq!['E', 'N']);
        rules_from(RULES_EN.as_slice())
    } else {
        rules_from(RULES_FR.as_slice())
    }
}

/// Replaces words in one line of text by the rules of a language.
pub fn replace_one(text: &str, language: &str) -> (r: String)
    ensures
        r@ == rewrite_all(text@, language_rules(language@)),
{
    let rules = rule_set(language);
    replace_with_rules(text, &rules)
}

/// Replaces words in one line of text by the rules for French.
pub fn replace_one_fr(text: &str) -> (r: String)
    ensures
        r@ == rewrite_all(text@, pair_rules(RULES_FR@)),
{
    let rules = rules_from(RULES_FR.as_slice());
    replace_with_rules(text, &rules)
}

/// Whether a rule has something to replace in a line: its pattern stands
/// somewhere with what the rule asks for on both sides of it.
pub open spec fn finds_match(line: Seq<char>, rule: RuleView) -> bool {
    rule.what.len() > 0 && exists|k: int| #[trigger]
        matches_at(line, rule.what, k) && replaces_at(line, rule, k)
}

/// Whether no rule changes the line.
pub open spec fn at_rest(line: Seq<char>, rules: Seq<RuleView>) -> bool {
    forall|i: int| 0 <= i < rules.len() ==> rewrite(line, #[trigger] rules[i]) == line
}

/// From a position on which no match is replaced, a rule leaves the rest of
/// the line as it is.
pub proof fn lemma_rewrite_from_keeps(line: Seq<char>, rule: RuleView, start: int)
    requires
        0 <= start <= line.len(),
        !finds_match(line, rule),
    ensures
        rewrite_from(line, rule, start) == line.skip(start),
    decreases line.len() - start,
{
    if rule.what.len() > 0 {
        lemma_find_from(line, rule.what, start);
        match find_from(line, rule.what, start) {
            None => {},
            Some(idx) => {
                let end = idx + rule.what.len();
                assert(matches_at(line, rule.what, idx));
                assert(!replaces_at(line, rule, idx));
                lemma_rewrite_from_keeps(line, rule, end);
                assert(line.subrange(start, idx) + line.subrange(idx, end) + line.skip(end)
                    == line.skip(start));
            },
        }
    }
}

/// A rule that has nothing to replace in a line leaves the line as it is.
pub proof fn lemma_rewrite_keeps(line: Seq<char>, rule: RuleView)
    requires
        !finds_match(line, rule),
    ensures
        rewrite(line, rule) == line,
{
    lemma_rewrite_from_keeps(line, rule, 0);
    assert(line.skip(0) == line);
}

/// A line that no rule changes comes out of all the rules as it went in.
pub proof fn lemma_rewrite_all_at_rest(line: Seq<char>, rules: Seq<RuleView>)
    requires
        at_rest(line, rules),
    ensures
        rewrite_all(line, rules) == line,
    decreases rules.len(),
{
    if rules.len() > 0 {
        let head = rules.drop_last();
        assert forall|i: int| 0 <= i < head.len() implies rewrite(line, #[trigger] head[i])
            == line by {
            assert(head[i] == rules[i]);
        }
        lemma_rewrite_all_at_rest(line, head);
        assert(rules.last() == rules[rules.len() - 1]);
    }
}

/// Rewriting is idempotent for rules that do not work on their own results:
/// where no rule changes the line that the rules have made of `line`,
/// rewriting that line once more gives the same line.
pub proof fn lemma_rewrite_all_idempotent(line: Seq<char>, rules: Seq<RuleView>)
    requires
        at_rest(rewrite_all(line, rules), rules),
    ensures
        rewrite_all(rewrite_all(line, rules), rules) == rewrite_all(line, rules),
{
    lemma_rewrite_all_at_rest(rewrite_all(line, rules), rules);
}

/// The same for rules that find nothing to replace in the line that they
/// have made of `line`.
pub proof fn lemma_rewrite_all_idempotent_without_match(line: Seq<char>, rules: Seq<RuleView>)
    requires
        forall|i: int|
            0 <= i < rules.len() ==> !finds_match(rewrite_all(line, rules), #[trigger] rules[i]),
    ensures
        rewrite_all(rewrite_all(line, rules), rules) == rewrite_all(line, rules),
{
    let out = rewrite_all(line, rules);
    assert forall|i: int| 0 <= i < rules.len() implies rewrite(out, #[trigger] rules[i])
        == out by {
        lemma_rewrite_keeps(out, rules[i]);
    }
    lemma_rewrite_all_idempotent(line, rules);
}

} // verus!
