use fixsrt::rules::{rules_from, RULES_EN, RULES_FR};
use fixsrt::txt_rep::{
    apply_rule, apply_rules, is_digit, is_letter, is_separator, replace_by_rule, replace_one,
    replace_one_fr, replace_with_rules, rule_set, Follow, Rule,
};

fn chars(s: &str) -> Vec<char> {
    s.chars().collect()
}

fn text(v: Vec<char>) -> String {
    v.into_iter().collect()
}

#[test]
fn separators_letters_and_digits() {
    for c in [' ', '\u{a0}', '.', ',', '"', '-'] {
        assert!(is_separator(c));
        assert!(!is_letter(c));
    }
    for c in ['a', 'é', '0', '\'', '!', '?', ';', ':', '\t', '_'] {
        assert!(!is_separator(c));
        assert!(is_letter(c));
    }
    assert!(is_digit('0') && is_digit('9'));
    assert!(!is_digit('a') && !is_digit('٣') && !is_digit(' '));
}

#[test]
fn rule_markers_are_read_once() {
    let r = Rule::new("Ca", "Ça");
    assert_eq!(text(r.what.clone()), "Ca");
    assert_eq!(text(r.with.clone()), "Ça");
    assert_eq!(r.precede, Follow::Nothing);
    assert_eq!(r.follow, Follow::Nothing);

    let r = Rule::new("*oeu+", "œu");
    assert_eq!(text(r.what.clone()), "oeu");
    assert_eq!(r.precede, Follow::Any);
    assert_eq!(r.follow, Follow::Letter);

    let r = Rule::new("#ème", "ᵉ");
    assert_eq!(text(r.what.clone()), "ème");
    assert_eq!(r.precede, Follow::Digit);
    assert_eq!(r.follow, Follow::Nothing);

    let r = Rule::new("x#", "y");
    assert_eq!(text(r.what.clone()), "x");
    assert_eq!(r.precede, Follow::Nothing);
    assert_eq!(r.follow, Follow::Digit);

    // The marker at the end is read first.
    let r = Rule::new("+?", "\u{a0}?");
    assert_eq!(text(r.what.clone()), "?");
    assert_eq!(r.precede, Follow::Letter);
    assert_eq!(r.follow, Follow::Nothing);

    let r = Rule::new("*", "y");
    assert_eq!(text(r.what.clone()), "");
    assert_eq!(r.precede, Follow::Nothing);
    assert_eq!(r.follow, Follow::Any);

    let r = Rule::new("+#", "y");
    assert_eq!(text(r.what.clone()), "");
    assert_eq!(r.precede, Follow::Letter);
    assert_eq!(r.follow, Follow::Digit);

    let r = Rule::new("", "y");
    assert_eq!(text(r.what.clone()), "");
    assert_eq!(r.precede, Follow::Nothing);
    assert_eq!(r.follow, Follow::Nothing);
}

#[test]
fn boundary_respect() {
    assert_eq!(replace_by_rule("caca", "ca", "ça"), "caca");
    assert_eq!(replace_by_rule("Ca va", "Ca", "Ça"), "Ça va");
}

#[test]
fn wildcard_suffix() {
    assert_eq!(replace_one("manoeuvrer", "FR"), "manœuvrer");
    assert_eq!(replace_by_rule("oeizz", "oei*", "œi"), "œizz");
    assert_eq!(replace_by_rule("zoeizz", "oei*", "œi"), "zoeizz");
    assert_eq!(replace_by_rule("z oeizz", "oei*", "œi"), "z œizz");
}

#[test]
fn end_of_line_space_trim() {
    assert_eq!(replace_by_rule("ok!", "+!", "\u{a0}!"), "ok\u{a0}!");
    // At the end of the line the replacement loses the space at its end.
    assert_eq!(replace_by_rule("ok!", "+!", "\u{a0}! "), "ok\u{a0}!");
    // In the middle it keeps it.
    assert_eq!(replace_by_rule("ok! done", "+!", "\u{a0}! "), "ok\u{a0}!  done");
    assert_eq!(replace_by_rule("a  b", "a ", "c "), "c  b");
    assert_eq!(replace_by_rule("a b", "a ", "c "), "a b");
    assert_eq!(replace_by_rule("b a", "a", "c "), "b c");
    assert_eq!(replace_by_rule("a", "a", " "), "");
    // Only one space is taken, and only from a replacement that is used.
    assert_eq!(replace_by_rule("b a", "a", "c  "), "b c ");
    assert_eq!(replace_by_rule("ba", "a", "c "), "ba");
}

#[test]
fn default_boundaries_want_separators() {
    assert_eq!(replace_by_rule("Ca.", "Ca", "Ça"), "Ça.");
    assert_eq!(replace_by_rule("Ca,", "Ca", "Ça"), "Ça,");
    assert_eq!(replace_by_rule("Ca-t-il", "Ca", "Ça"), "Ça-t-il");
    assert_eq!(replace_by_rule("\"Ca\"", "Ca", "Ça"), "\"Ça\"");
    assert_eq!(replace_by_rule("x\u{a0}Ca\u{a0}x", "Ca", "Ça"), "x\u{a0}Ça\u{a0}x");
    assert_eq!(replace_by_rule("Ca!", "Ca", "Ça"), "Ca!");
    assert_eq!(replace_by_rule("Ca'", "Ca", "Ça"), "Ca'");
    assert_eq!(replace_by_rule("(Ca", "Ca", "Ça"), "(Ca");
    assert_eq!(replace_by_rule("Caribou", "Ca", "Ça"), "Caribou");
    assert_eq!(replace_by_rule("LeCa", "Ca", "Ça"), "LeCa");
}

#[test]
fn an_apostrophe_may_stand_before_a_match() {
    assert_eq!(replace_by_rule("l'Etat", "Etat", "État"), "l'État");
    assert_eq!(replace_by_rule("Etat'", "Etat", "État"), "Etat'");
    // Not so where the rule asks for a digit.
    assert_eq!(replace_by_rule("'e", "#e", "ᵉ"), "'e");
    // An apostrophe is a letter, not being a separator.
    assert_eq!(replace_by_rule("'e", "+e", "E"), "'E");
}

#[test]
fn letter_and_digit_markers() {
    assert_eq!(replace_by_rule("10e", "#e", "ᵉ"), "10ᵉ");
    assert_eq!(replace_by_rule("xe", "#e", "ᵉ"), "xe");
    assert_eq!(replace_by_rule("e", "#e", "ᵉ"), "ᵉ");
    assert_eq!(replace_by_rule("n5", "n#", "N"), "N5");
    assert_eq!(replace_by_rule("nx", "n#", "N"), "nx");
    assert_eq!(replace_by_rule("ok?", "+?", "!"), "ok!");
    assert_eq!(replace_by_rule("ok ?", "+?", "!"), "ok ?");
    assert_eq!(replace_by_rule("ab", "a+", "A"), "Ab");
    assert_eq!(replace_by_rule("a b", "a+", "A"), "a b");
    assert_eq!(replace_by_rule("a", "a+", "A"), "A");
    assert_eq!(replace_by_rule("xay", "*a*", "A"), "xAy");
    assert_eq!(replace_by_rule(" a ", "*a*", "A"), " A ");
}

#[test]
fn matches_do_not_overlap() {
    assert_eq!(replace_by_rule("aaa", "*aa*", "b"), "ba");
    assert_eq!(replace_by_rule("aaaa", "*aa*", "b"), "bb");
    assert_eq!(replace_by_rule("aaaaa", "*aa*", "b"), "bba");
    // A match that is not replaced is consumed all the same.
    assert_eq!(replace_by_rule("aaa a", "aa", "b"), "aaa a");
    assert_eq!(replace_by_rule("xaa aa", "aa", "b"), "xaa b");
    // The replacement is not searched again.
    assert_eq!(replace_by_rule("a", "*a*", "aa"), "aa");
    assert_eq!(replace_by_rule("a a", "a", "a a"), "a a a a");
}

#[test]
fn boundaries_are_those_of_the_line_as_it_was() {
    // The second match follows a `b`, which the first replacement removed.
    assert_eq!(replace_by_rule("ab ab", "*ab*", "a"), "a a");
    assert_eq!(replace_by_rule("a,a", "a", "b"), "b,b");
    assert_eq!(replace_by_rule("aXa", "a", "b"), "aXa");
}

#[test]
fn every_match_in_a_line_is_taken() {
    assert_eq!(replace_by_rule("Ca et Ca, Ca", "Ca", "Ça"), "Ça et Ça, Ça");
    assert_eq!(
        replace_by_rule("\"Oeil pour oeil\"", "oei*", "œi"),
        "\"Oeil pour œil\""
    );
}

#[test]
fn nothing_to_do() {
    assert_eq!(replace_by_rule("", "Ca", "Ça"), "");
    assert_eq!(replace_by_rule("hello", "Ca", "Ça"), "hello");
    assert_eq!(replace_by_rule("C", "Ca", "Ça"), "C");
    assert_eq!(replace_by_rule("Ca", "Ca", "Ca"), "Ca");
}

#[test]
fn an_empty_pattern_matches_nothing() {
    assert_eq!(replace_by_rule("hello", "", "x"), "hello");
    assert_eq!(replace_by_rule("hello", "*", "x"), "hello");
    assert_eq!(replace_by_rule("hello", "+#", "x"), "hello");
    assert_eq!(replace_by_rule("", "", "x"), "");
}

#[test]
fn apply_rule_works_on_characters() {
    let rule = Rule::new("Ca", "Ça");
    assert_eq!(text(apply_rule(&chars("Ca va"), &rule)), "Ça va");
    assert_eq!(text(apply_rule(&chars(""), &rule)), "");
}

#[test]
fn rules_are_applied_in_order() {
    let rules = vec![Rule::new("a", "b"), Rule::new("b", "c")];
    assert_eq!(text(apply_rules(&chars("a"), &rules)), "c");
    assert_eq!(replace_with_rules("a b d", &rules), "c c d");
    let rules = vec![Rule::new("b", "c"), Rule::new("a", "b")];
    assert_eq!(replace_with_rules("a b d", &rules), "b c d");
    assert_eq!(replace_with_rules("a b d", &Vec::new()), "a b d");
}

#[test]
fn the_language_picks_the_table() {
    assert_eq!(replace_one("Ca va", "FR"), "Ça va");
    assert_eq!(replace_one("Ca va", "EN"), "Ca va");
    assert_eq!(replace_one("l'm here", "EN"), "I'm here");
    assert_eq!(replace_one("l'm here", "FR"), "l'm here");
    // Anything but `EN` is French.
    assert_eq!(replace_one("Ca va", "fr"), "Ça va");
    assert_eq!(replace_one("Ca va", "en"), "Ça va");
    assert_eq!(replace_one("Ca va", ""), "Ça va");
    assert_eq!(replace_one("Ca va", "ENG"), "Ça va");
    assert_eq!(rule_set("EN"), rules_from(&RULES_EN));
    assert_eq!(rule_set("FR"), rules_from(&RULES_FR));
    assert_eq!(rule_set("xx"), rules_from(&RULES_FR));
    assert_eq!(rules_from(&RULES_FR).len(), RULES_FR.len());
    assert_eq!(rules_from(&RULES_FR)[0], Rule::new("+?", "\u{a0}?"));
}

#[test]
fn no_rule_has_an_empty_pattern() {
    for rule in rules_from(&RULES_FR).iter().chain(rules_from(&RULES_EN).iter()) {
        assert!(!rule.what.is_empty());
    }
}

#[test]
fn rewriting_twice_is_rewriting_once() {
    for line in [
        "Ca va",
        "ok?",
        "ok ?",
        "A quoi?",
        "des soeurs.",
        "10ème",
        "\"Oeil pour oeil\"",
        "l'Etat",
        "rien à faire",
        "",
    ] {
        let once = replace_one_fr(line);
        assert_eq!(replace_one_fr(&once), once);
    }
    for line in ["l'm here", "lt's me", "nothing"] {
        let once = replace_one(line, "EN");
        assert_eq!(replace_one(&once, "EN"), once);
    }
    // Rules that work on their own results are not idempotent.
    let rules = vec![Rule::new("*a*", "aa")];
    let once = replace_with_rules("a", &rules);
    assert_eq!(once, "aa");
    assert_eq!(replace_with_rules(&once, &rules), "aaaa");
}
