//! The rule tables, one for each language.
//!
//! Each rule is a pattern and its replacement. The rules of a table are
//! applied in the order in which they stand, so a rule sees what the rules
//! before it have written: the rules on punctuation come first, for the
//! rules on words to find a separator behind the word.

use vstd::prelude::*;
use crate::txt_rep::{parse_rule, rule_views, Rule, RuleView};

verus! {

/// The rules for French.
pub const RULES_FR: [(&'static str, &'static str); 52] = [
    ("+?", "\u{A0}?"),
    ("+!", "\u{A0}!"),
    ("* ?", "\u{A0}?"),
    ("* !", "\u{A0}!"),
    ("Ca", "Ça"),
    ("ca", "ça"),
    ("A quoi", "À quoi"),
    ("A qui", "À qui"),
    ("A l'*", "À l'"),
    ("A t'*", "À t'"),
    ("A part", "À part"),
    ("A cause", "À cause"),
    ("A bientôt", "À bientôt"),
    ("A demain", "À demain"),
    ("A plus tard", "À plus tard"),
    ("D'ou", "D'où"),
    ("d'ou", "d'où"),
    ("Bien sur", "Bien sûr"),
    ("bien sur,", "bien sûr,"),
    ("bien sur.", "bien sûr."),
    ("des qu'*", "dès qu'"),
    ("Des qu'*", "Dès qu'"),
    ("des que", "dès que"),
    ("Des que", "Dès que"),
    ("Ecart", "Écart"),
    ("Ecoute", "Écoute"),
    ("Ecoutez", "Écoutez"),
    ("Ecole", "École"),
    ("Ecris", "Écris"),
    ("Eglise", "Église"),
    ("Elle etait", "Elle était"),
    ("Etat", "État"),
    ("Etats", "États"),
    ("Etais", "Étais"),
    ("Etait", "Était"),
    ("Etaient", "Étaient"),
    ("Etant", "Étant"),
    ("Etiez", "Étiez"),
    ("Etions", "Étions"),
    ("Etes", "Êtes"),
    ("Etre", "Être"),
    ("Evidemment", "Évidemment"),
    ("Evite", "Évite"),
    ("*oeu*", "œu"),
    ("*Oeu*", "Œu"),
    ("oei*", "œi"),
    ("Oei*", "Œi"),
    ("#ème", "ᵉ"),
    ("#eme", "ᵉ"),
    ("#è", "ᵉ"),
    ("#e", "ᵉ"),
    ("#er", "ᵉʳ"),
];

/// The rules for English.
pub const RULES_EN: [(&'static str, &'static str); 10] = [
    ("l'm", "I'm"),
    ("l'll", "I'll"),
    ("l've", "I've"),
    ("l'd", "I'd"),
    ("lt's", "It's"),
    ("lt", "It"),
    ("lf", "If"),
    ("ln", "In"),
    ("ls", "Is"),
    ("l", "I"),
];

/// The rules that pairs of a pattern and a replacement stand for.
pub open spec fn pair_rules(pairs: Seq<(&'static str, &'static str)>) -> Seq<RuleView> {
    Seq::new(pairs.len(), |i: int| parse_rule(pairs[i].0@, pairs[i].1@))
}

/// Reads the markers of every pattern of a table.
pub fn rules_from(pairs: &[(&'static str, &'static str)]) -> (rules: Vec<Rule>)
    ensures
        rule_views(rules@) == pair_rules(pairs@),
{
    let mut rules: Vec<Rule> = Vec::new();
    let mut i: usize = 0;
    while i < pairs.len()
        invariant
            i <= pairs.len(),
            rules.len() == i,
            forall|k: int|
                0 <= k < i ==> (#[trigger] rules[k])@ == parse_rule(pairs[k].0@, pairs[k].1@),
        decreases pairs.len() - i,
    {
        let pair = pairs[i];
        rules.push(Rule::new(pair.0, pair.1));
        i += 1;
    }
    assert(rule_views(rules@) == pair_rules(pairs@));
    rules
}

} // verus!
