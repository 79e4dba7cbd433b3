use thompson_nfa::nfa::NFA;
use thompson_nfa::nfa_executor::NFAExecutor;
use thompson_nfa::status_rules::{
    AlphaLowercaseRule, AlphaRule, AlphaUppercaseRule, AlphanumericUnderlineRule, Digit, Rule,
    SingleCharRule, StatusTargetRule,
};

fn literal(text: char) -> Rule {
    Rule::SingleChar(SingleCharRule::new(text))
}

fn fragment_of(rule: Rule) -> NFA {
    match rule {
        Rule::Empty => NFA::new(),
        Rule::SingleChar(rule) => NFA::with(rule.text),
        Rule::Alpha(_) => NFA::with_alpha(),
        Rule::AlphaLowercase(_) => NFA::with_alpha_lowercase(),
        Rule::AlphaUppercase(_) => NFA::with_alpha_uppercase(),
        Rule::Digit(_) => NFA::with_digit(),
        Rule::AlphanumericUnderline(_) => NFA::with_alphanumeric_underline(),
    }
}

/// The fragment of a sequence of units, built by the composition.
fn sequence(units: &[Vec<Rule>]) -> NFA {
    let mut nfa = NFA::new();
    for unit in units {
        let mut alternatives = fragment_of(unit[0]);
        for rule in &unit[1..] {
            alternatives = alternatives.or(fragment_of(*rule));
        }
        nfa.and(alternatives);
    }
    nfa
}

/// Whether the text begins with one character for each unit, the last unit
/// has one alternative, and there is a unit.
fn expected(units: &[Vec<Rule>], text: &str) -> bool {
    let chars: Vec<char> = text.chars().collect();
    match units.last() {
        None => false,
        Some(last) => {
            last.len() == 1
                && units.len() <= chars.len()
                && units
                    .iter()
                    .zip(chars.iter())
                    .all(|(unit, c)| unit.iter().any(|rule| rule.input(*c)))
        }
    }
}

#[test]
fn a_sequence_accepts_what_its_units_read() {
    let lower = Rule::AlphaLowercase(AlphaLowercaseRule);
    let upper = Rule::AlphaUppercase(AlphaUppercaseRule);
    let digit = Rule::Digit(Digit);
    let word = Rule::AlphanumericUnderline(AlphanumericUnderlineRule);
    let alpha = Rule::Alpha(AlphaRule);
    let sequences: Vec<Vec<Vec<Rule>>> = vec![
        vec![],
        vec![vec![literal('a')]],
        vec![vec![literal('a'), literal('b')]],
        vec![vec![literal('a')], vec![literal('b')]],
        vec![vec![literal('a'), digit], vec![literal('b')]],
        vec![vec![lower, upper, digit], vec![word]],
        vec![vec![word], vec![lower, upper, digit]],
        vec![vec![literal('x'), literal('y'), literal('z'), alpha], vec![digit], vec![literal('!')]],
        vec![vec![literal('a')], vec![literal('a'), literal('a')], vec![literal('a')]],
    ];
    let texts = [
        "", "a", "b", "ab", "a1", "1b", "bb", "aa", "aaa", "aaaa", "ab!", "x1!", "Q1!", "Q1!rest",
        "Q1", "q_", "Q7", "7q", "_", "__", "a b", "\0",
    ];
    for units in &sequences {
        for text in texts {
            assert_eq!(
                sequence(units).accepts(text),
                expected(units, text),
                "{:?} on {:?}",
                units,
                text
            );
        }
    }
}

#[test]
fn a_compiled_pattern_accepts_what_its_units_read() {
    let lower = Rule::AlphaLowercase(AlphaLowercaseRule);
    let digit = Rule::Digit(Digit);
    let word = Rule::AlphanumericUnderline(AlphanumericUnderlineRule);
    let cases: Vec<(&str, Vec<Vec<Rule>>)> = vec![
        ("", vec![]),
        ("ab", vec![vec![literal('a')], vec![literal('b')]]),
        (r"a[\w]b", vec![vec![literal('a')], vec![word], vec![literal('b')]]),
        ("[xy0-9a-z]!", vec![vec![literal('x'), literal('y'), lower, digit], vec![literal('!')]]),
        ("q[xy]", vec![vec![literal('q')], vec![literal('x'), literal('y')]]),
        (r"[]\\[a]", vec![vec![literal('\\')], vec![literal('a')]]),
        ("[ab0]!", vec![vec![literal('a'), literal('b'), literal('0')], vec![literal('!')]]),
    ];
    let texts = [
        "", "a", "ab", "abc", "a_b", "x!", "7!", "m!", "!", "qx", "q", "\\", "\\\\", "\\a", "a!",
        "0!", "b!", "-!",
    ];
    for (pattern, units) in &cases {
        for text in texts {
            let nfa = NFA::from_str(pattern).unwrap();
            assert_eq!(nfa.accepts(text), expected(units, text));
        }
    }
}

#[test]
fn an_accepted_text_is_accepted_with_anything_behind_it() {
    let patterns = ["a", "abc", r"a[\w]b", "[a-z]"];
    let texts = ["a", "abc", "a_b", "q", "ab"];
    let tails = ["", "x", "   ", "abc", "\0", "]"];
    for pattern in patterns {
        for text in texts {
            let nfa = NFA::from_str(pattern).unwrap();
            if nfa.accepts(text) {
                for tail in tails {
                    let longer = format!("{}{}", text, tail);
                    assert!(nfa.accepts(&longer));
                }
            }
        }
    }
    assert!(NFA::from_str("abc").unwrap().accepts("abc"));
    assert!(NFA::from_str("abc").unwrap().accepts("abcd"));
}

#[test]
fn an_alternation_by_itself_accepts_nothing() {
    let texts = ["", "a", "b", "ab", "a!", "\0"];
    for text in texts {
        assert!(!NFA::with('a').or(NFA::with('b')).accepts(text));
        assert!(!NFA::new().or(NFA::new()).accepts(text));
        assert!(!NFA::from_str("a")
            .unwrap()
            .or(NFA::from_str("b").unwrap())
            .accepts(text));
        assert!(!NFAExecutor::new(NFA::with('a').or(NFA::with_digit()), text).test());
    }
}

#[test]
fn a_fragment_of_one_rule_accepts_by_its_first_character() {
    let rules = [
        literal('a'),
        Rule::Alpha(AlphaRule),
        Rule::AlphaLowercase(AlphaLowercaseRule),
        Rule::AlphaUppercase(AlphaUppercaseRule),
        Rule::Digit(Digit),
        Rule::AlphanumericUnderline(AlphanumericUnderlineRule),
    ];
    let texts = ["", "a", "A", "0", "_", "ab", "a ", " a", "\0", "-a"];
    for rule in rules {
        for text in texts {
            let first = text.chars().next();
            assert_eq!(
                fragment_of(rule).accepts(text),
                first.map_or(false, |c| rule.input(c))
            );
        }
    }
    for text in texts {
        assert!(!NFA::new().accepts(text));
    }
}
