//! The pattern language and its compiler.
//!
//! A pattern is read from left to right as a sequence of units, and each
//! unit stands for one character of the text:
//!
//! - a plain character stands for itself;
//! - `\w` stands for an ASCII letter, an ASCII digit or the underscore,
//!   `\\` for a backslash, and no other escape is known outside brackets;
//! - `[` ... `]` stands for any one of the alternatives listed between the
//!   brackets.
//!
//! Between brackets `a-z`, `A-Z` and `0-9` ask for the lowercase letters, the
//! uppercase letters and the digits. They are added behind the other
//! alternatives once the bracket closes, in this order, however often and
//! wherever they were written. An `a`, `A` or `0` followed by `-` but not by
//! the end of its range lists itself and `-`, as two alternatives. `\w`,
//! `\d` and `\\` list the word characters, the digits and the backslash.
//! Every other character lists itself: `[` does, and so does an `a`, `A` or
//! `0` that no `-` follows. A `-` is listed only where one is written.
//!
//! A bracket that lists nothing adds no unit, and neither does a backslash
//! at the very end of the pattern.

use crate::nfa::{NFAError, NFAView, NFA};
use crate::status_rules::{
    AlphaLowercaseRule, AlphaUppercaseRule, AlphanumericUnderlineRule, Digit, Rule,
};
use crate::text::chars_of;
use vstd::prelude::*;

verus! {

/// The ranges that a bracket expression has asked for so far.
pub struct Ranges {
    pub lowercase: bool,
    pub uppercase: bool,
    pub digit: bool,
}

impl Ranges {
    /// No range.
    pub open spec fn none() -> Ranges {
        Ranges { lowercase: false, uppercase: false, digit: false }
    }

    /// Whether `c` is the first character of a range.
    pub open spec fn opens(c: char) -> bool {
        c == 'a' || c == 'A' || c == '0'
    }

    /// The character that closes the range opened by `open`.
    pub open spec fn close_of(open: char) -> char {
        if open == 'a' {
            'z'
        } else if open == 'A' {
            'Z'
        } else {
            '9'
        }
    }

    /// The ranges with the one opened by `open` among them.
    pub open spec fn with(self, open: char) -> Ranges {
        if open == 'a' {
            Ranges { lowercase: true, uppercase: self.uppercase, digit: self.digit }
        } else if open == 'A' {
            Ranges { lowercase: self.lowercase, uppercase: true, digit: self.digit }
        } else {
            Ranges { lowercase: self.lowercase, uppercase: self.uppercase, digit: true }
        }
    }

    /// The rules of the ranges: lowercase, then uppercase, then digit.
    pub open spec fn rules(self) -> Seq<Rule> {
        (if self.lowercase {
            seq![Rule::AlphaLowercase(AlphaLowercaseRule)]
        } else {
            Seq::empty()
        }) + (if self.uppercase {
            seq![Rule::AlphaUppercase(AlphaUppercaseRule)]
        } else {
            Seq::empty()
        }) + (if self.digit {
            seq![Rule::Digit(Digit)]
        } else {
            Seq::empty()
        })
    }
}

/// The rule that the escape `\` `escaped` stands for outside brackets.
pub open spec fn escape(escaped: char) -> Result<Rule, NFAError> {
    if escaped == 'w' {
        Ok(Rule::AlphanumericUnderline(AlphanumericUnderlineRule))
    } else if escaped == '\\' {
        Ok(Rule::literal('\\'))
    } else {
        Err(NFAError::UnsupportedEscape(escaped))
    }
}

/// The rule that the escape `\` `escaped` stands for between brackets.
pub open spec fn bracket_escape(escaped: char) -> Result<Rule, NFAError> {
    if escaped == 'd' {
        Ok(Rule::Digit(Digit))
    } else {
        escape(escaped)
    }
}

/// `rules` in front of the alternatives that the rest of a bracket lists.
pub open spec fn listed(rules: Seq<Rule>, rest: Result<(Seq<Rule>, int), NFAError>) -> Result<
    (Seq<Rule>, int),
    NFAError,
> {
    match rest {
        Ok((more, end)) => Ok((rules + more, end)),
        Err(error) => Err(error),
    }
}

/// The alternatives that a bracket expression lists from position `at` on,
/// when it has asked for `ranges` before `at`, and the position behind its
/// `]`.
pub open spec fn bracket(pattern: Seq<char>, at: int, ranges: Ranges) -> Result<
    (Seq<Rule>, int),
    NFAError,
>
    decreases pattern.len() - at,
{
    if at < 0 || at >= pattern.len() {
        Err(NFAError::UnterminatedBracket)
    } else {
        let c = pattern[at];
        if c == ']' {
            Ok((ranges.rules(), at + 1))
        } else if Ranges::opens(c) && at + 1 < pattern.len() && pattern[at + 1] == '-' {
            if at + 2 < pattern.len() && pattern[at + 2] == Ranges::close_of(c) {
                bracket(pattern, at + 3, ranges.with(c))
            } else {
                listed(
                    seq![Rule::literal(c), Rule::literal('-')],
                    bracket(pattern, at + 2, ranges),
                )
            }
        } else if c == '\\' {
            if at + 1 >= pattern.len() {
                Err(NFAError::UnterminatedBracket)
            } else {
                match bracket_escape(pattern[at + 1]) {
                    Ok(rule) => listed(seq![rule], bracket(pattern, at + 2, ranges)),
                    Err(error) => Err(error),
                }
            }
        } else {
            listed(seq![Rule::literal(c)], bracket(pattern, at + 1, ranges))
        }
    }
}

/// A bracket expression ends behind the position at which it is read.
pub proof fn lemma_bracket_end(pattern: Seq<char>, at: int, ranges: Ranges)
    requires
        0 <= at,
    ensures
        bracket(pattern, at, ranges) matches Ok((_, end)) ==> at < end <= pattern.len(),
    decreases pattern.len() - at,
{
    if at < pattern.len() {
        let c = pattern[at];
        if c == ']' {
            // The bracket ends here.
        } else if Ranges::opens(c) && at + 1 < pattern.len() && pattern[at + 1] == '-' {
            if at + 2 < pattern.len() && pattern[at + 2] == Ranges::close_of(c) {
                lemma_bracket_end(pattern, at + 3, ranges.with(c));
            } else {
                lemma_bracket_end(pattern, at + 2, ranges);
            }
        } else if c == '\\' {
            if at + 1 < pattern.len() {
                lemma_bracket_end(pattern, at + 2, ranges);
            }
        } else {
            lemma_bracket_end(pattern, at + 1, ranges);
        }
    }
}

/// `unit` in front of the units that the rest of a pattern holds. A unit
/// without alternatives is left out.
pub open spec fn followed(unit: Seq<Rule>, rest: Result<Seq<Seq<Rule>>, NFAError>) -> Result<
    Seq<Seq<Rule>>,
    NFAError,
> {
    match rest {
        Ok(more) => Ok(
            if unit.len() == 0 {
                more
            } else {
                seq![unit] + more
            },
        ),
        Err(error) => Err(error),
    }
}

/// The units of `pattern` from position `at` on, each the list of its
/// alternatives, or the first error met.
pub open spec fn units(pattern: Seq<char>, at: int) -> Result<Seq<Seq<Rule>>, NFAError>
    decreases pattern.len() - at,
{
    if at < 0 || at >= pattern.len() {
        Ok(Seq::empty())
    } else {
        let c = pattern[at];
        if c == '\\' {
            if at + 1 >= pattern.len() {
                Ok(Seq::empty())
            } else {
                match escape(pattern[at + 1]) {
                    Ok(rule) => followed(seq![rule], units(pattern, at + 2)),
                    Err(error) => Err(error),
                }
            }
        } else if c == '[' {
            match bracket(pattern, at + 1, Ranges::none()) {
                Ok((rules, end)) => {
                    proof {
                        lemma_bracket_end(pattern, at + 1, Ranges::none());
                    }
                    followed(rules, units(pattern, end))
                },
                Err(error) => Err(error),
            }
        } else {
            followed(seq![Rule::literal(c)], units(pattern, at + 1))
        }
    }
}

/// The fragment for one unit: its alternatives joined by alternation from
/// left to right. A single alternative stands alone.
pub open spec fn alternation(rules: Seq<Rule>) -> NFAView
    decreases rules.len(),
{
    if rules.len() <= 1 {
        NFAView::with(rules[0])
    } else {
        alternation(rules.drop_last()).or(NFAView::with(rules.last()))
    }
}

/// The fragment for a sequence of units: the empty fragment, then the
/// fragment of each unit, joined by concatenation from left to right.
pub open spec fn sequence(units: Seq<Seq<Rule>>) -> NFAView
    decreases units.len(),
{
    if units.len() == 0 {
        NFAView::new()
    } else {
        sequence(units.drop_last()).and(alternation(units.last()))
    }
}

/// The fragment that `pattern` compiles to, or the first error in it.
pub open spec fn spec_compile(pattern: Seq<char>) -> Result<NFAView, NFAError> {
    match units(pattern, 0) {
        Ok(all) => Ok(sequence(all)),
        Err(error) => Err(error),
    }
}

/// `compiled` is what compiling `pattern` gives: the fragment of the
/// pattern, well formed, or the first error in the pattern.
pub open spec fn compiles_to(pattern: Seq<char>, compiled: Result<NFA, NFAError>) -> bool {
    match spec_compile(pattern) {
        Ok(view) => compiled matches Ok(nfa) && nfa.wf() && nfa@ == view,
        Err(error) => compiled matches Err(raised) && raised == error,
    }
}

/// `done` in front of the units that the rest of a pattern holds.
spec fn after(done: Seq<Seq<Rule>>, rest: Result<Seq<Seq<Rule>>, NFAError>) -> Result<
    Seq<Seq<Rule>>,
    NFAError,
> {
    match rest {
        Ok(more) => Ok(done + more),
        Err(error) => Err(error),
    }
}

/// `nfa` is the fragment of the alternatives `rules`, and absent when there
/// are none.
spec fn holds(nfa: Option<NFA>, rules: Seq<Rule>) -> bool {
    if rules.len() == 0 {
        nfa is None
    } else {
        nfa matches Some(fragment) && fragment.wf() && fragment@ == alternation(rules)
    }
}

/// Joins one more alternative to those collected so far.
fn alternate(
    collected: Option<NFA>,
    nfa: NFA,
    Ghost(rules): Ghost<Seq<Rule>>,
    Ghost(rule): Ghost<Rule>,
) -> (joined: Option<NFA>)
    requires
        holds(collected, rules),
        nfa.wf(),
        nfa@ == NFAView::with(rule),
    ensures
        holds(joined, rules.push(rule)),
{
    proof {
        assert(rules.push(rule).drop_last() =~= rules);
    }
    match collected {
        Some(fragment) => Some(fragment.or(nfa)),
        None => Some(nfa),
    }
}

impl NFA {
    /// Reads the escape whose character stands at `at`, behind a backslash
    /// outside brackets. Where the pattern ends at `at` there is no escape
    /// and no fragment.
    fn handle_backslash(chars: &Vec<char>, at: usize) -> (read: Result<Option<NFA>, NFAError>)
        requires
            at <= chars@.len(),
        ensures
            at >= chars@.len() ==> read matches Ok(None),
            at < chars@.len() ==> match escape(chars@[at as int]) {
                Ok(rule) => read matches Ok(Some(nfa)) && nfa.wf() && nfa@ == NFAView::with(rule),
                Err(error) => read matches Err(raised) && raised == error,
            },
    {
        if at >= chars.len() {
            return Ok(None);
        }
        let escaped = chars[at];
        if escaped == 'w' {
            Ok(Some(NFA::with_alphanumeric_underline()))
        } else if escaped == '\\' {
            Ok(Some(NFA::with('\\')))
        } else {
            Err(NFAError::UnsupportedEscape(escaped))
        }
    }

    /// Reads a bracket expression whose first character stands at `at`,
    /// behind the `[`. Gives the fragment of its alternatives, if it lists
    /// any, and the position behind its `]`.
    fn handle_bracket(chars: &Vec<char>, at: usize) -> (read: Result<(Option<NFA>, usize), NFAError>)
        requires
            at <= chars@.len(),
        ensures
            match bracket(chars@, at as int, Ranges::none()) {
                Ok((rules, end)) => read matches Ok((nfa, next)) && next == end && holds(
                    nfa,
                    rules,
                ),
                Err(error) => read matches Err(raised) && raised == error,
            },
    {
        let mut is_lowercase_alphabet = false;
        let mut is_uppercase_alphabet = false;
        let mut is_digit = false;
        let mut nfa: Option<NFA> = None;
        let mut pos = at;
        let len = chars.len();
        let ghost whole = bracket(chars@, at as int, Ranges::none());
        let ghost mut rules: Seq<Rule> = Seq::empty();
        let ghost mut ranges = Ranges::none();
        loop
            invariant
                at <= pos <= chars@.len() <= usize::MAX,
                len == chars@.len(),
                ranges == (Ranges {
                    lowercase: is_lowercase_alphabet,
                    uppercase: is_uppercase_alphabet,
                    digit: is_digit,
                }),
                holds(nfa, rules),
                whole == bracket(chars@, at as int, Ranges::none()),
                whole == listed(rules, bracket(chars@, pos as int, ranges)),
            ensures
                pos < chars@.len() <= usize::MAX,
                chars@[pos as int] == ']',
                ranges == (Ranges {
                    lowercase: is_lowercase_alphabet,
                    uppercase: is_uppercase_alphabet,
                    digit: is_digit,
                }),
                holds(nfa, rules),
                whole == bracket(chars@, at as int, Ranges::none()),
                whole == listed(rules, bracket(chars@, pos as int, ranges)),
            decreases chars@.len() - pos,
        {
            if pos >= len {
                return Err(NFAError::UnterminatedBracket);
            }
            let c = chars[pos];
            if c == ']' {
                break;
            } else if (c == 'a' || c == 'A' || c == '0') && pos + 1 < len && chars[pos + 1] == '-' {
                let close = if c == 'a' {
                    'z'
                } else if c == 'A' {
                    'Z'
                } else {
                    '9'
                };
                if pos + 2 < len && chars[pos + 2] == close {
                    if c == 'a' {
                        is_lowercase_alphabet = true;
                    } else if c == 'A' {
                        is_uppercase_alphabet = true;
                    } else {
                        is_digit = true;
                    }
                    proof {
                        ranges = ranges.with(c);
                    }
                    pos += 3;
                } else {
                    proof {
                        lemma_listed_twice(
                            rules,
                            seq![Rule::literal(c), Rule::literal('-')],
                            bracket(chars@, pos + 2, ranges),
                        );
                        assert(rules.push(Rule::literal(c)).push(Rule::literal('-')) =~= rules
                            + seq![Rule::literal(c), Rule::literal('-')]);
                    }
                    nfa = alternate(nfa, NFA::with(c), Ghost(rules), Ghost(Rule::literal(c)));
                    nfa = alternate(
                        nfa,
                        NFA::with('-'),
                        Ghost(rules.push(Rule::literal(c))),
                        Ghost(Rule::literal('-')),
                    );
                    proof {
                        rules = rules.push(Rule::literal(c)).push(Rule::literal('-'));
                    }
                    pos += 2;
                }
            } else if c == '\\' {
                if pos + 1 >= chars.len() {
                    return Err(NFAError::UnterminatedBracket);
                }
                let escaped = chars[pos + 1];
                let ghost rule = bracket_escape(escaped);
                let one = if escaped == 'w' {
                    NFA::with_alphanumeric_underline()
                } else if escaped == 'd' {
                    NFA::with_digit()
                } else if escaped == '\\' {
                    NFA::with('\\')
                } else {
                    return Err(NFAError::UnsupportedEscape(escaped));
                };
                proof {
                    lemma_listed_twice(
                        rules,
                        seq![rule->Ok_0],
                        bracket(chars@, pos + 2, ranges),
                    );
                    assert(rules.push(rule->Ok_0) =~= rules + seq![rule->Ok_0]);
                }
                nfa = alternate(nfa, one, Ghost(rules), Ghost(rule->Ok_0));
                proof {
                    rules = rules.push(rule->Ok_0);
                }
                pos += 2;
            } else {
                proof {
                    lemma_listed_twice(
                        rules,
                        seq![Rule::literal(c)],
                        bracket(chars@, pos + 1, ranges),
                    );
                    assert(rules.push(Rule::literal(c)) =~= rules + seq![Rule::literal(c)]);
                }
                nfa = alternate(nfa, NFA::with(c), Ghost(rules), Ghost(Rule::literal(c)));
                proof {
                    rules = rules.push(Rule::literal(c));
                }
                pos += 1;
            }
        }
        let ghost listed_before = rules;
        if is_lowercase_alphabet {
            nfa = alternate(
                nfa,
                NFA::with_alpha_lowercase(),
                Ghost(rules),
                Ghost(Rule::AlphaLowercase(AlphaLowercaseRule)),
            );
            proof {
                rules = rules.push(Rule::AlphaLowercase(AlphaLowercaseRule));
            }
        }
        if is_uppercase_alphabet {
            nfa = alternate(
                nfa,
                NFA::with_alpha_uppercase(),
                Ghost(rules),
                Ghost(Rule::AlphaUppercase(AlphaUppercaseRule)),
            );
            proof {
                rules = rules.push(Rule::AlphaUppercase(AlphaUppercaseRule));
            }
        }
        if is_digit {
            nfa = alternate(nfa, NFA::with_digit(), Ghost(rules), Ghost(Rule::Digit(Digit)));
            proof {
                rules = rules.push(Rule::Digit(Digit));
            }
        }
        proof {
            assert(rules =~= listed_before + ranges.rules());
        }
        Ok((nfa, pos + 1))
    }

    /// Compiles a pattern into the fragment that reads its units one after
    /// the other, or reports the first error in the pattern.
    pub fn from_str(s: &str) -> (compiled: Result<NFA, NFAError>)
        ensures
            compiles_to(s@, compiled),
    {
        let chars = chars_of(s);
        let mut start = NFA::new();
        let mut at: usize = 0;
        let ghost mut done: Seq<Seq<Rule>> = Seq::empty();
        while at < chars.len()
            invariant
                at <= chars@.len(),
                chars@ == s@,
                start.wf(),
                start@ == sequence(done),
                units(chars@, 0) == after(done, units(chars@, at as int)),
            decreases chars@.len() - at,
        {
            let c = chars[at];
            if c == '\\' {
                match Self::handle_backslash(&chars, at + 1) {
                    Ok(Some(nfa)) => {
                        proof {
                            let unit = seq![escape(chars@[at + 1])->Ok_0];
                            lemma_after_followed(done, unit, units(chars@, at + 2));
                            assert(done.push(unit).drop_last() =~= done);
                            done = done.push(unit);
                        }
                        start.and(nfa);
                        at += 2;
                    },
                    Ok(None) => {
                        at += 1;
                    },
                    Err(error) => {
                        return Err(error);
                    },
                }
            } else if c == '[' {
                proof {
                    lemma_bracket_end(chars@, at + 1, Ranges::none());
                }
                match Self::handle_bracket(&chars, at + 1) {
                    Ok((Some(nfa), next)) => {
                        proof {
                            let unit = bracket(chars@, at + 1, Ranges::none())->Ok_0.0;
                            lemma_after_followed(done, unit, units(chars@, next as int));
                            assert(done.push(unit).drop_last() =~= done);
                            done = done.push(unit);
                        }
                        start.and(nfa);
                        at = next;
                    },
                    Ok((None, next)) => {
                        proof {
                            let unit = bracket(chars@, at + 1, Ranges::none())->Ok_0.0;
                            lemma_after_followed(done, unit, units(chars@, next as int));
                        }
                        at = next;
                    },
                    Err(error) => {
                        return Err(error);
                    },
                }
            } else {
                proof {
                    let unit = seq![Rule::literal(c)];
                    lemma_after_followed(done, unit, units(chars@, at + 1));
                    assert(done.push(unit).drop_last() =~= done);
                    done = done.push(unit);
                }
                start.and(NFA::with(c));
                at += 1;
            }
        }
        Ok(start)
    }
}

/// Parsing a string as a fragment compiles it; the same as
/// [`NFA::from_str`].
impl std::str::FromStr for NFA {
    type Err = NFAError;

    fn from_str(s: &str) -> (compiled: Result<NFA, NFAError>)
        ensures
            compiles_to(s@, compiled),
    {
        NFA::from_str(s)
    }
}

/// Compiles a pattern; the same as [`NFA::from_str`].
pub fn compile(pattern: &str) -> (compiled: Result<NFA, NFAError>)
    ensures
        compiles_to(pattern@, compiled),
{
    NFA::from_str(pattern)
}

/// Listing `first` and then `second` in front of `rest` lists both in front
/// of it.
proof fn lemma_listed_twice(
    first: Seq<Rule>,
    second: Seq<Rule>,
    rest: Result<(Seq<Rule>, int), NFAError>,
)
    ensures
        listed(first, listed(second, rest)) == listed(first + second, rest),
{
    match rest {
        Ok((more, end)) => {
            assert(first + (second + more) =~= (first + second) + more);
        },
        Err(_) => {},
    }
}

/// A unit in front of the rest joins the units that are done, unless it has
/// no alternatives.
proof fn lemma_after_followed(
    done: Seq<Seq<Rule>>,
    unit: Seq<Rule>,
    rest: Result<Seq<Seq<Rule>>, NFAError>,
)
    ensures
        after(done, followed(unit, rest)) == after(
            if unit.len() == 0 {
                done
            } else {
                done.push(unit)
            },
            rest,
        ),
{
    match rest {
        Ok(more) => {
            assert(done + (seq![unit] + more) =~= done.push(unit) + more);
        },
        Err(_) => {},
    }
}

} // verus!
