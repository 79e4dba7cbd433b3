//! Character tests that label the transitions of an automaton.
//!
//! A rule is a pure predicate on one character. The set of rules is closed:
//! [`Rule`] lists every label a transition can carry, and two labels are equal
//! exactly when they are the same variant testing the same character.

use vstd::prelude::*;

verus! {

/// The character that stands for "no input" when a state is inspected one
/// step at a time. No built-in character class contains it.
pub const EMPTY: char = '\0';

/// `a` to `z`.
pub open spec fn is_ascii_lowercase(text: char) -> bool {
    'a' <= text && text <= 'z'
}

/// `A` to `Z`.
pub open spec fn is_ascii_uppercase(text: char) -> bool {
    'A' <= text && text <= 'Z'
}

/// `0` to `9`.
pub open spec fn is_ascii_digit(text: char) -> bool {
    '0' <= text && text <= '9'
}

/// An ASCII letter of either case.
pub open spec fn is_ascii_alphabetic(text: char) -> bool {
    is_ascii_lowercase(text) || is_ascii_uppercase(text)
}

/// An ASCII letter, an ASCII digit or the underscore.
pub open spec fn is_word_char(text: char) -> bool {
    is_ascii_alphabetic(text) || is_ascii_digit(text) || text == '_'
}

/// A test on a single character.
pub trait StatusTargetRule {
    /// The set of characters that pass the test.
    spec fn accepts(&self, text: char) -> bool;

    /// Decides whether `text` passes the test.
    fn input(&self, text: char) -> (accepted: bool)
        ensures
            accepted == self.accepts(text),
    ;
}

/// Passes exactly one character.
#[derive(Clone, Copy, Debug, PartialEq, Eq, Structural)]
pub struct SingleCharRule {
    pub text: char,
}

/// Passes the ASCII letters.
#[derive(Clone, Copy, Debug, PartialEq, Eq, Structural)]
pub struct AlphaRule;

/// Passes the ASCII lowercase letters.
#[derive(Clone, Copy, Debug, PartialEq, Eq, Structural)]
pub struct AlphaLowercaseRule;

/// Passes the ASCII uppercase letters.
#[derive(Clone, Copy, Debug, PartialEq, Eq, Structural)]
pub struct AlphaUppercaseRule;

/// Passes the ASCII digits.
#[derive(Clone, Copy, Debug, PartialEq, Eq, Structural)]
pub struct Digit;

/// Passes the ASCII letters, the ASCII digits and the underscore.
#[derive(Clone, Copy, Debug, PartialEq, Eq, Structural)]
pub struct AlphanumericUnderlineRule;

impl SingleCharRule {
    /// The rule that passes exactly `text`.
    pub fn new(text: char) -> (rule: Self)
        ensures
            rule.text == text,
    {
        Self { text }
    }

    /// The rule that passes exactly `text`, on the heap.
    pub fn boxed(text: char) -> (rule: Box<Self>)
        ensures
            rule.text == text,
    {
        Box::new(Self::new(text))
    }
}

impl StatusTargetRule for SingleCharRule {
    open spec fn accepts(&self, text: char) -> bool {
        self.text == text
    }

    fn input(&self, text: char) -> (accepted: bool) {
        self.text == text
    }
}

impl AlphaRule {
    /// The rule, on the heap.
    pub fn boxed() -> (rule: Box<Self>)
        ensures
            *rule == AlphaRule,
    {
        Box::new(Self)
    }
}

impl StatusTargetRule for AlphaRule {
    open spec fn accepts(&self, text: char) -> bool {
        is_ascii_alphabetic(text)
    }

    fn input(&self, text: char) -> (accepted: bool) {
        ('a' <= text && text <= 'z') || ('A' <= text && text <= 'Z')
    }
}

impl AlphaLowercaseRule {
    /// The rule, on the heap.
    pub fn boxed() -> (rule: Box<Self>)
        ensures
            *rule == AlphaLowercaseRule,
    {
        Box::new(Self)
    }
}

impl StatusTargetRule for AlphaLowercaseRule {
    open spec fn accepts(&self, text: char) -> bool {
        is_ascii_lowercase(text)
    }

    fn input(&self, text: char) -> (accepted: bool) {
        'a' <= text && text <= 'z'
    }
}

impl AlphaUppercaseRule {
    /// The rule, on the heap.
    pub fn boxed() -> (rule: Box<Self>)
        ensures
            *rule == AlphaUppercaseRule,
    {
        Box::new(Self)
    }
}

impl StatusTargetRule for AlphaUppercaseRule {
    open spec fn accepts(&self, text: char) -> bool {
        is_ascii_uppercase(text)
    }

    fn input(&self, text: char) -> (accepted: bool) {
        'A' <= text && text <= 'Z'
    }
}

impl Digit {
    /// The rule, on the heap.
    pub fn boxed() -> (rule: Box<Self>)
        ensures
            *rule == Digit,
    {
        Box::new(Self)
    }
}

impl StatusTargetRule for Digit {
    open spec fn accepts(&self, text: char) -> bool {
        is_ascii_digit(text)
    }

    fn input(&self, text: char) -> (accepted: bool) {
        '0' <= text && text <= '9'
    }
}

impl AlphanumericUnderlineRule {
    /// The rule, on the heap.
    pub fn boxed() -> (rule: Box<Self>)
        ensures
            *rule == AlphanumericUnderlineRule,
    {
        Box::new(Self)
    }
}

impl StatusTargetRule for AlphanumericUnderlineRule {
    open spec fn accepts(&self, text: char) -> bool {
        is_word_char(text)
    }

    fn input(&self, text: char) -> (accepted: bool) {
        ('a' <= text && text <= 'z') || ('A' <= text && text <= 'Z') || ('0' <= text && text
            <= '9') || text == '_'
    }
}

/// The label of a transition.
///
/// `Empty` marks a transition that is taken without reading input. As a
/// character test it passes [`EMPTY`] and nothing else, so that stepping a
/// state on `EMPTY` follows its first such transition; a traversal tells an
/// empty transition by its variant and never by the character.
#[derive(Clone, Copy, Debug, PartialEq, Eq, Structural)]
pub enum Rule {
    Empty,
    SingleChar(SingleCharRule),
    Alpha(AlphaRule),
    AlphaLowercase(AlphaLowercaseRule),
    AlphaUppercase(AlphaUppercaseRule),
    Digit(Digit),
    AlphanumericUnderline(AlphanumericUnderlineRule),
}

impl Rule {
    /// The label that passes exactly `text`.
    pub open spec fn literal(text: char) -> Rule {
        Rule::SingleChar(SingleCharRule { text })
    }

    /// Whether the transition is taken without reading input.
    pub fn is_empty(&self) -> (empty: bool)
        ensures
            empty == (*self is Empty),
    {
        match self {
            Rule::Empty => true,
            _ => false,
        }
    }
}

impl StatusTargetRule for Rule {
    open spec fn accepts(&self, text: char) -> bool {
        match *self {
            Rule::Empty => text == EMPTY,
            Rule::SingleChar(rule) => rule.accepts(text),
            Rule::Alpha(rule) => rule.accepts(text),
            Rule::AlphaLowercase(rule) => rule.accepts(text),
            Rule::AlphaUppercase(rule) => rule.accepts(text),
            Rule::Digit(rule) => rule.accepts(text),
            Rule::AlphanumericUnderline(rule) => rule.accepts(text),
        }
    }

    fn input(&self, text: char) -> (accepted: bool) {
        match self {
            Rule::Empty => text == EMPTY,
            Rule::SingleChar(rule) => rule.input(text),
            Rule::Alpha(rule) => rule.input(text),
            Rule::AlphaLowercase(rule) => rule.input(text),
            Rule::AlphaUppercase(rule) => rule.input(text),
            Rule::Digit(rule) => rule.input(text),
            Rule::AlphanumericUnderline(rule) => rule.input(text),
        }
    }
}

} // verus!
