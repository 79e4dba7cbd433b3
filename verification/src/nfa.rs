//! Automaton fragments and the two ways of composing them.
//!
//! A fragment is a pool of states with one entry and one exit. Fragments are
//! built from a single transition and combined by concatenation ([`NFA::and`])
//! and alternation ([`NFA::or`]); nothing else creates states.

use crate::status::{pool_view, pool_wf, IdAllocator, Status, StatusType, StatusView};
use crate::status_rules::{
    AlphaLowercaseRule, AlphaRule, AlphaUppercaseRule, AlphanumericUnderlineRule, Digit, Rule,
    SingleCharRule,
};
use vstd::prelude::*;

verus! {

/// Why a pattern could not be compiled.
#[derive(Clone, Copy, Debug, PartialEq, Eq, Structural)]
pub enum NFAError {
    /// A backslash is followed by a character that names no escape.
    UnsupportedEscape(char),
    /// A `[` is not closed by a `]` before the pattern ends.
    UnterminatedBracket,
}

/// The states of `pool`, each moved up by `by`.
pub open spec fn renumber_all(pool: Seq<StatusView>, by: int) -> Seq<StatusView> {
    Seq::new(pool.len(), |at: int| pool[at].renumber(by))
}

/// The mathematical content of an [`NFA`].
pub struct NFAView {
    pub states: Seq<StatusView>,
    pub start: int,
    pub end: int,
}

impl NFAView {
    /// The invariant of a fragment.
    ///
    /// The entry is the first state and the exit the last. The entry alone has
    /// the role `Start` and the exit alone the role `End`. The exit has no
    /// transition and every other state has one, and transitions lead forward:
    /// every walk from the entry arrives at the exit.
    pub open spec fn wf(self) -> bool {
        &&& pool_wf(self.states)
        &&& self.states.len() >= 2
        &&& self.start == 0
        &&& self.end == self.states.len() - 1
        &&& forall|at: int|
            0 <= at < self.states.len() ==> (#[trigger] self.states[at]).status_type == (if at
                == self.start {
                StatusType::Start
            } else if at == self.end {
                StatusType::End
            } else {
                StatusType::Node
            })
        &&& forall|at: int|
            0 <= at < self.states.len() ==> ((#[trigger] self.states[at]).status_set.len() == 0
                <==> at == self.end)
    }

    /// The fragment `start --rule--> end`.
    pub open spec fn with(rule: Rule) -> NFAView {
        NFAView {
            states: seq![
                StatusView::bare(0, StatusType::Start).append_next(rule, 1),
                StatusView::bare(1, StatusType::End),
            ],
            start: 0,
            end: 1,
        }
    }

    /// The fragment `start --empty--> end`.
    pub open spec fn new() -> NFAView {
        NFAView::with(Rule::Empty)
    }

    /// Concatenation: the states of `self` followed by those of `other`,
    /// with an empty transition from the exit of `self` to the entry of
    /// `other`. Both joined states become interior.
    pub open spec fn and(self, other: NFAView) -> NFAView {
        let by = self.states.len() as int;
        let left = self.states.update(
            self.end,
            self.states[self.end].turn_to_empty().append_next(Rule::Empty, by + other.start),
        );
        let moved = renumber_all(other.states, by);
        let right = moved.update(other.start, moved[other.start].turn_to_empty());
        NFAView { states: left + right, start: self.start, end: by + other.end }
    }

    /// Alternation: a fresh entry with an empty transition to the entry of
    /// `self` and then one to the entry of `other`, and a fresh exit that the
    /// exits of both reach by an empty transition. The four old boundary
    /// states become interior.
    pub open spec fn or(self, other: NFAView) -> NFAView {
        let first: int = 1;
        let second: int = 1 + self.states.len() as int;
        let exit: int = second + other.states.len() as int;
        let entry = StatusView::bare(0, StatusType::Start).append_next(
            Rule::Empty,
            first + self.start,
        ).append_next(Rule::Empty, second + other.start);
        NFAView {
            states: seq![entry] + self.branch(first, exit) + other.branch(second, exit)
                + seq![StatusView::bare(exit, StatusType::End)],
            start: 0,
            end: exit,
        }
    }

    /// The states of the fragment as one branch of an alternation: moved up
    /// by `by`, entry and exit interior, and the exit leading on to `exit`.
    pub open spec fn branch(self, by: int, exit: int) -> Seq<StatusView> {
        let moved = renumber_all(self.states, by);
        let opened = moved.update(self.start, moved[self.start].turn_to_empty());
        opened.update(
            self.end,
            opened[self.end].turn_to_empty().append_next(Rule::Empty, exit),
        )
    }
}

/// A fragment of one transition is well formed.
pub proof fn lemma_with_wf(rule: Rule)
    ensures
        NFAView::with(rule).wf(),
{
}

/// Concatenation keeps fragments well formed.
pub proof fn lemma_and_wf(first: NFAView, second: NFAView)
    requires
        first.wf(),
        second.wf(),
    ensures
        first.and(second).wf(),
        first.and(second).states.len() == first.states.len() + second.states.len(),
{
}

/// Alternation keeps fragments well formed.
pub proof fn lemma_or_wf(first: NFAView, second: NFAView)
    requires
        first.wf(),
        second.wf(),
    ensures
        first.or(second).wf(),
        first.or(second).states.len() == first.states.len() + second.states.len() + 2,
{
}

/// States of a well-formed pool that sit at `from..to` of a vector can be
/// moved up by `from` without leaving the range of `usize`.
proof fn lemma_fits(pool: Seq<StatusView>, states: Seq<Status>, from: int, to: int)
    requires
        pool_wf(pool),
        0 <= from <= to <= states.len(),
        to <= usize::MAX,
        pool.len() == to - from,
        forall|at: int| from <= at < to ==> (#[trigger] states[at])@ == pool[at - from],
    ensures
        forall|at: int| from <= at < to ==> (#[trigger] states[at])@.id + from <= usize::MAX,
        forall|at: int, k: int|
            from <= at < to && 0 <= k < states[at]@.status_set.len() ==> (
            #[trigger] states[at]@.status_set[k]).1 + from <= usize::MAX,
{
}

/// Moves the states at the positions `from..to` of `states` up by `by`.
fn renumber_range(states: &mut Vec<Status>, from: usize, to: usize, by: usize)
    requires
        from <= to <= old(states)@.len(),
        forall|at: int|
            from <= at < to ==> (#[trigger] old(states)@[at])@.id + by <= usize::MAX,
        forall|at: int, k: int|
            from <= at < to && 0 <= k < old(states)@[at]@.status_set.len() ==> (
            #[trigger] old(states)@[at]@.status_set[k]).1 + by <= usize::MAX,
    ensures
        final(states)@.len() == old(states)@.len(),
        forall|at: int|
            0 <= at < from || to <= at < old(states)@.len() ==> #[trigger] final(states)@[at]
                == old(states)@[at],
        forall|at: int|
            from <= at < to ==> (#[trigger] final(states)@[at])@ == old(states)@[at]@.renumber(
                by as int,
            ),
{
    let mut at = from;
    while at < to
        invariant
            from <= at <= to,
            to <= states@.len(),
            states@.len() == old(states)@.len(),
            forall|i: int|
                0 <= i < from || at <= i < states@.len() ==> #[trigger] states@[i] == old(
                    states,
                )@[i],
            forall|i: int|
                from <= i < at ==> (#[trigger] states@[i])@ == old(states)@[i]@.renumber(
                    by as int,
                ),
            forall|i: int|
                from <= i < to ==> (#[trigger] old(states)@[i])@.id + by <= usize::MAX,
            forall|i: int, k: int|
                from <= i < to && 0 <= k < old(states)@[i]@.status_set.len() ==> (
                #[trigger] old(states)@[i]@.status_set[k]).1 + by <= usize::MAX,
        decreases to - at,
    {
        states[at].renumber(by);
        at += 1;
    }
}

/// A fragment of an automaton: a pool of states with one entry and one exit.
#[derive(Debug)]
pub struct NFA {
    states: Vec<Status>,
    start: usize,
    end: usize,
}

impl View for NFA {
    type V = NFAView;

    closed spec fn view(&self) -> NFAView {
        NFAView {
            states: pool_view(self.states@),
            start: self.start as int,
            end: self.end as int,
        }
    }
}

impl NFA {
    /// The invariant of a fragment; see [`NFAView::wf`].
    pub open spec fn wf(&self) -> bool {
        self@.wf()
    }

    /// The fragment `start --rule--> end`.
    fn with_rule(rule: Rule) -> (nfa: NFA)
        ensures
            nfa@ == NFAView::with(rule),
            nfa.wf(),
    {
        let mut ids = IdAllocator::new();
        let mut start = Status::fresh_start(&mut ids);
        let mut end = Status::fresh_end(&mut ids);
        start.append_next(rule, &mut end);
        let mut states: Vec<Status> = Vec::new();
        states.push(start);
        states.push(end);
        let nfa = NFA { states, start: 0, end: 1 };
        proof {
            assert(nfa@.states =~= NFAView::with(rule).states);
        }
        nfa
    }

    /// The fragment `start --empty--> end`.
    pub fn new() -> (nfa: NFA)
        ensures
            nfa@ == NFAView::new(),
            nfa.wf(),
    {
        Self::with_rule(Rule::Empty)
    }

    /// The fragment that reads exactly `text`.
    pub fn with(text: char) -> (nfa: NFA)
        ensures
            nfa@ == NFAView::with(Rule::literal(text)),
            nfa.wf(),
    {
        Self::with_rule(Rule::SingleChar(SingleCharRule::new(text)))
    }

    /// The fragment that reads one ASCII letter.
    pub fn with_alpha() -> (nfa: NFA)
        ensures
            nfa@ == NFAView::with(Rule::Alpha(AlphaRule)),
            nfa.wf(),
    {
        Self::with_rule(Rule::Alpha(AlphaRule))
    }

    /// The fragment that reads one ASCII letter, ASCII digit or underscore.
    pub fn with_alphanumeric_underline() -> (nfa: NFA)
        ensures
            nfa@ == NFAView::with(Rule::AlphanumericUnderline(AlphanumericUnderlineRule)),
            nfa.wf(),
    {
        Self::with_rule(Rule::AlphanumericUnderline(AlphanumericUnderlineRule))
    }

    /// The fragment that reads one ASCII lowercase letter.
    pub fn with_alpha_lowercase() -> (nfa: NFA)
        ensures
            nfa@ == NFAView::with(Rule::AlphaLowercase(AlphaLowercaseRule)),
            nfa.wf(),
    {
        Self::with_rule(Rule::AlphaLowercase(AlphaLowercaseRule))
    }

    /// The fragment that reads one ASCII uppercase letter.
    pub fn with_alpha_uppercase() -> (nfa: NFA)
        ensures
            nfa@ == NFAView::with(Rule::AlphaUppercase(AlphaUppercaseRule)),
            nfa.wf(),
    {
        Self::with_rule(Rule::AlphaUppercase(AlphaUppercaseRule))
    }

    /// The fragment that reads one ASCII digit.
    pub fn with_digit() -> (nfa: NFA)
        ensures
            nfa@ == NFAView::with(Rule::Digit(Digit)),
            nfa.wf(),
    {
        Self::with_rule(Rule::Digit(Digit))
    }

    /// Concatenation: what `self` reads, then what `nfa` reads.
    pub fn and(&mut self, nfa: NFA) -> (joined: &mut Self)
        requires
            old(self).wf(),
            nfa.wf(),
        ensures
            joined@ == old(self)@.and(nfa@),
            joined.wf(),
            *final(self) == *final(joined),
    {
        let by = self.states.len();
        let joint = self.end;
        let NFA { states: mut moved, start, end } = nfa;
        // The states are joined before they are renumbered: the length of the
        // joined vector bounds every new id.
        self.states.append(&mut moved);
        let total = self.states.len();
        proof {
            lemma_fits(nfa@.states, self.states@, by as int, total as int);
        }
        renumber_range(&mut self.states, by, total, by);
        self.states[joint].turn_to_empty();
        self.states[joint].push_next(Rule::Empty, by + start);
        self.states[by + start].turn_to_empty();
        self.end = by + end;
        proof {
            assert(self@.states =~= old(self)@.and(nfa@).states);
        }
        self
    }

    /// Alternation: what `self` reads or else what `nfa` reads, `self`
    /// being tried first.
    pub fn or(self, nfa: NFA) -> (either: NFA)
        requires
            self.wf(),
            nfa.wf(),
        ensures
            either@ == self@.or(nfa@),
            either.wf(),
    {
        let NFA { states: mut first, start: first_start, end: first_end } = self;
        let NFA { states: mut second, start: second_start, end: second_end } = nfa;
        let mut states: Vec<Status> = Vec::new();
        states.push(Status::start(0));
        states.append(&mut first);
        let half = states.len();
        states.append(&mut second);
        let exit = states.len();
        states.push(Status::end(exit));
        proof {
            lemma_fits(self@.states, states@, 1, half as int);
            lemma_fits(nfa@.states, states@, half as int, exit as int);
        }
        renumber_range(&mut states, 1, half, 1);
        renumber_range(&mut states, half, exit, half);
        states[1 + first_start].turn_to_empty();
        states[1 + first_end].turn_to_empty();
        states[1 + first_end].push_next(Rule::Empty, exit);
        states[half + second_start].turn_to_empty();
        states[half + second_end].turn_to_empty();
        states[half + second_end].push_next(Rule::Empty, exit);
        states[0].push_next(Rule::Empty, 1 + first_start);
        states[0].push_next(Rule::Empty, half + second_start);
        let either = NFA { states, start: 0, end: exit };
        proof {
            assert(either@.states =~= self@.or(nfa@).states);
        }
        either
    }

    /// The id of the entry.
    pub fn get_start(&self) -> (start: usize)
        ensures
            start == self@.start,
    {
        self.start
    }

    /// The id of the exit.
    pub fn get_end(&self) -> (end: usize)
        ensures
            end == self@.end,
    {
        self.end
    }

    /// The states of the fragment; a state's id is its position.
    pub fn states(&self) -> (states: &Vec<Status>)
        ensures
            pool_view(states@) == self@.states,
    {
        &self.states
    }
}

} // verus!
