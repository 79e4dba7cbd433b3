//! Matching a text against a fragment.
//!
//! The matcher walks the text through the fragment one character at a time,
//! looking through empty transitions. It stops at the first character that
//! leads nowhere and does not look at the rest of the text; the text is
//! accepted when the state at which the walk stands is the accepting exit. A
//! fragment therefore accepts every text of which it accepts a prefix, and
//! the walk never tries a second way through the fragment.

use crate::nfa::{NFAView, NFA};
use crate::status::{next_skip_empty, pool_view, StatusType};
use crate::text::{chars_of, trim, trim_bounds};
use vstd::prelude::*;

verus! {

impl NFAView {
    /// The state at which the walk from `at` over `text` stops: the walk
    /// moves on while the next character leads to a state.
    pub open spec fn walk(self, at: int, text: Seq<char>) -> int
        decreases text.len(),
    {
        if text.len() == 0 {
            at
        } else {
            match next_skip_empty(self.states, at, text.first()) {
                Some(next) => self.walk(next, text.drop_first()),
                None => at,
            }
        }
    }

    /// Whether the walk from the entry over `text` stops at an accepting
    /// state.
    pub open spec fn accepts(self, text: Seq<char>) -> bool {
        self.states[self.walk(self.start, text)].status_type == StatusType::End
    }
}

impl NFA {
    /// The state at which the walk from the entry over `chars[lo..hi]` stops.
    fn walk(&self, chars: &Vec<char>, lo: usize, hi: usize) -> (at: usize)
        requires
            self.wf(),
            lo <= hi <= chars@.len(),
        ensures
            at == self@.walk(self@.start, chars@.subrange(lo as int, hi as int)),
            at < self@.states.len(),
    {
        let ghost text = chars@.subrange(lo as int, hi as int);
        let states = self.states();
        let mut at: usize = self.get_start();
        let mut pos: usize = lo;
        while pos < hi
            invariant
                self.wf(),
                pool_view(states@) == self@.states,
                lo <= pos <= hi <= chars@.len(),
                at < self@.states.len(),
                text == chars@.subrange(lo as int, hi as int),
                self@.walk(self@.start, text) == self@.walk(
                    at as int,
                    chars@.subrange(pos as int, hi as int),
                ),
            decreases hi - pos,
        {
            proof {
                assert(chars@.subrange(pos as int, hi as int).drop_first() =~= chars@.subrange(
                    pos + 1,
                    hi as int,
                ));
            }
            match states[at].next_skip_empty(chars[pos], states) {
                Some(next) => {
                    at = next;
                },
                None => {
                    return at;
                },
            }
            pos += 1;
        }
        at
    }

    /// Decides whether the fragment accepts `text` as it stands.
    pub fn accepts(&self, text: &str) -> (accepted: bool)
        requires
            self.wf(),
        ensures
            accepted == self@.accepts(text@),
    {
        let chars = chars_of(text);
        let at = self.walk(&chars, 0, chars.len());
        let states = self.states();
        proof {
            assert(chars@.subrange(0, chars@.len() as int) =~= text@);
        }
        *states[at].get_type() == StatusType::End
    }
}

/// Decides whether `nfa` accepts `text` without its leading and trailing
/// whitespace.
pub fn matches(nfa: &NFA, text: &str) -> (accepted: bool)
    requires
        nfa.wf(),
    ensures
        accepted == nfa@.accepts(trim(text@)),
{
    let chars = chars_of(text);
    let (lo, hi) = trim_bounds(&chars);
    let at = nfa.walk(&chars, lo, hi);
    let states = nfa.states();
    *states[at].get_type() == StatusType::End
}

/// A fragment together with the text to match against it.
pub struct NFAExecutor<'a> {
    nfa: NFA,
    text: &'a str,
}

impl<'a> NFAExecutor<'a> {
    /// The fragment of the executor.
    pub closed spec fn nfa(&self) -> NFA {
        self.nfa
    }

    /// The text of the executor.
    pub closed spec fn text(&self) -> Seq<char> {
        self.text@
    }

    /// An executor for matching `text` against `nfa`.
    pub fn new(nfa: NFA, text: &'a str) -> (executor: Self)
        ensures
            executor.nfa() == nfa,
            executor.text() == text@,
    {
        Self { nfa, text }
    }

    /// Decides whether the fragment accepts the text without its leading and
    /// trailing whitespace.
    pub fn test(&self) -> (accepted: bool)
        requires
            self.nfa().wf(),
        ensures
            accepted == self.nfa()@.accepts(trim(self.text())),
    {
        matches(&self.nfa, self.text)
    }
}

} // verus!
