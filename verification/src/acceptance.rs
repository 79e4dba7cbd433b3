//! What fragments accept.
//!
//! The walk of the matcher is greedy, so what a fragment accepts is decided
//! by its shape and not only by the paths through it. This module states,
//! for the fragments that the composition builds, which texts are accepted.

use crate::nfa::{
    lemma_and_wf, lemma_or_wf, lemma_with_wf, renumber_all, NFAError, NFAView, NFA,
};
use crate::pattern::{
    alternation, bracket, compiles_to, escape, lemma_bracket_end, sequence, spec_compile, units,
    Ranges,
};
use crate::status::{
    lemma_next_skip_empty_forward, next_skip_empty, next_skip_empty_from, pool_wf, StatusType,
    StatusView,
};
use crate::status_rules::{Rule, StatusTargetRule};
use crate::text::{is_whitespace, trim};
use vstd::prelude::*;

verus! {

/// Some transition of the pool that reads a character leads to `target`.
pub open spec fn entered_by_rule(pool: Seq<StatusView>, target: int) -> bool {
    exists|at: int, k: int|
        0 <= at < pool.len() && 0 <= k < pool[at].status_set.len() && (
        #[trigger] pool[at].status_set[k]).1 == target && !(pool[at].status_set[k].0 is Empty)
}

/// The search only finds states that a reading transition leads to.
pub proof fn lemma_found_by_rule(pool: Seq<StatusView>, at: int, from: int, text: char)
    requires
        pool_wf(pool),
        0 <= at < pool.len(),
        0 <= from,
    ensures
        next_skip_empty_from(pool, at, from, text) matches Some(found) ==> entered_by_rule(
            pool,
            found,
        ),
    decreases pool.len() - at, pool[at].status_set.len() - from,
{
    let status_set = pool[at].status_set;
    if from < status_set.len() {
        let (rule, target) = status_set[from];
        if rule is Empty {
            lemma_found_by_rule(pool, target, 0, text);
        }
        lemma_found_by_rule(pool, at, from + 1, text);
    }
}

/// The walk stops where it began or at a state that a reading transition
/// leads to, and never leaves the pool.
pub proof fn lemma_walk_stops(nfa: NFAView, at: int, text: Seq<char>)
    requires
        pool_wf(nfa.states),
        0 <= at < nfa.states.len(),
    ensures
        0 <= nfa.walk(at, text) < nfa.states.len(),
        nfa.walk(at, text) == at || entered_by_rule(nfa.states, nfa.walk(at, text)),
    decreases text.len(),
{
    if text.len() > 0 {
        lemma_next_skip_empty_forward(nfa.states, at, 0, text.first());
        lemma_found_by_rule(nfa.states, at, 0, text.first());
        match next_skip_empty(nfa.states, at, text.first()) {
            Some(next) => {
                lemma_walk_stops(nfa, next, text.drop_first());
            },
            None => {},
        }
    }
}

/// A fragment of one reading transition accepts the texts that begin with a
/// character that the rule passes. A fragment of one empty transition
/// accepts nothing.
pub proof fn lemma_with_accepts(rule: Rule, text: Seq<char>)
    ensures
        NFAView::with(rule).accepts(text) <==> !(rule is Empty) && text.len() > 0 && rule.accepts(
            text.first(),
        ),
{
    let nfa = NFAView::with(rule);
    if text.len() > 0 {
        let first = text.first();
        assert(next_skip_empty_from(nfa.states, 0, 1, first) is None);
        assert(next_skip_empty_from(nfa.states, 1, 0, first) is None);
        lemma_walk_at_exit(nfa, text.drop_first());
    }
}

/// At the exit of a well-formed fragment the walk stays.
pub proof fn lemma_walk_at_exit(nfa: NFAView, text: Seq<char>)
    requires
        nfa.wf(),
    ensures
        nfa.walk(nfa.end, text) == nfa.end,
{
}

/// The fragment that reads exactly `c` accepts the text made of `c` alone,
/// and no text made of another character alone. Behind the trimming of the
/// matcher the same holds, but for a `c` that is whitespace: the trimmed text
/// is then empty, and the fragment does not accept it. Within ASCII these
/// are the space and the characters from the tab to the carriage return.
pub proof fn lemma_literal_accepts(c: char, d: char)
    ensures
        NFAView::with(Rule::literal(c)).accepts(seq![c]),
        c != d ==> !NFAView::with(Rule::literal(c)).accepts(seq![d]),
        NFAView::with(Rule::literal(c)).accepts(trim(seq![c])) <==> !is_whitespace(c),
        c <= '\u{7f}' ==> (NFAView::with(Rule::literal(c)).accepts(trim(seq![c])) <==> c != ' '
            && !('\t' <= c && c <= '\r')),
        c != d ==> !NFAView::with(Rule::literal(c)).accepts(trim(seq![d])),
{
    let rule = Rule::literal(c);
    lemma_with_accepts(rule, seq![c]);
    lemma_with_accepts(rule, seq![d]);
    lemma_with_accepts(rule, Seq::empty());
    lemma_trim_one(c);
    lemma_trim_one(d);
}

/// A text of one character is trimmed to nothing when the character is
/// whitespace, and left as it is otherwise.
pub proof fn lemma_trim_one(c: char)
    ensures
        trim(seq![c]) == if is_whitespace(c) {
            Seq::<char>::empty()
        } else {
            seq![c]
        },
{
    reveal_with_fuel(crate::text::trim_start, 2);
    reveal_with_fuel(crate::text::trim_end, 2);
}

/// An alternation by itself accepts no text: behind either branch the walk
/// stands at the exit of that branch, which only an empty transition joins
/// to the accepting state. What is concatenated behind the alternation is
/// reached all the same, since the search looks through empty transitions.
pub proof fn lemma_or_accepts_nothing(first: NFAView, second: NFAView, text: Seq<char>)
    requires
        first.wf(),
        second.wf(),
    ensures
        !first.or(second).accepts(text),
{
    lemma_or_wf(first, second);
    lemma_walk_stops(first.or(second), 0, text);
}

/// Whether one of the alternatives of a unit passes `text`.
pub open spec fn unit_accepts(unit: Seq<Rule>, text: char) -> bool {
    exists|k: int| 0 <= k < unit.len() && (#[trigger] unit[k]).accepts(text)
}

/// Whether `text` begins with one character for each unit, in order, each
/// passed by an alternative of its unit.
pub open spec fn reads(units: Seq<Seq<Rule>>, text: Seq<char>) -> bool {
    &&& units.len() <= text.len()
    &&& forall|i: int| 0 <= i < units.len() ==> unit_accepts(#[trigger] units[i], text[i])
}

/// A unit has an alternative, and each of its alternatives reads a
/// character.
pub open spec fn proper_unit(unit: Seq<Rule>) -> bool {
    &&& unit.len() > 0
    &&& forall|k: int| 0 <= k < unit.len() ==> !((#[trigger] unit[k]) is Empty)
}

/// Every unit is proper.
pub open spec fn proper(units: Seq<Seq<Rule>>) -> bool {
    forall|i: int| 0 <= i < units.len() ==> proper_unit(#[trigger] units[i])
}

/// From `from` a chain of states that have an empty transition and nothing
/// else leads to `to`.
spec fn forwards(pool: Seq<StatusView>, from: int, to: int) -> bool
    decreases to - from,
{
    from == to || (0 <= from < to && from < pool.len() && pool[from].status_set.len() == 1
        && pool[from].status_set[0].0 is Empty && from < pool[from].status_set[0].1 <= to
        && forwards(
        pool,
        pool[from].status_set[0].1,
        to,
    ))
}

/// The search from a state finds what the search from the end of its chain
/// finds.
proof fn lemma_forwards_search(pool: Seq<StatusView>, from: int, to: int, text: char)
    requires
        pool_wf(pool),
        0 <= from,
        to < pool.len(),
        forwards(pool, from, to),
    ensures
        from <= to,
        next_skip_empty(pool, from, text) == next_skip_empty(pool, to, text),
    decreases to - from,
{
    if from != to {
        let target = pool[from].status_set[0].1;
        lemma_forwards_search(pool, target, to, text);
        assert(next_skip_empty_from(pool, from, 1, text) is None);
    }
}

/// Chains join.
proof fn lemma_forwards_join(pool: Seq<StatusView>, from: int, by: int, to: int)
    requires
        forwards(pool, from, by),
        forwards(pool, by, to),
        by <= to,
    ensures
        forwards(pool, from, to),
    decreases by - from,
{
    if from != by {
        lemma_forwards_join(pool, pool[from].status_set[0].1, by, to);
        lemma_forwards_le(pool, pool[from].status_set[0].1, by);
    }
}

/// A chain leads forward.
proof fn lemma_forwards_le(pool: Seq<StatusView>, from: int, to: int)
    requires
        forwards(pool, from, to),
    ensures
        from <= to,
{
}

/// The states of `fragment` but its exit sit in `pool` from position `by`
/// on, with the transitions they have in the fragment.
spec fn embeds(pool: Seq<StatusView>, fragment: NFAView, by: int) -> bool {
    &&& 0 <= by
    &&& by + fragment.states.len() <= pool.len()
    &&& forall|at: int|
        0 <= at < fragment.states.len() - 1 ==> pool[by + at].status_set == (
        #[trigger] fragment.states[at]).renumber(by).status_set
}

/// The fragment of a unit is well formed and has four states for each
/// alternative but two.
pub proof fn lemma_alternation_wf(rules: Seq<Rule>)
    requires
        rules.len() > 0,
    ensures
        alternation(rules).wf(),
        alternation(rules).states.len() == 4 * rules.len() - 2,
    decreases rules.len(),
{
    if rules.len() <= 1 {
        lemma_with_wf(rules[0]);
    } else {
        lemma_alternation_wf(rules.drop_last());
        lemma_with_wf(rules.last());
        lemma_or_wf(alternation(rules.drop_last()), NFAView::with(rules.last()));
    }
}

/// One more alternative passes what the others pass and what it passes.
proof fn lemma_unit_accepts_last(rules: Seq<Rule>, text: char)
    requires
        rules.len() > 0,
    ensures
        unit_accepts(rules, text) <==> unit_accepts(rules.drop_last(), text) || rules.last().accepts(
            text,
        ),
{
    let front = rules.drop_last();
    if unit_accepts(rules, text) {
        let k = choose|k: int| 0 <= k < rules.len() && (#[trigger] rules[k]).accepts(text);
        if k < rules.len() - 1 {
            assert(front[k].accepts(text));
        }
    }
}

/// Where the fragment of a unit sits in a pool, the search from its entry
/// finds a state exactly when an alternative of the unit passes the
/// character. The state found leads to the exit of the fragment by a chain,
/// and is the exit itself only where the unit has a single alternative.
proof fn lemma_alternation_search(pool: Seq<StatusView>, rules: Seq<Rule>, by: int, text: char)
    requires
        pool_wf(pool),
        proper_unit(rules),
        embeds(pool, alternation(rules), by),
    ensures
        match next_skip_empty(pool, by, text) {
            Some(found) => {
                &&& unit_accepts(rules, text)
                &&& by < found <= by + alternation(rules).end
                &&& forwards(pool, found, by + alternation(rules).end)
                &&& (found == by + alternation(rules).end <==> rules.len() == 1)
            },
            None => !unit_accepts(rules, text),
        },
    decreases rules.len(),
{
    let whole = alternation(rules);
    lemma_alternation_wf(rules);
    if rules.len() > 1 {
        let front = rules.drop_last();
        let last = rules.last();
        let first = alternation(front);
        let second = NFAView::with(last);
        lemma_alternation_wf(front);
        lemma_with_wf(last);
        lemma_or_wf(first, second);
        lemma_unit_accepts_last(rules, text);
        let n = first.states.len() as int;
        let half = 1 + n;
        let exit = n + 3;
        // The first branch sits in the pool behind the entry.
        assert forall|at: int| 0 <= at < first.states.len() - 1 implies pool[by + 1
            + at].status_set == (#[trigger] first.states[at]).renumber(by + 1).status_set by {
            assert(whole.states[1 + at].renumber(by).status_set =~= first.states[at].renumber(
                by + 1,
            ).status_set);
        }
        lemma_alternation_search(pool, front, by + 1, text);
        // The exit of the first branch leads to the exit of the alternation.
        assert(whole.states[n].status_set =~= seq![(Rule::Empty, exit)]);
        assert(forwards(pool, by + exit, by + exit));
        // The second branch.
        assert(whole.states[half].status_set =~= seq![(last, half + 1)]);
        assert(next_skip_empty_from(pool, by + half, 1, text) is None);
        assert(whole.states[half + 1].status_set =~= seq![(Rule::Empty, exit)]);
        assert(next_skip_empty_from(pool, by, 2, text) is None);
        match next_skip_empty(pool, by + 1, text) {
            Some(found) => {
                lemma_forwards_join(pool, found, by + n, by + exit);
            },
            None => {
                assert(next_skip_empty_from(pool, by, 0, text) == next_skip_empty_from(
                    pool,
                    by,
                    1,
                    text,
                ));
                if !last.accepts(text) {
                    assert(next_skip_empty(pool, by + half, text) is None);
                }
            },
        }
    }
}

/// The position among the states of the sequence at which the fragment of
/// unit `j` begins; for `j` the number of units, the number of states.
spec fn unit_entry(units: Seq<Seq<Rule>>, j: int) -> int {
    sequence(units.take(j)).states.len() as int
}

/// The fragment of unit `j` sits in the pool at its place, and the state
/// before it leads into it by an empty transition and nothing else.
spec fn linked(pool: Seq<StatusView>, units: Seq<Seq<Rule>>, j: int) -> bool {
    let by = unit_entry(units, j);
    &&& by >= 2
    &&& embeds(pool, alternation(units[j]), by)
    &&& pool[by - 1].status_set == seq![(Rule::Empty, by)]
    &&& unit_entry(units, j + 1) == by + alternation(units[j]).states.len()
}

/// The pool is the chain of the fragments of the units behind the empty
/// fragment.
spec fn chained(pool: Seq<StatusView>, units: Seq<Seq<Rule>>) -> bool {
    &&& pool.len() == unit_entry(units, units.len() as int)
    &&& pool[0].status_set == seq![(Rule::Empty, 1int)]
    &&& forall|j: int| 0 <= j < units.len() ==> #[trigger] linked(pool, units, j)
}

/// The fragment of a sequence of units is well formed, and its states are
/// the chain of the fragments of the units.
proof fn lemma_sequence_chained(units: Seq<Seq<Rule>>)
    requires
        proper(units),
    ensures
        sequence(units).wf(),
        chained(sequence(units).states, units),
    decreases units.len(),
{
    let whole = sequence(units);
    assert(units.take(units.len() as int) =~= units);
    if units.len() == 0 {
        lemma_with_wf(Rule::Empty);
    } else {
        let front = units.drop_last();
        let last = units.last();
        let before = sequence(front);
        let unit = alternation(last);
        lemma_sequence_chained(front);
        lemma_alternation_wf(last);
        lemma_and_wf(before, unit);
        let by = before.states.len() as int;
        assert forall|j: int| 0 <= j < units.len() implies #[trigger] linked(
            whole.states,
            units,
            j,
        ) by {
            if j < units.len() - 1 {
                assert(linked(before.states, front, j));
                assert(units.take(j) =~= front.take(j));
                assert(units.take(j + 1) =~= front.take(j + 1));
                let entry = unit_entry(units, j);
                let inner = alternation(units[j]);
            } else {
                assert(whole.states[by - 1].status_set =~= seq![(Rule::Empty, by)]);
            }
        }
    }
}

/// A text is read by a sequence of units when its first character is passed
/// by the first unit and the rest of it is read by the other units.
proof fn lemma_reads_first(units: Seq<Seq<Rule>>, text: Seq<char>)
    requires
        units.len() > 0,
    ensures
        reads(units, text) <==> text.len() > 0 && unit_accepts(units[0], text[0]) && reads(
            units.drop_first(),
            text.drop_first(),
        ),
{
    let others = units.drop_first();
    let rest = text.drop_first();
    if text.len() > 0 && unit_accepts(units[0], text[0]) && reads(others, rest) {
        assert forall|i: int| 0 <= i < units.len() implies unit_accepts(
            #[trigger] units[i],
            text[i],
        ) by {
            if i > 0 {
                assert(unit_accepts(others[i - 1], rest[i - 1]));
            }
        }
    }
}

/// From a state whose chain leads to the state before unit `j`, the walk
/// over `text` stops at the accepting state exactly when `text` is read by
/// the units from `j` on and the last step arrives at the accepting state
/// itself.
proof fn lemma_sequence_walk(units: Seq<Seq<Rule>>, j: int, at: int, text: Seq<char>)
    requires
        proper(units),
        0 <= j <= units.len(),
        0 <= at,
        forwards(sequence(units).states, at, unit_entry(units, j) - 1),
    ensures
        sequence(units).states[sequence(units).walk(at, text)].status_type == StatusType::End
            <==> reads(units.skip(j), text) && (if j == units.len() {
            at == sequence(units).end
        } else {
            units.last().len() == 1
        }),
    decreases units.len() - j,
{
    let nfa = sequence(units);
    let pool = nfa.states;
    let junction = unit_entry(units, j) - 1;
    let rest = units.skip(j);
    lemma_sequence_chained(units);
    lemma_forwards_le(pool, at, junction);
    if j == units.len() {
        if text.len() > 0 {
            lemma_forwards_search(pool, at, junction, text.first());
        }
    } else {
        assert(linked(pool, units, j));
        let by = junction + 1;
        let unit = units[j];
        lemma_alternation_wf(unit);
        assert(rest.drop_first() =~= units.skip(j + 1));
        lemma_reads_first(rest, text);
        if text.len() > 0 {
            let c = text.first();
            lemma_forwards_search(pool, at, junction, c);
            assert(forwards(pool, by, by));
            lemma_forwards_search(pool, junction, by, c);
            lemma_alternation_search(pool, unit, by, c);
            match next_skip_empty(pool, at, c) {
                Some(found) => {
                    lemma_sequence_walk(units, j + 1, found, text.drop_first());
                },
                None => {},
            }
        }
    }
}

/// What the fragment of a sequence of units accepts.
///
/// A text is accepted exactly when it begins with one character for each
/// unit, each passed by an alternative of its unit, and the last unit has a
/// single alternative. What follows these characters is not looked at. The
/// empty sequence accepts nothing; neither does a sequence whose last unit
/// has several alternatives, since behind such a unit the walk stands one
/// empty transition before the accepting state.
pub proof fn lemma_sequence_accepts(units: Seq<Seq<Rule>>, text: Seq<char>)
    requires
        proper(units),
    ensures
        sequence(units).wf(),
        sequence(units).accepts(text) <==> units.len() > 0 && units.last().len() == 1 && reads(
            units,
            text,
        ),
{
    let nfa = sequence(units);
    lemma_sequence_chained(units);
    assert(forwards(nfa.states, 1, 1));
    assert(units.skip(0) =~= units);
    lemma_sequence_walk(units, 0, 0, text);
}

/// The alternatives that a bracket expression lists read a character each.
pub proof fn lemma_bracket_proper(pattern: Seq<char>, at: int, ranges: Ranges)
    requires
        0 <= at,
    ensures
        bracket(pattern, at, ranges) matches Ok((rules, _)) ==> forall|k: int|
            0 <= k < rules.len() ==> !((#[trigger] rules[k]) is Empty),
    decreases pattern.len() - at,
{
    if at < pattern.len() {
        let c = pattern[at];
        if c == ']' {
            // The ranges asked for list their own rules.
        } else if Ranges::opens(c) && at + 1 < pattern.len() && pattern[at + 1] == '-' {
            if at + 2 < pattern.len() && pattern[at + 2] == Ranges::close_of(c) {
                lemma_bracket_proper(pattern, at + 3, ranges.with(c));
            } else {
                lemma_bracket_proper(pattern, at + 2, ranges);
            }
        } else if c == '\\' {
            if at + 1 < pattern.len() {
                lemma_bracket_proper(pattern, at + 2, ranges);
            }
        } else {
            lemma_bracket_proper(pattern, at + 1, ranges);
        }
    }
}

/// The units of a pattern are proper.
pub proof fn lemma_units_proper(pattern: Seq<char>, at: int)
    requires
        0 <= at,
    ensures
        units(pattern, at) matches Ok(all) ==> proper(all),
    decreases pattern.len() - at,
{
    if at < pattern.len() {
        let c = pattern[at];
        if c == '\\' {
            if at + 1 < pattern.len() {
                lemma_units_proper(pattern, at + 2);
                if let (Ok(rule), Ok(more)) = (escape(pattern[at + 1]), units(pattern, at + 2)) {
                    lemma_proper_followed(seq![rule], more);
                }
            }
        } else if c == '[' {
            lemma_bracket_end(pattern, at + 1, Ranges::none());
            lemma_bracket_proper(pattern, at + 1, Ranges::none());
            if let Ok((rules, end)) = bracket(pattern, at + 1, Ranges::none()) {
                lemma_units_proper(pattern, end);
                if let Ok(more) = units(pattern, end) {
                    if rules.len() > 0 {
                        lemma_proper_followed(rules, more);
                    }
                }
            }
        } else {
            lemma_units_proper(pattern, at + 1);
            if let Ok(more) = units(pattern, at + 1) {
                lemma_proper_followed(seq![Rule::literal(c)], more);
            }
        }
    }
}

/// A proper unit in front of proper units gives proper units.
proof fn lemma_proper_followed(unit: Seq<Rule>, more: Seq<Seq<Rule>>)
    requires
        proper_unit(unit),
        proper(more),
    ensures
        proper(seq![unit] + more),
{
}

/// What a compiled pattern accepts.
///
/// Where the pattern has an error, compiling gives that error. Otherwise it
/// gives the fragment of the units of the pattern, and a text is accepted
/// exactly when the pattern has a unit, its last unit has a single
/// alternative, and the text begins with one character for each unit, each
/// passed by an alternative of its unit.
pub proof fn lemma_compile_accepts(pattern: Seq<char>, text: Seq<char>)
    ensures
        match units(pattern, 0) {
            Ok(all) => {
                &&& spec_compile(pattern) == Ok::<NFAView, NFAError>(sequence(all))
                &&& sequence(all).wf()
                &&& sequence(all).accepts(text) <==> all.len() > 0 && all.last().len() == 1
                    && reads(all, text)
            },
            Err(error) => spec_compile(pattern) == Err::<NFAView, NFAError>(error),
        },
{
    lemma_units_proper(pattern, 0);
    if let Ok(all) = units(pattern, 0) {
        lemma_sequence_accepts(all, text);
    }
}

/// Compiling a pattern twice gives the same outcome: the same error, or two
/// fragments with the same states, roles and transitions, which accept the
/// same texts, trimmed or not.
pub proof fn lemma_compile_twice(
    pattern: Seq<char>,
    first: Result<NFA, NFAError>,
    second: Result<NFA, NFAError>,
    text: Seq<char>,
)
    requires
        compiles_to(pattern, first),
        compiles_to(pattern, second),
    ensures
        first matches Err(error) ==> second matches Err(again) && error == again,
        first matches Ok(nfa) ==> second matches Ok(again) && {
            &&& nfa@ == again@
            &&& nfa@.accepts(text) == again@.accepts(text)
            &&& nfa@.accepts(trim(text)) == again@.accepts(trim(text))
        },
{
}

/// A text that a well-formed fragment accepts is accepted with anything
/// behind it: once the walk stands at the accepting state it stays there.
pub proof fn lemma_accepts_longer(nfa: NFAView, text: Seq<char>, more: Seq<char>)
    requires
        nfa.wf(),
        nfa.accepts(text),
    ensures
        nfa.accepts(text + more),
{
    lemma_walk_longer(nfa, nfa.start, text, more);
}

/// Where the walk over `text` stops at the accepting state, the walk over a
/// longer text stops there too.
proof fn lemma_walk_longer(nfa: NFAView, at: int, text: Seq<char>, more: Seq<char>)
    requires
        nfa.wf(),
        0 <= at < nfa.states.len(),
        nfa.states[nfa.walk(at, text)].status_type == StatusType::End,
    ensures
        nfa.walk(at, text + more) == nfa.walk(at, text),
    decreases text.len(),
{
    if text.len() == 0 {
        lemma_walk_at_exit(nfa, more);
    } else {
        let longer = text + more;
        assert(longer.drop_first() =~= text.drop_first() + more);
        lemma_next_skip_empty_forward(nfa.states, at, 0, text.first());
        match next_skip_empty(nfa.states, at, text.first()) {
            Some(next) => {
                lemma_walk_longer(nfa, next, text.drop_first(), more);
            },
            None => {},
        }
    }
}

} // verus!
