//! States of an automaton and the traversal of a pool of states.
//!
//! A state owns its outgoing transitions. A transition names its target by
//! the target's id, and a pool is a vector of states in which every state
//! sits at the position given by its id. Transitions lead from a lower to a
//! higher id, so a pool is acyclic and every walk along transitions ends.
//!
//! Ids come from the caller or from an [`IdAllocator`], which hands out ids
//! in increasing order, so that a state made later differs from every state
//! made before it.

use crate::status_rules::{Rule, StatusTargetRule};
use vstd::prelude::*;

verus! {

/// The part a state plays in a fragment.
#[derive(Clone, Copy, Debug, PartialEq, Eq, Structural)]
pub enum StatusType {
    /// The entry of a fragment that nothing points into yet.
    Start,
    /// An interior state.
    Node,
    /// The accepting exit of a fragment.
    End,
}

/// The mathematical content of a [`Status`].
pub struct StatusView {
    pub id: int,
    pub status_type: StatusType,
    /// The outgoing transitions, in the order in which they are tried.
    pub status_set: Seq<(Rule, int)>,
}

impl StatusView {
    /// A state without transitions.
    pub open spec fn bare(id: int, status_type: StatusType) -> StatusView {
        StatusView { id, status_type, status_set: Seq::empty() }
    }

    /// The state as an interior state.
    pub open spec fn turn_to_empty(self) -> StatusView {
        StatusView { id: self.id, status_type: StatusType::Node, status_set: self.status_set }
    }

    /// The state once a transition points into it: an entry becomes interior.
    pub open spec fn entered(self) -> StatusView {
        if self.status_type == StatusType::Start {
            self.turn_to_empty()
        } else {
            self
        }
    }

    /// The state with one more transition, tried after those it has.
    pub open spec fn append_next(self, rule: Rule, target: int) -> StatusView {
        StatusView {
            id: self.id,
            status_type: self.status_type,
            status_set: self.status_set.push((rule, target)),
        }
    }

    /// The state with its id and the targets of its transitions moved up by `by`.
    pub open spec fn renumber(self, by: int) -> StatusView {
        StatusView {
            id: self.id + by,
            status_type: self.status_type,
            status_set: Seq::new(
                self.status_set.len(),
                |k: int| (self.status_set[k].0, self.status_set[k].1 + by),
            ),
        }
    }

    /// The target of the first transition at or after position `from` whose
    /// rule passes `text`.
    pub open spec fn next_from(self, from: int, text: char) -> Option<int>
        decreases self.status_set.len() - from,
    {
        if from < 0 || from >= self.status_set.len() {
            None
        } else if self.status_set[from].0.accepts(text) {
            Some(self.status_set[from].1)
        } else {
            self.next_from(from + 1, text)
        }
    }

    /// The target of the first transition whose rule passes `text`.
    pub open spec fn next(self, text: char) -> Option<int> {
        self.next_from(0, text)
    }
}

/// Every state of the pool sits at the position given by its id, and every
/// transition leads to a later position of the pool.
pub open spec fn pool_wf(pool: Seq<StatusView>) -> bool {
    &&& forall|at: int| 0 <= at < pool.len() ==> (#[trigger] pool[at]).id == at
    &&& forall|at: int, k: int|
        0 <= at < pool.len() && 0 <= k < pool[at].status_set.len() ==> at < (
        #[trigger] pool[at].status_set[k]).1 < pool.len()
}

/// Greedy search for the state reached on `text` from the state at `at`,
/// looking at its transitions from position `from` on.
///
/// Transitions are tried in order. An empty transition stands for whatever
/// its target finds, searched the same way; any other transition is taken
/// when its rule passes `text`. The first transition that yields a state
/// decides: the search never returns to an earlier choice.
pub open spec fn next_skip_empty_from(
    pool: Seq<StatusView>,
    at: int,
    from: int,
    text: char,
) -> Option<int>
    decreases pool.len() - at, pool[at].status_set.len() - from,
    when pool_wf(pool) && 0 <= at < pool.len() && 0 <= from
{
    let status_set = pool[at].status_set;
    if from >= status_set.len() {
        None
    } else {
        let (rule, target) = status_set[from];
        if rule is Empty {
            match next_skip_empty_from(pool, target, 0, text) {
                Some(found) => Some(found),
                None => next_skip_empty_from(pool, at, from + 1, text),
            }
        } else if rule.accepts(text) {
            Some(target)
        } else {
            next_skip_empty_from(pool, at, from + 1, text)
        }
    }
}

/// Whatever the search from `at` finds lies behind `at` in the pool.
pub proof fn lemma_next_skip_empty_forward(
    pool: Seq<StatusView>,
    at: int,
    from: int,
    text: char,
)
    requires
        pool_wf(pool),
        0 <= at < pool.len(),
        0 <= from,
    ensures
        next_skip_empty_from(pool, at, from, text) matches Some(found) ==> at < found
            < pool.len(),
    decreases pool.len() - at, pool[at].status_set.len() - from,
{
    let status_set = pool[at].status_set;
    if from < status_set.len() {
        let (rule, target) = status_set[from];
        if rule is Empty {
            lemma_next_skip_empty_forward(pool, target, 0, text);
        }
        lemma_next_skip_empty_forward(pool, at, from + 1, text);
    }
}

/// Greedy search for the state reached on `text` from the state at `at`.
pub open spec fn next_skip_empty(pool: Seq<StatusView>, at: int, text: char) -> Option<int> {
    next_skip_empty_from(pool, at, 0, text)
}

/// The id that an executable search result names.
pub open spec fn found_id(found: Option<usize>) -> Option<int> {
    match found {
        Some(id) => Some(id as int),
        None => None,
    }
}

/// A state: an id, a role and the ordered list of outgoing transitions.
#[derive(Debug)]
pub struct Status {
    id: usize,
    status_type: StatusType,
    pub status_set: Vec<(Rule, usize)>,
}

impl View for Status {
    type V = StatusView;

    closed spec fn view(&self) -> StatusView {
        StatusView {
            id: self.id as int,
            status_type: self.status_type,
            status_set: Seq::new(
                self.status_set@.len(),
                |k: int| (self.status_set@[k].0, self.status_set@[k].1 as int),
            ),
        }
    }
}

/// Two states are equal when they have the same id, whatever their roles
/// and transitions.
///
/// Equality is identity within one family of states: among the states of
/// one pool, where the id is the position, and among the states whose ids
/// one [`IdAllocator`] has given. States of two pools, or of two allocators,
/// may share an id and are then equal without being the same state.
impl PartialEq for Status {
    fn eq(&self, other: &Self) -> (equal: bool) {
        self.id == other.id
    }
}

impl vstd::std_specs::cmp::PartialEqSpecImpl for Status {
    open spec fn obeys_eq_spec() -> bool {
        true
    }

    open spec fn eq_spec(&self, other: &Self) -> bool {
        self@.id == other@.id
    }
}

/// In a well-formed pool two states have the same id, and so are equal, only
/// where they are the same state.
pub proof fn lemma_pool_ids_differ(pool: Seq<StatusView>, first: int, second: int)
    requires
        pool_wf(pool),
        0 <= first < pool.len(),
        0 <= second < pool.len(),
    ensures
        pool[first].id == pool[second].id <==> first == second,
{
}

/// Hands out the ids of states, each greater than every id it gave before.
#[derive(Debug)]
pub struct IdAllocator {
    next: usize,
}

impl IdAllocator {
    /// The number of ids given so far. They are the ids below this number,
    /// and the next id is this number.
    pub closed spec fn given(&self) -> int {
        self.next as int
    }

    /// An allocator that has given no id.
    pub fn new() -> (ids: Self)
        ensures
            ids.given() == 0,
    {
        IdAllocator { next: 0 }
    }

    /// A fresh id: the least id not given so far, greater than each of them.
    pub fn fresh(&mut self) -> (id: usize)
        requires
            old(self).given() < usize::MAX,
        ensures
            id == old(self).given(),
            final(self).given() == old(self).given() + 1,
    {
        let id = self.next;
        self.next = self.next + 1;
        id
    }
}

/// The mathematical content of a vector of states.
pub open spec fn pool_view(pool: Seq<Status>) -> Seq<StatusView> {
    Seq::new(pool.len(), |at: int| pool[at]@)
}

impl Status {
    /// A fresh entry state.
    pub fn start(id: usize) -> (status: Status)
        ensures
            status@ == StatusView::bare(id as int, StatusType::Start),
    {
        let status = Status { id, status_type: StatusType::Start, status_set: Vec::new() };
        assert(status@.status_set =~= Seq::empty());
        status
    }

    /// A fresh accepting state.
    pub fn end(id: usize) -> (status: Status)
        ensures
            status@ == StatusView::bare(id as int, StatusType::End),
    {
        let status = Status { id, status_type: StatusType::End, status_set: Vec::new() };
        assert(status@.status_set =~= Seq::empty());
        status
    }

    /// A fresh interior state.
    pub fn node(id: usize) -> (status: Status)
        ensures
            status@ == StatusView::bare(id as int, StatusType::Node),
    {
        let status = Status { id, status_type: StatusType::Node, status_set: Vec::new() };
        assert(status@.status_set =~= Seq::empty());
        status
    }

    /// A fresh entry state with an id of its own from `ids`.
    pub fn fresh_start(ids: &mut IdAllocator) -> (status: Status)
        requires
            old(ids).given() < usize::MAX,
        ensures
            status@ == StatusView::bare(old(ids).given(), StatusType::Start),
            final(ids).given() == old(ids).given() + 1,
    {
        Status::start(ids.fresh())
    }

    /// A fresh accepting state with an id of its own from `ids`.
    pub fn fresh_end(ids: &mut IdAllocator) -> (status: Status)
        requires
            old(ids).given() < usize::MAX,
        ensures
            status@ == StatusView::bare(old(ids).given(), StatusType::End),
            final(ids).given() == old(ids).given() + 1,
    {
        Status::end(ids.fresh())
    }

    /// A fresh interior state with an id of its own from `ids`.
    pub fn fresh_node(ids: &mut IdAllocator) -> (status: Status)
        requires
            old(ids).given() < usize::MAX,
        ensures
            status@ == StatusView::bare(old(ids).given(), StatusType::Node),
            final(ids).given() == old(ids).given() + 1,
    {
        Status::node(ids.fresh())
    }

    /// The id of the state.
    pub fn get_id(&self) -> (id: usize)
        ensures
            id == self@.id,
    {
        self.id
    }

    /// The role of the state.
    pub fn get_type(&self) -> (status_type: &StatusType)
        ensures
            *status_type == self@.status_type,
    {
        &self.status_type
    }

    /// The number of transitions that leave the state.
    pub fn target_count(&self) -> (count: usize)
        ensures
            count == self@.status_set.len(),
    {
        self.status_set.len()
    }

    /// Makes the state an interior state.
    pub fn turn_to_empty(&mut self)
        ensures
            final(self)@ == old(self)@.turn_to_empty(),
    {
        self.status_type = StatusType::Node;
    }

    /// Adds a transition to `target`, tried after those the state has. A
    /// target that was an entry becomes interior.
    pub fn append_next(&mut self, rule: Rule, target: &mut Status)
        ensures
            final(self)@ == old(self)@.append_next(rule, old(target)@.id),
            final(target)@ == old(target)@.entered(),
    {
        if target.status_type == StatusType::Start {
            target.turn_to_empty();
        }
        self.status_set.push((rule, target.id));
        assert(final(self)@.status_set =~= old(self)@.status_set.push((rule, old(target)@.id)));
    }

    /// Adds a transition to the state with id `target`, tried after those
    /// the state has. The target itself is left as it is.
    pub fn push_next(&mut self, rule: Rule, target: usize)
        ensures
            final(self)@ == old(self)@.append_next(rule, target as int),
    {
        self.status_set.push((rule, target));
        assert(final(self)@.status_set =~= old(self)@.status_set.push((rule, target as int)));
    }

    /// Moves the id of the state and the targets of its transitions up by `by`.
    pub fn renumber(&mut self, by: usize)
        requires
            old(self)@.id + by <= usize::MAX,
            forall|k: int|
                0 <= k < old(self)@.status_set.len() ==> (#[trigger] old(self)@.status_set[k]).1
                    + by <= usize::MAX,
        ensures
            final(self)@ == old(self)@.renumber(by as int),
    {
        self.id = self.id + by;
        let mut k: usize = 0;
        while k < self.status_set.len()
            invariant
                k <= self.status_set.len(),
                self.status_set.len() == old(self).status_set.len(),
                self.id == old(self).id + by,
                self.status_type == old(self).status_type,
                forall|j: int|
                    0 <= j < old(self)@.status_set.len() ==> (#[trigger] old(
                        self,
                    )@.status_set[j]).1 + by <= usize::MAX,
                forall|j: int|
                    0 <= j < k ==> #[trigger] self.status_set@[j] == (
                        old(self).status_set@[j].0,
                        (old(self).status_set@[j].1 + by) as usize,
                    ),
                forall|j: int|
                    k <= j < self.status_set.len() ==> #[trigger] self.status_set@[j] == old(
                        self,
                    ).status_set@[j],
            decreases self.status_set.len() - k,
        {
            let (rule, target) = self.status_set[k];
            proof {
                assert(old(self)@.status_set[k as int].1 == target as int);
            }
            self.status_set[k] = (rule, target + by);
            k += 1;
        }
        assert(final(self)@.status_set =~= old(self)@.renumber(by as int).status_set);
    }

    /// The target of the first transition whose rule passes `text`. Empty
    /// transitions are not followed.
    pub fn next(&self, text: char) -> (found: Option<usize>)
        ensures
            found_id(found) == self@.next(text),
    {
        let mut from: usize = 0;
        while from < self.status_set.len()
            invariant
                from <= self.status_set.len(),
                self@.next(text) == self@.next_from(from as int, text),
            decreases self.status_set.len() - from,
        {
            let (rule, target) = self.status_set[from];
            if rule.input(text) {
                return Some(target);
            }
            from += 1;
        }
        None
    }

    /// The state reached on `text`, looking through empty transitions.
    ///
    /// `pool` holds the states that the transitions lead to; the state itself
    /// is the one at position `self.get_id()` of the pool.
    pub fn next_skip_empty(&self, text: char, pool: &Vec<Status>) -> (found: Option<usize>)
        requires
            pool_wf(pool_view(pool@)),
            self@.id < pool@.len(),
            pool@[self@.id]@ == self@,
        ensures
            found_id(found) == next_skip_empty(pool_view(pool@), self@.id, text),
            found matches Some(id) ==> self@.id < id < pool@.len(),
        decreases pool@.len() - self@.id,
    {
        let ghost states = pool_view(pool@);
        let ghost at = self@.id;
        proof {
            lemma_next_skip_empty_forward(states, at, 0, text);
        }
        let mut from: usize = 0;
        while from < self.status_set.len()
            invariant
                from <= self.status_set.len(),
                states == pool_view(pool@),
                at == self@.id,
                pool_wf(states),
                0 <= at < states.len(),
                states[at] == self@,
                next_skip_empty(states, at, text) == next_skip_empty_from(
                    states,
                    at,
                    from as int,
                    text,
                ),
            decreases self.status_set.len() - from,
        {
            let (rule, target) = self.status_set[from];
            proof {
                assert(states[target as int] == pool@[target as int]@);
            }
            if rule.is_empty() {
                let found = pool[target].next_skip_empty(text, pool);
                if found.is_some() {
                    return found;
                }
            } else if rule.input(text) {
                return Some(target);
            }
            from += 1;
        }
        None
    }
}

} // verus!
