use thompson_nfa::nfa::NFA;
use thompson_nfa::status::{IdAllocator, Status, StatusType};
use thompson_nfa::status_rules::{
    AlphaLowercaseRule, AlphaRule, AlphaUppercaseRule, AlphanumericUnderlineRule, Digit, Rule,
    SingleCharRule, StatusTargetRule, EMPTY,
};
use StatusType::{End, Node, Start};

fn check_status(
    status: &Status,
    status_type: StatusType,
    count: usize,
    next_target: char,
    has_next: bool,
) {
    assert_eq!(status.get_type(), &status_type);
    assert_eq!(status.target_count(), count);
    assert_eq!(status.next(next_target).is_some(), has_next);
}

fn literal(text: char) -> Rule {
    Rule::SingleChar(SingleCharRule::new(text))
}

#[test]
fn start_nfa() {
    const START_STATUS_SHOULD_BE_ONLY_ONE_TARGET: usize = 1;
    const END_STATUS_SHOULD_BE_ZERO_TARGET: usize = 0;

    let nfa = NFA::new();
    let states = nfa.states();

    let start = &states[nfa.get_start()];
    check_status(
        start,
        StatusType::Start,
        START_STATUS_SHOULD_BE_ONLY_ONE_TARGET,
        EMPTY,
        true,
    );

    let next = start.next(EMPTY).unwrap();
    let next = &states[next];

    check_status(
        next,
        StatusType::End,
        END_STATUS_SHOULD_BE_ZERO_TARGET,
        EMPTY,
        false,
    );
}

#[test]
fn start_nfa_with_text() {
    const INIT_CHAR: char = 'a';

    // ((s)) -text-> ((e))
    let nfa = NFA::with(INIT_CHAR);
    let states = nfa.states();

    let status = &states[nfa.get_start()];

    check_status(status, StatusType::Start, 1, EMPTY, false);
    assert!(status.next(INIT_CHAR).is_some());

    let status = status.next(INIT_CHAR).unwrap();
    let status = &states[status];

    check_status(status, StatusType::End, 0, EMPTY, false);
}

#[test]
fn and_two_empty_nfa() {
    let mut nfa_1 = NFA::new();
    let nfa_2 = NFA::new();

    nfa_1.and(nfa_2);
    /*
        ((s)) -empty-> ((empty)) -empty-> ((empty)) -> -empty-> ((e))
    */
    let states = nfa_1.states();

    let status = &states[nfa_1.get_start()];

    check_status(status, Start, 1, EMPTY, true);

    let status = status.next(EMPTY).unwrap();
    let status = &states[status];

    check_status(status, Node, 1, EMPTY, true);

    let status = status.next(EMPTY).unwrap();
    let status = &states[status];

    check_status(status, Node, 1, EMPTY, true);

    let status = status.next(EMPTY).unwrap();
    let status = &states[status];

    check_status(status, End, 0, EMPTY, false);
}

#[test]
fn or_two_empty_nfas() {
    let mut nfa_1 = NFA::new();
    let nfa_2 = NFA::new();

    nfa_1 = nfa_1.or(nfa_2);
    //         /-empty->(empty) -empty-> (empty) -empty-\
    // ((s)) --                                      -> ((e))
    //        \-empty->(empty) -empty-> (empty) -empty-/
    let states = nfa_1.states();

    let status = &states[nfa_1.get_start()];
    check_status(status, Start, 2, EMPTY, true);

    let status_pair = status.status_set.get(0).unwrap();
    assert!(status_pair.0.input(EMPTY));
    let branch = &states[status_pair.1];
    check_status(branch, Node, 1, EMPTY, true);

    let branch = branch.next(EMPTY).unwrap();
    let branch = &states[branch];
    check_status(branch, Node, 1, EMPTY, true);

    let branch = branch.next(EMPTY).unwrap();
    let branch = &states[branch];
    check_status(branch, End, 0, EMPTY, false);

    let status_pair = status.status_set.get(1).unwrap();
    assert!(status_pair.0.input(EMPTY));
    let branch = &states[status_pair.1];
    check_status(branch, Node, 1, EMPTY, true);

    let branch = branch.next(EMPTY).unwrap();
    let branch = &states[branch];
    check_status(branch, Node, 1, EMPTY, true);

    let branch = branch.next(EMPTY).unwrap();
    let branch = &states[branch];
    check_status(branch, End, 0, EMPTY, false);
}

#[test]
fn or_two_nfas() {
    const BRANCH_1_TARGET: char = 'a';
    const BRANCH_2_TARGET: char = 'b';

    let mut nfa_1 = NFA::with(BRANCH_1_TARGET);
    let nfa_2 = NFA::with(BRANCH_2_TARGET);

    nfa_1 = nfa_1.or(nfa_2);
    //         /-empty->(empty) -a-> (empty) -empty-\
    // ((s)) --                                      -> ((e))
    //        \-empty->(empty) -b-> (empty) -empty-/
    let states = nfa_1.states();

    let status = &states[nfa_1.get_start()];
    check_status(status, Start, 2, EMPTY, true);

    let status_pair = status.status_set.get(0).unwrap();
    assert!(status_pair.0.input(EMPTY));
    let branch = &states[status_pair.1];
    check_status(branch, Node, 1, BRANCH_1_TARGET, true);

    let branch = branch.next(BRANCH_1_TARGET).unwrap();
    let branch = &states[branch];
    check_status(branch, Node, 1, EMPTY, true);

    let branch = branch.next(EMPTY).unwrap();
    let branch = &states[branch];
    check_status(branch, End, 0, EMPTY, false);

    let status_pair = status.status_set.get(1).unwrap();
    assert!(status_pair.0.input(EMPTY));
    let branch = &states[status_pair.1];
    check_status(branch, Node, 1, BRANCH_2_TARGET, true);

    let branch = branch.next(BRANCH_2_TARGET).unwrap();
    let branch = &states[branch];
    check_status(branch, Node, 1, EMPTY, true);

    let branch = branch.next(EMPTY).unwrap();
    let branch = &states[branch];
    check_status(branch, End, 0, EMPTY, false);
}

#[test]
fn and_two_nfa_with() {
    const NFA_1_TEXT: char = 'A';
    const NFA_2_TEXT: char = '一';

    let mut nfa_1 = NFA::with(NFA_1_TEXT);
    let nfa_2 = NFA::with(NFA_2_TEXT);

    /*
        ((s)) -A-> ((empty)) -empty-> ((empty)) -> -一-> ((e))
    */
    nfa_1.and(nfa_2);
    let states = nfa_1.states();

    let status = &states[nfa_1.get_start()];
    check_status(status, Start, 1, NFA_1_TEXT, true);

    let status = status.next(NFA_1_TEXT).unwrap();
    let status = &states[status];

    check_status(status, Node, 1, EMPTY, true);

    let status = status.next(EMPTY).unwrap();
    let status = &states[status];
    check_status(status, Node, 1, NFA_2_TEXT, true);

    let status = status.next(NFA_2_TEXT).unwrap();
    let status = &states[status];
    check_status(status, End, 0, EMPTY, false);
}

#[test]
fn nfa_status_next_skip_empty() {
    //  arrage
    /*
       ((s)) -empty-> (1) -a-> ((e))
             -empty-> (2) -b-> (3) -empty-> ((e))
             -c-> (c) -empty-> ((e))
    */
    const TARGET_A: char = 'a';
    const TARGET_B: char = 'b';
    const TARGET_C: char = 'c';
    const TARGET_NOT_EXIST: char = '\0';

    let mut start = Status::start(0);

    let mut status_1 = Status::node(1);
    let mut end_1 = Status::end(2);
    status_1.append_next(literal(TARGET_A), &mut end_1);

    start.append_next(Rule::Empty, &mut status_1);

    let mut status_2 = Status::node(3);
    let mut node_2 = Status::node(4);
    let mut end_2 = Status::end(5);
    node_2.append_next(Rule::Empty, &mut end_2);
    status_2.append_next(literal(TARGET_B), &mut node_2);

    start.append_next(Rule::Empty, &mut status_2);

    let mut status_3 = Status::node(6);
    let mut end_3 = Status::end(7);
    status_3.append_next(Rule::Empty, &mut end_3);

    start.append_next(literal(TARGET_C), &mut status_3);

    let pool = vec![
        start, status_1, end_1, status_2, node_2, end_2, status_3, end_3,
    ];
    let start = &pool[0];

    // action
    let next = start.next_skip_empty(TARGET_A, &pool);
    assert!(next.is_some());
    let next = next.unwrap();
    let next = &pool[next];

    check_status(next, End, 0, EMPTY, false);

    let next = start.next_skip_empty(TARGET_B, &pool);
    assert!(next.is_some());
    let next = next.unwrap();
    let next = &pool[next];

    check_status(next, Node, 1, EMPTY, true);

    let next = start.next_skip_empty(TARGET_C, &pool);
    assert!(next.is_some());
    let next = next.unwrap();
    let next = &pool[next];

    check_status(next, Node, 1, EMPTY, true);

    let next = start.next_skip_empty(TARGET_NOT_EXIST, &pool);
    assert!(next.is_none());
}

#[test]
fn with_alphanumeric_underline() {
    let nfa = NFA::with_alphanumeric_underline();
    let states = nfa.states();

    let status = &states[nfa.get_start()];
    check_status(status, Start, 1, 'a', true);
    check_status(status, Start, 1, 'A', true);
    check_status(status, Start, 1, '0', true);
    check_status(status, Start, 1, '_', true);
    check_status(status, Start, 1, '/', false);
    check_status(status, Start, 1, '-', false);
    check_status(status, Start, 1, '=', false);
    check_status(status, Start, 1, '~', false);
}

#[test]
fn underline_or_alpha() {
    let underline = NFA::with('_');
    let alpha = NFA::with_alpha();

    let nfa = underline.or(alpha);

    //         /-empty->(empty) -_-> (empty) -empty-------\
    // ((s)) --                                            -> ((e))
    //        \-empty->(empty) -[a-zA-Z]-> (empty) -empty-/
    let states = nfa.states();

    let status = &states[nfa.get_start()];
    check_status(status, Start, 2, EMPTY, true);

    let status_pair = status.status_set.get(0).unwrap();
    assert!(status_pair.0.input(EMPTY));
    let branch = &states[status_pair.1];
    check_status(branch, Node, 1, '_', true);

    let branch = branch.next('_').unwrap();
    let branch = &states[branch];
    check_status(branch, Node, 1, EMPTY, true);

    let branch = branch.next(EMPTY).unwrap();
    let branch = &states[branch];
    check_status(branch, End, 0, EMPTY, false);

    let status_pair = status.status_set.get(1).unwrap();
    assert!(status_pair.0.input(EMPTY));
    let branch = &states[status_pair.1];
    check_status(branch, Node, 1, 'a', true);
    check_status(branch, Node, 1, 'A', true);
    check_status(branch, Node, 1, '0', false);
    check_status(branch, Node, 1, '_', false);

    let branch = branch.next('a').unwrap();
    let branch = &states[branch];
    check_status(branch, Node, 1, EMPTY, true);

    let branch = branch.next(EMPTY).unwrap();
    let branch = &states[branch];
    check_status(branch, End, 0, EMPTY, false);
}

/// The roles and transitions of every state, in the order of the pool.
fn shape(nfa: &NFA) -> Vec<(usize, StatusType, Vec<(Rule, usize)>)> {
    nfa.states()
        .iter()
        .map(|status| (status.get_id(), *status.get_type(), status.status_set.clone()))
        .collect()
}

#[test]
fn unit_fragment_has_two_states() {
    let nfa = NFA::with('x');
    assert_eq!(nfa.get_start(), 0);
    assert_eq!(nfa.get_end(), 1);
    assert_eq!(
        shape(&nfa),
        vec![(0, Start, vec![(literal('x'), 1)]), (1, End, vec![])]
    );
}

#[test]
fn class_fragments_carry_their_rule() {
    let cases = vec![
        (NFA::new(), Rule::Empty),
        (NFA::with_alpha(), Rule::Alpha(AlphaRule)),
        (
            NFA::with_alpha_lowercase(),
            Rule::AlphaLowercase(AlphaLowercaseRule),
        ),
        (
            NFA::with_alpha_uppercase(),
            Rule::AlphaUppercase(AlphaUppercaseRule),
        ),
        (NFA::with_digit(), Rule::Digit(Digit)),
        (
            NFA::with_alphanumeric_underline(),
            Rule::AlphanumericUnderline(AlphanumericUnderlineRule),
        ),
    ];
    for (nfa, rule) in cases {
        assert_eq!(
            shape(&nfa),
            vec![(0, Start, vec![(rule, 1)]), (1, End, vec![])]
        );
    }
}

#[test]
fn concatenation_renumbers_the_second_fragment() {
    let mut nfa = NFA::with('a');
    nfa.and(NFA::with('b'));
    assert_eq!(nfa.get_start(), 0);
    assert_eq!(nfa.get_end(), 3);
    assert_eq!(
        shape(&nfa),
        vec![
            (0, Start, vec![(literal('a'), 1)]),
            (1, Node, vec![(Rule::Empty, 2)]),
            (2, Node, vec![(literal('b'), 3)]),
            (3, End, vec![]),
        ]
    );
}

#[test]
fn concatenation_returns_the_joined_fragment() {
    let mut nfa = NFA::with('a');
    let end = nfa.and(NFA::with('b')).and(NFA::with('c')).get_end();
    assert_eq!(end, 5);
    assert_eq!(nfa.states().len(), 6);
    assert!(nfa.accepts("abc"));
}

#[test]
fn alternation_wraps_both_branches_in_order() {
    let nfa = NFA::with('a').or(NFA::with('b'));
    assert_eq!(nfa.get_start(), 0);
    assert_eq!(nfa.get_end(), 5);
    assert_eq!(
        shape(&nfa),
        vec![
            (0, Start, vec![(Rule::Empty, 1), (Rule::Empty, 3)]),
            (1, Node, vec![(literal('a'), 2)]),
            (2, Node, vec![(Rule::Empty, 5)]),
            (3, Node, vec![(literal('b'), 4)]),
            (4, Node, vec![(Rule::Empty, 5)]),
            (5, End, vec![]),
        ]
    );
}

#[test]
fn nested_alternation_keeps_forward_transitions() {
    let nfa = NFA::with('a').or(NFA::with('b')).or(NFA::with('c'));
    let states = nfa.states();
    assert_eq!(states.len(), 10);
    for (at, status) in states.iter().enumerate() {
        assert_eq!(status.get_id(), at);
        for (_, target) in status.status_set.iter() {
            assert!(at < *target && *target < states.len());
        }
        assert_eq!(status.target_count() == 0, at == nfa.get_end());
    }
}

#[test]
fn status_constructors_set_id_and_role() {
    let start = Status::start(4);
    let end = Status::end(5);
    let node = Status::node(6);
    assert_eq!((start.get_id(), *start.get_type(), start.target_count()), (4, Start, 0));
    assert_eq!((end.get_id(), *end.get_type(), end.target_count()), (5, End, 0));
    assert_eq!((node.get_id(), *node.get_type(), node.target_count()), (6, Node, 0));
}

#[test]
fn append_next_turns_an_entry_into_a_node_and_leaves_an_exit() {
    let mut from = Status::node(0);
    let mut entry = Status::start(1);
    let mut exit = Status::end(2);
    from.append_next(literal('a'), &mut entry);
    from.append_next(literal('b'), &mut exit);
    assert_eq!(entry.get_type(), &Node);
    assert_eq!(exit.get_type(), &End);
    assert_eq!(from.get_type(), &Node);
    assert_eq!(from.status_set, vec![(literal('a'), 1), (literal('b'), 2)]);
}

#[test]
fn push_next_leaves_the_role_of_the_state() {
    let mut from = Status::start(0);
    from.push_next(Rule::Empty, 3);
    assert_eq!(from.get_type(), &Start);
    assert_eq!(from.status_set, vec![(Rule::Empty, 3)]);
}

#[test]
fn turn_to_empty_degrades_entry_and_exit() {
    let mut entry = Status::start(0);
    let mut exit = Status::end(1);
    let mut node = Status::node(2);
    entry.turn_to_empty();
    exit.turn_to_empty();
    node.turn_to_empty();
    assert_eq!(entry.get_type(), &Node);
    assert_eq!(exit.get_type(), &Node);
    assert_eq!(node.get_type(), &Node);
}

#[test]
fn renumber_moves_id_and_targets() {
    let mut status = Status::node(2);
    status.push_next(literal('a'), 3);
    status.push_next(Rule::Empty, 7);
    status.renumber(10);
    assert_eq!(status.get_id(), 12);
    assert_eq!(status.status_set, vec![(literal('a'), 13), (Rule::Empty, 17)]);
    assert_eq!(status.get_type(), &Node);
}

#[test]
fn next_takes_the_first_transition_that_passes() {
    let mut status = Status::node(0);
    status.push_next(literal('a'), 1);
    status.push_next(Rule::Empty, 2);
    status.push_next(literal('a'), 3);
    status.push_next(literal('b'), 4);
    assert_eq!(status.next('a'), Some(1));
    assert_eq!(status.next('b'), Some(4));
    assert_eq!(status.next(EMPTY), Some(2));
    assert_eq!(status.next('c'), None);
}

#[test]
fn next_skip_empty_is_greedy_and_depth_first() {
    // 0 -empty-> 1 -empty-> 3 -x-> 5
    //            1 -x-> 4
    // 0 -x-> 2
    let mut s0 = Status::start(0);
    let mut s1 = Status::node(1);
    let mut s2 = Status::node(2);
    let mut s3 = Status::node(3);
    let mut s4 = Status::node(4);
    let mut s5 = Status::end(5);
    s3.append_next(literal('x'), &mut s5);
    s1.append_next(Rule::Empty, &mut s3);
    s1.append_next(literal('y'), &mut s4);
    s0.append_next(Rule::Empty, &mut s1);
    s0.append_next(literal('x'), &mut s2);
    s0.append_next(literal('y'), &mut s2);
    let pool = vec![s0, s1, s2, s3, s4, s5];
    assert_eq!(pool[0].next_skip_empty('x', &pool), Some(5));
    assert_eq!(pool[0].next_skip_empty('y', &pool), Some(4));
    assert_eq!(pool[1].next_skip_empty('x', &pool), Some(5));
    assert_eq!(pool[0].next_skip_empty('z', &pool), None);
    assert_eq!(pool[5].next_skip_empty('x', &pool), None);
    assert_eq!(pool[0].next_skip_empty(EMPTY, &pool), None);
}

#[test]
fn literal_of_the_empty_character_is_no_empty_transition() {
    let nfa = NFA::with(EMPTY);
    assert!(nfa.accepts("\0"));
    assert!(!nfa.accepts(""));
    assert!(!nfa.accepts("a"));
}

#[test]
fn states_are_equal_by_id() {
    let mut first = Status::start(3);
    let second = Status::end(3);
    let third = Status::start(4);
    first.push_next(Rule::Empty, 9);
    assert!(first == second);
    assert!(first != third);
}

#[test]
fn fresh_ids_increase() {
    let mut ids = IdAllocator::new();
    let first = ids.fresh();
    let second = ids.fresh();
    let third = ids.fresh();
    assert_eq!((first, second, third), (0, 1, 2));
    assert!(first < second && second < third);
}

#[test]
fn fresh_states_differ_from_all_states_made_before() {
    let mut ids = IdAllocator::new();
    let start = Status::fresh_start(&mut ids);
    let node = Status::fresh_node(&mut ids);
    let end = Status::fresh_end(&mut ids);
    let again = Status::fresh_start(&mut ids);
    assert_eq!((start.get_type(), start.target_count()), (&Start, 0));
    assert_eq!((node.get_type(), node.target_count()), (&Node, 0));
    assert_eq!((end.get_type(), end.target_count()), (&End, 0));
    assert_eq!(
        (start.get_id(), node.get_id(), end.get_id(), again.get_id()),
        (0, 1, 2, 3)
    );
    let made = [start, node, end, again];
    for (at, one) in made.iter().enumerate() {
        for (other_at, other) in made.iter().enumerate() {
            assert_eq!(one == other, at == other_at);
            assert_eq!(one.get_id() < other.get_id(), at < other_at);
        }
    }
}

#[test]
fn a_pool_of_fresh_states_is_numbered_by_position() {
    let mut ids = IdAllocator::new();
    let mut start = Status::fresh_start(&mut ids);
    let mut node = Status::fresh_node(&mut ids);
    let mut end = Status::fresh_end(&mut ids);
    node.append_next(literal('x'), &mut end);
    start.append_next(Rule::Empty, &mut node);
    let pool = vec![start, node, end];
    for (at, status) in pool.iter().enumerate() {
        assert_eq!(status.get_id(), at);
    }
    assert_eq!(pool[0].next_skip_empty('x', &pool), Some(2));
    assert_eq!(pool[0].next_skip_empty('y', &pool), None);
}
