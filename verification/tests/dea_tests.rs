use automata::ident::{
    all_distinct, all_members, copy_all, distinct, insert_new, intersects, member, position,
};
use automata::DEA;

const Q0: u64 = 0;
const Q1: u64 = 1;
const Q2: u64 = 2;
const TRAP: u64 = 99;
const ZERO: u8 = b'0';
const ONE: u8 = b'1';

fn chain() -> DEA<u64, u8> {
    DEA::from_transitions(Q0, vec![Q2], vec![(Q0, Q1, ZERO), (Q1, Q2, ONE)])
}

fn sorted<T: Ord + Clone>(v: &Vec<T>) -> Vec<T> {
    let mut s = v.clone();
    s.sort();
    s
}

#[test]
fn new_has_only_the_start_state() {
    let d: DEA<u64, u8> = DEA::new(7);
    assert_eq!(d.start_state, 7);
    assert_eq!(d.states, vec![7]);
    assert!(d.alphabet.is_empty());
    assert!(d.delta.is_empty());
    assert!(d.final_states.is_empty());
}

#[test]
fn add_transition_adds_states_and_letter() {
    let mut d: DEA<u64, u8> = DEA::new(Q0);
    d.add_transition(Q1, Q2, ONE);
    assert_eq!(sorted(&d.states), vec![Q0, Q1, Q2]);
    assert_eq!(d.alphabet, vec![ONE]);
    assert_eq!(d.get_new_state(&Q1, &ONE), Some(Q2));
    assert_eq!(d.get_new_state(&Q0, &ONE), None);
}

#[test]
fn add_transition_last_write_wins() {
    let mut d: DEA<u64, u8> = DEA::new(Q0);
    d.add_transition(Q0, Q1, ZERO);
    d.add_transition(Q0, Q2, ZERO);
    assert_eq!(d.get_new_state(&Q0, &ZERO), Some(Q2));
    assert_eq!(d.delta.len(), 1);
    assert_eq!(sorted(&d.states), vec![Q0, Q1, Q2]);
}

#[test]
fn add_final_state_need_not_be_known() {
    let mut d: DEA<u64, u8> = DEA::new(Q0);
    d.add_final_state(Q2);
    assert_eq!(d.final_states, vec![Q2]);
    assert_eq!(sorted(&d.states), vec![Q0, Q2]);
    d.add_final_state(Q2);
    assert_eq!(d.final_states, vec![Q2]);
}

#[test]
fn from_transitions_adds_transitions_then_finals() {
    let d: DEA<u64, u8> = DEA::from_transitions(Q0, vec![5], vec![(Q0, Q1, ZERO)]);
    assert_eq!(sorted(&d.states), vec![Q0, Q1, 5]);
    assert_eq!(d.final_states, vec![5]);
    assert_eq!(d.delta, vec![(Q0, Q1, ZERO)]);
}

#[test]
fn chain_accepts_zero_one() {
    let d = chain();
    assert!(d.accepts(&vec![ZERO, ONE]));
}

#[test]
fn chain_rejects_zero() {
    let d = chain();
    assert!(!d.accepts(&vec![ZERO]));
}

#[test]
fn chain_is_stuck_on_one_zero() {
    let d = chain();
    assert!(!d.accepts(&vec![ONE, ZERO]));
    assert_eq!(d.simulate(Q0, &vec![ONE, ZERO]), None);
}

#[test]
fn simulate_returns_the_state_reached() {
    let d = chain();
    assert_eq!(d.simulate(Q0, &vec![]), Some(Q0));
    assert_eq!(d.simulate(Q0, &vec![ZERO]), Some(Q1));
    assert_eq!(d.simulate(Q1, &vec![ONE]), Some(Q2));
    assert_eq!(d.simulate(Q2, &vec![ONE]), None);
}

#[test]
fn empty_word_is_accepted_iff_start_is_final() {
    let d = chain();
    assert!(!d.accepts(&vec![]));
    let e: DEA<u64, u8> = DEA::from_transitions(Q0, vec![Q0], vec![]);
    assert!(e.accepts(&vec![]));
}

#[test]
fn accepts_gives_the_same_answer_twice() {
    let d = chain();
    let w = vec![ZERO, ONE];
    assert_eq!(d.accepts(&w), d.accepts(&w));
    let v = vec![ONE];
    assert_eq!(d.accepts(&v), d.accepts(&v));
}

#[test]
fn completed_chain_is_total_with_trap_loops() {
    let c = chain().completed(TRAP);
    assert!(c.is_total());
    assert_eq!(c.get_new_state(&Q2, &ZERO), Some(TRAP));
    assert_eq!(c.get_new_state(&TRAP, &ZERO), Some(TRAP));
    assert_eq!(c.get_new_state(&TRAP, &ONE), Some(TRAP));
    assert_eq!(c.get_new_state(&Q0, &ZERO), Some(Q1));
    assert_eq!(c.get_new_state(&Q1, &ONE), Some(Q2));
    assert_eq!(c.get_new_state(&Q0, &ONE), Some(TRAP));
    assert_eq!(c.start_state, Q0);
    assert_eq!(c.final_states, vec![Q2]);
    assert_eq!(sorted(&c.states), vec![Q0, Q1, Q2, TRAP]);
    assert_eq!(c.delta.len(), 8);
}

#[test]
fn completed_keeps_the_language() {
    let d = chain();
    let c = d.completed(TRAP);
    for w in [vec![], vec![ZERO], vec![ZERO, ONE], vec![ONE, ZERO], vec![ZERO, ONE, ONE]] {
        assert_eq!(d.accepts(&w), c.accepts(&w));
    }
}

#[test]
fn completing_twice_changes_nothing() {
    let once = chain().completed(TRAP);
    let twice = once.completed(TRAP);
    assert_eq!(sorted(&once.states), sorted(&twice.states));
    assert_eq!(sorted(&once.alphabet), sorted(&twice.alphabet));
    assert_eq!(sorted(&once.delta), sorted(&twice.delta));
    assert_eq!(once.start_state, twice.start_state);
    assert_eq!(sorted(&once.final_states), sorted(&twice.final_states));
}

#[test]
fn chain_is_not_total() {
    assert!(!chain().is_total());
}

#[test]
fn duplicate_copies_every_field() {
    let d = chain();
    let e = d.duplicate();
    assert_eq!(d.states, e.states);
    assert_eq!(d.alphabet, e.alphabet);
    assert_eq!(d.delta, e.delta);
    assert_eq!(d.start_state, e.start_state);
    assert_eq!(d.final_states, e.final_states);
}

#[test]
fn vector_helpers_treat_vectors_as_sets() {
    let mut v: Vec<u64> = vec![3, 1];
    insert_new(&mut v, 1);
    assert_eq!(v, vec![3, 1]);
    insert_new(&mut v, 2);
    assert_eq!(v, vec![3, 1, 2]);
    assert_eq!(position(&v, &1), Some(1));
    assert_eq!(position(&v, &9), None);
    assert!(member(&v, &2));
    assert!(!member(&v, &4));
    assert_eq!(distinct(&vec![1u64, 2, 1, 3, 2]), vec![1, 2, 3]);
    assert!(intersects(&vec![1u64, 2], &vec![2u64, 5]));
    assert!(!intersects(&vec![1u64, 2], &vec![3u64]));
}

#[test]
fn vector_checks() {
    assert!(all_distinct(&vec![1u64, 2, 3]));
    assert!(!all_distinct(&vec![1u64, 2, 1]));
    assert!(all_distinct(&Vec::<u64>::new()));
    assert!(all_members(&vec![1u64, 2], &vec![2u64, 1, 0]));
    assert!(!all_members(&vec![1u64, 5], &vec![2u64, 1, 0]));
    assert_eq!(copy_all(&vec![4u64, 4, 2]), vec![4, 4, 2]);
}

#[test]
fn built_automata_are_well_formed() {
    assert!(chain().is_well_formed());
    assert!(chain().completed(TRAP).is_well_formed());
    assert!(DEA::<u64, u8>::new(3).is_well_formed());
}

#[test]
fn broken_automata_are_not_well_formed() {
    let mut twice = chain();
    twice.delta.push((Q0, Q2, ZERO));
    assert!(!twice.is_well_formed());
    let mut stray = chain();
    stray.delta.push((Q2, 7, ZERO));
    assert!(!stray.is_well_formed());
    let mut letter = chain();
    letter.delta.push((Q2, Q2, 9));
    assert!(!letter.is_well_formed());
    let mut start = chain();
    start.start_state = 8;
    assert!(!start.is_well_formed());
    let mut fin = chain();
    fin.final_states.push(8);
    assert!(!fin.is_well_formed());
    let mut dup = chain();
    dup.states.push(Q0);
    assert!(!dup.is_well_formed());
}
