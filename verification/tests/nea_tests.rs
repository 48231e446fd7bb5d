use automata::{DEA, NEA};

fn mask(group: &Vec<u64>) -> u64 {
    let mut m = 100;
    for s in group {
        m += 1 << *s;
    }
    m
}

fn sorted<T: Ord + Clone>(v: &Vec<T>) -> Vec<T> {
    let mut s = v.clone();
    s.sort();
    s
}

// accepts the words of length three or more whose third letter from
// the end is 1
fn third_from_last() -> NEA<u64, u8> {
    NEA::from_transitions(
        vec![0],
        vec![3],
        vec![
            (0, 0, 0),
            (0, 0, 1),
            (0, 1, 1),
            (1, 2, 0),
            (1, 2, 1),
            (2, 3, 0),
            (2, 3, 1),
        ],
    )
}

fn words(max: usize) -> Vec<Vec<u8>> {
    let mut all: Vec<Vec<u8>> = vec![vec![]];
    let mut last: Vec<Vec<u8>> = vec![vec![]];
    for _ in 0..max {
        let mut next = Vec::new();
        for w in &last {
            for l in [0u8, 1u8] {
                let mut v = w.clone();
                v.push(l);
                next.push(v);
            }
        }
        all.extend(next.iter().cloned());
        last = next;
    }
    all
}

#[test]
fn nea_new_lists_start_states_once() {
    let n: NEA<u64, u8> = NEA::new(vec![2, 1, 2]);
    assert_eq!(n.start_states, vec![2, 1]);
    assert_eq!(n.states, vec![2, 1]);
    assert!(n.delta.is_empty());
}

#[test]
fn nea_add_transition_adds_a_target() {
    let mut n: NEA<u64, u8> = NEA::new(vec![0]);
    n.add_transition(0, 1, 5);
    n.add_transition(0, 2, 5);
    n.add_transition(0, 2, 5);
    assert_eq!(n.delta.len(), 2);
    assert_eq!(sorted(&n.get_new_states(&vec![0], &5)), vec![1, 2]);
    assert_eq!(n.get_new_states(&vec![1], &5), Vec::<u64>::new());
    assert_eq!(n.get_new_states(&vec![0], &6), Vec::<u64>::new());
    assert_eq!(n.alphabet, vec![5]);
    assert_eq!(sorted(&n.states), vec![0, 1, 2]);
}

#[test]
fn nea_add_final_state_need_not_be_known() {
    let mut n: NEA<u64, u8> = NEA::new(vec![0]);
    n.add_final_state(4);
    assert_eq!(n.final_states, vec![4]);
    assert_eq!(sorted(&n.states), vec![0, 4]);
}

#[test]
fn nea_accepts_third_from_last() {
    let n = third_from_last();
    assert!(n.accepts(&vec![0, 1, 1, 0]));
    assert!(!n.accepts(&vec![0, 1]));
}

#[test]
fn nea_accepts_matches_the_language() {
    let n = third_from_last();
    for w in words(6) {
        let expected = w.len() >= 3 && w[w.len() - 3] == 1;
        assert_eq!(n.accepts(&w), expected);
    }
}

#[test]
fn nea_simulate_unions_targets() {
    let n = third_from_last();
    assert_eq!(sorted(&n.simulate(&vec![0], &vec![1]).unwrap()), vec![0, 1]);
    assert_eq!(sorted(&n.simulate(&vec![0], &vec![1, 1]).unwrap()), vec![0, 1, 2]);
    assert_eq!(sorted(&n.simulate(&vec![1, 1, 2], &vec![]).unwrap()), vec![1, 2]);
}

#[test]
fn nea_simulate_fails_when_no_state_is_left() {
    let n = third_from_last();
    assert_eq!(n.simulate(&vec![3], &vec![0]), None);
    assert_eq!(n.simulate(&vec![2], &vec![0, 0, 1]), None);
    assert_eq!(n.simulate(&vec![], &vec![0]), None);
    assert_eq!(n.simulate(&vec![], &vec![]), Some(vec![]));
    assert_eq!(n.simulate(&vec![0], &vec![7]), None);
}

#[test]
fn nea_empty_word_is_accepted_iff_a_start_state_is_final() {
    let n = third_from_last();
    assert!(!n.accepts(&vec![]));
    let m: NEA<u64, u8> = NEA::from_transitions(vec![0, 1], vec![1], vec![]);
    assert!(m.accepts(&vec![]));
}

#[test]
fn nea_accepts_gives_the_same_answer_twice() {
    let n = third_from_last();
    let w = vec![1, 0, 0];
    assert_eq!(n.accepts(&w), n.accepts(&w));
}

#[test]
fn to_dea_agrees_on_the_two_words() {
    let n = third_from_last();
    let d: DEA<u64, u8> = n.to_dea(mask);
    assert!(d.accepts(&vec![0, 1, 1, 0]));
    assert!(!d.accepts(&vec![0, 1]));
}

#[test]
fn to_dea_agrees_on_every_short_word() {
    let n = third_from_last();
    let d = n.to_dea(mask);
    for w in words(7) {
        assert_eq!(n.accepts(&w), d.accepts(&w));
    }
    assert!(!d.accepts(&vec![1, 7, 0, 0]));
    assert!(!n.accepts(&vec![1, 7, 0, 0]));
}

#[test]
fn to_dea_names_the_reachable_sets() {
    let n = third_from_last();
    let d = n.to_dea(mask);
    assert_eq!(d.start_state, 101);
    assert_eq!(d.states.len(), 8);
    assert!(d.is_total());
    assert_eq!(d.get_new_state(&101, &0), Some(101));
    assert_eq!(d.get_new_state(&101, &1), Some(103));
    assert_eq!(d.get_new_state(&103, &1), Some(107));
    assert_eq!(d.get_new_state(&103, &0), Some(105));
    assert_eq!(sorted(&d.final_states), vec![109, 111, 113, 115]);
    assert_eq!(sorted(&d.alphabet), vec![0, 1]);
}

#[test]
fn to_dea_keeps_the_empty_set_as_a_sink() {
    let n: NEA<u64, u8> = NEA::from_transitions(vec![0], vec![1], vec![(0, 1, 0), (1, 1, 1)]);
    let d = n.to_dea(mask);
    assert_eq!(d.get_new_state(&101, &1), Some(100));
    assert_eq!(d.get_new_state(&100, &0), Some(100));
    assert_eq!(d.get_new_state(&100, &1), Some(100));
    assert!(d.accepts(&vec![0, 1, 1]));
    assert!(!d.accepts(&vec![1, 0]));
    assert!(!n.accepts(&vec![1, 0]));
}

#[test]
fn to_dea_then_minimized_keeps_the_language() {
    let n = third_from_last();
    let d = n.to_dea(mask);
    let m = d.minimized(|g: &Vec<u64>| *g.iter().min().unwrap());
    assert_eq!(m.states.len(), 8);
    for w in words(6) {
        assert_eq!(n.accepts(&w), m.accepts(&w));
    }
}

#[test]
fn to_dea_without_letters_has_one_state() {
    let n: NEA<u64, u8> = NEA::from_transitions(vec![0, 1], vec![1], vec![]);
    let d = n.to_dea(mask);
    assert_eq!(d.states, vec![103]);
    assert_eq!(d.final_states, vec![103]);
    assert!(d.accepts(&vec![]));
    assert!(!d.accepts(&vec![0]));
}

#[test]
fn nea_well_formedness() {
    let n = third_from_last();
    assert!(n.is_well_formed());
    let mut twice = third_from_last();
    twice.delta.push((0, 0, 0));
    assert!(!twice.is_well_formed());
    let mut stray = third_from_last();
    stray.start_states.push(9);
    assert!(!stray.is_well_formed());
}
