use automata::components::{component_of, in_some_group};
use automata::merge::rename_state;
use automata::DEA;

fn mask(group: &Vec<u64>) -> u64 {
    let mut m = 1000;
    for s in group {
        m += 1 << *s;
    }
    m
}

fn sorted<T: Ord + Clone>(v: &Vec<T>) -> Vec<T> {
    let mut s = v.clone();
    s.sort();
    s
}

// states 0..=4 over letters 0 and 1; 3 and 4 are final and cannot be told
// apart, nor can 1 and 2
fn redundant() -> DEA<u64, u8> {
    DEA::from_transitions(
        0,
        vec![3, 4],
        vec![
            (0, 1, 0),
            (0, 2, 1),
            (1, 3, 0),
            (1, 3, 1),
            (2, 4, 0),
            (2, 4, 1),
            (3, 3, 0),
            (3, 3, 1),
            (4, 4, 0),
            (4, 4, 1),
        ],
    )
}

fn words() -> Vec<Vec<u8>> {
    let mut all: Vec<Vec<u8>> = vec![vec![]];
    let mut last: Vec<Vec<u8>> = vec![vec![]];
    for _ in 0..4 {
        let mut next = Vec::new();
        for w in &last {
            for l in [0u8, 1u8] {
                let mut v = w.clone();
                v.push(l);
                next.push(v);
            }
        }
        all.extend(next.iter().cloned());
        last = next;
    }
    all
}

#[test]
fn rename_state_takes_the_first_group() {
    let groups = vec![vec![1u64, 2], vec![2u64, 3]];
    let names = vec![10u64, 20];
    assert_eq!(rename_state(&groups, &names, &1), 10);
    assert_eq!(rename_state(&groups, &names, &2), 10);
    assert_eq!(rename_state(&groups, &names, &3), 20);
    assert_eq!(rename_state(&groups, &names, &4), 4);
}

#[test]
fn rename_states_rebuilds_the_automaton() {
    let d = redundant();
    let m = d.rename_states(&vec![vec![3, 4]], &vec![7]);
    assert_eq!(m.start_state, 0);
    assert_eq!(m.final_states, vec![7]);
    assert_eq!(sorted(&m.states), vec![0, 1, 2, 7]);
    assert_eq!(m.get_new_state(&1, &0), Some(7));
    assert_eq!(m.get_new_state(&2, &1), Some(7));
    assert_eq!(m.get_new_state(&7, &0), Some(7));
    assert_eq!(m.get_new_state(&3, &0), None);
}

#[test]
fn combine_states_merges_a_group_into_a_self_loop() {
    let d: DEA<u64, u8> = DEA::from_transitions(0, vec![1], vec![(0, 1, 0), (1, 0, 0)]);
    let m = d.combine_states(&vec![vec![0, 1]], mask);
    assert_eq!(m.states, vec![1003]);
    assert_eq!(m.start_state, 1003);
    assert_eq!(m.final_states, vec![1003]);
    assert_eq!(m.get_new_state(&1003, &0), Some(1003));
}

#[test]
fn combine_states_leaves_other_states_alone() {
    let d = redundant();
    let m = d.combine_states(&vec![vec![3, 4]], mask);
    let merged = 1000 + (1 << 3) + (1 << 4);
    assert_eq!(sorted(&m.states), vec![0, 1, 2, merged]);
    assert_eq!(m.get_new_state(&0, &0), Some(1));
    assert_eq!(m.get_new_state(&1, &1), Some(merged));
}

#[test]
fn merging_equivalent_states_keeps_the_language() {
    let d = redundant();
    let m = d.combine_states(&vec![vec![3, 4], vec![1, 2]], mask);
    assert_eq!(m.states.len(), 3);
    for w in words() {
        assert_eq!(d.accepts(&w), m.accepts(&w));
    }
}

#[test]
fn component_of_follows_pairs_both_ways() {
    let states = vec![0u64, 1, 2, 3, 4];
    let pairs = vec![(1u64, 0u64), (1, 2), (3, 4)];
    assert_eq!(sorted(&component_of(&states, &pairs, &0)), vec![0, 1, 2]);
    assert_eq!(component_of(&states, &pairs, &0)[0], 0);
    assert_eq!(sorted(&component_of(&states, &pairs, &4)), vec![3, 4]);
    assert_eq!(component_of(&states, &vec![], &2), vec![2]);
}

#[test]
fn in_some_group_looks_into_every_group() {
    let groups = vec![vec![1u64], vec![2u64, 3]];
    assert!(in_some_group(&groups, &3));
    assert!(!in_some_group(&groups, &4));
}

#[test]
fn combine_state_pairs_merges_components() {
    let d = redundant();
    let m = d.combine_state_pairs(&vec![(1, 2), (3, 4)], mask);
    let a = 1000 + 1;
    let b = 1000 + (1 << 1) + (1 << 2);
    let c = 1000 + (1 << 3) + (1 << 4);
    assert_eq!(sorted(&m.states), sorted(&vec![a, b, c]));
    assert_eq!(m.start_state, a);
    assert_eq!(m.final_states, vec![c]);
    assert_eq!(m.get_new_state(&a, &0), Some(b));
    assert_eq!(m.get_new_state(&a, &1), Some(b));
    assert_eq!(m.get_new_state(&b, &0), Some(c));
    assert_eq!(m.get_new_state(&c, &1), Some(c));
}

#[test]
fn equivalent_pairs_of_a_total_automaton() {
    let d = redundant();
    assert!(d.is_total());
    assert_eq!(sorted(&d.equivalent_pairs()), vec![(1, 2), (3, 4)]);
}

#[test]
fn minimized_merges_what_no_word_tells_apart() {
    let d = redundant();
    let m = d.minimized(mask);
    assert_eq!(m.states.len(), 3);
    assert!(m.is_total());
    for w in words() {
        assert_eq!(d.accepts(&w), m.accepts(&w));
    }
}

#[test]
fn minimized_result_has_no_equivalent_pairs() {
    let m = redundant().minimized(mask);
    assert!(m.equivalent_pairs().is_empty());
    let again = m.minimized(|g: &Vec<u64>| *g.iter().min().unwrap());
    assert_eq!(again.states.len(), m.states.len());
}

#[test]
fn minimized_completed_chain() {
    let chain: DEA<u64, u8> = DEA::from_transitions(0, vec![2], vec![(0, 1, 0), (1, 2, 1)]);
    let total = chain.completed(9);
    let m = total.minimized(|g: &Vec<u64>| {
        let mut s = 0;
        for x in g {
            s += 1 << *x;
        }
        s
    });
    assert_eq!(m.states.len(), 4);
    for w in words() {
        assert_eq!(chain.accepts(&w), m.accepts(&w));
    }
}

#[test]
fn minimized_keeps_states_that_finality_tells_apart() {
    let d: DEA<u64, u8> = DEA::from_transitions(0, vec![1], vec![(0, 1, 0), (1, 0, 0)]);
    let m = d.minimized(mask);
    assert_eq!(m.states.len(), 2);
    assert!(m.accepts(&vec![0]));
    assert!(!m.accepts(&vec![0, 0]));
}

#[test]
fn minimized_needs_more_than_one_pass() {
    // a line of five states: only the last is final, so 0 and 1 are told
    // apart only after 2 and 3 have been
    let d: DEA<u64, u8> = DEA::from_transitions(
        0,
        vec![4],
        vec![(0, 1, 0), (1, 2, 0), (2, 3, 0), (3, 4, 0), (4, 4, 0)],
    );
    assert!(d.equivalent_pairs().is_empty());
    assert_eq!(d.minimized(mask).states.len(), 5);
}
