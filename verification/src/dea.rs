//! The deterministic automaton: construction, lookup and simulation.

use crate::dfa_model::{
    key_of, lemma_table_dom, lemma_table_finite, lemma_table_lookup, lemma_table_push,
    lemma_table_update, table, unique_keys, Dfa,
};
use crate::ident::{all_distinct, all_members, insert_new, member, Ident};
use vstd::prelude::*;

verus! {

/// A deterministic automaton. Each field lists its items once, in the order
/// in which they first came; `delta` holds transitions `(from, to, letter)`.
pub struct DEA<ST, LT> {
    pub alphabet: Vec<LT>,
    pub states: Vec<ST>,
    pub delta: Vec<(ST, ST, LT)>,
    pub start_state: ST,
    pub final_states: Vec<ST>,
}

impl<ST, LT> View for DEA<ST, LT> {
    type V = Dfa<ST, LT>;

    open spec fn view(&self) -> Dfa<ST, LT> {
        Dfa {
            alphabet: self.alphabet@.to_set(),
            states: self.states@.to_set(),
            delta: table(self.delta@),
            start_state: self.start_state,
            final_states: self.final_states@.to_set(),
        }
    }
}

impl<ST, LT> DEA<ST, LT> {
    /// Nothing is listed twice, no two transitions share a state and letter,
    /// and the start state, the final states and the ends of every
    /// transition are states, its letter a letter of the alphabet.
    pub open spec fn wf(&self) -> bool {
        &&& self.alphabet@.no_duplicates()
        &&& self.states@.no_duplicates()
        &&& self.final_states@.no_duplicates()
        &&& unique_keys(self.delta@)
        &&& self.states@.contains(self.start_state)
        &&& forall|i: int|
            0 <= i < self.final_states@.len() ==> self.states@.contains(
                #[trigger] self.final_states@[i],
            )
        &&& forall|i: int|
            0 <= i < self.delta@.len() ==> {
                &&& self.states@.contains((#[trigger] self.delta@[i]).0)
                &&& self.states@.contains(self.delta@[i].1)
                &&& self.alphabet@.contains(self.delta@[i].2)
            }
    }

    /// A well-formed automaton has a well-formed model.
    pub proof fn lemma_view_wf(&self)
        requires
            self.wf(),
        ensures
            self@.wf(),
    {
        broadcast use vstd::seq_lib::group_seq_properties;

        lemma_table_finite(self.delta@);
        assert forall|k: (ST, LT)| #[trigger] self@.delta.dom().contains(k) implies {
            &&& self@.states.contains(k.0)
            &&& self@.alphabet.contains(k.1)
            &&& self@.states.contains(self@.delta[k])
        } by {
            lemma_table_dom(self.delta@, k);
            let i = choose|i: int| 0 <= i < self.delta@.len() && key_of(#[trigger] self.delta@[i]) == k;
            lemma_table_lookup(self.delta@, i);
        }
    }
}

impl<ST: Ident, LT: Ident> DEA<ST, LT> {
    /// The automaton whose only state is `start_state`.
    pub fn new(start_state: ST) -> (r: Self)
        ensures
            r.wf(),
            r@ == Dfa::<ST, LT>::empty(start_state),
    {
        let mut states: Vec<ST> = Vec::new();
        states.push(start_state.duplicate());
        let r = DEA {
            alphabet: Vec::new(),
            states,
            delta: Vec::new(),
            start_state,
            final_states: Vec::new(),
        };
        proof {
            assert(r.states@[0] == start_state);
            assert(r@.states =~= Set::<ST>::empty().insert(start_state));
            assert(r@.alphabet =~= Set::<LT>::empty());
            assert(r@.final_states =~= Set::<ST>::empty());
        }
        r
    }

    /// Marks `state` final; it becomes a state if it was none.
    pub fn add_final_state(&mut self, state: ST)
        requires
            old(self).wf(),
        ensures
            final(self).wf(),
            final(self)@ == old(self)@.add_final_state(state),
    {
        broadcast use vstd::seq_lib::group_seq_properties;

        insert_new(&mut self.states, state.duplicate());
        insert_new(&mut self.final_states, state);
    }

    /// Whether the automaton is well formed.
    pub fn is_well_formed(&self) -> (r: bool)
        ensures
            r == self.wf(),
    {
        if !all_distinct(&self.alphabet) || !all_distinct(&self.states) || !all_distinct(
            &self.final_states,
        ) {
            return false;
        }
        if !member(&self.states, &self.start_state) || !all_members(
            &self.final_states,
            &self.states,
        ) {
            return false;
        }
        let mut i: usize = 0;
        while i < self.delta.len()
            invariant
                i <= self.delta@.len(),
                forall|a: int, b: int|
                    0 <= a < i && a < b < self.delta@.len() ==> key_of(#[trigger] self.delta@[a])
                        != key_of(#[trigger] self.delta@[b]),
                forall|a: int|
                    0 <= a < i ==> {
                        &&& self.states@.contains((#[trigger] self.delta@[a]).0)
                        &&& self.states@.contains(self.delta@[a].1)
                        &&& self.alphabet@.contains(self.delta@[a].2)
                    },
            decreases self.delta.len() - i,
        {
            let t = &self.delta[i];
            if !member(&self.states, &t.0) || !member(&self.states, &t.1) || !member(
                &self.alphabet,
                &t.2,
            ) {
                return false;
            }
            let mut j: usize = i + 1;
            while j < self.delta.len()
                invariant
                    i < self.delta@.len(),
                    i < j <= self.delta@.len(),
                    *t == self.delta@[i as int],
                    forall|b: int|
                        i < b < j ==> key_of(self.delta@[i as int]) != key_of(
                            #[trigger] self.delta@[b],
                        ),
                decreases self.delta.len() - j,
            {
                let u = &self.delta[j];
                if t.0.same(&u.0) && t.2.same(&u.2) {
                    return false;
                }
                j += 1;
            }
            i += 1;
        }
        true
    }

    /// The place in `delta` of the transition that leaves `state` on
    /// `letter`, if there is one.
    fn find_transition(&self, state: &ST, letter: &LT) -> (r: Option<usize>)
        ensures
            match r {
                Some(i) => i < self.delta@.len() && key_of(self.delta@[i as int]) == (
                    *state,
                    *letter,
                ),
                None => forall|j: int|
                    0 <= j < self.delta@.len() ==> key_of(#[trigger] self.delta@[j]) != (
                        *state,
                        *letter,
                    ),
            },
    {
        let mut i: usize = 0;
        while i < self.delta.len()
            invariant
                i <= self.delta@.len(),
                forall|j: int|
                    0 <= j < i ==> key_of(#[trigger] self.delta@[j]) != (*state, *letter),
            decreases self.delta.len() - i,
        {
            if self.delta[i].0.same(state) && self.delta[i].2.same(letter) {
                return Some(i);
            }
            i += 1;
        }
        None
    }

    /// Lets `from_state` go to `to_state` on `letter`, in place of where it
    /// went on that letter before, if anywhere. Both become states, and
    /// `letter` a letter of the alphabet.
    pub fn add_transition(&mut self, from_state: ST, to_state: ST, letter: LT)
        requires
            old(self).wf(),
        ensures
            final(self).wf(),
            final(self)@ == old(self)@.add_transition(from_state, to_state, letter),
    {
        broadcast use vstd::seq_lib::group_seq_properties;

        insert_new(&mut self.alphabet, letter.duplicate());
        insert_new(&mut self.states, from_state.duplicate());
        insert_new(&mut self.states, to_state.duplicate());
        let found = self.find_transition(&from_state, &letter);
        match found {
            Some(i) => {
                proof {
                    lemma_table_update(self.delta@, i as int, to_state);
                }
                self.delta.set(i, (from_state, to_state, letter));
            },
            None => {
                proof {
                    lemma_table_push(self.delta@, (from_state, to_state, letter));
                }
                self.delta.push((from_state, to_state, letter));
            },
        }
    }

    /// The automaton that starts in `start_state`, has the given
    /// transitions, a later one replacing an earlier one from the same state
    /// on the same letter, and then the given final states.
    pub fn from_transitions(
        start_state: ST,
        final_states: Vec<ST>,
        transitions: Vec<(ST, ST, LT)>,
    ) -> (r: Self)
        ensures
            r.wf(),
            r@ == Dfa::from_transitions(start_state, final_states@, transitions@),
    {
        let mut dea = DEA::new(start_state);
        let mut i: usize = 0;
        while i < transitions.len()
            invariant
                i <= transitions.len(),
                dea.wf(),
                dea@ == Dfa::<ST, LT>::empty(start_state).add_transitions(
                    transitions@.take(i as int),
                ),
            decreases transitions.len() - i,
        {
            proof {
                assert(transitions@.take(i + 1).drop_last() =~= transitions@.take(i as int));
            }
            let t = &transitions[i];
            dea.add_transition(t.0.duplicate(), t.1.duplicate(), t.2.duplicate());
            i += 1;
        }
        proof {
            assert(transitions@.take(i as int) =~= transitions@);
        }
        let mut j: usize = 0;
        while j < final_states.len()
            invariant
                j <= final_states.len(),
                dea.wf(),
                dea@ == Dfa::<ST, LT>::empty(start_state).add_transitions(
                    transitions@,
                ).add_final_states(final_states@.take(j as int)),
            decreases final_states.len() - j,
        {
            proof {
                assert(final_states@.take(j + 1).drop_last() =~= final_states@.take(j as int));
            }
            dea.add_final_state(final_states[j].duplicate());
            j += 1;
        }
        proof {
            assert(final_states@.take(j as int) =~= final_states@);
        }
        dea
    }

    /// The state that `state` goes to on `letter`, if a transition is
    /// defined.
    pub fn get_new_state(&self, state: &ST, letter: &LT) -> (r: Option<ST>)
        requires
            self.wf(),
        ensures
            r == self@.step(*state, *letter),
    {
        match self.find_transition(state, letter) {
            Some(i) => {
                proof {
                    lemma_table_lookup(self.delta@, i as int);
                }
                Some(self.delta[i].1.duplicate())
            },
            None => {
                proof {
                    if table(self.delta@).dom().contains((*state, *letter)) {
                        lemma_table_dom(self.delta@, (*state, *letter));
                    }
                }
                None
            },
        }
    }

    /// Reads `word` from `state`: the state reached, or `None` as soon as a
    /// letter has no transition from the state reached so far.
    pub fn simulate(&self, state: ST, word: &Vec<LT>) -> (r: Option<ST>)
        requires
            self.wf(),
        ensures
            r == self@.run(state, word@),
    {
        let mut cur = state;
        let mut i: usize = 0;
        proof {
            assert(word@.skip(0) =~= word@);
        }
        while i < word.len()
            invariant
                i <= word.len(),
                self.wf(),
                self@.run(state, word@) == self@.run(cur, word@.skip(i as int)),
            decreases word.len() - i,
        {
            proof {
                assert(word@.skip(i as int).drop_first() =~= word@.skip(i + 1));
            }
            match self.get_new_state(&cur, &word[i]) {
                Some(next) => {
                    cur = next;
                },
                None => {
                    return None;
                },
            }
            i += 1;
        }
        Some(cur)
    }

    /// Whether reading `word` from the start state ends in a final state.
    pub fn accepts(&self, word: &Vec<LT>) -> (r: bool)
        requires
            self.wf(),
        ensures
            r == self@.accepts(word@),
    {
        match self.simulate(self.start_state.duplicate(), word) {
            Some(q) => member(&self.final_states, &q),
            None => false,
        }
    }
}

} // verus!
