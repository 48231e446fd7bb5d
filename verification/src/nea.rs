//! The nondeterministic automaton: construction and simulation.

use crate::ident::{
    all_distinct, all_members, distinct, insert_new, intersects, member, Ident,
};
use crate::nfa_model::Nfa;
use vstd::prelude::*;

verus! {

/// A nondeterministic automaton. Each field lists its items once, in the
/// order in which they first came; `delta` holds transitions
/// `(from, to, letter)`.
pub struct NEA<ST, LT> {
    pub alphabet: Vec<LT>,
    pub states: Vec<ST>,
    pub delta: Vec<(ST, ST, LT)>,
    pub start_states: Vec<ST>,
    pub final_states: Vec<ST>,
}

impl<ST, LT> View for NEA<ST, LT> {
    type V = Nfa<ST, LT>;

    open spec fn view(&self) -> Nfa<ST, LT> {
        Nfa {
            alphabet: self.alphabet@.to_set(),
            states: self.states@.to_set(),
            delta: self.delta@.to_set(),
            start_states: self.start_states@.to_set(),
            final_states: self.final_states@.to_set(),
        }
    }
}

impl<ST, LT> NEA<ST, LT> {
    /// Nothing is listed twice, and the start states, the final states and
    /// the ends of every transition are states, its letter a letter of the
    /// alphabet.
    pub open spec fn wf(&self) -> bool {
        &&& self.alphabet@.no_duplicates()
        &&& self.states@.no_duplicates()
        &&& self.delta@.no_duplicates()
        &&& self.start_states@.no_duplicates()
        &&& self.final_states@.no_duplicates()
        &&& forall|i: int|
            0 <= i < self.start_states@.len() ==> self.states@.contains(
                #[trigger] self.start_states@[i],
            )
        &&& forall|i: int|
            0 <= i < self.final_states@.len() ==> self.states@.contains(
                #[trigger] self.final_states@[i],
            )
        &&& forall|i: int|
            0 <= i < self.delta@.len() ==> {
                &&& self.states@.contains((#[trigger] self.delta@[i]).0)
                &&& self.states@.contains(self.delta@[i].1)
                &&& self.alphabet@.contains(self.delta@[i].2)
            }
    }

    /// A well-formed automaton has a well-formed model.
    pub proof fn lemma_view_wf(&self)
        requires
            self.wf(),
        ensures
            self@.wf(),
    {
        broadcast use vstd::seq_lib::group_seq_properties;

        vstd::seq_lib::seq_to_set_is_finite(self.alphabet@);
        vstd::seq_lib::seq_to_set_is_finite(self.states@);
        vstd::seq_lib::seq_to_set_is_finite(self.delta@);
        vstd::seq_lib::seq_to_set_is_finite(self.start_states@);
        vstd::seq_lib::seq_to_set_is_finite(self.final_states@);
        assert forall|t: (ST, ST, LT)| #[trigger] self@.delta.contains(t) implies {
            &&& self@.states.contains(t.0)
            &&& self@.states.contains(t.1)
            &&& self@.alphabet.contains(t.2)
        } by {
            let i = choose|i: int| 0 <= i < self.delta@.len() && self.delta@[i] == t;
            assert(self.states@.contains(self.delta@[i].0));
        }
    }
}

impl<ST: Ident, LT: Ident> NEA<ST, LT> {
    /// The automaton whose states are the given start states.
    pub fn new(start_states: Vec<ST>) -> (r: Self)
        ensures
            r.wf(),
            r@ == Nfa::<ST, LT>::empty(start_states@.to_set()),
    {
        broadcast use vstd::seq_lib::group_seq_properties;

        let starts = distinct(&start_states);
        let states = distinct(&start_states);
        let r = NEA {
            alphabet: Vec::new(),
            states,
            delta: Vec::new(),
            start_states: starts,
            final_states: Vec::new(),
        };
        proof {
            assert(r@.alphabet =~= Set::<LT>::empty());
            assert(r@.delta =~= Set::<(ST, ST, LT)>::empty());
            assert(r@.final_states =~= Set::<ST>::empty());
            assert forall|i: int| 0 <= i < r.start_states@.len() implies r.states@.contains(
                #[trigger] r.start_states@[i],
            ) by {
                assert(r.start_states@.to_set().contains(r.start_states@[i]));
                assert(r.states@.to_set().contains(r.start_states@[i]));
            }
        }
        r
    }

    /// Marks `state` final; it becomes a state if it was none.
    pub fn add_final_state(&mut self, state: ST)
        requires
            old(self).wf(),
        ensures
            final(self).wf(),
            final(self)@ == old(self)@.add_final_state(state),
    {
        broadcast use vstd::seq_lib::group_seq_properties;

        insert_new(&mut self.states, state.duplicate());
        insert_new(&mut self.final_states, state);
    }

    /// Whether the automaton is well formed.
    pub fn is_well_formed(&self) -> (r: bool)
        ensures
            r == self.wf(),
    {
        if !all_distinct(&self.alphabet) || !all_distinct(&self.states) || !all_distinct(
            &self.start_states,
        ) || !all_distinct(&self.final_states) {
            return false;
        }
        if !all_members(&self.start_states, &self.states) || !all_members(
            &self.final_states,
            &self.states,
        ) {
            return false;
        }
        let mut i: usize = 0;
        while i < self.delta.len()
            invariant
                i <= self.delta@.len(),
                forall|a: int, b: int|
                    0 <= a < i && a < b < self.delta@.len() ==> self.delta@[a] != self.delta@[b],
                forall|a: int|
                    0 <= a < i ==> {
                        &&& self.states@.contains((#[trigger] self.delta@[a]).0)
                        &&& self.states@.contains(self.delta@[a].1)
                        &&& self.alphabet@.contains(self.delta@[a].2)
                    },
            decreases self.delta.len() - i,
        {
            let t = &self.delta[i];
            if !member(&self.states, &t.0) || !member(&self.states, &t.1) || !member(
                &self.alphabet,
                &t.2,
            ) {
                return false;
            }
            let mut j: usize = i + 1;
            while j < self.delta.len()
                invariant
                    i < self.delta@.len(),
                    i < j <= self.delta@.len(),
                    *t == self.delta@[i as int],
                    forall|b: int| i < b < j ==> self.delta@[i as int] != self.delta@[b],
                decreases self.delta.len() - j,
            {
                let u = &self.delta[j];
                if t.0.same(&u.0) && t.1.same(&u.1) && t.2.same(&u.2) {
                    return false;
                }
                j += 1;
            }
            i += 1;
        }
        proof {
            assert forall|a: int, b: int|
                0 <= a < self.delta@.len() && 0 <= b < self.delta@.len() && a != b implies self.delta@[a]
                != self.delta@[b] by {
                if a < b {
                    assert(self.delta@[a] != self.delta@[b]);
                } else {
                    assert(self.delta@[b] != self.delta@[a]);
                }
            }
        }
        true
    }

    /// Whether `from_state` goes to `to_state` on `letter`.
    fn has_transition(&self, from_state: &ST, to_state: &ST, letter: &LT) -> (r: bool)
        ensures
            r == self.delta@.contains((*from_state, *to_state, *letter)),
    {
        let mut i: usize = 0;
        while i < self.delta.len()
            invariant
                i <= self.delta@.len(),
                forall|j: int|
                    0 <= j < i ==> self.delta@[j] != (*from_state, *to_state, *letter),
            decreases self.delta.len() - i,
        {
            let t = &self.delta[i];
            if t.0.same(from_state) && t.1.same(to_state) && t.2.same(letter) {
                return true;
            }
            i += 1;
        }
        false
    }

    /// Lets `from_state` go to `to_state` on `letter` too. Both become
    /// states, and `letter` a letter of the alphabet.
    pub fn add_transition(&mut self, from_state: ST, to_state: ST, letter: LT)
        requires
            old(self).wf(),
        ensures
            final(self).wf(),
            final(self)@ == old(self)@.add_transition(from_state, to_state, letter),
    {
        broadcast use vstd::seq_lib::group_seq_properties;

        insert_new(&mut self.alphabet, letter.duplicate());
        insert_new(&mut self.states, from_state.duplicate());
        insert_new(&mut self.states, to_state.duplicate());
        if !self.has_transition(&from_state, &to_state, &letter) {
            proof {
                self.delta@.lemma_push_to_set_commute((from_state, to_state, letter));
            }
            self.delta.push((from_state, to_state, letter));
        } else {
            proof {
                assert(self.delta@.to_set() =~= self.delta@.to_set().insert(
                    (from_state, to_state, letter),
                ));
            }
        }
    }

    /// The automaton with the given start states, then the given
    /// transitions, then the given final states.
    pub fn from_transitions(
        start_states: Vec<ST>,
        final_states: Vec<ST>,
        transitions: Vec<(ST, ST, LT)>,
    ) -> (r: Self)
        ensures
            r.wf(),
            r@ == Nfa::from_transitions(start_states@.to_set(), final_states@, transitions@),
    {
        let ghost starts = start_states@.to_set();
        let mut nea = NEA::new(start_states);
        let mut i: usize = 0;
        while i < transitions.len()
            invariant
                i <= transitions.len(),
                nea.wf(),
                nea@ == Nfa::<ST, LT>::empty(starts).add_transitions(transitions@.take(i as int)),
            decreases transitions.len() - i,
        {
            proof {
                assert(transitions@.take(i + 1).drop_last() =~= transitions@.take(i as int));
            }
            let t = &transitions[i];
            nea.add_transition(t.0.duplicate(), t.1.duplicate(), t.2.duplicate());
            i += 1;
        }
        proof {
            assert(transitions@.take(i as int) =~= transitions@);
        }
        let mut j: usize = 0;
        while j < final_states.len()
            invariant
                j <= final_states.len(),
                nea.wf(),
                nea@ == Nfa::<ST, LT>::empty(starts).add_transitions(
                    transitions@,
                ).add_final_states(final_states@.take(j as int)),
            decreases final_states.len() - j,
        {
            proof {
                assert(final_states@.take(j + 1).drop_last() =~= final_states@.take(j as int));
            }
            nea.add_final_state(final_states[j].duplicate());
            j += 1;
        }
        proof {
            assert(final_states@.take(j as int) =~= final_states@);
        }
        nea
    }

    /// The states that some state of `states` goes to on `letter`, each
    /// once.
    pub fn get_new_states(&self, states: &Vec<ST>, letter: &LT) -> (r: Vec<ST>)
        ensures
            r@.no_duplicates(),
            r@.to_set() == self@.step(states@.to_set(), *letter),
    {
        broadcast use vstd::seq_lib::group_seq_properties;

        let mut out: Vec<ST> = Vec::new();
        let mut i: usize = 0;
        while i < self.delta.len()
            invariant
                i <= self.delta@.len(),
                out@.no_duplicates(),
                forall|y: ST|
                    out@.contains(y) <==> exists|k: int|
                        0 <= k < i && states@.contains((#[trigger] self.delta@[k]).0)
                            && self.delta@[k].1 == y && self.delta@[k].2 == *letter,
            decreases self.delta.len() - i,
        {
            let t = &self.delta[i];
            let ghost before = out@;
            if t.2.same(letter) && member(states, &t.0) {
                insert_new(&mut out, t.1.duplicate());
            }
            proof {
                assert forall|y: ST| out@.contains(y) <==> exists|k: int|
                    0 <= k < i + 1 && states@.contains((#[trigger] self.delta@[k]).0)
                        && self.delta@[k].1 == y && self.delta@[k].2 == *letter by {
                    if out@.contains(y) {
                        if before.contains(y) {
                            let k = choose|k: int|
                                0 <= k < i && states@.contains((#[trigger] self.delta@[k]).0)
                                    && self.delta@[k].1 == y && self.delta@[k].2 == *letter;
                            assert(0 <= k < i + 1);
                        } else {
                            assert(out@.to_set().contains(y));
                            assert(y == self.delta@[i as int].1);
                        }
                    }
                    if exists|k: int|
                        0 <= k < i + 1 && states@.contains((#[trigger] self.delta@[k]).0)
                            && self.delta@[k].1 == y && self.delta@[k].2 == *letter {
                        let k = choose|k: int|
                            0 <= k < i + 1 && states@.contains((#[trigger] self.delta@[k]).0)
                                && self.delta@[k].1 == y && self.delta@[k].2 == *letter;
                        if k < i {
                            assert(before.contains(y));
                        }
                    }
                }
            }
            i += 1;
        }
        proof {
            let x = states@.to_set();
            assert forall|y: ST| out@.to_set().contains(y) <==> self@.step(x, *letter).contains(
                y,
            ) by {
                if out@.contains(y) {
                    let k = choose|k: int|
                        0 <= k < i && states@.contains((#[trigger] self.delta@[k]).0)
                            && self.delta@[k].1 == y && self.delta@[k].2 == *letter;
                    let s = self.delta@[k].0;
                    assert(self.delta@[k] == (s, y, *letter));
                    assert(x.contains(s) && self@.delta.contains((s, y, *letter)));
                }
                if self@.step(x, *letter).contains(y) {
                    let s = choose|s: ST|
                        x.contains(s) && #[trigger] self@.delta.contains((s, y, *letter));
                    let k = choose|k: int|
                        0 <= k < self.delta@.len() && self.delta@[k] == (s, y, *letter);
                    assert(states@.contains(self.delta@[k].0));
                }
            }
            assert(out@.to_set() =~= self@.step(x, *letter));
        }
        out
    }

    /// Reads `word` from the given states: the states that can be reached,
    /// each once, or `None` as soon as no state is left.
    pub fn simulate(&self, states: &Vec<ST>, word: &Vec<LT>) -> (r: Option<Vec<ST>>)
        ensures
            match r {
                Some(v) => v@.no_duplicates() && self@.run(states@.to_set(), word@) == Some(
                    v@.to_set(),
                ),
                None => self@.run(states@.to_set(), word@) is None,
            },
    {
        broadcast use vstd::seq_lib::group_seq_properties;

        let mut cur = distinct(states);
        let mut i: usize = 0;
        proof {
            assert(word@.skip(0) =~= word@);
        }
        while i < word.len()
            invariant
                i <= word.len(),
                cur@.no_duplicates(),
                self@.run(states@.to_set(), word@) == self@.run(
                    cur@.to_set(),
                    word@.skip(i as int),
                ),
            decreases word.len() - i,
        {
            proof {
                assert(word@.skip(i as int).drop_first() =~= word@.skip(i + 1));
            }
            let next = self.get_new_states(&cur, &word[i]);
            if next.len() == 0 {
                proof {
                    assert(next@.to_set() =~= Set::<ST>::empty());
                }
                return None;
            }
            proof {
                assert(next@.to_set().contains(next@[0]));
            }
            cur = next;
            i += 1;
        }
        Some(cur)
    }

    /// Whether reading `word` from the start states can end in a final
    /// state.
    pub fn accepts(&self, word: &Vec<LT>) -> (r: bool)
        ensures
            r == self@.accepts(word@),
    {
        broadcast use vstd::seq_lib::group_seq_properties;

        match self.simulate(&self.start_states, word) {
            Some(v) => {
                let r = intersects(&v, &self.final_states);
                proof {
                    let y = v@.to_set();
                    if r {
                        let q = choose|q: ST|
                            v@.contains(q) && #[trigger] self.final_states@.contains(q);
                        assert(y.contains(q) && self@.final_states.contains(q));
                    }
                    if self@.hits_final(y) {
                        let q = choose|q: ST| y.contains(q) && #[trigger] self@.final_states.contains(q);
                        assert(v@.contains(q) && self.final_states@.contains(q));
                    }
                }
                r
            },
            None => false,
        }
    }
}

} // verus!
