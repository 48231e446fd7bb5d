//! The mathematical model of a nondeterministic automaton.

use vstd::prelude::*;

verus! {

/// A nondeterministic automaton as sets; `delta` holds the transitions
/// `(from, to, letter)`.
#[verifier::ext_equal]
#[verifier::reject_recursive_types(ST)]
#[verifier::reject_recursive_types(LT)]
pub struct Nfa<ST, LT> {
    pub alphabet: Set<LT>,
    pub states: Set<ST>,
    pub delta: Set<(ST, ST, LT)>,
    pub start_states: Set<ST>,
    pub final_states: Set<ST>,
}

impl<ST, LT> Nfa<ST, LT> {
    /// The sets are finite, the start states and the final states are
    /// states, and every transition joins two states on a letter of the
    /// alphabet.
    pub open spec fn wf(self) -> bool {
        &&& self.alphabet.finite()
        &&& self.states.finite()
        &&& self.delta.finite()
        &&& self.start_states.finite()
        &&& self.final_states.finite()
        &&& self.start_states.subset_of(self.states)
        &&& self.final_states.subset_of(self.states)
        &&& forall|t: (ST, ST, LT)| #[trigger]
            self.delta.contains(t) ==> {
                &&& self.states.contains(t.0)
                &&& self.states.contains(t.1)
                &&& self.alphabet.contains(t.2)
            }
    }

    /// The automaton whose states are the start states, with nothing else.
    pub open spec fn empty(start_states: Set<ST>) -> Self {
        Nfa {
            alphabet: Set::empty(),
            states: start_states,
            delta: Set::empty(),
            start_states,
            final_states: Set::empty(),
        }
    }

    /// The automaton with `state` marked final.
    pub open spec fn add_final_state(self, state: ST) -> Self {
        Nfa {
            states: self.states.insert(state),
            final_states: self.final_states.insert(state),
            ..self
        }
    }

    /// The automaton in which `from` can also go to `to` on `letter`.
    pub open spec fn add_transition(self, from: ST, to: ST, letter: LT) -> Self {
        Nfa {
            alphabet: self.alphabet.insert(letter),
            states: self.states.insert(from).insert(to),
            delta: self.delta.insert((from, to, letter)),
            ..self
        }
    }

    /// The automaton after adding the transitions of `ts` in order.
    pub open spec fn add_transitions(self, ts: Seq<(ST, ST, LT)>) -> Self
        decreases ts.len(),
    {
        if ts.len() == 0 {
            self
        } else {
            let t = ts.last();
            self.add_transitions(ts.drop_last()).add_transition(t.0, t.1, t.2)
        }
    }

    /// The automaton after marking the states of `fs` final.
    pub open spec fn add_final_states(self, fs: Seq<ST>) -> Self
        decreases fs.len(),
    {
        if fs.len() == 0 {
            self
        } else {
            self.add_final_states(fs.drop_last()).add_final_state(fs.last())
        }
    }

    /// The automaton built from the start states, then the transitions,
    /// then the final states.
    pub open spec fn from_transitions(
        start_states: Set<ST>,
        final_states: Seq<ST>,
        transitions: Seq<(ST, ST, LT)>,
    ) -> Self {
        Self::empty(start_states).add_transitions(transitions).add_final_states(final_states)
    }

    /// The states that some state of `x` can go to on `l`.
    pub open spec fn step(self, x: Set<ST>, l: LT) -> Set<ST> {
        Set::new(|t: ST| exists|s: ST| x.contains(s) && #[trigger] self.delta.contains((s, t, l)))
    }

    /// The states that can be reached from the states of `x` by reading
    /// `w`, or `None` as soon as no state is left.
    pub open spec fn run(self, x: Set<ST>, w: Seq<LT>) -> Option<Set<ST>>
        decreases w.len(),
    {
        if w.len() == 0 {
            Some(x)
        } else {
            let y = self.step(x, w[0]);
            if y =~= Set::empty() {
                None
            } else {
                self.run(y, w.drop_first())
            }
        }
    }

    /// `x` holds a final state.
    pub open spec fn hits_final(self, x: Set<ST>) -> bool {
        exists|q: ST| x.contains(q) && #[trigger] self.final_states.contains(q)
    }

    /// Whether reading `w` from the states of `x` can end in a final state.
    pub open spec fn accepts_from(self, x: Set<ST>, w: Seq<LT>) -> bool {
        match self.run(x, w) {
            Some(y) => self.hits_final(y),
            None => false,
        }
    }

    /// Whether the automaton accepts `w`.
    pub open spec fn accepts(self, w: Seq<LT>) -> bool {
        self.accepts_from(self.start_states, w)
    }

    /// Every letter of `w` is a letter of the alphabet.
    pub open spec fn over_alphabet(self, w: Seq<LT>) -> bool {
        forall|i: int| 0 <= i < w.len() ==> self.alphabet.contains(#[trigger] w[i])
    }

    /// The states that the start states can reach by reading `w`; the
    /// empty set where there are none.
    pub open spec fn after(self, w: Seq<LT>) -> Set<ST>
        decreases w.len(),
    {
        if w.len() == 0 {
            self.start_states
        } else {
            self.step(self.after(w.drop_last()), w.last())
        }
    }

    /// `x` is the set of states that the start states reach by reading
    /// some word over the alphabet.
    pub open spec fn reach(self, x: Set<ST>) -> bool {
        exists|w: Seq<LT>| self.over_alphabet(w) && #[trigger] self.after(w) == x
    }
}

/// From no states, nothing is accepted.
pub proof fn lemma_nothing_from_empty<ST, LT>(n: Nfa<ST, LT>, w: Seq<LT>)
    ensures
        !n.accepts_from(Set::empty(), w),
{
    if w.len() > 0 {
        assert(n.step(Set::empty(), w[0]) =~= Set::<ST>::empty());
    }
}

/// The start states are a reachable set.
pub proof fn lemma_reach_start<ST, LT>(n: Nfa<ST, LT>)
    ensures
        n.reach(n.start_states),
{
    let e = Seq::<LT>::empty();
    assert(n.over_alphabet(e) && n.after(e) == n.start_states);
}

/// One step on a letter of the alphabet leads from a reachable set to a
/// reachable set.
pub proof fn lemma_reach_step<ST, LT>(n: Nfa<ST, LT>, x: Set<ST>, l: LT)
    requires
        n.reach(x),
        n.alphabet.contains(l),
    ensures
        n.reach(n.step(x, l)),
{
    let w = choose|w: Seq<LT>| n.over_alphabet(w) && #[trigger] n.after(w) == x;
    let v = w.push(l);
    assert(v.drop_last() =~= w);
    assert(n.over_alphabet(v));
    assert(n.after(v) == n.step(x, l));
}

/// A step leads to states only.
pub proof fn lemma_step_in_states<ST, LT>(n: Nfa<ST, LT>, x: Set<ST>, l: LT)
    requires
        n.wf(),
    ensures
        n.step(x, l).subset_of(n.states),
        !n.alphabet.contains(l) ==> n.step(x, l) == Set::<ST>::empty(),
{
    if !n.alphabet.contains(l) {
        assert(n.step(x, l) =~= Set::<ST>::empty());
    }
}

} // verus!
