//! The mathematical model of a deterministic automaton.

use vstd::prelude::*;

verus! {

/// A deterministic automaton as sets and a partial transition map.
#[verifier::ext_equal]
#[verifier::reject_recursive_types(ST)]
#[verifier::reject_recursive_types(LT)]
pub struct Dfa<ST, LT> {
    pub alphabet: Set<LT>,
    pub states: Set<ST>,
    pub delta: Map<(ST, LT), ST>,
    pub start_state: ST,
    pub final_states: Set<ST>,
}

/// The state and letter that a transition `(from, to, letter)` leaves on.
pub open spec fn key_of<ST, LT>(t: (ST, ST, LT)) -> (ST, LT) {
    (t.0, t.2)
}

/// No two transitions of the list leave the same state on the same letter.
pub open spec fn unique_keys<ST, LT>(ts: Seq<(ST, ST, LT)>) -> bool {
    forall|i: int, j: int|
        0 <= i < j < ts.len() ==> key_of(#[trigger] ts[i]) != key_of(#[trigger] ts[j])
}

/// The transition map that a list of transitions stands for: a later
/// transition replaces an earlier one with the same state and letter.
pub open spec fn table<ST, LT>(ts: Seq<(ST, ST, LT)>) -> Map<(ST, LT), ST>
    decreases ts.len(),
{
    if ts.len() == 0 {
        Map::empty()
    } else {
        table(ts.drop_last()).insert(key_of(ts.last()), ts.last().1)
    }
}

impl<ST, LT> Dfa<ST, LT> {
    /// The sets are finite, the start state and the final states are states,
    /// and every transition joins two states on a letter of the alphabet.
    pub open spec fn wf(self) -> bool {
        &&& self.alphabet.finite()
        &&& self.states.finite()
        &&& self.final_states.finite()
        &&& self.delta.dom().finite()
        &&& self.states.contains(self.start_state)
        &&& self.final_states.subset_of(self.states)
        &&& forall|k: (ST, LT)| #[trigger]
            self.delta.dom().contains(k) ==> {
                &&& self.states.contains(k.0)
                &&& self.alphabet.contains(k.1)
                &&& self.states.contains(self.delta[k])
            }
    }

    /// The automaton with one state, the start state, and nothing else.
    pub open spec fn empty(start: ST) -> Self {
        Dfa {
            alphabet: Set::empty(),
            states: Set::empty().insert(start),
            delta: Map::empty(),
            start_state: start,
            final_states: Set::empty(),
        }
    }

    /// The automaton with `state` marked final.
    pub open spec fn add_final_state(self, state: ST) -> Self {
        Dfa {
            states: self.states.insert(state),
            final_states: self.final_states.insert(state),
            ..self
        }
    }

    /// The automaton in which `from` goes to `to` on `letter`, whatever it
    /// did on that letter before.
    pub open spec fn add_transition(self, from: ST, to: ST, letter: LT) -> Self {
        Dfa {
            alphabet: self.alphabet.insert(letter),
            states: self.states.insert(from).insert(to),
            delta: self.delta.insert((from, letter), to),
            ..self
        }
    }

    /// The automaton after adding the transitions of `ts` in order.
    pub open spec fn add_transitions(self, ts: Seq<(ST, ST, LT)>) -> Self
        decreases ts.len(),
    {
        if ts.len() == 0 {
            self
        } else {
            let t = ts.last();
            self.add_transitions(ts.drop_last()).add_transition(t.0, t.1, t.2)
        }
    }

    /// The automaton after marking the states of `fs` final.
    pub open spec fn add_final_states(self, fs: Seq<ST>) -> Self
        decreases fs.len(),
    {
        if fs.len() == 0 {
            self
        } else {
            self.add_final_states(fs.drop_last()).add_final_state(fs.last())
        }
    }

    /// The automaton built from a start state, then the transitions, then
    /// the final states.
    pub open spec fn from_transitions(
        start: ST,
        final_states: Seq<ST>,
        transitions: Seq<(ST, ST, LT)>,
    ) -> Self {
        Self::empty(start).add_transitions(transitions).add_final_states(final_states)
    }

    /// The state that `s` goes to on `l`, if a transition is defined.
    pub open spec fn step(self, s: ST, l: LT) -> Option<ST> {
        if self.delta.dom().contains((s, l)) {
            Some(self.delta[(s, l)])
        } else {
            None
        }
    }

    /// The state reached from `s` by reading `w`, or `None` as soon as a
    /// letter has no transition from the state reached so far.
    pub open spec fn run(self, s: ST, w: Seq<LT>) -> Option<ST>
        decreases w.len(),
    {
        if w.len() == 0 {
            Some(s)
        } else {
            match self.step(s, w[0]) {
                Some(t) => self.run(t, w.drop_first()),
                None => None,
            }
        }
    }

    /// Whether reading `w` from `s` ends in a final state.
    pub open spec fn accepts_from(self, s: ST, w: Seq<LT>) -> bool {
        match self.run(s, w) {
            Some(q) => self.final_states.contains(q),
            None => false,
        }
    }

    /// Whether the automaton accepts `w`.
    pub open spec fn accepts(self, w: Seq<LT>) -> bool {
        self.accepts_from(self.start_state, w)
    }

    /// Every state has a transition on every letter of the alphabet.
    pub open spec fn total(self) -> bool {
        forall|s: ST, l: LT|
            self.states.contains(s) && self.alphabet.contains(l)
                ==> #[trigger] self.delta.dom().contains((s, l))
    }

    /// The automaton made total with `trap`: `trap` is a state, every
    /// transition that was defined is kept, and every other pair of a state
    /// and a letter goes to `trap`.
    pub open spec fn completed(self, trap: ST) -> Self {
        Dfa {
            alphabet: self.alphabet,
            states: self.states.insert(trap),
            delta: Map::new(
                |k: (ST, LT)| self.states.insert(trap).contains(k.0) && self.alphabet.contains(k.1),
                |k: (ST, LT)|
                    if self.delta.dom().contains(k) {
                        self.delta[k]
                    } else {
                        trap
                    },
            ),
            start_state: self.start_state,
            final_states: self.final_states,
        }
    }

    /// `s` and `t` cannot be told apart: every word is accepted from both
    /// or from neither.
    pub open spec fn equivalent(self, s: ST, t: ST) -> bool {
        forall|w: Seq<LT>| self.accepts_from(s, w) == self.accepts_from(t, w)
    }

    /// The states that no word tells apart from `s`.
    pub open spec fn class_of(self, s: ST) -> Set<ST> {
        Set::new(|t: ST| self.states.contains(t) && self.equivalent(s, t))
    }

    /// Some word is accepted from one of `s` and `t` and not from the other.
    pub open spec fn distinguishable(self, s: ST, t: ST) -> bool {
        exists|w: Seq<LT>| self.accepts_from(s, w) != self.accepts_from(t, w)
    }
}

/// Every key of `table(ts)` is the key of a transition in `ts`, and is
/// mapped to that transition's target.
pub proof fn lemma_table_dom<ST, LT>(ts: Seq<(ST, ST, LT)>, k: (ST, LT))
    requires
        table(ts).dom().contains(k),
    ensures
        exists|i: int|
            0 <= i < ts.len() && key_of(#[trigger] ts[i]) == k && table(ts)[k] == ts[i].1,
    decreases ts.len(),
{
    if ts.len() > 0 {
        if key_of(ts.last()) == k {
            assert(key_of(ts[ts.len() - 1]) == k);
        } else {
            lemma_table_dom(ts.drop_last(), k);
            let i = choose|i: int|
                0 <= i < ts.drop_last().len() && key_of(#[trigger] ts.drop_last()[i]) == k
                    && table(ts.drop_last())[k] == ts.drop_last()[i].1;
            assert(key_of(ts[i]) == k);
        }
    }
}

/// The key of every transition in `ts` is a key of `table(ts)`.
pub proof fn lemma_table_has<ST, LT>(ts: Seq<(ST, ST, LT)>, i: int)
    requires
        0 <= i < ts.len(),
    ensures
        table(ts).dom().contains(key_of(ts[i])),
    decreases ts.len(),
{
    if i < ts.len() - 1 {
        lemma_table_has(ts.drop_last(), i);
    }
}

/// With unique keys, `table(ts)` maps the key of each transition in `ts` to
/// that transition's target.
pub proof fn lemma_table_lookup<ST, LT>(ts: Seq<(ST, ST, LT)>, i: int)
    requires
        unique_keys(ts),
        0 <= i < ts.len(),
    ensures
        table(ts).dom().contains(key_of(ts[i])),
        table(ts)[key_of(ts[i])] == ts[i].1,
    decreases ts.len(),
{
    if i < ts.len() - 1 {
        let init = ts.drop_last();
        assert(unique_keys(init)) by {
            assert forall|a: int, b: int| 0 <= a < b < init.len() implies key_of(
                #[trigger] init[a],
            ) != key_of(#[trigger] init[b]) by {
                assert(init[a] == ts[a] && init[b] == ts[b]);
            }
        }
        lemma_table_lookup(init, i);
        assert(init[i] == ts[i]);
        assert(key_of(ts[i]) != key_of(ts[ts.len() - 1]));
    }
}

/// The domain of `table(ts)` is finite.
pub proof fn lemma_table_finite<ST, LT>(ts: Seq<(ST, ST, LT)>)
    ensures
        table(ts).dom().finite(),
    decreases ts.len(),
{
    if ts.len() > 0 {
        lemma_table_finite(ts.drop_last());
    }
}

/// Replacing the target of a transition in place replaces it in the map.
pub proof fn lemma_table_update<ST, LT>(ts: Seq<(ST, ST, LT)>, i: int, to: ST)
    requires
        unique_keys(ts),
        0 <= i < ts.len(),
    ensures
        unique_keys(ts.update(i, (ts[i].0, to, ts[i].2))),
        table(ts.update(i, (ts[i].0, to, ts[i].2))) == table(ts).insert(key_of(ts[i]), to),
{
    let us = ts.update(i, (ts[i].0, to, ts[i].2));
    assert(us.len() == ts.len());
    assert forall|a: int, b: int| 0 <= a < b < us.len() implies key_of(#[trigger] us[a]) != key_of(
        #[trigger] us[b],
    ) by {
        assert(key_of(us[a]) == key_of(ts[a]));
        assert(key_of(us[b]) == key_of(ts[b]));
    }
    let m1 = table(us);
    let m2 = table(ts).insert(key_of(ts[i]), to);
    assert forall|k: (ST, LT)| #[trigger] m1.dom().contains(k) implies m2.dom().contains(k) && m1[k]
        == m2[k] by {
        lemma_table_dom(us, k);
        let j = choose|j: int| 0 <= j < us.len() && key_of(#[trigger] us[j]) == k;
        lemma_table_lookup(us, j);
        lemma_table_lookup(ts, j);
        assert(key_of(us[j]) == key_of(ts[j]));
    }
    assert forall|k: (ST, LT)| #[trigger] m2.dom().contains(k) implies m1.dom().contains(k) by {
        if k == key_of(ts[i]) {
            lemma_table_lookup(us, i);
        } else {
            lemma_table_dom(ts, k);
            let j = choose|j: int| 0 <= j < ts.len() && key_of(#[trigger] ts[j]) == k;
            lemma_table_lookup(us, j);
            assert(key_of(us[j]) == key_of(ts[j]));
        }
    }
    assert(m1 =~= m2);
}

/// Appending a transition adds it to the map.
pub proof fn lemma_table_push<ST, LT>(ts: Seq<(ST, ST, LT)>, t: (ST, ST, LT))
    ensures
        table(ts.push(t)) == table(ts).insert(key_of(t), t.1),
{
    assert(ts.push(t).drop_last() =~= ts);
}

/// The states that the transitions of `ts` mention.
pub open spec fn endpoints<ST, LT>(ts: Seq<(ST, ST, LT)>) -> Set<ST> {
    Set::new(
        |s: ST| exists|i: int| 0 <= i < ts.len() && ((#[trigger] ts[i]).0 == s || ts[i].1 == s),
    )
}

/// The letters that the transitions of `ts` mention.
pub open spec fn letters<ST, LT>(ts: Seq<(ST, ST, LT)>) -> Set<LT> {
    Set::new(|l: LT| exists|i: int| 0 <= i < ts.len() && (#[trigger] ts[i]).2 == l)
}

/// What adding transitions to the automaton with one state gives.
pub proof fn lemma_add_transitions<ST, LT>(start: ST, ts: Seq<(ST, ST, LT)>)
    ensures
        Dfa::empty(start).add_transitions(ts).start_state == start,
        Dfa::empty(start).add_transitions(ts).final_states == Set::<ST>::empty(),
        Dfa::empty(start).add_transitions(ts).delta == table(ts),
        Dfa::empty(start).add_transitions(ts).states == endpoints(ts).insert(start),
        Dfa::empty(start).add_transitions(ts).alphabet == letters(ts),
    decreases ts.len(),
{
    let r = Dfa::empty(start).add_transitions(ts);
    if ts.len() == 0 {
        assert(r.states =~= endpoints(ts).insert(start));
        assert(r.alphabet =~= letters(ts));
    } else {
        let init = ts.drop_last();
        let t = ts.last();
        lemma_add_transitions(start, init);
        assert forall|s: ST| endpoints(ts).contains(s) <==> (endpoints(init).contains(s) || s == t.0
            || s == t.1) by {
            if endpoints(ts).contains(s) {
                let i = choose|i: int|
                    0 <= i < ts.len() && ((#[trigger] ts[i]).0 == s || ts[i].1 == s);
                if i < init.len() {
                    assert(init[i] == ts[i]);
                }
            }
            if endpoints(init).contains(s) {
                let i = choose|i: int|
                    0 <= i < init.len() && ((#[trigger] init[i]).0 == s || init[i].1 == s);
                assert(ts[i] == init[i]);
            }
            if s == t.0 || s == t.1 {
                assert(ts[ts.len() - 1] == t);
            }
        }
        assert forall|l: LT| letters(ts).contains(l) <==> (letters(init).contains(l) || l == t.2) by {
            if letters(ts).contains(l) {
                let i = choose|i: int| 0 <= i < ts.len() && (#[trigger] ts[i]).2 == l;
                if i < init.len() {
                    assert(init[i] == ts[i]);
                }
            }
            if letters(init).contains(l) {
                let i = choose|i: int| 0 <= i < init.len() && (#[trigger] init[i]).2 == l;
                assert(ts[i] == init[i]);
            }
            if l == t.2 {
                assert(ts[ts.len() - 1] == t);
            }
        }
        assert(r.states =~= endpoints(ts).insert(start));
        assert(r.alphabet =~= letters(ts));
    }
}

/// What marking a list of states final gives.
pub proof fn lemma_add_final_states<ST, LT>(d: Dfa<ST, LT>, fs: Seq<ST>)
    ensures
        d.add_final_states(fs).start_state == d.start_state,
        d.add_final_states(fs).alphabet == d.alphabet,
        d.add_final_states(fs).delta == d.delta,
        d.add_final_states(fs).final_states == d.final_states.union(fs.to_set()),
        d.add_final_states(fs).states == d.states.union(fs.to_set()),
    decreases fs.len(),
{
    let r = d.add_final_states(fs);
    if fs.len() == 0 {
        assert(fs.to_set() =~= Set::<ST>::empty());
        assert(r.final_states =~= d.final_states.union(fs.to_set()));
        assert(r.states =~= d.states.union(fs.to_set()));
    } else {
        let init = fs.drop_last();
        lemma_add_final_states(d, init);
        init.lemma_push_to_set_commute(fs.last());
        assert(init.push(fs.last()) =~= fs);
        assert(r.final_states =~= d.final_states.union(fs.to_set()));
        assert(r.states =~= d.states.union(fs.to_set()));
    }
}

/// What the bulk constructor gives: the map of the transitions, the listed
/// final states, and as states the start state and whatever a transition or
/// the list of final states mentions.
pub proof fn lemma_from_transitions<ST, LT>(start: ST, fs: Seq<ST>, ts: Seq<(ST, ST, LT)>)
    ensures
        Dfa::from_transitions(start, fs, ts).start_state == start,
        Dfa::from_transitions(start, fs, ts).alphabet == letters(ts),
        Dfa::from_transitions(start, fs, ts).delta == table(ts),
        Dfa::from_transitions(start, fs, ts).final_states == fs.to_set(),
        Dfa::from_transitions(start, fs, ts).states == endpoints(ts).insert(start).union(
            fs.to_set(),
        ),
{
    lemma_add_transitions(start, ts);
    lemma_add_final_states(Dfa::empty(start).add_transitions(ts), fs);
    assert(Set::<ST>::empty().union(fs.to_set()) =~= fs.to_set());
}

/// States that no word tells apart have the same class.
pub proof fn lemma_class_shared<ST, LT>(d: Dfa<ST, LT>, s: ST, t: ST)
    requires
        d.equivalent(s, t),
    ensures
        d.class_of(s) == d.class_of(t),
{
    assert forall|u: ST| d.equivalent(s, u) <==> d.equivalent(t, u) by {
        if d.equivalent(s, u) {
            assert forall|w: Seq<LT>| d.accepts_from(t, w) == d.accepts_from(u, w) by {
                assert(d.accepts_from(s, w) == d.accepts_from(t, w));
                assert(d.accepts_from(s, w) == d.accepts_from(u, w));
            }
        }
        if d.equivalent(t, u) {
            assert forall|w: Seq<LT>| d.accepts_from(s, w) == d.accepts_from(u, w) by {
                assert(d.accepts_from(s, w) == d.accepts_from(t, w));
                assert(d.accepts_from(t, w) == d.accepts_from(u, w));
            }
        }
    }
    assert(d.class_of(s) =~= d.class_of(t));
}

} // verus!
