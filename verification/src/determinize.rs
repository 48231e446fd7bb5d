//! The subset construction: from a nondeterministic automaton to a
//! deterministic one whose states are named sets of states.

use crate::dea::DEA;
use crate::dfa_model::Dfa;
use crate::ident::{copy_all, intersects, member, Ident};
use crate::naming::{canonical, lemma_namer, namer};
use crate::nea::NEA;
use crate::nfa_model::{
    lemma_nothing_from_empty, lemma_reach_start, lemma_reach_step, lemma_step_in_states, Nfa,
};
use vstd::prelude::*;

verus! {

/// `m` is the subset automaton of `n` under `name`: its states are the
/// names of the sets of states that `n` can reach, it starts in the name
/// of the start states, a name is final where its set holds a final state,
/// and on each letter of the alphabet the name of a set goes to the name
/// of the set that one step leads to.
pub open spec fn determinizes_to<ST, LT>(
    n: Nfa<ST, LT>,
    name: spec_fn(Set<ST>) -> ST,
    m: Dfa<ST, LT>,
) -> bool {
    &&& m.alphabet == n.alphabet
    &&& m.start_state == name(n.start_states)
    &&& forall|p: ST| #[trigger]
        m.states.contains(p) <==> exists|x: Set<ST>| n.reach(x) && #[trigger] name(x) == p
    &&& forall|p: ST| #[trigger]
        m.final_states.contains(p) <==> exists|x: Set<ST>|
            n.reach(x) && n.hits_final(x) && #[trigger] name(x) == p
    &&& forall|k: (ST, LT)| #[trigger]
        m.delta.dom().contains(k) <==> n.alphabet.contains(k.1) && exists|x: Set<ST>|
            n.reach(x) && #[trigger] name(x) == k.0
    &&& forall|x: Set<ST>, l: LT|
        n.reach(x) && n.alphabet.contains(l) ==> #[trigger] m.delta[(name(x), l)] == name(
            n.step(x, l),
        )
}

/// The sets of states that `n` can reach.
pub open spec fn reach_family<ST, LT>(n: Nfa<ST, LT>) -> spec_fn(Set<ST>) -> bool {
    |x: Set<ST>| n.reach(x)
}

/// `name` gives different reachable sets of `n` different names.
pub open spec fn names_apart<ST, LT>(n: Nfa<ST, LT>, name: spec_fn(Set<ST>) -> ST) -> bool {
    forall|x: Set<ST>, y: Set<ST>|
        n.reach(x) && n.reach(y) && #[trigger] name(x) == #[trigger] name(y) ==> x == y
}

/// The subset automaton accepts a word from the name of a reachable set
/// exactly if `n` accepts it from that set.
pub proof fn lemma_subset_accepts_from<ST, LT>(
    n: Nfa<ST, LT>,
    name: spec_fn(Set<ST>) -> ST,
    m: Dfa<ST, LT>,
    x: Set<ST>,
    w: Seq<LT>,
)
    requires
        n.wf(),
        determinizes_to(n, name, m),
        names_apart(n, name),
        n.reach(x),
    ensures
        m.accepts_from(name(x), w) == n.accepts_from(x, w),
    decreases w.len(),
{
    let p = name(x);
    if w.len() == 0 {
        if m.final_states.contains(p) {
            let x2 = choose|x2: Set<ST>| n.reach(x2) && n.hits_final(x2) && #[trigger] name(x2) == p;
            assert(x2 == x);
        }
        if n.hits_final(x) {
            assert(n.reach(x) && n.hits_final(x) && name(x) == p);
        }
    } else {
        let l = w[0];
        let y = n.step(x, l);
        lemma_step_in_states(n, x, l);
        if n.alphabet.contains(l) {
            assert(n.reach(x) && name(x) == p);
            assert(m.delta.dom().contains((p, l)));
            assert(m.delta[(name(x), l)] == name(y));
            lemma_reach_step(n, x, l);
            lemma_subset_accepts_from(n, name, m, y, w.drop_first());
            if y =~= Set::empty() {
                lemma_nothing_from_empty(n, w.drop_first());
            }
        } else {
            assert(!m.delta.dom().contains((p, l)));
        }
    }
}

/// The subset automaton accepts exactly the words that `n` accepts, where
/// different reachable sets have different names.
pub proof fn lemma_determinized_preserves_language<ST, LT>(
    n: Nfa<ST, LT>,
    name: spec_fn(Set<ST>) -> ST,
    m: Dfa<ST, LT>,
    w: Seq<LT>,
)
    requires
        n.wf(),
        determinizes_to(n, name, m),
        names_apart(n, name),
    ensures
        m.accepts(w) == n.accepts(w),
{
    lemma_reach_start(n);
    lemma_subset_accepts_from(n, name, m, n.start_states, w);
}

/// The subsets of `s`.
pub open spec fn subsets<A>(s: Set<A>) -> Set<Set<A>> {
    Set::new(|x: Set<A>| x.subset_of(s))
}

/// A finite set has finitely many subsets.
pub proof fn lemma_subsets_finite<A>(s: Set<A>)
    requires
        s.finite(),
    ensures
        subsets(s).finite(),
    decreases s.len(),
{
    if s.len() == 0 {
        assert(s =~= Set::<A>::empty());
        assert forall|x: Set<A>| subsets(s).contains(x) implies x == Set::<A>::empty() by {
            assert(x =~= Set::<A>::empty());
        }
        assert(subsets(s) =~= Set::<Set<A>>::empty().insert(Set::<A>::empty()));
    } else {
        let a = s.choose();
        let rest = s.remove(a);
        lemma_subsets_finite(rest);
        let with = subsets(rest).map(|x: Set<A>| x.insert(a));
        subsets(rest).lemma_map_finite(|x: Set<A>| x.insert(a));
        assert forall|x: Set<A>| subsets(s).contains(x) <==> subsets(rest).union(with).contains(
            x,
        ) by {
            if subsets(s).contains(x) {
                if x.contains(a) {
                    let y = x.remove(a);
                    assert(y.subset_of(rest));
                    assert(x =~= y.insert(a));
                    assert(subsets(rest).contains(y));
                    assert(with.contains(x));
                } else {
                    assert(x.subset_of(rest));
                }
            }
            if with.contains(x) {
                let y = choose|y: Set<A>| subsets(rest).contains(y) && x == y.insert(a);
                assert(x.subset_of(s));
            }
        }
        assert(subsets(s) =~= subsets(rest).union(with));
    }
}

impl<ST, LT> NEA<ST, LT> {
    /// What the walk knows of the sets it has met: the first is the set of
    /// start states, each is a reachable set of states, `labels` holds a
    /// result of `c` on each, and no label occurs twice.
    spec fn known<F: Fn(&Vec<ST>) -> ST>(&self, c: F, sets: Seq<Vec<ST>>, labels: Seq<ST>) -> bool {
        &&& sets.len() == labels.len()
        &&& sets.len() > 0
        &&& sets[0]@.to_set() == self@.start_states
        &&& labels.no_duplicates()
        &&& forall|k: int|
            0 <= k < sets.len() ==> {
                &&& (#[trigger] sets[k])@.to_set().subset_of(self@.states)
                &&& self@.reach(sets[k]@.to_set())
                &&& call_ensures(c, (&sets[k],), labels[k])
            }
    }

    /// `m` holds the transition of the set at place `k` on the letter at
    /// place `b`, and it leads to the label of a set that the walk has met.
    spec fn recorded(
        &self,
        sets: Seq<Vec<ST>>,
        labels: Seq<ST>,
        m: Dfa<ST, LT>,
        k: int,
        b: int,
    ) -> bool {
        &&& m.delta.dom().contains((labels[k], self.alphabet@[b]))
        &&& exists|k2: int|
            0 <= k2 < sets.len() && (#[trigger] sets[k2])@.to_set() == self@.step(
                sets[k]@.to_set(),
                self.alphabet@[b],
            ) && m.delta[(labels[k], self.alphabet@[b])] == labels[k2]
    }

    /// What the walk has built once the sets before place `head` are done
    /// and the set at `head` is done for the letters before place `j`.
    spec fn built(
        &self,
        sets: Seq<Vec<ST>>,
        labels: Seq<ST>,
        m: Dfa<ST, LT>,
        head: int,
        j: int,
    ) -> bool {
        &&& m.start_state == labels[0]
        &&& m.states == labels.to_set()
        &&& m.alphabet.subset_of(self@.alphabet)
        &&& head > 0 ==> m.alphabet == self@.alphabet
        &&& forall|b: int| 0 <= b < j ==> m.alphabet.contains(#[trigger] self.alphabet@[b])
        &&& forall|p: ST| #[trigger]
            m.final_states.contains(p) <==> exists|k: int|
                0 <= k < head && #[trigger] labels[k] == p && self@.hits_final(sets[k]@.to_set())
        &&& forall|key: (ST, LT)| #[trigger]
            m.delta.dom().contains(key) ==> exists|k: int, b: int|
                ((0 <= k < head && 0 <= b < self.alphabet@.len()) || (k == head && 0 <= b < j))
                    && key == (#[trigger] labels[k], #[trigger] self.alphabet@[b])
        &&& forall|k: int, b: int|
            0 <= k < head && 0 <= b < self.alphabet@.len() ==> #[trigger] self.recorded(
                sets,
                labels,
                m,
                k,
                b,
            )
        &&& forall|b: int| 0 <= b < j ==> #[trigger] self.recorded(sets, labels, m, head, b)
    }
}

impl<ST, LT> NEA<ST, LT> {
    /// One step of the walk keeps what it knows and has built: the set at
    /// `head` has been taken one step on the letter at `j`, the transition
    /// added, and the new set kept where its label was not met before.
    proof fn lemma_explored<F: Fn(&Vec<ST>) -> ST>(
        &self,
        c: F,
        sets0: Seq<Vec<ST>>,
        labels0: Seq<ST>,
        m0: Dfa<ST, LT>,
        head: int,
        j: int,
        next: Vec<ST>,
        label: ST,
        sets1: Seq<Vec<ST>>,
        labels1: Seq<ST>,
        m1: Dfa<ST, LT>,
    )
        requires
            self.wf(),
            canonical(c, reach_family(self@)),
            self.known(c, sets0, labels0),
            self.built(sets0, labels0, m0, head, j),
            0 <= head < sets0.len(),
            0 <= j < self.alphabet@.len(),
            next@.to_set() == self@.step(sets0[head]@.to_set(), self.alphabet@[j]),
            call_ensures(c, (&next,), label),
            m1 == m0.add_transition(labels0[head], label, self.alphabet@[j]),
            labels0.contains(label) ==> sets1 == sets0 && labels1 == labels0,
            !labels0.contains(label) ==> sets1 == sets0.push(next) && labels1 == labels0.push(label),
        ensures
            self.known(c, sets1, labels1),
            self.built(sets1, labels1, m1, head, j + 1),
    {
        broadcast use vstd::seq_lib::group_seq_properties;

        self.lemma_view_wf();
        let n = self@;
        let x = sets0[head]@.to_set();
        let l = self.alphabet@[j];
        let y = n.step(x, l);
        let len0 = sets0.len() as int;
        assert(n.alphabet.contains(l));
        lemma_step_in_states(n, x, l);
        lemma_reach_step(n, x, l);
        assert(forall|k: int| 0 <= k < len0 ==> sets1[k] == sets0[k] && labels1[k] == labels0[k]);
        // the place of the set that the step leads to
        let k2 = if labels0.contains(label) {
            choose|k: int| 0 <= k < labels0.len() && labels0[k] == label
        } else {
            len0
        };
        assert(0 <= k2 < sets1.len() && labels1[k2] == label && sets1[k2]@.to_set() == y) by {
            if labels0.contains(label) {
                assert(reach_family(n)(sets0[k2]@.to_set()));
                assert(reach_family(n)(next@.to_set()));
                assert(call_ensures(c, (&sets0[k2],), labels0[k2]));
            }
        }
        assert(self.known(c, sets1, labels1)) by {
            assert forall|k: int| 0 <= k < sets1.len() implies {
                &&& (#[trigger] sets1[k])@.to_set().subset_of(n.states)
                &&& n.reach(sets1[k]@.to_set())
                &&& call_ensures(c, (&sets1[k],), labels1[k])
            } by {
                if k < len0 {
                    assert(sets0[k]@.to_set().subset_of(n.states));
                }
            }
        }
        let key = (labels0[head], l);
        assert(m1.delta == m0.delta.insert(key, label));
        assert(m1.states =~= labels1.to_set()) by {
            assert(labels0.to_set().contains(labels0[head]));
            if !labels0.contains(label) {
                labels0.lemma_push_to_set_commute(label);
            }
        }
        assert(m1.alphabet.subset_of(n.alphabet));
        if head > 0 {
            assert(m1.alphabet =~= n.alphabet);
        }
        assert forall|p: ST| #[trigger] m1.final_states.contains(p) <==> exists|k: int|
            0 <= k < head && #[trigger] labels1[k] == p && n.hits_final(sets1[k]@.to_set()) by {
            if m1.final_states.contains(p) {
                let k = choose|k: int|
                    0 <= k < head && #[trigger] labels0[k] == p && n.hits_final(
                        sets0[k]@.to_set(),
                    );
                assert(labels1[k] == p && n.hits_final(sets1[k]@.to_set()));
            }
            if exists|k: int|
                0 <= k < head && #[trigger] labels1[k] == p && n.hits_final(sets1[k]@.to_set()) {
                let k = choose|k: int|
                    0 <= k < head && #[trigger] labels1[k] == p && n.hits_final(
                        sets1[k]@.to_set(),
                    );
                assert(labels0[k] == p && n.hits_final(sets0[k]@.to_set()));
            }
        }
        assert forall|q: (ST, LT)| #[trigger] m1.delta.dom().contains(q) implies exists|
            k: int,
            b: int,
        |
            ((0 <= k < head && 0 <= b < self.alphabet@.len()) || (k == head && 0 <= b < j + 1))
                && q == (#[trigger] labels1[k], #[trigger] self.alphabet@[b]) by {
            if q == key {
                assert(q == (labels1[head], self.alphabet@[j]));
            } else {
                assert(m0.delta.dom().contains(q));
                let (k, b) = choose|k: int, b: int|
                    ((0 <= k < head && 0 <= b < self.alphabet@.len()) || (k == head && 0 <= b < j))
                        && q == (#[trigger] labels0[k], #[trigger] self.alphabet@[b]);
                assert(q == (labels1[k], self.alphabet@[b]));
            }
        }
        assert forall|k: int, b: int|
            ((0 <= k < head && 0 <= b < self.alphabet@.len()) || (k == head && 0 <= b < j)) implies self.recorded(
        sets1, labels1, m1, k, b) by {
            assert(self.recorded(sets0, labels0, m0, k, b));
            let q = (labels0[k], self.alphabet@[b]);
            assert(q != key) by {
                if k == head {
                    assert(self.alphabet@[b] != self.alphabet@[j]);
                } else {
                    assert(labels0[k] != labels0[head]);
                }
            }
            let k3 = choose|k3: int|
                0 <= k3 < sets0.len() && (#[trigger] sets0[k3])@.to_set() == n.step(
                    sets0[k]@.to_set(),
                    self.alphabet@[b],
                ) && m0.delta[q] == labels0[k3];
            assert(sets1[k3]@.to_set() == n.step(sets1[k]@.to_set(), self.alphabet@[b])
                && m1.delta[(labels1[k], self.alphabet@[b])] == labels1[k3]);
        }
        assert(self.recorded(sets1, labels1, m1, head, j)) by {
            assert(sets1[k2]@.to_set() == n.step(sets1[head]@.to_set(), self.alphabet@[j])
                && m1.delta[(labels1[head], self.alphabet@[j])] == labels1[k2]);
        }
        assert forall|b: int| 0 <= b < j + 1 implies m1.alphabet.contains(
            #[trigger] self.alphabet@[b],
        ) by {}
    }

    /// Once the set at `head` has been taken a step on every letter and
    /// marked final where it holds a final state, it is done.
    proof fn lemma_set_done(
        &self,
        sets: Seq<Vec<ST>>,
        labels: Seq<ST>,
        m0: Dfa<ST, LT>,
        head: int,
        m1: Dfa<ST, LT>,
    )
        requires
            self.wf(),
            sets.len() == labels.len(),
            0 <= head < sets.len(),
            self.built(sets, labels, m0, head, self.alphabet@.len() as int),
            m1 == if self@.hits_final(sets[head]@.to_set()) {
                m0.add_final_state(labels[head])
            } else {
                m0
            },
        ensures
            self.built(sets, labels, m1, head + 1, 0),
    {
        broadcast use vstd::seq_lib::group_seq_properties;

        let n = self@;
        assert(m1.states =~= labels.to_set()) by {
            assert(labels.to_set().contains(labels[head]));
        }
        assert(m1.alphabet =~= n.alphabet) by {
            assert forall|l: LT| n.alphabet.contains(l) implies m1.alphabet.contains(l) by {
                let b = choose|b: int| 0 <= b < self.alphabet@.len() && self.alphabet@[b] == l;
                assert(m0.alphabet.contains(self.alphabet@[b]));
            }
        }
        assert forall|p: ST| #[trigger] m1.final_states.contains(p) <==> exists|k: int|
            0 <= k < head + 1 && #[trigger] labels[k] == p && n.hits_final(sets[k]@.to_set()) by {
            if m1.final_states.contains(p) {
                if m0.final_states.contains(p) {
                    let k = choose|k: int|
                        0 <= k < head && #[trigger] labels[k] == p && n.hits_final(
                            sets[k]@.to_set(),
                        );
                    assert(0 <= k < head + 1);
                } else {
                    assert(labels[head] == p && n.hits_final(sets[head]@.to_set()));
                }
            }
            if exists|k: int|
                0 <= k < head + 1 && #[trigger] labels[k] == p && n.hits_final(sets[k]@.to_set()) {
                let k = choose|k: int|
                    0 <= k < head + 1 && #[trigger] labels[k] == p && n.hits_final(
                        sets[k]@.to_set(),
                    );
                if k < head {
                    assert(m0.final_states.contains(p));
                }
            }
        }
        assert forall|q: (ST, LT)| #[trigger] m1.delta.dom().contains(q) implies exists|
            k: int,
            b: int,
        |
            ((0 <= k < head + 1 && 0 <= b < self.alphabet@.len()) || (k == head + 1 && 0 <= b < 0))
                && q == (#[trigger] labels[k], #[trigger] self.alphabet@[b]) by {
            let (k, b) = choose|k: int, b: int|
                ((0 <= k < head && 0 <= b < self.alphabet@.len()) || (k == head && 0 <= b
                    < self.alphabet@.len())) && q == (
                    #[trigger] labels[k],
                    #[trigger] self.alphabet@[b],
                );
            assert(0 <= k < head + 1 && q == (labels[k], self.alphabet@[b]));
        }
        assert forall|k: int, b: int|
            0 <= k < head + 1 && 0 <= b < self.alphabet@.len() implies #[trigger] self.recorded(
            sets,
            labels,
            m1,
            k,
            b,
        ) by {
            assert(self.recorded(sets, labels, m0, k, b));
        }
    }

    /// When every set that the walk has met is done, it has met every
    /// reachable set.
    proof fn lemma_all_met(&self, sets: Seq<Vec<ST>>, labels: Seq<ST>, m: Dfa<ST, LT>, w: Seq<LT>)
        requires
            self.wf(),
            sets.len() == labels.len(),
            sets.len() > 0,
            sets[0]@.to_set() == self@.start_states,
            self.built(sets, labels, m, sets.len() as int, 0),
            self@.over_alphabet(w),
        ensures
            exists|k: int| 0 <= k < sets.len() && (#[trigger] sets[k])@.to_set() == self@.after(w),
        decreases w.len(),
    {
        broadcast use vstd::seq_lib::group_seq_properties;

        if w.len() == 0 {
            assert(sets[0]@.to_set() == self@.after(w));
        } else {
            let v = w.drop_last();
            assert(self@.over_alphabet(v)) by {
                assert forall|i: int| 0 <= i < v.len() implies self@.alphabet.contains(
                    #[trigger] v[i],
                ) by {
                    assert(v[i] == w[i]);
                }
            }
            self.lemma_all_met(sets, labels, m, v);
            let k = choose|k: int|
                0 <= k < sets.len() && (#[trigger] sets[k])@.to_set() == self@.after(v);
            let l = w.last();
            assert(self@.alphabet.contains(w[w.len() - 1]));
            let b = choose|b: int| 0 <= b < self.alphabet@.len() && self.alphabet@[b] == l;
            assert(self.recorded(sets, labels, m, k, b));
            let k2 = choose|k2: int|
                0 <= k2 < sets.len() && (#[trigger] sets[k2])@.to_set() == self@.step(
                    sets[k]@.to_set(),
                    self.alphabet@[b],
                ) && m.delta[(labels[k], self.alphabet@[b])] == labels[k2];
            assert(sets[k2]@.to_set() == self@.after(w));
        }
    }

    /// The walk has met no more sets than the states have subsets.
    proof fn lemma_met_bound<F: Fn(&Vec<ST>) -> ST>(
        &self,
        c: F,
        sets: Seq<Vec<ST>>,
        labels: Seq<ST>,
    )
        requires
            self.wf(),
            canonical(c, reach_family(self@)),
            self.known(c, sets, labels),
        ensures
            subsets(self@.states).finite(),
            sets.len() <= subsets(self@.states).len(),
    {
        self.lemma_view_wf();
        lemma_subsets_finite(self@.states);
        let ss = sets.map_values(|v: Vec<ST>| v@.to_set());
        assert forall|a: int, b: int| 0 <= a < ss.len() && 0 <= b < ss.len() && a != b implies ss[a]
            != ss[b] by {
            assert(reach_family(self@)(sets[a]@.to_set()));
            assert(reach_family(self@)(sets[b]@.to_set()));
            assert(call_ensures(c, (&sets[a],), labels[a]));
            assert(call_ensures(c, (&sets[b],), labels[b]));
            assert(labels[a] != labels[b]);
        }
        ss.unique_seq_to_set();
        assert(ss.to_set().subset_of(subsets(self@.states))) by {
            assert forall|x: Set<ST>| ss.to_set().contains(x) implies subsets(
                self@.states,
            ).contains(x) by {
                let k = choose|k: int| 0 <= k < ss.len() && ss[k] == x;
                assert(sets[k]@.to_set().subset_of(self@.states));
            }
        }
        vstd::set_lib::lemma_len_subset(ss.to_set(), subsets(self@.states));
    }

    /// Once every met set is done, what the walk has built is the subset
    /// automaton, and different reachable sets have different names.
    proof fn lemma_walk_done<F: Fn(&Vec<ST>) -> ST>(
        &self,
        c: F,
        sets: Seq<Vec<ST>>,
        labels: Seq<ST>,
        m: Dfa<ST, LT>,
    )
        requires
            self.wf(),
            canonical(c, reach_family(self@)),
            self.known(c, sets, labels),
            self.built(sets, labels, m, sets.len() as int, 0),
        ensures
            determinizes_to(self@, namer(c), m),
            names_apart(self@, namer(c)),
    {
        broadcast use vstd::seq_lib::group_seq_properties;

        self.lemma_view_wf();
        let n = self@;
        let name = namer(c);
        assert forall|k: int| 0 <= k < sets.len() implies name((#[trigger] sets[k])@.to_set())
            == labels[k] by {
            lemma_namer(c, reach_family(n), sets[k], labels[k]);
        }
        assert forall|x: Set<ST>| n.reach(x) implies exists|k: int|
            0 <= k < sets.len() && (#[trigger] sets[k])@.to_set() == x by {
            let w = choose|w: Seq<LT>| n.over_alphabet(w) && #[trigger] n.after(w) == x;
            self.lemma_all_met(sets, labels, m, w);
        }
        assert(names_apart(n, name)) by {
            assert forall|x: Set<ST>, y: Set<ST>|
                n.reach(x) && n.reach(y) && #[trigger] name(x) == #[trigger] name(y) implies x
                == y by {
                let a = choose|k: int| 0 <= k < sets.len() && (#[trigger] sets[k])@.to_set() == x;
                let b = choose|k: int| 0 <= k < sets.len() && (#[trigger] sets[k])@.to_set() == y;
                assert(labels[a] == labels[b]);
            }
        }
        assert(m.alphabet == n.alphabet);
        assert forall|p: ST| #[trigger] m.states.contains(p) <==> exists|x: Set<ST>|
            n.reach(x) && #[trigger] name(x) == p by {
            if m.states.contains(p) {
                let k = choose|k: int| 0 <= k < labels.len() && labels[k] == p;
                assert(n.reach(sets[k]@.to_set()) && name(sets[k]@.to_set()) == p);
            }
            if exists|x: Set<ST>| n.reach(x) && #[trigger] name(x) == p {
                let x = choose|x: Set<ST>| n.reach(x) && #[trigger] name(x) == p;
                let k = choose|k: int| 0 <= k < sets.len() && (#[trigger] sets[k])@.to_set() == x;
                assert(labels[k] == p);
            }
        }
        assert forall|p: ST| #[trigger] m.final_states.contains(p) <==> exists|x: Set<ST>|
            n.reach(x) && n.hits_final(x) && #[trigger] name(x) == p by {
            if m.final_states.contains(p) {
                let k = choose|k: int|
                    0 <= k < sets.len() && #[trigger] labels[k] == p && n.hits_final(
                        sets[k]@.to_set(),
                    );
                let x = sets[k]@.to_set();
                assert(n.reach(x) && n.hits_final(x) && name(x) == p);
            }
            if exists|x: Set<ST>| n.reach(x) && n.hits_final(x) && #[trigger] name(x) == p {
                let x = choose|x: Set<ST>| n.reach(x) && n.hits_final(x) && #[trigger] name(x) == p;
                let k = choose|k: int| 0 <= k < sets.len() && (#[trigger] sets[k])@.to_set() == x;
                assert(labels[k] == p && n.hits_final(sets[k]@.to_set()));
            }
        }
        assert forall|q: (ST, LT)| #[trigger] m.delta.dom().contains(q) <==> n.alphabet.contains(
            q.1,
        ) && exists|x: Set<ST>| n.reach(x) && #[trigger] name(x) == q.0 by {
            if m.delta.dom().contains(q) {
                let (k, b) = choose|k: int, b: int|
                    ((0 <= k < sets.len() && 0 <= b < self.alphabet@.len()) || (k == sets.len()
                        && 0 <= b < 0)) && q == (
                        #[trigger] labels[k],
                        #[trigger] self.alphabet@[b],
                    );
                assert(n.alphabet.contains(self.alphabet@[b]));
                assert(n.reach(sets[k]@.to_set()) && name(sets[k]@.to_set()) == q.0);
            }
            if n.alphabet.contains(q.1) && exists|x: Set<ST>| n.reach(x) && #[trigger] name(x) == q.0 {
                let x = choose|x: Set<ST>| n.reach(x) && #[trigger] name(x) == q.0;
                let k = choose|k: int| 0 <= k < sets.len() && (#[trigger] sets[k])@.to_set() == x;
                let b = choose|b: int| 0 <= b < self.alphabet@.len() && self.alphabet@[b] == q.1;
                assert(self.recorded(sets, labels, m, k, b));
            }
        }
        assert forall|x: Set<ST>, l: LT| n.reach(x) && n.alphabet.contains(l) implies #[trigger] m.delta[(
            name(x),
            l,
        )] == name(n.step(x, l)) by {
            let k = choose|k: int| 0 <= k < sets.len() && (#[trigger] sets[k])@.to_set() == x;
            let b = choose|b: int| 0 <= b < self.alphabet@.len() && self.alphabet@[b] == l;
            assert(self.recorded(sets, labels, m, k, b));
            let k2 = choose|k2: int|
                0 <= k2 < sets.len() && (#[trigger] sets[k2])@.to_set() == n.step(
                    sets[k]@.to_set(),
                    self.alphabet@[b],
                ) && m.delta[(labels[k], self.alphabet@[b])] == labels[k2];
            assert(name(sets[k2]@.to_set()) == labels[k2]);
        }
    }
}

impl<ST: Ident, LT: Ident> NEA<ST, LT> {
    /// The deterministic automaton that accepts the same words: a
    /// breadth-first walk over the sets of states that the start states
    /// can reach, each set named by `state_transformer`.
    pub fn to_dea<F: Fn(&Vec<ST>) -> ST>(&self, state_transformer: F) -> (r: DEA<ST, LT>)
        requires
            self.wf(),
            canonical(state_transformer, reach_family(self@)),
        ensures
            r.wf(),
            determinizes_to(self@, namer(state_transformer), r@),
            names_apart(self@, namer(state_transformer)),
            forall|w: Seq<LT>| #[trigger] r@.accepts(w) == self@.accepts(w),
    {
        broadcast use vstd::seq_lib::group_seq_properties;

        let ghost c = state_transformer;
        let first = copy_all(&self.start_states);
        proof {
            self.lemma_view_wf();
            lemma_reach_start(self@);
            assert(first@.to_set().subset_of(self@.states));
            assert(reach_family(self@)(first@.to_set()));
        }
        let start_label = state_transformer(&first);
        let mut dea: DEA<ST, LT> = DEA::new(start_label.duplicate());
        let mut sets: Vec<Vec<ST>> = Vec::new();
        let mut labels: Vec<ST> = Vec::new();
        sets.push(first);
        labels.push(start_label);
        proof {
            assert(labels@.to_set() =~= Set::<ST>::empty().insert(labels@[0]));
            assert(self.built(sets@, labels@, dea@, 0, 0));
        }
        let mut head: usize = 0;
        while head < sets.len()
            invariant
                head <= sets@.len(),
                c == state_transformer,
                self.wf(),
                canonical(c, reach_family(self@)),
                dea.wf(),
                self.known(c, sets@, labels@),
                self.built(sets@, labels@, dea@, head as int, 0),
            decreases subsets(self@.states).len() - head,
        {
            proof {
                self.lemma_met_bound(c, sets@, labels@);
            }
            let cur = copy_all(&sets[head]);
            let cur_label = labels[head].duplicate();
            let mut j: usize = 0;
            while j < self.alphabet.len()
                invariant
                    head < sets@.len(),
                    j <= self.alphabet@.len(),
                    c == state_transformer,
                    self.wf(),
                    canonical(c, reach_family(self@)),
                    dea.wf(),
                    cur@ == sets@[head as int]@,
                    cur_label == labels@[head as int],
                    self.known(c, sets@, labels@),
                    self.built(sets@, labels@, dea@, head as int, j as int),
                decreases self.alphabet.len() - j,
            {
                let next = self.get_new_states(&cur, &self.alphabet[j]);
                proof {
                    self.lemma_view_wf();
                    lemma_step_in_states(self@, cur@.to_set(), self.alphabet@[j as int]);
                    assert(self@.alphabet.contains(self.alphabet@[j as int]));
                    assert(self@.reach(sets@[head as int]@.to_set()));
                    lemma_reach_step(self@, cur@.to_set(), self.alphabet@[j as int]);
                    assert(reach_family(self@)(next@.to_set()));
                }
                let next_label = state_transformer(&next);
                let ghost sets0 = sets@;
                let ghost labels0 = labels@;
                let ghost m0 = dea@;
                let ghost next0 = next;
                dea.add_transition(
                    cur_label.duplicate(),
                    next_label.duplicate(),
                    self.alphabet[j].duplicate(),
                );
                if !member(&labels, &next_label) {
                    sets.push(next);
                    labels.push(next_label);
                }
                proof {
                    self.lemma_explored(
                        c,
                        sets0,
                        labels0,
                        m0,
                        head as int,
                        j as int,
                        next0,
                        next_label,
                        sets@,
                        labels@,
                        dea@,
                    );
                }
                j += 1;
            }
            let ghost m0 = dea@;
            if intersects(&cur, &self.final_states) {
                proof {
                    let q = choose|q: ST|
                        cur@.contains(q) && #[trigger] self.final_states@.contains(q);
                    assert(cur@.to_set().contains(q) && self@.final_states.contains(q));
                }
                dea.add_final_state(cur_label);
            } else {
                proof {
                    if self@.hits_final(cur@.to_set()) {
                        let q = choose|q: ST|
                            cur@.to_set().contains(q) && #[trigger] self@.final_states.contains(q);
                        assert(cur@.contains(q) && self.final_states@.contains(q));
                    }
                }
            }
            proof {
                self.lemma_set_done(sets@, labels@, m0, head as int, dea@);
            }
            head += 1;
        }
        proof {
            self.lemma_walk_done(c, sets@, labels@, dea@);
            assert forall|w: Seq<LT>| #[trigger] dea@.accepts(w) == self@.accepts(w) by {
                lemma_determinized_preserves_language(self@, namer(c), dea@, w);
            }
        }
        dea
    }
}

} // verus!
