//! Making a deterministic automaton total with a trap state.

use crate::dea::DEA;
use crate::dfa_model::Dfa;
use crate::ident::{copy_all, insert_new, Ident};
use vstd::prelude::*;

verus! {

/// The transitions of `d` together with a transition to `trap` for every
/// pair in `done` that `d` has no transition for.
pub open spec fn partly_completed<ST, LT>(d: Dfa<ST, LT>, trap: ST, done: Set<(ST, LT)>) -> Map<
    (ST, LT),
    ST,
> {
    Map::new(
        |k: (ST, LT)| d.delta.dom().contains(k) || done.contains(k),
        |k: (ST, LT)|
            if d.delta.dom().contains(k) {
                d.delta[k]
            } else {
                trap
            },
    )
}

/// Completing twice with the same trap state gives what completing once
/// gives.
pub proof fn lemma_completed_idempotent<ST, LT>(d: Dfa<ST, LT>, trap: ST)
    requires
        d.wf(),
    ensures
        d.completed(trap).completed(trap) == d.completed(trap),
{
    let once = d.completed(trap);
    let twice = once.completed(trap);
    assert(twice.states =~= once.states);
    assert(twice.delta =~= once.delta);
}

/// A completed automaton is well formed and total.
pub proof fn lemma_completed_total<ST, LT>(d: Dfa<ST, LT>, trap: ST)
    requires
        d.wf(),
    ensures
        d.completed(trap).wf(),
        d.completed(trap).total(),
{
    let c = d.completed(trap);
    let full = Set::new(|k: (ST, LT)| c.states.contains(k.0) && c.alphabet.contains(k.1));
    assert(c.delta.dom() =~= full);
    lemma_product_finite(c.states, c.alphabet);
}

/// The pairs of an item of a finite set and an item of another are
/// finitely many.
pub proof fn lemma_product_finite<A, B>(xs: Set<A>, ys: Set<B>)
    requires
        xs.finite(),
        ys.finite(),
    ensures
        Set::new(|k: (A, B)| xs.contains(k.0) && ys.contains(k.1)).finite(),
    decreases xs.len(),
{
    let all = Set::new(|k: (A, B)| xs.contains(k.0) && ys.contains(k.1));
    if xs.len() == 0 {
        assert(xs =~= Set::<A>::empty());
        assert(all =~= Set::<(A, B)>::empty());
    } else {
        let x = xs.choose();
        let rest = xs.remove(x);
        lemma_product_finite(rest, ys);
        let smaller = Set::new(|k: (A, B)| rest.contains(k.0) && ys.contains(k.1));
        let column = ys.map(|y: B| (x, y));
        ys.lemma_map_finite(|y: B| (x, y));
        assert forall|k: (A, B)| all.contains(k) <==> smaller.union(column).contains(k) by {
            if all.contains(k) && k.0 == x {
                assert(ys.contains(k.1) && k == (x, k.1));
            }
        }
        assert(all =~= smaller.union(column));
    }
}

impl<ST: Ident, LT: Ident> DEA<ST, LT> {
    /// A copy of the automaton.
    pub fn duplicate(&self) -> (r: Self)
        ensures
            r.alphabet@ == self.alphabet@,
            r.states@ == self.states@,
            r.delta@ == self.delta@,
            r.start_state == self.start_state,
            r.final_states@ == self.final_states@,
            r@ == self@,
            self.wf() ==> r.wf(),
    {
        let mut delta: Vec<(ST, ST, LT)> = Vec::new();
        let mut i: usize = 0;
        while i < self.delta.len()
            invariant
                i <= self.delta@.len(),
                delta@ == self.delta@.take(i as int),
            decreases self.delta.len() - i,
        {
            let t = &self.delta[i];
            delta.push((t.0.duplicate(), t.1.duplicate(), t.2.duplicate()));
            proof {
                assert(self.delta@.take(i + 1) =~= self.delta@.take(i as int).push(
                    self.delta@[i as int],
                ));
            }
            i += 1;
        }
        proof {
            assert(self.delta@.take(i as int) =~= self.delta@);
        }
        DEA {
            alphabet: copy_all(&self.alphabet),
            states: copy_all(&self.states),
            delta,
            start_state: self.start_state.duplicate(),
            final_states: copy_all(&self.final_states),
        }
    }

    /// The automaton made total: `trap_state` becomes a state, every pair
    /// of a state and a letter that had no transition goes to `trap_state`,
    /// and everything else stays as it was.
    pub fn completed(&self, trap_state: ST) -> (r: Self)
        requires
            self.wf(),
        ensures
            r.wf(),
            r@ == self@.completed(trap_state),
            r@.total(),
    {
        broadcast use vstd::seq_lib::group_seq_properties;

        let mut r = self.duplicate();
        insert_new(&mut r.states, trap_state.duplicate());
        let states = copy_all(&r.states);
        let alphabet = copy_all(&r.alphabet);
        let ghost d = self@;
        let ghost mut done: Set<(ST, LT)> = Set::empty();
        proof {
            self.lemma_view_wf();
            assert(r@.delta =~= partly_completed(d, trap_state, done));
        }
        let mut i: usize = 0;
        while i < states.len()
            invariant
                i <= states@.len(),
                d == self@,
                d.wf(),
                states@.to_set() == d.states.insert(trap_state),
                alphabet@.to_set() == d.alphabet,
                r.wf(),
                r@.states == d.states.insert(trap_state),
                r@.alphabet == d.alphabet,
                r@.start_state == d.start_state,
                r@.final_states == d.final_states,
                r@.delta == partly_completed(d, trap_state, done),
                forall|k: (ST, LT)| #[trigger]
                    done.contains(k) ==> states@.contains(k.0) && alphabet@.contains(k.1),
                forall|a: int, b: int|
                    0 <= a < i && 0 <= b < alphabet@.len() ==> done.contains(
                        (#[trigger] states@[a], #[trigger] alphabet@[b]),
                    ),
            decreases states.len() - i,
        {
            let mut j: usize = 0;
            while j < alphabet.len()
                invariant
                    i < states@.len(),
                    j <= alphabet@.len(),
                    d == self@,
                    d.wf(),
                    states@.to_set() == d.states.insert(trap_state),
                    alphabet@.to_set() == d.alphabet,
                    r.wf(),
                    r@.states == d.states.insert(trap_state),
                    r@.alphabet == d.alphabet,
                    r@.start_state == d.start_state,
                    r@.final_states == d.final_states,
                    r@.delta == partly_completed(d, trap_state, done),
                    forall|k: (ST, LT)| #[trigger]
                        done.contains(k) ==> states@.contains(k.0) && alphabet@.contains(k.1),
                    forall|a: int, b: int|
                        0 <= a < i && 0 <= b < alphabet@.len() ==> done.contains(
                            (#[trigger] states@[a], #[trigger] alphabet@[b]),
                        ),
                    forall|b: int|
                        0 <= b < j ==> done.contains((states@[i as int], #[trigger] alphabet@[b])),
                decreases alphabet.len() - j,
            {
                let ghost key = (states@[i as int], alphabet@[j as int]);
                let ghost before = r@;
                let ghost was = done;
                proof {
                    assert(states@.to_set().contains(key.0));
                    assert(alphabet@.to_set().contains(key.1));
                }
                if r.get_new_state(&states[i], &alphabet[j]).is_none() {
                    r.add_transition(
                        states[i].duplicate(),
                        trap_state.duplicate(),
                        alphabet[j].duplicate(),
                    );
                    proof {
                        assert(r@.states =~= d.states.insert(trap_state));
                        assert(r@.alphabet =~= d.alphabet);
                    }
                }
                proof {
                    done = was.insert(key);
                    assert(r@.delta =~= partly_completed(d, trap_state, done));
                }
                j += 1;
            }
            i += 1;
        }
        proof {
            lemma_completed_total(d, trap_state);
            assert forall|k: (ST, LT)|
                states@.contains(k.0) && alphabet@.contains(k.1) implies done.contains(k) by {
                let a = choose|a: int| 0 <= a < states@.len() && states@[a] == k.0;
                let b = choose|b: int| 0 <= b < alphabet@.len() && alphabet@[b] == k.1;
                assert(done.contains((states@[a], alphabet@[b])));
            }
            assert(r@.delta =~= d.completed(trap_state).delta);
        }
        r
    }
}

} // verus!
