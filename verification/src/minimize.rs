//! Minimisation of a total deterministic automaton: the pairs of states
//! that some word tells apart are marked until no more can be, and the
//! states that stay unmarked against each other are merged.

use crate::components::{
    component, connected, lemma_closed_holds_path, lemma_connected_extend, lemma_connected_refl,
    is_path,
};
use crate::dea::DEA;
use crate::dfa_model::{lemma_class_shared, Dfa};
use crate::ident::{member, position, Ident};
use crate::merge::{
    component_family, component_naming, is_component, lemma_merge_preserves_language, lemma_merged_accepts_from,
    lemma_merged_agree, lemma_merged_states, merges_only_equivalent,
};
use crate::naming::{canonical, lemma_canonical_narrow, namer, names};
use vstd::prelude::*;

verus! {

/// The entry of the table for the states at places `i` and `j`.
spec fn cell(t: Seq<Vec<bool>>, i: int, j: int) -> bool {
    t[i]@[j]
}

/// The table has `n` rows of `n` entries.
spec fn square(t: Seq<Vec<bool>>, n: int) -> bool {
    &&& t.len() == n
    &&& forall|i: int| 0 <= i < n ==> (#[trigger] t[i])@.len() == n
}

impl<ST, LT> DEA<ST, LT> {
    /// `succ[i][k]` is the place of the state that the state at place `i`
    /// goes to on the letter at place `k`.
    spec fn successors(&self, succ: Seq<Vec<usize>>) -> bool {
        &&& succ.len() == self.states@.len()
        &&& forall|i: int|
            0 <= i < succ.len() ==> (#[trigger] succ[i])@.len() == self.alphabet@.len()
        &&& forall|i: int, k: int|
            0 <= i < self.states@.len() && 0 <= k < self.alphabet@.len() ==> {
                &&& (#[trigger] succ[i]@[k]) < self.states@.len()
                &&& self@.step(self.states@[i], self.alphabet@[k]) == Some(
                    self.states@[succ[i]@[k] as int],
                )
            }
    }

    /// `fin[i]` says whether the state at place `i` is final.
    spec fn finality(&self, fin: Seq<bool>) -> bool {
        &&& fin.len() == self.states@.len()
        &&& forall|i: int|
            0 <= i < fin.len() ==> #[trigger] fin[i] == self@.final_states.contains(
                self.states@[i],
            )
    }

    /// Every marked pair of states is told apart by some word.
    spec fn sound(&self, marked: Seq<Vec<bool>>) -> bool {
        forall|i: int, j: int|
            0 <= i < self.states@.len() && 0 <= j < self.states@.len() && #[trigger] cell(
                marked,
                i,
                j,
            ) ==> self@.distinguishable(self.states@[i], self.states@[j])
    }

    /// Every pair of a final and a non-final state is marked.
    spec fn splits_finality(&self, marked: Seq<Vec<bool>>) -> bool {
        forall|i: int, j: int|
            0 <= i < self.states@.len() && 0 <= j < self.states@.len() && !#[trigger] cell(
                marked,
                i,
                j,
            ) ==> self@.final_states.contains(self.states@[i]) == self@.final_states.contains(
                self.states@[j],
            )
    }

    /// No unmarked pair goes to a marked pair on any letter.
    spec fn stable(&self, succ: Seq<Vec<usize>>, marked: Seq<Vec<bool>>) -> bool {
        forall|i: int, j: int, k: int|
            0 <= i < self.states@.len() && 0 <= j < self.states@.len() && 0 <= k
                < self.alphabet@.len() && !cell(marked, i, j) ==> !#[trigger] cell(
                marked,
                succ[i]@[k] as int,
                succ[j]@[k] as int,
            )
    }
}

impl<ST: Ident, LT: Ident> DEA<ST, LT> {
    /// Whether every state has a transition on every letter.
    pub fn is_total(&self) -> (r: bool)
        requires
            self.wf(),
        ensures
            r == self@.total(),
    {
        broadcast use vstd::seq_lib::group_seq_properties;

        let mut i: usize = 0;
        while i < self.states.len()
            invariant
                i <= self.states@.len(),
                self.wf(),
                forall|a: int, k: int|
                    0 <= a < i && 0 <= k < self.alphabet@.len() ==> self@.delta.dom().contains(
                        (#[trigger] self.states@[a], #[trigger] self.alphabet@[k]),
                    ),
            decreases self.states.len() - i,
        {
            let mut k: usize = 0;
            while k < self.alphabet.len()
                invariant
                    i < self.states@.len(),
                    k <= self.alphabet@.len(),
                    self.wf(),
                    forall|b: int|
                        0 <= b < k ==> self@.delta.dom().contains(
                            (self.states@[i as int], #[trigger] self.alphabet@[b]),
                        ),
                decreases self.alphabet.len() - k,
            {
                if self.get_new_state(&self.states[i], &self.alphabet[k]).is_none() {
                    return false;
                }
                k += 1;
            }
            i += 1;
        }
        proof {
            assert forall|s: ST, l: LT|
                self@.states.contains(s) && self@.alphabet.contains(l) implies #[trigger] self@.delta.dom().contains(
            (s, l)) by {
                let a = choose|a: int| 0 <= a < self.states@.len() && self.states@[a] == s;
                let k = choose|k: int| 0 <= k < self.alphabet@.len() && self.alphabet@[k] == l;
                assert(self@.delta.dom().contains((self.states@[a], self.alphabet@[k])));
            }
        }
        true
    }

    /// For each state, in the order of `states`, the places of the states
    /// that it goes to on each letter, in the order of `alphabet`.
    fn successor_table(&self) -> (succ: Vec<Vec<usize>>)
        requires
            self.wf(),
            self@.total(),
        ensures
            self.successors(succ@),
    {
        broadcast use vstd::seq_lib::group_seq_properties;

        proof {
            self.lemma_view_wf();
        }
        let mut succ: Vec<Vec<usize>> = Vec::new();
        let mut i: usize = 0;
        while i < self.states.len()
            invariant
                i <= self.states@.len(),
                self.wf(),
                self@.wf(),
                self@.total(),
                succ@.len() == i,
                forall|a: int| 0 <= a < i ==> (#[trigger] succ@[a])@.len() == self.alphabet@.len(),
                forall|a: int, k: int|
                    0 <= a < i && 0 <= k < self.alphabet@.len() ==> {
                        &&& (#[trigger] succ@[a]@[k]) < self.states@.len()
                        &&& self@.step(self.states@[a], self.alphabet@[k]) == Some(
                            self.states@[succ@[a]@[k] as int],
                        )
                    },
            decreases self.states.len() - i,
        {
            let mut row: Vec<usize> = Vec::new();
            let mut k: usize = 0;
            while k < self.alphabet.len()
                invariant
                    i < self.states@.len(),
                    k <= self.alphabet@.len(),
                    self.wf(),
                    self@.wf(),
                    self@.total(),
                    row@.len() == k,
                    forall|b: int|
                        0 <= b < k ==> {
                            &&& (#[trigger] row@[b]) < self.states@.len()
                            &&& self@.step(self.states@[i as int], self.alphabet@[b]) == Some(
                                self.states@[row@[b] as int],
                            )
                        },
                decreases self.alphabet.len() - k,
            {
                proof {
                    assert(self@.states.contains(self.states@[i as int]));
                    assert(self@.alphabet.contains(self.alphabet@[k as int]));
                    assert(self@.delta.dom().contains(
                        (self.states@[i as int], self.alphabet@[k as int]),
                    ));
                }
                let place: usize = match self.get_new_state(&self.states[i], &self.alphabet[k]) {
                    Some(t) => match position(&self.states, &t) {
                        Some(p) => p,
                        None => 0,
                    },
                    None => 0,
                };
                row.push(place);
                k += 1;
            }
            succ.push(row);
            i += 1;
        }
        succ
    }

    /// For each state, in the order of `states`, whether it is final.
    fn final_flags(&self) -> (fin: Vec<bool>)
        requires
            self.wf(),
        ensures
            self.finality(fin@),
    {
        let mut fin: Vec<bool> = Vec::new();
        let mut i: usize = 0;
        while i < self.states.len()
            invariant
                i <= self.states@.len(),
                fin@.len() == i,
                forall|a: int|
                    0 <= a < i ==> #[trigger] fin@[a] == self@.final_states.contains(
                        self.states@[a],
                    ),
            decreases self.states.len() - i,
        {
            fin.push(member(&self.final_states, &self.states[i]));
            i += 1;
        }
        fin
    }
}

/// Marks the entry at row `i` and column `j`.
fn mark(marked: &mut Vec<Vec<bool>>, i: usize, j: usize)
    requires
        i < old(marked)@.len(),
        j < old(marked)@[i as int]@.len(),
    ensures
        final(marked)@.len() == old(marked)@.len(),
        forall|a: int|
            0 <= a < old(marked)@.len() ==> (#[trigger] final(marked)@[a])@.len() == old(
                marked,
            )@[a]@.len(),
        forall|a: int, b: int|
            0 <= a < old(marked)@.len() && 0 <= b < old(marked)@[a]@.len() ==> #[trigger] cell(
                final(marked)@,
                a,
                b,
            ) == (cell(old(marked)@, a, b) || (a == i && b == j)),
{
    let mut row: Vec<bool> = Vec::new();
    let mut b: usize = 0;
    while b < marked[i].len()
        invariant
            i < marked@.len(),
            b <= marked@[i as int]@.len(),
            row@.len() == b,
            forall|c: int| 0 <= c < b ==> row@[c] == (marked@[i as int]@[c] || c == j),
        decreases marked@[i as int]@.len() - b,
    {
        row.push(marked[i][b] || b == j);
        b += 1;
    }
    marked.set(i, row);
}

/// Whether the states at places `i` and `j` go to a marked pair on some
/// letter.
fn goes_to_marked(succ: &Vec<Vec<usize>>, marked: &Vec<Vec<bool>>, i: usize, j: usize) -> (r: bool)
    requires
        i < succ@.len(),
        j < succ@.len(),
        succ@[i as int]@.len() == succ@[j as int]@.len(),
        square(marked@, succ@.len() as int),
        forall|k: int| 0 <= k < succ@[i as int]@.len() ==> succ@[i as int]@[k] < succ@.len(),
        forall|k: int| 0 <= k < succ@[j as int]@.len() ==> succ@[j as int]@[k] < succ@.len(),
    ensures
        r == exists|k: int|
            0 <= k < succ@[i as int]@.len() && #[trigger] cell(
                marked@,
                succ@[i as int]@[k] as int,
                succ@[j as int]@[k] as int,
            ),
{
    let mut k: usize = 0;
    while k < succ[i].len()
        invariant
            i < succ@.len(),
            j < succ@.len(),
            k <= succ@[i as int]@.len(),
            succ@[i as int]@.len() == succ@[j as int]@.len(),
            square(marked@, succ@.len() as int),
            forall|k: int| 0 <= k < succ@[i as int]@.len() ==> succ@[i as int]@[k] < succ@.len(),
            forall|k: int| 0 <= k < succ@[j as int]@.len() ==> succ@[j as int]@[k] < succ@.len(),
            forall|b: int|
                0 <= b < k ==> !#[trigger] cell(
                    marked@,
                    succ@[i as int]@[b] as int,
                    succ@[j as int]@[b] as int,
                ),
        decreases succ@[i as int]@.len() - k,
    {
        let a: usize = succ[i][k];
        let b: usize = succ[j][k];
        if marked[a][b] {
            proof {
                assert(cell(marked@, succ@[i as int]@[k as int] as int, succ@[j as int]@[k as int] as int));
            }
            return true;
        }
        k += 1;
    }
    false
}

/// If two states go on one letter to states that some word tells apart,
/// some word tells them apart too.
pub proof fn lemma_step_tells_apart<ST, LT>(d: Dfa<ST, LT>, s: ST, t: ST, l: LT, s2: ST, t2: ST)
    requires
        d.step(s, l) == Some(s2),
        d.step(t, l) == Some(t2),
        d.distinguishable(s2, t2),
    ensures
        d.distinguishable(s, t),
{
    let w2 = choose|w: Seq<LT>| d.accepts_from(s2, w) != d.accepts_from(t2, w);
    let w = seq![l] + w2;
    assert(w[0] == l);
    assert(w.drop_first() =~= w2);
    assert(d.accepts_from(s, w) == d.accepts_from(s2, w2));
    assert(d.accepts_from(t, w) == d.accepts_from(t2, w2));
}

/// Once the table is stable, no word tells the states of an unmarked pair
/// apart.
proof fn lemma_unmarked_agree<ST, LT>(
    d: DEA<ST, LT>,
    succ: Seq<Vec<usize>>,
    marked: Seq<Vec<bool>>,
    i: int,
    j: int,
    w: Seq<LT>,
)
    requires
        d.wf(),
        d.successors(succ),
        square(marked, d.states@.len() as int),
        d.splits_finality(marked),
        d.stable(succ, marked),
        0 <= i < d.states@.len(),
        0 <= j < d.states@.len(),
        !cell(marked, i, j),
    ensures
        d@.accepts_from(d.states@[i], w) == d@.accepts_from(d.states@[j], w),
    decreases w.len(),
{
    broadcast use vstd::seq_lib::group_seq_properties;

    d.lemma_view_wf();
    if w.len() > 0 {
        let l = w[0];
        if d@.alphabet.contains(l) {
            let k = choose|k: int| 0 <= k < d.alphabet@.len() && d.alphabet@[k] == l;
            let si = succ[i]@[k] as int;
            let sj = succ[j]@[k] as int;
            assert(!cell(marked, si, sj));
            lemma_unmarked_agree(d, succ, marked, si, sj, w.drop_first());
        } else {
            assert(!d@.delta.dom().contains((d.states@[i], l)));
            assert(!d@.delta.dom().contains((d.states@[j], l)));
        }
    }
}

/// The places of the table with a row below `r` and a column below `n`.
spec fn grid(r: int, n: int) -> Set<(int, int)> {
    Set::new(|p: (int, int)| 0 <= p.0 < r && 0 <= p.1 < n)
}

/// The places in row `r` with a column below `c`.
spec fn row_places(r: int, c: int) -> Set<(int, int)> {
    Set::new(|p: (int, int)| p.0 == r && 0 <= p.1 < c)
}

/// The places of an `n` by `n` table that are not marked.
spec fn unmarked(marked: Seq<Vec<bool>>, n: int) -> Set<(int, int)> {
    grid(n, n).filter(|p: (int, int)| !cell(marked, p.0, p.1))
}

proof fn lemma_row_finite(r: int, c: nat)
    ensures
        row_places(r, c as int).finite(),
    decreases c,
{
    if c == 0 {
        assert(row_places(r, 0) =~= Set::<(int, int)>::empty());
    } else {
        lemma_row_finite(r, (c - 1) as nat);
        assert(row_places(r, c as int) =~= row_places(r, c - 1).insert((r, c - 1)));
    }
}

proof fn lemma_grid_finite(r: nat, n: nat)
    ensures
        grid(r as int, n as int).finite(),
    decreases r,
{
    if r == 0 {
        assert(grid(0, n as int) =~= Set::<(int, int)>::empty());
    } else {
        lemma_grid_finite((r - 1) as nat, n);
        lemma_row_finite(r - 1, n);
        assert(grid(r as int, n as int) =~= grid(r - 1, n as int).union(
            row_places(r - 1, n as int),
        ));
    }
}

/// Marking more places leaves fewer unmarked, and strictly fewer where a
/// place is newly marked.
proof fn lemma_unmarked_shrinks(before: Seq<Vec<bool>>, after: Seq<Vec<bool>>, n: nat, newly: bool)
    requires
        forall|a: int, b: int|
            0 <= a < n && 0 <= b < n && cell(before, a, b) ==> #[trigger] cell(after, a, b),
        newly ==> exists|a: int, b: int|
            0 <= a < n && 0 <= b < n && !cell(before, a, b) && #[trigger] cell(after, a, b),
    ensures
        unmarked(after, n as int).len() <= unmarked(before, n as int).len(),
        newly ==> unmarked(after, n as int).len() < unmarked(before, n as int).len(),
{
    lemma_grid_finite(n, n);
    let ub = unmarked(before, n as int);
    let ua = unmarked(after, n as int);
    vstd::set_lib::lemma_set_subset_finite(grid(n as int, n as int), ub);
    assert(ua.subset_of(ub));
    vstd::set_lib::lemma_len_subset(ua, ub);
    if newly {
        let (a, b) = choose|a: int, b: int|
            0 <= a < n && 0 <= b < n && !cell(before, a, b) && #[trigger] cell(after, a, b);
        ua.lemma_subset_not_in_lt(ub, (a, b));
    }
}

/// The table in which exactly the pairs of a final and a non-final state
/// are marked.
fn initial_marks(fin: &Vec<bool>) -> (marked: Vec<Vec<bool>>)
    ensures
        square(marked@, fin@.len() as int),
        forall|i: int, j: int|
            0 <= i < fin@.len() && 0 <= j < fin@.len() ==> #[trigger] cell(marked@, i, j) == (
            fin@[i] != fin@[j]),
{
    let n = fin.len();
    let mut marked: Vec<Vec<bool>> = Vec::new();
    let mut i: usize = 0;
    while i < n
        invariant
            n == fin@.len(),
            i <= n,
            marked@.len() == i,
            forall|a: int| 0 <= a < i ==> (#[trigger] marked@[a])@.len() == n,
            forall|a: int, b: int|
                0 <= a < i && 0 <= b < n ==> #[trigger] cell(marked@, a, b) == (fin@[a] != fin@[b]),
        decreases n - i,
    {
        let mut row: Vec<bool> = Vec::new();
        let mut j: usize = 0;
        while j < n
            invariant
                n == fin@.len(),
                i < n,
                j <= n,
                row@.len() == j,
                forall|b: int| 0 <= b < j ==> row@[b] == (fin@[i as int] != fin@[b]),
            decreases n - j,
        {
            row.push(fin[i] != fin[j]);
            j += 1;
        }
        let ghost before = marked@;
        marked.push(row);
        proof {
            assert forall|a: int, b: int| 0 <= a < i + 1 && 0 <= b < n implies #[trigger] cell(
                marked@,
                a,
                b,
            ) == (fin@[a] != fin@[b]) by {
                if a < i {
                    assert(marked@[a] == before[a]);
                    assert(cell(before, a, b) == (fin@[a] != fin@[b]));
                }
            }
        }
        i += 1;
    }
    marked
}

impl<ST: Ident, LT: Ident> DEA<ST, LT> {
    /// One pass over the table: marks each unmarked pair that goes to a
    /// marked pair on some letter, and says whether it marked any.
    fn refine(&self, succ: &Vec<Vec<usize>>, marked: &mut Vec<Vec<bool>>) -> (changed: bool)
        requires
            self.wf(),
            self.successors(succ@),
            square(old(marked)@, self.states@.len() as int),
            self.sound(old(marked)@),
        ensures
            square(final(marked)@, self.states@.len() as int),
            self.sound(final(marked)@),
            forall|a: int, b: int|
                0 <= a < self.states@.len() && 0 <= b < self.states@.len() && cell(
                    old(marked)@,
                    a,
                    b,
                ) ==> #[trigger] cell(final(marked)@, a, b),
            !changed ==> self.stable(succ@, final(marked)@),
            changed ==> exists|a: int, b: int|
                0 <= a < self.states@.len() && 0 <= b < self.states@.len() && !cell(
                    old(marked)@,
                    a,
                    b,
                ) && #[trigger] cell(final(marked)@, a, b),
    {
        let ghost m0 = marked@;
        let n = self.states.len();
        let mut changed = false;
        let mut i: usize = 0;
        while i < n
            invariant
                n == self.states@.len(),
                i <= n,
                self.wf(),
                self.successors(succ@),
                square(marked@, n as int),
                self.sound(marked@),
                forall|a: int, b: int|
                    0 <= a < n && 0 <= b < n && cell(m0, a, b) ==> #[trigger] cell(marked@, a, b),
                !changed ==> forall|a: int, b: int, k: int|
                    0 <= a < i && 0 <= b < n && 0 <= k < self.alphabet@.len() && !cell(
                        marked@,
                        a,
                        b,
                    ) ==> !#[trigger] cell(marked@, succ@[a]@[k] as int, succ@[b]@[k] as int),
                changed ==> exists|a: int, b: int|
                    0 <= a < n && 0 <= b < n && !cell(m0, a, b) && #[trigger] cell(marked@, a, b),
            decreases n - i,
        {
            let mut j: usize = 0;
            while j < n
                invariant
                    n == self.states@.len(),
                    i < n,
                    j <= n,
                    self.wf(),
                    self.successors(succ@),
                    square(marked@, n as int),
                    self.sound(marked@),
                    forall|a: int, b: int|
                        0 <= a < n && 0 <= b < n && cell(m0, a, b) ==> #[trigger] cell(
                            marked@,
                            a,
                            b,
                        ),
                    !changed ==> forall|a: int, b: int, k: int|
                        0 <= a < i && 0 <= b < n && 0 <= k < self.alphabet@.len() && !cell(
                            marked@,
                            a,
                            b,
                        ) ==> !#[trigger] cell(marked@, succ@[a]@[k] as int, succ@[b]@[k] as int),
                    !changed ==> forall|b: int, k: int|
                        0 <= b < j && 0 <= k < self.alphabet@.len() && !cell(marked@, i as int, b)
                            ==> !#[trigger] cell(
                            marked@,
                            succ@[i as int]@[k] as int,
                            succ@[b]@[k] as int,
                        ),
                    changed ==> exists|a: int, b: int|
                        0 <= a < n && 0 <= b < n && !cell(m0, a, b) && #[trigger] cell(
                            marked@,
                            a,
                            b,
                        ),
                decreases n - j,
            {
                if !marked[i][j] && goes_to_marked(succ, marked, i, j) {
                    let ghost before = marked@;
                    proof {
                        let k = choose|k: int|
                            0 <= k < succ@[i as int]@.len() && #[trigger] cell(
                                before,
                                succ@[i as int]@[k] as int,
                                succ@[j as int]@[k] as int,
                            );
                        let si = succ@[i as int]@[k] as int;
                        let sj = succ@[j as int]@[k] as int;
                        assert(self@.distinguishable(self.states@[si], self.states@[sj]));
                        lemma_step_tells_apart(
                            self@,
                            self.states@[i as int],
                            self.states@[j as int],
                            self.alphabet@[k],
                            self.states@[si],
                            self.states@[sj],
                        );
                        assert(!cell(before, i as int, j as int));
                        assert(!cell(m0, i as int, j as int));
                    }
                    mark(marked, i, j);
                    changed = true;
                    proof {
                        assert(cell(marked@, i as int, j as int));
                        assert forall|a: int, b: int|
                            0 <= a < n && 0 <= b < n && #[trigger] cell(
                                marked@,
                                a,
                                b,
                            ) implies self@.distinguishable(self.states@[a], self.states@[b]) by {
                            if !(a == i && b == j) {
                                assert(cell(before, a, b));
                            }
                        }
                        assert forall|a: int, b: int|
                            0 <= a < n && 0 <= b < n && cell(m0, a, b) implies #[trigger] cell(
                            marked@,
                            a,
                            b,
                        ) by {
                            assert(cell(before, a, b));
                        }
                    }
                }
                j += 1;
            }
            i += 1;
        }
        changed
    }
}

/// The renaming that gives each state the name of its class.
pub open spec fn class_naming<ST, LT>(d: Dfa<ST, LT>, name: spec_fn(Set<ST>) -> ST) -> spec_fn(
    ST,
) -> ST {
    |s: ST| name(d.class_of(s))
}

/// The classes of the states of `d`.
pub open spec fn class_family<ST, LT>(d: Dfa<ST, LT>) -> spec_fn(Set<ST>) -> bool {
    |x: Set<ST>| exists|s: ST| d.states.contains(s) && x == #[trigger] d.class_of(s)
}

/// `name` gives the classes of two states the same name only where no word
/// tells the states apart.
pub open spec fn separates_classes<ST, LT>(d: Dfa<ST, LT>, name: spec_fn(Set<ST>) -> ST) -> bool {
    forall|s: ST, t: ST|
        d.states.contains(s) && d.states.contains(t) && name(d.class_of(s)) == name(d.class_of(t))
            ==> #[trigger] d.equivalent(s, t)
}

impl<ST, LT> DEA<ST, LT> {
    /// The automaton in which the states that no word tells apart are one
    /// state each, with the name that `name` gives to the class.
    pub open spec fn minimized_model(&self, name: spec_fn(Set<ST>) -> ST) -> Dfa<ST, LT> {
        self.merged(class_naming(self@, name))
    }

    /// `a` comes before `b` in `states`, and no word tells them apart.
    pub open spec fn paired(&self, a: ST, b: ST) -> bool {
        exists|i: int, j: int|
            0 <= i < j < self.states@.len() && #[trigger] self.states@[i] == a
                && #[trigger] self.states@[j] == b && self@.equivalent(a, b)
    }

    /// `p` is an unmarked pair of the table, its first state at a place
    /// before its second, and the two places before `(i, j)` in the order of
    /// the table.
    spec fn listed(&self, marked: Seq<Vec<bool>>, p: (ST, ST), i: int, j: int) -> bool {
        exists|a: int, b: int|
            0 <= a < b < self.states@.len() && (a < i || (a == i && b < j)) && !#[trigger] cell(
                marked,
                a,
                b,
            ) && p == (self.states@[a], self.states@[b])
    }
}

/// The minimised automaton accepts exactly the words that `d` accepts.
pub proof fn lemma_minimized_preserves_language<ST, LT>(
    d: DEA<ST, LT>,
    name: spec_fn(Set<ST>) -> ST,
    w: Seq<LT>,
)
    requires
        d.wf(),
        separates_classes(d@, name),
    ensures
        d.minimized_model(name).accepts(w) == d@.accepts(w),
{
    let rho = class_naming(d@, name);
    assert(merges_only_equivalent(d@, rho)) by {
        assert forall|s: ST, t: ST|
            d@.states.contains(s) && d@.states.contains(t) && rho(s) == rho(t) implies #[trigger] d@.equivalent(
        s, t) by {}
    }
    lemma_merge_preserves_language(d, rho, w);
}

/// No state of the minimised automaton can be merged with another: some
/// word tells any two of them apart.
pub proof fn lemma_minimized_is_minimal<ST, LT>(
    d: DEA<ST, LT>,
    name: spec_fn(Set<ST>) -> ST,
    p: ST,
    q: ST,
)
    requires
        d.wf(),
        separates_classes(d@, name),
        d.minimized_model(name).states.contains(p),
        d.minimized_model(name).states.contains(q),
        p != q,
    ensures
        d.minimized_model(name).distinguishable(p, q),
{
    let rho = class_naming(d@, name);
    let m = d.minimized_model(name);
    assert(merges_only_equivalent(d@, rho)) by {
        assert forall|s: ST, t: ST|
            d@.states.contains(s) && d@.states.contains(t) && rho(s) == rho(t) implies #[trigger] d@.equivalent(
        s, t) by {}
    }
    lemma_merged_states(d, rho, p);
    lemma_merged_states(d, rho, q);
    let s = choose|s: ST| d@.states.contains(s) && #[trigger] rho(s) == p;
    let t = choose|t: ST| d@.states.contains(t) && #[trigger] rho(t) == q;
    if d@.equivalent(s, t) {
        lemma_class_shared(d@, s, t);
    }
    let w = choose|w: Seq<LT>| d@.accepts_from(s, w) != d@.accepts_from(t, w);
    lemma_merged_accepts_from(d, rho, s, w);
    lemma_merged_accepts_from(d, rho, t, w);
    assert(m.accepts_from(p, w) != m.accepts_from(q, w));
}

/// The minimised automaton admits no further merge: a renaming that gives
/// two of its states the same name only where no word tells them apart
/// gives different states different names.
pub proof fn lemma_minimized_admits_no_merge<ST, LT>(
    d: DEA<ST, LT>,
    name: spec_fn(Set<ST>) -> ST,
    rho: spec_fn(ST) -> ST,
    p: ST,
    q: ST,
)
    requires
        d.wf(),
        separates_classes(d@, name),
        merges_only_equivalent(d.minimized_model(name), rho),
        d.minimized_model(name).states.contains(p),
        d.minimized_model(name).states.contains(q),
        rho(p) == rho(q),
    ensures
        p == q,
{
    let m = d.minimized_model(name);
    if p != q {
        lemma_minimized_is_minimal(d, name, p, q);
        assert(m.equivalent(p, q));
        let w = choose|w: Seq<LT>| m.accepts_from(p, w) != m.accepts_from(q, w);
        assert(m.accepts_from(p, w) == m.accepts_from(q, w));
    }
}

impl<ST: Ident, LT: Ident> DEA<ST, LT> {
    /// The table of successors and the table of marks after refining until
    /// nothing changes.
    fn marked_table(&self) -> (r: (Vec<Vec<usize>>, Vec<Vec<bool>>))
        requires
            self.wf(),
            self@.total(),
        ensures
            self.successors(r.0@),
            square(r.1@, self.states@.len() as int),
            self.sound(r.1@),
            self.splits_finality(r.1@),
            self.stable(r.0@, r.1@),
    {
        let succ = self.successor_table();
        let fin = self.final_flags();
        let mut marked = initial_marks(&fin);
        let ghost n = self.states@.len();
        proof {
            assert forall|i: int, j: int| 0 <= i < n && 0 <= j < n && #[trigger] cell(
                marked@,
                i,
                j,
            ) implies self@.distinguishable(self.states@[i], self.states@[j]) by {
                let e = Seq::<LT>::empty();
                assert(fin@[i] != fin@[j]);
                assert(self@.accepts_from(self.states@[i], e) != self@.accepts_from(
                    self.states@[j],
                    e,
                ));
            }
            assert forall|i: int, j: int| 0 <= i < n && 0 <= j < n && !#[trigger] cell(
                marked@,
                i,
                j,
            ) implies self@.final_states.contains(self.states@[i]) == self@.final_states.contains(
                self.states@[j],
            ) by {
                assert(fin@[i] == fin@[j]);
            }
        }
        let mut changed = true;
        while changed
            invariant
                n == self.states@.len(),
                self.wf(),
                self.successors(succ@),
                square(marked@, n as int),
                self.sound(marked@),
                self.splits_finality(marked@),
                !changed ==> self.stable(succ@, marked@),
            decreases
                    unmarked(marked@, n as int).len() + (if changed {
                        1int
                    } else {
                        0int
                    }),
        {
            let ghost before = marked@;
            changed = self.refine(&succ, &mut marked);
            proof {
                lemma_unmarked_shrinks(before, marked@, n, changed);
                assert forall|i: int, j: int| 0 <= i < n && 0 <= j < n && !#[trigger] cell(
                    marked@,
                    i,
                    j,
                ) implies self@.final_states.contains(self.states@[i])
                    == self@.final_states.contains(self.states@[j]) by {
                    assert(!cell(before, i, j));
                }
            }
        }
        (succ, marked)
    }

    /// The pairs of distinct states that no word tells apart, each pair
    /// once, its first state before its second in `states`.
    pub fn equivalent_pairs(&self) -> (pairs: Vec<(ST, ST)>)
        requires
            self.wf(),
            self@.total(),
        ensures
            pairs@.no_duplicates(),
            forall|a: ST, b: ST| #[trigger] pairs@.contains((a, b)) <==> self.paired(a, b),
    {
        let (succ, marked) = self.marked_table();
        let n = self.states.len();
        let mut pairs: Vec<(ST, ST)> = Vec::new();
        let mut i: usize = 0;
        while i < n
            invariant
                n == self.states@.len(),
                i <= n,
                self.wf(),
                square(marked@, n as int),
                pairs@.no_duplicates(),
                forall|x: int|
                    0 <= x < pairs@.len() ==> self.listed(marked@, #[trigger] pairs@[x], i as int, 0),
                forall|a: int, b: int|
                    0 <= a < i && a < b < n && !#[trigger] cell(marked@, a, b) ==> pairs@.contains(
                        (self.states@[a], self.states@[b]),
                    ),
            decreases n - i,
        {
            let mut j: usize = i + 1;
            proof {
                assert forall|x: int| 0 <= x < pairs@.len() implies self.listed(
                    marked@,
                    #[trigger] pairs@[x],
                    i as int,
                    i + 1,
                ) by {
                    self.lemma_listed_later(marked@, pairs@[x], i as int, 0, i as int, i + 1);
                }
            }
            while j < n
                invariant
                    n == self.states@.len(),
                    i < n,
                    i < j <= n,
                    self.wf(),
                    square(marked@, n as int),
                    pairs@.no_duplicates(),
                    forall|x: int|
                        0 <= x < pairs@.len() ==> self.listed(
                            marked@,
                            #[trigger] pairs@[x],
                            i as int,
                            j as int,
                        ),
                    forall|a: int, b: int|
                        0 <= a < i && a < b < n && !#[trigger] cell(marked@, a, b)
                            ==> pairs@.contains((self.states@[a], self.states@[b])),
                    forall|b: int|
                        i < b < j && !#[trigger] cell(marked@, i as int, b) ==> pairs@.contains(
                            (self.states@[i as int], self.states@[b]),
                        ),
                decreases n - j,
            {
                let ghost before = pairs@;
                if !marked[i][j] {
                    pairs.push((self.states[i].duplicate(), self.states[j].duplicate()));
                    proof {
                        let last = pairs@.len() - 1;
                        let p = (self.states@[i as int], self.states@[j as int]);
                        assert(!cell(marked@, i as int, j as int));
                        assert(pairs@[last] == p);
                        assert forall|x: int| 0 <= x < last implies pairs@[x] != p by {
                            assert(pairs@[x] == before[x]);
                            assert(self.listed(marked@, before[x], i as int, j as int));
                            let (a, b) = choose|a: int, b: int|
                                0 <= a < b < n && (a < i || (a == i && b < j)) && !#[trigger] cell(
                                    marked@,
                                    a,
                                    b,
                                ) && before[x] == (self.states@[a], self.states@[b]);
                            if a != i {
                                assert(self.states@[a] != self.states@[i as int]);
                            } else {
                                assert(self.states@[b] != self.states@[j as int]);
                            }
                        }
                        assert(pairs@.no_duplicates()) by {
                            assert forall|x: int, y: int|
                                0 <= x < pairs@.len() && 0 <= y < pairs@.len() && x != y implies pairs@[x]
                                != pairs@[y] by {
                                if x < last && y < last {
                                    assert(before[x] != before[y]);
                                }
                            }
                        }
                        assert forall|p2: (ST, ST)| before.contains(p2) implies pairs@.contains(
                            p2,
                        ) by {
                            let x = choose|x: int| 0 <= x < before.len() && before[x] == p2;
                            assert(pairs@[x] == p2);
                        }
                    }
                }
                proof {
                    assert forall|x: int| 0 <= x < pairs@.len() implies self.listed(
                        marked@,
                        #[trigger] pairs@[x],
                        i as int,
                        j + 1,
                    ) by {
                        if x < before.len() {
                            assert(pairs@[x] == before[x]);
                            self.lemma_listed_later(
                                marked@,
                                before[x],
                                i as int,
                                j as int,
                                i as int,
                                j + 1,
                            );
                        }
                    }
                }
                j += 1;
            }
            proof {
                assert forall|x: int| 0 <= x < pairs@.len() implies self.listed(
                    marked@,
                    #[trigger] pairs@[x],
                    i + 1,
                    0,
                ) by {
                    self.lemma_listed_later(marked@, pairs@[x], i as int, j as int, i + 1, 0);
                }
            }
            i += 1;
        }
        proof {
            assert forall|a: ST, b: ST| #[trigger] pairs@.contains((a, b)) <==> self.paired(a, b) by {
                if pairs@.contains((a, b)) {
                    let x = choose|x: int| 0 <= x < pairs@.len() && pairs@[x] == (a, b);
                    assert(self.listed(marked@, pairs@[x], n as int, 0));
                    let (i, j) = choose|i: int, j: int|
                        0 <= i < j < n && (i < n || (i == n && j < 0)) && !#[trigger] cell(
                            marked@,
                            i,
                            j,
                        ) && (a, b) == (self.states@[i], self.states@[j]);
                    assert forall|w: Seq<LT>| self@.accepts_from(a, w) == self@.accepts_from(
                        b,
                        w,
                    ) by {
                        lemma_unmarked_agree(*self, succ@, marked@, i, j, w);
                    }
                    assert(self.states@[i] == a && self.states@[j] == b);
                }
                if self.paired(a, b) {
                    let (i, j) = choose|i: int, j: int|
                        0 <= i < j < n && #[trigger] self.states@[i] == a
                            && #[trigger] self.states@[j] == b && self@.equivalent(a, b);
                    if cell(marked@, i, j) {
                        let w = choose|w: Seq<LT>|
                            self@.accepts_from(a, w) != self@.accepts_from(b, w);
                        assert(self@.accepts_from(a, w) == self@.accepts_from(b, w));
                    }
                }
            }
        }
        pairs
    }

    /// A pair that is listed before one place of the table is listed before
    /// every later place.
    proof fn lemma_listed_later(
        &self,
        marked: Seq<Vec<bool>>,
        p: (ST, ST),
        i: int,
        j: int,
        i2: int,
        j2: int,
    )
        requires
            self.listed(marked, p, i, j),
            i < i2 || (i == i2 && j <= j2),
        ensures
            self.listed(marked, p, i2, j2),
    {
        let (a, b) = choose|a: int, b: int|
            0 <= a < b < self.states@.len() && (a < i || (a == i && b < j)) && !#[trigger] cell(
                marked,
                a,
                b,
            ) && p == (self.states@[a], self.states@[b]);
        assert(a < i2 || (a == i2 && b < j2));
        assert(!cell(marked, a, b));
    }

    /// The minimised automaton of a total automaton: the states that no word
    /// tells apart become one state each, named by `combiner` applied to
    /// their class. It accepts the same words, and some word tells any two
    /// of its states apart.
    pub fn minimized<F: Fn(&Vec<ST>) -> ST>(&self, combiner: F) -> (r: Self)
        requires
            self.wf(),
            self@.total(),
            canonical(combiner, class_family(self@)),
        ensures
            r.wf(),
            r@ == self.minimized_model(namer(combiner)),
            separates_classes(self@, namer(combiner)),
            forall|w: Seq<LT>| #[trigger] r@.accepts(w) == self@.accepts(w),
            forall|p: ST, q: ST|
                r@.states.contains(p) && r@.states.contains(q) && p != q
                    ==> #[trigger] r@.distinguishable(p, q),
    {
        let pairs = self.equivalent_pairs();
        let ghost c = combiner;
        proof {
            assert forall|x: int| 0 <= x < pairs@.len() implies self.states@.contains(
                (#[trigger] pairs@[x]).0,
            ) && self.states@.contains(pairs@[x].1) by {
                assert(pairs@.contains((pairs@[x].0, pairs@[x].1)));
                assert(self.paired(pairs@[x].0, pairs@[x].1));
            }
        }
        proof {
            assert forall|s: ST| self@.states.contains(s) implies self@.class_of(s) == component(
                pairs@,
                s,
            ) by {
                self.lemma_class_is_component(pairs@, s);
            }
            assert forall|x: Set<ST>| #[trigger]
                component_family(pairs@, self.states@)(x) implies class_family(self@)(x) by {
                assert(is_component(pairs@, self.states@, x));
                let root = choose|root: ST|
                    self.states@.contains(root) && x == #[trigger] component(pairs@, root);
                assert(self@.states.contains(root) && x == self@.class_of(root));
            }
            lemma_canonical_narrow(
                c,
                class_family(self@),
                component_family(pairs@, self.states@),
            );
        }
        let r = self.combine_state_pairs(&pairs, combiner);
        proof {
            let name = namer(c);
            assert forall|s: ST| self@.states.contains(s) implies #[trigger] class_naming(
                self@,
                name,
            )(s) == component_naming(pairs@, name)(s) by {}
            lemma_merged_agree(*self, class_naming(self@, name), component_naming(pairs@, name));
            assert forall|s: ST, t: ST|
                self@.states.contains(s) && self@.states.contains(t) && name(self@.class_of(s))
                    == name(self@.class_of(t)) implies #[trigger] self@.equivalent(s, t) by {
                let nm = name(self@.class_of(s));
                assert(names(c, component(pairs@, s), name(component(pairs@, s))));
                assert(names(c, component(pairs@, t), name(component(pairs@, t))));
                let v1 = choose|v: Vec<ST>|
                    v@.to_set() == self@.class_of(s) && #[trigger] call_ensures(c, (&v,), nm);
                let v2 = choose|v: Vec<ST>|
                    v@.to_set() == self@.class_of(t) && #[trigger] call_ensures(c, (&v,), nm);
                assert(class_family(self@)(v1@.to_set()));
                assert(class_family(self@)(v2@.to_set()));
                assert(self@.class_of(s) == self@.class_of(t));
                assert(self@.class_of(t).contains(t)) by {
                    assert(self@.equivalent(t, t));
                }
            }
            assert forall|w: Seq<LT>| #[trigger] r@.accepts(w) == self@.accepts(w) by {
                lemma_minimized_preserves_language(*self, name, w);
            }
            assert forall|p: ST, q: ST|
                r@.states.contains(p) && r@.states.contains(q) && p != q implies #[trigger] r@.distinguishable(
            p, q) by {
                lemma_minimized_is_minimal(*self, name, p, q);
            }
        }
        r
    }

    /// Among the states, the class of a state is its component in the graph
    /// of the pairs that no word tells apart.
    proof fn lemma_class_is_component(&self, pairs: Seq<(ST, ST)>, s: ST)
        requires
            self.wf(),
            self@.states.contains(s),
            forall|a: ST, b: ST| #[trigger] pairs.contains((a, b)) <==> self.paired(a, b),
        ensures
            self@.class_of(s) == component(pairs, s),
    {
        broadcast use vstd::seq_lib::group_seq_properties;

        let d = self@;
        let g = d.class_of(s);
        assert(d.equivalent(s, s));
        assert forall|u: ST, v: ST|
            g.contains(u) && #[trigger] crate::components::adjacent(pairs, u, v) implies g.contains(
            v,
        ) by {
            if pairs.contains((u, v)) {
                assert(self.paired(u, v));
                lemma_class_shared(d, u, v);
            } else {
                assert(self.paired(v, u));
                lemma_class_shared(d, v, u);
            }
            assert(d.class_of(u).contains(u));
            assert(d.class_of(v).contains(v)) by {
                assert(d.equivalent(v, v));
            }
            assert(d.equivalent(u, v));
            assert forall|w: Seq<LT>| d.accepts_from(s, w) == d.accepts_from(v, w) by {
                assert(d.accepts_from(s, w) == d.accepts_from(u, w));
                assert(d.accepts_from(u, w) == d.accepts_from(v, w));
            }
        }
        assert forall|t: ST| connected(pairs, s, t) implies g.contains(t) by {
            let p = choose|p: Seq<ST>| #[trigger] is_path(pairs, p) && p[0] == s && p.last() == t;
            lemma_closed_holds_path(pairs, g, p);
        }
        assert forall|t: ST| g.contains(t) implies connected(pairs, s, t) by {
            lemma_connected_refl(pairs, s);
            if t != s {
                let i = choose|i: int| 0 <= i < self.states@.len() && self.states@[i] == s;
                let j = choose|j: int| 0 <= j < self.states@.len() && self.states@[j] == t;
                if i < j {
                    assert(self.paired(s, t));
                    assert(pairs.contains((s, t)));
                } else {
                    assert(d.equivalent(t, s)) by {
                        assert forall|w: Seq<LT>| d.accepts_from(t, w) == d.accepts_from(s, w) by {
                            assert(d.accepts_from(s, w) == d.accepts_from(t, w));
                        }
                    }
                    assert(self.paired(t, s));
                    assert(pairs.contains((t, s)));
                }
                lemma_connected_extend(pairs, s, s, t);
            }
        }
        assert(g =~= component(pairs, s));
    }
}

} // verus!
