//! Merging groups of states of a deterministic automaton into single states.

use crate::components::{component, component_of, in_some_group, lemma_component_shared};
use crate::dea::DEA;
use crate::dfa_model::{
    endpoints, key_of, lemma_from_transitions, lemma_table_dom, lemma_table_has,
    lemma_table_lookup, table, Dfa,
};
use crate::ident::{member, Ident};
use crate::naming::{canonical, lemma_namer, namer, names};
use vstd::prelude::*;

verus! {

/// The groups as sets of states.
pub open spec fn group_sets<ST>(groups: Seq<Vec<ST>>) -> Seq<Set<ST>> {
    groups.map_values(|g: Vec<ST>| g@.to_set())
}

/// The name of the first group that holds `s`, or `s` itself where no group
/// holds it.
pub open spec fn renamed<ST>(groups: Seq<Set<ST>>, names: Seq<ST>, s: ST) -> ST
    decreases groups.len(),
{
    if groups.len() == 0 || names.len() == 0 {
        s
    } else if groups[0].contains(s) {
        names[0]
    } else {
        renamed(groups.drop_first(), names.drop_first(), s)
    }
}

/// The renaming of states that `groups` and `names` stand for.
pub open spec fn renaming<ST>(groups: Seq<Set<ST>>, names: Seq<ST>) -> spec_fn(ST) -> ST {
    |s: ST| renamed(groups, names, s)
}

/// `names` holds, group by group, a result of `combiner` on that group.
pub open spec fn named_by<ST, F: Fn(&Vec<ST>) -> ST>(
    combiner: F,
    groups: Seq<Vec<ST>>,
    names: Seq<ST>,
) -> bool {
    &&& names.len() == groups.len()
    &&& forall|i: int|
        0 <= i < groups.len() ==> call_ensures(combiner, (&groups[i],), #[trigger] names[i])
}

/// The transition `t` with both of its states renamed by `rho`.
pub open spec fn rename_transition<ST, LT>(rho: spec_fn(ST) -> ST, t: (ST, ST, LT)) -> (
    ST,
    ST,
    LT,
) {
    (rho(t.0), rho(t.1), t.2)
}

impl<ST, LT> DEA<ST, LT> {
    /// The automaton rebuilt from this one with every state renamed by
    /// `rho`: the start state, then the transitions in the order of `delta`,
    /// then the final states. States that get the same name become one.
    pub open spec fn merged(&self, rho: spec_fn(ST) -> ST) -> Dfa<ST, LT> {
        Dfa::from_transitions(
            rho(self.start_state),
            self.final_states@.map_values(rho),
            self.delta@.map_values(|t: (ST, ST, LT)| rename_transition(rho, t)),
        )
    }
}

/// The name that `groups` and `names` give to `s`.
pub fn rename_state<ST: Ident>(groups: &Vec<Vec<ST>>, names: &Vec<ST>, s: &ST) -> (r: ST)
    ensures
        r == renamed(group_sets(groups@), names@, *s),
{
    let ghost gs = group_sets(groups@);
    let mut i: usize = 0;
    proof {
        assert(gs.skip(0) =~= gs);
        assert(names@.skip(0) =~= names@);
    }
    while i < groups.len() && i < names.len()
        invariant
            i <= groups.len(),
            i <= names.len(),
            gs == group_sets(groups@),
            renamed(gs, names@, *s) == renamed(gs.skip(i as int), names@.skip(i as int), *s),
        decreases groups.len() - i,
    {
        proof {
            assert(gs.skip(i as int).drop_first() =~= gs.skip(i + 1));
            assert(names@.skip(i as int).drop_first() =~= names@.skip(i + 1));
            assert(gs.skip(i as int)[0] == groups@[i as int]@.to_set());
        }
        if member(&groups[i], s) {
            return names[i].duplicate();
        }
        i += 1;
    }
    s.duplicate()
}

impl<ST: Ident, LT: Ident> DEA<ST, LT> {
    /// The automaton in which each state that a group holds has the name of
    /// the first such group, and every other state keeps its own.
    pub fn rename_states(&self, groups: &Vec<Vec<ST>>, names: &Vec<ST>) -> (r: Self)
        ensures
            r.wf(),
            r@ == self.merged(renaming(group_sets(groups@), names@)),
    {
        let ghost rho = renaming(group_sets(groups@), names@);
        let ghost f = |t: (ST, ST, LT)| rename_transition(rho, t);
        let start = rename_state(groups, names, &self.start_state);
        let mut finals: Vec<ST> = Vec::new();
        let mut i: usize = 0;
        while i < self.final_states.len()
            invariant
                i <= self.final_states.len(),
                rho == renaming(group_sets(groups@), names@),
                finals@ == self.final_states@.take(i as int).map_values(rho),
            decreases self.final_states.len() - i,
        {
            finals.push(rename_state(groups, names, &self.final_states[i]));
            proof {
                assert(self.final_states@.take(i + 1).map_values(rho) =~= self.final_states@.take(
                    i as int,
                ).map_values(rho).push(rho(self.final_states@[i as int])));
            }
            i += 1;
        }
        let mut transitions: Vec<(ST, ST, LT)> = Vec::new();
        let mut j: usize = 0;
        while j < self.delta.len()
            invariant
                j <= self.delta.len(),
                rho == renaming(group_sets(groups@), names@),
                f == |t: (ST, ST, LT)| rename_transition(rho, t),
                transitions@ == self.delta@.take(j as int).map_values(f),
            decreases self.delta.len() - j,
        {
            let t = &self.delta[j];
            transitions.push(
                (rename_state(groups, names, &t.0), rename_state(groups, names, &t.1), t.2.duplicate()),
            );
            proof {
                assert(self.delta@.take(j + 1).map_values(f) =~= self.delta@.take(
                    j as int,
                ).map_values(f).push(f(self.delta@[j as int])));
            }
            j += 1;
        }
        proof {
            assert(self.final_states@.take(i as int) =~= self.final_states@);
            assert(self.delta@.take(j as int) =~= self.delta@);
        }
        DEA::from_transitions(start, finals, transitions)
    }

    /// Merges each group of states into one state, named by `combiner`
    /// applied to the group; a state in no group keeps its name, and one in
    /// several groups gets the name of the first.
    pub fn combine_states<F: Fn(&Vec<ST>) -> ST>(&self, groups: &Vec<Vec<ST>>, combiner: F) -> (r:
        Self)
        requires
            forall|i: int| 0 <= i < groups@.len() ==> call_requires(combiner, (&#[trigger] groups@[i],)),
        ensures
            r.wf(),
            exists|names: Seq<ST>|
                named_by(combiner, groups@, names) && r@ == self.merged(
                    renaming(group_sets(groups@), names),
                ),
    {
        let mut names: Vec<ST> = Vec::new();
        let mut i: usize = 0;
        while i < groups.len()
            invariant
                i <= groups.len(),
                forall|i: int|
                    0 <= i < groups@.len() ==> call_requires(combiner, (&#[trigger] groups@[i],)),
                named_by(combiner, groups@.take(i as int), names@),
            decreases groups.len() - i,
        {
            let name = combiner(&groups[i]);
            names.push(name);
            i += 1;
        }
        proof {
            assert(groups@.take(i as int) =~= groups@);
        }
        self.rename_states(groups, &names)
    }
}

/// `rho` gives two states of `d` the same name only where no word tells
/// them apart.
pub open spec fn merges_only_equivalent<ST, LT>(d: Dfa<ST, LT>, rho: spec_fn(ST) -> ST) -> bool {
    forall|s: ST, t: ST|
        d.states.contains(s) && d.states.contains(t) && rho(s) == rho(t) ==> #[trigger] d.equivalent(
            s,
            t,
        )
}

/// Two renamings that agree on the states of `d` merge it into the same
/// automaton.
pub proof fn lemma_merged_agree<ST, LT>(
    d: DEA<ST, LT>,
    rho1: spec_fn(ST) -> ST,
    rho2: spec_fn(ST) -> ST,
)
    requires
        d.wf(),
        forall|s: ST| d@.states.contains(s) ==> #[trigger] rho1(s) == rho2(s),
    ensures
        d.merged(rho1) == d.merged(rho2),
{
    broadcast use vstd::seq_lib::group_seq_properties;

    let f1 = |t: (ST, ST, LT)| rename_transition(rho1, t);
    let f2 = |t: (ST, ST, LT)| rename_transition(rho2, t);
    assert(d.final_states@.map_values(rho1) =~= d.final_states@.map_values(rho2));
    assert(d.delta@.map_values(f1) =~= d.delta@.map_values(f2));
}

/// Every state of the merged automaton is the name of a state of `d`.
pub proof fn lemma_merged_states<ST, LT>(d: DEA<ST, LT>, rho: spec_fn(ST) -> ST, p: ST)
    requires
        d.wf(),
        d.merged(rho).states.contains(p),
    ensures
        exists|s: ST| d@.states.contains(s) && #[trigger] rho(s) == p,
{
    broadcast use vstd::seq_lib::group_seq_properties;

    let ts = d.delta@.map_values(|t: (ST, ST, LT)| rename_transition(rho, t));
    let fs = d.final_states@.map_values(rho);
    lemma_from_transitions(rho(d.start_state), fs, ts);
    if p == rho(d.start_state) {
        assert(d@.states.contains(d.start_state));
    } else if fs.to_set().contains(p) {
        let i = choose|i: int| 0 <= i < fs.len() && fs[i] == p;
        assert(d@.states.contains(d.final_states@[i]) && rho(d.final_states@[i]) == p);
    } else {
        assert(endpoints(ts).contains(p));
        let i = choose|i: int| 0 <= i < ts.len() && ((#[trigger] ts[i]).0 == p || ts[i].1 == p);
        let t = d.delta@[i];
        assert(ts[i] == rename_transition(rho, t));
        if ts[i].0 == p {
            assert(d@.states.contains(t.0) && rho(t.0) == p);
        } else {
            assert(d@.states.contains(t.1) && rho(t.1) == p);
        }
    }
}

/// In the merged automaton a word is accepted from the name of a state
/// exactly if `d` accepts it from that state, provided that only states that
/// no word tells apart share a name.
pub proof fn lemma_merged_accepts_from<ST, LT>(
    d: DEA<ST, LT>,
    rho: spec_fn(ST) -> ST,
    s: ST,
    w: Seq<LT>,
)
    requires
        d.wf(),
        merges_only_equivalent(d@, rho),
        d@.states.contains(s),
    ensures
        d.merged(rho).accepts_from(rho(s), w) == d@.accepts_from(s, w),
    decreases w.len(),
{
    broadcast use vstd::seq_lib::group_seq_properties;

    let m = d.merged(rho);
    let ts = d.delta@.map_values(|t: (ST, ST, LT)| rename_transition(rho, t));
    let fs = d.final_states@.map_values(rho);
    lemma_from_transitions(rho(d.start_state), fs, ts);
    if w.len() == 0 {
        if m.final_states.contains(rho(s)) {
            let i = choose|i: int| 0 <= i < fs.len() && fs[i] == rho(s);
            let f = d.final_states@[i];
            assert(d@.states.contains(f));
            assert(d@.equivalent(f, s));
            assert(d@.accepts_from(f, w) == d@.accepts_from(s, w));
            assert(d@.final_states.contains(f));
        }
        if d@.final_states.contains(s) {
            let i = choose|i: int| 0 <= i < d.final_states@.len() && d.final_states@[i] == s;
            assert(fs[i] == rho(s));
        }
    } else {
        let l = w[0];
        let k = (rho(s), l);
        if m.delta.dom().contains(k) {
            lemma_table_dom(ts, k);
            let i = choose|i: int|
                0 <= i < ts.len() && key_of(#[trigger] ts[i]) == k && table(ts)[k] == ts[i].1;
            let t = d.delta@[i];
            assert(ts[i] == rename_transition(rho, t));
            lemma_table_lookup(d.delta@, i);
            assert(d@.states.contains(t.0) && d@.states.contains(t.1));
            assert(d@.equivalent(t.0, s));
            lemma_merged_accepts_from(d, rho, t.1, w.drop_first());
            assert(d@.accepts_from(t.0, w) == d@.accepts_from(s, w));
            assert(d@.step(t.0, l) == Some(t.1));
            assert(m.step(rho(s), l) == Some(rho(t.1)));
        } else {
            if d@.delta.dom().contains((s, l)) {
                lemma_table_dom(d.delta@, (s, l));
                let i = choose|i: int|
                    0 <= i < d.delta@.len() && key_of(#[trigger] d.delta@[i]) == (s, l);
                lemma_table_has(ts, i);
                assert(ts[i] == rename_transition(rho, d.delta@[i]));
            }
            assert(d@.step(s, l) is None);
        }
    }
}

/// Merging states that no word tells apart leaves the language as it was:
/// the merged automaton accepts exactly the words that `d` accepts.
pub proof fn lemma_merge_preserves_language<ST, LT>(
    d: DEA<ST, LT>,
    rho: spec_fn(ST) -> ST,
    w: Seq<LT>,
)
    requires
        d.wf(),
        merges_only_equivalent(d@, rho),
    ensures
        d.merged(rho).accepts(w) == d@.accepts(w),
{
    broadcast use vstd::seq_lib::group_seq_properties;

    let ts = d.delta@.map_values(|t: (ST, ST, LT)| rename_transition(rho, t));
    let fs = d.final_states@.map_values(rho);
    lemma_from_transitions(rho(d.start_state), fs, ts);
    lemma_merged_accepts_from(d, rho, d.start_state, w);
}

/// The renaming that gives each state the name of its component.
pub open spec fn component_naming<ST>(pairs: Seq<(ST, ST)>, name: spec_fn(Set<ST>) -> ST) -> spec_fn(
    ST,
) -> ST {
    |s: ST| name(component(pairs, s))
}

/// `g` is the component of one of the states.
pub open spec fn is_component<ST>(pairs: Seq<(ST, ST)>, states: Seq<ST>, g: Set<ST>) -> bool {
    exists|root: ST| states.contains(root) && g == #[trigger] component(pairs, root)
}

/// The components of the states.
pub open spec fn component_family<ST>(pairs: Seq<(ST, ST)>, states: Seq<ST>) -> spec_fn(
    Set<ST>,
) -> bool {
    |g: Set<ST>| is_component(pairs, states, g)
}

/// A state that some group holds is renamed to the name of a group that
/// holds it.
pub proof fn lemma_renamed_in_group<ST>(groups: Seq<Set<ST>>, names: Seq<ST>, s: ST)
    requires
        names.len() == groups.len(),
        exists|i: int| 0 <= i < groups.len() && (#[trigger] groups[i]).contains(s),
    ensures
        exists|k: int|
            0 <= k < groups.len() && (#[trigger] groups[k]).contains(s) && renamed(groups, names, s)
                == names[k],
    decreases groups.len(),
{
    if groups[0].contains(s) {
    } else {
        let i = choose|i: int| 0 <= i < groups.len() && (#[trigger] groups[i]).contains(s);
        let gs = groups.drop_first();
        let ns = names.drop_first();
        assert(gs[i - 1] == groups[i]);
        lemma_renamed_in_group(gs, ns, s);
        let k = choose|k: int|
            0 <= k < gs.len() && (#[trigger] gs[k]).contains(s) && renamed(gs, ns, s) == ns[k];
        assert(groups[k + 1] == gs[k]);
    }
}

impl<ST: Ident, LT: Ident> DEA<ST, LT> {
    /// Merges the states that the pairs join, directly or through other
    /// pairs: each component of the graph that the pairs draw on the states
    /// becomes one state, named by `combiner` applied to the component.
    pub fn combine_state_pairs<F: Fn(&Vec<ST>) -> ST>(
        &self,
        pairs: &Vec<(ST, ST)>,
        combiner: F,
    ) -> (r: Self)
        requires
            self.wf(),
            forall|i: int|
                0 <= i < pairs@.len() ==> self.states@.contains((#[trigger] pairs@[i]).0)
                    && self.states@.contains(pairs@[i].1),
            canonical(combiner, component_family(pairs@, self.states@)),
        ensures
            r.wf(),
            r@ == self.merged(component_naming(pairs@, namer(combiner))),
            forall|s: ST|
                self@.states.contains(s) ==> names(
                    combiner,
                    component(pairs@, s),
                    #[trigger] namer(combiner)(component(pairs@, s)),
                ),
    {
        let mut groups: Vec<Vec<ST>> = Vec::new();
        let mut i: usize = 0;
        while i < self.states.len()
            invariant
                i <= self.states@.len(),
                forall|i: int|
                    0 <= i < pairs@.len() ==> self.states@.contains((#[trigger] pairs@[i]).0)
                        && self.states@.contains(pairs@[i].1),
                forall|g: int|
                    0 <= g < groups@.len() ==> is_component(
                        pairs@,
                        self.states@,
                        (#[trigger] groups@[g])@.to_set(),
                    ),
                forall|k: int|
                    0 <= k < i ==> exists|g: int|
                        0 <= g < groups@.len() && (#[trigger] groups@[g])@.contains(
                            #[trigger] self.states@[k],
                        ),
            decreases self.states.len() - i,
        {
            if !in_some_group(&groups, &self.states[i]) {
                let group = component_of(&self.states, pairs, &self.states[i]);
                let ghost before = groups@;
                groups.push(group);
                proof {
                    let n = before.len() as int;
                    assert(groups@[n]@.contains(groups@[n]@[0]));
                    assert(forall|g: int| 0 <= g < n ==> groups@[g] == before[g]);
                    assert(groups@[n]@.to_set() == component(pairs@, self.states@[i as int]));
                    assert forall|k: int| 0 <= k < i + 1 implies exists|g: int|
                        0 <= g < groups@.len() && (#[trigger] groups@[g])@.contains(
                            #[trigger] self.states@[k],
                        ) by {
                        if k < i {
                            let g = choose|g: int|
                                0 <= g < before.len() && (#[trigger] before[g])@.contains(
                                    self.states@[k],
                                );
                            assert(groups@[g]@.contains(self.states@[k]));
                        } else {
                            assert(groups@[n]@.contains(self.states@[k]));
                        }
                    }
                }
            }
            i += 1;
        }
        let ghost c = combiner;
        proof {
            assert forall|g: int| 0 <= g < groups@.len() implies call_requires(
                combiner,
                (&#[trigger] groups@[g],),
            ) by {
                assert(component_family(pairs@, self.states@)(groups@[g]@.to_set()));
            }
        }
        let r = self.combine_states(&groups, combiner);
        proof {
            let gs = group_sets(groups@);
            let ns = choose|ns: Seq<ST>|
                named_by(c, groups@, ns) && r@ == self.merged(renaming(gs, ns));
            let rho1 = renaming(gs, ns);
            let rho2 = component_naming(pairs@, namer(c));
            assert forall|s: ST| self@.states.contains(s) implies #[trigger] rho1(s) == rho2(s)
                && names(c, component(pairs@, s), namer(c)(component(pairs@, s))) by {
                let k0 = choose|k: int| 0 <= k < self.states@.len() && self.states@[k] == s;
                let g0 = choose|g: int|
                    0 <= g < groups@.len() && (#[trigger] groups@[g])@.contains(self.states@[k0]);
                assert(gs[g0].contains(s));
                lemma_renamed_in_group(gs, ns, s);
                let k = choose|k: int|
                    0 <= k < gs.len() && (#[trigger] gs[k]).contains(s) && renamed(gs, ns, s)
                        == ns[k];
                assert(gs[k] == groups@[k]@.to_set());
                assert(is_component(pairs@, self.states@, groups@[k]@.to_set()));
                let root = choose|root: ST|
                    self.states@.contains(root) && groups@[k]@.to_set() == #[trigger] component(
                        pairs@,
                        root,
                    );
                assert(component(pairs@, root).contains(s));
                lemma_component_shared(pairs@, root, s);
                assert(call_ensures(c, (&groups@[k],), ns[k]));
                lemma_namer(c, component_family(pairs@, self.states@), groups@[k], ns[k]);
            }
            lemma_merged_agree(*self, rho1, rho2);
            assert forall|s: ST| self@.states.contains(s) implies names(
                c,
                component(pairs@, s),
                #[trigger] namer(c)(component(pairs@, s)),
            ) by {
                assert(rho1(s) == rho2(s));
            }
        }
        r
    }
}

} // verus!
