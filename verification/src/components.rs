//! Connected components of the graph that a list of pairs of states draws.

use crate::ident::{insert_new, member, Ident};
use vstd::prelude::*;

verus! {

/// A pair of the list joins `a` and `b`, in either order.
pub open spec fn adjacent<ST>(pairs: Seq<(ST, ST)>, a: ST, b: ST) -> bool {
    pairs.contains((a, b)) || pairs.contains((b, a))
}

/// `p` is not empty and each of its states is joined to the next.
pub open spec fn is_path<ST>(pairs: Seq<(ST, ST)>, p: Seq<ST>) -> bool {
    &&& p.len() > 0
    &&& forall|k: int| 0 <= k < p.len() - 1 ==> adjacent(pairs, #[trigger] p[k], p[k + 1])
}

/// A path leads from `a` to `b`.
pub open spec fn connected<ST>(pairs: Seq<(ST, ST)>, a: ST, b: ST) -> bool {
    exists|p: Seq<ST>| #[trigger] is_path(pairs, p) && p[0] == a && p.last() == b
}

/// The states that a path from `a` leads to, `a` among them.
pub open spec fn component<ST>(pairs: Seq<(ST, ST)>, a: ST) -> Set<ST> {
    Set::new(|b: ST| connected(pairs, a, b))
}

/// Every state is connected to itself.
pub proof fn lemma_connected_refl<ST>(pairs: Seq<(ST, ST)>, a: ST)
    ensures
        connected(pairs, a, a),
{
    let p = seq![a];
    assert(is_path(pairs, p) && p[0] == a && p.last() == a);
}

/// A path can be continued by one more joined state.
pub proof fn lemma_connected_extend<ST>(pairs: Seq<(ST, ST)>, a: ST, b: ST, c: ST)
    requires
        connected(pairs, a, b),
        adjacent(pairs, b, c),
    ensures
        connected(pairs, a, c),
{
    let p = choose|p: Seq<ST>| #[trigger] is_path(pairs, p) && p[0] == a && p.last() == b;
    let q = p.push(c);
    assert forall|k: int| 0 <= k < q.len() - 1 implies adjacent(pairs, #[trigger] q[k], q[k + 1]) by {
        if k < p.len() - 1 {
            assert(q[k] == p[k] && q[k + 1] == p[k + 1]);
        }
    }
    assert(is_path(pairs, q) && q[0] == a && q.last() == c);
}

/// A path that starts where `a` leads to ends where `a` leads to.
pub proof fn lemma_connected_along<ST>(pairs: Seq<(ST, ST)>, a: ST, q: Seq<ST>)
    requires
        is_path(pairs, q),
        connected(pairs, a, q[0]),
    ensures
        connected(pairs, a, q.last()),
    decreases q.len(),
{
    if q.len() > 1 {
        let init = q.drop_last();
        assert forall|k: int| 0 <= k < init.len() - 1 implies adjacent(
            pairs,
            #[trigger] init[k],
            init[k + 1],
        ) by {
            assert(init[k] == q[k] && init[k + 1] == q[k + 1]);
        }
        lemma_connected_along(pairs, a, init);
        assert(adjacent(pairs, q[q.len() - 2], q[q.len() - 2 + 1]));
        lemma_connected_extend(pairs, a, init.last(), q.last());
    }
}

/// Being connected is transitive.
pub proof fn lemma_connected_trans<ST>(pairs: Seq<(ST, ST)>, a: ST, b: ST, c: ST)
    requires
        connected(pairs, a, b),
        connected(pairs, b, c),
    ensures
        connected(pairs, a, c),
{
    let q = choose|q: Seq<ST>| #[trigger] is_path(pairs, q) && q[0] == b && q.last() == c;
    lemma_connected_along(pairs, a, q);
}

/// Being connected is symmetric.
pub proof fn lemma_connected_sym<ST>(pairs: Seq<(ST, ST)>, a: ST, b: ST)
    requires
        connected(pairs, a, b),
    ensures
        connected(pairs, b, a),
{
    let p = choose|p: Seq<ST>| #[trigger] is_path(pairs, p) && p[0] == a && p.last() == b;
    let q = p.reverse();
    assert forall|k: int| 0 <= k < q.len() - 1 implies adjacent(pairs, #[trigger] q[k], q[k + 1]) by {
        let j = p.len() - 2 - k;
        assert(adjacent(pairs, p[j], p[j + 1]));
        assert(q[k] == p[j + 1] && q[k + 1] == p[j]);
    }
    assert(is_path(pairs, q) && q[0] == b && q.last() == a);
}

/// Connected states have the same component.
pub proof fn lemma_component_shared<ST>(pairs: Seq<(ST, ST)>, a: ST, b: ST)
    requires
        connected(pairs, a, b),
    ensures
        component(pairs, a) == component(pairs, b),
{
    assert forall|c: ST| connected(pairs, a, c) <==> connected(pairs, b, c) by {
        lemma_connected_sym(pairs, a, b);
        if connected(pairs, a, c) {
            lemma_connected_trans(pairs, b, a, c);
        }
        if connected(pairs, b, c) {
            lemma_connected_trans(pairs, a, b, c);
        }
    }
    assert(component(pairs, a) =~= component(pairs, b));
}

/// A set that is closed under the pairs holds the end of every path that
/// starts in it.
pub proof fn lemma_closed_holds_path<ST>(pairs: Seq<(ST, ST)>, g: Set<ST>, p: Seq<ST>)
    requires
        is_path(pairs, p),
        g.contains(p[0]),
        forall|u: ST, v: ST| g.contains(u) && #[trigger] adjacent(pairs, u, v) ==> g.contains(v),
    ensures
        g.contains(p.last()),
    decreases p.len(),
{
    if p.len() > 1 {
        let init = p.drop_last();
        assert forall|k: int| 0 <= k < init.len() - 1 implies adjacent(
            pairs,
            #[trigger] init[k],
            init[k + 1],
        ) by {
            assert(init[k] == p[k] && init[k + 1] == p[k + 1]);
        }
        lemma_closed_holds_path(pairs, g, init);
        assert(adjacent(pairs, p[p.len() - 2], p[p.len() - 2 + 1]));
    }
}

/// A list without repeats whose items all occur in `all` is no longer than
/// `all`.
pub proof fn lemma_sublist_len<ST>(part: Seq<ST>, all: Seq<ST>)
    requires
        part.no_duplicates(),
        forall|i: int| 0 <= i < part.len() ==> all.contains(#[trigger] part[i]),
    ensures
        part.len() <= all.len(),
{
    broadcast use vstd::seq_lib::group_seq_properties;

    part.unique_seq_to_set();
    all.lemma_cardinality_of_set();
    vstd::seq_lib::seq_to_set_is_finite(all);
    assert(part.to_set().subset_of(all.to_set()));
    vstd::set_lib::lemma_len_subset(part.to_set(), all.to_set());
}

/// Appends to `group` every state that a pair joins to the state at `head`
/// and that `group` does not hold yet.
fn absorb_neighbours<ST: Ident>(pairs: &Vec<(ST, ST)>, group: &mut Vec<ST>, head: usize)
    requires
        head < old(group)@.len(),
        old(group)@.no_duplicates(),
    ensures
        final(group)@.no_duplicates(),
        final(group)@.len() >= old(group)@.len(),
        final(group)@.take(old(group)@.len() as int) == old(group)@,
        forall|v: ST| #[trigger]
            adjacent(pairs@, old(group)@[head as int], v) ==> final(group)@.contains(v),
        forall|i: int|
            old(group)@.len() <= i < final(group)@.len() ==> adjacent(
                pairs@,
                old(group)@[head as int],
                #[trigger] final(group)@[i],
            ),
{
    let ghost cur = group@[head as int];
    let ghost n0 = group@.len() as int;
    let mut j: usize = 0;
    proof {
        assert(group@.take(n0) =~= group@);
    }
    while j < pairs.len()
        invariant
            j <= pairs@.len(),
            head < n0 <= group@.len(),
            n0 == old(group)@.len(),
            group@.take(n0) == old(group)@,
            cur == old(group)@[head as int],
            group@.no_duplicates(),
            forall|i: int|
                n0 <= i < group@.len() ==> adjacent(pairs@, cur, #[trigger] group@[i]),
            forall|i: int|
                0 <= i < j ==> ((#[trigger] pairs@[i]).0 == cur ==> group@.contains(pairs@[i].1))
                    && (pairs@[i].1 == cur ==> group@.contains(pairs@[i].0)),
        decreases pairs@.len() - j,
    {
        proof {
            assert(group@[head as int] == group@.take(n0)[head as int]);
            assert(pairs@.contains(pairs@[j as int]));
        }
        let ghost g0 = group@;
        if pairs[j].0.same(&group[head]) {
            insert_new(group, pairs[j].1.duplicate());
        }
        let ghost g1 = group@;
        proof {
            assert(g1.take(n0) =~= g0.take(n0));
        }
        if pairs[j].1.same(&group[head]) {
            insert_new(group, pairs[j].0.duplicate());
        }
        proof {
            assert(group@.take(n0) =~= g1.take(n0));
            assert forall|i: int| 0 <= i < j + 1 implies ((#[trigger] pairs@[i]).0 == cur
                ==> group@.contains(pairs@[i].1)) && (pairs@[i].1 == cur ==> group@.contains(
                pairs@[i].0,
            )) by {
                if i < j {
                    if pairs@[i].0 == cur {
                        assert(g0.contains(pairs@[i].1));
                        assert(g1.contains(pairs@[i].1));
                    }
                    if pairs@[i].1 == cur {
                        assert(g0.contains(pairs@[i].0));
                        assert(g1.contains(pairs@[i].0));
                    }
                } else {
                    if pairs@[i].0 == cur {
                        assert(g1.contains(pairs@[i].1));
                    }
                }
            }
        }
        j += 1;
    }
    proof {
        assert forall|v: ST| #[trigger] adjacent(pairs@, cur, v) implies group@.contains(v) by {
            if pairs@.contains((cur, v)) {
                let i = choose|i: int| 0 <= i < pairs@.len() && pairs@[i] == (cur, v);
                assert(pairs@[i].0 == cur);
            } else {
                let i = choose|i: int| 0 <= i < pairs@.len() && pairs@[i] == (v, cur);
                assert(pairs@[i].1 == cur);
            }
        }
    }
}

/// The component of `root`, listed once each with `root` first, in the
/// order in which a breadth-first walk along `pairs` meets its states.
pub fn component_of<ST: Ident>(states: &Vec<ST>, pairs: &Vec<(ST, ST)>, root: &ST) -> (group: Vec<
    ST,
>)
    requires
        states@.contains(*root),
        forall|i: int|
            0 <= i < pairs@.len() ==> states@.contains((#[trigger] pairs@[i]).0) && states@.contains(
                pairs@[i].1,
            ),
    ensures
        group@.no_duplicates(),
        group@.len() > 0 && group@[0] == *root,
        group@.to_set() == component(pairs@, *root),
        forall|i: int| 0 <= i < group@.len() ==> states@.contains(#[trigger] group@[i]),
{
    let mut group: Vec<ST> = Vec::new();
    group.push(root.duplicate());
    proof {
        lemma_connected_refl(pairs@, *root);
    }
    let mut head: usize = 0;
    while head < group.len()
        invariant
            head <= group@.len(),
            group@.len() > 0 && group@[0] == *root,
            group@.no_duplicates(),
            forall|i: int|
                0 <= i < pairs@.len() ==> states@.contains((#[trigger] pairs@[i]).0)
                    && states@.contains(pairs@[i].1),
            forall|i: int|
                0 <= i < group@.len() ==> states@.contains(#[trigger] group@[i]) && connected(
                    pairs@,
                    *root,
                    group@[i],
                ),
            forall|k: int, v: ST|
                0 <= k < head && #[trigger] adjacent(pairs@, group@[k], v) ==> group@.contains(v),
        decreases states@.len() - head,
    {
        proof {
            lemma_sublist_len(group@, states@);
        }
        let ghost before = group@;
        absorb_neighbours(pairs, &mut group, head);
        proof {
            let cur = before[head as int];
            assert forall|i: int| 0 <= i < group@.len() implies states@.contains(
                #[trigger] group@[i],
            ) && connected(pairs@, *root, group@[i]) by {
                if i < before.len() {
                    assert(group@[i] == group@.take(before.len() as int)[i]);
                } else {
                    let v = group@[i];
                    assert(adjacent(pairs@, cur, v));
                    lemma_connected_extend(pairs@, *root, cur, v);
                    if pairs@.contains((cur, v)) {
                        let x = choose|x: int| 0 <= x < pairs@.len() && pairs@[x] == (cur, v);
                        assert(states@.contains(pairs@[x].1));
                    } else {
                        let x = choose|x: int| 0 <= x < pairs@.len() && pairs@[x] == (v, cur);
                        assert(states@.contains(pairs@[x].0));
                    }
                }
            }
            assert forall|k: int, v: ST|
                0 <= k < head + 1 && #[trigger] adjacent(pairs@, group@[k], v) implies group@.contains(
                v,
            ) by {
                assert(group@[k] == group@.take(before.len() as int)[k]);
                if k < head {
                    assert(before.contains(v));
                    let x = choose|x: int| 0 <= x < before.len() && before[x] == v;
                    assert(group@[x] == group@.take(before.len() as int)[x]);
                }
            }
            assert(group@[0] == group@.take(before.len() as int)[0]);
        }
        head += 1;
    }
    proof {
        let g = group@.to_set();
        assert forall|u: ST, v: ST| g.contains(u) && #[trigger] adjacent(pairs@, u, v) implies g.contains(
            v,
        ) by {
            let k = choose|k: int| 0 <= k < group@.len() && group@[k] == u;
            assert(adjacent(pairs@, group@[k], v));
        }
        assert forall|b: ST| connected(pairs@, *root, b) implies g.contains(b) by {
            let p = choose|p: Seq<ST>|
                #[trigger] is_path(pairs@, p) && p[0] == *root && p.last() == b;
            assert(g.contains(group@[0]));
            lemma_closed_holds_path(pairs@, g, p);
        }
        assert(g =~= component(pairs@, *root));
    }
    group
}

/// Whether one of the groups holds `s`.
pub fn in_some_group<ST: Ident>(groups: &Vec<Vec<ST>>, s: &ST) -> (r: bool)
    ensures
        r == exists|i: int| 0 <= i < groups@.len() && (#[trigger] groups@[i])@.contains(*s),
{
    let mut i: usize = 0;
    while i < groups.len()
        invariant
            i <= groups@.len(),
            forall|k: int| 0 <= k < i ==> !(#[trigger] groups@[k])@.contains(*s),
        decreases groups.len() - i,
    {
        if member(&groups[i], s) {
            return true;
        }
        i += 1;
    }
    false
}

} // verus!
