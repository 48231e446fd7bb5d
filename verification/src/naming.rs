//! What the automata ask of the function that names a set of states.

use vstd::prelude::*;

verus! {

/// `r` is a result of `combiner` on some vector that lists the items of `s`.
pub open spec fn names<ST, F: Fn(&Vec<ST>) -> ST>(combiner: F, s: Set<ST>, r: ST) -> bool {
    exists|v: Vec<ST>| v@.to_set() == s && #[trigger] call_ensures(combiner, (&v,), r)
}

/// The name that `combiner` gives to a set: a result of `combiner` on some
/// vector that lists the items of the set.
pub open spec fn namer<ST, F: Fn(&Vec<ST>) -> ST>(combiner: F) -> spec_fn(Set<ST>) -> ST {
    |s: Set<ST>| choose|r: ST| names(combiner, s, r)
}

/// `combiner` names the sets of `family` canonically: it accepts every
/// vector that lists a set of the family, and two such vectors get the same
/// name exactly if they list the same set.
pub open spec fn canonical<ST, F: Fn(&Vec<ST>) -> ST>(
    combiner: F,
    family: spec_fn(Set<ST>) -> bool,
) -> bool {
    &&& forall|v: Vec<ST>| family(v@.to_set()) ==> #[trigger] call_requires(combiner, (&v,))
    &&& forall|v1: Vec<ST>, v2: Vec<ST>, r1: ST, r2: ST|
        family(v1@.to_set()) && family(v2@.to_set()) && #[trigger] call_ensures(
            combiner,
            (&v1,),
            r1,
        ) && #[trigger] call_ensures(combiner, (&v2,), r2) ==> (r1 == r2 <==> v1@.to_set()
            == v2@.to_set())
}

/// A `combiner` that is canonical on a family is canonical on every part
/// of the family.
pub proof fn lemma_canonical_narrow<ST, F: Fn(&Vec<ST>) -> ST>(
    combiner: F,
    wide: spec_fn(Set<ST>) -> bool,
    narrow: spec_fn(Set<ST>) -> bool,
)
    requires
        canonical(combiner, wide),
        forall|x: Set<ST>| #[trigger] narrow(x) ==> wide(x),
    ensures
        canonical(combiner, narrow),
{
}

/// Under a canonical `combiner`, a result of it on `v` is the name of the
/// set that `v` lists.
pub proof fn lemma_namer<ST, F: Fn(&Vec<ST>) -> ST>(
    combiner: F,
    family: spec_fn(Set<ST>) -> bool,
    v: Vec<ST>,
    r: ST,
)
    requires
        canonical(combiner, family),
        family(v@.to_set()),
        call_ensures(combiner, (&v,), r),
    ensures
        namer(combiner)(v@.to_set()) == r,
{
    let s = v@.to_set();
    let r2 = namer(combiner)(s);
    assert(names(combiner, s, r));
    assert(names(combiner, s, r2));
    let v2 = choose|v2: Vec<ST>| v2@.to_set() == s && #[trigger] call_ensures(combiner, (&v2,), r2);
    assert(call_ensures(combiner, (&v2,), r2));
}

} // verus!
