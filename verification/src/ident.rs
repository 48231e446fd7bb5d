//! Identifiers of states and letters, and vectors of them used as sets.

use vstd::prelude::*;

verus! {

/// What an automaton needs of the identifiers of its states and letters:
/// a test for equality and a way to copy one.
pub trait Ident: Sized {
    /// Whether the two identifiers are the same value.
    fn same(&self, other: &Self) -> (r: bool)
        ensures
            r == (*self == *other),
    ;

    /// A copy of the identifier.
    fn duplicate(&self) -> (r: Self)
        ensures
            r == *self,
    ;
}

impl Ident for u8 {
    fn same(&self, other: &Self) -> (r: bool) {
        *self == *other
    }

    fn duplicate(&self) -> (r: Self) {
        *self
    }
}

impl Ident for u16 {
    fn same(&self, other: &Self) -> (r: bool) {
        *self == *other
    }

    fn duplicate(&self) -> (r: Self) {
        *self
    }
}

impl Ident for u32 {
    fn same(&self, other: &Self) -> (r: bool) {
        *self == *other
    }

    fn duplicate(&self) -> (r: Self) {
        *self
    }
}

impl Ident for u64 {
    fn same(&self, other: &Self) -> (r: bool) {
        *self == *other
    }

    fn duplicate(&self) -> (r: Self) {
        *self
    }
}

impl Ident for usize {
    fn same(&self, other: &Self) -> (r: bool) {
        *self == *other
    }

    fn duplicate(&self) -> (r: Self) {
        *self
    }
}

impl Ident for char {
    fn same(&self, other: &Self) -> (r: bool) {
        *self == *other
    }

    fn duplicate(&self) -> (r: Self) {
        *self
    }
}

/// The place of the first occurrence of `x` in `v`, if it occurs.
pub fn position<T: Ident>(v: &Vec<T>, x: &T) -> (r: Option<usize>)
    ensures
        match r {
            Some(i) => i < v.len() && v@[i as int] == *x && forall|j: int|
                0 <= j < i ==> v@[j] != *x,
            None => !v@.contains(*x),
        },
{
    let mut i: usize = 0;
    while i < v.len()
        invariant
            i <= v.len(),
            forall|j: int| 0 <= j < i ==> v@[j] != *x,
        decreases v.len() - i,
    {
        if v[i].same(x) {
            return Some(i);
        }
        i += 1;
    }
    None
}

/// Whether `x` occurs in `v`.
pub fn member<T: Ident>(v: &Vec<T>, x: &T) -> (r: bool)
    ensures
        r == v@.contains(*x),
{
    position(v, x).is_some()
}

/// Appends `x` to `v` unless it occurs there already.
pub fn insert_new<T: Ident>(v: &mut Vec<T>, x: T)
    ensures
        final(v)@ == if old(v)@.contains(x) {
            old(v)@
        } else {
            old(v)@.push(x)
        },
        old(v)@.no_duplicates() ==> final(v)@.no_duplicates(),
        final(v)@.to_set() == old(v)@.to_set().insert(x),
        final(v)@.contains(x),
        forall|y: T| old(v)@.contains(y) ==> #[trigger] final(v)@.contains(y),
        final(v)@.take(old(v)@.len() as int) == old(v)@,
{
    if !member(v, &x) {
        v.push(x);
        proof {
            old(v)@.lemma_push_to_set_commute(x);
            assert(v@[v@.len() - 1] == x);
            assert forall|y: T| old(v)@.contains(y) implies #[trigger] v@.contains(y) by {
                let i = choose|i: int| 0 <= i < old(v)@.len() && old(v)@[i] == y;
                assert(v@[i] == y);
            }
        }
    } else {
        assert(v@.to_set() =~= old(v)@.to_set().insert(x));
    }
    assert(v@.take(old(v)@.len() as int) =~= old(v)@);
}

/// A copy of the vector, item by item.
pub fn copy_all<T: Ident>(v: &Vec<T>) -> (r: Vec<T>)
    ensures
        r@ == v@,
{
    let mut r: Vec<T> = Vec::new();
    let mut i: usize = 0;
    while i < v.len()
        invariant
            i <= v.len(),
            r@ == v@.take(i as int),
        decreases v.len() - i,
    {
        r.push(v[i].duplicate());
        i += 1;
    }
    r
}

/// The items of `v`, each once, in the order of their first occurrence.
pub fn distinct<T: Ident>(v: &Vec<T>) -> (r: Vec<T>)
    ensures
        r@.no_duplicates(),
        r@.to_set() == v@.to_set(),
{
    let mut r: Vec<T> = Vec::new();
    let mut i: usize = 0;
    while i < v.len()
        invariant
            i <= v.len(),
            r@.no_duplicates(),
            r@.to_set() == v@.take(i as int).to_set(),
        decreases v.len() - i,
    {
        proof {
            v@.take(i as int).lemma_push_to_set_commute(v@[i as int]);
            assert(v@.take(i as int).push(v@[i as int]) =~= v@.take(i + 1));
        }
        insert_new(&mut r, v[i].duplicate());
        i += 1;
    }
    proof {
        assert(v@.take(i as int) =~= v@);
    }
    r
}

/// Whether some item occurs in both vectors.
pub fn intersects<T: Ident>(a: &Vec<T>, b: &Vec<T>) -> (r: bool)
    ensures
        r == exists|q: T| a@.contains(q) && #[trigger] b@.contains(q),
{
    let mut i: usize = 0;
    while i < a.len()
        invariant
            i <= a.len(),
            forall|k: int| 0 <= k < i ==> !b@.contains(#[trigger] a@[k]),
        decreases a.len() - i,
    {
        if member(b, &a[i]) {
            proof {
                assert(a@.contains(a@[i as int]));
            }
            return true;
        }
        i += 1;
    }
    proof {
        assert forall|q: T| a@.contains(q) implies !#[trigger] b@.contains(q) by {
            let k = choose|k: int| 0 <= k < a@.len() && a@[k] == q;
            assert(!b@.contains(a@[k]));
        }
    }
    false
}

/// Whether no item occurs twice in `v`.
pub fn all_distinct<T: Ident>(v: &Vec<T>) -> (r: bool)
    ensures
        r == v@.no_duplicates(),
{
    let mut i: usize = 0;
    while i < v.len()
        invariant
            i <= v.len(),
            forall|a: int, b: int| 0 <= a < i && a < b < v@.len() ==> v@[a] != v@[b],
        decreases v.len() - i,
    {
        let mut j: usize = i + 1;
        while j < v.len()
            invariant
                i < v.len(),
                i < j <= v.len(),
                forall|b: int| i < b < j ==> v@[i as int] != v@[b],
            decreases v.len() - j,
        {
            if v[i].same(&v[j]) {
                return false;
            }
            j += 1;
        }
        i += 1;
    }
    proof {
        assert forall|a: int, b: int| 0 <= a < v@.len() && 0 <= b < v@.len() && a != b implies v@[a]
            != v@[b] by {
            if a < b {
                assert(v@[a] != v@[b]);
            } else {
                assert(v@[b] != v@[a]);
            }
        }
    }
    true
}

/// Whether every item of `part` occurs in `all`.
pub fn all_members<T: Ident>(part: &Vec<T>, all: &Vec<T>) -> (r: bool)
    ensures
        r == forall|i: int| 0 <= i < part@.len() ==> all@.contains(#[trigger] part@[i]),
{
    let mut i: usize = 0;
    while i < part.len()
        invariant
            i <= part.len(),
            forall|k: int| 0 <= k < i ==> all@.contains(#[trigger] part@[k]),
        decreases part.len() - i,
    {
        if !member(all, &part[i]) {
            return false;
        }
        i += 1;
    }
    true
}

} // verus!
