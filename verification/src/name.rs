//! Identifiers that are texts: a byte string held as a chain, so that two
//! names are the same value exactly if they hold the same bytes.

use crate::ident::Ident;
use vstd::prelude::*;

verus! {

/// A byte string: its first byte and the rest, or the end.
#[derive(Debug, PartialEq, Eq, Hash, PartialOrd, Ord)]
pub enum Name {
    End,
    Byte(u8, Box<Name>),
}

/// The name that holds the bytes of `s`.
pub open spec fn name_of(s: Seq<u8>) -> Name
    decreases s.len(),
{
    if s.len() == 0 {
        Name::End
    } else {
        Name::Byte(s[0], Box::new(name_of(s.drop_first())))
    }
}

impl Name {
    /// The bytes of the name, in order.
    pub open spec fn bytes(&self) -> Seq<u8>
        decreases self,
    {
        match self {
            Name::End => Seq::empty(),
            Name::Byte(b, rest) => seq![*b] + rest.bytes(),
        }
    }

    /// The name that holds the bytes of `s`.
    pub fn from_bytes(s: &Vec<u8>) -> (r: Name)
        ensures
            r == name_of(s@),
            r.bytes() == s@,
    {
        let mut r = Name::End;
        let mut i: usize = s.len();
        proof {
            assert(s@.skip(i as int) =~= Seq::<u8>::empty());
        }
        while i > 0
            invariant
                i <= s.len(),
                r == name_of(s@.skip(i as int)),
            decreases i,
        {
            i -= 1;
            proof {
                assert(s@.skip(i as int).drop_first() =~= s@.skip(i + 1));
            }
            r = Name::Byte(s[i], Box::new(r));
        }
        proof {
            assert(s@.skip(0) =~= s@);
            lemma_bytes_of_name(s@);
        }
        r
    }

    /// The bytes of the name, in order.
    pub fn to_bytes(&self) -> (r: Vec<u8>)
        ensures
            r@ == self.bytes(),
            name_of(r@) == *self,
    {
        let mut r: Vec<u8> = Vec::new();
        append_bytes(self, &mut r);
        proof {
            assert(Seq::<u8>::empty() + self.bytes() =~= self.bytes());
            lemma_name_of_bytes(*self);
        }
        r
    }
}

/// A name made from bytes holds those bytes.
pub proof fn lemma_bytes_of_name(s: Seq<u8>)
    ensures
        name_of(s).bytes() == s,
    decreases s.len(),
{
    if s.len() > 0 {
        lemma_bytes_of_name(s.drop_first());
        assert(seq![s[0]] + s.drop_first() =~= s);
    }
}

/// A name is made from the bytes it holds.
pub proof fn lemma_name_of_bytes(n: Name)
    ensures
        name_of(n.bytes()) == n,
    decreases n,
{
    match n {
        Name::End => {},
        Name::Byte(b, rest) => {
            lemma_name_of_bytes(*rest);
            let s = seq![b] + rest.bytes();
            assert(s.drop_first() =~= rest.bytes());
        },
    }
}

/// Appends the bytes of the name to `out`.
fn append_bytes(a: &Name, out: &mut Vec<u8>)
    ensures
        final(out)@ == old(out)@ + a.bytes(),
    decreases a,
{
    match a {
        Name::End => {
            proof {
                assert(out@ + Seq::<u8>::empty() =~= out@);
            }
        },
        Name::Byte(b, rest) => {
            proof {
                assert(out@.push(*b) + rest.bytes() =~= out@ + (seq![*b] + rest.bytes()));
            }
            out.push(*b);
            append_bytes(rest, out);
        },
    }
}

/// Whether the two names hold the same bytes.
fn same_name(a: &Name, b: &Name) -> (r: bool)
    ensures
        r == (*a == *b),
    decreases a,
{
    match a {
        Name::End => match b {
            Name::End => true,
            Name::Byte(_, _) => false,
        },
        Name::Byte(x, rest_a) => match b {
            Name::End => false,
            Name::Byte(y, rest_b) => *x == *y && same_name(rest_a, rest_b),
        },
    }
}

/// A copy of the name.
fn copy_name(a: &Name) -> (r: Name)
    ensures
        r == *a,
    decreases a,
{
    match a {
        Name::End => Name::End,
        Name::Byte(x, rest) => Name::Byte(*x, Box::new(copy_name(rest))),
    }
}

impl Ident for Name {
    fn same(&self, other: &Self) -> (r: bool) {
        same_name(self, other)
    }

    fn duplicate(&self) -> (r: Self) {
        copy_name(self)
    }
}

} // verus!
