//! Sets of automaton states, kept in `bit_set::BitSet`.
use vstd::prelude::*;

verus! {

/// A set of state numbers, kept in a `bit_set::BitSet`.
#[verifier::external_body]
#[derive(Debug)]
pub struct StateSet {
    bits: bit_set::BitSet,
}

/// The numbers that a state set holds.
pub uninterp spec fn members(s: StateSet) -> Set<int>;

/// Relies on `BitSet::with_capacity`: a set that holds nothing.
#[verifier::external_body]
pub(crate) fn empty_set(nbits: usize) -> (r: StateSet)
    ensures
        members(r) == Set::<int>::empty(),
{
    StateSet { bits: bit_set::BitSet::with_capacity(nbits) }
}

/// Relies on `BitSet::insert`: afterwards the set holds `value` as well.
#[verifier::external_body]
pub(crate) fn insert(s: &mut StateSet, value: usize)
    ensures
        members(*final(s)) == members(*old(s)).insert(value as int),
{
    s.bits.insert(value);
}

/// Relies on `BitSet::contains`.
#[verifier::external_body]
pub(crate) fn contains(s: &StateSet, value: usize) -> (r: bool)
    ensures
        r == members(*s).contains(value as int),
{
    s.bits.contains(value)
}

/// Relies on `BitSet::clone`: the copy holds the same numbers.
#[verifier::external_body]
pub(crate) fn copy_of(s: &StateSet) -> (r: StateSet)
    ensures
        members(r) == members(*s),
{
    StateSet { bits: s.bits.clone() }
}

/// Relies on `BitSet::iter`: each member once, in increasing order.
#[verifier::external_body]
pub(crate) fn to_vec(s: &StateSet) -> (r: Vec<usize>)
    ensures
        forall|i: int, j: int| 0 <= i < j < r@.len() ==> r@[i] < r@[j],
        forall|x: int| members(*s).contains(x) <==> exists|i: int| 0 <= i < r@.len() && r@[i] == x,
{
    s.bits.iter().collect()
}

/// Relies on `BitSet`'s `==`, which compares the members in order.
#[verifier::external_body]
pub(crate) fn same_members(a: &StateSet, b: &StateSet) -> (r: bool)
    ensures
        r == (members(*a) == members(*b)),
{
    a.bits == b.bits
}

impl StateSet {
    /// A set with the same members.
    pub fn duplicate(&self) -> (r: StateSet)
        ensures
            members(r) == members(*self),
    {
        copy_of(self)
    }

    /// The members, in increasing order.
    pub fn elements(&self) -> (r: Vec<usize>)
        ensures
            forall|i: int, j: int| 0 <= i < j < r@.len() ==> r@[i] < r@[j],
            forall|x: int| members(*self).contains(x) <==> exists|i: int| 0 <= i < r@.len() && r@[i] == x,
    {
        to_vec(self)
    }
}

} // verus!
