//! Visit-sets: `smallbitset::Set64` seen as a mathematical set of destination
//! indices. Nothing in this file is proved: each function states what the
//! bitset operation it calls does to the members of the set.

use vstd::prelude::*;
use smallbitset::Set64;

verus! {

/// `smallbitset::Set64`: a set of indices below 64, held in one 64-bit block.
/// Nothing is known of a value but what the functions below say of its
/// members.
#[verifier::external_type_specification]
#[verifier::external_body]
pub struct ExSet64(Set64);

/// The indices whose bit is set in a `Set64`.
pub uninterp spec fn members(s: Set64) -> Set<int>;

/// `Set64::empty`: the set in which no bit is set.
#[verifier::external_body]
pub(crate) fn set_empty() -> (r: Set64)
    ensures
        members(r) == Set::<int>::empty(),
{
    Set64::empty()
}

/// `Set64::full`: the set in which each of the 64 bits is set.
#[verifier::external_body]
pub(crate) fn set_full() -> (r: Set64)
    ensures
        members(r) == Set::<int>::new(|x: int| 0 <= x < 64),
{
    Set64::full()
}

/// `Set64::singleton`: the empty set with bit `x` set. The bitset indexes its
/// one block by `x / 64`, so `x` must be below the capacity.
#[verifier::external_body]
pub(crate) fn set_singleton(x: usize) -> (r: Set64)
    requires
        x < 64,
    ensures
        members(r) == Set::<int>::empty().insert(x as int),
{
    Set64::singleton(x)
}

/// `Set64::add`: a copy of `s` with bit `x` set.
#[verifier::external_body]
pub(crate) fn set_add(s: Set64, x: usize) -> (r: Set64)
    requires
        x < 64,
    ensures
        members(r) == members(s).insert(x as int),
{
    s.add(x)
}

/// `Set64::remove`: a copy of `s` with bit `x` cleared.
#[verifier::external_body]
pub(crate) fn set_remove(s: Set64, x: usize) -> (r: Set64)
    requires
        x < 64,
    ensures
        members(r) == members(s).remove(x as int),
{
    s.remove(x)
}

/// `Set64::union`: the bitwise or of the two blocks.
#[verifier::external_body]
pub(crate) fn set_union(a: Set64, b: Set64) -> (r: Set64)
    ensures
        members(r) == members(a).union(members(b)),
{
    a.union(b)
}

/// `Set64::inter`: the bitwise and of the two blocks.
#[verifier::external_body]
pub(crate) fn set_inter(a: Set64, b: Set64) -> (r: Set64)
    ensures
        members(r) == members(a).intersect(members(b)),
{
    a.inter(b)
}

/// `Set64::diff`: the block of `a` with the bits of `b` cleared.
#[verifier::external_body]
pub(crate) fn set_diff(a: Set64, b: Set64) -> (r: Set64)
    ensures
        members(r) == members(a).difference(members(b)),
{
    a.diff(b)
}

/// `Set64::len`: the number of bits that are set.
#[verifier::external_body]
pub(crate) fn set_len(s: Set64) -> (r: usize)
    ensures
        r == members(s).len(),
{
    s.len()
}

/// `Set64::iter`: the set bits from the lowest to the highest, each once.
/// Every index that comes out is below the capacity, and every member comes
/// out.
#[verifier::external_body]
pub(crate) fn set_items(s: Set64) -> (r: Vec<usize>)
    ensures
        lists(r@, members(s)),
{
    s.iter().collect()
}

/// `items` holds the members of `s`, all below the capacity, in strictly
/// ascending order.
pub open spec fn lists(items: Seq<usize>, s: Set<int>) -> bool {
    &&& forall|i: int| 0 <= i < items.len() ==> (#[trigger] items[i]) < 64 && s.contains(items[i] as int)
    &&& forall|i: int, j: int| 0 <= i < j < items.len() ==> (#[trigger] items[i]) < (#[trigger] items[j])
    &&& forall|x: int| #[trigger] s.contains(x) ==> 0 <= x < 64 && listed(items, x)
}

/// `x` is one of `items`.
pub open spec fn listed(items: Seq<usize>, x: int) -> bool {
    exists|i: int| 0 <= i < items.len() && (#[trigger] items[i]) as int == x
}

} // verus!
