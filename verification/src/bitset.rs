//! The dense bitsets of `tindex`, seen as mathematical sets.
//!
//! Everything in this module is trusted. A bitset is opaque to the verifier;
//! [`members`] and [`members32`] name what it holds, and each function below
//! makes one call into `tindex::bitset` and states, over those names, what the
//! source of that call does. Nothing here is proved.

use tindex::TBitSet;
use vstd::prelude::*;

verus! {

#[verifier::external_type_specification]
#[verifier::external_body]
#[verifier::reject_recursive_types(I)]
pub struct ExTBitSet<I>(TBitSet<I>);

/// The members of a bitset indexed by `usize`.
pub uninterp spec fn members(s: TBitSet<usize>) -> Set<usize>;

/// The members of a bitset indexed by `u32`.
pub uninterp spec fn members32(s: TBitSet<u32>) -> Set<u32>;

/// `TBitSet::new`: a bitset without members.
#[verifier::external_body]
pub(crate) fn set_new() -> (s: TBitSet<usize>)
    ensures
        members(s) == Set::<usize>::empty(),
{
    TBitSet::new()
}

/// `TBitSet::add`: the bitset gains `i` and keeps every other member.
#[verifier::external_body]
pub(crate) fn set_add(s: &mut TBitSet<usize>, i: usize)
    ensures
        members(*final(s)) == members(*old(s)).insert(i),
{
    s.add(i)
}

/// `TBitSet::remove`: the bitset loses `i`, if it held it, and keeps every
/// other member.
#[verifier::external_body]
pub(crate) fn set_remove(s: &mut TBitSet<usize>, i: usize)
    ensures
        members(*final(s)) == members(*old(s)).remove(i),
{
    s.remove(i)
}

/// `TBitSet::get`: whether `i` is a member.
#[verifier::external_body]
pub(crate) fn set_get(s: &TBitSet<usize>, i: usize) -> (r: bool)
    ensures
        r == members(*s).contains(i),
{
    s.get(i)
}

/// `TBitSet::clear`: the bitset loses every member.
#[verifier::external_body]
pub(crate) fn set_clear(s: &mut TBitSet<usize>)
    ensures
        members(*final(s)) == Set::<usize>::empty(),
{
    s.clear()
}

/// `TBitSet::element_count`: the number of members.
#[verifier::external_body]
pub(crate) fn set_count(s: &TBitSet<usize>) -> (n: usize)
    ensures
        n == members(*s).len(),
{
    s.element_count()
}

/// `TBitSet::intersection`: the members that both bitsets hold.
#[verifier::external_body]
pub(crate) fn set_intersection(a: &TBitSet<usize>, b: &TBitSet<usize>) -> (r: TBitSet<usize>)
    ensures
        members(r) == members(*a).intersect(members(*b)),
{
    a.intersection(b)
}

/// `TBitSet::eq`: two bitsets compare equal exactly when they hold the same
/// members, whatever storage each has allocated.
#[verifier::external_body]
pub(crate) fn set_eq(a: &TBitSet<usize>, b: &TBitSet<usize>) -> (r: bool)
    ensures
        r == (members(*a) == members(*b)),
{
    a == b
}

/// `TBitSet::clone`: a bitset with the same members.
#[verifier::external_body]
pub(crate) fn set_clone(s: &TBitSet<usize>) -> (r: TBitSet<usize>)
    ensures
        members(r) == members(*s),
{
    s.clone()
}

/// `TBitSet::iter`: the members, each once, in ascending order.
#[verifier::external_body]
pub(crate) fn set_items(s: &TBitSet<usize>) -> (v: Vec<usize>)
    ensures
        forall|i: int, j: int| 0 <= i < j < v@.len() ==> v@[i] < v@[j],
        forall|i: int| 0 <= i < v@.len() ==> members(*s).contains(#[trigger] v@[i]),
        forall|x: usize| members(*s).contains(x) ==> v@.contains(x),
{
    s.iter().collect()
}

/// `TBitSet::iter` read from its back end: the largest member, or `None` for
/// a bitset without members.
#[verifier::external_body]
pub(crate) fn set_last(s: &TBitSet<usize>) -> (r: Option<usize>)
    ensures
        match r {
            Some(m) => members(*s).contains(m) && forall|x: usize|
                members(*s).contains(x) ==> x <= m,
            None => members(*s) == Set::<usize>::empty(),
        },
{
    s.iter().next_back()
}

/// `TBitSet::new`: a bitset without members.
#[verifier::external_body]
pub(crate) fn set32_new() -> (s: TBitSet<u32>)
    ensures
        members32(s) == Set::<u32>::empty(),
{
    TBitSet::new()
}

/// `TBitSet::add`: the bitset gains `i` and keeps every other member.
#[verifier::external_body]
pub(crate) fn set32_add(s: &mut TBitSet<u32>, i: u32)
    ensures
        members32(*final(s)) == members32(*old(s)).insert(i),
{
    s.add(i)
}

/// `TBitSet::remove`: the bitset loses `i`, if it held it, and keeps every
/// other member.
#[verifier::external_body]
pub(crate) fn set32_remove(s: &mut TBitSet<u32>, i: u32)
    ensures
        members32(*final(s)) == members32(*old(s)).remove(i),
{
    s.remove(i)
}

/// `TBitSet::get`: whether `i` is a member.
#[verifier::external_body]
pub(crate) fn set32_get(s: &TBitSet<u32>, i: u32) -> (r: bool)
    ensures
        r == members32(*s).contains(i),
{
    s.get(i)
}

/// `TBitSet::is_empty`: whether the bitset has no member.
#[verifier::external_body]
pub(crate) fn set32_is_empty(s: &TBitSet<u32>) -> (r: bool)
    ensures
        r == (members32(*s) == Set::<u32>::empty()),
{
    s.is_empty()
}

/// `TBitSet::contains`: whether every member of `b` is a member of `a`.
#[verifier::external_body]
pub(crate) fn set32_contains(a: &TBitSet<u32>, b: &TBitSet<u32>) -> (r: bool)
    ensures
        r == members32(*b).subset_of(members32(*a)),
{
    a.contains(b)
}

/// `TBitSet::eq`: two bitsets compare equal exactly when they hold the same
/// members, whatever storage each has allocated.
#[verifier::external_body]
pub(crate) fn set32_eq(a: &TBitSet<u32>, b: &TBitSet<u32>) -> (r: bool)
    ensures
        r == (members32(*a) == members32(*b)),
{
    a == b
}

/// `TBitSet::clone`: a bitset with the same members.
#[verifier::external_body]
pub(crate) fn set32_clone(s: &TBitSet<u32>) -> (r: TBitSet<u32>)
    ensures
        members32(r) == members32(*s),
{
    s.clone()
}

/// `TBitSet::iter`: the members, each once, in ascending order.
#[verifier::external_body]
pub(crate) fn set32_items(s: &TBitSet<u32>) -> (v: Vec<u32>)
    ensures
        forall|i: int, j: int| 0 <= i < j < v@.len() ==> v@[i] < v@[j],
        forall|i: int| 0 <= i < v@.len() ==> members32(*s).contains(#[trigger] v@[i]),
        forall|x: u32| members32(*s).contains(x) ==> v@.contains(x),
{
    s.iter().collect()
}

} // verus!
