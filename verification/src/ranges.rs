//! Trusted interface to the `rangeset` crate.
//!
//! The transcript layer records byte positions as `rangeset::set::RangeSet<usize>`
//! values: sets of `usize` stored as sorted, disjoint, non-adjacent, non-empty
//! ranges.  The set held by such a value is modelled here by the uninterpreted
//! function [`rs_set`], and every operation the library needs is wrapped in a
//! function whose contract states, over `rs_set`, what the crate's source shows.

use vstd::prelude::*;

verus! {

/// A contiguous half-open range of integers as a mathematical set.
pub open spec fn range_set(a: int, b: int) -> Set<int> {
    Set::new(|i: int| a <= i < b)
}

#[verifier::external_type_specification]
#[verifier::external_body]
#[verifier::reject_recursive_types(T)]
pub struct ExRangeSet<T>(rangeset::set::RangeSet<T>);

/// The set of values held by a `RangeSet<usize>`.
pub uninterp spec fn rs_set(r: rangeset::set::RangeSet<usize>) -> Set<int>;

/// Relies on `rangeset::set::RangeSet::default`: the default set holds no range.
#[verifier::external_body]
pub fn rs_empty() -> (r: rangeset::set::RangeSet<usize>)
    ensures
        rs_set(r) == Set::<int>::empty(),
{
    rangeset::set::RangeSet::default()
}

/// Relies on `RangeSet::from(Range)`: the set of the values of one range,
/// empty when the range is empty.
#[verifier::external_body]
pub fn rs_range(start: usize, end: usize) -> (r: rangeset::set::RangeSet<usize>)
    ensures
        rs_set(r) == range_set(start as int, end as int),
{
    rangeset::set::RangeSet::from(start..end)
}

/// Relies on `RangeSet::clone`: the clone holds the same values.
#[verifier::external_body]
pub fn rs_clone(a: &rangeset::set::RangeSet<usize>) -> (r: rangeset::set::RangeSet<usize>)
    ensures
        rs_set(r) == rs_set(*a),
{
    a.clone()
}

/// Relies on `RangeSet::union_mut`: afterwards the set holds the values of both.
#[verifier::external_body]
pub fn rs_union(
    a: &rangeset::set::RangeSet<usize>,
    b: &rangeset::set::RangeSet<usize>,
) -> (r: rangeset::set::RangeSet<usize>)
    ensures
        rs_set(r) == rs_set(*a).union(rs_set(*b)),
{
    let mut r = a.clone();
    r.union_mut(b);
    r
}

/// Relies on `RangeSet::difference_mut`: afterwards the set holds the values
/// of `a` that are not in `b`.
#[verifier::external_body]
pub fn rs_difference(
    a: &rangeset::set::RangeSet<usize>,
    b: &rangeset::set::RangeSet<usize>,
) -> (r: rangeset::set::RangeSet<usize>)
    ensures
        rs_set(r) == rs_set(*a).difference(rs_set(*b)),
{
    let mut r = a.clone();
    r.difference_mut(b);
    r
}

/// Relies on `rangeset::ops::Set::is_subset`: whether every value of `a` is
/// a value of `b`.
#[verifier::external_body]
pub fn rs_is_subset(
    a: &rangeset::set::RangeSet<usize>,
    b: &rangeset::set::RangeSet<usize>,
) -> (r: bool)
    ensures
        r == rs_set(*a).subset_of(rs_set(*b)),
{
    rangeset::ops::Set::is_subset(a, b)
}

/// Relies on `RangeSet::contains`: membership in the stored ranges.
#[verifier::external_body]
pub fn rs_contains(a: &rangeset::set::RangeSet<usize>, v: usize) -> (r: bool)
    ensures
        r == rs_set(*a).contains(v as int),
{
    a.contains(&v)
}

/// Relies on `RangeSet::min`: the start of the first stored range, which by
/// the crate's invariant (sorted, non-empty ranges) is the least value, and
/// `None` exactly when the set is empty.
#[verifier::external_body]
pub fn rs_min(a: &rangeset::set::RangeSet<usize>) -> (r: Option<usize>)
    ensures
        r is None <==> rs_set(*a) == Set::<int>::empty(),
        r matches Some(m) ==> rs_set(*a).contains(m as int) && (forall|i: int|
            rs_set(*a).contains(i) ==> m as int <= i),
{
    a.min()
}

/// Relies on `RangeSet::max`: one less than the end of the last stored range,
/// which by the crate's invariant is the greatest value, and `None` exactly
/// when the set is empty.
#[verifier::external_body]
pub fn rs_max(a: &rangeset::set::RangeSet<usize>) -> (r: Option<usize>)
    ensures
        r is None <==> rs_set(*a) == Set::<int>::empty(),
        r matches Some(m) ==> rs_set(*a).contains(m as int) && (forall|i: int|
            rs_set(*a).contains(i) ==> i <= m as int),
{
    a.max()
}

/// Relies on `RangeSet::iter`: the stored ranges in order.  By the crate's
/// invariant they are sorted, non-adjacent, non-intersecting and non-empty,
/// and together they hold exactly the values of the set.
#[verifier::external_body]
pub fn rs_ranges(a: &rangeset::set::RangeSet<usize>) -> (r: Vec<(usize, usize)>)
    ensures
        forall|k: int| 0 <= k < r@.len() ==> (#[trigger] r@[k]).0 < r@[k].1,
        forall|k: int, l: int|
            0 <= k < l < r@.len() ==> (#[trigger] r@[k]).1 < (#[trigger] r@[l]).0,
        forall|i: int|
            rs_set(*a).contains(i) <==> exists|k: int|
                0 <= k < r@.len() && (#[trigger] r@[k]).0 <= i < r@[k].1,
{
    a.iter().map(|rg| (rg.start, rg.end)).collect()
}

} // verus!
