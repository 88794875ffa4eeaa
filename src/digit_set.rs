//! The set of digits seen so far, kept in an `fnv::FnvHashSet`.
use vstd::prelude::*;

verus! {

#[verifier::external_type_specification]
#[verifier::external_body]
pub struct ExFnvHasher(fnv::FnvHasher);

#[verifier::external_type_specification]
#[verifier::external_body]
#[verifier::reject_recursive_types(H)]
pub struct ExBuildHasherDefault<H>(std::hash::BuildHasherDefault<H>);

/// Relies on `fnv::FnvHashSet` (std's `HashSet` hashed by `fnv::FnvHasher`) and
/// `Default`: a fresh set holds nothing.
#[verifier::external_body]
pub(crate) fn new_seen() -> (r: fnv::FnvHashSet<u8>)
    ensures
        r@ == Set::<u8>::empty(),
{
    fnv::FnvHashSet::with_capacity_and_hasher(9, Default::default())
}

/// Relies on `HashSet::insert` under `fnv::FnvBuildHasher`: the value joins the set,
/// and the result tells whether it was absent before.
#[verifier::external_body]
pub(crate) fn insert_seen(s: &mut fnv::FnvHashSet<u8>, v: u8) -> (r: bool)
    ensures
        final(s)@ == old(s)@.insert(v),
        r == !old(s)@.contains(v),
{
    s.insert(v)
}

/// Relies on `HashSet::contains` under `fnv::FnvBuildHasher`: membership in the set.
#[verifier::external_body]
pub(crate) fn seen_contains(s: &fnv::FnvHashSet<u8>, v: u8) -> (r: bool)
    ensures
        r == s@.contains(v),
{
    s.contains(&v)
}

} // verus!
