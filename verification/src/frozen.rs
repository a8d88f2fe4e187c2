//! Immutable sets of names, kept in `frozenset::FrozenSet`.

use vstd::prelude::*;
use frozenset::FrozenSet;
use crate::text::Name;

verus! {

/// Trusted: `frozenset::FrozenSet`, a hash set that can no longer change.
#[verifier::external_type_specification]
#[verifier::external_body]
#[verifier::reject_recursive_types(T)]
#[verifier::reject_recursive_types(S)]
pub struct ExFrozenSet<T, S>(FrozenSet<T, S>);

/// The names that a frozen set holds.
pub uninterp spec fn frozen_names(set: FrozenSet<String>) -> Set<Name>;

/// The names stored in a vector.
pub open spec fn names_in(names: Seq<String>) -> Set<Name> {
    Set::new(|k: Name| exists|i: int| 0 <= i < names.len() && (#[trigger] names[i])@ == k)
}

/// Trusted: `FrozenSet::from_iter` of frozenset. The frozen set holds
/// exactly the names given, however often a name was given.
#[verifier::external_body]
pub(crate) fn freeze(names: Vec<String>) -> (set: FrozenSet<String>)
    ensures
        frozen_names(set) == names_in(names@),
{
    FrozenSet::from_iter(names)
}

/// Trusted: `HashSet::len` through frozenset's `Deref`. The number of names
/// in the frozen set.
#[verifier::external_body]
pub(crate) fn frozen_len(set: &FrozenSet<String>) -> (n: usize)
    ensures
        n == frozen_names(*set).len(),
{
    set.len()
}

/// Trusted: `HashSet::iter` through frozenset's `Deref`. The names of the
/// frozen set, in no particular order.
#[verifier::external_body]
pub(crate) fn thaw(set: &FrozenSet<String>) -> (names: Vec<String>)
    ensures
        names_in(names@) == frozen_names(*set),
{
    set.iter().cloned().collect()
}

} // verus!
