//! Walking the keys of a table one by one: what has been seen of a filtered
//! key set after the first few keys.

use vstd::prelude::*;
use crate::text::Name;

verus! {

/// The keys among the first `i` of `names`.
pub open spec fn first_keys(names: Seq<Name>, i: int) -> Set<Name> {
    Set::new(|k: Name| exists|j: int| 0 <= j < i && j < names.len() && names[j] == k)
}

/// Before any key is seen, no key has passed the filter.
pub proof fn lemma_first_keys_none(names: Seq<Name>, p: spec_fn(Name) -> bool)
    ensures
        first_keys(names, 0).filter(p) == Set::<Name>::empty(),
        first_keys(names, 0).filter(p).len() == 0,
{
    assert(first_keys(names, 0).filter(p) =~= Set::<Name>::empty());
}

/// The filtered keys among the first `i` are finitely many, at most `i`.
pub proof fn lemma_first_keys_bound(names: Seq<Name>, i: int, p: spec_fn(Name) -> bool)
    requires
        0 <= i <= names.len(),
    ensures
        first_keys(names, i).filter(p).finite(),
        first_keys(names, i).filter(p).len() <= i,
    decreases i,
{
    if i == 0 {
        lemma_first_keys_none(names, p);
    } else {
        lemma_first_keys_bound(names, i - 1, p);
        let before = first_keys(names, i - 1).filter(p);
        let after = first_keys(names, i).filter(p);
        assert(after.subset_of(before.insert(names[i - 1])));
        vstd::set_lib::lemma_len_subset(after, before.insert(names[i - 1]));
    }
}

/// What the next key adds.
pub proof fn lemma_first_keys_next(names: Seq<Name>, i: int, p: spec_fn(Name) -> bool)
    requires
        names.no_duplicates(),
        0 <= i < names.len(),
    ensures
        first_keys(names, i).filter(p).finite(),
        first_keys(names, i + 1).filter(p).finite(),
        first_keys(names, i).filter(p).len() <= i,
        !first_keys(names, i).contains(names[i]),
        p(names[i]) ==> first_keys(names, i + 1).filter(p) == first_keys(names, i).filter(p).insert(names[i]),
        p(names[i]) ==> first_keys(names, i + 1).filter(p).len() == first_keys(names, i).filter(p).len() + 1,
        !p(names[i]) ==> first_keys(names, i + 1).filter(p) == first_keys(names, i).filter(p),
{
    lemma_first_keys_bound(names, i, p);
    lemma_first_keys_bound(names, i + 1, p);
    let before = first_keys(names, i).filter(p);
    let after = first_keys(names, i + 1).filter(p);
    if p(names[i]) {
        assert(after =~= before.insert(names[i]));
    } else {
        assert(after =~= before);
    }
}

/// Once all keys are seen, the filtered keys are those of the whole domain.
pub proof fn lemma_first_keys_all(names: Seq<Name>, dom: Set<Name>, p: spec_fn(Name) -> bool)
    requires
        dom == names.to_set(),
    ensures
        first_keys(names, names.len() as int) == dom,
        first_keys(names, names.len() as int).filter(p) == dom.filter(p),
{
    assert(first_keys(names, names.len() as int) =~= dom);
}

} // verus!
