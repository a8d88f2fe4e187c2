//! Finite sets of keys, stored without repetition.

use vstd::prelude::*;
use crate::text::Key;

verus! {

/// A finite set of keys. Each key is stored once.
#[derive(Debug)]
pub struct KeySet<K> {
    items: Vec<K>,
}

impl<K: Key> View for KeySet<K> {
    type V = Set<K::V>;

    open spec fn view(&self) -> Set<K::V> {
        self.seq().to_set()
    }
}

impl<K: Key> KeySet<K> {
    /// The members in storage order.
    pub closed spec fn seq(&self) -> Seq<K::V> {
        Seq::new(self.items@.len(), |i: int| self.items@[i]@)
    }

    /// No member is stored twice.
    pub open spec fn wf(&self) -> bool {
        self.seq().no_duplicates()
    }

    /// With no repetition the number of stored members is the size of the set.
    pub proof fn lemma_len(&self)
        requires
            self.wf(),
        ensures
            self@.finite(),
            self@.len() == self.seq().len(),
    {
        self.seq().unique_seq_to_set();
        vstd::seq_lib::seq_to_set_is_finite(self.seq());
    }

    pub fn new() -> (r: Self)
        ensures
            r.wf(),
            r.seq() == Seq::<K::V>::empty(),
            r@ == Set::<K::V>::empty(),
    {
        let r = KeySet { items: Vec::new() };
        assert(r.seq() =~= Seq::<K::V>::empty());
        assert(r@ =~= Set::<K::V>::empty());
        r
    }

    pub fn len(&self) -> (n: usize)
        ensures
            n == self.seq().len(),
            self.wf() ==> n == self@.len(),
    {
        proof {
            if self.wf() {
                self.lemma_len();
            }
        }
        self.items.len()
    }

    pub fn is_empty(&self) -> (r: bool)
        ensures
            r == (self.seq().len() == 0),
            r == (self@ == Set::<K::V>::empty()),
    {
        proof {
            if self.seq().len() == 0 {
                assert(self@ =~= Set::<K::V>::empty());
            } else {
                assert(self.seq().contains(self.seq()[0]));
                assert(self@.contains(self.seq()[0]));
            }
        }
        self.items.len() == 0
    }

    /// The member stored at position `i`.
    pub fn at(&self, i: usize) -> (r: &K)
        requires
            i < self.seq().len(),
        ensures
            r@ == self.seq()[i as int],
            self@.contains(r@),
    {
        assert(self.seq().contains(self.seq()[i as int]));
        &self.items[i]
    }

    pub fn contains(&self, key: &K) -> (r: bool)
        ensures
            r == self@.contains(key@),
    {
        let mut i: usize = 0;
        while i < self.items.len()
            invariant
                i <= self.items.len(),
                forall|j: int| 0 <= j < i ==> self.seq()[j] != key@,
            decreases self.items.len() - i,
        {
            if self.items[i].same(key) {
                assert(self.seq()[i as int] == key@);
                assert(self.seq().contains(key@));
                return true;
            }
            i += 1;
        }
        false
    }

    /// Adds `key` unless it is a member already; returns whether it was added.
    pub fn insert(&mut self, key: K) -> (added: bool)
        requires
            old(self).wf(),
        ensures
            final(self).wf(),
            final(self)@ == old(self)@.insert(key@),
            added == !old(self)@.contains(key@),
            added ==> final(self).seq() == old(self).seq().push(key@),
            !added ==> final(self).seq() == old(self).seq(),
    {
        if self.contains(&key) {
            assert(self@.insert(key@) =~= self@);
            false
        } else {
            let ghost before = self.seq();
            self.items.push(key);
            assert(self.seq() =~= before.push(key@));
            assert(self@ =~= before.to_set().insert(key@)) by {
                assert forall|x: K::V| self@.contains(x) <==> before.to_set().insert(key@).contains(x) by {
                    if self.seq().contains(x) {
                        let j = choose|j: int| 0 <= j < self.seq().len() && self.seq()[j] == x;
                        if j < before.len() {
                            assert(before[j] == x);
                            assert(before.contains(x));
                        }
                    }
                    if before.contains(x) {
                        let j = choose|j: int| 0 <= j < before.len() && before[j] == x;
                        assert(self.seq()[j] == x);
                    }
                    if x == key@ {
                        assert(self.seq()[before.len() as int] == x);
                    }
                }
            }
            assert(self.seq().no_duplicates()) by {
                assert forall|a: int, b: int| 0 <= a < self.seq().len() && 0 <= b < self.seq().len() && a != b
                    implies self.seq()[a] != self.seq()[b] by {
                    if a < before.len() {
                        assert(before.contains(before[a]));
                    }
                    if b < before.len() {
                        assert(before.contains(before[b]));
                    }
                }
            }
            true
        }
    }
}

} // verus!
