//! Finite maps from names to values, stored in insertion order.

use vstd::prelude::*;
use crate::text::{same_text, Name};

verus! {

/// A finite map keyed by name. Entries keep the order in which their keys
/// were first inserted, and each key is stored once.
#[derive(Debug)]
pub struct Table<V> {
    keys: Vec<String>,
    values: Vec<V>,
}

impl<V: View> View for Table<V> {
    type V = Map<Name, V::V>;

    open spec fn view(&self) -> Map<Name, V::V> {
        Map::new(
            |k: Name| self.names().contains(k),
            |k: Name| self.items()[self.names().index_of(k)],
        )
    }
}

impl<V: View> Table<V> {
    /// The keys in storage order.
    pub closed spec fn names(&self) -> Seq<Name> {
        Seq::new(self.keys@.len(), |i: int| self.keys@[i]@)
    }

    /// The values in storage order, by their views.
    pub closed spec fn items(&self) -> Seq<V::V> {
        Seq::new(self.values@.len(), |i: int| self.values@[i]@)
    }

    /// Keys and values pair up, and no key is stored twice.
    pub open spec fn wf(&self) -> bool {
        &&& self.names().len() == self.items().len()
        &&& self.names().no_duplicates()
    }

    /// How the map relates to the stored entries.
    pub proof fn lemma_view(&self)
        requires
            self.wf(),
        ensures
            self@.dom() == self.names().to_set(),
            self@.dom().finite(),
            self@.dom().len() == self.names().len(),
            forall|i: int| 0 <= i < self.names().len() ==> self@.contains_key(#[trigger] self.names()[i]),
            forall|i: int| 0 <= i < self.names().len() ==> self@[#[trigger] self.names()[i]] == self.items()[i],
    {
        let names = self.names();
        assert(self@.dom() =~= names.to_set());
        names.unique_seq_to_set();
        vstd::seq_lib::seq_to_set_is_finite(names);
        assert forall|i: int| 0 <= i < names.len() implies self@.contains_key(#[trigger] names[i])
            && self@[names[i]] == self.items()[i] by {
            assert(names.contains(names[i]));
            let j = names.index_of(names[i]);
            assert(0 <= j < names.len() && names[j] == names[i]);
        }
    }

    pub fn new() -> (r: Self)
        ensures
            r.wf(),
            r.names() == Seq::<Name>::empty(),
            r@ == Map::<Name, V::V>::empty(),
    {
        let r = Table { keys: Vec::new(), values: Vec::new() };
        assert(r.names() =~= Seq::<Name>::empty());
        assert(r.items() =~= Seq::<V::V>::empty());
        assert(r@ =~= Map::<Name, V::V>::empty());
        r
    }

    pub fn len(&self) -> (n: usize)
        ensures
            n == self.names().len(),
            self.wf() ==> n == self@.dom().len(),
    {
        proof {
            if self.wf() {
                self.lemma_view();
            }
        }
        self.keys.len()
    }

    /// The key stored at position `i`.
    pub fn key_at(&self, i: usize) -> (r: &String)
        requires
            i < self.names().len(),
        ensures
            r@ == self.names()[i as int],
    {
        &self.keys[i]
    }

    /// The value stored at position `i`.
    pub fn value_at(&self, i: usize) -> (r: &V)
        requires
            self.wf(),
            i < self.names().len(),
        ensures
            r@ == self.items()[i as int],
            r@ == self@[self.names()[i as int]],
    {
        proof {
            self.lemma_view();
        }
        &self.values[i]
    }

    /// Where `key` is stored, if it is a key of the table.
    pub fn position(&self, key: &str) -> (r: Option<usize>)
        ensures
            match r {
                Some(i) => i < self.names().len() && self.names()[i as int] == key@,
                None => !self.names().contains(key@),
            },
    {
        let mut i: usize = 0;
        while i < self.keys.len()
            invariant
                i <= self.keys.len(),
                forall|j: int| 0 <= j < i ==> self.names()[j] != key@,
            decreases self.keys.len() - i,
        {
            if same_text(self.keys[i].as_str(), key) {
                return Some(i);
            }
            i += 1;
        }
        None
    }

    pub fn contains_key(&self, key: &str) -> (r: bool)
        ensures
            r == self@.contains_key(key@),
    {
        match self.position(key) {
            Some(i) => {
                assert(self.names().contains(key@));
                true
            },
            None => false,
        }
    }

    pub fn get(&self, key: &str) -> (r: Option<&V>)
        requires
            self.wf(),
        ensures
            match r {
                Some(v) => self@.contains_key(key@) && v@ == self@[key@],
                None => !self@.contains_key(key@),
            },
    {
        match self.position(key) {
            Some(i) => {
                proof {
                    self.lemma_view();
                }
                Some(&self.values[i])
            },
            None => None,
        }
    }

    /// Binds `key` to `value`. A key that is new goes to the end; a key
    /// that is present keeps its place and gets the new value.
    pub fn insert(&mut self, key: String, value: V)
        requires
            old(self).wf(),
        ensures
            final(self).wf(),
            final(self)@ == old(self)@.insert(key@, value@),
            old(self)@.contains_key(key@) ==> final(self).names() == old(self).names(),
            !old(self)@.contains_key(key@) ==> final(self).names() == old(self).names().push(key@),
    {
        let ghost names0 = self.names();
        let ghost items0 = self.items();
        let ghost view0 = self@;
        proof {
            self.lemma_view();
        }
        match self.position(key.as_str()) {
            Some(i) => {
                self.values[i] = value;
                assert(self.names() =~= names0);
                assert(self.items() =~= items0.update(i as int, value@));
                proof {
                    self.lemma_view();
                    assert(names0.contains(key@));
                    assert forall|k: Name| #[trigger] self@.contains_key(k) implies self@[k] == view0.insert(key@, value@)[k] by {
                        let j = names0.index_of(k);
                        assert(0 <= j < names0.len() && names0[j] == k);
                    }
                    assert(self@ =~= view0.insert(key@, value@));
                }
            },
            None => {
                self.keys.push(key);
                self.values.push(value);
                assert(self.names() =~= names0.push(key@));
                assert(self.items() =~= items0.push(value@));
                proof {
                    assert(self.names().no_duplicates()) by {
                        assert forall|a: int, b: int|
                            0 <= a < self.names().len() && 0 <= b < self.names().len() && a != b
                            implies self.names()[a] != self.names()[b] by {
                            if a < names0.len() {
                                assert(names0.contains(names0[a]));
                            }
                            if b < names0.len() {
                                assert(names0.contains(names0[b]));
                            }
                        }
                    }
                    self.lemma_view();
                    let n = names0.len() as int;
                    assert(self.names()[n] == key@);
                    assert forall|k: Name| self@.contains_key(k) <==> #[trigger] view0.insert(key@, value@).contains_key(k) by {
                        if self.names().contains(k) {
                            let j = choose|j: int| 0 <= j < self.names().len() && self.names()[j] == k;
                            if j < n {
                                assert(names0[j] == k);
                                assert(names0.contains(k));
                            }
                        }
                        if names0.contains(k) {
                            let j = choose|j: int| 0 <= j < names0.len() && names0[j] == k;
                            assert(self.names()[j] == k);
                        }
                    }
                    assert forall|k: Name| #[trigger] self@.contains_key(k) implies self@[k] == view0.insert(key@, value@)[k] by {
                        let j = choose|j: int| 0 <= j < self.names().len() && self.names()[j] == k;
                        assert(self@[self.names()[j]] == self.items()[j]);
                        if j < n {
                            assert(names0[j] == k);
                            assert(view0[names0[j]] == items0[j]);
                        }
                    }
                    assert(self@ =~= view0.insert(key@, value@));
                }
            },
        }
    }
}

} // verus!
