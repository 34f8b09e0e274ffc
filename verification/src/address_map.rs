//! A map from account addresses to values, kept as a list of entries with
//! distinct keys.
use vstd::prelude::*;

verus! {

/// A finite map from address text to `V`.
#[derive(Debug, PartialEq)]
pub struct AddressMap<V: View> {
    entries: Vec<(String, V)>,
}

impl<V: View> AddressMap<V> {
    /// No address occurs twice among the entries.
    #[verifier::type_invariant]
    closed spec fn keys_distinct(&self) -> bool {
        forall|i: int, j: int|
            0 <= i < j < self.entries@.len() ==> self.entries@[i].0@ != self.entries@[j].0@
    }

    closed spec fn has_key(&self, k: Seq<char>) -> bool {
        exists|i: int| 0 <= i < self.entries@.len() && self.entries@[i].0@ == k
    }

    closed spec fn slot(&self, k: Seq<char>) -> int {
        choose|i: int| 0 <= i < self.entries@.len() && self.entries@[i].0@ == k
    }

    /// The map from addresses to the views of their values.
    pub closed spec fn view(&self) -> Map<Seq<char>, V::V> {
        Map::new(|k: Seq<char>| self.has_key(k), |k: Seq<char>| self.entries@[self.slot(k)].1@)
    }

    proof fn lemma_slot(&self, i: int)
        requires
            self.keys_distinct(),
            0 <= i < self.entries@.len(),
        ensures
            self.has_key(self.entries@[i].0@),
            self.slot(self.entries@[i].0@) == i,
            self.view().contains_key(self.entries@[i].0@),
            self.view()[self.entries@[i].0@] == self.entries@[i].1@,
    {
        let k = self.entries@[i].0@;
        assert(self.has_key(k));
        let j = self.slot(k);
        if j != i {
            if j < i {
                assert(self.entries@[j].0@ != self.entries@[i].0@);
            } else {
                assert(self.entries@[i].0@ != self.entries@[j].0@);
            }
        }
    }

    /// The empty map.
    pub fn new() -> (m: Self)
        ensures
            m.view() == Map::<Seq<char>, V::V>::empty(),
    {
        let m = AddressMap { entries: Vec::new() };
        assert(m.view() =~= Map::<Seq<char>, V::V>::empty());
        m
    }

    /// The position of `key` among the entries, if it has one.
    fn position(&self, key: &String) -> (r: Option<usize>)
        ensures
            match r {
                Some(i) => i < self.entries@.len() && self.entries@[i as int].0@ == key@,
                None => !self.has_key(key@),
            },
    {
        let n = self.entries.len();
        let mut i: usize = 0;
        while i < n
            invariant
                n == self.entries@.len(),
                i <= n,
                forall|j: int| 0 <= j < i ==> self.entries@[j].0@ != key@,
            decreases n - i,
        {
            if self.entries[i].0.eq(key) {
                return Some(i);
            }
            i = i + 1;
        }
        None
    }

    /// Whether `key` has a value.
    pub fn contains_key(&self, key: &String) -> (r: bool)
        ensures
            r == self.view().contains_key(key@),
    {
        match self.position(key) {
            Some(i) => {
                proof {
                    use_type_invariant(self);
                    self.lemma_slot(i as int);
                }
                true
            },
            None => false,
        }
    }

    /// The value of `key`, if it has one.
    pub fn get(&self, key: &String) -> (r: Option<&V>)
        ensures
            match r {
                Some(v) => self.view().contains_key(key@) && v@ == self.view()[key@],
                None => !self.view().contains_key(key@),
            },
    {
        match self.position(key) {
            Some(i) => {
                proof {
                    use_type_invariant(self);
                    self.lemma_slot(i as int);
                }
                Some(&self.entries[i].1)
            },
            None => None,
        }
    }

    /// Sets the value of `key` and hands back the value it had before.
    pub fn replace(&mut self, key: &String, value: V) -> (prev: Option<V>)
        ensures
            final(self).view() == old(self).view().insert(key@, value@),
            match prev {
                Some(v) => old(self).view().contains_key(key@) && v@ == old(self).view()[key@],
                None => !old(self).view().contains_key(key@),
            },
    {
        proof {
            use_type_invariant(&*self);
        }
        let ghost before = *self;
        match self.position(key) {
            Some(i) => {
                proof {
                    before.lemma_slot(i as int);
                }
                let mut pair = (key.clone(), value);
                let mut entries = Vec::new();
                std::mem::swap(&mut entries, &mut self.entries);
                entries.set_and_swap(i, &mut pair);
                self.entries = entries;
                proof {
                    assert forall|k: Seq<char>| #[trigger]
                        self.view().contains_key(k) == before.view().insert(
                            key@,
                            value@,
                        ).contains_key(k) by {
                        if k == key@ {
                            assert(self.entries@[i as int].0@ == k);
                        }
                        if k != key@ && self.has_key(k) {
                            let j = self.slot(k);
                            assert(j != i);
                            assert(before.entries@[j].0@ == k);
                        }
                        if k != key@ && before.has_key(k) {
                            let j = before.slot(k);
                            assert(j != i);
                            assert(self.entries@[j].0@ == k);
                        }
                    }
                    assert forall|k: Seq<char>| #[trigger] self.view().contains_key(k) implies self.view()[k]
                        == before.view().insert(key@, value@)[k] by {
                        if k == key@ {
                            self.lemma_slot(i as int);
                        } else {
                            let j = self.slot(k);
                            self.lemma_slot(j);
                            before.lemma_slot(j);
                        }
                    }
                    assert(self.view() =~= before.view().insert(key@, value@));
                }
                Some(pair.1)
            },
            None => {
                let mut entries = Vec::new();
                std::mem::swap(&mut entries, &mut self.entries);
                entries.push((key.clone(), value));
                proof {
                    assert forall|a: int, b: int|
                        0 <= a < b < entries@.len() implies entries@[a].0@ != entries@[b].0@ by {
                        if b == before.entries@.len() {
                            assert(entries@[a].0@ == before.entries@[a].0@);
                        }
                    }
                }
                self.entries = entries;
                proof {
                    let n = before.entries@.len() as int;
                    assert(self.keys_distinct());
                    assert forall|k: Seq<char>| #[trigger]
                        self.view().contains_key(k) == before.view().insert(
                            key@,
                            value@,
                        ).contains_key(k) by {
                        if k != key@ && self.has_key(k) {
                            let j = self.slot(k);
                            assert(before.entries@[j].0@ == k);
                        }
                        if before.has_key(k) {
                            let j = before.slot(k);
                            assert(self.entries@[j].0@ == k);
                        }
                        if k == key@ {
                            assert(self.entries@[n].0@ == k);
                        }
                    }
                    assert forall|k: Seq<char>| #[trigger] self.view().contains_key(k) implies self.view()[k]
                        == before.view().insert(key@, value@)[k] by {
                        if k == key@ {
                            self.lemma_slot(n);
                        } else {
                            let j = self.slot(k);
                            self.lemma_slot(j);
                            before.lemma_slot(j);
                        }
                    }
                    assert(self.view() =~= before.view().insert(key@, value@));
                }
                None
            },
        }
    }
}

/// Values that can be copied with their view kept.
pub trait Duplicate: View + Sized {
    fn duplicate(&self) -> (r: Self)
        ensures
            r@ == self@,
    ;
}

impl Duplicate for u64 {
    fn duplicate(&self) -> (r: u64) {
        *self
    }
}

impl<V: Duplicate> AddressMap<V> {
    /// An entry-by-entry copy.
    pub fn duplicate(&self) -> (r: Self)
        ensures
            r.view() == self.view(),
    {
        proof {
            use_type_invariant(self);
        }
        let mut entries: Vec<(String, V)> = Vec::new();
        let n = self.entries.len();
        let mut i: usize = 0;
        while i < n
            invariant
                n == self.entries@.len(),
                i <= n,
                entries@.len() == i,
                forall|j: int|
                    0 <= j < i ==> (#[trigger] entries@[j]).0@ == self.entries@[j].0@
                        && entries@[j].1@ == self.entries@[j].1@,
            decreases n - i,
        {
            let key = self.entries[i].0.clone();
            let value = self.entries[i].1.duplicate();
            entries.push((key, value));
            i = i + 1;
        }
        let r = AddressMap { entries };
        proof {
            assert forall|k: Seq<char>| #[trigger] r.view().contains_key(k) == self.view().contains_key(k) by {
                if r.has_key(k) {
                    let j = r.slot(k);
                    assert(self.entries@[j].0@ == k);
                }
                if self.has_key(k) {
                    let j = self.slot(k);
                    assert(r.entries@[j].0@ == k);
                }
            }
            assert forall|k: Seq<char>| #[trigger] r.view().contains_key(k) implies r.view()[k] == self.view()[k] by {
                let j = self.slot(k);
                self.lemma_slot(j);
                assert(r.entries@[j].0@ == k);
                r.lemma_slot(j);
            }
            assert(r.view() =~= self.view());
        }
        r
    }
}

impl<V: View> View for AddressMap<V> {
    type V = Map<Seq<char>, V::V>;

    open spec fn view(&self) -> Map<Seq<char>, V::V> {
        AddressMap::<V>::view(self)
    }
}

} // verus!
