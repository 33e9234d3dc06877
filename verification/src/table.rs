//! A map that keeps its entries in the order in which their keys first came.
use vstd::prelude::*;

verus! {

/// A type that can be a key: compared and copied by its view.
pub trait Key: View + Sized {
    fn same(&self, other: &Self) -> (b: bool)
        ensures
            b == (self@ == other@),
    ;

    fn dup(&self) -> (r: Self)
        ensures
            r@ == self@,
    ;
}

/// Entries with distinct keys, in the order of their arrival.
#[derive(Debug)]
pub struct Table<K, V> {
    pub entries: Vec<(K, V)>,
}

impl<K: Key, V> Table<K, V> {
    /// Whether some entry has the key.
    pub open spec fn has(self, k: K::V) -> bool {
        exists|i: int| 0 <= i < self.entries@.len() && (#[trigger] self.entries@[i]).0@ == k
    }

    /// The place of the entry with the key.
    pub open spec fn place(self, k: K::V) -> int {
        choose|i: int| 0 <= i < self.entries@.len() && (#[trigger] self.entries@[i]).0@ == k
    }

    /// No key occurs twice.
    pub open spec fn wf(self) -> bool {
        forall|i: int, j: int|
            0 <= i < j < self.entries@.len() ==> (#[trigger] self.entries@[i]).0@ != (
            #[trigger] self.entries@[j]).0@
    }

    /// The keys in the order of their arrival.
    pub open spec fn keys(self) -> Seq<K::V> {
        Seq::new(self.entries@.len(), |i: int| self.entries@[i].0@)
    }
}

impl<K: Key, V> View for Table<K, V> {
    type V = Map<K::V, V>;

    open spec fn view(&self) -> Map<K::V, V> {
        Map::new(|k: K::V| self.has(k), |k: K::V| self.entries@[self.place(k)].1)
    }
}

impl<K: Key, V> Table<K, V> {
    /// An entry is found under its key.
    pub proof fn lemma_entry(self, i: int)
        requires
            self.wf(),
            0 <= i < self.entries@.len(),
        ensures
            self.has(self.entries@[i].0@),
            self.place(self.entries@[i].0@) == i,
            self@.dom().contains(self.entries@[i].0@),
            self@[self.entries@[i].0@] == self.entries@[i].1,
    {
    }

    /// The map has as many keys as there are entries.
    pub proof fn lemma_len(self)
        requires
            self.wf(),
        ensures
            self@.dom().finite(),
            self@.len() == self.entries@.len(),
    {
        let keys = self.keys();
        assert(keys.no_duplicates());
        keys.unique_seq_to_set();
        assert(keys.to_set() =~= self@.dom()) by {
            assert forall|k: K::V| keys.to_set().contains(k) <==> self@.dom().contains(k) by {
                if keys.contains(k) {
                    let i = choose|i: int| 0 <= i < keys.len() && keys[i] == k;
                    self.lemma_entry(i);
                }
                if self.has(k) {
                    assert(keys[self.place(k)] == k);
                }
            }
        }
    }

    proof fn lemma_appended(before: Self, after: Self, k: K, v: V)
        requires
            before.wf(),
            !before.has(k@),
            after.entries@ == before.entries@.push((k, v)),
        ensures
            after.wf(),
            after@ == before@.insert(k@, v),
    {
        assert forall|x: K::V| after.has(x) <==> (before.has(x) || x == k@) by {
            if before.has(x) {
                let i = before.place(x);
                assert(after.entries@[i].0@ == x);
            }
            if x == k@ {
                assert(after.entries@[before.entries@.len() as int].0@ == x);
            }
            if after.has(x) {
                let i = after.place(x);
                if i < before.entries@.len() {
                    assert(before.entries@[i].0@ == x);
                }
            }
        }
        assert forall|x: K::V| after.has(x) implies #[trigger] after@[x] == before@.insert(k@, v)[x] by {
            let i = after.place(x);
            if i < before.entries@.len() {
                assert(before.entries@[i].0@ == x);
                before.lemma_entry(i);
            }
        }
        assert(after@ =~= before@.insert(k@, v));
    }

    proof fn lemma_replaced(before: Self, after: Self, i: int, k: K, v: V)
        requires
            before.wf(),
            0 <= i < before.entries@.len(),
            k@ == before.entries@[i].0@,
            after.entries@ == before.entries@.update(i, (k, v)),
        ensures
            after.wf(),
            after.keys() == before.keys(),
            after@ == before@.insert(k@, v),
    {
        assert forall|x: K::V| after.has(x) <==> before.has(x) by {
            if before.has(x) {
                let j = before.place(x);
                assert(after.entries@[j].0@ == x);
            }
            if after.has(x) {
                let j = after.place(x);
                assert(before.entries@[j].0@ == x);
            }
        }
        before.lemma_entry(i);
        assert forall|x: K::V| after.has(x) implies #[trigger] after@[x] == before@.insert(k@, v)[x] by {
            let j = after.place(x);
            assert(before.entries@[j].0@ == x);
            before.lemma_entry(j);
        }
        assert(after@ =~= before@.insert(k@, v));
        assert(after.keys() =~= before.keys());
    }

    proof fn lemma_removed(before: Self, after: Self, i: int)
        requires
            before.wf(),
            0 <= i < before.entries@.len(),
            after.entries@ == before.entries@.remove(i),
        ensures
            after.wf(),
            after.keys() == before.keys().remove(i),
            after@ == before@.remove(before.entries@[i].0@),
    {
        let k = before.entries@[i].0@;
        assert(after.wf()) by {
            assert forall|a: int, b: int| 0 <= a < b < after.entries@.len() implies (
            #[trigger] after.entries@[a]).0@ != (#[trigger] after.entries@[b]).0@ by {
                let x = if a < i { a } else { a + 1 };
                let y = if b < i { b } else { b + 1 };
                assert(after.entries@[a] == before.entries@[x]);
                assert(after.entries@[b] == before.entries@[y]);
            }
        }
        assert forall|x: K::V| after.has(x) <==> (before.has(x) && x != k) by {
            if before.has(x) && x != k {
                let j = before.place(x);
                let y = if j < i { j } else { j - 1 };
                assert(after.entries@[y] == before.entries@[j]);
            }
            if after.has(x) {
                let j = after.place(x);
                let y = if j < i { j } else { j + 1 };
                assert(after.entries@[j] == before.entries@[y]);
            }
        }
        assert forall|x: K::V| after.has(x) implies #[trigger] after@[x] == before@.remove(k)[x] by {
            let j = after.place(x);
            let y = if j < i { j } else { j + 1 };
            assert(after.entries@[j] == before.entries@[y]);
            before.lemma_entry(y);
        }
        assert(after@ =~= before@.remove(k));
        assert(after.keys() =~= before.keys().remove(i));
    }

    /// The map without entries.
    pub fn new() -> (r: Self)
        ensures
            r.wf(),
            r.entries@.len() == 0,
            r@ == Map::<K::V, V>::empty(),
    {
        let r = Table { entries: Vec::new() };
        assert(r@ =~= Map::<K::V, V>::empty());
        r
    }

    /// How many entries there are.
    pub fn len(&self) -> (n: usize)
        ensures
            n == self.entries@.len(),
    {
        self.entries.len()
    }

    /// Whether there is no entry.
    pub fn is_empty(&self) -> (b: bool)
        ensures
            b == (self.entries@.len() == 0),
    {
        self.entries.len() == 0
    }

    /// Where the entry with the key stands.
    pub fn find(&self, k: &K) -> (r: Option<usize>)
        requires
            self.wf(),
        ensures
            r is Some <==> self@.dom().contains(k@),
            r matches Some(i) ==> i < self.entries@.len() && self.entries@[i as int].0@ == k@
                && self.entries@[i as int].1 == self@[k@] && i == self.place(k@),
    {
        let mut i: usize = 0;
        while i < self.entries.len()
            invariant
                i <= self.entries@.len(),
                forall|j: int| 0 <= j < i ==> (#[trigger] self.entries@[j]).0@ != k@,
                self.wf(),
            decreases self.entries@.len() - i,
        {
            if self.entries[i].0.same(k) {
                proof {
                    self.lemma_entry(i as int);
                }
                return Some(i);
            }
            i += 1;
        }
        None
    }

    /// Whether the key has an entry.
    pub fn contains(&self, k: &K) -> (b: bool)
        requires
            self.wf(),
        ensures
            b == self@.dom().contains(k@),
    {
        self.find(k).is_some()
    }

    /// The value under the key.
    pub fn get(&self, k: &K) -> (r: Option<&V>)
        requires
            self.wf(),
        ensures
            r is Some <==> self@.dom().contains(k@),
            r matches Some(v) ==> *v == self@[k@],
    {
        match self.find(k) {
            Some(i) => Some(&self.entries[i].1),
            None => None,
        }
    }

    /// Puts the value under the key: in the place of the old one, or at the end.
    pub fn insert(&mut self, k: K, v: V)
        requires
            old(self).wf(),
        ensures
            final(self).wf(),
            final(self)@ == old(self)@.insert(k@, v),
            final(self).keys() == if old(self)@.dom().contains(k@) {
                old(self).keys()
            } else {
                old(self).keys().push(k@)
            },
    {
        let ghost before = *self;
        match self.find(&k) {
            Some(i) => {
                let ghost gk = k;
                let ghost gv = v;
                self.entries.set(i, (k, v));
                proof {
                    Self::lemma_replaced(before, *self, i as int, gk, gv);
                }
            },
            None => {
                let ghost gk = k;
                let ghost gv = v;
                self.entries.push((k, v));
                proof {
                    Self::lemma_appended(before, *self, gk, gv);
                    assert(self.keys() =~= before.keys().push(gk@));
                }
            },
        }
    }

    /// Replaces the value of the entry at a place.
    pub fn set_at(&mut self, i: usize, v: V)
        requires
            old(self).wf(),
            i < old(self).entries@.len(),
        ensures
            final(self).wf(),
            final(self).keys() == old(self).keys(),
            final(self).entries@.len() == old(self).entries@.len(),
            forall|j: int|
                0 <= j < final(self).entries@.len() && j != i ==> (
                #[trigger] final(self).entries@[j]) == old(self).entries@[j],
            final(self).entries@[i as int] == (old(self).entries@[i as int].0, v),
            final(self)@ == old(self)@.insert(old(self).entries@[i as int].0@, v),
    {
        let ghost before = *self;
        let ghost gv = v;
        let slot = &mut self.entries[i];
        slot.1 = v;
        proof {
            Self::lemma_replaced(before, *self, i as int, before.entries@[i as int].0, gv);
        }
    }

    /// Takes out the entry at a place; the others keep their order.
    pub fn remove_at(&mut self, i: usize) -> (r: (K, V))
        requires
            old(self).wf(),
            i < old(self).entries@.len(),
        ensures
            final(self).wf(),
            r == old(self).entries@[i as int],
            final(self).entries@ == old(self).entries@.remove(i as int),
            final(self).keys() == old(self).keys().remove(i as int),
            final(self)@ == old(self)@.remove(r.0@),
    {
        let ghost before = *self;
        let r = self.entries.remove(i);
        proof {
            Self::lemma_removed(before, *self, i as int);
        }
        r
    }

    /// Takes out the entry with the key.
    pub fn remove(&mut self, k: &K) -> (r: Option<V>)
        requires
            old(self).wf(),
        ensures
            final(self).wf(),
            r == if old(self)@.dom().contains(k@) {
                Some(old(self)@[k@])
            } else {
                None
            },
            final(self)@ == old(self)@.remove(k@),
    {
        match self.find(k) {
            Some(i) => {
                let (_, v) = self.remove_at(i);
                Some(v)
            },
            None => {
                assert(self@ =~= self@.remove(k@));
                None
            },
        }
    }
}

impl Key for u32 {
    fn same(&self, other: &Self) -> (b: bool) {
        *self == *other
    }

    fn dup(&self) -> (r: Self) {
        *self
    }
}

impl Key for u64 {
    fn same(&self, other: &Self) -> (b: bool) {
        *self == *other
    }

    fn dup(&self) -> (r: Self) {
        *self
    }
}

impl Key for String {
    fn same(&self, other: &Self) -> (b: bool) {
        *self == *other
    }

    fn dup(&self) -> (r: Self) {
        self.clone()
    }
}

} // verus!
