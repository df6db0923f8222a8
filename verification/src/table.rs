//! A map over a vector of entries, for keys that are compared by a model of their own (text,
//! addresses). Entries keep the order in which their keys came first.

use vstd::prelude::*;

use crate::ip::{IpAddr, IpView};
use crate::text::same_text;

verus! {

/// A key: two keys are the same where their models are.
pub trait Key: Sized {
    type Model;

    spec fn model(&self) -> Self::Model;

    fn same(&self, other: &Self) -> (r: bool)
        ensures
            r == (self.model() == other.model()),
    ;
}

impl Key for String {
    type Model = Seq<char>;

    open spec fn model(&self) -> Seq<char> {
        self@
    }

    fn same(&self, other: &String) -> (r: bool) {
        same_text(self.as_str(), other.as_str())
    }
}

impl Key for u64 {
    type Model = u64;

    open spec fn model(&self) -> u64 {
        *self
    }

    fn same(&self, other: &u64) -> (r: bool) {
        *self == *other
    }
}

impl Key for u32 {
    type Model = u32;

    open spec fn model(&self) -> u32 {
        *self
    }

    fn same(&self, other: &u32) -> (r: bool) {
        *self == *other
    }
}

impl Key for IpAddr {
    type Model = IpView;

    open spec fn model(&self) -> IpView {
        self@
    }

    fn same(&self, other: &IpAddr) -> (r: bool) {
        self.same_as(other)
    }
}

/// A finite map with distinct keys.
pub struct Table<K: Key, V> {
    entries: Vec<(K, V)>,
}

impl<K: Key, V> Table<K, V> {
    /// The models of the keys, in order of first insertion.
    pub closed spec fn keys(&self) -> Seq<K::Model> {
        Seq::new(self.entries@.len(), |i: int| self.entries@[i].0.model())
    }

    /// The values, in the order of `keys`.
    pub closed spec fn vals(&self) -> Seq<V> {
        Seq::new(self.entries@.len(), |i: int| self.entries@[i].1)
    }

    /// No key occurs twice.
    pub open spec fn wf(&self) -> bool {
        self.keys().no_duplicates() && self.vals().len() == self.keys().len()
    }
}

/// The map from each of `keys` to the value at the same place.
pub open spec fn map_of<M, V>(keys: Seq<M>, vals: Seq<V>) -> Map<M, V> {
    Map::new(|k: M| keys.contains(k), |k: M| vals[keys.index_of(k)])
}

/// Each key of a table maps to the value at its place.
pub proof fn lemma_map_of<M, V>(keys: Seq<M>, vals: Seq<V>, i: int)
    requires
        keys.no_duplicates(),
        0 <= i < keys.len(),
    ensures
        map_of(keys, vals).dom().contains(keys[i]),
        map_of(keys, vals)[keys[i]] == vals[i],
{
    let j = keys.index_of(keys[i]);
    assert(keys.contains(keys[i]));
    assert(0 <= j < keys.len() && keys[j] == keys[i]);
}

/// A table has as many entries as its map has keys.
pub proof fn lemma_map_of_len<M, V>(keys: Seq<M>, vals: Seq<V>)
    requires
        keys.no_duplicates(),
    ensures
        map_of(keys, vals).dom().finite(),
        map_of(keys, vals).dom().len() == keys.len(),
{
    keys.unique_seq_to_set();
    assert(map_of(keys, vals).dom() =~= keys.to_set());
    vstd::seq_lib::seq_to_set_is_finite(keys);
}

impl<K: Key, V> View for Table<K, V> {
    type V = Map<K::Model, V>;

    open spec fn view(&self) -> Map<K::Model, V> {
        map_of(self.keys(), self.vals())
    }
}

impl<K: Key, V> Table<K, V> {
    /// A table without entries.
    pub fn new() -> (r: Table<K, V>)
        ensures
            r.wf(),
            r@ == Map::<K::Model, V>::empty(),
            r.keys().len() == 0,
    {
        let r: Table<K, V> = Table { entries: Vec::new() };
        assert(r@ =~= Map::<K::Model, V>::empty());
        r
    }

    /// The number of entries.
    pub fn len(&self) -> (r: usize)
        requires
            self.wf(),
        ensures
            r == self@.dom().len(),
            r == self.keys().len(),
            self@.dom().finite(),
    {
        proof {
            lemma_map_of_len(self.keys(), self.vals());
        }
        self.entries.len()
    }

    /// The key at place `i`.
    pub fn key_at(&self, i: usize) -> (r: &K)
        requires
            i < self.keys().len(),
        ensures
            r.model() == self.keys()[i as int],
    {
        &self.entries[i].0
    }

    /// The value at place `i`.
    pub fn val_at(&self, i: usize) -> (r: &V)
        requires
            i < self.keys().len(),
        ensures
            *r == self.vals()[i as int],
    {
        &self.entries[i].1
    }

    /// Replaces the value at place `i`.
    pub fn set_at(&mut self, i: usize, v: V)
        requires
            old(self).wf(),
            i < old(self).keys().len(),
        ensures
            final(self).wf(),
            final(self).keys() == old(self).keys(),
            final(self).vals() == old(self).vals().update(i as int, v),
            final(self)@ == old(self)@.insert(old(self).keys()[i as int], v),
    {
        let ghost before = *self;
        let e: &mut (K, V) = &mut self.entries[i];
        e.1 = v;
        proof {
            assert(self.keys() =~= before.keys());
            assert(self.vals() =~= before.vals().update(i as int, v));
            let k0 = before.keys()[i as int];
            assert forall|k: K::Model| #[trigger] self@.dom().contains(k) implies self@[k] == before@.insert(k0, v)[k] by {
                let j = self.keys().index_of(k);
                assert(self.keys()[j] == k);
                lemma_map_of(self.keys(), self.vals(), j);
                lemma_map_of(before.keys(), before.vals(), j);
            }
            lemma_map_of(before.keys(), before.vals(), i as int);
            assert(self@ =~= before@.insert(k0, v));
        }
    }

    /// The place of a key.
    pub fn find(&self, k: &K) -> (r: Option<usize>)
        requires
            self.wf(),
        ensures
            match r {
                Some(i) => i < self.keys().len() && self.keys()[i as int] == k.model() && self@.dom().contains(
                    k.model(),
                ) && self@[k.model()] == self.vals()[i as int],
                None => !self@.dom().contains(k.model()) && !self.keys().contains(k.model()),
            },
    {
        let mut i: usize = 0;
        while i < self.entries.len()
            invariant
                self.wf(),
                i <= self.entries@.len(),
                forall|j: int| 0 <= j < i ==> self.keys()[j] != k.model(),
            decreases self.entries@.len() - i,
        {
            if self.entries[i].0.same(k) {
                proof {
                    lemma_map_of(self.keys(), self.vals(), i as int);
                }
                return Some(i);
            }
            i = i + 1;
        }
        None
    }

    /// The value of a key.
    pub fn get(&self, k: &K) -> (r: Option<&V>)
        requires
            self.wf(),
        ensures
            match r {
                Some(v) => self@.dom().contains(k.model()) && self@[k.model()] == *v,
                None => !self@.dom().contains(k.model()),
            },
    {
        match self.find(k) {
            Some(i) => Some(&self.entries[i].1),
            None => None,
        }
    }

    /// True where the key has a value.
    pub fn contains(&self, k: &K) -> (r: bool)
        requires
            self.wf(),
        ensures
            r == self@.dom().contains(k.model()),
    {
        match self.find(k) {
            Some(_) => true,
            None => false,
        }
    }

    /// Appends an entry under a key that the table does not hold.
    fn push_new(&mut self, k: K, v: V)
        requires
            old(self).wf(),
            !old(self).keys().contains(k.model()),
        ensures
            final(self).wf(),
            final(self).keys() == old(self).keys().push(k.model()),
            final(self).vals() == old(self).vals().push(v),
            final(self)@ == old(self)@.insert(k.model(), v),
    {
        let ghost before = *self;
        let ghost m = k.model();
        self.entries.push((k, v));
        proof {
            let n = before.keys().len();
            assert(self.keys() =~= before.keys().push(m));
            assert(self.vals() =~= before.vals().push(v));
            assert forall|i: int, j: int| 0 <= i < self.keys().len() && 0 <= j < self.keys().len() && i != j implies self.keys()[i]
                != self.keys()[j] by {
                if i < n {
                    assert(before.keys().contains(before.keys()[i]));
                }
                if j < n {
                    assert(before.keys().contains(before.keys()[j]));
                }
            }
            lemma_map_of(self.keys(), self.vals(), n as int);
            assert forall|q: K::Model| #[trigger] before@.dom().contains(q) implies self@.dom().contains(q) && self@[q]
                == before@[q] by {
                let j = before.keys().index_of(q);
                assert(before.keys().contains(q));
                assert(before.keys()[j] == q);
                lemma_map_of(before.keys(), before.vals(), j);
                lemma_map_of(self.keys(), self.vals(), j);
            }
            assert forall|q: K::Model| #[trigger] self@.dom().contains(q) implies q == m || before@.dom().contains(q) by {
                let j = self.keys().index_of(q);
                assert(self.keys().contains(q));
                assert(self.keys()[j] == q);
                if j < n {
                    assert(before.keys()[j] == q);
                }
            }
            assert(self@ =~= before@.insert(m, v));
        }
    }

    /// Sets the value of a key.
    pub fn insert(&mut self, k: K, v: V)
        requires
            old(self).wf(),
        ensures
            final(self).wf(),
            final(self)@ == old(self)@.insert(k.model(), v),
            old(self)@.dom().contains(k.model()) ==> final(self).keys() == old(self).keys(),
            !old(self)@.dom().contains(k.model()) ==> final(self).keys() == old(self).keys().push(k.model())
                && final(self).vals() == old(self).vals().push(v),
    {
        match self.find(&k) {
            Some(i) => self.set_at(i, v),
            None => self.push_new(k, v),
        }
    }

    /// Takes the entry at place `i` out.
    fn remove_at(&mut self, i: usize) -> (r: V)
        requires
            old(self).wf(),
            i < old(self).keys().len(),
        ensures
            final(self).wf(),
            final(self).keys() == old(self).keys().remove(i as int),
            final(self).vals() == old(self).vals().remove(i as int),
            final(self)@ == old(self)@.remove(old(self).keys()[i as int]),
            r == old(self).vals()[i as int],
    {
        let ghost before = *self;
        let ghost m = before.keys()[i as int];
        let e: (K, V) = self.entries.remove(i);
        proof {
            let n = i as int;
            assert(self.keys() =~= before.keys().remove(n));
            assert(self.vals() =~= before.vals().remove(n));
            assert forall|q: K::Model| #[trigger] self@.dom().contains(q) implies q != m && before@.dom().contains(q)
                && self@[q] == before@[q] by {
                let j = self.keys().index_of(q);
                assert(self.keys().contains(q));
                assert(self.keys()[j] == q);
                lemma_map_of(self.keys(), self.vals(), j);
                let p = if j < n { j } else { j + 1 };
                lemma_map_of(before.keys(), before.vals(), p);
            }
            assert forall|q: K::Model| #[trigger] before@.dom().contains(q) && q != m implies self@.dom().contains(q) by {
                let j = before.keys().index_of(q);
                assert(before.keys().contains(q));
                assert(before.keys()[j] == q);
                let p = if j < n { j } else { j - 1 };
                assert(self.keys()[p] == q);
            }
            assert(self@ =~= before@.remove(m));
        }
        e.1
    }

    /// Takes a key and its value out.
    pub fn remove(&mut self, k: &K) -> (r: Option<V>)
        requires
            old(self).wf(),
        ensures
            final(self).wf(),
            final(self)@ == old(self)@.remove(k.model()),
            match r {
                Some(v) => old(self)@.dom().contains(k.model()) && old(self)@[k.model()] == v,
                None => !old(self)@.dom().contains(k.model()),
            },
    {
        match self.find(k) {
            None => {
                assert(old(self)@.remove(k.model()) =~= old(self)@);
                None
            },
            Some(i) => Some(self.remove_at(i)),
        }
    }

    /// Keeps the entries whose place is marked and takes the others out.
    pub fn retain_marked(&mut self, keep: &Vec<bool>)
        requires
            old(self).wf(),
            keep@.len() == old(self).keys().len(),
        ensures
            final(self).wf(),
            forall|k: K::Model| #[trigger] final(self)@.dom().contains(k) ==> old(self)@.dom().contains(k)
                && final(self)@[k] == old(self)@[k],
            forall|i: int|
                0 <= i < old(self).keys().len() ==> final(self)@.dom().contains(#[trigger] old(self).keys()[i])
                    == keep@[i],
            final(self).keys().len() <= old(self).keys().len(),
    {
        let ghost before = *self;
        let mut i: usize = keep.len();
        proof {
            assert forall|j: int| 0 <= j < before.keys().len() implies self@.dom().contains(#[trigger] before.keys()[j]) by {
                lemma_map_of(before.keys(), before.vals(), j);
            }
        }
        while i > 0
            invariant
                before.wf(),
                self.wf(),
                keep@.len() == before.keys().len(),
                i <= keep@.len(),
                i <= self.keys().len() <= before.keys().len(),
                forall|j: int| 0 <= j < i ==> self.keys()[j] == before.keys()[j],
                forall|k: K::Model| #[trigger] self@.dom().contains(k) ==> before@.dom().contains(k) && self@[k]
                    == before@[k],
                forall|j: int|
                    0 <= j < before.keys().len() ==> self@.dom().contains(#[trigger] before.keys()[j]) == (j < i
                        || keep@[j]),
            decreases i,
        {
            i = i - 1;
            if !keep[i] {
                let ghost here = *self;
                let _gone: V = self.remove_at(i);
                assert forall|j: int| 0 <= j < i implies self.keys()[j] == before.keys()[j] by {
                    assert(here.keys()[j] == before.keys()[j]);
                }
                assert forall|j: int| 0 <= j < before.keys().len() implies self@.dom().contains(
                    #[trigger] before.keys()[j],
                ) == (j < i || keep@[j]) by {
                    assert(here.keys()[i as int] == before.keys()[i as int]);
                    assert(self@ == here@.remove(before.keys()[i as int]));
                    assert(here@.dom().contains(before.keys()[j]) == (j < i + 1 || keep@[j]));
                    if j != i {
                        assert(before.keys()[j] != before.keys()[i as int]);
                    }
                }
            }
        }
    }
}

} // verus!
