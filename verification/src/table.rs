//! A table from cache keys to items, each key at most once.
//!
//! It stands where the tiers and policies keep per-key state: keys are
//! compared through `CacheKey`, so it works for any key type that implements
//! it. The hash maps of std are specified by vstd only for key types whose
//! hashing is known to follow their equality (the integer types), and a
//! concurrent map mutates through shared references, which contracts cannot
//! follow; a table compared through `CacheKey` has neither limit.

use vstd::prelude::*;

use crate::key::CacheKey;

verus! {

/// A table from keys to items; no key occurs twice.
pub struct KeyTable<K, T> {
    keys: Vec<K>,
    items: Vec<T>,
}

impl<K: CacheKey, T> KeyTable<K, T> {
    /// The keys, in storage order.
    pub closed spec fn key_views(&self) -> Seq<K::V> {
        self.keys@.map_values(|k: K| k@)
    }

    /// The items, in storage order (the item at `i` belongs to the key at `i`).
    pub closed spec fn item_seq(&self) -> Seq<T> {
        self.items@
    }

    /// The table as a map from key to item.
    pub closed spec fn map(&self) -> Map<K::V, T> {
        Map::new(
            |k: K::V| self.key_views().contains(k),
            |k: K::V| self.items@[self.key_views().index_of(k)],
        )
    }

    /// Keys and items line up and no key occurs twice.
    pub closed spec fn well_formed(&self) -> bool {
        &&& self.keys@.len() == self.items@.len()
        &&& self.key_views().no_duplicates()
    }

    /// The number of stored keys.
    pub closed spec fn spec_len(&self) -> nat {
        self.keys@.len()
    }

    /// The item stored at position `i` is the item of the key stored at `i`.
    pub proof fn lemma_at(&self, i: int)
        requires
            self.well_formed(),
            0 <= i < self.spec_len(),
        ensures
            self.key_views().len() == self.spec_len(),
            self.item_seq().len() == self.spec_len(),
            self.map().contains_key(self.key_views()[i]),
            self.map()[self.key_views()[i]] == self.item_seq()[i],
    {
        let s = self.key_views();
        assert(s.contains(s[i]));
        let j = s.index_of(s[i]);
        assert(s[j] == s[i]);
    }

    /// The keys of the map are the stored keys, and there are `spec_len` of them.
    pub proof fn lemma_dom(&self)
        requires
            self.well_formed(),
        ensures
            self.key_views().len() == self.spec_len(),
            self.item_seq().len() == self.spec_len(),
            self.key_views().no_duplicates(),
            self.map().dom() == self.key_views().to_set(),
            self.map().dom().finite(),
            self.map().len() == self.spec_len(),
    {
        assert(self.map().dom() =~= self.key_views().to_set());
        self.key_views().unique_seq_to_set();
    }

    /// A table never holds more than `usize::MAX` keys.
    pub proof fn lemma_len_bound(&self)
        ensures
            self.spec_len() <= usize::MAX,
    {
        assert(self.keys.len() == self.keys@.len());
    }

    /// Tables with the same keys and items in the same order are the same map.
    pub proof fn lemma_same_map(&self, other: &Self)
        requires
            self.key_views() == other.key_views(),
            self.item_seq() == other.item_seq(),
        ensures
            self.map() == other.map(),
    {
        assert(self.map() =~= other.map());
    }

    /// An empty table.
    pub fn new() -> (table: Self)
        ensures
            table.well_formed(),
            table.map() == Map::<K::V, T>::empty(),
            table.spec_len() == 0,
            table.key_views() == Seq::<K::V>::empty(),
            table.item_seq() == Seq::<T>::empty(),
    {
        let table = KeyTable { keys: Vec::new(), items: Vec::new() };
        assert(table.map() =~= Map::<K::V, T>::empty());
        assert(table.key_views() =~= Seq::<K::V>::empty());
        table
    }

    /// The number of stored keys.
    pub fn len(&self) -> (n: usize)
        requires
            self.well_formed(),
        ensures
            n == self.spec_len(),
            n == self.map().len(),
    {
        proof {
            self.lemma_dom();
        }
        self.keys.len()
    }

    /// Position of `key`, if it is stored.
    pub fn position(&self, key: &K) -> (pos: Option<usize>)
        requires
            self.well_formed(),
        ensures
            match pos {
                Some(i) => {
                    &&& i < self.spec_len()
                    &&& self.key_views()[i as int] == key@
                    &&& self.map().contains_key(key@)
                    &&& self.map()[key@] == self.item_seq()[i as int]
                },
                None => !self.map().contains_key(key@),
            },
    {
        let n = self.keys.len();
        let mut i: usize = 0;
        while i < n
            invariant
                self.well_formed(),
                n == self.keys@.len(),
                i <= n,
                forall|j: int| 0 <= j < i ==> self.key_views()[j] != key@,
            decreases n - i,
        {
            if self.keys[i].key_eq(key) {
                proof {
                    self.lemma_at(i as int);
                }
                return Some(i);
            }
            i = i + 1;
        }
        None
    }

    /// The item stored at position `i`.
    pub fn item_at(&self, i: usize) -> (item: &T)
        requires
            self.well_formed(),
            i < self.spec_len(),
        ensures
            *item == self.item_seq()[i as int],
    {
        &self.items[i]
    }

    /// The key stored at position `i`.
    pub fn key_at(&self, i: usize) -> (key: &K)
        requires
            self.well_formed(),
            i < self.spec_len(),
        ensures
            key@ == self.key_views()[i as int],
    {
        &self.keys[i]
    }

    /// Replace the item stored at position `i`, keeping its key.
    pub fn replace_at(&mut self, i: usize, item: T)
        requires
            old(self).well_formed(),
            i < old(self).spec_len(),
        ensures
            final(self).well_formed(),
            final(self).key_views() == old(self).key_views(),
            final(self).item_seq() == old(self).item_seq().update(i as int, item),
            final(self).map() == old(self).map().insert(old(self).key_views()[i as int], item),
    {
        let ghost old_map = self.map();
        proof {
            self.lemma_at(i as int);
        }
        self.items.set(i, item);
        proof {
            let k = self.key_views()[i as int];
            assert forall|x: K::V| #[trigger] self.map().contains_key(x) implies self.map()[x]
                == old_map.insert(k, item)[x] by {
                let j = self.key_views().index_of(x);
                self.lemma_at(j);
                old(self).lemma_at(j);
            }
            assert(self.map() =~= old_map.insert(k, item));
        }
    }

    /// Remove the key stored at position `i` and hand back its key and item.
    pub fn remove_at(&mut self, i: usize) -> (removed: (K, T))
        requires
            old(self).well_formed(),
            i < old(self).spec_len(),
        ensures
            final(self).well_formed(),
            final(self).spec_len() == old(self).spec_len() - 1,
            removed.0@ == old(self).key_views()[i as int],
            removed.1 == old(self).item_seq()[i as int],
            final(self).key_views() == old(self).key_views().remove(i as int),
            final(self).item_seq() == old(self).item_seq().remove(i as int),
            final(self).map() == old(self).map().remove(removed.0@),
    {
        let ghost old_map = self.map();
        let ghost s = self.key_views();
        proof {
            self.lemma_at(i as int);
        }
        let key = self.keys.remove(i);
        let item = self.items.remove(i);
        proof {
            let t = self.key_views();
            assert(t =~= s.remove(i as int));
            s.remove_ensures(i as int);
            assert forall|a: int, b: int|
                0 <= a < t.len() && 0 <= b < t.len() && a != b implies t[a] != t[b] by {
                let sa = if a < i { a } else { a + 1 };
                let sb = if b < i { b } else { b + 1 };
                assert(t[a] == s[sa]);
                assert(t[b] == s[sb]);
            }
            assert forall|k: K::V| #[trigger] self.map().contains_key(k) <==> old_map.remove(
                key@,
            ).contains_key(k) by {
                if self.map().contains_key(k) {
                    let j = t.index_of(k);
                    let sj = if j < i { j } else { j + 1 };
                    assert(s[sj] == k);
                }
                if old_map.contains_key(k) && k != key@ {
                    let j = s.index_of(k);
                    assert(j != i);
                    let tj = if j < i { j } else { j - 1 };
                    assert(t[tj] == k);
                }
            }
            assert forall|k: K::V| #[trigger] self.map().contains_key(k) implies self.map()[k]
                == old_map[k] by {
                let j = t.index_of(k);
                self.lemma_at(j);
                let sj = if j < i { j } else { j + 1 };
                old(self).lemma_at(sj);
            }
            assert(self.map() =~= old_map.remove(key@));
        }
        (key, item)
    }

    /// Add a key that is not stored yet, with its item.
    pub fn push_new(&mut self, key: K, item: T)
        requires
            old(self).well_formed(),
            !old(self).map().contains_key(key@),
        ensures
            final(self).well_formed(),
            final(self).spec_len() == old(self).spec_len() + 1,
            final(self).key_views() == old(self).key_views().push(key@),
            final(self).item_seq() == old(self).item_seq().push(item),
            final(self).map() == old(self).map().insert(key@, item),
    {
        let ghost old_map = self.map();
        let ghost s = self.key_views();
        let ghost k = key@;
        self.keys.push(key);
        self.items.push(item);
        proof {
            assert(self.key_views() =~= s.push(k));
            assert forall|a: int, b: int|
                0 <= a < self.key_views().len() && 0 <= b < self.key_views().len() && a != b
                implies self.key_views()[a] != self.key_views()[b] by {
                if a < s.len() && b < s.len() {
                } else if a < s.len() {
                    assert(s.contains(s[a]));
                } else if b < s.len() {
                    assert(s.contains(s[b]));
                }
            }
            assert forall|x: K::V| old_map.contains_key(x) implies #[trigger] self.map().contains_key(x)
                && self.map()[x] == old_map[x] by {
                let j = s.index_of(x);
                old(self).lemma_at(j);
                self.lemma_at(j);
            }
            self.lemma_at(s.len() as int);
            assert forall|x: K::V| #[trigger] self.map().contains_key(x) implies old_map.insert(
                k,
                item,
            ).contains_key(x) by {
                let j = self.key_views().index_of(x);
                if j < s.len() {
                    assert(s[j] == x);
                }
            }
            assert(self.map() =~= old_map.insert(k, item));
        }
    }

    /// Remove `key` if it is stored, and hand back its item.
    pub fn remove(&mut self, key: &K) -> (removed: Option<T>)
        requires
            old(self).well_formed(),
        ensures
            final(self).well_formed(),
            final(self).map() == old(self).map().remove(key@),
            match removed {
                Some(item) => {
                    &&& old(self).map().contains_key(key@)
                    &&& old(self).map()[key@] == item
                    &&& final(self).spec_len() == old(self).spec_len() - 1
                },
                None => {
                    &&& !old(self).map().contains_key(key@)
                    &&& final(self).spec_len() == old(self).spec_len()
                },
            },
    {
        match self.position(key) {
            Some(i) => {
                let (_k, item) = self.remove_at(i);
                Some(item)
            },
            None => {
                assert(self.map() =~= self.map().remove(key@));
                None
            },
        }
    }

    /// Store `item` for `key`, replacing the item of a stored key.
    pub fn insert(&mut self, key: K, item: T)
        requires
            old(self).well_formed(),
        ensures
            final(self).well_formed(),
            final(self).map() == old(self).map().insert(key@, item),
    {
        match self.position(&key) {
            Some(i) => {
                self.replace_at(i, item);
            },
            None => {
                self.push_new(key, item);
            },
        }
    }

    /// Remove every key.
    pub fn clear(&mut self)
        requires
            old(self).well_formed(),
        ensures
            final(self).well_formed(),
            final(self).map() == Map::<K::V, T>::empty(),
            final(self).spec_len() == 0,
    {
        self.keys.clear();
        self.items.clear();
        assert(self.map() =~= Map::<K::V, T>::empty());
    }
}

} // verus!
