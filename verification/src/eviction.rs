//! Cache eviction policies: which watched key leaves first when a tier is full.

use std::collections::VecDeque;
use vstd::prelude::*;

use crate::key::CacheKey;
use crate::table::KeyTable;

verus! {

broadcast use vstd::seq_lib::seq_to_set_is_finite;

/// How a tier chooses entries to evict when it is full.
///
/// A policy tracks a set of keys. Recording an access or an insertion adds the
/// key to that set (a policy with a bounded capacity may drop another key to
/// make room); `evict` removes one watched key and hands it back, or answers
/// `None` when nothing is watched; `reset` forgets every key.
pub trait EvictionPolicy<K: CacheKey>: Sized + Send + Sync {
    /// The policy's internal invariant.
    spec fn well_formed(&self) -> bool;

    /// The keys the policy currently tracks.
    spec fn candidates(&self) -> Set<K::V>;

    /// `after` is this policy once an access to `key` is recorded.
    spec fn accessed(&self, key: K::V, after: Self) -> bool;

    /// `after` is this policy once an insertion of `key` is recorded.
    spec fn inserted(&self, key: K::V, after: Self) -> bool;

    /// `after` is this policy once `evict` handed back `victim` (None: nothing
    /// was tracked).
    spec fn evicted(&self, victim: Option<K::V>, after: Self) -> bool;

    /// Record that a key was accessed.
    fn on_access(&mut self, key: &K)
        requires
            old(self).well_formed(),
        ensures
            final(self).well_formed(),
            final(self).candidates().finite(),
            old(self).accessed(key@, *final(self)),
            final(self).candidates().contains(key@),
            final(self).candidates().subset_of(old(self).candidates().insert(key@)),
    ;

    /// Record that a key was inserted.
    fn on_insert(&mut self, key: K)
        requires
            old(self).well_formed(),
        ensures
            final(self).well_formed(),
            final(self).candidates().finite(),
            old(self).inserted(key@, *final(self)),
            final(self).candidates().contains(key@),
            final(self).candidates().subset_of(old(self).candidates().insert(key@)),
    ;

    /// Select a key to evict and stop tracking it.
    fn evict(&mut self) -> (victim: Option<K>)
        requires
            old(self).well_formed(),
        ensures
            final(self).well_formed(),
            final(self).candidates().finite(),
            old(self).evicted(key_view(victim), *final(self)),
            match victim {
                Some(k) => {
                    &&& old(self).candidates().contains(k@)
                    &&& final(self).candidates() == old(self).candidates().remove(k@)
                },
                None => {
                    &&& old(self).candidates() == Set::<K::V>::empty()
                    &&& final(self).candidates() == old(self).candidates()
                },
            },
    ;

    /// Forget every watched key.
    fn reset(&mut self)
        requires
            old(self).well_formed(),
        ensures
            final(self).well_formed(),
            final(self).candidates().finite(),
            final(self).candidates() == Set::<K::V>::empty(),
    ;
}

/// The key handed back, by its view.
pub open spec fn key_view<K: CacheKey>(key: Option<K>) -> Option<K::V> {
    match key {
        Some(k) => Some(k@),
        None => None,
    }
}

/// `policies` is a run of evictions: policy `i` handed back `victims[i]` and
/// became policy `i + 1`.
pub open spec fn evicted_in_turn<K: CacheKey, P: EvictionPolicy<K>>(
    policies: Seq<P>,
    victims: Seq<Option<K::V>>,
) -> bool {
    &&& policies.len() == victims.len() + 1
    &&& forall|i: int|
        #![trigger victims[i]]
        0 <= i < victims.len() ==> policies[i].evicted(victims[i], policies[i + 1])
}

/// Removing the first occurrence of `k` from a sequence without duplicates and
/// appending `k` gives a sequence without duplicates over the same keys plus `k`.
proof fn lemma_move_to_back<A>(s: Seq<A>, k: A)
    requires
        s.no_duplicates(),
    ensures
        s.remove_value(k).push(k).no_duplicates(),
        s.remove_value(k).push(k).to_set() == s.to_set().insert(k),
        s.remove_value(k).push(k).len() == if s.contains(k) {
            s.len()
        } else {
            s.len() + 1
        },
{
    s.index_of_first_ensures(k);
    let r = s.remove_value(k);
    let t = r.push(k);
    match s.index_of_first(k) {
        Some(i) => {
            s.remove_ensures(i);
            assert(forall|x: A| r.contains(x) ==> x != k && s.contains(x)) by {
                assert forall|x: A| r.contains(x) implies x != k && s.contains(x) by {
                    let j = choose|j: int| 0 <= j < r.len() && r[j] == x;
                    if j < i {
                        assert(s[j] == x);
                    } else {
                        assert(s[j + 1] == x);
                    }
                }
            }
            assert forall|x: A| s.contains(x) && x != k implies r.contains(x) by {
                let j = choose|j: int| 0 <= j < s.len() && s[j] == x;
                if j < i {
                    assert(r[j] == x);
                } else {
                    assert(j != i);
                    assert(r[j - 1] == x);
                }
            }
            assert(t.to_set() =~= s.to_set().insert(k)) by {
                assert forall|x: A| t.contains(x) <==> s.to_set().insert(k).contains(x) by {
                    if t.contains(x) && x != k {
                        let j = choose|j: int| 0 <= j < t.len() && t[j] == x;
                        assert(r[j] == x);
                    }
                    if x != k && s.contains(x) {
                        let j = choose|j: int| 0 <= j < r.len() && r[j] == x;
                        assert(t[j] == x);
                    }
                    if x == k {
                        assert(t[t.len() - 1] == k);
                    }
                }
            }
            assert forall|a: int, b: int|
                0 <= a < t.len() && 0 <= b < t.len() && a != b implies t[a] != t[b] by {
                if a < r.len() && b < r.len() {
                    let sa = if a < i { a } else { a + 1 };
                    let sb = if b < i { b } else { b + 1 };
                    assert(r[a] == s[sa]);
                    assert(r[b] == s[sb]);
                } else if a < r.len() {
                    assert(r.contains(r[a]));
                } else if b < r.len() {
                    assert(r.contains(r[b]));
                }
            }
        },
        None => {
            assert(r == s);
            assert(t.to_set() =~= s.to_set().insert(k)) by {
                assert forall|x: A| t.contains(x) <==> s.to_set().insert(k).contains(x) by {
                    if t.contains(x) && x != k {
                        let j = choose|j: int| 0 <= j < t.len() && t[j] == x;
                        assert(s[j] == x);
                    }
                    if x != k && s.contains(x) {
                        let j = choose|j: int| 0 <= j < s.len() && s[j] == x;
                        assert(t[j] == x);
                    }
                    if x == k {
                        assert(t[t.len() - 1] == k);
                    }
                }
            }
            assert forall|a: int, b: int|
                0 <= a < t.len() && 0 <= b < t.len() && a != b implies t[a] != t[b] by {
                if a < s.len() && b < s.len() {
                } else if a < s.len() {
                    assert(s.contains(s[a]));
                } else if b < s.len() {
                    assert(s.contains(s[b]));
                }
            }
        },
    }
}

/// The access order after an access to `key`, with room for `capacity` keys:
/// a tracked key moves to the back; a new key is appended at the back, and
/// when the order is full the least recently used key leaves first.
pub open spec fn touched<A>(order: Seq<A>, capacity: nat, key: A) -> Seq<A> {
    if order.contains(key) {
        order.remove_value(key).push(key)
    } else if order.len() >= capacity {
        order.drop_first().push(key)
    } else {
        order.push(key)
    }
}

/// Appending a key that is not present keeps a sequence free of duplicates and
/// adds the key to its set.
proof fn lemma_push_new<A>(s: Seq<A>, k: A)
    requires
        s.no_duplicates(),
        !s.contains(k),
    ensures
        s.push(k).no_duplicates(),
        s.push(k).to_set() == s.to_set().insert(k),
{
    let t = s.push(k);
    assert(t.to_set() =~= s.to_set().insert(k)) by {
        assert forall|x: A| t.contains(x) <==> s.to_set().insert(k).contains(x) by {
            if t.contains(x) && x != k {
                let j = choose|j: int| 0 <= j < t.len() && t[j] == x;
                assert(s[j] == x);
            }
            if x != k && s.contains(x) {
                let j = choose|j: int| 0 <= j < s.len() && s[j] == x;
                assert(t[j] == x);
            }
            if x == k {
                assert(t[t.len() - 1] == k);
            }
        }
    }
    assert forall|a: int, b: int|
        0 <= a < t.len() && 0 <= b < t.len() && a != b implies t[a] != t[b] by {
        if a < s.len() && b < s.len() {
        } else if a < s.len() {
            assert(s.contains(s[a]));
        } else if b < s.len() {
            assert(s.contains(s[b]));
        }
    }
}

/// Dropping the first element of a sequence without duplicates removes exactly
/// that element from its set of elements.
proof fn lemma_drop_first_set<A>(s: Seq<A>)
    requires
        s.no_duplicates(),
        s.len() > 0,
    ensures
        s.drop_first().no_duplicates(),
        s.drop_first().to_set() == s.to_set().remove(s[0]),
{
    let d = s.drop_first();
    assert(d.to_set() =~= s.to_set().remove(s[0])) by {
        assert forall|x: A| d.contains(x) <==> s.to_set().remove(s[0]).contains(x) by {
            if d.contains(x) {
                let j = choose|j: int| 0 <= j < d.len() && d[j] == x;
                assert(s[j + 1] == x);
            }
            if s.contains(x) && x != s[0] {
                let j = choose|j: int| 0 <= j < s.len() && s[j] == x;
                assert(d[j - 1] == x);
            }
        }
    }
    assert forall|a: int, b: int|
        0 <= a < d.len() && 0 <= b < d.len() && a != b implies d[a] != d[b] by {
        assert(d[a] == s[a + 1]);
        assert(d[b] == s[b + 1]);
    }
}

/// LRU (Least Recently Used) eviction policy.
///
/// Keys are kept in access order, least recent first; an access moves a key to
/// the back, and eviction takes the key at the front. At most `capacity` keys
/// are tracked: recording a new key when full first drops the least recent one.
#[derive(Debug, Clone)]
pub struct LRU<K> {
    /// Maximum number of entries to track
    capacity: usize,
    /// Access order: front = least recent, back = most recent
    access_order: VecDeque<K>,
}

impl<K: CacheKey> LRU<K> {
    /// The watched keys, least recently used first.
    pub closed spec fn order(&self) -> Seq<K::V> {
        self.access_order@.map_values(|k: K| k@)
    }

    /// The capacity the policy was made with.
    pub closed spec fn spec_capacity(&self) -> usize {
        self.capacity
    }

    /// No key is watched twice, the capacity is positive, and at most
    /// `capacity` keys are watched.
    pub closed spec fn lru_well_formed(&self) -> bool {
        &&& self.capacity > 0
        &&& self.order().no_duplicates()
        &&& self.order().len() <= self.capacity
    }

    /// Create a new LRU policy; `capacity` must be positive.
    pub fn new(capacity: usize) -> (lru: Self)
        requires
            capacity > 0,
        ensures
            lru.lru_well_formed(),
            lru.spec_capacity() == capacity,
            lru.order() == Seq::<K::V>::empty(),
    {
        let lru = LRU { capacity, access_order: VecDeque::with_capacity(capacity) };
        assert(lru.order() =~= Seq::<K::V>::empty());
        lru
    }

    /// Get the capacity.
    pub fn capacity(&self) -> (c: usize)
        ensures
            c == self.spec_capacity(),
    {
        self.capacity
    }

    /// Get the current number of watched keys.
    pub fn size(&self) -> (n: usize)
        ensures
            n == self.order().len(),
            self.lru_well_formed() ==> n <= self.spec_capacity(),
    {
        self.access_order.len()
    }

    /// A copy of this policy, key by key.
    fn duplicate(&self) -> (copy: Self)
        ensures
            copy.capacity == self.capacity,
            copy.order() == self.order(),
    {
        let mut order: VecDeque<K> = VecDeque::new();
        let n = self.access_order.len();
        let mut i: usize = 0;
        while i < n
            invariant
                n == self.access_order@.len(),
                i <= n,
                order@.len() == i,
                forall|j: int| 0 <= j < i ==> #[trigger] order@[j]@ == self.access_order@[j]@,
            decreases n - i,
        {
            order.push_back(self.access_order[i].key_clone());
            i = i + 1;
        }
        let copy = LRU { capacity: self.capacity, access_order: order };
        assert(copy.order() =~= self.order());
        copy
    }
}

impl<K: CacheKey> LRU<K> {
    /// An accessed key becomes the most recently used one: it is last in the
    /// access order and occurs there once, no other key enters or leaves, and
    /// while another key is tracked it is not the next victim.
    pub proof fn law_accessed_key_is_most_recent(before: Self, after: Self, key: K::V)
        requires
            before.lru_well_formed(),
            after.order() == before.order().remove_value(key).push(key),
        ensures
            after.order().last() == key,
            forall|i: int| 0 <= i < after.order().len() - 1 ==> #[trigger] after.order()[i] != key,
            after.order().len() >= 2 ==> after.order()[0] != key,
            after.order().to_set() == before.order().to_set().insert(key),
    {
        lemma_move_to_back(before.order(), key);
        let t = after.order();
        assert forall|i: int| 0 <= i < t.len() - 1 implies #[trigger] t[i] != key by {
            assert(t[t.len() - 1] == key);
        }
    }

    /// Keys leave in access order: the victim is the least recently used key,
    /// every other key stays, and their order is kept.
    pub proof fn law_victim_is_least_recent(before: Self, after: Self, victim: K::V)
        requires
            before.lru_well_formed(),
            before.order().len() > 0,
            victim == before.order()[0],
            after.order() == before.order().drop_first(),
        ensures
            forall|i: int, j: int|
                0 <= i < j < after.order().len() ==> before.order().index_of(after.order()[i])
                    < before.order().index_of(after.order()[j]),
            after.order().to_set() == before.order().to_set().remove(victim),
            !after.order().contains(victim),
    {
        lemma_drop_first_set(before.order());
        let s = before.order();
        let t = after.order();
        assert forall|i: int, j: int| 0 <= i < j < t.len() implies s.index_of(t[i]) < s.index_of(
            t[j],
        ) by {
            assert(s[i + 1] == t[i]);
            assert(s[j + 1] == t[j]);
            assert(s.contains(t[i]));
            assert(s.contains(t[j]));
        }
        if t.contains(victim) {
            assert(t.to_set().contains(victim));
        }
    }
}

impl<K: CacheKey + Send + Sync + 'static> LRU<K> {
    /// Evictions in turn hand back the keys in access order: the `i`-th
    /// victim of a run of evictions that each found a key is the `i`-th least
    /// recently used key of the policy the run started from.
    pub proof fn law_evictions_follow_access_order(policies: Seq<Self>, victims: Seq<Option<K::V>>)
        requires
            evicted_in_turn::<K, Self>(policies, victims),
            !victims.contains(None),
            policies[0].lru_well_formed(),
        ensures
            policies[0].order().no_duplicates(),
            victims.len() <= policies[0].order().len(),
            forall|i: int| 0 <= i < victims.len() ==> #[trigger] victims[i] == Some(
                policies[0].order()[i],
            ),
        decreases victims.len(),
    {
        if victims.len() > 0 {
            let rest_p = policies.drop_first();
            let rest_v = victims.drop_first();
            assert(victims[0] == victims[0]);
            let first = policies[0];
            let second = policies[1];
            assert(first.evicted(victims[0], second));
            assert(victims[0] is Some) by {
                if victims[0] is None {
                    assert(victims.contains(None));
                }
            }
            assert forall|i: int| #![trigger rest_v[i]] 0 <= i < rest_v.len()
                implies rest_p[i].evicted(rest_v[i], rest_p[i + 1]) by {
                assert(rest_v[i] == victims[i + 1]);
                assert(victims[i + 1] == victims[i + 1]);
            }
            assert(!rest_v.contains(None)) by {
                if rest_v.contains(None) {
                    let j = choose|j: int| 0 <= j < rest_v.len() && rest_v[j] == None::<K::V>;
                    assert(victims[j + 1] == None::<K::V>);
                }
            }
            lemma_drop_first_set(first.order());
            assert(second.order() == first.order().drop_first());
            assert(second.lru_well_formed());
            Self::law_evictions_follow_access_order(rest_p, rest_v);
            assert forall|i: int| 0 <= i < victims.len() implies #[trigger] victims[i] == Some(
                first.order()[i],
            ) by {
                if i > 0 {
                    assert(victims[i] == rest_v[i - 1]);
                }
            }
        }
    }
}

impl<K: CacheKey + Send + Sync + 'static> LRU<K> {
    /// A boxed copy of this policy, with the same keys in the same order.
    pub fn clone_box(&self) -> (copy: Box<Self>)
        requires
            self.lru_well_formed(),
        ensures
            copy.lru_well_formed(),
            copy.spec_capacity() == self.spec_capacity(),
            copy.order() == self.order(),
    {
        Box::new(self.duplicate())
    }
}

impl<K: CacheKey + Send + Sync + 'static> EvictionPolicy<K> for LRU<K> {
    open spec fn well_formed(&self) -> bool {
        self.lru_well_formed()
    }

    open spec fn candidates(&self) -> Set<K::V> {
        self.order().to_set()
    }

    open spec fn accessed(&self, key: K::V, after: Self) -> bool {
        &&& after.spec_capacity() == self.spec_capacity()
        &&& after.order() == touched(self.order(), self.spec_capacity() as nat, key)
    }

    open spec fn inserted(&self, key: K::V, after: Self) -> bool {
        self.accessed(key, after)
    }

    open spec fn evicted(&self, victim: Option<K::V>, after: Self) -> bool {
        &&& after.spec_capacity() == self.spec_capacity()
        &&& match victim {
            Some(k) => {
                &&& self.order().len() > 0
                &&& k == self.order()[0]
                &&& after.order() == self.order().drop_first()
            },
            None => {
                &&& self.order().len() == 0
                &&& after.order() == self.order()
            },
        }
    }

    fn on_access(&mut self, key: &K) {
        let ghost old_order = self.order();
        let n = self.access_order.len();
        let mut i: usize = 0;
        let mut found = false;
        while i < n
            invariant_except_break
                self.access_order@ == old(self).access_order@,
                n == self.access_order@.len(),
                i <= n,
                !found,
                forall|j: int| 0 <= j < i ==> old_order[j] != key@,
            invariant
                old_order == old(self).order(),
                self.capacity == old(self).capacity,
            ensures
                found ==> {
                    &&& i < n
                    &&& old_order[i as int] == key@
                    &&& forall|j: int| 0 <= j < i ==> old_order[j] != key@
                    &&& self.order() == old_order.remove(i as int)
                },
                !found ==> {
                    &&& self.access_order@ == old(self).access_order@
                    &&& forall|j: int| 0 <= j < n ==> old_order[j] != key@
                },
            decreases n - i,
        {
            if self.access_order[i].key_eq(key) {
                self.access_order.remove(i);
                found = true;
                assert(self.order() =~= old_order.remove(i as int));
                break;
            }
            i = i + 1;
        }
        proof {
            old_order.index_of_first_ensures(key@);
            if found {
                assert(old_order.index_of_first(key@) == Some(i as int));
            } else {
                assert(!old_order.contains(key@));
            }
        }
        if !found && self.access_order.len() >= self.capacity {
            // Full: the least recently used key leaves to make room
            self.access_order.pop_front();
            proof {
                assert(self.order() =~= old_order.drop_first());
                lemma_drop_first_set(old_order);
            }
        }
        let ghost before_push = self.order();
        self.access_order.push_back(key.key_clone());
        proof {
            assert(self.order() =~= before_push.push(key@));
            if found {
                assert(self.order() =~= old_order.remove_value(key@).push(key@));
                lemma_move_to_back(old_order, key@);
            } else {
                if before_push.contains(key@) {
                    let j = choose|j: int| 0 <= j < before_push.len() && before_push[j] == key@;
                    if old_order.len() >= self.capacity {
                        assert(old_order[j + 1] == key@);
                    } else {
                        assert(old_order[j] == key@);
                    }
                }
                lemma_push_new(before_push, key@);
                if old_order.len() >= self.capacity {
                    assert(before_push.to_set() == old_order.to_set().remove(old_order[0]));
                } else {
                    assert(before_push == old_order);
                }
            }
            assert(self.order() == touched(old_order, self.capacity as nat, key@));
            assert(self.order().to_set().contains(key@)) by {
                assert(self.order()[self.order().len() - 1] == key@);
            }
        }
    }

    fn on_insert(&mut self, key: K) {
        self.on_access(&key);
    }

    fn evict(&mut self) -> (victim: Option<K>)
        ensures
            final(self).spec_capacity() == old(self).spec_capacity(),
            match victim {
                Some(k) => {
                    &&& old(self).order().len() > 0
                    &&& k@ == old(self).order()[0]
                    &&& final(self).order() == old(self).order().drop_first()
                },
                None => {
                    &&& old(self).order().len() == 0
                    &&& final(self).order() == old(self).order()
                },
            },
    {
        let ghost old_order = self.order();
        let victim = self.access_order.pop_front();
        proof {
            if victim.is_some() {
                assert(self.order() =~= old_order.drop_first());
                lemma_drop_first_set(old_order);
            } else {
                assert(old_order.to_set() =~= Set::<K::V>::empty());
            }
        }
        victim
    }

    fn reset(&mut self)
        ensures
            final(self).spec_capacity() == old(self).spec_capacity(),
            final(self).order() == Seq::<K::V>::empty(),
    {
        self.access_order.clear();
        assert(self.order() =~= Seq::<K::V>::empty());
        assert(self.order().to_set() =~= Set::<K::V>::empty());
    }
}

/// The count after one more access: one more, held at `usize::MAX`.
pub open spec fn bumped(count: nat) -> nat {
    if count < usize::MAX {
        count + 1
    } else {
        count
    }
}

/// LFU (Least Frequently Used) eviction policy.
///
/// Each tracked key has an access count; eviction takes a key whose count is
/// the smallest. At most `capacity` keys are tracked: recording a new key when
/// full first drops a key with the smallest count.
pub struct LFU<K> {
    /// Maximum number of entries to track
    capacity: usize,
    /// Access count per key
    access_count: KeyTable<K, usize>,
    /// Minimum access frequency
    min_frequency: usize,
}

impl<K: CacheKey> LFU<K> {
    /// The access count of each tracked key.
    pub closed spec fn counts(&self) -> Map<K::V, nat> {
        self.access_count.map().map_values(|c: usize| c as nat)
    }

    /// The capacity the policy was made with.
    pub closed spec fn spec_capacity(&self) -> usize {
        self.capacity
    }

    /// The recorded minimum access frequency.
    pub closed spec fn min_frequency(&self) -> usize {
        self.min_frequency
    }

    /// The count table is well formed and the capacity is positive.
    pub closed spec fn lfu_well_formed(&self) -> bool {
        &&& self.capacity > 0
        &&& self.access_count.well_formed()
        &&& self.access_count.spec_len() <= self.capacity
    }

    /// `room` is what the counts become before `key` is recorded: unchanged
    /// when `key` is tracked or fewer than `capacity` keys are, else one key
    /// with the least count leaves.
    pub open spec fn makes_room(&self, key: K::V, room: Map<K::V, nat>) -> bool {
        if self.counts().contains_key(key) || self.counts().len() < self.spec_capacity() {
            room == self.counts()
        } else {
            exists|victim: K::V|
                #[trigger] self.counts().contains_key(victim) && (forall|other: K::V|
                    #[trigger] self.counts().contains_key(other) ==> self.counts()[victim]
                        <= self.counts()[other]) && room == self.counts().remove(victim)
        }
    }

    /// The tracked keys are finitely many, as many as the table holds.
    proof fn lemma_counts_dom(&self)
        requires
            self.lfu_well_formed(),
        ensures
            self.counts().dom() == self.access_count.map().dom(),
            self.counts().dom().finite(),
            self.counts().len() == self.access_count.spec_len(),
    {
        self.access_count.lemma_dom();
        assert(self.counts().dom() =~= self.access_count.map().dom());
    }

    /// Create a new LFU policy; `capacity` must be positive.
    pub fn new(capacity: usize) -> (lfu: Self)
        requires
            capacity > 0,
        ensures
            lfu.lfu_well_formed(),
            lfu.spec_capacity() == capacity,
            lfu.counts() == Map::<K::V, nat>::empty(),
            lfu.min_frequency() == 0,
    {
        let lfu = LFU { capacity, access_count: KeyTable::new(), min_frequency: 0 };
        assert(lfu.counts() =~= Map::<K::V, nat>::empty());
        lfu
    }

    /// Get the capacity.
    pub fn capacity(&self) -> (c: usize)
        ensures
            c == self.spec_capacity(),
    {
        self.capacity
    }

    /// Get the current number of tracked keys.
    pub fn size(&self) -> (n: usize)
        requires
            self.lfu_well_formed(),
        ensures
            n == self.counts().len(),
    {
        proof {
            self.lemma_counts_dom();
        }
        self.access_count.len()
    }

    /// Get the access count for a key (0 when it is not tracked).
    pub fn get_count(&self, key: &K) -> (count: usize)
        requires
            self.lfu_well_formed(),
        ensures
            count == if self.counts().contains_key(key@) {
                self.counts()[key@]
            } else {
                0
            },
    {
        match self.access_count.position(key) {
            Some(i) => *self.access_count.item_at(i),
            None => 0,
        }
    }

    /// A copy of this policy, key by key.
    fn duplicate(&self) -> (copy: Self)
        requires
            self.lfu_well_formed(),
        ensures
            copy.lfu_well_formed(),
            copy.capacity == self.capacity,
            copy.min_frequency == self.min_frequency,
            copy.counts() == self.counts(),
    {
        let mut table: KeyTable<K, usize> = KeyTable::new();
        let n = self.access_count.len();
        let ghost keys = self.access_count.key_views();
        let ghost items = self.access_count.item_seq();
        proof {
            self.access_count.lemma_dom();
        }
        let mut i: usize = 0;
        while i < n
            invariant
                self.lfu_well_formed(),
                keys == self.access_count.key_views(),
                items == self.access_count.item_seq(),
                n == keys.len(),
                n == items.len(),
                n == self.access_count.spec_len(),
                keys.no_duplicates(),
                i <= n,
                table.well_formed(),
                table.key_views() == keys.subrange(0, i as int),
                table.item_seq() == items.subrange(0, i as int),
            decreases n - i,
        {
            let key = self.access_count.key_at(i).key_clone();
            let count = *self.access_count.item_at(i);
            proof {
                table.lemma_dom();
                if table.map().contains_key(key@) {
                    let j = table.key_views().index_of(key@);
                    assert(keys[j] == keys[i as int]);
                    assert(false);
                }
            }
            table.push_new(key, count);
            i = i + 1;
            proof {
                assert(table.key_views() =~= keys.subrange(0, i as int));
                assert(table.item_seq() =~= items.subrange(0, i as int));
            }
        }
        proof {
            assert(table.key_views() =~= keys);
            assert(table.item_seq() =~= items);
            table.lemma_same_map(&self.access_count);
            table.lemma_dom();
        }
        let copy = LFU { capacity: self.capacity, access_count: table, min_frequency: self.min_frequency };
        assert(copy.counts() =~= self.counts());
        copy
    }

    /// A key used more often than some other tracked key is never the victim
    /// of an eviction.
    pub proof fn law_more_frequent_key_survives(
        before: Self,
        victim: K::V,
        frequent: K::V,
        rare: K::V,
    )
        requires
            before.lfu_well_formed(),
            before.counts().contains_key(victim),
            forall|other: K::V| #[trigger] before.counts().contains_key(other)
                ==> before.counts()[victim] <= before.counts()[other],
            before.counts().contains_key(frequent),
            before.counts().contains_key(rare),
            before.counts()[rare] < before.counts()[frequent],
        ensures
            victim != frequent,
    {
    }

    /// An inserted key starts at count one, and each later access adds one
    /// until the count reaches `usize::MAX`.
    pub proof fn law_count_follows_accesses(inserted: Self, accessed: Self, key: K::V)
        requires
            inserted.counts().contains_key(key),
            accessed.counts() == inserted.counts().insert(key, bumped(inserted.counts()[key])),
            inserted.counts()[key] < usize::MAX,
        ensures
            accessed.counts()[key] == inserted.counts()[key] + 1,
            forall|other: K::V|
                other != key ==> #[trigger] accessed.counts().contains_key(other)
                    == inserted.counts().contains_key(other),
    {
    }

    /// Remove a key with the least count, if any key is tracked.
    fn remove_least_frequent(&mut self) -> (victim: Option<K>)
        requires
            old(self).lfu_well_formed(),
        ensures
            final(self).lfu_well_formed(),
            final(self).counts().len() + (if victim is Some { 1int } else { 0int }) == old(self).counts().len(),
            final(self).spec_capacity() == old(self).spec_capacity(),
            final(self).min_frequency() == old(self).min_frequency(),
            match victim {
                Some(k) => {
                    &&& old(self).counts().contains_key(k@)
                    &&& forall|other: K::V| #[trigger] old(self).counts().contains_key(other)
                        ==> old(self).counts()[k@] <= old(self).counts()[other]
                    &&& final(self).counts() == old(self).counts().remove(k@)
                },
                None => {
                    &&& old(self).counts() == Map::<K::V, nat>::empty()
                    &&& final(self).counts() == old(self).counts()
                },
            },
    {
        let ghost old_counts = self.counts();
        proof {
            self.lemma_counts_dom();
        }
        let n = self.access_count.len();
        proof {
            self.access_count.lemma_dom();
        }
        if n == 0 {
            assert(old_counts =~= Map::<K::V, nat>::empty());
            return None;
        }
        let ghost items = self.access_count.item_seq();
        let mut min_index: usize = 0;
        let mut i: usize = 1;
        while i < n
            invariant
                self.lfu_well_formed(),
                items == self.access_count.item_seq(),
                n == self.access_count.spec_len(),
                n == items.len(),
                1 <= i <= n,
                min_index < i,
                forall|j: int| 0 <= j < i ==> items[min_index as int] <= #[trigger] items[j],
            decreases n - i,
        {
            if *self.access_count.item_at(i) < *self.access_count.item_at(min_index) {
                min_index = i;
            }
            i = i + 1;
        }
        let ghost keys = self.access_count.key_views();
        proof {
            self.access_count.lemma_at(min_index as int);
            assert forall|other: K::V| #[trigger] old_counts.contains_key(other)
                implies old_counts[keys[min_index as int]] <= old_counts[other] by {
                let j = keys.index_of(other);
                self.access_count.lemma_at(j);
            }
        }
        let (victim, _count) = self.access_count.remove_at(min_index);
        proof {
            self.lemma_counts_dom();
            old(self).lemma_counts_dom();
            assert(self.counts() =~= old_counts.remove(victim@));
        }
        Some(victim)
    }

    /// Drop a least frequent key when `key` is new and the policy is full.
    fn make_room(&mut self, key: &K)
        requires
            old(self).lfu_well_formed(),
        ensures
            final(self).lfu_well_formed(),
            final(self).capacity == old(self).capacity,
            final(self).min_frequency == old(self).min_frequency,
            old(self).makes_room(key@, final(self).counts()),
            final(self).counts().contains_key(key@) == old(self).counts().contains_key(key@),
            final(self).counts().contains_key(key@) || final(self).counts().len() < final(self).capacity,
    {
        proof {
            self.lemma_counts_dom();
        }
        if self.access_count.position(key).is_none() && self.access_count.len() >= self.capacity {
            let victim = self.remove_least_frequent();
            proof {
                self.lemma_counts_dom();
                let v = victim->Some_0;
                assert(old(self).counts().contains_key(v@));
                assert(v@ != key@);
            }
        }
    }

    /// A boxed copy of this policy, with the same counts.
    pub fn clone_box(&self) -> (copy: Box<Self>)
        requires
            self.lfu_well_formed(),
        ensures
            copy.lfu_well_formed(),
            copy.spec_capacity() == self.spec_capacity(),
            copy.counts() == self.counts(),
            copy.min_frequency() == self.min_frequency(),
    {
        Box::new(self.duplicate())
    }
}

impl<K: CacheKey + Send + Sync + 'static> EvictionPolicy<K> for LFU<K> {
    open spec fn well_formed(&self) -> bool {
        self.lfu_well_formed()
    }

    open spec fn candidates(&self) -> Set<K::V> {
        self.counts().dom()
    }

    open spec fn accessed(&self, key: K::V, after: Self) -> bool {
        let count = if self.counts().contains_key(key) {
            bumped(self.counts()[key])
        } else {
            1
        };
        &&& after.spec_capacity() == self.spec_capacity()
        &&& exists|room: Map<K::V, nat>|
            #[trigger] self.makes_room(key, room) && after.counts() == room.insert(key, count)
        &&& after.min_frequency() == if self.min_frequency() == 0 || count < self.min_frequency() {
            count
        } else {
            self.min_frequency() as nat
        }
    }

    open spec fn inserted(&self, key: K::V, after: Self) -> bool {
        &&& after.spec_capacity() == self.spec_capacity()
        &&& exists|room: Map<K::V, nat>|
            #[trigger] self.makes_room(key, room) && after.counts() == room.insert(key, 1)
        &&& after.min_frequency() == 1
    }

    open spec fn evicted(&self, victim: Option<K::V>, after: Self) -> bool {
        &&& after.spec_capacity() == self.spec_capacity()
        &&& after.min_frequency() == self.min_frequency()
        &&& match victim {
            Some(k) => {
                &&& self.counts().contains_key(k)
                &&& forall|other: K::V| #[trigger] self.counts().contains_key(other)
                    ==> self.counts()[k] <= self.counts()[other]
                &&& after.counts() == self.counts().remove(k)
            },
            None => {
                &&& self.counts() == Map::<K::V, nat>::empty()
                &&& after.counts() == self.counts()
            },
        }
    }

    fn on_access(&mut self, key: &K)
    {
        let count = self.get_count(key);
        let count = count.saturating_add(1);
        self.make_room(key);
        let ghost room = self.counts();
        proof {
            self.access_count.lemma_dom();
            self.lemma_counts_dom();
        }
        self.access_count.insert(key.key_clone(), count);
        if self.min_frequency == 0 || count < self.min_frequency {
            self.min_frequency = count;
        }
        proof {
            self.access_count.lemma_dom();
            assert(self.access_count.map().dom() =~= room.dom().insert(key@));
            self.lemma_counts_dom();
            assert(self.counts() =~= room.insert(key@, count as nat));
            assert(old(self).makes_room(key@, room));
        }
    }

    fn on_insert(&mut self, key: K) {
        let ghost k = key@;
        self.make_room(&key);
        let ghost room = self.counts();
        proof {
            self.access_count.lemma_dom();
            self.lemma_counts_dom();
        }
        self.access_count.insert(key, 1);
        self.min_frequency = 1;
        proof {
            self.access_count.lemma_dom();
            assert(self.access_count.map().dom() =~= room.dom().insert(k));
            self.lemma_counts_dom();
            assert(self.counts() =~= room.insert(k, 1));
            assert(old(self).makes_room(k, room));
        }
    }

    fn evict(&mut self) -> (victim: Option<K>)
        ensures
            final(self).spec_capacity() == old(self).spec_capacity(),
            final(self).min_frequency() == old(self).min_frequency(),
            match victim {
                Some(k) => {
                    &&& old(self).counts().contains_key(k@)
                    &&& forall|other: K::V| #[trigger] old(self).counts().contains_key(other)
                        ==> old(self).counts()[k@] <= old(self).counts()[other]
                    &&& final(self).counts() == old(self).counts().remove(k@)
                },
                None => {
                    &&& old(self).counts() == Map::<K::V, nat>::empty()
                    &&& final(self).counts() == old(self).counts()
                },
            },
    {
        let victim = self.remove_least_frequent();
        proof {
            self.lemma_counts_dom();
        }
        victim
    }

    fn reset(&mut self)
        ensures
            final(self).spec_capacity() == old(self).spec_capacity(),
            final(self).counts() == Map::<K::V, nat>::empty(),
            final(self).min_frequency() == 0,
    {
        self.access_count.clear();
        self.min_frequency = 0;
        assert(self.counts() =~= Map::<K::V, nat>::empty());
        assert(self.counts().dom() =~= Set::<K::V>::empty());
    }
}

} // verus!
