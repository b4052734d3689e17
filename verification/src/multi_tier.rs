//! Multi-tier cache orchestration.
//!
//! Combines cache tiers, fastest first: reads search the tiers in order and
//! promote a value found in a slower tier to the faster ones; writes and
//! deletions go to every tier.

use std::time::Duration;
use vstd::prelude::*;

use crate::cache::Cache;
use crate::clock::duration_as_nanos;
use crate::{default_ttl, DEFAULT_TTL_SECS};
use crate::error::CacheError;
use crate::key::CacheKey;
use crate::tier::{Tier, TierStats};

verus! {

/// A tier's answer `held` is nothing, or a clone of `value`.
pub open spec fn nothing_or_copy<V: Clone>(held: Option<V>, value: V) -> bool {
    held is None || (held matches Some(c) && cloned::<V>(value, c))
}

/// A tier's answer `held`, written with time-to-live `ttl`, is a clone of
/// `value` stored without a time limit.
pub open spec fn promoted_copy<V: Clone>(held: Option<V>, ttl: Option<u128>, value: V) -> bool {
    (held matches Some(c) && cloned::<V>(value, c)) && ttl is None
}

/// Tier `i`'s read of `key`, taking it from `befores[i]` to `afters[i]` with
/// answer `answer`, as `Tier::get` promises.
pub open spec fn read_step<K: CacheKey, V: Clone>(
    befores: Seq<Box<dyn Tier<K, V>>>,
    afters: Seq<Box<dyn Tier<K, V>>>,
    i: int,
    key: K::V,
    answer: Result<Option<V>, CacheError>,
) -> bool {
    let before = befores[i];
    let after = afters[i];
    &&& after.well_formed()
    &&& after.infallible() == before.infallible()
    &&& !(answer matches Ok(Some(_))) && before.accepts(key) ==> after.accepts(key)
    &&& before.infallible() ==> answer is Ok
    &&& before.surely_present(key) ==> (answer matches Ok(Some(_)))
    &&& (answer matches Ok(Some(v)) ==> (before.lookup(key) matches Some(held) && cloned::<V>(
        held,
        v,
    )))
    &&& answer == Ok::<Option<V>, CacheError>(None) ==> after.lookup(key) is None
    &&& forall|k: K::V| k != key ==> #[trigger] after.lookup(k) == before.lookup(k)
}

/// Tier `i`'s write of a clone of `value` under `key` with time-to-live `ttl`
/// (in nanoseconds), taking it from `befores[i]` to `afters[i]` with answer
/// `answer`, as `Tier::set` promises.
pub open spec fn write_step<K: CacheKey, V: Clone>(
    befores: Seq<Box<dyn Tier<K, V>>>,
    afters: Seq<Box<dyn Tier<K, V>>>,
    i: int,
    key: K::V,
    value: V,
    ttl: Option<u128>,
    answer: Result<(), CacheError>,
) -> bool {
    let before = befores[i];
    let after = afters[i];
    &&& after.well_formed()
    &&& after.infallible() == before.infallible()
    &&& before.accepts(key) ==> answer is Ok
    &&& answer is Ok ==> (after.lookup(key) matches Some(c) && cloned::<V>(value, c))
    &&& answer is Ok ==> after.written_ttl(key) == ttl
    &&& answer is Ok && ttl is None ==> after.surely_present(key)
    &&& answer is Err ==> after.lookup(key) is None || after.lookup(key) == before.lookup(key)
    &&& forall|k: K::V|
        k != key ==> #[trigger] after.lookup(k) == before.lookup(k) || after.lookup(k) is None
}

/// Tier `i`'s deletion of `key`, taking it from `befores[i]` to `afters[i]`
/// with answer `answer`, as `Tier::delete` promises.
pub open spec fn delete_step<K: CacheKey, V: Clone>(
    befores: Seq<Box<dyn Tier<K, V>>>,
    afters: Seq<Box<dyn Tier<K, V>>>,
    i: int,
    key: K::V,
    answer: Result<(), CacheError>,
) -> bool {
    let before = befores[i];
    let after = afters[i];
    &&& after.well_formed()
    &&& after.infallible() == before.infallible()
    &&& before.infallible() ==> answer is Ok
    &&& answer is Ok ==> after.lookup(key) is None
    &&& forall|k: K::V| k != key ==> #[trigger] after.lookup(k) == before.lookup(k)
}

/// Tier `i`'s existence check of `key` answering `answer`, as
/// `Tier::key_exists` promises.
pub open spec fn exists_step<K: CacheKey, V: Clone>(
    tiers: Seq<Box<dyn Tier<K, V>>>,
    i: int,
    key: K::V,
    answer: Result<bool, CacheError>,
) -> bool {
    let tier = tiers[i];
    &&& tier.infallible() ==> answer is Ok
    &&& tier.surely_present(key) ==> answer == Ok::<bool, CacheError>(true)
    &&& answer == Ok::<bool, CacheError>(true) ==> tier.lookup(key) is Some
}

/// The error of the last failing answer, if any.
pub open spec fn last_failure(answers: Seq<Result<(), CacheError>>) -> Option<CacheError>
    decreases answers.len(),
{
    if answers.len() == 0 {
        None
    } else {
        match answers.last() {
            Err(e) => Some(e),
            Ok(()) => last_failure(answers.drop_last()),
        }
    }
}

/// What a write or a deletion through every tier answers, given the tiers'
/// answers in order: success when every tier succeeded, else the error of the
/// last tier that failed.
pub open spec fn all_tiers_verdict(answers: Seq<Result<(), CacheError>>) -> Result<(), CacheError> {
    match last_failure(answers) {
        Some(e) => Err(e),
        None => Ok(()),
    }
}

/// What a read answers, given the answers of the tiers asked, fastest first:
/// the value the last one found, if it found one; else, when every tier
/// failed, the last tier's error; else nothing.
pub open spec fn read_verdict<V>(answers: Seq<Result<Option<V>, CacheError>>) -> Result<
    Option<V>,
    CacheError,
> {
    if answers.len() > 0 && answers.last() matches Ok(Some(_)) {
        answers.last()
    } else if answers.len() > 0 && forall|i: int| 0 <= i < answers.len() ==> #[trigger] answers[i] is Err {
        Err(answers.last()->Err_0)
    } else {
        Ok(None)
    }
}

/// What an existence check answers, given the answers of the tiers asked,
/// fastest first: whether the last one answered `true`.
pub open spec fn exists_verdict(answers: Seq<Result<bool, CacheError>>) -> bool {
    answers.len() > 0 && answers.last() == Ok::<bool, CacheError>(true)
}

/// A write or deletion through every tier succeeds exactly when every tier
/// succeeded; when it fails, its error is that of a failing tier after which
/// every tier succeeded.
pub proof fn law_write_fails_with_last_failure(answers: Seq<Result<(), CacheError>>)
    ensures
        all_tiers_verdict(answers) is Ok <==> forall|i: int|
            0 <= i < answers.len() ==> #[trigger] answers[i] is Ok,
        all_tiers_verdict(answers) matches Err(e) ==> exists|i: int|
            0 <= i < answers.len() && #[trigger] answers[i] == Err::<(), CacheError>(e) && forall|j: int|
                i < j < answers.len() ==> #[trigger] answers[j] is Ok,
    decreases answers.len(),
{
    if answers.len() > 0 {
        let rest = answers.drop_last();
        law_write_fails_with_last_failure(rest);
        let n = answers.len() - 1;
        assert forall|i: int| 0 <= i < rest.len() implies rest[i] == answers[i] by {}
        match answers.last() {
            Err(e) => {
                assert(answers[n] == Err::<(), CacheError>(e));
            },
            Ok(()) => {
                if all_tiers_verdict(answers) is Ok {
                    assert forall|i: int| 0 <= i < answers.len() implies #[trigger] answers[i] is Ok by {
                        if i < n {
                            assert(rest[i] == answers[i]);
                        }
                    }
                } else {
                    let e = all_tiers_verdict(answers)->Err_0;
                    let i = choose|i: int|
                        0 <= i < rest.len() && #[trigger] rest[i] == Err::<(), CacheError>(e) && forall|j: int|
                            i < j < rest.len() ==> #[trigger] rest[j] is Ok;
                    assert(answers[i] == Err::<(), CacheError>(e));
                    assert forall|j: int| i < j < answers.len() implies #[trigger] answers[j] is Ok by {
                        if j < n {
                            assert(rest[j] == answers[j]);
                        }
                    }
                }
                if forall|i: int| 0 <= i < answers.len() ==> #[trigger] answers[i] is Ok {
                    assert forall|i: int| 0 <= i < rest.len() implies #[trigger] rest[i] is Ok by {
                        assert(answers[i] is Ok);
                    }
                }
            },
        }
    }
}

/// A read reports an error only when it asked at least one tier and every
/// tier it asked failed; then the error is the last tier's.
pub proof fn law_read_errs_only_when_every_tier_failed<V>(answers: Seq<Result<Option<V>, CacheError>>)
    ensures
        read_verdict(answers) is Err ==> answers.len() > 0 && forall|i: int|
            0 <= i < answers.len() ==> #[trigger] answers[i] is Err,
        read_verdict(answers) is Err ==> read_verdict(answers) == answers.last(),
        (exists|i: int| 0 <= i < answers.len() && #[trigger] answers[i] is Ok) ==> read_verdict(answers) is Ok,
{
}

/// Multi-tier cache that combines multiple cache layers
#[verifier::reject_recursive_types(K)]
#[verifier::reject_recursive_types(V)]
pub struct MultiTierCache<K, V> {
    /// Cache tiers (L1=fastest, Ln=slowest)
    tiers: Vec<Box<dyn Tier<K, V>>>,
}

impl<K: CacheKey, V: Clone> MultiTierCache<K, V> {
    /// The tiers, fastest first.
    pub closed spec fn layers(&self) -> Seq<Box<dyn Tier<K, V>>> {
        self.tiers@
    }

    /// Every tier is well formed.
    pub open spec fn layers_well_formed(&self) -> bool {
        forall|i: int| 0 <= i < self.layers().len() ==> #[trigger] self.layers()[i].well_formed()
    }

    /// Every tier accepts a write of `key`.
    pub open spec fn all_accept(&self, key: K::V) -> bool {
        forall|i: int| 0 <= i < self.layers().len() ==> #[trigger] self.layers()[i].accepts(key)
    }

    /// Reads, existence checks, deletions and clears succeed on every tier.
    pub open spec fn all_infallible(&self) -> bool {
        forall|i: int| 0 <= i < self.layers().len() ==> #[trigger] self.layers()[i].infallible()
    }

    /// A search of `key` through the tiers, fastest first: tier `i` answered
    /// `answers[i]` and was left as `read[i]`; the search asked every tier or
    /// stopped at the first one that found a value.
    pub open spec fn searched(
        &self,
        key: K::V,
        answers: Seq<Result<Option<V>, CacheError>>,
        read: Seq<Box<dyn Tier<K, V>>>,
    ) -> bool {
        &&& answers.len() <= self.layers().len()
        &&& read.len() == answers.len()
        &&& forall|i: int|
            #![trigger answers[i]]
            0 <= i < answers.len() ==> read_step(self.layers(), read, i, key, answers[i])
        &&& forall|i: int|
            #![trigger answers[i]]
            0 <= i < answers.len() - 1 ==> !(answers[i] matches Ok(Some(_)))
        &&& answers.len() == self.layers().len() || (answers.len() > 0 && answers.last() matches Ok(
            Some(_),
        ))
    }

    /// Caches whose tiers pair up in infallibility agree on `all_infallible`.
    proof fn lemma_same_infallible(a: Self, b: Self)
        requires
            a.layers().len() == b.layers().len(),
            forall|j: int| 0 <= j < a.layers().len() ==> #[trigger] a.layers()[j].infallible()
                == b.layers()[j].infallible(),
        ensures
            a.all_infallible() == b.all_infallible(),
    {
        if a.all_infallible() {
            assert forall|i: int| 0 <= i < b.layers().len() implies #[trigger] b.layers()[i].infallible() by {
                assert(a.layers()[i].infallible());
            }
        }
        if b.all_infallible() {
            assert forall|i: int| 0 <= i < a.layers().len() implies #[trigger] a.layers()[i].infallible() by {
                assert(b.layers()[i].infallible());
            }
        }
    }

    /// After a successful delete no tier holds a value for the key, so a read
    /// of that key finds nothing.
    pub proof fn law_read_after_delete_finds_nothing(cache: Self, key: K::V, value: V)
        requires
            cache.absent(key),
        ensures
            !cache.holds(key, value),
    {
        if cache.holds(key, value) {
            let i = choose|i: int|
                0 <= i < cache.layers().len() && #[trigger] cache.layers()[i].lookup(key) == Some(
                    value,
                );
            assert(cache.layers()[i].lookup(key) is None);
        }
    }

    /// Write-through: after a successful write every tier holds a clone of the
    /// value, so with at least one tier the key is held somewhere.
    pub proof fn law_write_reaches_every_tier(cache: Self, key: K::V, value: V)
        requires
            cache.stores(key, value),
            cache.layers().len() > 0,
        ensures
            !cache.absent(key),
            exists|c: V| #[trigger] cache.holds(key, c) && cloned::<V>(value, c),
    {
        let c = cache.layers()[0].lookup(key)->Some_0;
        assert(cache.layers()[0].lookup(key) == Some(c));
        assert(cache.holds(key, c));
    }

    /// Create a new multi-tier cache, with no tiers.
    pub fn new() -> (cache: Self)
        ensures
            cache.layers() == Seq::<Box<dyn Tier<K, V>>>::empty(),
    {
        MultiTierCache { tiers: Vec::new() }
    }

    /// Add a cache tier, after the existing ones (as the slowest tier).
    ///
    /// The tier must be well formed, as every constructor of the library's
    /// tiers leaves it. What is known of a boxed trait object is not carried
    /// across the coercion at a call, so this requirement is met by callers
    /// outside verified code, which pass tiers built by those constructors.
    pub fn add_tier(&mut self, tier: Box<dyn Tier<K, V>>)
        requires
            tier.well_formed(),
        ensures
            final(self).layers() == old(self).layers().push(tier),
    {
        self.tiers.push(tier);
    }

    /// Get number of tiers.
    pub fn num_tiers(&self) -> (n: usize)
        ensures
            n == self.layers().len(),
    {
        self.tiers.len()
    }

    /// Get statistics for all tiers, one per tier.
    pub fn stats(&self) -> (stats: Vec<TierStats>)
        ensures
            stats@.len() == self.layers().len(),
            forall|i: int| 0 <= i < stats@.len() ==> #[trigger] stats@[i]
                == self.layers()[i].spec_stats(),
    {
        let mut stats: Vec<TierStats> = Vec::new();
        let n = self.tiers.len();
        let mut i: usize = 0;
        while i < n
            invariant
                n == self.layers().len(),
                i <= n,
                stats@.len() == i,
                forall|j: int| 0 <= j < i ==> #[trigger] stats@[j] == self.layers()[j].spec_stats(),
            decreases n - i,
        {
            stats.push(self.tiers[i].stats());
            i = i + 1;
        }
        stats
    }
}

impl<K: CacheKey, V: Clone> Default for MultiTierCache<K, V> {
    fn default() -> (cache: Self)
        ensures
            cache.layers() == Seq::<Box<dyn Tier<K, V>>>::empty(),
    {
        Self::new()
    }
}

impl<K: CacheKey, V: Clone> Cache<K, V> for MultiTierCache<K, V> {
    open spec fn well_formed(&self) -> bool {
        self.layers_well_formed()
    }

    open spec fn holds(&self, key: K::V, value: V) -> bool {
        exists|i: int| 0 <= i < self.layers().len() && #[trigger] self.layers()[i].lookup(key) == Some(value)
    }

    open spec fn stores(&self, key: K::V, value: V) -> bool {
        forall|i: int| 0 <= i < self.layers().len() ==> (#[trigger] self.layers()[i].lookup(key)
            matches Some(c) && cloned::<V>(value, c))
    }

    open spec fn absent(&self, key: K::V) -> bool {
        forall|i: int| 0 <= i < self.layers().len() ==> #[trigger] self.layers()[i].lookup(key) is None
    }

    fn get(&mut self, key: &K) -> (found: Result<Option<V>, CacheError>)
        ensures
            final(self).layers().len() == old(self).layers().len(),
            old(self).layers().len() == 0 ==> found == Ok::<Option<V>, CacheError>(None),
            final(self).all_infallible() == old(self).all_infallible(),
            old(self).all_infallible() ==> found is Ok,
            found is Err ==> old(self).layers().len() > 0,
            (exists|j: int| 0 <= j < old(self).layers().len() && #[trigger] old(self).layers()[j].surely_present(key@))
                ==> found matches Ok(Some(_)),
            old(self).all_infallible() && found == Ok::<Option<V>, CacheError>(None) ==> final(self).absent(key@),
            found matches Ok(Some(v)) ==> exists|i: int|
                0 <= i < old(self).layers().len() && (#[trigger] old(self).layers()[i].lookup(key@)
                    matches Some(held) && cloned::<V>(held, v)) && (forall|j: int|
                    i < j < old(self).layers().len() ==> #[trigger] final(self).layers()[j]
                        == old(self).layers()[j]) && (forall|j: int|
                    0 <= j < i ==> !#[trigger] old(self).layers()[j].surely_present(key@)) && (
                forall|j: int|
                    0 <= j < i && #[trigger] old(self).layers()[j].accepts(key@) ==> promoted_copy(
                        final(self).layers()[j].lookup(key@),
                        final(self).layers()[j].written_ttl(key@),
                        v,
                    )) && (old(self).all_infallible() ==> forall|j: int|
                    0 <= j < i ==> #[trigger] nothing_or_copy(final(self).layers()[j].lookup(key@), v)),
            exists|answers: Seq<Result<Option<V>, CacheError>>, read: Seq<Box<dyn Tier<K, V>>>|
                {
                    &&& #[trigger] old(self).searched(key@, answers, read)
                    &&& found == read_verdict(answers)
                    &&& forall|j: int|
                        answers.len() <= j < old(self).layers().len() ==> #[trigger] final(self).layers()[j]
                            == old(self).layers()[j]
                    &&& match found {
                        Ok(Some(v)) => {
                            &&& final(self).layers()[answers.len() - 1] == read[answers.len() - 1]
                            &&& exists|promoted: Seq<Result<(), CacheError>>|
                                #![trigger promoted.len()]
                                promoted.len() == answers.len() - 1 && forall|j: int|
                                    #![trigger promoted[j]]
                                    0 <= j < answers.len() - 1 ==> write_step(
                                        read,
                                        final(self).layers(),
                                        j,
                                        key@,
                                        v,
                                        None,
                                        promoted[j],
                                    )
                        },
                        _ => forall|j: int| 0 <= j < answers.len() ==> #[trigger] final(self).layers()[j] == read[j],
                    }
                },
    {
        let n = self.tiers.len();
        let mut last_error: Option<CacheError> = None;
        let mut answered = false;
        let ghost mut answers: Seq<Result<Option<V>, CacheError>> = Seq::empty();
        let ghost mut read: Seq<Box<dyn Tier<K, V>>> = Seq::empty();
        let mut tier_idx: usize = 0;
        // Search tiers from fastest (L1) to slowest (Ln)
        while tier_idx < n
            invariant
                n == self.layers().len(),
                n == old(self).layers().len(),
                tier_idx <= n,
                self.layers_well_formed(),
                forall|j: int| tier_idx <= j < n ==> #[trigger] self.layers()[j] == old(self).layers()[j],
                forall|j: int| 0 <= j < n ==> #[trigger] self.layers()[j].infallible() == old(self).layers()[j].infallible(),
                forall|j: int| 0 <= j < tier_idx && #[trigger] old(self).layers()[j].accepts(key@) ==> self.layers()[j].accepts(key@),
                forall|j: int| 0 <= j < tier_idx ==> !#[trigger] old(self).layers()[j].surely_present(key@),
                old(self).all_infallible() ==> forall|j: int| 0 <= j < tier_idx ==> #[trigger] self.layers()[j].lookup(key@) is None,
                old(self).all_infallible() ==> last_error is None,
                last_error is Some ==> tier_idx > 0,
                answers.len() == tier_idx,
                read.len() == tier_idx,
                forall|i: int|
                    #![trigger answers[i]]
                    0 <= i < tier_idx ==> read_step(old(self).layers(), read, i, key@, answers[i]),
                forall|i: int|
                    #![trigger answers[i]]
                    0 <= i < tier_idx ==> !(answers[i] matches Ok(Some(_))),
                forall|j: int| 0 <= j < tier_idx ==> #[trigger] self.layers()[j] == read[j],
                !answered ==> forall|i: int| #![trigger answers[i]] 0 <= i < tier_idx ==> answers[i] is Err,
                answered ==> exists|i: int| #![trigger answers[i]] 0 <= i < tier_idx && answers[i] is Ok,
                !answered && tier_idx > 0 ==> last_error == Some(answers[tier_idx - 1]->Err_0),
            decreases n - tier_idx,
        {
            let ghost before = self.layers()[tier_idx as int];
            let ghost pre = self.layers();
            let answer = self.tiers[tier_idx].get(key);
            proof {
                assert(forall|j: int| 0 <= j < n && j != tier_idx ==> #[trigger] self.layers()[j] == pre[j]);
                assert(read_step(pre, self.layers(), tier_idx as int, key@, answer));
                let prev_answers = answers;
                let prev_read = read;
                answers = answers.push(answer);
                read = self.layers().subrange(0, tier_idx + 1);
                assert forall|i: int| #![trigger answers[i]] 0 <= i < tier_idx + 1 implies read_step(
                    old(self).layers(),
                    read,
                    i,
                    key@,
                    answers[i],
                ) by {
                    if i < tier_idx {
                        assert(answers[i] == prev_answers[i]);
                        assert(read[i] == self.layers()[i]);
                        assert(prev_read[i] == pre[i]);
                    } else {
                        assert(answers[i] == answer);
                        assert(pre[i] == old(self).layers()[i]);
                    }
                }
                assert forall|i: int| #![trigger answers[i]] 0 <= i < tier_idx implies !(answers[i] matches Ok(Some(_))) by {
                    assert(answers[i] == prev_answers[i]);
                }
                assert forall|j: int| 0 <= j < tier_idx + 1 implies #[trigger] self.layers()[j] == read[j] by {
                    assert(read[j] == self.layers()[j]);
                }
                if answered {
                    let w = choose|i: int| #![trigger prev_answers[i]] 0 <= i < tier_idx && prev_answers[i] is Ok;
                    assert(answers[w] == prev_answers[w]);
                }
                if !answered {
                    assert forall|i: int| #![trigger answers[i]] 0 <= i < tier_idx implies answers[i] is Err by {
                        assert(answers[i] == prev_answers[i]);
                    }
                }
            }
            match answer {
                Ok(Some(value)) => {
                    let ghost held = before.lookup(key@)->Some_0;
                    assert(old(self).layers()[tier_idx as int].lookup(key@) == Some(held));
                    assert(old(self).holds(key@, held));
                    let ghost mut promoted: Seq<Result<(), CacheError>> = Seq::empty();
                    // Found in this tier - promote to faster tiers
                    let mut faster: usize = 0;
                    while faster < tier_idx
                        invariant
                            n == self.layers().len(),
                            n == old(self).layers().len(),
                            tier_idx < n,
                            faster <= tier_idx,
                            self.layers_well_formed(),
                            forall|j: int| tier_idx < j < n ==> #[trigger] self.layers()[j]
                                == old(self).layers()[j],
                            forall|j: int| 0 <= j < n ==> #[trigger] self.layers()[j].infallible() == old(self).layers()[j].infallible(),
                            forall|j: int| faster <= j < tier_idx && #[trigger] old(self).layers()[j].accepts(key@) ==> self.layers()[j].accepts(key@),
                            forall|j: int|
                                0 <= j < faster && #[trigger] old(self).layers()[j].accepts(key@) ==> promoted_copy(
                                    self.layers()[j].lookup(key@),
                                    self.layers()[j].written_ttl(key@),
                                    value,
                                ),
                            old(self).all_infallible() ==> forall|j: int|
                                0 <= j < faster ==> #[trigger] nothing_or_copy(self.layers()[j].lookup(key@), value),
                            old(self).all_infallible() ==> forall|j: int|
                                faster <= j < tier_idx ==> #[trigger] self.layers()[j].lookup(key@) is None,
                            read.len() == tier_idx + 1,
                            forall|j: int| faster <= j <= tier_idx ==> #[trigger] self.layers()[j] == read[j],
                            promoted.len() == faster,
                            forall|j: int|
                                #![trigger promoted[j]]
                                0 <= j < faster ==> write_step(read, self.layers(), j, key@, value, None, promoted[j]),
                        decreases tier_idx - faster,
                    {
                        let copy = value.clone();
                        let ghost promoted_at = faster as int;
                        let ghost before = self.layers()[promoted_at];
                        let ghost pre = self.layers();
                        let done = self.tiers[faster].set(key.key_clone(), copy, None);
                        proof {
                            assert(forall|j: int| 0 <= j < n && j != promoted_at ==> #[trigger] self.layers()[j] == pre[j]);
                            assert(cloned::<V>(value, copy));
                            assert(write_step(pre, self.layers(), promoted_at, key@, value, None, done));
                            let prev = promoted;
                            promoted = promoted.push(done);
                            assert forall|j: int| #![trigger promoted[j]] 0 <= j < faster + 1 implies write_step(
                                read,
                                self.layers(),
                                j,
                                key@,
                                value,
                                None,
                                promoted[j],
                            ) by {
                                if j < faster {
                                    assert(promoted[j] == prev[j]);
                                    assert(self.layers()[j] == pre[j]);
                                } else {
                                    assert(promoted[j] == done);
                                    assert(pre[j] == read[j]);
                                }
                            }
                            if old(self).all_infallible() {
                                assert(before.lookup(key@) is None);
                                assert(nothing_or_copy(self.layers()[promoted_at].lookup(key@), value));
                            }
                            if old(self).layers()[promoted_at].accepts(key@) {
                                assert(before.accepts(key@));
                                assert(promoted_copy(
                                    self.layers()[promoted_at].lookup(key@),
                                    self.layers()[promoted_at].written_ttl(key@),
                                    value,
                                ));
                            }
                        }
                        faster = faster + 1;
                    }
                    proof {
                        Self::lemma_same_infallible(*self, *old(self));
                        assert(read_verdict(answers) == Ok::<Option<V>, CacheError>(Some(value)));
                        assert(old(self).searched(key@, answers, read));
                    }
                    return Ok(Some(value));
                },
                Ok(None) => {
                    answered = true;
                },
                Err(e) => {
                    last_error = Some(e);
                },
            }
            tier_idx = tier_idx + 1;
        }
        proof {
            Self::lemma_same_infallible(*self, *old(self));
        }
        // Not found in any tier: report an error only when every tier failed
        if !answered {
            match last_error {
                Some(e) => {
                    proof {
                        assert(read_verdict(answers) == Err::<Option<V>, CacheError>(e));
                        assert(old(self).searched(key@, answers, read));
                    }
                    return Err(e);
                },
                None => {},
            }
        }
        proof {
            if answered {
                let w = choose|i: int| #![trigger answers[i]] 0 <= i < tier_idx && answers[i] is Ok;
                assert(!(forall|i: int| 0 <= i < answers.len() ==> #[trigger] answers[i] is Err));
            }
            assert(read_verdict(answers) == Ok::<Option<V>, CacheError>(None));
            assert(old(self).searched(key@, answers, read));
        }
        Ok(None)
    }

    fn set(&mut self, key: K, value: V) -> (done: Result<(), CacheError>)
        ensures
            final(self).layers().len() == old(self).layers().len(),
            old(self).all_accept(key@) ==> done is Ok,
            done is Ok ==> forall|i: int|
                0 <= i < final(self).layers().len() ==> #[trigger] final(self).layers()[i].written_ttl(key@)
                    == Some((DEFAULT_TTL_SECS * 1_000_000_000) as u128),
            exists|answers: Seq<Result<(), CacheError>>|
                {
                    &&& #[trigger] all_tiers_verdict(answers) == done
                    &&& answers.len() == old(self).layers().len()
                    &&& forall|i: int|
                        #![trigger answers[i]]
                        0 <= i < answers.len() ==> write_step(
                            old(self).layers(),
                            final(self).layers(),
                            i,
                            key@,
                            value,
                            Some((DEFAULT_TTL_SECS * 1_000_000_000) as u128),
                            answers[i],
                        )
                },
    {
        self.set_with_ttl(key, value, default_ttl())
    }

    fn delete(&mut self, key: &K) -> (done: Result<(), CacheError>)
        ensures
            final(self).layers().len() == old(self).layers().len(),
            old(self).all_infallible() ==> done is Ok,
            exists|answers: Seq<Result<(), CacheError>>|
                {
                    &&& #[trigger] all_tiers_verdict(answers) == done
                    &&& answers.len() == old(self).layers().len()
                    &&& forall|i: int|
                        #![trigger answers[i]]
                        0 <= i < answers.len() ==> delete_step(
                            old(self).layers(),
                            final(self).layers(),
                            i,
                            key@,
                            answers[i],
                        )
                },
    {
        let mut last_error: Option<CacheError> = None;
        let ghost mut answers: Seq<Result<(), CacheError>> = Seq::empty();
        let n = self.tiers.len();
        let mut tier_idx: usize = 0;
        // Delete from all tiers
        while tier_idx < n
            invariant
                n == self.layers().len(),
                n == old(self).layers().len(),
                tier_idx <= n,
                self.layers_well_formed(),
                answers.len() == tier_idx,
                last_error == last_failure(answers),
                forall|i: int|
                    #![trigger answers[i]]
                    0 <= i < tier_idx ==> delete_step(old(self).layers(), self.layers(), i, key@, answers[i]),
                last_error is None ==> forall|j: int|
                    0 <= j < tier_idx ==> #[trigger] self.layers()[j].lookup(key@) is None,
                forall|j: int| tier_idx <= j < n ==> #[trigger] self.layers()[j] == old(self).layers()[j],
                old(self).all_infallible() ==> last_error is None,
            decreases n - tier_idx,
        {
            let ghost pre = self.layers();
            let answer = self.tiers[tier_idx].delete(key);
            proof {
                assert(forall|j: int| 0 <= j < n && j != tier_idx ==> #[trigger] self.layers()[j] == pre[j]);
                assert(delete_step(pre, self.layers(), tier_idx as int, key@, answer));
                let prev = answers;
                answers = answers.push(answer);
                assert(answers.drop_last() =~= prev);
                assert forall|i: int| #![trigger answers[i]] 0 <= i < tier_idx + 1 implies delete_step(
                    old(self).layers(),
                    self.layers(),
                    i,
                    key@,
                    answers[i],
                ) by {
                    if i < tier_idx {
                        assert(answers[i] == prev[i]);
                        assert(self.layers()[i] == pre[i]);
                    } else {
                        assert(answers[i] == answer);
                    }
                }
            }
            match answer {
                Ok(()) => {},
                Err(e) => {
                    last_error = Some(e);
                },
            }
            tier_idx = tier_idx + 1;
        }
        let done = match last_error {
            Some(e) => Err(e),
            None => Ok(()),
        };
        assert(all_tiers_verdict(answers) == done);
        done
    }

    fn key_exists(&self, key: &K) -> (present: Result<bool, CacheError>)
        ensures
            present is Ok,
            (exists|i: int| 0 <= i < self.layers().len() && #[trigger] self.layers()[i].surely_present(key@))
                ==> present == Ok::<bool, CacheError>(true),
            self.layers().len() == 0 ==> present == Ok::<bool, CacheError>(false),
            exists|answers: Seq<Result<bool, CacheError>>|
                {
                    &&& present == Ok::<bool, CacheError>(#[trigger] exists_verdict(answers))
                    &&& answers.len() <= self.layers().len()
                    &&& forall|i: int|
                        #![trigger answers[i]]
                        0 <= i < answers.len() ==> exists_step(self.layers(), i, key@, answers[i])
                    &&& forall|i: int|
                        #![trigger answers[i]]
                        0 <= i < answers.len() - 1 ==> answers[i] != Ok::<bool, CacheError>(true)
                    &&& answers.len() == self.layers().len() || exists_verdict(answers)
                },
    {
        let n = self.tiers.len();
        let ghost mut answers: Seq<Result<bool, CacheError>> = Seq::empty();
        let mut tier_idx: usize = 0;
        // Check if it exists in any tier
        while tier_idx < n
            invariant
                n == self.layers().len(),
                tier_idx <= n,
                self.layers_well_formed(),
                forall|j: int| 0 <= j < tier_idx ==> !#[trigger] self.layers()[j].surely_present(key@),
                answers.len() == tier_idx,
                forall|i: int|
                    #![trigger answers[i]]
                    0 <= i < tier_idx ==> exists_step(self.layers(), i, key@, answers[i]),
                forall|i: int|
                    #![trigger answers[i]]
                    0 <= i < tier_idx ==> answers[i] != Ok::<bool, CacheError>(true),
            decreases n - tier_idx,
        {
            let answer = self.tiers[tier_idx].key_exists(key);
            proof {
                let prev = answers;
                answers = answers.push(answer);
                assert(exists_step(self.layers(), tier_idx as int, key@, answer));
                assert forall|i: int| #![trigger answers[i]] 0 <= i < tier_idx + 1 implies exists_step(
                    self.layers(),
                    i,
                    key@,
                    answers[i],
                ) by {
                    if i < tier_idx {
                        assert(answers[i] == prev[i]);
                    } else {
                        assert(answers[i] == answer);
                    }
                }
                assert forall|i: int| #![trigger answers[i]] 0 <= i < tier_idx implies answers[i]
                    != Ok::<bool, CacheError>(true) by {
                    assert(answers[i] == prev[i]);
                }
            }
            match answer {
                Ok(true) => {
                    assert(exists_verdict(answers));
                    return Ok(true);
                },
                Ok(false) => {},
                Err(_e) => {},
            }
            tier_idx = tier_idx + 1;
        }
        assert(!exists_verdict(answers));
        Ok(false)
    }

    fn set_with_ttl(&mut self, key: K, value: V, ttl: Duration) -> (done: Result<(), CacheError>)
        ensures
            final(self).layers().len() == old(self).layers().len(),
            old(self).all_accept(key@) ==> done is Ok,
            done is Ok ==> forall|i: int|
                0 <= i < final(self).layers().len() ==> #[trigger] final(self).layers()[i].written_ttl(key@)
                    == Some(duration_as_nanos(ttl)),
            exists|answers: Seq<Result<(), CacheError>>|
                {
                    &&& #[trigger] all_tiers_verdict(answers) == done
                    &&& answers.len() == old(self).layers().len()
                    &&& forall|i: int|
                        #![trigger answers[i]]
                        0 <= i < answers.len() ==> write_step(
                            old(self).layers(),
                            final(self).layers(),
                            i,
                            key@,
                            value,
                            Some(duration_as_nanos(ttl)),
                            answers[i],
                        )
                },
    {
        let mut last_error: Option<CacheError> = None;
        let ghost mut answers: Seq<Result<(), CacheError>> = Seq::empty();
        let n = self.tiers.len();
        let mut tier_idx: usize = 0;
        // Set in all tiers
        while tier_idx < n
            invariant
                n == self.layers().len(),
                n == old(self).layers().len(),
                tier_idx <= n,
                self.layers_well_formed(),
                answers.len() == tier_idx,
                last_error == last_failure(answers),
                forall|i: int|
                    #![trigger answers[i]]
                    0 <= i < tier_idx ==> write_step(
                        old(self).layers(),
                        self.layers(),
                        i,
                        key@,
                        value,
                        Some(duration_as_nanos(ttl)),
                        answers[i],
                    ),
                last_error is None ==> forall|j: int|
                    0 <= j < tier_idx ==> (#[trigger] self.layers()[j].lookup(key@) matches Some(c)
                        && cloned::<V>(value, c)),
                last_error is None ==> forall|j: int|
                    0 <= j < tier_idx ==> #[trigger] self.layers()[j].written_ttl(key@) == Some(duration_as_nanos(ttl)),
                forall|j: int| tier_idx <= j < n ==> #[trigger] self.layers()[j] == old(self).layers()[j],
                old(self).all_accept(key@) ==> last_error is None,
            decreases n - tier_idx,
        {
            let copy = value.clone();
            let ghost pre = self.layers();
            let ghost before = self.layers()[tier_idx as int];
            let answer = self.tiers[tier_idx].set(key.key_clone(), copy, Some(ttl));
            proof {
                assert(self.layers().len() == pre.len());
                assert(forall|j: int| 0 <= j < n && j != tier_idx ==> #[trigger] self.layers()[j] == pre[j]);
                assert(answer is Ok ==> self.layers()[tier_idx as int].lookup(key@) == Some(copy));
                assert(cloned::<V>(value, copy));
                assert(write_step(
                    pre,
                    self.layers(),
                    tier_idx as int,
                    key@,
                    value,
                    Some(duration_as_nanos(ttl)),
                    answer,
                ));
                let prev = answers;
                answers = answers.push(answer);
                assert(answers.drop_last() =~= prev);
                assert(answers[tier_idx as int] == answer);
                assert forall|i: int| #![trigger answers[i]] 0 <= i < tier_idx + 1 implies write_step(
                    old(self).layers(),
                    self.layers(),
                    i,
                    key@,
                    value,
                    Some(duration_as_nanos(ttl)),
                    answers[i],
                ) by {
                    if i < tier_idx {
                        assert(answers[i] == prev[i]);
                        assert(self.layers()[i] == pre[i]);
                    } else {
                        assert(before == old(self).layers()[i]);
                        assert(answers[i] == answer);
                    }
                }
            }
            match answer {
                Ok(()) => {},
                Err(e) => {
                    last_error = Some(e);
                },
            }
            tier_idx = tier_idx + 1;
        }
        let done = match last_error {
            Some(e) => Err(e),
            None => Ok(()),
        };
        assert(all_tiers_verdict(answers) == done);
        done
    }
}

} // verus!
