//! A bounded key/value cache that evicts the least frequently used entry,
//! breaking ties among equally frequent entries by least recent use.
//!
//! Each live key has an access count. Keys sharing one count form a frequency
//! bucket, ordered by arrival into that count (oldest first). A scalar tracks
//! the smallest populated count while the cache is non-empty, so eviction is a
//! lookup of that bucket followed by a pop of its oldest key.
use vstd::prelude::*;
use vstd::pervasive::unreached;
use vstd::std_specs::iter::IteratorSpec;
use std::collections::HashMap;
use linked_hash_set::LinkedHashSet;
use crate::ordered_set::elems;
use crate::ordered_set::set_new;
use crate::ordered_set::set_insert;
use crate::ordered_set::set_remove;
use crate::ordered_set::set_pop_front;
use crate::ordered_set::set_is_empty;

verus! {

broadcast use
    vstd::std_specs::hash::group_hash_axioms,
    vstd::set::group_set_axioms,
    vstd::map::group_map_axioms,
    vstd::seq::group_seq_axioms;

/// A value stored in the cache together with its access count.
pub struct ValueCounter<V> {
    pub value: V,
    pub count: usize,
}

impl<V> ValueCounter<V> {
    /// Raises the access count by one.
    pub fn inc(&mut self)
        requires
            old(self).count < usize::MAX,
        ensures
            final(self).count == old(self).count + 1,
            final(self).value == old(self).value,
    {
        self.count += 1;
    }
}

/// A least-frequently-used cache with least-recently-used tie-break.
pub struct LFUCache<V> {
    values: HashMap<u64, ValueCounter<V>>,
    frequency_bin: HashMap<usize, LinkedHashSet<u64>>,
    capacity: usize,
    min_frequency: usize,
}

impl<V> LFUCache<V> {
    /// The fixed capacity chosen at construction.
    pub closed spec fn cap(&self) -> usize {
        self.capacity
    }

    /// How many entries are live.
    pub closed spec fn num_entries(&self) -> nat {
        self.values@.len()
    }

    /// Whether `k` is a live key.
    pub closed spec fn has(&self, k: u64) -> bool {
        self.values@.contains_key(k)
    }

    /// The value stored under a live key.
    pub closed spec fn value_of(&self, k: u64) -> V {
        self.values@[k].value
    }

    /// The access count of a live key.
    pub closed spec fn count_of(&self, k: u64) -> usize {
        self.values@[k].count
    }

    /// The keys whose access count is exactly `c`, ordered by arrival into
    /// that count, oldest first.
    pub closed spec fn bucket(&self, c: usize) -> Seq<u64> {
        bucket_of(self.frequency_bin@, c)
    }

    /// The smallest populated access count, tracked while the cache is full;
    /// it may lag behind after removals until the next insertion resets it.
    pub closed spec fn min_freq(&self) -> usize {
        self.min_frequency
    }

    /// The key that the eviction policy selects next: the oldest arrival in
    /// the minimum-frequency bucket.
    pub open spec fn victim(&self) -> u64 {
        self.bucket(self.min_freq())[0]
    }

    /// The internal invariant: the capacity is positive and never exceeded,
    /// every live key sits in exactly the bucket of its own count, buckets
    /// hold no strangers and no duplicates, no bucket below the tracked
    /// minimum is populated, and while the cache is full the bucket at the
    /// tracked minimum is populated, so eviction always has a candidate.
    pub closed spec fn wf(&self) -> bool {
        let vals = self.values@;
        let fb = self.frequency_bin@;
        &&& self.capacity >= 1
        &&& vals.len() <= self.capacity
        &&& forall|k: u64|
            #[trigger] vals.contains_key(k) ==> 1 <= vals[k].count && bucket_of(
                fb,
                vals[k].count,
            ).contains(k)
        &&& forall|c: usize, i: int|
            0 <= i < bucket_of(fb, c).len() ==> vals.contains_key(#[trigger] bucket_of(fb, c)[i])
                && vals[bucket_of(fb, c)[i]].count == c
        &&& forall|c: usize| (#[trigger] bucket_of(fb, c)).no_duplicates()
        &&& forall|c: usize| c < self.min_frequency ==> (#[trigger] bucket_of(fb, c)).len() == 0
        &&& (vals.len() == self.capacity ==> bucket_of(fb, self.min_frequency).len() > 0)
    }

    /// Builds an empty cache, or reports the one invalid request: a capacity
    /// of zero is refused and no cache is produced.
    pub fn new(capacity: usize) -> (r: Result<Self, &'static str>)
        ensures
            match r {
                Ok(c) => capacity >= 1 && c.wf() && c.cap() == capacity && c.num_entries() == 0
                    && (forall|k: u64| !c.has(k)) && (forall|c2: usize|
                    (#[trigger] c.bucket(c2)).len() == 0),
                Err(_) => capacity == 0,
            },
    {
        if capacity == 0 {
            return Err("invalid capacity");
        }
        let r = LFUCache {
            values: HashMap::new(),
            frequency_bin: HashMap::new(),
            capacity,
            min_frequency: 0,
        };
        proof {
            assert forall|c: usize| (#[trigger] r.bucket(c)) == Seq::<u64>::empty() by {
                assert(!r.frequency_bin@.contains_key(c));
            }
        }
        Ok(r)
    }

    /// How one access to the live key `k` reshapes the cache: the count of
    /// `k` rises by one, `k` leaves the bucket of its old count and arrives
    /// at the back of the next one (so it is the most recent arrival there),
    /// every other entry keeps its value, count and position, and the tracked
    /// minimum advances exactly when the vacated bucket was the minimum and
    /// held `k` alone.
    pub closed spec fn bumped(pre: Self, post: Self, k: u64) -> bool {
        let c = pre.values@[k].count;
        let prev = pre.values@;
        let postv = post.values@;
        let pref = pre.frequency_bin@;
        let postf = post.frequency_bin@;
        &&& post.capacity == pre.capacity
        &&& postv.len() == prev.len()
        &&& forall|k2: u64|
            #![trigger postv.contains_key(k2)]
            #![trigger prev.contains_key(k2)]
            postv.contains_key(k2) == prev.contains_key(k2)
        &&& postv[k].count == c + 1
        &&& forall|k2: u64|
            #![trigger postv[k2]]
            #![trigger prev[k2]]
            k2 != k && prev.contains_key(k2) ==> postv[k2].value == prev[k2].value
                && postv[k2].count == prev[k2].count
        &&& bucket_of(postf, c) == bucket_of(pref, c).remove_value(k)
        &&& bucket_of(postf, (c + 1) as usize) == bucket_of(pref, (c + 1) as usize).push(k)
        &&& forall|c2: usize|
            c2 != c && c2 != c + 1 ==> #[trigger] bucket_of(postf, c2) == bucket_of(pref, c2)
        &&& post.min_frequency == (if c == pre.min_frequency && bucket_of(pref, c).len() == 1 {
            (c + 1) as usize
        } else {
            pre.min_frequency
        })
    }

    /// What `bumped` says of one access to the live key `k`, read through the
    /// public model: the population is unchanged, the count of `k` rises by
    /// one, every other entry keeps its value and count, `k` moves from the
    /// bucket of its old count to the back of the next one, all other buckets
    /// stand still, and the tracked minimum advances exactly when the vacated
    /// bucket was the minimum and held `k` alone.
    pub proof fn lemma_bumped_effect(pre: Self, post: Self, k: u64)
        requires
            pre.has(k),
            Self::bumped(pre, post, k),
        ensures
            post.cap() == pre.cap(),
            post.num_entries() == pre.num_entries(),
            forall|k2: u64|
                #![trigger post.has(k2)]
                #![trigger pre.has(k2)]
                post.has(k2) == pre.has(k2),
            post.count_of(k) == pre.count_of(k) + 1,
            forall|k2: u64|
                #![trigger post.value_of(k2)]
                #![trigger pre.value_of(k2)]
                #![trigger post.count_of(k2)]
                #![trigger pre.count_of(k2)]
                k2 != k && pre.has(k2) ==> post.value_of(k2) == pre.value_of(k2)
                    && post.count_of(k2) == pre.count_of(k2),
            post.bucket(pre.count_of(k)) == pre.bucket(pre.count_of(k)).remove_value(k),
            post.bucket((pre.count_of(k) + 1) as usize) == pre.bucket(
                (pre.count_of(k) + 1) as usize,
            ).push(k),
            forall|c2: usize|
                c2 != pre.count_of(k) && c2 != pre.count_of(k) + 1 ==> #[trigger] post.bucket(c2)
                    == pre.bucket(c2),
            post.min_freq() == (if pre.count_of(k) == pre.min_freq() && pre.bucket(
                pre.count_of(k),
            ).len() == 1 {
                (pre.count_of(k) + 1) as usize
            } else {
                pre.min_freq()
            }),
    {
        assert forall|c2: usize|
            c2 != pre.count_of(k) && c2 != pre.count_of(k) + 1 implies #[trigger] post.bucket(c2)
            == pre.bucket(c2) by {
            assert(bucket_of(post.frequency_bin@, c2) == bucket_of(pre.frequency_bin@, c2));
        }
    }

    /// Moves the live key from the bucket of its current count to the back of
    /// the next bucket, raises its stored count, and advances the tracked
    /// minimum when the vacated bucket was the minimum and is now empty.
    fn update_frequency_bin(&mut self, key: u64)
        requires
            old(self).wf(),
            old(self).has(key),
            old(self).count_of(key) < usize::MAX,
        ensures
            final(self).wf(),
            Self::bumped(*old(self), *final(self), key),
            final(self).value_of(key) == old(self).value_of(key),
    {
        let ghost pre = *old(self);
        let c = self.values.get(&key).unwrap().count;
        proof {
            assert(pre.bucket(c).contains(key));
            assert(self.frequency_bin@.contains_key(c));
            lemma_remove_value_distinct(pre.bucket(c), key);
        }
        let mut bin = self.frequency_bin.remove(&c).unwrap();
        set_remove(&mut bin, &key);
        let bin_empty = set_is_empty(&bin);
        self.frequency_bin.insert(c, bin);
        let vc = match self.values.remove(&key) {
            Some(vc) => vc,
            None => unreached(),
        };
        let c1 = c + 1;
        self.values.insert(key, ValueCounter { value: vc.value, count: c1 });
        if c == self.min_frequency && bin_empty {
            self.min_frequency = c1;
        }
        proof {
            if pre.bucket(c1).contains(key) {
                let i = choose|i: int| 0 <= i < pre.bucket(c1).len() && pre.bucket(c1)[i] == key;
                assert(pre.values@[pre.bucket(c1)[i]].count == c1);
            }
            lemma_push_distinct(pre.bucket(c1), key);
        }
        let mut bin1 = match self.frequency_bin.remove(&c1) {
            Some(b) => b,
            None => set_new(),
        };
        set_insert(&mut bin1, key);
        self.frequency_bin.insert(c1, bin1);
        proof {
            let post = *self;
            assert forall|c2: usize| #[trigger] bucket_of(post.frequency_bin@, c2)
                == post.bucket(c2) by {}
            assert(post.values@ =~= pre.values@.insert(
                key,
                (ValueCounter { value: pre.values@[key].value, count: c1 }),
            ));
            assert(post.bucket(c) =~= pre.bucket(c).remove_value(key));
            assert(post.bucket(c1) =~= pre.bucket(c1).push(key));
            assert forall|c2: usize| c2 != c && c2 != c1 implies #[trigger] post.bucket(c2)
                == pre.bucket(c2) by {
                assert(post.frequency_bin@.contains_key(c2) == pre.frequency_bin@.contains_key(
                    c2,
                ));
            }
            assert(post.num_entries() == pre.num_entries());
            lemma_remove_value_distinct(pre.bucket(c), key);
            lemma_push_distinct(pre.bucket(c1), key);
            assert forall|k2: u64| #[trigger] post.values@.contains_key(k2) implies 1
                <= post.values@[k2].count && post.bucket(post.values@[k2].count).contains(
                k2,
            ) by {
                let ck2 = post.values@[k2].count;
                if k2 == key {
                    assert(post.bucket(c1) == pre.bucket(c1).push(key));
                } else {
                    assert(pre.values@.contains_key(k2));
                    assert(pre.bucket(ck2).contains(k2));
                    if ck2 == c {
                        assert(k2 != key);
                        assert(post.bucket(c).contains(k2));
                    } else if ck2 == c1 {
                        assert(post.bucket(c1).contains(k2));
                    } else {
                        assert(post.bucket(ck2) == pre.bucket(ck2));
                    }
                }
            }
            assert forall|c2: usize, i: int| 0 <= i < post.bucket(c2).len() implies
                post.values@.contains_key(#[trigger] post.bucket(c2)[i])
                && post.values@[post.bucket(c2)[i]].count == c2 by {
                let x = post.bucket(c2)[i];
                if c2 == c {
                    assert(post.bucket(c).contains(x));
                    assert(x != key);
                    assert(pre.bucket(c).contains(x));
                    let j = choose|j: int| 0 <= j < pre.bucket(c).len() && pre.bucket(c)[j] == x;
                    assert(pre.values@[pre.bucket(c)[j]].count == c);
                } else if c2 == c1 {
                    if i < pre.bucket(c1).len() {
                        assert(pre.bucket(c1)[i] == x);
                        assert(pre.values@[pre.bucket(c1)[i]].count == c1);
                        assert(x != key);
                    } else {
                        assert(x == key);
                    }
                } else {
                    assert(post.bucket(c2) == pre.bucket(c2));
                    assert(pre.values@[pre.bucket(c2)[i]].count == c2);
                    assert(x != key);
                }
            }
            assert forall|c2: usize| (#[trigger] post.bucket(c2)).no_duplicates() by {
                if c2 == c {
                } else if c2 == c1 {
                } else {
                    assert(post.bucket(c2) == pre.bucket(c2));
                }
            }
            assert forall|c2: usize| c2 < post.min_frequency implies (#[trigger] post.bucket(
                c2,
            )).len() == 0 by {
                assert(c >= pre.min_frequency) by {
                    if c < pre.min_frequency {
                        assert(pre.bucket(c).len() == 0);
                    }
                }
                if c2 != c && c2 != c1 {
                    assert(post.bucket(c2) == pre.bucket(c2));
                }
            }
            if post.num_entries() == post.capacity {
                if c == pre.min_frequency && pre.bucket(c).len() == 1 {
                    assert(post.min_frequency == c1);
                    assert(post.bucket(c1).len() > 0);
                } else {
                    assert(post.min_frequency == pre.min_frequency);
                    assert(pre.bucket(pre.min_frequency).len() > 0);
                    if c == pre.min_frequency {
                        assert(post.bucket(c).len() == pre.bucket(c).len() - 1);
                    } else if pre.min_frequency == c1 {
                        assert(post.bucket(c1).len() > 0);
                    } else {
                        assert(post.bucket(pre.min_frequency) == pre.bucket(pre.min_frequency));
                    }
                }
            }
        }
    }

    /// Forces one entry out to honour the capacity bound: the oldest arrival
    /// in the minimum-frequency bucket leaves, and nothing else moves.
    fn evict(&mut self)
        requires
            old(self).wf(),
            old(self).bucket(old(self).min_freq()).len() > 0,
        ensures
            final(self).wf(),
            final(self).cap() == old(self).cap(),
            old(self).has(old(self).victim()),
            !final(self).has(old(self).victim()),
            final(self).num_entries() == old(self).num_entries() - 1,
            forall|k2: u64|
                #![trigger final(self).has(k2)]
                #![trigger old(self).has(k2)]
                k2 != old(self).victim() ==> final(self).has(k2) == old(self).has(k2),
            forall|k2: u64|
                #![trigger final(self).value_of(k2)]
                #![trigger old(self).value_of(k2)]
                #![trigger final(self).count_of(k2)]
                #![trigger old(self).count_of(k2)]
                k2 != old(self).victim() && old(self).has(k2)
                    ==> final(self).value_of(k2) == old(self).value_of(k2)
                    && final(self).count_of(k2) == old(self).count_of(k2),
            final(self).bucket(old(self).min_freq())
                == old(self).bucket(old(self).min_freq()).drop_first(),
            forall|c2: usize|
                c2 != old(self).min_freq()
                    ==> #[trigger] final(self).bucket(c2) == old(self).bucket(c2),
            final(self).min_freq() == old(self).min_freq(),
    {
        let ghost pre = *old(self);
        let mf = self.min_frequency;
        proof {
            assert(self.frequency_bin@.contains_key(mf));
            lemma_drop_first_distinct(pre.bucket(mf));
            assert(pre.values@.contains_key(pre.bucket(mf)[0]));
        }
        let mut bin = self.frequency_bin.remove(&mf).unwrap();
        let victim = match set_pop_front(&mut bin) {
            Some(k) => k,
            None => unreached(),
        };
        self.frequency_bin.insert(mf, bin);
        self.values.remove(&victim);
        proof {
            let post = *self;
            assert forall|c2: usize| #[trigger] bucket_of(post.frequency_bin@, c2)
                == post.bucket(c2) by {}
            assert(post.values@ =~= pre.values@.remove(victim));
            assert(post.bucket(mf) =~= pre.bucket(mf).drop_first());
            assert forall|c2: usize| c2 != mf implies #[trigger] post.bucket(c2) == pre.bucket(
                c2,
            ) by {
                assert(post.frequency_bin@.contains_key(c2) == pre.frequency_bin@.contains_key(
                    c2,
                ));
            }
            assert(victim == pre.victim());
            assert forall|k2: u64| #[trigger] post.values@.contains_key(k2) implies 1
                <= post.values@[k2].count && post.bucket(post.values@[k2].count).contains(
                k2,
            ) by {
                let ck2 = post.values@[k2].count;
                assert(pre.bucket(ck2).contains(k2));
                if ck2 == mf {
                    assert(k2 != victim);
                }
            }
            assert forall|c2: usize, i: int| 0 <= i < post.bucket(c2).len() implies
                post.values@.contains_key(#[trigger] post.bucket(c2)[i])
                && post.values@[post.bucket(c2)[i]].count == c2 by {
                let x = post.bucket(c2)[i];
                if c2 == mf {
                    assert(x == pre.bucket(mf)[i + 1]);
                    assert(pre.values@[pre.bucket(mf)[i + 1]].count == mf);
                    assert(x != victim);
                } else {
                    assert(pre.values@[pre.bucket(c2)[i]].count == c2);
                    assert(x != victim);
                }
            }
            assert forall|c2: usize| (#[trigger] post.bucket(c2)).no_duplicates() by {
                if c2 != mf {
                    assert(post.bucket(c2) == pre.bucket(c2));
                }
            }
            assert forall|c2: usize| c2 < post.min_frequency implies (#[trigger] post.bucket(
                c2,
            )).len() == 0 by {
                if c2 != mf {
                    assert(post.bucket(c2) == pre.bucket(c2));
                }
            }
        }
    }

    /// Reports whether `key` is live, without touching any frequency.
    pub fn contains(&self, key: &u64) -> (r: bool)
        ensures
            r == self.has(*key),
    {
        self.values.contains_key(key)
    }

    /// The number of live entries.
    pub fn len(&self) -> (r: usize)
        ensures
            r == self.num_entries(),
    {
        self.values.len()
    }

    /// Hands back the value under `key` if the key is live, counting the
    /// lookup as one access: the entry's frequency rises by one and the key
    /// becomes the most recent arrival at its new count. An absent key leaves
    /// the cache untouched. Once a count has reached the machine maximum,
    /// further lookups return the value without moving the entry.
    pub fn get(&mut self, key: &u64) -> (r: Option<&V>)
        requires
            old(self).wf(),
        ensures
            final(self).wf(),
            final(self).cap() == old(self).cap(),
            match r {
                None => !old(self).has(*key) && *final(self) == *old(self),
                Some(v) => {
                    &&& old(self).has(*key)
                    &&& *v == old(self).value_of(*key)
                    &&& final(self).has(*key)
                    &&& final(self).value_of(*key) == old(self).value_of(*key)
                    &&& (old(self).count_of(*key) < usize::MAX ==> Self::bumped(
                        *old(self),
                        *final(self),
                        *key,
                    ) && final(self).count_of(*key) == old(self).count_of(*key) + 1)
                    &&& (old(self).count_of(*key) == usize::MAX ==> *final(self) == *old(self))
                },
            },
    {
        if !self.contains(key) {
            return None;
        }
        let c = self.values.get(key).unwrap().count;
        if c < usize::MAX {
            self.update_frequency_bin(*key);
        }
        match self.values.get(key) {
            Some(vc) => Some(&vc.value),
            None => unreached(),
        }
    }

    /// Drops `key` if it is live, reporting whether anything was dropped: the
    /// entry leaves both the table and its frequency bucket, every other
    /// entry keeps its value, count and position, and an absent key leaves
    /// the cache exactly as it was. The tracked minimum is deliberately not
    /// recomputed here; the next insertion resets it.
    pub fn remove(&mut self, key: u64) -> (r: bool)
        requires
            old(self).wf(),
        ensures
            final(self).wf(),
            final(self).cap() == old(self).cap(),
            r == old(self).has(key),
            !old(self).has(key) ==> *final(self) == *old(self),
            old(self).has(key) ==> {
                &&& !final(self).has(key)
                &&& final(self).num_entries() == old(self).num_entries() - 1
                &&& forall|k2: u64|
                    #![trigger final(self).has(k2)]
                    #![trigger old(self).has(k2)]
                    k2 != key ==> final(self).has(k2) == old(self).has(k2)
                &&& forall|k2: u64|
                    #![trigger final(self).value_of(k2)]
                    #![trigger old(self).value_of(k2)]
                    #![trigger final(self).count_of(k2)]
                    #![trigger old(self).count_of(k2)]
                    k2 != key && old(self).has(k2)
                        ==> final(self).value_of(k2) == old(self).value_of(k2)
                        && final(self).count_of(k2) == old(self).count_of(k2)
                &&& final(self).bucket(old(self).count_of(key))
                    == old(self).bucket(old(self).count_of(key)).remove_value(key)
                &&& forall|c2: usize|
                    c2 != old(self).count_of(key)
                        ==> #[trigger] final(self).bucket(c2) == old(self).bucket(c2)
                &&& final(self).min_freq() == old(self).min_freq()
            },
    {
        let ghost pre = *old(self);
        if !self.contains(&key) {
            return false;
        }
        let c = self.values.get(&key).unwrap().count;
        proof {
            assert(pre.bucket(c).contains(key));
            assert(self.frequency_bin@.contains_key(c));
            lemma_remove_value_distinct(pre.bucket(c), key);
        }
        let mut bin = self.frequency_bin.remove(&c).unwrap();
        set_remove(&mut bin, &key);
        self.frequency_bin.insert(c, bin);
        self.values.remove(&key);
        proof {
            let post = *self;
            assert forall|c2: usize| #[trigger] bucket_of(post.frequency_bin@, c2)
                == post.bucket(c2) by {}
            assert(post.values@ =~= pre.values@.remove(key));
            assert(post.bucket(c) =~= pre.bucket(c).remove_value(key));
            assert forall|c2: usize| c2 != c implies #[trigger] post.bucket(c2) == pre.bucket(
                c2,
            ) by {
                assert(post.frequency_bin@.contains_key(c2) == pre.frequency_bin@.contains_key(
                    c2,
                ));
            }
            assert forall|k2: u64| #[trigger] post.values@.contains_key(k2) implies 1
                <= post.values@[k2].count && post.bucket(post.values@[k2].count).contains(
                k2,
            ) by {
                let ck2 = post.values@[k2].count;
                assert(pre.bucket(ck2).contains(k2));
            }
            assert forall|c2: usize, i: int| 0 <= i < post.bucket(c2).len() implies
                post.values@.contains_key(#[trigger] post.bucket(c2)[i])
                && post.values@[post.bucket(c2)[i]].count == c2 by {
                let x = post.bucket(c2)[i];
                if c2 == c {
                    assert(post.bucket(c).contains(x));
                    assert(x != key);
                    assert(pre.bucket(c).contains(x));
                    let j = choose|j: int| 0 <= j < pre.bucket(c).len() && pre.bucket(c)[j] == x;
                    assert(pre.values@[pre.bucket(c)[j]].count == c);
                } else {
                    assert(pre.values@[pre.bucket(c2)[i]].count == c2);
                    assert(x != key);
                }
            }
            assert forall|c2: usize| (#[trigger] post.bucket(c2)).no_duplicates() by {
                if c2 != c {
                    assert(post.bucket(c2) == pre.bucket(c2));
                }
            }
            assert forall|c2: usize| c2 < post.min_frequency implies (#[trigger] post.bucket(
                c2,
            )).len() == 0 by {
                if c2 != c {
                    assert(post.bucket(c2) == pre.bucket(c2));
                }
            }
        }
        true
    }

    /// Hands back a mutable reference to the value under `key` if the key is
    /// live, counting the lookup as one access exactly as `get` does; the
    /// cache afterwards stores whatever the caller leaves behind the
    /// reference. An absent key leaves the cache untouched.
    pub fn get_mut(&mut self, key: &u64) -> (r: Option<&mut V>)
        requires
            old(self).wf(),
        ensures
            final(self).wf(),
            final(self).cap() == old(self).cap(),
            !old(self).has(*key) ==> r.is_none() && *final(self) == *old(self),
            old(self).has(*key) ==> {
                &&& r.is_some()
                &&& *r.unwrap() == old(self).value_of(*key)
                &&& final(self).has(*key)
                &&& final(self).value_of(*key) == *final(r.unwrap())
                &&& final(self).num_entries() == old(self).num_entries()
                &&& forall|k2: u64|
                    #![trigger final(self).has(k2)]
                    #![trigger old(self).has(k2)]
                    final(self).has(k2) == old(self).has(k2)
                &&& forall|k2: u64|
                    k2 != *key && #[trigger] old(self).has(k2)
                        ==> final(self).value_of(k2) == old(self).value_of(k2)
                        && final(self).count_of(k2) == old(self).count_of(k2)
                &&& (old(self).count_of(*key) < usize::MAX ==> Self::bumped(
                    *old(self),
                    *final(self),
                    *key,
                ) && final(self).count_of(*key) == old(self).count_of(*key) + 1)
                &&& (old(self).count_of(*key) == usize::MAX ==> final(self).count_of(*key)
                    == old(self).count_of(*key) && final(self).min_freq() == old(self).min_freq()
                    && forall|c2: usize|
                        #[trigger] final(self).bucket(c2) == old(self).bucket(c2))
            },
    {
        if !self.contains(key) {
            return None;
        }
        let c = self.values.get(key).unwrap().count;
        if c < usize::MAX {
            self.update_frequency_bin(*key);
        }
        table_get_value_mut(&mut self.values, key)
    }

    /// Stores `value` under `key`; a write always succeeds. Overwriting a
    /// live key counts as one access and bumps its frequency exactly as a
    /// lookup does. A fresh key enters with count one as the most recent
    /// arrival in bucket one, and the tracked minimum resets to one; when the
    /// cache is full, the policy's victim — the oldest arrival among the
    /// least frequently used — is evicted first, so the bound always holds.
    pub fn set(&mut self, key: u64, value: V)
        requires
            old(self).wf(),
        ensures
            final(self).wf(),
            final(self).cap() == old(self).cap(),
            final(self).has(key),
            final(self).value_of(key) == value,
            old(self).has(key) ==> {
                &&& final(self).num_entries() == old(self).num_entries()
                &&& forall|k2: u64|
                    #![trigger final(self).has(k2)]
                    #![trigger old(self).has(k2)]
                    final(self).has(k2) == old(self).has(k2)
                &&& forall|k2: u64|
                    #![trigger final(self).value_of(k2)]
                    #![trigger old(self).value_of(k2)]
                    #![trigger final(self).count_of(k2)]
                    #![trigger old(self).count_of(k2)]
                    k2 != key && old(self).has(k2)
                        ==> final(self).value_of(k2) == old(self).value_of(k2)
                        && final(self).count_of(k2) == old(self).count_of(k2)
                &&& (old(self).count_of(key) < usize::MAX ==> Self::bumped(
                    *old(self),
                    *final(self),
                    key,
                ) && final(self).count_of(key) == old(self).count_of(key) + 1)
                &&& (old(self).count_of(key) == usize::MAX ==> final(self).count_of(key)
                    == old(self).count_of(key) && final(self).min_freq() == old(self).min_freq()
                    && forall|c2: usize|
                        #[trigger] final(self).bucket(c2) == old(self).bucket(c2))
            },
            !old(self).has(key) && old(self).num_entries() < old(self).cap() ==> {
                &&& final(self).num_entries() == old(self).num_entries() + 1
                &&& forall|k2: u64|
                    #![trigger final(self).has(k2)]
                    #![trigger old(self).has(k2)]
                    k2 != key ==> final(self).has(k2) == old(self).has(k2)
                &&& forall|k2: u64|
                    #![trigger final(self).value_of(k2)]
                    #![trigger old(self).value_of(k2)]
                    #![trigger final(self).count_of(k2)]
                    #![trigger old(self).count_of(k2)]
                    k2 != key && old(self).has(k2)
                        ==> final(self).value_of(k2) == old(self).value_of(k2)
                        && final(self).count_of(k2) == old(self).count_of(k2)
                &&& final(self).count_of(key) == 1
                &&& final(self).min_freq() == 1
                &&& final(self).bucket(1) == old(self).bucket(1).push(key)
                &&& forall|c2: usize|
                    c2 != 1 ==> #[trigger] final(self).bucket(c2) == old(self).bucket(c2)
            },
            !old(self).has(key) && old(self).num_entries() == old(self).cap() ==> {
                let e = old(self).victim();
                &&& old(self).has(e)
                &&& !final(self).has(e)
                &&& forall|k2: u64|
                    #![trigger final(self).has(k2)]
                    #![trigger old(self).has(k2)]
                    k2 != key && k2 != e ==> final(self).has(k2) == old(self).has(k2)
                &&& forall|k2: u64|
                    #![trigger final(self).value_of(k2)]
                    #![trigger old(self).value_of(k2)]
                    #![trigger final(self).count_of(k2)]
                    #![trigger old(self).count_of(k2)]
                    k2 != key && k2 != e && old(self).has(k2)
                        ==> final(self).value_of(k2) == old(self).value_of(k2)
                        && final(self).count_of(k2) == old(self).count_of(k2)
                &&& final(self).num_entries() == old(self).num_entries()
                &&& final(self).count_of(key) == 1
                &&& final(self).min_freq() == 1
                &&& (old(self).min_freq() == 1 ==> final(self).bucket(1)
                    == old(self).bucket(1).drop_first().push(key))
                &&& (old(self).min_freq() != 1 ==> final(self).bucket(1)
                    == old(self).bucket(1).push(key) && final(self).bucket(old(self).min_freq())
                    == old(self).bucket(old(self).min_freq()).drop_first())
                &&& forall|c2: usize|
                    c2 != 1 && c2 != old(self).min_freq()
                        ==> #[trigger] final(self).bucket(c2) == old(self).bucket(c2)
            },
    {
        let ghost pre = *old(self);
        if self.contains(&key) {
            let vc = match self.values.remove(&key) {
                Some(vc) => vc,
                None => unreached(),
            };
            let c = vc.count;
            self.values.insert(key, ValueCounter { value, count: c });
            let ghost midu = *self;
            proof {
                assert(midu.values@ =~= pre.values@.insert(
                    key,
                    (ValueCounter { value, count: c }),
                ));
                assert(midu.num_entries() == pre.num_entries());
                assert forall|c2: usize| #[trigger] midu.bucket(c2) == pre.bucket(c2) by {
                    assert(midu.frequency_bin@ == pre.frequency_bin@);
                }
                assert forall|k2: u64| #[trigger] midu.values@.contains_key(k2) implies 1
                    <= midu.values@[k2].count && midu.bucket(midu.values@[k2].count).contains(
                    k2,
                ) by {
                    assert(pre.values@.contains_key(k2));
                    assert(midu.values@[k2].count == pre.values@[k2].count);
                    assert(pre.bucket(pre.values@[k2].count).contains(k2));
                }
                assert forall|c2: usize, i: int| 0 <= i < midu.bucket(c2).len() implies
                    midu.values@.contains_key(#[trigger] midu.bucket(c2)[i])
                    && midu.values@[midu.bucket(c2)[i]].count == c2 by {
                    assert(pre.values@.contains_key(pre.bucket(c2)[i]));
                    assert(pre.values@[pre.bucket(c2)[i]].count == c2);
                }
            }
            if c < usize::MAX {
                self.update_frequency_bin(key);
            }
            proof {
                let post = *self;
            assert forall|c2: usize| #[trigger] bucket_of(post.frequency_bin@, c2)
                == post.bucket(c2) by {}
                assert forall|k2: u64| post.has(k2) == #[trigger] pre.has(k2) by {
                    assert(post.has(k2) == midu.has(k2));
                }
                assert forall|k2: u64|
                    k2 != key && #[trigger] pre.has(k2) implies post.value_of(k2) == pre.value_of(
                    k2,
                ) && post.count_of(k2) == pre.count_of(k2) by {
                    assert(midu.has(k2));
                    assert(midu.value_of(k2) == pre.value_of(k2));
                    assert(midu.count_of(k2) == pre.count_of(k2));
                }
                if c < usize::MAX {
                    assert(Self::bumped(midu, post, key));
                    assert(pre.count_of(key) == c && midu.count_of(key) == c);
                    assert(post.bucket(c) == pre.bucket(c).remove_value(key)) by {
                        assert(midu.bucket(c) == pre.bucket(c));
                    }
                    assert(post.bucket((c + 1) as usize) == pre.bucket((c + 1) as usize).push(
                        key,
                    )) by {
                        assert(midu.bucket((c + 1) as usize) == pre.bucket((c + 1) as usize));
                    }
                    assert(Self::bumped(pre, post, key));
                } else {
                    assert(post == midu);
                    assert forall|c2: usize| #[trigger] post.bucket(c2) == pre.bucket(c2) by {
                        assert(midu.bucket(c2) == pre.bucket(c2));
                    }
                }
            }
            return ;
        }
        if self.len() >= self.capacity {
            proof {
                assert(pre.num_entries() == pre.cap());
            }
            self.evict();
        }
        let ghost mid = *self;
        self.values.insert(key, ValueCounter { value, count: 1 });
        self.min_frequency = 1;
        proof {
            if mid.bucket(1).contains(key) {
                let i = choose|i: int| 0 <= i < mid.bucket(1).len() && mid.bucket(1)[i] == key;
                assert(mid.values@.contains_key(mid.bucket(1)[i]));
            }
            lemma_push_distinct(mid.bucket(1), key);
        }
        let one: usize = 1;
        let mut bin1 = match self.frequency_bin.remove(&one) {
            Some(b) => b,
            None => set_new(),
        };
        set_insert(&mut bin1, key);
        self.frequency_bin.insert(one, bin1);
        proof {
            let post = *self;
            assert forall|c2: usize| #[trigger] bucket_of(post.frequency_bin@, c2)
                == post.bucket(c2) by {}
            assert(post.values@ =~= mid.values@.insert(key, (ValueCounter { value, count: 1 })));
            assert(post.bucket(1) =~= mid.bucket(1).push(key));
            assert forall|c2: usize| c2 != 1 implies #[trigger] post.bucket(c2) == mid.bucket(
                c2,
            ) by {
                assert(post.frequency_bin@.contains_key(c2) == mid.frequency_bin@.contains_key(
                    c2,
                ));
            }
            assert(post.num_entries() == mid.num_entries() + 1);
            assert forall|k2: u64| #[trigger] post.values@.contains_key(k2) implies 1
                <= post.values@[k2].count && post.bucket(post.values@[k2].count).contains(
                k2,
            ) by {
                let ck2 = post.values@[k2].count;
                if k2 != key {
                    assert(mid.values@.contains_key(k2));
                    assert(mid.bucket(ck2).contains(k2));
                    if ck2 != 1 {
                        assert(post.bucket(ck2) == mid.bucket(ck2));
                    }
                }
            }
            assert forall|c2: usize, i: int| 0 <= i < post.bucket(c2).len() implies
                post.values@.contains_key(#[trigger] post.bucket(c2)[i])
                && post.values@[post.bucket(c2)[i]].count == c2 by {
                let x = post.bucket(c2)[i];
                if c2 == 1 {
                    if i < mid.bucket(1).len() {
                        assert(x == mid.bucket(1)[i]);
                        assert(mid.values@[mid.bucket(1)[i]].count == 1);
                        assert(x != key);
                    } else {
                        assert(x == key);
                    }
                } else {
                    assert(post.bucket(c2) == mid.bucket(c2));
                    assert(mid.values@[mid.bucket(c2)[i]].count == c2);
                    assert(x != key);
                }
            }
            assert forall|c2: usize| (#[trigger] post.bucket(c2)).no_duplicates() by {
                if c2 != 1 {
                    assert(post.bucket(c2) == mid.bucket(c2));
                }
            }
            assert forall|c2: usize| c2 < post.min_frequency implies (#[trigger] post.bucket(
                c2,
            )).len() == 0 by {
                assert(c2 == 0);
                if post.bucket(c2).len() > 0 {
                    assert(post.values@[post.bucket(c2)[0]].count == 0);
                    assert(post.values@.contains_key(post.bucket(c2)[0]));
                }
            }
            assert(post.bucket(1).len() > 0);
        }
    }

    /// Indexing sugar with a harder contract than `get`: the key must be
    /// live, and the value comes back without any frequency bookkeeping.
    pub fn index(&self, key: u64) -> (r: &V)
        requires
            self.has(key),
        ensures
            *r == self.value_of(key),
    {
        match self.values.get(&key) {
            Some(vc) => &vc.value,
            None => unreached(),
        }
    }

    /// One full iteration pass over the live entries, in no promised order:
    /// each live key appears exactly once, paired with its stored value.
    /// Taking the cache by shared reference, a pass cannot move any
    /// frequency count or eviction position.
    pub fn entries(&self) -> (r: Vec<(u64, V)>) where V: Copy
        ensures
            r@.len() == self.num_entries(),
            forall|i: int|
                0 <= i < r@.len() ==> self.has(#[trigger] r@[i].0) && self.value_of(r@[i].0)
                    == r@[i].1,
            forall|i: int, j: int|
                0 <= i < r@.len() && 0 <= j < r@.len() && i != j ==> r@[i].0 != r@[j].0,
            forall|k: u64|
                #[trigger] self.has(k) ==> exists|i: int| 0 <= i < r@.len() && r@[i].0 == k,
    {
        let ghost m = self.values@;
        let ghost gv = vstd::std_specs::hash::spec_hash_map_iter(&self.values).remaining();
        let mut out: Vec<(u64, V)> = Vec::new();
        for pair in it: self.values.iter()
            invariant
                it.seq() == gv,
                out@.len() == it.index(),
                forall|i: int|
                    0 <= i < it.index() ==> #[trigger] out@[i] == (*gv[i].0, gv[i].1.value),
        {
            out.push((*pair.0, pair.1.value));
        }
        proof {
            let v = gv;
            assert(v.len() == m.dom().len());
            assert(out@.len() == v.len());
            assert forall|i: int, j: int|
                0 <= i < out@.len() && 0 <= j < out@.len() && i != j implies out@[i].0
                != out@[j].0 by {
                if out@[i].0 == out@[j].0 {
                    assert(m.contains_key(*v[i].0) && m[*v[i].0] == *v[i].1);
                    assert(m.contains_key(*v[j].0) && m[*v[j].0] == *v[j].1);
                    assert(v[i] == v[j]);
                }
            }
            assert forall|k: u64| #[trigger] m.contains_key(k) implies exists|i: int|
                0 <= i < out@.len() && out@[i].0 == k by {
                assert(v.contains((&k, &m[k])));
                let i = choose|i: int| 0 <= i < v.len() && v[i] == (&k, &m[k]);
                assert(out@[i].0 == k);
            }
        }
        out
    }

    /// Consumes the cache and hands out its live entries, one pair for each
    /// live key, in no promised order.
    pub fn into_entries(self) -> (r: Vec<(u64, V)>) where V: Copy
        ensures
            r@.len() == self.num_entries(),
            forall|i: int|
                0 <= i < r@.len() ==> self.has(#[trigger] r@[i].0) && self.value_of(r@[i].0)
                    == r@[i].1,
            forall|i: int, j: int|
                0 <= i < r@.len() && 0 <= j < r@.len() && i != j ==> r@[i].0 != r@[j].0,
            forall|k: u64|
                #[trigger] self.has(k) ==> exists|i: int| 0 <= i < r@.len() && r@[i].0 == k,
    {
        self.entries()
    }

    /// Capacity bound: a well-formed cache never holds more entries than its
    /// capacity, whatever sequence of operations produced it.
    pub proof fn lemma_capacity_bound(&self)
        requires
            self.wf(),
        ensures
            self.num_entries() <= self.cap(),
    {
    }

    /// Eviction policy: when the cache is full, the key that `set` would
    /// evict next is live, its access count is the lowest among all live
    /// keys, and among the keys sharing that lowest count it is the one that
    /// arrived in their bucket earliest.
    pub proof fn lemma_eviction_policy(&self)
        requires
            self.wf(),
            self.num_entries() == self.cap(),
        ensures
            self.has(self.victim()),
            self.count_of(self.victim()) == self.min_freq(),
            forall|k: u64|
                #[trigger] self.has(k) ==> self.count_of(self.victim()) <= self.count_of(k),
            forall|k: u64|
                #[trigger] self.has(k) && self.count_of(k) == self.min_freq() ==> self.bucket(
                    self.min_freq(),
                ).contains(k) && self.bucket(self.min_freq())[0] == self.victim(),
    {
        let e = self.victim();
        assert(bucket_of(self.frequency_bin@, self.min_freq()).len() > 0);
        assert(self.values@.contains_key(e) && self.values@[e].count == self.min_freq());
        assert forall|k: u64| #[trigger] self.has(k) implies self.count_of(e)
            <= self.count_of(k) by {
            let ck = self.values@[k].count;
            assert(bucket_of(self.frequency_bin@, ck).contains(k));
            if ck < self.min_frequency {
                assert(bucket_of(self.frequency_bin@, ck).len() == 0);
            }
        }
    }
}

/// The keys of the bucket stored under count `c` in a frequency index, in
/// arrival order; an absent bucket reads as empty.
pub closed spec fn bucket_of(fb: Map<usize, LinkedHashSet<u64>>, c: usize) -> Seq<u64> {
    if fb.contains_key(c) {
        elems(fb[c])
    } else {
        Seq::empty()
    }
}

/// Relies on std's `HashMap::get_mut`: hands out a mutable reference to the
/// value stored under the key when the key is present, so the map afterwards
/// holds whatever the caller leaves behind that reference, and nothing else
/// changes; an absent key leaves the map untouched.
#[verifier::external_body]
fn table_get_value_mut<'a, V>(m: &'a mut HashMap<u64, ValueCounter<V>>, key: &u64) -> (r: Option<
    &'a mut V,
>)
    ensures
        old(m)@.contains_key(*key) ==> {
            &&& r.is_some()
            &&& *r.unwrap() == old(m)@[*key].value
            &&& final(m)@ == old(m)@.insert(
                *key,
                (ValueCounter { value: *final(r.unwrap()), count: old(m)@[*key].count }),
            )
            &&& final(m)@.dom() == old(m)@.dom()
            &&& forall|k2: u64|
                #[trigger] final(m)@.contains_key(k2) == old(m)@.contains_key(k2)
            &&& forall|k2: u64|
                k2 != *key && old(m)@.contains_key(k2) ==> #[trigger] final(m)@[k2] == old(
                    m,
                )@[k2]
            &&& final(m)@[*key].count == old(m)@[*key].count
            &&& final(m)@[*key].value == *final(r.unwrap())
        },
        !old(m)@.contains_key(*key) ==> r.is_none() && final(m)@ == old(m)@,
{
    match m.get_mut(key) {
        Some(vc) => Some(&mut vc.value),
        None => None,
    }
}

/// Removing one value from a duplicate-free sequence: the value is gone, the
/// other elements and their freedom from duplicates survive, and the length
/// drops by one exactly when the value was there.
proof fn lemma_remove_value_distinct(s: Seq<u64>, k: u64)
    requires
        s.no_duplicates(),
    ensures
        s.remove_value(k).no_duplicates(),
        !s.remove_value(k).contains(k),
        forall|x: u64| x != k ==> s.remove_value(k).contains(x) == s.contains(x),
        s.contains(k) ==> s.remove_value(k).len() == s.len() - 1,
        !s.contains(k) ==> s.remove_value(k) == s,
{
    broadcast use vstd::seq::group_seq_axioms;

    s.index_of_first_ensures(k);
    match s.index_of_first(k) {
        Some(i) => {
            s.remove_ensures(i);
            let rv = s.remove(i);
            assert forall|x: u64| x != k implies rv.contains(x) == s.contains(x) by {
                if s.contains(x) {
                    let j = choose|j: int| 0 <= j < s.len() && s[j] == x;
                    if j < i {
                        assert(rv[j] == x);
                    } else {
                        assert(rv[j - 1] == x);
                    }
                }
                if rv.contains(x) {
                    let j = choose|j: int| 0 <= j < rv.len() && rv[j] == x;
                    if j < i {
                        assert(s[j] == x);
                    } else {
                        assert(s[j + 1] == x);
                    }
                }
            }
            assert forall|j: int| 0 <= j < rv.len() implies rv[j] != k by {
                if j < i {
                    assert(rv[j] == s[j]);
                } else {
                    assert(rv[j] == s[j + 1]);
                }
            }
            assert(!rv.contains(k));
            assert forall|a: int, b: int|
                0 <= a < rv.len() && 0 <= b < rv.len() && a != b implies rv[a] != rv[b] by {
                let a2: int = if a < i {
                    a
                } else {
                    a + 1
                };
                let b2: int = if b < i {
                    b
                } else {
                    b + 1
                };
                assert(rv[a] == s[a2]);
                assert(rv[b] == s[b2]);
            }
        },
        None => {
            assert(s.remove_value(k) == s);
        },
    }
}

/// Dropping the front of a duplicate-free sequence removes exactly its
/// oldest element from the membership and keeps the rest in order.
proof fn lemma_drop_first_distinct(s: Seq<u64>)
    requires
        s.len() > 0,
        s.no_duplicates(),
    ensures
        s.drop_first().no_duplicates(),
        s.drop_first().len() == s.len() - 1,
        !s.drop_first().contains(s[0]),
        forall|x: u64| x != s[0] ==> s.drop_first().contains(x) == s.contains(x),
        s.contains(s[0]),
{
    broadcast use vstd::seq::group_seq_axioms;

    let d = s.drop_first();
    assert forall|x: u64| x != s[0] implies d.contains(x) == s.contains(x) by {
        if s.contains(x) {
            let j = choose|j: int| 0 <= j < s.len() && s[j] == x;
            assert(d[j - 1] == x);
        }
        if d.contains(x) {
            let j = choose|j: int| 0 <= j < d.len() && d[j] == x;
            assert(s[j + 1] == x);
        }
    }
    assert forall|j: int| 0 <= j < d.len() implies d[j] != s[0] by {
        assert(d[j] == s[j + 1]);
    }
    assert(!d.contains(s[0]));
}

/// Appending a fresh value to a duplicate-free sequence keeps it
/// duplicate-free and adds exactly that value to its membership.
proof fn lemma_push_distinct(s: Seq<u64>, k: u64)
    requires
        s.no_duplicates(),
        !s.contains(k),
    ensures
        s.push(k).no_duplicates(),
        forall|x: u64| s.push(k).contains(x) == (s.contains(x) || x == k),
        s.push(k).len() == s.len() + 1,
{
    broadcast use vstd::seq::group_seq_axioms;

    let p = s.push(k);
    assert forall|x: u64| p.contains(x) == (s.contains(x) || x == k) by {
        if s.contains(x) {
            let j = choose|j: int| 0 <= j < s.len() && s[j] == x;
            assert(p[j] == x);
        }
        if x == k {
            assert(p[s.len() as int] == x);
        }
        if p.contains(x) {
            let j = choose|j: int| 0 <= j < p.len() && p[j] == x;
            if j < s.len() {
                assert(s[j] == x);
            }
        }
    }
    assert forall|a: int, b: int|
        0 <= a < p.len() && 0 <= b < p.len() && a != b implies p[a] != p[b] by {
        if a < s.len() && b < s.len() {
        } else if a < s.len() {
            assert(p[b] == k && p[a] == s[a]);
        } else {
            assert(p[a] == k && p[b] == s[b]);
        }
    }
}

} // verus!
