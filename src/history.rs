//! Generational recency tracking: size-tracked buckets of keys, and a ring of
//! such buckets that ages keys from the open generation towards reclamation.
use std::collections::HashMap;
use std::collections::hash_map;
use std::hash::Hash;
use vstd::prelude::*;
use vstd::std_specs::hash::obeys_key_model;
use vstd::std_specs::iter::IteratorSpec;
use crate::model::{
    clone_is_exact, in_ring, keys_distinct, lemma_hit, lemma_pairs_map_entries, lemma_refresh,
    lemma_remove, lemma_ring_first, lemma_ring_lookup, lemma_ring_prefix, lemma_ring_strip,
    lemma_rotate, lemma_seq_costs_prefix, lemma_seq_costs_usage, lemma_spill, lemma_strip_absent,
    lemma_upsert_all_union, lemma_usage_empty, lemma_usage_insert, lemma_usage_remove, map_usage,
    pairs_map, ring_disjoint, ring_usage, seq_costs, strip, upsert_all, Bands,
};

verus! {

broadcast use vstd::std_specs::hash::group_hash_axioms;

/// A collection of keys, each with a cost, and the sum of those costs.
pub struct Bucket<K> {
    items: HashMap<K, u64>,
    usage: u64,
}

impl<K> View for Bucket<K> {
    type V = Map<K, u64>;

    closed spec fn view(&self) -> Map<K, u64> {
        self.items@
    }
}

impl<K: Hash + Eq> Bucket<K> {
    /// The running total equals the sum of the held costs.
    pub closed spec fn wf(&self) -> bool {
        &&& obeys_key_model::<K>()
        &&& self.items@.dom().finite()
        &&& self.usage as nat == map_usage(self.items@)
    }

    /// What a well-formed bucket guarantees to its users.
    pub proof fn lemma_wf(&self)
        requires
            self.wf(),
        ensures
            self@.dom().finite(),
            obeys_key_model::<K>(),
    {
    }

    pub fn new() -> (b: Bucket<K>)
        requires
            obeys_key_model::<K>(),
        ensures
            b.wf(),
            b@ == Map::<K, u64>::empty(),
    {
        let b = Bucket { items: HashMap::new(), usage: 0 };
        proof {
            lemma_usage_empty(b.items@);
        }
        b
    }

    pub fn contains(&self, key: &K) -> (r: bool)
        requires
            self.wf(),
        ensures
            r == self@.dom().contains(*key),
    {
        self.items.contains_key(key)
    }

    pub fn get(&self, key: &K) -> (r: Option<&u64>)
        requires
            self.wf(),
        ensures
            match r {
                Some(c) => self@.dom().contains(*key) && *c == self@[*key],
                None => !self@.dom().contains(*key),
            },
    {
        self.items.get(key)
    }

    /// Sets the cost of `key`, replacing its earlier cost if it was present.
    /// Returns whether the key was new.
    pub fn insert(&mut self, key: K, required_bytes: u64) -> (added: bool)
        requires
            old(self).wf(),
            map_usage(old(self)@.insert(key, required_bytes)) <= u64::MAX,
        ensures
            final(self).wf(),
            final(self)@ == old(self)@.insert(key, required_bytes),
            added == !old(self)@.dom().contains(key),
    {
        proof {
            lemma_usage_insert(self.items@, key, required_bytes);
        }
        let added = match self.items.insert(key, required_bytes) {
            Some(previous) => {
                proof {
                    lemma_usage_remove(old(self).items@, key);
                }
                self.usage = self.usage - previous;
                false
            },
            None => true,
        };
        self.usage = self.usage + required_bytes;
        added
    }

    /// Removes `key`; returns whether it was present.
    pub fn remove(&mut self, key: &K) -> (removed: bool)
        requires
            old(self).wf(),
        ensures
            final(self).wf(),
            final(self)@ == old(self)@.remove(*key),
            removed == old(self)@.dom().contains(*key),
    {
        match self.items.remove(key) {
            Some(value) => {
                proof {
                    lemma_usage_remove(old(self).items@, *key);
                }
                self.usage = self.usage - value;
                true
            },
            None => {
                assert(self.items@ =~= old(self).items@);
                false
            },
        }
    }

    /// Walks the held (key, cost) pairs, each once, in no particular order.
    pub fn iter(&self) -> (it: hash_map::Iter<'_, K, u64>)
        requires
            self.wf(),
        ensures
            it.remaining().len() == self@.dom().len(),
            it.remaining().no_duplicates(),
            forall|i: int|
                0 <= i < it.remaining().len() ==> self@.dom().contains(*(#[trigger] it.remaining()[i]).0)
                    && self@[*it.remaining()[i].0] == *it.remaining()[i].1,
            forall|k: K| #[trigger]
                self@.dom().contains(k) ==> it.remaining().contains((&k, &self@[k])),
    {
        self.items.iter()
    }

    pub fn clear(&mut self)
        requires
            old(self).wf(),
        ensures
            final(self).wf(),
            final(self)@ == Map::<K, u64>::empty(),
    {
        self.items.clear();
        self.usage = 0;
        proof {
            lemma_usage_empty(self.items@);
        }
    }

    pub fn usage(&self) -> (r: u64)
        requires
            self.wf(),
        ensures
            r as nat == map_usage(self@),
    {
        self.usage
    }
}

impl<K: Hash + Eq + Clone> Bucket<K> {
    /// Upserts every pair, in order, as repeated `insert` calls would.
    pub fn extend(&mut self, pairs: Vec<(K, u64)>)
        requires
            old(self).wf(),
            map_usage(old(self)@) + seq_costs(pairs@) <= u64::MAX,
        ensures
            final(self).wf(),
            final(self)@ == upsert_all(old(self)@, pairs@),
    {
        self.items.reserve(pairs.len());
        let ghost start = self@;
        let ghost all = pairs@;
        proof {
            lemma_seq_costs_prefix(all, 0);
        }
        for pair in it: pairs.into_iter()
            invariant
                it.seq() == all,
                self.wf(),
                self@ == upsert_all(start, all.take(it.index() as int)),
                map_usage(self@) <= map_usage(start) + seq_costs(all.take(it.index() as int)),
                map_usage(start) + seq_costs(all) <= u64::MAX,
        {
            let ghost i = it.index() as int;
            proof {
                assert(all.take(i + 1).drop_last() =~= all.take(i));
                assert(all.take(i + 1).last() == all[i]);
                lemma_seq_costs_prefix(all, i + 1);
                lemma_usage_insert(self@, pair.0, pair.1);
            }
            self.insert(pair.0, pair.1);
        }
        proof {
            assert(all.take(all.len() as int) =~= all);
        }
    }

    /// Every held key with its cost, each key once, in no particular order.
    pub fn pairs(&self) -> (r: Vec<(K, u64)>)
        requires
            self.wf(),
            clone_is_exact::<K>(),
        ensures
            keys_distinct(r@),
            pairs_map(r@) == self@,
            r@.len() == self@.dom().len(),
    {
        let mut r: Vec<(K, u64)> = Vec::new();
        for entry in it: self.items.iter()
            invariant
                clone_is_exact::<K>(),
                self.wf(),
                it.seq().len() == self@.dom().len(),
                it.seq().no_duplicates(),
                forall|i: int|
                    0 <= i < it.seq().len() ==> self@.dom().contains(*(#[trigger] it.seq()[i]).0)
                        && self@[*it.seq()[i].0] == *it.seq()[i].1,
                forall|k: K| #[trigger]
                    self@.dom().contains(k) ==> it.seq().contains((&k, &self@[k])),
                r@.len() == it.index(),
                forall|i: int|
                    0 <= i < it.index() ==> (#[trigger] r@[i]).0 == *it.seq()[i].0 && r@[i].1
                        == *it.seq()[i].1,
                keys_distinct(r@),
                forall|i: int|
                    0 <= i < r@.len() ==> self@.dom().contains((#[trigger] r@[i]).0) && self@[r@[i].0]
                        == r@[i].1,
                forall|k: K| #[trigger]
                    self@.dom().contains(k) ==> (exists|j: int| 0 <= j < r@.len() && r@[j].0 == k) || (
                    exists|j: int| it.index() <= j < it.seq().len() && *it.seq()[j].0 == k),
        {
            let ghost s = it.seq();
            let ghost n = it.index() as int;
            let ghost r0 = r@;
            let key = entry.0.clone();
            proof {
                assert(vstd::pervasive::strictly_cloned(*entry.0, key));
            }
            r.push((key, *entry.1));
            proof {
                assert(s[n] == (entry.0, entry.1));
                assert forall|a: int, b: int| 0 <= a < b < r@.len() implies #[trigger] r@[a].0
                    != #[trigger] r@[b].0 by {
                    if b == n && r@[a].0 == r@[b].0 {
                        assert(self@[r@[a].0] == r@[a].1);
                        assert(s[a] == s[n]);
                    }
                }
                assert forall|k: K| #[trigger] self@.dom().contains(k) implies (exists|j: int|
                    0 <= j < r@.len() && r@[j].0 == k) || (exists|j: int|
                    n + 1 <= j < s.len() && *s[j].0 == k) by {
                    if exists|j: int| n <= j < s.len() && *s[j].0 == k {
                        let j = choose|j: int| n <= j < s.len() && *s[j].0 == k;
                        if j == n {
                            assert(r@[n].0 == k);
                        }
                    } else {
                        assert(exists|j: int| 0 <= j < r0.len() && r0[j].0 == k);
                        let j = choose|j: int| 0 <= j < r0.len() && r0[j].0 == k;
                        assert(r@[j] == r0[j]);
                    }
                }
            }
        }
        proof {
            lemma_pairs_map_entries(r@);
            assert forall|k: K| #[trigger] self@.dom().contains(k) implies pairs_map(r@).dom().contains(k) by {
                assert(exists|j: int| 0 <= j < r@.len() && r@[j].0 == k);
            }
            assert forall|k: K| #[trigger] pairs_map(r@).dom().contains(k) implies self@.dom().contains(k) && pairs_map(r@)[k] == self@[k] by {
                let j = choose|j: int| 0 <= j < r@.len() && r@[j].0 == k;
                assert(pairs_map(r@)[r@[j].0] == r@[j].1);
            }
            assert(pairs_map(r@) =~= self@);
        }
        r
    }
}

/// The contents of each bucket of a sequence.
pub open spec fn views<K>(v: Seq<Bucket<K>>) -> Seq<Map<K, u64>> {
    v.map_values(|b: Bucket<K>| b@)
}

/// Recency tracker: keys hit recently sit in the open generation (`next`);
/// sealed generations age in a ring, oldest first; keys that fall out of the
/// ring wait in `old` until they are spilled.
///
/// The open generation is sealed after an insertion brings its usage to the
/// threshold or above, so a single item larger than the threshold still makes
/// a generation of its own.
#[verifier::reject_recursive_types(K)]
pub struct History<K> {
    max_bucket_usage: u64,
    bucket_count: u64,
    next_bucket: Bucket<K>,
    old_bucket: Bucket<K>,
    buckets: Vec<Bucket<K>>,
    rotations: Ghost<nat>,
    stamps: Ghost<Map<K, nat>>,
}

impl<K> View for History<K> {
    type V = Bands<K>;

    closed spec fn view(&self) -> Bands<K> {
        Bands {
            old: self.old_bucket@,
            ring: views(self.buckets@),
            next: self.next_bucket@,
            threshold: self.max_bucket_usage,
            count: self.bucket_count,
            rotations: self.rotations@,
            stamps: self.stamps@,
        }
    }
}

impl<K: Hash + Eq + Clone> History<K> {
    /// Every bucket is well formed and the bands meet their invariant.
    pub closed spec fn wf(&self) -> bool {
        &&& self.next_bucket.wf()
        &&& self.old_bucket.wf()
        &&& forall|i: int| 0 <= i < self.buckets@.len() ==> (#[trigger] self.buckets@[i]).wf()
        &&& self@.wf()
        &&& clone_is_exact::<K>()
    }

    /// What a well-formed history guarantees to its users.
    pub proof fn lemma_wf(&self)
        requires
            self.wf(),
        ensures
            self@.wf(),
            clone_is_exact::<K>(),
            obeys_key_model::<K>(),
    {
        self.old_bucket.lemma_wf();
    }

    spec fn buckets_wf(&self) -> bool {
        &&& self.next_bucket.wf()
        &&& self.old_bucket.wf()
        &&& forall|i: int| 0 <= i < self.buckets@.len() ==> (#[trigger] self.buckets@[i]).wf()
        &&& clone_is_exact::<K>()
    }

    /// A history whose generations hold `max_bucket_usage` each, with
    /// `bucket_count` sealed generations in the ring.
    pub fn new(max_bucket_usage: u64, bucket_count: u64) -> (h: History<K>)
        requires
            obeys_key_model::<K>(),
            clone_is_exact::<K>(),
        ensures
            h.wf(),
            h@ == (Bands::<K> {
                old: Map::empty(),
                ring: Seq::empty(),
                next: Map::empty(),
                threshold: max_bucket_usage,
                count: bucket_count,
                rotations: 0,
                stamps: Map::empty(),
            }),
    {
        let h = History {
            max_bucket_usage: max_bucket_usage,
            bucket_count: bucket_count,
            next_bucket: Bucket::new(),
            old_bucket: Bucket::new(),
            buckets: Vec::new(),
            rotations: Ghost(0),
            stamps: Ghost(Map::empty()),
        };
        proof {
            lemma_usage_empty(Map::<K, u64>::empty());
            assert(views(h.buckets@) =~= Seq::<Map<K, u64>>::empty());
            assert(h.next_bucket@.dom() =~= Set::<K>::empty());
        }
        h
    }

    /// Removes `key` from the first bucket of the ring that holds it.
    fn dig_out(buckets: &mut Vec<Bucket<K>>, key: &K) -> (found: bool)
        requires
            forall|i: int| 0 <= i < old(buckets)@.len() ==> (#[trigger] old(buckets)@[i]).wf(),
            ring_disjoint(views(old(buckets)@)),
        ensures
            forall|i: int| 0 <= i < final(buckets)@.len() ==> (#[trigger] final(buckets)@[i]).wf(),
            views(final(buckets)@) == strip(views(old(buckets)@), *key),
            found == in_ring(views(old(buckets)@), *key),
    {
        let ghost r = views(buckets@);
        let mut i: usize = 0;
        while i < buckets.len()
            invariant
                i <= buckets@.len(),
                buckets@.len() == r.len(),
                r == views(buckets@),
                r == views(old(buckets)@),
                forall|j: int| 0 <= j < buckets@.len() ==> (#[trigger] buckets@[j]).wf(),
                ring_disjoint(r),
                forall|j: int| 0 <= j < i ==> !(#[trigger] r[j]).dom().contains(*key),
            decreases buckets@.len() - i,
        {
            assert(r[i as int] == buckets@[i as int]@);
            if buckets[i].remove(key) {
                proof {
                    assert forall|j: int| 0 <= j < r.len() implies #[trigger] views(buckets@)[j]
                        == strip(r, *key)[j] by {
                        if j != i {
                            assert(!r[j].dom().contains(*key));
                            assert(r[j].remove(*key) =~= r[j]);
                        }
                    }
                    assert(views(buckets@) =~= strip(r, *key));
                    assert(r[i as int].dom().contains(*key));
                }
                return true;
            }
            proof {
                assert(r[i as int].remove(*key) =~= r[i as int]);
                assert(views(buckets@) =~= r);
            }
            i = i + 1;
        }
        proof {
            assert(!in_ring(r, *key));
            lemma_strip_absent(r, *key);
        }
        false
    }

    /// Seals the open generation: the oldest sealed one moves to `old` when
    /// the ring is full, and its emptied storage becomes the new open generation.
    fn bury_bucket(&mut self)
        requires
            old(self).buckets_wf(),
            old(self)@.wf_core(),
        ensures
            final(self).wf(),
            final(self)@ == old(self)@.rotate(),
    {
        let ghost b = self@;
        proof {
            lemma_rotate(b);
        }
        if self.bucket_count == 0 {
            let pairs = self.next_bucket.pairs();
            proof {
                lemma_seq_costs_usage(pairs@);
                lemma_upsert_all_union(self.old_bucket@, pairs@);
                assert(b.ring.len() == 0);
            }
            self.old_bucket.extend(pairs);
            self.next_bucket.clear();
        } else if self.buckets.len() as u64 >= self.bucket_count {
            let mut first = self.buckets.remove(0);
            proof {
                assert(first@ == b.ring[0]);
                assert(views(self.buckets@) =~= b.ring.drop_first());
                lemma_ring_first(b.ring);
            }
            let pairs = first.pairs();
            proof {
                lemma_seq_costs_usage(pairs@);
                lemma_upsert_all_union(self.old_bucket@, pairs@);
            }
            self.old_bucket.extend(pairs);
            first.clear();
            let mut current = first;
            std::mem::swap(&mut current, &mut self.next_bucket);
            self.buckets.push(current);
            proof {
                assert(views(self.buckets@) =~= b.ring.drop_first().push(b.next));
            }
        } else {
            let mut current = Bucket::new();
            std::mem::swap(&mut current, &mut self.next_bucket);
            self.buckets.push(current);
            proof {
                assert(views(self.buckets@) =~= b.ring.push(b.next));
            }
        }
        self.rotations = Ghost(self.rotations@ + 1);
        proof {
            assert(self@.old =~= b.rotate().old);
            assert(self@ == b.rotate());
        }
    }

    /// Refreshes `key` with cost `required_bytes`: it moves to the open
    /// generation (from wherever it was), and the open generation is sealed
    /// if that brings it to the threshold.
    pub fn hit(&mut self, key: K, required_bytes: u64)
        requires
            old(self).wf(),
            old(self)@.total() - old(self)@.cost_of(key) + required_bytes <= u64::MAX,
        ensures
            final(self).wf(),
            final(self)@ == old(self)@.hit(key, required_bytes),
            final(self)@.total() == old(self)@.total() - old(self)@.cost_of(key) + required_bytes,
            final(self)@.lookup(key) == Some(required_bytes),
            forall|q: K| q != key ==> #[trigger] final(self)@.lookup(q) == old(self)@.lookup(q),
    {
        let ghost b = self@;
        let ghost k = key;
        proof {
            lemma_refresh(b, k, required_bytes);
            lemma_hit(b, k, required_bytes);
            lemma_ring_strip(b.ring, k);
        }
        let present: Option<u64> = match self.next_bucket.get(&key) {
            Some(bytes) => Some(*bytes),
            None => None,
        };
        match present {
            Some(bytes) => {
                proof {
                    assert(!b.old.dom().contains(k) && !in_ring(b.ring, k));
                    assert(b.old.remove(k) =~= b.old);
                    lemma_strip_absent(b.ring, k);
                }
                if bytes != required_bytes {
                    self.next_bucket.insert(key, required_bytes);
                } else {
                    assert(b.next.insert(k, required_bytes) =~= b.next);
                }
            },
            None => {
                self.old_bucket.remove(&key);
                Self::dig_out(&mut self.buckets, &key);
                proof {
                    assert(b.next.remove(k) =~= b.next);
                }
                self.next_bucket.insert(key, required_bytes);
            },
        }
        self.stamps = Ghost(self.stamps@.insert(k, self.rotations@));
        proof {
            assert(self@ == b.refresh(k, required_bytes));
        }
        if self.next_bucket.usage() >= self.max_bucket_usage {
            self.bury_bucket();
        }
    }

    /// Removes `key` from whichever band holds it; returns whether one did.
    pub fn remove(&mut self, key: &K) -> (removed: bool)
        requires
            old(self).wf(),
        ensures
            final(self).wf(),
            final(self)@ == old(self)@.remove(*key),
            removed == old(self)@.lookup(*key) is Some,
    {
        let ghost b = self@;
        proof {
            lemma_remove(b, *key);
            lemma_ring_strip(b.ring, *key);
            lemma_ring_lookup(b.ring, *key);
        }
        if self.next_bucket.remove(key) {
            proof {
                assert(b.old.remove(*key) =~= b.old);
                lemma_strip_absent(b.ring, *key);
                assert(self@ == b.remove(*key));
            }
            return true;
        }
        if Self::dig_out(&mut self.buckets, key) {
            proof {
                assert(b.old.remove(*key) =~= b.old);
                assert(self@ == b.remove(*key));
            }
            return true;
        }
        let removed = self.old_bucket.remove(key);
        proof {
            assert(self@ == b.remove(*key));
        }
        removed
    }

    /// Moves every entry of `old` to the end of `target`, each key once, and
    /// empties `old`.
    pub fn spill(&mut self, target: &mut Vec<(K, u64)>)
        requires
            old(self).wf(),
        ensures
            final(self).wf(),
            final(self)@ == old(self)@.spill(),
            final(target)@.len() == old(target)@.len() + old(self)@.old.dom().len(),
            final(target)@.take(old(target)@.len() as int) == old(target)@,
            keys_distinct(final(target)@.skip(old(target)@.len() as int)),
            pairs_map(final(target)@.skip(old(target)@.len() as int)) == old(self)@.old,
    {
        let ghost b = self@;
        proof {
            lemma_spill(b);
        }
        let mut pairs = self.old_bucket.pairs();
        let ghost added = pairs@;
        let ghost before = target@;
        target.append(&mut pairs);
        self.old_bucket.clear();
        proof {
            assert(target@.take(before.len() as int) =~= before);
            assert(target@.skip(before.len() as int) =~= added);
            assert(self@ == b.spill());
        }
    }

    /// Empties every band.
    pub fn clear(&mut self)
        requires
            old(self).wf(),
        ensures
            final(self).wf(),
            final(self)@ == (Bands::<K> {
                old: Map::empty(),
                ring: Seq::empty(),
                next: Map::empty(),
                ..old(self)@
            }),
    {
        self.next_bucket.clear();
        self.old_bucket.clear();
        self.buckets.clear();
        proof {
            lemma_usage_empty(Map::<K, u64>::empty());
            assert(views(self.buckets@) =~= Seq::<Map<K, u64>>::empty());
            assert(self.next_bucket@.dom() =~= Set::<K>::empty());
        }
    }

    /// Usage of each band, oldest first: `old` (uncapped), each sealed
    /// generation and the open one (capped at the threshold).
    pub fn detailed_usage(&self) -> (r: Vec<(u64, Option<u64>)>)
        requires
            self.wf(),
        ensures
            r@.len() == self@.ring.len() + 2,
            r@[0].0 == map_usage(self@.old),
            r@[0].1 is None,
            forall|i: int|
                0 <= i < self@.ring.len() ==> (#[trigger] r@[i + 1]).0 == map_usage(self@.ring[i])
                    && r@[i + 1].1 == Some(self@.threshold),
            r@[r@.len() - 1].0 == map_usage(self@.next),
            r@[r@.len() - 1].1 == Some(self@.threshold),
    {
        let mut res: Vec<(u64, Option<u64>)> = Vec::new();
        res.push((self.old_bucket.usage(), None));
        let mut i: usize = 0;
        while i < self.buckets.len()
            invariant
                self.wf(),
                i <= self.buckets@.len(),
                res@.len() == i + 1,
                res@[0].0 == map_usage(self@.old),
                res@[0].1 is None,
                forall|j: int|
                    0 <= j < i ==> (#[trigger] res@[j + 1]).0 == map_usage(self@.ring[j]) && res@[j
                        + 1].1 == Some(self@.threshold),
            decreases self.buckets@.len() - i,
        {
            assert(self@.ring[i as int] == self.buckets@[i as int]@);
            res.push((self.buckets[i].usage(), Some(self.max_bucket_usage)));
            i = i + 1;
        }
        res.push((self.next_bucket.usage(), Some(self.max_bucket_usage)));
        res
    }

    /// Usage of each band, oldest first: `old`, each sealed generation, the open one.
    pub fn simple_usage(&self) -> (r: Vec<u64>)
        requires
            self.wf(),
        ensures
            r@.len() == self@.ring.len() + 2,
            r@[0] == map_usage(self@.old),
            forall|i: int| 0 <= i < self@.ring.len() ==> #[trigger] r@[i + 1] == map_usage(self@.ring[i]),
            r@[r@.len() - 1] == map_usage(self@.next),
    {
        let mut res: Vec<u64> = Vec::new();
        res.push(self.old_bucket.usage());
        let mut i: usize = 0;
        while i < self.buckets.len()
            invariant
                self.wf(),
                i <= self.buckets@.len(),
                res@.len() == i + 1,
                res@[0] == map_usage(self@.old),
                forall|j: int| 0 <= j < i ==> #[trigger] res@[j + 1] == map_usage(self@.ring[j]),
            decreases self.buckets@.len() - i,
        {
            assert(self@.ring[i as int] == self.buckets@[i as int]@);
            res.push(self.buckets[i].usage());
            i = i + 1;
        }
        res.push(self.next_bucket.usage());
        res
    }

    /// Total cost over all bands.
    pub fn usage(&self) -> (r: u64)
        requires
            self.wf(),
        ensures
            r == self@.total(),
    {
        let mut res: u64 = self.old_bucket.usage();
        let mut i: usize = 0;
        while i < self.buckets.len()
            invariant
                self.wf(),
                i <= self.buckets@.len(),
                res == map_usage(self@.old) + ring_usage(self@.ring.take(i as int)),
            decreases self.buckets@.len() - i,
        {
            proof {
                assert(self@.ring[i as int] == self.buckets@[i as int]@);
                lemma_ring_prefix(self@.ring, i as int);
                lemma_ring_prefix(self@.ring, i as int + 1);
            }
            res = res + self.buckets[i].usage();
            i = i + 1;
        }
        proof {
            assert(self@.ring.take(i as int) =~= self@.ring);
        }
        res = res + self.next_bucket.usage();
        res
    }
}

} // verus!
