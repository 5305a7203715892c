//! A byte-bounded key/value store that evicts by the age bands of a `History`.
use std::collections::HashMap;
use std::hash::Hash;
use vstd::prelude::*;
use vstd::std_specs::hash::obeys_key_model;
use crate::history::History;
use crate::model::{
    clone_is_exact, key_set, lemma_cost_within_total, lemma_hit, lemma_key_set_step, lemma_pairs_map_entries, lemma_remove, lemma_spill,
    Bands,
};
use crate::RequiredBytes;
use crate::StoreResult;

verus! {

broadcast use vstd::std_specs::hash::group_hash_axioms;

/// What to do when a value cannot be admitted.
#[derive(Clone, Copy)]
pub enum OutOfMemoryStrategy {
    Fail,
    Restart,
}

/// Number of sealed generations that a cache keeps in its history.
pub const GENERATION_COUNT: u64 = 2;

/// Cost of a value: its length in bytes.
pub open spec fn value_cost(v: Seq<u8>) -> u64 {
    v.len() as u64
}

/// Threshold of a generation in a cache of `limit` bytes: a fifth of it, at least one.
pub open spec fn generation_threshold(limit: u64) -> u64 {
    if limit / 5 == 0 {
        1
    } else {
        limit / 5
    }
}

/// A value of cost `cost` replacing one of cost `existing` fits beside `total`
/// bytes in `limit` bytes.
pub open spec fn fits(total: nat, existing: nat, cost: u64, limit: u64) -> bool {
    total + cost <= limit + existing
}

/// In-memory cache of byte values, bounded by `limit` bytes in all.
#[verifier::reject_recursive_types(K)]
pub struct MemCache<K> {
    limit: u64,
    history: History<K>,
    items: HashMap<K, Vec<u8>>,
}

impl<K: Eq + Hash + Clone> MemCache<K> {
    /// The stored values.
    pub closed spec fn values(&self) -> Map<K, Seq<u8>> {
        self.items@.map_values(|v: Vec<u8>| v@)
    }

    /// The age bands of the stored keys.
    pub closed spec fn bands(&self) -> Bands<K> {
        self.history@
    }

    pub closed spec fn spec_limit(&self) -> u64 {
        self.limit
    }

    /// Every stored key has exactly one entry in the history, with the value's
    /// cost, and the history holds nothing else; the total fits the limit.
    pub closed spec fn wf(&self) -> bool {
        &&& self.history.wf()
        &&& obeys_key_model::<K>()
        &&& forall|k: K| #[trigger]
            self.history@.lookup(k) == if self.items@.dom().contains(k) {
                Some(value_cost(self.items@[k]@))
            } else {
                None
            }
        &&& self.history@.total() <= self.limit
    }

    /// The bands and values after making room for a value of cost `cost`
    /// under `key`: unchanged if it fits, else with the reclamation band
    /// spilled and its keys' values dropped.
    pub open spec fn freed(&self, key: K, cost: u64) -> (Bands<K>, Map<K, Seq<u8>>) {
        let b = self.bands();
        if fits(b.total(), b.cost_of(key), cost, self.spec_limit()) {
            (b, self.values())
        } else {
            (b.spill(), self.values().remove_keys(b.old.dom()))
        }
    }

    /// Whether a value of cost `cost` fits under `key` after making room.
    pub open spec fn admits(&self, key: K, cost: u64) -> bool {
        let b = self.freed(key, cost).0;
        fits(b.total(), b.cost_of(key), cost, self.spec_limit())
    }

    pub proof fn lemma_wf(&self)
        requires
            self.wf(),
        ensures
            self.bands().wf(),
            self.bands().total() <= self.spec_limit(),
            clone_is_exact::<K>(),
            obeys_key_model::<K>(),
            forall|k: K| #[trigger]
                self.bands().lookup(k) == if self.values().dom().contains(k) {
                    Some(value_cost(self.values()[k]))
                } else {
                    None
                },
    {
        self.history.lemma_wf();
        assert forall|k: K| #[trigger]
            self.bands().lookup(k) == if self.values().dom().contains(k) {
                Some(value_cost(self.values()[k]))
            } else {
                None
            } by {
            assert(self.history@.lookup(k) == if self.items@.dom().contains(k) {
                Some(value_cost(self.items@[k]@))
            } else {
                None
            });
        }
    }

    /// The history's total is the number of bytes held in values.
    pub proof fn law_usage_is_bytes_held(&self)
        requires
            self.wf(),
        ensures
            self.bands().total() == crate::model::map_usage(
                self.values().map_values(|v: Seq<u8>| value_cost(v)),
            ),
    {
        self.lemma_wf();
        let b = self.bands();
        let sizes = self.values().map_values(|v: Seq<u8>| value_cost(v));
        crate::model::law_total_is_entry_sum(b);
        assert forall|k: K| #[trigger] crate::model::flat(b).dom().contains(k) <==> sizes.dom().contains(k) by {
            assert(b.lookup(k) == if self.values().dom().contains(k) {
                Some(value_cost(self.values()[k]))
            } else {
                None
            });
        }
        assert forall|k: K| #[trigger] sizes.dom().contains(k) implies crate::model::flat(b)[k] == sizes[k] by {
            assert(b.lookup(k) == Some(value_cost(self.values()[k])));
            assert(crate::model::flat(b).dom().contains(k));
        }
        assert(crate::model::flat(b) =~= sizes);
    }

    /// A value that `set` admits leaves the cache within its limit.
    pub proof fn law_admitted_within_limit(&self, key: K, cost: u64)
        requires
            self.wf(),
            self.admits(key, cost),
        ensures
            self.freed(key, cost).0.hit(key, cost).total() <= self.spec_limit(),
    {
        self.lemma_wf();
        let b = self.bands();
        if !fits(b.total(), b.cost_of(key), cost, self.spec_limit()) {
            lemma_spill(b);
        }
        let f = self.freed(key, cost).0;
        crate::model::lemma_cost_within_total(f, key);
        lemma_hit(f, key, cost);
    }

    /// When `set` refuses a value, every value that stays is the one stored
    /// before; and when the reclamation band held no key but `key`, the only
    /// change to the values is that `key` is gone.
    pub proof fn law_refusal_keeps_values(&self, key: K, cost: u64)
        requires
            self.wf(),
            !self.admits(key, cost),
        ensures
            forall|k: K| #[trigger]
                self.freed(key, cost).1.remove(key).dom().contains(k) ==> self.values().dom().contains(k)
                    && self.freed(key, cost).1.remove(key)[k] == self.values()[k],
            (forall|k: K| #[trigger] self.bands().old.dom().contains(k) ==> k == key) ==> self.freed(
                key,
                cost,
            ).1.remove(key) == self.values().remove(key),
    {
        let v = self.values();
        let b = self.bands();
        if forall|k: K| #[trigger] b.old.dom().contains(k) ==> k == key {
            assert(v.remove_keys(b.old.dom()).remove(key) =~= v.remove(key));
        }
    }

    /// A cache of `limit` bytes, whose history seals a generation at a fifth
    /// of the limit (at least one byte) and keeps two sealed generations.
    pub fn new(limit: u64) -> (c: MemCache<K>)
        requires
            obeys_key_model::<K>(),
            clone_is_exact::<K>(),
        ensures
            c.wf(),
            c.spec_limit() == limit,
            c.values() == Map::<K, Seq<u8>>::empty(),
            c.bands() == (Bands::<K> {
                old: Map::empty(),
                ring: Seq::empty(),
                next: Map::empty(),
                threshold: generation_threshold(limit),
                count: GENERATION_COUNT,
                rotations: 0,
                stamps: Map::empty(),
            }),
    {
        let mut bucket_size: u64 = limit / 5;
        if bucket_size == 0 {
            bucket_size = 1;
        }
        let c = MemCache { limit: limit, history: History::new(bucket_size, GENERATION_COUNT), items: HashMap::new() };
        proof {
            assert(c.values() =~= Map::<K, Seq<u8>>::empty());
            crate::model::lemma_usage_empty(Map::<K, u64>::empty());
        }
        c
    }

    /// Same as `new`.
    pub fn with_capacity(limit: u64) -> (c: MemCache<K>)
        requires
            obeys_key_model::<K>(),
            clone_is_exact::<K>(),
        ensures
            c.wf(),
            c.spec_limit() == limit,
            c.values() == Map::<K, Seq<u8>>::empty(),
            c.bands() == (Bands::<K> {
                old: Map::empty(),
                ring: Seq::empty(),
                next: Map::empty(),
                threshold: generation_threshold(limit),
                count: GENERATION_COUNT,
                rotations: 0,
                stamps: Map::empty(),
            }),
    {
        Self::new(limit)
    }

    pub fn limit(&self) -> (r: u64)
        requires
            self.wf(),
        ensures
            r == self.spec_limit(),
    {
        self.limit
    }

    /// Bytes held, over all bands.
    pub fn usage(&self) -> (r: u64)
        requires
            self.wf(),
        ensures
            r == self.bands().total(),
            r <= self.spec_limit(),
    {
        self.history.usage()
    }

    /// Usage of each band, oldest first, with the cap of each generation.
    pub fn detailed_usage(&self) -> (r: Vec<(u64, Option<u64>)>)
        requires
            self.wf(),
        ensures
            r@.len() == self.bands().ring.len() + 2,
            r@[0].0 == crate::model::map_usage(self.bands().old),
            r@[0].1 is None,
            forall|i: int|
                0 <= i < self.bands().ring.len() ==> (#[trigger] r@[i + 1]).0
                    == crate::model::map_usage(self.bands().ring[i]) && r@[i + 1].1 == Some(
                    self.bands().threshold,
                ),
            r@[r@.len() - 1].0 == crate::model::map_usage(self.bands().next),
            r@[r@.len() - 1].1 == Some(self.bands().threshold),
    {
        self.history.detailed_usage()
    }

    /// Drops every value and empties the history.
    pub fn clear(&mut self)
        requires
            old(self).wf(),
        ensures
            final(self).wf(),
            final(self).spec_limit() == old(self).spec_limit(),
            final(self).values() == Map::<K, Seq<u8>>::empty(),
            final(self).bands() == (Bands::<K> {
                old: Map::empty(),
                ring: Seq::empty(),
                next: Map::empty(),
                ..old(self).bands()
            }),
    {
        self.items.clear();
        self.history.clear();
        proof {
            assert(self.values() =~= Map::<K, Seq<u8>>::empty());
            crate::model::lemma_usage_empty(Map::<K, u64>::empty());
            assert forall|k: K| #[trigger] self.history@.lookup(k) == if self.items@.dom().contains(k) {
                Some(value_cost(self.items@[k]@))
            } else {
                None
            } by {
                assert(crate::model::ring_lookup(self.history@.ring, k) is None);
            }
        }
    }

    /// Whether `amount` more bytes fit in the limit.
    pub fn can_store_bytes(&self, amount: u64) -> (r: bool)
        requires
            self.wf(),
        ensures
            r == (self.bands().total() + amount <= self.spec_limit()),
    {
        let usage = self.history.usage();
        amount <= self.limit - usage
    }

    /// Makes room for a value of cost `cost` under `key`. If it does not fit,
    /// spills the reclamation band of the history and drops the values of the
    /// spilled keys (a second spill right after would find nothing more).
    /// Returns whether the value fits now.
    fn free_memory(&mut self, key: &K, cost: u64) -> (ok: bool)
        requires
            old(self).wf(),
        ensures
            final(self).wf(),
            final(self).spec_limit() == old(self).spec_limit(),
            final(self).bands() == old(self).freed(*key, cost).0,
            final(self).values() == old(self).freed(*key, cost).1,
            ok == old(self).admits(*key, cost),
    {
        proof {
            self.lemma_wf();
            lemma_cost_within_total(self.history@, *key);
            assert(self.history@.lookup(*key) == if self.items@.dom().contains(*key) {
                Some(value_cost(self.items@[*key]@))
            } else {
                None
            });
        }
        let existing: u64 = match self.items.get(key) {
            Some(v) => v.required_bytes(),
            None => 0,
        };
        let usage = self.history.usage();
        if cost <= self.limit - usage + existing {
            return true;
        }
        let ghost b = self.history@;
        let ghost v0 = self.items@;
        let mut spilled: Vec<(K, u64)> = Vec::new();
        self.history.spill(&mut spilled);
        let ghost s = spilled@;
        proof {
            assert(s.skip(0) =~= s);
            lemma_pairs_map_entries(s);
            lemma_spill(b);
        }
        let mut i: usize = 0;
        proof {
            assert(key_set(s.take(0)) =~= Set::<K>::empty());
            assert(v0.remove_keys(Set::<K>::empty()) =~= v0);
        }
        while i < spilled.len()
            invariant
                i <= s.len(),
                spilled@ == s,
                self.limit == old(self).limit,
                self.history@ == b.spill(),
                self.history.wf(),
                obeys_key_model::<K>(),
                self.items@ == v0.remove_keys(key_set(s.take(i as int))),
            decreases s.len() - i,
        {
            self.items.remove(&spilled[i].0);
            proof {
                lemma_key_set_step(s, i as int);
                assert(self.items@ =~= v0.remove_keys(key_set(s.take(i + 1))));
            }
            i = i + 1;
        }
        proof {
            assert(s.take(s.len() as int) =~= s);
            assert(key_set(s) =~= b.old.dom());
            assert(self.values() =~= old(self).values().remove_keys(b.old.dom()));
            assert forall|k: K| #[trigger] self.history@.lookup(k) == if self.items@.dom().contains(k) {
                Some(value_cost(self.items@[k]@))
            } else {
                None
            } by {
                assert(b.lookup(k) == if v0.dom().contains(k) {
                    Some(value_cost(v0[k]@))
                } else {
                    None
                });
            }
        }
        proof {
            lemma_cost_within_total(self.history@, *key);
            assert(self.history@.lookup(*key) == if self.items@.dom().contains(*key) {
                Some(value_cost(self.items@[*key]@))
            } else {
                None
            });
        }
        let existing: u64 = match self.items.get(key) {
            Some(v) => v.required_bytes(),
            None => 0,
        };
        let usage = self.history.usage();
        cost <= self.limit - usage + existing
    }

    /// Stores `value` under `key`, making room if needed. When the value does
    /// not fit even after the reclamation band is spilled, the key is dropped
    /// altogether and the result is `OutOfMemory`.
    pub fn set(&mut self, key: K, value: Vec<u8>) -> (r: StoreResult)
        requires
            old(self).wf(),
        ensures
            final(self).wf(),
            final(self).spec_limit() == old(self).spec_limit(),
            (r == StoreResult::Stored) == old(self).admits(key, value_cost(value@)),
            r == StoreResult::Stored ==> final(self).values() == old(self).freed(
                key,
                value_cost(value@),
            ).1.insert(key, value@) && final(self).bands() == old(self).freed(
                key,
                value_cost(value@),
            ).0.hit(key, value_cost(value@)),
            r == StoreResult::OutOfMemory ==> final(self).values() == old(self).freed(
                key,
                value_cost(value@),
            ).1.remove(key) && final(self).bands() == old(self).freed(
                key,
                value_cost(value@),
            ).0.remove(key),
            r == StoreResult::Stored ==> final(self).bands().total() <= final(self).spec_limit(),
    {
        let new_required_mem = value.required_bytes();
        if !self.free_memory(&key, new_required_mem) {
            let ghost b = self.history@;
            proof {
                self.lemma_wf();
                lemma_remove(b, key);
            }
            self.items.remove(&key);
            self.history.remove(&key);
            proof {
                assert(self.values() =~= old(self).freed(key, new_required_mem).1.remove(key));
                assert forall|k: K| #[trigger] self.history@.lookup(k) == if self.items@.dom().contains(k) {
                    Some(value_cost(self.items@[k]@))
                } else {
                    None
                } by {
                }
            }
            return StoreResult::OutOfMemory;
        }
        let ghost b = self.history@;
        let ghost vv = value@;
        proof {
            self.lemma_wf();
            lemma_hit(b, key, new_required_mem);
        }
        let stored_key = key.clone();
        proof {
            assert(vstd::pervasive::strictly_cloned(key, stored_key));
        }
        self.items.insert(stored_key, value);
        self.history.hit(key, new_required_mem);
        proof {
            assert(self.values() =~= old(self).freed(key, new_required_mem).1.insert(key, vv));
            assert forall|k: K| #[trigger] self.history@.lookup(k) == if self.items@.dom().contains(k) {
                Some(value_cost(self.items@[k]@))
            } else {
                None
            } by {
            }
        }
        StoreResult::Stored
    }

    /// Looks up `key`. A found key is hit in the history with its value's
    /// cost, so reading extends its lifetime as writing does.
    pub fn get(&mut self, key: K) -> (r: Option<&[u8]>)
        requires
            old(self).wf(),
        ensures
            final(self).wf(),
            final(self).spec_limit() == old(self).spec_limit(),
            final(self).values() == old(self).values(),
            match r {
                Some(v) => old(self).values().dom().contains(key) && v@ == old(self).values()[key]
                    && final(self).bands() == old(self).bands().hit(key, value_cost(v@)),
                None => !old(self).values().dom().contains(key) && final(self).bands() == old(
                    self,
                ).bands(),
            },
    {
        let cost: Option<u64> = match self.items.get(&key) {
            Some(v) => Some(v.required_bytes()),
            None => None,
        };
        match cost {
            None => None,
            Some(c) => {
                let ghost b = self.history@;
                proof {
                    self.lemma_wf();
                    assert(b.lookup(key) == Some(c));
                    lemma_hit(b, key, c);
                }
                let hit_key = key.clone();
                proof {
                    assert(vstd::pervasive::strictly_cloned(key, hit_key));
                }
                self.history.hit(hit_key, c);
                proof {
                    assert forall|k: K| #[trigger] self.history@.lookup(k) == if self.items@.dom().contains(k) {
                        Some(value_cost(self.items@[k]@))
                    } else {
                        None
                    } by {
                    }
                }
                match self.items.get(&key) {
                    Some(v) => Some(v.as_slice()),
                    None => None,
                }
            },
        }
    }
}

} // verus!
