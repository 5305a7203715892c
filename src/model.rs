//! Mathematical model of cost-tracking buckets: the total cost of a map of
//! keys to costs, and the facts about it that the executable code relies on.
use vstd::prelude::*;

verus! {

broadcast use vstd::set::group_set_axioms, vstd::map::group_map_axioms;

/// Cloning a key yields an equal key.
pub open spec fn clone_is_exact<K: Clone>() -> bool {
    forall|a: K, b: K| #[trigger] vstd::pervasive::strictly_cloned(a, b) ==> a == b
}

/// Sum of all costs held in `m`.
pub open spec fn map_usage<K>(m: Map<K, u64>) -> nat
    decreases m.dom().len(),
    when m.dom().finite()
    via map_usage_decreases::<K>
{
    if m.dom().len() == 0 {
        0
    } else {
        let k = m.dom().choose();
        m[k] as nat + map_usage(m.remove(k))
    }
}

#[via_fn]
proof fn map_usage_decreases<K>(m: Map<K, u64>) {
    if m.dom().len() != 0 {
        let k = m.dom().choose();
        assert(m.dom().contains(k));
        assert(m.remove(k).dom() =~= m.dom().remove(k));
    }
}

/// Taking any one key out of a finite map lowers its usage by that key's cost.
pub proof fn lemma_usage_remove<K>(m: Map<K, u64>, k: K)
    requires
        m.dom().finite(),
        m.dom().contains(k),
    ensures
        map_usage(m) == map_usage(m.remove(k)) + m[k],
    decreases m.dom().len(),
{
    let c = m.dom().choose();
    assert(m.dom().contains(c));
    if c != k {
        let mc = m.remove(c);
        let mk = m.remove(k);
        lemma_usage_remove(mc, k);
        lemma_usage_remove(mk, c);
        assert(mc.remove(k) =~= mk.remove(c));
    } else {
        assert(m.remove(c) =~= m.remove(k));
    }
}

/// Usage of the empty map.
pub proof fn lemma_usage_empty<K>(m: Map<K, u64>)
    requires
        m.dom().finite(),
        m.dom().len() == 0,
    ensures
        map_usage(m) == 0,
{
}

/// Upserting a key replaces its previous cost, if any, by the new one.
pub proof fn lemma_usage_insert<K>(m: Map<K, u64>, k: K, v: u64)
    requires
        m.dom().finite(),
    ensures
        map_usage(m.insert(k, v)) == map_usage(m) - (if m.dom().contains(k) {
            m[k] as int
        } else {
            0int
        }) + v,
{
    let mi = m.insert(k, v);
    lemma_usage_remove(mi, k);
    if m.dom().contains(k) {
        lemma_usage_remove(m, k);
        assert(mi.remove(k) =~= m.remove(k));
    } else {
        assert(mi.remove(k) =~= m);
    }
}

/// The map built by upserting each pair of `s`, in order, into `m`.
pub open spec fn upsert_all<K>(m: Map<K, u64>, s: Seq<(K, u64)>) -> Map<K, u64>
    decreases s.len(),
{
    if s.len() == 0 {
        m
    } else {
        upsert_all(m, s.drop_last()).insert(s.last().0, s.last().1)
    }
}

/// The map that a sequence of pairs describes (a later pair wins).
pub open spec fn pairs_map<K>(s: Seq<(K, u64)>) -> Map<K, u64> {
    upsert_all(Map::empty(), s)
}

/// Sum of the costs of a sequence of pairs.
pub open spec fn seq_costs<K>(s: Seq<(K, u64)>) -> nat
    decreases s.len(),
{
    if s.len() == 0 {
        0
    } else {
        seq_costs(s.drop_last()) + s.last().1 as nat
    }
}

/// The keys that occur in `s`.
pub open spec fn key_set<K>(s: Seq<(K, u64)>) -> Set<K> {
    Set::new(|k: K| exists|j: int| 0 <= j < s.len() && s[j].0 == k)
}

/// The keys of a longer prefix: one more key.
pub proof fn lemma_key_set_step<K>(s: Seq<(K, u64)>, i: int)
    requires
        0 <= i < s.len(),
    ensures
        key_set(s.take(i + 1)) == key_set(s.take(i)).insert(s[i].0),
{
    let a = s.take(i + 1);
    let p = s.take(i);
    assert forall|k: K| #[trigger] key_set(a).contains(k) <==> key_set(p).insert(s[i].0).contains(k) by {
        if key_set(a).contains(k) {
            let j = choose|j: int| 0 <= j < a.len() && a[j].0 == k;
            if j < i {
                assert(p[j] == a[j]);
            } else {
                assert(a[j] == s[i]);
            }
        }
        if key_set(p).contains(k) {
            let j = choose|j: int| 0 <= j < p.len() && p[j].0 == k;
            assert(a[j] == p[j]);
        }
        if k == s[i].0 {
            assert(a[i] == s[i]);
        }
    }
    assert(key_set(a) =~= key_set(p).insert(s[i].0));
}

/// No key occurs twice in `s`.
pub open spec fn keys_distinct<K>(s: Seq<(K, u64)>) -> bool {
    forall|i: int, j: int| 0 <= i < j < s.len() ==> #[trigger] s[i].0 != #[trigger] s[j].0
}

/// Two maps share no key.
pub open spec fn disjoint<K>(a: Map<K, u64>, b: Map<K, u64>) -> bool {
    forall|k: K| a.dom().contains(k) ==> !b.dom().contains(k)
}

pub proof fn lemma_upsert_all_finite<K>(m: Map<K, u64>, s: Seq<(K, u64)>)
    requires
        m.dom().finite(),
    ensures
        upsert_all(m, s).dom().finite(),
    decreases s.len(),
{
    if s.len() > 0 {
        lemma_upsert_all_finite(m, s.drop_last());
    }
}

/// Upserting a sequence is the same as taking the union with the map it describes.
pub proof fn lemma_upsert_all_union<K>(m: Map<K, u64>, s: Seq<(K, u64)>)
    ensures
        upsert_all(m, s) == m.union_prefer_right(pairs_map(s)),
    decreases s.len(),
{
    if s.len() == 0 {
        assert(m.union_prefer_right(Map::empty()) =~= m);
    } else {
        lemma_upsert_all_union(m, s.drop_last());
        lemma_upsert_all_union(Map::empty(), s.drop_last());
        assert(Map::<K, u64>::empty().union_prefer_right(pairs_map(s.drop_last())) =~= pairs_map(
            s.drop_last(),
        ));
        assert(upsert_all(m, s) =~= m.union_prefer_right(pairs_map(s)));
    }
}

/// The keys of the described map are the keys that occur in the sequence, and,
/// without repeated keys, each maps to the cost paired with it.
pub proof fn lemma_pairs_map_entries<K>(s: Seq<(K, u64)>)
    ensures
        forall|k: K| #[trigger]
            pairs_map(s).dom().contains(k) <==> exists|i: int| 0 <= i < s.len() && s[i].0 == k,
        keys_distinct(s) ==> forall|i: int|
            0 <= i < s.len() ==> #[trigger] pairs_map(s)[s[i].0] == s[i].1,
        pairs_map(s).dom().finite(),
    decreases s.len(),
{
    lemma_upsert_all_finite(Map::<K, u64>::empty(), s);
    if s.len() > 0 {
        let p = s.drop_last();
        lemma_pairs_map_entries(p);
        assert forall|k: K| #[trigger]
            pairs_map(s).dom().contains(k) <==> exists|i: int| 0 <= i < s.len() && s[i].0 == k by {
            if pairs_map(s).dom().contains(k) && k != s.last().0 {
                let i = choose|i: int| 0 <= i < p.len() && p[i].0 == k;
                assert(s[i] == p[i]);
            }
            if exists|i: int| 0 <= i < s.len() && s[i].0 == k {
                let i = choose|i: int| 0 <= i < s.len() && s[i].0 == k;
                if i < s.len() - 1 {
                    assert(p[i] == s[i]);
                }
            }
        }
        if keys_distinct(s) {
            assert forall|i: int| 0 <= i < s.len() implies #[trigger] pairs_map(s)[s[i].0]
                == s[i].1 by {
                if i < s.len() - 1 {
                    assert(p[i] == s[i]);
                    assert(s[i].0 != s[s.len() - 1].0);
                    assert(keys_distinct(p)) by {
                        assert forall|a: int, b: int| 0 <= a < b < p.len() implies #[trigger] p[a].0
                            != #[trigger] p[b].0 by {
                            assert(p[a] == s[a] && p[b] == s[b]);
                        }
                    }
                }
            }
        }
    }
}

/// Without repeated keys, the costs of a sequence sum to the usage of the map it describes.
pub proof fn lemma_seq_costs_usage<K>(s: Seq<(K, u64)>)
    requires
        keys_distinct(s),
    ensures
        seq_costs(s) == map_usage(pairs_map(s)),
    decreases s.len(),
{
    if s.len() == 0 {
        lemma_usage_empty(pairs_map(s));
    } else {
        let p = s.drop_last();
        assert(keys_distinct(p)) by {
            assert forall|a: int, b: int| 0 <= a < b < p.len() implies #[trigger] p[a].0
                != #[trigger] p[b].0 by {
                assert(p[a] == s[a] && p[b] == s[b]);
            }
        }
        lemma_seq_costs_usage(p);
        lemma_pairs_map_entries(p);
        assert(!pairs_map(p).dom().contains(s.last().0)) by {
            if pairs_map(p).dom().contains(s.last().0) {
                let i = choose|i: int| 0 <= i < p.len() && p[i].0 == s.last().0;
                assert(s[i] == p[i]);
            }
        }
        lemma_usage_insert(pairs_map(p), s.last().0, s.last().1);
    }
}

/// The costs of a prefix never exceed those of the whole sequence.
pub proof fn lemma_seq_costs_prefix<K>(s: Seq<(K, u64)>, i: int)
    requires
        0 <= i <= s.len(),
    ensures
        seq_costs(s.take(i)) <= seq_costs(s),
    decreases s.len() - i,
{
    if i < s.len() {
        lemma_seq_costs_prefix(s, i + 1);
        assert(s.take(i + 1).drop_last() =~= s.take(i));
    } else {
        assert(s.take(i) =~= s);
    }
}

/// The usage of a union of maps without common keys is the sum of their usages.
pub proof fn lemma_usage_union<K>(a: Map<K, u64>, b: Map<K, u64>)
    requires
        a.dom().finite(),
        b.dom().finite(),
        disjoint(a, b),
    ensures
        map_usage(a.union_prefer_right(b)) == map_usage(a) + map_usage(b),
        a.union_prefer_right(b).dom().finite(),
    decreases b.dom().len(),
{
    let u = a.union_prefer_right(b);
    assert(u.dom() =~= a.dom().union(b.dom()));
    if b.dom().len() == 0 {
        assert(b.dom() =~= Set::empty()) by {
            if exists|k: K| b.dom().contains(k) {
                let k = choose|k: K| b.dom().contains(k);
                assert(b.dom().remove(k).len() < b.dom().len());
            }
        }
        assert(u =~= a);
        lemma_usage_empty(b);
    } else {
        let k = b.dom().choose();
        assert(b.dom().contains(k));
        let b2 = b.remove(k);
        lemma_usage_union(a, b2);
        lemma_usage_remove(b, k);
        lemma_usage_remove(u, k);
        assert(u.remove(k) =~= a.union_prefer_right(b2));
    }
}

/// Sum of the usages of a sequence of buckets.
pub open spec fn ring_usage<K>(r: Seq<Map<K, u64>>) -> nat
    decreases r.len(),
{
    if r.len() == 0 {
        0
    } else {
        ring_usage(r.drop_last()) + map_usage(r.last())
    }
}

/// The cost of `k` in the newest bucket of `r` that holds it.
pub open spec fn ring_lookup<K>(r: Seq<Map<K, u64>>, k: K) -> Option<u64>
    decreases r.len(),
{
    if r.len() == 0 {
        None
    } else if r.last().dom().contains(k) {
        Some(r.last()[k])
    } else {
        ring_lookup(r.drop_last(), k)
    }
}

/// Every bucket of `r` with `k` taken out.
pub open spec fn strip<K>(r: Seq<Map<K, u64>>, k: K) -> Seq<Map<K, u64>> {
    r.map_values(|m: Map<K, u64>| m.remove(k))
}

/// Some bucket of `r` holds `k`.
pub open spec fn in_ring<K>(r: Seq<Map<K, u64>>, k: K) -> bool {
    exists|i: int| 0 <= i < r.len() && #[trigger] r[i].dom().contains(k)
}

/// No key is held by two buckets of `r`.
pub open spec fn ring_disjoint<K>(r: Seq<Map<K, u64>>) -> bool {
    forall|i: int, j: int, k: K|
        0 <= i < r.len() && 0 <= j < r.len() && i != j && #[trigger] r[i].dom().contains(k)
            ==> !#[trigger] r[j].dom().contains(k)
}

/// Every bucket of `r` is finite.
pub open spec fn ring_finite<K>(r: Seq<Map<K, u64>>) -> bool {
    forall|i: int| 0 <= i < r.len() ==> #[trigger] r[i].dom().finite()
}

/// The state of a generational history, band by band.
#[verifier::reject_recursive_types(K)]
pub struct Bands<K> {
    /// Keys that fell out of the ring and are due for reclamation.
    pub old: Map<K, u64>,
    /// Sealed generations, oldest first.
    pub ring: Seq<Map<K, u64>>,
    /// The open generation, which receives every hit key.
    pub next: Map<K, u64>,
    /// Usage at which the open generation is sealed.
    pub threshold: u64,
    /// Number of sealed generations kept in the ring.
    pub count: u64,
    /// Number of rotations so far.
    pub rotations: nat,
    /// For each key, the number of rotations that had happened when it was last hit.
    pub stamps: Map<K, nat>,
}

impl<K> Bands<K> {
    /// Total cost over all bands.
    pub open spec fn total(self) -> nat {
        map_usage(self.old) + ring_usage(self.ring) + map_usage(self.next)
    }

    /// The cost recorded for `k`, if some band holds it.
    pub open spec fn lookup(self, k: K) -> Option<u64> {
        if self.next.dom().contains(k) {
            Some(self.next[k])
        } else if ring_lookup(self.ring, k) is Some {
            ring_lookup(self.ring, k)
        } else if self.old.dom().contains(k) {
            Some(self.old[k])
        } else {
            None
        }
    }

    /// The cost recorded for `k`, or zero.
    pub open spec fn cost_of(self, k: K) -> nat {
        match self.lookup(k) {
            Some(c) => c as nat,
            None => 0,
        }
    }

    /// A key is held by at most one band.
    pub open spec fn separated(self) -> bool {
        &&& ring_disjoint(self.ring)
        &&& forall|k: K| #[trigger]
            self.next.dom().contains(k) ==> !self.old.dom().contains(k) && !in_ring(self.ring, k)
        &&& forall|k: K| #[trigger] self.old.dom().contains(k) ==> !in_ring(self.ring, k)
    }

    /// Each band holds keys of the age that its place says: the open generation
    /// those hit since the last rotation, the `j`-th newest sealed generation
    /// those last hit `j` rotations ago, and the reclamation band those last hit
    /// more than `count` rotations ago.
    pub open spec fn aged(self) -> bool {
        &&& forall|k: K| #[trigger]
            self.next.dom().contains(k) ==> self.stamps.dom().contains(k) && self.stamps[k]
                == self.rotations
        &&& forall|i: int, k: K|
            0 <= i < self.ring.len() && #[trigger] self.ring[i].dom().contains(k)
                ==> self.stamps.dom().contains(k) && self.stamps[k] + (self.ring.len() - i)
                == self.rotations
        &&& forall|k: K| #[trigger]
            self.old.dom().contains(k) ==> self.stamps.dom().contains(k) && self.stamps[k]
                + self.count + 1 <= self.rotations
    }

    /// Invariant of every state, also in the middle of a hit.
    pub open spec fn wf_core(self) -> bool {
        &&& self.old.dom().finite()
        &&& self.next.dom().finite()
        &&& ring_finite(self.ring)
        &&& self.ring.len() <= self.count
        &&& self.separated()
        &&& self.aged()
        &&& self.total() <= u64::MAX
    }

    /// Invariant between operations: in addition, the open generation is
    /// below the threshold unless it is empty.
    pub open spec fn wf(self) -> bool {
        &&& self.wf_core()
        &&& (map_usage(self.next) < self.threshold || self.next.dom().len() == 0)
    }

    /// Seals the open generation. When the ring is full its oldest generation
    /// moves to the reclamation band (with no ring, the open generation itself does).
    pub open spec fn rotate(self) -> Self {
        if self.count == 0 {
            Bands {
                old: self.old.union_prefer_right(self.next),
                next: Map::empty(),
                rotations: self.rotations + 1,
                ..self
            }
        } else if self.ring.len() >= self.count {
            Bands {
                old: self.old.union_prefer_right(self.ring[0]),
                ring: self.ring.drop_first().push(self.next),
                next: Map::empty(),
                rotations: self.rotations + 1,
                ..self
            }
        } else {
            Bands {
                ring: self.ring.push(self.next),
                next: Map::empty(),
                rotations: self.rotations + 1,
                ..self
            }
        }
    }

    /// `k` taken out of every band.
    pub open spec fn remove(self, k: K) -> Self {
        Bands {
            old: self.old.remove(k),
            ring: strip(self.ring, k),
            next: self.next.remove(k),
            ..self
        }
    }

    /// `k` moved to the open generation with cost `c`, before any rotation.
    pub open spec fn refresh(self, k: K, c: u64) -> Self {
        Bands {
            next: self.next.insert(k, c),
            stamps: self.stamps.insert(k, self.rotations),
            ..self.remove(k)
        }
    }

    /// A hit: refresh, then seal the open generation once it reaches the threshold.
    pub open spec fn hit(self, k: K, c: u64) -> Self {
        let s = self.refresh(k, c);
        if map_usage(s.next) >= s.threshold {
            s.rotate()
        } else {
            s
        }
    }

    /// The reclamation band emptied.
    pub open spec fn spill(self) -> Self {
        Bands { old: Map::empty(), ..self }
    }
}

/// The usage of a non-empty ring is that of its oldest bucket plus that of the rest.
pub proof fn lemma_ring_first<K>(r: Seq<Map<K, u64>>)
    requires
        r.len() > 0,
    ensures
        ring_usage(r) == map_usage(r[0]) + ring_usage(r.drop_first()),
    decreases r.len(),
{
    let dl = r.drop_last();
    let df = r.drop_first();
    assert(ring_usage(r) == ring_usage(dl) + map_usage(r.last()));
    if r.len() == 1 {
        assert(ring_usage(dl) == 0);
        assert(ring_usage(df) == 0);
        assert(r.last() == r[0]);
    } else {
        lemma_ring_first(dl);
        assert(dl[0] == r[0]);
        assert(df.drop_last() =~= dl.drop_first());
        assert(df.last() == r.last());
        assert(ring_usage(df) == ring_usage(df.drop_last()) + map_usage(df.last()));
    }
}

/// Usage of a prefix of the ring.
pub proof fn lemma_ring_prefix<K>(r: Seq<Map<K, u64>>, i: int)
    requires
        0 <= i <= r.len(),
    ensures
        ring_usage(r.take(i)) <= ring_usage(r),
        i < r.len() ==> ring_usage(r.take(i + 1)) == ring_usage(r.take(i)) + map_usage(r[i]),
    decreases r.len() - i,
{
    if i < r.len() {
        assert(r.take(i + 1).drop_last() =~= r.take(i));
        lemma_ring_prefix(r, i + 1);
    } else {
        assert(r.take(i) =~= r);
    }
}

/// The ring lookup finds a key exactly when some bucket holds it, with that bucket's cost.
pub proof fn lemma_ring_lookup<K>(r: Seq<Map<K, u64>>, k: K)
    ensures
        ring_lookup(r, k) is Some <==> in_ring(r, k),
        ring_disjoint(r) ==> forall|i: int|
            0 <= i < r.len() && #[trigger] r[i].dom().contains(k) ==> ring_lookup(r, k) == Some(
                r[i][k],
            ),
    decreases r.len(),
{
    if r.len() > 0 {
        let p = r.drop_last();
        lemma_ring_lookup(p, k);
        if in_ring(p, k) {
            let i = choose|i: int| 0 <= i < p.len() && #[trigger] p[i].dom().contains(k);
            assert(r[i] == p[i]);
        }
        if in_ring(r, k) && !r.last().dom().contains(k) {
            let i = choose|i: int| 0 <= i < r.len() && #[trigger] r[i].dom().contains(k);
            assert(p[i] == r[i]);
        }
        if ring_disjoint(r) {
            assert(ring_disjoint(p)) by {
                assert forall|i: int, j: int, q: K|
                    0 <= i < p.len() && 0 <= j < p.len() && i != j && #[trigger] p[i].dom().contains(q)
                    implies !#[trigger] p[j].dom().contains(q) by {
                    assert(p[i] == r[i] && p[j] == r[j]);
                }
            }
            assert forall|i: int| 0 <= i < r.len() && #[trigger] r[i].dom().contains(k)
                implies ring_lookup(r, k) == Some(r[i][k]) by {
                if i < r.len() - 1 {
                    assert(p[i] == r[i]);
                    assert(!r[r.len() - 1].dom().contains(k));
                }
            }
        }
    }
}

/// Taking `k` out of every bucket lowers the ring's usage by its cost there.
pub proof fn lemma_ring_strip<K>(r: Seq<Map<K, u64>>, k: K)
    requires
        ring_finite(r),
        ring_disjoint(r),
    ensures
        ring_usage(strip(r, k)) + (match ring_lookup(r, k) {
            Some(c) => c as nat,
            None => 0nat,
        }) == ring_usage(r),
        ring_finite(strip(r, k)),
        ring_disjoint(strip(r, k)),
        !in_ring(strip(r, k), k),
        forall|q: K| q != k ==> (in_ring(strip(r, k), q) <==> #[trigger] in_ring(r, q)),
        forall|q: K| q != k ==> #[trigger] ring_lookup(strip(r, k), q) == ring_lookup(r, q),
    decreases r.len(),
{
    let s = strip(r, k);
    assert forall|q: K| q != k implies (in_ring(s, q) <==> #[trigger] in_ring(r, q)) by {
        if in_ring(r, q) {
            let i = choose|i: int| 0 <= i < r.len() && #[trigger] r[i].dom().contains(q);
            assert(s[i].dom().contains(q));
        }
        if in_ring(s, q) {
            let i = choose|i: int| 0 <= i < s.len() && #[trigger] s[i].dom().contains(q);
            assert(r[i].dom().contains(q));
        }
    }
    if in_ring(s, k) {
        let i = choose|i: int| 0 <= i < s.len() && #[trigger] s[i].dom().contains(k);
        assert(!s[i].dom().contains(k));
    }
    if r.len() > 0 {
        let p = r.drop_last();
        assert(strip(p, k) =~= s.drop_last());
        assert(ring_finite(p)) by {
            assert forall|i: int| 0 <= i < p.len() implies #[trigger] p[i].dom().finite() by {
                assert(p[i] == r[i]);
            }
        }
        assert(ring_disjoint(p)) by {
            assert forall|i: int, j: int, q: K|
                0 <= i < p.len() && 0 <= j < p.len() && i != j && #[trigger] p[i].dom().contains(q)
                implies !#[trigger] p[j].dom().contains(q) by {
                assert(p[i] == r[i] && p[j] == r[j]);
            }
        }
        lemma_ring_strip(p, k);
        let last = r.last();
        assert(s.last() == last.remove(k));
        assert(last.dom().finite()) by {
            assert(r[r.len() - 1].dom().finite());
        }
        if last.dom().contains(k) {
            lemma_usage_remove(last, k);
            lemma_ring_lookup(p, k);
            if in_ring(p, k) {
                let i = choose|i: int| 0 <= i < p.len() && #[trigger] p[i].dom().contains(k);
                assert(r[i] == p[i]);
                assert(r[r.len() - 1].dom().contains(k));
            }
        } else {
            assert(last.remove(k) =~= last);
        }
        assert forall|q: K| q != k implies #[trigger] ring_lookup(s, q) == ring_lookup(r, q) by {
            assert(s.drop_last() == strip(p, k));
            assert(s.last().dom().contains(q) == last.dom().contains(q));
            if last.dom().contains(q) {
                assert(s.last()[q] == last[q]);
            }
            assert(ring_lookup(strip(p, k), q) == ring_lookup(p, q));
        }
    }
    assert(ring_finite(s)) by {
        assert forall|i: int| 0 <= i < s.len() implies #[trigger] s[i].dom().finite() by {
            assert(r[i].dom().finite());
        }
    }
    assert(ring_disjoint(s)) by {
        assert forall|i: int, j: int, q: K|
            0 <= i < s.len() && 0 <= j < s.len() && i != j && #[trigger] s[i].dom().contains(q)
            implies !#[trigger] s[j].dom().contains(q) by {
            assert(r[i].dom().contains(q));
        }
    }
}

/// Removing a key keeps the invariant, lowers the total by the key's cost and
/// leaves every other key's cost as it was.
pub proof fn lemma_remove<K>(b: Bands<K>, k: K)
    requires
        b.wf_core(),
    ensures
        b.remove(k).wf_core(),
        b.wf() ==> b.remove(k).wf(),
        b.remove(k).total() + b.cost_of(k) == b.total(),
        b.remove(k).lookup(k) is None,
        forall|q: K| q != k ==> #[trigger] b.remove(k).lookup(q) == b.lookup(q),
{
    let r = b.remove(k);
    lemma_ring_strip(b.ring, k);
    lemma_ring_lookup(b.ring, k);
    lemma_ring_lookup(r.ring, k);
    if b.next.dom().contains(k) {
        lemma_usage_remove(b.next, k);
        assert(b.old.remove(k) =~= b.old);
        assert(!in_ring(b.ring, k));
    } else {
        assert(b.next.remove(k) =~= b.next);
        if in_ring(b.ring, k) {
            assert(b.old.remove(k) =~= b.old);
        } else if b.old.dom().contains(k) {
            lemma_usage_remove(b.old, k);
        } else {
            assert(b.old.remove(k) =~= b.old);
        }
    }
    assert(r.separated()) by {
        assert forall|q: K| #[trigger] r.next.dom().contains(q) implies !r.old.dom().contains(q)
            && !in_ring(r.ring, q) by {
            assert(b.next.dom().contains(q));
        }
        assert forall|q: K| #[trigger] r.old.dom().contains(q) implies !in_ring(r.ring, q) by {
            assert(b.old.dom().contains(q));
        }
    }
    assert(r.aged()) by {
        assert forall|i: int, q: K| 0 <= i < r.ring.len() && #[trigger] r.ring[i].dom().contains(q)
            implies r.stamps.dom().contains(q) && r.stamps[q] + (r.ring.len() - i) == r.rotations by {
            assert(b.ring[i].dom().contains(q));
        }
    }
    if b.next.dom().len() == 0 {
        assert(b.next.dom() =~= Set::empty()) by {
            if exists|q: K| b.next.dom().contains(q) {
                let q = choose|q: K| b.next.dom().contains(q);
                assert(b.next.dom().remove(q).len() < b.next.dom().len());
            }
        }
        assert(r.next.dom() =~= Set::empty());
    }
}

/// Moving a key to the open generation keeps the invariant of a state in the
/// middle of a hit, and replaces the key's cost by the new one.
pub proof fn lemma_refresh<K>(b: Bands<K>, k: K, c: u64)
    requires
        b.wf_core(),
        b.total() - b.cost_of(k) + c <= u64::MAX,
    ensures
        b.refresh(k, c).wf_core(),
        b.refresh(k, c).total() == b.total() - b.cost_of(k) + c,
        b.refresh(k, c).lookup(k) == Some(c),
        forall|q: K| q != k ==> #[trigger] b.refresh(k, c).lookup(q) == b.lookup(q),
{
    let r = b.remove(k);
    let f = b.refresh(k, c);
    lemma_remove(b, k);
    lemma_ring_lookup(r.ring, k);
    assert(!r.next.dom().contains(k));
    assert(f.old == r.old && f.ring == r.ring && f.next == r.next.insert(k, c));
    assert(f.count == b.count && f.threshold == b.threshold && f.rotations == b.rotations);
    lemma_usage_insert(r.next, k, c);
    assert(map_usage(f.next) == map_usage(r.next) + c);
    assert(f.total() == r.total() + c);
    assert forall|q: K| q != k implies #[trigger] f.lookup(q) == b.lookup(q) by {
        assert(f.lookup(q) == r.lookup(q));
    }
    assert(f.separated()) by {
        assert forall|q: K| #[trigger] f.next.dom().contains(q) implies !f.old.dom().contains(q)
            && !in_ring(f.ring, q) by {
            if q != k {
                assert(r.next.dom().contains(q));
            }
        }
    }
    assert(f.aged()) by {
        assert forall|i: int, q: K| 0 <= i < f.ring.len() && #[trigger] f.ring[i].dom().contains(q)
            implies f.stamps.dom().contains(q) && f.stamps[q] + (f.ring.len() - i) == f.rotations by {
            assert(r.ring[i].dom().contains(q));
            assert(q != k);
        }
        assert forall|q: K| #[trigger] f.old.dom().contains(q) implies f.stamps.dom().contains(q)
            && f.stamps[q] + f.count + 1 <= f.rotations by {
            assert(r.old.dom().contains(q));
        }
    }
}

/// A rotation keeps every key's cost and the total, and leaves the open generation empty.
pub proof fn lemma_rotate<K>(b: Bands<K>)
    requires
        b.wf_core(),
    ensures
        b.rotate().wf(),
        b.rotate().total() == b.total(),
        forall|q: K| #[trigger] b.rotate().lookup(q) == b.lookup(q),
        b.rotate().next == Map::<K, u64>::empty(),
{
    let t = b.rotate();
    let l = b.ring.len();
    lemma_usage_empty(Map::<K, u64>::empty());
    assert(Map::<K, u64>::empty().dom() =~= Set::<K>::empty());
    if b.count == 0 {
        assert(disjoint(b.old, b.next));
        lemma_usage_union(b.old, b.next);
        assert forall|q: K| #[trigger] t.lookup(q) == b.lookup(q) by {
            lemma_ring_lookup(b.ring, q);
        }
        assert(t.aged());
    } else if l >= b.count {
        let first = b.ring[0];
        assert(first.dom().finite());
        assert(disjoint(b.old, first)) by {
            assert forall|q: K| b.old.dom().contains(q) implies !first.dom().contains(q) by {
                assert(!in_ring(b.ring, q));
            }
        }
        lemma_usage_union(b.old, first);
        lemma_ring_first(b.ring);
        let rest = b.ring.drop_first();
        assert(t.ring.drop_last() =~= rest);
        assert(t.ring.last() == b.next);
        assert forall|i: int| 0 <= i < l - 1 implies #[trigger] t.ring[i] == b.ring[i + 1] by {}
        assert(t.ring[l - 1] == b.next);
        assert(ring_finite(t.ring)) by {
            assert forall|i: int| 0 <= i < t.ring.len() implies #[trigger] t.ring[i].dom().finite() by {
                if i < l - 1 {
                    assert(t.ring[i] == b.ring[i + 1]);
                }
            }
        }
        assert(ring_disjoint(t.ring)) by {
            assert forall|i: int, j: int, q: K|
                0 <= i < t.ring.len() && 0 <= j < t.ring.len() && i != j
                    && #[trigger] t.ring[i].dom().contains(q) implies !#[trigger] t.ring[j].dom().contains(
                q,
            ) by {
                if i < l - 1 && j < l - 1 {
                    assert(t.ring[i] == b.ring[i + 1] && t.ring[j] == b.ring[j + 1]);
                } else if i < l - 1 {
                    assert(t.ring[i] == b.ring[i + 1]);
                    assert(in_ring(b.ring, q));
                } else {
                    assert(t.ring[j] == b.ring[j + 1]);
                    assert(b.next.dom().contains(q));
                    if t.ring[j].dom().contains(q) {
                        assert(in_ring(b.ring, q));
                    }
                }
            }
        }
        assert forall|q: K| #[trigger] t.old.dom().contains(q) implies !in_ring(t.ring, q) by {
            if in_ring(t.ring, q) {
                let i = choose|i: int| 0 <= i < t.ring.len() && #[trigger] t.ring[i].dom().contains(q);
                if i < l - 1 {
                    assert(t.ring[i] == b.ring[i + 1]);
                    assert(in_ring(b.ring, q));
                    if !b.old.dom().contains(q) {
                        assert(b.ring[0].dom().contains(q));
                    }
                } else {
                    assert(b.next.dom().contains(q));
                    assert(!in_ring(b.ring, q));
                    if !b.old.dom().contains(q) {
                        assert(b.ring[0].dom().contains(q));
                    }
                }
            }
        }
        assert(t.aged()) by {
            assert forall|i: int, q: K| 0 <= i < t.ring.len() && #[trigger] t.ring[i].dom().contains(q)
                implies t.stamps.dom().contains(q) && t.stamps[q] + (t.ring.len() - i) == t.rotations by {
                if i < l - 1 {
                    assert(t.ring[i] == b.ring[i + 1]);
                    assert(b.ring[i + 1].dom().contains(q));
                } else {
                    assert(b.next.dom().contains(q));
                }
            }
            assert forall|q: K| #[trigger] t.old.dom().contains(q) implies t.stamps.dom().contains(q)
                && t.stamps[q] + t.count + 1 <= t.rotations by {
                if !b.old.dom().contains(q) {
                    assert(b.ring[0].dom().contains(q));
                }
            }
        }
        assert forall|q: K| #[trigger] t.lookup(q) == b.lookup(q) by {
            lemma_ring_lookup(b.ring, q);
            lemma_ring_lookup(t.ring, q);
            if b.next.dom().contains(q) {
                assert(t.ring[l - 1].dom().contains(q));
            } else if in_ring(b.ring, q) {
                let i = choose|i: int| 0 <= i < b.ring.len() && #[trigger] b.ring[i].dom().contains(q);
                if i == 0 {
                    if in_ring(t.ring, q) {
                        let j = choose|j: int| 0 <= j < t.ring.len() && #[trigger] t.ring[j].dom().contains(q);
                        if j < l - 1 {
                            assert(t.ring[j] == b.ring[j + 1]);
                        }
                    }
                } else {
                    assert(t.ring[i - 1] == b.ring[i]);
                    assert(t.ring[i - 1].dom().contains(q));
                }
            } else {
                if in_ring(t.ring, q) {
                    let j = choose|j: int| 0 <= j < t.ring.len() && #[trigger] t.ring[j].dom().contains(q);
                    if j < l - 1 {
                        assert(t.ring[j] == b.ring[j + 1]);
                        assert(in_ring(b.ring, q));
                    }
                }
                if first.dom().contains(q) {
                    assert(in_ring(b.ring, q));
                }
            }
        }
    } else {
        assert(t.ring.drop_last() =~= b.ring);
        assert(t.ring.last() == b.next);
        assert forall|i: int| 0 <= i < l implies #[trigger] t.ring[i] == b.ring[i] by {}
        assert(ring_finite(t.ring)) by {
            assert forall|i: int| 0 <= i < t.ring.len() implies #[trigger] t.ring[i].dom().finite() by {
                if i < l {
                    assert(t.ring[i] == b.ring[i]);
                }
            }
        }
        assert(ring_disjoint(t.ring)) by {
            assert forall|i: int, j: int, q: K|
                0 <= i < t.ring.len() && 0 <= j < t.ring.len() && i != j
                    && #[trigger] t.ring[i].dom().contains(q) implies !#[trigger] t.ring[j].dom().contains(
                q,
            ) by {
                if i < l && j < l {
                    assert(t.ring[i] == b.ring[i] && t.ring[j] == b.ring[j]);
                } else if i < l {
                    assert(t.ring[i] == b.ring[i]);
                    assert(in_ring(b.ring, q));
                } else {
                    assert(t.ring[j] == b.ring[j]);
                    assert(b.next.dom().contains(q));
                    if t.ring[j].dom().contains(q) {
                        assert(in_ring(b.ring, q));
                    }
                }
            }
        }
        assert forall|q: K| #[trigger] t.old.dom().contains(q) implies !in_ring(t.ring, q) by {
            if in_ring(t.ring, q) {
                let i = choose|i: int| 0 <= i < t.ring.len() && #[trigger] t.ring[i].dom().contains(q);
                if i < l {
                    assert(t.ring[i] == b.ring[i]);
                    assert(in_ring(b.ring, q));
                }
            }
        }
        assert(t.aged()) by {
            assert forall|i: int, q: K| 0 <= i < t.ring.len() && #[trigger] t.ring[i].dom().contains(q)
                implies t.stamps.dom().contains(q) && t.stamps[q] + (t.ring.len() - i) == t.rotations by {
                if i < l {
                    assert(t.ring[i] == b.ring[i]);
                    assert(b.ring[i].dom().contains(q));
                } else {
                    assert(b.next.dom().contains(q));
                }
            }
        }
        assert forall|q: K| #[trigger] t.lookup(q) == b.lookup(q) by {
            lemma_ring_lookup(b.ring, q);
            if !b.next.dom().contains(q) {
                assert(!t.ring.last().dom().contains(q));
            }
        }
    }
}

/// A hit keeps the invariant and replaces the key's cost by the new one.
pub proof fn lemma_hit<K>(b: Bands<K>, k: K, c: u64)
    requires
        b.wf(),
        b.total() - b.cost_of(k) + c <= u64::MAX,
    ensures
        b.hit(k, c).wf(),
        b.hit(k, c).total() == b.total() - b.cost_of(k) + c,
        b.hit(k, c).lookup(k) == Some(c),
        forall|q: K| q != k ==> #[trigger] b.hit(k, c).lookup(q) == b.lookup(q),
{
    lemma_refresh(b, k, c);
    let f = b.refresh(k, c);
    if map_usage(f.next) >= f.threshold {
        lemma_rotate(f);
    }
}

/// No key costs more than the total.
pub proof fn lemma_cost_within_total<K>(b: Bands<K>, k: K)
    requires
        b.wf_core(),
    ensures
        b.cost_of(k) <= b.total(),
{
    lemma_remove(b, k);
}

/// Emptying the reclamation band keeps the invariant and drops exactly its keys.
pub proof fn lemma_spill<K>(b: Bands<K>)
    requires
        b.wf(),
    ensures
        b.spill().wf(),
        b.spill().total() + map_usage(b.old) == b.total(),
        forall|q: K| #[trigger] b.spill().lookup(q) == if b.old.dom().contains(q) {
            None
        } else {
            b.lookup(q)
        },
{
    lemma_usage_empty(Map::<K, u64>::empty());
    assert forall|q: K| #[trigger] b.spill().lookup(q) == if b.old.dom().contains(q) {
        None
    } else {
        b.lookup(q)
    } by {
        lemma_ring_lookup(b.ring, q);
    }
}

/// Stripping a key that no bucket holds changes nothing.
pub proof fn lemma_strip_absent<K>(r: Seq<Map<K, u64>>, k: K)
    requires
        !in_ring(r, k),
    ensures
        strip(r, k) == r,
{
    assert forall|i: int| 0 <= i < r.len() implies #[trigger] strip(r, k)[i] == r[i] by {
        assert(!r[i].dom().contains(k));
        assert(r[i].remove(k) =~= r[i]);
    }
    assert(strip(r, k) =~= r);
}

/// A key is held by at most one band: never by the open generation together
/// with the ring or the reclamation band, never by two sealed generations, and
/// never by the ring together with the reclamation band.
pub proof fn law_single_band<K>(b: Bands<K>, k: K)
    requires
        b.wf(),
    ensures
        b.next.dom().contains(k) ==> !b.old.dom().contains(k) && !in_ring(b.ring, k),
        b.old.dom().contains(k) ==> !in_ring(b.ring, k),
        forall|i: int, j: int|
            0 <= i < j < b.ring.len() && #[trigger] b.ring[i].dom().contains(k) ==> !#[trigger] b.ring[j].dom().contains(k),
{
}

/// Hitting a key a second time with the same cost leaves the total usage as
/// the first hit left it; when the first hit sealed no generation, the second
/// changes nothing at all.
pub proof fn law_hit_twice<K>(b: Bands<K>, k: K, c: u64)
    requires
        b.wf(),
        b.total() - b.cost_of(k) + c <= u64::MAX,
    ensures
        b.hit(k, c).hit(k, c).total() == b.hit(k, c).total(),
        b.hit(k, c).next.dom().contains(k) ==> b.hit(k, c).hit(k, c) == b.hit(k, c),
{
    let m = b.hit(k, c);
    lemma_hit(b, k, c);
    lemma_hit(m, k, c);
    if m.next.dom().contains(k) {
        assert(m.next[k] == c);
        assert(!m.old.dom().contains(k) && !in_ring(m.ring, k));
        lemma_strip_absent(m.ring, k);
        assert(m.old.remove(k) =~= m.old);
        assert(m.next.remove(k).insert(k, c) =~= m.next);
        assert(m.stamps.insert(k, m.rotations) =~= m.stamps);
        let f = m.refresh(k, c);
        assert(f.old == m.old);
        assert(f.ring == m.ring);
        assert(f.next == m.next);
        assert(f.stamps == m.stamps);
        assert(f == m);
        assert(m.next.dom().len() != 0) by {
            assert(m.next.dom().remove(k).len() < m.next.dom().len());
        }
    }
}

/// A spill leaves the reclamation band empty, so a second spill right after
/// it hands out nothing.
pub proof fn law_spill_twice<K>(b: Bands<K>)
    requires
        b.wf(),
    ensures
        b.spill().old.dom().len() == 0,
        b.spill().spill() == b.spill(),
{
    assert(b.spill().old.dom() =~= Set::<K>::empty());
}

/// Every key that a spill hands out was last hit at least `count + 1`
/// rotations ago.
pub proof fn law_spilled_keys_aged<K>(b: Bands<K>)
    requires
        b.wf(),
    ensures
        forall|k: K| #[trigger] b.old.dom().contains(k) ==> b.stamps[k] + b.count + 1 <= b.rotations,
{
}

/// All entries of a sequence of buckets in one map.
pub open spec fn ring_flat<K>(r: Seq<Map<K, u64>>) -> Map<K, u64>
    decreases r.len(),
{
    if r.len() == 0 {
        Map::empty()
    } else {
        ring_flat(r.drop_last()).union_prefer_right(r.last())
    }
}

/// All entries of all bands in one map.
pub open spec fn flat<K>(b: Bands<K>) -> Map<K, u64> {
    b.old.union_prefer_right(ring_flat(b.ring)).union_prefer_right(b.next)
}

proof fn lemma_ring_flat<K>(r: Seq<Map<K, u64>>)
    requires
        ring_finite(r),
        ring_disjoint(r),
    ensures
        ring_flat(r).dom().finite(),
        map_usage(ring_flat(r)) == ring_usage(r),
        forall|k: K| #[trigger] ring_flat(r).dom().contains(k) <==> ring_lookup(r, k) is Some,
        forall|k: K| #[trigger] ring_flat(r).dom().contains(k) ==> ring_lookup(r, k) == Some(ring_flat(r)[k]),
    decreases r.len(),
{
    if r.len() == 0 {
        lemma_usage_empty(Map::<K, u64>::empty());
    } else {
        let p = r.drop_last();
        assert(ring_finite(p)) by {
            assert forall|i: int| 0 <= i < p.len() implies #[trigger] p[i].dom().finite() by {
                assert(p[i] == r[i]);
            }
        }
        assert(ring_disjoint(p)) by {
            assert forall|i: int, j: int, q: K|
                0 <= i < p.len() && 0 <= j < p.len() && i != j && #[trigger] p[i].dom().contains(q)
                implies !#[trigger] p[j].dom().contains(q) by {
                assert(p[i] == r[i] && p[j] == r[j]);
            }
        }
        lemma_ring_flat(p);
        let last = r.last();
        assert(last.dom().finite()) by {
            assert(r[r.len() - 1].dom().finite());
        }
        assert(disjoint(ring_flat(p), last)) by {
            assert forall|q: K| ring_flat(p).dom().contains(q) implies !last.dom().contains(q) by {
                lemma_ring_lookup(p, q);
                let i = choose|i: int| 0 <= i < p.len() && #[trigger] p[i].dom().contains(q);
                assert(r[i] == p[i]);
                assert(r[r.len() - 1].dom().contains(q) ==> false);
            }
        }
        lemma_usage_union(ring_flat(p), last);
    }
}

/// The total usage of the bands is the usage of all their entries together:
/// each key counts once, with its cost.
pub proof fn law_total_is_entry_sum<K>(b: Bands<K>)
    requires
        b.wf(),
    ensures
        b.total() == map_usage(flat(b)),
        forall|k: K| #[trigger] flat(b).dom().contains(k) <==> b.lookup(k) is Some,
        forall|k: K| #[trigger] flat(b).dom().contains(k) ==> b.lookup(k) == Some(flat(b)[k]),
{
    lemma_ring_flat(b.ring);
    let rf = ring_flat(b.ring);
    let a = b.old.union_prefer_right(rf);
    assert(disjoint(b.old, rf)) by {
        assert forall|q: K| b.old.dom().contains(q) implies !rf.dom().contains(q) by {
            lemma_ring_lookup(b.ring, q);
        }
    }
    lemma_usage_union(b.old, rf);
    assert(disjoint(a, b.next)) by {
        assert forall|q: K| a.dom().contains(q) implies !b.next.dom().contains(q) by {
            lemma_ring_lookup(b.ring, q);
        }
    }
    lemma_usage_union(a, b.next);
    assert forall|k: K| #[trigger] flat(b).dom().contains(k) implies b.lookup(k) == Some(flat(b)[k]) by {
        lemma_ring_lookup(b.ring, k);
    }
}

} // verus!
