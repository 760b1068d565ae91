//! The in-memory key index: an owned map from record keys to per-key state,
//! held as a sorted key vector with one value per key.  Memory residency of
//! every stage is bounded by the size of this index, never by dump size.

use vstd::prelude::*;

use crate::PostId;

verus! {

/// Position of `k` in `keys`: the first index holding it, or `keys.len()`.
pub open spec fn seq_key_index(keys: Seq<PostId>, k: PostId) -> int
    decreases keys.len(),
{
    if keys.len() == 0 {
        0
    } else if keys[0] == k {
        0
    } else {
        1 + seq_key_index(keys.skip(1), k)
    }
}

pub proof fn lemma_seq_key_index(keys: Seq<PostId>, k: PostId)
    ensures
        0 <= seq_key_index(keys, k) <= keys.len(),
        seq_key_index(keys, k) < keys.len() ==> keys[seq_key_index(keys, k)] == k,
        forall|t: int| 0 <= t < seq_key_index(keys, k) ==> keys[t] != k,
        keys.contains(k) <==> seq_key_index(keys, k) < keys.len(),
    decreases keys.len(),
{
    if keys.len() > 0 && keys[0] != k {
        lemma_seq_key_index(keys.skip(1), k);
        let f = seq_key_index(keys, k);
        assert forall|t: int| 0 <= t < f implies keys[t] != k by {
            if t > 0 {
                assert(keys.skip(1)[t - 1] == keys[t]);
            }
        }
        if f < keys.len() {
            assert(keys.skip(1)[f - 1] == keys[f]);
        }
        if keys.contains(k) {
            let w = choose|w: int| 0 <= w < keys.len() && keys[w] == k;
            assert(keys.skip(1)[w - 1] == k);
            assert(keys.skip(1).contains(k));
        }
        if seq_key_index(keys.skip(1), k) < keys.skip(1).len() {
            assert(keys[f] == k);
            assert(keys.contains(k));
        }
    }
}

/// With strictly increasing keys, a hit below and misses before pin the index.
pub proof fn lemma_key_index_at(keys: Seq<PostId>, k: PostId, i: int)
    requires
        forall|a: int, b: int| 0 <= a < b < keys.len() ==> keys[a] < keys[b],
        0 <= i < keys.len(),
        keys[i] == k,
    ensures
        seq_key_index(keys, k) == i,
{
    lemma_seq_key_index(keys, k);
    let f = seq_key_index(keys, k);
    assert(keys.contains(k));
    if f < i {
        assert(keys[f] == k);
        assert(keys[f] < keys[i]);
    }
    if f > i {
        assert(keys[i] != k);
    }
}

/// The number of keys below `k`: where a new key `k` is placed.
pub open spec fn sorted_insert_pos(keys: Seq<PostId>, k: PostId) -> int
    decreases keys.len(),
{
    if keys.len() == 0 {
        0
    } else if keys[0] < k {
        1 + sorted_insert_pos(keys.skip(1), k)
    } else {
        0
    }
}

pub proof fn lemma_sorted_insert_pos(keys: Seq<PostId>, k: PostId)
    requires
        forall|a: int, b: int| 0 <= a < b < keys.len() ==> keys[a] < keys[b],
    ensures
        0 <= sorted_insert_pos(keys, k) <= keys.len(),
        forall|t: int| 0 <= t < sorted_insert_pos(keys, k) ==> keys[t] < k,
        forall|t: int| sorted_insert_pos(keys, k) <= t < keys.len() ==> keys[t] >= k,
    decreases keys.len(),
{
    if keys.len() > 0 && keys[0] < k {
        assert(forall|a: int, b: int|
            0 <= a < b < keys.skip(1).len() ==> keys.skip(1)[a] < keys.skip(1)[b]) by {
            assert(forall|t: int| 0 <= t < keys.skip(1).len() ==> keys.skip(1)[t] == keys[t + 1]);
        }
        lemma_sorted_insert_pos(keys.skip(1), k);
        let p = sorted_insert_pos(keys, k);
        assert forall|t: int| 0 <= t < p implies keys[t] < k by {
            if t > 0 {
                assert(keys.skip(1)[t - 1] == keys[t]);
            }
        }
        assert forall|t: int| p <= t < keys.len() implies keys[t] >= k by {
            assert(keys.skip(1)[t - 1] == keys[t]);
        }
    }
}

/// An owned index from record keys to per-key state.  Keys are unique and
/// held in increasing order, so one pass over the index visits the keys in
/// ascending key order, as the output stages require.
pub struct KeyMap<V> {
    pub keys: Vec<PostId>,
    pub vals: Vec<V>,
}

impl<V> KeyMap<V> {
    /// One value per key, keys strictly increasing.
    pub open spec fn wf(self) -> bool {
        &&& self.keys@.len() == self.vals@.len()
        &&& forall|a: int, b: int| 0 <= a < b < self.keys@.len() ==> self.keys@[a] < self.keys@[b]
    }

    pub open spec fn spec_keys(self) -> Seq<PostId> {
        self.keys@
    }

    pub open spec fn spec_vals(self) -> Seq<V> {
        self.vals@
    }

    pub open spec fn spec_len(self) -> nat {
        self.keys@.len()
    }

    pub open spec fn has_key(self, k: PostId) -> bool {
        self.keys@.contains(k)
    }

    /// The value stored under a present key.
    pub open spec fn spec_value(self, k: PostId) -> V {
        self.vals@[seq_key_index(self.keys@, k)]
    }

    pub fn new() -> (r: Self)
        ensures
            r.wf(),
            r.spec_keys() == Seq::<PostId>::empty(),
            r.spec_vals() == Seq::<V>::empty(),
    {
        KeyMap { keys: Vec::new(), vals: Vec::new() }
    }

    pub fn len(&self) -> (r: usize)
        ensures
            r == self.spec_len(),
    {
        self.keys.len()
    }

    pub fn key_at(&self, i: usize) -> (r: PostId)
        requires
            i < self.spec_len(),
        ensures
            r == self.spec_keys()[i as int],
    {
        self.keys[i]
    }

    pub fn val_at(&self, i: usize) -> (r: &V)
        requires
            self.wf(),
            i < self.spec_len(),
        ensures
            *r == self.spec_vals()[i as int],
    {
        &self.vals[i]
    }

    pub fn set_at(&mut self, i: usize, v: V)
        requires
            old(self).wf(),
            i < old(self).spec_len(),
        ensures
            final(self).wf(),
            final(self).spec_keys() == old(self).spec_keys(),
            final(self).spec_vals() == old(self).spec_vals().update(i as int, v),
            final(self).spec_value(old(self).spec_keys()[i as int]) == v,
            forall|k2: PostId|
                k2 != old(self).spec_keys()[i as int] && old(self).has_key(k2)
                    ==> final(self).spec_value(k2) == old(self).spec_value(k2),
    {
        self.vals.set(i, v);
        proof {
            let keys = self.keys@;
            let k = keys[i as int];
            lemma_key_index_at(keys, k, i as int);
            assert forall|k2: PostId|
                k2 != k && old(self).has_key(k2) implies self.spec_value(k2) == old(
                self,
            ).spec_value(k2) by {
                lemma_seq_key_index(keys, k2);
                assert(seq_key_index(keys, k2) != i as int);
            }
        }
    }

    /// Binary search for `k` over the sorted keys.
    pub fn index_of(&self, k: PostId) -> (r: Option<usize>)
        requires
            self.wf(),
        ensures
            r is Some <==> self.has_key(k),
            r matches Some(i) ==> i < self.spec_len() && self.spec_keys()[i as int] == k && i
                as int == seq_key_index(self.spec_keys(), k),
    {
        let mut lo: usize = 0;
        let mut hi: usize = self.keys.len();
        while lo < hi
            invariant
                lo <= hi <= self.spec_len(),
                self.wf(),
                forall|t: int| 0 <= t < lo ==> self.spec_keys()[t] < k,
                forall|t: int| hi <= t < self.spec_len() ==> self.spec_keys()[t] > k,
            decreases hi - lo,
        {
            let mid = lo + (hi - lo) / 2;
            let key = self.keys[mid];
            if key == k {
                proof {
                    lemma_key_index_at(self.spec_keys(), k, mid as int);
                }
                return Some(mid);
            } else if key < k {
                lo = mid + 1;
            } else {
                hi = mid;
            }
        }
        proof {
            if self.has_key(k) {
                let w = choose|w: int|
                    0 <= w < self.spec_keys().len() && self.spec_keys()[w] == k;
                assert(self.spec_keys()[w] == k);
            }
        }
        None
    }

    /// Looks a key up.
    pub fn get(&self, k: PostId) -> (r: Option<&V>)
        requires
            self.wf(),
        ensures
            r is Some <==> self.has_key(k),
            r matches Some(v) ==> *v == self.spec_value(k),
    {
        match self.index_of(k) {
            Some(i) => Some(&self.vals[i]),
            None => None,
        }
    }

    /// Inserts a new key or replaces the value of a present one.
    pub fn insert(&mut self, k: PostId, v: V)
        requires
            old(self).wf(),
        ensures
            final(self).wf(),
            old(self).has_key(k) ==> {
                &&& final(self).spec_keys() == old(self).spec_keys()
                &&& final(self).spec_vals() == old(self).spec_vals().update(
                    seq_key_index(old(self).spec_keys(), k),
                    v,
                )
            },
            !old(self).has_key(k) ==> {
                let p = sorted_insert_pos(old(self).spec_keys(), k);
                &&& final(self).spec_keys() == old(self).spec_keys().insert(p, k)
                &&& final(self).spec_vals() == old(self).spec_vals().insert(p, v)
            },
            final(self).has_key(k),
            forall|k2: PostId|
                final(self).has_key(k2) == (k2 == k || old(self).has_key(k2)),
            final(self).spec_value(k) == v,
            forall|k2: PostId|
                k2 != k && old(self).has_key(k2) ==> final(self).spec_value(k2) == old(
                    self,
                ).spec_value(k2),
            final(self).spec_len() == old(self).spec_len() + (if old(self).has_key(k) {
                0int
            } else {
                1int
            }),
    {
        match self.index_of(k) {
            Some(i) => {
                self.vals.set(i, v);
                proof {
                    assert(final(self).has_key(k)) by {
                        assert(self.keys@[i as int] == k);
                    }
                    assert(final(self).spec_value(k) == v);
                    assert forall|k2: PostId|
                        k2 != k && old(self).has_key(k2) implies final(self).spec_value(k2)
                        == old(self).spec_value(k2) by {
                        lemma_seq_key_index(self.keys@, k2);
                        assert(seq_key_index(self.keys@, k2) != i as int);
                    }
                }
            }
            None => {
                proof {
                    lemma_sorted_insert_pos(self.keys@, k);
                }
                let mut lo: usize = 0;
                let mut hi: usize = self.keys.len();
                while lo < hi
                    invariant
                        lo <= hi <= self.spec_len(),
                        self.wf(),
                        forall|t: int| 0 <= t < lo ==> self.spec_keys()[t] < k,
                        forall|t: int| hi <= t < self.spec_len() ==> self.spec_keys()[t] >= k,
                    decreases hi - lo,
                {
                    let mid = lo + (hi - lo) / 2;
                    if self.keys[mid] < k {
                        lo = mid + 1;
                    } else {
                        hi = mid;
                    }
                }
                proof {
                    lemma_sorted_insert_pos(self.spec_keys(), k);
                    let p = sorted_insert_pos(self.spec_keys(), k);
                    if (lo as int) < p {
                        assert(self.spec_keys()[lo as int] >= k);
                        assert(self.spec_keys()[lo as int] < k);
                    }
                    if (lo as int) > p {
                        assert(self.spec_keys()[p] >= k);
                        assert(self.spec_keys()[p] < k);
                    }
                    assert(lo as int == p);
                }
                let ghost old_keys = self.keys@;
                self.keys.insert(lo, k);
                self.vals.insert(lo, v);
                proof {
                    let p = lo as int;
                    let keys2 = self.keys@;
                    assert(forall|t: int| 0 <= t < p ==> keys2[t] == old_keys[t]);
                    assert(keys2[p] == k);
                    assert(forall|t: int| p < t < keys2.len() ==> keys2[t] == old_keys[t - 1]);
                    assert(final(self).wf());
                    assert(keys2.contains(k)) by {
                        assert(keys2[p] == k);
                    }
                    lemma_key_index_at(keys2, k, p);
                    assert(final(self).spec_value(k) == v);
                    assert forall|k2: PostId|
                        final(self).has_key(k2) == (k2 == k || old(self).has_key(k2)) by {
                        if keys2.contains(k2) && k2 != k {
                            let w = choose|w: int| 0 <= w < keys2.len() && keys2[w] == k2;
                            if w < p {
                                assert(old_keys[w] == k2);
                            } else {
                                assert(old_keys[w - 1] == k2);
                            }
                            assert(old_keys.contains(k2));
                        }
                        if old_keys.contains(k2) {
                            let w = choose|w: int| 0 <= w < old_keys.len() && old_keys[w] == k2;
                            if w < p {
                                assert(keys2[w] == k2);
                            } else {
                                assert(keys2[w + 1] == k2);
                            }
                            assert(keys2.contains(k2));
                        }
                    }
                    assert forall|k2: PostId|
                        k2 != k && old(self).has_key(k2) implies final(self).spec_value(k2)
                        == old(self).spec_value(k2) by {
                        lemma_seq_key_index(old_keys, k2);
                        let q = seq_key_index(old_keys, k2);
                        if q < p {
                            assert(keys2[q] == k2);
                            lemma_key_index_at(keys2, k2, q);
                        } else {
                            assert(keys2[q + 1] == k2);
                            lemma_key_index_at(keys2, k2, q + 1);
                        }
                    }
                }
            }
        }
    }
}

} // verus!
