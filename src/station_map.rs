//! A map from key to statistics, held as a vector of entries sorted by key.

use vstd::prelude::*;
use crate::keys::{compare_key, key_lt, lemma_key_lt_irreflexive, lemma_key_lt_transitive};
use crate::stats::{Stats, Summary, combine, identity, observed, lemma_combine_observed};

verus! {

/// The statistics of `k` in `m`, or the identity state where `k` is absent.
pub open spec fn get_or_identity(m: Map<Seq<u8>, Summary>, k: Seq<u8>) -> Summary {
    if m.contains_key(k) { m[k] } else { identity() }
}

/// Every state in the map is observed.
pub open spec fn all_observed(m: Map<Seq<u8>, Summary>) -> bool {
    forall|k: Seq<u8>| #[trigger] m.contains_key(k) ==> observed(m[k])
}

/// Key-wise `combine` of two maps; a key absent from one side counts as
/// the identity state there.
pub open spec fn merge_maps(a: Map<Seq<u8>, Summary>, b: Map<Seq<u8>, Summary>) -> Map<Seq<u8>, Summary> {
    Map::new(
        |k: Seq<u8>| a.contains_key(k) || b.contains_key(k),
        |k: Seq<u8>| combine(get_or_identity(a, k), get_or_identity(b, k)),
    )
}

/// Some entry among the first `j` of `s` has key `k`.
pub open spec fn in_prefix(s: Seq<(Seq<u8>, Summary)>, j: int, k: Seq<u8>) -> bool {
    exists|i: int| 0 <= i < j && s[i].0 == k
}

/// A sequence of keyed states in strictly ascending key order.
pub open spec fn strictly_sorted(s: Seq<(Seq<u8>, Summary)>) -> bool {
    forall|i: int, j: int| 0 <= i < j < s.len() ==> key_lt(#[trigger] s[i].0, #[trigger] s[j].0)
}

/// `s` lists exactly the entries of `m`.
pub open spec fn lists_map(s: Seq<(Seq<u8>, Summary)>, m: Map<Seq<u8>, Summary>) -> bool {
    &&& forall|i: int| 0 <= i < s.len() ==> #[trigger] m.contains_key(s[i].0) && m[s[i].0] == s[i].1
    &&& forall|k: Seq<u8>| #[trigger] m.contains_key(k) ==> exists|i: int| 0 <= i < s.len() && s[i].0 == k
}

/// One key with its statistics.
pub struct Entry {
    pub key: Vec<u8>,
    pub stats: Stats,
}

/// Statistics per key, kept in ascending key order.
pub struct StationMap {
    entries: Vec<Entry>,
    model: Ghost<Map<Seq<u8>, Summary>>,
}

impl StationMap {
    /// The map from key to statistics.
    pub closed spec fn view(&self) -> Map<Seq<u8>, Summary> {
        self.model@
    }

    /// The entries, in ascending key order.
    pub closed spec fn sorted(&self) -> Seq<(Seq<u8>, Summary)> {
        self.entries@.map_values(|e: Entry| (e.key@, e.stats@))
    }

    pub closed spec fn wf(&self) -> bool {
        &&& strictly_sorted(self.sorted())
        &&& lists_map(self.sorted(), self.model@)
        &&& all_observed(self.model@)
    }

    /// What a well-formed map guarantees of its entries.
    pub proof fn lemma_wf(&self)
        requires
            self.wf(),
        ensures
            strictly_sorted(self.sorted()),
            lists_map(self.sorted(), self@),
            all_observed(self@),
    {
    }

    /// An empty map.
    pub fn new() -> (r: StationMap)
        ensures
            r.wf(),
            r@ == Map::<Seq<u8>, Summary>::empty(),
    {
        StationMap { entries: Vec::new(), model: Ghost(Map::empty()) }
    }

    /// Number of keys.
    pub fn len(&self) -> (r: usize)
        requires
            self.wf(),
        ensures
            r == self@.len(),
            r == self.sorted().len(),
    {
        proof { self.lemma_len(); }
        self.entries.len()
    }

    proof fn lemma_len(&self)
        requires
            self.wf(),
        ensures
            self@.len() == self.sorted().len(),
            self@.dom().finite(),
    {
        let s = self.sorted();
        let keys = Seq::new(s.len(), |i: int| s[i].0);
        assert(keys.no_duplicates()) by {
            assert forall|i: int, j: int| 0 <= i < keys.len() && 0 <= j < keys.len() && i != j implies keys[i] != keys[j] by {
                if i < j {
                    assert(key_lt(s[i].0, s[j].0));
                    lemma_key_lt_irreflexive(s[i].0);
                } else {
                    assert(key_lt(s[j].0, s[i].0));
                    lemma_key_lt_irreflexive(s[j].0);
                }
            }
        }
        assert(keys.to_set() =~= self@.dom()) by {
            assert forall|k: Seq<u8>| self@.dom().contains(k) implies keys.to_set().contains(k) by {
                let i = choose|i: int| 0 <= i < s.len() && s[i].0 == k;
                assert(keys[i] == k);
            }
            assert forall|k: Seq<u8>| keys.to_set().contains(k) implies self@.dom().contains(k) by {
                let i = choose|i: int| 0 <= i < keys.len() && keys[i] == k;
                assert(self@.contains_key(s[i].0));
            }
        }
        keys.unique_seq_to_set();
    }

    /// The `i`-th entry in key order.
    pub fn entry(&self, i: usize) -> (r: &Entry)
        requires
            self.wf(),
            i < self.sorted().len(),
        ensures
            (r.key@, r.stats@) == self.sorted()[i as int],
            observed(r.stats@),
    {
        proof {
            assert(self.model@.contains_key(self.sorted()[i as int].0));
        }
        &self.entries[i]
    }

    /// Searches `data[start..end]` among the keys: `(true, i)` where entry `i`
    /// holds it, `(false, i)` where it would be inserted at `i`.
    fn find(&self, data: &[u8], start: usize, end: usize) -> (r: (bool, usize))
        requires
            self.wf(),
            start <= end <= data@.len(),
        ensures
            r.1 <= self.sorted().len(),
            r.0 ==> r.1 < self.sorted().len() && self.sorted()[r.1 as int].0 == data@.subrange(start as int, end as int),
            !r.0 ==> forall|i: int| 0 <= i < r.1 ==> key_lt(#[trigger] self.sorted()[i].0, data@.subrange(start as int, end as int)),
            !r.0 ==> forall|i: int| r.1 <= i < self.sorted().len() ==> key_lt(data@.subrange(start as int, end as int), #[trigger] self.sorted()[i].0),
    {
        let ghost k = data@.subrange(start as int, end as int);
        let ghost s = self.sorted();
        let mut lo: usize = 0;
        let mut hi: usize = self.entries.len();
        while lo < hi
            invariant
                self.wf(),
                s == self.sorted(),
                k == data@.subrange(start as int, end as int),
                start <= end <= data@.len(),
                lo <= hi <= s.len(),
                s.len() == self.entries@.len(),
                forall|i: int| 0 <= i < lo ==> key_lt(#[trigger] s[i].0, k),
                forall|i: int| hi <= i < s.len() ==> key_lt(k, #[trigger] s[i].0),
            decreases hi - lo,
        {
            let mid = lo + (hi - lo) / 2;
            let c = compare_key(data, start, end, self.entries[mid].key.as_slice());
            assert(s[mid as int].0 == self.entries@[mid as int].key@);
            if c == 0 {
                return (true, mid);
            } else if c > 0 {
                proof {
                    assert forall|i: int| 0 <= i < mid + 1 implies key_lt(#[trigger] s[i].0, k) by {
                        if i < mid {
                            lemma_key_lt_transitive(s[i].0, s[mid as int].0, k);
                        }
                    }
                }
                lo = mid + 1;
            } else {
                proof {
                    assert forall|i: int| mid <= i < s.len() implies key_lt(k, #[trigger] s[i].0) by {
                        if i > mid {
                            lemma_key_lt_transitive(k, s[mid as int].0, s[i].0);
                        }
                    }
                }
                hi = mid;
            }
        }
        (false, lo)
    }

    /// The statistics of `key`, if it is present.
    pub fn get(&self, key: &[u8]) -> (r: Option<Stats>)
        requires
            self.wf(),
        ensures
            r matches Some(s) ==> self@.contains_key(key@) && s@ == self@[key@],
            r is None ==> !self@.contains_key(key@),
    {
        let (found, i) = self.find(key, 0, key.len());
        proof {
            assert(key@.subrange(0, key@.len() as int) =~= key@);
            let s = self.sorted();
            if !found && self@.contains_key(key@) {
                let j = choose|j: int| 0 <= j < s.len() && s[j].0 == key@;
                lemma_key_lt_irreflexive(key@);
            }
        }
        if found {
            assert(self.sorted()[i as int].1 == self.entries@[i as int].stats@);
            assert(self@.contains_key(self.sorted()[i as int].0));
            Some(self.entries[i].stats)
        } else {
            None
        }
    }

    /// Folds `s` into the statistics of the key `data[start..end]`.
    pub fn absorb(&mut self, data: &[u8], start: usize, end: usize, s: Stats)
        requires
            old(self).wf(),
            start <= end <= data@.len(),
            observed(s@),
            get_or_identity(old(self)@, data@.subrange(start as int, end as int)).count + s@.count <= u64::MAX,
        ensures
            final(self).wf(),
            final(self)@ == old(self)@.insert(
                data@.subrange(start as int, end as int),
                combine(get_or_identity(old(self)@, data@.subrange(start as int, end as int)), s@),
            ),
    {
        let ghost k = data@.subrange(start as int, end as int);
        let ghost s0 = self.sorted();
        let ghost m0 = self@;
        let (found, i) = self.find(data, start, end);
        if found {
            let old_stats = self.entries[i].stats;
            proof {
                assert(s0[i as int].1 == old_stats@);
                assert(m0.contains_key(k) && m0[k] == old_stats@);
                lemma_combine_observed(old_stats@, s@);
            }
            let merged = Stats::combine(old_stats, s);
            let key = self.entries[i].key.clone();
            let ghost old_key = self.entries@[i as int].key@;
            self.entries.set(i, Entry { key, stats: merged });
            proof {
                self.model@ = m0.insert(k, combine(old_stats@, s@));
                let s1 = self.sorted();
                assert(s1 =~= s0.update(i as int, (k, merged@)));
                assert forall|j: int| 0 <= j < s1.len() implies #[trigger] self.model@.contains_key(s1[j].0)
                    && self.model@[s1[j].0] == s1[j].1 by {
                    if j != i {
                        assert(s1[j] == s0[j]);
                        assert(m0.contains_key(s0[j].0));
                        assert(s0[j].0 != k) by {
                            if j < i { assert(key_lt(s0[j].0, s0[i as int].0)); } else { assert(key_lt(s0[i as int].0, s0[j].0)); }
                            lemma_key_lt_irreflexive(k);
                        }
                    }
                }
                assert forall|kk: Seq<u8>| #[trigger] self.model@.contains_key(kk) implies exists|j: int| 0 <= j < s1.len() && s1[j].0 == kk by {
                    if kk != k {
                        let j = choose|j: int| 0 <= j < s0.len() && s0[j].0 == kk;
                        assert(s1[j].0 == kk);
                    } else {
                        assert(s1[i as int].0 == kk);
                    }
                }
            }
        } else {
            let mut key: Vec<u8> = Vec::new();
            let mut j = start;
            while j < end
                invariant
                    start <= j <= end <= data@.len(),
                    key@ == data@.subrange(start as int, j as int),
                decreases end - j,
            {
                key.push(data[j]);
                j = j + 1;
                assert(key@ =~= data@.subrange(start as int, j as int));
            }
            proof {
                assert(!m0.contains_key(k)) by {
                    if m0.contains_key(k) {
                        let j = choose|j: int| 0 <= j < s0.len() && s0[j].0 == k;
                        lemma_key_lt_irreflexive(k);
                    }
                }
                assert(combine(identity(), s@) == s@);
            }
            self.entries.insert(i, Entry { key, stats: s });
            proof {
                self.model@ = m0.insert(k, s@);
                let s1 = self.sorted();
                assert(s1 =~= s0.insert(i as int, (k, s@)));
                assert forall|a: int, b: int| 0 <= a < b < s1.len() implies key_lt(#[trigger] s1[a].0, #[trigger] s1[b].0) by {
                    if b < i {
                        assert(key_lt(s0[a].0, s0[b].0));
                    } else if b == i {
                        assert(key_lt(s0[a].0, k));
                    } else if a < i {
                        assert(key_lt(s0[a].0, k));
                        assert(key_lt(k, s0[b - 1].0));
                        lemma_key_lt_transitive(s0[a].0, k, s0[b - 1].0);
                    } else if a == i {
                        assert(key_lt(k, s0[b - 1].0));
                    } else {
                        assert(key_lt(s0[a - 1].0, s0[b - 1].0));
                    }
                }
                assert forall|j: int| 0 <= j < s1.len() implies #[trigger] self.model@.contains_key(s1[j].0)
                    && self.model@[s1[j].0] == s1[j].1 by {
                    if j < i {
                        assert(s1[j] == s0[j]);
                        assert(key_lt(s0[j].0, k));
                        lemma_key_lt_irreflexive(k);
                    } else if j > i {
                        assert(s1[j] == s0[j - 1]);
                        assert(key_lt(k, s0[j - 1].0));
                        lemma_key_lt_irreflexive(k);
                    }
                }
                assert forall|kk: Seq<u8>| #[trigger] self.model@.contains_key(kk) implies exists|j: int| 0 <= j < s1.len() && s1[j].0 == kk by {
                    if kk != k {
                        let j = choose|j: int| 0 <= j < s0.len() && s0[j].0 == kk;
                        if j < i {
                            assert(s1[j].0 == kk);
                        } else {
                            assert(s1[j + 1].0 == kk);
                        }
                    } else {
                        assert(s1[i as int].0 == kk);
                    }
                }
            }
        }
    }
    /// Folds every entry of `other` into this map, key by key.
    pub fn merge(&mut self, other: &StationMap)
        requires
            old(self).wf(),
            other.wf(),
            forall|k: Seq<u8>| old(self)@.contains_key(k) && other@.contains_key(k)
                ==> old(self)@[k].count + other@[k].count <= u64::MAX,
        ensures
            final(self).wf(),
            final(self)@ == merge_maps(old(self)@, other@),
    {
        let ghost m0 = self@;
        let ghost s = other.sorted();
        let mut j: usize = 0;
        while j < other.entries.len()
            invariant
                self.wf(),
                other.wf(),
                s == other.sorted(),
                s.len() == other.entries@.len(),
                j <= s.len(),
                forall|k: Seq<u8>| m0.contains_key(k) && other@.contains_key(k)
                    ==> m0[k].count + other@[k].count <= u64::MAX,
                forall|k: Seq<u8>| #[trigger] self@.contains_key(k) == (m0.contains_key(k) || in_prefix(s, j as int, k)),
                forall|k: Seq<u8>| #[trigger] self@.contains_key(k) ==> self@[k] == (if in_prefix(s, j as int, k) {
                    combine(get_or_identity(m0, k), other@[k])
                } else {
                    m0[k]
                }),
            decreases s.len() - j,
        {
            let e = &other.entries[j];
            let ghost k = e.key@;
            proof {
                assert(s[j as int] == (k, e.stats@));
                other.lemma_wf();
                assert(lists_map(s, other@));
                assert(other@.contains_key(s[j as int].0));
                assert(other@.contains_key(k) && other@[k] == e.stats@);
                assert(!in_prefix(s, j as int, k)) by {
                    if in_prefix(s, j as int, k) {
                        let i = choose|i: int| 0 <= i < j && s[i].0 == k;
                        assert(key_lt(s[i].0, s[j as int].0));
                        lemma_key_lt_irreflexive(k);
                    }
                }
                assert(e.key@.subrange(0, e.key@.len() as int) =~= k);
            }
            self.absorb(e.key.as_slice(), 0, e.key.len(), e.stats);
            j = j + 1;
            proof {
                assert forall|kk: Seq<u8>| in_prefix(s, j as int, kk) == (in_prefix(s, j - 1, kk) || kk == k) by {
                    if kk == k {
                        assert(s[j - 1].0 == kk);
                    }
                    if in_prefix(s, j as int, kk) && kk != k {
                        let i = choose|i: int| 0 <= i < j && s[i].0 == kk;
                        assert(i < j - 1);
                    }
                }
            }
        }
        proof {
            assert forall|k: Seq<u8>| #[trigger] other@.contains_key(k) implies in_prefix(s, j as int, k) by {
                let i = choose|i: int| 0 <= i < s.len() && s[i].0 == k;
            }
            assert forall|k: Seq<u8>| #[trigger] self@.contains_key(k) && !other@.contains_key(k)
                implies self@[k] == combine(m0[k], identity()) by {
                assert(all_observed(m0));
                assert(observed(m0[k]));
            }
            assert(self@ =~= merge_maps(m0, other@));
        }
    }
}

} // verus!
