//! A cardinality sketch of bounded size.

use std::collections::HashSet;
use vstd::prelude::*;
use vstd::arithmetic::power2::pow2;
use vstd::arithmetic::power2::lemma_pow2_unfold;
use vstd::arithmetic::power2::lemma_pow2_pos;
use crate::sketch_model::SketchModel;
use crate::sketch_model::DEEPEST;
use crate::sketch_model::below;
use crate::sketch_model::limit_at;
use crate::sketch_model::sample_valid;
use crate::sketch_model::settle;
use crate::sketch_model::lemma_below_all;
use crate::sketch_model::lemma_below_twice;
use crate::sketch_model::lemma_limit_falls;
use crate::sketch_model::lemma_settle;
use crate::sketch_model::lemma_settle_below;

verus! {

broadcast use vstd::std_specs::hash::group_hash_axioms;

/// Estimates how many different hashes it has seen, in memory bounded by
/// its capacity. Up to as many different hashes as the capacity the estimate
/// is exact. Beyond, with hashes spread evenly and a capacity of `k`, it is
/// typically within `1 / sqrt(k / 2)` of the true number: about 1 % for a
/// capacity of 16384.
pub struct Sketch {
    capacity: usize,
    depth: usize,
    limit: u64,
    sample: Vec<u64>,
    index: HashSet<u64>,
}

impl View for Sketch {
    type V = SketchModel;

    closed spec fn view(&self) -> SketchModel {
        SketchModel {
            capacity: self.capacity as nat,
            depth: self.depth as nat,
            sample: self.sample@.to_set(),
        }
    }
}

/// The hashes of `sample` that are at most `limit`.
fn keep_within(sample: &Vec<u64>, limit: u64) -> (kept: Vec<u64>)
    requires
        sample@.no_duplicates(),
    ensures
        kept@.no_duplicates(),
        kept@.to_set() == below(sample@.to_set(), limit as nat),
        kept@.len() <= sample@.len(),
{
    let mut kept: Vec<u64> = Vec::new();
    let mut i: usize = 0;
    while i < sample.len()
        invariant
            i <= sample.len(),
            sample@.no_duplicates(),
            kept@.no_duplicates(),
            kept@.len() <= i,
            forall|h: u64|
                kept@.contains(h) <==> exists|j: int| 0 <= j < i && sample@[j] == h && h <= limit,
        decreases sample.len() - i,
    {
        let hash = sample[i];
        if hash <= limit {
            proof {
                if kept@.contains(hash) {
                    let j = choose|j: int| 0 <= j < i && sample@[j] == hash && hash <= limit;
                    assert(sample@[j] == sample@[i as int]);
                }
            }
            let ghost before = kept@;
            kept.push(hash);
            proof {
                assert forall|h: u64| kept@.contains(h) <==> exists|j: int|
                    0 <= j < i + 1 && sample@[j] == h && h <= limit by {
                    if kept@.contains(h) {
                        let k = choose|k: int| 0 <= k < kept@.len() && kept@[k] == h;
                        if k < before.len() {
                            assert(before[k] == h);
                            assert(before.contains(h));
                        } else {
                            assert(sample@[i as int] == h);
                        }
                    }
                    if exists|j: int| 0 <= j < i + 1 && sample@[j] == h && h <= limit {
                        let j = choose|j: int| 0 <= j < i + 1 && sample@[j] == h && h <= limit;
                        if j < i {
                            assert(before.contains(h));
                            let k = choose|k: int| 0 <= k < before.len() && before[k] == h;
                            assert(kept@[k] == h);
                        } else {
                            assert(kept@[before.len() as int] == h);
                        }
                    }
                }
            }
        }
        i += 1;
    }
    proof {
        assert forall|h: u64| kept@.to_set().contains(h) <==> below(
            sample@.to_set(),
            limit as nat,
        ).contains(h) by {
            if kept@.contains(h) {
                let j = choose|j: int| 0 <= j < sample@.len() && sample@[j] == h && h <= limit;
                assert(sample@.contains(h));
            }
            if sample@.contains(h) && h <= limit {
                let j = choose|j: int| 0 <= j < sample@.len() && sample@[j] == h;
                assert(0 <= j < sample@.len() && sample@[j] == h && h <= limit);
            }
        }
        assert(kept@.to_set() =~= below(sample@.to_set(), limit as nat));
    }
    kept
}

/// The set of these hashes.
fn index_of(sample: &Vec<u64>) -> (index: HashSet<u64>)
    ensures
        index@ == sample@.to_set(),
{
    let mut index: HashSet<u64> = HashSet::new();
    let mut i: usize = 0;
    proof {
        assert(sample@.take(0).to_set() =~= Set::<u64>::empty());
    }
    while i < sample.len()
        invariant
            i <= sample.len(),
            index@ == sample@.take(i as int).to_set(),
        decreases sample.len() - i,
    {
        proof {
            assert(sample@.take(i + 1) =~= sample@.take(i as int).push(sample@[i as int]));
            sample@.take(i as int).lemma_push_to_set_commute(sample@[i as int]);
        }
        index.insert(sample[i]);
        i += 1;
    }
    proof {
        assert(sample@.take(sample@.len() as int) =~= sample@);
    }
    index
}

impl Sketch {
    /// The sample holds no hash twice and only hashes within the limit of
    /// its depth, and the index holds the hashes of the sample.
    closed spec fn loose(&self) -> bool {
        &&& self.capacity >= 1
        &&& self.depth <= DEEPEST
        &&& self.limit == limit_at(self.depth as nat)
        &&& self.sample@.no_duplicates()
        &&& forall|i: int| 0 <= i < self.sample@.len() ==> self.sample@[i] <= self.limit
        &&& self.index@ == self.sample@.to_set()
    }

    /// The sample holds no hash twice, only hashes within the limit of its
    /// depth, and no more of them than the capacity.
    pub closed spec fn wf(&self) -> bool {
        &&& self.loose()
        &&& self.sample@.len() <= self.capacity
    }

    /// A well-formed sketch has a well-formed content.
    pub proof fn lemma_wf(&self)
        requires
            self.wf(),
        ensures
            self@.wf(),
    {
        self.sample@.unique_seq_to_set();
        vstd::seq_lib::seq_to_set_is_finite(self.sample@);
        assert forall|h: u64| self@.sample.contains(h) implies h <= limit_at(self@.depth) by {
            let i = choose|i: int| 0 <= i < self.sample@.len() && self.sample@[i] == h;
        }
    }

    /// A sketch that has seen nothing. A capacity of 0 is taken as 1.
    pub fn new(capacity: usize) -> (sketch: Sketch)
        ensures
            sketch.wf(),
            sketch@ == SketchModel::empty(
                if capacity == 0 {
                    1
                } else {
                    capacity as nat
                },
            ),
    {
        let sketch = Sketch {
            capacity: if capacity == 0 {
                1
            } else {
                capacity
            },
            depth: 0,
            limit: u64::MAX,
            sample: Vec::new(),
            index: HashSet::new(),
        };
        assert(sketch.sample@.to_set() =~= Set::empty());
        sketch
    }

    /// How many hashes the sample may hold.
    pub fn capacity(&self) -> (capacity: usize)
        ensures
            capacity == self@.capacity,
    {
        self.capacity
    }

    /// How often the limit was halved.
    pub fn depth(&self) -> (depth: usize)
        ensures
            depth == self@.depth,
    {
        self.depth
    }

    /// The hashes of the sample, each once.
    pub fn hashes(&self) -> (hashes: Vec<u64>)
        requires
            self.wf(),
        ensures
            sample_valid(self@.capacity, self@.depth, hashes@),
            hashes@.to_set() == self@.sample,
    {
        let mut hashes: Vec<u64> = Vec::new();
        let mut i: usize = 0;
        while i < self.sample.len()
            invariant
                i <= self.sample.len(),
                hashes@ == self.sample@.take(i as int),
            decreases self.sample.len() - i,
        {
            hashes.push(self.sample[i]);
            proof {
                assert(self.sample@.take(i + 1) =~= self.sample@.take(i as int).push(
                    self.sample@[i as int],
                ));
            }
            i += 1;
        }
        proof {
            assert(self.sample@.take(self.sample@.len() as int) =~= self.sample@);
        }
        hashes
    }

    /// The sketch of this capacity with these hashes as its sample at this
    /// depth, if they can be that. A capacity of 0 is taken as 1.
    pub fn restore(capacity: usize, depth: usize, hashes: &Vec<u64>) -> (restored: Option<Sketch>)
        ensures
            restored is Some <==> sample_valid(
                if capacity == 0 {
                    1
                } else {
                    capacity as nat
                },
                depth as nat,
                hashes@,
            ),
            restored matches Some(sketch) ==> sketch.wf() && sketch@ == (SketchModel {
                capacity: if capacity == 0 {
                    1
                } else {
                    capacity as nat
                },
                depth: depth as nat,
                sample: hashes@.to_set(),
            }),
    {
        let capacity = if capacity == 0 {
            1
        } else {
            capacity
        };
        if depth > DEEPEST || hashes.len() > capacity {
            return None;
        }
        let mut limit = u64::MAX;
        let mut d: usize = 0;
        while d < depth
            invariant
                d <= depth,
                limit == limit_at(d as nat),
            decreases depth - d,
        {
            limit = limit / 2;
            d += 1;
        }
        let mut sample: Vec<u64> = Vec::new();
        let mut index: HashSet<u64> = HashSet::new();
        let mut i: usize = 0;
        proof {
            assert(hashes@.take(0).to_set() =~= Set::<u64>::empty());
        }
        while i < hashes.len()
            invariant
                i <= hashes.len(),
                limit == limit_at(depth as nat),
                sample@ == hashes@.take(i as int),
                index@ == sample@.to_set(),
                sample@.no_duplicates(),
                forall|j: int| 0 <= j < i ==> hashes@[j] <= limit,
            decreases hashes.len() - i,
        {
            let hash = hashes[i];
            if hash > limit {
                assert(!(hashes@[i as int] <= limit_at(depth as nat)));
                return None;
            }
            if index.contains(&hash) {
                proof {
                    let j = choose|j: int| 0 <= j < sample@.len() && sample@[j] == hash;
                    assert(hashes@[j] == hashes@[i as int]);
                }
                return None;
            }
            let ghost before = sample@;
            sample.push(hash);
            index.insert(hash);
            proof {
                assert(hashes@.take(i + 1) =~= hashes@.take(i as int).push(hash));
                before.lemma_push_to_set_commute(hash);
            }
            i += 1;
        }
        proof {
            assert(hashes@.take(hashes@.len() as int) =~= hashes@);
        }
        Some(Sketch { capacity, depth, limit, sample, index })
    }

    /// Whether the sample holds this hash.
    fn holds(&self, hash: u64) -> (held: bool)
        requires
            self.loose(),
        ensures
            held == self.sample@.contains(hash),
    {
        self.index.contains(&hash)
    }

    /// Goes deeper until the sample fits the capacity.
    fn settle(&mut self)
        requires
            old(self).loose(),
        ensures
            final(self).wf(),
            final(self)@ == settle(old(self)@.capacity, old(self)@.depth, old(self)@.sample),
            final(self)@.capacity == old(self)@.capacity,
    {
        let ghost target = settle(self@.capacity, self@.depth, self@.sample);
        while self.sample.len() > self.capacity && self.depth < DEEPEST
            invariant
                self.loose(),
                self.capacity == old(self).capacity,
                target == settle(self@.capacity, self@.depth, self@.sample),
            decreases DEEPEST - self.depth,
        {
            let ghost hashes = self@.sample;
            let ghost depth = self@.depth;
            proof {
                self.sample@.unique_seq_to_set();
                lemma_below_all(hashes, limit_at(depth));
                lemma_limit_falls(depth, depth + 1);
                lemma_below_twice(hashes, limit_at(depth + 1), limit_at(depth + 1));
                lemma_settle_below(
                    self@.capacity,
                    depth + 1,
                    hashes,
                    below(hashes, limit_at(depth + 1)),
                );
            }
            self.depth = self.depth + 1;
            self.limit = self.limit / 2;
            let kept = keep_within(&self.sample, self.limit);
            self.index = index_of(&kept);
            self.sample = kept;
            proof {
                assert forall|i: int| 0 <= i < self.sample@.len() implies self.sample@[i]
                    <= self.limit by {
                    assert(self.sample@.to_set().contains(self.sample@[i]));
                }
            }
        }
        proof {
            self.sample@.unique_seq_to_set();
            vstd::seq_lib::seq_to_set_is_finite(self.sample@);
            assert forall|h: u64| self@.sample.contains(h) implies h <= limit_at(
                self@.depth,
            ) by {
                let i = choose|i: int| 0 <= i < self.sample@.len() && self.sample@[i] == h;
            }
            lemma_below_all(self@.sample, limit_at(self@.depth));
            lemma_settle(self@.capacity, self@.depth, self@.sample);
        }
    }

    /// Takes in one hash.
    pub fn insert(&mut self, hash: u64)
        requires
            old(self).wf(),
        ensures
            final(self).wf(),
            final(self)@ == old(self)@.insert(hash),
            final(self)@.capacity == old(self)@.capacity,
    {
        proof {
            self.lemma_wf();
            lemma_below_all(self@.sample, limit_at(self@.depth));
            self.sample@.unique_seq_to_set();
        }
        if hash <= self.limit && !self.holds(hash) {
            let ghost before = self.sample@;
            self.sample.push(hash);
            self.index.insert(hash);
            proof {
                before.lemma_push_to_set_commute(hash);
                assert(self.sample@ =~= before.push(hash));
                assert(self.sample@.no_duplicates());
            }
            self.settle();
        } else {
            proof {
                if hash <= self.limit {
                    assert(self@.sample.insert(hash) =~= self@.sample);
                } else {
                    assert(below(self@.sample.insert(hash), limit_at(self@.depth))
                        =~= self@.sample);
                }
            }
        }
    }

    /// Takes in what another sketch of the same capacity has seen.
    pub fn merge(&mut self, other: &Sketch)
        requires
            old(self).wf(),
            other.wf(),
            old(self)@.capacity == other@.capacity,
        ensures
            final(self).wf(),
            final(self)@ == old(self)@.merge(other@),
            final(self)@.capacity == old(self)@.capacity,
    {
        let ghost first = self@.sample;
        let ghost second = other@.sample;
        let ghost start: nat = if self@.depth >= other@.depth {
            self@.depth
        } else {
            other@.depth
        };
        proof {
            self.lemma_wf();
            other.lemma_wf();
            lemma_below_all(first, limit_at(self@.depth));
            lemma_limit_falls(self@.depth, start);
            lemma_limit_falls(other@.depth, start);
        }
        if other.depth > self.depth {
            self.depth = other.depth;
            self.limit = other.limit;
            let kept = keep_within(&self.sample, self.limit);
            self.index = index_of(&kept);
            self.sample = kept;
            proof {
                assert forall|i: int| 0 <= i < self.sample@.len() implies self.sample@[i]
                    <= self.limit by {
                    assert(self.sample@.to_set().contains(self.sample@[i]));
                }
            }
        }
        let mut i: usize = 0;
        while i < other.sample.len()
            invariant
                i <= other.sample.len(),
                self.loose(),
                other.wf(),
                self.capacity == old(self).capacity,
                self.depth == start,
                first == old(self)@.sample,
                second == other@.sample,
                self@.sample == below(first, limit_at(start)).union(
                    below(other.sample@.take(i as int).to_set(), limit_at(start)),
                ),
            decreases other.sample.len() - i,
        {
            let hash = other.sample[i];
            let ghost sofar = other.sample@.take(i as int);
            let ghost before = self.sample@;
            proof {
                assert(other.sample@.take(i + 1) =~= sofar.push(hash));
                sofar.lemma_push_to_set_commute(hash);
            }
            if hash <= self.limit && !self.holds(hash) {
                self.sample.push(hash);
                self.index.insert(hash);
                proof {
                    before.lemma_push_to_set_commute(hash);
                    assert(self.sample@ =~= before.push(hash));
                }
            }
            proof {
                assert(self@.sample =~= below(first, limit_at(start)).union(
                    below(other.sample@.take(i + 1).to_set(), limit_at(start)),
                ));
            }
            i += 1;
        }
        proof {
            assert(other.sample@.take(other.sample@.len() as int) =~= other.sample@);
            assert(self@.sample =~= below(first.union(second), limit_at(start)));
            lemma_below_twice(first.union(second), limit_at(start), limit_at(start));
            lemma_settle_below(
                self@.capacity,
                start,
                below(first.union(second), limit_at(start)),
                first.union(second),
            );
        }
        self.settle();
    }

    /// The estimated number of different hashes seen, as far as it fits 64
    /// bits.
    pub fn estimate(&self) -> (estimate: u64)
        requires
            self.wf(),
        ensures
            estimate == self@.estimate(),
    {
        proof {
            self.sample@.unique_seq_to_set();
            vstd::arithmetic::power2::lemma2_to64();
        }
        let ghost size = self.sample@.len() as int;
        let mut estimate: u64 = self.sample.len() as u64;
        let mut i: usize = 0;
        while i < self.depth
            invariant
                i <= self.depth,
                size == self.sample@.len(),
                size <= u64::MAX,
                estimate == if size * pow2(i as nat) <= u64::MAX {
                    size * pow2(i as nat)
                } else {
                    u64::MAX as int
                },
            decreases self.depth - i,
        {
            proof {
                lemma_pow2_unfold((i + 1) as nat);
                lemma_pow2_pos(i as nat);
                let p = pow2(i as nat) as int;
                assert(size * (2 * p) == 2 * (size * p)) by (nonlinear_arith);
            }
            if estimate > u64::MAX / 2 {
                estimate = u64::MAX;
            } else {
                estimate = estimate * 2;
            }
            i += 1;
        }
        estimate
    }
}

} // verus!
