//! The mathematical content of a cardinality sketch, and the algebra of
//! merging sketches.
//!
//! The sketch is an adaptive sample of hashes. At depth `d` it keeps the
//! hashes that are at most `limit_at(d)`, which halves with every step of
//! depth: one hash in `2^d`, if hashes are spread evenly. Whenever it holds
//! more hashes than its capacity, it goes one step deeper. The number of
//! different hashes seen is estimated as the size of the sample times
//! `2^d`.

use vstd::prelude::*;
use vstd::arithmetic::power2::pow2;
use vstd::set_lib::lemma_len_subset;

verus! {

/// The depth at which at most the hash 0 is kept.
pub const DEEPEST: usize = 64;

/// The greatest hash that is kept at a depth.
pub open spec fn limit_at(depth: nat) -> nat
    decreases depth,
{
    if depth == 0 {
        u64::MAX as nat
    } else {
        limit_at((depth - 1) as nat) / 2
    }
}

/// The hashes among `hashes` that are at most `limit`.
pub open spec fn below(hashes: Set<u64>, limit: nat) -> Set<u64> {
    Set::new(|h: u64| hashes.contains(h) && h <= limit)
}

/// The mathematical content of a sketch.
pub struct SketchModel {
    /// How many hashes the sample may hold.
    pub capacity: nat,
    /// How often the limit was halved.
    pub depth: nat,
    /// The hashes that are kept.
    pub sample: Set<u64>,
}

/// The sketch of `hashes` that is at least `depth` deep: the sample at the
/// least such depth at which it fits the capacity.
pub open spec fn settle(capacity: nat, depth: nat, hashes: Set<u64>) -> SketchModel
    decreases DEEPEST - depth,
{
    if depth >= DEEPEST || below(hashes, limit_at(depth)).len() <= capacity {
        SketchModel { capacity, depth, sample: below(hashes, limit_at(depth)) }
    } else {
        settle(capacity, depth + 1, hashes)
    }
}

impl SketchModel {
    /// The sample fits the capacity, and holds only hashes within the limit
    /// of its depth.
    pub open spec fn wf(self) -> bool {
        &&& self.capacity >= 1
        &&& self.depth <= DEEPEST
        &&& self.sample.finite()
        &&& self.sample.len() <= self.capacity
        &&& forall|h: u64| self.sample.contains(h) ==> h <= limit_at(self.depth)
    }

    /// A sketch that has seen nothing.
    pub open spec fn empty(capacity: nat) -> SketchModel {
        SketchModel { capacity, depth: 0, sample: Set::empty() }
    }

    /// A sketch that has seen one hash.
    pub open spec fn single(capacity: nat, hash: u64) -> SketchModel {
        SketchModel { capacity, depth: 0, sample: Set::empty().insert(hash) }
    }

    /// The sketch after it has seen one more hash.
    pub open spec fn insert(self, hash: u64) -> SketchModel {
        settle(self.capacity, self.depth, self.sample.insert(hash))
    }

    /// The sketch of what either of two sketches has seen.
    pub open spec fn merge(self, other: SketchModel) -> SketchModel {
        settle(
            self.capacity,
            if self.depth >= other.depth {
                self.depth
            } else {
                other.depth
            },
            self.sample.union(other.sample),
        )
    }

    /// The estimated number of different hashes seen, as far as it fits 64
    /// bits.
    pub open spec fn estimate(self) -> nat {
        if self.sample.len() * pow2(self.depth) <= u64::MAX {
            self.sample.len() * pow2(self.depth)
        } else {
            u64::MAX as nat
        }
    }
}

/// Whether these hashes can be the sample of a sketch of this capacity at
/// this depth: there are no more of them than the capacity, none twice,
/// and all are within the limit of the depth.
pub open spec fn sample_valid(capacity: nat, depth: nat, hashes: Seq<u64>) -> bool {
    &&& capacity >= 1
    &&& depth <= DEEPEST
    &&& hashes.len() <= capacity
    &&& hashes.no_duplicates()
    &&& forall|i: int| 0 <= i < hashes.len() ==> hashes[i] <= limit_at(depth)
}

/// The limit falls as the depth grows.
pub proof fn lemma_limit_falls(low: nat, high: nat)
    requires
        low <= high,
    ensures
        limit_at(high) <= limit_at(low),
    decreases high - low,
{
    if low < high {
        lemma_limit_falls(low, (high - 1) as nat);
    }
}

proof fn lemma_limit_bound(depth: nat)
    requires
        depth <= DEEPEST,
    ensures
        limit_at(depth) < pow2((DEEPEST - depth) as nat),
    decreases depth,
{
    if depth == 0 {
        vstd::arithmetic::power2::lemma2_to64_rest();
    } else {
        lemma_limit_bound((depth - 1) as nat);
        vstd::arithmetic::power2::lemma_pow2_unfold((DEEPEST - depth + 1) as nat);
    }
}

/// At the deepest depth only the hash 0 is kept.
pub proof fn lemma_limit_deepest()
    ensures
        limit_at(DEEPEST as nat) == 0,
{
    lemma_limit_bound(DEEPEST as nat);
    vstd::arithmetic::power2::lemma2_to64();
}

/// What is kept of finitely many hashes is finite, and no more than they.
pub proof fn lemma_below(hashes: Set<u64>, limit: nat)
    requires
        hashes.finite(),
    ensures
        below(hashes, limit).finite(),
        below(hashes, limit).len() <= hashes.len(),
        below(hashes, limit).subset_of(hashes),
{
    lemma_len_subset(below(hashes, limit), hashes);
}

/// What is kept under two limits is what is kept under the lesser.
pub proof fn lemma_below_twice(hashes: Set<u64>, first: nat, second: nat)
    requires
        second <= first,
    ensures
        below(below(hashes, first), second) == below(hashes, second),
{
    assert(below(below(hashes, first), second) =~= below(hashes, second));
}

/// Hashes within a limit are all kept under it.
pub proof fn lemma_below_all(hashes: Set<u64>, limit: nat)
    requires
        forall|h: u64| hashes.contains(h) ==> h <= limit,
    ensures
        below(hashes, limit) == hashes,
{
    assert(below(hashes, limit) =~= hashes);
}

/// The settled sketch is well formed, at least as deep as asked, and holds
/// what is kept of the hashes at its depth.
pub proof fn lemma_settle(capacity: nat, depth: nat, hashes: Set<u64>)
    requires
        capacity >= 1,
        depth <= DEEPEST,
        hashes.finite(),
    ensures
        settle(capacity, depth, hashes).wf(),
        settle(capacity, depth, hashes).capacity == capacity,
        depth <= settle(capacity, depth, hashes).depth,
        settle(capacity, depth, hashes).sample == below(
            hashes,
            limit_at(settle(capacity, depth, hashes).depth),
        ),
    decreases DEEPEST - depth,
{
    lemma_below(hashes, limit_at(depth));
    if depth >= DEEPEST {
        lemma_limit_deepest();
        let kept = below(hashes, limit_at(depth));
        let zero = Set::<u64>::empty().insert(0u64);
        assert(kept.subset_of(zero));
        lemma_len_subset(kept, zero);
    } else if below(hashes, limit_at(depth)).len() <= capacity {
    } else {
        lemma_settle(capacity, depth + 1, hashes);
    }
}

/// Settling looks only at the hashes within the limit of the depth it
/// starts from.
pub proof fn lemma_settle_below(capacity: nat, depth: nat, first: Set<u64>, second: Set<u64>)
    requires
        below(first, limit_at(depth)) == below(second, limit_at(depth)),
    ensures
        settle(capacity, depth, first) == settle(capacity, depth, second),
    decreases DEEPEST - depth,
{
    if depth >= DEEPEST || below(first, limit_at(depth)).len() <= capacity {
    } else {
        lemma_limit_falls(depth, depth + 1);
        lemma_below_twice(first, limit_at(depth), limit_at(depth + 1));
        lemma_below_twice(second, limit_at(depth), limit_at(depth + 1));
        lemma_settle_below(capacity, depth + 1, first, second);
    }
}

/// To settle, take in more hashes and settle again is to settle all the
/// hashes at once.
pub proof fn lemma_settle_again(
    capacity: nat,
    depth: nat,
    hashes: Set<u64>,
    floor: nat,
    more: Set<u64>,
)
    requires
        capacity >= 1,
        depth <= DEEPEST,
        floor <= DEEPEST,
        hashes.finite(),
        more.finite(),
    ensures
        settle(
            capacity,
            if settle(capacity, depth, hashes).depth >= floor {
                settle(capacity, depth, hashes).depth
            } else {
                floor
            },
            settle(capacity, depth, hashes).sample.union(more),
        ) == settle(
            capacity,
            if depth >= floor {
                depth
            } else {
                floor
            },
            hashes.union(more),
        ),
    decreases DEEPEST - depth,
{
    let start = if depth >= floor {
        depth
    } else {
        floor
    };
    let kept = below(hashes, limit_at(depth));
    lemma_below(hashes, limit_at(depth));
    if depth >= DEEPEST || kept.len() <= capacity {
        lemma_limit_falls(depth, start);
        assert(below(kept.union(more), limit_at(start)) =~= below(
            hashes.union(more),
            limit_at(start),
        ));
        lemma_settle_below(capacity, start, kept.union(more), hashes.union(more));
    } else {
        lemma_settle_again(capacity, depth + 1, hashes, floor, more);
        if floor <= depth {
            let all = below(hashes.union(more), limit_at(depth));
            lemma_below(hashes.union(more), limit_at(depth));
            assert(kept.subset_of(all));
            lemma_len_subset(kept, all);
        }
    }
}

/// Merging keeps sketches well formed.
pub proof fn lemma_sketch_merge_wf(a: SketchModel, b: SketchModel)
    requires
        a.wf(),
        b.wf(),
        a.capacity == b.capacity,
    ensures
        a.merge(b).wf(),
        a.merge(b).capacity == a.capacity,
{
    lemma_settle(
        a.capacity,
        if a.depth >= b.depth {
            a.depth
        } else {
            b.depth
        },
        a.sample.union(b.sample),
    );
}

/// To see one more hash is to merge with the sketch that has seen just it.
pub proof fn lemma_sketch_insert_is_merge(a: SketchModel, hash: u64)
    ensures
        a.insert(hash) == a.merge(SketchModel::single(a.capacity, hash)),
{
    assert(a.sample.insert(hash) =~= a.sample.union(Set::empty().insert(hash)));
}

/// Merging does not depend on the order of its two sides.
pub proof fn lemma_sketch_merge_commutative(a: SketchModel, b: SketchModel)
    requires
        a.capacity == b.capacity,
    ensures
        a.merge(b) == b.merge(a),
{
    assert(a.sample.union(b.sample) =~= b.sample.union(a.sample));
}

/// Merging three sketches does not depend on which two are merged first.
pub proof fn lemma_sketch_merge_associative(a: SketchModel, b: SketchModel, c: SketchModel)
    requires
        a.wf(),
        b.wf(),
        c.wf(),
        a.capacity == b.capacity,
        b.capacity == c.capacity,
    ensures
        a.merge(b).merge(c) == a.merge(b.merge(c)),
{
    let capacity = a.capacity;
    let ab = if a.depth >= b.depth {
        a.depth
    } else {
        b.depth
    };
    let bc = if b.depth >= c.depth {
        b.depth
    } else {
        c.depth
    };
    lemma_settle(capacity, ab, a.sample.union(b.sample));
    lemma_settle(capacity, bc, b.sample.union(c.sample));
    lemma_settle_again(capacity, ab, a.sample.union(b.sample), c.depth, c.sample);
    lemma_settle_again(capacity, bc, b.sample.union(c.sample), a.depth, a.sample);
    assert(a.sample.union(b.sample).union(c.sample) =~= b.sample.union(c.sample).union(
        a.sample,
    ));
    assert(b.merge(c).sample.union(a.sample) =~= a.sample.union(b.merge(c).sample));
}

/// Merging with a sketch that has seen nothing changes nothing.
pub proof fn lemma_sketch_merge_empty(a: SketchModel)
    requires
        a.wf(),
    ensures
        a.merge(SketchModel::empty(a.capacity)) == a,
        SketchModel::empty(a.capacity).merge(a) == a,
{
    assert(a.sample.union(Set::empty()) =~= a.sample);
    assert(Set::<u64>::empty().union(a.sample) =~= a.sample);
    lemma_below_all(a.sample, limit_at(a.depth));
}

} // verus!
