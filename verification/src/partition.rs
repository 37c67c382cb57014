//! Boundary sets: the positions at which ascending data is cut into
//! contiguous partitions.

use crate::order::{ascending, strictly_ascending, strictly_increasing};
use vstd::prelude::*;

verus! {

/// A boundary set over `num_vals` observations: positions out of
/// `1..num_vals` in growing order. A boundary at position `p` cuts between
/// the observations `p - 1` and `p`, so no partition is empty.
pub open spec fn valid_boundaries(boundaries: Seq<usize>, num_vals: int) -> bool {
    &&& strictly_increasing(boundaries)
    &&& forall|i: int| 0 <= i < boundaries.len() ==> 1 <= #[trigger] boundaries[i] < num_vals
}

/// The position at which partition `i` starts: 0 for the first, else the
/// boundary before it.
pub open spec fn partition_start(boundaries: Seq<usize>, i: int) -> int {
    if i == 0 {
        0
    } else {
        boundaries[i - 1] as int
    }
}

/// The position just behind partition `i`: the number of observations for
/// the last, else the boundary behind it.
pub open spec fn partition_end(boundaries: Seq<usize>, num_vals: int, i: int) -> int {
    if i == boundaries.len() {
        num_vals
    } else {
        boundaries[i] as int
    }
}

/// Every boundary cuts between two different keys, so each is the start of a
/// run of equal keys.
pub open spec fn cuts_between_runs(boundaries: Seq<usize>, sorted: Seq<i64>) -> bool {
    &&& valid_boundaries(boundaries, sorted.len() as int)
    &&& forall|i: int|
        0 <= i < boundaries.len() ==> sorted[#[trigger] boundaries[i] - 1]
            < sorted[boundaries[i] as int]
}

/// The keys found at the given positions.
pub open spec fn keys_at(sorted: Seq<i64>, positions: Seq<usize>) -> Seq<i64> {
    Seq::new(positions.len(), |i: int| sorted[positions[i] as int])
}

/// Tells whether `boundaries` is a boundary set over `num_vals` observations.
pub fn check_boundaries(boundaries: &Vec<usize>, num_vals: usize) -> (ok: bool)
    ensures
        ok == valid_boundaries(boundaries@, num_vals as int),
{
    let mut i: usize = 0;
    while i < boundaries.len()
        invariant
            i <= boundaries@.len(),
            forall|k: int| 0 <= k < i ==> 1 <= #[trigger] boundaries@[k] < num_vals,
            forall|k: int| 0 < k < i ==> boundaries@[k - 1] < #[trigger] boundaries@[k],
        decreases boundaries@.len() - i,
    {
        let at: usize = boundaries[i];
        if at < 1 || at >= num_vals {
            return false;
        }
        if i > 0 && boundaries[i - 1] >= at {
            assert(!strictly_increasing(boundaries@)) by {
                if strictly_increasing(boundaries@) {
                    assert(boundaries@[i - 1] < boundaries@[i as int]);
                }
            }
            return false;
        }
        i += 1;
    }
    proof {
        lemma_chain_increases(boundaries@);
    }
    true
}

/// Positions of which each exceeds the one before it grow throughout.
pub proof fn lemma_chain_increases(positions: Seq<usize>)
    requires
        forall|k: int| 0 < k < positions.len() ==> positions[k - 1] < #[trigger] positions[k],
    ensures
        strictly_increasing(positions),
{
    assert forall|i: int, j: int| 0 <= i < j < positions.len() implies positions[i]
        < positions[j] by {
        lemma_chain_step(positions, i, j);
    }
}

proof fn lemma_chain_step(positions: Seq<usize>, i: int, j: int)
    requires
        forall|k: int| 0 < k < positions.len() ==> positions[k - 1] < #[trigger] positions[k],
        0 <= i < j < positions.len(),
    ensures
        positions[i] < positions[j],
    decreases j - i,
{
    assert(positions[j - 1] < positions[j]);
    if i < j - 1 {
        lemma_chain_step(positions, i, j - 1);
    }
}

/// Returns the half-open span of positions that partition `i` covers.
pub fn partition_bounds(boundaries: &Vec<usize>, num_vals: usize, i: usize) -> (span: (
    usize,
    usize,
))
    requires
        i <= boundaries@.len(),
    ensures
        span.0 == partition_start(boundaries@, i as int),
        span.1 == partition_end(boundaries@, num_vals as int, i as int),
{
    let lower: usize = if i == 0 {
        0
    } else {
        boundaries[i - 1]
    };
    let upper: usize = if i == boundaries.len() {
        num_vals
    } else {
        boundaries[i]
    };
    (lower, upper)
}

/// The partitions of a boundary set tile the data: the first starts at
/// position 0, each starts where the one before it ends, the last ends with
/// the data, and none is empty.
pub proof fn lemma_partitions_tile(boundaries: Seq<usize>, num_vals: int, i: int)
    requires
        valid_boundaries(boundaries, num_vals),
        num_vals >= 1,
        0 <= i <= boundaries.len(),
    ensures
        partition_start(boundaries, 0) == 0,
        partition_end(boundaries, num_vals, boundaries.len() as int) == num_vals,
        0 <= partition_start(boundaries, i) < partition_end(boundaries, num_vals, i) <= num_vals,
        i < boundaries.len() ==> partition_end(boundaries, num_vals, i) == partition_start(
            boundaries,
            i + 1,
        ),
{
    if 0 < i < boundaries.len() {
        assert(boundaries[i - 1] < boundaries[i]);
    }
    if i > 0 {
        assert(1 <= boundaries[i - 1] < num_vals);
    }
    if i < boundaries.len() {
        assert(1 <= boundaries[i] < num_vals);
    }
}

/// The keys at boundaries that cut between runs of ascending data are
/// members of the data, grow from one boundary to the next, and all exceed
/// the least key.
pub proof fn lemma_keys_at_run_starts(boundaries: Seq<usize>, sorted: Seq<i64>)
    requires
        ascending(sorted),
        cuts_between_runs(boundaries, sorted),
    ensures
        strictly_ascending(keys_at(sorted, boundaries)),
        forall|i: int|
            0 <= i < boundaries.len() ==> sorted.contains(#[trigger] keys_at(sorted, boundaries)[i]),
        forall|i: int|
            0 <= i < boundaries.len() ==> sorted[0] < #[trigger] keys_at(sorted, boundaries)[i],
{
    let keys = keys_at(sorted, boundaries);
    assert forall|i: int, j: int| 0 <= i < j < keys.len() implies keys[i] < keys[j] by {
        assert(boundaries[i] < boundaries[j]);
        assert(1 <= boundaries[j] < sorted.len());
        assert(sorted[boundaries[i] as int] <= sorted[boundaries[j] - 1]);
        assert(sorted[boundaries[j] - 1] < sorted[boundaries[j] as int]);
    }
    assert forall|i: int| 0 <= i < boundaries.len() implies sorted.contains(
        #[trigger] keys[i],
    ) && sorted[0] < keys[i] by {
        assert(1 <= boundaries[i] < sorted.len());
        assert(sorted[boundaries[i] as int] == keys[i]);
        assert(sorted[0] <= sorted[boundaries[i] - 1]);
        assert(sorted[boundaries[i] - 1] < sorted[boundaries[i] as int]);
    }
}

} // verus!
