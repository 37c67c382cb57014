//! The break sampler: draws a set of distinct candidate positions from a
//! seeded pseudo-random generator.

use crate::order::strictly_increasing;
use crate::partition::valid_boundaries;
use rand::rngs::StdRng;
use rand::Rng;
use rand::SeedableRng;
use vstd::prelude::*;

verus! {

/// The generator of the `rand` crate that the search is driven by. Its state
/// is not modelled: nothing is known of a draw but what `draw_in_range` states.
#[verifier::external_type_specification]
#[verifier::external_body]
pub struct ExStdRng(StdRng);

/// The most draws one sample makes before it stops rejecting repeats.
pub const DRAW_LIMIT: u64 = u64::MAX;

/// Trusted: `SeedableRng::seed_from_u64` of the `rand` crate, for `StdRng`.
/// Nothing is claimed of the generator that comes back.
#[verifier::external_body]
pub(crate) fn seeded_rng(seed: u64) -> (rng: StdRng) {
    StdRng::seed_from_u64(seed)
}

/// Trusted: `Rng::gen_range` of the `rand` crate on the half-open range
/// `low..high` of positions. The call panics on an empty range, which the
/// precondition excludes; the contract claims only that the draw lies in the
/// range, which holds of every outcome.
#[verifier::external_body]
pub(crate) fn draw_in_range(rng: &mut StdRng, low: usize, high: usize) -> (drawn: usize)
    requires
        low < high,
    ensures
        low <= drawn < high,
{
    rng.gen_range(low..high)
}

/// A sample of `count` positions out of `1..num_vals`: ascending, without
/// repeats.
pub open spec fn is_sample(positions: Seq<usize>, count: int, num_vals: int) -> bool {
    &&& positions.len() == count
    &&& valid_boundaries(positions, num_vals)
}

/// Adds `value` to an ascending list of distinct positions, at the place that
/// keeps the list ascending. A value that the list already holds is not added
/// again. Returns whether the list grew.
pub fn insert_distinct(chosen: &mut Vec<usize>, value: usize) -> (inserted: bool)
    requires
        strictly_increasing(old(chosen)@),
    ensures
        strictly_increasing(final(chosen)@),
        inserted == !old(chosen)@.contains(value),
        !inserted ==> final(chosen)@ == old(chosen)@,
        inserted ==> exists|at: int|
            0 <= at <= old(chosen)@.len() && final(chosen)@ == old(chosen)@.insert(at, value),
        forall|x: usize| final(chosen)@.contains(x) <==> (old(chosen)@.contains(x) || x == value),
{
    let mut at: usize = 0;
    while at < chosen.len() && chosen[at] < value
        invariant
            at <= chosen.len(),
            chosen@ == old(chosen)@,
            strictly_increasing(chosen@),
            forall|i: int| 0 <= i < at ==> chosen@[i] < value,
        decreases chosen.len() - at,
    {
        at += 1;
    }
    if at < chosen.len() && chosen[at] == value {
        assert(chosen@.contains(value));
        false
    } else {
        assert(!chosen@.contains(value)) by {
            if chosen@.contains(value) {
                let i = choose|i: int| 0 <= i < chosen@.len() && chosen@[i] == value;
                assert(i >= at);
                if i > at {
                    assert(chosen@[at as int] < chosen@[i]);
                }
            }
        }
        let ghost before = chosen@;
        chosen.insert(at, value);
        assert(chosen@ == before.insert(at as int, value));
        assert forall|x: usize| chosen@.contains(x) <==> (before.contains(x) || x == value) by {
            if before.contains(x) {
                let i = choose|i: int| 0 <= i < before.len() && before[i] == x;
                if i < at {
                    assert(chosen@[i] == x);
                } else {
                    assert(chosen@[i + 1] == x);
                }
            }
            if x == value {
                assert(chosen@[at as int] == x);
            }
            if chosen@.contains(x) {
                let i = choose|i: int| 0 <= i < chosen@.len() && chosen@[i] == x;
                if i < at {
                    assert(before[i] == x);
                } else if i > at {
                    assert(before[i - 1] == x);
                }
            }
        }
        assert(strictly_increasing(chosen@)) by {
            assert forall|i: int, j: int| 0 <= i < j < chosen@.len() implies chosen@[i]
                < chosen@[j] by {
                let bi = if i < at { i } else { i - 1 };
                let bj = if j < at { j } else { j - 1 };
                if i != at && j != at {
                    assert(before[bi] < before[bj]);
                } else if i == at {
                    assert(before[at as int] >= value);
                    assert(bj >= at);
                    if bj > at {
                        assert(before[at as int] < before[bj]);
                    }
                }
            }
        }
        true
    }
}

/// Fills `breaks` with the positions `1, 2, ..`, one for each of its places.
fn fill_leading(breaks: &mut Vec<usize>)
    ensures
        final(breaks)@.len() == old(breaks)@.len(),
        forall|i: int| 0 <= i < final(breaks)@.len() ==> final(breaks)@[i] == i + 1,
{
    let mut i: usize = 0;
    while i < breaks.len()
        invariant
            i <= breaks.len(),
            breaks@.len() == old(breaks)@.len(),
            forall|k: int| 0 <= k < i ==> breaks@[k] == k + 1,
        decreases breaks.len() - i,
    {
        breaks.set(i, i + 1);
        i += 1;
    }
}

/// Fills `breaks` with a random sample of distinct positions out of
/// `1..num_vals`, in ascending order; the length of `breaks` on entry is the
/// size of the sample.
///
/// Where `breaks` asks for more positions than `1..num_vals` holds, nothing
/// is drawn and `breaks` is left as it was.
///
/// Positions are drawn one at a time and a repeat is drawn again. Should
/// `DRAW_LIMIT` draws not yield enough distinct positions, the sample is the
/// first positions `1, 2, ..` instead, so that the call always ends with a
/// sample.
pub fn pick_rand_breaks(breaks: &mut Vec<usize>, num_vals: &usize, rng: &mut StdRng)
    ensures
        old(breaks)@.len() + 1 > *num_vals ==> final(breaks)@ == old(breaks)@,
        old(breaks)@.len() + 1 <= *num_vals ==> is_sample(
            final(breaks)@,
            old(breaks)@.len() as int,
            *num_vals as int,
        ),
{
    let num_breaks: usize = breaks.len();
    let limit: usize = *num_vals;
    if limit == 0 || num_breaks > limit - 1 {
        return ;
    }
    let mut chosen: Vec<usize> = Vec::new();
    let mut draws: u64 = 0;
    while chosen.len() < num_breaks && draws < DRAW_LIMIT
        invariant
            num_breaks + 1 <= limit,
            chosen@.len() <= num_breaks,
            is_sample(chosen@, chosen@.len() as int, limit as int),
        decreases DRAW_LIMIT - draws,
    {
        let drawn: usize = draw_in_range(rng, 1, limit);
        let ghost before = chosen@;
        let inserted: bool = insert_distinct(&mut chosen, drawn);
        proof {
            if inserted {
                let at = choose|at: int|
                    0 <= at <= before.len() && chosen@ == before.insert(at, drawn);
                assert forall|i: int| 0 <= i < chosen@.len() implies 1 <= #[trigger] chosen@[i]
                    < limit by {
                    if i < at {
                        assert(chosen@[i] == before[i]);
                    } else if i > at {
                        assert(chosen@[i] == before[i - 1]);
                    }
                }
            }
        }
        draws += 1;
    }
    if chosen.len() < num_breaks {
        fill_leading(breaks);
    } else {
        let mut i: usize = 0;
        while i < num_breaks
            invariant
                i <= num_breaks,
                chosen@.len() == num_breaks,
                breaks@.len() == num_breaks,
                forall|k: int| 0 <= k < i ==> breaks@[k] == chosen@[k],
            decreases num_breaks - i,
        {
            breaks.set(i, chosen[i]);
            i += 1;
        }
        assert(breaks@ =~= chosen@);
    }
}

} // verus!
