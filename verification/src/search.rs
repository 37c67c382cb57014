//! The search driver: repeated sampling and scoring of candidate boundary
//! sets, keeping the best one seen.

use crate::order::{
    ascending, distinct_count, is_least, lemma_ascending_unique, lemma_has_least, sorted_copy,
    strictly_ascending,
};
use crate::partition::{
    cuts_between_runs, keys_at, lemma_keys_at_run_starts, valid_boundaries,
};
use crate::sampler::{pick_rand_breaks, seeded_rng};
use crate::unique::{
    create_unique_val_mapping, is_run_mapping, lemma_translated_boundaries,
    unique_to_normal_breaks, UniqueVal,
};
use rand::rngs::StdRng;
use vstd::prelude::*;

verus! {

/// The seed of the generator that every search starts from, so that a search
/// can be repeated.
pub const SEED: u64 = 123456789;

/// The work allowance that the number of trials is derived from.
pub const TRIAL_BUDGET: usize = 44_000_000;

/// The fewest trials a search makes.
pub const MIN_TRIALS: usize = 10;

/// The most trials a search makes.
pub const MAX_TRIALS: usize = 10_000;

/// The score that a candidate has to exceed to be kept at all.
pub const START_SCORE: i64 = 0;

/// Why a classification was refused.
#[derive(Clone, Copy, Debug, PartialEq, Eq, Structural)]
pub enum JenksError {
    /// There are no observations.
    EmptyData,
    /// No bin was asked for.
    ZeroBins,
    /// An observation is infinite or not a number.
    NonFinite,
}

/// The number of random candidates tried on `n` observations: the budget
/// divided by `n`, kept within the two limits.
pub open spec fn trials_for(n: int) -> int {
    let share = TRIAL_BUDGET as int / n;
    if share < MIN_TRIALS as int {
        MIN_TRIALS as int
    } else if share > MAX_TRIALS as int {
        MAX_TRIALS as int
    } else {
        share
    }
}

/// The number of bins that are formed: as many as were asked for, but no
/// more than there are different keys.
pub open spec fn effective_bins(num_bins: int, data: Seq<i64>) -> int {
    if num_bins <= distinct_count(data) {
        num_bins
    } else {
        distinct_count(data) as int
    }
}

/// Computes the number of trials for a data set of `num_vals` observations.
pub fn trial_count(num_vals: usize) -> (trials: usize)
    requires
        num_vals > 0,
    ensures
        trials as int == trials_for(num_vals as int),
        MIN_TRIALS <= trials <= MAX_TRIALS,
{
    let share: usize = TRIAL_BUDGET / num_vals;
    if share < MIN_TRIALS {
        MIN_TRIALS
    } else if share > MAX_TRIALS {
        MAX_TRIALS
    } else {
        share
    }
}

/// Compares a scored candidate with the best so far and keeps it when its
/// score is strictly greater; on a tie the earlier candidate stays. Returns
/// whether the candidate was kept.
pub fn keep_best(
    best_breaks: &mut Vec<usize>,
    best_score: &mut i64,
    candidate: &Vec<usize>,
    score: i64,
) -> (kept: bool)
    ensures
        kept == (score > *old(best_score)),
        kept ==> final(best_breaks)@ == candidate@ && *final(best_score) == score,
        !kept ==> final(best_breaks)@ == old(best_breaks)@ && *final(best_score) == *old(
            best_score,
        ),
{
    if score > *best_score {
        *best_score = score;
        best_breaks.clear();
        let mut i: usize = 0;
        while i < candidate.len()
            invariant
                i <= candidate@.len(),
                best_breaks@ == candidate@.take(i as int),
            decreases candidate@.len() - i,
        {
            best_breaks.push(candidate[i]);
            i += 1;
        }
        assert(candidate@.take(candidate@.len() as int) =~= candidate@);
        true
    } else {
        false
    }
}

/// Reads the keys at the given positions of the data.
pub fn break_values(sorted_data: &Vec<i64>, breaks: &Vec<usize>) -> (values: Vec<i64>)
    requires
        forall|i: int| 0 <= i < breaks@.len() ==> #[trigger] breaks@[i] < sorted_data@.len(),
    ensures
        values@ == keys_at(sorted_data@, breaks@),
{
    let mut values: Vec<i64> = Vec::new();
    let mut i: usize = 0;
    while i < breaks.len()
        invariant
            i <= breaks@.len(),
            forall|k: int| 0 <= k < breaks@.len() ==> #[trigger] breaks@[k] < sorted_data@.len(),
            values@.len() == i,
            forall|k: int| 0 <= k < i ==> values@[k] == sorted_data@[breaks@[k] as int],
        decreases breaks@.len() - i,
    {
        values.push(sorted_data[breaks[i]]);
        i += 1;
    }
    assert(values@ =~= keys_at(sorted_data@, breaks@));
    values
}

/// The boundaries that are held before any candidate has been kept: every
/// place is position 0.
pub open spec fn no_breaks_yet(num_breaks: nat) -> Seq<usize> {
    Seq::new(num_breaks, |i: int| 0usize)
}

/// The best candidate of a run of trials, with its score: the first one whose
/// score is the greatest and above `START_SCORE`. Where no score is above
/// `START_SCORE`, the result is `no_breaks_yet` with `START_SCORE`.
pub open spec fn best_after(trials: Seq<(Vec<usize>, i64)>, num_breaks: nat) -> (Seq<usize>, i64)
    decreases trials.len(),
{
    if trials.len() == 0 {
        (no_breaks_yet(num_breaks), START_SCORE)
    } else {
        let earlier = best_after(trials.drop_last(), num_breaks);
        if trials.last().1 > earlier.1 {
            (trials.last().0@, trials.last().1)
        } else {
            earlier
        }
    }
}

/// `trials` is a record of the trials of one search over `data`: `sorted` is
/// the data in ascending order, there are as many trials as the size of the
/// data calls for, and each holds a boundary set of `num_breaks` boundaries
/// that cuts between runs, with a score that `score` gave it.
pub open spec fn records_search<F: Fn(&Vec<usize>) -> i64>(
    sorted: Seq<i64>,
    trials: Seq<(Vec<usize>, i64)>,
    num_breaks: nat,
    data: Seq<i64>,
    score: F,
) -> bool {
    &&& ascending(sorted)
    &&& sorted.to_multiset() == data.to_multiset()
    &&& trials.len() == trials_for(data.len() as int)
    &&& forall|t: int|
        0 <= t < trials.len() ==> {
            &&& (#[trigger] trials[t]).0@.len() == num_breaks
            &&& cuts_between_runs(trials[t].0@, sorted)
            &&& call_ensures(score, (&trials[t].0,), trials[t].1)
        }
}

/// `breaks` is what a search for `num_bins` bins over `data` returns, for
/// some outcome of its random draws: nothing where a single bin is formed,
/// else the keys at the boundaries of the best candidate of its trials.
pub open spec fn is_search_outcome<F: Fn(&Vec<usize>) -> i64>(
    breaks: Seq<i64>,
    num_bins: int,
    data: Seq<i64>,
    score: F,
) -> bool {
    let num_breaks = (effective_bins(num_bins, data) - 1) as nat;
    if num_breaks == 0 {
        breaks.len() == 0
    } else {
        exists|sorted: Seq<i64>, trials: Seq<(Vec<usize>, i64)>| #[trigger]
            records_search(sorted, trials, num_breaks, data, score) && breaks == keys_at(
                sorted,
                best_after(trials, num_breaks).0,
            )
    }
}

/// What holds of every list of breaks that a search returns for `num_bins`
/// bins over `data`: it has one break fewer than there are bins, every break
/// is a key of the data, and the breaks either grow from one to the next, all
/// above the least key, or every place holds the least key. The second happens
/// only where no candidate scored above `START_SCORE`.
pub open spec fn is_break_list(breaks: Seq<i64>, num_bins: int, data: Seq<i64>) -> bool {
    &&& breaks.len() == effective_bins(num_bins, data) - 1
    &&& forall|i: int| 0 <= i < breaks.len() ==> data.contains(#[trigger] breaks[i])
    &&& {
        ||| {
            &&& strictly_ascending(breaks)
            &&& forall|i: int|
                0 <= i < breaks.len() ==> exists|x: i64|
                    data.contains(x) && x < #[trigger] breaks[i]
        }
        ||| forall|i: int, x: i64|
            0 <= i < breaks.len() && #[trigger] data.contains(x) ==> #[trigger] breaks[i] <= x
    }
}

/// The scorer never returns a score at or below `START_SCORE`.
pub open spec fn always_above_start<F: Fn(&Vec<usize>) -> i64>(score: F) -> bool {
    forall|candidate: &Vec<usize>, s: i64|
        call_ensures(score, (candidate,), s) ==> s > START_SCORE
}

/// Finds the breaks of a classification of `data` into `num_bins` bins.
///
/// The observations are given as keys that order as the observed values do,
/// in any order. The data is sorted and its runs of equal keys are indexed;
/// the number of bins is capped at the number of different keys. Then
/// `trials_for(data.len())` random boundary sets are drawn from a generator
/// seeded with `SEED`, each cutting between runs, and each is handed to
/// `score`, which measures how well the boundaries fit the data in ascending
/// order (larger is better). The first candidate with the greatest score above
/// `START_SCORE` wins, and the keys at its boundaries are returned. With a
/// single bin nothing is drawn or scored.
///
/// Empty data and a bin count of zero are refused.
pub fn get_jenks_breaks<F: Fn(&Vec<usize>) -> i64>(
    num_bins: &usize,
    data: &Vec<i64>,
    score: F,
) -> (result: Result<Vec<i64>, JenksError>)
    requires
        forall|candidate: &Vec<usize>|
            valid_boundaries(candidate@, data@.len() as int) && candidate@.len()
                == effective_bins(*num_bins as int, data@) - 1 ==> call_requires(
                score,
                (candidate,),
            ),
    ensures
        data@.len() == 0 ==> result is Err && result->Err_0 == JenksError::EmptyData,
        data@.len() > 0 && *num_bins == 0 ==> result is Err && result->Err_0
            == JenksError::ZeroBins,
        data@.len() > 0 && *num_bins > 0 ==> result is Ok && is_break_list(
            result->Ok_0@,
            *num_bins as int,
            data@,
        ) && is_search_outcome(result->Ok_0@, *num_bins as int, data@, score),
        data@.len() > 0 && *num_bins > 0 && always_above_start(score) ==> strictly_ascending(
            result->Ok_0@,
        ),
{
    let num_vals: usize = data.len();
    if num_vals == 0 {
        return Err(JenksError::EmptyData);
    }
    if *num_bins == 0 {
        return Err(JenksError::ZeroBins);
    }
    let sorted_data: Vec<i64> = sorted_copy(data);
    let mut unique_val_map: Vec<UniqueVal> = Vec::new();
    create_unique_val_mapping(&mut unique_val_map, &sorted_data);
    let num_unique_vals: usize = unique_val_map.len();
    let true_num_bins: usize = if num_unique_vals < *num_bins {
        num_unique_vals
    } else {
        *num_bins
    };
    let num_breaks: usize = true_num_bins - 1;
    if num_breaks == 0 {
        return Ok(Vec::new());
    }
    let trials: usize = trial_count(num_vals);
    let mut pseudo_rng: StdRng = seeded_rng(SEED);
    let mut unique_rand_breaks: Vec<usize> = vec![0usize; num_breaks];
    let mut rand_breaks: Vec<usize> = vec![0usize; num_breaks];
    let mut best_breaks: Vec<usize> = vec![0usize; num_breaks];
    let mut best_score: i64 = START_SCORE;
    let mut trial: usize = 0;
    let ghost mut record: Seq<(Vec<usize>, i64)> = Seq::empty();
    while trial < trials
        invariant
            trial <= trials,
            record.len() == trial,
            forall|t: int|
                0 <= t < record.len() ==> {
                    &&& (#[trigger] record[t]).0@.len() == num_breaks
                    &&& cuts_between_runs(record[t].0@, sorted_data@)
                    &&& call_ensures(score, (&record[t].0,), record[t].1)
                },
            best_after(record, num_breaks as nat) == (best_breaks@, best_score),
            num_vals == data@.len(),
            sorted_data@.len() == num_vals,
            ascending(sorted_data@),
            is_run_mapping(unique_val_map@, sorted_data@),
            num_unique_vals == unique_val_map@.len(),
            num_breaks + 1 <= num_unique_vals,
            num_breaks == effective_bins(*num_bins as int, data@) - 1,
            unique_rand_breaks@.len() == num_breaks,
            best_breaks@.len() == num_breaks,
            best_score >= START_SCORE,
            best_score == START_SCORE ==> forall|i: int|
                0 <= i < num_breaks ==> #[trigger] best_breaks@[i] == 0,
            best_score > START_SCORE ==> cuts_between_runs(best_breaks@, sorted_data@),
            trial > 0 && always_above_start(score) ==> best_score > START_SCORE,
            forall|candidate: &Vec<usize>|
                valid_boundaries(candidate@, data@.len() as int) && candidate@.len()
                    == effective_bins(*num_bins as int, data@) - 1 ==> call_requires(
                    score,
                    (candidate,),
                ),
        decreases trials - trial,
    {
        pick_rand_breaks(&mut unique_rand_breaks, &num_unique_vals, &mut pseudo_rng);
        unique_to_normal_breaks(&unique_rand_breaks, &unique_val_map, &mut rand_breaks);
        proof {
            lemma_translated_boundaries(
                unique_rand_breaks@,
                unique_val_map@,
                sorted_data@,
                rand_breaks@,
            );
        }
        let new_score: i64 = score(&rand_breaks);
        keep_best(&mut best_breaks, &mut best_score, &rand_breaks, new_score);
        proof {
            let ghost longer = record.push((rand_breaks, new_score));
            assert(longer.drop_last() =~= record);
            assert(longer.last() == (rand_breaks, new_score));
            record = longer;
        }
        trial += 1;
    }
    let nat_breaks: Vec<i64> = break_values(&sorted_data, &best_breaks);
    proof {
        assert(records_search(sorted_data@, record, num_breaks as nat, data@, score));
        if best_score > START_SCORE {
            lemma_keys_at_run_starts(best_breaks@, sorted_data@);
            assert forall|i: int| 0 <= i < nat_breaks@.len() implies exists|x: i64|
                data@.contains(x) && x < #[trigger] nat_breaks@[i] by {
                assert(sorted_data@.contains(sorted_data@[0]));
                assert(data@.contains(sorted_data@[0]) && sorted_data@[0] < nat_breaks@[i]);
            }
        } else {
            assert forall|i: int, x: i64|
                0 <= i < nat_breaks@.len() && #[trigger] data@.contains(x) implies #[trigger] nat_breaks@[i]
                <= x by {
                assert(best_breaks@[i] == 0);
                assert(sorted_data@.contains(x));
                let at = choose|at: int| 0 <= at < sorted_data@.len() && sorted_data@[at] == x;
                assert(sorted_data@[0] <= sorted_data@[at]);
            }
            assert forall|i: int| 0 <= i < nat_breaks@.len() implies data@.contains(
                #[trigger] nat_breaks@[i],
            ) by {
                assert(best_breaks@[i] == 0);
                assert(sorted_data@.contains(sorted_data@[0]));
            }
        }
    }
    Ok(nat_breaks)
}

/// The best candidate of a run of trials has the greatest score of all, and
/// where that score is above `START_SCORE` it is the first trial with that
/// score: on a tie the earlier candidate wins.
pub proof fn lemma_best_is_first_greatest(trials: Seq<(Vec<usize>, i64)>, num_breaks: nat)
    ensures
        best_after(trials, num_breaks).1 >= START_SCORE,
        forall|t: int| 0 <= t < trials.len() ==> (#[trigger] trials[t]).1 <= best_after(
            trials,
            num_breaks,
        ).1,
        best_after(trials, num_breaks).1 == START_SCORE ==> best_after(trials, num_breaks).0
            == no_breaks_yet(num_breaks),
        best_after(trials, num_breaks).1 > START_SCORE ==> exists|t: int|
            {
                &&& 0 <= t < trials.len()
                &&& (#[trigger] trials[t]).0@ == best_after(trials, num_breaks).0
                &&& trials[t].1 == best_after(trials, num_breaks).1
                &&& forall|u: int| 0 <= u < t ==> (#[trigger] trials[u]).1 < trials[t].1
            },
    decreases trials.len(),
{
    if trials.len() > 0 {
        let shorter = trials.drop_last();
        let earlier = best_after(shorter, num_breaks);
        lemma_best_is_first_greatest(shorter, num_breaks);
        assert forall|t: int| 0 <= t < trials.len() implies (#[trigger] trials[t]).1
            <= best_after(trials, num_breaks).1 by {
            if t < shorter.len() {
                assert(shorter[t] == trials[t]);
            }
        }
        if best_after(trials, num_breaks).1 > START_SCORE {
            if trials.last().1 > earlier.1 {
                let t = trials.len() - 1;
                assert forall|u: int| 0 <= u < t implies (#[trigger] trials[u]).1
                    < trials[t].1 by {
                    assert(shorter[u] == trials[u]);
                }
            } else {
                let t = choose|t: int|
                    {
                        &&& 0 <= t < shorter.len()
                        &&& (#[trigger] shorter[t]).0@ == earlier.0
                        &&& shorter[t].1 == earlier.1
                        &&& forall|u: int| 0 <= u < t ==> (#[trigger] shorter[u]).1 < shorter[t].1
                    };
                assert(trials[t] == shorter[t]);
                assert forall|u: int| 0 <= u < t implies (#[trigger] trials[u]).1
                    < trials[t].1 by {
                    assert(shorter[u] == trials[u]);
                }
            }
        }
    }
}

/// The breaks of a search are fixed by its data and its trials: two searches
/// over data sets with the same items, each as often, whose trials drew the
/// same candidates and got the same scores, return the same breaks.
pub proof fn lemma_same_trials_same_breaks<F: Fn(&Vec<usize>) -> i64>(
    trials: Seq<(Vec<usize>, i64)>,
    num_breaks: nat,
    first_data: Seq<i64>,
    first_sorted: Seq<i64>,
    second_data: Seq<i64>,
    second_sorted: Seq<i64>,
    score: F,
)
    requires
        first_data.to_multiset() == second_data.to_multiset(),
        records_search(first_sorted, trials, num_breaks, first_data, score),
        records_search(second_sorted, trials, num_breaks, second_data, score),
    ensures
        keys_at(first_sorted, best_after(trials, num_breaks).0) == keys_at(
            second_sorted,
            best_after(trials, num_breaks).0,
        ),
{
    lemma_ascending_unique(first_sorted, second_sorted);
}

/// Data that is not empty has at least one key, and no more different keys
/// than observations.
pub proof fn lemma_distinct_count_bounds(data: Seq<i64>)
    requires
        data.len() > 0,
    ensures
        1 <= distinct_count(data) <= data.len(),
{
    vstd::seq_lib::seq_to_set_is_finite(data);
    assert(data.to_set().contains(data[0]));
    vstd::set::axiom_set_contains_len(data.to_set(), data[0]);
    data.lemma_cardinality_of_set();
}

/// A single bin is formed, and so no break, where one bin is asked for or
/// where all observations have the same key.
pub proof fn lemma_single_bin(num_bins: int, data: Seq<i64>)
    requires
        data.len() > 0,
        num_bins >= 1,
        num_bins == 1 || forall|i: int, j: int|
            0 <= i < data.len() && 0 <= j < data.len() ==> data[i] == data[j],
    ensures
        effective_bins(num_bins, data) == 1,
        forall|breaks: Seq<i64>| #[trigger] is_break_list(breaks, num_bins, data) ==> breaks.len() == 0,
{
    lemma_distinct_count_bounds(data);
    if num_bins != 1 {
        assert(data.to_set() =~= set![data[0]]) by {
            assert forall|x: i64| data.to_set().contains(x) implies x == data[0] by {
                let i = choose|i: int| 0 <= i < data.len() && data[i] == x;
                assert(data[i] == data[0]);
            }
            assert(data.to_set().contains(data[0]));
        }
        assert(set![data[0]].len() == 1) by {
            broadcast use vstd::set::group_set_axioms;
        }
    }
}

/// Where at least as many bins are asked for as there are different keys,
/// there is one bin for each key; and breaks of which the first is not the
/// least key are then exactly the keys of the data other than the least.
pub proof fn lemma_one_bin_per_key(breaks: Seq<i64>, num_bins: int, data: Seq<i64>)
    requires
        data.len() > 0,
        num_bins >= distinct_count(data),
        is_break_list(breaks, num_bins, data),
    ensures
        effective_bins(num_bins, data) == distinct_count(data),
        breaks.len() == distinct_count(data) - 1,
        breaks.len() > 0 && (exists|x: i64| data.contains(x) && x < breaks[0]) ==> forall|x: i64| #[trigger]
            data.contains(x) ==> (breaks.contains(x) <==> !is_least(data, x)),
{
    lemma_distinct_count_bounds(data);
    if breaks.len() > 0 && (exists|x: i64| data.contains(x) && x < breaks[0]) {
        let below = choose|x: i64| data.contains(x) && x < breaks[0];
        assert(strictly_ascending(breaks)) by {
            if !strictly_ascending(breaks) {
                assert(breaks[0] <= below);
            }
        }
        assert forall|i: int| 0 <= i < breaks.len() implies below < #[trigger] breaks[i] by {
            if i > 0 {
                assert(breaks[0] < breaks[i]);
            }
        }
        let all = data.to_set();
        vstd::seq_lib::seq_to_set_is_finite(data);
        vstd::seq_lib::seq_to_set_is_finite(breaks);
        assert(breaks.no_duplicates()) by {
            assert forall|i: int, j: int|
                0 <= i < breaks.len() && 0 <= j < breaks.len() && i != j implies breaks[i]
                != breaks[j] by {
                if i < j {
                    assert(breaks[i] < breaks[j]);
                } else {
                    assert(breaks[j] < breaks[i]);
                }
            }
        }
        breaks.unique_seq_to_set();
        lemma_has_least(data);
        let least = choose|m: i64| is_least(data, m);
        let rest = all.remove(least);
        assert(breaks.to_set().subset_of(rest)) by {
            assert forall|x: i64| breaks.to_set().contains(x) implies rest.contains(x) by {
                let i = choose|i: int| 0 <= i < breaks.len() && breaks[i] == x;
                assert(data.contains(breaks[i]));
                assert(below < breaks[i]);
            }
        }
        vstd::set::axiom_set_remove_finite(all, least);
        vstd::set::axiom_set_remove_len(all, least);
        vstd::set_lib::lemma_subset_equality(breaks.to_set(), rest);
        assert forall|x: i64| #[trigger] data.contains(x) implies (breaks.contains(x)
            <==> !is_least(data, x)) by {
            if breaks.contains(x) {
                let i = choose|i: int| 0 <= i < breaks.len() && breaks[i] == x;
                assert(below < breaks[i]);
            } else {
                assert(!breaks.to_set().contains(x));
                assert(all.contains(x));
                assert(x == least);
            }
        }
    }
}

} // verus!
