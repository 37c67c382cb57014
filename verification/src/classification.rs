//! The classification builder: turns a list of breaks into labelled bins
//! with the number of observations in each.

use crate::search::{
    effective_bins, get_jenks_breaks, is_break_list, is_search_outcome, JenksError,
};
use crate::order::{ascending, is_greatest, is_least, strictly_ascending};
use crate::partition::valid_boundaries;
use vstd::prelude::*;

verus! {

/// One bin of a classification.
#[derive(Clone, Copy, Debug, PartialEq, Eq)]
pub struct Bin {
    /// The key at which the bin starts: the least key of the data for the
    /// first bin, else the break before the bin.
    pub bin_start: i64,
    /// The key at which the bin ends: the greatest key of the data for the
    /// last bin, else the break behind the bin.
    pub bin_end: i64,
    /// The number of observations in the bin.
    pub count: usize,
}

/// The bins of a data set, in ascending order.
#[derive(Clone, Debug, PartialEq, Eq)]
pub struct Classification {
    pub bins: Vec<Bin>,
}

/// `key` falls in bin `i`: it is at or above the break before the bin and
/// below the break behind it. A break is thus the least key that its bin can
/// hold; the first bin has no lower limit and the last no upper one.
pub open spec fn in_bin(breaks: Seq<i64>, i: int, key: i64) -> bool {
    &&& i == 0 || breaks[i - 1] <= key
    &&& i == breaks.len() || key < breaks[i]
}

/// The number of observations that fall in bin `i`.
pub open spec fn count_in_bin(data: Seq<i64>, breaks: Seq<i64>, i: int) -> nat
    decreases data.len(),
{
    if data.len() == 0 {
        0
    } else {
        count_in_bin(data.drop_last(), breaks, i) + if in_bin(breaks, i, data.last()) {
            1nat
        } else {
            0nat
        }
    }
}

/// The bins are the classification of `data` that `breaks` defines: one bin
/// more than there are breaks, each from its lower limit to its upper limit,
/// with the number of observations that fall in it.
pub open spec fn is_classification_of(bins: Seq<Bin>, breaks: Seq<i64>, data: Seq<i64>) -> bool {
    &&& bins.len() == breaks.len() + 1
    &&& is_least(data, bins[0].bin_start)
    &&& is_greatest(data, bins.last().bin_end)
    &&& forall|i: int| 0 < i < bins.len() ==> (#[trigger] bins[i]).bin_start == breaks[i - 1]
    &&& forall|i: int| 0 <= i < bins.len() - 1 ==> (#[trigger] bins[i]).bin_end == breaks[i]
    &&& forall|i: int|
        0 <= i < bins.len() ==> (#[trigger] bins[i]).count == count_in_bin(data, breaks, i)
}

/// Counts the observations that fall in bin `i`.
fn count_bin(data: &Vec<i64>, breaks: &Vec<i64>, i: usize) -> (count: usize)
    requires
        i <= breaks@.len(),
    ensures
        count == count_in_bin(data@, breaks@, i as int),
{
    let mut count: usize = 0;
    let mut at: usize = 0;
    while at < data.len()
        invariant
            at <= data@.len(),
            i <= breaks@.len(),
            count == count_in_bin(data@.take(at as int), breaks@, i as int),
            count <= at,
        decreases data@.len() - at,
    {
        let key: i64 = data[at];
        let above: bool = i == 0 || breaks[i - 1] <= key;
        let below: bool = i == breaks.len() || key < breaks[i];
        proof {
            let longer = data@.take(at + 1);
            assert(longer.drop_last() =~= data@.take(at as int));
            assert(longer.last() == key);
        }
        if above && below {
            count += 1;
        }
        at += 1;
    }
    assert(data@.take(data@.len() as int) =~= data@);
    count
}

/// Builds the classification of `data` that `breaks` defines. The data may
/// be in any order.
pub fn breaks_to_classification(breaks: &Vec<i64>, data: &Vec<i64>) -> (result: Classification)
    requires
        data@.len() > 0,
    ensures
        is_classification_of(result.bins@, breaks@, data@),
{
    let mut least: i64 = data[0];
    let mut greatest: i64 = data[0];
    let mut at: usize = 1;
    while at < data.len()
        invariant
            1 <= at <= data@.len(),
            exists|l: int| 0 <= l < at && data@[l] == least,
            exists|g: int| 0 <= g < at && data@[g] == greatest,
            forall|k: int| 0 <= k < at ==> least <= #[trigger] data@[k] && data@[k] <= greatest,
        decreases data@.len() - at,
    {
        let key: i64 = data[at];
        if key < least {
            least = key;
        }
        if key > greatest {
            greatest = key;
        }
        at += 1;
    }
    proof {
        assert forall|y: i64| data@.contains(y) implies least <= y && y <= greatest by {
            let k = choose|k: int| 0 <= k < data@.len() && data@[k] == y;
            assert(least <= data@[k] && data@[k] <= greatest);
        }
    }
    let mut bins: Vec<Bin> = Vec::new();
    let mut i: usize = 0;
    while i < breaks.len()
        invariant
            i <= breaks@.len(),
            bins@.len() == i,
            i > 0 ==> bins@[0].bin_start == least,
            forall|k: int| 0 < k < i ==> (#[trigger] bins@[k]).bin_start == breaks@[k - 1],
            forall|k: int| 0 <= k < i ==> (#[trigger] bins@[k]).bin_end == breaks@[k],
            forall|k: int|
                0 <= k < i ==> (#[trigger] bins@[k]).count == count_in_bin(data@, breaks@, k),
        decreases breaks@.len() - i,
    {
        let bin_start: i64 = if i == 0 {
            least
        } else {
            breaks[i - 1]
        };
        let count: usize = count_bin(data, breaks, i);
        bins.push(Bin { bin_start, bin_end: breaks[i], count });
        i += 1;
    }
    let bin_start: i64 = if i == 0 {
        least
    } else {
        breaks[i - 1]
    };
    let count: usize = count_bin(data, breaks, i);
    bins.push(Bin { bin_start, bin_end: greatest, count });
    Classification { bins }
}

/// The number of observations in all the bins together.
pub open spec fn bin_total(bins: Seq<Bin>) -> nat
    decreases bins.len(),
{
    if bins.len() == 0 {
        0
    } else {
        bin_total(bins.drop_last()) + bins.last().count as nat
    }
}

/// The number of bins among the first `upto` that `key` falls in.
pub open spec fn bins_holding(breaks: Seq<i64>, key: i64, upto: int) -> nat
    decreases upto,
{
    if upto <= 0 {
        0
    } else {
        bins_holding(breaks, key, upto - 1) + if in_bin(breaks, upto - 1, key) {
            1nat
        } else {
            0nat
        }
    }
}

/// The number of observations that fall in the first `upto` bins, each
/// counted once for every bin that holds it.
pub open spec fn count_in_bins(data: Seq<i64>, breaks: Seq<i64>, upto: int) -> nat
    decreases upto,
{
    if upto <= 0 {
        0
    } else {
        count_in_bins(data, breaks, upto - 1) + count_in_bin(data, breaks, upto - 1)
    }
}

/// Where the breaks never decrease, every key falls in exactly one bin: the
/// first whose upper limit is above it.
pub proof fn lemma_one_bin_holds(breaks: Seq<i64>, key: i64, upto: int)
    requires
        ascending(breaks),
        1 <= upto <= breaks.len() + 1,
    ensures
        bins_holding(breaks, key, upto) == (if upto - 1 == breaks.len() || key < breaks[upto
            - 1] {
            1nat
        } else {
            0nat
        }),
        bins_holding(breaks, key, breaks.len() as int + 1) == 1 ==> exists|i: int|
            0 <= i <= breaks.len() && in_bin(breaks, i, key),
    decreases upto,
{
    if upto > 1 {
        lemma_one_bin_holds(breaks, key, upto - 1);
        if upto - 1 < breaks.len() {
            assert(breaks[upto - 2] <= breaks[upto - 1]);
        }
    } else {
        assert(bins_holding(breaks, key, 0) == 0);
    }
    if bins_holding(breaks, key, breaks.len() as int + 1) == 1 {
        lemma_some_bin_holds(breaks, key, breaks.len() as int + 1);
    }
}

proof fn lemma_some_bin_holds(breaks: Seq<i64>, key: i64, upto: int)
    requires
        bins_holding(breaks, key, upto) > 0,
        upto <= breaks.len() + 1,
    ensures
        exists|i: int| 0 <= i < upto && in_bin(breaks, i, key),
    decreases upto,
{
    if upto > 0 {
        if !in_bin(breaks, upto - 1, key) {
            lemma_some_bin_holds(breaks, key, upto - 1);
        }
    }
}

proof fn lemma_count_step(data: Seq<i64>, breaks: Seq<i64>, upto: int)
    requires
        data.len() > 0,
    ensures
        count_in_bins(data, breaks, upto) == count_in_bins(data.drop_last(), breaks, upto)
            + bins_holding(breaks, data.last(), upto),
    decreases upto,
{
    if upto > 0 {
        lemma_count_step(data, breaks, upto - 1);
    }
}

/// Where the breaks never decrease, the bins hold every observation once:
/// their counts add up to the number of observations.
pub proof fn lemma_counts_add_up(data: Seq<i64>, breaks: Seq<i64>)
    requires
        ascending(breaks),
    ensures
        count_in_bins(data, breaks, breaks.len() as int + 1) == data.len(),
    decreases data.len(),
{
    let all = breaks.len() as int + 1;
    if data.len() == 0 {
        assert(data =~= Seq::<i64>::empty());
        lemma_no_data_no_count(breaks, all);
    } else {
        lemma_counts_add_up(data.drop_last(), breaks);
        lemma_count_step(data, breaks, all);
        lemma_one_bin_holds(breaks, data.last(), all);
    }
}

proof fn lemma_no_data_no_count(breaks: Seq<i64>, upto: int)
    ensures
        count_in_bins(Seq::<i64>::empty(), breaks, upto) == 0,
    decreases upto,
{
    if upto > 0 {
        lemma_no_data_no_count(breaks, upto - 1);
    }
}

proof fn lemma_bin_total(bins: Seq<Bin>, breaks: Seq<i64>, data: Seq<i64>, upto: int)
    requires
        0 <= upto <= bins.len(),
        forall|i: int|
            0 <= i < bins.len() ==> (#[trigger] bins[i]).count == count_in_bin(data, breaks, i),
    ensures
        bin_total(bins.take(upto)) == count_in_bins(data, breaks, upto),
    decreases upto,
{
    if upto > 0 {
        lemma_bin_total(bins, breaks, data, upto - 1);
        assert(bins.take(upto).drop_last() =~= bins.take(upto - 1));
        assert(bins.take(upto).last() == bins[upto - 1]);
    }
}

/// In the classification that never-decreasing breaks define, the counts of
/// the bins add up to the number of observations.
pub proof fn lemma_classification_counts_all(bins: Seq<Bin>, breaks: Seq<i64>, data: Seq<i64>)
    requires
        is_classification_of(bins, breaks, data),
        ascending(breaks),
    ensures
        bin_total(bins) == data.len(),
{
    lemma_bin_total(bins, breaks, data, bins.len() as int);
    assert(bins.take(bins.len() as int) =~= bins);
    lemma_counts_add_up(data, breaks);
}

/// Classifies `data` into `num_bins` bins: finds the breaks as
/// `get_jenks_breaks` does, with the same scorer, and builds the bins that
/// they define.
pub fn get_jenks_classification<F: Fn(&Vec<usize>) -> i64>(
    num_bins: &usize,
    data: &Vec<i64>,
    score: F,
) -> (result: Result<Classification, JenksError>)
    requires
        forall|candidate: &Vec<usize>|
            valid_boundaries(candidate@, data@.len() as int) && candidate@.len()
                == effective_bins(*num_bins as int, data@) - 1 ==> call_requires(
                score,
                (candidate,),
            ),
    ensures
        data@.len() == 0 ==> result is Err && result->Err_0 == JenksError::EmptyData,
        data@.len() > 0 && *num_bins == 0 ==> result is Err && result->Err_0
            == JenksError::ZeroBins,
        data@.len() > 0 && *num_bins > 0 ==> result is Ok && is_jenks_classification(
            result->Ok_0.bins@,
            *num_bins as int,
            data@,
            score,
        ),
{
    match get_jenks_breaks(num_bins, data, score) {
        Ok(breaks) => {
            proof {
                lemma_breaks_never_decrease(breaks@, *num_bins as int, data@);
            }
            let classification = breaks_to_classification(&breaks, data);
            proof {
                lemma_classification_counts_all(classification.bins@, breaks@, data@);
            }
            Ok(classification)
        },
        Err(error) => Err(error),
    }
}

/// The bins are a classification of `data` into `num_bins` bins: the bins
/// that the breaks of some search outcome define. There are as many bins as
/// are formed, and their counts add up to the number of observations.
pub open spec fn is_jenks_classification<F: Fn(&Vec<usize>) -> i64>(
    bins: Seq<Bin>,
    num_bins: int,
    data: Seq<i64>,
    score: F,
) -> bool {
    &&& bins.len() == effective_bins(num_bins, data)
    &&& bin_total(bins) == data.len()
    &&& exists|breaks: Seq<i64>|
        {
            &&& is_break_list(breaks, num_bins, data)
            &&& is_search_outcome(breaks, num_bins, data, score)
            &&& #[trigger] is_classification_of(bins, breaks, data)
        }
}

/// The breaks of a search never decrease.
pub proof fn lemma_breaks_never_decrease(breaks: Seq<i64>, num_bins: int, data: Seq<i64>)
    requires
        is_break_list(breaks, num_bins, data),
    ensures
        ascending(breaks),
{
    if !strictly_ascending(breaks) {
        assert forall|i: int, j: int| 0 <= i <= j < breaks.len() implies breaks[i]
            <= breaks[j] by {
            assert(data.contains(breaks[j]));
        }
    }
}

} // verus!
