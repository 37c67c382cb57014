//! The unique-value index: the runs of equal keys in ascending data, and the
//! translation of positions among the runs into positions in the data.

use crate::order::{ascending, distinct_count};
use crate::partition::{cuts_between_runs, valid_boundaries};
use vstd::prelude::*;

verus! {

/// One run of equal keys in ascending data.
#[derive(Clone, Copy, Debug, PartialEq, Eq)]
pub struct UniqueVal {
    /// The key that the run repeats.
    pub value: i64,
    /// The position in the data at which the run starts.
    pub start_index: usize,
    /// The number of observations in the run.
    pub count: usize,
}

/// The runs tile the first `upto` observations of `data`: the first run
/// starts at position 0, each later run starts where the one before it ends,
/// the last ends at `upto`, no run is empty, each run repeats its own key, and
/// the keys grow from run to run.
pub open spec fn tiles_prefix(runs: Seq<UniqueVal>, data: Seq<i64>, upto: int) -> bool {
    &&& 0 <= upto <= data.len()
    &&& runs.len() == 0 <==> upto == 0
    &&& runs.len() > 0 ==> runs[0].start_index == 0
    &&& runs.len() > 0 ==> runs.last().start_index + runs.last().count == upto
    &&& forall|k: int| 0 <= k < runs.len() ==> (#[trigger] runs[k]).count >= 1
    &&& forall|j: int, k: int|
        0 <= j && j + 1 == k && k < runs.len() ==> (#[trigger] runs[k]).start_index == (
        #[trigger] runs[j]).start_index + runs[j].count
    &&& forall|j: int, k: int|
        0 <= j && j + 1 == k && k < runs.len() ==> (#[trigger] runs[j]).value < (
        #[trigger] runs[k]).value
    &&& forall|k: int, i: int|
        0 <= k < runs.len() && runs[k].start_index <= i < runs[k].start_index + runs[k].count
            ==> #[trigger] data[i] == (#[trigger] runs[k]).value
}

/// The runs are the unique-value index of `data`: they tile all of it.
pub open spec fn is_run_mapping(runs: Seq<UniqueVal>, data: Seq<i64>) -> bool {
    tiles_prefix(runs, data, data.len() as int)
}

/// In a tiling, every run ends within the tiled prefix.
pub proof fn lemma_run_within(runs: Seq<UniqueVal>, data: Seq<i64>, upto: int, k: int)
    requires
        tiles_prefix(runs, data, upto),
        0 <= k < runs.len(),
    ensures
        runs[k].start_index + runs[k].count <= upto,
        runs[k].start_index < upto,
    decreases runs.len() - k,
{
    assert(runs[k].count >= 1);
    if k + 1 < runs.len() {
        lemma_run_within(runs, data, upto, k + 1);
        assert(runs[k + 1].start_index == runs[k].start_index + runs[k].count);
    }
}

/// In a tiling, a later run starts at or after the end of an earlier one and
/// repeats a greater key.
pub proof fn lemma_runs_ordered(runs: Seq<UniqueVal>, data: Seq<i64>, upto: int, j: int, k: int)
    requires
        tiles_prefix(runs, data, upto),
        0 <= j < k < runs.len(),
    ensures
        runs[j].start_index + runs[j].count <= runs[k].start_index,
        runs[j].value < runs[k].value,
    decreases k - j,
{
    assert(runs[k - 1].count >= 1);
    assert(runs[k].start_index == runs[k - 1].start_index + runs[k - 1].count);
    assert(runs[k - 1].value < runs[k].value);
    if j < k - 1 {
        lemma_runs_ordered(runs, data, upto, j, k - 1);
    }
}

/// In a tiling, a run other than the first starts inside the tiled prefix,
/// just behind an observation with a smaller key.
pub proof fn lemma_run_start(runs: Seq<UniqueVal>, data: Seq<i64>, upto: int, k: int)
    requires
        tiles_prefix(runs, data, upto),
        0 < k < runs.len(),
    ensures
        1 <= runs[k].start_index < upto,
        data[runs[k].start_index - 1] == runs[k - 1].value,
        data[runs[k].start_index as int] == runs[k].value,
        data[runs[k].start_index - 1] < data[runs[k].start_index as int],
{
    lemma_run_within(runs, data, upto, k);
    assert(runs[k].count >= 1);
    assert(runs[k - 1].count >= 1);
    assert(runs[k].start_index == runs[k - 1].start_index + runs[k - 1].count);
    assert(runs[k - 1].value < runs[k].value);
    let before = runs[k].start_index - 1;
    assert(runs[k - 1].start_index <= before < runs[k - 1].start_index + runs[k - 1].count);
    assert(data[before] == runs[k - 1].value);
    assert(data[runs[k].start_index as int] == runs[k].value);
}

/// In a tiling, every tiled position lies in a run: the runs cover the
/// prefix. `from` is a run that starts at or before the position.
pub proof fn lemma_position_in_run(
    runs: Seq<UniqueVal>,
    data: Seq<i64>,
    upto: int,
    position: int,
    from: int,
)
    requires
        tiles_prefix(runs, data, upto),
        0 <= from < runs.len(),
        runs[from].start_index <= position < upto,
    ensures
        exists|k: int|
            from <= k < runs.len() && (#[trigger] runs[k]).start_index <= position
                < runs[k].start_index + runs[k].count,
    decreases runs.len() - from,
{
    if position >= runs[from].start_index + runs[from].count {
        assert(from + 1 < runs.len()) by {
            if from + 1 == runs.len() {
                assert(runs.last() == runs[from]);
            }
        }
        assert(runs[from + 1].start_index == runs[from].start_index + runs[from].count);
        lemma_position_in_run(runs, data, upto, position, from + 1);
    }
}

/// Data has one unique-value index: two run lists that both tile it agree
/// run for run.
pub proof fn lemma_run_mapping_unique(a: Seq<UniqueVal>, b: Seq<UniqueVal>, data: Seq<i64>)
    requires
        is_run_mapping(a, data),
        is_run_mapping(b, data),
    ensures
        a == b,
{
    let upto = data.len() as int;
    assert forall|k: int| 0 <= k < a.len() && k < b.len() implies a[k] == b[k] by {
        lemma_runs_agree(a, b, data, k);
    }
    lemma_no_run_beyond(a, b, data);
    lemma_no_run_beyond(b, a, data);
    assert(a =~= b);
}

proof fn lemma_runs_agree(a: Seq<UniqueVal>, b: Seq<UniqueVal>, data: Seq<i64>, k: int)
    requires
        is_run_mapping(a, data),
        is_run_mapping(b, data),
        0 <= k < a.len(),
        k < b.len(),
    ensures
        a[k] == b[k],
    decreases k,
{
    let upto = data.len() as int;
    if k > 0 {
        lemma_runs_agree(a, b, data, k - 1);
        assert(a[k].start_index == a[k - 1].start_index + a[k - 1].count);
        assert(b[k].start_index == b[k - 1].start_index + b[k - 1].count);
    }
    let start = a[k].start_index as int;
    assert(b[k].start_index == start);
    assert(a[k].count >= 1 && b[k].count >= 1);
    lemma_run_within(a, data, upto, k);
    lemma_run_within(b, data, upto, k);
    assert(data[start] == a[k].value);
    assert(data[start] == b[k].value);
    lemma_run_length(a, b, data, k);
    lemma_run_length(b, a, data, k);
}

proof fn lemma_run_length(a: Seq<UniqueVal>, b: Seq<UniqueVal>, data: Seq<i64>, k: int)
    requires
        is_run_mapping(a, data),
        is_run_mapping(b, data),
        0 <= k < a.len(),
        k < b.len(),
        a[k].start_index == b[k].start_index,
        a[k].value == b[k].value,
    ensures
        a[k].count >= b[k].count,
{
    let upto = data.len() as int;
    if a[k].count < b[k].count {
        let next = a[k].start_index + a[k].count;
        lemma_run_within(b, data, upto, k);
        assert(b[k].start_index <= next < b[k].start_index + b[k].count);
        assert(data[next] == b[k].value);
        assert(k + 1 < a.len()) by {
            if k + 1 == a.len() {
                assert(a.last() == a[k]);
            }
        }
        lemma_run_start(a, data, upto, k + 1);
        assert(a[k + 1].start_index == next);
        assert(a[k].value < a[k + 1].value);
    }
}

proof fn lemma_no_run_beyond(a: Seq<UniqueVal>, b: Seq<UniqueVal>, data: Seq<i64>)
    requires
        is_run_mapping(a, data),
        is_run_mapping(b, data),
        forall|k: int| 0 <= k < a.len() && k < b.len() ==> a[k] == b[k],
    ensures
        a.len() >= b.len(),
{
    let upto = data.len() as int;
    if 0 < a.len() < b.len() {
        let last = a.len() - 1;
        assert(a.last() == a[last]);
        assert(a[last] == b[last]);
        assert(b[last + 1].start_index == b[last].start_index + b[last].count);
        lemma_run_within(b, data, upto, last + 1);
    }
}

/// The number of runs in a tiling of ascending data is the number of
/// different keys among the tiled observations.
pub proof fn lemma_run_count(runs: Seq<UniqueVal>, data: Seq<i64>, upto: int)
    requires
        tiles_prefix(runs, data, upto),
        ascending(data),
    ensures
        runs.len() == distinct_count(data.take(upto)),
    decreases runs.len(),
{
    if runs.len() == 0 {
        assert(data.take(upto).to_set() =~= Set::<i64>::empty());
    } else {
        let last = runs.last();
        let shorter = runs.drop_last();
        let cut = last.start_index as int;
        assert(last == runs[runs.len() - 1]);
        assert(last.count >= 1);
        if runs.len() >= 2 {
            lemma_run_start(runs, data, upto, runs.len() - 1);
            assert(shorter.last() == runs[runs.len() - 2]);
            assert(runs[runs.len() - 1].start_index == runs[runs.len() - 2].start_index
                + runs[runs.len() - 2].count);
        }
        assert(tiles_prefix(shorter, data, cut)) by {
            assert forall|k: int| 0 <= k < shorter.len() implies (#[trigger] shorter[k]).count
                >= 1 by {
                assert(shorter[k] == runs[k]);
            }
            assert forall|j: int, k: int| 0 <= j && j + 1 == k && k < shorter.len() implies (
            #[trigger] shorter[k]).start_index == (#[trigger] shorter[j]).start_index
                + shorter[j].count by {
                assert(shorter[k] == runs[k]);
                assert(shorter[j] == runs[j]);
            }
            assert forall|j: int, k: int| 0 <= j && j + 1 == k && k < shorter.len() implies (
            #[trigger] shorter[j]).value < (#[trigger] shorter[k]).value by {
                assert(shorter[k] == runs[k]);
                assert(shorter[j] == runs[j]);
            }
            assert forall|k: int, i: int|
                0 <= k < shorter.len() && shorter[k].start_index <= i < shorter[k].start_index
                    + shorter[k].count implies #[trigger] data[i] == (#[trigger] shorter[k]).value by {
                assert(shorter[k] == runs[k]);
            }
        }
        lemma_run_count(shorter, data, cut);
        let head = data.take(cut).to_set();
        let all = data.take(upto).to_set();
        assert(all =~= head.insert(last.value)) by {
            assert forall|x: i64| all.contains(x) <==> head.insert(last.value).contains(x) by {
                if all.contains(x) {
                    let i = choose|i: int| 0 <= i < upto && data.take(upto)[i] == x;
                    if i < cut {
                        assert(data.take(cut)[i] == x);
                    } else {
                        assert(data[i] == last.value);
                    }
                }
                if head.contains(x) {
                    let i = choose|i: int| 0 <= i < cut && data.take(cut)[i] == x;
                    assert(data.take(upto)[i] == x);
                }
                if x == last.value {
                    assert(data.take(upto)[cut] == x);
                }
            }
        }
        assert(!head.contains(last.value)) by {
            if head.contains(last.value) {
                let i = choose|i: int| 0 <= i < cut && data.take(cut)[i] == last.value;
                assert(data[i] <= data[cut - 1]);
            }
        }
        vstd::seq_lib::seq_to_set_is_finite(data.take(cut));
    }
}

/// Builds the unique-value index of ascending data: one entry for each run
/// of equal keys, in the order of the data. What `unique_val_map` held before
/// is discarded.
pub fn create_unique_val_mapping(unique_val_map: &mut Vec<UniqueVal>, sorted_data: &Vec<i64>)
    requires
        ascending(sorted_data@),
    ensures
        is_run_mapping(final(unique_val_map)@, sorted_data@),
        final(unique_val_map)@.len() == distinct_count(sorted_data@),
        final(unique_val_map)@.len() <= sorted_data@.len(),
{
    unique_val_map.clear();
    let num_vals: usize = sorted_data.len();
    let mut start: usize = 0;
    while start < num_vals
        invariant
            num_vals == sorted_data@.len(),
            ascending(sorted_data@),
            start <= num_vals,
            tiles_prefix(unique_val_map@, sorted_data@, start as int),
            unique_val_map@.len() <= start,
            start < num_vals && unique_val_map@.len() > 0 ==> unique_val_map@.last().value
                < sorted_data@[start as int],
        decreases num_vals - start,
    {
        let value: i64 = sorted_data[start];
        let mut end: usize = start + 1;
        while end < num_vals && sorted_data[end] == value
            invariant
                num_vals == sorted_data@.len(),
                start < end <= num_vals,
                forall|i: int| start <= i < end ==> sorted_data@[i] == value,
            decreases num_vals - end,
        {
            end += 1;
        }
        let ghost before = unique_val_map@;
        let run = UniqueVal { value, start_index: start, count: end - start };
        unique_val_map.push(run);
        proof {
            let after = unique_val_map@;
            assert(after == before.push(run));
            assert(after.last() == run);
            if before.len() > 0 {
                assert(before.last() == before[before.len() - 1]);
            }
            assert forall|k: int| 0 <= k < after.len() implies (#[trigger] after[k]).count
                >= 1 by {
                if k < before.len() {
                    assert(after[k] == before[k]);
                }
            }
            assert forall|j: int, k: int| 0 <= j && j + 1 == k && k < after.len() implies (
            #[trigger] after[k]).start_index == (#[trigger] after[j]).start_index
                + after[j].count by {
                assert(after[j] == before[j]);
                if k < before.len() {
                    assert(after[k] == before[k]);
                }
            }
            assert forall|j: int, k: int| 0 <= j && j + 1 == k && k < after.len() implies (
            #[trigger] after[j]).value < (#[trigger] after[k]).value by {
                assert(after[j] == before[j]);
                if k < before.len() {
                    assert(after[k] == before[k]);
                }
            }
            assert forall|k: int, i: int|
                0 <= k < after.len() && after[k].start_index <= i < after[k].start_index
                    + after[k].count implies #[trigger] sorted_data@[i] == (
            #[trigger] after[k]).value by {
                if k < before.len() {
                    assert(after[k] == before[k]);
                }
            }
            if before.len() > 0 {
                assert(after[0] == before[0]);
            }
            assert(tiles_prefix(after, sorted_data@, end as int));
            if end < num_vals {
                assert(sorted_data@[start as int] <= sorted_data@[end as int]);
            }
        }
        start = end;
    }
    proof {
        lemma_run_count(unique_val_map@, sorted_data@, num_vals as int);
        assert(sorted_data@.take(num_vals as int) =~= sorted_data@);
    }
}

/// Translates positions among the runs into positions in the data: each
/// entry of `normal_breaks` becomes the start of the run that the matching
/// entry of `unique_breaks` names. `normal_breaks` takes the length of
/// `unique_breaks`.
pub fn unique_to_normal_breaks(
    unique_breaks: &Vec<usize>,
    unique_val_map: &Vec<UniqueVal>,
    normal_breaks: &mut Vec<usize>,
)
    requires
        forall|i: int|
            0 <= i < unique_breaks@.len() ==> #[trigger] unique_breaks@[i] < unique_val_map@.len(),
    ensures
        final(normal_breaks)@.len() == unique_breaks@.len(),
        forall|i: int|
            0 <= i < unique_breaks@.len() ==> #[trigger] final(normal_breaks)@[i]
                == unique_val_map@[unique_breaks@[i] as int].start_index,
{
    normal_breaks.clear();
    let mut i: usize = 0;
    while i < unique_breaks.len()
        invariant
            i <= unique_breaks@.len(),
            normal_breaks@.len() == i,
            forall|k: int|
                0 <= k < unique_breaks@.len() ==> #[trigger] unique_breaks@[k]
                    < unique_val_map@.len(),
            forall|k: int|
                0 <= k < i ==> #[trigger] normal_breaks@[k]
                    == unique_val_map@[unique_breaks@[k] as int].start_index,
        decreases unique_breaks@.len() - i,
    {
        let run: usize = unique_breaks[i];
        normal_breaks.push(unique_val_map[run].start_index);
        i += 1;
    }
}

/// Translating a boundary set over the runs gives a boundary set over the
/// data, each boundary of which cuts between two runs.
pub proof fn lemma_translated_boundaries(
    unique_breaks: Seq<usize>,
    runs: Seq<UniqueVal>,
    data: Seq<i64>,
    normal_breaks: Seq<usize>,
)
    requires
        is_run_mapping(runs, data),
        valid_boundaries(unique_breaks, runs.len() as int),
        normal_breaks.len() == unique_breaks.len(),
        forall|i: int|
            0 <= i < unique_breaks.len() ==> #[trigger] normal_breaks[i]
                == runs[unique_breaks[i] as int].start_index,
    ensures
        cuts_between_runs(normal_breaks, data),
{
    let upto = data.len() as int;
    assert forall|i: int, j: int| 0 <= i < j < normal_breaks.len() implies normal_breaks[i]
        < normal_breaks[j] by {
        assert(unique_breaks[i] < unique_breaks[j]);
        assert(1 <= unique_breaks[j] < runs.len());
        lemma_runs_ordered(runs, data, upto, unique_breaks[i] as int, unique_breaks[j] as int);
        assert(runs[unique_breaks[i] as int].count >= 1);
    }
    assert forall|i: int| 0 <= i < normal_breaks.len() implies 1 <= #[trigger] normal_breaks[i]
        < data.len() && data[normal_breaks[i] - 1] < data[normal_breaks[i] as int] by {
        assert(1 <= unique_breaks[i] < runs.len());
        lemma_run_start(runs, data, upto, unique_breaks[i] as int);
    }
}

} // verus!
