//! Order predicates on observation keys and positions, and the ascending copy
//! of a data set that every other step works on.

use vstd::prelude::*;

verus! {

/// The keys never decrease from left to right.
pub open spec fn ascending(keys: Seq<i64>) -> bool {
    forall|i: int, j: int| 0 <= i <= j < keys.len() ==> keys[i] <= keys[j]
}

/// The keys grow from left to right, so none occurs twice.
pub open spec fn strictly_ascending(keys: Seq<i64>) -> bool {
    forall|i: int, j: int| 0 <= i < j < keys.len() ==> keys[i] < keys[j]
}

/// The positions grow from left to right, so none occurs twice.
pub open spec fn strictly_increasing(positions: Seq<usize>) -> bool {
    forall|i: int, j: int| 0 <= i < j < positions.len() ==> positions[i] < positions[j]
}

/// The number of different keys in a data set.
pub open spec fn distinct_count(keys: Seq<i64>) -> nat {
    keys.to_set().len()
}

/// `key` is a key of the data and no key of the data is smaller.
pub open spec fn is_least(data: Seq<i64>, key: i64) -> bool {
    data.contains(key) && forall|y: i64| data.contains(y) ==> key <= y
}

/// `key` is a key of the data and no key of the data is greater.
pub open spec fn is_greatest(data: Seq<i64>, key: i64) -> bool {
    data.contains(key) && forall|y: i64| data.contains(y) ==> y <= key
}

/// Data that is not empty has a least key.
pub proof fn lemma_has_least(data: Seq<i64>)
    requires
        data.len() > 0,
    ensures
        exists|m: i64| is_least(data, m),
    decreases data.len(),
{
    if data.len() == 1 {
        assert(data.contains(data[0]));
        assert(is_least(data, data[0])) by {
            assert forall|y: i64| data.contains(y) implies data[0] <= y by {
                let i = choose|i: int| 0 <= i < data.len() && data[i] == y;
            }
        }
    } else {
        let shorter = data.drop_last();
        lemma_has_least(shorter);
        let m = choose|m: i64| is_least(shorter, m);
        let last = data.last();
        let least = if last < m {
            last
        } else {
            m
        };
        assert(data.contains(least)) by {
            if last < m {
                assert(data[data.len() - 1] == last);
            } else {
                let i = choose|i: int| 0 <= i < shorter.len() && shorter[i] == m;
                assert(data[i] == m);
            }
        }
        assert forall|y: i64| data.contains(y) implies least <= y by {
            let i = choose|i: int| 0 <= i < data.len() && data[i] == y;
            if i < shorter.len() {
                assert(shorter[i] == y);
                assert(shorter.contains(y));
            }
        }
        assert(is_least(data, least));
    }
}

/// Trusted: `slice::sort` of the standard library, on signed 64-bit keys.
/// The contract claims what its documentation states: afterwards the slice is
/// in ascending order and holds the same items as before, each as often.
#[verifier::external_body]
fn sort_keys(keys: &mut Vec<i64>)
    ensures
        ascending(final(keys)@),
        final(keys)@.to_multiset() == old(keys)@.to_multiset(),
{
    keys.sort();
}

/// Two sequences with the same items, each as often, have the same length
/// and the same set of items.
pub proof fn lemma_same_items(a: Seq<i64>, b: Seq<i64>)
    requires
        a.to_multiset() == b.to_multiset(),
    ensures
        a.len() == b.len(),
        a.to_set() == b.to_set(),
        distinct_count(a) == distinct_count(b),
        forall|x: i64| a.contains(x) <==> b.contains(x),
{
    vstd::seq_lib::to_multiset_len(a);
    vstd::seq_lib::to_multiset_len(b);
    assert forall|x: i64| a.contains(x) <==> b.contains(x) by {
        vstd::seq_lib::to_multiset_contains(a, x);
        vstd::seq_lib::to_multiset_contains(b, x);
    }
    assert(a.to_set() =~= b.to_set());
}

/// There is one ascending arrangement of a data set: two ascending sequences
/// with the same items, each as often, are equal. So the ascending copy of a
/// data set does not depend on the order in which the data is given.
pub proof fn lemma_ascending_unique(a: Seq<i64>, b: Seq<i64>)
    requires
        ascending(a),
        ascending(b),
        a.to_multiset() == b.to_multiset(),
    ensures
        a == b,
{
    let leq = |x: i64, y: i64| x <= y;
    assert(vstd::relations::total_ordering(leq));
    assert(vstd::relations::sorted_by(a, leq));
    assert(vstd::relations::sorted_by(b, leq));
    vstd::seq_lib::lemma_sorted_unique(a, b, leq);
}

/// Returns the observations in ascending order. The input is left as it is;
/// the copy holds the same keys, each as often.
pub fn sorted_copy(data: &Vec<i64>) -> (sorted: Vec<i64>)
    ensures
        ascending(sorted@),
        sorted@.to_multiset() == data@.to_multiset(),
        sorted@.len() == data@.len(),
        forall|x: i64| sorted@.contains(x) <==> data@.contains(x),
        distinct_count(sorted@) == distinct_count(data@),
{
    let mut sorted: Vec<i64> = Vec::new();
    let mut i: usize = 0;
    while i < data.len()
        invariant
            i <= data.len(),
            sorted@ == data@.take(i as int),
        decreases data.len() - i,
    {
        sorted.push(data[i]);
        i += 1;
    }
    assert(data@.take(data@.len() as int) =~= data@);
    sort_keys(&mut sorted);
    proof {
        lemma_same_items(sorted@, data@);
    }
    sorted
}

} // verus!
