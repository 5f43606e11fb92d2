//! How many different numbers below a bound a sequence can hold.

use vstd::prelude::*;
use vstd::set_lib::*;

verus! {

/// Distinct numbers below `bound` are at most `bound` many.
pub proof fn lemma_distinct_fit(items: Seq<int>, bound: int)
    requires
        items.no_duplicates(),
        forall|i: int| 0 <= i < items.len() ==> 0 <= #[trigger] items[i] < bound,
    ensures
        items.len() <= bound || (bound < 0 && items.len() == 0),
{
    if items.len() > 0 {
        assert(0 <= items[0] < bound);
        items.unique_seq_to_set();
        lemma_int_range(0, bound);
        assert(items.to_set().subset_of(set_int_range(0, bound)));
        lemma_len_subset(items.to_set(), set_int_range(0, bound));
    }
}

/// Distinct numbers below `bound` that leave one out are fewer than `bound`.
pub proof fn lemma_distinct_leave_room(items: Seq<int>, bound: int, spare: int)
    requires
        items.no_duplicates(),
        forall|i: int| 0 <= i < items.len() ==> 0 <= #[trigger] items[i] < bound,
        0 <= spare < bound,
        !items.contains(spare),
    ensures
        items.len() < bound,
{
    let more = items.push(spare);
    assert forall|i: int, j: int|
        0 <= i < more.len() && 0 <= j < more.len() && i != j implies more[i] != more[j] by {
        if i < items.len() && j < items.len() {
            assert(items[i] != items[j]);
        } else if i < items.len() {
            assert(items.contains(items[i]));
        } else {
            assert(items.contains(items[j]));
        }
    }
    lemma_distinct_fit(more, bound);
}

/// As many distinct numbers below `bound` as there are hold every one of them.
pub proof fn lemma_distinct_cover(items: Seq<int>, bound: int, value: int)
    requires
        items.no_duplicates(),
        forall|i: int| 0 <= i < items.len() ==> 0 <= #[trigger] items[i] < bound,
        items.len() >= bound,
        0 <= value < bound,
    ensures
        items.contains(value),
{
    if !items.contains(value) {
        lemma_distinct_leave_room(items, bound, value);
    }
}

} // verus!
