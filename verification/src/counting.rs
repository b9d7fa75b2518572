//! Counting the marks in a sequence of marks, and what shuffling keeps.

use vstd::prelude::*;

verus! {

/// The number of entries of `marks` that are set.
pub open spec fn count_true(marks: Seq<bool>) -> int
    decreases marks.len(),
{
    if marks.len() == 0 {
        0
    } else {
        count_true(marks.drop_last()) + if marks.last() {
            1int
        } else {
            0int
        }
    }
}

/// There are no more marks set than there are entries.
pub proof fn lemma_count_bounds(marks: Seq<bool>)
    ensures
        0 <= count_true(marks) <= marks.len(),
    decreases marks.len(),
{
    if marks.len() > 0 {
        lemma_count_bounds(marks.drop_last());
    }
}

/// Setting a mark that was not set adds one to the count.
pub proof fn lemma_count_set(marks: Seq<bool>, i: int)
    requires
        0 <= i < marks.len(),
        !marks[i],
    ensures
        count_true(marks.update(i, true)) == count_true(marks) + 1,
    decreases marks.len(),
{
    let after = marks.update(i, true);
    if i == marks.len() - 1 {
        assert(after.drop_last() =~= marks.drop_last());
    } else {
        lemma_count_set(marks.drop_last(), i);
        assert(after.drop_last() =~= marks.drop_last().update(i, true));
    }
}

/// Where as many marks are set as there are entries, every mark is set.
pub proof fn lemma_count_full(marks: Seq<bool>)
    requires
        count_true(marks) == marks.len(),
    ensures
        forall|i: int| 0 <= i < marks.len() ==> marks[i],
    decreases marks.len(),
{
    if marks.len() > 0 {
        lemma_count_bounds(marks.drop_last());
        lemma_count_full(marks.drop_last());
        assert forall|i: int| 0 <= i < marks.len() implies marks[i] by {
            if i < marks.len() - 1 {
                assert(marks.drop_last()[i]);
            }
        }
    }
}

/// Where no mark is set the count is zero.
pub proof fn lemma_count_none(marks: Seq<bool>)
    requires
        forall|i: int| 0 <= i < marks.len() ==> !marks[i],
    ensures
        count_true(marks) == 0,
    decreases marks.len(),
{
    if marks.len() > 0 {
        lemma_count_none(marks.drop_last());
    }
}

/// Where every mark is set the count is the number of entries.
pub proof fn lemma_count_all(marks: Seq<bool>)
    requires
        forall|i: int| 0 <= i < marks.len() ==> marks[i],
    ensures
        count_true(marks) == marks.len(),
    decreases marks.len(),
{
    if marks.len() > 0 {
        lemma_count_all(marks.drop_last());
    }
}

/// A shuffled sequence without duplicates has none either, and holds the same
/// items.
pub proof fn lemma_shuffled<T>(before: Seq<T>, after: Seq<T>)
    requires
        after.to_multiset() == before.to_multiset(),
        before.no_duplicates(),
    ensures
        after.len() == before.len(),
        after.no_duplicates(),
        forall|x: T| after.contains(x) <==> before.contains(x),
{
    before.to_multiset_ensures();
    after.to_multiset_ensures();
    before.lemma_multiset_has_no_duplicates();
    after.lemma_multiset_has_no_duplicates_conv();
    assert forall|x: T| after.contains(x) <==> before.contains(x) by {
        assert(after.contains(x) <==> after.to_multiset().count(x) > 0);
        assert(before.contains(x) <==> before.to_multiset().count(x) > 0);
    }
}

} // verus!
