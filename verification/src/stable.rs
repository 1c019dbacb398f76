//! Stable two-way partitions of a sequence, and the ranks by which one can be scattered.
use vstd::prelude::*;

verus! {

/// The items whose mark equals `want`, in their original order.
pub open spec fn chosen<T>(items: Seq<T>, marks: Seq<bool>, want: bool) -> Seq<T>
    decreases items.len(),
{
    if items.len() == 0 {
        Seq::empty()
    } else {
        let rest = chosen(items.drop_last(), marks.drop_last(), want);
        if marks.last() == want {
            rest.push(items.last())
        } else {
            rest
        }
    }
}

/// The marked items first, then the others, each side in its original order.
pub open spec fn stable_partition<T>(items: Seq<T>, marks: Seq<bool>) -> Seq<T> {
    chosen(items, marks, true) + chosen(items, marks, false)
}

/// How many marks equal `want`.
pub open spec fn tally(marks: Seq<bool>, want: bool) -> nat
    decreases marks.len(),
{
    if marks.len() == 0 {
        0
    } else {
        tally(marks.drop_last(), want) + (if marks.last() == want {
            1nat
        } else {
            0nat
        })
    }
}

/// Where item `i` goes in the stable partition: its rank among the marked items, or, past
/// all of those, its rank among the others.
pub open spec fn destination(marks: Seq<bool>, i: int) -> int {
    let rank = tally(marks.take(i), true) as int;
    if marks[i] {
        rank
    } else {
        tally(marks, true) + (i - rank)
    }
}

/// Adding one item extends its own side and leaves the other.
pub proof fn chosen_extends<T>(items: Seq<T>, marks: Seq<bool>, i: int, want: bool)
    requires
        0 <= i < items.len(),
        items.len() == marks.len(),
    ensures
        chosen(items.take(i + 1), marks.take(i + 1), want) == (if marks[i] == want {
            chosen(items.take(i), marks.take(i), want).push(items[i])
        } else {
            chosen(items.take(i), marks.take(i), want)
        }),
{
    assert(items.take(i + 1).drop_last() =~= items.take(i));
    assert(marks.take(i + 1).drop_last() =~= marks.take(i));
    assert(items.take(i + 1).last() == items[i]);
    assert(marks.take(i + 1).last() == marks[i]);
}

/// Adding one mark adds one to its own tally.
pub proof fn tally_extends(marks: Seq<bool>, i: int, want: bool)
    requires
        0 <= i < marks.len(),
    ensures
        tally(marks.take(i + 1), want) == tally(marks.take(i), want) + (if marks[i] == want {
            1nat
        } else {
            0nat
        }),
{
    assert(marks.take(i + 1).drop_last() =~= marks.take(i));
    assert(marks.take(i + 1).last() == marks[i]);
}

/// Every mark is on one of the two sides.
pub proof fn tallies_sum(marks: Seq<bool>)
    ensures
        tally(marks, true) + tally(marks, false) == marks.len(),
    decreases marks.len(),
{
    if marks.len() > 0 {
        tallies_sum(marks.drop_last());
    }
}

/// A longer prefix has at least the tally of a shorter one, and grows by at most its extra
/// length.
pub proof fn tally_monotone(marks: Seq<bool>, i: int, j: int, want: bool)
    requires
        0 <= i <= j <= marks.len(),
    ensures
        tally(marks.take(i), want) <= tally(marks.take(j), want) <= tally(marks.take(i), want) + (j - i),
    decreases j - i,
{
    if i < j {
        tally_monotone(marks, i, j - 1, want);
        tally_extends(marks, j - 1, want);
    }
}

/// Each side has as many items as marks.
pub proof fn chosen_len<T>(items: Seq<T>, marks: Seq<bool>, want: bool)
    requires
        items.len() == marks.len(),
    ensures
        chosen(items, marks, want).len() == tally(marks, want),
    decreases items.len(),
{
    if items.len() > 0 {
        chosen_len(items.drop_last(), marks.drop_last(), want);
    }
}

/// An item stands on its side at its rank.
pub proof fn chosen_at<T>(items: Seq<T>, marks: Seq<bool>, i: int, want: bool)
    requires
        items.len() == marks.len(),
        0 <= i < items.len(),
        marks[i] == want,
    ensures
        tally(marks.take(i), want) < chosen(items, marks, want).len(),
        chosen(items, marks, want)[tally(marks.take(i), want) as int] == items[i],
    decreases items.len(),
{
    let n = items.len() - 1;
    chosen_len(items, marks, want);
    chosen_len(items.drop_last(), marks.drop_last(), want);
    if i < n {
        chosen_at(items.drop_last(), marks.drop_last(), i, want);
        assert(marks.drop_last().take(i) =~= marks.take(i));
    } else {
        assert(marks.take(i) =~= marks.drop_last());
    }
}

/// Every rank below a side's tally is some item's rank.
pub proof fn rank_is_reached(marks: Seq<bool>, p: int, want: bool) -> (i: int)
    requires
        0 <= p < tally(marks, want),
    ensures
        0 <= i < marks.len(),
        marks[i] == want,
        tally(marks.take(i), want) == p,
    decreases marks.len(),
{
    let n = marks.len() - 1;
    if p < tally(marks.drop_last(), want) {
        let i = rank_is_reached(marks.drop_last(), p, want);
        assert(marks.drop_last().take(i) =~= marks.take(i));
        i
    } else {
        assert(marks.take(n) =~= marks.drop_last());
        n
    }
}

/// Both sides of a prefix account for all of it.
pub proof fn prefix_tallies_sum(marks: Seq<bool>, i: int)
    requires
        0 <= i <= marks.len(),
    ensures
        tally(marks.take(i), true) + tally(marks.take(i), false) == i,
{
    tallies_sum(marks.take(i));
}

/// The destination of an item holds that item in the stable partition.
pub proof fn destination_holds_item<T>(items: Seq<T>, marks: Seq<bool>, i: int)
    requires
        items.len() == marks.len(),
        0 <= i < items.len(),
    ensures
        0 <= destination(marks, i) < items.len(),
        stable_partition(items, marks).len() == items.len(),
        stable_partition(items, marks)[destination(marks, i)] == items[i],
{
    chosen_len(items, marks, true);
    chosen_len(items, marks, false);
    tallies_sum(marks);
    prefix_tallies_sum(marks, i);
    chosen_at(items, marks, i, marks[i]);
}

/// Two items never share a destination.
pub proof fn destinations_are_distinct(marks: Seq<bool>, i: int, j: int)
    requires
        0 <= i < j < marks.len(),
    ensures
        destination(marks, i) != destination(marks, j),
        marks[i] == marks[j] ==> destination(marks, i) < destination(marks, j),
{
    assert(marks.take(marks.len() as int) =~= marks);
    tally_extends(marks, i, true);
    tally_extends(marks, j, true);
    tally_monotone(marks, i + 1, j, true);
    tally_monotone(marks, i + 1, marks.len() as int, true);
    tally_monotone(marks, j + 1, marks.len() as int, true);
    prefix_tallies_sum(marks, i);
    prefix_tallies_sum(marks, j);
}

/// Every position of the partition is some item's destination.
pub proof fn destination_is_reached(marks: Seq<bool>, p: int) -> (i: int)
    requires
        0 <= p < marks.len(),
    ensures
        0 <= i < marks.len(),
        destination(marks, i) == p,
{
    tallies_sum(marks);
    if p < tally(marks, true) {
        rank_is_reached(marks, p, true)
    } else {
        let i = rank_is_reached(marks, p - tally(marks, true), false);
        prefix_tallies_sum(marks, i);
        i
    }
}

/// Writing each item to its destination yields the stable partition.
pub proof fn scatter_is_stable<T>(items: Seq<T>, marks: Seq<bool>, out: Seq<T>)
    requires
        items.len() == marks.len(),
        out.len() == items.len(),
        forall|i: int| 0 <= i < items.len() ==> out[#[trigger] destination(marks, i)] == items[i],
    ensures
        out == stable_partition(items, marks),
{
    chosen_len(items, marks, true);
    chosen_len(items, marks, false);
    tallies_sum(marks);
    assert forall|p: int| 0 <= p < out.len() implies out[p] == stable_partition(items, marks)[p] by {
        let i = destination_is_reached(marks, p);
        destination_holds_item(items, marks, i);
    }
    assert(out =~= stable_partition(items, marks));
}

/// A partition only reorders: it holds each item as often as the input does.
pub proof fn partition_is_permutation<T>(items: Seq<T>, marks: Seq<bool>)
    requires
        items.len() == marks.len(),
    ensures
        stable_partition(items, marks).to_multiset() == items.to_multiset(),
        stable_partition(items, marks).len() == items.len(),
    decreases items.len(),
{
    broadcast use vstd::seq_lib::group_to_multiset_ensures;

    chosen_len(items, marks, true);
    chosen_len(items, marks, false);
    tallies_sum(marks);
    let l = chosen(items, marks, true);
    let r = chosen(items, marks, false);
    vstd::seq_lib::lemma_multiset_commutative(l, r);
    if items.len() == 0 {
        assert(l + r =~= items);
    } else {
        let l0 = chosen(items.drop_last(), marks.drop_last(), true);
        let r0 = chosen(items.drop_last(), marks.drop_last(), false);
        partition_is_permutation(items.drop_last(), marks.drop_last());
        vstd::seq_lib::lemma_multiset_commutative(l0, r0);
        assert(items =~= items.drop_last().push(items.last()));
        assert(items.to_multiset() =~= items.drop_last().to_multiset().insert(items.last()));
        if marks.last() {
            assert(l.to_multiset() =~= l0.to_multiset().insert(items.last()));
        } else {
            assert(r.to_multiset() =~= r0.to_multiset().insert(items.last()));
        }
        assert(stable_partition(items, marks).to_multiset() =~= items.to_multiset());
    }
}

/// The marks of one side say which items stand on it.
pub proof fn sides_hold_their_items<T>(items: Seq<T>, marks: Seq<bool>, p: int, want: bool) -> (i: int)
    requires
        items.len() == marks.len(),
        0 <= p < chosen(items, marks, want).len(),
    ensures
        0 <= i < items.len(),
        marks[i] == want,
        chosen(items, marks, want)[p] == items[i],
{
    chosen_len(items, marks, want);
    let i = rank_is_reached(marks, p, want);
    chosen_at(items, marks, i, want);
    i
}

} // verus!
