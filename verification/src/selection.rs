//! What it means to pick from a sequence the items that pass a test.

use vstd::prelude::*;

verus! {

/// The indices of the items of `items` that pass `keep`, in rising order.
pub open spec fn kept_indices<T>(items: Seq<T>, keep: spec_fn(T) -> bool) -> Seq<int>
    decreases items.len(),
{
    if items.len() == 0 {
        Seq::empty()
    } else {
        let before = kept_indices(items.drop_last(), keep);
        if keep(items.last()) {
            before.push(items.len() - 1)
        } else {
            before
        }
    }
}

/// `kept` holds the items of `items` that pass `keep`, and no others: each as
/// often as it stands in `items`, and in the order of `items`. `picked` names,
/// for each item of `kept`, the index in `items` that it was taken from.
pub open spec fn is_selection<T>(
    items: Seq<T>,
    keep: spec_fn(T) -> bool,
    kept: Seq<T>,
    picked: Seq<int>,
) -> bool {
    &&& picked.len() == kept.len()
    &&& forall|i: int|
        0 <= i < kept.len() ==> 0 <= #[trigger] picked[i] < items.len() && kept[i]
            == items[picked[i]]
    &&& forall|i: int| 0 <= i < kept.len() ==> keep(#[trigger] kept[i])
    &&& forall|i: int, k: int|
        0 <= i < k < kept.len() ==> #[trigger] picked[i] < #[trigger] picked[k]
    &&& forall|j: int| 0 <= j < items.len() && keep(#[trigger] items[j]) ==> picked.contains(j)
}

/// Filtering selects: the result holds the items that pass the test, all of
/// them and no others, in their order.
pub proof fn lemma_filter_selects<T>(items: Seq<T>, keep: spec_fn(T) -> bool)
    ensures
        is_selection(items, keep, items.filter(keep), kept_indices(items, keep)),
    decreases items.len(),
{
    reveal(Seq::filter);
    if items.len() > 0 {
        let before = items.drop_last();
        let last = items.len() - 1;
        let kept = items.filter(keep);
        let picked = kept_indices(items, keep);
        lemma_filter_selects(before, keep);
        assert forall|j: int|
            0 <= j < items.len() && keep(#[trigger] items[j]) implies picked.contains(j) by {
            if j < last {
                assert(before[j] == items[j]);
                let i = choose|i: int|
                    0 <= i < kept_indices(before, keep).len() && kept_indices(before, keep)[i] == j;
                assert(picked[i] == j);
            } else {
                assert(picked[picked.len() - 1] == j);
            }
        }
    }
}

/// Where every item passes the test, filtering keeps the sequence as it is.
pub proof fn lemma_filter_keeps_all<T>(items: Seq<T>, keep: spec_fn(T) -> bool)
    requires
        forall|i: int| 0 <= i < items.len() ==> keep(#[trigger] items[i]),
    ensures
        items.filter(keep) == items,
    decreases items.len(),
{
    reveal(Seq::filter);
    if items.len() > 0 {
        let before = items.drop_last();
        assert forall|i: int| 0 <= i < before.len() implies keep(#[trigger] before[i]) by {
            assert(before[i] == items[i]);
        }
        lemma_filter_keeps_all(before, keep);
        assert(before.push(items.last()) =~= items);
    }
}

/// Filtering leaves nothing exactly when no item passes the test.
pub proof fn lemma_filter_empty<T>(items: Seq<T>, keep: spec_fn(T) -> bool)
    ensures
        items.filter(keep).len() == 0 <==> forall|i: int|
            0 <= i < items.len() ==> !keep(#[trigger] items[i]),
{
    lemma_filter_selects(items, keep);
    let kept = items.filter(keep);
    let picked = kept_indices(items, keep);
    if kept.len() > 0 {
        assert(keep(kept[0]));
        assert(kept[0] == items[picked[0]]);
    } else {
        assert forall|i: int| 0 <= i < items.len() implies !keep(#[trigger] items[i]) by {
            if keep(items[i]) {
                assert(picked.contains(i));
            }
        }
    }
}

/// Where every item that passes `narrow` passes `wide` too, what `narrow`
/// keeps is what it keeps of the items that `wide` keeps: the same items in
/// the same order, and no more of them than `wide` keeps.
pub proof fn lemma_filter_narrower<T>(
    items: Seq<T>,
    narrow: spec_fn(T) -> bool,
    wide: spec_fn(T) -> bool,
)
    requires
        forall|i: int| 0 <= i < items.len() && narrow(#[trigger] items[i]) ==> wide(items[i]),
    ensures
        items.filter(narrow) == items.filter(wide).filter(narrow),
        items.filter(narrow).len() <= items.filter(wide).len(),
    decreases items.len(),
{
    reveal(Seq::filter);
    if items.len() > 0 {
        let before = items.drop_last();
        let last = items.last();
        assert forall|i: int| 0 <= i < before.len() && narrow(#[trigger] before[i]) implies wide(
            before[i],
        ) by {
            assert(before[i] == items[i]);
        }
        lemma_filter_narrower(before, narrow, wide);
        assert(last == items[items.len() - 1]);
        if wide(last) {
            before.filter(wide).lemma_filter_push(last, narrow);
        }
    }
    items.filter(wide).lemma_filter_len(narrow);
}

/// Two tests that agree on every item keep the same items.
pub proof fn lemma_filter_same<T>(items: Seq<T>, one: spec_fn(T) -> bool, other: spec_fn(T) -> bool)
    requires
        forall|i: int| 0 <= i < items.len() ==> one(#[trigger] items[i]) == other(items[i]),
    ensures
        items.filter(one) == items.filter(other),
    decreases items.len(),
{
    reveal(Seq::filter);
    if items.len() > 0 {
        let before = items.drop_last();
        assert forall|i: int| 0 <= i < before.len() implies one(#[trigger] before[i]) == other(
            before[i],
        ) by {
            assert(before[i] == items[i]);
        }
        lemma_filter_same(before, one, other);
        assert(items.last() == items[items.len() - 1]);
    }
}

} // verus!
