//! What the contracts and proofs of the other modules share: the view of a
//! sequence, and facts about sequences.

use vstd::prelude::*;

verus! {

/// The views of the items of a sequence.
pub open spec fn views<T: View>(items: Seq<T>) -> Seq<T::V> {
    items.map_values(|item: T| item@)
}

/// What the last item adds to a prefix of a sequence.
pub(crate) proof fn lemma_take_last<A>(items: Seq<A>, n: int)
    requires
        0 < n <= items.len(),
    ensures
        items.take(n).drop_last() == items.take(n - 1),
        items.take(n).last() == items[n - 1],
        forall|item: A|
            #![trigger items.take(n).contains(item)]
            items.take(n).contains(item) <==> items.take(n - 1).contains(item) || item
                == items[n - 1],
{
    let before = items.take(n - 1);
    let after = items.take(n);
    assert(after.drop_last() == before);
    assert forall|item: A| after.contains(item) <==> before.contains(item) || item
        == items[n - 1] by {
        if after.contains(item) {
            let j = choose|j: int| 0 <= j < after.len() && after[j] == item;
            if j < n - 1 {
                assert(before[j] == item);
            }
        }
        if before.contains(item) {
            let j = choose|j: int| 0 <= j < before.len() && before[j] == item;
            assert(after[j] == item);
        }
        if item == items[n - 1] {
            assert(after[n - 1] == item);
        }
    }
}

/// A sequence holds what it holds before its last item, and that item.
pub(crate) proof fn lemma_last_contains<A>(items: Seq<A>)
    requires
        items.len() > 0,
    ensures
        forall|item: A|
            #![trigger items.contains(item)]
            items.contains(item) <==> items.drop_last().contains(item) || item == items.last(),
{
    lemma_take_last(items, items.len() as int);
    assert(items.take(items.len() as int) == items);
    assert(items.take(items.len() - 1) == items.drop_last());
}

/// A concatenation holds what its two parts hold.
pub(crate) proof fn lemma_add_contains<A>(left: Seq<A>, right: Seq<A>)
    ensures
        forall|item: A|
            #![trigger (left + right).contains(item)]
            (left + right).contains(item) <==> left.contains(item) || right.contains(item),
{
    let all = left + right;
    assert forall|item: A| all.contains(item) <==> left.contains(item) || right.contains(
        item,
    ) by {
        if all.contains(item) {
            let j = choose|j: int| 0 <= j < all.len() && all[j] == item;
            if j < left.len() {
                assert(left[j] == item);
            } else {
                assert(right[j - left.len()] == item);
            }
        }
        if left.contains(item) {
            let j = choose|j: int| 0 <= j < left.len() && left[j] == item;
            assert(all[j] == item);
        }
        if right.contains(item) {
            let j = choose|j: int| 0 <= j < right.len() && right[j] == item;
            assert(all[left.len() + j] == item);
        }
    }
}

/// What is kept of a sequence is what it holds and the test accepts.
pub(crate) proof fn lemma_filter_contains<A>(items: Seq<A>, keep: spec_fn(A) -> bool)
    ensures
        forall|item: A|
            #![trigger items.filter(keep).contains(item)]
            items.filter(keep).contains(item) <==> items.contains(item) && keep(item),
    decreases items.len(),
{
    reveal(Seq::filter);
    if items.len() > 0 {
        let earlier = items.drop_last();
        lemma_filter_contains(earlier, keep);
        lemma_last_contains(items);
        if keep(items.last()) {
            lemma_last_contains(earlier.filter(keep).push(items.last()));
            assert(earlier.filter(keep).push(items.last()).drop_last() == earlier.filter(keep));
        }
    }
}

/// Where the test accepts every item, all of the sequence is kept.
pub(crate) proof fn lemma_filter_all<A>(items: Seq<A>, keep: spec_fn(A) -> bool)
    requires
        forall|i: int| 0 <= i < items.len() ==> keep(#[trigger] items[i]),
    ensures
        items.filter(keep) == items,
    decreases items.len(),
{
    reveal(Seq::filter);
    if items.len() > 0 {
        lemma_filter_all(items.drop_last(), keep);
        assert(items.drop_last().push(items.last()) == items);
    }
}

/// Where the test accepts no item, nothing of the sequence is kept.
pub(crate) proof fn lemma_filter_none<A>(items: Seq<A>, keep: spec_fn(A) -> bool)
    requires
        forall|i: int| 0 <= i < items.len() ==> !keep(#[trigger] items[i]),
    ensures
        items.filter(keep) == Seq::<A>::empty(),
    decreases items.len(),
{
    reveal(Seq::filter);
    if items.len() > 0 {
        lemma_filter_none(items.drop_last(), keep);
    }
}

/// The first `n + 1` parts, laid end to end, are the first `n` and then the next.
pub(crate) proof fn lemma_flatten_next<A>(part: spec_fn(int) -> Seq<A>, n: nat)
    ensures
        Seq::new(n + 1, part).flatten() == Seq::new(n, part).flatten() + part(n as int),
{
    let parts = Seq::new(n, part);
    assert(Seq::new(n + 1, part) == parts.push(part(n as int)));
    parts.lemma_flatten_push(part(n as int));
}

/// Where no two items of a sequence have the same key, no two of the items that
/// are kept have.
pub(crate) proof fn lemma_filter_distinct<A, K>(
    items: Seq<A>,
    keep: spec_fn(A) -> bool,
    key: spec_fn(A) -> K,
)
    requires
        forall|a: int, b: int|
            0 <= a < b < items.len() ==> key(#[trigger] items[a]) != key(#[trigger] items[b]),
    ensures
        forall|a: int, b: int|
            0 <= a < b < items.filter(keep).len() ==> key(#[trigger] items.filter(keep)[a]) != key(
                #[trigger] items.filter(keep)[b],
            ),
    decreases items.len(),
{
    reveal(Seq::filter);
    if items.len() > 0 {
        let earlier = items.drop_last();
        let kept = earlier.filter(keep);
        assert forall|a: int, b: int| 0 <= a < b < earlier.len() implies key(
            #[trigger] earlier[a],
        ) != key(#[trigger] earlier[b]) by {
            assert(earlier[a] == items[a] && earlier[b] == items[b]);
        }
        lemma_filter_distinct(earlier, keep, key);
        if keep(items.last()) {
            lemma_filter_contains(earlier, keep);
            assert forall|a: int, b: int| 0 <= a < b < items.filter(keep).len() implies key(
                #[trigger] items.filter(keep)[a],
            ) != key(#[trigger] items.filter(keep)[b]) by {
                if b == kept.len() {
                    assert(kept.contains(kept[a]));
                    let k = choose|k: int| 0 <= k < earlier.len() && earlier[k] == kept[a];
                    assert(items[k] == kept[a]);
                    assert(items[items.len() - 1] == items.last());
                } else {
                    assert(items.filter(keep)[a] == kept[a]);
                    assert(items.filter(keep)[b] == kept[b]);
                }
            }
        }
    }
}

} // verus!
