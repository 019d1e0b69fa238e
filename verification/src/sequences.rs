//! Facts about sequences that the layer manager selects from.

use vstd::prelude::*;

verus! {

/// Those of `items` whose place in `keep` holds `true`, in their order.
pub open spec fn select<T>(items: Seq<T>, keep: Seq<bool>) -> Seq<T>
    decreases items.len(),
{
    if items.len() == 0 || keep.len() != items.len() {
        Seq::empty()
    } else {
        let rest = select(items.drop_last(), keep.drop_last());
        if keep.last() {
            rest.push(items.last())
        } else {
            rest
        }
    }
}

/// The opposite of every flag.
pub open spec fn negate(flags: Seq<bool>) -> Seq<bool> {
    Seq::new(flags.len(), |i: int| !flags[i])
}

/// The sequence `items` without the members of `gone`.
pub open spec fn without<T>(items: Seq<T>, gone: Set<T>) -> Seq<T>
    decreases items.len(),
{
    if items.len() == 0 {
        Seq::empty()
    } else {
        let rest = without(items.drop_last(), gone);
        if gone.contains(items.last()) {
            rest
        } else {
            rest.push(items.last())
        }
    }
}

/// Every number of the sequence is less than those that follow it.
pub open spec fn ascending(numbers: Seq<u64>) -> bool {
    forall|i: int, j: int| 0 <= i < j < numbers.len() ==> numbers[i] < numbers[j]
}

/// What is selected from an ascending sequence ascends.
pub proof fn lemma_select_ascending(numbers: Seq<u64>, keep: Seq<bool>)
    requires
        numbers.len() == keep.len(),
        ascending(numbers),
    ensures
        ascending(select(numbers, keep)),
        forall|k: int|
            0 <= k < select(numbers, keep).len() && numbers.len() > 0 ==> #[trigger] select(
                numbers,
                keep,
            )[k] <= numbers.last(),
    decreases numbers.len(),
{
    if numbers.len() > 0 {
        let front = numbers.drop_last();
        let flags = keep.drop_last();
        let rest = select(front, flags);
        let all = select(numbers, keep);
        assert forall|i: int, j: int| 0 <= i < j < front.len() implies front[i] < front[j] by {
            assert(numbers[i] < numbers[j]);
        }
        lemma_select_ascending(front, flags);
        assert forall|k: int| 0 <= k < rest.len() implies #[trigger] rest[k] < numbers.last() by {
            assert(rest[k] <= front.last());
            assert(front.last() == numbers[numbers.len() - 2]);
        }
        assert forall|i: int, j: int| 0 <= i < j < all.len() implies all[i] < all[j] by {
            if j < rest.len() {
                assert(rest[i] < rest[j]);
            } else {
                assert(rest[i] < numbers.last());
            }
        }
        assert forall|k: int| 0 <= k < all.len() implies #[trigger] all[k] <= numbers.last() by {
            if k < rest.len() {
                assert(rest[k] < numbers.last());
            }
        }
    }
}

/// Selecting from a list that has grown by one item.
pub proof fn lemma_select_push<T>(items: Seq<T>, keep: Seq<bool>, item: T, flag: bool)
    requires
        items.len() == keep.len(),
    ensures
        select(items.push(item), keep.push(flag)) == if flag {
            select(items, keep).push(item)
        } else {
            select(items, keep)
        },
        negate(keep.push(flag)) == negate(keep).push(!flag),
{
    assert(items.push(item).drop_last() =~= items);
    assert(keep.push(flag).drop_last() =~= keep);
    assert(negate(keep.push(flag)) =~= negate(keep).push(!flag));
}

/// What is selected are the items at the places whose flag holds.
pub proof fn lemma_select_contains<T>(items: Seq<T>, keep: Seq<bool>, x: T)
    requires
        items.len() == keep.len(),
    ensures
        select(items, keep).contains(x) <==> exists|i: int|
            0 <= i < items.len() && #[trigger] items[i] == x && keep[i],
    decreases items.len(),
{
    if items.len() > 0 {
        let front = items.drop_last();
        let flags = keep.drop_last();
        let rest = select(front, flags);
        let all = select(items, keep);
        lemma_select_contains(front, flags, x);
        if all.contains(x) {
            let k = choose|k: int| 0 <= k < all.len() && all[k] == x;
            if k < rest.len() {
                assert(rest[k] == x);
                assert(rest.contains(x));
                let i = choose|i: int| 0 <= i < front.len() && #[trigger] front[i] == x && flags[i];
                assert(items[i] == x && keep[i]);
            } else {
                assert(items[items.len() - 1] == x && keep[items.len() - 1]);
            }
        }
        if exists|i: int| 0 <= i < items.len() && #[trigger] items[i] == x && keep[i] {
            let i = choose|i: int| 0 <= i < items.len() && #[trigger] items[i] == x && keep[i];
            if i < front.len() {
                assert(front[i] == x && flags[i]);
                assert(rest.contains(x));
                let k = choose|k: int| 0 <= k < rest.len() && rest[k] == x;
                assert(all[k] == x);
            } else {
                assert(all[all.len() - 1] == x);
            }
        }
    }
}

/// Leaving out nothing leaves the sequence as it is.
pub proof fn lemma_without_none<T>(items: Seq<T>)
    ensures
        without(items, Set::<T>::empty()) == items,
    decreases items.len(),
{
    if items.len() > 0 {
        lemma_without_none(items.drop_last());
        assert(items.drop_last().push(items.last()) =~= items);
    }
}

/// What a sequence without duplicates holds once the members of `gone` are
/// left out.
pub proof fn lemma_without<T>(items: Seq<T>, gone: Set<T>)
    requires
        items.no_duplicates(),
    ensures
        without(items, gone).no_duplicates(),
        without(items, gone).len() <= items.len(),
        forall|x: T| #[trigger]
            without(items, gone).contains(x) <==> items.contains(x) && !gone.contains(x),
    decreases items.len(),
{
    if items.len() > 0 {
        let front = items.drop_last();
        let last = items.last();
        let rest = without(front, gone);
        lemma_without(front, gone);
        let w = without(items, gone);
        assert forall|x: T| #[trigger] w.contains(x) <==> items.contains(x) && !gone.contains(
            x,
        ) by {
            if w.contains(x) {
                let i = choose|i: int| 0 <= i < w.len() && w[i] == x;
                if i < rest.len() {
                    assert(rest[i] == x);
                    assert(rest.contains(x));
                    let j = choose|j: int| 0 <= j < front.len() && front[j] == x;
                    assert(items[j] == x);
                } else {
                    assert(items[items.len() - 1] == x);
                }
            }
            if items.contains(x) && !gone.contains(x) {
                let j = choose|j: int| 0 <= j < items.len() && items[j] == x;
                if j < front.len() {
                    assert(front[j] == x);
                    assert(front.contains(x));
                    assert(rest.contains(x));
                    let i = choose|i: int| 0 <= i < rest.len() && rest[i] == x;
                    assert(w[i] == x);
                } else {
                    assert(w[w.len() - 1] == x);
                }
            }
        }
        if !gone.contains(last) {
            assert(!rest.contains(last)) by {
                if front.contains(last) {
                    let j = choose|j: int| 0 <= j < front.len() && front[j] == last;
                    assert(items[j] == items[items.len() - 1]);
                }
            }
            assert forall|i: int, j: int| 0 <= i < w.len() && 0 <= j < w.len() && i != j implies w[i]
                != w[j] by {
                if i < rest.len() && j < rest.len() {
                    assert(rest[i] != rest[j]);
                } else if i < rest.len() {
                    assert(rest.contains(rest[i]));
                } else {
                    assert(rest.contains(rest[j]));
                }
            }
        }
    }
}

/// Leaving out a value that the sequence does not hold changes nothing.
pub proof fn lemma_without_absent<T>(items: Seq<T>, gone: Set<T>, x: T)
    requires
        !items.contains(x),
    ensures
        without(items, gone.insert(x)) == without(items, gone),
    decreases items.len(),
{
    if items.len() > 0 {
        let front = items.drop_last();
        assert(items[items.len() - 1] != x) by {
            assert(items.contains(items[items.len() - 1]));
        }
        assert(!front.contains(x)) by {
            if front.contains(x) {
                let j = choose|j: int| 0 <= j < front.len() && front[j] == x;
                assert(items[j] == x);
            }
        }
        lemma_without_absent(front, gone, x);
    }
}

/// Leaving out one value more removes it from the sequence and keeps the
/// rest in place.
pub proof fn lemma_without_one_more<T>(items: Seq<T>, gone: Set<T>, x: T)
    requires
        items.no_duplicates(),
        items.contains(x),
        !gone.contains(x),
    ensures
        without(items, gone).contains(x),
        without(items, gone.insert(x)) == without(items, gone).remove(
            without(items, gone).index_of(x),
        ),
    decreases items.len(),
{
    lemma_without(items, gone);
    let front = items.drop_last();
    let last = items.last();
    let w = without(items, gone);
    let rest = without(front, gone);
    lemma_without(front, gone);
    assert(front.no_duplicates());
    assert(w.contains(x));
    if last == x {
        assert(!front.contains(x)) by {
            if front.contains(x) {
                let j = choose|j: int| 0 <= j < front.len() && front[j] == x;
                assert(items[j] == items[items.len() - 1]);
            }
        }
        lemma_without_absent(front, gone, x);
        assert(w == rest.push(x));
        assert(!rest.contains(x));
        let p = w.index_of(x);
        assert(w[p] == x);
        if p < rest.len() {
            assert(rest[p] == x);
            assert(rest.contains(x));
        }
        assert(w.remove(p) =~= rest);
    } else {
        assert(front.contains(x)) by {
            let j = choose|j: int| 0 <= j < items.len() && items[j] == x;
            assert(front[j] == x);
        }
        lemma_without_one_more(front, gone, x);
        assert(rest.contains(x));
        let q = rest.index_of(x);
        assert(rest[q] == x);
        if !gone.contains(last) {
            assert(w == rest.push(last));
            let p = w.index_of(x);
            assert(w[q] == x);
            assert(w[p] == x);
            assert(p == q);
            assert(rest.push(last).remove(q) =~= rest.remove(q).push(last));
        }
    }
}

/// The members of a sequence that has grown by one are the member that was
/// added and those that it had.
pub proof fn lemma_take_one_more<T>(items: Seq<T>, k: int)
    requires
        0 <= k < items.len(),
    ensures
        items.take(k + 1).to_set() == items.take(k).to_set().insert(items[k]),
{
    let done = items.take(k);
    let next = items.take(k + 1);
    assert(next =~= done.push(items[k]));
    assert forall|x: T| #[trigger]
        next.to_set().contains(x) <==> done.to_set().insert(items[k]).contains(x) by {
        if next.contains(x) {
            let j = choose|j: int| 0 <= j < next.len() && next[j] == x;
            if j < k {
                assert(done[j] == x);
            }
        }
        if done.contains(x) {
            let j = choose|j: int| 0 <= j < done.len() && done[j] == x;
            assert(next[j] == x);
        }
        if x == items[k] {
            assert(next[k] == x);
        }
    }
    assert(next.to_set() =~= done.to_set().insert(items[k]));
}

} // verus!
