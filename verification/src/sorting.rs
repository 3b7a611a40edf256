//! Sorting by a key that keeps equal keys in the order they came in.
use vstd::prelude::*;

verus! {

/// `sorted` with `item` put behind every element whose key is not larger.
pub open spec fn insert_by_key(sorted: Seq<(u32, usize)>, item: (u32, usize)) -> Seq<
    (u32, usize),
>
    decreases sorted.len(),
{
    if sorted.len() == 0 {
        seq![item]
    } else if sorted.last().0 <= item.0 {
        sorted.push(item)
    } else {
        insert_by_key(sorted.drop_last(), item).push(sorted.last())
    }
}

/// The items by increasing key; items of the same key keep their order.
pub open spec fn sorted_by_key(items: Seq<(u32, usize)>) -> Seq<(u32, usize)>
    decreases items.len(),
{
    if items.len() == 0 {
        Seq::empty()
    } else {
        insert_by_key(sorted_by_key(items.drop_last()), items.last())
    }
}

/// A sequence whose keys never decrease.
pub open spec fn is_ordered(items: Seq<(u32, usize)>) -> bool {
    forall|i: int, j: int| 0 <= i <= j < items.len() ==> items[i].0 <= items[j].0
}

/// Where an item goes into a sorted sequence: behind `at` elements.
pub proof fn lemma_insert_at(sorted: Seq<(u32, usize)>, item: (u32, usize), at: int)
    requires
        0 <= at <= sorted.len(),
        at > 0 ==> sorted[at - 1].0 <= item.0,
        forall|i: int| at <= i < sorted.len() ==> sorted[i].0 > item.0,
    ensures
        insert_by_key(sorted, item) == sorted.insert(at, item),
    decreases sorted.len(),
{
    if sorted.len() == 0 {
        assert(seq![item] =~= sorted.insert(at, item));
    } else if at == sorted.len() {
        assert(sorted.push(item) =~= sorted.insert(at, item));
    } else {
        lemma_insert_at(sorted.drop_last(), item, at);
        assert(sorted.drop_last().insert(at, item).push(sorted.last()) =~= sorted.insert(
            at,
            item,
        ));
    }
}

/// Inserting keeps the order, adds one element, and adds no other.
pub proof fn lemma_insert_by_key(sorted: Seq<(u32, usize)>, item: (u32, usize))
    requires
        is_ordered(sorted),
    ensures
        is_ordered(insert_by_key(sorted, item)),
        insert_by_key(sorted, item).len() == sorted.len() + 1,
        forall|i: int|
            0 <= i < sorted.len() + 1 ==> (#[trigger] insert_by_key(sorted, item)[i]) == item
                || sorted.contains(insert_by_key(sorted, item)[i]),
        insert_by_key(sorted, item).contains(item),
        forall|i: int|
            0 <= i < sorted.len() ==> insert_by_key(sorted, item).contains(#[trigger] sorted[i]),
    decreases sorted.len(),
{
    let after = insert_by_key(sorted, item);
    if sorted.len() == 0 {
        assert(after[0] == item);
    } else if sorted.last().0 <= item.0 {
        assert(after[sorted.len() as int] == item);
        assert forall|i: int| 0 <= i < sorted.len() + 1 implies (#[trigger] after[i]) == item
            || sorted.contains(after[i]) by {
            if i < sorted.len() {
                assert(after[i] == sorted[i]);
            }
        }
        assert forall|i: int| 0 <= i < sorted.len() implies after.contains(
            #[trigger] sorted[i],
        ) by {
            assert(after[i] == sorted[i]);
        }
    } else {
        let front = sorted.drop_last();
        let inner = insert_by_key(front, item);
        assert(is_ordered(front));
        lemma_insert_by_key(front, item);
        assert forall|i: int, j: int| 0 <= i <= j < after.len() implies after[i].0
            <= after[j].0 by {
            if j == after.len() - 1 && i < j {
                if inner[i] == item {
                } else {
                    let at = choose|at: int| 0 <= at < front.len() && front[at] == inner[i];
                    assert(sorted[at] == inner[i]);
                }
            }
        }
        assert forall|i: int| 0 <= i < sorted.len() + 1 implies (#[trigger] after[i]) == item
            || sorted.contains(after[i]) by {
            if i < inner.len() {
                if inner[i] != item {
                    let at = choose|at: int| 0 <= at < front.len() && front[at] == inner[i];
                    assert(sorted[at] == inner[i]);
                }
            } else {
                assert(sorted[sorted.len() - 1] == after[i]);
            }
        }
        let at = choose|at: int| 0 <= at < inner.len() && inner[at] == item;
        assert(after[at] == item);
        assert forall|i: int| 0 <= i < sorted.len() implies after.contains(
            #[trigger] sorted[i],
        ) by {
            if i < front.len() {
                assert(front[i] == sorted[i]);
                let to = choose|to: int| 0 <= to < inner.len() && inner[to] == front[i];
                assert(after[to] == sorted[i]);
            } else {
                assert(after[after.len() - 1] == sorted[i]);
            }
        }
    }
}

/// Sorting keeps the items, and puts them in order.
pub proof fn lemma_sorted_by_key(items: Seq<(u32, usize)>)
    ensures
        is_ordered(sorted_by_key(items)),
        sorted_by_key(items).len() == items.len(),
        forall|i: int|
            0 <= i < items.len() ==> items.contains(#[trigger] sorted_by_key(items)[i]),
        forall|i: int|
            0 <= i < items.len() ==> sorted_by_key(items).contains(#[trigger] items[i]),
    decreases items.len(),
{
    if items.len() > 0 {
        let front = items.drop_last();
        let sorted = sorted_by_key(front);
        let after = sorted_by_key(items);
        lemma_sorted_by_key(front);
        lemma_insert_by_key(sorted, items.last());
        assert forall|i: int| 0 <= i < items.len() implies items.contains(
            #[trigger] after[i],
        ) by {
            if after[i] == items.last() {
                assert(items[items.len() - 1] == after[i]);
            } else {
                let at = choose|at: int| 0 <= at < sorted.len() && sorted[at] == after[i];
                assert(front.contains(sorted[at]));
                let from = choose|from: int| 0 <= from < front.len() && front[from] == sorted[at];
                assert(items[from] == after[i]);
            }
        }
        assert forall|i: int| 0 <= i < items.len() implies after.contains(
            #[trigger] items[i],
        ) by {
            if i < front.len() {
                assert(front[i] == items[i]);
                assert(sorted.contains(front[i]));
                let at = choose|at: int| 0 <= at < sorted.len() && sorted[at] == front[i];
                assert(after.contains(sorted[at]));
            }
        }
    }
}

/// Sorts the items by their key; items of the same key keep their order.
pub fn sort_by_key(items: &Vec<(u32, usize)>) -> (sorted: Vec<(u32, usize)>)
    ensures
        sorted@ == sorted_by_key(items@),
{
    let mut sorted: Vec<(u32, usize)> = Vec::new();
    let mut i: usize = 0;
    assert(items@.take(0) =~= Seq::empty());
    while i < items.len()
        invariant
            i <= items.len(),
            sorted@ == sorted_by_key(items@.take(i as int)),
        decreases items.len() - i,
    {
        let item = items[i];
        let mut at: usize = sorted.len();
        proof {
            lemma_sorted_by_key(items@.take(i as int));
        }
        while at > 0 && sorted[at - 1].0 > item.0
            invariant
                at <= sorted.len(),
                forall|j: int| at <= j < sorted.len() ==> sorted@[j].0 > item.0,
            decreases at,
        {
            at = at - 1;
        }
        proof {
            lemma_insert_at(sorted@, item, at as int);
            assert(items@.take(i + 1).drop_last() =~= items@.take(i as int));
        }
        sorted.insert(at, item);
        i = i + 1;
    }
    assert(items@.take(i as int) =~= items@);
    sorted
}

} // verus!
