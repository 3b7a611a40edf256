//! Walking the ordered collections of the standard library in key order.
//!
//! A `BTreeSet` or `BTreeMap` hands out its keys from the smallest to the
//! largest. The functions here copy the keys out in that order and say which
//! sequence they form: the one increasing sequence that holds every key once.
use std::collections::{BTreeMap, BTreeSet};
use vstd::prelude::*;
use vstd::std_specs::btree::increasing_seq;
use vstd::std_specs::cmp::OrdSpec;
use vstd::std_specs::iter::IteratorSpec;

verus! {

broadcast use vstd::laws_cmp::group_laws_cmp;

/// A sequence of keys that grows strictly from each element to the next.
pub open spec fn is_ascending(keys: Seq<usize>) -> bool {
    forall|i: int, j: int| 0 <= i < j < keys.len() ==> keys[i] < keys[j]
}

/// The keys of a finite set, from the smallest to the largest.
pub open spec fn ascending(keys: Set<usize>) -> Seq<usize> {
    choose|order: Seq<usize>| is_ascending(order) && order.to_set() == keys
}

/// The entries of a finite map, by increasing key.
pub open spec fn entries(map: Map<usize, usize>) -> Seq<(usize, usize)> {
    ascending(map.dom()).map_values(|key: usize| (key, map[key]))
}

/// Two increasing sequences over the same keys are the same sequence.
pub proof fn lemma_ascending_unique(a: Seq<usize>, b: Seq<usize>)
    requires
        is_ascending(a),
        is_ascending(b),
        a.to_set() == b.to_set(),
    ensures
        a == b,
    decreases a.len(),
{
    if a.len() == 0 {
        if b.len() > 0 {
            assert(b.to_set().contains(b[0]));
            assert(a.contains(b[0]));
        }
        assert(a =~= b);
    } else {
        let top = a.last();
        assert(a.to_set().contains(top));
        assert(b.contains(top));
        assert(b.len() > 0);
        assert(b.to_set().contains(b.last()));
        assert(a.contains(b.last()));
        assert(top == b.last());
        let a0 = a.drop_last();
        let b0 = b.drop_last();
        assert forall|x: usize| a0.to_set().contains(x) <==> b0.to_set().contains(x) by {
            if a0.contains(x) {
                let i = choose|i: int| 0 <= i < a0.len() && a0[i] == x;
                assert(a[i] == x);
                assert(a.to_set().contains(x));
                assert(b.contains(x));
                let j = choose|j: int| 0 <= j < b.len() && b[j] == x;
                assert(b0[j] == x);
            }
            if b0.contains(x) {
                let j = choose|j: int| 0 <= j < b0.len() && b0[j] == x;
                assert(b[j] == x);
                assert(b.to_set().contains(x));
                assert(a.contains(x));
                let i = choose|i: int| 0 <= i < a.len() && a[i] == x;
                assert(a0[i] == x);
            }
        }
        assert(a0.to_set() =~= b0.to_set());
        lemma_ascending_unique(a0, b0);
        assert(a =~= a0.push(top));
        assert(b =~= b0.push(top));
    }
}

/// An increasing sequence that holds exactly the keys of a set is the set in
/// ascending order.
pub proof fn lemma_ascending_is(order: Seq<usize>, keys: Set<usize>)
    requires
        is_ascending(order),
        order.to_set() == keys,
    ensures
        ascending(keys) == order,
{
    let chosen = ascending(keys);
    assert(is_ascending(chosen) && chosen.to_set() == keys);
    lemma_ascending_unique(chosen, order);
}

/// A finite set of keys that is not empty has a largest key.
pub proof fn lemma_largest(keys: Set<usize>) -> (top: usize)
    requires
        keys.finite(),
        keys.len() > 0,
    ensures
        keys.contains(top),
        forall|key: usize| keys.contains(key) ==> key <= top,
    decreases keys.len(),
{
    let some = keys.choose();
    let rest = keys.remove(some);
    if rest.len() == 0 {
        assert forall|key: usize| keys.contains(key) implies key <= some by {
            if key != some {
                assert(rest.contains(key));
                assert(rest.len() > 0);
            }
        }
        some
    } else {
        let top = lemma_largest(rest);
        assert forall|key: usize| keys.contains(key) implies key <= (if some > top {
            some
        } else {
            top
        }) by {
            if key != some {
                assert(rest.contains(key));
            }
        }
        if some > top {
            some
        } else {
            top
        }
    }
}

/// The keys of a finite set in ascending order are its keys, in ascending
/// order.
pub proof fn lemma_ascending(keys: Set<usize>)
    requires
        keys.finite(),
    ensures
        is_ascending(ascending(keys)),
        ascending(keys).to_set() == keys,
    decreases keys.len(),
{
    if keys.len() == 0 {
        let none = Seq::<usize>::empty();
        assert(none.to_set() =~= keys);
        assert(is_ascending(none) && none.to_set() == keys);
    } else {
        let top = lemma_largest(keys);
        let rest = keys.remove(top);
        lemma_ascending(rest);
        let order = ascending(rest).push(top);
        assert forall|i: int, j: int| 0 <= i < j < order.len() implies order[i] < order[j] by {
            if j == order.len() - 1 {
                assert(ascending(rest).to_set().contains(order[i]));
            }
        }
        assert forall|key: usize| order.to_set().contains(key) <==> keys.contains(key) by {
            if order.contains(key) {
                let i = choose|i: int| 0 <= i < order.len() && order[i] == key;
                if i < order.len() - 1 {
                    assert(ascending(rest).to_set().contains(ascending(rest)[i]));
                }
            }
            if keys.contains(key) {
                if key == top {
                    assert(order[order.len() - 1] == key);
                } else {
                    assert(rest.contains(key));
                    assert(ascending(rest).contains(key));
                    let i = choose|i: int|
                        0 <= i < ascending(rest).len() && ascending(rest)[i] == key;
                    assert(order[i] == key);
                }
            }
        }
        assert(order.to_set() =~= keys);
        assert(is_ascending(order) && order.to_set() == keys);
    }
}

/// The stops of a set in ascending order.
pub fn elements(set: &BTreeSet<usize>) -> (order: Vec<usize>)
    ensures
        order@ == ascending(set@),
{
    let mut order: Vec<usize> = Vec::new();
    let walk = set.iter();
    let ghost coming = walk.remaining();
    for key in it: walk
        invariant
            it.seq() == coming,
            order.len() == it.index(),
            forall|j: int| 0 <= j < order.len() ==> order@[j] == *it.seq()[j],
    {
        order.push(*key);
    }
    proof {
        let keys = coming.unref();
        assert(order@ =~= keys);
        assert(vstd::laws_cmp::obeys_cmp::<usize>());
        assert(vstd::laws_cmp::obeys_cmp::<&usize>());
        assert(increasing_seq(coming));
        assert forall|i: int, j: int| 0 <= i < j < keys.len() implies keys[i] < keys[j] by {
            assert(OrdSpec::cmp_spec(&coming[i], &coming[j]) is Less);
        }
        lemma_ascending_is(order@, set@);
    }
    order
}

/// The entries of a map by increasing key.
pub fn sorted_entries(map: &BTreeMap<usize, usize>) -> (pairs: Vec<(usize, usize)>)
    ensures
        pairs@ == entries(map@),
{
    let mut pairs: Vec<(usize, usize)> = Vec::new();
    let walk = map.iter();
    let ghost coming = walk.remaining();
    for entry in it: walk
        invariant
            it.seq() == coming,
            pairs.len() == it.index(),
            forall|j: int|
                0 <= j < pairs.len() ==> pairs@[j].0 == *it.seq()[j].0 && pairs@[j].1
                    == *it.seq()[j].1,
    {
        let (key, value) = entry;
        pairs.push((*key, *value));
    }
    proof {
        let keys = coming.map_values(|kv: (&usize, &usize)| *kv.0);
        assert(increasing_seq(keys));
        assert forall|i: int, j: int| 0 <= i < j < keys.len() implies keys[i] < keys[j] by {
            assert(keys[i].cmp_spec(&keys[j]) is Less);
        }
        assert(keys.to_set() =~= map@.dom()) by {
            assert forall|k: usize| keys.to_set().contains(k) implies map@.dom().contains(k) by {
                let i = choose|i: int| 0 <= i < keys.len() && keys[i] == k;
                assert(map@.contains_key(*coming[i].0));
            }
            assert forall|k: usize| map@.dom().contains(k) implies keys.to_set().contains(k) by {
                assert(coming.contains((&k, &map@[k])));
                let i = choose|i: int| 0 <= i < coming.len() && coming[i] == (&k, &map@[k]);
                assert(keys[i] == k);
            }
        }
        lemma_ascending_is(keys, map@.dom());
        assert forall|i: int| 0 <= i < pairs.len() implies pairs@[i] == entries(map@)[i] by {
            assert(map@.contains_key(*coming[i].0));
            assert(keys[i] == *coming[i].0);
        }
        assert(pairs@ =~= entries(map@));
    }
    pairs
}

} // verus!
