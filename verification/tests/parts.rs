use raptor::buckets::{hash_list, hash_name, Buckets};
use raptor::ordered::{elements, sorted_entries};
use raptor::reconstruct_journey;
use raptor::sorting::sort_by_key;
use raptor::{Route, Stop, K};
use std::collections::{BTreeMap, BTreeSet};

fn tree(entries: &[((K, Stop), (Stop, Route))]) -> BTreeMap<(K, Stop), (Stop, Route)> {
    entries.iter().copied().collect()
}

#[test]
fn an_empty_tree_gives_no_plan() {
    assert!(reconstruct_journey(&BTreeMap::new(), 0, 9, 10).is_empty());
}

#[test]
fn a_direct_entry_gives_one_plan() {
    let found = reconstruct_journey(&tree(&[((1, 9), (0, 7))]), 0, 9, 10);
    assert_eq!(found, vec![vec![(7, 0)]]);
}

#[test]
fn a_chain_is_read_back_source_first() {
    let entries = [((1, 4), (0, 11)), ((2, 6), (4, 12)), ((3, 9), (6, 13))];
    let found = reconstruct_journey(&tree(&entries), 0, 9, 3);
    assert_eq!(found, vec![vec![(11, 0), (12, 4), (13, 6)]]);
}

#[test]
fn each_round_that_reaches_the_target_gives_a_plan() {
    let entries = [((1, 9), (0, 1)), ((1, 4), (0, 2)), ((2, 9), (4, 3))];
    let found = reconstruct_journey(&tree(&entries), 0, 9, 5);
    assert_eq!(found, vec![vec![(1, 0)], vec![(2, 0), (3, 4)]]);
}

#[test]
fn rounds_beyond_the_limit_are_not_read() {
    let entries = [((1, 9), (0, 1)), ((1, 4), (0, 2)), ((2, 9), (4, 3))];
    assert_eq!(reconstruct_journey(&tree(&entries), 0, 9, 1), vec![vec![(1, 0)]]);
    assert!(reconstruct_journey(&tree(&entries), 0, 9, 0).is_empty());
}

#[test]
fn a_chain_that_breaks_gives_no_plan() {
    // The way back from 9 leads to 4, of which round 1 knows nothing.
    let entries = [((2, 9), (4, 3)), ((2, 4), (0, 2))];
    assert!(reconstruct_journey(&tree(&entries), 0, 9, 5).is_empty());
}

#[test]
fn a_chain_that_ends_away_from_the_source_gives_no_plan() {
    assert!(reconstruct_journey(&tree(&[((1, 9), (5, 1))]), 0, 9, 5).is_empty());
}

#[test]
fn a_target_equal_to_the_source_gives_no_plan() {
    assert!(reconstruct_journey(&tree(&[((1, 9), (9, 1))]), 9, 9, 5).is_empty());
}

#[test]
fn a_way_back_stops_at_the_source() {
    // Round 2 reaches the target from the source itself: the plan has one
    // hop, though it was read back from the second round.
    let entries = [((2, 9), (0, 3)), ((1, 0), (7, 1))];
    assert_eq!(reconstruct_journey(&tree(&entries), 0, 9, 2), vec![vec![(3, 0)]]);
}

#[test]
fn sorting_orders_by_key() {
    let sorted = sort_by_key(&vec![(30, 0), (10, 1), (20, 2)]);
    assert_eq!(sorted, vec![(10, 1), (20, 2), (30, 0)]);
}

#[test]
fn sorting_keeps_equal_keys_in_their_order() {
    let sorted = sort_by_key(&vec![(5, 0), (1, 1), (5, 2), (1, 3), (5, 4)]);
    assert_eq!(sorted, vec![(1, 1), (1, 3), (5, 0), (5, 2), (5, 4)]);
}

#[test]
fn sorting_nothing_gives_nothing() {
    assert!(sort_by_key(&vec![]).is_empty());
    assert_eq!(sort_by_key(&vec![(u32::MAX, 7)]), vec![(u32::MAX, 7)]);
}

#[test]
fn a_set_is_walked_from_the_smallest_stop_up() {
    let set: BTreeSet<usize> = [7, 3, usize::MAX, 0, 3].into_iter().collect();
    assert_eq!(elements(&set), vec![0, 3, 7, usize::MAX]);
    assert!(elements(&BTreeSet::new()).is_empty());
}

#[test]
fn a_map_is_walked_by_increasing_key() {
    let map: BTreeMap<usize, usize> = [(7, 1), (3, 2), (0, 9)].into_iter().collect();
    assert_eq!(sorted_entries(&map), vec![(0, 9), (3, 2), (7, 1)]);
    assert!(sorted_entries(&BTreeMap::new()).is_empty());
}

#[test]
fn names_are_hashed_byte_by_byte() {
    assert_eq!(hash_name(""), 0xcbf2_9ce4_8422_2325);
    assert_eq!(hash_name("a"), 0xaf63_dc4c_8601_ec8c);
    assert_eq!(hash_name("foobar"), 0x8594_4171_f739_67e8);
    assert_ne!(hash_name("ab"), hash_name("ba"));
}

#[test]
fn lists_are_hashed_number_by_number() {
    assert_eq!(hash_list(&vec![]), 0xcbf2_9ce4_8422_2325);
    assert_eq!(hash_list(&vec![0x61]), 0xaf63_dc4c_8601_ec8c);
    assert_eq!(hash_list(&vec![1, 2, 3]), hash_list(&vec![1, 2, 3]));
    assert_ne!(hash_list(&vec![1, 2, 3]), hash_list(&vec![3, 2, 1]));
}

#[test]
fn an_index_holds_the_places_of_each_hash_in_order() {
    let mut index = Buckets::new();
    assert!(index.candidates(7).is_none());
    index.add(7);
    index.add(9);
    index.add(7);
    assert_eq!(index.candidates(7), Some(&vec![0, 2]));
    assert_eq!(index.candidates(9), Some(&vec![1]));
    assert!(index.candidates(8).is_none());
}
