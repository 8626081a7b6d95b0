use thread_search::merge::{merge_and, merge_or};
use thread_search::rank::{comes_first, sort_by_recency, Recency};

#[test]
fn and_keeps_the_values_of_both_lists() {
    assert_eq!(merge_and(&vec![1, 3, 5, 7], &vec![2, 3, 4, 7, 9]), vec![3, 7]);
}

#[test]
fn and_of_disjoint_lists_is_empty() {
    assert_eq!(merge_and(&vec![1, 3, 5], &vec![2, 4, 6]), Vec::<usize>::new());
}

#[test]
fn and_with_an_empty_list_is_empty() {
    assert_eq!(merge_and(&vec![], &vec![2, 4, 6]), Vec::<usize>::new());
    assert_eq!(merge_and(&vec![2, 4, 6], &vec![]), Vec::<usize>::new());
}

#[test]
fn and_of_a_list_with_itself_is_the_list() {
    assert_eq!(merge_and(&vec![0, 2, 9], &vec![0, 2, 9]), vec![0, 2, 9]);
}

#[test]
fn or_keeps_every_value_once() {
    assert_eq!(merge_or(&vec![1, 3, 5], &vec![2, 3, 6]), vec![1, 2, 3, 5, 6]);
}

#[test]
fn or_with_an_empty_list_is_the_other_list() {
    assert_eq!(merge_or(&vec![], &vec![2, 4]), vec![2, 4]);
    assert_eq!(merge_or(&vec![2, 4], &vec![]), vec![2, 4]);
    assert_eq!(merge_or(&vec![], &vec![]), Vec::<usize>::new());
}

#[test]
fn or_of_a_list_with_itself_is_the_list() {
    assert_eq!(merge_or(&vec![4, 5, 6], &vec![4, 5, 6]), vec![4, 5, 6]);
}

#[test]
fn or_appends_the_longer_tail() {
    assert_eq!(merge_or(&vec![1], &vec![0, 5, 6, 7]), vec![0, 1, 5, 6, 7]);
}

#[test]
fn merges_compose_without_sorting_again() {
    let either = merge_or(&vec![0, 4], &vec![2, 4, 8]);
    assert_eq!(merge_and(&either, &vec![0, 1, 2, 3, 8]), vec![0, 2, 8]);
}

fn entry(date: u32, thread_id: usize) -> Recency {
    Recency { date, thread_id }
}

#[test]
fn the_most_recent_entry_comes_first() {
    let sorted = sort_by_recency(&vec![entry(100, 0), entry(300, 1), entry(200, 2)]);
    assert_eq!(sorted, vec![entry(300, 1), entry(200, 2), entry(100, 0)]);
}

#[test]
fn equally_recent_entries_keep_the_order_of_their_identifiers() {
    let entries = vec![entry(5, 0), entry(7, 1), entry(5, 2), entry(7, 3), entry(5, 4)];
    let sorted = sort_by_recency(&entries);
    assert_eq!(sorted, vec![entry(7, 1), entry(7, 3), entry(5, 0), entry(5, 2), entry(5, 4)]);
}

#[test]
fn sorting_nothing_gives_nothing() {
    assert_eq!(sort_by_recency(&vec![]), Vec::<Recency>::new());
    assert_eq!(sort_by_recency(&vec![entry(1, 9)]), vec![entry(1, 9)]);
}

#[test]
fn sorting_keeps_entries_that_occur_twice() {
    let sorted = sort_by_recency(&vec![entry(1, 1), entry(2, 1), entry(1, 1)]);
    assert_eq!(sorted, vec![entry(2, 1), entry(1, 1), entry(1, 1)]);
}

#[test]
fn the_highest_timestamp_is_not_mistaken_for_an_old_one() {
    let sorted = sort_by_recency(&vec![entry(0, 0), entry(u32::MAX, 1), entry(0x8000_0000, 2)]);
    assert_eq!(sorted, vec![entry(u32::MAX, 1), entry(0x8000_0000, 2), entry(0, 0)]);
}

#[test]
fn comes_first_is_by_time_then_by_identifier() {
    assert!(comes_first(&entry(2, 5), &entry(1, 0)));
    assert!(!comes_first(&entry(1, 0), &entry(2, 5)));
    assert!(comes_first(&entry(1, 0), &entry(1, 1)));
    assert!(!comes_first(&entry(1, 1), &entry(1, 1)));
}
