//! Ascending lists of names.

use johnnybt_engine::account::{insert_sorted, merged};

#[test]
fn inserting_keeps_a_list_ascending_and_free_of_repeats() {
    let mut list = Vec::new();
    for name in [5, 1, 9, 5, 3, 1, 0, 9] {
        insert_sorted(&mut list, name);
    }
    assert_eq!(list, vec![0, 1, 3, 5, 9]);
}

#[test]
fn inserting_a_name_that_is_there_changes_nothing() {
    let mut list = vec![2, 4, 6];
    insert_sorted(&mut list, 4);
    assert_eq!(list, vec![2, 4, 6]);
}

#[test]
fn merging_names_what_either_list_does() {
    assert_eq!(merged(&[1, 3, 5], &[2, 3, 8]), vec![1, 2, 3, 5, 8]);
    assert_eq!(merged(&[], &[4, 7]), vec![4, 7]);
    assert_eq!(merged(&[4, 7], &[]), vec![4, 7]);
    assert_eq!(merged(&[], &[]), Vec::<usize>::new());
    assert_eq!(merged(&[1, 2], &[1, 2]), vec![1, 2]);
}
