use comparator_layers::vector::{
    comparator, compose_into, copy_table, distinct, identity_table, is_in_range, same_table,
};
use std::collections::HashSet;

#[test]
fn comparator_emits_nothing_when_side_is_stronger() {
    assert_eq!(comparator(3, 4, false), 0);
    assert_eq!(comparator(3, 4, true), 0);
    assert_eq!(comparator(0, 255, true), 0);
}

#[test]
fn comparator_passes_back_signal_in_compare_mode() {
    assert_eq!(comparator(7, 7, false), 7);
    assert_eq!(comparator(15, 0, false), 15);
    assert_eq!(comparator(9, 4, false), 9);
}

#[test]
fn comparator_subtracts_in_subtract_mode() {
    assert_eq!(comparator(7, 7, true), 0);
    assert_eq!(comparator(15, 0, true), 15);
    assert_eq!(comparator(9, 4, true), 5);
    assert_eq!(comparator(255, 1, true), 254);
}

#[test]
fn comparator_never_exceeds_back_signal() {
    for back in 0..=255u8 {
        for side in 0..=255u8 {
            assert!(comparator(back, side, false) <= back);
            assert!(comparator(back, side, true) <= back);
        }
    }
}

#[test]
fn distinct_counts_different_values() {
    assert_eq!(distinct(&vec![]), 0);
    assert_eq!(distinct(&vec![5]), 1);
    assert_eq!(distinct(&vec![0, 0, 0, 0]), 1);
    assert_eq!(distinct(&vec![3, 1, 4, 1, 5, 9, 2, 6, 5, 3, 5, 8, 9, 7, 9, 3]), 9);
    assert_eq!(distinct(&vec![0, 15, 14, 13, 12, 11, 10, 9, 8, 7, 6, 5, 4, 3, 2, 1]), 16);
}

#[test]
fn distinct_agrees_with_a_hash_set() {
    let mut table: Vec<u8> = Vec::new();
    let mut seed: u32 = 12345;
    for _ in 0..200 {
        seed = seed.wrapping_mul(1103515245).wrapping_add(12345);
        table.push((seed >> 16) as u8 % 23);
        let unique: HashSet<u8> = table.iter().copied().collect();
        assert_eq!(distinct(&table), unique.len());
    }
}

#[test]
fn identity_table_counts_up() {
    assert_eq!(identity_table(0), Vec::<u8>::new());
    assert_eq!(identity_table(4), vec![0, 1, 2, 3]);
    let full = identity_table(256);
    assert_eq!(full.len(), 256);
    assert_eq!(full[255], 255);
    assert_eq!(full[17], 17);
}

#[test]
fn same_table_compares_entry_by_entry() {
    assert!(same_table(&vec![], &vec![]));
    assert!(same_table(&vec![1, 2, 3], &vec![1, 2, 3]));
    assert!(!same_table(&vec![1, 2, 3], &vec![1, 2, 4]));
    assert!(!same_table(&vec![1, 2, 3], &vec![1, 2]));
    assert!(!same_table(&vec![0], &vec![]));
}

#[test]
fn copy_table_keeps_every_entry() {
    let table = vec![9u8, 8, 7, 7, 0];
    assert_eq!(copy_table(&table), table);
    assert_eq!(copy_table(&Vec::new()), Vec::<u8>::new());
}

#[test]
fn is_in_range_checks_length_and_values() {
    assert!(is_in_range(&vec![0, 0, 0, 0], 4));
    assert!(is_in_range(&vec![3, 2, 1, 0], 4));
    assert!(!is_in_range(&vec![0, 0, 0, 4], 4));
    assert!(!is_in_range(&vec![0, 0, 0], 4));
    assert!(!is_in_range(&vec![0, 0, 0, 0, 0], 4));
    assert!(is_in_range(&vec![], 0));
}

#[test]
fn compose_into_sends_inputs_through_the_table() {
    let table = vec![3u8, 0, 0, 1];
    let inputs = vec![1u8, 2, 3, 3];
    let mut buffer = vec![42u8; 9];
    compose_into(&table, &inputs, &mut buffer);
    assert_eq!(buffer, vec![0, 0, 1, 1]);
    compose_into(&table, &vec![], &mut buffer);
    assert_eq!(buffer, Vec::<u8>::new());
}

#[test]
fn composing_with_the_identity_changes_nothing() {
    let table = vec![2u8, 2, 0, 1, 4];
    let mut buffer = Vec::new();
    compose_into(&table, &identity_table(5), &mut buffer);
    assert_eq!(buffer, table);
    compose_into(&identity_table(5), &table, &mut buffer);
    assert_eq!(buffer, table);
}
