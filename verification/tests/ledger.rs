use comparator_layers::layers::Layer;
use comparator_layers::ledger::{fingerprint, Ledger, FINGERPRINT_MODULUS};

#[test]
fn fingerprint_reads_the_entries_as_digits() {
    assert_eq!(fingerprint(&vec![]), 0);
    assert_eq!(fingerprint(&vec![7]), 7);
    assert_eq!(fingerprint(&vec![1, 2, 3]), 66566);
    assert_eq!(fingerprint(&vec![0, 0, 1]), 1);
}

#[test]
fn fingerprint_stays_below_the_modulus() {
    let long = vec![255u8; 64];
    assert!(fingerprint(&long) < FINGERPRINT_MODULUS);
    let mut expected: u128 = 0;
    for value in &long {
        expected = (expected * 257 + *value as u128) % (FINGERPRINT_MODULUS as u128);
    }
    assert_eq!(fingerprint(&long) as u128, expected);
}

#[test]
fn ledger_holds_what_was_inserted() {
    let mut ledger = Ledger::new();
    assert!(!ledger.contains(&vec![0, 1]));
    ledger.insert(vec![0, 1]);
    assert!(ledger.contains(&vec![0, 1]));
    assert!(!ledger.contains(&vec![1, 0]));
    assert!(!ledger.contains(&vec![0, 1, 0]));
    ledger.insert(vec![1, 0]);
    ledger.insert(vec![0, 1]);
    assert!(ledger.contains(&vec![0, 1]));
    assert!(ledger.contains(&vec![1, 0]));
    assert!(!ledger.contains(&vec![]));
}

#[test]
fn ledger_tells_apart_tables_with_one_fingerprint() {
    // Two tables of eight entries whose positional readings differ by the modulus.
    let low: u128 = 5;
    let high: u128 = low + FINGERPRINT_MODULUS as u128;
    let digits = |mut number: u128| {
        let mut table = vec![0u8; 8];
        for place in (0..8).rev() {
            table[place] = (number % 257) as u8;
            assert!(number % 257 < 256);
            number /= 257;
        }
        assert_eq!(number, 0);
        table
    };
    let first = digits(low);
    let second = digits(high);
    assert_ne!(first, second);
    assert_eq!(fingerprint(&first), fingerprint(&second));
    let mut ledger = Ledger::new();
    ledger.insert(first.clone());
    assert!(ledger.contains(&first));
    assert!(!ledger.contains(&second));
    ledger.insert(second.clone());
    assert!(ledger.contains(&first));
    assert!(ledger.contains(&second));
}

#[test]
fn accept_refuses_a_registered_table() {
    let mut ledger = Ledger::new();
    ledger.insert(vec![1, 1]);
    let candidate = Layer::new(2, 0, false, 1, false);
    assert_eq!(candidate.output, vec![1, 1]);
    assert!(!ledger.accept(&candidate, 1));
}

#[test]
fn accept_refuses_too_few_different_values_without_registering() {
    let mut ledger = Ledger::new();
    let candidate = Layer::new(2, 0, false, 1, false);
    assert_eq!(candidate.distinct, 1);
    assert!(!ledger.accept(&candidate, 2));
    assert!(!ledger.contains(&candidate.output));
}

#[test]
fn accept_registers_what_it_keeps() {
    let mut ledger = Ledger::new();
    let candidate = Layer::new(2, 1, true, 1, true);
    assert_eq!(candidate.output, vec![1, 0]);
    assert!(ledger.accept(&candidate, 2));
    assert!(ledger.contains(&vec![1, 0]));
    assert!(!ledger.accept(&candidate, 2));
}

fn accepted_of_the_first_family(required: usize) -> Vec<Vec<u8>> {
    let mut ledger = Ledger::new();
    ledger.insert(vec![0, 1]);
    let mut accepted = Vec::new();
    for side_mode in [false, true] {
        for back_mode in [false, true] {
            for side in 0..2u8 {
                for back in 0..2u8 {
                    let candidate = Layer::new(2, side, side_mode, back, back_mode);
                    if ledger.accept(&candidate, required) {
                        accepted.push(candidate.output);
                    }
                }
            }
        }
    }
    accepted
}

#[test]
fn two_states_filter_accepts_by_hand() {
    // Of the sixteen combinations, eight give the identity [0, 1], six give
    // [1, 1], and [0, 0] is met at the eleventh, [1, 0] at the last.
    assert_eq!(accepted_of_the_first_family(1), vec![vec![1, 1], vec![0, 0], vec![1, 0]]);
    assert_eq!(accepted_of_the_first_family(2), vec![vec![1, 0]]);
    assert_eq!(accepted_of_the_first_family(3), Vec::<Vec<u8>>::new());
}
