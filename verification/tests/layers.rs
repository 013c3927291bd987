use comparator_layers::config::Config;
use comparator_layers::layers::{Generation, Layer, Layers};
use comparator_layers::vector::{comparator, identity_table};
use itertools::Itertools;
use std::collections::HashSet;

fn config_for(target: Vec<u8>) -> Config {
    Config::new(target.len(), target, vec![]).unwrap()
}

fn first_family(states: usize, side: u8, side_mode: bool, back: u8, back_mode: bool) -> Vec<u8> {
    (0..states)
        .map(|i| {
            let input = i as u8;
            comparator(input, side, side_mode).max(comparator(back, input, back_mode))
        })
        .collect()
}

fn second_family(states: usize, compare: u8, subtract: u8) -> Vec<u8> {
    (0..states)
        .map(|i| {
            let input = i as u8;
            comparator(compare, input, false).max(comparator(subtract, input, true))
        })
        .collect()
}

/// Generation as a plain program: candidates in the order of the cartesian
/// product, each looked up in a set of the tables seen so far.
fn plain_generation(states: usize, required: usize) -> Vec<(Vec<u8>, String)> {
    let limit = states as u8;
    let mut seen: HashSet<Vec<u8>> = HashSet::new();
    seen.insert((0..states).map(|i| i as u8).collect());
    let mut kept = Vec::new();
    let modes = [false, true];
    let first = modes
        .iter()
        .copied()
        .cartesian_product(modes.iter().copied())
        .cartesian_product(0..limit)
        .cartesian_product(0..limit);
    for (((side_mode, back_mode), side), back) in first {
        let table = first_family(states, side, side_mode, back, back_mode);
        if seen.contains(&table) {
            continue;
        }
        seen.insert(table.clone());
        let distinct = table.iter().collect::<HashSet<_>>().len();
        if distinct < required {
            continue;
        }
        let side_star = if side_mode { "*" } else { "" };
        let back_star = if back_mode { "*" } else { "" };
        kept.push((table, format!("{side_star}{side},{back_star}{back};")));
    }
    for (compare, subtract) in (0..limit).cartesian_product(0..limit) {
        let table = second_family(states, compare, subtract);
        if seen.contains(&table) {
            continue;
        }
        seen.insert(table.clone());
        let distinct = table.iter().collect::<HashSet<_>>().len();
        if distinct < required {
            continue;
        }
        kept.push((table, String::new()));
    }
    kept
}

#[test]
fn new_builds_the_table_of_the_first_family() {
    let layer = Layer::new(16, 3, true, 12, false);
    assert_eq!(layer.output, vec![12, 12, 12, 12, 12, 12, 12, 12, 12, 12, 12, 12, 12, 10, 11, 12]);
    assert_eq!(layer.distinct, 3);
    assert_eq!(layer.notation, "*3,12;");
    assert!(layer.children.is_empty());
    assert!(!layer.valid_parent);
}

#[test]
fn new_writes_the_asterisk_notation() {
    assert_eq!(Layer::new(16, 0, false, 0, false).notation, "0,0;");
    assert_eq!(Layer::new(16, 9, false, 10, true).notation, "9,*10;");
    assert_eq!(Layer::new(16, 15, true, 7, true).notation, "*15,*7;");
    assert_eq!(Layer::new(256, 255, true, 100, false).notation, "*255,100;");
    assert_eq!(Layer::new(256, 109, false, 200, true).notation, "109,*200;");
}

#[test]
fn new_with_no_signals_is_the_identity() {
    let layer = Layer::new(16, 0, false, 0, false);
    assert_eq!(layer.output, identity_table(16));
    assert_eq!(layer.distinct, 16);
}

#[test]
fn alternate_builds_the_table_of_the_second_family() {
    let layer = Layer::alternate(16, 5, 9);
    assert_eq!(layer.output, vec![9, 8, 7, 6, 5, 5, 3, 2, 1, 0, 0, 0, 0, 0, 0, 0]);
    assert_eq!(layer.distinct, 9);
    assert_eq!(layer.notation, "");
    assert!(layer.children.is_empty());
    assert!(!layer.valid_parent);
}

#[test]
fn pass_sends_every_input_through_the_layer() {
    let layer = Layer::alternate(16, 5, 9);
    let inputs = vec![0, 15, 14, 13, 12, 11, 10, 9, 8, 7, 6, 5, 4, 3, 2, 1];
    assert_eq!(layer.pass(&inputs), vec![9, 0, 0, 0, 0, 0, 0, 0, 1, 2, 3, 5, 5, 6, 7, 8]);
    assert_eq!(layer.pass(&identity_table(16)), layer.output);
    assert_eq!(layer.pass(&vec![]), Vec::<u8>::new());
}

#[test]
fn distinct_count_is_the_number_of_unique_outputs() {
    for states in 1..=6usize {
        let limit = states as u8;
        for side in 0..limit {
            for back in 0..limit {
                for modes in 0..4 {
                    let layer = Layer::new(states, side, modes / 2 == 1, back, modes % 2 == 1);
                    let unique: HashSet<u8> = layer.output.iter().copied().collect();
                    assert_eq!(layer.distinct, unique.len());
                    assert_eq!(
                        layer.output,
                        first_family(states, side, modes / 2 == 1, back, modes % 2 == 1)
                    );
                }
                let layer = Layer::alternate(states, side, back);
                let unique: HashSet<u8> = layer.output.iter().copied().collect();
                assert_eq!(layer.distinct, unique.len());
                assert_eq!(layer.output, second_family(states, side, back));
            }
        }
    }
}

#[test]
fn two_states_first_family_by_hand() {
    // The sixteen combinations give four tables: the identity [0, 1], and
    // [1, 1], [0, 0], [1, 0], first met in that order.
    let mut tables = Vec::new();
    for modes in 0..4 {
        for side in 0..2u8 {
            for back in 0..2u8 {
                tables.push(Layer::new(2, side, modes / 2 == 1, back, modes % 2 == 1).output);
            }
        }
    }
    assert_eq!(
        tables,
        vec![
            vec![0, 1], vec![1, 1], vec![0, 1], vec![1, 1],
            vec![0, 1], vec![1, 1], vec![0, 1], vec![1, 1],
            vec![0, 1], vec![1, 1], vec![0, 0], vec![1, 1],
            vec![0, 1], vec![1, 1], vec![0, 0], vec![1, 0],
        ]
    );
}

#[test]
fn two_states_keep_every_table_but_the_identity() {
    let made = Layers::generate_layers(&config_for(vec![0, 0]));
    let tables: Vec<Vec<u8>> = made.layers.iter().map(|layer| layer.output.clone()).collect();
    assert_eq!(tables, vec![vec![1, 1], vec![0, 0], vec![1, 0]]);
    let notations: Vec<&str> = made.layers.iter().map(|layer| layer.notation.as_str()).collect();
    assert_eq!(notations, vec!["0,1;", "*1,0;", "*1,*1;"]);
    let counts: Vec<usize> = made.layers.iter().map(|layer| layer.distinct).collect();
    assert_eq!(counts, vec![1, 1, 2]);
}

#[test]
fn two_states_keep_only_tables_with_enough_values() {
    let made = Layers::generate_layers(&config_for(vec![1, 0]));
    assert_eq!(made.layers.len(), 1);
    assert_eq!(made.layers[0].output, vec![1, 0]);
    assert_eq!(made.layers[0].notation, "*1,*1;");
    assert_eq!(made.layers[0].distinct, 2);
}

#[test]
fn four_states_to_zero_keep_the_constant_zero_layer() {
    let config = config_for(vec![0, 0, 0, 0]);
    assert_eq!(config.distinct, 1);
    let made = Layers::generate_layers(&config);
    assert!(!made.layers.is_empty());
    assert!(made.layers.iter().any(|layer| layer.output == vec![0, 0, 0, 0]));
    assert!(made.is_valid(&config));
}

#[test]
fn no_table_is_kept_twice_and_the_identity_never() {
    for states in 1..=8usize {
        let config = config_for(vec![0; states]);
        let made = Layers::generate_layers(&config);
        let unique: HashSet<&Vec<u8>> = made.layers.iter().map(|layer| &layer.output).collect();
        assert_eq!(unique.len(), made.layers.len());
        assert!(!unique.contains(&identity_table(states)));
        assert!(made.is_valid(&config));
    }
}

#[test]
fn generation_follows_the_order_of_the_cartesian_product() {
    for target in [vec![0, 0, 0], vec![0, 1, 1], vec![2, 0, 1], vec![0, 0, 0, 0, 0], vec![1, 4, 1, 0, 0]] {
        let config = config_for(target);
        let made = Layers::generate_layers(&config);
        let expected = plain_generation(config.states, config.distinct);
        assert_eq!(made.layers.len(), expected.len());
        for (layer, (table, notation)) in made.layers.iter().zip(expected.iter()) {
            assert_eq!(&layer.output, table);
            assert_eq!(&layer.notation, notation);
            assert!(layer.children.is_empty());
            assert!(!layer.valid_parent);
        }
    }
}

#[test]
fn sixteen_states_agree_with_the_plain_program() {
    let config = Config::standard();
    let made = Layers::generate_layers(&config);
    let expected = plain_generation(16, 1);
    assert_eq!(made.layers.len(), expected.len());
    for (layer, (table, notation)) in made.layers.iter().zip(expected.iter()) {
        assert_eq!(&layer.output, table);
        assert_eq!(&layer.notation, notation);
    }
}

#[test]
fn one_state_keeps_nothing() {
    let made = Layers::generate_layers(&config_for(vec![0]));
    assert!(made.layers.is_empty());
}

#[test]
fn generation_work_is_four_times_the_square() {
    assert_eq!(Layers::generation_work(16), 1024);
    assert_eq!(Layers::generation_work(0), 0);
    assert_eq!(Layers::generation_work(256), 262144);
}

#[test]
fn collections_that_are_not_well_formed_are_not_valid() {
    let config = config_for(vec![0, 0, 0, 0]);
    let made = Layers::generate_layers(&config);
    assert!(made.is_valid(&config));

    let mut twice = made.clone();
    let copy = twice.layers[0].clone();
    twice.layers.push(copy);
    assert!(!twice.is_valid(&config));

    let mut with_identity = made.clone();
    with_identity.layers.push(Layer::new(4, 0, false, 0, false));
    assert!(!with_identity.is_valid(&config));

    let mut wrong_count = made.clone();
    wrong_count.layers[0].distinct += 1;
    assert!(!wrong_count.is_valid(&config));

    let mut wrong_child = made.clone();
    let count = wrong_child.layers.len();
    wrong_child.layers[0].children.push(count);
    wrong_child.layers[0].valid_parent = true;
    assert!(!wrong_child.is_valid(&config));

    let mut wrong_flag = made.clone();
    wrong_flag.layers[0].valid_parent = true;
    assert!(!wrong_flag.is_valid(&config));

    let mut out_of_range = made.clone();
    out_of_range.layers[0].output[0] = 4;
    assert!(!out_of_range.is_valid(&config));
}

#[test]
fn generation_in_steps_gives_the_same_layers() {
    let config = config_for(vec![0, 2, 2, 1]);
    let whole = Layers::generate_layers(&config);
    let mut generation = Generation::start(&config);
    let mut steps = 0;
    while !generation.finished() {
        generation = generation.step();
        steps += 1;
    }
    assert_eq!(steps, 5 * 4 * 4);
    let made = generation.finish();
    assert_eq!(made.layers.len(), whole.layers.len());
    for (stepped, direct) in made.layers.iter().zip(whole.layers.iter()) {
        assert_eq!(stepped.output, direct.output);
        assert_eq!(stepped.notation, direct.notation);
        assert_eq!(stepped.distinct, direct.distinct);
    }
}

#[test]
fn generation_stopped_early_holds_what_was_kept_so_far() {
    let config = config_for(vec![0, 0]);
    let mut generation = Generation::start(&config);
    assert!(Generation::start(&config).finish().layers.is_empty());
    generation = generation.step();
    generation = generation.step();
    assert!(!generation.finished());
    let made = generation.finish();
    assert_eq!(made.layers.len(), 1);
    assert_eq!(made.layers[0].output, vec![1, 1]);
}

#[test]
fn a_step_after_the_last_candidate_changes_nothing() {
    let config = config_for(vec![0, 0]);
    let mut generation = Generation::start(&config);
    for _ in 0..20 {
        generation = generation.step();
    }
    assert!(generation.finished());
    generation = generation.step();
    assert!(generation.finished());
    assert_eq!(generation.finish().layers.len(), 3);
}
