use comparator_layers::config::Config;
use comparator_layers::graph::{worst_distinct, Population};
use comparator_layers::layers::{Layer, Layers};
use std::collections::HashSet;

fn config_for(target: Vec<u8>) -> Config {
    Config::new(target.len(), target, vec![]).unwrap()
}

fn count_unique(table: &[u8]) -> usize {
    table.iter().collect::<HashSet<_>>().len()
}

/// Graph construction as a plain program over a set of tables.
fn plain_children(layers: &[Layer], states: usize, required: usize) -> Vec<Vec<usize>> {
    let mut seen: HashSet<Vec<u8>> = HashSet::new();
    seen.insert((0..states).map(|i| i as u8).collect());
    for layer in layers {
        seen.insert(layer.output.clone());
    }
    let mut children = vec![Vec::new(); layers.len()];
    for (parent_index, parent) in layers.iter().enumerate() {
        for (child_index, child) in layers.iter().enumerate() {
            let composed: Vec<u8> =
                parent.output.iter().map(|value| child.output[*value as usize]).collect();
            if seen.contains(&composed) {
                continue;
            }
            let worst = child.distinct - child.distinct.min(states - parent.distinct + 1);
            if worst < required && count_unique(&composed) < required {
                continue;
            }
            seen.insert(composed);
            children[parent_index].push(child_index);
        }
    }
    children
}

#[test]
fn worst_distinct_is_the_cheap_bound() {
    assert_eq!(worst_distinct(9, 16, 16), 8);
    assert_eq!(worst_distinct(9, 10, 16), 2);
    assert_eq!(worst_distinct(9, 8, 16), 0);
    assert_eq!(worst_distinct(9, 9, 16), 1);
    assert_eq!(worst_distinct(1, 16, 16), 0);
    assert_eq!(worst_distinct(16, 16, 16), 15);
    assert_eq!(worst_distinct(0, 0, 0), 0);
}

#[test]
fn the_cheap_bound_never_exceeds_the_exact_count() {
    for states in 1..=5usize {
        let made = Layers::generate_layers(&config_for(vec![0; states]));
        for parent in &made.layers {
            for child in &made.layers {
                let composed = child.pass(&parent.output);
                let worst = worst_distinct(child.distinct, parent.distinct, states);
                assert!(worst <= count_unique(&composed));
            }
        }
    }
}

#[test]
fn the_short_cut_never_changes_a_decision() {
    for states in 2..=5usize {
        let made = Layers::generate_layers(&config_for(vec![0; states]));
        for required in 1..=states {
            for parent in &made.layers {
                for child in &made.layers {
                    let exact = count_unique(&child.pass(&parent.output));
                    let worst = worst_distinct(child.distinct, parent.distinct, states);
                    let dropped = worst < required && exact < required;
                    assert_eq!(!dropped, exact >= required);
                }
            }
        }
    }
}

#[test]
fn four_states_to_zero_have_a_valid_parent() {
    let config = config_for(vec![0, 0, 0, 0]);
    let mut made = Layers::generate_layers(&config);
    made.populate_children(&config);
    assert!(made.layers.iter().any(|layer| layer.valid_parent));
    for layer in &made.layers {
        assert_eq!(layer.valid_parent, !layer.children.is_empty());
    }
    assert!(made.is_valid(&config));
}

#[test]
fn two_states_gain_no_edge() {
    // Every composition of [1, 1], [0, 0] and [1, 0] is one of them or the identity.
    let config = config_for(vec![0, 0]);
    let mut made = Layers::generate_layers(&config);
    made.populate_children(&config);
    for layer in &made.layers {
        assert!(layer.children.is_empty());
        assert!(!layer.valid_parent);
    }
}

#[test]
fn three_states_edges_by_hand() {
    let config = config_for(vec![0, 0, 0]);
    let mut made = Layers::generate_layers(&config);
    let before = made.clone();
    made.populate_children(&config);
    let expected = plain_children(&before.layers, 3, 1);
    for (layer, children) in made.layers.iter().zip(expected.iter()) {
        assert_eq!(&layer.children, children);
    }
    // Each edge stands for a table that no layer and no earlier edge gave.
    let mut composed: Vec<Vec<u8>> = Vec::new();
    for parent in &made.layers {
        for child in &parent.children {
            composed.push(made.layers[*child].pass(&parent.output));
        }
    }
    let unique: HashSet<&Vec<u8>> = composed.iter().collect();
    assert_eq!(unique.len(), composed.len());
    for table in &composed {
        assert!(made.layers.iter().all(|layer| &layer.output != table));
        assert_ne!(table, &vec![0, 1, 2]);
    }
}

#[test]
fn edges_are_those_of_the_canonical_order() {
    for target in [
        vec![0, 0, 0, 0],
        vec![0, 1, 1, 0],
        vec![3, 2, 1, 0],
        vec![0, 0, 1, 2, 2],
        vec![0, 0, 0, 0, 0, 0],
    ] {
        let config = config_for(target);
        let mut made = Layers::generate_layers(&config);
        let before = made.clone();
        made.populate_children(&config);
        let expected = plain_children(&before.layers, config.states, config.distinct);
        assert_eq!(made.layers.len(), before.layers.len());
        for index in 0..made.layers.len() {
            assert_eq!(made.layers[index].children, expected[index]);
            assert_eq!(made.layers[index].valid_parent, !expected[index].is_empty());
            assert_eq!(made.layers[index].output, before.layers[index].output);
            assert_eq!(made.layers[index].distinct, before.layers[index].distinct);
            assert_eq!(made.layers[index].notation, before.layers[index].notation);
        }
    }
}

#[test]
fn edges_only_lead_to_tables_with_enough_values() {
    let config = config_for(vec![0, 1, 2, 0, 1]);
    assert_eq!(config.distinct, 3);
    let mut made = Layers::generate_layers(&config);
    made.populate_children(&config);
    for parent in &made.layers {
        for child in &parent.children {
            let composed = made.layers[*child].pass(&parent.output);
            assert!(count_unique(&composed) >= 3);
        }
    }
}

#[test]
fn a_second_pass_adds_to_the_children() {
    let config = config_for(vec![0, 0, 0]);
    let mut made = Layers::generate_layers(&config);
    made.populate_children(&config);
    let once = made.clone();
    made.populate_children(&config);
    for (now, then) in made.layers.iter().zip(once.layers.iter()) {
        let mut expected = then.children.clone();
        expected.extend(then.children.iter().copied());
        assert_eq!(now.children, expected);
    }
}

#[test]
fn an_empty_collection_stays_empty() {
    let config = config_for(vec![0]);
    let mut made = Layers::generate_layers(&config);
    made.populate_children(&config);
    assert!(made.layers.is_empty());
    assert_eq!(made.population_work(), 0);
}

#[test]
fn population_work_is_the_number_of_pairs() {
    let config = config_for(vec![0, 0]);
    let made = Layers::generate_layers(&config);
    assert_eq!(made.layers.len(), 3);
    assert_eq!(made.population_work(), 9);
}

#[test]
fn eight_states_agree_with_the_plain_program() {
    let config = config_for(vec![0; 8]);
    let mut made = Layers::generate_layers(&config);
    let before = made.clone();
    made.populate_children(&config);
    let expected = plain_children(&before.layers, 8, 1);
    for index in 0..made.layers.len() {
        assert_eq!(made.layers[index].children, expected[index]);
    }
}

#[test]
fn population_in_steps_gives_the_same_children() {
    let config = config_for(vec![0, 0, 0, 0]);
    let generated = Layers::generate_layers(&config);
    let mut whole = generated.clone();
    whole.populate_children(&config);
    let mut population = Population::start(generated.clone(), &config);
    let mut steps = 0;
    while !population.finished() {
        population = population.step();
        steps += 1;
    }
    assert_eq!(steps, generated.layers.len());
    population = population.step();
    assert!(population.finished());
    let made = population.finish();
    for (stepped, direct) in made.layers.iter().zip(whole.layers.iter()) {
        assert_eq!(stepped.children, direct.children);
        assert_eq!(stepped.valid_parent, direct.valid_parent);
    }
}

#[test]
fn population_stopped_early_has_dealt_with_the_first_parents() {
    let config = config_for(vec![0, 0, 0, 0]);
    let generated = Layers::generate_layers(&config);
    let expected = plain_children(&generated.layers, 4, 1);
    let mut population = Population::start(generated.clone(), &config);
    population = population.step();
    population = population.step();
    assert!(!population.finished());
    let made = population.finish();
    assert_eq!(made.layers[0].children, expected[0]);
    assert_eq!(made.layers[1].children, expected[1]);
    for layer in &made.layers[2..] {
        assert!(layer.children.is_empty());
    }
}
