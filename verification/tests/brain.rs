use neat_brain::{
    Connection, NeatBrain, Node, SelectionError, HIDDEN, OUTPUT, SENSOR, UNIT_WEIGHT,
};

fn step(sum: u32, value: u32, weight: u32) -> u32 {
    (f32::from_bits(sum) + f32::from_bits(value) * f32::from_bits(weight)).to_bits()
}

fn bits(values: &[f32]) -> Vec<u32> {
    values.iter().map(|v| v.to_bits()).collect()
}

fn floats(values: &[u32]) -> Vec<f32> {
    values.iter().map(|v| f32::from_bits(*v)).collect()
}

fn layer_of(brain: &NeatBrain, id: usize) -> u32 {
    let found: Vec<&Node> = brain.nodes.iter().filter(|n| n.node_id == id).collect();
    assert_eq!(found.len(), 1);
    found[0].layer
}

fn kind_of(brain: &NeatBrain, id: usize) -> u32 {
    brain.nodes.iter().find(|n| n.node_id == id).unwrap().subtype
}

fn check_well_formed(brain: &NeatBrain, counter: usize) {
    for (i, a) in brain.nodes.iter().enumerate() {
        assert!(a.subtype <= OUTPUT);
        assert!(a.node_id <= counter);
        assert!(a.layer >= 1 && a.layer <= brain.layers);
        assert_eq!(a.subtype == OUTPUT, a.layer == brain.layers);
        for b in brain.nodes.iter().skip(i + 1) {
            assert_ne!(a.node_id, b.node_id);
        }
        if a.subtype == HIDDEN {
            assert!(brain.connections.iter().any(|c| c.input == a.node_id));
        }
    }
    for (k, c) in brain.connections.iter().enumerate() {
        assert_ne!(c.input, c.output);
        assert!(layer_of(brain, c.output) >= layer_of(brain, c.input));
        assert!(layer_of(brain, c.output) > layer_of(brain, c.input));
        assert_ne!(kind_of(brain, c.input), OUTPUT);
        assert_ne!(kind_of(brain, c.output), SENSOR);
        for d in brain.connections.iter().skip(k + 1) {
            assert!(c.input != d.input || c.output != d.output);
        }
    }
    if brain.nodes.iter().any(|n| n.subtype == OUTPUT) {
        assert_eq!(brain.nodes.iter().map(|n| n.layer).max().unwrap(), brain.layers);
    }
}

fn two_by_two() -> (NeatBrain, usize) {
    let mut counter: usize = 0;
    let brain = NeatBrain::new_brain(vec![2, 0, 2], &mut counter, vec![]);
    (brain, counter)
}

#[test]
fn node_new_takes_the_next_identifier() {
    let mut counter: usize = 41;
    let node = Node::new(&mut counter, HIDDEN, 3);
    assert_eq!(counter, 42);
    assert_eq!(node.node_id, 42);
    assert_eq!(node.subtype, HIDDEN);
    assert_eq!(node.layer, 3);
    assert_eq!(node.value, 0);
}

#[test]
fn new_brain_places_sensors_and_outputs() {
    let mut counter: usize = 10;
    let brain = NeatBrain::new_brain(vec![3, 0, 2], &mut counter, vec![]);
    assert_eq!(counter, 15);
    assert_eq!(brain.layers, 2);
    assert_eq!(brain.nodes.len(), 5);
    assert!(brain.connections.is_empty());
    for (i, node) in brain.nodes.iter().enumerate() {
        assert_eq!(node.node_id, 11 + i);
        assert_eq!(node.value, 0);
        if i < 3 {
            assert_eq!(node.subtype, SENSOR);
            assert_eq!(node.layer, 1);
        } else {
            assert_eq!(node.subtype, OUTPUT);
            assert_eq!(node.layer, 2);
        }
    }
    check_well_formed(&brain, counter);
}

#[test]
fn new_brain_adds_the_connections_asked_for() {
    let mut counter: usize = 0;
    let weights = bits(&[0.5, -0.25, 0.75, 1.0]);
    let brain = NeatBrain::new_brain(vec![2, 4, 2], &mut counter, weights.clone());
    assert_eq!(counter, 8);
    assert_eq!(brain.layers, 2);
    assert_eq!(brain.connections.len(), 4);
    for (k, c) in brain.connections.iter().enumerate() {
        assert_eq!(c.connection_id, k as u32 + 1);
        assert_eq!(c.weight, weights[k]);
        assert!(c.status);
        assert!(c.input == 1 || c.input == 2);
        assert!(c.output == 3 || c.output == 4);
    }
    check_well_formed(&brain, counter);
}

#[test]
fn constructed_brains_have_forward_connections_and_distinct_names() {
    for sensors in 1..4usize {
        for outputs in 1..4usize {
            for links in 0..=(sensors * outputs) {
                let mut counter: usize = 7;
                let brain = NeatBrain::new_brain(
                    vec![sensors, links, outputs],
                    &mut counter,
                    vec![UNIT_WEIGHT; links],
                );
                assert_eq!(counter, 7 + sensors + links + outputs);
                assert_eq!(brain.connections.len(), links);
                check_well_formed(&brain, counter);
            }
        }
    }
}

#[test]
fn single_connection_example() {
    let mut counter: usize = 0;
    let weight: f32 = 0.625;
    let mut brain = NeatBrain::new_brain(vec![2, 1, 1], &mut counter, bits(&[weight]));
    let outputs = brain.compute(bits(&[1.0, 0.0]), step);
    assert_eq!(outputs.len(), 1);
    let source = brain.connections[0].input;
    assert!(source == 1 || source == 2);
    let expected: f32 = if source == 1 { weight * 1.0 } else { 0.0 };
    assert_eq!(f32::from_bits(outputs[0]), expected);
    assert_eq!(brain.nodes[2].value, outputs[0]);
    assert_eq!(f32::from_bits(brain.nodes[0].value), 1.0);
    assert_eq!(f32::from_bits(brain.nodes[1].value), 0.0);
}

#[test]
fn compute_is_repeatable() {
    let mut counter: usize = 0;
    let mut brain =
        NeatBrain::new_brain(vec![3, 5, 2], &mut counter, bits(&[0.1, -0.7, 0.3, 0.9, -0.2]));
    for _ in 0..4 {
        brain.insert_node(&mut counter).unwrap();
    }
    let mut copy = brain.clone();
    let inputs = bits(&[0.25, -1.5, 3.0]);
    let first = brain.compute(inputs.clone(), step);
    let second = brain.compute(inputs.clone(), step);
    let third = copy.compute(inputs, step);
    assert_eq!(first, second);
    assert_eq!(first, third);
}

#[test]
fn unit_connections_reproduce_the_inputs() {
    let (mut brain, mut counter) = two_by_two();
    assert!(brain.connect(&mut counter, 1, 4, UNIT_WEIGHT));
    assert!(brain.connect(&mut counter, 2, 3, UNIT_WEIGHT));
    let outputs = brain.compute(bits(&[0.375, -12.5]), step);
    assert_eq!(floats(&outputs), vec![-12.5, 0.375]);
}

#[test]
fn node_without_enabled_inputs_is_zero() {
    let (mut brain, mut counter) = two_by_two();
    assert!(brain.connect(&mut counter, 1, 3, bits(&[0.5])[0]));
    brain.connections[0].status = false;
    brain.nodes[2].value = 77;
    brain.nodes[3].value = 78;
    let outputs = brain.compute(bits(&[4.0, 5.0]), step);
    assert_eq!(outputs, vec![0, 0]);
    assert_eq!(brain.nodes[2].value, 0);
    assert_eq!(brain.nodes[3].value, 0);
}

#[test]
fn compute_sums_in_connection_order() {
    let (mut brain, mut counter) = two_by_two();
    assert!(brain.connect(&mut counter, 2, 3, bits(&[0.5])[0]));
    assert!(brain.connect(&mut counter, 1, 3, bits(&[-2.0])[0]));
    let order = std::cell::RefCell::new(Vec::new());
    let outputs = brain.compute(bits(&[3.0, 10.0]), |sum, value, weight| {
        order.borrow_mut().push((f32::from_bits(sum), f32::from_bits(value), f32::from_bits(weight)));
        step(sum, value, weight)
    });
    assert_eq!(floats(&outputs), vec![-1.0, 0.0]);
    assert_eq!(order.into_inner(), vec![(0.0, 10.0, 0.5), (5.0, 3.0, -2.0)]);
}

#[test]
fn compute_goes_through_hidden_layers() {
    let mut counter: usize = 0;
    let mut brain = NeatBrain::new_brain(vec![1, 1, 1], &mut counter, bits(&[0.5]));
    assert!(brain.split_connection(&mut counter, 0));
    assert!(brain.split_connection(&mut counter, 2));
    brain.connections[1].weight = bits(&[3.0])[0];
    let outputs = brain.compute(bits(&[2.0]), step);
    // sensor -> first hidden (3.0) -> second hidden (1.0) -> output (0.5)
    assert_eq!(floats(&outputs), vec![3.0]);
    assert_eq!(brain.layers, 4);
    check_well_formed(&brain, counter);
}

#[test]
fn connect_refuses_what_may_not_be_joined() {
    let (mut brain, mut counter) = two_by_two();
    let before = counter;
    assert!(!brain.connect(&mut counter, 3, 4, UNIT_WEIGHT)); // from an output
    assert!(!brain.connect(&mut counter, 1, 2, UNIT_WEIGHT)); // to a sensor
    assert!(!brain.connect(&mut counter, 1, 1, UNIT_WEIGHT)); // to itself
    assert!(!brain.connect(&mut counter, 1, 9, UNIT_WEIGHT)); // unknown target
    assert!(!brain.connect(&mut counter, 9, 3, UNIT_WEIGHT)); // unknown source
    assert_eq!(counter, before);
    assert!(brain.connections.is_empty());
    assert!(brain.connect(&mut counter, 1, 3, UNIT_WEIGHT));
    assert_eq!(counter, before + 1);
    assert!(!brain.connect(&mut counter, 1, 3, UNIT_WEIGHT)); // joined already
    assert_eq!(counter, before + 1);
    assert_eq!(brain.connections.len(), 1);
    let c: Connection = brain.connections[0];
    assert_eq!((c.connection_id, c.input, c.output, c.weight, c.status), (1, 1, 3, UNIT_WEIGHT, true));
    assert!(brain.is_linked(1, 3));
    assert!(!brain.is_linked(3, 1));
}

#[test]
fn connect_refuses_a_target_below_the_source() {
    let mut counter: usize = 0;
    let mut brain = NeatBrain::new_brain(vec![2, 2, 1], &mut counter, bits(&[1.0, 1.0]));
    // 1 -> 3 and 2 -> 3; split both, giving hidden nodes on layer two.
    assert!(brain.split_connection(&mut counter, 0));
    assert!(brain.split_connection(&mut counter, 1));
    let first = brain.nodes[3].node_id;
    let second = brain.nodes[4].node_id;
    assert!(brain.connect(&mut counter, first, second, UNIT_WEIGHT));
    assert_eq!(layer_of(&brain, first), 2);
    assert_eq!(layer_of(&brain, second), 3);
    assert!(!brain.connect(&mut counter, second, first, UNIT_WEIGHT));
    check_well_formed(&brain, counter);
}

#[test]
fn connect_on_one_layer_opens_a_layer_for_the_target() {
    let mut counter: usize = 0;
    let mut brain = NeatBrain::new_brain(vec![2, 2, 1], &mut counter, bits(&[1.0, 1.0]));
    assert!(brain.split_connection(&mut counter, 0));
    assert!(brain.split_connection(&mut counter, 1));
    assert!(brain.split_connection(&mut counter, 3));
    // ids: sensors 1, 2; output 3; hidden 6 and 8 on layer two; hidden 10 on
    // layer three between 6 and the output, which sits on layer four.
    assert_eq!(layer_of(&brain, 6), 2);
    assert_eq!(layer_of(&brain, 8), 2);
    assert_eq!(layer_of(&brain, 10), 3);
    assert_eq!(layer_of(&brain, 3), 4);
    assert_eq!(brain.layers, 4);
    let before = counter;
    let links = brain.connections.len();
    assert!(brain.connect(&mut counter, 8, 6, bits(&[0.5])[0]));
    assert_eq!(counter, before + 1);
    assert_eq!(layer_of(&brain, 1), 1);
    assert_eq!(layer_of(&brain, 2), 1);
    assert_eq!(layer_of(&brain, 8), 2);
    assert_eq!(layer_of(&brain, 6), 3);
    assert_eq!(layer_of(&brain, 10), 4);
    assert_eq!(layer_of(&brain, 3), 5);
    assert_eq!(brain.layers, 5);
    let added = brain.connections[links];
    assert_eq!(added.connection_id, links as u32 + 1);
    assert_eq!((added.input, added.output, added.status), (8, 6, true));
    check_well_formed(&brain, counter);
}

#[test]
fn update_layers_moves_higher_nodes_up() {
    let mut counter: usize = 0;
    let mut brain = NeatBrain::new_brain(vec![1, 1, 1], &mut counter, bits(&[1.0]));
    assert!(brain.split_connection(&mut counter, 0));
    // sensor 1 on layer one, hidden 4 on layer two, output 2 on layer three
    brain.update_layers(1);
    assert_eq!(layer_of(&brain, 1), 1);
    assert_eq!(layer_of(&brain, 4), 3);
    assert_eq!(layer_of(&brain, 2), 4);
    assert_eq!(brain.layers, 4);
    brain.update_layers(4);
    assert_eq!(layer_of(&brain, 1), 1);
    assert_eq!(layer_of(&brain, 4), 3);
    assert_eq!(layer_of(&brain, 2), 5);
    assert_eq!(brain.layers, 5);
}

#[test]
fn update_layers_ignores_an_unknown_node() {
    let (mut brain, _) = two_by_two();
    brain.update_layers(99);
    assert_eq!(brain.layers, 2);
    assert_eq!(layer_of(&brain, 1), 1);
    assert_eq!(layer_of(&brain, 3), 2);
}

#[test]
fn bump_layers_leaves_a_node_on_another_layer() {
    let (mut brain, mut counter) = two_by_two();
    assert!(brain.connect(&mut counter, 1, 3, UNIT_WEIGHT));
    brain.bump_layers(1, 3);
    brain.bump_layers(3, 3);
    brain.bump_layers(1, 1);
    assert_eq!(brain.layers, 2);
    assert_eq!(layer_of(&brain, 1), 1);
    assert_eq!(layer_of(&brain, 3), 2);
    assert_eq!(layer_of(&brain, 4), 2);
}

#[test]
fn bump_layers_moves_all_outputs_together() {
    let (mut brain, _) = two_by_two();
    brain.bump_layers(2, 4);
    assert_eq!(brain.layers, 3);
    assert_eq!(layer_of(&brain, 1), 1);
    assert_eq!(layer_of(&brain, 2), 1);
    assert_eq!(layer_of(&brain, 3), 3);
    assert_eq!(layer_of(&brain, 4), 3);
}

#[test]
fn bump_layers_follows_connections_only() {
    let mut counter: usize = 0;
    let mut brain = NeatBrain::new_brain(vec![2, 2, 1], &mut counter, bits(&[1.0, 1.0]));
    assert!(brain.split_connection(&mut counter, 0));
    assert!(brain.split_connection(&mut counter, 1));
    assert!(brain.split_connection(&mut counter, 3));
    // hidden 6 (layer 2) -> hidden 10 (layer 3) -> output 3 (layer 4);
    // hidden 8 (layer 2) -> output 3.
    brain.bump_layers(2, 6);
    assert_eq!(layer_of(&brain, 6), 3);
    assert_eq!(layer_of(&brain, 10), 4);
    assert_eq!(layer_of(&brain, 3), 5);
    assert_eq!(layer_of(&brain, 8), 2);
    assert_eq!(brain.layers, 5);
    check_well_formed(&brain, counter);
    brain.bump_layers(2, 8);
    assert_eq!(layer_of(&brain, 8), 3);
    assert_eq!(layer_of(&brain, 6), 3);
    assert_eq!(layer_of(&brain, 10), 4);
    assert_eq!(layer_of(&brain, 3), 5);
    assert_eq!(brain.layers, 5);
    check_well_formed(&brain, counter);
}

#[test]
fn split_connection_splices_a_hidden_node() {
    let mut counter: usize = 0;
    let weight = bits(&[-0.75])[0];
    let mut brain = NeatBrain::new_brain(vec![1, 1, 2], &mut counter, vec![weight]);
    assert_eq!(counter, 4);
    let target = brain.connections[0].output;
    assert!(brain.split_connection(&mut counter, 0));
    assert_eq!(counter, 6);
    assert_eq!(brain.nodes.len(), 4);
    let node = brain.nodes[3];
    assert_eq!((node.node_id, node.subtype, node.layer, node.value), (5, HIDDEN, 2, 0));
    assert_eq!(brain.layers, 3);
    assert_eq!(layer_of(&brain, 1), 1);
    assert_eq!(layer_of(&brain, 2), 3);
    assert_eq!(layer_of(&brain, 3), 3);
    assert_eq!(brain.connections.len(), 3);
    let old = brain.connections[0];
    assert_eq!((old.connection_id, old.input, old.output, old.weight, old.status), (1, 1, target, weight, false));
    let a = brain.connections[1];
    assert_eq!((a.connection_id, a.input, a.output, a.weight, a.status), (4, 1, 5, UNIT_WEIGHT, true));
    let b = brain.connections[2];
    assert_eq!((b.connection_id, b.input, b.output, b.weight, b.status), (6, 5, target, weight, true));
    check_well_formed(&brain, counter);
}

#[test]
fn split_connection_leaves_a_disabled_connection_alone() {
    let mut counter: usize = 0;
    let mut brain = NeatBrain::new_brain(vec![1, 1, 1], &mut counter, bits(&[0.5]));
    assert!(brain.split_connection(&mut counter, 0));
    let nodes = brain.nodes.len();
    let links = brain.connections.len();
    let layers = brain.layers;
    let before = counter;
    assert!(!brain.split_connection(&mut counter, 0));
    assert_eq!(counter, before);
    assert_eq!(brain.nodes.len(), nodes);
    assert_eq!(brain.connections.len(), links);
    assert_eq!(brain.layers, layers);
}

#[test]
fn split_keeps_room_when_the_target_is_far_above() {
    let mut counter: usize = 0;
    let mut brain = NeatBrain::new_brain(vec![2, 2, 1], &mut counter, bits(&[1.0, 1.0]));
    assert!(brain.split_connection(&mut counter, 0));
    // output on layer three now; the second connection spans two layers
    assert_eq!(brain.layers, 3);
    assert!(brain.split_connection(&mut counter, 1));
    assert_eq!(brain.layers, 3);
    assert_eq!(brain.nodes[4].layer, 2);
    check_well_formed(&brain, counter);
}

#[test]
fn split_preserves_the_outputs() {
    let mut counter: usize = 0;
    let mut brain =
        NeatBrain::new_brain(vec![2, 4, 2], &mut counter, bits(&[0.5, -0.25, 0.75, 0.125]));
    let inputs = bits(&[2.0, -3.0]);
    let mut expected = brain.compute(inputs.clone(), step);
    for round in 0..6usize {
        let last = brain.connections.len() - 1;
        let index = if round % 2 == 0 { last } else { round % brain.connections.len() };
        let into = brain.connections[index].output;
        let is_last_input = brain
            .connections
            .iter()
            .skip(index + 1)
            .all(|c| !(c.status && c.output == into));
        let split = brain.split_connection(&mut counter, index);
        check_well_formed(&brain, counter);
        let outputs = brain.compute(inputs.clone(), step);
        if !split || is_last_input {
            assert_eq!(outputs, expected);
        } else {
            assert_eq!(outputs.len(), expected.len());
            for (a, b) in outputs.iter().zip(expected.iter()) {
                assert!((f32::from_bits(*a) - f32::from_bits(*b)).abs() < 1e-5);
            }
        }
        expected = outputs;
    }
}

#[test]
fn set_weights_replaces_every_weight() {
    let mut counter: usize = 0;
    let mut brain = NeatBrain::new_brain(vec![2, 3, 2], &mut counter, bits(&[0.1, 0.2, 0.3]));
    let pairs: Vec<(usize, usize)> = brain.connections.iter().map(|c| (c.input, c.output)).collect();
    let fresh = bits(&[-1.0, 0.0, 1.0]);
    brain.set_weights(&fresh);
    for (k, c) in brain.connections.iter().enumerate() {
        assert_eq!(c.weight, fresh[k]);
        assert_eq!((c.input, c.output), pairs[k]);
        assert_eq!(c.connection_id, k as u32 + 1);
        assert!(c.status);
    }
}

#[test]
fn new_connection_fails_when_every_pair_is_joined() {
    let mut counter: usize = 0;
    let mut brain = NeatBrain::new_brain(vec![2, 4, 2], &mut counter, vec![UNIT_WEIGHT; 4]);
    let before = counter;
    assert_eq!(brain.new_connection(&mut counter, UNIT_WEIGHT), Err(SelectionError::TopologyExhausted));
    assert_eq!(counter, before);
    assert_eq!(brain.connections.len(), 4);
    assert!(brain.sources().is_empty());
}

#[test]
fn new_connection_joins_an_admissible_pair() {
    let mut counter: usize = 0;
    let mut brain = NeatBrain::new_brain(vec![2, 3, 2], &mut counter, vec![UNIT_WEIGHT; 3]);
    let weight = bits(&[0.25])[0];
    assert_eq!(brain.new_connection(&mut counter, weight), Ok(()));
    assert_eq!(counter, 8);
    assert_eq!(brain.connections.len(), 4);
    let c = brain.connections[3];
    assert_eq!((c.connection_id, c.weight, c.status), (4, weight, true));
    check_well_formed(&brain, counter);
}

#[test]
fn targets_and_sources_list_what_may_be_joined() {
    let (mut brain, mut counter) = two_by_two();
    assert_eq!(brain.sources(), vec![0, 1]);
    assert_eq!(brain.targets(0), vec![2, 3]);
    assert!(brain.targets(2).is_empty());
    assert!(brain.targets(17).is_empty());
    assert!(brain.connect(&mut counter, 1, 3, UNIT_WEIGHT));
    assert!(brain.connect(&mut counter, 1, 4, UNIT_WEIGHT));
    assert_eq!(brain.sources(), vec![1]);
    assert!(brain.targets(0).is_empty());
    assert_eq!(brain.targets(1), vec![2, 3]);
}

#[test]
fn position_finds_nodes_by_identifier() {
    let mut counter: usize = 5;
    let brain = NeatBrain::new_brain(vec![1, 0, 1], &mut counter, vec![]);
    assert_eq!(brain.position(6), Some(0));
    assert_eq!(brain.position(7), Some(1));
    assert_eq!(brain.position(5), None);
}

#[test]
fn insert_node_needs_a_connection() {
    let (mut brain, mut counter) = two_by_two();
    let before = counter;
    assert_eq!(brain.insert_node(&mut counter), Err(SelectionError::TopologyExhausted));
    assert_eq!(counter, before);
    assert_eq!(brain.nodes.len(), 4);
}

#[test]
fn insert_node_splits_the_only_connection() {
    let mut counter: usize = 0;
    let mut brain = NeatBrain::new_brain(vec![1, 1, 1], &mut counter, bits(&[0.5]));
    assert_eq!(brain.insert_node(&mut counter), Ok(()));
    assert_eq!(counter, 5);
    assert_eq!(brain.nodes.len(), 3);
    assert_eq!(brain.connections.len(), 3);
    assert!(!brain.connections[0].status);
}

#[test]
fn mutate_with_nothing_asked_only_sets_weights() {
    let mut counter: usize = 0;
    let mut brain = NeatBrain::new_brain(vec![2, 2, 1], &mut counter, bits(&[0.5, 0.25]));
    let before = counter;
    let fresh = bits(&[-0.5, 1.0]);
    assert_eq!(brain.mutate(&mut counter, fresh.clone(), false, false, 0), Ok(()));
    assert_eq!(counter, before);
    assert_eq!(brain.nodes.len(), 3);
    assert_eq!(brain.connections.len(), 2);
    assert_eq!(brain.connections[0].weight, fresh[0]);
    assert_eq!(brain.connections[1].weight, fresh[1]);
}

#[test]
fn mutate_fails_when_asked_to_split_nothing() {
    let (mut brain, mut counter) = two_by_two();
    let before = counter;
    assert_eq!(
        brain.mutate(&mut counter, vec![], true, true, UNIT_WEIGHT),
        Err(SelectionError::TopologyExhausted)
    );
    assert_eq!(counter, before);
    assert!(brain.connections.is_empty());
    assert_eq!(brain.nodes.len(), 4);
}

#[test]
fn mutate_fails_when_no_pair_is_left() {
    let mut counter: usize = 0;
    let mut brain = NeatBrain::new_brain(vec![1, 1, 1], &mut counter, bits(&[0.5]));
    let fresh = bits(&[0.25]);
    assert_eq!(
        brain.mutate(&mut counter, fresh.clone(), false, true, UNIT_WEIGHT),
        Err(SelectionError::TopologyExhausted)
    );
    assert_eq!(counter, 3);
    assert_eq!(brain.connections.len(), 1);
    assert_eq!(brain.connections[0].weight, fresh[0]);
}

#[test]
fn mutate_inserts_then_connects() {
    let mut counter: usize = 0;
    let mut brain = NeatBrain::new_brain(vec![1, 1, 1], &mut counter, bits(&[0.5]));
    let weight = bits(&[0.125])[0];
    assert_eq!(brain.mutate(&mut counter, bits(&[0.75]), true, true, weight), Err(SelectionError::TopologyExhausted));
    // sensor -> hidden -> output, and the disabled sensor -> output: every
    // admissible pair is joined already.
    assert_eq!(counter, 5);
    assert_eq!(brain.nodes.len(), 3);
    assert_eq!(brain.connections.len(), 3);
    assert_eq!(brain.connections[2].weight, bits(&[0.75])[0]);
    check_well_formed(&brain, counter);
}

#[test]
fn invariants_hold_under_random_mutation() {
    for seed in 0..20usize {
        let mut counter: usize = seed;
        let sensors = 1 + seed % 3;
        let outputs = 1 + seed % 2;
        let links = (seed % (sensors * outputs)) + 1;
        let mut brain =
            NeatBrain::new_brain(vec![sensors, links, outputs], &mut counter, vec![UNIT_WEIGHT; links]);
        check_well_formed(&brain, counter);
        for round in 0..40usize {
            let weights: Vec<u32> = brain
                .connections
                .iter()
                .enumerate()
                .map(|(k, c)| if (k + round) % 3 == 0 { bits(&[0.5])[0] } else { c.weight })
                .collect();
            let before = counter;
            let nodes = brain.nodes.len();
            let links = brain.connections.len();
            let done =
                brain.mutate(&mut counter, weights, round % 2 == 0, round % 3 != 0, UNIT_WEIGHT);
            check_well_formed(&brain, counter);
            assert!(counter >= before);
            assert!(brain.nodes.len() >= nodes);
            assert!(brain.connections.len() >= links);
            if done.is_err() {
                assert_eq!(done, Err(SelectionError::TopologyExhausted));
            }
            let inputs = vec![UNIT_WEIGHT; sensors];
            let outputs_now = brain.compute(inputs, step);
            assert_eq!(outputs_now.len(), outputs);
        }
    }
}

#[test]
fn audit_accepts_what_the_library_builds() {
    let mut counter: usize = 3;
    let mut brain = NeatBrain::new_brain(vec![2, 3, 2], &mut counter, vec![UNIT_WEIGHT; 3]);
    assert!(brain.is_well_formed());
    assert!(brain.is_issued_by(counter));
    assert!(!brain.is_issued_by(6));
    assert!(brain.is_issued_by(7));
    for round in 0..12usize {
        let weights: Vec<u32> = brain.connections.iter().map(|c| c.weight).collect();
        let _ = brain.mutate(&mut counter, weights, round % 2 == 1, true, UNIT_WEIGHT);
        assert!(brain.is_well_formed());
        assert!(brain.is_issued_by(counter));
    }
}

#[test]
fn audit_rejects_a_repeated_identifier() {
    let (mut brain, _) = two_by_two();
    brain.nodes[1].node_id = brain.nodes[0].node_id;
    assert!(!brain.is_well_formed());
}

#[test]
fn audit_rejects_an_unknown_kind() {
    let (mut brain, _) = two_by_two();
    brain.nodes[0].subtype = 3;
    assert!(!brain.is_well_formed());
}

#[test]
fn audit_rejects_layers_out_of_bounds() {
    let (mut brain, _) = two_by_two();
    brain.nodes[0].layer = 0;
    assert!(!brain.is_well_formed());
    brain.nodes[0].layer = 2;
    assert!(!brain.is_well_formed());
    brain.nodes[0].layer = 1;
    assert!(brain.is_well_formed());
    brain.nodes[3].layer = 3;
    assert!(!brain.is_well_formed());
    brain.nodes[3].layer = 2;
    brain.layers = 3;
    assert!(!brain.is_well_formed());
}

#[test]
fn audit_rejects_bad_connections() {
    let (brain, _) = two_by_two();
    let link = |input: usize, output: usize| Connection {
        connection_id: 1,
        input,
        output,
        weight: UNIT_WEIGHT,
        status: true,
    };
    let with = |links: Vec<Connection>| {
        let mut copy = brain.clone();
        copy.connections = links;
        copy.is_well_formed()
    };
    assert!(with(vec![link(1, 3), link(2, 3), link(1, 4)]));
    assert!(!with(vec![link(1, 3), link(1, 3)])); // joined twice
    assert!(!with(vec![link(3, 4)])); // leaves an output
    assert!(!with(vec![link(1, 2)])); // enters a sensor
    assert!(!with(vec![link(1, 1)])); // joins a node to itself
    assert!(!with(vec![link(1, 9)])); // unknown target
    assert!(!with(vec![link(9, 3)])); // unknown source
}

#[test]
fn audit_rejects_a_hidden_node_that_feeds_nothing() {
    let mut counter: usize = 0;
    let mut brain = NeatBrain::new_brain(vec![1, 1, 1], &mut counter, vec![UNIT_WEIGHT]);
    brain.layers = 3;
    brain.nodes[1].layer = 3;
    brain.nodes.push(Node { node_id: 9, subtype: HIDDEN, layer: 2, value: 0 });
    assert!(!brain.is_well_formed());
    brain.connections.push(Connection {
        connection_id: 2,
        input: 9,
        output: 2,
        weight: UNIT_WEIGHT,
        status: false,
    });
    assert!(brain.is_well_formed());
    brain.nodes[2].layer = 3;
    assert!(!brain.is_well_formed());
}

#[test]
fn sensor_count_counts_sensors() {
    let mut counter: usize = 0;
    let mut brain = NeatBrain::new_brain(vec![3, 2, 2], &mut counter, vec![UNIT_WEIGHT; 2]);
    assert_eq!(brain.sensor_count(), 3);
    assert!(brain.split_connection(&mut counter, 0));
    assert_eq!(brain.sensor_count(), 3);
    let empty = NeatBrain::new_brain(vec![0, 0, 2], &mut counter, vec![]);
    assert_eq!(empty.sensor_count(), 0);
}

#[test]
fn brain_without_sensors_computes_zeros() {
    let mut counter: usize = 0;
    let mut brain = NeatBrain::new_brain(vec![0, 0, 3], &mut counter, vec![]);
    assert_eq!(brain.compute(vec![], step), vec![0, 0, 0]);
    assert_eq!(brain.new_connection(&mut counter, UNIT_WEIGHT), Err(SelectionError::TopologyExhausted));
}

#[test]
fn brain_without_outputs_computes_nothing() {
    let mut counter: usize = 0;
    let mut brain = NeatBrain::new_brain(vec![2, 0, 0], &mut counter, vec![]);
    assert_eq!(brain.layers, 2);
    assert!(brain.compute(bits(&[1.0, 2.0]), step).is_empty());
    assert_eq!(floats(&[brain.nodes[0].value, brain.nodes[1].value]), vec![1.0, 2.0]);
    assert_eq!(brain.new_connection(&mut counter, UNIT_WEIGHT), Err(SelectionError::TopologyExhausted));
}

#[test]
fn connection_identifiers_follow_the_two_counters() {
    let mut counter: usize = 100;
    let mut brain = NeatBrain::new_brain(vec![1, 1, 2], &mut counter, vec![UNIT_WEIGHT]);
    assert_eq!(counter, 104);
    assert_eq!(brain.connections[0].connection_id, 1);
    assert!(brain.split_connection(&mut counter, 0));
    assert_eq!(counter, 106);
    assert_eq!(brain.connections[1].connection_id, 104);
    assert_eq!(brain.connections[2].connection_id, 106);
    assert_eq!(brain.nodes[3].node_id, 105);
    assert_eq!(brain.new_connection(&mut counter, UNIT_WEIGHT), Ok(()));
    assert_eq!(counter, 107);
    assert_eq!(brain.connections[3].connection_id, 4);
}

#[test]
fn unit_weight_is_one() {
    assert_eq!(f32::from_bits(UNIT_WEIGHT), 1.0);
}

#[test]
fn split_of_an_earlier_input_changes_the_order_of_addition() {
    let mut counter: usize = 0;
    let mut brain = NeatBrain::new_brain(vec![3, 0, 1], &mut counter, vec![]);
    assert!(brain.connect(&mut counter, 1, 4, UNIT_WEIGHT));
    assert!(brain.connect(&mut counter, 2, 4, UNIT_WEIGHT));
    assert!(brain.connect(&mut counter, 3, 4, UNIT_WEIGHT));
    let inputs = bits(&[1.0e8, -1.0e8, 0.001]);
    assert_eq!(floats(&brain.compute(inputs.clone(), step)), vec![0.001]);
    // Splitting the last input keeps the order, and with it every bit.
    assert!(brain.split_connection(&mut counter, 2));
    assert_eq!(floats(&brain.compute(inputs.clone(), step)), vec![0.001]);
    // Splitting the first input moves its share to the end of the sum.
    assert!(brain.split_connection(&mut counter, 0));
    assert_eq!(floats(&brain.compute(inputs, step)), vec![0.0]);
    check_well_formed(&brain, counter);
}
