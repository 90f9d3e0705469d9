use circuit_search::{
    contains_infinite_loop, find_matching_circuit, gen_all_connection_sets, gen_inputs,
    generate_all_connection_indices, test_circuit, xor_desired_truth_table, Circuit,
    ConnectionIndex, Connections, Gate,
};

fn gate_input(gate_index: usize, io_index: usize) -> ConnectionIndex {
    ConnectionIndex::GateInput {
        gate_index,
        io_index,
    }
}

fn gate_output(gate_index: usize, io_index: usize) -> ConnectionIndex {
    ConnectionIndex::GateOutput {
        gate_index,
        io_index,
    }
}

#[test]
fn test_contains_infinite_loop() {
    // input directly connected to output
    let mut connections = Connections::new();
    connections.insert(ConnectionIndex::Input(0), vec![ConnectionIndex::Output(0)]);
    assert!(!contains_infinite_loop(&connections));

    // gate going to itself
    let mut connections = Connections::new();
    connections.insert(ConnectionIndex::Input(0), vec![gate_input(0, 0)]);
    connections.insert(gate_output(0, 0), vec![gate_input(0, 0)]);
    assert!(contains_infinite_loop(&connections));

    // gate going through itself through another gate
    let mut connections = Connections::new();
    connections.insert(ConnectionIndex::Input(0), vec![gate_input(0, 0)]);
    connections.insert(gate_output(0, 0), vec![gate_input(1, 0)]);
    connections.insert(gate_output(1, 0), vec![gate_input(0, 0)]);
    assert!(contains_infinite_loop(&connections));
}

/// The wiring of two inverters and two gated switches in which the second
/// switch selects between a value and its complement.
fn scenario_circuit() -> Circuit {
    let gates = vec![Gate::Not, Gate::Not, Gate::BitSwitch, Gate::BitSwitch];
    let mut connections = Connections::new();
    // input 0 -> first switch's control pin
    connections.insert(ConnectionIndex::Input(0), vec![gate_input(2, 0)]);
    // input 1 -> first switch's data pin and the first inverter
    connections.insert(
        ConnectionIndex::Input(1),
        vec![gate_input(2, 1), gate_input(0, 0)],
    );
    // first switch -> second inverter
    connections.insert(gate_output(2, 0), vec![gate_input(1, 0)]);
    // first inverter -> second switch's control pin
    connections.insert(gate_output(0, 0), vec![gate_input(3, 0)]);
    // second inverter -> second switch's data pin
    connections.insert(gate_output(1, 0), vec![gate_input(3, 1)]);
    // second switch -> the primary output
    connections.insert(gate_output(3, 0), vec![ConnectionIndex::Output(0)]);
    Circuit {
        num_outputs: 1,
        gates,
        connections,
    }
}

#[test]
fn scenario_gated_switches() {
    let circuit = scenario_circuit();
    // With both inputs true, the second switch's control pin carries the
    // complement of input 1, so the switch stays disabled and the output is
    // never driven.
    assert_eq!(circuit.run(&vec![true, true]), vec![None]);
    // With input 1 false the control pin carries true, the first switch is
    // enabled by input 0, and the complemented data value reaches the
    // output.
    assert_eq!(circuit.run(&vec![true, false]), vec![Some(true)]);
    // With input 0 false the first switch never fires, its data pin value
    // never reaches the second inverter, and the second switch stays short
    // of one input forever.
    assert_eq!(circuit.run(&vec![false, false]), vec![None]);
    assert_eq!(circuit.run(&vec![false, true]), vec![None]);
}

#[test]
fn evaluator_is_deterministic() {
    let circuit = scenario_circuit();
    for inputs in gen_inputs(2) {
        let first = circuit.run(&inputs);
        let second = circuit.run(&inputs);
        assert_eq!(first, second);
    }
}

#[test]
fn evaluation_terminates_on_unreachable_cycle() {
    // The inverter feeds its own input, but the loop is unreachable from
    // the primary input; firing each gate at most once bounds the
    // evaluation, which simply leaves the inverter unfired.
    let gates = vec![Gate::Not];
    let mut connections = Connections::new();
    connections.insert(ConnectionIndex::Input(0), vec![ConnectionIndex::Output(0)]);
    connections.insert(gate_output(0, 0), vec![gate_input(0, 0)]);
    let circuit = Circuit {
        num_outputs: 1,
        gates,
        connections,
    };
    assert_eq!(circuit.run(&vec![false]), vec![Some(false)]);
    assert_eq!(circuit.run(&vec![true]), vec![Some(true)]);
}

#[test]
fn unset_pin_strands_dependent_output() {
    // The inverter's input pin is never assigned a source, so the output
    // that depends on the inverter stays None instead of defaulting.
    let gates = vec![Gate::Not];
    let mut connections = Connections::new();
    connections.insert(ConnectionIndex::Input(0), vec![]);
    connections.insert(gate_output(0, 0), vec![ConnectionIndex::Output(0)]);
    let circuit = Circuit {
        num_outputs: 1,
        gates,
        connections,
    };
    assert_eq!(circuit.run(&vec![false]), vec![None]);
    assert_eq!(circuit.run(&vec![true]), vec![None]);
}

#[test]
fn disabled_switch_leaves_output_unset() {
    let gates = vec![Gate::BitSwitch];
    let mut connections = Connections::new();
    connections.insert(ConnectionIndex::Input(0), vec![gate_input(0, 0)]);
    connections.insert(ConnectionIndex::Input(1), vec![gate_input(0, 1)]);
    connections.insert(gate_output(0, 0), vec![ConnectionIndex::Output(0)]);
    let circuit = Circuit {
        num_outputs: 1,
        gates,
        connections,
    };
    assert_eq!(circuit.run(&vec![true, true]), vec![Some(true)]);
    assert_eq!(circuit.run(&vec![true, false]), vec![Some(false)]);
    assert_eq!(circuit.run(&vec![false, true]), vec![None]);
    assert_eq!(circuit.run(&vec![false, false]), vec![None]);
}

#[test]
fn enumeration_uses_every_source_and_dest_once() {
    // One inverter, one primary input, one primary output: the two legal
    // wirings bind both destinations and use both sources.
    let gates = vec![Gate::Not];
    let space = generate_all_connection_indices(1, 1, &gates);
    let candidates = gen_all_connection_sets(&space);
    assert_eq!(candidates.len(), 2);
    for w in &candidates {
        assert!(w.contains_key(ConnectionIndex::Input(0)));
        assert!(w.contains_key(gate_output(0, 0)));
        assert!(!w.get(ConnectionIndex::Input(0)).unwrap().is_empty());
        assert!(!w.get(gate_output(0, 0)).unwrap().is_empty());
        assert!(w.is_assigned(ConnectionIndex::Output(0)));
        assert!(w.is_assigned(gate_input(0, 0)));
        assert!(!contains_infinite_loop(w));
    }
}

#[test]
fn enumeration_is_repeatable() {
    // Re-deriving the enumeration from the same endpoint space yields the
    // same wirings in the same order.
    let gates = vec![Gate::Not, Gate::BitSwitch];
    let space = generate_all_connection_indices(2, 1, &gates);
    let first = gen_all_connection_sets(&space);
    let second = gen_all_connection_sets(&space);
    assert_eq!(first.len(), second.len());
    for (a, b) in first.iter().zip(second.iter()) {
        assert_eq!(format!("{:?}", a), format!("{:?}", b));
    }
}

#[test]
fn enumeration_empty_space_yields_one_empty_wiring() {
    let gates: Vec<Gate> = vec![];
    let space = generate_all_connection_indices(0, 0, &gates);
    let candidates = gen_all_connection_sets(&space);
    assert_eq!(candidates.len(), 1);
}

#[test]
fn enumeration_without_sources_yields_nothing() {
    let gates: Vec<Gate> = vec![];
    let space = generate_all_connection_indices(0, 1, &gates);
    let candidates = gen_all_connection_sets(&space);
    assert_eq!(candidates.len(), 0);
}

#[test]
fn enumeration_prunes_reachable_cycles() {
    // A lone switch: its own output may not feed one of its input pins, so
    // only the wirings that send the switch output to the primary output
    // survive, with the two inputs on the two pins either way around.
    let gates = vec![Gate::BitSwitch];
    let space = generate_all_connection_indices(2, 1, &gates);
    let candidates = gen_all_connection_sets(&space);
    assert_eq!(candidates.len(), 2);
    for w in &candidates {
        assert!(!contains_infinite_loop(w));
        let out_dests = w.get(gate_output(0, 0)).unwrap();
        assert_eq!(out_dests, &vec![ConnectionIndex::Output(0)]);
    }
}

#[test]
fn search_finds_identity_circuit_for_one_input() {
    // With one input, the exclusive-or truth table is the identity, and the
    // gateless space has exactly the wiring that connects input to output.
    let gates: Vec<Gate> = vec![];
    let space = generate_all_connection_indices(1, 1, &gates);
    let candidates = gen_all_connection_sets(&space);
    assert_eq!(candidates.len(), 1);
    let found = find_matching_circuit(1, &gates, 1, &candidates);
    assert_eq!(found, Some(0));
}

#[test]
fn search_reports_no_match_when_catalog_cannot_express_xor() {
    // One inverter and one gated switch cannot realize exclusive-or with a
    // complete, acyclic wiring: the search must exhaust the finite space
    // and report the explicit no-match outcome.
    let gates = vec![Gate::Not, Gate::BitSwitch];
    let space = generate_all_connection_indices(2, 1, &gates);
    let candidates = gen_all_connection_sets(&space);
    let found = find_matching_circuit(1, &gates, 2, &candidates);
    assert_eq!(found, None);
}

#[test]
fn test_circuit_rejects_non_xor_wiring() {
    let circuit = scenario_circuit();
    assert!(!test_circuit(&circuit, 2));
}

#[test]
fn xor_truth_table_values() {
    assert_eq!(xor_desired_truth_table(&vec![]), vec![false]);
    assert_eq!(xor_desired_truth_table(&vec![true]), vec![true]);
    assert_eq!(xor_desired_truth_table(&vec![true, false]), vec![true]);
    assert_eq!(xor_desired_truth_table(&vec![true, true]), vec![false]);
    assert_eq!(
        xor_desired_truth_table(&vec![true, true, true]),
        vec![true]
    );
}

#[test]
fn gen_inputs_enumerates_all_vectors() {
    let inputs = gen_inputs(2);
    assert_eq!(
        inputs,
        vec![
            vec![false, false],
            vec![true, false],
            vec![false, true],
            vec![true, true],
        ]
    );
    assert_eq!(gen_inputs(0), vec![Vec::<bool>::new()]);
}

#[test]
fn gate_descriptors() {
    assert_eq!(Gate::Not.num_inputs(), 1);
    assert_eq!(Gate::Not.num_outputs(), 1);
    assert!(!Gate::Not.is_switch());
    assert!(Gate::Not.is_on(&vec![false]));
    assert_eq!(Gate::Not.trigger(&vec![false]), vec![true]);
    assert_eq!(Gate::Not.trigger(&vec![true]), vec![false]);

    assert_eq!(Gate::BitSwitch.num_inputs(), 2);
    assert_eq!(Gate::BitSwitch.num_outputs(), 1);
    assert!(Gate::BitSwitch.is_switch());
    assert!(Gate::BitSwitch.is_on(&vec![true, false]));
    assert!(!Gate::BitSwitch.is_on(&vec![false, true]));
    assert_eq!(Gate::BitSwitch.trigger(&vec![true, false]), vec![false]);
    assert_eq!(Gate::BitSwitch.trigger(&vec![true, true]), vec![true]);
}

#[test]
fn connection_lookup() {
    let mut connections = Connections::new();
    assert!(!connections.contains_key(ConnectionIndex::Input(0)));
    connections.insert(ConnectionIndex::Input(0), vec![ConnectionIndex::Output(0)]);
    connections.insert(ConnectionIndex::Input(1), vec![gate_input(0, 0)]);
    assert!(connections.contains_key(ConnectionIndex::Input(0)));
    assert_eq!(
        connections.get(ConnectionIndex::Input(1)),
        Some(&vec![gate_input(0, 0)])
    );
    assert_eq!(connections.get(ConnectionIndex::Output(0)), None);
    assert!(connections.is_assigned(ConnectionIndex::Output(0)));
    assert!(!connections.is_assigned(gate_input(0, 1)));
    // replacing a binding keeps one entry per key
    connections.insert(ConnectionIndex::Input(0), vec![gate_input(0, 1)]);
    assert_eq!(
        connections.get(ConnectionIndex::Input(0)),
        Some(&vec![gate_input(0, 1)])
    );
}
