use nodus::logic::{State, Transition};
use nodus::world::{
    ClockTiming, ConnInfo, ConnectEvent, ConnectorType, DisconnectEvent, NodeRange, NodeType,
    Placement, Slot, World,
};

fn origin() -> Placement {
    Placement { x: 0, y: 0, rot_x: 0, rot_y: 0, rot_z: 0, rot_w: 0 }
}

fn no_timing() -> ClockTiming {
    ClockTiming { period: 0, elapsed: 0 }
}

fn not_gate(world: &mut World) -> usize {
    world.spawn_gate_with(
        String::from("NOT Gate"),
        NodeRange { min: 1, max: 1 },
        NodeRange { min: 1, max: 1 },
        vec![Transition::Not],
    )
}

fn step(world: &mut World) {
    world.transition_step();
    world.propagation_step();
}

#[test]
fn test_connect() {
    // Setup world
    let mut world = World::new();

    let not_gate1: usize = not_gate(&mut world);
    let not_gate2: usize = not_gate(&mut world);

    // Nothing should happen
    step(&mut world);
    assert_eq!(world.input(not_gate1, 0), Some(State::Unknown));
    assert_eq!(world.output(not_gate1, 0), Some(State::Unknown));
    assert_eq!(world.input(not_gate2, 0), Some(State::Unknown));
    assert_eq!(world.output(not_gate2, 0), Some(State::Unknown));

    // Set input of gate 1 to low  -> should update the output of gate 1
    world.write_input((not_gate1, 0, State::Low));

    step(&mut world);
    assert_eq!(world.input(not_gate1, 0), Some(State::Low));
    assert_eq!(world.output(not_gate1, 0), Some(State::High));
    assert_eq!(world.input(not_gate2, 0), Some(State::Unknown));
    assert_eq!(world.output(not_gate2, 0), Some(State::Unknown));
}

#[test]
fn gate_from_functions_lays_out_its_connectors() {
    let mut world = World::new();
    let g: usize = not_gate(&mut world);
    assert_eq!(g, 0);
    assert_eq!(world.len(), 3);
    match world.slot(1) {
        Slot::Connector(c) => {
            assert_eq!(c.parent, g);
            assert_eq!(c.connector.ctype, ConnectorType::In);
            assert_eq!(c.connector.index, 0);
            assert!(c.free);
            assert!(c.connections.is_empty());
        }
        _ => panic!("entity 1 should be the input connector"),
    }
    match world.slot(2) {
        Slot::Connector(c) => {
            assert_eq!(c.parent, g);
            assert_eq!(c.connector.ctype, ConnectorType::Out);
        }
        _ => panic!("entity 2 should be the output connector"),
    }
    match world.slot(g) {
        Slot::Node(n) => {
            assert_eq!(n.kind, None);
            assert_eq!(n.name, "NOT Gate");
            assert_eq!(n.children, vec![1, 2]);
        }
        _ => panic!("entity 0 should be the logic gate"),
    }
}

#[test]
fn gate_from_functions_gets_its_minimum_outputs() {
    let mut world = World::new();
    let g: usize = world.spawn_gate_with(
        String::from("Splitter"),
        NodeRange { min: 1, max: 1 },
        NodeRange { min: 2, max: 2 },
        vec![Transition::Buffer, Transition::Not],
    );
    // One input connector and two output connectors.
    assert_eq!(world.len(), 4);
    match world.slot(3) {
        Slot::Connector(c) => {
            assert_eq!(c.connector.ctype, ConnectorType::Out);
            assert_eq!(c.connector.index, 1);
        }
        _ => panic!("entity 3 should be the second output connector"),
    }
    world.write_input((g, 0, State::High));
    world.transition_step();
    assert_eq!(world.output(g, 0), Some(State::High));
    assert_eq!(world.output(g, 1), Some(State::Low));
}

#[test]
fn connected_gates_propagate_and_disconnect_resets() {
    let mut world = World::new();
    let g1: usize = not_gate(&mut world);
    let g2: usize = not_gate(&mut world);
    // Output connector of gate 1 is entity 2, input connector of gate 2 is 4.
    let ev = ConnectEvent { output: 2, output_index: 0, input: 4, input_index: 0, signal_success: false };
    assert!(world.can_connect(&ev));
    let (line, linked): (usize, bool) = world.connect(&ev);
    assert_eq!(line, 6);
    assert!(linked);
    match world.slot(4) {
        Slot::Connector(c) => {
            assert!(!c.free);
            assert_eq!(c.connections, vec![6]);
        }
        _ => panic!("entity 4 should be a connector"),
    }
    match world.slot(g1) {
        Slot::Node(n) => {
            let targets = n.targets.as_ref().unwrap();
            assert_eq!(targets[0].entries.len(), 1);
            assert_eq!(targets[0].entries[0].gate, g2);
            assert_eq!(targets[0].entries[0].indices, vec![0]);
        }
        _ => panic!("gate 1 should be a node"),
    }

    world.write_input((g1, 0, State::Low));
    step(&mut world);
    assert_eq!(world.output(g1, 0), Some(State::High));
    assert_eq!(world.input(g2, 0), Some(State::High));
    step(&mut world);
    assert_eq!(world.output(g2, 0), Some(State::Low));

    let dev = DisconnectEvent { connection: line, in_parent: None };
    assert!(world.can_disconnect(&dev));
    let report = world.disconnect(&dev);
    assert_eq!(
        report,
        Some((ConnInfo { entity: g1, index: 0 }, ConnInfo { entity: g2, index: 0 }, line))
    );
    assert_eq!(world.input(g2, 0), Some(State::Unknown));
    assert!(matches!(world.slot(line), Slot::Vacant));
    match world.slot(g1) {
        Slot::Node(n) => assert!(n.targets.as_ref().unwrap()[0].entries.is_empty()),
        _ => panic!("gate 1 should be a node"),
    }
    match world.slot(4) {
        Slot::Connector(c) => {
            assert!(c.free);
            assert!(c.connections.is_empty());
        }
        _ => panic!("entity 4 should be a connector"),
    }
    // The value no longer reaches gate 2.
    step(&mut world);
    assert_eq!(world.input(g2, 0), Some(State::Unknown));
}

#[test]
fn disconnecting_a_non_line_changes_nothing() {
    let mut world = World::new();
    let g: usize = not_gate(&mut world);
    let dev = DisconnectEvent { connection: g, in_parent: None };
    assert!(world.can_disconnect(&dev));
    assert_eq!(world.disconnect(&dev), None);
    assert_eq!(world.len(), 3);
    assert_eq!(world.input(g, 0), Some(State::Unknown));
}

#[test]
fn one_output_drives_two_inputs_of_a_gate() {
    let mut world = World::new();
    let high: usize = world
        .spawn_node(NodeType::HighConst, 0, 0, State::Unknown, no_timing(), origin())
        .unwrap();
    let and: usize = world
        .spawn_node(NodeType::And, 2, 1, State::Unknown, no_timing(), origin())
        .unwrap();
    // HIGH constant: node 0 and output connector 1. AND gate: node 2,
    // input connectors 3 and 4, output connector 5.
    assert_eq!((high, and), (0, 2));
    world.connect(&ConnectEvent { output: 1, output_index: 0, input: 3, input_index: 0, signal_success: false });
    world.connect(&ConnectEvent { output: 1, output_index: 0, input: 4, input_index: 1, signal_success: false });
    match world.slot(high) {
        Slot::Node(n) => {
            let targets = n.targets.as_ref().unwrap();
            assert_eq!(targets[0].entries.len(), 1);
            assert_eq!(targets[0].entries[0].indices, vec![0, 1]);
        }
        _ => panic!("the constant should be a node"),
    }
    step(&mut world);
    assert_eq!(world.output(high, 0), Some(State::High));
    assert_eq!(world.input(and, 0), Some(State::High));
    assert_eq!(world.input(and, 1), Some(State::High));
    step(&mut world);
    assert_eq!(world.output(and, 0), Some(State::High));

    // Removing one line keeps the entry with the other index.
    world.disconnect(&DisconnectEvent { connection: 6, in_parent: None });
    match world.slot(high) {
        Slot::Node(n) => {
            let targets = n.targets.as_ref().unwrap();
            assert_eq!(targets[0].entries[0].indices, vec![1]);
        }
        _ => panic!("the constant should be a node"),
    }
    assert_eq!(world.input(and, 0), Some(State::Unknown));
    step(&mut world);
    assert_eq!(world.input(and, 0), Some(State::Unknown));
    assert_eq!(world.output(and, 0), Some(State::Unknown));
}

#[test]
fn spawned_kinds_have_their_shape() {
    let mut world = World::new();
    assert_eq!(world.spawn_node(NodeType::Xnor, 2, 1, State::Unknown, no_timing(), origin()), None);
    assert_eq!(world.len(), 0);

    let sw: usize = world
        .spawn_node(NodeType::ToggleSwitch, 5, 5, State::Low, no_timing(), origin())
        .unwrap();
    assert_eq!(world.input(sw, 0), Some(State::Low));
    assert_eq!(world.output(sw, 0), Some(State::Low));
    assert_eq!(world.input(sw, 1), None);
    // A toggle switch has one output connector only.
    assert_eq!(world.len(), 2);

    let bulb: usize = world
        .spawn_node(NodeType::LightBulb, 0, 0, State::High, no_timing(), origin())
        .unwrap();
    assert_eq!(bulb, 2);
    assert_eq!(world.input(bulb, 0), Some(State::High));
    assert_eq!(world.output(bulb, 0), None);

    let clk: usize = world
        .spawn_node(NodeType::Clock, 0, 0, State::Low, ClockTiming { period: 7, elapsed: 3 }, origin())
        .unwrap();
    assert_eq!(world.clock(clk), Some(ClockTiming { period: 7, elapsed: 3 }));
    assert_eq!(world.input(clk, 0), None);
    assert_eq!(world.output(clk, 0), Some(State::Low));

    let seg: usize = world
        .spawn_node(NodeType::SevenSegmentDisplay, 0, 0, State::Low, no_timing(), origin())
        .unwrap();
    assert_eq!(world.input(seg, 3), Some(State::Unknown));
    assert_eq!(world.input(seg, 4), None);

    let and: usize = world
        .spawn_node(NodeType::And, 3, 1, State::Low, no_timing(), origin())
        .unwrap();
    match world.slot(and) {
        Slot::Node(n) => {
            assert_eq!(n.kind, Some(NodeType::And));
            assert_eq!(n.name, "AND Gate");
            let gate = n.gate.unwrap();
            assert_eq!(gate.inputs, 3);
            assert_eq!(gate.in_range, NodeRange { min: 2, max: 16 });
            assert_eq!(n.children.len(), 4);
        }
        _ => panic!("the logic gate should be a node"),
    }
    assert_eq!(world.input(and, 2), Some(State::Unknown));
}

#[test]
fn constants_drive_their_value() {
    let mut world = World::new();
    let low: usize = world
        .spawn_node(NodeType::LowConst, 0, 0, State::Unknown, no_timing(), origin())
        .unwrap();
    step(&mut world);
    assert_eq!(world.output(low, 0), Some(State::Low));
}

#[test]
fn growing_and_shrinking_a_gate() {
    let mut world = World::new();
    let high: usize = world
        .spawn_node(NodeType::HighConst, 0, 0, State::Unknown, no_timing(), origin())
        .unwrap();
    let or: usize = world
        .spawn_node(NodeType::Or, 2, 1, State::Unknown, no_timing(), origin())
        .unwrap();
    // Connect the constant to the second input (connector 4) of the OR gate.
    world.connect(&ConnectEvent { output: 1, output_index: 0, input: 4, input_index: 1, signal_success: false });
    // Growing adds a third input connector at the end of the world.
    let evs = world.resize_inputs(or, 3);
    assert!(evs.is_empty());
    assert_eq!(world.input(or, 2), Some(State::Unknown));
    match world.slot(or) {
        Slot::Node(n) => {
            assert_eq!(n.gate.unwrap().inputs, 3);
            assert_eq!(n.children.len(), 4);
        }
        _ => panic!("the logic gate should be a node"),
    }
    // Shrinking to one input drops the connector of input 1 and asks to
    // remove its line.
    let evs = world.resize_inputs(or, 1);
    assert_eq!(evs, vec![DisconnectEvent { connection: 6, in_parent: Some(or) }]);
    assert_eq!(world.input(or, 1), None);
    assert!(matches!(world.slot(4), Slot::Vacant));
    world.disconnect(&evs[0]);
    match world.slot(high) {
        Slot::Node(n) => assert!(n.targets.as_ref().unwrap()[0].entries.is_empty()),
        _ => panic!("the constant should be a node"),
    }
    // A light bulb has no gate component: its inputs stay as they are.
    let bulb: usize = world
        .spawn_node(NodeType::LightBulb, 0, 0, State::Low, no_timing(), origin())
        .unwrap();
    let n: usize = world.len();
    assert!(world.resize_inputs(bulb, 4).is_empty());
    assert_eq!(world.len(), n);
    assert_eq!(world.input(bulb, 0), Some(State::Low));
    assert_eq!(world.input(bulb, 1), None);
}

fn input_indices(world: &World, g: usize) -> Vec<usize> {
    let mut r = Vec::new();
    if let Slot::Node(n) = world.slot(g) {
        for c in n.children.iter() {
            if let Slot::Connector(k) = world.slot(*c) {
                if k.connector.ctype == ConnectorType::In {
                    r.push(k.connector.index);
                }
            }
        }
    }
    r.sort();
    r
}

#[test]
fn resizing_numbers_the_input_connectors_from_zero() {
    let mut world = World::new();
    let and: usize = world
        .spawn_node(NodeType::And, 2, 1, State::Unknown, no_timing(), origin())
        .unwrap();
    assert_eq!(input_indices(&world, and), vec![0, 1]);
    world.resize_inputs(and, 4);
    assert_eq!(input_indices(&world, and), vec![0, 1, 2, 3]);
    world.resize_inputs(and, 1);
    assert_eq!(input_indices(&world, and), vec![0]);
    world.resize_inputs(and, 3);
    assert_eq!(input_indices(&world, and), vec![0, 1, 2]);
}
