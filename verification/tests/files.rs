use nodus::load::{check_load, clear_world, load, lookup};
use nodus::logic::State;
use nodus::save::{insert_component, snapshot, snapshot_world, NodeState, NodusComponent};
use nodus::world::{
    ClockTiming, ConnectEvent, NodeType, Placement, Slot, TargetEntry, TargetMap, World,
};

fn at(x: u32) -> Placement {
    Placement { x, y: 7, rot_x: 0, rot_y: 0, rot_z: 0, rot_w: 0x3f80_0000 }
}

fn no_timing() -> ClockTiming {
    ClockTiming { period: 0, elapsed: 0 }
}

fn one_second() -> ClockTiming {
    ClockTiming { period: 0x3f80_0000, elapsed: 0 }
}

fn all_vacant(world: &World, from: usize, to: usize) -> bool {
    (from..to).all(|e: usize| matches!(world.slot(e), Slot::Vacant))
}

fn step(world: &mut World) {
    world.transition_step();
    world.propagation_step();
}

/// A HIGH constant (0, output connector 1) driving a NOT gate (2, input
/// connector 3, output connector 4), a toggle switch (5, 6), a clock (7, 8)
/// and a light bulb (9, 10); the line is entity 11.
fn sample_circuit() -> World {
    let mut world = World::new();
    world.spawn_node(NodeType::HighConst, 0, 0, State::Unknown, no_timing(), at(1));
    world.spawn_node(NodeType::Not, 1, 1, State::Unknown, no_timing(), at(2));
    world.spawn_node(NodeType::ToggleSwitch, 0, 0, State::High, no_timing(), at(3));
    world.spawn_node(NodeType::Clock, 0, 0, State::Low, one_second(), at(4));
    world.spawn_node(NodeType::LightBulb, 0, 0, State::Low, no_timing(), at(5));
    world.connect(&ConnectEvent { output: 1, output_index: 0, input: 3, input_index: 0, signal_success: false });
    world
}

#[test]
fn snapshot_of_a_circuit() {
    let world = sample_circuit();
    assert_eq!(world.len(), 12);
    let cs = snapshot_world(&world);
    assert_eq!(cs.len(), 5);

    assert_eq!(cs[0].id, 0);
    assert_eq!(cs[0].name, "HIGH Constant");
    assert_eq!(cs[0].ntype, NodeType::HighConst);
    assert_eq!(cs[0].inputs, Some(0));
    assert_eq!(cs[0].outputs, Some(1));
    assert_eq!(cs[0].placement, at(1));
    assert_eq!(cs[0].state, None);
    let targets = cs[0].targets.as_ref().unwrap();
    assert_eq!(targets.len(), 1);
    assert_eq!(targets[0].entries.len(), 1);
    assert_eq!(targets[0].entries[0].gate, 2);
    assert_eq!(targets[0].entries[0].indices, vec![0]);

    assert_eq!(cs[1].id, 2);
    assert_eq!(cs[1].ntype, NodeType::Not);
    assert_eq!(cs[1].inputs, Some(1));
    assert_eq!(cs[1].outputs, Some(1));
    assert!(cs[1].targets.as_ref().unwrap()[0].entries.is_empty());

    assert_eq!(cs[2].id, 5);
    assert_eq!(cs[2].state, Some(NodeState::ToggleSwitch(State::High)));

    assert_eq!(cs[3].id, 7);
    assert_eq!(cs[3].inputs, None);
    assert_eq!(cs[3].state, Some(NodeState::Clock(one_second(), State::Low)));

    assert_eq!(cs[4].id, 9);
    assert_eq!(cs[4].outputs, None);
    assert!(cs[4].targets.is_none());
    assert_eq!(cs[4].state, Some(NodeState::LightBulb(State::Low)));

    // A single snapshot is the same as the one in the list.
    let c = snapshot(&world, 5);
    assert_eq!(c.state, cs[2].state);
    assert_eq!(c.name, "Toggle Switch");
}

#[test]
fn a_copy_of_a_snapshot_is_equal() {
    let world = sample_circuit();
    let c = snapshot(&world, 0);
    let d = c.copy();
    assert_eq!(d.id, c.id);
    assert_eq!(d.name, c.name);
    assert_eq!(d.inputs, c.inputs);
    assert_eq!(d.outputs, c.outputs);
    assert_eq!(d.placement, c.placement);
    assert_eq!(d.ntype, c.ntype);
    let t = d.targets.as_ref().unwrap();
    assert_eq!(t[0].entries[0].gate, 2);
    assert_eq!(t[0].entries[0].indices, vec![0]);
}

#[test]
fn save_and_load_gives_back_the_circuit() {
    let world = sample_circuit();
    let cs = snapshot_world(&world);
    assert!(check_load(&cs));

    // A world with an AND gate of its own, which loading clears.
    let mut other = World::new();
    other.spawn_node(NodeType::And, 2, 1, State::Unknown, no_timing(), at(9));
    let m = load(&mut other, &cs);
    assert_eq!(m, vec![(0, 4), (2, 6), (5, 9), (7, 11), (9, 13)]);
    assert_eq!(lookup(&m, 2), Some(6));
    assert_eq!(lookup(&m, 3), None);
    assert!(all_vacant(&other, 0, 4));
    // The line from the constant to the NOT gate is made again.
    assert!(matches!(other.slot(15), Slot::Line(_)));
    assert_eq!(other.len(), 16);

    let again = snapshot_world(&other);
    assert_eq!(again.len(), cs.len());
    let mut k: usize = 0;
    while k < cs.len() {
        assert_eq!(again[k].id, m[k].1);
        assert_eq!(again[k].name, cs[k].name);
        assert_eq!(again[k].ntype, cs[k].ntype);
        assert_eq!(again[k].inputs, cs[k].inputs);
        assert_eq!(again[k].outputs, cs[k].outputs);
        assert_eq!(again[k].placement, cs[k].placement);
        assert_eq!(again[k].state, cs[k].state);
        k += 1;
    }
    let targets = again[0].targets.as_ref().unwrap();
    assert_eq!(targets[0].entries[0].gate, 6);
    assert_eq!(targets[0].entries[0].indices, vec![0]);

    step(&mut other);
    step(&mut other);
    assert_eq!(other.output(6, 0), Some(State::Low));
    assert_eq!(other.output(9, 0), Some(State::High));
    assert_eq!(other.output(11, 0), Some(State::Low));
    assert_eq!(other.clock(11), Some(one_second()));
    assert_eq!(other.input(13, 0), Some(State::Low));
}

#[test]
fn loading_refuses_unknown_entities() {
    let mut c = snapshot(&sample_circuit(), 0);
    // The target map names an entity that is not among the snapshots.
    c.targets = Some(vec![TargetMap { entries: vec![TargetEntry { gate: 42, indices: vec![0] }] }]);
    assert!(!check_load(&vec![c]));
}

#[test]
fn clearing_despawns_every_component_and_line() {
    let mut world = sample_circuit();
    clear_world(&mut world);
    assert_eq!(world.len(), 12);
    assert!(all_vacant(&world, 0, 12));
}

#[test]
fn inserting_snapshots_of_each_kind() {
    let mut world = World::new();
    let xnor = NodusComponent {
        id: 3,
        name: String::from("XNOR Gate"),
        inputs: Some(2),
        outputs: Some(1),
        targets: None,
        placement: at(0),
        ntype: NodeType::Xnor,
        state: None,
    };
    assert_eq!(insert_component(&mut world, &xnor), None);
    assert_eq!(world.len(), 0);

    let switch_without_state = NodusComponent {
        id: 4,
        name: String::from("Toggle Switch"),
        inputs: Some(1),
        outputs: Some(1),
        targets: None,
        placement: at(0),
        ntype: NodeType::ToggleSwitch,
        state: None,
    };
    assert_eq!(insert_component(&mut world, &switch_without_state), None);

    let or = NodusComponent {
        id: 5,
        name: String::from("OR Gate"),
        inputs: Some(3),
        outputs: Some(1),
        targets: None,
        placement: at(0),
        ntype: NodeType::Or,
        state: None,
    };
    assert_eq!(insert_component(&mut world, &or), Some(0));
    assert_eq!(world.len(), 5);
    assert_eq!(world.input(0, 2), Some(State::Unknown));
    assert_eq!(world.input(0, 3), None);
}
