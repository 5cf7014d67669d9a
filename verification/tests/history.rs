use nodus::logic::State;
use nodus::undo::{Action, DisconnectEventUndo, UndoEvent, UndoStack};
use nodus::world::{ConnInfo, ConnectEvent, NodeType, Placement, Slot, World};

fn origin() -> Placement {
    Placement { x: 0, y: 0, rot_x: 0, rot_y: 0, rot_z: 0, rot_w: 0 }
}

fn step(world: &mut World) {
    world.transition_step();
    world.propagation_step();
}

fn all_vacant(world: &World, es: &[usize]) -> bool {
    es.iter().all(|e: &usize| matches!(world.slot(*e), Slot::Vacant))
}

fn removes(a: &Action) -> Vec<usize> {
    match a {
        Action::Remove(es) => es.clone(),
        _ => panic!("expected a removal"),
    }
}

fn removes_line(a: &Action) -> usize {
    match a {
        Action::RemoveConnection(c) => *c,
        _ => panic!("expected the removal of a line"),
    }
}

#[test]
fn inserting_records_the_removal() {
    let mut world = World::new();
    let mut stack = UndoStack::new();
    let g: Option<usize> = stack.insert_gate(&mut world, NodeType::And, origin());
    assert_eq!(g, Some(0));
    assert_eq!(world.len(), 4);
    assert_eq!(world.input(0, 1), Some(State::Unknown));
    assert_eq!(stack.undo.len(), 1);
    assert_eq!(removes(&stack.undo[0]), vec![0]);
    assert!(stack.redo.is_empty());

    // There is no XNOR gate to insert.
    assert_eq!(stack.insert_gate(&mut world, NodeType::Xnor, origin()), None);
    assert_eq!(world.len(), 4);
    assert_eq!(stack.undo.len(), 1);
}

#[test]
fn undo_and_redo_an_insertion() {
    let mut world = World::new();
    let mut stack = UndoStack::new();
    stack.insert_gate(&mut world, NodeType::And, origin());

    stack.handle_undo_event(&mut world, UndoEvent::Undo);
    assert!(all_vacant(&world, &[0, 1, 2, 3]));
    assert!(stack.undo.is_empty());
    assert_eq!(stack.redo.len(), 1);
    match &stack.redo[0] {
        Action::Insert(cs, conns) => {
            assert_eq!(cs.len(), 1);
            assert_eq!(cs[0].id, 0);
            assert_eq!(cs[0].ntype, NodeType::And);
            assert_eq!(cs[0].inputs, Some(2));
            assert_eq!(cs[0].outputs, Some(1));
            assert!(conns.is_empty());
        }
        _ => panic!("expected a reinsertion"),
    }

    // Redo spawns the logic gate anew, under a new entity.
    stack.handle_undo_event(&mut world, UndoEvent::Redo);
    match world.slot(4) {
        Slot::Node(n) => {
            assert_eq!(n.kind, Some(NodeType::And));
            assert_eq!(n.name, "AND Gate");
        }
        _ => panic!("the logic gate should be back"),
    }
    assert_eq!(world.len(), 8);
    assert_eq!(removes(&stack.undo[0]), vec![4]);
    assert!(stack.redo.is_empty());
    assert!(stack.available(UndoEvent::Undo));
    assert!(!stack.available(UndoEvent::Redo));

    // Undoing again removes the new entity.
    stack.handle_undo_event(&mut world, UndoEvent::Undo);
    assert!(matches!(world.slot(4), Slot::Vacant));
    assert_eq!(stack.redo.len(), 1);
}

#[test]
fn undo_with_empty_history_changes_nothing() {
    let mut world = World::new();
    let mut stack = UndoStack::new();
    assert!(!stack.available(UndoEvent::Undo));
    assert!(!stack.available(UndoEvent::Redo));
    stack.handle_undo_event(&mut world, UndoEvent::Undo);
    stack.handle_undo_event(&mut world, UndoEvent::Redo);
    assert_eq!(world.len(), 0);
    assert!(stack.undo.is_empty());
    assert!(stack.redo.is_empty());
}

#[test]
fn undo_and_redo_a_connection() {
    let mut world = World::new();
    let mut stack = UndoStack::new();
    let high: usize = stack.insert_gate(&mut world, NodeType::HighConst, origin()).unwrap();
    let not: usize = stack.insert_gate(&mut world, NodeType::Not, origin()).unwrap();
    // HIGH constant: node 0, output connector 1. NOT gate: node 2, input
    // connector 3, output connector 4.
    assert_eq!((high, not), (0, 2));
    let line: usize = stack.connect(
        &mut world,
        &ConnectEvent { output: 1, output_index: 0, input: 3, input_index: 0, signal_success: true },
    );
    assert_eq!(line, 5);
    assert_eq!(stack.undo.len(), 3);
    assert_eq!(removes_line(&stack.undo[2]), 5);
    step(&mut world);
    step(&mut world);
    assert_eq!(world.output(not, 0), Some(State::Low));

    stack.handle_undo_event(&mut world, UndoEvent::Undo);
    assert!(matches!(world.slot(line), Slot::Vacant));
    assert_eq!(world.input(not, 0), Some(State::Unknown));
    match &stack.redo[0] {
        Action::InsertConnection(t) => {
            assert_eq!(*t, (ConnInfo { entity: high, index: 0 }, ConnInfo { entity: not, index: 0 }, 5));
        }
        _ => panic!("expected a reconnection"),
    }

    stack.handle_undo_event(&mut world, UndoEvent::Redo);
    assert!(matches!(world.slot(6), Slot::Line(_)));
    assert_eq!(removes_line(&stack.undo[2]), 6);
    assert!(stack.redo.is_empty());
    step(&mut world);
    step(&mut world);
    assert_eq!(world.output(not, 0), Some(State::Low));
}

#[test]
fn a_connection_that_asks_for_no_record_is_not_recorded() {
    let mut world = World::new();
    let mut stack = UndoStack::new();
    stack.insert_gate(&mut world, NodeType::HighConst, origin());
    stack.insert_gate(&mut world, NodeType::Not, origin());
    stack.connect(
        &mut world,
        &ConnectEvent { output: 1, output_index: 0, input: 3, input_index: 0, signal_success: false },
    );
    assert_eq!(stack.undo.len(), 2);
    assert!(matches!(world.slot(5), Slot::Line(_)));
}

#[test]
fn deleting_a_gate_and_undoing_restores_its_connection() {
    let mut world = World::new();
    let mut stack = UndoStack::new();
    let high: usize = stack.insert_gate(&mut world, NodeType::HighConst, origin()).unwrap();
    let not: usize = stack.insert_gate(&mut world, NodeType::Not, origin()).unwrap();
    stack.connect(
        &mut world,
        &ConnectEvent { output: 1, output_index: 0, input: 3, input_index: 0, signal_success: true },
    );

    stack.delete(&mut world, &vec![not]);
    assert!(all_vacant(&world, &[2, 3, 4, 5]));
    match world.slot(high) {
        Slot::Node(n) => assert!(n.targets.as_ref().unwrap()[0].entries.is_empty()),
        _ => panic!("the constant should stay"),
    }
    match world.slot(1) {
        Slot::Connector(c) => assert!(c.connections.is_empty()),
        _ => panic!("the output connector should stay"),
    }
    assert_eq!(stack.undo.len(), 4);
    match &stack.undo[3] {
        Action::Insert(cs, conns) => {
            assert_eq!(cs.len(), 1);
            assert_eq!(cs[0].ntype, NodeType::Not);
            assert_eq!(*conns, vec![(ConnInfo { entity: high, index: 0 }, ConnInfo { entity: not, index: 0 }, 5)]);
        }
        _ => panic!("expected a reinsertion"),
    }

    stack.handle_undo_event(&mut world, UndoEvent::Undo);
    // The logic gate comes back as entity 6 with connectors 7 and 8, the line as 9.
    match world.slot(6) {
        Slot::Node(n) => assert_eq!(n.kind, Some(NodeType::Not)),
        _ => panic!("the logic gate should be back"),
    }
    assert!(matches!(world.slot(9), Slot::Line(_)));
    match world.slot(high) {
        Slot::Node(n) => {
            let targets = n.targets.as_ref().unwrap();
            assert_eq!(targets[0].entries.len(), 1);
            assert_eq!(targets[0].entries[0].gate, 6);
        }
        _ => panic!("the constant should stay"),
    }
    // The history names the new entities.
    assert_eq!(removes(&stack.undo[1]), vec![6]);
    assert_eq!(removes_line(&stack.undo[2]), 9);
    assert_eq!(removes(&stack.redo[0]), vec![6]);

    step(&mut world);
    step(&mut world);
    assert_eq!(world.output(6, 0), Some(State::Low));
}

#[test]
fn disconnect_records_on_the_requested_side() {
    let mut world = World::new();
    let mut stack = UndoStack::new();
    stack.insert_gate(&mut world, NodeType::HighConst, origin());
    stack.insert_gate(&mut world, NodeType::Not, origin());
    stack.connect(
        &mut world,
        &ConnectEvent { output: 1, output_index: 0, input: 3, input_index: 0, signal_success: false },
    );
    stack.disconnect(&mut world, &DisconnectEventUndo { connection: 5, in_parent: None, action: UndoEvent::Redo });
    assert!(matches!(world.slot(5), Slot::Vacant));
    assert_eq!(stack.undo.len(), 2);
    assert_eq!(stack.redo.len(), 1);
    stack.disconnect(&mut world, &DisconnectEventUndo { connection: 5, in_parent: None, action: UndoEvent::Undo });
    assert_eq!(stack.undo.len(), 2);
}

#[test]
fn renaming_components_and_lines_in_the_history() {
    let mut stack = UndoStack::new();
    stack.undo.push(Action::Remove(vec![1, 2, 1]));
    stack.undo.push(Action::RemoveConnection(7));
    stack.redo.push(Action::InsertConnection((
        ConnInfo { entity: 1, index: 0 },
        ConnInfo { entity: 3, index: 1 },
        7,
    )));
    stack.replace_entity_id(1, 9);
    assert_eq!(removes(&stack.undo[0]), vec![9, 2, 9]);
    assert_eq!(removes_line(&stack.undo[1]), 7);
    match &stack.redo[0] {
        Action::InsertConnection(t) => {
            assert_eq!(*t, (ConnInfo { entity: 9, index: 0 }, ConnInfo { entity: 3, index: 1 }, 7));
        }
        _ => panic!("expected a reconnection"),
    }
    stack.replace_connection_entity_id(7, 8);
    assert_eq!(removes_line(&stack.undo[1]), 8);
}

#[test]
fn renaming_rekeys_the_target_maps_of_snapshots() {
    let mut world = World::new();
    let mut stack = UndoStack::new();
    let high: usize = stack.insert_gate(&mut world, NodeType::HighConst, origin()).unwrap();
    let not: usize = stack.insert_gate(&mut world, NodeType::Not, origin()).unwrap();
    stack.connect(
        &mut world,
        &ConnectEvent { output: 1, output_index: 0, input: 3, input_index: 0, signal_success: false },
    );
    // Deleting the constant records its snapshot, whose target map names the
    // NOT gate.
    stack.delete(&mut world, &vec![high]);
    stack.replace_entity_id(not, 42);
    match &stack.undo[2] {
        Action::Insert(cs, conns) => {
            let t = cs[0].targets.as_ref().unwrap();
            assert_eq!(t[0].entries[0].gate, 42);
            assert_eq!(t[0].entries[0].indices, vec![0]);
            assert_eq!(*conns, vec![(ConnInfo { entity: high, index: 0 }, ConnInfo { entity: 42, index: 0 }, 5)]);
        }
        _ => panic!("expected a reinsertion"),
    }
}

#[test]
fn deleting_several_components_and_undoing_spawns_each_again() {
    let mut world = World::new();
    let mut stack = UndoStack::new();
    let high: usize = stack.insert_gate(&mut world, NodeType::HighConst, origin()).unwrap();
    let not: usize = stack.insert_gate(&mut world, NodeType::Not, origin()).unwrap();
    stack.connect(
        &mut world,
        &ConnectEvent { output: 1, output_index: 0, input: 3, input_index: 0, signal_success: true },
    );
    stack.delete(&mut world, &vec![high, not]);
    assert!(all_vacant(&world, &[0, 1, 2, 3, 4, 5]));
    stack.handle_undo_event(&mut world, UndoEvent::Undo);
    // Each comes back, in order, after the other entities.
    match world.slot(6) {
        Slot::Node(n) => assert_eq!(n.kind, Some(NodeType::HighConst)),
        _ => panic!("the constant should be back"),
    }
    match world.slot(8) {
        Slot::Node(n) => assert_eq!(n.kind, Some(NodeType::Not)),
        _ => panic!("the logic gate should be back"),
    }
    assert_eq!(removes(&stack.redo[0]), vec![6, 8]);
}

#[test]
fn deleting_several_components_and_undoing_restores_links_to_those_that_stay() {
    let mut world = World::new();
    let mut stack = UndoStack::new();
    let high: usize = stack.insert_gate(&mut world, NodeType::HighConst, origin()).unwrap();
    let not: usize = stack.insert_gate(&mut world, NodeType::Not, origin()).unwrap();
    let bulb: usize = stack.insert_gate(&mut world, NodeType::LightBulb, origin()).unwrap();
    assert_eq!((high, not, bulb), (0, 2, 5));
    stack.connect(
        &mut world,
        &ConnectEvent { output: 1, output_index: 0, input: 3, input_index: 0, signal_success: true },
    );
    stack.connect(
        &mut world,
        &ConnectEvent { output: 4, output_index: 0, input: 6, input_index: 0, signal_success: true },
    );
    stack.delete(&mut world, &vec![not, bulb]);
    match world.slot(high) {
        Slot::Node(n) => assert!(n.targets.as_ref().unwrap()[0].entries.is_empty()),
        _ => panic!("the constant should stay"),
    }
    stack.handle_undo_event(&mut world, UndoEvent::Undo);
    // The logic gate comes back as entity 9, the light bulb as 12.
    match world.slot(high) {
        Slot::Node(n) => {
            let targets = n.targets.as_ref().unwrap();
            assert_eq!(targets[0].entries.len(), 1);
            assert_eq!(targets[0].entries[0].gate, 9);
        }
        _ => panic!("the constant should stay"),
    }
    match world.slot(12) {
        Slot::Node(n) => assert_eq!(n.kind, Some(NodeType::LightBulb)),
        _ => panic!("the light bulb should be back"),
    }
    assert_eq!(removes(&stack.redo[0]), vec![9, 12]);
}
