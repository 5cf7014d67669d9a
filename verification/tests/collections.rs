use nodus::undo::{
    contains_triple, find_connector, reconnect_request, replace_entity_id3, replace_entity_id_conns,
    replace_entity_id_list, same_triple,
};
use nodus::world::{
    position_of, remove_first, ConnInfo, ConnectEvent, ConnectorType, NodeRange, Slot, TargetMap,
    World,
};
use nodus::logic::Transition;

fn info(entity: usize, index: usize) -> ConnInfo {
    ConnInfo { entity, index }
}

#[test]
fn target_map_adds_and_removes_inputs() {
    let mut m = TargetMap::new();
    assert!(m.entries.is_empty());
    m.add(4, 0);
    m.add(7, 2);
    m.add(4, 1);
    // One entry per component, in the order of their first input.
    assert_eq!(m.entries.len(), 2);
    assert_eq!(m.find(4), Some(0));
    assert_eq!(m.find(7), Some(1));
    assert_eq!(m.find(9), None);
    assert_eq!(m.get(4), Some(&vec![0, 1]));
    assert_eq!(m.get(9), None);

    m.remove_index(4, 0);
    assert_eq!(m.get(4), Some(&vec![1]));
    m.remove_index(4, 5);
    assert_eq!(m.get(4), Some(&vec![1]));
    m.remove_key(4);
    assert_eq!(m.find(4), None);
    assert_eq!(m.find(7), Some(0));
    m.remove_key(4);
    assert_eq!(m.entries.len(), 1);
}

#[test]
fn positions_in_index_lists() {
    let mut v: Vec<usize> = vec![3, 5, 3];
    assert_eq!(position_of(&v, 3), Some(0));
    assert_eq!(position_of(&v, 5), Some(1));
    assert_eq!(position_of(&v, 4), None);
    remove_first(&mut v, 3);
    assert_eq!(v, vec![5, 3]);
    remove_first(&mut v, 4);
    assert_eq!(v, vec![5, 3]);
}

#[test]
fn renaming_a_connection() {
    let t = (info(1, 0), info(2, 1), 9);
    assert_eq!(replace_entity_id3(1, 5, t), Some((info(5, 0), info(2, 1), 9)));
    assert_eq!(replace_entity_id3(2, 5, t), Some((info(1, 0), info(5, 1), 9)));
    assert_eq!(replace_entity_id3(3, 5, t), None);
    let own = (info(1, 0), info(1, 1), 9);
    assert_eq!(replace_entity_id3(1, 5, own), Some((info(5, 0), info(5, 1), 9)));
    assert!(same_triple(&t, &(info(1, 0), info(2, 1), 9)));
    assert!(!same_triple(&t, &(info(1, 0), info(2, 1), 8)));
}

#[test]
fn renaming_keeps_connections_a_set() {
    let mut con = vec![
        (info(1, 0), info(2, 0), 7),
        (info(5, 0), info(2, 0), 7),
        (info(3, 0), info(4, 0), 8),
    ];
    replace_entity_id_conns(1, 5, &mut con);
    // The first two become the same connection and are kept once.
    assert_eq!(con, vec![(info(5, 0), info(2, 0), 7), (info(3, 0), info(4, 0), 8)]);
    assert!(contains_triple(&con, &(info(3, 0), info(4, 0), 8)));
    assert!(!contains_triple(&con, &(info(1, 0), info(2, 0), 7)));

    let mut ids: Vec<usize> = vec![1, 2, 1];
    replace_entity_id_list(1, 6, &mut ids);
    assert_eq!(ids, vec![6, 2, 6]);
}

#[test]
fn finding_connectors_to_reconnect() {
    let mut world = World::new();
    let g1: usize = world.spawn_gate_with(
        String::from("NOT Gate"),
        NodeRange { min: 1, max: 1 },
        NodeRange { min: 1, max: 1 },
        vec![Transition::Not],
    );
    let g2: usize = world.spawn_gate_with(
        String::from("NOT Gate"),
        NodeRange { min: 1, max: 1 },
        NodeRange { min: 1, max: 1 },
        vec![Transition::Not],
    );
    let children = match world.slot(g1) {
        Slot::Node(n) => n.children.clone(),
        _ => panic!("the first logic gate should be a node"),
    };
    assert_eq!(find_connector(&world, &children, ConnectorType::Out, 0), Some(2));
    assert_eq!(find_connector(&world, &children, ConnectorType::In, 0), Some(1));
    assert_eq!(find_connector(&world, &children, ConnectorType::In, 1), None);

    assert_eq!(
        reconnect_request(&world, &(info(g1, 0), info(g2, 0), 17)),
        Some(ConnectEvent { output: 2, output_index: 0, input: 4, input_index: 0, signal_success: false })
    );
    assert_eq!(reconnect_request(&world, &(info(g1, 1), info(g2, 0), 17)), None);
    assert_eq!(reconnect_request(&world, &(info(2, 0), info(g2, 0), 17)), None);
}
