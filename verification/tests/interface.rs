use nodus::logic::State;
use nodus::menu::{choose_item, labels, open_menu, MenuAction, MenuPage, MenuStates};
use nodus::systems::{
    change_input, clock_color, clock_edge, clock_tick, delete_lines, drop_connection, CurrentlyOpen, fewer_inputs, inputs_adjustable,
    light_bulb_update, line_color, BrowserRequest, more_inputs, save_before_new, save_request, select_click,
    shortcut_mode, toggle_next, toggle_switch, update_lock, BrowserAction, ChangeInput,
    FileBrowser, FileRequest, FileType, InteractionMode, LineColor,
};
use nodus::world::{
    ClockTiming, ConnectEvent, Connector, ConnectorType, NodeType, Placement, Slot, World,
};

fn origin() -> Placement {
    Placement { x: 0, y: 0, rot_x: 0, rot_y: 0, rot_z: 0, rot_w: 0 }
}

fn no_timing() -> ClockTiming {
    ClockTiming { period: 0, elapsed: 0 }
}

#[test]
fn toggle_and_clock_values() {
    assert_eq!(toggle_next(State::High), State::Low);
    assert_eq!(toggle_next(State::Low), State::High);
    assert_eq!(toggle_next(State::Unknown), State::High);
    assert_eq!(clock_edge(State::High), State::Low);
    assert_eq!(clock_edge(State::Low), State::High);
    assert_eq!(clock_edge(State::Unknown), State::High);
}

#[test]
fn clicking_a_toggle_switch() {
    let mut world = World::new();
    let sw: usize = world
        .spawn_node(NodeType::ToggleSwitch, 0, 0, State::Low, no_timing(), origin())
        .unwrap();
    toggle_switch(&mut world, sw);
    assert_eq!(world.input(sw, 0), Some(State::High));
    world.transition_step();
    assert_eq!(world.output(sw, 0), Some(State::High));
    toggle_switch(&mut world, sw);
    assert_eq!(world.input(sw, 0), Some(State::Low));
    // A clock has no inputs: nothing happens.
    let clk: usize = world
        .spawn_node(NodeType::Clock, 0, 0, State::Low, no_timing(), origin())
        .unwrap();
    toggle_switch(&mut world, clk);
    assert_eq!(world.output(clk, 0), Some(State::Low));
}

#[test]
fn a_clock_flips_at_the_end_of_its_period() {
    let mut world = World::new();
    let clk: usize = world
        .spawn_node(NodeType::Clock, 0, 0, State::Low, ClockTiming { period: 5, elapsed: 3 }, origin())
        .unwrap();
    clock_tick(&mut world, clk);
    assert_eq!(world.output(clk, 0), Some(State::High));
    assert_eq!(world.clock(clk), Some(ClockTiming { period: 5, elapsed: 0 }));
    world.write_clock(clk, ClockTiming { period: 5, elapsed: 9 });
    assert_eq!(world.clock(clk), Some(ClockTiming { period: 5, elapsed: 9 }));
    clock_tick(&mut world, clk);
    assert_eq!(world.output(clk, 0), Some(State::Low));
    // A toggle switch has no timing: nothing happens.
    let sw: usize = world
        .spawn_node(NodeType::ToggleSwitch, 0, 0, State::Low, no_timing(), origin())
        .unwrap();
    clock_tick(&mut world, sw);
    assert_eq!(world.output(sw, 0), Some(State::Low));
    world.write_clock(sw, ClockTiming { period: 1, elapsed: 1 });
    assert_eq!(world.clock(sw), None);
}

#[test]
fn writing_outputs() {
    let mut world = World::new();
    let sw: usize = world
        .spawn_node(NodeType::ToggleSwitch, 0, 0, State::Low, no_timing(), origin())
        .unwrap();
    world.write_output((sw, 0, State::High));
    assert_eq!(world.output(sw, 0), Some(State::High));
    world.write_output((sw, 1, State::Low));
    assert_eq!(world.output(sw, 1), None);
    world.write_output((99, 0, State::Low));
    assert_eq!(world.len(), 2);
}

#[test]
fn light_bulb_redraws_on_change() {
    assert_eq!(light_bulb_update(State::High, State::Low), (true, true));
    assert_eq!(light_bulb_update(State::High, State::High), (false, true));
    assert_eq!(light_bulb_update(State::Low, State::High), (true, false));
    assert_eq!(light_bulb_update(State::Unknown, State::Unknown), (false, false));
}

#[test]
fn line_colours() {
    assert_eq!(line_color(Some(State::Unknown)), LineColor::Red);
    assert_eq!(line_color(Some(State::High)), LineColor::Blue);
    assert_eq!(line_color(Some(State::Low)), LineColor::Black);
    assert_eq!(line_color(None), LineColor::Black);
    assert_eq!(clock_color(State::High), LineColor::Blue);
    assert_eq!(clock_color(State::Low), LineColor::Black);
    assert_eq!(clock_color(State::Unknown), LineColor::Black);
}

#[test]
fn the_open_file_follows_saving_loading_and_new() {
    let mut open = CurrentlyOpen::new();
    assert_eq!(open.path, None);
    open.after_save(String::from("a.ron"), false);
    assert_eq!(open.path, None);
    open.after_save(String::from("a.ron"), true);
    assert_eq!(open.path, Some(String::from("a.ron")));
    open.after_load(String::from("b.ron"), false);
    assert_eq!(open.path, Some(String::from("a.ron")));
    open.after_load(String::from("b.ron"), true);
    assert_eq!(open.path, Some(String::from("b.ron")));
    open.after_new();
    assert_eq!(open.path, None);
}

#[test]
fn deleting_selected_lines() {
    let mut world = World::new();
    let high: usize = world
        .spawn_node(NodeType::HighConst, 0, 0, State::Unknown, no_timing(), origin())
        .unwrap();
    world
        .spawn_node(NodeType::Not, 1, 1, State::Unknown, no_timing(), origin())
        .unwrap();
    // Constant 0 with output connector 1; NOT gate 2 with connectors 3, 4.
    world.connect(&ConnectEvent { output: 1, output_index: 0, input: 3, input_index: 0, signal_success: false });
    // Entity 2 is no line: it is passed over.
    delete_lines(&mut world, &vec![5, 2]);
    assert!(matches!(world.slot(5), Slot::Vacant));
    assert!(matches!(world.slot(2), Slot::Node(_)));
    match world.slot(high) {
        Slot::Node(n) => assert!(n.targets.as_ref().unwrap()[0].entries.is_empty()),
        _ => panic!("the constant should stay"),
    }
}

#[test]
fn dropping_a_line() {
    let input = Connector { ctype: ConnectorType::In, index: 1 };
    let output = Connector { ctype: ConnectorType::Out, index: 0 };
    assert_eq!(
        drop_connection(3, output, 8, input),
        Some(ConnectEvent { output: 3, output_index: 0, input: 8, input_index: 1, signal_success: true })
    );
    assert_eq!(
        drop_connection(8, input, 3, output),
        Some(ConnectEvent { output: 3, output_index: 0, input: 8, input_index: 1, signal_success: true })
    );
    assert_eq!(drop_connection(8, input, 9, input), None);
    assert_eq!(drop_connection(3, output, 4, output), None);
}

#[test]
fn keyboard_shortcuts() {
    assert_eq!(shortcut_mode(InteractionMode::Select, false, true, false), InteractionMode::Pan);
    assert_eq!(shortcut_mode(InteractionMode::Pan, false, false, true), InteractionMode::Select);
    assert_eq!(shortcut_mode(InteractionMode::Pan, false, true, true), InteractionMode::Pan);
    assert_eq!(shortcut_mode(InteractionMode::Select, true, true, false), InteractionMode::Select);
    assert_eq!(shortcut_mode(InteractionMode::Pan, false, false, false), InteractionMode::Pan);
    assert!(update_lock(false, true, false));
    assert!(!update_lock(false, false, false));
}

#[test]
fn input_count_buttons() {
    assert_eq!(fewer_inputs(3, 2), Some(2));
    assert_eq!(fewer_inputs(2, 2), None);
    assert_eq!(more_inputs(15, 16), Some(16));
    assert_eq!(more_inputs(16, 16), None);
    assert!(inputs_adjustable(2, 16));
    assert!(!inputs_adjustable(1, 1));
}

#[test]
fn changing_the_number_of_inputs_disconnects_dropped_connectors() {
    let mut world = World::new();
    let high: usize = world
        .spawn_node(NodeType::HighConst, 0, 0, State::Unknown, no_timing(), origin())
        .unwrap();
    let and: usize = world
        .spawn_node(NodeType::And, 3, 1, State::Unknown, no_timing(), origin())
        .unwrap();
    // Input connectors 3, 4, 5 and output connector 6; the line is 7.
    world.connect(&ConnectEvent { output: 1, output_index: 0, input: 5, input_index: 2, signal_success: false });
    change_input(&mut world, &ChangeInput { gate: and, to: 2 });
    assert!(matches!(world.slot(5), Slot::Vacant));
    assert!(matches!(world.slot(7), Slot::Vacant));
    assert_eq!(world.input(and, 1), Some(State::Unknown));
    assert_eq!(world.input(and, 2), None);
    match world.slot(high) {
        Slot::Node(n) => assert!(n.targets.as_ref().unwrap()[0].entries.is_empty()),
        _ => panic!("the constant should stay"),
    }
    match world.slot(1) {
        Slot::Connector(c) => assert!(c.connections.is_empty()),
        _ => panic!("the output connector should stay"),
    }
}

#[test]
fn clicks_change_the_selection() {
    // Inactive: nothing changes.
    let r = select_click(false, Some((4, true)), &vec![(1, true)]);
    assert!(r.deselect.is_empty() && r.select.is_none() && r.drag.is_empty());
    // One entity selected: the click selects the entity hit.
    let r = select_click(true, Some((4, true)), &vec![(1, true)]);
    assert_eq!(r.deselect, vec![1]);
    assert_eq!(r.select, Some(4));
    assert_eq!(r.drag, vec![4]);
    // An entity that cannot be dragged is selected only.
    let r = select_click(true, Some((4, false)), &vec![]);
    assert_eq!(r.select, Some(4));
    assert!(r.drag.is_empty());
    // Several selected and one of them hit: drag those that can be dragged.
    let r = select_click(true, Some((2, true)), &vec![(1, true), (2, true), (3, false)]);
    assert!(r.deselect.is_empty());
    assert_eq!(r.select, None);
    assert_eq!(r.drag, vec![1, 2]);
    // Several selected and another one hit: it is selected alone.
    let r = select_click(true, Some((5, true)), &vec![(1, true), (2, true)]);
    assert_eq!(r.deselect, vec![1, 2]);
    assert_eq!(r.select, Some(5));
    assert_eq!(r.drag, vec![5]);
    // A click on empty space clears the selection.
    let r = select_click(true, None, &vec![(1, true), (2, true)]);
    assert_eq!(r.deselect, vec![1, 2]);
    assert_eq!(r.select, None);
    assert!(r.drag.is_empty());
}

#[test]
fn file_browser_and_requests() {
    assert_eq!(FileType::Ron.to_string(), "Rusty Object Notation");
    assert_eq!(FileType::Ron.ending(), "ron");
    let mut fb = FileBrowser::new();
    assert!(!fb.open);
    assert_eq!(fb.action, BrowserAction::Open);
    fb.open_for(BrowserAction::Save);
    assert!(fb.open);
    assert_eq!(fb.title, "Save File As...");
    assert_eq!(fb.action, BrowserAction::Save);
    fb.open_for(BrowserAction::Open);
    assert_eq!(fb.title, "Open File");

    match save_request(&Some(String::from("/tmp/a.ron"))) {
        FileRequest::SaveTo(p) => assert_eq!(p, "/tmp/a.ron"),
        _ => panic!("the open file should be saved"),
    }
    match save_request(&None) {
        FileRequest::Browse(a) => assert_eq!(a, BrowserAction::Save),
        _ => panic!("the browser should open"),
    }
    assert_eq!(save_before_new(&Some(String::from("b.ron"))), Some(String::from("b.ron")));
    assert_eq!(save_before_new(&None), None);
}

#[test]
fn radial_menu_pages() {
    assert_eq!(open_menu(MenuStates::Idle, true), Some((MenuStates::Select, MenuPage::Main)));
    assert_eq!(open_menu(MenuStates::Idle, false), None);
    assert_eq!(open_menu(MenuStates::Inputs, true), None);

    assert_eq!(choose_item(MenuStates::Select, 1), (MenuStates::LogicGates, MenuAction::Open(MenuPage::LogicGates)));
    assert_eq!(choose_item(MenuStates::Select, 2), (MenuStates::Inputs, MenuAction::Open(MenuPage::Inputs)));
    assert_eq!(choose_item(MenuStates::Select, 3), (MenuStates::Outputs, MenuAction::Open(MenuPage::Outputs)));
    assert_eq!(choose_item(MenuStates::Select, 0), (MenuStates::Idle, MenuAction::Close));
    assert_eq!(choose_item(MenuStates::LogicGates, 5), (MenuStates::Idle, MenuAction::Insert(NodeType::Not)));
    assert_eq!(choose_item(MenuStates::LogicGates, 0), (MenuStates::Select, MenuAction::Open(MenuPage::Main)));
    assert_eq!(choose_item(MenuStates::Inputs, 4), (MenuStates::Idle, MenuAction::Insert(NodeType::Clock)));
    assert_eq!(choose_item(MenuStates::Outputs, 1), (MenuStates::Idle, MenuAction::Insert(NodeType::LightBulb)));
    assert_eq!(choose_item(MenuStates::Idle, 1), (MenuStates::Idle, MenuAction::Close));

    assert_eq!(labels(MenuPage::Main), vec!["close", "Show Logic\nGates", "Show Input\nControls", "Show Output\nControls"]);
    assert_eq!(labels(MenuPage::Outputs).len(), 3);
    assert_eq!(labels(MenuPage::LogicGates)[6], "XOR gate");
    assert_eq!(labels(MenuPage::Inputs)[3], "Toggle Switch");
}

#[test]
fn confirming_the_browser_asks_by_its_action_and_closes_it() {
    let mut fb = FileBrowser::new();
    fb.open_for(BrowserAction::Save);
    match fb.confirm(String::from("/home/u/circuit.ron")) {
        BrowserRequest::Save(p) => assert_eq!(p, "/home/u/circuit.ron"),
        _ => panic!("a save browser asks to save"),
    }
    assert!(!fb.open);
    fb.open_for(BrowserAction::Open);
    match fb.confirm(String::from("/home/u/other.ron")) {
        BrowserRequest::Load(p) => assert_eq!(p, "/home/u/other.ron"),
        _ => panic!("an open browser asks to load"),
    }
    assert!(!fb.open);
    fb.open_for(BrowserAction::Save);
    fb.cancel();
    assert!(!fb.open);
    assert_eq!(fb.action, BrowserAction::Save);
}
