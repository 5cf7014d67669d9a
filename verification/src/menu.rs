//! The radial context menu from which the user inserts components: the
//! pages it shows and what a choice on each page does.
use vstd::prelude::*;
use crate::world::NodeType;

verus! {

/// Where the user is in the radial menu.
#[derive(Debug, Clone, Copy, PartialEq, Eq, Structural)]
pub enum MenuStates {
    Idle,
    Select,
    LogicGates,
    Inputs,
    Outputs,
}

/// A page of the radial menu.
#[derive(Debug, Clone, Copy, PartialEq, Eq, Structural)]
pub enum MenuPage {
    /// Close, logic gates, input controls, output controls.
    Main,
    /// Back, AND, NAND, OR, NOR, NOT, XOR.
    LogicGates,
    /// Back, HIGH constant, LOW constant, toggle switch, clock.
    Inputs,
    /// Back, light bulb, seven segment display.
    Outputs,
}

/// What a choice in the radial menu asks for.
#[derive(Debug, Clone, Copy, PartialEq, Eq, Structural)]
pub enum MenuAction {
    /// Show a page.
    Open(MenuPage),
    /// Insert a component where the menu was opened.
    Insert(NodeType),
    /// Nothing.
    Close,
}

/// A right click opens the main page where the menu is idle.
pub open spec fn spec_open_menu(state: MenuStates, right_pressed: bool) -> Option<(MenuStates, MenuPage)> {
    if right_pressed && state == MenuStates::Idle {
        Some((MenuStates::Select, MenuPage::Main))
    } else {
        None
    }
}

/// Whether a right click opens the menu, and then the new state and page.
pub fn open_menu(state: MenuStates, right_pressed: bool) -> (r: Option<(MenuStates, MenuPage)>)
    ensures
        r == spec_open_menu(state, right_pressed),
{
    match state {
        MenuStates::Idle => if right_pressed {
            Some((MenuStates::Select, MenuPage::Main))
        } else {
            None
        },
        _ => None,
    }
}

/// The state and action after item `id` was chosen.
///
/// On the main page items 1, 2, 3 show the logic gates, the input controls
/// and the output controls; item 0 closes the menu. On the other pages the
/// items from 1 insert the component they show and close the menu, item 0
/// goes back to the main page. Nothing happens while idle.
pub open spec fn spec_choose(state: MenuStates, id: usize) -> (MenuStates, MenuAction) {
    match state {
        MenuStates::Select => if id == 1 {
            (MenuStates::LogicGates, MenuAction::Open(MenuPage::LogicGates))
        } else if id == 2 {
            (MenuStates::Inputs, MenuAction::Open(MenuPage::Inputs))
        } else if id == 3 {
            (MenuStates::Outputs, MenuAction::Open(MenuPage::Outputs))
        } else {
            (MenuStates::Idle, MenuAction::Close)
        },
        MenuStates::LogicGates => if id == 1 {
            (MenuStates::Idle, MenuAction::Insert(NodeType::And))
        } else if id == 2 {
            (MenuStates::Idle, MenuAction::Insert(NodeType::Nand))
        } else if id == 3 {
            (MenuStates::Idle, MenuAction::Insert(NodeType::Or))
        } else if id == 4 {
            (MenuStates::Idle, MenuAction::Insert(NodeType::Nor))
        } else if id == 5 {
            (MenuStates::Idle, MenuAction::Insert(NodeType::Not))
        } else if id == 6 {
            (MenuStates::Idle, MenuAction::Insert(NodeType::Xor))
        } else {
            (MenuStates::Select, MenuAction::Open(MenuPage::Main))
        },
        MenuStates::Inputs => if id == 1 {
            (MenuStates::Idle, MenuAction::Insert(NodeType::HighConst))
        } else if id == 2 {
            (MenuStates::Idle, MenuAction::Insert(NodeType::LowConst))
        } else if id == 3 {
            (MenuStates::Idle, MenuAction::Insert(NodeType::ToggleSwitch))
        } else if id == 4 {
            (MenuStates::Idle, MenuAction::Insert(NodeType::Clock))
        } else {
            (MenuStates::Select, MenuAction::Open(MenuPage::Main))
        },
        MenuStates::Outputs => if id == 1 {
            (MenuStates::Idle, MenuAction::Insert(NodeType::LightBulb))
        } else if id == 2 {
            (MenuStates::Idle, MenuAction::Insert(NodeType::SevenSegmentDisplay))
        } else {
            (MenuStates::Select, MenuAction::Open(MenuPage::Main))
        },
        MenuStates::Idle => (MenuStates::Idle, MenuAction::Close),
    }
}

/// Handle the choice of item `id`; see [`spec_choose`].
pub fn choose_item(state: MenuStates, id: usize) -> (r: (MenuStates, MenuAction))
    ensures
        r == spec_choose(state, id),
{
    match state {
        MenuStates::Select => match id {
            1 => (MenuStates::LogicGates, MenuAction::Open(MenuPage::LogicGates)),
            2 => (MenuStates::Inputs, MenuAction::Open(MenuPage::Inputs)),
            3 => (MenuStates::Outputs, MenuAction::Open(MenuPage::Outputs)),
            _ => (MenuStates::Idle, MenuAction::Close),
        },
        MenuStates::LogicGates => match id {
            1 => (MenuStates::Idle, MenuAction::Insert(NodeType::And)),
            2 => (MenuStates::Idle, MenuAction::Insert(NodeType::Nand)),
            3 => (MenuStates::Idle, MenuAction::Insert(NodeType::Or)),
            4 => (MenuStates::Idle, MenuAction::Insert(NodeType::Nor)),
            5 => (MenuStates::Idle, MenuAction::Insert(NodeType::Not)),
            6 => (MenuStates::Idle, MenuAction::Insert(NodeType::Xor)),
            _ => (MenuStates::Select, MenuAction::Open(MenuPage::Main)),
        },
        MenuStates::Inputs => match id {
            1 => (MenuStates::Idle, MenuAction::Insert(NodeType::HighConst)),
            2 => (MenuStates::Idle, MenuAction::Insert(NodeType::LowConst)),
            3 => (MenuStates::Idle, MenuAction::Insert(NodeType::ToggleSwitch)),
            4 => (MenuStates::Idle, MenuAction::Insert(NodeType::Clock)),
            _ => (MenuStates::Select, MenuAction::Open(MenuPage::Main)),
        },
        MenuStates::Outputs => match id {
            1 => (MenuStates::Idle, MenuAction::Insert(NodeType::LightBulb)),
            2 => (MenuStates::Idle, MenuAction::Insert(NodeType::SevenSegmentDisplay)),
            _ => (MenuStates::Select, MenuAction::Open(MenuPage::Main)),
        },
        MenuStates::Idle => (MenuStates::Idle, MenuAction::Close),
    }
}

/// The labels of the items of each page, in order.
pub open spec fn page_labels(page: MenuPage) -> Seq<Seq<char>> {
    match page {
        MenuPage::Main => seq!["close"@, "Show Logic\nGates"@, "Show Input\nControls"@, "Show Output\nControls"@],
        MenuPage::LogicGates => seq!["back"@, "AND gate"@, "NAND gate"@, "OR gate"@, "NOR gate"@, "NOT gate"@, "XOR gate"@],
        MenuPage::Inputs => seq!["back"@, "HIGH const"@, "LOW const"@, "Toggle Switch"@, "Clock"@],
        MenuPage::Outputs => seq!["back"@, "Light Bulb"@, "7-Segment Display"@],
    }
}

/// The labels of the items of a page.
pub fn labels(page: MenuPage) -> (r: Vec<&'static str>)
    ensures
        r@.map_values(|s: &'static str| s@) == page_labels(page),
{
    let v: Vec<&'static str> = match page {
        MenuPage::Main => vec!["close", "Show Logic\nGates", "Show Input\nControls", "Show Output\nControls"],
        MenuPage::LogicGates => vec!["back", "AND gate", "NAND gate", "OR gate", "NOR gate", "NOT gate", "XOR gate"],
        MenuPage::Inputs => vec!["back", "HIGH const", "LOW const", "Toggle Switch", "Clock"],
        MenuPage::Outputs => vec!["back", "Light Bulb", "7-Segment Display"],
    };
    assert(v@.map_values(|s: &'static str| s@) =~= page_labels(page));
    v
}

/// Every choice from the main page leaves the menu idle or on the page it
/// shows, and every choice on another page either inserts a component and
/// leaves the menu idle, or goes back to the main page.
pub proof fn law_menu_choices(state: MenuStates, id: usize)
    ensures
        ({
            let (next, action) = spec_choose(state, id);
            &&& action matches MenuAction::Insert(_) ==> next == MenuStates::Idle
            &&& action matches MenuAction::Open(p) ==> (p == MenuPage::Main <==> next == MenuStates::Select)
            &&& action == MenuAction::Close ==> next == MenuStates::Idle
            &&& action matches MenuAction::Insert(k) ==> k != NodeType::Xnor
        }),
{
}


/// The page the menu shows in state `s`, where it shows one.
pub open spec fn shown_page(s: MenuStates) -> Option<MenuPage> {
    match s {
        MenuStates::Select => Some(MenuPage::Main),
        MenuStates::LogicGates => Some(MenuPage::LogicGates),
        MenuStates::Inputs => Some(MenuPage::Inputs),
        MenuStates::Outputs => Some(MenuPage::Outputs),
        MenuStates::Idle => None,
    }
}

/// The label of the menu item for components of kind `k`.
pub open spec fn kind_label(k: NodeType) -> Seq<char> {
    match k {
        NodeType::And => "AND gate"@,
        NodeType::Nand => "NAND gate"@,
        NodeType::Or => "OR gate"@,
        NodeType::Nor => "NOR gate"@,
        NodeType::Not => "NOT gate"@,
        NodeType::Xor => "XOR gate"@,
        NodeType::Xnor => "XNOR gate"@,
        NodeType::HighConst => "HIGH const"@,
        NodeType::LowConst => "LOW const"@,
        NodeType::ToggleSwitch => "Toggle Switch"@,
        NodeType::Clock => "Clock"@,
        NodeType::LightBulb => "Light Bulb"@,
        NodeType::SevenSegmentDisplay => "7-Segment Display"@,
    }
}

/// A choice inserts the component that the label of the chosen item names,
/// on the page the menu shows; every item after the first on a page of
/// components inserts one.
pub proof fn law_menu_inserts_labelled(state: MenuStates, id: usize)
    ensures
        spec_choose(state, id).1 matches MenuAction::Insert(k) ==> shown_page(state) matches Some(p) && (id as int)
            < page_labels(p).len() && page_labels(p)[id as int] == kind_label(k),
        (shown_page(state) matches Some(p) && p != MenuPage::Main && 1 <= id < page_labels(p).len())
            ==> (spec_choose(state, id).1 matches MenuAction::Insert(k) && page_labels(
            shown_page(state).unwrap(),
        )[id as int] == kind_label(k)),
{
}

} // verus!
