//! The decisions of the interactive systems: changing the number of inputs
//! of a gate, toggling switches and clocks, lighting bulbs, connecting by
//! drag and drop, colouring lines, and the modes and locks of the user
//! interface.
use vstd::prelude::*;
use crate::logic::State;
use crate::world::{
    ClockTiming, apply_clock_write, apply_output_write, apply_write, clock_of, input_of, output_of,
    ConnectEvent, Connector, ConnectorType, DisconnectEvent, Entity, World, WorldView, node_of,
    resizable, spec_resize_world, dropped_children, drop_events,
};
use crate::undo::{apply_disconnects, disconnect_all};

verus! {

/// A request to set the number of inputs of `gate` to `to`.
#[derive(Debug, Clone, Copy, PartialEq, Eq, Structural)]
pub struct ChangeInput {
    pub gate: Entity,
    pub to: u32,
}

/// The world after a change of the number of inputs: see
/// [`spec_resize_world`]; then each line of a despawned connector is
/// disconnected. Nothing happens unless the entity is a gate with inputs.
pub open spec fn spec_change_input(w: WorldView, ev: ChangeInput) -> WorldView {
    if resizable(w, ev.gate) {
        apply_disconnects(
            spec_resize_world(w, ev.gate, ev.to),
            drop_events(w, dropped_children(w, node_of(w, ev.gate as int).children, ev.to), ev.gate),
        )
    } else {
        w
    }
}

/// Carry out a change of the number of inputs; see [`spec_change_input`].
pub fn change_input(world: &mut World, ev: &ChangeInput)
    ensures
        final(world)@ == spec_change_input(old(world)@, *ev),
{
    let evs = world.resize_inputs(ev.gate, ev.to);
    disconnect_all(world, &evs);
}

/// The disconnect requests of deleting the selected lines `lines`.
pub open spec fn line_events(lines: Seq<Entity>) -> Seq<DisconnectEvent> {
    lines.map_values(|l: Entity| DisconnectEvent { connection: l, in_parent: None })
}

/// Delete the selected lines `lines`: each is disconnected in turn, where
/// the world can carry that out; see [`apply_disconnects`].
pub fn delete_lines(world: &mut World, lines: &Vec<Entity>)
    ensures
        final(world)@ == apply_disconnects(old(world)@, line_events(lines@)),
{
    let mut evs: Vec<DisconnectEvent> = Vec::new();
    let mut i: usize = 0;
    while i < lines.len()
        invariant
            i <= lines@.len(),
            evs@ == line_events(lines@.take(i as int)),
        decreases lines@.len() - i,
    {
        evs.push(DisconnectEvent { connection: lines[i], in_parent: None });
        i = i + 1;
        assert(evs@ =~= line_events(lines@.take(i as int)));
    }
    assert(lines@.take(i as int) =~= lines@);
    disconnect_all(world, &evs);
}

/// The next value of a toggle switch that is clicked: `Low` after `High`,
/// `High` otherwise.
pub open spec fn spec_toggle(s: State) -> State {
    match s {
        State::High => State::Low,
        _ => State::High,
    }
}

/// The next value of a toggle switch that is clicked.
pub fn toggle_next(s: State) -> (r: State)
    ensures
        r == spec_toggle(s),
{
    match s {
        State::High => State::Low,
        _ => State::High,
    }
}

/// The next output of a clock at the end of its period: `Low` after
/// `High`, `High` otherwise.
pub fn clock_edge(s: State) -> (r: State)
    ensures
        r == spec_toggle(s),
{
    match s {
        State::High => State::Low,
        _ => State::High,
    }
}

/// The world after toggle switch `g` is clicked: its input takes the next
/// value (see [`spec_toggle`]); nothing happens to a component without
/// inputs.
pub open spec fn spec_toggle_switch(w: WorldView, g: Entity) -> WorldView {
    match input_of(w, g as int, 0) {
        Some(s) => apply_write(w, (g, 0usize, spec_toggle(s))),
        None => w,
    }
}

/// Click toggle switch `g`; see [`spec_toggle_switch`].
pub fn toggle_switch(world: &mut World, g: Entity)
    ensures
        final(world)@ == spec_toggle_switch(old(world)@, g),
{
    match world.input(g, 0) {
        Some(s) => world.write_input((g, 0, toggle_next(s))),
        None => {},
    }
}

/// The world after clock `g` reaches the end of its period: its output
/// takes the next value (see [`spec_toggle`]) and the time elapsed since
/// the edge starts again at zero. Nothing happens to a component without a
/// timing or without outputs.
pub open spec fn spec_clock_tick(w: WorldView, g: Entity) -> WorldView {
    match (clock_of(w, g as int), output_of(w, g as int, 0)) {
        (Some(t), Some(s)) => apply_clock_write(
            apply_output_write(w, (g, 0usize, spec_toggle(s))),
            g as int,
            ClockTiming { period: t.period, elapsed: 0 },
        ),
        _ => w,
    }
}

/// Flip the output of clock `g` at the end of its period; see
/// [`spec_clock_tick`].
pub fn clock_tick(world: &mut World, g: Entity)
    ensures
        final(world)@ == spec_clock_tick(old(world)@, g),
{
    match (world.clock(g), world.output(g, 0)) {
        (Some(t), Some(s)) => {
            world.write_output((g, 0, clock_edge(s)));
            world.write_clock(g, ClockTiming { period: t.period, elapsed: 0 });
        },
        _ => {},
    }
}

/// What a light bulb shows: lit exactly when its input is `High`; the
/// bulb is redrawn only when its input differs from what it showed last.
/// Returns whether to redraw it and whether it is lit.
pub fn light_bulb_update(input: State, shown: State) -> (r: (bool, bool))
    ensures
        r.0 == (input != shown),
        r.1 == (input == State::High),
{
    let changed = match (input, shown) {
        (State::Unknown, State::Unknown) | (State::High, State::High) | (State::Low, State::Low) => false,
        _ => true,
    };
    let lit = match input {
        State::High => true,
        _ => false,
    };
    (changed, lit)
}

/// The colour of a connection line.
#[derive(Debug, Clone, Copy, PartialEq, Eq, Structural)]
pub enum LineColor {
    Red,
    Blue,
    Black,
}

/// The colour of a line from the value of its output: red when unknown,
/// blue when `High`, black when `Low`, and black when the line's output
/// component has no outputs (`None`).
pub open spec fn spec_line_color(out: Option<State>) -> LineColor {
    match out {
        Some(State::Unknown) => LineColor::Red,
        Some(State::High) => LineColor::Blue,
        Some(State::Low) => LineColor::Black,
        None => LineColor::Black,
    }
}

/// The colour of a line from the value of its output; see
/// [`spec_line_color`].
pub fn line_color(out: Option<State>) -> (r: LineColor)
    ensures
        r == spec_line_color(out),
{
    match out {
        Some(State::Unknown) => LineColor::Red,
        Some(State::High) => LineColor::Blue,
        Some(State::Low) => LineColor::Black,
        None => LineColor::Black,
    }
}

/// The colour of a clock's outline after its output became `s`: blue when
/// `High`, black otherwise.
pub fn clock_color(s: State) -> (r: LineColor)
    ensures
        r == (if s == State::High {
            LineColor::Blue
        } else {
            LineColor::Black
        }),
{
    match s {
        State::High => LineColor::Blue,
        _ => LineColor::Black,
    }
}

/// The connect request of dropping a line dragged from connector `from`
/// (entity `from_e`) onto connector `onto` (entity `onto_e`): only an
/// input and an output connect, whichever was dragged; the request asks
/// to record the connection.
pub open spec fn spec_drop(from_e: Entity, from: Connector, onto_e: Entity, onto: Connector) -> Option<ConnectEvent> {
    if from.ctype == onto.ctype {
        None
    } else if from.ctype == ConnectorType::In {
        Some(ConnectEvent { output: onto_e, output_index: onto.index, input: from_e, input_index: from.index, signal_success: true })
    } else {
        Some(ConnectEvent { output: from_e, output_index: from.index, input: onto_e, input_index: onto.index, signal_success: true })
    }
}

/// The connect request of a drop; see [`spec_drop`].
pub fn drop_connection(from_e: Entity, from: Connector, onto_e: Entity, onto: Connector) -> (r: Option<ConnectEvent>)
    ensures
        r == spec_drop(from_e, from, onto_e, onto),
{
    match (from.ctype, onto.ctype) {
        (ConnectorType::In, ConnectorType::Out) => Some(
            ConnectEvent { output: onto_e, output_index: onto.index, input: from_e, input_index: from.index, signal_success: true },
        ),
        (ConnectorType::Out, ConnectorType::In) => Some(
            ConnectEvent { output: from_e, output_index: from.index, input: onto_e, input_index: onto.index, signal_success: true },
        ),
        _ => None,
    }
}

/// How a left click acts on the world.
#[derive(Debug, Clone, Copy, PartialEq, Eq, Structural)]
pub enum InteractionMode {
    Select,
    Pan,
}

/// The interaction mode after the keys: unchanged while the input is
/// locked; `P` switches to panning, else `S` to selecting.
pub open spec fn spec_shortcut(mode: InteractionMode, locked: bool, p: bool, s: bool) -> InteractionMode {
    if locked {
        mode
    } else if p {
        InteractionMode::Pan
    } else if s {
        InteractionMode::Select
    } else {
        mode
    }
}

/// The interaction mode after the keys `P` and `S`; see
/// [`spec_shortcut`].
pub fn shortcut_mode(mode: InteractionMode, locked: bool, p: bool, s: bool) -> (r: InteractionMode)
    ensures
        r == spec_shortcut(mode, locked, p, s),
{
    if locked {
        mode
    } else if p {
        InteractionMode::Pan
    } else if s {
        InteractionMode::Select
    } else {
        mode
    }
}

/// The world input is locked while a window (about, file browser) or the
/// radial menu is open.
pub fn update_lock(about_open: bool, browser_open: bool, menu_open: bool) -> (r: bool)
    ensures
        r == (about_open || browser_open || menu_open),
{
    about_open || browser_open || menu_open
}

/// The number of inputs the minus button asks for: one less, where the
/// gate has more than its minimum.
pub fn fewer_inputs(inputs: u32, min: u32) -> (r: Option<u32>)
    ensures
        inputs > min ==> r == Some((inputs - 1) as u32),
        inputs <= min ==> r is None,
{
    if inputs > min {
        Some(inputs - 1)
    } else {
        None
    }
}

/// The number of inputs the plus button asks for: one more, where the logic gate
/// has fewer than its maximum.
pub fn more_inputs(inputs: u32, max: u32) -> (r: Option<u32>)
    ensures
        inputs < max ==> r == Some((inputs + 1) as u32),
        inputs >= max ==> r is None,
{
    if inputs < max {
        Some(inputs + 1)
    } else {
        None
    }
}

/// The input count of a gate can be changed in its info window only where
/// its minimum and maximum differ.
pub fn inputs_adjustable(min: u32, max: u32) -> (r: bool)
    ensures
        r == (min != max),
{
    min != max
}

/// What a left click in select mode does to the selection.
#[derive(Debug)]
pub struct SelectionChange {
    /// Entities that lose their selection.
    pub deselect: Vec<Entity>,
    /// The entity that becomes selected.
    pub select: Option<Entity>,
    /// Entities that start being dragged.
    pub drag: Vec<Entity>,
}

/// The entities of `sel` that can be dragged.
pub open spec fn draggable_of(sel: Seq<(Entity, bool)>) -> Seq<Entity>
    decreases sel.len(),
{
    if sel.len() == 0 {
        Seq::empty()
    } else {
        let r = draggable_of(sel.drop_last());
        if sel.last().1 {
            r.push(sel.last().0)
        } else {
            r
        }
    }
}

/// The entities of `sel`.
pub open spec fn entities_of(sel: Seq<(Entity, bool)>) -> Seq<Entity> {
    sel.map_values(|x: (Entity, bool)| x.0)
}

/// The change of the selection by a click.
///
/// `active` holds when the input is not locked, the mode is select and the
/// left button was just pressed; otherwise nothing changes. `hit` is the
/// topmost selectable entity under the cursor and whether it can be
/// dragged; `sel` the selected entities and whether each can be dragged.
/// With more than one entity selected, a click on one of them drags them
/// all; a click on another entity selects it alone (dragging it where it
/// can be), a click on empty space clears the selection. With at most one
/// entity selected, the click clears the selection and selects the entity
/// hit (dragging it where it can be).
pub open spec fn spec_select(active: bool, hit: Option<(Entity, bool)>, sel: Seq<(Entity, bool)>) -> (
    Seq<Entity>,
    Option<Entity>,
    Seq<Entity>,
) {
    if !active {
        (Seq::empty(), None, Seq::empty())
    } else if sel.len() > 1 {
        match hit {
            Some((e, d)) => if entities_of(sel).contains(e) {
                (Seq::empty(), None, draggable_of(sel))
            } else {
                (entities_of(sel), Some(e), if d { seq![e] } else { Seq::empty() })
            },
            None => (entities_of(sel), None, Seq::empty()),
        }
    } else {
        match hit {
            Some((e, d)) => (entities_of(sel), Some(e), if d { seq![e] } else { Seq::empty() }),
            None => (entities_of(sel), None, Seq::empty()),
        }
    }
}

/// The change of the selection by a click; see [`spec_select`].
pub fn select_click(active: bool, hit: Option<(Entity, bool)>, sel: &Vec<(Entity, bool)>) -> (r: SelectionChange)
    ensures
        (r.deselect@, r.select, r.drag@) == spec_select(active, hit, sel@),
{
    let mut none: Vec<Entity> = Vec::new();
    if !active {
        return SelectionChange { deselect: Vec::new(), select: None, drag: Vec::new() };
    }
    // The selected entities, and those of them that can be dragged.
    let mut all: Vec<Entity> = Vec::new();
    let mut drag: Vec<Entity> = Vec::new();
    let mut contains = false;
    let mut i: usize = 0;
    assert(sel@.take(0) =~= Seq::<(Entity, bool)>::empty());
    while i < sel.len()
        invariant
            i <= sel@.len(),
            all@ == entities_of(sel@.take(i as int)),
            drag@ == draggable_of(sel@.take(i as int)),
            contains == (hit matches Some(h) && entities_of(sel@.take(i as int)).contains(h.0)),
        decreases sel@.len() - i,
    {
        assert(sel@.take(i + 1).drop_last() =~= sel@.take(i as int));
        let ghost before = all@;
        all.push(sel[i].0);
        assert(all@ =~= entities_of(sel@.take(i + 1)));
        if sel[i].1 {
            drag.push(sel[i].0);
        }
        match hit {
            Some((e, _)) => {
                if sel[i].0 == e {
                    contains = true;
                    assert(all@[i as int] == e);
                }
                proof {
                    if all@.contains(e) && !before.contains(e) {
                        let j = choose|j: int| 0 <= j < all@.len() && all@[j] == e;
                        if j < before.len() {
                            assert(before[j] == e);
                        }
                    }
                    if before.contains(e) {
                        let j = choose|j: int| 0 <= j < before.len() && before[j] == e;
                        assert(all@[j] == e);
                    }
                }
            },
            None => {},
        }
        i = i + 1;
    }
    assert(sel@.take(i as int) =~= sel@);
    if sel.len() > 1 {
        match hit {
            Some((e, d)) => {
                if contains {
                    SelectionChange { deselect: none, select: None, drag }
                } else {
                    let mut dv = Vec::new();
                    if d {
                        dv.push(e);
                    }
                    assert(dv@ =~= (if d { seq![e] } else { Seq::<Entity>::empty() }));
                    SelectionChange { deselect: all, select: Some(e), drag: dv }
                }
            },
            None => SelectionChange { deselect: all, select: None, drag: none },
        }
    } else {
        match hit {
            Some((e, d)) => {
                let mut dv = Vec::new();
                if d {
                    dv.push(e);
                }
                assert(dv@ =~= (if d { seq![e] } else { Seq::<Entity>::empty() }));
                SelectionChange { deselect: all, select: Some(e), drag: dv }
            },
            None => SelectionChange { deselect: all, select: None, drag: none },
        }
    }
}

/// What a file browser does when confirmed.
#[derive(Debug, Clone, Copy, PartialEq, Eq, Structural)]
pub enum BrowserAction {
    Open,
    Save,
}

/// The kinds of files the browser lists.
#[derive(Debug, Clone, Copy, PartialEq, Eq, Structural)]
pub enum FileType {
    Ron,
}

impl FileType {
    /// The name of the file type.
    pub fn to_string(&self) -> (r: String)
        ensures
            r@ == "Rusty Object Notation"@,
    {
        "Rusty Object Notation".to_owned()
    }

    /// The file name ending of the file type.
    pub fn ending(&self) -> (r: &'static str)
        ensures
            r@ == "ron"@,
    {
        "ron"
    }
}

/// The state of the file browser, but for the directory it shows.
#[derive(Debug)]
pub struct FileBrowser {
    pub open: bool,
    pub fname: String,
    pub file_type: FileType,
    pub title: String,
    pub action: BrowserAction,
}

impl FileBrowser {
    /// A closed browser for opening files.
    pub fn new() -> (b: Self)
        ensures
            !b.open,
            b.fname@ == Seq::<char>::empty(),
            b.file_type == FileType::Ron,
            b.title@ == Seq::<char>::empty(),
            b.action == BrowserAction::Open,
    {
        FileBrowser {
            open: false,
            fname: String::new(),
            file_type: FileType::Ron,
            title: String::new(),
            action: BrowserAction::Open,
        }
    }

    /// Open the browser for `action`, with the title that says so.
    pub fn open_for(&mut self, action: BrowserAction)
        ensures
            final(self).open,
            final(self).action == action,
            final(self).title@ == (match action {
                BrowserAction::Open => "Open File"@,
                BrowserAction::Save => "Save File As..."@,
            }),
            final(self).fname == old(self).fname,
            final(self).file_type == old(self).file_type,
    {
        self.open = true;
        match action {
            BrowserAction::Open => {
                self.title = "Open File".to_owned();
                self.action = BrowserAction::Open;
            },
            BrowserAction::Save => {
                self.title = "Save File As...".to_owned();
                self.action = BrowserAction::Save;
            },
        }
    }
}

/// What confirming the file browser asks for.
#[derive(Debug)]
pub enum BrowserRequest {
    /// Save the circuit to this path.
    Save(String),
    /// Load the circuit from this path.
    Load(String),
}

impl FileBrowser {
    /// Confirm the file `target` (the chosen directory joined with the file
    /// name, with the file type's ending when saving): the browser asks to
    /// save to it or to load from it, by its action, and closes.
    pub fn confirm(&mut self, target: String) -> (r: BrowserRequest)
        ensures
            !final(self).open,
            final(self).action == old(self).action,
            final(self).fname == old(self).fname,
            final(self).title == old(self).title,
            final(self).file_type == old(self).file_type,
            match old(self).action {
                BrowserAction::Save => r matches BrowserRequest::Save(p) && p@ == target@,
                BrowserAction::Open => r matches BrowserRequest::Load(p) && p@ == target@,
            },
    {
        self.open = false;
        match self.action {
            BrowserAction::Save => BrowserRequest::Save(target),
            BrowserAction::Open => BrowserRequest::Load(target),
        }
    }

    /// Cancel: the browser closes and asks for nothing.
    pub fn cancel(&mut self)
        ensures
            !final(self).open,
            final(self).action == old(self).action,
            final(self).fname == old(self).fname,
            final(self).title == old(self).title,
            final(self).file_type == old(self).file_type,
    {
        self.open = false;
    }
}

/// The file the circuit was last loaded from or saved to, if any.
#[derive(Debug)]
pub struct CurrentlyOpen {
    pub path: Option<String>,
}

impl CurrentlyOpen {
    /// No file is open.
    pub fn new() -> (c: Self)
        ensures
            c.path is None,
    {
        CurrentlyOpen { path: None }
    }

    /// After writing the circuit to `path`: the file is open where the
    /// write succeeded (`written`), otherwise the open file stays.
    pub fn after_save(&mut self, path: String, written: bool)
        ensures
            written ==> final(self).path is Some && final(self).path.unwrap()@ == path@,
            !written ==> final(self).path == old(self).path,
    {
        if written {
            self.path = Some(path);
        }
    }

    /// After loading the circuit from `path`: the file is open where it was
    /// read and parsed (`loaded`), otherwise the open file stays.
    pub fn after_load(&mut self, path: String, loaded: bool)
        ensures
            loaded ==> final(self).path is Some && final(self).path.unwrap()@ == path@,
            !loaded ==> final(self).path == old(self).path,
    {
        if loaded {
            self.path = Some(path);
        }
    }

    /// After starting a new circuit: no file is open.
    pub fn after_new(&mut self)
        ensures
            final(self).path is None,
    {
        self.path = None;
    }
}

/// What the menu entries "New" and "Save" ask for.
#[derive(Debug)]
pub enum FileRequest {
    /// Save to this path.
    SaveTo(String),
    /// Ask for a path in the file browser.
    Browse(BrowserAction),
}

/// The save request of the menu entry "Save": the file currently open, or
/// the file browser when none is.
pub fn save_request(current: &Option<String>) -> (r: FileRequest)
    ensures
        match current {
            Some(p) => r matches FileRequest::SaveTo(q) && q@ == p@,
            None => r matches FileRequest::Browse(a) && a == BrowserAction::Save,
        },
{
    match current {
        Some(p) => FileRequest::SaveTo(p.clone()),
        None => FileRequest::Browse(BrowserAction::Save),
    }
}

/// The save request that comes before a new file: the file currently open
/// is saved first, where there is one.
pub fn save_before_new(current: &Option<String>) -> (r: Option<String>)
    ensures
        match current {
            Some(p) => r matches Some(q) && q@ == p@,
            None => r is None,
        },
{
    match current {
        Some(p) => Some(p.clone()),
        None => None,
    }
}

} // verus!

verus! {

/// Clicking a toggle switch twice gives back a known value; the first click
/// of one whose value is unknown switches it on.
pub proof fn law_toggle_twice(s: State)
    ensures
        s != State::Unknown ==> spec_toggle(spec_toggle(s)) == s,
        spec_toggle(s) != State::Unknown,
        s == State::Unknown ==> spec_toggle(s) == State::High,
{
}


/// An active click leaves no other entity selected: every selected entity
/// that is not the one hit is deselected, unless a click on one of several
/// selected entities drags them all; only selected entities are
/// deselected; the entity hit becomes selected, and dragged where it can
/// be, unless the click drags the selection, which drags exactly the
/// selected entities that can be dragged; and an inactive click changes
/// nothing.
pub proof fn law_click_clears_selection(active: bool, hit: Option<(Entity, bool)>, sel: Seq<(Entity, bool)>)
    ensures
        ({
            let (desel, chosen, drag) = spec_select(active, hit, sel);
            let drag_all = active && sel.len() > 1 && (hit matches Some(h) && entities_of(sel).contains(h.0));
            &&& active ==> forall|k: int|
                0 <= k < sel.len() ==> desel.contains(#[trigger] sel[k].0) || (hit matches Some(h) && h.0 == sel[k].0)
                    || drag_all
            &&& forall|x: Entity| desel.contains(x) ==> entities_of(sel).contains(x)
            &&& active && !drag_all ==> chosen == (match hit {
                Some(h) => Some(h.0),
                None => None,
            })
            &&& drag_all ==> desel.len() == 0 && chosen is None && forall|x: Entity|
                drag.contains(x) <==> sel.contains((x, true))
            &&& active && !drag_all ==> drag == (match hit {
                Some(h) => if h.1 { seq![h.0] } else { Seq::empty() },
                None => Seq::empty(),
            })
            &&& !active ==> desel.len() == 0 && chosen is None && drag.len() == 0
        }),
{
    let es = entities_of(sel);
    assert forall|k: int| 0 <= k < sel.len() implies es.contains(#[trigger] sel[k].0) by {
        assert(es[k] == sel[k].0);
    }
    assert forall|x: Entity| draggable_of(sel).contains(x) <==> sel.contains((x, true)) by {
        lemma_draggable_of(sel, x);
    }
    let (desel, chosen, drag) = spec_select(active, hit, sel);
    let drag_all = active && sel.len() > 1 && (hit matches Some(h) && entities_of(sel).contains(h.0));
    if drag_all {
        assert(drag == draggable_of(sel));
    }
    if active && !drag_all {
        match hit {
            Some(h) => {
                assert(drag =~= (if h.1 { seq![h.0] } else { Seq::<Entity>::empty() }));
            },
            None => {
                assert(drag =~= Seq::<Entity>::empty());
            },
        }
    }
}

/// The draggable entities of a selection are those selected as draggable.
proof fn lemma_draggable_of(sel: Seq<(Entity, bool)>, x: Entity)
    ensures
        draggable_of(sel).contains(x) <==> sel.contains((x, true)),
    decreases sel.len(),
{
    if sel.len() > 0 {
        let d = sel.drop_last();
        lemma_draggable_of(d, x);
        let r = draggable_of(d);
        if sel.contains((x, true)) {
            let k = choose|k: int| 0 <= k < sel.len() && sel[k] == (x, true);
            if k < d.len() {
                assert(d[k] == sel[k]);
                let q = choose|q: int| 0 <= q < r.len() && r[q] == x;
                if sel.last().1 {
                    assert(r.push(sel.last().0)[q] == x);
                }
            } else {
                assert(r.push(sel.last().0)[r.len() as int] == x);
            }
        }
        if draggable_of(sel).contains(x) {
            let q = choose|q: int| 0 <= q < draggable_of(sel).len() && draggable_of(sel)[q] == x;
            if q < r.len() {
                assert(r[q] == x);
                assert(r.contains(x));
                let k = choose|k: int| 0 <= k < d.len() && d[k] == (x, true);
                assert(sel[k] == (x, true));
            } else {
                assert(sel[sel.len() - 1] == (x, true));
            }
        }
    }
}

} // verus!
