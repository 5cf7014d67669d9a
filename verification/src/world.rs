//! The simulated world: logic components, their connectors and the
//! connection lines between them.
//!
//! Every thing in the world is an entity, named by the position of its slot.
//! A slot holds a logic component (a node), a connector or a connection
//! line; a despawned entity leaves a vacant slot behind, so that an entity
//! name is never given out twice.
use vstd::prelude::*;
use crate::logic::{State, Transition, spec_apply, min_inputs, apply_transition, count_high};
use crate::load::has_target;

verus! {

/// The name of an entity in the world.
pub type Entity = usize;

/// The kind of a logic component.
#[derive(Debug, Clone, Copy, PartialEq, Eq, Structural)]
pub enum NodeType {
    And,
    Nand,
    Or,
    Nor,
    Xor,
    Xnor,
    Not,
    HighConst,
    LowConst,
    ToggleSwitch,
    Clock,
    LightBulb,
    SevenSegmentDisplay,
}

/// The minimum and maximum number of connectors of a logic component.
#[derive(Debug, Clone, Copy, PartialEq, Eq, Structural)]
pub struct NodeRange {
    pub min: u32,
    pub max: u32,
}

/// The logic gate component.
///
/// `inputs`/`outputs` are the current numbers of input and output
/// connectors; `in_range`/`out_range` are the allowed minimum and maximum.
#[derive(Debug, Clone, Copy, PartialEq, Eq, Structural)]
pub struct Gate {
    pub inputs: u32,
    pub outputs: u32,
    pub in_range: NodeRange,
    pub out_range: NodeRange,
}

/// The type of a connector.
#[derive(Debug, Clone, Copy, PartialEq, Eq, Structural)]
pub enum ConnectorType {
    In,
    Out,
}

/// A connector, the interface of a logic component.
///
/// `index` is its position among the connectors of the same type of its
/// logic component.
#[derive(Debug, Clone, Copy, PartialEq, Eq, Structural)]
pub struct Connector {
    pub ctype: ConnectorType,
    pub index: usize,
}

/// An entity together with the index of one of its inputs or outputs.
#[derive(Debug, Clone, Copy, PartialEq, Eq, Structural)]
pub struct ConnInfo {
    pub entity: Entity,
    pub index: usize,
}

/// A connection from an output connector to an input connector.
#[derive(Debug, Clone, Copy, PartialEq, Eq, Structural)]
pub struct ConnectionLine {
    pub output: ConnInfo,
    pub input: ConnInfo,
}

/// Where a logic component stands: the bit patterns of its `x` and `y`
/// coordinates and of the four components of its rotation quaternion.
#[derive(Debug, Clone, Copy, PartialEq, Eq, Structural)]
pub struct Placement {
    pub x: u32,
    pub y: u32,
    pub rot_x: u32,
    pub rot_y: u32,
    pub rot_z: u32,
    pub rot_w: u32,
}

/// The timing of a clock: the bit patterns of its period and of the time
/// elapsed since its last edge, both in seconds.
#[derive(Debug, Clone, Copy, PartialEq, Eq, Structural)]
pub struct ClockTiming {
    pub period: u32,
    pub elapsed: u32,
}

/// The inputs of one logic component that an output drives, given by the
/// input indices.
#[derive(Debug)]
pub struct TargetEntry {
    pub gate: Entity,
    pub indices: Vec<usize>,
}

/// The propagation targets of one output: for each logic component it is
/// connected to, the indices of the inputs it drives. No component occurs
/// twice.
#[derive(Debug)]
pub struct TargetMap {
    pub entries: Vec<TargetEntry>,
}

/// The abstract contents of a target map.
pub type TargetSeq = Seq<(Entity, Seq<usize>)>;

impl View for TargetEntry {
    type V = (Entity, Seq<usize>);

    open spec fn view(&self) -> (Entity, Seq<usize>) {
        (self.gate, self.indices@)
    }
}

impl View for TargetMap {
    type V = TargetSeq;

    open spec fn view(&self) -> TargetSeq {
        self.entries@.map_values(|e: TargetEntry| e@)
    }
}

/// The components of `m`, in order.
pub open spec fn tm_keys(m: TargetSeq) -> Seq<Entity> {
    m.map_values(|e: (Entity, Seq<usize>)| e.0)
}

/// The position of component `g` in `m`.
pub open spec fn tm_pos(m: TargetSeq, g: Entity) -> Option<int> {
    tm_keys(m).index_of_first(g)
}

/// `m` with input `j` of component `g` added (a new entry at the end where
/// `g` has none yet).
pub open spec fn tm_add(m: TargetSeq, g: Entity, j: usize) -> TargetSeq {
    match tm_pos(m, g) {
        Some(k) => m.update(k, (g, m[k].1.push(j))),
        None => m.push((g, seq![j])),
    }
}

/// `m` without the entry of component `g`.
pub open spec fn tm_remove(m: TargetSeq, g: Entity) -> TargetSeq {
    match tm_pos(m, g) {
        Some(k) => m.remove(k),
        None => m,
    }
}

/// `m` with the first occurrence of input `j` removed from the entry of `g`.
pub open spec fn tm_remove_index(m: TargetSeq, g: Entity, j: usize) -> TargetSeq {
    match tm_pos(m, g) {
        Some(k) => m.update(k, (g, m[k].1.remove_value(j))),
        None => m,
    }
}

/// `m` with component `from` renamed to `to` in every entry.
pub open spec fn tm_rename(m: TargetSeq, from: Entity, to: Entity) -> TargetSeq {
    m.map_values(|e: (Entity, Seq<usize>)| if e.0 == from { (to, e.1) } else { e })
}

/// No component occurs twice in `m`.
pub open spec fn tm_wf(m: TargetSeq) -> bool {
    forall|a: int, b: int| 0 <= a < b < m.len() ==> m[a].0 != m[b].0
}

/// The first position of `x` in `s`, as the library searches it.
pub proof fn lemma_first_index<A>(s: Seq<A>, x: A, k: int)
    requires
        0 <= k < s.len(),
        s[k] == x,
        forall|j: int| 0 <= j < k ==> s[j] != x,
    ensures
        s.index_of_first(x) == Some(k),
{
    s.index_of_first_ensures(x);
    assert(s.contains(x));
}

/// A value that does not occur in `s` has no first position.
pub proof fn lemma_no_index<A>(s: Seq<A>, x: A)
    requires
        forall|j: int| 0 <= j < s.len() ==> s[j] != x,
    ensures
        s.index_of_first(x) == None::<int>,
{
    s.index_of_first_ensures(x);
}

/// Find the first position of `x` in `v`.
pub fn position_of(v: &Vec<usize>, x: usize) -> (r: Option<usize>)
    ensures
        match r {
            Some(k) => v@.index_of_first(x) == Some(k as int) && k < v@.len() && v@[k as int] == x,
            None => v@.index_of_first(x) == None::<int>,
        },
{
    let mut i: usize = 0;
    while i < v.len()
        invariant
            i <= v@.len(),
            forall|j: int| 0 <= j < i ==> v@[j] != x,
        decreases v@.len() - i,
    {
        if v[i] == x {
            proof {
                lemma_first_index(v@, x, i as int);
            }
            return Some(i);
        }
        i = i + 1;
    }
    proof {
        lemma_no_index(v@, x);
    }
    None
}

/// Remove the first occurrence of `x` from `v`, if there is one.
pub fn remove_first(v: &mut Vec<usize>, x: usize)
    ensures
        final(v)@ == old(v)@.remove_value(x),
{
    match position_of(v, x) {
        Some(k) => {
            v.remove(k);
        },
        None => {},
    }
}

impl TargetMap {
    /// A map without entries.
    pub fn new() -> (m: Self)
        ensures
            m@ == Seq::<(Entity, Seq<usize>)>::empty(),
    {
        let m = TargetMap { entries: Vec::new() };
        assert(m@ =~= Seq::<(Entity, Seq<usize>)>::empty());
        m
    }

    /// The position of the entry of component `g`.
    pub fn find(&self, g: Entity) -> (r: Option<usize>)
        ensures
            match r {
                Some(k) => tm_pos(self@, g) == Some(k as int) && k < self@.len()
                    && self@[k as int].0 == g,
                None => tm_pos(self@, g) == None::<int>,
            },
    {
        let ghost keys = tm_keys(self@);
        let mut i: usize = 0;
        while i < self.entries.len()
            invariant
                i <= self.entries@.len(),
                keys == tm_keys(self@),
                keys.len() == self.entries@.len(),
                forall|j: int| 0 <= j < i ==> keys[j] != g,
            decreases self.entries@.len() - i,
        {
            assert(keys[i as int] == self.entries@[i as int].gate);
            if self.entries[i].gate == g {
                proof {
                    lemma_first_index(keys, g, i as int);
                }
                return Some(i);
            }
            i = i + 1;
        }
        proof {
            lemma_no_index(keys, g);
        }
        None
    }

    /// The indices of the inputs of component `g` that this output drives.
    pub fn get(&self, g: Entity) -> (r: Option<&Vec<usize>>)
        ensures
            match tm_pos(self@, g) {
                Some(k) => r matches Some(v) && v@ == self@[k].1,
                None => r is None,
            },
    {
        match self.find(g) {
            Some(k) => Some(&self.entries[k].indices),
            None => None,
        }
    }

    /// Add input `j` of component `g` to the targets.
    pub fn add(&mut self, g: Entity, j: usize)
        ensures
            final(self)@ == tm_add(old(self)@, g, j),
    {
        match self.find(g) {
            Some(k) => {
                let ghost old_v = self@;
                let mut e = self.entries.remove(k);
                e.indices.push(j);
                self.entries.insert(k, e);
                assert(self@ =~= old_v.update(k as int, (g, old_v[k as int].1.push(j))));
            },
            None => {
                let ghost old_v = self@;
                let mut v = Vec::new();
                v.push(j);
                self.entries.push(TargetEntry { gate: g, indices: v });
                assert(self@ =~= old_v.push((g, seq![j])));
            },
        }
    }

    /// Rename component `from` to `to` in every entry.
    pub fn rename_key(&mut self, from: Entity, to: Entity)
        ensures
            final(self)@ == tm_rename(old(self)@, from, to),
    {
        let ghost s = self@;
        let mut i: usize = 0;
        while i < self.entries.len()
            invariant
                i <= self.entries@.len(),
                self.entries@.len() == s.len(),
                forall|j: int| 0 <= j < s.len() ==> #[trigger] self@[j] == (if j < i {
                    tm_rename(s, from, to)[j]
                } else {
                    s[j]
                }),
            decreases self.entries@.len() - i,
        {
            let ghost before = self.entries@;
            let ghost view0 = self@;
            assert(self@[i as int] == before[i as int]@);
            let mut e = TargetEntry { gate: 0, indices: Vec::new() };
            std::mem::swap(&mut self.entries[i], &mut e);
            assert(e == before[i as int]);
            assert(e@ == s[i as int]);
            if e.gate == from {
                e.gate = to;
            }
            let ghost e1 = e;
            std::mem::swap(&mut self.entries[i], &mut e);
            assert(self.entries@ == before.update(i as int, e1));
            assert forall|j: int| 0 <= j < s.len() implies #[trigger] self@[j] == (if j < i + 1 {
                tm_rename(s, from, to)[j]
            } else {
                s[j]
            }) by {
                assert(self@[j] == self.entries@[j]@);
                if j != i {
                    assert(self.entries@[j] == before[j]);
                    assert(view0[j] == before[j]@);
                }
            }
            i = i + 1;
        }
        assert(self@ =~= tm_rename(s, from, to));
    }

    /// Remove the entry of component `g`.
    pub fn remove_key(&mut self, g: Entity)
        ensures
            final(self)@ == tm_remove(old(self)@, g),
    {
        match self.find(g) {
            Some(k) => {
                let ghost old_v = self@;
                self.entries.remove(k);
                assert(self@ =~= old_v.remove(k as int));
            },
            None => {},
        }
    }

    /// Remove the first occurrence of input `j` from the entry of `g`.
    pub fn remove_index(&mut self, g: Entity, j: usize)
        ensures
            final(self)@ == tm_remove_index(old(self)@, g, j),
    {
        match self.find(g) {
            Some(k) => {
                let ghost old_v = self@;
                let mut e = self.entries.remove(k);
                remove_first(&mut e.indices, j);
                self.entries.insert(k, e);
                assert(self@ =~= old_v.update(k as int, (g, old_v[k as int].1.remove_value(j))));
            },
            None => {},
        }
    }
}

/// A logic component (gate, input control or output control) and the
/// components the world holds for it.
#[derive(Debug)]
pub struct Node {
    /// What kind of component it is (a component built from given
    /// transition functions has none).
    pub kind: Option<NodeType>,
    pub name: String,
    pub gate: Option<Gate>,
    /// The values of its inputs.
    pub inputs: Option<Vec<State>>,
    /// The values of its outputs.
    pub outputs: Option<Vec<State>>,
    /// One transition function per output.
    pub transitions: Option<Vec<Transition>>,
    /// One target map per output.
    pub targets: Option<Vec<TargetMap>>,
    pub clock: Option<ClockTiming>,
    pub placement: Placement,
    /// Its connectors.
    pub children: Vec<Entity>,
}

/// The abstract contents of a logic component.
pub struct NodeView {
    pub kind: Option<NodeType>,
    pub name: Seq<char>,
    pub gate: Option<Gate>,
    pub inputs: Option<Seq<State>>,
    pub outputs: Option<Seq<State>>,
    pub transitions: Option<Seq<Transition>>,
    pub targets: Option<Seq<TargetSeq>>,
    pub clock: Option<ClockTiming>,
    pub placement: Placement,
    pub children: Seq<Entity>,
}

/// The abstract contents of a list of target maps.
pub open spec fn targets_view(v: Seq<TargetMap>) -> Seq<TargetSeq> {
    v.map_values(|m: TargetMap| m@)
}

impl View for Node {
    type V = NodeView;

    open spec fn view(&self) -> NodeView {
        NodeView {
            kind: self.kind,
            name: self.name@,
            gate: self.gate,
            inputs: match self.inputs {
                Some(v) => Some(v@),
                None => None,
            },
            outputs: match self.outputs {
                Some(v) => Some(v@),
                None => None,
            },
            transitions: match self.transitions {
                Some(v) => Some(v@),
                None => None,
            },
            targets: match self.targets {
                Some(v) => Some(targets_view(v@)),
                None => None,
            },
            clock: self.clock,
            placement: self.placement,
            children: self.children@,
        }
    }
}

/// A connector entity: the connector, the logic component it belongs to,
/// the connection lines attached to it and whether it is free, that is,
/// whether it accepts a new connection.
#[derive(Debug)]
pub struct ConnectorEntity {
    pub parent: Entity,
    pub connector: Connector,
    pub connections: Vec<Entity>,
    pub free: bool,
}

/// The abstract contents of a connector entity.
pub struct ConnectorView {
    pub parent: Entity,
    pub connector: Connector,
    pub connections: Seq<Entity>,
    pub free: bool,
}

impl View for ConnectorEntity {
    type V = ConnectorView;

    open spec fn view(&self) -> ConnectorView {
        ConnectorView {
            parent: self.parent,
            connector: self.connector,
            connections: self.connections@,
            free: self.free,
        }
    }
}

/// What an entity of the world is.
#[derive(Debug)]
pub enum Slot {
    /// The entity was despawned.
    Vacant,
    Node(Node),
    Connector(ConnectorEntity),
    Line(ConnectionLine),
}

/// The abstract contents of a slot.
pub enum SlotView {
    Vacant,
    Node(NodeView),
    Connector(ConnectorView),
    Line(ConnectionLine),
}

impl View for Slot {
    type V = SlotView;

    open spec fn view(&self) -> SlotView {
        match self {
            Slot::Vacant => SlotView::Vacant,
            Slot::Node(n) => SlotView::Node(n@),
            Slot::Connector(c) => SlotView::Connector(c@),
            Slot::Line(l) => SlotView::Line(*l),
        }
    }
}

/// The world: one slot per entity ever spawned.
#[derive(Debug)]
pub struct World {
    slots: Vec<Slot>,
}

/// The abstract world: the contents of every slot.
pub type WorldView = Seq<SlotView>;

impl View for World {
    type V = WorldView;

    closed spec fn view(&self) -> WorldView {
        self.slots@.map_values(|s: Slot| s@)
    }
}

/// Entity `e` of `w` is a logic component.
pub open spec fn is_node(w: WorldView, e: int) -> bool {
    0 <= e < w.len() && w[e] is Node
}

/// Entity `e` of `w` is a connector.
pub open spec fn is_connector(w: WorldView, e: int) -> bool {
    0 <= e < w.len() && w[e] is Connector
}

/// Entity `e` of `w` is a connection line.
pub open spec fn is_line(w: WorldView, e: int) -> bool {
    0 <= e < w.len() && w[e] is Line
}

/// The connector entity `e` of `w`.
pub open spec fn connector_of(w: WorldView, e: int) -> ConnectorView {
    w[e]->Connector_0
}

/// The logic component `e` of `w`.
pub open spec fn node_of(w: WorldView, e: int) -> NodeView {
    w[e]->Node_0
}

/// `n` with its connectors replaced by `c`.
pub open spec fn with_children(n: NodeView, c: Seq<Entity>) -> NodeView {
    NodeView {
        kind: n.kind,
        name: n.name,
        gate: n.gate,
        inputs: n.inputs,
        outputs: n.outputs,
        transitions: n.transitions,
        targets: n.targets,
        clock: n.clock,
        placement: n.placement,
        children: c,
    }
}

/// A free connector of component `g` without connections.
pub open spec fn fresh_connector(g: Entity, c: Connector) -> SlotView {
    SlotView::Connector(
        ConnectorView { parent: g, connector: c, connections: Seq::empty(), free: true },
    )
}

/// The slots that spawning component `n` as entity `g` with the connectors
/// `layout` appends: the component, whose connectors are the entities right
/// after it, then one fresh connector per entry of `layout`.
pub open spec fn spawned_slots(n: NodeView, layout: Seq<Connector>, g: Entity) -> Seq<SlotView> {
    seq![SlotView::Node(with_children(n, Seq::new(layout.len(), |k: int| (g + 1 + k) as Entity)))]
        + Seq::new(layout.len(), |k: int| fresh_connector(g, layout[k]))
}

/// `n` values `Unknown`.
pub open spec fn unknowns(n: nat) -> Seq<State> {
    Seq::new(n, |_k: int| State::Unknown)
}

/// `n` empty target maps.
pub open spec fn no_targets(n: nat) -> Seq<TargetSeq> {
    Seq::new(n, |_k: int| Seq::<(Entity, Seq<usize>)>::empty())
}

/// A vector of `n` values `Unknown`.
pub fn unknown_states(n: usize) -> (v: Vec<State>)
    ensures
        v@ == unknowns(n as nat),
{
    let mut v: Vec<State> = Vec::new();
    let mut i: usize = 0;
    while i < n
        invariant
            i <= n,
            v@ == unknowns(i as nat),
        decreases n - i,
    {
        v.push(State::Unknown);
        i = i + 1;
        assert(v@ =~= unknowns(i as nat));
    }
    v
}

/// A vector of `n` empty target maps.
pub fn empty_targets(n: usize) -> (v: Vec<TargetMap>)
    ensures
        targets_view(v@) == no_targets(n as nat),
{
    let mut v: Vec<TargetMap> = Vec::new();
    let mut i: usize = 0;
    while i < n
        invariant
            i <= n,
            targets_view(v@) == no_targets(i as nat),
        decreases n - i,
    {
        let ghost old_v = v@;
        let m = TargetMap::new();
        v.push(m);
        i = i + 1;
        assert(targets_view(v@) =~= targets_view(old_v).push(m@));
        assert(targets_view(v@) =~= no_targets(i as nat));
    }
    v
}

/// The display name of each kind of component.
pub open spec fn node_name(kind: NodeType) -> Seq<char> {
    match kind {
        NodeType::And => "AND Gate"@,
        NodeType::Nand => "NAND Gate"@,
        NodeType::Or => "OR Gate"@,
        NodeType::Nor => "NOR Gate"@,
        NodeType::Xor => "XOR Gate"@,
        NodeType::Xnor => "XNOR Gate"@,
        NodeType::Not => "NOT Gate"@,
        NodeType::HighConst => "HIGH Constant"@,
        NodeType::LowConst => "Low Constant"@,
        NodeType::ToggleSwitch => "Toggle Switch"@,
        NodeType::Clock => "Clock"@,
        NodeType::LightBulb => "Light Bulb"@,
        NodeType::SevenSegmentDisplay => "7-Segment Display"@,
    }
}

/// The display name of a kind of component.
pub fn name_of(kind: NodeType) -> (s: String)
    ensures
        s@ == node_name(kind),
{
    match kind {
        NodeType::And => "AND Gate".to_owned(),
        NodeType::Nand => "NAND Gate".to_owned(),
        NodeType::Or => "OR Gate".to_owned(),
        NodeType::Nor => "NOR Gate".to_owned(),
        NodeType::Xor => "XOR Gate".to_owned(),
        NodeType::Xnor => "XNOR Gate".to_owned(),
        NodeType::Not => "NOT Gate".to_owned(),
        NodeType::HighConst => "HIGH Constant".to_owned(),
        NodeType::LowConst => "Low Constant".to_owned(),
        NodeType::ToggleSwitch => "Toggle Switch".to_owned(),
        NodeType::Clock => "Clock".to_owned(),
        NodeType::LightBulb => "Light Bulb".to_owned(),
        NodeType::SevenSegmentDisplay => "7-Segment Display".to_owned(),
    }
}

/// The kinds that carry a gate component: the logic gates and the two
/// constants.
pub open spec fn is_gate_kind(kind: NodeType) -> bool {
    match kind {
        NodeType::And | NodeType::Nand | NodeType::Or | NodeType::Nor | NodeType::Xor
        | NodeType::Not | NodeType::HighConst | NodeType::LowConst => true,
        _ => false,
    }
}

/// The transition function of each kind that has one.
pub open spec fn kind_transition(kind: NodeType) -> Transition {
    match kind {
        NodeType::And => Transition::And,
        NodeType::Nand => Transition::Nand,
        NodeType::Or => Transition::Or,
        NodeType::Nor => Transition::Nor,
        NodeType::Xor => Transition::Xor,
        NodeType::Not => Transition::Not,
        NodeType::HighConst => Transition::High,
        NodeType::LowConst => Transition::Low,
        _ => Transition::Buffer,
    }
}

/// The allowed numbers of input connectors of each gate kind.
pub open spec fn kind_in_range(kind: NodeType) -> NodeRange {
    match kind {
        NodeType::Not => NodeRange { min: 1, max: 1 },
        NodeType::HighConst | NodeType::LowConst => NodeRange { min: 0, max: 0 },
        _ => NodeRange { min: 2, max: 16 },
    }
}

/// The allowed numbers of output connectors of each gate kind.
pub open spec fn kind_out_range(kind: NodeType) -> NodeRange {
    NodeRange { min: 1, max: 1 }
}

/// The numbers of inputs and outputs a component of `kind` is spawned with,
/// given the requested numbers `ins` and `outs`.
pub open spec fn kind_counts(kind: NodeType, ins: usize, outs: usize) -> (usize, usize) {
    match kind {
        NodeType::HighConst | NodeType::LowConst => (0, 1),
        NodeType::ToggleSwitch | NodeType::Clock => (0, 1),
        NodeType::LightBulb => (1, 0),
        NodeType::SevenSegmentDisplay => (4, 0),
        _ => (ins, outs),
    }
}

/// `n` input connectors then `m` output connectors, each numbered from 0.
pub open spec fn in_out_layout(n: nat, m: nat) -> Seq<Connector> {
    Seq::new(n, |k: int| Connector { ctype: ConnectorType::In, index: k as usize }) + Seq::new(
        m,
        |k: int| Connector { ctype: ConnectorType::Out, index: k as usize },
    )
}

/// The connectors of a newly spawned component of `kind`.
pub open spec fn kind_layout(kind: NodeType, ins: usize, outs: usize) -> Seq<Connector> {
    let (i, o) = kind_counts(kind, ins, outs);
    in_out_layout(i as nat, o as nat)
}

/// A newly spawned component of `kind` (without its connectors).
///
/// A logic gate gets `ins` unknown inputs, `outs` unknown outputs and a
/// gate component; a constant gets no input and one output; a toggle switch
/// starts with `state` as input and output; a clock with `state` as output
/// and `timing`; a light bulb with `state` as input; a seven segment display
/// with four unknown inputs.
pub open spec fn kind_node(
    kind: NodeType,
    ins: usize,
    outs: usize,
    state: State,
    timing: ClockTiming,
    placement: Placement,
) -> NodeView {
    let (i, o) = kind_counts(kind, ins, outs);
    NodeView {
        kind: Some(kind),
        name: node_name(kind),
        gate: if is_gate_kind(kind) {
            Some(
                Gate {
                    inputs: i as u32,
                    outputs: o as u32,
                    in_range: kind_in_range(kind),
                    out_range: kind_out_range(kind),
                },
            )
        } else {
            None
        },
        inputs: match kind {
            NodeType::ToggleSwitch | NodeType::LightBulb => Some(seq![state]),
            NodeType::Clock => None,
            _ => Some(unknowns(i as nat)),
        },
        outputs: match kind {
            NodeType::ToggleSwitch | NodeType::Clock => Some(seq![state]),
            NodeType::LightBulb | NodeType::SevenSegmentDisplay => None,
            _ => Some(unknowns(o as nat)),
        },
        transitions: match kind {
            NodeType::Clock | NodeType::LightBulb | NodeType::SevenSegmentDisplay => None,
            _ => Some(seq![kind_transition(kind)]),
        },
        targets: match kind {
            NodeType::LightBulb | NodeType::SevenSegmentDisplay => None,
            _ => Some(no_targets(o as nat)),
        },
        clock: match kind {
            NodeType::Clock => Some(timing),
            _ => None,
        },
        placement,
        children: Seq::empty(),
    }
}

/// `n` input connectors then `m` output connectors, each numbered from 0.
pub fn make_layout(n: usize, m: usize) -> (v: Vec<Connector>)
    ensures
        v@ == in_out_layout(n as nat, m as nat),
{
    let mut v: Vec<Connector> = Vec::new();
    let mut i: usize = 0;
    while i < n
        invariant
            i <= n,
            v@ == Seq::new(i as nat, |k: int| Connector { ctype: ConnectorType::In, index: k as usize }),
        decreases n - i,
    {
        v.push(Connector { ctype: ConnectorType::In, index: i });
        i = i + 1;
        assert(v@ =~= Seq::new(i as nat, |k: int| Connector { ctype: ConnectorType::In, index: k as usize }));
    }
    let ghost ins = v@;
    let mut j: usize = 0;
    while j < m
        invariant
            j <= m,
            v@ == ins + Seq::new(j as nat, |k: int| Connector { ctype: ConnectorType::Out, index: k as usize }),
        decreases m - j,
    {
        v.push(Connector { ctype: ConnectorType::Out, index: j });
        j = j + 1;
        assert(v@ =~= ins + Seq::new(j as nat, |k: int| Connector { ctype: ConnectorType::Out, index: k as usize }));
    }
    v
}

/// `c` with the given connection lines and freedom.
pub open spec fn conn_with(c: ConnectorView, connections: Seq<Entity>, free: bool) -> ConnectorView {
    ConnectorView { parent: c.parent, connector: c.connector, connections, free }
}

/// `n` with the input values `v`.
pub open spec fn set_inputs(n: NodeView, v: Seq<State>) -> NodeView {
    NodeView {
        kind: n.kind,
        name: n.name,
        gate: n.gate,
        inputs: Some(v),
        outputs: n.outputs,
        transitions: n.transitions,
        targets: n.targets,
        clock: n.clock,
        placement: n.placement,
        children: n.children,
    }
}

/// `n` with the output values `v`.
pub open spec fn set_outputs(n: NodeView, v: Seq<State>) -> NodeView {
    NodeView {
        kind: n.kind,
        name: n.name,
        gate: n.gate,
        inputs: n.inputs,
        outputs: Some(v),
        transitions: n.transitions,
        targets: n.targets,
        clock: n.clock,
        placement: n.placement,
        children: n.children,
    }
}

/// `n` with the target maps `ts`.
pub open spec fn set_targets(n: NodeView, ts: Seq<TargetSeq>) -> NodeView {
    NodeView {
        kind: n.kind,
        name: n.name,
        gate: n.gate,
        inputs: n.inputs,
        outputs: n.outputs,
        transitions: n.transitions,
        targets: Some(ts),
        clock: n.clock,
        placement: n.placement,
        children: n.children,
    }
}

/// A request to connect output connector `output` (the output numbered
/// `output_index` of its component) to input connector `input` (the input
/// numbered `input_index`). `signal_success` asks to record the new
/// connection in the undo history.
#[derive(Debug, Clone, Copy, PartialEq, Eq, Structural)]
pub struct ConnectEvent {
    pub output: Entity,
    pub output_index: usize,
    pub input: Entity,
    pub input_index: usize,
    pub signal_success: bool,
}

/// The connection line a connect request creates.
pub open spec fn event_line(ev: ConnectEvent) -> ConnectionLine {
    ConnectionLine {
        output: ConnInfo { entity: ev.output, index: ev.output_index },
        input: ConnInfo { entity: ev.input, index: ev.input_index },
    }
}

/// The world after the line of `ev` was spawned and, where the input is a
/// connector, attached to it; the input connector is no longer free.
pub open spec fn connect_w2(w: WorldView, ev: ConnectEvent) -> WorldView {
    let line = w.len() as Entity;
    let w1 = w.push(SlotView::Line(event_line(ev)));
    if is_connector(w1, ev.input as int) {
        let ci = connector_of(w1, ev.input as int);
        w1.update(ev.input as int, SlotView::Connector(conn_with(ci, ci.connections.push(line), false)))
    } else {
        w1
    }
}

/// The world after the line of `ev` was also attached to the output
/// connector (where the input is a connector).
pub open spec fn connect_w3(w: WorldView, ev: ConnectEvent) -> WorldView {
    let line = w.len() as Entity;
    let w2 = connect_w2(w, ev);
    if is_connector(w, ev.input as int) && is_connector(w2, ev.output as int) {
        let co = connector_of(w2, ev.output as int);
        w2.update(ev.output as int, SlotView::Connector(conn_with(co, co.connections.push(line), co.free)))
    } else {
        w2
    }
}

/// The component whose target map a connect request extends, if any.
pub open spec fn connect_owner(w: WorldView, ev: ConnectEvent) -> Option<int> {
    let w3 = connect_w3(w, ev);
    if is_connector(w, ev.input as int) && is_connector(connect_w2(w, ev), ev.output as int) {
        let p = connector_of(w3, ev.output as int).parent as int;
        if is_node(w3, p) && node_of(w3, p).targets is Some {
            Some(p)
        } else {
            None
        }
    } else {
        None
    }
}

/// A connect request that the world can carry out: the output index names
/// a target map of the output's component.
pub open spec fn connect_ok(w: WorldView, ev: ConnectEvent) -> bool {
    match connect_owner(w, ev) {
        Some(p) => ev.output_index < node_of(connect_w3(w, ev), p).targets.unwrap().len(),
        None => true,
    }
}

/// The world after a connect request.
///
/// A new connection line from the output to the input is spawned. When the
/// input is a connector, the line is attached to it and it is no longer
/// free; then, when the output is a connector, the line is attached to it
/// too, and the output's target map gains the input's index under the
/// input's component.
pub open spec fn spec_connect(w: WorldView, ev: ConnectEvent) -> WorldView {
    let w3 = connect_w3(w, ev);
    match connect_owner(w, ev) {
        Some(p) => {
            let n = node_of(w3, p);
            let ts = n.targets.unwrap();
            let in_parent = connector_of(w, ev.input as int).parent;
            w3.update(
                p,
                SlotView::Node(
                    set_targets(
                        n,
                        ts.update(
                            ev.output_index as int,
                            tm_add(ts[ev.output_index as int], in_parent, ev.input_index),
                        ),
                    ),
                ),
            )
        },
        None => w3,
    }
}

/// A request to remove connection line `connection`. `in_parent` names the
/// component of its input connector where that connector is gone.
#[derive(Debug, Clone, Copy, PartialEq, Eq, Structural)]
pub struct DisconnectEvent {
    pub connection: Entity,
    pub in_parent: Option<Entity>,
}

/// The line a disconnect request names.
pub open spec fn line_of(w: WorldView, e: int) -> ConnectionLine {
    w[e]->Line_0
}

/// The world after the input side of the line was unlinked: the input of
/// its component is reset to `Unknown`, the input connector loses its lines
/// and is free again.
pub open spec fn disconnect_w1(w: WorldView, ev: DisconnectEvent) -> WorldView {
    let line = line_of(w, ev.connection as int);
    if is_connector(w, line.input.entity as int) {
        let ci = connector_of(w, line.input.entity as int);
        let p = ci.parent as int;
        let wa = if is_node(w, p) && node_of(w, p).inputs is Some {
            let n = node_of(w, p);
            w.update(p, SlotView::Node(set_inputs(n, n.inputs.unwrap().update(line.input.index as int, State::Unknown))))
        } else {
            w
        };
        wa.update(line.input.entity as int, SlotView::Connector(conn_with(ci, Seq::empty(), true)))
    } else {
        w
    }
}

/// The component of the line's input connector, as far as it is known.
pub open spec fn disconnect_in_parent(w: WorldView, ev: DisconnectEvent) -> Option<Entity> {
    let line = line_of(w, ev.connection as int);
    if is_connector(w, line.input.entity as int) {
        Some(connector_of(w, line.input.entity as int).parent)
    } else {
        ev.in_parent
    }
}

/// The world after the line was also removed from its output connector.
pub open spec fn disconnect_w2(w: WorldView, ev: DisconnectEvent) -> WorldView {
    let line = line_of(w, ev.connection as int);
    let w1 = disconnect_w1(w, ev);
    if is_connector(w1, line.output.entity as int) {
        let co = connector_of(w1, line.output.entity as int);
        w1.update(line.output.entity as int, SlotView::Connector(conn_with(co, co.connections.remove_value(ev.connection), co.free)))
    } else {
        w1
    }
}

/// The component whose target map a disconnect request shrinks, if any.
pub open spec fn disconnect_owner(w: WorldView, ev: DisconnectEvent) -> Option<int> {
    let line = line_of(w, ev.connection as int);
    let w1 = disconnect_w1(w, ev);
    let w2 = disconnect_w2(w, ev);
    if is_connector(w1, line.output.entity as int) {
        let q = connector_of(w1, line.output.entity as int).parent as int;
        if is_node(w2, q) && node_of(w2, q).targets is Some {
            Some(q)
        } else {
            None
        }
    } else {
        None
    }
}

/// A disconnect request the world can carry out: the input index names an
/// input of the input's component; where the output is a connector, the
/// component of the input is known and the output's target map has an
/// entry for it.
pub open spec fn disconnect_ok(w: WorldView, ev: DisconnectEvent) -> bool {
    is_line(w, ev.connection as int) ==> {
        let line = line_of(w, ev.connection as int);
        let w1 = disconnect_w1(w, ev);
        let w2 = disconnect_w2(w, ev);
        &&& (is_connector(w, line.input.entity as int) ==> {
            let p = connector_of(w, line.input.entity as int).parent as int;
            (is_node(w, p) && node_of(w, p).inputs is Some) ==> line.input.index
                < node_of(w, p).inputs.unwrap().len()
        })
        &&& (is_connector(w1, line.output.entity as int) ==> disconnect_in_parent(w, ev) is Some)
        &&& (disconnect_owner(w, ev) matches Some(q) ==> {
            let ts = node_of(w2, q).targets.unwrap();
            &&& line.output.index < ts.len()
            &&& tm_pos(ts[line.output.index as int], disconnect_in_parent(w, ev).unwrap()) is Some
        })
    }
}

/// The world after a disconnect request.
///
/// Nothing happens unless `connection` is a connection line. Otherwise the
/// input side is unlinked (see [`disconnect_w1`]); when the output is a
/// connector, the line is removed from its lines, and in the output's target
/// map the entry of the input's component loses the input's index, or is
/// removed when that index is its only one. Finally the line is despawned.
pub open spec fn spec_disconnect(w: WorldView, ev: DisconnectEvent) -> WorldView {
    if !is_line(w, ev.connection as int) {
        w
    } else {
        let line = line_of(w, ev.connection as int);
        let w2 = disconnect_w2(w, ev);
        let w3 = match disconnect_owner(w, ev) {
            Some(q) => {
                let n = node_of(w2, q);
                let ts = n.targets.unwrap();
                let parent = disconnect_in_parent(w, ev).unwrap();
                let m = ts[line.output.index as int];
                let entry = m[tm_pos(m, parent).unwrap()].1;
                let m2 = if entry.len() > 1 {
                    tm_remove_index(m, parent, line.input.index)
                } else {
                    tm_remove(m, parent)
                };
                w2.update(q, SlotView::Node(set_targets(n, ts.update(line.output.index as int, m2))))
            },
            None => w2,
        };
        w3.update(ev.connection as int, SlotView::Vacant)
    }
}

/// What a disconnect request reports for the undo history: the output side
/// and the input side of the removed line, each named by its component, and
/// the line; nothing when no line was removed from an output connector.
pub open spec fn spec_disconnect_report(w: WorldView, ev: DisconnectEvent) -> Option<
    (ConnInfo, ConnInfo, Entity),
> {
    if is_line(w, ev.connection as int) && is_connector(
        disconnect_w1(w, ev),
        line_of(w, ev.connection as int).output.entity as int,
    ) {
        let line = line_of(w, ev.connection as int);
        let co = connector_of(disconnect_w1(w, ev), line.output.entity as int);
        Some(
            (
                ConnInfo { entity: co.parent, index: line.output.index },
                ConnInfo { entity: disconnect_in_parent(w, ev).unwrap(), index: line.input.index },
                ev.connection,
            ),
        )
    } else {
        None
    }
}

/// A component after its transition functions ran: output `i` becomes the
/// value of transition function `i` on the inputs, for every output that has
/// a transition function. Components without inputs, transition functions or
/// outputs stay as they are.
pub open spec fn transition_node(n: NodeView) -> NodeView {
    match (n.inputs, n.transitions, n.outputs) {
        (Some(ins), Some(ts), Some(outs)) => set_outputs(
            n,
            Seq::new(
                outs.len(),
                |i: int|
                    if i < ts.len() {
                        spec_apply(ts[i], ins)
                    } else {
                        outs[i]
                    },
            ),
        ),
        _ => n,
    }
}

/// A slot after its component's transition functions ran.
pub open spec fn transition_slot(s: SlotView) -> SlotView {
    match s {
        SlotView::Node(n) => SlotView::Node(transition_node(n)),
        _ => s,
    }
}

/// The world after every component's transition functions ran.
pub open spec fn spec_transition(w: WorldView) -> WorldView {
    w.map_values(|s: SlotView| transition_slot(s))
}

/// A component whose transition functions can run: there is an output for
/// each of them and each gets the inputs it reads.
pub open spec fn node_transition_ok(n: NodeView) -> bool {
    match (n.inputs, n.transitions, n.outputs) {
        (Some(ins), Some(ts), Some(outs)) => {
            &&& ts.len() <= outs.len()
            &&& forall|i: int| 0 <= i < ts.len() ==> ins.len() >= min_inputs(#[trigger] ts[i])
        },
        _ => true,
    }
}

/// A world whose transition functions can all run.
pub open spec fn transition_ok(w: WorldView) -> bool {
    forall|e: int| #![trigger w[e]] is_node(w, e) ==> node_transition_ok(node_of(w, e))
}

/// One write of a propagation step: input `.1` of component `.0` receives
/// value `.2`.
pub type Write = (Entity, usize, State);

/// The concatenation of `ss`, in order.
pub open spec fn concat<A>(ss: Seq<Seq<A>>) -> Seq<A>
    decreases ss.len(),
{
    if ss.len() == 0 {
        Seq::empty()
    } else {
        concat(ss.drop_last()) + ss.last()
    }
}

/// The writes to the inputs `idxs` of component `g`, in order.
pub open spec fn index_writes(g: Entity, idxs: Seq<usize>, v: State) -> Seq<Write> {
    idxs.map_values(|j: usize| (g, j, v))
}

/// The writes of an output of value `v` with target map `m`: every input of
/// every component in `m`, in the order of `m`.
pub open spec fn output_writes(m: TargetSeq, v: State) -> Seq<Write> {
    concat(m.map_values(|e: (Entity, Seq<usize>)| index_writes(e.0, e.1, v)))
}

/// The writes of the outputs of component `n`, output by output.
pub open spec fn node_writes(n: NodeView) -> Seq<Write> {
    match (n.outputs, n.targets) {
        (Some(outs), Some(ts)) => concat(
            Seq::new(outs.len(), |i: int| output_writes(ts[i], outs[i])),
        ),
        _ => Seq::empty(),
    }
}

/// The writes of the entity in slot `s`.
pub open spec fn slot_writes(s: SlotView) -> Seq<Write> {
    match s {
        SlotView::Node(n) => node_writes(n),
        _ => Seq::empty(),
    }
}

/// The writes of a propagation step over `w`: those of every component, in
/// the order of the entities.
pub open spec fn world_writes(w: WorldView) -> Seq<Write> {
    concat(w.map_values(|s: SlotView| slot_writes(s)))
}

/// `w` after write `x`; a write to an entity without inputs, or to an input
/// index it does not have, changes nothing.
pub open spec fn apply_write(w: WorldView, x: Write) -> WorldView {
    let g = x.0 as int;
    if is_node(w, g) && node_of(w, g).inputs is Some && x.1 < node_of(w, g).inputs.unwrap().len() {
        let n = node_of(w, g);
        w.update(g, SlotView::Node(set_inputs(n, n.inputs.unwrap().update(x.1 as int, x.2))))
    } else {
        w
    }
}

/// `w` after value `x.2` is written to output `x.1` of component `x.0`; a
/// write to an entity without outputs, or to an output index it does not
/// have, changes nothing.
pub open spec fn apply_output_write(w: WorldView, x: Write) -> WorldView {
    let g = x.0 as int;
    if is_node(w, g) && node_of(w, g).outputs is Some && x.1 < node_of(w, g).outputs.unwrap().len() {
        let n = node_of(w, g);
        w.update(g, SlotView::Node(set_outputs(n, n.outputs.unwrap().update(x.1 as int, x.2))))
    } else {
        w
    }
}

/// `w` with the timing of clock `g` set to `t`; nothing changes unless `g`
/// is a component with a timing.
pub open spec fn apply_clock_write(w: WorldView, g: int, t: ClockTiming) -> WorldView {
    if is_node(w, g) && node_of(w, g).clock is Some {
        let n = node_of(w, g);
        w.update(
            g,
            SlotView::Node(
                NodeView {
                    kind: n.kind,
                    name: n.name,
                    gate: n.gate,
                    inputs: n.inputs,
                    outputs: n.outputs,
                    transitions: n.transitions,
                    targets: n.targets,
                    clock: Some(t),
                    placement: n.placement,
                    children: n.children,
                },
            ),
        )
    } else {
        w
    }
}

/// The timing of clock `g` of `w`, where it has one.
pub open spec fn clock_of(w: WorldView, g: int) -> Option<ClockTiming> {
    if is_node(w, g) {
        node_of(w, g).clock
    } else {
        None
    }
}

/// The value of input `j` of component `g` of `w`, where it has one.
pub open spec fn input_of(w: WorldView, g: int, j: usize) -> Option<State> {
    if is_node(w, g) && node_of(w, g).inputs is Some && j < node_of(w, g).inputs.unwrap().len() {
        Some(node_of(w, g).inputs.unwrap()[j as int])
    } else {
        None
    }
}

/// The value of output `j` of component `g` of `w`, where it has one.
pub open spec fn output_of(w: WorldView, g: int, j: usize) -> Option<State> {
    if is_node(w, g) && node_of(w, g).outputs is Some && j < node_of(w, g).outputs.unwrap().len() {
        Some(node_of(w, g).outputs.unwrap()[j as int])
    } else {
        None
    }
}

/// `w` after the writes `ws`, in order.
pub open spec fn apply_writes(w: WorldView, ws: Seq<Write>) -> WorldView
    decreases ws.len(),
{
    if ws.len() == 0 {
        w
    } else {
        apply_write(apply_writes(w, ws.drop_last()), ws.last())
    }
}

/// The world after a propagation step: every output value is written to
/// each input its target map names, component by component and output by
/// output; where two outputs drive the same input, the later write stands.
pub open spec fn spec_propagate(w: WorldView) -> WorldView {
    apply_writes(w, world_writes(w))
}

/// A world whose propagation step can run: each component with outputs and
/// target maps has a target map for each output.
pub open spec fn propagate_ok(w: WorldView) -> bool {
    forall|e: int| #![trigger w[e]] is_node(w, e) ==> {
        let n = node_of(w, e);
        (n.outputs is Some && n.targets is Some) ==> n.outputs.unwrap().len() <= n.targets.unwrap().len()
    }
}

/// A slot with the input values of its component forgotten.
pub open spec fn strip(s: SlotView) -> SlotView {
    match s {
        SlotView::Node(n) => SlotView::Node(
            NodeView {
                kind: n.kind,
                name: n.name,
                gate: n.gate,
                inputs: None,
                outputs: n.outputs,
                transitions: n.transitions,
                targets: n.targets,
                clock: n.clock,
                placement: n.placement,
                children: n.children,
            },
        ),
        _ => s,
    }
}

/// `a` and `b` differ at most in input values.
pub open spec fn same_but_inputs(a: WorldView, b: WorldView) -> bool {
    &&& a.len() == b.len()
    &&& forall|k: int| 0 <= k < a.len() ==> #[trigger] strip(a[k]) == strip(b[k])
    &&& forall|k: int| 0 <= k < a.len() ==> ((#[trigger] a[k]) is Node <==> b[k] is Node)
    &&& forall|k: int| #![trigger a[k]] 0 <= k < a.len() && a[k] is Node ==> (node_of(a, k).inputs is Some
        <==> node_of(b, k).inputs is Some)
    &&& forall|k: int| #![trigger a[k]] 0 <= k < a.len() && a[k] is Node && node_of(a, k).inputs is Some
        ==> node_of(a, k).inputs.unwrap().len() == node_of(b, k).inputs.unwrap().len()
}

/// A write changes an input value only.
pub proof fn lemma_apply_write_shape(a: WorldView, x: Write)
    ensures
        same_but_inputs(apply_write(a, x), a),
{
    let b = apply_write(a, x);
    let g = x.0 as int;
    if is_node(a, g) && node_of(a, g).inputs is Some && x.1 < node_of(a, g).inputs.unwrap().len() {
        assert(strip(b[g]) == strip(a[g]));
        assert forall|k: int| 0 <= k < b.len() implies #[trigger] strip(b[k]) == strip(a[k]) by {
            if k != g {
                assert(b[k] == a[k]);
            }
        }
    }
}

/// Differing at most in input values is transitive.
pub proof fn lemma_same_but_inputs_trans(a: WorldView, b: WorldView, c: WorldView)
    requires
        same_but_inputs(a, b),
        same_but_inputs(b, c),
    ensures
        same_but_inputs(a, c),
{
    assert forall|k: int| 0 <= k < a.len() implies #[trigger] strip(a[k]) == strip(c[k]) by {
        assert(strip(a[k]) == strip(b[k]));
        assert(strip(b[k]) == strip(c[k]));
    }
    assert forall|k: int| 0 <= k < a.len() implies ((#[trigger] a[k]) is Node <==> c[k] is Node) by {
        assert(a[k] is Node <==> b[k] is Node);
        assert(b[k] is Node <==> c[k] is Node);
    }
    assert forall|k: int| #![trigger a[k]] 0 <= k < a.len() && a[k] is Node implies (node_of(a, k).inputs is Some
        <==> node_of(c, k).inputs is Some) by {
        assert(b[k] is Node);
    }
    assert forall|k: int| #![trigger a[k]] 0 <= k < a.len() && a[k] is Node && node_of(a, k).inputs is Some
        implies node_of(a, k).inputs.unwrap().len() == node_of(c, k).inputs.unwrap().len() by {
        assert(b[k] is Node);
        assert(node_of(b, k).inputs is Some);
    }
}

/// Applying writes changes input values only.
pub proof fn lemma_apply_writes_shape(w: WorldView, ws: Seq<Write>)
    ensures
        same_but_inputs(apply_writes(w, ws), w),
    decreases ws.len(),
{
    if ws.len() > 0 {
        lemma_apply_writes_shape(w, ws.drop_last());
        lemma_apply_write_shape(apply_writes(w, ws.drop_last()), ws.last());
        lemma_same_but_inputs_trans(
            apply_writes(w, ws),
            apply_writes(w, ws.drop_last()),
            w,
        );
    } else {
        assert forall|k: int| 0 <= k < w.len() implies #[trigger] strip(w[k]) == strip(w[k]) by {}
    }
}

/// Writes can be applied in two batches.
pub proof fn lemma_apply_writes_push(w: WorldView, ws: Seq<Write>, x: Write)
    ensures
        apply_writes(w, ws.push(x)) == apply_write(apply_writes(w, ws), x),
{
    assert(ws.push(x).drop_last() =~= ws);
}

/// The concatenation of the first `k + 1` parts.
pub proof fn lemma_concat_take<A>(ss: Seq<Seq<A>>, k: int)
    requires
        0 <= k < ss.len(),
    ensures
        concat(ss.take(k + 1)) == concat(ss.take(k)) + ss[k],
{
    assert(ss.take(k + 1).drop_last() =~= ss.take(k));
}

/// Entity `c` of `w` is an input connector whose index is `to` or more.
pub open spec fn dropped(w: WorldView, c: Entity, to: u32) -> bool {
    is_connector(w, c as int) && connector_of(w, c as int).connector.ctype == ConnectorType::In
        && connector_of(w, c as int).connector.index >= to
}

/// The greatest index below `to` of the input connectors among `ch`, or 0.
pub open spec fn max_kept(w: WorldView, ch: Seq<Entity>, to: u32) -> usize
    decreases ch.len(),
{
    if ch.len() == 0 {
        0
    } else {
        let m = max_kept(w, ch.drop_last(), to);
        let c = ch.last() as int;
        if is_connector(w, c) && connector_of(w, c).connector.ctype == ConnectorType::In
            && connector_of(w, c).connector.index < to && m < connector_of(w, c).connector.index {
            connector_of(w, c).connector.index
        } else {
            m
        }
    }
}

/// The entities of `ch` that stay when the number of inputs becomes `to`.
pub open spec fn kept_children(w: WorldView, ch: Seq<Entity>, to: u32) -> Seq<Entity>
    decreases ch.len(),
{
    if ch.len() == 0 {
        Seq::empty()
    } else {
        let r = kept_children(w, ch.drop_last(), to);
        if dropped(w, ch.last(), to) {
            r
        } else {
            r.push(ch.last())
        }
    }
}

/// The input connectors among `ch` that go when the number of inputs
/// becomes `to`.
pub open spec fn dropped_children(w: WorldView, ch: Seq<Entity>, to: u32) -> Seq<Entity>
    decreases ch.len(),
{
    if ch.len() == 0 {
        Seq::empty()
    } else {
        let r = dropped_children(w, ch.drop_last(), to);
        if dropped(w, ch.last(), to) {
            r.push(ch.last())
        } else {
            r
        }
    }
}

/// The disconnect requests for the lines of the connectors `ds` of
/// component `g`.
pub open spec fn drop_events(w: WorldView, ds: Seq<Entity>, g: Entity) -> Seq<DisconnectEvent> {
    concat(
        ds.map_values(
            |c: Entity|
                connector_of(w, c as int).connections.map_values(
                    |l: Entity| DisconnectEvent { connection: l, in_parent: Some(g) },
                ),
        ),
    )
}

/// The number of input connectors added after index `mx` up to `to`.
pub open spec fn added_count(mx: usize, to: u32) -> nat {
    if to as int > mx + 1 {
        (to - mx - 1) as nat
    } else {
        0
    }
}

/// `s` cut or extended by `Unknown` values to `to` values.
pub open spec fn resize_states(s: Seq<State>, to: nat) -> Seq<State> {
    if to <= s.len() {
        s.take(to as int)
    } else {
        s + unknowns((to - s.len()) as nat)
    }
}

/// `w` with the entities `ks` despawned, one after the other.
pub open spec fn vacate_seq(w: WorldView, ks: Seq<Entity>) -> WorldView
    decreases ks.len(),
{
    if ks.len() == 0 {
        w
    } else {
        let v = vacate_seq(w, ks.drop_last());
        if ks.last() < v.len() {
            v.update(ks.last() as int, SlotView::Vacant)
        } else {
            v
        }
    }
}

/// A component whose number of inputs can be changed: a gate with inputs.
pub open spec fn resizable(w: WorldView, g: Entity) -> bool {
    is_node(w, g as int) && node_of(w, g as int).gate is Some && node_of(w, g as int).inputs is Some
}

/// The world after the number of inputs of gate `g` became `to`: the logic gate
/// component counts `to` inputs, the input values are cut or extended by
/// `Unknown` values, the input connectors with an index of `to` or more are
/// despawned and leave the component's children, and new input connectors
/// follow the greatest index kept, up to index `to - 1`.
pub open spec fn spec_resize_world(w: WorldView, g: Entity, to: u32) -> WorldView {
    let n = node_of(w, g as int);
    let ch = n.children;
    let mx = max_kept(w, ch, to);
    let cnt = added_count(mx, to);
    let gt = n.gate.unwrap();
    let n2 = NodeView {
        kind: n.kind,
        name: n.name,
        gate: Some(Gate { inputs: to, outputs: gt.outputs, in_range: gt.in_range, out_range: gt.out_range }),
        inputs: Some(resize_states(n.inputs.unwrap(), to as nat)),
        outputs: n.outputs,
        transitions: n.transitions,
        targets: n.targets,
        clock: n.clock,
        placement: n.placement,
        children: kept_children(w, ch, to) + Seq::new(cnt, |k: int| (w.len() + k) as Entity),
    };
    vacate_seq(w.update(g as int, SlotView::Node(n2)), dropped_children(w, ch, to)) + Seq::new(
        cnt,
        |k: int| fresh_connector(g, Connector { ctype: ConnectorType::In, index: (mx + 1 + k) as usize }),
    )
}

/// The input connectors that go all satisfy [`dropped`].
pub proof fn lemma_dropped_children(w: WorldView, ch: Seq<Entity>, to: u32)
    ensures
        forall|j: int| 0 <= j < dropped_children(w, ch, to).len() ==> dropped(w, #[trigger] dropped_children(w, ch, to)[j], to),
    decreases ch.len(),
{
    if ch.len() > 0 {
        lemma_dropped_children(w, ch.drop_last(), to);
        let r = dropped_children(w, ch.drop_last(), to);
        if dropped(w, ch.last(), to) {
            assert(r.push(ch.last())[r.len() as int] == ch.last());
            assert forall|j: int| 0 <= j < r.len() implies r.push(ch.last())[j] == r[j] by {}
        }
    }
}

/// Despawning entities of `w` commutes with appending slots.
pub proof fn lemma_vacate_append(w: WorldView, t: Seq<SlotView>, ks: Seq<Entity>)
    requires
        forall|j: int| 0 <= j < ks.len() ==> ks[j] < w.len(),
    ensures
        vacate_seq(w + t, ks) == vacate_seq(w, ks) + t,
        vacate_seq(w, ks).len() == w.len(),
    decreases ks.len(),
{
    if ks.len() > 0 {
        lemma_vacate_append(w, t, ks.drop_last());
        let v = vacate_seq(w, ks.drop_last());
        assert((v + t).update(ks.last() as int, SlotView::Vacant) =~= v.update(ks.last() as int, SlotView::Vacant) + t);
    }
}

impl World {
    /// An empty world.
    pub fn new() -> (w: Self)
        ensures
            w@ == Seq::<SlotView>::empty(),
    {
        let w = World { slots: Vec::new() };
        assert(w@ =~= Seq::<SlotView>::empty());
        w
    }

    /// The number of entities ever spawned.
    pub fn len(&self) -> (n: usize)
        ensures
            n == self@.len(),
    {
        self.slots.len()
    }

    /// The entity `e`.
    pub fn slot(&self, e: Entity) -> (s: &Slot)
        requires
            e < self@.len(),
        ensures
            s@ == self@[e as int],
    {
        &self.slots[e]
    }

    /// The value of input `j` of component `g`, where it has one; see
    /// [`input_of`].
    pub fn input(&self, g: Entity, j: usize) -> (r: Option<State>)
        ensures
            r == input_of(self@, g as int, j),
    {
        if g >= self.slots.len() {
            return None;
        }
        match &self.slots[g] {
            Slot::Node(n) => match &n.inputs {
                Some(v) => if j < v.len() {
                    Some(v[j])
                } else {
                    None
                },
                None => None,
            },
            _ => None,
        }
    }

    /// The value of output `j` of component `g`, where it has one; see
    /// [`output_of`].
    pub fn output(&self, g: Entity, j: usize) -> (r: Option<State>)
        ensures
            r == output_of(self@, g as int, j),
    {
        if g >= self.slots.len() {
            return None;
        }
        match &self.slots[g] {
            Slot::Node(n) => match &n.outputs {
                Some(v) => if j < v.len() {
                    Some(v[j])
                } else {
                    None
                },
                None => None,
            },
            _ => None,
        }
    }

    /// The timing of clock `g`, where it has one; see [`clock_of`].
    pub fn clock(&self, g: Entity) -> (r: Option<ClockTiming>)
        ensures
            r == clock_of(self@, g as int),
    {
        if g >= self.slots.len() {
            return None;
        }
        match &self.slots[g] {
            Slot::Node(n) => n.clock,
            _ => None,
        }
    }

    /// Take entity `e` out of the world, leaving its slot vacant.
    fn take(&mut self, e: Entity) -> (s: Slot)
        requires
            e < old(self)@.len(),
        ensures
            s@ == old(self)@[e as int],
            final(self)@ == old(self)@.update(e as int, SlotView::Vacant),
    {
        let ghost old_slots = self.slots@;
        let mut tmp = Slot::Vacant;
        std::mem::swap(&mut self.slots[e], &mut tmp);
        assert(self.slots@ == old_slots.update(e as int, Slot::Vacant));
        assert(self@ =~= old(self)@.update(e as int, SlotView::Vacant));
        tmp
    }

    /// Put `s` into the slot of entity `e`.
    fn put(&mut self, e: Entity, s: Slot)
        requires
            e < old(self)@.len(),
        ensures
            final(self)@ == old(self)@.update(e as int, s@),
    {
        let ghost old_slots = self.slots@;
        self.slots.set(e, s);
        assert(self@ =~= old(self)@.update(e as int, s@));
    }

    /// Spawn a new entity.
    fn push(&mut self, s: Slot) -> (e: Entity)
        ensures
            e == old(self)@.len(),
            final(self)@ == old(self)@.push(s@),
    {
        let e = self.slots.len();
        self.slots.push(s);
        let _n = self.slots.len();
        assert(self@ =~= old(self)@.push(s@));
        e
    }

    /// The number of entities fits a `usize`.
    proof fn lemma_len_fits(&self)
        ensures
            self@.len() <= usize::MAX,
    {
        assert(self.slots@.len() == self.slots.len());
    }

    /// Despawn entity `e`; an entity that was never spawned is passed over.
    pub fn despawn(&mut self, e: Entity)
        ensures
            e < old(self)@.len() ==> final(self)@ == old(self)@.update(e as int, SlotView::Vacant),
            e >= old(self)@.len() ==> final(self)@ == old(self)@,
    {
        if e < self.slots.len() {
            self.take(e);
        }
    }

    /// Spawn a free connector without connections for component `parent`.
    pub fn spawn_connector(&mut self, parent: Entity, ctype: ConnectorType, index: usize) -> (e: Entity)
        ensures
            e == old(self)@.len(),
            final(self)@ == old(self)@.push(
                fresh_connector(parent, Connector { ctype, index }),
            ),
    {
        let c = ConnectorEntity {
            parent,
            connector: Connector { ctype, index },
            connections: Vec::new(),
            free: true,
        };
        assert(c@ =~= ConnectorView {
            parent,
            connector: Connector { ctype, index },
            connections: Seq::empty(),
            free: true,
        });
        self.push(Slot::Connector(c))
    }

    /// Spawn component `node` with one fresh connector per entry of `layout`;
    /// the connectors become the component's children, in place of those
    /// `node` names.
    pub fn spawn_with_layout(&mut self, node: Node, layout: &Vec<Connector>) -> (g: Entity)
        ensures
            g == old(self)@.len(),
            final(self)@ == old(self)@ + spawned_slots(node@, layout@, g),
    {
        let mut node = node;
        let ghost n0 = node@;
        node.children = Vec::new();
        let g = self.push(Slot::Vacant);
        assert(node.children@ =~= Seq::new(0nat, |k: int| (g + 1 + k) as Entity));
        assert(node@ == with_children(n0, Seq::new(0nat, |k: int| (g + 1 + k) as Entity)));
        assert(self@ =~= old(self)@.push(SlotView::Vacant) + Seq::new(
            0nat,
            |k: int| fresh_connector(g, layout@[k]),
        ));
        let mut i: usize = 0;
        while i < layout.len()
            invariant
                i <= layout@.len(),
                g == old(self)@.len(),
                node@ == with_children(n0, Seq::new(i as nat, |k: int| (g + 1 + k) as Entity)),
                self@ == old(self)@.push(SlotView::Vacant) + Seq::new(
                    i as nat,
                    |k: int| fresh_connector(g, layout@[k]),
                ),
            decreases layout@.len() - i,
        {
            let c = self.spawn_connector(g, layout[i].ctype, layout[i].index);
            proof {
                self.lemma_len_fits();
            }
            node.children.push(c);
            i = i + 1;
            assert(node.children@ =~= Seq::new(i as nat, |k: int| (g + 1 + k) as Entity));
            assert(node@ == with_children(n0, Seq::new(i as nat, |k: int| (g + 1 + k) as Entity)));
            assert(self@ =~= old(self)@.push(SlotView::Vacant) + Seq::new(
                i as nat,
                |k: int| fresh_connector(g, layout@[k]),
            ));
        }
        let ghost nv = node@;
        self.put(g, Slot::Node(node));
        assert(self@ =~= old(self)@ + spawned_slots(n0, layout@, g));
        g
    }

    /// Carry out a connect request; see [`spec_connect`]. Returns the new
    /// connection line and whether its input was a connector.
    pub fn connect(&mut self, ev: &ConnectEvent) -> (r: (Entity, bool))
        requires
            connect_ok(old(self)@, *ev),
        ensures
            r.0 == old(self)@.len(),
            r.1 == is_connector(old(self)@, ev.input as int),
            final(self)@ == spec_connect(old(self)@, *ev),
    {
        let ghost w = self@;
        let line = self.push(
            Slot::Line(
                ConnectionLine {
                    output: ConnInfo { entity: ev.output, index: ev.output_index },
                    input: ConnInfo { entity: ev.input, index: ev.input_index },
                },
            ),
        );
        if ev.input >= self.slots.len() {
            return (line, false);
        }
        let s = self.take(ev.input);
        let in_parent = match s {
            Slot::Connector(mut c) => {
                c.connections.push(line);
                c.free = false;
                let p = c.parent;
                proof {
                    assert(c@ == conn_with(old(self)@.push(SlotView::Line(event_line(*ev)))[ev.input as int]->Connector_0,
                        old(self)@.push(SlotView::Line(event_line(*ev)))[ev.input as int]->Connector_0.connections.push(line), false));
                }
                self.put(ev.input, Slot::Connector(c));
                p
            },
            other => {
                self.put(ev.input, other);
                assert(self@ =~= w.push(SlotView::Line(event_line(*ev))));
                return (line, false);
            },
        };
        assert(self@ =~= connect_w2(w, *ev));
        if ev.output >= self.slots.len() {
            return (line, true);
        }
        let s = self.take(ev.output);
        let p = match s {
            Slot::Connector(mut c) => {
                c.connections.push(line);
                let p = c.parent;
                self.put(ev.output, Slot::Connector(c));
                p
            },
            other => {
                self.put(ev.output, other);
                assert(self@ =~= connect_w2(w, *ev));
                return (line, true);
            },
        };
        assert(self@ =~= connect_w3(w, *ev));
        if p >= self.slots.len() {
            return (line, true);
        }
        let s = self.take(p);
        match s {
            Slot::Node(mut n) => {
                match n.targets {
                    Some(mut ts) => {
                        let ghost old_ts = ts@;
                        ts[ev.output_index].add(in_parent, ev.input_index);
                        assert(targets_view(ts@) =~= targets_view(old_ts).update(
                            ev.output_index as int,
                            tm_add(targets_view(old_ts)[ev.output_index as int], in_parent, ev.input_index),
                        ));
                        n.targets = Some(ts);
                        self.put(p, Slot::Node(n));
                    },
                    None => {
                        self.put(p, Slot::Node(n));
                        assert(self@ =~= connect_w3(w, *ev));
                    },
                }
            },
            other => {
                self.put(p, other);
                assert(self@ =~= connect_w3(w, *ev));
            },
        }
        (line, true)
    }

    /// Whether a connect request can be carried out; see [`connect_ok`].
    pub fn can_connect(&self, ev: &ConnectEvent) -> (r: bool)
        ensures
            r == connect_ok(self@, *ev),
    {
        let ghost w = self@;
        proof {
            let w2 = connect_w2(w, *ev);
            let w3 = connect_w3(w, *ev);
            assert(is_connector(w.push(SlotView::Line(event_line(*ev))), ev.input as int) == is_connector(w, ev.input as int));
            assert(forall|x: int| #![auto] is_connector(w2, x) == is_connector(w, x));
            assert(forall|x: int| #![auto] is_connector(w, x) ==> connector_of(w3, x).parent == connector_of(w, x).parent);
            assert(forall|x: int| #![auto] is_node(w3, x) == is_node(w, x));
            assert(forall|x: int| #![auto] is_node(w, x) ==> node_of(w3, x).targets == node_of(w, x).targets);
        }
        if ev.input >= self.slots.len() || ev.output >= self.slots.len() {
            return true;
        }
        match &self.slots[ev.input] {
            Slot::Connector(_) => {},
            _ => {
                return true;
            },
        }
        let p = match &self.slots[ev.output] {
            Slot::Connector(c) => c.parent,
            _ => {
                return true;
            },
        };
        if p >= self.slots.len() {
            return true;
        }
        match &self.slots[p] {
            Slot::Node(n) => match &n.targets {
                Some(ts) => ev.output_index < ts.len(),
                None => true,
            },
            _ => true,
        }
    }

    /// Whether a disconnect request can be carried out; see
    /// [`disconnect_ok`].
    pub fn can_disconnect(&self, ev: &DisconnectEvent) -> (r: bool)
        ensures
            r == disconnect_ok(self@, *ev),
    {
        let ghost w = self@;
        if ev.connection >= self.slots.len() {
            return true;
        }
        let line = match &self.slots[ev.connection] {
            Slot::Line(l) => *l,
            _ => {
                return true;
            },
        };
        // The input side.
        let mut in_parent = ev.in_parent;
        if line.input.entity < self.slots.len() {
            match &self.slots[line.input.entity] {
                Slot::Connector(c) => {
                    in_parent = Some(c.parent);
                    if c.parent < self.slots.len() {
                        match &self.slots[c.parent] {
                            Slot::Node(n) => match &n.inputs {
                                Some(v) => {
                                    if line.input.index >= v.len() {
                                        return false;
                                    }
                                },
                                None => {},
                            },
                            _ => {},
                        }
                    }
                },
                _ => {},
            }
        }
        // The output side; unlinking the input side changed neither which
        // entities are connectors nor any target map.
        proof {
            let w1 = disconnect_w1(w, *ev);
            let w2 = disconnect_w2(w, *ev);
            assert(w1.len() == w.len());
            assert(forall|x: int| #![auto] is_connector(w1, x) == is_connector(w, x));
            assert(forall|x: int| #![auto] is_connector(w, x) ==> connector_of(w1, x).parent == connector_of(w, x).parent);
            assert(forall|x: int| #![auto] is_node(w2, x) == is_node(w, x));
            assert(forall|x: int| #![auto] is_node(w, x) ==> node_of(w2, x).targets == node_of(w, x).targets);
        }
        if line.output.entity >= self.slots.len() {
            return true;
        }
        let q = match &self.slots[line.output.entity] {
            Slot::Connector(c) => c.parent,
            _ => {
                return true;
            },
        };
        let parent = match in_parent {
            Some(p) => p,
            None => {
                return false;
            },
        };
        if q >= self.slots.len() {
            return true;
        }
        match &self.slots[q] {
            Slot::Node(n) => match &n.targets {
                Some(ts) => {
                    if line.output.index >= ts.len() {
                        return false;
                    }
                    match ts[line.output.index].find(parent) {
                        Some(_) => true,
                        None => false,
                    }
                },
                None => true,
            },
            _ => true,
        }
    }

    /// Carry out a disconnect request; see [`spec_disconnect`] and
    /// [`spec_disconnect_report`].
    pub fn disconnect(&mut self, ev: &DisconnectEvent) -> (r: Option<(ConnInfo, ConnInfo, Entity)>)
        requires
            disconnect_ok(old(self)@, *ev),
        ensures
            final(self)@ == spec_disconnect(old(self)@, *ev),
            r == spec_disconnect_report(old(self)@, *ev),
    {
        let ghost w = self@;
        if ev.connection >= self.slots.len() {
            return None;
        }
        let line = match &self.slots[ev.connection] {
            Slot::Line(l) => *l,
            _ => {
                return None;
            },
        };
        // Unlink the input connector (right hand side).
        let mut in_parent = ev.in_parent;
        if line.input.entity < self.slots.len() {
            let s = self.take(line.input.entity);
            match s {
                Slot::Connector(mut ci) => {
                    let p = ci.parent;
                    in_parent = Some(p);
                    let ghost wt = self@;
                    if p < self.slots.len() && p != line.input.entity {
                        assert(wt.len() == w.len());
                        assert(p < w.len());
                        assert(wt[p as int] == w[p as int]);
                        let sp = self.take(p);
                        assert(sp@ == wt[p as int]);
                        assert(sp@ == w[p as int]);
                        assert(is_connector(w, line.input.entity as int));
                        assert(connector_of(w, line.input.entity as int).parent == p);
                        match sp {
                            Slot::Node(mut n) => {
                                assert(is_node(w, p as int));
                                match n.inputs {
                                    Some(mut v) => {
                                        assert(v@ == node_of(w, p as int).inputs.unwrap());
                                        v.set(line.input.index, State::Unknown);
                                        n.inputs = Some(v);
                                    },
                                    None => {},
                                }
                                self.put(p, Slot::Node(n));
                            },
                            other => {
                                self.put(p, other);
                            },
                        }
                    }
                    let ghost ci0 = ci@;
                    ci.connections.clear();
                    ci.free = true;
                    assert(ci@ == conn_with(ci0, Seq::empty(), true));
                    self.put(line.input.entity, Slot::Connector(ci));
                },
                other => {
                    self.put(line.input.entity, other);
                },
            }
        }
        assert(self@ =~= disconnect_w1(w, *ev));
        assert(in_parent == disconnect_in_parent(w, *ev));
        // Unlink the output connector (left hand side).
        let mut report: Option<(ConnInfo, ConnInfo, Entity)> = None;
        if line.output.entity < self.slots.len() {
            let s = self.take(line.output.entity);
            match s {
                Slot::Connector(mut co) => {
                    let q = co.parent;
                    let parent = match in_parent {
                        Some(x) => x,
                        None => 0,
                    };
                    let ghost co0 = co@;
                    remove_first(&mut co.connections, ev.connection);
                    assert(co@ == conn_with(co0, co0.connections.remove_value(ev.connection), co0.free));
                    self.put(line.output.entity, Slot::Connector(co));
                    assert(self@ =~= disconnect_w2(w, *ev));
                    report = Some(
                        (
                            ConnInfo { entity: q, index: line.output.index },
                            ConnInfo { entity: parent, index: line.input.index },
                            ev.connection,
                        ),
                    );
                    if q < self.slots.len() {
                        let sq = self.take(q);
                        match sq {
                            Slot::Node(mut n) => {
                                match n.targets {
                                    Some(mut ts) => {
                                        let ghost old_ts = ts@;
                                        let size = match ts[line.output.index].get(parent) {
                                            Some(v) => v.len(),
                                            None => 0,
                                        };
                                        if size > 1 {
                                            ts[line.output.index].remove_index(parent, line.input.index);
                                        } else {
                                            ts[line.output.index].remove_key(parent);
                                        }
                                        assert(targets_view(ts@) =~= targets_view(old_ts).update(
                                            line.output.index as int,
                                            ts@[line.output.index as int]@,
                                        ));
                                        n.targets = Some(ts);
                                        self.put(q, Slot::Node(n));
                                    },
                                    None => {
                                        self.put(q, Slot::Node(n));
                                    },
                                }
                            },
                            other => {
                                self.put(q, other);
                            },
                        }
                    }
                },
                other => {
                    self.put(line.output.entity, other);
                    assert(self@ =~= disconnect_w2(w, *ev));
                },
            }
        } else {
            assert(self@ =~= disconnect_w2(w, *ev));
        }
        // Finally remove the connection line itself.
        self.take(ev.connection);
        assert(self@ =~= spec_disconnect(w, *ev));
        report
    }

    /// Whether the transition functions of every component can run; see
    /// [`transition_ok`].
    pub fn can_transition(&self) -> (r: bool)
        ensures
            r == transition_ok(self@),
    {
        let mut e: usize = 0;
        while e < self.slots.len()
            invariant
                e <= self@.len(),
                forall|k: int| #![trigger self@[k]] 0 <= k < e && is_node(self@, k) ==> node_transition_ok(
                    node_of(self@, k),
                ),
            decreases self@.len() - e,
        {
            match &self.slots[e] {
                Slot::Node(n) => {
                    assert(node_of(self@, e as int) == n@);
                    match (&n.inputs, &n.transitions, &n.outputs) {
                        (Some(ins), Some(ts), Some(outs)) => {
                            if ts.len() > outs.len() {
                                return false;
                            }
                            let mut i: usize = 0;
                            assert(is_node(self@, e as int));
                            while i < ts.len()
                                invariant
                                    i <= ts@.len(),
                                    is_node(self@, e as int),
                                    node_of(self@, e as int).inputs == Some(ins@),
                                    node_of(self@, e as int).transitions == Some(ts@),
                                    node_of(self@, e as int).outputs == Some(outs@),
                                    forall|j: int| 0 <= j < i ==> ins@.len() >= min_inputs(#[trigger] ts@[j]),
                                decreases ts@.len() - i,
                            {
                                let needed: usize = match ts[i] {
                                    Transition::Not | Transition::Buffer => 1,
                                    _ => 0,
                                };
                                assert(needed == min_inputs(ts@[i as int]));
                                if ins.len() < needed {
                                    assert(!node_transition_ok(node_of(self@, e as int)));
                                    assert(self@[e as int] is Node);
                                    return false;
                                }
                                i = i + 1;
                            }
                        },
                        _ => {},
                    }
                },
                _ => {},
            }
            e = e + 1;
        }
        true
    }

    /// Whether the propagation step can run; see [`propagate_ok`].
    pub fn can_propagate(&self) -> (r: bool)
        ensures
            r == propagate_ok(self@),
    {
        let mut e: usize = 0;
        while e < self.slots.len()
            invariant
                e <= self@.len(),
                forall|k: int| #![trigger self@[k]] 0 <= k < e && is_node(self@, k) ==> {
                    let n = node_of(self@, k);
                    (n.outputs is Some && n.targets is Some) ==> n.outputs.unwrap().len() <= n.targets.unwrap().len()
                },
            decreases self@.len() - e,
        {
            match &self.slots[e] {
                Slot::Node(n) => {
                    assert(node_of(self@, e as int) == n@);
                    match (&n.outputs, &n.targets) {
                        (Some(outs), Some(ts)) => {
                            if outs.len() > ts.len() {
                                return false;
                            }
                        },
                        _ => {},
                    }
                },
                _ => {},
            }
            e = e + 1;
        }
        true
    }

    /// Run the transition functions of every component; see
    /// [`spec_transition`].
    pub fn transition_step(&mut self)
        requires
            transition_ok(old(self)@),
        ensures
            final(self)@ == spec_transition(old(self)@),
    {
        let ghost w = self@;
        let mut e: usize = 0;
        while e < self.slots.len()
            invariant
                e <= self@.len(),
                self@.len() == w.len(),
                transition_ok(w),
                forall|k: int| 0 <= k < w.len() ==> #[trigger] self@[k] == (if k < e {
                    transition_slot(w[k])
                } else {
                    w[k]
                }),
            decreases w.len() - e,
        {
            let s = self.take(e);
            match s {
                Slot::Node(mut n) => {
                    let ghost n0 = n@;
                    assert(n0 == node_of(w, e as int));
                    assert(node_transition_ok(n0));
                    if n.inputs.is_some() && n.outputs.is_some() && n.transitions.is_some() {
                        let mut outs = n.outputs.take().unwrap();
                        match (&n.inputs, &n.transitions) {
                            (Some(ins), Some(ts)) => {
                                let mut i: usize = 0;
                                while i < ts.len()
                                    invariant
                                        i <= ts@.len(),
                                        ts@ == n0.transitions.unwrap(),
                                        ins@ == n0.inputs.unwrap(),
                                        node_transition_ok(n0),
                                        n0.inputs is Some && n0.outputs is Some && n0.transitions is Some,
                                        outs@.len() == n0.outputs.unwrap().len(),
                                        forall|j: int| 0 <= j < outs@.len() ==> #[trigger] outs@[j] == (if j < i {
                                            spec_apply(ts@[j], ins@)
                                        } else {
                                            n0.outputs.unwrap()[j]
                                        }),
                                    decreases ts@.len() - i,
                                {
                                    let x = apply_transition(ts[i], ins.as_slice());
                                    outs.set(i, x);
                                    i = i + 1;
                                }
                                assert(outs@ =~= transition_node(n0).outputs.unwrap());
                            },
                            _ => {},
                        }
                        n.outputs = Some(outs);
                    }
                    assert(n@ == transition_node(n0));
                    self.put(e, Slot::Node(n));
                },
                other => {
                    self.put(e, other);
                },
            }
            e = e + 1;
        }
        assert(self@ =~= spec_transition(w));
    }

    /// Write value `x.2` to input `x.1` of component `x.0`, where it has one.
    pub fn write_input(&mut self, x: Write)
        ensures
            final(self)@ == apply_write(old(self)@, x),
    {
        let g = x.0;
        if g >= self.slots.len() {
            return;
        }
        let s = self.take(g);
        match s {
            Slot::Node(mut n) => {
                let ghost n0 = n@;
                match n.inputs {
                    Some(mut v) => {
                        if x.1 < v.len() {
                            v.set(x.1, x.2);
                        }
                        n.inputs = Some(v);
                    },
                    None => {},
                }
                self.put(g, Slot::Node(n));
                assert(self@ =~= apply_write(old(self)@, x));
            },
            other => {
                self.put(g, other);
                assert(self@ =~= old(self)@);
            },
        }
    }

    /// Write value `x.2` to output `x.1` of component `x.0`, where it has
    /// one; see [`apply_output_write`].
    pub fn write_output(&mut self, x: Write)
        ensures
            final(self)@ == apply_output_write(old(self)@, x),
    {
        let g = x.0;
        if g >= self.slots.len() {
            return;
        }
        let s = self.take(g);
        match s {
            Slot::Node(mut n) => {
                match n.outputs {
                    Some(mut v) => {
                        if x.1 < v.len() {
                            v.set(x.1, x.2);
                        }
                        n.outputs = Some(v);
                    },
                    None => {},
                }
                self.put(g, Slot::Node(n));
                assert(self@ =~= apply_output_write(old(self)@, x));
            },
            other => {
                self.put(g, other);
                assert(self@ =~= old(self)@);
            },
        }
    }

    /// Set the timing of clock `g` to `t`, where `g` is a component with a
    /// timing; see [`apply_clock_write`].
    pub fn write_clock(&mut self, g: Entity, t: ClockTiming)
        ensures
            final(self)@ == apply_clock_write(old(self)@, g as int, t),
    {
        if g >= self.slots.len() {
            return;
        }
        let s = self.take(g);
        match s {
            Slot::Node(mut n) => {
                if n.clock.is_some() {
                    n.clock = Some(t);
                }
                self.put(g, Slot::Node(n));
                assert(self@ =~= apply_clock_write(old(self)@, g as int, t));
            },
            other => {
                self.put(g, other);
                assert(self@ =~= old(self)@);
            },
        }
    }

    /// Write every output value to the inputs its target map names; see
    /// [`spec_propagate`].
    pub fn propagation_step(&mut self)
        requires
            propagate_ok(old(self)@),
        ensures
            final(self)@ == spec_propagate(old(self)@),
    {
        let ghost w = self@;
        let ghost ww = w.map_values(|s: SlotView| slot_writes(s));
        let ghost mut done: Seq<Write> = Seq::empty();
        assert(ww.take(0) =~= Seq::<Seq<Write>>::empty());
        let mut e: usize = 0;
        while e < self.slots.len()
            invariant
                e <= w.len(),
                ww == w.map_values(|s: SlotView| slot_writes(s)),
                propagate_ok(w),
                self@ == apply_writes(w, done),
                done == concat(ww.take(e as int)),
            decreases w.len() - e,
        {
            proof {
                lemma_apply_writes_shape(w, done);
                assert(strip(self@[e as int]) == strip(w[e as int]));
            }
            let ghost start = done;
            let nouts: usize = match &self.slots[e] {
                Slot::Node(n) => match (&n.outputs, &n.targets) {
                    (Some(o), Some(_)) => o.len(),
                    _ => 0,
                },
                _ => 0,
            };
            let ghost ow: Seq<Seq<Write>> = if is_node(w, e as int) && node_of(w, e as int).outputs is Some
                && node_of(w, e as int).targets is Some {
                let n = node_of(w, e as int);
                Seq::new(n.outputs.unwrap().len(), |i: int| output_writes(n.targets.unwrap()[i], n.outputs.unwrap()[i]))
            } else {
                Seq::empty()
            };
            assert(nouts == ow.len());
            assert(ow.take(0) =~= Seq::<Seq<Write>>::empty());
            assert(start + concat(ow.take(0)) =~= start);
            let mut i: usize = 0;
            while i < nouts
                invariant
                    e < w.len(),
                    i <= nouts,
                    nouts == ow.len(),
                    propagate_ok(w),
                    ow == (if is_node(w, e as int) && node_of(w, e as int).outputs is Some
                        && node_of(w, e as int).targets is Some {
                        let n = node_of(w, e as int);
                        Seq::new(n.outputs.unwrap().len(), |i: int| output_writes(n.targets.unwrap()[i], n.outputs.unwrap()[i]))
                    } else {
                        Seq::<Seq<Write>>::empty()
                    }),
                    self@ == apply_writes(w, done),
                    done == start + concat(ow.take(i as int)),
                decreases nouts - i,
            {
                proof {
                    lemma_apply_writes_shape(w, done);
                    assert(strip(self@[e as int]) == strip(w[e as int]));
                }
                let ghost n = node_of(w, e as int);
                let ghost m = n.targets.unwrap()[i as int];
                let ghost ew = m.map_values(|x: (Entity, Seq<usize>)| index_writes(x.0, x.1, n.outputs.unwrap()[i as int]));
                let (v, nent): (State, usize) = match &self.slots[e] {
                    Slot::Node(nn) => match (&nn.outputs, &nn.targets) {
                        (Some(o), Some(ts)) => (o[i], ts[i].entries.len()),
                        _ => (State::Unknown, 0),
                    },
                    _ => (State::Unknown, 0),
                };
                assert(v == n.outputs.unwrap()[i as int]);
                assert(nent == ew.len());
                let ghost base = done;
                assert(ew.take(0) =~= Seq::<Seq<Write>>::empty());
                assert(base + concat(ew.take(0)) =~= base);
                let mut k: usize = 0;
                while k < nent
                    invariant
                        e < w.len(),
                        i < nouts,
                        nouts == ow.len(),
                        k <= nent,
                        nent == ew.len(),
                        is_node(w, e as int),
                        n == node_of(w, e as int),
                        n.outputs is Some && n.targets is Some,
                        i < n.outputs.unwrap().len(),
                        i < n.targets.unwrap().len(),
                        m == n.targets.unwrap()[i as int],
                        v == n.outputs.unwrap()[i as int],
                        ew == m.map_values(|x: (Entity, Seq<usize>)| index_writes(x.0, x.1, v)),
                        self@ == apply_writes(w, done),
                        done == base + concat(ew.take(k as int)),
                    decreases nent - k,
                {
                    proof {
                        lemma_apply_writes_shape(w, done);
                        assert(strip(self@[e as int]) == strip(w[e as int]));
                    }
                    let (g, nidx): (Entity, usize) = match &self.slots[e] {
                        Slot::Node(nn) => match &nn.targets {
                            Some(ts) => (ts[i].entries[k].gate, ts[i].entries[k].indices.len()),
                            _ => (0, 0),
                        },
                        _ => (0, 0),
                    };
                    let ghost iw = index_writes(m[k as int].0, m[k as int].1, v);
                    assert(g == m[k as int].0);
                    assert(nidx == iw.len());
                    let ghost base_k = done;
                    assert(base_k + iw.take(0) =~= base_k);
                    let mut t: usize = 0;
                    while t < nidx
                        invariant
                            e < w.len(),
                            i < nouts,
                            k < nent,
                            t <= nidx,
                            nidx == iw.len(),
                            is_node(w, e as int),
                            n == node_of(w, e as int),
                            n.outputs is Some && n.targets is Some,
                            i < n.targets.unwrap().len(),
                            m == n.targets.unwrap()[i as int],
                            k < m.len(),
                            g == m[k as int].0,
                            iw == index_writes(m[k as int].0, m[k as int].1, v),
                            self@ == apply_writes(w, done),
                            done == base_k + iw.take(t as int),
                        decreases nidx - t,
                    {
                        proof {
                            lemma_apply_writes_shape(w, done);
                            assert(strip(self@[e as int]) == strip(w[e as int]));
                        }
                        let j: usize = match &self.slots[e] {
                            Slot::Node(nn) => match &nn.targets {
                                Some(ts) => ts[i].entries[k].indices[t],
                                _ => 0,
                            },
                            _ => 0,
                        };
                        assert(j == m[k as int].1[t as int]);
                        self.write_input((g, j, v));
                        proof {
                            lemma_apply_writes_push(w, done, (g, j, v));
                            assert(iw[t as int] == (g, j, v));
                            assert(base_k + iw.take(t + 1) =~= (base_k + iw.take(t as int)).push(iw[t as int]));
                            done = done.push((g, j, v));
                        }
                        t = t + 1;
                    }
                    proof {
                        assert(iw.take(nidx as int) =~= iw);
                        assert(ew[k as int] == iw);
                        lemma_concat_take(ew, k as int);
                        assert(base + concat(ew.take(k + 1)) =~= base + concat(ew.take(k as int)) + iw);
                    }
                    k = k + 1;
                }
                proof {
                    assert(ew.take(nent as int) =~= ew);
                    assert(ow[i as int] == output_writes(m, v));
                    assert(output_writes(m, v) == concat(ew));
                    lemma_concat_take(ow, i as int);
                    assert(start + concat(ow.take(i + 1)) =~= start + concat(ow.take(i as int)) + concat(ew));
                }
                i = i + 1;
            }
            proof {
                assert(ow.take(nouts as int) =~= ow);
                assert(ww[e as int] == slot_writes(w[e as int]));
                assert(slot_writes(w[e as int]) == concat(ow));
                lemma_concat_take(ww, e as int);
            }
            e = e + 1;
        }
        proof {
            lemma_apply_writes_shape(w, done);
        }
        assert(ww.take(w.len() as int) =~= ww);
    }

    /// Set the number of inputs of gate `g` to `to`; see
    /// [`spec_resize_world`]. Returns the disconnect requests for the lines
    /// of the despawned connectors (see [`drop_events`]); nothing happens
    /// unless `g` is a gate with inputs.
    pub fn resize_inputs(&mut self, g: Entity, to: u32) -> (r: Vec<DisconnectEvent>)
        ensures
            resizable(old(self)@, g) ==> final(self)@ == spec_resize_world(old(self)@, g, to) && r@
                == drop_events(old(self)@, dropped_children(old(self)@, node_of(old(self)@, g as int).children, to), g),
            !resizable(old(self)@, g) ==> final(self)@ == old(self)@ && r@.len() == 0,
    {
        let ghost w = self@;
        if g >= self.slots.len() {
            return Vec::new();
        }
        let ch: Vec<Entity> = match &self.slots[g] {
            Slot::Node(n) => {
                if n.gate.is_none() || n.inputs.is_none() {
                    return Vec::new();
                }
                crate::save::copy_indices(&n.children)
            },
            _ => {
                return Vec::new();
            },
        };
        let ghost chv = ch@;
        assert(chv == node_of(w, g as int).children);
        // Sort the connectors into those that stay and those that go.
        let mut kept: Vec<Entity> = Vec::new();
        let mut drp: Vec<Entity> = Vec::new();
        let mut evs: Vec<DisconnectEvent> = Vec::new();
        let mut mx: usize = 0;
        let mut i: usize = 0;
        assert(chv.take(0) =~= Seq::<Entity>::empty());
        assert(evs@ =~= drop_events(w, drp@, g));
        while i < ch.len()
            invariant
                i <= chv.len(),
                ch@ == chv,
                w == self@,
                kept@ == kept_children(w, chv.take(i as int), to),
                drp@ == dropped_children(w, chv.take(i as int), to),
                mx == max_kept(w, chv.take(i as int), to),
                mx < to || mx == 0,
                evs@ == drop_events(w, drp@, g),
            decreases chv.len() - i,
        {
            assert(chv.take(i + 1).drop_last() =~= chv.take(i as int));
            let c = ch[i];
            let ghost d0 = drp@;
            let ghost e0 = evs@;
            if c < self.slots.len() {
                match &self.slots[c] {
                    Slot::Connector(cc) => {
                        let is_in = match cc.connector.ctype {
                            ConnectorType::In => true,
                            ConnectorType::Out => false,
                        };
                        if is_in && cc.connector.index >= to as usize {
                            drp.push(c);
                            let mut t: usize = 0;
                            while t < cc.connections.len()
                                invariant
                                    t <= cc.connections@.len(),
                                    evs@ == e0 + cc.connections@.take(t as int).map_values(
                                        |l: Entity| DisconnectEvent { connection: l, in_parent: Some(g) },
                                    ),
                                decreases cc.connections@.len() - t,
                            {
                                evs.push(DisconnectEvent { connection: cc.connections[t], in_parent: Some(g) });
                                t = t + 1;
                                assert(evs@ =~= e0 + cc.connections@.take(t as int).map_values(
                                    |l: Entity| DisconnectEvent { connection: l, in_parent: Some(g) },
                                ));
                            }
                            assert(cc.connections@.take(t as int) =~= cc.connections@);
                            proof {
                                let parts = drp@.map_values(
                                    |c: Entity|
                                        connector_of(w, c as int).connections.map_values(
                                            |l: Entity| DisconnectEvent { connection: l, in_parent: Some(g) },
                                        ),
                                );
                                assert(parts.take(d0.len() as int) =~= d0.map_values(
                                    |c: Entity|
                                        connector_of(w, c as int).connections.map_values(
                                            |l: Entity| DisconnectEvent { connection: l, in_parent: Some(g) },
                                        ),
                                ));
                                lemma_concat_take(parts, d0.len() as int);
                                assert(parts.take(d0.len() as int + 1) =~= parts);
                            }
                        } else {
                            kept.push(c);
                            if is_in && mx < cc.connector.index {
                                mx = cc.connector.index;
                            }
                        }
                    },
                    _ => {
                        kept.push(c);
                    },
                }
            } else {
                kept.push(c);
            }
            i = i + 1;
        }
        assert(chv.take(i as int) =~= chv);
        let cnt: usize = if to as usize > mx + 1 {
            to as usize - mx - 1
        } else {
            0
        };
        assert(cnt == added_count(mx, to));
        // New input connectors after the greatest index kept.
        let mut ids: Vec<Entity> = Vec::new();
        let mut k: usize = 0;
        while k < cnt
            invariant
                k <= cnt,
                cnt == added_count(mx, to),
                mx < to || mx == 0,
                self@ == w + Seq::new(
                    k as nat,
                    |x: int| fresh_connector(g, Connector { ctype: ConnectorType::In, index: (mx + 1 + x) as usize }),
                ),
                ids@ == Seq::new(k as nat, |j: int| (w.len() + j) as Entity),
            decreases cnt - k,
        {
            let id = self.spawn_connector(g, ConnectorType::In, mx + 1 + k);
            ids.push(id);
            k = k + 1;
            assert(self@ =~= w + Seq::new(
                k as nat,
                |x: int| fresh_connector(g, Connector { ctype: ConnectorType::In, index: (mx + 1 + x) as usize }),
            ));
            assert(ids@ =~= Seq::new(k as nat, |j: int| (w.len() + j) as Entity));
        }
        let ghost tail = Seq::new(
            cnt as nat,
            |x: int| fresh_connector(g, Connector { ctype: ConnectorType::In, index: (mx + 1 + x) as usize }),
        );
        let mut children = kept;
        children.append(&mut ids);
        assert(children@ =~= kept_children(w, chv, to) + Seq::new(cnt as nat, |j: int| (w.len() + j) as Entity));
        // The logic gate with its new number of inputs and its children.
        let s = self.take(g);
        match s {
            Slot::Node(mut n) => {
                let ghost n0 = n@;
                match n.gate {
                    Some(mut gt) => {
                        gt.inputs = to;
                        n.gate = Some(gt);
                    },
                    None => {},
                }
                match n.inputs {
                    Some(mut v) => {
                        let ghost v0 = v@;
                        if (to as usize) <= v.len() {
                            v.truncate(to as usize);
                        } else {
                            while v.len() < to as usize
                                invariant
                                    v0.len() <= v@.len() <= to,
                                    v@ == v0 + unknowns((v@.len() - v0.len()) as nat),
                                decreases to - v@.len(),
                            {
                                v.push(State::Unknown);
                                assert(v@ =~= v0 + unknowns((v@.len() - v0.len()) as nat));
                            }
                        }
                        assert(v@ =~= resize_states(v0, to as nat));
                        n.inputs = Some(v);
                    },
                    None => {},
                }
                n.children = children;
                self.put(g, Slot::Node(n));
            },
            other => {
                self.put(g, other);
            },
        }
        let ghost w1 = self@;
        assert(w1 == (w + tail).update(g as int, w1[g as int]));
        assert((w + tail).update(g as int, w1[g as int]) =~= w.update(g as int, w1[g as int]) + tail);
        // Despawn the connectors that go.
        let mut j: usize = 0;
        assert(drp@.take(0) =~= Seq::<Entity>::empty());
        while j < drp.len()
            invariant
                j <= drp@.len(),
                self@ == vacate_seq(w1, drp@.take(j as int)),
            decreases drp@.len() - j,
        {
            assert(drp@.take(j + 1).drop_last() =~= drp@.take(j as int));
            if drp[j] < self.slots.len() {
                self.despawn(drp[j]);
            }
            j = j + 1;
        }
        assert(drp@.take(j as int) =~= drp@);
        proof {
            lemma_dropped_children(w, chv, to);
            assert forall|x: int| 0 <= x < drp@.len() implies drp@[x] != g && drp@[x] < w.len() by {
                assert(dropped(w, drp@[x], to));
            }
            lemma_vacate_append(w.update(g as int, w1[g as int]), tail, drp@);
        }
        assert(self@ =~= spec_resize_world(w, g, to));
        evs
    }

    /// Spawn a new component of `kind` with its connectors; see [`kind_node`]
    /// and [`kind_layout`]. There is no XNOR gate to spawn.
    pub fn spawn_node(
        &mut self,
        kind: NodeType,
        ins: usize,
        outs: usize,
        state: State,
        timing: ClockTiming,
        placement: Placement,
    ) -> (r: Option<Entity>)
        ensures
            kind == NodeType::Xnor ==> r is None && final(self)@ == old(self)@,
            kind != NodeType::Xnor ==> r == Some(old(self)@.len() as Entity) && final(self)@ == old(self)@
                + spawned_slots(
                kind_node(kind, ins, outs, state, timing, placement),
                kind_layout(kind, ins, outs),
                old(self)@.len() as Entity,
            ),
    {
        let (i, o): (usize, usize) = match kind {
            NodeType::HighConst | NodeType::LowConst => (0, 1),
            NodeType::ToggleSwitch | NodeType::Clock => (0, 1),
            NodeType::LightBulb => (1, 0),
            NodeType::SevenSegmentDisplay => (4, 0),
            _ => (ins, outs),
        };
        let gate = match kind {
            NodeType::Xnor => {
                return None;
            },
            NodeType::ToggleSwitch | NodeType::Clock | NodeType::LightBulb
            | NodeType::SevenSegmentDisplay => None,
            _ => {
                let in_range = match kind {
                    NodeType::Not => NodeRange { min: 1, max: 1 },
                    NodeType::HighConst | NodeType::LowConst => NodeRange { min: 0, max: 0 },
                    _ => NodeRange { min: 2, max: 16 },
                };
                Some(
                    Gate {
                        inputs: i as u32,
                        outputs: o as u32,
                        in_range,
                        out_range: NodeRange { min: 1, max: 1 },
                    },
                )
            },
        };
        let transition = match kind {
            NodeType::And => Transition::And,
            NodeType::Nand => Transition::Nand,
            NodeType::Or => Transition::Or,
            NodeType::Nor => Transition::Nor,
            NodeType::Xor => Transition::Xor,
            NodeType::Not => Transition::Not,
            NodeType::HighConst => Transition::High,
            NodeType::LowConst => Transition::Low,
            _ => Transition::Buffer,
        };
        let inputs = match kind {
            NodeType::ToggleSwitch | NodeType::LightBulb => {
                let mut v = Vec::new();
                v.push(state);
                Some(v)
            },
            NodeType::Clock => None,
            _ => Some(unknown_states(i)),
        };
        let outputs = match kind {
            NodeType::ToggleSwitch | NodeType::Clock => {
                let mut v = Vec::new();
                v.push(state);
                Some(v)
            },
            NodeType::LightBulb | NodeType::SevenSegmentDisplay => None,
            _ => Some(unknown_states(o)),
        };
        let transitions = match kind {
            NodeType::Clock | NodeType::LightBulb | NodeType::SevenSegmentDisplay => None,
            _ => {
                let mut v = Vec::new();
                v.push(transition);
                Some(v)
            },
        };
        let targets = match kind {
            NodeType::LightBulb | NodeType::SevenSegmentDisplay => None,
            _ => Some(empty_targets(o)),
        };
        let clock = match kind {
            NodeType::Clock => Some(timing),
            _ => None,
        };
        let node = Node {
            kind: Some(kind),
            name: name_of(kind),
            gate,
            inputs,
            outputs,
            transitions,
            targets,
            clock,
            placement,
            children: Vec::new(),
        };
        let layout = make_layout(i, o);
        assert(node@ == kind_node(kind, ins, outs, state, timing, placement)) by {
            assert(node.children@ =~= Seq::<Entity>::empty());
            match kind {
                NodeType::ToggleSwitch | NodeType::LightBulb | NodeType::Clock => {
                    assert(node@.inputs == kind_node(kind, ins, outs, state, timing, placement).inputs);
                    assert(node@.outputs == kind_node(kind, ins, outs, state, timing, placement).outputs);
                    assert(node@.transitions == kind_node(kind, ins, outs, state, timing, placement).transitions);
                },
                _ => {
                    assert(node@.transitions == kind_node(kind, ins, outs, state, timing, placement).transitions);
                },
            }
        }
        let g = self.spawn_with_layout(node, &layout);
        Some(g)
    }

    /// Spawn a gate built from the given transition functions, without a
    /// kind: it gets `in_range.min` unknown inputs, `out_range.min` unknown
    /// outputs with empty target maps, `in_range.min` input connectors and
    /// `out_range.min` output connectors, each numbered from 0.
    pub fn spawn_gate_with(
        &mut self,
        name: String,
        in_range: NodeRange,
        out_range: NodeRange,
        functions: Vec<Transition>,
    ) -> (g: Entity)
        ensures
            g == old(self)@.len(),
            final(self)@ == old(self)@ + spawned_slots(
                NodeView {
                    kind: None,
                    name: name@,
                    gate: Some(
                        Gate {
                            inputs: in_range.min,
                            outputs: out_range.min,
                            in_range,
                            out_range,
                        },
                    ),
                    inputs: Some(unknowns(in_range.min as nat)),
                    outputs: Some(unknowns(out_range.min as nat)),
                    transitions: Some(functions@),
                    targets: Some(no_targets(out_range.min as nat)),
                    clock: None,
                    placement: Placement { x: 0, y: 0, rot_x: 0, rot_y: 0, rot_z: 0, rot_w: 0 },
                    children: Seq::empty(),
                },
                in_out_layout(in_range.min as nat, out_range.min as nat),
                g,
            ),
    {
        let ghost nm = name@;
        let ghost fs = functions@;
        let node = Node {
            kind: None,
            name,
            gate: Some(
                Gate { inputs: in_range.min, outputs: out_range.min, in_range, out_range },
            ),
            inputs: Some(unknown_states(in_range.min as usize)),
            outputs: Some(unknown_states(out_range.min as usize)),
            transitions: Some(functions),
            targets: Some(empty_targets(out_range.min as usize)),
            clock: None,
            placement: Placement { x: 0, y: 0, rot_x: 0, rot_y: 0, rot_z: 0, rot_w: 0 },
            children: Vec::new(),
        };
        let layout = make_layout(in_range.min as usize, out_range.min as usize);
        assert(node.children@ =~= Seq::<Entity>::empty());
        self.spawn_with_layout(node, &layout)
    }
}

} // verus!

verus! {

/// `w` with input `j` of component `q` reset to `Unknown`.
pub open spec fn reset_input(w: WorldView, q: int, j: usize) -> WorldView {
    let n = node_of(w, q);
    w.update(q, SlotView::Node(set_inputs(n, n.inputs.unwrap().update(j as int, State::Unknown))))
}

/// The conditions under which disconnecting a new connection restores the
/// world: both ends are distinct connectors, the input connector is free
/// and has no lines, the output's component has a target map for the
/// output in which the input's component has no entry, or a non-empty one
/// that lists the input nowhere but possibly last, the input's component
/// has the input, and no connector names the new line yet.
pub open spec fn fresh_connection(w: WorldView, ev: ConnectEvent) -> bool {
    &&& is_connector(w, ev.input as int)
    &&& is_connector(w, ev.output as int)
    &&& ev.input != ev.output
    &&& connector_of(w, ev.input as int).connections.len() == 0
    &&& connector_of(w, ev.input as int).free
    &&& !connector_of(w, ev.output as int).connections.contains(w.len() as Entity)
    &&& {
        let p = connector_of(w, ev.output as int).parent as int;
        let q = connector_of(w, ev.input as int).parent as int;
        &&& is_node(w, p)
        &&& node_of(w, p).targets is Some
        &&& ev.output_index < node_of(w, p).targets.unwrap().len()
        &&& match tm_pos(node_of(w, p).targets.unwrap()[ev.output_index as int], q as Entity) {
            Some(k) => {
                &&& !node_of(w, p).targets.unwrap()[ev.output_index as int][k].1.drop_last().contains(ev.input_index)
                &&& node_of(w, p).targets.unwrap()[ev.output_index as int][k].1.len() > 0
            },
            None => true,
        }
        &&& is_node(w, q)
        &&& node_of(w, q).inputs is Some
        &&& ev.input_index < node_of(w, q).inputs.unwrap().len()
    }
}

/// Removing the first occurrence of a value just appended to a sequence
/// that did not hold it gives back the sequence.
pub proof fn lemma_remove_value_push<A>(s: Seq<A>, x: A)
    requires
        !s.contains(x),
    ensures
        s.push(x).remove_value(x) == s,
{
    let t = s.push(x);
    assert forall|j: int| 0 <= j < s.len() implies t[j] != x by {
        assert(t[j] == s[j]);
    }
    lemma_first_index(t, x, s.len() as int);
    assert(t.remove(s.len() as int) =~= s);
}

/// Removing the first occurrence of a value just appended to a non-empty
/// sequence that holds it nowhere but possibly last gives back the sequence.
pub proof fn lemma_remove_value_push_last<A>(s: Seq<A>, x: A)
    requires
        s.len() > 0,
        !s.drop_last().contains(x),
    ensures
        s.push(x).remove_value(x) == s,
{
    if s.last() == x {
        let t = s.push(x);
        assert forall|j: int| 0 <= j < s.len() - 1 implies t[j] != x by {
            assert(t[j] == s.drop_last()[j]);
        }
        lemma_first_index(t, x, s.len() - 1);
        assert(t.remove(s.len() - 1) =~= s);
    } else {
        assert forall|j: int| 0 <= j < s.len() implies s[j] != x by {
            if j < s.len() - 1 {
                assert(s[j] == s.drop_last()[j]);
            }
        }
        lemma_remove_value_push(s, x);
    }
}

/// A connection that is made and then disconnected leaves the world as it
/// was, but for the input it drove, which is reset to `Unknown`, and the
/// vacant slot of the line.
pub proof fn law_connect_then_disconnect(w: WorldView, ev: ConnectEvent)
    requires
        w.len() < usize::MAX,
        fresh_connection(w, ev),
    ensures
        connect_ok(w, ev),
        disconnect_ok(spec_connect(w, ev), DisconnectEvent { connection: w.len() as Entity, in_parent: None }),
        spec_disconnect(spec_connect(w, ev), DisconnectEvent { connection: w.len() as Entity, in_parent: None })
            == reset_input(w, connector_of(w, ev.input as int).parent as int, ev.input_index).push(SlotView::Vacant),
{
    let l = w.len() as Entity;
    let ci = connector_of(w, ev.input as int);
    let co = connector_of(w, ev.output as int);
    let p = co.parent as int;
    let q = ci.parent as int;
    let ts = node_of(w, p).targets.unwrap();
    let m = ts[ev.output_index as int];
    let w1 = w.push(SlotView::Line(event_line(ev)));
    let w2 = connect_w2(w, ev);
    let w3 = connect_w3(w, ev);
    assert(w2 == w1.update(ev.input as int, SlotView::Connector(conn_with(ci, ci.connections.push(l), false))));
    assert(is_connector(w2, ev.output as int));
    assert(connector_of(w2, ev.output as int) == co);
    assert(w3 == w2.update(ev.output as int, SlotView::Connector(conn_with(co, co.connections.push(l), co.free))));
    assert(connect_owner(w, ev) == Some(p));
    let m2 = tm_add(m, q as Entity, ev.input_index);
    let wc = spec_connect(w, ev);
    assert(wc == w3.update(p, SlotView::Node(set_targets(node_of(w, p), ts.update(ev.output_index as int, m2)))));
    let d = DisconnectEvent { connection: l, in_parent: None };
    assert(is_line(wc, l as int));
    assert(line_of(wc, l as int) == event_line(ev));
    // The input side: the input of `q` is reset, the connector is emptied.
    assert(is_connector(wc, ev.input as int));
    assert(connector_of(wc, ev.input as int) == conn_with(ci, ci.connections.push(l), false));
    assert(is_node(wc, q));
    assert(node_of(wc, q).inputs == node_of(w, q).inputs);
    assert(disconnect_in_parent(wc, d) == Some(q as Entity));
    let d1 = disconnect_w1(wc, d);
    assert(is_connector(d1, ev.output as int));
    assert(connector_of(d1, ev.output as int) == conn_with(co, co.connections.push(l), co.free));
    let d2 = disconnect_w2(wc, d);
    lemma_remove_value_push(co.connections, l);
    assert(connector_of(d2, ev.output as int) == co);
    assert(is_node(d2, p));
    assert(node_of(d2, p).targets == Some(ts.update(ev.output_index as int, m2)));
    assert(disconnect_owner(wc, d) == Some(p));
    // The target map gets back its former entry.
    let keys = tm_keys(m);
    keys.index_of_first_ensures(q as Entity);
    let m_back = match tm_pos(m2, q as Entity) {
        Some(k2) => {
            let entry = m2[k2].1;
            if entry.len() > 1 {
                tm_remove_index(m2, q as Entity, ev.input_index)
            } else {
                tm_remove(m2, q as Entity)
            }
        },
        None => m2,
    };
    match tm_pos(m, q as Entity) {
        Some(k) => {
            assert(tm_keys(m2) =~= keys);
            assert(tm_pos(m2, q as Entity) == Some(k));
            assert(m2[k].1 == m[k].1.push(ev.input_index));
            lemma_remove_value_push_last(m[k].1, ev.input_index);
            assert(m[k].0 == q as Entity);
            assert(m_back =~= m);
        },
        None => {
            assert(tm_keys(m2) =~= keys.push(q as Entity));
            assert forall|j: int| 0 <= j < keys.len() implies tm_keys(m2)[j] != q as Entity by {
                assert(!keys.contains(q as Entity));
                assert(tm_keys(m2)[j] == keys[j]);
            }
            lemma_first_index(tm_keys(m2), q as Entity, keys.len() as int);
            assert(tm_pos(m2, q as Entity) == Some(m.len() as int));
            assert(m_back =~= m);
        },
    }
    assert(ts.update(ev.output_index as int, m) =~= ts);
    let expected = reset_input(w, q, ev.input_index).push(SlotView::Vacant);
    let result = spec_disconnect(wc, d);
    let ts2 = node_of(d2, p).targets.unwrap();
    assert(ts2 == ts.update(ev.output_index as int, m2));
    assert(ts2[ev.output_index as int] == m2);
    let d3 = d2.update(p, SlotView::Node(set_targets(node_of(d2, p), ts2.update(ev.output_index as int, m_back))));
    assert(result == d3.update(l as int, SlotView::Vacant));
    assert(ts2.update(ev.output_index as int, m_back) =~= ts);
    assert(ci.connections =~= Seq::<Entity>::empty());
    assert(conn_with(ci, Seq::empty(), true) == ci);
    assert(conn_with(co, co.connections, co.free) == co);
    assert(result.len() == expected.len());
    assert forall|x: int| 0 <= x < result.len() implies result[x] == expected[x] by {
        if x == l as int {
        } else if x == p {
            if p == q {
                assert(node_of(d2, p) == set_inputs(set_targets(node_of(w, p), ts2), node_of(w, q).inputs.unwrap().update(ev.input_index as int, State::Unknown)));
            } else {
                assert(node_of(d2, p) == set_targets(node_of(w, p), ts2));
            }
        } else if x == q {
        } else if x == ev.input as int {
        } else if x == ev.output as int {
        } else {
            assert(result[x] == w[x]);
        }
    }
    assert(result =~= expected);
}

/// Write `x` goes to input `j` of component `g`.
pub open spec fn writes_to(x: Write, g: int, j: usize) -> bool {
    x.0 as int == g && x.1 == j
}

/// What input `j` of component `g` holds after the writes `ws`: the value
/// of the last write to it, or its former value where no write goes to it.
#[verifier::spinoff_prover]
#[verifier::rlimit(40)]
pub proof fn lemma_apply_writes_input(w: WorldView, ws: Seq<Write>, g: int, j: usize)
    requires
        is_node(w, g),
        node_of(w, g).inputs is Some,
        j < node_of(w, g).inputs.unwrap().len(),
    ensures
        is_node(apply_writes(w, ws), g),
        node_of(apply_writes(w, ws), g).inputs is Some,
        node_of(apply_writes(w, ws), g).inputs.unwrap().len() == node_of(w, g).inputs.unwrap().len(),
        (forall|k: int| 0 <= k < ws.len() ==> !writes_to(#[trigger] ws[k], g, j)) ==> node_of(
            apply_writes(w, ws),
            g,
        ).inputs.unwrap()[j as int] == node_of(w, g).inputs.unwrap()[j as int],
        forall|k: int|
            #![trigger ws[k]]
            0 <= k < ws.len() && writes_to(ws[k], g, j) && (forall|k2: int|
                k < k2 < ws.len() ==> !writes_to(#[trigger] ws[k2], g, j)) ==> node_of(
                apply_writes(w, ws),
                g,
            ).inputs.unwrap()[j as int] == ws[k].2,
    decreases ws.len(),
{
    if ws.len() > 0 {
        let ws0 = ws.drop_last();
        lemma_apply_writes_input(w, ws0, g, j);
        let v = apply_writes(w, ws0);
        let x = ws.last();
        assert forall|k: int| 0 <= k < ws0.len() implies ws0[k] == ws[k] by {}
        if (forall|k: int| 0 <= k < ws.len() ==> !writes_to(#[trigger] ws[k], g, j)) {
            assert(!writes_to(ws[ws.len() - 1], g, j));
            assert forall|k: int| 0 <= k < ws0.len() implies !writes_to(#[trigger] ws0[k], g, j) by {
                assert(!writes_to(ws[k], g, j));
            }
        }
        assert forall|k: int|
            #![trigger ws[k]]
            0 <= k < ws.len() && writes_to(ws[k], g, j) && (forall|k2: int|
                k < k2 < ws.len() ==> !writes_to(#[trigger] ws[k2], g, j)) implies node_of(
                apply_writes(w, ws),
                g,
            ).inputs.unwrap()[j as int] == ws[k].2 by {
            if k < ws.len() - 1 {
                assert(!writes_to(ws[ws.len() - 1], g, j));
                assert(ws0[k] == ws[k]);
                assert forall|k2: int| k < k2 < ws0.len() implies !writes_to(#[trigger] ws0[k2], g, j) by {
                    assert(ws0[k2] == ws[k2]);
                }
            }
        }
    }
}

/// An input that no output drives keeps its value through a propagation
/// step.
pub proof fn law_propagate_undriven(w: WorldView, g: int, j: usize)
    requires
        is_node(w, g),
        node_of(w, g).inputs is Some,
        j < node_of(w, g).inputs.unwrap().len(),
        forall|k: int| 0 <= k < world_writes(w).len() ==> !writes_to(#[trigger] world_writes(w)[k], g, j),
    ensures
        node_of(spec_propagate(w), g).inputs.unwrap()[j as int] == node_of(w, g).inputs.unwrap()[j as int],
{
    lemma_apply_writes_input(w, world_writes(w), g, j);
}

/// After a propagation step an input holds the value of the last output,
/// in the order of propagation, that drives it.
pub proof fn law_propagate_driven(w: WorldView, g: int, j: usize, k: int)
    requires
        is_node(w, g),
        node_of(w, g).inputs is Some,
        j < node_of(w, g).inputs.unwrap().len(),
        0 <= k < world_writes(w).len(),
        writes_to(world_writes(w)[k], g, j),
        forall|k2: int| k < k2 < world_writes(w).len() ==> !writes_to(#[trigger] world_writes(w)[k2], g, j),
    ensures
        node_of(spec_propagate(w), g).inputs.unwrap()[j as int] == world_writes(w)[k].2,
{
    lemma_apply_writes_input(w, world_writes(w), g, j);
}

} // verus!

verus! {

/// A propagation step changes input values only: every entity keeps its
/// kind, and every component keeps all but its input values, and as many
/// inputs as it had.
pub proof fn law_propagate_changes_inputs_only(w: WorldView)
    ensures
        same_but_inputs(spec_propagate(w), w),
{
    lemma_apply_writes_shape(w, world_writes(w));
}

} // verus!

verus! {

/// The components of a target map after updating the indices of one entry
/// are those before.
proof fn lemma_tm_keys_update(m: TargetSeq, k: int, x: (Entity, Seq<usize>))
    requires
        0 <= k < m.len(),
        x.0 == m[k].0,
    ensures
        tm_keys(m.update(k, x)) == tm_keys(m),
{
    assert(tm_keys(m.update(k, x)) =~= tm_keys(m));
}

/// The entry of `g` is the only one of `g` in a well-formed target map.
proof fn lemma_tm_pos_unique(m: TargetSeq, g: Entity, k: int)
    requires
        tm_wf(m),
        0 <= k < m.len(),
        m[k].0 == g,
    ensures
        tm_pos(m, g) == Some(k),
{
    assert forall|j: int| 0 <= j < k implies tm_keys(m)[j] != g by {
        assert(m[j].0 != m[k].0);
    }
    lemma_first_index(tm_keys(m), g, k);
}

/// The operations on a target map keep it well-formed (no component occurs
/// twice): adding an input, removing an input and removing a component.
/// After adding input `j` of `g`, the entry of `g` ends with `j`; after
/// removing `g`, it has no entry.
pub proof fn law_target_map_ops(m: TargetSeq, g: Entity, j: usize)
    requires
        tm_wf(m),
    ensures
        tm_wf(tm_add(m, g, j)),
        tm_wf(tm_remove(m, g)),
        tm_wf(tm_remove_index(m, g, j)),
        tm_pos(tm_add(m, g, j), g) matches Some(k) && tm_add(m, g, j)[k].1.last() == j,
        tm_pos(tm_remove(m, g), g) is None,
{
    let keys = tm_keys(m);
    keys.index_of_first_ensures(g);
    match tm_pos(m, g) {
        Some(k) => {
            let a = tm_add(m, g, j);
            lemma_tm_keys_update(m, k, (g, m[k].1.push(j)));
            assert forall|x: int, y: int| 0 <= x < y < a.len() implies a[x].0 != a[y].0 by {
                assert(a[x].0 == tm_keys(a)[x] && a[y].0 == tm_keys(a)[y]);
                assert(m[x].0 == keys[x] && m[y].0 == keys[y]);
            }
            assert(a[k].0 == g);
            lemma_tm_pos_unique(a, g, k);
            let r = tm_remove(m, g);
            assert(r == m.remove(k));
            assert forall|x: int, y: int| 0 <= x < y < r.len() implies r[x].0 != r[y].0 by {
                let x2 = if x < k { x } else { x + 1 };
                let y2 = if y < k { y } else { y + 1 };
                assert(r[x] == m[x2] && r[y] == m[y2]);
            }
            assert forall|x: int| 0 <= x < r.len() implies tm_keys(r)[x] != g by {
                let x2 = if x < k { x } else { x + 1 };
                assert(r[x] == m[x2]);
                assert(m[x2].0 != m[k].0);
            }
            lemma_no_index(tm_keys(r), g);
            let ri = tm_remove_index(m, g, j);
            lemma_tm_keys_update(m, k, (g, m[k].1.remove_value(j)));
            assert forall|x: int, y: int| 0 <= x < y < ri.len() implies ri[x].0 != ri[y].0 by {
                assert(ri[x].0 == tm_keys(ri)[x] && ri[y].0 == tm_keys(ri)[y]);
                assert(m[x].0 == keys[x] && m[y].0 == keys[y]);
            }
        },
        None => {
            let a = tm_add(m, g, j);
            assert(!keys.contains(g));
            assert forall|x: int| 0 <= x < m.len() implies m[x].0 != g by {
                assert(keys[x] == m[x].0);
            }
            assert forall|x: int, y: int| 0 <= x < y < a.len() implies a[x].0 != a[y].0 by {
                if y == m.len() {
                    assert(a[x] == m[x]);
                }
            }
            lemma_tm_pos_unique(a, g, m.len() as int);
            assert(tm_remove(m, g) == m);
            lemma_no_index(tm_keys(m), g);
        },
    }
}

} // verus!

verus! {

/// Every target map of every component of `w` is well-formed: no component
/// occurs twice in one.
pub open spec fn targets_wf(w: WorldView) -> bool {
    forall|e: int, i: int| #![trigger node_of(w, e).targets.unwrap()[i]]
        is_node(w, e) && node_of(w, e).targets is Some && 0 <= i < node_of(w, e).targets.unwrap().len()
            ==> tm_wf(node_of(w, e).targets.unwrap()[i])
}

/// A world whose components are those of `w`, unchanged.
pub open spec fn same_nodes(w: WorldView, w2: WorldView) -> bool {
    forall|e: int| #![trigger w2[e]] is_node(w2, e) ==> is_node(w, e) && w2[e] == w[e]
}

/// Well-formed target maps stay so where no component changes.
proof fn lemma_targets_wf_same_nodes(w: WorldView, w2: WorldView)
    requires
        targets_wf(w),
        same_nodes(w, w2),
    ensures
        targets_wf(w2),
{
    assert forall|e: int, i: int| #![trigger node_of(w2, e).targets.unwrap()[i]]
        is_node(w2, e) && node_of(w2, e).targets is Some && 0 <= i < node_of(w2, e).targets.unwrap().len()
        implies tm_wf(node_of(w2, e).targets.unwrap()[i]) by {
        assert(w2[e] == w[e]);
        assert(node_of(w, e).targets.unwrap()[i] == node_of(w2, e).targets.unwrap()[i]);
    }
}

/// Connecting keeps every target map well-formed.
pub proof fn law_connect_keeps_targets_wf(w: WorldView, ev: ConnectEvent)
    requires
        targets_wf(w),
        connect_ok(w, ev),
    ensures
        targets_wf(spec_connect(w, ev)),
{
    let w3 = connect_w3(w, ev);
    assert(same_nodes(w, w3)) by {
        assert forall|e: int| #![trigger w3[e]] is_node(w3, e) implies is_node(w, e) && w3[e] == w[e] by {
            let w1 = w.push(SlotView::Line(event_line(ev)));
            let w2 = connect_w2(w, ev);
            if e < w.len() {
                assert(w1[e] == w[e]);
            }
        }
    }
    lemma_targets_wf_same_nodes(w, w3);
    match connect_owner(w, ev) {
        Some(p) => {
            let r = spec_connect(w, ev);
            let n = node_of(w3, p);
            let ts = n.targets.unwrap();
            let in_parent = connector_of(w, ev.input as int).parent;
            law_target_map_ops(ts[ev.output_index as int], in_parent, ev.input_index);
            assert forall|e: int, i: int| #![trigger node_of(r, e).targets.unwrap()[i]]
                is_node(r, e) && node_of(r, e).targets is Some && 0 <= i < node_of(r, e).targets.unwrap().len()
                implies tm_wf(node_of(r, e).targets.unwrap()[i]) by {
                if e == p {
                    if i != ev.output_index {
                        assert(node_of(r, e).targets.unwrap()[i] == ts[i]);
                        assert(tm_wf(node_of(w3, e).targets.unwrap()[i]));
                    }
                } else {
                    assert(r[e] == w3[e]);
                    assert(tm_wf(node_of(w3, e).targets.unwrap()[i]));
                }
            }
        },
        None => {},
    }
}

/// Disconnecting keeps every target map well-formed.
pub proof fn law_disconnect_keeps_targets_wf(w: WorldView, ev: DisconnectEvent)
    requires
        targets_wf(w),
        disconnect_ok(w, ev),
    ensures
        targets_wf(spec_disconnect(w, ev)),
{
    if is_line(w, ev.connection as int) {
        let line = line_of(w, ev.connection as int);
        let w1 = disconnect_w1(w, ev);
        let w2 = disconnect_w2(w, ev);
        // Unlinking the input changes input values only.
        assert(targets_wf(w1)) by {
            assert forall|e: int, i: int| #![trigger node_of(w1, e).targets.unwrap()[i]]
                is_node(w1, e) && node_of(w1, e).targets is Some && 0 <= i < node_of(w1, e).targets.unwrap().len()
                implies tm_wf(node_of(w1, e).targets.unwrap()[i]) by {
                if is_connector(w, line.input.entity as int) {
                    let p = connector_of(w, line.input.entity as int).parent as int;
                    if e != line.input.entity as int && e != p {
                        assert(w1[e] == w[e]);
                    }
                    if e == p {
                        assert(node_of(w1, e).targets == node_of(w, e).targets);
                    }
                }
                assert(node_of(w1, e).targets == node_of(w, e).targets);
                assert(tm_wf(node_of(w, e).targets.unwrap()[i]));
            }
        }
        assert(same_nodes(w1, w2)) by {
            assert forall|e: int| #![trigger w2[e]] is_node(w2, e) implies is_node(w1, e) && w2[e] == w1[e] by {
                if e != line.output.entity as int {
                    assert(w2[e] == w1[e]);
                }
            }
        }
        lemma_targets_wf_same_nodes(w1, w2);
        let w3 = match disconnect_owner(w, ev) {
            Some(q) => {
                let n = node_of(w2, q);
                let ts = n.targets.unwrap();
                let parent = disconnect_in_parent(w, ev).unwrap();
                let m = ts[line.output.index as int];
                law_target_map_ops(m, parent, line.input.index);
                let entry = m[tm_pos(m, parent).unwrap()].1;
                let m2 = if entry.len() > 1 {
                    tm_remove_index(m, parent, line.input.index)
                } else {
                    tm_remove(m, parent)
                };
                let w3 = w2.update(q, SlotView::Node(set_targets(n, ts.update(line.output.index as int, m2))));
                assert forall|e: int, i: int| #![trigger node_of(w3, e).targets.unwrap()[i]]
                    is_node(w3, e) && node_of(w3, e).targets is Some && 0 <= i < node_of(w3, e).targets.unwrap().len()
                    implies tm_wf(node_of(w3, e).targets.unwrap()[i]) by {
                    if e == q {
                        if i != line.output.index {
                            assert(node_of(w3, e).targets.unwrap()[i] == ts[i]);
                            assert(tm_wf(node_of(w2, e).targets.unwrap()[i]));
                        }
                    } else {
                        assert(w3[e] == w2[e]);
                        assert(tm_wf(node_of(w2, e).targets.unwrap()[i]));
                    }
                }
                w3
            },
            None => w2,
        };
        let r = w3.update(ev.connection as int, SlotView::Vacant);
        assert(r == spec_disconnect(w, ev));
        assert(same_nodes(w3, r)) by {
            assert forall|e: int| #![trigger r[e]] is_node(r, e) implies is_node(w3, e) && r[e] == w3[e] by {
                assert(e != ev.connection as int);
            }
        }
        lemma_targets_wf_same_nodes(w3, r);
    }
}

} // verus!

verus! {

/// Despawning keeps the number of entities.
pub proof fn lemma_vacate_len(w: WorldView, ks: Seq<Entity>)
    ensures
        vacate_seq(w, ks).len() == w.len(),
    decreases ks.len(),
{
    if ks.len() > 0 {
        lemma_vacate_len(w, ks.drop_last());
    }
}

/// Despawning the entities `ks` vacates exactly those of them that are
/// entities of `w`.
pub proof fn lemma_vacate_seq_at(w: WorldView, ks: Seq<Entity>, x: int)
    requires
        0 <= x < w.len(),
        w.len() <= usize::MAX + 1,
    ensures
        vacate_seq(w, ks).len() == w.len(),
        vacate_seq(w, ks)[x] == (if ks.contains(x as Entity) {
            SlotView::Vacant
        } else {
            w[x]
        }),
    decreases ks.len(),
{
    if ks.len() > 0 {
        lemma_vacate_seq_at(w, ks.drop_last(), x);
        if ks.drop_last().contains(x as Entity) {
            let j = choose|j: int| 0 <= j < ks.drop_last().len() && ks.drop_last()[j] == x as Entity;
            assert(ks[j] == x as Entity);
        }
        if ks.contains(x as Entity) && !ks.drop_last().contains(x as Entity) {
            let j = choose|j: int| 0 <= j < ks.len() && ks[j] == x as Entity;
            if j < ks.len() - 1 {
                assert(ks.drop_last()[j] == x as Entity);
            }
        }
        if ks.last() == x as Entity {
            assert(ks[ks.len() - 1] == x as Entity);
        }
    }
}

/// An element of one of the sequences `ss` is in their concatenation.
pub proof fn lemma_concat_contains<A>(ss: Seq<Seq<A>>, k: int, j: int)
    requires
        0 <= k < ss.len(),
        0 <= j < ss[k].len(),
    ensures
        concat(ss).contains(ss[k][j]),
    decreases ss.len(),
{
    if k < ss.len() - 1 {
        lemma_concat_contains(ss.drop_last(), k, j);
        let c = concat(ss.drop_last());
        let i = choose|i: int| 0 <= i < c.len() && c[i] == ss[k][j];
        assert(concat(ss)[i] == c[i]);
    } else {
        let c = concat(ss.drop_last());
        assert(concat(ss)[c.len() + j] == ss[k][j]);
    }
}

/// Changing the number of inputs of a gate to `to` leaves it with `to`
/// input values, the first of them as they were and the new ones
/// `Unknown`, and a gate component that counts `to` inputs.
pub proof fn law_resize_counts(w: WorldView, g: Entity, to: u32)
    requires
        resizable(w, g),
        w.len() <= usize::MAX,
    ensures
        ({
            let r = spec_resize_world(w, g, to);
            let old_in = node_of(w, g as int).inputs.unwrap();
            let new_in = node_of(r, g as int).inputs.unwrap();
            &&& is_node(r, g as int)
            &&& node_of(r, g as int).inputs is Some
            &&& new_in.len() == to
            &&& node_of(r, g as int).gate.unwrap().inputs == to
            &&& forall|j: int| 0 <= j < to && j < old_in.len() ==> new_in[j] == old_in[j]
            &&& forall|j: int| old_in.len() <= j < to ==> new_in[j] == State::Unknown
        }),
{
    let n = node_of(w, g as int);
    let ch = n.children;
    let ds = dropped_children(w, ch, to);
    let mx = max_kept(w, ch, to);
    let cnt = added_count(mx, to);
    let gt = n.gate.unwrap();
    let n2 = NodeView {
        kind: n.kind,
        name: n.name,
        gate: Some(Gate { inputs: to, outputs: gt.outputs, in_range: gt.in_range, out_range: gt.out_range }),
        inputs: Some(resize_states(n.inputs.unwrap(), to as nat)),
        outputs: n.outputs,
        transitions: n.transitions,
        targets: n.targets,
        clock: n.clock,
        placement: n.placement,
        children: kept_children(w, ch, to) + Seq::new(cnt, |k: int| (w.len() + k) as Entity),
    };
    let wu = w.update(g as int, SlotView::Node(n2));
    lemma_dropped_children(w, ch, to);
    lemma_vacate_seq_at(wu, ds, g as int);
    if ds.contains(g) {
        let j = choose|j: int| 0 <= j < ds.len() && ds[j] == g;
        assert(dropped(w, ds[j], to));
    }
    let v = vacate_seq(wu, ds);
    let r = spec_resize_world(w, g, to);
    assert(r[g as int] == v[g as int]);
}

} // verus!

verus! {

/// Entity `c` of `w` is an input connector with index `i`.
pub open spec fn input_conn(w: WorldView, c: Entity, i: usize) -> bool {
    is_connector(w, c as int) && connector_of(w, c as int).connector == (Connector { ctype: ConnectorType::In, index: i })
}

/// One of the entities `ch` is an input connector with index `i`.
pub open spec fn has_input_conn(w: WorldView, ch: Seq<Entity>, i: usize) -> bool {
    exists|c: Entity| #[trigger] ch.contains(c) && input_conn(w, c, i)
}

/// The input connectors among the entities `ch` (each listed once) are
/// numbered `0` to `n - 1`, one for each number.
pub open spec fn inputs_numbered(w: WorldView, ch: Seq<Entity>, n: nat) -> bool {
    &&& ch.no_duplicates()
    &&& forall|c: Entity, i: usize| #![trigger ch.contains(c), input_conn(w, c, i)]
        ch.contains(c) && input_conn(w, c, i) ==> i < n
    &&& forall|i: usize| i < n ==> #[trigger] has_input_conn(w, ch, i)
    &&& forall|c1: Entity, c2: Entity, i: usize| #![trigger input_conn(w, c1, i), input_conn(w, c2, i)]
        ch.contains(c1) && ch.contains(c2) && input_conn(w, c1, i) && input_conn(w, c2, i) ==> c1 == c2
}

/// The greatest index below `to` of the input connectors among `ch` bounds
/// every such index, and is one of them unless it is 0.
pub proof fn lemma_max_kept(w: WorldView, ch: Seq<Entity>, to: u32)
    ensures
        forall|c: Entity, i: usize| ch.contains(c) && input_conn(w, c, i) && i < to ==> i <= max_kept(w, ch, to),
        max_kept(w, ch, to) == 0 || (max_kept(w, ch, to) < to && exists|c: Entity| ch.contains(c) && input_conn(
            w,
            c,
            max_kept(w, ch, to),
        )),
    decreases ch.len(),
{
    if ch.len() > 0 {
        let d = ch.drop_last();
        lemma_max_kept(w, d, to);
        let m = max_kept(w, d, to);
        let l = ch.last();
        assert forall|c: Entity, i: usize| ch.contains(c) && input_conn(w, c, i) && i < to implies i <= max_kept(w, ch, to) by {
            let k = choose|k: int| 0 <= k < ch.len() && ch[k] == c;
            if k < ch.len() - 1 {
                assert(d[k] == c);
            }
        }
        if max_kept(w, ch, to) != m {
            assert(ch[ch.len() - 1] == l);
            assert(ch.contains(l));
            assert(input_conn(w, l, max_kept(w, ch, to)));
            assert(max_kept(w, ch, to) < to);
        } else if m != 0 {
            let c = choose|c: Entity| d.contains(c) && input_conn(w, c, m);
            let k = choose|k: int| 0 <= k < d.len() && d[k] == c;
            assert(ch[k] == c);
            assert(ch.contains(c));
            assert(input_conn(w, c, max_kept(w, ch, to)));
        }
    }
}

/// The entities kept of `ch`, each once where `ch` lists each once, are
/// those of `ch` that do not go.
pub proof fn lemma_kept_children(w: WorldView, ch: Seq<Entity>, to: u32)
    ensures
        forall|c: Entity|
            #![trigger kept_children(w, ch, to).contains(c)]
            #![trigger ch.contains(c)]
            kept_children(w, ch, to).contains(c) <==> ch.contains(c) && !dropped(w, c, to),
        ch.no_duplicates() ==> kept_children(w, ch, to).no_duplicates(),
    decreases ch.len(),
{
    if ch.len() > 0 {
        let d = ch.drop_last();
        lemma_kept_children(w, d, to);
        let r = kept_children(w, d, to);
        let l = ch.last();
        assert forall|c: Entity| kept_children(w, ch, to).contains(c) <==> ch.contains(c) && !dropped(w, c, to) by {
            if ch.contains(c) {
                let k = choose|k: int| 0 <= k < ch.len() && ch[k] == c;
                if k < ch.len() - 1 {
                    assert(d[k] == c);
                }
            }
            if d.contains(c) {
                let k = choose|k: int| 0 <= k < d.len() && d[k] == c;
                assert(ch[k] == c);
            }
            if !dropped(w, l, to) {
                assert(r.push(l)[r.len() as int] == l);
                if r.push(l).contains(c) && c != l {
                    let k = choose|k: int| 0 <= k < r.push(l).len() && r.push(l)[k] == c;
                    assert(r[k] == c);
                }
                if r.contains(c) {
                    let k = choose|k: int| 0 <= k < r.len() && r[k] == c;
                    assert(r.push(l)[k] == c);
                }
            }
            assert(ch[ch.len() - 1] == l);
        }
        if ch.no_duplicates() && !dropped(w, l, to) {
            assert(d.no_duplicates()) by {
                assert forall|a: int, b: int| 0 <= a < b < d.len() implies d[a] != d[b] by {
                    assert(ch[a] == d[a] && ch[b] == d[b]);
                }
            }
            assert(!d.contains(l)) by {
                if d.contains(l) {
                    let k = choose|k: int| 0 <= k < d.len() && d[k] == l;
                    assert(ch[k] == l && ch[ch.len() - 1] == l);
                }
            }
            assert forall|a: int, b: int| 0 <= a < b < r.push(l).len() implies r.push(l)[a] != r.push(l)[b] by {
                if b == r.len() {
                    assert(r.contains(r[a]));
                }
            }
        } else if ch.no_duplicates() {
            assert(d.no_duplicates()) by {
                assert forall|a: int, b: int| 0 <= a < b < d.len() implies d[a] != d[b] by {
                    assert(ch[a] == d[a] && ch[b] == d[b]);
                }
            }
        }
    }
}


/// After a resize of gate `g` to `to` inputs, its connectors are the kept
/// ones followed by the new entities `w.len() + k`; a kept connector is as it
/// was, and entity `w.len() + k` is a fresh input connector with index
/// `max_kept + 1 + k`.
proof fn lemma_resize_slots(w: WorldView, g: Entity, to: u32)
    requires
        resizable(w, g),
        w.len() + to <= usize::MAX,
        forall|j: int|
            0 <= j < node_of(w, g as int).children.len() ==> #[trigger] node_of(w, g as int).children[j] < w.len(),
    ensures
        ({
            let ch = node_of(w, g as int).children;
            let r = spec_resize_world(w, g, to);
            let mx = max_kept(w, ch, to);
            let cnt = added_count(mx, to);
            &&& r.len() == w.len() + cnt
            &&& is_node(r, g as int)
            &&& node_of(r, g as int).children == kept_children(w, ch, to) + Seq::new(
                cnt,
                |k: int| (w.len() + k) as Entity,
            )
            &&& forall|c: Entity, i: usize|
                #![trigger kept_children(w, ch, to).contains(c), input_conn(r, c, i)]
                kept_children(w, ch, to).contains(c) ==> (input_conn(r, c, i) <==> input_conn(w, c, i))
            &&& forall|k: int|
                0 <= k < cnt ==> #[trigger] r[w.len() + k] == fresh_connector(
                    g,
                    Connector { ctype: ConnectorType::In, index: (mx + 1 + k) as usize },
                )
        }),
{
    let n = node_of(w, g as int);
    let ch = n.children;
    let ds = dropped_children(w, ch, to);
    let mx = max_kept(w, ch, to);
    let cnt = added_count(mx, to);
    let gt = n.gate.unwrap();
    let n2 = NodeView {
        kind: n.kind,
        name: n.name,
        gate: Some(Gate { inputs: to, outputs: gt.outputs, in_range: gt.in_range, out_range: gt.out_range }),
        inputs: Some(resize_states(n.inputs.unwrap(), to as nat)),
        outputs: n.outputs,
        transitions: n.transitions,
        targets: n.targets,
        clock: n.clock,
        placement: n.placement,
        children: kept_children(w, ch, to) + Seq::new(cnt, |k: int| (w.len() + k) as Entity),
    };
    let wu = w.update(g as int, SlotView::Node(n2));
    let v = vacate_seq(wu, ds);
    let r = spec_resize_world(w, g, to);
    lemma_dropped_children(w, ch, to);
    lemma_kept_children(w, ch, to);
    lemma_vacate_seq_at(wu, ds, g as int);
    if ds.contains(g) {
        let j = choose|j: int| 0 <= j < ds.len() && ds[j] == g;
        assert(dropped(w, ds[j], to));
    }
    assert(r[g as int] == v[g as int]);
    assert forall|c: Entity, i: usize|
        #![trigger kept_children(w, ch, to).contains(c), input_conn(r, c, i)]
        kept_children(w, ch, to).contains(c) implies (input_conn(r, c, i) <==> input_conn(w, c, i)) by {
        assert(kept_children(w, ch, to).contains(c) <==> ch.contains(c) && !dropped(w, c, to));
        let j = choose|j: int| 0 <= j < ch.len() && ch[j] == c;
        assert(ch[j] < w.len());
        assert(c < w.len());
        lemma_vacate_seq_at(wu, ds, c as int);
        if ds.contains(c) {
            let k = choose|k: int| 0 <= k < ds.len() && ds[k] == c;
            assert(dropped(w, ds[k], to));
        }
        assert(r[c as int] == v[c as int]);
    }
    assert forall|k: int| 0 <= k < cnt implies #[trigger] r[w.len() + k] == fresh_connector(
        g,
        Connector { ctype: ConnectorType::In, index: (mx + 1 + k) as usize },
    ) by {
        assert(r[w.len() + k] == r[v.len() + k]);
    }
}

/// Where the input connectors of gate `g` are numbered `0` to `n - 1`, for
/// some `n` of at least 1, they are numbered `0` to `to - 1` after its number
/// of inputs becomes `to`.
pub proof fn law_resize_numbering(w: WorldView, g: Entity, to: u32, n: nat)
    requires
        resizable(w, g),
        w.len() + to <= usize::MAX,
        forall|j: int|
            0 <= j < node_of(w, g as int).children.len() ==> #[trigger] node_of(w, g as int).children[j] < w.len(),
        n >= 1,
        inputs_numbered(w, node_of(w, g as int).children, n),
    ensures
        ({
            let r = spec_resize_world(w, g, to);
            &&& is_node(r, g as int)
            &&& inputs_numbered(r, node_of(r, g as int).children, to as nat)
        }),
{
    let ch = node_of(w, g as int).children;
    let r = spec_resize_world(w, g, to);
    let mx = max_kept(w, ch, to);
    let cnt = added_count(mx, to);
    let kc = kept_children(w, ch, to);
    let fr = Seq::new(cnt, |k: int| (w.len() + k) as Entity);
    let nc = kc + fr;
    lemma_resize_slots(w, g, to);
    lemma_kept_children(w, ch, to);
    lemma_max_kept(w, ch, to);
    assert(node_of(r, g as int).children == nc);
    assert forall|c: Entity| kc.contains(c) implies c < w.len() by {
        assert(kc.contains(c) <==> ch.contains(c) && !dropped(w, c, to));
        let j = choose|j: int| 0 <= j < ch.len() && ch[j] == c;
        assert(ch[j] < w.len());
    }
    assert forall|c: Entity| #[trigger] nc.contains(c) <==> (kc.contains(c) || (w.len() <= c < w.len() + cnt)) by {
        if nc.contains(c) {
            let j = choose|j: int| 0 <= j < nc.len() && nc[j] == c;
            if j < kc.len() {
                assert(kc[j] == c);
            } else {
                assert(fr[j - kc.len()] == c);
            }
        }
        if kc.contains(c) {
            let j = choose|j: int| 0 <= j < kc.len() && kc[j] == c;
            assert(nc[j] == c);
        }
        if w.len() <= c < w.len() + cnt {
            assert(nc[kc.len() + (c - w.len())] == c);
        }
    }
    assert forall|c: Entity, i: usize|
        w.len() <= c < w.len() + cnt implies (#[trigger] input_conn(r, c, i) <==> i == mx + 1 + (c - w.len())) by {
        let k = c - w.len();
        assert(r[w.len() + k] == fresh_connector(g, Connector { ctype: ConnectorType::In, index: (mx + 1 + k) as usize }));
    }
    // Each entity is listed once.
    assert forall|a: int, b: int| 0 <= a < b < nc.len() implies nc[a] != nc[b] by {
        if b < kc.len() {
            assert(nc[a] == kc[a] && nc[b] == kc[b]);
        } else if a < kc.len() {
            assert(kc.contains(kc[a]));
            assert(nc[b] == fr[b - kc.len()]);
        } else {
            assert(nc[a] == fr[a - kc.len()] && nc[b] == fr[b - kc.len()]);
        }
    }
    // Every index is below `to`.
    assert forall|c: Entity, i: usize| nc.contains(c) && input_conn(r, c, i) implies i < to by {
        if kc.contains(c) {
            assert(input_conn(w, c, i));
            assert(!dropped(w, c, to));
        }
    }
    // Two connectors with one index are one.
    assert forall|c1: Entity, c2: Entity, i: usize|
        nc.contains(c1) && nc.contains(c2) && input_conn(r, c1, i) && input_conn(r, c2, i) implies c1 == c2 by {
        if kc.contains(c1) {
            assert(input_conn(w, c1, i));
            assert(!dropped(w, c1, to));
            assert(ch.contains(c1));
        }
        if kc.contains(c2) {
            assert(input_conn(w, c2, i));
            assert(!dropped(w, c2, to));
            assert(ch.contains(c2));
        }
    }
    // Every index below `to` has its connector.
    assert forall|i: usize| i < to implies #[trigger] has_input_conn(r, nc, i) by {
        if (i as int) < n {
            assert(has_input_conn(w, ch, i));
            let c = choose|c: Entity| ch.contains(c) && input_conn(w, c, i);
            assert(!dropped(w, c, to));
            assert(kc.contains(c));
            assert(nc.contains(c) && input_conn(r, c, i));
        } else {
            let top = (n - 1) as usize;
            assert(has_input_conn(w, ch, top));
            let c = choose|c: Entity| ch.contains(c) && input_conn(w, c, top);
            assert(top <= mx);
            if mx != 0 {
                let c2 = choose|c2: Entity| ch.contains(c2) && input_conn(w, c2, mx);
                assert(mx < n);
            }
            assert(mx == top);
            let e = (w.len() + (i - n)) as Entity;
            assert(nc.contains(e));
            assert(input_conn(r, e, i));
        }
    }
}


/// A component spawned as a logic gate or a constant has one transition
/// function, and it computes what the kind names. On inputs that are all
/// known the output is known, and it is `High` exactly when: every input is
/// `High` (AND); some input is `Low` (NAND); some input is `High` (OR);
/// every input is `Low` (NOR); an odd number of inputs is `High` (XOR); the
/// input is `Low` (NOT). A HIGH constant outputs `High`, a LOW constant
/// `Low`.
pub proof fn law_spawned_gate_computes(
    kind: NodeType,
    ins: usize,
    outs: usize,
    state: State,
    timing: ClockTiming,
    placement: Placement,
    s: Seq<State>,
)
    requires
        s.len() >= 1,
        !s.contains(State::Unknown),
        is_gate_kind(kind),
        kind != NodeType::Xnor,
    ensures
        ({
            let n = kind_node(kind, ins, outs, state, timing, placement);
            let v = spec_apply(n.transitions.unwrap()[0], s);
            &&& n.transitions is Some
            &&& n.transitions.unwrap().len() == 1
            &&& v != State::Unknown
            &&& kind == NodeType::And ==> (v == State::High <==> forall|i: int| 0 <= i < s.len() ==> s[i] == State::High)
            &&& kind == NodeType::Nand ==> (v == State::High <==> exists|i: int| 0 <= i < s.len() && s[i] == State::Low)
            &&& kind == NodeType::Or ==> (v == State::High <==> exists|i: int| 0 <= i < s.len() && s[i] == State::High)
            &&& kind == NodeType::Nor ==> (v == State::High <==> forall|i: int| 0 <= i < s.len() ==> s[i] == State::Low)
            &&& kind == NodeType::Xor ==> (v == State::High <==> count_high(s) % 2 == 1)
            &&& kind == NodeType::Not ==> (v == State::High <==> s[0] == State::Low)
            &&& kind == NodeType::HighConst ==> v == State::High
            &&& kind == NodeType::LowConst ==> v == State::Low
        }),
{
    assert(forall|i: int| 0 <= i < s.len() ==> s[i] != State::Unknown);
    assert((forall|i: int| 0 <= i < s.len() ==> s[i] == State::High) <==> !s.contains(State::Low));
    assert((forall|i: int| 0 <= i < s.len() ==> s[i] == State::Low) <==> !s.contains(State::High));
    assert(s.contains(s[0]));
}


/// Every element of a concatenation is an element of one of its parts.
pub proof fn lemma_concat_has<A>(ss: Seq<Seq<A>>, x: A)
    requires
        concat(ss).contains(x),
    ensures
        exists|k: int, j: int| 0 <= k < ss.len() && 0 <= j < ss[k].len() && #[trigger] ss[k][j] == x,
    decreases ss.len(),
{
    let c = concat(ss.drop_last());
    let i = choose|i: int| 0 <= i < concat(ss).len() && concat(ss)[i] == x;
    if i < c.len() {
        assert(c[i] == x);
        lemma_concat_has(ss.drop_last(), x);
        let (k, j) = choose|k: int, j: int| 0 <= k < ss.drop_last().len() && 0 <= j < ss.drop_last()[k].len() && #[trigger] ss.drop_last()[k][j] == x;
        assert(ss[k][j] == x);
    } else {
        assert(ss[ss.len() - 1][i - c.len()] == x);
    }
}

/// Every write of a propagation step goes to an input that a target map of
/// an output names, and carries that output's value.
proof fn lemma_world_write_source(w: WorldView, x: Write)
    requires
        propagate_ok(w),
        targets_wf(w),
        world_writes(w).contains(x),
    ensures
        exists|p: int, i: int| #[trigger] has_target(w, p, i, x.0, x.1) && 0 <= i < node_of(w, p).outputs.unwrap().len()
            && node_of(w, p).outputs is Some && node_of(w, p).outputs.unwrap()[i] == x.2,
{
    let ss = w.map_values(|sl: SlotView| slot_writes(sl));
    lemma_concat_has(ss, x);
    let (p, j1) = choose|k: int, j: int| 0 <= k < ss.len() && 0 <= j < ss[k].len() && #[trigger] ss[k][j] == x;
    assert(ss[p] == slot_writes(w[p]));
    assert(w[p] is Node);
    assert(is_node(w, p));
    let n = node_of(w, p);
    let outs = n.outputs.unwrap();
    let ts = n.targets.unwrap();
    let os = Seq::new(outs.len(), |i: int| output_writes(ts[i], outs[i]));
    assert(node_writes(n) == concat(os));
    assert(concat(os)[j1] == x);
    lemma_concat_has(os, x);
    let (i, j2) = choose|k: int, j: int| 0 <= k < os.len() && 0 <= j < os[k].len() && #[trigger] os[k][j] == x;
    let m = ts[i];
    let v = outs[i];
    let es = m.map_values(|e: (Entity, Seq<usize>)| index_writes(e.0, e.1, v));
    assert(os[i] == concat(es));
    lemma_concat_has(es, x);
    let (xe, j3) = choose|k: int, j: int| 0 <= k < es.len() && 0 <= j < es[k].len() && #[trigger] es[k][j] == x;
    assert(es[xe][j3] == (m[xe].0, m[xe].1[j3], v));
    assert(i < ts.len());
    assert(tm_wf(m));
    lemma_tm_pos_unique(m, x.0, xe);
    assert(m[xe].1.contains(x.1));
    assert(has_target(w, p, i, x.0, x.1));
}

/// An output whose target map names an input writes its value to it.
proof fn lemma_target_write(w: WorldView, p: int, i: int, g: Entity, j: usize)
    requires
        has_target(w, p, i, g, j),
        node_of(w, p).outputs is Some,
        0 <= i < node_of(w, p).outputs.unwrap().len(),
    ensures
        world_writes(w).contains((g, j, node_of(w, p).outputs.unwrap()[i])),
{
    let n = node_of(w, p);
    let outs = n.outputs.unwrap();
    let ts = n.targets.unwrap();
    let v = outs[i];
    let m = ts[i];
    let xe = tm_pos(m, g).unwrap();
    let jj = choose|jj: int| 0 <= jj < m[xe].1.len() && m[xe].1[jj] == j;
    let es = m.map_values(|e: (Entity, Seq<usize>)| index_writes(e.0, e.1, v));
    lemma_find_first_key(m, g);
    assert(es[xe][jj] == (g, j, v));
    lemma_concat_contains(es, xe, jj);
    let os = Seq::new(outs.len(), |k: int| output_writes(ts[k], outs[k]));
    let y = choose|y: int| 0 <= y < os[i].len() && os[i][y] == (g, j, v);
    lemma_concat_contains(os, i, y);
    let ss = w.map_values(|sl: SlotView| slot_writes(sl));
    assert(ss[p] == node_writes(n));
    let z = choose|z: int| 0 <= z < ss[p].len() && ss[p][z] == (g, j, v);
    lemma_concat_contains(ss, p, z);
}

/// The position found for a key holds that key.
proof fn lemma_find_first_key(m: TargetSeq, g: Entity)
    requires
        tm_pos(m, g) is Some,
    ensures
        0 <= tm_pos(m, g).unwrap() < m.len(),
        m[tm_pos(m, g).unwrap()].0 == g,
{
    tm_keys(m).index_of_first_ensures(g);
    let k = tm_pos(m, g).unwrap();
    assert(tm_keys(m)[k] == g);
}

/// Among writes with one to input `j` of `g` at `k0`, there is a last one.
proof fn lemma_last_write(ws: Seq<Write>, g: int, j: usize, k0: int)
    requires
        0 <= k0 < ws.len(),
        writes_to(ws[k0], g, j),
    ensures
        exists|k: int| #![trigger ws[k]] k0 <= k < ws.len() && writes_to(ws[k], g, j) && forall|k2: int|
            k < k2 < ws.len() ==> !writes_to(#[trigger] ws[k2], g, j),
    decreases ws.len() - k0,
{
    if exists|k1: int| k0 < k1 < ws.len() && writes_to(#[trigger] ws[k1], g, j) {
        let k1 = choose|k1: int| k0 < k1 < ws.len() && writes_to(#[trigger] ws[k1], g, j);
        lemma_last_write(ws, g, j, k1);
    } else {
        assert(ws[k0] == ws[k0]);
    }
}

/// After a propagation step, an input that one output drives (its target
/// map names the input, and no other output's does) holds the value that
/// output had, whatever the value.
pub proof fn law_propagate_delivers(w: WorldView, p: int, i: int, g: Entity, j: usize)
    requires
        propagate_ok(w),
        targets_wf(w),
        has_target(w, p, i, g, j),
        node_of(w, p).outputs is Some,
        0 <= i < node_of(w, p).outputs.unwrap().len(),
        input_of(w, g as int, j) is Some,
        forall|p2: int, i2: int|
            #[trigger] has_target(w, p2, i2, g, j) && node_of(w, p2).outputs is Some && 0 <= i2 < node_of(
                w,
                p2,
            ).outputs.unwrap().len() ==> p2 == p && i2 == i,
    ensures
        input_of(spec_propagate(w), g as int, j) == Some(node_of(w, p).outputs.unwrap()[i]),
{
    let ws = world_writes(w);
    let v = node_of(w, p).outputs.unwrap()[i];
    lemma_target_write(w, p, i, g, j);
    let k0 = choose|k0: int| 0 <= k0 < ws.len() && ws[k0] == (g, j, v);
    lemma_last_write(ws, g as int, j, k0);
    let k = choose|k: int| #![trigger ws[k]] k0 <= k < ws.len() && writes_to(ws[k], g as int, j) && forall|k2: int|
        k < k2 < ws.len() ==> !writes_to(#[trigger] ws[k2], g as int, j);
    law_propagate_driven(w, g as int, j, k);
    assert(ws.contains(ws[k]));
    lemma_world_write_source(w, ws[k]);
    let (p2, i2) = choose|p2: int, i2: int| #[trigger] has_target(w, p2, i2, ws[k].0, ws[k].1) && 0 <= i2
        < node_of(w, p2).outputs.unwrap().len() && node_of(w, p2).outputs is Some && node_of(w, p2).outputs.unwrap()[i2]
        == ws[k].2;
    assert(ws[k].0 == g && ws[k].1 == j);
    assert(p2 == p && i2 == i);
    lemma_apply_writes_input(w, ws, g as int, j);
    assert(ws[k].2 == v);
}


/// After a propagation step, an input that no output's target map names
/// keeps the value it had.
pub proof fn law_propagate_leaves_undriven(w: WorldView, g: Entity, j: usize)
    requires
        propagate_ok(w),
        targets_wf(w),
        input_of(w, g as int, j) is Some,
        forall|p: int, i: int| !#[trigger] has_target(w, p, i, g, j),
    ensures
        input_of(spec_propagate(w), g as int, j) == input_of(w, g as int, j),
{
    let ws = world_writes(w);
    assert forall|k: int| 0 <= k < ws.len() implies !writes_to(#[trigger] ws[k], g as int, j) by {
        if writes_to(ws[k], g as int, j) {
            assert(ws.contains(ws[k]));
            lemma_world_write_source(w, ws[k]);
        }
    }
    lemma_apply_writes_input(w, ws, g as int, j);
}

} // verus!
