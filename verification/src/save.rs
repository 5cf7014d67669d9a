//! Snapshots of logic components, as the save file and the undo history
//! keep them, and the spawning of components from snapshots.
use vstd::prelude::*;
use crate::logic::State;
use crate::world::{
    ClockTiming, Entity, NodeType, NodeView, Placement, Slot, SlotView, TargetEntry, TargetMap,
    TargetSeq, World, WorldView, is_node, node_of, targets_view, spawned_slots, kind_node,
    kind_layout, node_name, unknowns, with_children, tm_rename,
};

verus! {

/// The state of an input or output control that a snapshot keeps.
#[derive(Debug, Clone, Copy, PartialEq, Eq, Structural)]
pub enum NodeState {
    /// The value of a toggle switch.
    ToggleSwitch(State),
    /// The timing and the output value of a clock.
    Clock(ClockTiming, State),
    /// The input value of a light bulb.
    LightBulb(State),
}

/// A snapshot of one logic component.
#[derive(Debug)]
pub struct NodusComponent {
    /// The entity the component was.
    pub id: Entity,
    pub name: String,
    /// Its number of inputs, where it has inputs.
    pub inputs: Option<usize>,
    /// Its number of outputs, where it has outputs.
    pub outputs: Option<usize>,
    /// Its propagation targets, where it has outputs.
    pub targets: Option<Vec<TargetMap>>,
    pub placement: Placement,
    pub ntype: NodeType,
    pub state: Option<NodeState>,
}

/// The abstract contents of a snapshot.
pub struct ComponentView {
    pub id: Entity,
    pub name: Seq<char>,
    pub inputs: Option<usize>,
    pub outputs: Option<usize>,
    pub targets: Option<Seq<TargetSeq>>,
    pub placement: Placement,
    pub ntype: NodeType,
    pub state: Option<NodeState>,
}

impl View for NodusComponent {
    type V = ComponentView;

    open spec fn view(&self) -> ComponentView {
        ComponentView {
            id: self.id,
            name: self.name@,
            inputs: self.inputs,
            outputs: self.outputs,
            targets: match self.targets {
                Some(v) => Some(targets_view(v@)),
                None => None,
            },
            placement: self.placement,
            ntype: self.ntype,
            state: self.state,
        }
    }
}

/// The abstract contents of a list of snapshots.
pub open spec fn components_view(v: Seq<NodusComponent>) -> Seq<ComponentView> {
    v.map_values(|c: NodusComponent| c@)
}

/// A copy of `v`.
pub fn copy_indices(v: &Vec<usize>) -> (r: Vec<usize>)
    ensures
        r@ == v@,
{
    let mut r: Vec<usize> = Vec::new();
    let mut i: usize = 0;
    while i < v.len()
        invariant
            i <= v@.len(),
            r@ == v@.take(i as int),
        decreases v@.len() - i,
    {
        r.push(v[i]);
        i = i + 1;
        assert(r@ =~= v@.take(i as int));
    }
    assert(v@.take(i as int) =~= v@);
    r
}

/// A copy of target map `m`.
pub fn copy_target_map(m: &TargetMap) -> (r: TargetMap)
    ensures
        r@ == m@,
{
    let mut entries: Vec<TargetEntry> = Vec::new();
    let mut i: usize = 0;
    while i < m.entries.len()
        invariant
            i <= m.entries@.len(),
            entries@.map_values(|e: TargetEntry| e@) == m@.take(i as int),
        decreases m.entries@.len() - i,
    {
        let ghost old_e = entries@;
        let e = TargetEntry { gate: m.entries[i].gate, indices: copy_indices(&m.entries[i].indices) };
        entries.push(e);
        i = i + 1;
        assert(entries@.map_values(|e: TargetEntry| e@) =~= old_e.map_values(|e: TargetEntry| e@).push(e@));
        assert(entries@.map_values(|e: TargetEntry| e@) =~= m@.take(i as int));
    }
    assert(m@.take(i as int) =~= m@);
    TargetMap { entries }
}

/// A copy of the target maps `v`.
pub fn copy_targets(v: &Vec<TargetMap>) -> (r: Vec<TargetMap>)
    ensures
        targets_view(r@) == targets_view(v@),
{
    let mut r: Vec<TargetMap> = Vec::new();
    let mut i: usize = 0;
    while i < v.len()
        invariant
            i <= v@.len(),
            targets_view(r@) == targets_view(v@).take(i as int),
        decreases v@.len() - i,
    {
        let ghost old_r = r@;
        let m = copy_target_map(&v[i]);
        r.push(m);
        i = i + 1;
        assert(targets_view(r@) =~= targets_view(old_r).push(m@));
        assert(targets_view(r@) =~= targets_view(v@).take(i as int));
    }
    assert(targets_view(v@).take(i as int) =~= targets_view(v@));
    r
}

impl NodusComponent {
    /// A copy of this snapshot.
    pub fn copy(&self) -> (r: Self)
        ensures
            r@ == self@,
    {
        NodusComponent {
            id: self.id,
            name: self.name.clone(),
            inputs: self.inputs,
            outputs: self.outputs,
            targets: match &self.targets {
                Some(v) => Some(copy_targets(v)),
                None => None,
            },
            placement: self.placement,
            ntype: self.ntype,
            state: self.state,
        }
    }
}

/// Target maps `ts` with component `from` renamed to `to`.
pub open spec fn rename_targets(ts: Seq<TargetSeq>, from: Entity, to: Entity) -> Seq<TargetSeq> {
    ts.map_values(|m: TargetSeq| tm_rename(m, from, to))
}

/// Snapshot `c` with component `from` renamed to `to` in its target maps.
pub open spec fn rename_component(c: ComponentView, from: Entity, to: Entity) -> ComponentView {
    ComponentView {
        id: c.id,
        name: c.name,
        inputs: c.inputs,
        outputs: c.outputs,
        targets: match c.targets {
            Some(ts) => Some(rename_targets(ts, from, to)),
            None => None,
        },
        placement: c.placement,
        ntype: c.ntype,
        state: c.state,
    }
}

/// Rename component `from` to `to` in the target maps `v`.
pub fn rename_target_maps(v: &mut Vec<TargetMap>, from: Entity, to: Entity)
    ensures
        targets_view(final(v)@) == rename_targets(targets_view(old(v)@), from, to),
{
    let ghost s = targets_view(v@);
    let mut i: usize = 0;
    while i < v.len()
        invariant
            i <= v@.len(),
            v@.len() == s.len(),
            forall|j: int| 0 <= j < s.len() ==> #[trigger] targets_view(v@)[j] == (if j < i {
                tm_rename(s[j], from, to)
            } else {
                s[j]
            }),
        decreases v@.len() - i,
    {
        let ghost before = v@;
        let mut m = TargetMap::new();
        std::mem::swap(&mut v[i], &mut m);
        assert(m == before[i as int]);
        assert(targets_view(before)[i as int] == m@);
        m.rename_key(from, to);
        let ghost m1 = m;
        std::mem::swap(&mut v[i], &mut m);
        assert(v@ == before.update(i as int, m1));
        assert forall|j: int| 0 <= j < s.len() implies #[trigger] targets_view(v@)[j] == (if j < i + 1 {
            tm_rename(s[j], from, to)
        } else {
            s[j]
        }) by {
            if j != i {
                assert(targets_view(v@)[j] == targets_view(before)[j]);
            }
        }
        i = i + 1;
    }
    assert(targets_view(v@) =~= rename_targets(s, from, to));
}

/// Rename component `from` to `to` in the target maps of the snapshots
/// `cs`; see [`rename_component`].
pub fn rename_component_targets(cs: &mut Vec<NodusComponent>, from: Entity, to: Entity)
    ensures
        components_view(final(cs)@) == components_view(old(cs)@).map_values(
            |c: ComponentView| rename_component(c, from, to),
        ),
{
    let ghost s = components_view(cs@);
    let mut i: usize = 0;
    while i < cs.len()
        invariant
            i <= cs@.len(),
            cs@.len() == s.len(),
            forall|j: int| 0 <= j < s.len() ==> #[trigger] components_view(cs@)[j] == (if j < i {
                rename_component(s[j], from, to)
            } else {
                s[j]
            }),
        decreases cs@.len() - i,
    {
        let ghost before = cs@;
        let mut c = NodusComponent {
            id: 0,
            name: String::new(),
            inputs: None,
            outputs: None,
            targets: None,
            placement: Placement { x: 0, y: 0, rot_x: 0, rot_y: 0, rot_z: 0, rot_w: 0 },
            ntype: NodeType::Xnor,
            state: None,
        };
        std::mem::swap(&mut cs[i], &mut c);
        assert(c == before[i as int]);
        assert(components_view(before)[i as int] == c@);
        let ghost c0 = c@;
        match c.targets {
            Some(mut ts) => {
                rename_target_maps(&mut ts, from, to);
                c.targets = Some(ts);
            },
            None => {},
        }
        assert(c@ == rename_component(c0, from, to));
        let ghost c1 = c;
        std::mem::swap(&mut cs[i], &mut c);
        assert(cs@ == before.update(i as int, c1));
        assert forall|j: int| 0 <= j < s.len() implies #[trigger] components_view(cs@)[j] == (if j < i + 1 {
            rename_component(s[j], from, to)
        } else {
            s[j]
        }) by {
            if j != i {
                assert(components_view(cs@)[j] == components_view(before)[j]);
            }
        }
        i = i + 1;
    }
    assert(components_view(cs@) =~= s.map_values(|c: ComponentView| rename_component(c, from, to)));
}

/// A component that a snapshot can describe: it has a kind, a toggle switch
/// and a clock have an output value, a clock has a timing and a light bulb
/// has an input value.
pub open spec fn snapshot_ok(n: NodeView) -> bool {
    &&& n.kind is Some
    &&& match n.kind.unwrap() {
        NodeType::ToggleSwitch => n.outputs is Some && n.outputs.unwrap().len() >= 1,
        NodeType::Clock => n.clock is Some && n.outputs is Some && n.outputs.unwrap().len() >= 1,
        NodeType::LightBulb => n.inputs is Some && n.inputs.unwrap().len() >= 1,
        _ => true,
    }
}

/// The snapshot of component `n`, which is entity `e`: its name, numbers
/// of inputs and outputs, target maps, placement and kind, and for an input
/// or output control its state (the output of a toggle switch, the timing
/// and output of a clock, the input of a light bulb).
pub open spec fn spec_snapshot(e: Entity, n: NodeView) -> ComponentView {
    ComponentView {
        id: e,
        name: n.name,
        inputs: match n.inputs {
            Some(v) => Some(v.len() as usize),
            None => None,
        },
        outputs: match n.outputs {
            Some(v) => Some(v.len() as usize),
            None => None,
        },
        targets: n.targets,
        placement: n.placement,
        ntype: n.kind.unwrap(),
        state: match n.kind.unwrap() {
            NodeType::ToggleSwitch => Some(NodeState::ToggleSwitch(n.outputs.unwrap()[0])),
            NodeType::Clock => Some(NodeState::Clock(n.clock.unwrap(), n.outputs.unwrap()[0])),
            NodeType::LightBulb => Some(NodeState::LightBulb(n.inputs.unwrap()[0])),
            _ => None,
        },
    }
}

/// Take a snapshot of component `e`; see [`spec_snapshot`].
pub fn snapshot(world: &World, e: Entity) -> (r: NodusComponent)
    requires
        is_node(world@, e as int),
        snapshot_ok(node_of(world@, e as int)),
    ensures
        r@ == spec_snapshot(e, node_of(world@, e as int)),
{
    match world.slot(e) {
        Slot::Node(n) => {
            let kind = match n.kind {
                Some(k) => k,
                None => NodeType::Xnor,
            };
            let state = match kind {
                NodeType::ToggleSwitch => match &n.outputs {
                    Some(o) => Some(NodeState::ToggleSwitch(o[0])),
                    None => None,
                },
                NodeType::Clock => match (&n.outputs, n.clock) {
                    (Some(o), Some(c)) => Some(NodeState::Clock(c, o[0])),
                    _ => None,
                },
                NodeType::LightBulb => match &n.inputs {
                    Some(i) => Some(NodeState::LightBulb(i[0])),
                    None => None,
                },
                _ => None,
            };
            NodusComponent {
                id: e,
                name: n.name.clone(),
                inputs: match &n.inputs {
                    Some(v) => Some(v.len()),
                    None => None,
                },
                outputs: match &n.outputs {
                    Some(v) => Some(v.len()),
                    None => None,
                },
                targets: match &n.targets {
                    Some(v) => Some(copy_targets(v)),
                    None => None,
                },
                placement: n.placement,
                ntype: kind,
                state,
            }
        },
        _ => {
            // Unreachable: `e` is a component.
            NodusComponent {
                id: e,
                name: String::new(),
                inputs: None,
                outputs: None,
                targets: None,
                placement: Placement { x: 0, y: 0, rot_x: 0, rot_y: 0, rot_z: 0, rot_w: 0 },
                ntype: NodeType::Xnor,
                state: None,
            }
        },
    }
}

/// Entity `e` of `w` is a component that a save file keeps: one of a kind.
pub open spec fn saved_node(w: WorldView, e: int) -> bool {
    is_node(w, e) && node_of(w, e).kind is Some
}

/// The snapshots of the saved components among the first `upto` entities of
/// `w`, in the order of the entities.
pub open spec fn world_snapshot(w: WorldView, upto: nat) -> Seq<ComponentView>
    decreases upto,
{
    if upto == 0 {
        Seq::empty()
    } else {
        let r = world_snapshot(w, (upto - 1) as nat);
        if saved_node(w, upto - 1) {
            r.push(spec_snapshot((upto - 1) as Entity, node_of(w, upto - 1)))
        } else {
            r
        }
    }
}

/// Every saved component of `w` can be described by a snapshot.
pub open spec fn snapshot_world_ok(w: WorldView) -> bool {
    forall|e: int| #![trigger w[e]] saved_node(w, e) ==> snapshot_ok(node_of(w, e))
}

/// Whether every saved component of the world can be described by a
/// snapshot; see [`snapshot_world_ok`].
pub fn can_snapshot(world: &World) -> (r: bool)
    ensures
        r == snapshot_world_ok(world@),
{
    let mut e: usize = 0;
    while e < world.len()
        invariant
            e <= world@.len(),
            forall|k: int| #![trigger world@[k]] 0 <= k < e && saved_node(world@, k) ==> snapshot_ok(node_of(world@, k)),
        decreases world@.len() - e,
    {
        match world.slot(e) {
            Slot::Node(n) => {
                let ok = match n.kind {
                    Some(NodeType::ToggleSwitch) => match &n.outputs {
                        Some(o) => o.len() >= 1,
                        None => false,
                    },
                    Some(NodeType::Clock) => n.clock.is_some() && match &n.outputs {
                        Some(o) => o.len() >= 1,
                        None => false,
                    },
                    Some(NodeType::LightBulb) => match &n.inputs {
                        Some(i) => i.len() >= 1,
                        None => false,
                    },
                    _ => true,
                };
                if !ok {
                    assert(saved_node(world@, e as int));
                    assert(!snapshot_ok(node_of(world@, e as int)));
                    return false;
                }
            },
            _ => {},
        }
        e = e + 1;
    }
    true
}

/// The snapshots of all saved components of the world, in the order of the
/// entities; see [`world_snapshot`].
pub fn snapshot_world(world: &World) -> (r: Vec<NodusComponent>)
    requires
        snapshot_world_ok(world@),
    ensures
        components_view(r@) == world_snapshot(world@, world@.len()),
{
    let mut r: Vec<NodusComponent> = Vec::new();
    let mut e: usize = 0;
    assert(components_view(r@) =~= world_snapshot(world@, 0));
    while e < world.len()
        invariant
            e <= world@.len(),
            snapshot_world_ok(world@),
            components_view(r@) == world_snapshot(world@, e as nat),
        decreases world@.len() - e,
    {
        let ghost old_r = r@;
        let keep = match world.slot(e) {
            Slot::Node(n) => n.kind.is_some(),
            _ => false,
        };
        if keep {
            let c = snapshot(world, e);
            r.push(c);
            assert(components_view(r@) =~= components_view(old_r).push(c@));
        }
        e = e + 1;
    }
    r
}

/// A clock timing of zero.
pub open spec fn zero_timing() -> ClockTiming {
    ClockTiming { period: 0, elapsed: 0 }
}

/// What spawning from snapshot `c` passes on: the numbers of inputs and
/// outputs of a logic gate, the state of a toggle switch, clock or light
/// bulb, the timing of a clock. Nothing for an XNOR gate or for a control
/// whose snapshot holds no state of its kind: those are not spawned.
pub open spec fn spawn_args(c: ComponentView) -> Option<(usize, usize, State, ClockTiming)> {
    match c.ntype {
        NodeType::And | NodeType::Nand | NodeType::Or | NodeType::Nor | NodeType::Xor
        | NodeType::Not => Some((c.inputs.unwrap(), c.outputs.unwrap(), State::Unknown, zero_timing())),
        NodeType::HighConst | NodeType::LowConst | NodeType::SevenSegmentDisplay => Some(
            (0, 0, State::Unknown, zero_timing()),
        ),
        NodeType::ToggleSwitch => match c.state {
            Some(NodeState::ToggleSwitch(s)) => Some((0, 0, s, zero_timing())),
            _ => None,
        },
        NodeType::Clock => match c.state {
            Some(NodeState::Clock(t, s)) => Some((0, 0, s, t)),
            _ => None,
        },
        NodeType::LightBulb => match c.state {
            Some(NodeState::LightBulb(s)) => Some((0, 0, s, zero_timing())),
            _ => None,
        },
        NodeType::Xnor => None,
    }
}

/// A snapshot that can be spawned: a logic gate's snapshot gives its
/// numbers of inputs and outputs.
pub open spec fn insert_ok(c: ComponentView) -> bool {
    match c.ntype {
        NodeType::And | NodeType::Nand | NodeType::Or | NodeType::Nor | NodeType::Xor
        | NodeType::Not => c.inputs is Some && c.outputs is Some,
        _ => true,
    }
}

/// The world after spawning from snapshot `c` (see [`spawn_args`]).
pub open spec fn spec_insert_one(w: WorldView, c: ComponentView) -> WorldView {
    match spawn_args(c) {
        Some((i, o, s, t)) => w + spawned_slots(
            kind_node(c.ntype, i, o, s, t, c.placement),
            kind_layout(c.ntype, i, o),
            w.len() as Entity,
        ),
        None => w,
    }
}

/// The world after spawning from each snapshot of `cs` in order, and the
/// new entities.
pub open spec fn spec_insert_all(w: WorldView, cs: Seq<ComponentView>) -> (WorldView, Seq<Entity>)
    decreases cs.len(),
{
    if cs.len() == 0 {
        (w, Seq::empty())
    } else {
        let (w1, ids) = spec_insert_all(w, cs.drop_last());
        match spawn_args(cs.last()) {
            Some(_) => (spec_insert_one(w1, cs.last()), ids.push(w1.len() as Entity)),
            None => (w1, ids),
        }
    }
}

/// Spawn a component from snapshot `c`; see [`spec_insert_one`].
pub fn insert_component(world: &mut World, c: &NodusComponent) -> (r: Option<Entity>)
    requires
        insert_ok(c@),
    ensures
        final(world)@ == spec_insert_one(old(world)@, c@),
        r == (match spawn_args(c@) {
            Some(_) => Some(old(world)@.len() as Entity),
            None => None::<Entity>,
        }),
{
    let zero = ClockTiming { period: 0, elapsed: 0 };
    let args: Option<(usize, usize, State, ClockTiming)> = match c.ntype {
        NodeType::And | NodeType::Nand | NodeType::Or | NodeType::Nor | NodeType::Xor
        | NodeType::Not => {
            let i = match c.inputs {
                Some(x) => x,
                None => 0,
            };
            let o = match c.outputs {
                Some(x) => x,
                None => 0,
            };
            Some((i, o, State::Unknown, zero))
        },
        NodeType::HighConst | NodeType::LowConst | NodeType::SevenSegmentDisplay => Some(
            (0, 0, State::Unknown, zero),
        ),
        NodeType::ToggleSwitch => match c.state {
            Some(NodeState::ToggleSwitch(s)) => Some((0, 0, s, zero)),
            _ => None,
        },
        NodeType::Clock => match c.state {
            Some(NodeState::Clock(t, s)) => Some((0, 0, s, t)),
            _ => None,
        },
        NodeType::LightBulb => match c.state {
            Some(NodeState::LightBulb(s)) => Some((0, 0, s, zero)),
            _ => None,
        },
        NodeType::Xnor => None,
    };
    match args {
        Some((i, o, s, t)) => world.spawn_node(c.ntype, i, o, s, t, c.placement),
        None => None,
    }
}

/// Spawn a component from each snapshot of `cs`, in order; see
/// [`spec_insert_all`]. Returns the new entities.
pub fn insert_components(world: &mut World, cs: &Vec<NodusComponent>) -> (r: Vec<Entity>)
    requires
        forall|k: int| 0 <= k < cs@.len() ==> insert_ok(#[trigger] cs@[k]@),
    ensures
        final(world)@ == spec_insert_all(old(world)@, components_view(cs@)).0,
        r@ == spec_insert_all(old(world)@, components_view(cs@)).1,
{
    let ghost cv = components_view(cs@);
    let mut r: Vec<Entity> = Vec::new();
    let mut i: usize = 0;
    assert(cv.take(0) =~= Seq::<ComponentView>::empty());
    while i < cs.len()
        invariant
            i <= cs@.len(),
            cv == components_view(cs@),
            forall|k: int| 0 <= k < cs@.len() ==> insert_ok(#[trigger] cs@[k]@),
            world@ == spec_insert_all(old(world)@, cv.take(i as int)).0,
            r@ == spec_insert_all(old(world)@, cv.take(i as int)).1,
        decreases cs@.len() - i,
    {
        assert(cv.take(i + 1).drop_last() =~= cv.take(i as int));
        assert(cv.take(i + 1).last() == cs@[i as int]@);
        match insert_component(world, &cs[i]) {
            Some(e) => {
                r.push(e);
            },
            None => {},
        }
        i = i + 1;
    }
    assert(cv.take(i as int) =~= cv);
    r
}

} // verus!

verus! {

/// Two snapshots describe the same component but for its entity and its
/// target maps: same name, numbers of inputs and outputs, placement, kind
/// and state.
pub open spec fn same_saved(a: ComponentView, b: ComponentView) -> bool {
    &&& a.name == b.name
    &&& a.inputs == b.inputs
    &&& a.outputs == b.outputs
    &&& a.placement == b.placement
    &&& a.ntype == b.ntype
    &&& a.state == b.state
}

/// A component shaped as its kind spawns it: the kind's name, and the
/// inputs, outputs and timing that the kind has (a logic gate has inputs
/// and outputs of any number; a constant no input and one output; a toggle
/// switch one input and one output; a clock a timing, no inputs and one
/// output; a light bulb one input and no outputs; a seven segment display
/// four inputs and no outputs).
pub open spec fn kind_shaped(n: NodeView) -> bool {
    &&& n.kind is Some
    &&& n.kind.unwrap() != NodeType::Xnor
    &&& n.name == node_name(n.kind.unwrap())
    &&& match n.kind.unwrap() {
        NodeType::HighConst | NodeType::LowConst => n.inputs is Some && n.inputs.unwrap().len() == 0
            && n.outputs is Some && n.outputs.unwrap().len() == 1,
        NodeType::ToggleSwitch => n.inputs is Some && n.inputs.unwrap().len() == 1 && n.outputs is Some
            && n.outputs.unwrap().len() == 1,
        NodeType::Clock => n.clock is Some && n.inputs is None && n.outputs is Some && n.outputs.unwrap().len()
            == 1,
        NodeType::LightBulb => n.inputs is Some && n.inputs.unwrap().len() == 1 && n.outputs is None,
        NodeType::SevenSegmentDisplay => n.inputs is Some && n.inputs.unwrap().len() == 4 && n.outputs is None,
        _ => n.inputs is Some && n.outputs is Some,
    }
}

/// A saved component, spawned anew from its snapshot, has the same
/// snapshot but for its entity and its target maps: saving and loading
/// keeps each component's name, numbers of inputs and outputs, placement,
/// kind and state. The new component is appended to the world, which keeps
/// its other entities.
pub proof fn law_snapshot_respawn(w: WorldView, e: Entity, w2: WorldView)
    requires
        saved_node(w, e as int),
        kind_shaped(node_of(w, e as int)),
        w2.len() < usize::MAX,
    ensures
        ({
            let c = spec_snapshot(e, node_of(w, e as int));
            let g = w2.len() as Entity;
            let w3 = spec_insert_one(w2, c);
            &&& insert_ok(c)
            &&& spawn_args(c) is Some
            &&& w3.len() > w2.len()
            &&& w3.take(w2.len() as int) == w2
            &&& saved_node(w3, g as int)
            &&& same_saved(spec_snapshot(g, node_of(w3, g as int)), c)
        }),
{
    let n = node_of(w, e as int);
    let c = spec_snapshot(e, n);
    let g = w2.len() as Entity;
    let k = n.kind.unwrap();
    let (i, o, s, t) = spawn_args(c).unwrap();
    let nd = kind_node(k, i, o, s, t, c.placement);
    let lay = kind_layout(k, i, o);
    let w3 = spec_insert_one(w2, c);
    assert(w3 == w2 + spawned_slots(nd, lay, g));
    assert(w3.take(w2.len() as int) =~= w2);
    assert(w3[g as int] == spawned_slots(nd, lay, g)[0]);
    let n3 = node_of(w3, g as int);
    assert(n3.kind == nd.kind && n3.name == nd.name && n3.inputs == nd.inputs && n3.outputs == nd.outputs
        && n3.clock == nd.clock && n3.placement == nd.placement);
    match k {
        NodeType::ToggleSwitch | NodeType::Clock | NodeType::LightBulb => {},
        NodeType::HighConst | NodeType::LowConst | NodeType::SevenSegmentDisplay => {},
        _ => {
            assert(unknowns(i as nat).len() == i);
            assert(unknowns(o as nat).len() == o);
        },
    }
}

/// A component just spawned with `kind` (see [`kind_node`]) and spawned
/// anew from its snapshot is spawned with the same arguments, up to those
/// its kind does not use.
pub proof fn lemma_respawn_fresh(
    kind: NodeType,
    ins: usize,
    outs: usize,
    state: State,
    timing: ClockTiming,
    placement: Placement,
    g: Entity,
    ch: Seq<Entity>,
)
    requires
        kind != NodeType::Xnor,
    ensures
        ({
            let n = with_children(kind_node(kind, ins, outs, state, timing, placement), ch);
            let c = spec_snapshot(g, n);
            &&& snapshot_ok(n)
            &&& insert_ok(c)
            &&& spawn_args(c) matches Some((i, o, s, t)) && kind_node(kind, i, o, s, t, placement) == kind_node(
                kind,
                ins,
                outs,
                state,
                timing,
                placement,
            ) && kind_layout(kind, i, o) == kind_layout(kind, ins, outs)
        }),
{
    let n = with_children(kind_node(kind, ins, outs, state, timing, placement), ch);
    let c = spec_snapshot(g, n);
    let (i, o, s, t) = spawn_args(c).unwrap();
    match kind {
        NodeType::ToggleSwitch | NodeType::Clock | NodeType::LightBulb => {},
        NodeType::HighConst | NodeType::LowConst | NodeType::SevenSegmentDisplay => {},
        _ => {
            assert(unknowns(ins as nat).len() == ins);
            assert(unknowns(outs as nat).len() == outs);
            assert(kind_node(kind, i, o, s, t, placement) =~= kind_node(kind, ins, outs, state, timing, placement));
        },
    }
}

} // verus!

verus! {

/// A snapshot as one of a component shaped as its kind (see
/// [`kind_shaped`]) is: not of an XNOR gate, with the kind's name, and
/// with the numbers of inputs and outputs and the state that the kind has.
pub open spec fn snapshot_shaped(c: ComponentView) -> bool {
    &&& c.ntype != NodeType::Xnor
    &&& c.name == node_name(c.ntype)
    &&& match c.ntype {
        NodeType::HighConst | NodeType::LowConst => c.inputs == Some(0usize) && c.outputs == Some(1usize)
            && c.state is None,
        NodeType::ToggleSwitch => c.inputs == Some(1usize) && c.outputs == Some(1usize) && c.state matches Some(
            NodeState::ToggleSwitch(_),
        ),
        NodeType::Clock => c.inputs is None && c.outputs == Some(1usize) && c.state matches Some(NodeState::Clock(_, _)),
        NodeType::LightBulb => c.inputs == Some(1usize) && c.outputs is None && c.state matches Some(
            NodeState::LightBulb(_),
        ),
        NodeType::SevenSegmentDisplay => c.inputs == Some(4usize) && c.outputs is None && c.state is None,
        _ => c.inputs is Some && c.outputs is Some && c.state is None,
    }
}

/// The snapshot of a component shaped as its kind is shaped so too.
pub proof fn lemma_snapshot_shaped(e: Entity, n: NodeView)
    requires
        kind_shaped(n),
    ensures
        snapshot_shaped(spec_snapshot(e, n)),
{
}

/// A shaped snapshot can be spawned, and the component spawned from it,
/// with any connectors, has a snapshot that is the same but for its entity
/// and its target maps; that component is shaped as its kind.
pub proof fn lemma_respawn_shaped(c: ComponentView, g: Entity, ch: Seq<Entity>)
    requires
        snapshot_shaped(c),
    ensures
        insert_ok(c),
        spawn_args(c) matches Some((i, o, s, t)) && {
            let n = with_children(kind_node(c.ntype, i, o, s, t, c.placement), ch);
            &&& kind_shaped(n)
            &&& same_saved(spec_snapshot(g, n), c)
        },
{
    let (i, o, s, t) = spawn_args(c).unwrap();
    match c.ntype {
        NodeType::ToggleSwitch | NodeType::Clock | NodeType::LightBulb => {},
        NodeType::HighConst | NodeType::LowConst | NodeType::SevenSegmentDisplay => {},
        _ => {
            assert(unknowns(i as nat).len() == i);
            assert(unknowns(o as nat).len() == o);
        },
    }
}

} // verus!
