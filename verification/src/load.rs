//! Loading a saved circuit: clearing the world, spawning the saved
//! components and linking them as their target maps say.
use vstd::prelude::*;
use crate::world::{
    ConnectEvent, ConnectorType, Entity, Slot, TargetSeq, World, WorldView, is_connector, is_line,
    is_node, node_of, connector_of, concat, lemma_concat_take, spec_connect, connect_ok, vacate_seq,
    lemma_vacate_seq_at, lemma_vacate_len, lemma_concat_contains, SlotView, set_targets, event_line, connect_w2, connect_w3,
    spawned_slots, kind_node, kind_layout, with_children, Connector, ConnectorView, NodeView, in_out_layout,
    tm_pos, tm_keys, tm_add, lemma_first_index, conn_with, connect_owner, kind_counts, spec_transition,
    transition_slot, spec_propagate, law_propagate_changes_inputs_only, strip, NodeType, ClockTiming, Placement,
    DisconnectEvent, disconnect_ok, spec_disconnect, line_of, disconnect_w1, disconnect_w2, disconnect_owner,
    disconnect_in_parent, tm_remove, tm_remove_index, resizable, spec_resize_world, dropped_children,
    lemma_dropped_children, law_resize_counts, max_kept, added_count, Gate, resize_states, kept_children,
    fresh_connector, dropped,
};
use crate::logic::State;
use crate::save::{
    ComponentView, NodusComponent, components_view, saved_node, insert_ok, spawn_args,
    spec_insert_one, insert_component, same_saved, snapshot_shaped, lemma_respawn_shaped, spec_snapshot,
    world_snapshot, kind_shaped, lemma_snapshot_shaped, lemma_respawn_fresh,
};
use crate::undo::{vacate_all, find_conn};

verus! {

/// The entities that clearing the world despawns, slot by slot: each saved
/// component followed by its connectors, and each connection line.
pub open spec fn clear_parts(w: WorldView) -> Seq<Seq<Entity>> {
    Seq::new(
        w.len(),
        |k: int|
            if saved_node(w, k) {
                seq![k as Entity] + node_of(w, k).children
            } else if is_line(w, k) {
                seq![k as Entity]
            } else {
                Seq::empty()
            },
    )
}

/// The world with every saved component, its connectors and every
/// connection line despawned.
pub open spec fn spec_clear(w: WorldView) -> WorldView {
    vacate_seq(w, concat(clear_parts(w)))
}

/// Despawn every saved component with its connectors and every connection
/// line; see [`spec_clear`].
pub fn clear_world(world: &mut World)
    ensures
        final(world)@ == spec_clear(old(world)@),
{
    let ghost w = world@;
    let ghost parts = clear_parts(w);
    let mut list: Vec<Entity> = Vec::new();
    let mut k: usize = 0;
    assert(parts.take(0) =~= Seq::<Seq<Entity>>::empty());
    while k < world.len()
        invariant
            k <= w.len(),
            w == world@,
            parts == clear_parts(w),
            list@ == concat(parts.take(k as int)),
        decreases w.len() - k,
    {
        let ghost l0 = list@;
        match world.slot(k) {
            Slot::Node(n) => {
                if n.kind.is_some() {
                    list.push(k);
                    let mut j: usize = 0;
                    while j < n.children.len()
                        invariant
                            j <= n.children@.len(),
                            list@ == l0 + (seq![k as Entity] + n.children@.take(j as int)),
                        decreases n.children@.len() - j,
                    {
                        list.push(n.children[j]);
                        j = j + 1;
                        assert(list@ =~= l0 + (seq![k as Entity] + n.children@.take(j as int)));
                    }
                    assert(n.children@.take(j as int) =~= n.children@);
                } else {
                    assert(parts[k as int] =~= Seq::<Entity>::empty());
                }
            },
            Slot::Line(_) => {
                list.push(k);
                assert(parts[k as int] =~= seq![k as Entity]);
            },
            _ => {
                assert(parts[k as int] =~= Seq::<Entity>::empty());
            },
        }
        proof {
            lemma_concat_take(parts, k as int);
            assert(list@ =~= l0 + parts[k as int]);
        }
        k = k + 1;
    }
    assert(parts.take(k as int) =~= parts);
    vacate_all(world, &list);
}

/// The entity that old entity `k` became, by the pairs `m` of old and new
/// entities; a later pair for the same old entity stands.
pub open spec fn map_get(m: Seq<(Entity, Entity)>, k: Entity) -> Option<Entity>
    decreases m.len(),
{
    if m.len() == 0 {
        None
    } else if m.last().0 == k {
        Some(m.last().1)
    } else {
        map_get(m.drop_last(), k)
    }
}

/// Look up what old entity `k` became.
pub fn lookup(m: &Vec<(Entity, Entity)>, k: Entity) -> (r: Option<Entity>)
    ensures
        r == map_get(m@, k),
{
    let mut i: usize = m.len();
    assert(m@.take(i as int) =~= m@);
    while i > 0
        invariant
            i <= m@.len(),
            map_get(m@, k) == map_get(m@.take(i as int), k),
        decreases i,
    {
        assert(m@.take(i as int).drop_last() =~= m@.take(i - 1));
        if m[i - 1].0 == k {
            return Some(m[i - 1].1);
        }
        i = i - 1;
    }
    None
}

/// The connect requests for the inputs `tidx` of component `gi` that output
/// connector `o` (output `i`) drives: one for each input connector of `gi`
/// whose index `tidx` holds, in the order of the connectors.
pub open spec fn entry_events(w: WorldView, o: Entity, i: usize, gi: Entity, tidx: Seq<usize>) -> Seq<ConnectEvent> {
    if is_node(w, gi as int) {
        concat(
            node_of(w, gi as int).children.map_values(
                |c: Entity|
                    if is_connector(w, c as int) && connector_of(w, c as int).connector.ctype
                        == ConnectorType::In && tidx.contains(connector_of(w, c as int).connector.index) {
                        seq![
                            ConnectEvent {
                                output: o,
                                output_index: i,
                                input: c,
                                input_index: connector_of(w, c as int).connector.index,
                                signal_success: false,
                            },
                        ]
                    } else {
                        Seq::empty()
                    },
            ),
        )
    } else {
        Seq::empty()
    }
}

/// The connect requests for output `i` (connector `o`) with target map
/// `tm`, whose components are old entities mapped by `m`.
pub open spec fn output_events(
    w: WorldView,
    o: Entity,
    i: usize,
    tm: TargetSeq,
    m: Seq<(Entity, Entity)>,
) -> Seq<ConnectEvent> {
    concat(
        tm.map_values(
            |e: (Entity, Seq<usize>)| entry_events(w, o, i, map_get(m, e.0).unwrap(), e.1),
        ),
    )
}

/// The connect requests for the outputs `i..` of new component `g` with
/// target maps `ts`; they stop at the first output without an output
/// connector.
pub open spec fn outputs_events(
    w: WorldView,
    g: Entity,
    ts: Seq<TargetSeq>,
    m: Seq<(Entity, Entity)>,
    i: nat,
) -> Seq<ConnectEvent>
    decreases ts.len() - i,
{
    if i >= ts.len() {
        Seq::empty()
    } else {
        let ch = if is_node(w, g as int) {
            node_of(w, g as int).children
        } else {
            Seq::empty()
        };
        match find_conn(w, ch, ConnectorType::Out, i as usize) {
            None => Seq::empty(),
            Some(o) => output_events(w, o, i as usize, ts[i as int], m) + outputs_events(w, g, ts, m, i + 1),
        }
    }
}

/// The connect requests that link the loaded components `cs`, whose old
/// entities `m` maps to the new ones, as their target maps say.
pub open spec fn link_events(w: WorldView, cs: Seq<ComponentView>, m: Seq<(Entity, Entity)>) -> Seq<ConnectEvent> {
    concat(
        cs.map_values(
            |c: ComponentView|
                match c.targets {
                    Some(ts) => outputs_events(w, map_get(m, c.id).unwrap(), ts, m, 0),
                    None => Seq::empty(),
                },
        ),
    )
}

/// Every old entity that linking looks up is mapped: that of each
/// component with target maps and that of each component its target maps
/// name.
pub open spec fn link_ok(cs: Seq<ComponentView>, m: Seq<(Entity, Entity)>) -> bool {
    forall|k: int| #![trigger cs[k]] 0 <= k < cs.len() && cs[k].targets is Some ==> {
        &&& map_get(m, cs[k].id) is Some
        &&& forall|i: int, e: int| #![trigger cs[k].targets.unwrap()[i][e]]
            0 <= i < cs[k].targets.unwrap().len() && 0 <= e < cs[k].targets.unwrap()[i].len()
            ==> map_get(m, cs[k].targets.unwrap()[i][e].0) is Some
    }
}

/// Whether `v` holds `x`.
pub fn contains_index(v: &Vec<usize>, x: usize) -> (r: bool)
    ensures
        r == v@.contains(x),
{
    let mut i: usize = 0;
    while i < v.len()
        invariant
            i <= v@.len(),
            forall|j: int| 0 <= j < i ==> v@[j] != x,
        decreases v@.len() - i,
    {
        if v[i] == x {
            assert(v@[i as int] == x);
            return true;
        }
        i = i + 1;
    }
    false
}

/// Append the connect requests of [`entry_events`] to `evs`.
fn push_entry_events(world: &World, o: Entity, i: usize, gi: Entity, tidx: &Vec<usize>, evs: &mut Vec<ConnectEvent>)
    ensures
        final(evs)@ == old(evs)@ + entry_events(world@, o, i, gi, tidx@),
{
    let ghost w = world@;
    if gi >= world.len() {
        assert(old(evs)@ + entry_events(w, o, i, gi, tidx@) =~= old(evs)@);
        return;
    }
    let ch = match world.slot(gi) {
        Slot::Node(n) => &n.children,
        _ => {
            assert(old(evs)@ + entry_events(w, o, i, gi, tidx@) =~= old(evs)@);
            return;
        },
    };
    let ghost parts = ch@.map_values(
        |c: Entity|
            if is_connector(w, c as int) && connector_of(w, c as int).connector.ctype
                == ConnectorType::In && tidx@.contains(connector_of(w, c as int).connector.index) {
                seq![
                    ConnectEvent {
                        output: o,
                        output_index: i,
                        input: c,
                        input_index: connector_of(w, c as int).connector.index,
                        signal_success: false,
                    },
                ]
            } else {
                Seq::empty()
            },
    );
    let ghost e0 = evs@;
    let mut k: usize = 0;
    assert(parts.take(0) =~= Seq::<Seq<ConnectEvent>>::empty());
    assert(e0 + concat(parts.take(0)) =~= e0);
    while k < ch.len()
        invariant
            k <= ch@.len(),
            w == world@,
            parts.len() == ch@.len(),
            forall|j: int| 0 <= j < ch@.len() ==> #[trigger] parts[j] == (
            if is_connector(w, ch@[j] as int) && connector_of(w, ch@[j] as int).connector.ctype
                == ConnectorType::In && tidx@.contains(connector_of(w, ch@[j] as int).connector.index) {
                seq![
                    ConnectEvent {
                        output: o,
                        output_index: i,
                        input: ch@[j],
                        input_index: connector_of(w, ch@[j] as int).connector.index,
                        signal_success: false,
                    },
                ]
            } else {
                Seq::empty()
            }),
            evs@ == e0 + concat(parts.take(k as int)),
        decreases ch@.len() - k,
    {
        let c = ch[k];
        let ghost before = evs@;
        if c < world.len() {
            match world.slot(c) {
                Slot::Connector(cc) => {
                    let is_in = match cc.connector.ctype {
                        ConnectorType::In => true,
                        ConnectorType::Out => false,
                    };
                    if is_in && contains_index(tidx, cc.connector.index) {
                        evs.push(
                            ConnectEvent {
                                output: o,
                                output_index: i,
                                input: c,
                                input_index: cc.connector.index,
                                signal_success: false,
                            },
                        );
                    }
                },
                _ => {},
            }
        }
        proof {
            lemma_concat_take(parts, k as int);
            assert(evs@ =~= before + parts[k as int]);
            assert(e0 + concat(parts.take(k + 1)) =~= before + parts[k as int]);
        }
        k = k + 1;
    }
    assert(parts.take(k as int) =~= parts);
}

/// The connect requests of [`outputs_events`] for new component `g`.
fn push_outputs_events(
    world: &World,
    g: Entity,
    ts: &Vec<crate::world::TargetMap>,
    m: &Vec<(Entity, Entity)>,
    evs: &mut Vec<ConnectEvent>,
)
    requires
        forall|i: int, e: int| #![trigger crate::world::targets_view(ts@)[i][e]]
            0 <= i < ts@.len() && 0 <= e < crate::world::targets_view(ts@)[i].len()
            ==> map_get(m@, crate::world::targets_view(ts@)[i][e].0) is Some,
    ensures
        final(evs)@ == old(evs)@ + outputs_events(world@, g, crate::world::targets_view(ts@), m@, 0),
{
    let ghost w = world@;
    let ghost tv = crate::world::targets_view(ts@);
    let ghost e_start = evs@;
    let ghost target = e_start + outputs_events(w, g, tv, m@, 0);
    let empty: Vec<Entity> = Vec::new();
    let ch: &Vec<Entity> = if g < world.len() {
        match world.slot(g) {
            Slot::Node(n) => &n.children,
            _ => &empty,
        }
    } else {
        &empty
    };
    assert(ch@ == (if is_node(w, g as int) { node_of(w, g as int).children } else { Seq::<Entity>::empty() }));
    let mut i: usize = 0;
    assert(evs@ + outputs_events(w, g, tv, m@, 0) == target);
    assert(e_start == old(evs)@);
    let mut stop = false;
    while i < ts.len() && !stop
        invariant
            i <= ts@.len(),
            w == world@,
            tv == crate::world::targets_view(ts@),
            ch@ == (if is_node(w, g as int) { node_of(w, g as int).children } else { Seq::<Entity>::empty() }),
            tv.len() == ts@.len(),
            target == e_start + outputs_events(w, g, tv, m@, 0),
            stop ==> evs@ == target,
            !stop ==> evs@ + outputs_events(w, g, tv, m@, i as nat) == target,
            forall|i: int, e: int| #![trigger tv[i][e]]
                0 <= i < ts@.len() && 0 <= e < tv[i].len() ==> map_get(m@, tv[i][e].0) is Some,
        decreases ts@.len() - i + (if stop { 0int } else { 1int }),
    {
        let found = crate::undo::find_connector(world, ch, ConnectorType::Out, i);
        if found.is_none() {
            assert(outputs_events(w, g, tv, m@, i as nat) =~= Seq::<ConnectEvent>::empty());
            assert(evs@ =~= target);
            stop = true;
        } else {
        let o = found.unwrap();
        let ghost before = evs@;
        let tm = &ts[i];
        let ghost tmv = tm@;
        assert(tmv == tv[i as int]);
        let ghost parts = tmv.map_values(
            |e: (Entity, Seq<usize>)| entry_events(w, o, i, map_get(m@, e.0).unwrap(), e.1),
        );
        let mut k: usize = 0;
        assert(parts.take(0) =~= Seq::<Seq<ConnectEvent>>::empty());
        assert(before + concat(parts.take(0)) =~= before);
        while k < tm.entries.len()
            invariant
                k <= tm.entries@.len(),
                w == world@,
                tmv == tm@,
                i < ts@.len(),
                tmv == tv[i as int],
                parts == tmv.map_values(
                    |e: (Entity, Seq<usize>)| entry_events(w, o, i, map_get(m@, e.0).unwrap(), e.1),
                ),
                forall|i: int, e: int| #![trigger tv[i][e]]
                    0 <= i < ts@.len() && 0 <= e < tv[i].len() ==> map_get(m@, tv[i][e].0) is Some,
                evs@ == before + concat(parts.take(k as int)),
            decreases tm.entries@.len() - k,
        {
            let key = tm.entries[k].gate;
            assert(tv[i as int][k as int].0 == key);
            let gi = match lookup(m, key) {
                Some(x) => x,
                None => 0,
            };
            let ghost mid = evs@;
            push_entry_events(world, o, i, gi, &tm.entries[k].indices, evs);
            proof {
                lemma_concat_take(parts, k as int);
                assert(parts[k as int] == entry_events(w, o, i, gi, tm.entries@[k as int].indices@));
                assert(before + concat(parts.take(k + 1)) =~= mid + parts[k as int]);
            }
            k = k + 1;
        }
        assert(parts.take(k as int) =~= parts);
        assert(concat(parts) == output_events(w, o, i, tv[i as int], m@));
        assert(outputs_events(w, g, tv, m@, i as nat) == output_events(w, o, i, tv[i as int], m@)
            + outputs_events(w, g, tv, m@, (i + 1) as nat));
        assert(evs@ + outputs_events(w, g, tv, m@, (i + 1) as nat) =~= before + outputs_events(w, g, tv, m@, i as nat));
        i = i + 1;
        }
    }
    if !stop {
        assert(outputs_events(w, g, tv, m@, i as nat) =~= Seq::<ConnectEvent>::empty());
    }
    assert(evs@ =~= target);
}

/// The world after spawning the loaded components `cs` in order, and the
/// pairs of old and new entities of those spawned.
pub open spec fn load_spawn(w: WorldView, cs: Seq<ComponentView>) -> (WorldView, Seq<(Entity, Entity)>)
    decreases cs.len(),
{
    if cs.len() == 0 {
        (w, Seq::empty())
    } else {
        let (w1, m) = load_spawn(w, cs.drop_last());
        match spawn_args(cs.last()) {
            Some(_) => (spec_insert_one(w1, cs.last()), m.push((cs.last().id, w1.len() as Entity))),
            None => (w1, m),
        }
    }
}

/// `w` after the connect requests `evs`, in order; a request the world
/// cannot carry out at its turn is passed over.
pub open spec fn apply_connects(w: WorldView, evs: Seq<ConnectEvent>) -> WorldView
    decreases evs.len(),
{
    if evs.len() == 0 {
        w
    } else {
        let v = apply_connects(w, evs.drop_last());
        if connect_ok(v, evs.last()) {
            spec_connect(v, evs.last())
        } else {
            v
        }
    }
}

/// The old entities of the components among `cs` that are spawned.
pub open spec fn spawned_ids(cs: Seq<ComponentView>) -> Seq<Entity>
    decreases cs.len(),
{
    if cs.len() == 0 {
        Seq::empty()
    } else {
        let r = spawned_ids(cs.drop_last());
        if spawn_args(cs.last()) is Some {
            r.push(cs.last().id)
        } else {
            r
        }
    }
}

/// The old entities that loading maps are those of the spawned components.
pub proof fn lemma_load_map_keys(w: WorldView, cs: Seq<ComponentView>, k: Entity)
    ensures
        map_get(load_spawn(w, cs).1, k) is Some <==> spawned_ids(cs).contains(k),
    decreases cs.len(),
{
    if cs.len() > 0 {
        lemma_load_map_keys(w, cs.drop_last(), k);
        let r = spawned_ids(cs.drop_last());
        let (w1, m) = load_spawn(w, cs.drop_last());
        if spawn_args(cs.last()) is Some {
            assert(m.push((cs.last().id, w1.len() as Entity)).drop_last() =~= m);
            if r.contains(k) {
                let j = choose|j: int| 0 <= j < r.len() && r[j] == k;
                assert(r.push(cs.last().id)[j] == k);
            }
            if r.push(cs.last().id).contains(k) && k != cs.last().id {
                let j = choose|j: int| 0 <= j < r.push(cs.last().id).len() && r.push(cs.last().id)[j] == k;
                assert(r[j] == k);
            }
            assert(r.push(cs.last().id)[r.len() as int] == cs.last().id);
        }
    }
}

/// Every old entity that linking looks up belongs to a spawned component.
pub open spec fn load_ok(cs: Seq<ComponentView>) -> bool {
    &&& forall|k: int| 0 <= k < cs.len() ==> insert_ok(#[trigger] cs[k])
    &&& forall|k: int| #![trigger cs[k]] 0 <= k < cs.len() && cs[k].targets is Some ==> {
        &&& spawned_ids(cs).contains(cs[k].id)
        &&& forall|i: int, e: int| #![trigger cs[k].targets.unwrap()[i][e]]
            0 <= i < cs[k].targets.unwrap().len() && 0 <= e < cs[k].targets.unwrap()[i].len()
            ==> spawned_ids(cs).contains(cs[k].targets.unwrap()[i][e].0)
    }
}

/// The world after loading the components `cs`: the world is cleared, the
/// components are spawned, and then linked as their target maps say.
pub open spec fn spec_load(w: WorldView, cs: Seq<ComponentView>) -> WorldView {
    let w1 = spec_clear(w);
    let (w2, m) = load_spawn(w1, cs);
    apply_connects(w2, link_events(w2, cs, m))
}

/// Spawn the components `cs` in order, recording the old and new entities.
fn spawn_loaded(world: &mut World, cs: &Vec<NodusComponent>) -> (m: Vec<(Entity, Entity)>)
    requires
        forall|k: int| 0 <= k < cs@.len() ==> insert_ok(#[trigger] cs@[k]@),
    ensures
        (final(world)@, m@) == load_spawn(old(world)@, components_view(cs@)),
{
    let ghost cv = components_view(cs@);
    let mut m: Vec<(Entity, Entity)> = Vec::new();
    let mut i: usize = 0;
    assert(cv.take(0) =~= Seq::<ComponentView>::empty());
    while i < cs.len()
        invariant
            i <= cs@.len(),
            cv == components_view(cs@),
            forall|k: int| 0 <= k < cs@.len() ==> insert_ok(#[trigger] cs@[k]@),
            (world@, m@) == load_spawn(old(world)@, cv.take(i as int)),
        decreases cs@.len() - i,
    {
        assert(cv.take(i + 1).drop_last() =~= cv.take(i as int));
        assert(cv.take(i + 1).last() == cs@[i as int]@);
        match insert_component(world, &cs[i]) {
            Some(e) => {
                m.push((cs[i].id, e));
            },
            None => {},
        }
        i = i + 1;
    }
    assert(cv.take(i as int) =~= cv);
    m
}

/// The connect requests that link the loaded components; see
/// [`link_events`].
pub fn link_gates(world: &World, cs: &Vec<NodusComponent>, m: &Vec<(Entity, Entity)>) -> (r: Vec<ConnectEvent>)
    requires
        link_ok(components_view(cs@), m@),
    ensures
        r@ == link_events(world@, components_view(cs@), m@),
{
    let ghost w = world@;
    let ghost cv = components_view(cs@);
    let ghost parts = cv.map_values(
        |c: ComponentView|
            match c.targets {
                Some(ts) => outputs_events(w, map_get(m@, c.id).unwrap(), ts, m@, 0),
                None => Seq::empty(),
            },
    );
    let mut evs: Vec<ConnectEvent> = Vec::new();
    let mut k: usize = 0;
    assert(parts.take(0) =~= Seq::<Seq<ConnectEvent>>::empty());
    while k < cs.len()
        invariant
            k <= cs@.len(),
            w == world@,
            cv == components_view(cs@),
            link_ok(cv, m@),
            parts == cv.map_values(
                |c: ComponentView|
                    match c.targets {
                        Some(ts) => outputs_events(w, map_get(m@, c.id).unwrap(), ts, m@, 0),
                        None => Seq::empty(),
                    },
            ),
            evs@ == concat(parts.take(k as int)),
        decreases cs@.len() - k,
    {
        let ghost before = evs@;
        let c = &cs[k];
        assert(cv[k as int] == c@);
        match &c.targets {
            Some(ts) => {
                let g = match lookup(m, c.id) {
                    Some(x) => x,
                    None => 0,
                };
                assert forall|i: int, e: int| #![trigger crate::world::targets_view(ts@)[i][e]]
                    0 <= i < ts@.len() && 0 <= e < crate::world::targets_view(ts@)[i].len()
                    implies map_get(m@, crate::world::targets_view(ts@)[i][e].0) is Some by {
                    assert(cv[k as int].targets.unwrap()[i][e] == crate::world::targets_view(ts@)[i][e]);
                }
                push_outputs_events(world, g, ts, m, &mut evs);
            },
            None => {},
        }
        proof {
            lemma_concat_take(parts, k as int);
            assert(evs@ =~= before + parts[k as int]);
        }
        k = k + 1;
    }
    assert(parts.take(k as int) =~= parts);
    evs
}

/// Carry out the connect requests `evs` in order, passing over those the
/// world cannot carry out at their turn; see [`apply_connects`].
pub fn connect_all(world: &mut World, evs: &Vec<ConnectEvent>)
    ensures
        final(world)@ == apply_connects(old(world)@, evs@),
{
    let mut i: usize = 0;
    assert(evs@.take(0) =~= Seq::<ConnectEvent>::empty());
    while i < evs.len()
        invariant
            i <= evs@.len(),
            world@ == apply_connects(old(world)@, evs@.take(i as int)),
        decreases evs@.len() - i,
    {
        assert(evs@.take(i + 1).drop_last() =~= evs@.take(i as int));
        if world.can_connect(&evs[i]) {
            world.connect(&evs[i]);
        }
        i = i + 1;
    }
    assert(evs@.take(i as int) =~= evs@);
}

/// Whether snapshot `c` is spawned; see [`spawn_args`].
fn is_spawned(c: &NodusComponent) -> (r: bool)
    ensures
        r == (spawn_args(c@) is Some),
{
    match c.ntype {
        crate::world::NodeType::ToggleSwitch => match c.state {
            Some(crate::save::NodeState::ToggleSwitch(_)) => true,
            _ => false,
        },
        crate::world::NodeType::Clock => match c.state {
            Some(crate::save::NodeState::Clock(_, _)) => true,
            _ => false,
        },
        crate::world::NodeType::LightBulb => match c.state {
            Some(crate::save::NodeState::LightBulb(_)) => true,
            _ => false,
        },
        crate::world::NodeType::Xnor => false,
        _ => true,
    }
}

/// Whether snapshot `c` can be spawned; see [`insert_ok`].
fn can_insert(c: &NodusComponent) -> (r: bool)
    ensures
        r == insert_ok(c@),
{
    match c.ntype {
        crate::world::NodeType::And | crate::world::NodeType::Nand | crate::world::NodeType::Or
        | crate::world::NodeType::Nor | crate::world::NodeType::Xor | crate::world::NodeType::Not => c.inputs.is_some()
            && c.outputs.is_some(),
        _ => true,
    }
}

/// Whether `v` holds entity `x`.
fn contains_entity(v: &Vec<Entity>, x: Entity) -> (r: bool)
    ensures
        r == v@.contains(x),
{
    let mut i: usize = 0;
    while i < v.len()
        invariant
            i <= v@.len(),
            forall|j: int| 0 <= j < i ==> v@[j] != x,
        decreases v@.len() - i,
    {
        if v[i] == x {
            assert(v@[i as int] == x);
            return true;
        }
        i = i + 1;
    }
    false
}

/// Whether the components `cs` can be loaded; see [`load_ok`].
pub fn check_load(cs: &Vec<NodusComponent>) -> (r: bool)
    ensures
        r == load_ok(components_view(cs@)),
{
    let ghost cv = components_view(cs@);
    let mut ids: Vec<Entity> = Vec::new();
    let mut k: usize = 0;
    assert(cv.take(0) =~= Seq::<ComponentView>::empty());
    while k < cs.len()
        invariant
            k <= cs@.len(),
            cv == components_view(cs@),
            ids@ == spawned_ids(cv.take(k as int)),
        decreases cs@.len() - k,
    {
        assert(cv.take(k + 1).drop_last() =~= cv.take(k as int));
        assert(cv.take(k + 1).last() == cs@[k as int]@);
        if is_spawned(&cs[k]) {
            ids.push(cs[k].id);
        }
        k = k + 1;
    }
    assert(cv.take(k as int) =~= cv);
    let mut k: usize = 0;
    while k < cs.len()
        invariant
            k <= cs@.len(),
            cv == components_view(cs@),
            ids@ == spawned_ids(cv),
            forall|j: int| 0 <= j < k ==> insert_ok(#[trigger] cv[j]),
            forall|j: int| #![trigger cv[j]] 0 <= j < k && cv[j].targets is Some ==> {
                &&& spawned_ids(cv).contains(cv[j].id)
                &&& forall|i: int, e: int| #![trigger cv[j].targets.unwrap()[i][e]]
                    0 <= i < cv[j].targets.unwrap().len() && 0 <= e < cv[j].targets.unwrap()[i].len()
                    ==> spawned_ids(cv).contains(cv[j].targets.unwrap()[i][e].0)
            },
        decreases cs@.len() - k,
    {
        let c = &cs[k];
        assert(cv[k as int] == c@);
        if !can_insert(c) {
            return false;
        }
        match &c.targets {
            Some(ts) => {
                if !contains_entity(&ids, c.id) {
                    return false;
                }
                let ghost tv = crate::world::targets_view(ts@);
                assert(cv[k as int].targets == Some(tv));
                let mut i: usize = 0;
                while i < ts.len()
                    invariant
                        k < cs@.len(),
                        cv == components_view(cs@),
                        cv[k as int].targets == Some(tv),
                        i <= ts@.len(),
                        tv == crate::world::targets_view(ts@),
                        ids@ == spawned_ids(cv),
                        forall|a: int, e: int| #![trigger tv[a][e]]
                            0 <= a < i && 0 <= e < tv[a].len() ==> spawned_ids(cv).contains(tv[a][e].0),
                    decreases ts@.len() - i,
                {
                    let mut e: usize = 0;
                    while e < ts[i].entries.len()
                        invariant
                            k < cs@.len(),
                            cv == components_view(cs@),
                            cv[k as int].targets == Some(tv),
                            i < ts@.len(),
                            e <= ts@[i as int].entries@.len(),
                            tv == crate::world::targets_view(ts@),
                            ids@ == spawned_ids(cv),
                            forall|a: int, e: int| #![trigger tv[a][e]]
                                0 <= a < i && 0 <= e < tv[a].len() ==> spawned_ids(cv).contains(tv[a][e].0),
                            forall|x: int| #![trigger tv[i as int][x]]
                                0 <= x < e ==> spawned_ids(cv).contains(tv[i as int][x].0),
                        decreases ts@[i as int].entries@.len() - e,
                    {
                        assert(tv[i as int][e as int].0 == ts@[i as int].entries@[e as int].gate);
                        if !contains_entity(&ids, ts[i].entries[e].gate) {
                            assert(cv[k as int].targets.unwrap()[i as int][e as int] == tv[i as int][e as int]);
                            assert(!spawned_ids(cv).contains(cv[k as int].targets.unwrap()[i as int][e as int].0));
                            return false;
                        }
                        e = e + 1;
                    }
                    i = i + 1;
                }
            },
            None => {},
        }
        k = k + 1;
    }
    true
}

/// Load the components `cs`; see [`spec_load`]. Returns the pairs of old and
/// new entities.
pub fn load(world: &mut World, cs: &Vec<NodusComponent>) -> (m: Vec<(Entity, Entity)>)
    requires
        load_ok(components_view(cs@)),
    ensures
        final(world)@ == spec_load(old(world)@, components_view(cs@)),
        m@ == load_spawn(spec_clear(old(world)@), components_view(cs@)).1,
{
    let ghost cv = components_view(cs@);
    assert forall|k: int| 0 <= k < cs@.len() implies insert_ok(#[trigger] cs@[k]@) by {
        assert(cv[k] == cs@[k]@);
    }
    clear_world(world);
    let ghost w1 = world@;
    let m = spawn_loaded(world, cs);
    proof {
        assert forall|k: int| #![trigger cv[k]] 0 <= k < cv.len() && cv[k].targets is Some implies {
            &&& map_get(m@, cv[k].id) is Some
            &&& forall|i: int, e: int| #![trigger cv[k].targets.unwrap()[i][e]]
                0 <= i < cv[k].targets.unwrap().len() && 0 <= e < cv[k].targets.unwrap()[i].len()
                ==> map_get(m@, cv[k].targets.unwrap()[i][e].0) is Some
        } by {
            lemma_load_map_keys(w1, cv, cv[k].id);
            assert forall|i: int, e: int| #![trigger cv[k].targets.unwrap()[i][e]]
                0 <= i < cv[k].targets.unwrap().len() && 0 <= e < cv[k].targets.unwrap()[i].len()
                implies map_get(m@, cv[k].targets.unwrap()[i][e].0) is Some by {
                lemma_load_map_keys(w1, cv, cv[k].targets.unwrap()[i][e].0);
            }
        }
    }
    let evs = link_gates(world, cs, &m);
    connect_all(world, &evs);
    m
}

} // verus!

verus! {

/// Clearing the world despawns every saved component and every connection
/// line; the world keeps its number of entities.
pub proof fn law_clear_removes_saved(w: WorldView)
    requires
        w.len() <= usize::MAX,
    ensures
        spec_clear(w).len() == w.len(),
        forall|e: int| 0 <= e < w.len() ==> !saved_node(spec_clear(w), e) && !is_line(#[trigger] spec_clear(w), e),
{
    let parts = clear_parts(w);
    let ks = concat(parts);
    assert forall|e: int| 0 <= e < w.len() implies !saved_node(spec_clear(w), e) && !is_line(#[trigger] spec_clear(w), e) by {
        lemma_vacate_seq_at(w, ks, e);
        if saved_node(w, e) || is_line(w, e) {
            assert(parts[e][0] == e as Entity);
            lemma_concat_contains(parts, e, 0);
        }
    }
    if w.len() > 0 {
        lemma_vacate_seq_at(w, ks, 0);
    } else {
        assert(spec_clear(w) == vacate_seq(w, ks));
        lemma_vacate_len(w, ks);
    }
}


} // verus!

verus! {

/// `b` holds every component of `a` as it is in `a` but for its target
/// maps: connecting changes no more of a component than that.
pub open spec fn same_but_links(a: WorldView, b: WorldView) -> bool {
    &&& a.len() <= b.len()
    &&& forall|e: int| #![trigger a[e]] is_node(a, e) ==> is_node(b, e) && set_targets(node_of(b, e), Seq::empty())
        == set_targets(node_of(a, e), Seq::empty())
}

/// Connecting changes the components in their target maps only.
pub proof fn lemma_connect_links_only(w: WorldView, ev: ConnectEvent)
    ensures
        same_but_links(w, spec_connect(w, ev)),
{
    let w1 = w.push(SlotView::Line(event_line(ev)));
    let w2 = connect_w2(w, ev);
    let w3 = connect_w3(w, ev);
    let r = spec_connect(w, ev);
    assert forall|e: int| #![trigger w[e]] is_node(w, e) implies is_node(r, e) && set_targets(node_of(r, e), Seq::empty())
        == set_targets(node_of(w, e), Seq::empty()) by {
        assert(w1[e] == w[e]);
        assert(w3[e] == w[e]);
    }
}

/// Carrying out connect requests changes the components in their target
/// maps only.
pub proof fn lemma_connects_links_only(w: WorldView, evs: Seq<ConnectEvent>)
    ensures
        same_but_links(w, apply_connects(w, evs)),
    decreases evs.len(),
{
    if evs.len() > 0 {
        lemma_connects_links_only(w, evs.drop_last());
        let v = apply_connects(w, evs.drop_last());
        lemma_connect_links_only(v, evs.last());
        let r = apply_connects(w, evs);
        assert forall|e: int| #![trigger w[e]] is_node(w, e) implies is_node(r, e) && set_targets(node_of(r, e), Seq::empty())
            == set_targets(node_of(w, e), Seq::empty()) by {
            assert(is_node(v, e) && v[e] is Node);
        }
    }
}

/// No two components of `cs` name the same entity.
pub open spec fn distinct_ids(cs: Seq<ComponentView>) -> bool {
    forall|a: int, b: int| 0 <= a < b < cs.len() ==> cs[a].id != cs[b].id
}

/// Spawning the loaded components appends to the world.
pub proof fn lemma_load_spawn_prefix(w: WorldView, cs: Seq<ComponentView>)
    ensures
        load_spawn(w, cs).0.len() >= w.len(),
        load_spawn(w, cs).0.take(w.len() as int) == w,
    decreases cs.len(),
{
    if cs.len() > 0 {
        lemma_load_spawn_prefix(w, cs.drop_last());
        let w1 = load_spawn(w, cs.drop_last()).0;
        let w2 = load_spawn(w, cs).0;
        assert(w2.take(w1.len() as int) =~= w1);
        assert(w2.take(w.len() as int) =~= w1.take(w.len() as int));
    }
}

/// A loaded component with a spawn is found under its old entity, as the
/// component its snapshot spawns.
pub proof fn lemma_load_spawn_node(w: WorldView, cs: Seq<ComponentView>, k: int)
    requires
        0 <= k < cs.len(),
        spawn_args(cs[k]) is Some,
        distinct_ids(cs),
        load_spawn(w, cs).0.len() <= usize::MAX,
    ensures
        ({
            let (w2, m) = load_spawn(w, cs);
            let (i, o, s, t) = spawn_args(cs[k]).unwrap();
            map_get(m, cs[k].id) matches Some(a) && is_node(w2, a as int) && node_of(w2, a as int) == with_children(
                kind_node(cs[k].ntype, i, o, s, t, cs[k].placement),
                node_of(w2, a as int).children,
            )
        }),
    decreases cs.len(),
{
    let (w1, m1) = load_spawn(w, cs.drop_last());
    let c = cs.last();
    lemma_load_spawn_prefix(w1, seq![c]);
    assert(seq![c].drop_last() =~= Seq::<ComponentView>::empty());
    assert(load_spawn(w1, seq![c].drop_last()) == (w1, Seq::<(Entity, Entity)>::empty()));
    assert(seq![c].last() == c);
    assert(load_spawn(w1, seq![c]).0 == load_spawn(w, cs).0);
    if k == cs.len() - 1 {
        let (i, o, s, t) = spawn_args(c).unwrap();
        let added = spawned_slots(kind_node(c.ntype, i, o, s, t, c.placement), kind_layout(c.ntype, i, o), w1.len() as Entity);
        assert(load_spawn(w, cs).0 == w1 + added);
        assert((w1 + added)[w1.len() as int] == added[0]);
    } else {
        assert forall|a: int, b: int| 0 <= a < b < cs.drop_last().len() implies cs.drop_last()[a].id != cs.drop_last()[b].id by {
            assert(cs[a].id != cs[b].id);
        }
        lemma_load_spawn_prefix(w, cs.drop_last());
        lemma_load_spawn_node(w, cs.drop_last(), k);
        let a = map_get(m1, cs[k].id).unwrap();
        let w2 = load_spawn(w, cs).0;
        assert(w2.take(w1.len() as int)[a as int] == w1[a as int]);
        assert(cs.drop_last()[k] == cs[k]);
        assert(cs[k].id != c.id);
        if spawn_args(c) is Some {
            let m2 = m1.push((c.id, w1.len() as Entity));
            assert(m2.drop_last() =~= m1);
        }
    }
}

/// Loading keeps each component a save file describes as its kind shapes
/// it: the component spawned for it, found under its old entity, has the
/// same name, numbers of inputs and outputs, placement, kind and state;
/// only its entity and its target maps are new.
pub proof fn law_load_keeps_components(w: WorldView, cs: Seq<ComponentView>, k: int)
    requires
        load_ok(cs),
        distinct_ids(cs),
        0 <= k < cs.len(),
        snapshot_shaped(cs[k]),
        w.len() <= usize::MAX,
        load_spawn(spec_clear(w), cs).0.len() <= usize::MAX,
    ensures
        ({
            let m = load_spawn(spec_clear(w), cs).1;
            let r = spec_load(w, cs);
            map_get(m, cs[k].id) matches Some(a) && saved_node(r, a as int) && same_saved(
                spec_snapshot(a, node_of(r, a as int)),
                cs[k],
            )
        }),
{
    let w1 = spec_clear(w);
    let (w2, m) = load_spawn(w1, cs);
    let r = spec_load(w, cs);
    lemma_respawn_shaped(cs[k], 0, Seq::empty());
    lemma_load_spawn_node(w1, cs, k);
    let a = map_get(m, cs[k].id).unwrap();
    let n2 = node_of(w2, a as int);
    lemma_respawn_shaped(cs[k], a, n2.children);
    lemma_connects_links_only(w2, link_events(w2, cs, m));
    assert(w2[a as int] is Node);
    let nr = node_of(r, a as int);
    assert(set_targets(nr, Seq::empty()) == set_targets(n2, Seq::empty()));
    assert(nr.kind == n2.kind && nr.name == n2.name && nr.inputs == n2.inputs && nr.outputs == n2.outputs
        && nr.clock == n2.clock && nr.placement == n2.placement);
}

} // verus!

verus! {

/// The snapshots of a world are those of its saved components, each once,
/// in the order of the entities.
pub proof fn lemma_world_snapshot(w: WorldView, upto: nat)
    requires
        upto <= w.len(),
        w.len() <= usize::MAX,
    ensures
        ({
            let cs = world_snapshot(w, upto);
            &&& forall|j: int| #![trigger cs[j]] 0 <= j < cs.len() ==> cs[j].id < upto && saved_node(w, cs[j].id as int)
                && cs[j] == spec_snapshot(cs[j].id, node_of(w, cs[j].id as int))
            &&& forall|a: int, b: int| 0 <= a < b < cs.len() ==> cs[a].id < cs[b].id
            &&& forall|e: int| 0 <= e < upto && saved_node(w, e) ==> exists|j: int| 0 <= j < cs.len() && #[trigger] cs[j].id
                == e
        }),
    decreases upto,
{
    if upto > 0 {
        lemma_world_snapshot(w, (upto - 1) as nat);
        let r = world_snapshot(w, (upto - 1) as nat);
        let cs = world_snapshot(w, upto);
        let e = upto - 1;
        if saved_node(w, e) {
            assert(cs == r.push(spec_snapshot(e as Entity, node_of(w, e))));
            assert forall|x: int| 0 <= x < upto && saved_node(w, x) implies exists|j: int| 0 <= j < cs.len() && #[trigger] cs[j].id
                == x by {
                if x == e {
                    assert(cs[r.len() as int].id == x);
                } else {
                    let j = choose|j: int| 0 <= j < r.len() && #[trigger] r[j].id == x;
                    assert(cs[j].id == x);
                }
            }
        }
    }
}

/// Every component a saved component's target maps name is saved too.
pub open spec fn targets_saved(w: WorldView) -> bool {
    forall|e: int, i: int, x: int| #![trigger node_of(w, e).targets.unwrap()[i][x]]
        saved_node(w, e) && node_of(w, e).targets is Some && 0 <= i < node_of(w, e).targets.unwrap().len() && 0 <= x
            < node_of(w, e).targets.unwrap()[i].len() ==> saved_node(w, node_of(w, e).targets.unwrap()[i][x].0 as int)
}

/// Every saved component of `w` is shaped as its kind.
pub open spec fn saved_shaped(w: WorldView) -> bool {
    forall|e: int| #![trigger w[e]] saved_node(w, e) ==> kind_shaped(node_of(w, e))
}

/// Every spawned snapshot's entity is among the spawned ones.
proof fn lemma_spawned_ids_contains(cs: Seq<ComponentView>, j: int)
    requires
        0 <= j < cs.len(),
        spawn_args(cs[j]) is Some,
    ensures
        spawned_ids(cs).contains(cs[j].id),
    decreases cs.len(),
{
    if j < cs.len() - 1 {
        lemma_spawned_ids_contains(cs.drop_last(), j);
        let r = spawned_ids(cs.drop_last());
        let x = choose|x: int| 0 <= x < r.len() && r[x] == cs[j].id;
        if spawn_args(cs.last()) is Some {
            assert(r.push(cs.last().id)[x] == cs[j].id);
        }
    } else {
        let r = spawned_ids(cs.drop_last());
        assert(r.push(cs.last().id)[r.len() as int] == cs[j].id);
    }
}

/// Saving a circuit and loading it gives back every saved component: the
/// component spawned for a saved component, found under its old entity,
/// has the same name, numbers of inputs and outputs, placement, kind and
/// state. This holds of a world whose saved components are shaped as their
/// kinds and whose target maps name saved components only.
pub proof fn law_save_then_load(w: WorldView, w0: WorldView, e: int)
    requires
        saved_shaped(w),
        targets_saved(w),
        saved_node(w, e),
        w.len() <= usize::MAX,
        w0.len() <= usize::MAX,
        load_spawn(spec_clear(w0), world_snapshot(w, w.len())).0.len() <= usize::MAX,
    ensures
        ({
            let cs = world_snapshot(w, w.len());
            let m = load_spawn(spec_clear(w0), cs).1;
            let r = spec_load(w0, cs);
            &&& load_ok(cs)
            &&& map_get(m, e as Entity) matches Some(a) && saved_node(r, a as int) && same_saved(
                spec_snapshot(a, node_of(r, a as int)),
                spec_snapshot(e as Entity, node_of(w, e)),
            )
        }),
{
    let cs = world_snapshot(w, w.len());
    lemma_world_snapshot(w, w.len());
    assert forall|j: int| 0 <= j < cs.len() implies snapshot_shaped(#[trigger] cs[j]) by {
        assert(w[cs[j].id as int] is Node);
        lemma_snapshot_shaped(cs[j].id, node_of(w, cs[j].id as int));
    }
    assert forall|j: int| 0 <= j < cs.len() implies insert_ok(#[trigger] cs[j]) && spawned_ids(cs).contains(cs[j].id) by {
        lemma_respawn_shaped(cs[j], 0, Seq::empty());
        lemma_spawned_ids_contains(cs, j);
    }
    assert forall|k: int| #![trigger cs[k]] 0 <= k < cs.len() && cs[k].targets is Some implies {
        &&& spawned_ids(cs).contains(cs[k].id)
        &&& forall|i: int, x: int| #![trigger cs[k].targets.unwrap()[i][x]]
            0 <= i < cs[k].targets.unwrap().len() && 0 <= x < cs[k].targets.unwrap()[i].len()
            ==> spawned_ids(cs).contains(cs[k].targets.unwrap()[i][x].0)
    } by {
        assert forall|i: int, x: int| #![trigger cs[k].targets.unwrap()[i][x]]
            0 <= i < cs[k].targets.unwrap().len() && 0 <= x < cs[k].targets.unwrap()[i].len()
            implies spawned_ids(cs).contains(cs[k].targets.unwrap()[i][x].0) by {
            let g = cs[k].targets.unwrap()[i][x].0;
            let ek = cs[k].id as int;
            assert(cs[k].targets == node_of(w, ek).targets);
            assert(node_of(w, ek).targets.unwrap()[i][x].0 == g);
            assert(saved_node(w, g as int));
            let j = choose|j: int| 0 <= j < cs.len() && #[trigger] cs[j].id == g as int;
            assert(spawned_ids(cs).contains(cs[j].id));
        }
    }
    assert(load_ok(cs));
    assert(distinct_ids(cs));
    let j = choose|j: int| 0 <= j < cs.len() && #[trigger] cs[j].id == e;
    law_load_keeps_components(w0, cs, j);
}

} // verus!

verus! {

/// A loaded component with a spawn is found under its old entity, with the
/// slots that spawning its snapshot appended: the component and its
/// connectors.
pub proof fn lemma_load_spawn_slots(w: WorldView, cs: Seq<ComponentView>, k: int)
    requires
        0 <= k < cs.len(),
        spawn_args(cs[k]) is Some,
        distinct_ids(cs),
        load_spawn(w, cs).0.len() <= usize::MAX,
    ensures
        ({
            let (w2, m) = load_spawn(w, cs);
            let (i, o, s, t) = spawn_args(cs[k]).unwrap();
            map_get(m, cs[k].id) matches Some(a) && {
                let sl = spawned_slots(
                    kind_node(cs[k].ntype, i, o, s, t, cs[k].placement),
                    kind_layout(cs[k].ntype, i, o),
                    a,
                );
                &&& a + sl.len() <= w2.len()
                &&& forall|q: int| 0 <= q < sl.len() ==> #[trigger] w2[a + q] == sl[q]
            }
        }),
    decreases cs.len(),
{
    let (w1, m1) = load_spawn(w, cs.drop_last());
    let c = cs.last();
    lemma_load_spawn_prefix(w1, seq![c]);
    assert(seq![c].drop_last() =~= Seq::<ComponentView>::empty());
    assert(load_spawn(w1, seq![c].drop_last()) == (w1, Seq::<(Entity, Entity)>::empty()));
    assert(seq![c].last() == c);
    assert(load_spawn(w1, seq![c]).0 == load_spawn(w, cs).0);
    let w2 = load_spawn(w, cs).0;
    if k == cs.len() - 1 {
        let (i, o, s, t) = spawn_args(c).unwrap();
        let added = spawned_slots(kind_node(c.ntype, i, o, s, t, c.placement), kind_layout(c.ntype, i, o), w1.len() as Entity);
        assert(w2 == w1 + added);
        assert forall|q: int| 0 <= q < added.len() implies #[trigger] w2[w1.len() + q] == added[q] by {}
    } else {
        assert forall|a: int, b: int| 0 <= a < b < cs.drop_last().len() implies cs.drop_last()[a].id != cs.drop_last()[b].id by {
            assert(cs[a].id != cs[b].id);
        }
        lemma_load_spawn_prefix(w, cs.drop_last());
        lemma_load_spawn_slots(w, cs.drop_last(), k);
        let a = map_get(m1, cs[k].id).unwrap();
        assert(cs.drop_last()[k] == cs[k]);
        assert(cs[k].id != c.id);
        if spawn_args(c) is Some {
            let m2 = m1.push((c.id, w1.len() as Entity));
            assert(m2.drop_last() =~= m1);
        }
        let (i, o, s, t) = spawn_args(cs[k]).unwrap();
        let sl = spawned_slots(kind_node(cs[k].ntype, i, o, s, t, cs[k].placement), kind_layout(cs[k].ntype, i, o), a);
        assert forall|q: int| 0 <= q < sl.len() implies #[trigger] w2[a + q] == sl[q] by {
            assert(w2.take(w1.len() as int)[a + q] == w1[a + q]);
        }
    }
}

} // verus!

verus! {

/// Entity `c` of `w` is a connector of type `ct` and index `idx`.
pub open spec fn conn_is(w: WorldView, c: Entity, ct: ConnectorType, idx: usize) -> bool {
    is_connector(w, c as int) && connector_of(w, c as int).connector == (Connector { ctype: ct, index: idx })
}

/// Searching `ch` from position `p` finds the first connector of the type
/// and index there.
pub proof fn lemma_find_first(w: WorldView, ch: Seq<Entity>, ct: ConnectorType, idx: usize, p: int, pos: int)
    requires
        0 <= p <= pos < ch.len(),
        conn_is(w, ch[pos], ct, idx),
        forall|q: int| p <= q < pos ==> !conn_is(w, #[trigger] ch[q], ct, idx),
    ensures
        find_conn(w, ch.subrange(p, ch.len() as int), ct, idx) == Some(ch[pos]),
    decreases pos - p,
{
    let s = ch.subrange(p, ch.len() as int);
    assert(s[0] == ch[p]);
    if p < pos {
        assert(!conn_is(w, ch[p], ct, idx));
        lemma_find_first(w, ch, ct, idx, p + 1, pos);
        assert(s.subrange(1, s.len() as int) =~= ch.subrange(p + 1, ch.len() as int));
    }
}

/// The connectors of a component spawned as entity `a` with `nin` input
/// and `nout` output connectors: input `j` is entity `a + 1 + j`, output
/// `i` is entity `a + 1 + nin + i`, and searching finds them.
pub proof fn lemma_find_spawned(w: WorldView, nd: NodeView, a: Entity, nin: nat, nout: nat)
    requires
        ({
            let sl = spawned_slots(nd, in_out_layout(nin, nout), a);
            &&& a + sl.len() <= w.len()
            &&& w.len() <= usize::MAX
            &&& forall|q: int| 0 <= q < sl.len() ==> #[trigger] w[a + q] == sl[q]
        }),
    ensures
        is_node(w, a as int),
        node_of(w, a as int).children == Seq::new(nin + nout, |t: int| (a + 1 + t) as Entity),
        forall|j: int| 0 <= j < nin ==> #[trigger] find_conn(w, node_of(w, a as int).children, ConnectorType::In, j as usize) == Some(
            (a + 1 + j) as Entity,
        ) && conn_is(w, (a + 1 + j) as Entity, ConnectorType::In, j as usize) && connector_of(w, a + 1 + j).parent == a,
        forall|i: int| 0 <= i < nout ==> #[trigger] find_conn(w, node_of(w, a as int).children, ConnectorType::Out, i as usize) == Some(
            (a + 1 + nin + i) as Entity,
        ) && conn_is(w, (a + 1 + nin + i) as Entity, ConnectorType::Out, i as usize) && connector_of(w, a + 1 + nin + i).parent
            == a,
{
    let lay = in_out_layout(nin, nout);
    let sl = spawned_slots(nd, lay, a);
    let ch = Seq::new(nin + nout, |t: int| (a + 1 + t) as Entity);
    assert(w[a + 0] == sl[0]);
    assert(node_of(w, a as int).children =~= ch);
    assert forall|t: int| 0 <= t < nin + nout implies is_connector(w, #[trigger] ch[t] as int) && connector_of(w, ch[t] as int)
        == (ConnectorView { parent: a, connector: lay[t], connections: Seq::empty(), free: true }) by {
        assert(w[a + (1 + t)] == sl[1 + t]);
        assert(ch[t] as int == a + 1 + t);
    }
    assert(ch.subrange(0, ch.len() as int) =~= ch);
    assert forall|j: int| 0 <= j < nin implies #[trigger] find_conn(w, node_of(w, a as int).children, ConnectorType::In, j as usize) == Some(
        (a + 1 + j) as Entity,
    ) && conn_is(w, (a + 1 + j) as Entity, ConnectorType::In, j as usize) && connector_of(w, a + 1 + j).parent == a by {
        assert(lay[j] == Connector { ctype: ConnectorType::In, index: j as usize });
        assert forall|q: int| 0 <= q < j implies !conn_is(w, #[trigger] ch[q], ConnectorType::In, j as usize) by {
            assert(lay[q] == Connector { ctype: ConnectorType::In, index: q as usize });
        }
        lemma_find_first(w, ch, ConnectorType::In, j as usize, 0, j);
    }
    assert forall|i: int| 0 <= i < nout implies #[trigger] find_conn(w, node_of(w, a as int).children, ConnectorType::Out, i as usize) == Some(
        (a + 1 + nin + i) as Entity,
    ) && conn_is(w, (a + 1 + nin + i) as Entity, ConnectorType::Out, i as usize) && connector_of(w, a + 1 + nin + i).parent
        == a by {
        assert(lay[nin + i] == Connector { ctype: ConnectorType::Out, index: i as usize });
        assert forall|q: int| 0 <= q < nin + i implies !conn_is(w, #[trigger] ch[q], ConnectorType::Out, i as usize) by {
            if q < nin {
                assert(lay[q] == Connector { ctype: ConnectorType::In, index: q as usize });
            } else {
                assert(lay[q] == Connector { ctype: ConnectorType::Out, index: (q - nin) as usize });
            }
        }
        lemma_find_first(w, ch, ConnectorType::Out, i as usize, 0, nin + i);
    }
}

} // verus!

verus! {

/// A sequence that holds `x` at position `j` contains it.
proof fn lemma_contains_at<A>(s: Seq<A>, j: int, x: A)
    requires
        0 <= j < s.len(),
        s[j] == x,
    ensures
        s.contains(x),
{
}

/// An element of the concatenation's parts is in it.
proof fn lemma_concat_has<A>(ss: Seq<Seq<A>>, k: int, x: A)
    requires
        0 <= k < ss.len(),
        ss[k].contains(x),
    ensures
        concat(ss).contains(x),
{
    let j = choose|j: int| 0 <= j < ss[k].len() && ss[k][j] == x;
    lemma_concat_contains(ss, k, j);
}

/// The connect request for an input connector of component `b` that the
/// indices `idxs` name is among those of [`entry_events`].
pub proof fn lemma_entry_event_in(w: WorldView, o: Entity, i: usize, b: Entity, idxs: Seq<usize>, t: int)
    requires
        is_node(w, b as int),
        0 <= t < node_of(w, b as int).children.len(),
        is_connector(w, node_of(w, b as int).children[t] as int),
        connector_of(w, node_of(w, b as int).children[t] as int).connector.ctype == ConnectorType::In,
        idxs.contains(connector_of(w, node_of(w, b as int).children[t] as int).connector.index),
    ensures
        entry_events(w, o, i, b, idxs).contains(
            ConnectEvent {
                output: o,
                output_index: i,
                input: node_of(w, b as int).children[t],
                input_index: connector_of(w, node_of(w, b as int).children[t] as int).connector.index,
                signal_success: false,
            },
        ),
{
    let ch = node_of(w, b as int).children;
    let c = ch[t];
    let ev = ConnectEvent {
        output: o,
        output_index: i,
        input: c,
        input_index: connector_of(w, c as int).connector.index,
        signal_success: false,
    };
    let parts = ch.map_values(
        |c: Entity|
            if is_connector(w, c as int) && connector_of(w, c as int).connector.ctype == ConnectorType::In
                && idxs.contains(connector_of(w, c as int).connector.index) {
                seq![
                    ConnectEvent {
                        output: o,
                        output_index: i,
                        input: c,
                        input_index: connector_of(w, c as int).connector.index,
                        signal_success: false,
                    },
                ]
            } else {
                Seq::empty()
            },
    );
    assert(parts[t] == seq![ev]);
    lemma_contains_at(parts[t], 0, ev);
    lemma_concat_has(parts, t, ev);
}

/// The connect requests of an entry of a target map are among those of the
/// output.
pub proof fn lemma_output_event_in(
    w: WorldView,
    o: Entity,
    i: usize,
    tm: TargetSeq,
    m: Seq<(Entity, Entity)>,
    x: int,
    ev: ConnectEvent,
)
    requires
        0 <= x < tm.len(),
        entry_events(w, o, i, map_get(m, tm[x].0).unwrap(), tm[x].1).contains(ev),
    ensures
        output_events(w, o, i, tm, m).contains(ev),
{
    let parts = tm.map_values(
        |e: (Entity, Seq<usize>)| entry_events(w, o, i, map_get(m, e.0).unwrap(), e.1),
    );
    assert(parts[x] == entry_events(w, o, i, map_get(m, tm[x].0).unwrap(), tm[x].1));
    lemma_concat_has(parts, x, ev);
}

/// The connect requests of output `i` of component `g` are among those of
/// its outputs from `i0` on, where each of those outputs up to `i` has an
/// output connector.
pub proof fn lemma_outputs_event_in(
    w: WorldView,
    g: Entity,
    ts: Seq<TargetSeq>,
    m: Seq<(Entity, Entity)>,
    i0: nat,
    i: nat,
    ev: ConnectEvent,
)
    requires
        is_node(w, g as int),
        i0 <= i < ts.len(),
        i <= usize::MAX,
        forall|q: nat| i0 <= q <= i ==> #[trigger] find_conn(w, node_of(w, g as int).children, ConnectorType::Out, q as usize)
            is Some,
        output_events(
            w,
            find_conn(w, node_of(w, g as int).children, ConnectorType::Out, i as usize).unwrap(),
            i as usize,
            ts[i as int],
            m,
        ).contains(ev),
    ensures
        outputs_events(w, g, ts, m, i0).contains(ev),
    decreases i - i0,
{
    let ch = node_of(w, g as int).children;
    assert(find_conn(w, ch, ConnectorType::Out, i0 as usize) is Some);
    let o = find_conn(w, ch, ConnectorType::Out, i0 as usize).unwrap();
    let left = output_events(w, o, i0 as usize, ts[i0 as int], m);
    let right = outputs_events(w, g, ts, m, i0 + 1);
    assert(outputs_events(w, g, ts, m, i0) == left + right);
    if i0 == i {
        let j = choose|j: int| 0 <= j < left.len() && left[j] == ev;
        assert((left + right)[j] == ev);
    } else {
        lemma_outputs_event_in(w, g, ts, m, i0 + 1, i, ev);
        let j = choose|j: int| 0 <= j < right.len() && right[j] == ev;
        assert((left + right)[left.len() + j] == ev);
    }
}

/// The connect requests of a loaded component are among those that link
/// the loaded components.
pub proof fn lemma_link_event_in(w: WorldView, cs: Seq<ComponentView>, m: Seq<(Entity, Entity)>, k: int, ev: ConnectEvent)
    requires
        0 <= k < cs.len(),
        cs[k].targets is Some,
        outputs_events(w, map_get(m, cs[k].id).unwrap(), cs[k].targets.unwrap(), m, 0).contains(ev),
    ensures
        link_events(w, cs, m).contains(ev),
{
    let parts = cs.map_values(
        |c: ComponentView|
            match c.targets {
                Some(ts) => outputs_events(w, map_get(m, c.id).unwrap(), ts, m, 0),
                None => Seq::empty(),
            },
    );
    assert(parts[k] == outputs_events(w, map_get(m, cs[k].id).unwrap(), cs[k].targets.unwrap(), m, 0));
    lemma_concat_has(parts, k, ev);
}

} // verus!

verus! {

/// Every connector of `a` is one of `b`, of the same component, type and
/// index.
pub open spec fn conn_kept(a: WorldView, b: WorldView) -> bool {
    forall|c: int| #![trigger a[c]] is_connector(a, c) ==> is_connector(b, c) && connector_of(b, c).parent == connector_of(
        a,
        c,
    ).parent && connector_of(b, c).connector == connector_of(a, c).connector
}

/// Every component of `a` with target maps is one of `b` with as many.
pub open spec fn targets_len_kept(a: WorldView, b: WorldView) -> bool {
    forall|e: int| #![trigger a[e]] is_node(a, e) && node_of(a, e).targets is Some ==> is_node(b, e) && node_of(b, e).targets is Some
        && node_of(b, e).targets.unwrap().len() == node_of(a, e).targets.unwrap().len()
}

/// Output `i` of component `p` of `w` drives input `j` of component `q`.
pub open spec fn has_target(w: WorldView, p: int, i: int, q: Entity, j: usize) -> bool {
    &&& is_node(w, p)
    &&& node_of(w, p).targets is Some
    &&& 0 <= i < node_of(w, p).targets.unwrap().len()
    &&& tm_pos(node_of(w, p).targets.unwrap()[i], q) matches Some(x) && node_of(w, p).targets.unwrap()[i][x].1.contains(j)
}

/// Adding an input to a target map keeps the inputs it drove.
proof fn lemma_tm_add_keeps(m: TargetSeq, g: Entity, j: usize, q: Entity, jj: usize)
    requires
        tm_pos(m, q) matches Some(x) && m[x].1.contains(jj),
    ensures
        tm_pos(tm_add(m, g, j), q) == tm_pos(m, q),
        tm_add(m, g, j)[tm_pos(m, q).unwrap()].1.contains(jj),
{
    let x = tm_pos(m, q).unwrap();
    let keys = tm_keys(m);
    keys.index_of_first_ensures(q);
    keys.index_of_first_ensures(g);
    let r = tm_add(m, g, j);
    match tm_pos(m, g) {
        Some(k) => {
            assert(tm_keys(r) =~= keys);
            if x == k {
                let y = choose|y: int| 0 <= y < m[x].1.len() && m[x].1[y] == jj;
                assert(r[x].1[y] == jj);
            }
        },
        None => {
            assert(tm_keys(r) =~= keys.push(g));
            assert forall|y: int| 0 <= y < x implies tm_keys(r)[y] != q by {
                assert(tm_keys(r)[y] == keys[y]);
            }
            lemma_first_index(tm_keys(r), q, x);
            assert(r[x] == m[x]);
        },
    }
}

/// After adding input `j` of `g` to a target map, it drives that input.
proof fn lemma_tm_add_has(m: TargetSeq, g: Entity, j: usize)
    ensures
        tm_pos(tm_add(m, g, j), g) matches Some(x) && tm_add(m, g, j)[x].1.contains(j),
{
    let keys = tm_keys(m);
    keys.index_of_first_ensures(g);
    let r = tm_add(m, g, j);
    match tm_pos(m, g) {
        Some(k) => {
            assert(tm_keys(r) =~= keys);
            assert(r[k].1[m[k].1.len() as int] == j);
        },
        None => {
            assert(tm_keys(r) =~= keys.push(g));
            assert forall|y: int| 0 <= y < m.len() implies tm_keys(r)[y] != g by {
                assert(tm_keys(r)[y] == keys[y]);
            }
            lemma_first_index(tm_keys(r), g, m.len() as int);
            assert(r[m.len() as int].1[0] == j);
        },
    }
}

/// A connection keeps every connector, every number of target maps and
/// every input an output drives.
pub proof fn lemma_connect_keeps(v: WorldView, ev: ConnectEvent)
    requires
        connect_ok(v, ev),
    ensures
        conn_kept(v, spec_connect(v, ev)),
        targets_len_kept(v, spec_connect(v, ev)),
        forall|p: int, i: int, q: Entity, j: usize| has_target(v, p, i, q, j) ==> #[trigger] has_target(
            spec_connect(v, ev),
            p,
            i,
            q,
            j,
        ),
{
    let line = v.len() as Entity;
    let w1 = v.push(SlotView::Line(event_line(ev)));
    let w2 = connect_w2(v, ev);
    let w3 = connect_w3(v, ev);
    let r = spec_connect(v, ev);
    assert forall|c: int| #![trigger v[c]] is_connector(v, c) implies is_connector(r, c) && connector_of(r, c).parent
        == connector_of(v, c).parent && connector_of(r, c).connector == connector_of(v, c).connector by {
        assert(w1[c] == v[c]);
    }
    assert forall|e: int| #![trigger v[e]] is_node(v, e) && node_of(v, e).targets is Some implies is_node(r, e) && node_of(
        r,
        e,
    ).targets is Some && node_of(r, e).targets.unwrap().len() == node_of(v, e).targets.unwrap().len() by {
        assert(w1[e] == v[e]);
        assert(w3[e] == v[e]);
        match connect_owner(v, ev) {
            Some(o) => {
                if e != o {
                    assert(r[e] == w3[e]);
                }
            },
            None => {
                assert(r == w3);
            },
        }
    }
    assert forall|p: int, i: int, q: Entity, j: usize| has_target(v, p, i, q, j) implies #[trigger] has_target(r, p, i, q, j) by {
        assert(w1[p] == v[p]);
        assert(w3[p] == v[p]);
        match connect_owner(v, ev) {
            Some(o) => {
                if o == p {
                    let ts = node_of(w3, p).targets.unwrap();
                    let in_parent = connector_of(v, ev.input as int).parent;
                    if i == ev.output_index {
                        lemma_tm_add_keeps(ts[i], in_parent, ev.input_index, q, j);
                    } else {
                        assert(node_of(r, p).targets.unwrap()[i] == ts[i]);
                    }
                } else {
                    assert(r[p] == w3[p]);
                }
            },
            None => {
                assert(r == w3);
            },
        }
    }
}

/// A connection between two connectors of `v` makes the output's component
/// drive the input of the input's component, where that component has a
/// target map for the output.
pub proof fn lemma_connect_makes(v: WorldView, ev: ConnectEvent)
    requires
        is_connector(v, ev.input as int),
        is_connector(v, ev.output as int),
        ev.input != ev.output,
        is_node(v, connector_of(v, ev.output as int).parent as int),
        node_of(v, connector_of(v, ev.output as int).parent as int).targets is Some,
        ev.output_index < node_of(v, connector_of(v, ev.output as int).parent as int).targets.unwrap().len(),
    ensures
        connect_ok(v, ev),
        has_target(
            spec_connect(v, ev),
            connector_of(v, ev.output as int).parent as int,
            ev.output_index as int,
            connector_of(v, ev.input as int).parent,
            ev.input_index,
        ),
{
    let a = connector_of(v, ev.output as int).parent as int;
    let w1 = v.push(SlotView::Line(event_line(ev)));
    let w2 = connect_w2(v, ev);
    let w3 = connect_w3(v, ev);
    let ci = connector_of(v, ev.input as int);
    assert(w2 == w1.update(ev.input as int, SlotView::Connector(conn_with(ci, ci.connections.push(v.len() as Entity), false))));
    assert(w1[ev.output as int] == v[ev.output as int]);
    assert(is_connector(w2, ev.output as int));
    assert(connector_of(w3, ev.output as int).parent as int == a);
    assert(w1[a] == v[a]);
    assert(w3[a] == v[a]);
    assert(connect_owner(v, ev) == Some(a));
    let ts = node_of(w3, a).targets.unwrap();
    lemma_tm_add_has(ts[ev.output_index as int], ci.parent, ev.input_index);
}

/// Carrying out connect requests keeps every connector, every number of
/// target maps and every input an output drives.
pub proof fn lemma_connects_keep(w: WorldView, evs: Seq<ConnectEvent>)
    ensures
        conn_kept(w, apply_connects(w, evs)),
        targets_len_kept(w, apply_connects(w, evs)),
        forall|p: int, i: int, q: Entity, j: usize| has_target(w, p, i, q, j) ==> #[trigger] has_target(
            apply_connects(w, evs),
            p,
            i,
            q,
            j,
        ),
    decreases evs.len(),
{
    if evs.len() > 0 {
        lemma_connects_keep(w, evs.drop_last());
        let v = apply_connects(w, evs.drop_last());
        if connect_ok(v, evs.last()) {
            lemma_connect_keeps(v, evs.last());
        }
        let r = apply_connects(w, evs);
        assert forall|c: int| #![trigger w[c]] is_connector(w, c) implies is_connector(r, c) && connector_of(r, c).parent
            == connector_of(w, c).parent && connector_of(r, c).connector == connector_of(w, c).connector by {
            assert(is_connector(v, c) && v[c] is Connector);
        }
        assert forall|e: int| #![trigger w[e]] is_node(w, e) && node_of(w, e).targets is Some implies is_node(r, e) && node_of(
            r,
            e,
        ).targets is Some && node_of(r, e).targets.unwrap().len() == node_of(w, e).targets.unwrap().len() by {
            assert(is_node(v, e) && v[e] is Node);
        }
        assert forall|p: int, i: int, q: Entity, j: usize| has_target(w, p, i, q, j) implies #[trigger] has_target(r, p, i, q, j) by {
            assert(has_target(v, p, i, q, j));
        }
    }
}

/// A connect request among those carried out, between two connectors of
/// the world whose output's component has a target map for the output,
/// leaves that component driving the input.
pub proof fn lemma_connects_make(w: WorldView, evs: Seq<ConnectEvent>, k: int)
    requires
        0 <= k < evs.len(),
        is_connector(w, evs[k].input as int),
        is_connector(w, evs[k].output as int),
        evs[k].input != evs[k].output,
        is_node(w, connector_of(w, evs[k].output as int).parent as int),
        node_of(w, connector_of(w, evs[k].output as int).parent as int).targets is Some,
        evs[k].output_index < node_of(w, connector_of(w, evs[k].output as int).parent as int).targets.unwrap().len(),
    ensures
        has_target(
            apply_connects(w, evs),
            connector_of(w, evs[k].output as int).parent as int,
            evs[k].output_index as int,
            connector_of(w, evs[k].input as int).parent,
            evs[k].input_index,
        ),
    decreases evs.len(),
{
    let ev = evs[k];
    let a = connector_of(w, ev.output as int).parent as int;
    let b = connector_of(w, ev.input as int).parent;
    let v = apply_connects(w, evs.drop_last());
    if k < evs.len() - 1 {
        assert(evs.drop_last()[k] == ev);
        lemma_connects_make(w, evs.drop_last(), k);
        if connect_ok(v, evs.last()) {
            lemma_connect_keeps(v, evs.last());
        }
    } else {
        lemma_connects_keep(w, evs.drop_last());
        assert(w[ev.input as int] is Connector && w[ev.output as int] is Connector && w[a] is Node);
        lemma_connect_makes(v, ev);
    }
}

} // verus!

verus! {

/// The numbers of input and output connectors that component `n` is
/// spawned with from its snapshot.
pub open spec fn spawn_counts(n: NodeView) -> (usize, usize) {
    kind_counts(
        n.kind.unwrap(),
        match n.inputs {
            Some(v) => v.len() as usize,
            None => 0,
        },
        match n.outputs {
            Some(v) => v.len() as usize,
            None => 0,
        },
    )
}

/// Saving a circuit and loading it gives back every connection: where
/// output `i` of saved component `e` drives input `j` of component `g` (the
/// target map's entry `x` holds `j` at `y`), and the components are spawned
/// with that output and that input connector, the component spawned for
/// `e` drives input `j` of the component spawned for `g` after loading.
/// This holds of a world whose saved components are shaped as their kinds
/// and whose target maps name saved components only.
#[verifier::spinoff_prover]
#[verifier::rlimit(60)]
pub proof fn law_save_then_load_links(w: WorldView, w0: WorldView, e: int, i: int, x: int, y: int)
    requires
        saved_shaped(w),
        targets_saved(w),
        saved_node(w, e),
        node_of(w, e).targets is Some,
        0 <= i < node_of(w, e).targets.unwrap().len(),
        i < spawn_counts(node_of(w, e)).1,
        0 <= x < node_of(w, e).targets.unwrap()[i].len(),
        0 <= y < node_of(w, e).targets.unwrap()[i][x].1.len(),
        node_of(w, e).targets.unwrap()[i][x].1[y] < spawn_counts(
            node_of(w, node_of(w, e).targets.unwrap()[i][x].0 as int),
        ).0,
        w.len() <= usize::MAX,
        w0.len() <= usize::MAX,
        load_spawn(spec_clear(w0), world_snapshot(w, w.len())).0.len() <= usize::MAX,
    ensures
        ({
            let cs = world_snapshot(w, w.len());
            let m = load_spawn(spec_clear(w0), cs).1;
            let g = node_of(w, e).targets.unwrap()[i][x].0;
            let j = node_of(w, e).targets.unwrap()[i][x].1[y];
            map_get(m, e as Entity) matches Some(a) && map_get(m, g) matches Some(b) && has_target(
                spec_load(w0, cs),
                a as int,
                i,
                b,
                j,
            )
        }),
{
    let n = node_of(w, e);
    let ts = n.targets.unwrap();
    let g = ts[i][x].0;
    let idxs = ts[i][x].1;
    let j = idxs[y];
    let cs = world_snapshot(w, w.len());
    let w1 = spec_clear(w0);
    let (w2, m) = load_spawn(w1, cs);
    lemma_world_snapshot(w, w.len());
    assert(distinct_ids(cs));
    // The snapshots of `e` and `g`.
    let k = choose|k: int| 0 <= k < cs.len() && #[trigger] cs[k].id == e;
    assert(node_of(w, e).targets.unwrap()[i][x].0 == g);
    assert(saved_node(w, g as int));
    let k2 = choose|k2: int| 0 <= k2 < cs.len() && #[trigger] cs[k2].id == g as int;
    let ng = node_of(w, g as int);
    assert(w[e] is Node && w[g as int] is Node);
    lemma_snapshot_shaped(e as Entity, n);
    lemma_snapshot_shaped(g, ng);
    lemma_respawn_shaped(cs[k], 0, Seq::empty());
    lemma_respawn_shaped(cs[k2], 0, Seq::empty());
    // Where they are spawned, with their connectors.
    lemma_load_spawn_slots(w1, cs, k);
    lemma_load_spawn_slots(w1, cs, k2);
    let a = map_get(m, e as Entity).unwrap();
    let b = map_get(m, g).unwrap();
    let (ia, oa, sa, ta) = spawn_args(cs[k]).unwrap();
    let (ib, ob, sb, tb) = spawn_args(cs[k2]).unwrap();
    let nda = kind_node(cs[k].ntype, ia, oa, sa, ta, cs[k].placement);
    let ndb = kind_node(cs[k2].ntype, ib, ob, sb, tb, cs[k2].placement);
    let (nin_a, nout_a) = spawn_counts(n);
    let (nin_b, nout_b) = spawn_counts(ng);
    assert(kind_layout(cs[k].ntype, ia, oa) == in_out_layout(nin_a as nat, nout_a as nat));
    assert(kind_layout(cs[k2].ntype, ib, ob) == in_out_layout(nin_b as nat, nout_b as nat));
    lemma_find_spawned(w2, nda, a, nin_a as nat, nout_a as nat);
    lemma_find_spawned(w2, ndb, b, nin_b as nat, nout_b as nat);
    let o = (a + 1 + nin_a + i) as Entity;
    let c = (b + 1 + j) as Entity;
    let ev = ConnectEvent { output: o, output_index: i as usize, input: c, input_index: j, signal_success: false };
    // The connect request is among those that loading carries out.
    assert(find_conn(w2, node_of(w2, b as int).children, ConnectorType::In, (j as int) as usize) == Some(c));
    assert(conn_is(w2, ((b + 1 + (j as int)) as Entity), ConnectorType::In, (j as int) as usize));
    assert(node_of(w2, b as int).children[j as int] == c);
    assert(idxs.contains(j));
    lemma_entry_event_in(w2, o, i as usize, b, idxs, j as int);
    assert(cs[k].targets == Some(ts));
    lemma_output_event_in(w2, o, i as usize, ts[i], m, x, ev);
    assert forall|q: nat| 0 <= q <= i implies #[trigger] find_conn(w2, node_of(w2, a as int).children, ConnectorType::Out, q as usize)
        is Some by {
        assert(find_conn(w2, node_of(w2, a as int).children, ConnectorType::Out, q as int as usize) is Some);
    }
    assert(find_conn(w2, node_of(w2, a as int).children, ConnectorType::Out, (i as nat) as usize) == Some(o));
    lemma_outputs_event_in(w2, a, ts, m, 0, i as nat, ev);
    lemma_link_event_in(w2, cs, m, k, ev);
    let evs = link_events(w2, cs, m);
    let q = choose|q: int| 0 <= q < evs.len() && evs[q] == ev;
    // The component spawned for `e` has a target map for the output.
    assert(w2[a + 0] == spawned_slots(nda, in_out_layout(nin_a as nat, nout_a as nat), a)[0]);
    assert(node_of(w2, a as int).targets is Some);
    assert(conn_is(w2, o, ConnectorType::Out, i as usize));
    assert(conn_is(w2, c, ConnectorType::In, j));
    lemma_connects_make(w2, evs, q);
}

} // verus!

verus! {

/// Two components agree on what shapes them as their kind: kind, name,
/// whether they have inputs, outputs and a timing, and how many inputs and
/// outputs.
pub open spec fn same_shape(a: NodeView, b: NodeView) -> bool {
    &&& a.kind == b.kind
    &&& a.name == b.name
    &&& a.inputs is Some == b.inputs is Some
    &&& (a.inputs is Some ==> a.inputs.unwrap().len() == b.inputs.unwrap().len())
    &&& a.outputs is Some == b.outputs is Some
    &&& (a.outputs is Some ==> a.outputs.unwrap().len() == b.outputs.unwrap().len())
    &&& a.clock is Some == b.clock is Some
}

/// Where every component of `r` is one of `w` with the same shape, the
/// saved components of `r` are shaped as their kinds if those of `w` are.
proof fn lemma_shaped_from(w: WorldView, r: WorldView)
    requires
        saved_shaped(w),
        forall|e: int| #![trigger r[e]] is_node(r, e) ==> is_node(w, e) && same_shape(node_of(w, e), node_of(r, e)),
    ensures
        saved_shaped(r),
{
    assert forall|e: int| #![trigger r[e]] saved_node(r, e) implies kind_shaped(node_of(r, e)) by {
        assert(w[e] is Node);
        assert(kind_shaped(node_of(w, e)));
    }
}

/// Where every component of `r` is one of `w` of the same kind, and every
/// component that a target map of a saved component of `r` names is one
/// that a target map of `w` names at the same place or a saved component
/// of `w`, the target maps of `r` name saved components if those of `w`
/// do.
proof fn lemma_targets_saved_from(w: WorldView, r: WorldView)
    requires
        targets_saved(w),
        forall|e: int| #![trigger r[e]] is_node(r, e) ==> is_node(w, e) && node_of(r, e).kind == node_of(w, e).kind,
        forall|e: int| #![trigger w[e]] is_node(w, e) ==> is_node(r, e) && node_of(r, e).kind == node_of(w, e).kind,
        forall|e: int, i: int, x: int| #![trigger node_of(r, e).targets.unwrap()[i][x]]
            saved_node(r, e) && node_of(r, e).targets is Some && 0 <= i < node_of(r, e).targets.unwrap().len() && 0 <= x
                < node_of(r, e).targets.unwrap()[i].len() ==> saved_node(w, node_of(r, e).targets.unwrap()[i][x].0 as int),
    ensures
        targets_saved(r),
{
    assert forall|e: int, i: int, x: int| #![trigger node_of(r, e).targets.unwrap()[i][x]]
        saved_node(r, e) && node_of(r, e).targets is Some && 0 <= i < node_of(r, e).targets.unwrap().len() && 0 <= x
            < node_of(r, e).targets.unwrap()[i].len() implies saved_node(r, node_of(r, e).targets.unwrap()[i][x].0 as int) by {
        let g = node_of(r, e).targets.unwrap()[i][x].0 as int;
        assert(saved_node(w, g));
        assert(w[g] is Node);
        assert(r[g] is Node);
    }
}

/// The transition and the propagation step keep the saved components
/// shaped as their kinds, and their target maps naming saved components.
pub proof fn law_steps_keep_shape(w: WorldView)
    ensures
        saved_shaped(w) ==> saved_shaped(spec_transition(w)) && saved_shaped(spec_propagate(w)),
        targets_saved(w) ==> targets_saved(spec_transition(w)) && targets_saved(spec_propagate(w)),
{
    let t = spec_transition(w);
    let p = spec_propagate(w);
    law_propagate_changes_inputs_only(w);
    assert forall|e: int| #![trigger t[e]] is_node(t, e) implies is_node(w, e) && same_shape(node_of(w, e), node_of(t, e))
        && node_of(t, e).kind == node_of(w, e).kind && node_of(t, e).targets == node_of(w, e).targets by {
        assert(t[e] == transition_slot(w[e]));
    }
    assert forall|e: int| #![trigger p[e]] is_node(p, e) implies is_node(w, e) && same_shape(node_of(w, e), node_of(p, e))
        && node_of(p, e).kind == node_of(w, e).kind && node_of(p, e).targets == node_of(w, e).targets by {
        assert(strip(p[e]) == strip(w[e]));
        assert(p[e] is Node <==> w[e] is Node);
    }
    assert forall|e: int| #![trigger w[e]] is_node(w, e) implies is_node(t, e) && node_of(t, e).kind == node_of(w, e).kind
        && is_node(p, e) && node_of(p, e).kind == node_of(w, e).kind by {
        assert(t[e] == transition_slot(w[e]));
        assert(strip(p[e]) == strip(w[e]));
        assert(p[e] is Node <==> w[e] is Node);
    }
    if saved_shaped(w) {
        lemma_shaped_from(w, t);
        lemma_shaped_from(w, p);
    }
    if targets_saved(w) {
        assert forall|e: int, i: int, x: int| #![trigger node_of(t, e).targets.unwrap()[i][x]]
            saved_node(t, e) && node_of(t, e).targets is Some && 0 <= i < node_of(t, e).targets.unwrap().len() && 0 <= x
                < node_of(t, e).targets.unwrap()[i].len() implies saved_node(w, node_of(t, e).targets.unwrap()[i][x].0 as int) by {
            assert(t[e] is Node);
            assert(node_of(w, e).targets.unwrap()[i][x] == node_of(t, e).targets.unwrap()[i][x]);
        }
        assert forall|e: int, i: int, x: int| #![trigger node_of(p, e).targets.unwrap()[i][x]]
            saved_node(p, e) && node_of(p, e).targets is Some && 0 <= i < node_of(p, e).targets.unwrap().len() && 0 <= x
                < node_of(p, e).targets.unwrap()[i].len() implies saved_node(w, node_of(p, e).targets.unwrap()[i][x].0 as int) by {
            assert(p[e] is Node);
            assert(node_of(w, e).targets.unwrap()[i][x] == node_of(p, e).targets.unwrap()[i][x]);
        }
        lemma_targets_saved_from(w, t);
        lemma_targets_saved_from(w, p);
    }
}

/// Spawning a component (see [`World::spawn_node`]) keeps the saved
/// components shaped as their kinds, the new one included, and their
/// target maps naming saved components.
pub proof fn law_spawn_keeps_shape(
    w: WorldView,
    kind: NodeType,
    ins: usize,
    outs: usize,
    state: State,
    timing: ClockTiming,
    placement: Placement,
)
    requires
        kind != NodeType::Xnor,
    ensures
        ({
            let r = w + spawned_slots(
                kind_node(kind, ins, outs, state, timing, placement),
                kind_layout(kind, ins, outs),
                w.len() as Entity,
            );
            &&& saved_shaped(w) ==> saved_shaped(r)
            &&& targets_saved(w) ==> targets_saved(r)
        }),
{
    let nd = kind_node(kind, ins, outs, state, timing, placement);
    let sl = spawned_slots(nd, kind_layout(kind, ins, outs), w.len() as Entity);
    let r = w + sl;
    let n = node_of(r, w.len() as int);
    assert(r[w.len() as int] == sl[0]);
    lemma_respawn_fresh(kind, ins, outs, state, timing, placement, w.len() as Entity, n.children);
    let c = spec_snapshot(w.len() as Entity, n);
    assert(n == with_children(nd, n.children));
    assert(kind_shaped(n)) by {
        match kind {
            NodeType::ToggleSwitch | NodeType::Clock | NodeType::LightBulb => {},
            NodeType::HighConst | NodeType::LowConst | NodeType::SevenSegmentDisplay => {},
            _ => {},
        }
    }
    assert forall|e: int| #![trigger r[e]] saved_node(r, e) && e < w.len() implies saved_node(w, e) && r[e] == w[e] by {}
    assert forall|e: int| #![trigger r[e]] is_node(r, e) implies e <= w.len() by {
        if e > w.len() {
            assert(r[e] == sl[e - w.len()]);
        }
    }
    if saved_shaped(w) {
        assert forall|e: int| #![trigger r[e]] saved_node(r, e) implies kind_shaped(node_of(r, e)) by {
            if e < w.len() {
                assert(w[e] == r[e]);
            }
        }
    }
    if targets_saved(w) {
        assert forall|e: int, i: int, x: int| #![trigger node_of(r, e).targets.unwrap()[i][x]]
            saved_node(r, e) && node_of(r, e).targets is Some && 0 <= i < node_of(r, e).targets.unwrap().len() && 0 <= x
                < node_of(r, e).targets.unwrap()[i].len() implies saved_node(r, node_of(r, e).targets.unwrap()[i][x].0 as int) by {
            if e < w.len() {
                assert(w[e] == r[e]);
                let g = node_of(r, e).targets.unwrap()[i][x].0 as int;
                assert(node_of(w, e).targets.unwrap()[i][x] == node_of(r, e).targets.unwrap()[i][x]);
                assert(saved_node(w, g));
                assert(r[g] == w[g]);
            } else {
                assert(e == w.len());
            }
        }
    }
}

/// The components a target map holds after adding an input are those it
/// held and the added one.
proof fn lemma_tm_add_keys(m: TargetSeq, g: Entity, j: usize, x: int)
    requires
        0 <= x < tm_add(m, g, j).len(),
    ensures
        tm_add(m, g, j)[x].0 == g || (x < m.len() && tm_add(m, g, j)[x].0 == m[x].0),
{
    tm_keys(m).index_of_first_ensures(g);
    match tm_pos(m, g) {
        Some(k) => {
            assert(tm_keys(m)[k] == m[k].0);
        },
        None => {},
    }
}

/// Connecting keeps the saved components shaped as their kinds, and their
/// target maps naming saved components where the input's component is a
/// saved one.
pub proof fn law_connect_keeps_shape(w: WorldView, ev: ConnectEvent)
    requires
        connect_ok(w, ev),
    ensures
        saved_shaped(w) ==> saved_shaped(spec_connect(w, ev)),
        targets_saved(w) && (is_connector(w, ev.input as int) ==> saved_node(
            w,
            connector_of(w, ev.input as int).parent as int,
        )) ==> targets_saved(spec_connect(w, ev)),
{
    let r = spec_connect(w, ev);
    let w1 = w.push(SlotView::Line(event_line(ev)));
    let w3 = connect_w3(w, ev);
    lemma_connect_links_only(w, ev);
    assert forall|e: int| #![trigger r[e]] is_node(r, e) implies is_node(w, e) && same_shape(node_of(w, e), node_of(r, e))
        && node_of(r, e).kind == node_of(w, e).kind && (connect_owner(w, ev) != Some(e) ==> r[e] == w[e]) by {
        if e < w.len() {
            assert(w1[e] == w[e]);
        }
        match connect_owner(w, ev) {
            Some(o) => {
                if e != o {
                    assert(r[e] == w3[e]);
                }
            },
            None => {},
        }
        assert(w[e] is Node);
        assert(set_targets(node_of(r, e), Seq::empty()) == set_targets(node_of(w, e), Seq::empty()));
    }
    if saved_shaped(w) {
        lemma_shaped_from(w, r);
    }
    assert forall|e: int| #![trigger w[e]] is_node(w, e) implies is_node(r, e) && node_of(r, e).kind == node_of(w, e).kind by {
        assert(set_targets(node_of(r, e), Seq::empty()) == set_targets(node_of(w, e), Seq::empty()));
    }
    if targets_saved(w) && (is_connector(w, ev.input as int) ==> saved_node(w, connector_of(w, ev.input as int).parent as int)) {
        assert forall|e: int, i: int, x: int| #![trigger node_of(r, e).targets.unwrap()[i][x]]
            saved_node(r, e) && node_of(r, e).targets is Some && 0 <= i < node_of(r, e).targets.unwrap().len() && 0 <= x
                < node_of(r, e).targets.unwrap()[i].len() implies saved_node(w, node_of(r, e).targets.unwrap()[i][x].0 as int) by {
            match connect_owner(w, ev) {
                Some(o) => {
                    if e == o {
                        let ts = node_of(w3, o).targets.unwrap();
                        assert(w3[o] == w[o]);
                        if i == ev.output_index {
                            let in_parent = connector_of(w, ev.input as int).parent;
                            lemma_tm_add_keys(ts[i], in_parent, ev.input_index, x);
                            if x < ts[i].len() && node_of(r, e).targets.unwrap()[i][x].0 == ts[i][x].0 {
                                assert(node_of(w, e).targets.unwrap()[i][x] == ts[i][x]);
                            }
                        } else {
                            assert(node_of(r, e).targets.unwrap()[i] == ts[i]);
                            assert(node_of(w, e).targets.unwrap()[i][x] == ts[i][x]);
                        }
                    } else {
                        assert(node_of(w, e).targets.unwrap()[i][x] == node_of(r, e).targets.unwrap()[i][x]);
                    }
                },
                None => {
                    assert(node_of(w, e).targets.unwrap()[i][x] == node_of(r, e).targets.unwrap()[i][x]);
                },
            }
        }
        lemma_targets_saved_from(w, r);
    }
}

} // verus!

verus! {

/// The components a target map holds after removing an input or a
/// component are among those it held.
proof fn lemma_tm_remove_keys(m: TargetSeq, g: Entity, j: usize, x: int)
    ensures
        tm_remove(m, g).len() <= m.len(),
        0 <= x < tm_remove(m, g).len() ==> tm_remove(m, g)[x] == m[x] || (x + 1 < m.len() && tm_remove(m, g)[x] == m[x + 1]),
        0 <= x < tm_remove_index(m, g, j).len() ==> x < m.len() && tm_remove_index(m, g, j)[x].0 == m[x].0,
{
    tm_keys(m).index_of_first_ensures(g);
    match tm_pos(m, g) {
        Some(k) => {
            assert(tm_keys(m)[k] == m[k].0);
        },
        None => {},
    }
}

/// Disconnecting keeps the saved components shaped as their kinds, and
/// their target maps naming saved components.
pub proof fn law_disconnect_keeps_shape(w: WorldView, ev: DisconnectEvent)
    requires
        disconnect_ok(w, ev),
    ensures
        saved_shaped(w) ==> saved_shaped(spec_disconnect(w, ev)),
        targets_saved(w) ==> targets_saved(spec_disconnect(w, ev)),
{
    let r = spec_disconnect(w, ev);
    if is_line(w, ev.connection as int) {
        let line = line_of(w, ev.connection as int);
        let w1 = disconnect_w1(w, ev);
        let w2 = disconnect_w2(w, ev);
        let owner = disconnect_owner(w, ev);
        let w3 = match owner {
            Some(q) => {
                let n = node_of(w2, q);
                let ts = n.targets.unwrap();
                let parent = disconnect_in_parent(w, ev).unwrap();
                let m = ts[line.output.index as int];
                let entry = m[tm_pos(m, parent).unwrap()].1;
                let m2 = if entry.len() > 1 {
                    tm_remove_index(m, parent, line.input.index)
                } else {
                    tm_remove(m, parent)
                };
                w2.update(q, SlotView::Node(set_targets(n, ts.update(line.output.index as int, m2))))
            },
            None => w2,
        };
        assert(r == w3.update(ev.connection as int, SlotView::Vacant));
        // Every component keeps its shape; only the owner's targets change.
        assert forall|e: int| #![trigger r[e]] is_node(r, e) implies is_node(w, e) && same_shape(node_of(w, e), node_of(r, e))
            && node_of(r, e).kind == node_of(w, e).kind && (owner != Some(e) ==> node_of(r, e).targets == node_of(
            w,
            e,
        ).targets) && (owner == Some(e) ==> node_of(w2, e).targets == node_of(w, e).targets) by {
            assert(r[e] == w3[e]);
            if owner != Some(e) {
                assert(w3[e] == w2[e]);
            }
            if e != line.output.entity as int {
                assert(w2[e] == w1[e]);
            }
            if is_connector(w, line.input.entity as int) {
                let p = connector_of(w, line.input.entity as int).parent as int;
                if e != line.input.entity as int && e != p {
                    assert(w1[e] == w[e]);
                }
            }
        }
        assert forall|e: int| #![trigger w[e]] is_node(w, e) implies is_node(r, e) && node_of(r, e).kind == node_of(w, e).kind by {
            assert(e != ev.connection as int);
            assert(r[e] == w3[e]);
            if owner != Some(e) {
                assert(w3[e] == w2[e]);
            }
            if e != line.output.entity as int {
                assert(w2[e] == w1[e]);
            }
            if is_connector(w, line.input.entity as int) {
                let p = connector_of(w, line.input.entity as int).parent as int;
                if e != line.input.entity as int && e != p {
                    assert(w1[e] == w[e]);
                }
            }
        }
        if saved_shaped(w) {
            lemma_shaped_from(w, r);
        }
        if targets_saved(w) {
            assert forall|e: int, i: int, x: int| #![trigger node_of(r, e).targets.unwrap()[i][x]]
                saved_node(r, e) && node_of(r, e).targets is Some && 0 <= i < node_of(r, e).targets.unwrap().len() && 0 <= x
                    < node_of(r, e).targets.unwrap()[i].len() implies saved_node(w, node_of(r, e).targets.unwrap()[i][x].0 as int) by {
                if owner == Some(e) {
                    let ts = node_of(w2, e).targets.unwrap();
                    let parent = disconnect_in_parent(w, ev).unwrap();
                    let m = ts[line.output.index as int];
                    lemma_tm_remove_keys(m, parent, line.input.index, x);
                    let entry = m[tm_pos(m, parent).unwrap()].1;
                    let m2 = if entry.len() > 1 {
                        tm_remove_index(m, parent, line.input.index)
                    } else {
                        tm_remove(m, parent)
                    };
                    assert(r[e] == w3[e]);
                    assert(node_of(r, e).targets.unwrap() == ts.update(line.output.index as int, m2));
                    assert(saved_node(w, e));
                    assert(node_of(w2, e).targets == node_of(w, e).targets);
                    let tw = node_of(w, e).targets.unwrap();
                    assert(tw == ts);
                    if i == line.output.index {
                        assert(node_of(r, e).targets.unwrap()[i] == m2);
                        assert(tw[i] == m);
                        if entry.len() > 1 {
                            assert(x < tw[i].len());
                            assert(saved_node(w, tw[i][x].0 as int));
                            assert(tw[i][x].0 == node_of(r, e).targets.unwrap()[i][x].0);
                        } else {
                            if node_of(r, e).targets.unwrap()[i][x] == m[x] {
                                assert(x < tw[i].len());
                                assert(saved_node(w, tw[i][x].0 as int));
                            } else {
                                assert(x + 1 < tw[i].len());
                                assert(saved_node(w, tw[i][x + 1].0 as int));
                            }
                        }
                    } else {
                        assert(node_of(r, e).targets.unwrap()[i] == ts[i]);
                        assert(saved_node(w, tw[i][x].0 as int));
                    }
                } else {
                    assert(node_of(w, e).targets.unwrap()[i][x] == node_of(r, e).targets.unwrap()[i][x]);
                }
            }
            lemma_targets_saved_from(w, r);
        }
    }
}

} // verus!

verus! {

/// Changing the number of inputs of a logic gate (AND, NAND, OR, NOR, XOR
/// or NOT; not a kind with a fixed number of inputs) keeps the saved components shaped as their
/// kinds, and their target maps naming saved components.
pub proof fn law_resize_keeps_shape(w: WorldView, g: Entity, to: u32)
    requires
        resizable(w, g),
        w.len() <= usize::MAX,
        node_of(w, g as int).kind matches Some(k) ==> (k == NodeType::And || k == NodeType::Nand || k == NodeType::Or
            || k == NodeType::Nor || k == NodeType::Xor || k == NodeType::Not),
    ensures
        saved_shaped(w) ==> saved_shaped(spec_resize_world(w, g, to)),
        targets_saved(w) ==> targets_saved(spec_resize_world(w, g, to)),
{
    let r = spec_resize_world(w, g, to);
    let n = node_of(w, g as int);
    let ch = n.children;
    let ds = dropped_children(w, ch, to);
    lemma_dropped_children(w, ch, to);
    law_resize_counts(w, g, to);
    let mx = max_kept(w, ch, to);
    let cnt = added_count(mx, to);
    let gt = n.gate.unwrap();
    let n2 = NodeView {
        kind: n.kind,
        name: n.name,
        gate: Some(Gate { inputs: to, outputs: gt.outputs, in_range: gt.in_range, out_range: gt.out_range }),
        inputs: Some(resize_states(n.inputs.unwrap(), to as nat)),
        outputs: n.outputs,
        transitions: n.transitions,
        targets: n.targets,
        clock: n.clock,
        placement: n.placement,
        children: kept_children(w, ch, to) + Seq::new(cnt, |k: int| (w.len() + k) as Entity),
    };
    let wu = w.update(g as int, SlotView::Node(n2));
    let v = vacate_seq(wu, ds);
    lemma_vacate_len(wu, ds);
    assert(r == v + Seq::new(cnt, |k: int| fresh_connector(g, Connector { ctype: ConnectorType::In, index: (mx + 1 + k) as usize })));
    // Every component of the result is one of `w`, unchanged but for `g`.
    assert forall|e: int| #![trigger r[e]] is_node(r, e) implies e < w.len() && is_node(w, e) && (e != g ==> r[e] == w[e])
        && (e == g ==> node_of(r, e) == n2) by {
        if e >= w.len() {
            assert(r[e] == fresh_connector(g, Connector { ctype: ConnectorType::In, index: (mx + 1 + (e - w.len())) as usize }));
        } else {
            lemma_vacate_seq_at(wu, ds, e);
            assert(r[e] == v[e]);
        }
    }
    assert forall|e: int| #![trigger w[e]] is_node(w, e) implies is_node(r, e) && node_of(r, e).kind == node_of(w, e).kind by {
        lemma_vacate_seq_at(wu, ds, e);
        assert(r[e] == v[e]);
        if ds.contains(e as Entity) {
            let j = choose|j: int| 0 <= j < ds.len() && ds[j] == e as Entity;
            assert(dropped(w, ds[j], to));
        }
    }
    if saved_shaped(w) {
        assert forall|e: int| #![trigger r[e]] saved_node(r, e) implies kind_shaped(node_of(r, e)) by {
            assert(w[e] is Node);
            assert(kind_shaped(node_of(w, e)));
            if e == g {
                assert(node_of(r, e) == n2);
            }
        }
    }
    if targets_saved(w) {
        assert forall|e: int, i: int, x: int| #![trigger node_of(r, e).targets.unwrap()[i][x]]
            saved_node(r, e) && node_of(r, e).targets is Some && 0 <= i < node_of(r, e).targets.unwrap().len() && 0 <= x
                < node_of(r, e).targets.unwrap()[i].len() implies saved_node(w, node_of(r, e).targets.unwrap()[i][x].0 as int) by {
            assert(w[e] is Node);
            if e == g {
                assert(node_of(r, e) == n2);
            }
            assert(node_of(r, e).targets == node_of(w, e).targets);
            assert(node_of(w, e).targets.unwrap()[i][x] == node_of(r, e).targets.unwrap()[i][x]);
        }
        lemma_targets_saved_from(w, r);
    }
}

} // verus!
