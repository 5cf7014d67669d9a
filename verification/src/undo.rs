//! The undo history: the actions that undo and redo reverse, and the
//! renaming of entities in it when a component is spawned anew.
use vstd::prelude::*;
use crate::logic::State;
use crate::world::{
    ConnInfo, Entity, NodeType, Placement, ClockTiming, spawned_slots, kind_node, kind_layout, ConnectEvent, ConnectorType, Connector, spec_connect, connect_ok,
    spec_disconnect_report, World, WorldView, Slot, SlotView, DisconnectEvent, is_node, is_connector,
    is_line, node_of, connector_of, line_of, concat, lemma_concat_take, spec_disconnect,
    disconnect_ok, vacate_seq, with_children, fresh_connection, reset_input, law_connect_then_disconnect,
    event_line, connect_w2, connect_w3, conn_with, disconnect_w1, disconnect_w2, disconnect_owner,
    disconnect_in_parent, tm_pos, tm_remove, tm_remove_index, set_targets, connect_owner,
    lemma_vacate_seq_at, lemma_vacate_len, lemma_concat_contains, in_out_layout,
};
use crate::load::{
    conn_kept, targets_len_kept, lemma_connect_keeps, lemma_connect_links_only, conn_is, lemma_find_first,
    same_but_links, has_target, lemma_connect_makes, spawn_counts, lemma_find_spawned,
};
use crate::save::{
    ComponentView, NodusComponent, components_view, saved_node, snapshot_ok, spec_snapshot,
    snapshot, insert_ok, spec_insert_all, insert_components, lemma_respawn_fresh, spec_insert_one,
    kind_shaped, same_saved, lemma_snapshot_shaped, lemma_respawn_shaped, spawn_args,
    rename_component, rename_component_targets, law_snapshot_respawn,
};

verus! {

/// A connection between two components: the output side, the input side
/// (each named by the component and the index) and the connection line.
pub type ConnTriple = (ConnInfo, ConnInfo, Entity);

/// Whether the user asks to undo or to redo.
#[derive(Debug, Clone, Copy, PartialEq, Eq, Structural)]
pub enum UndoEvent {
    Undo,
    Redo,
}

/// An action of the undo history: what carrying it out does.
#[derive(Debug)]
pub enum Action {
    /// Spawn the components again and restore their connections.
    Insert(Vec<NodusComponent>, Vec<ConnTriple>),
    /// Remove the components.
    Remove(Vec<Entity>),
    /// Restore a connection.
    InsertConnection(ConnTriple),
    /// Remove a connection line.
    RemoveConnection(Entity),
}

/// The abstract contents of an action.
pub enum ActionView {
    Insert(Seq<ComponentView>, Seq<ConnTriple>),
    Remove(Seq<Entity>),
    InsertConnection(ConnTriple),
    RemoveConnection(Entity),
}

impl View for Action {
    type V = ActionView;

    open spec fn view(&self) -> ActionView {
        match self {
            Action::Insert(cs, conns) => ActionView::Insert(components_view(cs@), conns@),
            Action::Remove(es) => ActionView::Remove(es@),
            Action::InsertConnection(t) => ActionView::InsertConnection(*t),
            Action::RemoveConnection(c) => ActionView::RemoveConnection(*c),
        }
    }
}

/// The abstract contents of a list of actions.
pub open spec fn actions_view(v: Seq<Action>) -> Seq<ActionView> {
    v.map_values(|a: Action| a@)
}

/// The undo history: actions that undo the last changes, and actions that
/// redo the last undone ones; the last action of each comes first.
#[derive(Debug)]
pub struct UndoStack {
    pub undo: Vec<Action>,
    pub redo: Vec<Action>,
}

/// The abstract contents of the undo history.
pub struct StackView {
    pub undo: Seq<ActionView>,
    pub redo: Seq<ActionView>,
}

impl View for UndoStack {
    type V = StackView;

    open spec fn view(&self) -> StackView {
        StackView { undo: actions_view(self.undo@), redo: actions_view(self.redo@) }
    }
}

/// `t` with component `from` renamed to `to` on the side(s) where it
/// occurs; nothing where it occurs on neither side.
pub open spec fn spec_replace3(from: Entity, to: Entity, t: ConnTriple) -> Option<ConnTriple> {
    if t.0.entity == from && t.1.entity != from {
        Some((ConnInfo { entity: to, index: t.0.index }, t.1, t.2))
    } else if t.0.entity != from && t.1.entity == from {
        Some((t.0, ConnInfo { entity: to, index: t.1.index }, t.2))
    } else if t.0.entity == from && t.1.entity == from {
        Some((ConnInfo { entity: to, index: t.0.index }, ConnInfo { entity: to, index: t.1.index }, t.2))
    } else {
        None
    }
}

/// `t` with component `from` renamed to `to`.
pub open spec fn rename3(from: Entity, to: Entity, t: ConnTriple) -> ConnTriple {
    match spec_replace3(from, to, t) {
        Some(x) => x,
        None => t,
    }
}

/// The connections `s` with component `from` renamed to `to`, each kept
/// once, in the order of their first occurrence.
pub open spec fn replace_conns(s: Seq<ConnTriple>, from: Entity, to: Entity) -> Seq<ConnTriple>
    decreases s.len(),
{
    if s.len() == 0 {
        Seq::empty()
    } else {
        let r = replace_conns(s.drop_last(), from, to);
        let t = rename3(from, to, s.last());
        if r.contains(t) {
            r
        } else {
            r.push(t)
        }
    }
}

/// The entities `v` with `from` renamed to `to`.
pub open spec fn replace_ids(v: Seq<Entity>, from: Entity, to: Entity) -> Seq<Entity> {
    v.map_values(|x: Entity| if x == from { to } else { x })
}

/// Action `a` with component `from` renamed to `to` wherever it names
/// components: in the target maps of the snapshots of an insertion and in
/// its connections, in a removal and in a connection to restore.
pub open spec fn rename_in_action(a: ActionView, from: Entity, to: Entity) -> ActionView {
    match a {
        ActionView::Insert(cs, conns) => ActionView::Insert(
            cs.map_values(|c: ComponentView| rename_component(c, from, to)),
            replace_conns(conns, from, to),
        ),
        ActionView::Remove(es) => ActionView::Remove(replace_ids(es, from, to)),
        ActionView::InsertConnection(t) => ActionView::InsertConnection(rename3(from, to, t)),
        ActionView::RemoveConnection(c) => ActionView::RemoveConnection(c),
    }
}

/// Action `a` with connection line `from` renamed to `to`.
pub open spec fn rename_line_in_action(a: ActionView, from: Entity, to: Entity) -> ActionView {
    match a {
        ActionView::RemoveConnection(c) => ActionView::RemoveConnection(if c == from { to } else { c }),
        _ => a,
    }
}

/// Two connections are the same.
pub fn same_triple(a: &ConnTriple, b: &ConnTriple) -> (r: bool)
    ensures
        r == (*a == *b),
{
    a.0.entity == b.0.entity && a.0.index == b.0.index && a.1.entity == b.1.entity && a.1.index
        == b.1.index && a.2 == b.2
}

/// Whether `v` holds connection `t`.
pub fn contains_triple(v: &Vec<ConnTriple>, t: &ConnTriple) -> (r: bool)
    ensures
        r == v@.contains(*t),
{
    let mut i: usize = 0;
    while i < v.len()
        invariant
            i <= v@.len(),
            forall|j: int| 0 <= j < i ==> v@[j] != *t,
        decreases v@.len() - i,
    {
        if same_triple(&v[i], t) {
            assert(v@[i as int] == *t);
            return true;
        }
        i = i + 1;
    }
    false
}

/// Rename component `from` to `to` in connection `t`; see
/// [`spec_replace3`].
pub fn replace_entity_id3(from: Entity, to: Entity, t: ConnTriple) -> (r: Option<ConnTriple>)
    ensures
        r == spec_replace3(from, to, t),
{
    if t.0.entity == from && t.1.entity != from {
        Some((ConnInfo { entity: to, index: t.0.index }, t.1, t.2))
    } else if t.0.entity != from && t.1.entity == from {
        Some((t.0, ConnInfo { entity: to, index: t.1.index }, t.2))
    } else if t.0.entity == from && t.1.entity == from {
        Some((ConnInfo { entity: to, index: t.0.index }, ConnInfo { entity: to, index: t.1.index }, t.2))
    } else {
        None
    }
}

/// Rename component `from` to `to` in the connections `con`; see
/// [`replace_conns`].
pub fn replace_entity_id_conns(from: Entity, to: Entity, con: &mut Vec<ConnTriple>)
    ensures
        final(con)@ == replace_conns(old(con)@, from, to),
{
    let ghost s = con@;
    let mut r: Vec<ConnTriple> = Vec::new();
    let mut i: usize = 0;
    assert(s.take(0) =~= Seq::<ConnTriple>::empty());
    while i < con.len()
        invariant
            i <= con@.len(),
            con@ == s,
            r@ == replace_conns(s.take(i as int), from, to),
        decreases con@.len() - i,
    {
        assert(s.take(i + 1).drop_last() =~= s.take(i as int));
        let t = match replace_entity_id3(from, to, con[i]) {
            Some(x) => x,
            None => con[i],
        };
        if !contains_triple(&r, &t) {
            r.push(t);
        }
        i = i + 1;
    }
    assert(s.take(i as int) =~= s);
    *con = r;
}

/// Rename entity `from` to `to` in `v`.
pub fn replace_entity_id_list(from: Entity, to: Entity, v: &mut Vec<Entity>)
    ensures
        final(v)@ == replace_ids(old(v)@, from, to),
{
    let ghost s = v@;
    let mut i: usize = 0;
    while i < v.len()
        invariant
            i <= v@.len(),
            v@.len() == s.len(),
            forall|j: int| 0 <= j < s.len() ==> #[trigger] v@[j] == (if j < i {
                if s[j] == from {
                    to
                } else {
                    s[j]
                }
            } else {
                s[j]
            }),
        decreases v@.len() - i,
    {
        if v[i] == from {
            v.set(i, to);
        }
        i = i + 1;
    }
    assert(v@ =~= replace_ids(s, from, to));
}

/// Rename component `from` to `to` in action `a`.
fn rename_action(a: &mut Action, from: Entity, to: Entity)
    ensures
        final(a)@ == rename_in_action(old(a)@, from, to),
{
    match a {
        Action::Insert(cs, conns) => {
            rename_component_targets(cs, from, to);
            replace_entity_id_conns(from, to, conns);
        },
        Action::Remove(es) => {
            replace_entity_id_list(from, to, es);
        },
        Action::InsertConnection(t) => {
            match replace_entity_id3(from, to, *t) {
                Some(x) => {
                    *t = x;
                },
                None => {},
            }
        },
        Action::RemoveConnection(_) => {},
    }
}

/// Rename component `from` to `to` in every action of `v`.
fn rename_actions(v: &mut Vec<Action>, from: Entity, to: Entity)
    ensures
        actions_view(final(v)@) == actions_view(old(v)@).map_values(
            |a: ActionView| rename_in_action(a, from, to),
        ),
{
    let ghost s = actions_view(v@);
    let mut i: usize = 0;
    while i < v.len()
        invariant
            i <= v@.len(),
            v@.len() == s.len(),
            forall|j: int| 0 <= j < s.len() ==> #[trigger] actions_view(v@)[j] == (if j < i {
                rename_in_action(s[j], from, to)
            } else {
                s[j]
            }),
        decreases v@.len() - i,
    {
        let ghost before = v@;
        let mut a = Action::RemoveConnection(0);
        std::mem::swap(&mut v[i], &mut a);
        assert(a == before[i as int]);
        assert(actions_view(before)[i as int] == s[i as int]);
        assert(a@ == s[i as int]);
        rename_action(&mut a, from, to);
        let ghost a1 = a;
        std::mem::swap(&mut v[i], &mut a);
        assert(v@ == before.update(i as int, a1));
        assert(actions_view(v@) =~= actions_view(before).update(i as int, a1@));
        i = i + 1;
    }
    assert(actions_view(v@) =~= s.map_values(|a: ActionView| rename_in_action(a, from, to)));
}

/// Rename connection line `from` to `to` in every action of `v`.
fn rename_line_actions(v: &mut Vec<Action>, from: Entity, to: Entity)
    ensures
        actions_view(final(v)@) == actions_view(old(v)@).map_values(
            |a: ActionView| rename_line_in_action(a, from, to),
        ),
{
    let ghost s = actions_view(v@);
    let mut i: usize = 0;
    while i < v.len()
        invariant
            i <= v@.len(),
            v@.len() == s.len(),
            forall|j: int| 0 <= j < s.len() ==> #[trigger] actions_view(v@)[j] == (if j < i {
                rename_line_in_action(s[j], from, to)
            } else {
                s[j]
            }),
        decreases v@.len() - i,
    {
        let ghost before = v@;
        let mut a = Action::RemoveConnection(0);
        std::mem::swap(&mut v[i], &mut a);
        assert(a == before[i as int]);
        assert(actions_view(before)[i as int] == s[i as int]);
        assert(a@ == s[i as int]);
        match &mut a {
            Action::RemoveConnection(id) => {
                if *id == from {
                    *id = to;
                }
            },
            _ => {},
        }
        let ghost a1 = a;
        assert(a1@ == rename_line_in_action(s[i as int], from, to));
        std::mem::swap(&mut v[i], &mut a);
        assert(v@ == before.update(i as int, a1));
        assert(actions_view(v@) =~= actions_view(before).update(i as int, a1@));
        i = i + 1;
    }
    assert(actions_view(v@) =~= s.map_values(|a: ActionView| rename_line_in_action(a, from, to)));
}

/// The connection lines attached to entity `c`, where it is a connector.
pub open spec fn conn_lines(w: WorldView, c: Entity) -> Seq<Entity> {
    if is_connector(w, c as int) {
        connector_of(w, c as int).connections
    } else {
        Seq::empty()
    }
}

/// The disconnect requests that removing component `e` sends: one per
/// connection line of each of its connectors, in order.
pub open spec fn node_events(w: WorldView, e: Entity) -> Seq<DisconnectEvent> {
    concat(
        node_of(w, e as int).children.map_values(
            |c: Entity|
                conn_lines(w, c).map_values(
                    |l: Entity| DisconnectEvent { connection: l, in_parent: Some(e) },
                ),
        ),
    )
}

/// The entities of `es` that are saved components of `w`, in order.
pub open spec fn removed_of(w: WorldView, es: Seq<Entity>) -> Seq<Entity>
    decreases es.len(),
{
    if es.len() == 0 {
        Seq::empty()
    } else {
        let r = removed_of(w, es.drop_last());
        if saved_node(w, es.last() as int) {
            r.push(es.last())
        } else {
            r
        }
    }
}

/// The disconnect requests of removing the components `rem`, in order.
pub open spec fn remove_events(w: WorldView, rem: Seq<Entity>) -> Seq<DisconnectEvent> {
    concat(rem.map_values(|e: Entity| node_events(w, e)))
}

/// The entities despawned with the components `rem`: each component
/// followed by its connectors.
pub open spec fn despawn_list(w: WorldView, rem: Seq<Entity>) -> Seq<Entity> {
    concat(rem.map_values(|e: Entity| seq![e] + node_of(w, e as int).children))
}

/// `w` after the disconnect requests `evs`, in order; a request the world
/// cannot carry out at its turn is passed over.
pub open spec fn apply_disconnects(w: WorldView, evs: Seq<DisconnectEvent>) -> WorldView
    decreases evs.len(),
{
    if evs.len() == 0 {
        w
    } else {
        let v = apply_disconnects(w, evs.drop_last());
        if disconnect_ok(v, evs.last()) {
            spec_disconnect(v, evs.last())
        } else {
            v
        }
    }
}

/// The connection that line `l` of `w` makes, named by the components on
/// both sides, where both of its connectors exist.
pub open spec fn line_triple(w: WorldView, l: Entity) -> Option<ConnTriple> {
    if is_line(w, l as int) {
        let line = line_of(w, l as int);
        if is_connector(w, line.output.entity as int) && is_connector(w, line.input.entity as int) {
            Some(
                (
                    ConnInfo {
                        entity: connector_of(w, line.output.entity as int).parent,
                        index: line.output.index,
                    },
                    ConnInfo {
                        entity: connector_of(w, line.input.entity as int).parent,
                        index: line.input.index,
                    },
                    l,
                ),
            )
        } else {
            None
        }
    } else {
        None
    }
}

/// The connections of the lines the requests `evs` name, each kept once.
pub open spec fn collect_triples(w: WorldView, evs: Seq<DisconnectEvent>) -> Seq<ConnTriple>
    decreases evs.len(),
{
    if evs.len() == 0 {
        Seq::empty()
    } else {
        let r = collect_triples(w, evs.drop_last());
        match line_triple(w, evs.last().connection) {
            Some(t) => if r.contains(t) {
                r
            } else {
                r.push(t)
            },
            None => r,
        }
    }
}

/// The snapshots of the components `rem`.
pub open spec fn removed_snapshots(w: WorldView, rem: Seq<Entity>) -> Seq<ComponentView> {
    rem.map_values(|e: Entity| spec_snapshot(e, node_of(w, e as int)))
}

/// Removing components that a snapshot can describe.
pub open spec fn remove_ok(w: WorldView, es: Seq<Entity>) -> bool {
    forall|i: int| #![trigger es[i]] 0 <= i < es.len() && saved_node(w, es[i] as int) ==> snapshot_ok(
        node_of(w, es[i] as int),
    )
}

/// The world after removing the components `es`: each entity of `es` that
/// is a saved component is despawned with its connectors; then each
/// connection line of those connectors is disconnected.
pub open spec fn spec_remove_world(w: WorldView, es: Seq<Entity>) -> WorldView {
    let rem = removed_of(w, es);
    apply_disconnects(vacate_seq(w, despawn_list(w, rem)), remove_events(w, rem))
}

/// What removing the components `es` reports for the undo history: the
/// snapshots of the removed components and the connections of their lines;
/// nothing when no component was removed.
pub open spec fn spec_remove_report(w: WorldView, es: Seq<Entity>) -> Option<
    (Seq<ComponentView>, Seq<ConnTriple>),
> {
    let rem = removed_of(w, es);
    if rem.len() > 0 {
        Some((removed_snapshots(w, rem), collect_triples(w, remove_events(w, rem))))
    } else {
        None
    }
}

/// The components among `es` to remove, their snapshots, the entities to
/// despawn with them and the disconnect requests to send.
fn removal_plan(world: &World, es: &Vec<Entity>) -> (r: (
    Vec<Entity>,
    Vec<NodusComponent>,
    Vec<Entity>,
    Vec<DisconnectEvent>,
))
    requires
        remove_ok(world@, es@),
    ensures
        r.0@ == removed_of(world@, es@),
        components_view(r.1@) == removed_snapshots(world@, r.0@),
        r.2@ == despawn_list(world@, r.0@),
        r.3@ == remove_events(world@, r.0@),
{
    let ghost w = world@;
    let mut rem: Vec<Entity> = Vec::new();
    let mut comps: Vec<NodusComponent> = Vec::new();
    let mut dl: Vec<Entity> = Vec::new();
    let mut evs: Vec<DisconnectEvent> = Vec::new();
    let mut i: usize = 0;
    assert(es@.take(0) =~= Seq::<Entity>::empty());
    assert(components_view(comps@) =~= removed_snapshots(w, rem@));
    assert(dl@ =~= despawn_list(w, rem@));
    assert(evs@ =~= remove_events(w, rem@));
    while i < es.len()
        invariant
            i <= es@.len(),
            w == world@,
            remove_ok(w, es@),
            rem@ == removed_of(w, es@.take(i as int)),
            components_view(comps@) == removed_snapshots(w, rem@),
            dl@ == despawn_list(w, rem@),
            evs@ == remove_events(w, rem@),
        decreases es@.len() - i,
    {
        assert(es@.take(i + 1).drop_last() =~= es@.take(i as int));
        let e = es[i];
        let children: Option<&Vec<Entity>> = if e < world.len() {
            match world.slot(e) {
                Slot::Node(n) => if n.kind.is_some() {
                    Some(&n.children)
                } else {
                    None
                },
                _ => None,
            }
        } else {
            None
        };
        match children {
            Some(ch) => {
                let ghost rem0 = rem@;
                let ghost evs0 = evs@;
                let ghost dl0 = dl@;
                assert(saved_node(w, e as int));
                assert(ch@ == node_of(w, e as int).children);
                let c = snapshot(world, e);
                let ghost comps0 = comps@;
                comps.push(c);
                rem.push(e);
                assert(components_view(comps@) =~= components_view(comps0).push(c@));
                assert(removed_snapshots(w, rem@) =~= removed_snapshots(w, rem0).push(
                    spec_snapshot(e, node_of(w, e as int)),
                ));
                assert(components_view(comps@) =~= removed_snapshots(w, rem@));
                // The entities to despawn: the component, then its connectors.
                dl.push(e);
                let mut k: usize = 0;
                while k < ch.len()
                    invariant
                        k <= ch@.len(),
                        dl@ == dl0 + (seq![e] + ch@.take(k as int)),
                    decreases ch@.len() - k,
                {
                    dl.push(ch[k]);
                    k = k + 1;
                    assert(dl@ =~= dl0 + (seq![e] + ch@.take(k as int)));
                }
                assert(ch@.take(k as int) =~= ch@);
                proof {
                    let parts = rem@.map_values(|x: Entity| seq![x] + node_of(w, x as int).children);
                    assert(parts.take(rem0.len() as int) =~= rem0.map_values(|x: Entity| seq![x] + node_of(w, x as int).children));
                    lemma_concat_take(parts, rem0.len() as int);
                    assert(parts =~= parts.take(rem0.len() as int + 1));
                }
                // The disconnect requests: one per line of each connector.
                let ghost parts = ch@.map_values(
                    |c: Entity| conn_lines(w, c).map_values(
                        |l: Entity| DisconnectEvent { connection: l, in_parent: Some(e) },
                    ),
                );
                assert(parts.take(0) =~= Seq::<Seq<DisconnectEvent>>::empty());
                assert(evs0 + concat(parts.take(0)) =~= evs0);
                let mut k: usize = 0;
                while k < ch.len()
                    invariant
                        k <= ch@.len(),
                        w == world@,
                        parts == ch@.map_values(
                            |c: Entity| conn_lines(w, c).map_values(
                                |l: Entity| DisconnectEvent { connection: l, in_parent: Some(e) },
                            ),
                        ),
                        evs@ == evs0 + concat(parts.take(k as int)),
                    decreases ch@.len() - k,
                {
                    let c = ch[k];
                    let lines: Option<&Vec<Entity>> = if c < world.len() {
                        match world.slot(c) {
                            Slot::Connector(cc) => Some(&cc.connections),
                            _ => None,
                        }
                    } else {
                        None
                    };
                    let ghost mid = evs@;
                    match lines {
                        Some(ls) => {
                            assert(ls@ == conn_lines(w, c));
                            let mut t: usize = 0;
                            while t < ls.len()
                                invariant
                                    t <= ls@.len(),
                                    evs@ == mid + ls@.take(t as int).map_values(
                                        |l: Entity| DisconnectEvent { connection: l, in_parent: Some(e) },
                                    ),
                                decreases ls@.len() - t,
                            {
                                evs.push(DisconnectEvent { connection: ls[t], in_parent: Some(e) });
                                t = t + 1;
                                assert(evs@ =~= mid + ls@.take(t as int).map_values(
                                    |l: Entity| DisconnectEvent { connection: l, in_parent: Some(e) },
                                ));
                            }
                            assert(ls@.take(t as int) =~= ls@);
                        },
                        None => {
                            assert(conn_lines(w, c) =~= Seq::<Entity>::empty());
                            assert(evs@ =~= mid + conn_lines(w, c).map_values(
                                |l: Entity| DisconnectEvent { connection: l, in_parent: Some(e) },
                            ));
                        },
                    }
                    proof {
                        lemma_concat_take(parts, k as int);
                        assert(evs0 + concat(parts.take(k + 1)) =~= mid + parts[k as int]);
                    }
                    k = k + 1;
                }
                proof {
                    assert(parts.take(k as int) =~= parts);
                    assert(concat(parts) == node_events(w, e));
                    let all = rem@.map_values(|x: Entity| node_events(w, x));
                    assert(all.take(rem0.len() as int) =~= rem0.map_values(|x: Entity| node_events(w, x)));
                    lemma_concat_take(all, rem0.len() as int);
                    assert(all =~= all.take(rem0.len() as int + 1));
                }
            },
            None => {
                assert(!saved_node(w, e as int));
            },
        }
        i = i + 1;
    }
    assert(es@.take(i as int) =~= es@);
    (rem, comps, dl, evs)
}

/// The connection line `l` makes; see [`line_triple`].
fn line_triple_of(world: &World, l: Entity) -> (r: Option<ConnTriple>)
    ensures
        r == line_triple(world@, l),
{
    if l >= world.len() {
        return None;
    }
    let line = match world.slot(l) {
        Slot::Line(x) => *x,
        _ => {
            return None;
        },
    };
    if line.output.entity >= world.len() || line.input.entity >= world.len() {
        return None;
    }
    let po = match world.slot(line.output.entity) {
        Slot::Connector(c) => c.parent,
        _ => {
            return None;
        },
    };
    let pi = match world.slot(line.input.entity) {
        Slot::Connector(c) => c.parent,
        _ => {
            return None;
        },
    };
    Some(
        (
            ConnInfo { entity: po, index: line.output.index },
            ConnInfo { entity: pi, index: line.input.index },
            l,
        ),
    )
}

/// The connections of the lines that the requests `evs` name; see
/// [`collect_triples`].
fn collect_conns(world: &World, evs: &Vec<DisconnectEvent>) -> (r: Vec<ConnTriple>)
    ensures
        r@ == collect_triples(world@, evs@),
{
    let mut r: Vec<ConnTriple> = Vec::new();
    let mut i: usize = 0;
    assert(evs@.take(0) =~= Seq::<DisconnectEvent>::empty());
    while i < evs.len()
        invariant
            i <= evs@.len(),
            r@ == collect_triples(world@, evs@.take(i as int)),
        decreases evs@.len() - i,
    {
        assert(evs@.take(i + 1).drop_last() =~= evs@.take(i as int));
        match line_triple_of(world, evs[i].connection) {
            Some(t) => {
                if !contains_triple(&r, &t) {
                    r.push(t);
                }
            },
            None => {},
        }
        i = i + 1;
    }
    assert(evs@.take(i as int) =~= evs@);
    r
}

/// Despawn the entities `ks`; see [`vacate_seq`].
pub fn vacate_all(world: &mut World, ks: &Vec<Entity>)
    ensures
        final(world)@ == vacate_seq(old(world)@, ks@),
{
    let mut i: usize = 0;
    assert(ks@.take(0) =~= Seq::<Entity>::empty());
    while i < ks.len()
        invariant
            i <= ks@.len(),
            world@ == vacate_seq(old(world)@, ks@.take(i as int)),
        decreases ks@.len() - i,
    {
        assert(ks@.take(i + 1).drop_last() =~= ks@.take(i as int));
        if ks[i] < world.len() {
            world.despawn(ks[i]);
        }
        i = i + 1;
    }
    assert(ks@.take(i as int) =~= ks@);
}

/// Carry out the disconnect requests `evs` in order, passing over those the
/// world cannot carry out at their turn; see [`apply_disconnects`].
pub fn disconnect_all(world: &mut World, evs: &Vec<DisconnectEvent>)
    ensures
        final(world)@ == apply_disconnects(old(world)@, evs@),
{
    let mut i: usize = 0;
    assert(evs@.take(0) =~= Seq::<DisconnectEvent>::empty());
    while i < evs.len()
        invariant
            i <= evs@.len(),
            world@ == apply_disconnects(old(world)@, evs@.take(i as int)),
        decreases evs@.len() - i,
    {
        assert(evs@.take(i + 1).drop_last() =~= evs@.take(i as int));
        if world.can_disconnect(&evs[i]) {
            world.disconnect(&evs[i]);
        }
        i = i + 1;
    }
    assert(evs@.take(i as int) =~= evs@);
}

/// Remove the components `es` (see [`spec_remove_world`]) and report their
/// snapshots and connections (see [`spec_remove_report`]).
pub fn remove(world: &mut World, es: &Vec<Entity>) -> (r: Option<(Vec<NodusComponent>, Vec<ConnTriple>)>)
    requires
        remove_ok(old(world)@, es@),
    ensures
        final(world)@ == spec_remove_world(old(world)@, es@),
        match r {
            Some((cs, conns)) => spec_remove_report(old(world)@, es@) == Some(
                (components_view(cs@), conns@),
            ),
            None => spec_remove_report(old(world)@, es@) is None,
        },
{
    let (rem, comps, dl, evs) = removal_plan(world, es);
    let conns = collect_conns(world, &evs);
    vacate_all(world, &dl);
    disconnect_all(world, &evs);
    if rem.len() > 0 {
        Some((comps, conns))
    } else {
        None
    }
}

/// The first of the entities `ch` that is a connector of type `ct` and
/// index `idx`.
pub open spec fn find_conn(w: WorldView, ch: Seq<Entity>, ct: ConnectorType, idx: usize) -> Option<Entity>
    decreases ch.len(),
{
    if ch.len() == 0 {
        None
    } else if is_connector(w, ch[0] as int) && connector_of(w, ch[0] as int).connector == (Connector {
        ctype: ct,
        index: idx,
    }) {
        Some(ch[0])
    } else {
        find_conn(w, ch.subrange(1, ch.len() as int), ct, idx)
    }
}

/// The connect request that restores connection `t`: from the output
/// connector with the output index of the output component to the input
/// connector with the input index of the input component, where both
/// components and both connectors exist.
pub open spec fn reconnect_event(w: WorldView, t: ConnTriple) -> Option<ConnectEvent> {
    if is_node(w, t.0.entity as int) && is_node(w, t.1.entity as int) {
        match (
            find_conn(w, node_of(w, t.0.entity as int).children, ConnectorType::Out, t.0.index),
            find_conn(w, node_of(w, t.1.entity as int).children, ConnectorType::In, t.1.index),
        ) {
            (Some(o), Some(i)) => Some(
                ConnectEvent {
                    output: o,
                    output_index: t.0.index,
                    input: i,
                    input_index: t.1.index,
                    signal_success: false,
                },
            ),
            _ => None,
        }
    } else {
        None
    }
}

/// Find the first connector of type `ct` and index `idx` among `ch`.
pub fn find_connector(world: &World, ch: &Vec<Entity>, ct: ConnectorType, idx: usize) -> (r: Option<Entity>)
    ensures
        r == find_conn(world@, ch@, ct, idx),
{
    let mut i: usize = 0;
    assert(ch@.subrange(0, ch@.len() as int) =~= ch@);
    while i < ch.len()
        invariant
            i <= ch@.len(),
            find_conn(world@, ch@, ct, idx) == find_conn(world@, ch@.subrange(i as int, ch@.len() as int), ct, idx),
        decreases ch@.len() - i,
    {
        let c = ch[i];
        let hit = if c < world.len() {
            match world.slot(c) {
                Slot::Connector(cc) => cc.connector.index == idx && match (cc.connector.ctype, ct) {
                    (ConnectorType::In, ConnectorType::In) => true,
                    (ConnectorType::Out, ConnectorType::Out) => true,
                    _ => false,
                },
                _ => false,
            }
        } else {
            false
        };
        let ghost rest = ch@.subrange(i as int, ch@.len() as int);
        assert(rest[0] == c);
        if hit {
            return Some(c);
        }
        assert(rest.subrange(1, rest.len() as int) =~= ch@.subrange(i + 1, ch@.len() as int));
        i = i + 1;
    }
    None
}

/// The connect request that restores connection `t`; see
/// [`reconnect_event`].
pub fn reconnect_request(world: &World, t: &ConnTriple) -> (r: Option<ConnectEvent>)
    ensures
        r == reconnect_event(world@, *t),
{
    if t.0.entity >= world.len() || t.1.entity >= world.len() {
        return None;
    }
    let lc = match world.slot(t.0.entity) {
        Slot::Node(n) => &n.children,
        _ => {
            return None;
        },
    };
    let rc = match world.slot(t.1.entity) {
        Slot::Node(n) => &n.children,
        _ => {
            return None;
        },
    };
    match (
        find_connector(world, lc, ConnectorType::Out, t.0.index),
        find_connector(world, rc, ConnectorType::In, t.1.index),
    ) {
        (Some(o), Some(i)) => Some(
            ConnectEvent {
                output: o,
                output_index: t.0.index,
                input: i,
                input_index: t.1.index,
                signal_success: false,
            },
        ),
        _ => None,
    }
}

/// The history with component `from` renamed to `to` in every action.
pub open spec fn rename_stack(st: StackView, from: Entity, to: Entity) -> StackView {
    StackView {
        undo: st.undo.map_values(|a: ActionView| rename_in_action(a, from, to)),
        redo: st.redo.map_values(|a: ActionView| rename_in_action(a, from, to)),
    }
}

/// The history with connection line `from` renamed to `to` in every
/// action.
pub open spec fn rename_line_stack(st: StackView, from: Entity, to: Entity) -> StackView {
    StackView {
        undo: st.undo.map_values(|a: ActionView| rename_line_in_action(a, from, to)),
        redo: st.redo.map_values(|a: ActionView| rename_line_in_action(a, from, to)),
    }
}

/// Restoring connection `t` succeeds in `w`: both connectors are found and
/// the connect request can be carried out.
pub open spec fn reconnect_succeeds(w: WorldView, t: ConnTriple) -> bool {
    reconnect_event(w, t) matches Some(ev) && connect_ok(w, ev)
}

/// The world and history after restoring connection `t`: where it
/// succeeds, a new connection line is made and the history names it in
/// place of the line `t.2`.
pub open spec fn reconnect_step(w: WorldView, st: StackView, t: ConnTriple) -> (WorldView, StackView) {
    if reconnect_succeeds(w, t) {
        (spec_connect(w, reconnect_event(w, t).unwrap()), rename_line_stack(st, t.2, w.len() as Entity))
    } else {
        (w, st)
    }
}

/// The world and history after restoring the connections `ts`, in order.
pub open spec fn reconnect_all_spec(w: WorldView, st: StackView, ts: Seq<ConnTriple>) -> (WorldView, StackView)
    decreases ts.len(),
{
    if ts.len() == 0 {
        (w, st)
    } else {
        let (w1, st1) = reconnect_all_spec(w, st, ts.drop_last());
        reconnect_step(w1, st1, ts.last())
    }
}

/// The history with `a` added on top of the redo actions (`to_redo`) or of
/// the undo actions.
pub open spec fn push_to(st: StackView, to_redo: bool, a: ActionView) -> StackView {
    if to_redo {
        StackView { undo: st.undo, redo: st.redo.push(a) }
    } else {
        StackView { undo: st.undo.push(a), redo: st.redo }
    }
}

/// The history and connections after renaming, for the first `k` spawned
/// components, the component `cs[i].id` to the new entity `ids[i]`.
pub open spec fn rename_spawned(
    st: StackView,
    conns: Seq<ConnTriple>,
    cs: Seq<ComponentView>,
    ids: Seq<Entity>,
    k: nat,
) -> (StackView, Seq<ConnTriple>)
    decreases k,
{
    if k == 0 {
        (st, conns)
    } else {
        let (s1, c1) = rename_spawned(st, conns, cs, ids, (k - 1) as nat);
        (
            rename_stack(s1, cs[k - 1].id, ids[k - 1]),
            replace_conns(c1, cs[k - 1].id, ids[k - 1]),
        )
    }
}

/// Carrying out action `a` can be done: the snapshots of an insertion can
/// be spawned, the components of a removal can be described by snapshots.
pub open spec fn action_ok(w: WorldView, a: ActionView) -> bool {
    match a {
        ActionView::Insert(cs, _) => forall|k: int| 0 <= k < cs.len() ==> insert_ok(#[trigger] cs[k]),
        ActionView::Remove(es) => remove_ok(w, es),
        _ => true,
    }
}

/// The world and history after carrying out action `a` (already taken off
/// the history `st`); the action that reverses it goes on top of the redo
/// actions (`to_redo`) or of the undo actions.
///
/// * `Insert`: the snapshots are spawned anew; when something was spawned,
///   each snapshot's entity is renamed to its new entity in the history and
///   in the connections (when every snapshot was spawned), a `Remove` of the
///   new entities is recorded, and the connections are restored.
/// * `Remove`: the components are removed; when something was removed, an
///   `Insert` of their snapshots and connections is recorded.
/// * `RemoveConnection`: the line is disconnected where it can be; when a
///   connection was reported, an `InsertConnection` of it is recorded.
/// * `InsertConnection`: the connection is restored; when it was, a
///   `RemoveConnection` of the new line is recorded.
pub open spec fn spec_carry_out(w: WorldView, st: StackView, a: ActionView, to_redo: bool) -> (
    WorldView,
    StackView,
) {
    match a {
        ActionView::Insert(cs, conns) => {
            let (w1, ids) = spec_insert_all(w, cs);
            if ids.len() == 0 {
                (w1, st)
            } else {
                let k = if cs.len() == ids.len() {
                    cs.len()
                } else {
                    0
                };
                let (st1, conns1) = rename_spawned(st, conns, cs, ids, k);
                reconnect_all_spec(w1, push_to(st1, to_redo, ActionView::Remove(ids)), conns1)
            }
        },
        ActionView::Remove(es) => {
            let w1 = spec_remove_world(w, es);
            match spec_remove_report(w, es) {
                Some((cs, conns)) => (w1, push_to(st, to_redo, ActionView::Insert(cs, conns))),
                None => (w1, st),
            }
        },
        ActionView::RemoveConnection(c) => {
            let ev = DisconnectEvent { connection: c, in_parent: None };
            if disconnect_ok(w, ev) {
                match spec_disconnect_report(w, ev) {
                    Some(con) => (spec_disconnect(w, ev), push_to(st, to_redo, ActionView::InsertConnection(con))),
                    None => (spec_disconnect(w, ev), st),
                }
            } else {
                (w, st)
            }
        },
        ActionView::InsertConnection(con) => {
            let (w1, st1) = reconnect_step(w, st, con);
            if reconnect_succeeds(w, con) {
                (w1, push_to(st1, to_redo, ActionView::RemoveConnection(w.len() as Entity)))
            } else {
                (w1, st1)
            }
        },
    }
}

/// The history without its last undo action (`from_redo` false) or its last
/// redo action.
pub open spec fn pop_from(st: StackView, from_redo: bool) -> StackView {
    if from_redo {
        StackView { undo: st.undo, redo: st.redo.drop_last() }
    } else {
        StackView { undo: st.undo.drop_last(), redo: st.redo }
    }
}

/// The actions an undo or a redo request takes its action from.
pub open spec fn source(st: StackView, ev: UndoEvent) -> Seq<ActionView> {
    match ev {
        UndoEvent::Undo => st.undo,
        UndoEvent::Redo => st.redo,
    }
}

/// An undo or redo request whose action can be carried out.
pub open spec fn undo_ok(w: WorldView, st: StackView, ev: UndoEvent) -> bool {
    source(st, ev).len() > 0 ==> action_ok(w, source(st, ev).last())
}

/// The world and history after an undo request (the last undo action is
/// carried out, its reverse becomes a redo action) or a redo request (the
/// last redo action is carried out, its reverse becomes an undo action).
/// Nothing happens when there is no such action.
pub open spec fn spec_undo_event(w: WorldView, st: StackView, ev: UndoEvent) -> (WorldView, StackView) {
    let from_redo = ev == UndoEvent::Redo;
    if source(st, ev).len() == 0 {
        (w, st)
    } else {
        spec_carry_out(w, pop_from(st, from_redo), source(st, ev).last(), !from_redo)
    }
}

/// The numbers of inputs and outputs, state and timing a component gets when
/// the user inserts it: two inputs (one for NOT) and one output for a logic
/// gate, `Low` for a toggle switch, `Low` and a period of one second for a
/// clock, `Unknown` for a light bulb.
pub open spec fn default_args(kind: NodeType) -> (usize, usize, State, ClockTiming) {
    match kind {
        NodeType::Not => (1, 1, State::Unknown, ClockTiming { period: 0, elapsed: 0 }),
        NodeType::ToggleSwitch => (0, 0, State::Low, ClockTiming { period: 0, elapsed: 0 }),
        NodeType::Clock => (0, 0, State::Low, ClockTiming { period: 0x3f80_0000, elapsed: 0 }),
        _ => (2, 1, State::Unknown, ClockTiming { period: 0, elapsed: 0 }),
    }
}

/// The history with its redo actions dropped.
pub open spec fn clear_redo(st: StackView) -> StackView {
    StackView { undo: st.undo, redo: Seq::empty() }
}

/// A request to disconnect a line whose reverse goes onto the undo actions
/// (`action` is `Undo`) or the redo actions.
#[derive(Debug, Clone, Copy, PartialEq, Eq, Structural)]
pub struct DisconnectEventUndo {
    pub connection: Entity,
    pub in_parent: Option<Entity>,
    pub action: UndoEvent,
}

impl UndoStack {
    /// An empty history.
    pub fn new() -> (s: Self)
        ensures
            s@.undo.len() == 0,
            s@.redo.len() == 0,
    {
        UndoStack { undo: Vec::new(), redo: Vec::new() }
    }

    /// Whether an undo request (`ev` is `Undo`) or a redo request can be
    /// made: there is an action to undo, or one to redo.
    pub fn available(&self, ev: UndoEvent) -> (r: bool)
        ensures
            r == (source(self@, ev).len() > 0),
    {
        match ev {
            UndoEvent::Undo => self.undo.len() > 0,
            UndoEvent::Redo => self.redo.len() > 0,
        }
    }

    /// Rename component `from` to `to` in every action of the history.
    pub fn replace_entity_id(&mut self, from: Entity, to: Entity)
        ensures
            final(self)@.undo == old(self)@.undo.map_values(|a: ActionView| rename_in_action(a, from, to)),
            final(self)@.redo == old(self)@.redo.map_values(|a: ActionView| rename_in_action(a, from, to)),
    {
        rename_actions(&mut self.undo, from, to);
        rename_actions(&mut self.redo, from, to);
    }

    /// Restore connection `t`; see [`reconnect_step`]. Returns the new
    /// connection line, if one was made.
    pub fn reconnect(&mut self, world: &mut World, t: &ConnTriple) -> (r: Option<Entity>)
        ensures
            (final(world)@, final(self)@) == reconnect_step(old(world)@, old(self)@, *t),
            r == (if reconnect_succeeds(old(world)@, *t) {
                Some(old(world)@.len() as Entity)
            } else {
                None::<Entity>
            }),
    {
        match reconnect_request(world, t) {
            Some(ev) => {
                if world.can_connect(&ev) {
                    let (line, _) = world.connect(&ev);
                    self.replace_connection_entity_id(t.2, line);
                    Some(line)
                } else {
                    None
                }
            },
            None => None,
        }
    }

    /// Restore the connections `ts` in order; see [`reconnect_all_spec`].
    pub fn reconnect_all(&mut self, world: &mut World, ts: &Vec<ConnTriple>)
        ensures
            (final(world)@, final(self)@) == reconnect_all_spec(old(world)@, old(self)@, ts@),
    {
        let mut i: usize = 0;
        assert(ts@.take(0) =~= Seq::<ConnTriple>::empty());
        while i < ts.len()
            invariant
                i <= ts@.len(),
                (world@, self@) == reconnect_all_spec(old(world)@, old(self)@, ts@.take(i as int)),
            decreases ts@.len() - i,
        {
            assert(ts@.take(i + 1).drop_last() =~= ts@.take(i as int));
            self.reconnect(world, &ts[i]);
            i = i + 1;
        }
        assert(ts@.take(i as int) =~= ts@);
    }

    /// Push `a` on top of the redo actions (`to_redo`) or the undo actions.
    fn push_action(&mut self, to_redo: bool, a: Action)
        ensures
            final(self)@ == push_to(old(self)@, to_redo, a@),
    {
        if to_redo {
            let ghost r0 = self.redo@;
            self.redo.push(a);
            assert(actions_view(self.redo@) =~= actions_view(r0).push(a@));
        } else {
            let ghost u0 = self.undo@;
            self.undo.push(a);
            assert(actions_view(self.undo@) =~= actions_view(u0).push(a@));
        }
    }

    /// Carry out action `a`, which was taken off the history; see
    /// [`spec_carry_out`].
    pub fn carry_out(&mut self, world: &mut World, a: Action, to_redo: bool)
        requires
            action_ok(old(world)@, a@),
        ensures
            (final(world)@, final(self)@) == spec_carry_out(old(world)@, old(self)@, a@, to_redo),
    {
        match a {
            Action::Insert(cs, conns) => {
                let ghost cv = components_view(cs@);
                assert forall|k: int| 0 <= k < cs@.len() implies insert_ok(#[trigger] cs@[k]@) by {
                    assert(cv[k] == cs@[k]@);
                }
                let ids = insert_components(world, &cs);
                if ids.len() > 0 {
                    let mut conns = conns;
                    let ghost st0 = self@;
                    let ghost c0 = conns@;
                    if cs.len() == ids.len() {
                        let mut i: usize = 0;
                        while i < cs.len()
                            invariant
                                i <= cs@.len(),
                                cs@.len() == ids@.len(),
                                cv == components_view(cs@),
                                (self@, conns@) == rename_spawned(st0, c0, cv, ids@, i as nat),
                            decreases cs@.len() - i,
                        {
                            assert(cv[i as int].id == cs@[i as int].id);
                            self.replace_entity_id(cs[i].id, ids[i]);
                            replace_entity_id_conns(cs[i].id, ids[i], &mut conns);
                            i = i + 1;
                        }
                    }
                    let ghost ids_v = ids@;
                    self.push_action(to_redo, Action::Remove(ids));
                    assert(Action::Remove(ids)@ == ActionView::Remove(ids_v));
                    self.reconnect_all(world, &conns);
                }
            },
            Action::Remove(es) => {
                match remove(world, &es) {
                    Some((cs, conns)) => {
                        self.push_action(to_redo, Action::Insert(cs, conns));
                    },
                    None => {},
                }
            },
            Action::RemoveConnection(c) => {
                let ev = DisconnectEvent { connection: c, in_parent: None };
                if world.can_disconnect(&ev) {
                    match world.disconnect(&ev) {
                        Some(con) => {
                            self.push_action(to_redo, Action::InsertConnection(con));
                        },
                        None => {},
                    }
                }
            },
            Action::InsertConnection(con) => {
                let ghost n = world@.len();
                match self.reconnect(world, &con) {
                    Some(line) => {
                        self.push_action(to_redo, Action::RemoveConnection(line));
                    },
                    None => {},
                }
            },
        }
    }

    /// Handle an undo or redo request; see [`spec_undo_event`].
    pub fn handle_undo_event(&mut self, world: &mut World, ev: UndoEvent)
        requires
            undo_ok(old(world)@, old(self)@, ev),
        ensures
            (final(world)@, final(self)@) == spec_undo_event(old(world)@, old(self)@, ev),
    {
        match ev {
            UndoEvent::Undo => {
                let ghost u0 = self.undo@;
                match self.undo.pop() {
                    Some(a) => {
                        assert(actions_view(self.undo@) =~= actions_view(u0).drop_last());
                        assert(a@ == actions_view(u0).last());
                        self.carry_out(world, a, true);
                    },
                    None => {},
                }
            },
            UndoEvent::Redo => {
                let ghost r0 = self.redo@;
                match self.redo.pop() {
                    Some(a) => {
                        assert(actions_view(self.redo@) =~= actions_view(r0).drop_last());
                        assert(a@ == actions_view(r0).last());
                        self.carry_out(world, a, false);
                    },
                    None => {},
                }
            },
        }
    }

    /// Drop the redo actions.
    fn clear_redo(&mut self)
        ensures
            final(self)@ == clear_redo(old(self)@),
    {
        self.redo.clear();
        assert(actions_view(self.redo@) =~= Seq::<ActionView>::empty());
    }

    /// Insert a new component of `kind` at `placement` (see
    /// [`default_args`]) and record its removal as the undo action; the
    /// redo actions are dropped. There is no XNOR gate to insert.
    pub fn insert_gate(&mut self, world: &mut World, kind: NodeType, placement: Placement) -> (r: Option<Entity>)
        ensures
            kind == NodeType::Xnor ==> r is None && final(world)@ == old(world)@ && final(self)@ == old(self)@,
            kind != NodeType::Xnor ==> {
                let (i, o, s, t) = default_args(kind);
                &&& r == Some(old(world)@.len() as Entity)
                &&& final(world)@ == old(world)@ + spawned_slots(
                    kind_node(kind, i, o, s, t, placement),
                    kind_layout(kind, i, o),
                    old(world)@.len() as Entity,
                )
                &&& final(self)@ == clear_redo(push_to(old(self)@, false, ActionView::Remove(seq![old(world)@.len() as Entity])))
            },
    {
        let (i, o, s, t): (usize, usize, State, ClockTiming) = match kind {
            NodeType::Not => (1, 1, State::Unknown, ClockTiming { period: 0, elapsed: 0 }),
            NodeType::ToggleSwitch => (0, 0, State::Low, ClockTiming { period: 0, elapsed: 0 }),
            NodeType::Clock => (0, 0, State::Low, ClockTiming { period: 0x3f80_0000, elapsed: 0 }),
            _ => (2, 1, State::Unknown, ClockTiming { period: 0, elapsed: 0 }),
        };
        match world.spawn_node(kind, i, o, s, t, placement) {
            Some(e) => {
                let mut v = Vec::new();
                v.push(e);
                assert(v@ =~= seq![e]);
                self.push_action(false, Action::Remove(v));
                self.clear_redo();
                Some(e)
            },
            None => None,
        }
    }

    /// Delete the components `es` and record their reinsertion as the undo
    /// action (when something was removed); the redo actions are dropped
    /// then.
    pub fn delete(&mut self, world: &mut World, es: &Vec<Entity>)
        requires
            remove_ok(old(world)@, es@),
        ensures
            final(world)@ == spec_remove_world(old(world)@, es@),
            final(self)@ == match spec_remove_report(old(world)@, es@) {
                Some((cs, conns)) => clear_redo(push_to(old(self)@, false, ActionView::Insert(cs, conns))),
                None => old(self)@,
            },
    {
        match remove(world, es) {
            Some((cs, conns)) => {
                self.push_action(false, Action::Insert(cs, conns));
                self.clear_redo();
            },
            None => {},
        }
    }

    /// Carry out a connect request; a new connection whose request asks for
    /// it is recorded: its removal becomes the undo action and the redo
    /// actions are dropped.
    pub fn connect(&mut self, world: &mut World, ev: &ConnectEvent) -> (r: Entity)
        requires
            connect_ok(old(world)@, *ev),
        ensures
            r == old(world)@.len(),
            final(world)@ == spec_connect(old(world)@, *ev),
            final(self)@ == (if is_connector(old(world)@, ev.input as int) && ev.signal_success {
                clear_redo(push_to(old(self)@, false, ActionView::RemoveConnection(r)))
            } else {
                old(self)@
            }),
    {
        let (line, linked) = world.connect(ev);
        if linked && ev.signal_success {
            self.push_action(false, Action::RemoveConnection(line));
            self.clear_redo();
        }
        line
    }

    /// Carry out a disconnect request whose reverse is recorded on the undo
    /// actions (`ev.action` is `Undo`) or on the redo actions.
    pub fn disconnect(&mut self, world: &mut World, ev: &DisconnectEventUndo)
        requires
            disconnect_ok(old(world)@, DisconnectEvent { connection: ev.connection, in_parent: ev.in_parent }),
        ensures
            ({
                let d = DisconnectEvent { connection: ev.connection, in_parent: ev.in_parent };
                &&& final(world)@ == spec_disconnect(old(world)@, d)
                &&& final(self)@ == match spec_disconnect_report(old(world)@, d) {
                    Some(con) => push_to(old(self)@, ev.action == UndoEvent::Redo, ActionView::InsertConnection(con)),
                    None => old(self)@,
                }
            }),
    {
        let d = DisconnectEvent { connection: ev.connection, in_parent: ev.in_parent };
        match world.disconnect(&d) {
            Some(con) => {
                let to_redo = match ev.action {
                    UndoEvent::Undo => false,
                    UndoEvent::Redo => true,
                };
                self.push_action(to_redo, Action::InsertConnection(con));
            },
            None => {},
        }
    }

    /// Rename connection line `from` to `to` in every action of the
    /// history.
    pub fn replace_connection_entity_id(&mut self, from: Entity, to: Entity)
        ensures
            final(self)@.undo == old(self)@.undo.map_values(|a: ActionView| rename_line_in_action(a, from, to)),
            final(self)@.redo == old(self)@.redo.map_values(|a: ActionView| rename_line_in_action(a, from, to)),
    {
        rename_line_actions(&mut self.undo, from, to);
        rename_line_actions(&mut self.redo, from, to);
    }
}

} // verus!

verus! {

/// `n` vacant slots.
pub open spec fn vacants(n: nat) -> Seq<SlotView> {
    Seq::new(n, |_k: int| SlotView::Vacant)
}

/// Despawning the first `j` of the entities appended to `w` leaves `w` and
/// the rest of what was appended.
pub proof fn lemma_vacate_fresh(w: WorldView, t: Seq<SlotView>, j: nat)
    requires
        j <= t.len(),
        w.len() + t.len() <= usize::MAX,
    ensures
        vacate_seq(w + t, Seq::new(j, |k: int| (w.len() + k) as Entity)) == w + (vacants(j) + t.skip(j as int)),
    decreases j,
{
    let ks = Seq::new(j, |k: int| (w.len() + k) as Entity);
    if j > 0 {
        lemma_vacate_fresh(w, t, (j - 1) as nat);
        assert(ks.drop_last() =~= Seq::new((j - 1) as nat, |k: int| (w.len() + k) as Entity));
        let v = vacate_seq(w + t, ks.drop_last());
        assert(v.len() == w.len() + t.len());
        assert(ks.last() == w.len() + j - 1);
        assert(v.update(ks.last() as int, SlotView::Vacant) =~= w + (vacants(j) + t.skip(j as int)));
    } else {
        assert(w + (vacants(0) + t.skip(0)) =~= w + t);
    }
}

/// The concatenation of empty sequences is empty.
pub proof fn lemma_concat_empties<A>(ss: Seq<Seq<A>>)
    requires
        forall|i: int| 0 <= i < ss.len() ==> (#[trigger] ss[i]).len() == 0,
    ensures
        concat(ss) == Seq::<A>::empty(),
    decreases ss.len(),
{
    if ss.len() > 0 {
        lemma_concat_empties(ss.drop_last());
        assert(ss.last() == ss[ss.len() - 1]);
        assert(concat(ss) =~= Seq::<A>::empty());
    }
}

/// Undoing the insertion of a component (see [`UndoStack::insert_gate`])
/// despawns the component and its connectors, and leaves every older entity
/// as it was; the redo actions then hold the reinsertion of the component's
/// snapshot, without connections, and the undo actions are those from before
/// the insertion.
pub proof fn law_undo_insert(w: WorldView, st: StackView, kind: NodeType, placement: Placement)
    requires
        kind != NodeType::Xnor,
        w.len() + 1 + kind_layout(kind, default_args(kind).0, default_args(kind).1).len() <= usize::MAX,
    ensures
        ({
            let (i, o, s, t) = default_args(kind);
            let g = w.len() as Entity;
            let added = spawned_slots(kind_node(kind, i, o, s, t, placement), kind_layout(kind, i, o), g);
            let w1 = w + added;
            let st1 = clear_redo(push_to(st, false, ActionView::Remove(seq![g])));
            let (w2, st2) = spec_undo_event(w1, st1, UndoEvent::Undo);
            &&& undo_ok(w1, st1, UndoEvent::Undo)
            &&& w2 == w + vacants(added.len())
            &&& st2.undo == st.undo
            &&& st2.redo == seq![ActionView::Insert(seq![spec_snapshot(g, node_of(w1, g as int))], Seq::empty())]
        }),
{
    let (i, o, s, t) = default_args(kind);
    let g = w.len() as Entity;
    let nd = kind_node(kind, i, o, s, t, placement);
    let lay = kind_layout(kind, i, o);
    let added = spawned_slots(nd, lay, g);
    let w1 = w + added;
    let st1 = clear_redo(push_to(st, false, ActionView::Remove(seq![g])));
    let es = seq![g];
    let children = Seq::new(lay.len(), |k: int| (g + 1 + k) as Entity);
    assert(w1[g as int] == added[0]);
    assert(node_of(w1, g as int) == with_children(nd, children));
    // The component is the one entity to remove.
    assert(es.drop_last() =~= Seq::<Entity>::empty());
    assert(saved_node(w1, g as int));
    assert(removed_of(w1, es.drop_last()) =~= Seq::<Entity>::empty());
    assert(removed_of(w1, es) =~= es);
    // It is despawned together with its connectors: the appended entities.
    let parts = es.map_values(|e: Entity| seq![e] + node_of(w1, e as int).children);
    assert(parts.drop_last() =~= Seq::<Seq<Entity>>::empty());
    assert(concat(parts.drop_last()) =~= Seq::<Entity>::empty());
    assert(concat(parts) =~= parts[0]);
    assert(despawn_list(w1, es) == parts[0]);
    assert(parts[0] =~= Seq::new(added.len(), |k: int| (w.len() + k) as Entity));
    lemma_vacate_fresh(w, added, added.len());
    assert(added.skip(added.len() as int) =~= Seq::<SlotView>::empty());
    assert(w + (vacants(added.len()) + added.skip(added.len() as int)) =~= w + vacants(added.len()));
    // Its connectors are fresh: no line to disconnect.
    let inner = children.map_values(
        |c: Entity| conn_lines(w1, c).map_values(|l: Entity| DisconnectEvent { connection: l, in_parent: Some(g) }),
    );
    assert forall|k: int| 0 <= k < inner.len() implies (#[trigger] inner[k]).len() == 0 by {
        assert(w1[g + 1 + k] == added[1 + k]);
        assert(conn_lines(w1, children[k]) =~= Seq::<Entity>::empty());
    }
    lemma_concat_empties(inner);
    assert(node_events(w1, g) =~= Seq::<DisconnectEvent>::empty());
    let evs_parts = es.map_values(|e: Entity| node_events(w1, e));
    assert(evs_parts.drop_last() =~= Seq::<Seq<DisconnectEvent>>::empty());
    assert(concat(evs_parts.drop_last()) =~= Seq::<DisconnectEvent>::empty());
    assert(concat(evs_parts) =~= evs_parts[0]);
    assert(remove_events(w1, es) =~= Seq::<DisconnectEvent>::empty());
    assert(removed_snapshots(w1, es) =~= seq![spec_snapshot(g, node_of(w1, g as int))]);
    assert(st1.undo.drop_last() =~= st.undo);
}

} // verus!

verus! {

/// Redoing an undone insertion (see [`law_undo_insert`]) spawns the same
/// component again, as a new entity after the vacant ones; the undo actions
/// are those from before the insertion, with the old entity renamed to the
/// new one, followed by the removal of the new entity, and no redo action
/// is left.
pub proof fn law_undo_redo_insert(w: WorldView, st: StackView, kind: NodeType, placement: Placement)
    requires
        kind != NodeType::Xnor,
        w.len() + 2 * (1 + kind_layout(kind, default_args(kind).0, default_args(kind).1).len()) <= usize::MAX,
    ensures
        ({
            let (i, o, s, t) = default_args(kind);
            let g = w.len() as Entity;
            let nd = kind_node(kind, i, o, s, t, placement);
            let lay = kind_layout(kind, i, o);
            let added = spawned_slots(nd, lay, g);
            let w1 = w + added;
            let g2 = w1.len() as Entity;
            let st1 = clear_redo(push_to(st, false, ActionView::Remove(seq![g])));
            let (w2, st2) = spec_undo_event(w1, st1, UndoEvent::Undo);
            let (w3, st3) = spec_undo_event(w2, st2, UndoEvent::Redo);
            &&& undo_ok(w2, st2, UndoEvent::Redo)
            &&& w3 == w + vacants(added.len()) + spawned_slots(nd, lay, g2)
            &&& st3.undo == st.undo.map_values(|a: ActionView| rename_in_action(a, g, g2)).push(
                ActionView::Remove(seq![g2]),
            )
            &&& st3.redo.len() == 0
        }),
{
    let (i, o, s, t) = default_args(kind);
    let g = w.len() as Entity;
    let nd = kind_node(kind, i, o, s, t, placement);
    let lay = kind_layout(kind, i, o);
    let added = spawned_slots(nd, lay, g);
    let w1 = w + added;
    let g2 = w1.len() as Entity;
    let st1 = clear_redo(push_to(st, false, ActionView::Remove(seq![g])));
    law_undo_insert(w, st, kind, placement);
    let (w2, st2) = spec_undo_event(w1, st1, UndoEvent::Undo);
    let children = Seq::new(lay.len(), |k: int| (g + 1 + k) as Entity);
    assert(w1[g as int] == added[0]);
    let c = spec_snapshot(g, node_of(w1, g as int));
    lemma_respawn_fresh(kind, i, o, s, t, placement, g, children);
    let cs = seq![c];
    assert(cs.drop_last() =~= Seq::<ComponentView>::empty());
    let popped = pop_from(st2, true);
    assert(popped.redo =~= Seq::<ActionView>::empty());
    assert(w2.len() == w1.len());
    assert(spec_insert_all(w2, cs.drop_last()) == (w2, Seq::<Entity>::empty()));
    assert(cs.last() == c);
    assert(spec_insert_all(w2, cs).1 =~= seq![g2]);
    assert(spec_insert_all(w2, cs).0 == spec_insert_one(w2, c));
    assert(spec_insert_one(w2, c) == w2 + spawned_slots(nd, lay, g2));
    let renamed = rename_spawned(popped, Seq::empty(), cs, seq![g2], 1);
    assert(rename_spawned(popped, Seq::empty(), cs, seq![g2], 0) == (popped, Seq::<ConnTriple>::empty()));
    assert(replace_conns(Seq::<ConnTriple>::empty(), g, g2) =~= Seq::<ConnTriple>::empty());
    assert(renamed.1 =~= Seq::<ConnTriple>::empty());
    assert(renamed.0.redo =~= Seq::<ActionView>::empty());
}

} // verus!

verus! {

/// Undoing a recorded connection (see [`UndoStack::connect`]) disconnects
/// it: the world is as it was before the connection, but for the input it
/// drove, which is reset to `Unknown`, and the vacant slot of the line; the
/// undo actions are those from before, and the redo action restores the
/// connection between the same outputs and inputs.
pub proof fn law_undo_connection(w: WorldView, st: StackView, ev: ConnectEvent)
    requires
        w.len() < usize::MAX,
        fresh_connection(w, ev),
        ev.signal_success,
    ensures
        ({
            let l = w.len() as Entity;
            let p = connector_of(w, ev.output as int).parent;
            let q = connector_of(w, ev.input as int).parent;
            let w1 = spec_connect(w, ev);
            let st1 = clear_redo(push_to(st, false, ActionView::RemoveConnection(l)));
            let (w2, st2) = spec_undo_event(w1, st1, UndoEvent::Undo);
            &&& undo_ok(w1, st1, UndoEvent::Undo)
            &&& w2 == reset_input(w, q as int, ev.input_index).push(SlotView::Vacant)
            &&& st2.undo == st.undo
            &&& st2.redo == seq![
                ActionView::InsertConnection(
                    (ConnInfo { entity: p, index: ev.output_index }, ConnInfo { entity: q, index: ev.input_index }, l),
                ),
            ]
        }),
{
    let l = w.len() as Entity;
    let w1 = spec_connect(w, ev);
    let st1 = clear_redo(push_to(st, false, ActionView::RemoveConnection(l)));
    law_connect_then_disconnect(w, ev);
    let d = DisconnectEvent { connection: l, in_parent: None };
    let ci = connector_of(w, ev.input as int);
    let co = connector_of(w, ev.output as int);
    let w1a = w.push(SlotView::Line(event_line(ev)));
    let w2a = connect_w2(w, ev);
    let w3a = connect_w3(w, ev);
    assert(w2a == w1a.update(ev.input as int, SlotView::Connector(conn_with(ci, ci.connections.push(l), false))));
    assert(connector_of(w3a, ev.output as int) == conn_with(co, co.connections.push(l), co.free));
    assert(w1[l as int] == SlotView::Line(event_line(ev)));
    assert(connector_of(w1, ev.input as int).parent == ci.parent);
    assert(connector_of(w1, ev.output as int) == conn_with(co, co.connections.push(l), co.free));
    assert(is_connector(disconnect_w1(w1, d), ev.output as int));
    assert(connector_of(disconnect_w1(w1, d), ev.output as int).parent == co.parent);
    assert(st1.undo.drop_last() =~= st.undo);
}

} // verus!

verus! {

/// Finding a connector among `ch` gives the same in two worlds that agree
/// on which of `ch` are connectors and on those connectors.
pub proof fn lemma_find_conn_same(w: WorldView, w2: WorldView, ch: Seq<Entity>, ct: ConnectorType, idx: usize)
    requires
        forall|j: int| 0 <= j < ch.len() ==> is_connector(w2, #[trigger] ch[j] as int) == is_connector(w, ch[j] as int),
        forall|j: int| 0 <= j < ch.len() && is_connector(w, #[trigger] ch[j] as int) ==> connector_of(w2, ch[j] as int)
            == connector_of(w, ch[j] as int),
    ensures
        find_conn(w2, ch, ct, idx) == find_conn(w, ch, ct, idx),
    decreases ch.len(),
{
    if ch.len() > 0 {
        let rest = ch.subrange(1, ch.len() as int);
        assert forall|j: int| 0 <= j < rest.len() implies is_connector(w2, #[trigger] rest[j] as int) == is_connector(
            w,
            rest[j] as int,
        ) by {
            assert(rest[j] == ch[j + 1]);
        }
        assert forall|j: int| 0 <= j < rest.len() && is_connector(w, #[trigger] rest[j] as int) implies connector_of(
            w2,
            rest[j] as int,
        ) == connector_of(w, rest[j] as int) by {
            assert(rest[j] == ch[j + 1]);
        }
        lemma_find_conn_same(w, w2, rest, ct, idx);
        assert(is_connector(w2, ch[0] as int) == is_connector(w, ch[0] as int));
    }
}

/// Redoing an undone connection (see [`law_undo_connection`]) connects the
/// same connectors again, with a new line; the undo actions are those from
/// before the connection, with the old line renamed to the new one,
/// followed by the removal of the new line, and no redo action is left.
/// This holds where the connectors are those their components list first
/// for their type and index.
pub proof fn law_undo_redo_connection(w: WorldView, st: StackView, ev: ConnectEvent)
    requires
        w.len() + 1 < usize::MAX,
        fresh_connection(w, ev),
        ev.signal_success,
        find_conn(
            w,
            node_of(w, connector_of(w, ev.output as int).parent as int).children,
            ConnectorType::Out,
            ev.output_index,
        ) == Some(ev.output),
        find_conn(
            w,
            node_of(w, connector_of(w, ev.input as int).parent as int).children,
            ConnectorType::In,
            ev.input_index,
        ) == Some(ev.input),
    ensures
        ({
            let l = w.len() as Entity;
            let w1 = spec_connect(w, ev);
            let st1 = clear_redo(push_to(st, false, ActionView::RemoveConnection(l)));
            let (w2, st2) = spec_undo_event(w1, st1, UndoEvent::Undo);
            let (w3, st3) = spec_undo_event(w2, st2, UndoEvent::Redo);
            let l2 = w2.len() as Entity;
            let ev2 = ConnectEvent {
                output: ev.output,
                output_index: ev.output_index,
                input: ev.input,
                input_index: ev.input_index,
                signal_success: false,
            };
            &&& undo_ok(w2, st2, UndoEvent::Redo)
            &&& l2 == l + 1
            &&& connect_ok(w2, ev2)
            &&& w3 == spec_connect(w2, ev2)
            &&& st3.undo == st.undo.map_values(|a: ActionView| rename_line_in_action(a, l, l2)).push(
                ActionView::RemoveConnection(l2),
            )
            &&& st3.redo.len() == 0
        }),
{
    let l = w.len() as Entity;
    let p = connector_of(w, ev.output as int).parent;
    let q = connector_of(w, ev.input as int).parent;
    let w1 = spec_connect(w, ev);
    let st1 = clear_redo(push_to(st, false, ActionView::RemoveConnection(l)));
    law_undo_connection(w, st, ev);
    let (w2, st2) = spec_undo_event(w1, st1, UndoEvent::Undo);
    let con = (ConnInfo { entity: p, index: ev.output_index }, ConnInfo { entity: q, index: ev.input_index }, l);
    let ev2 = ConnectEvent {
        output: ev.output,
        output_index: ev.output_index,
        input: ev.input,
        input_index: ev.input_index,
        signal_success: false,
    };
    assert(w2 == reset_input(w, q as int, ev.input_index).push(SlotView::Vacant));
    // The two worlds agree on every connector.
    assert forall|c: int| is_connector(w, c) implies is_connector(w2, c) && connector_of(w2, c) == connector_of(w, c) by {
        assert(w2[c] == w[c]);
    }
    assert forall|c: int| is_connector(w2, c) implies is_connector(w, c) by {
        if c != q as int {
            assert(w2[c] == w[c]);
        }
    }
    assert(is_node(w2, p as int) && node_of(w2, p as int).children == node_of(w, p as int).children);
    assert(is_node(w2, q as int) && node_of(w2, q as int).children == node_of(w, q as int).children);
    lemma_find_conn_same(w, w2, node_of(w, p as int).children, ConnectorType::Out, ev.output_index);
    lemma_find_conn_same(w, w2, node_of(w, q as int).children, ConnectorType::In, ev.input_index);
    assert(reconnect_event(w2, con) == Some(ev2));
    // The component of the output still has the target map of the output.
    assert(node_of(w2, p as int).targets == node_of(w, p as int).targets);
    let ci = connector_of(w2, ev.input as int);
    let w1a = w2.push(SlotView::Line(event_line(ev2)));
    let w2a = connect_w2(w2, ev2);
    assert(w2a == w1a.update(ev.input as int, SlotView::Connector(conn_with(ci, ci.connections.push(w2.len() as Entity), false))));
    assert(is_connector(w2a, ev.output as int));
    assert(connector_of(connect_w3(w2, ev2), ev.output as int).parent == p);
    assert(node_of(connect_w3(w2, ev2), p as int).targets == node_of(w, p as int).targets);
    assert(connect_ok(w2, ev2));
    assert(reconnect_succeeds(w2, con));
    let popped = pop_from(st2, true);
    assert(popped.redo =~= Seq::<ActionView>::empty());
    assert(st2.redo.last() == ActionView::InsertConnection(con));
}

} // verus!

verus! {

/// Renaming a component in the connections of an insertion keeps them a
/// set: no connection occurs twice, and the connections are exactly the
/// renamed ones.
pub proof fn law_replace_conns_set(s: Seq<ConnTriple>, from: Entity, to: Entity)
    ensures
        replace_conns(s, from, to).no_duplicates(),
        forall|t: ConnTriple|
            replace_conns(s, from, to).contains(t) <==> exists|i: int| 0 <= i < s.len() && #[trigger] rename3(from, to, s[i]) == t,
    decreases s.len(),
{
    if s.len() > 0 {
        let d = s.drop_last();
        law_replace_conns_set(d, from, to);
        let r = replace_conns(d, from, to);
        let x = rename3(from, to, s.last());
        assert forall|t: ConnTriple|
            replace_conns(s, from, to).contains(t) <==> exists|i: int| 0 <= i < s.len() && #[trigger] rename3(from, to, s[i]) == t by {
            if replace_conns(s, from, to).contains(t) {
                if r.contains(t) {
                    let i = choose|i: int| 0 <= i < d.len() && #[trigger] rename3(from, to, d[i]) == t;
                    assert(s[i] == d[i]);
                } else {
                    let k = choose|k: int| 0 <= k < r.push(x).len() && r.push(x)[k] == t;
                    assert(t == x);
                    assert(rename3(from, to, s[s.len() - 1]) == t);
                }
            }
            if exists|i: int| 0 <= i < s.len() && #[trigger] rename3(from, to, s[i]) == t {
                let i = choose|i: int| 0 <= i < s.len() && #[trigger] rename3(from, to, s[i]) == t;
                if i < s.len() - 1 {
                    assert(d[i] == s[i]);
                    assert(r.contains(t));
                    if !r.contains(x) {
                        let k = choose|k: int| 0 <= k < r.len() && r[k] == t;
                        assert(r.push(x)[k] == t);
                    }
                } else {
                    assert(t == x);
                    if !r.contains(x) {
                        assert(r.push(x)[r.len() as int] == t);
                    }
                }
            }
        }
        if !r.contains(x) {
            assert forall|a: int, b: int| 0 <= a < b < r.push(x).len() implies r.push(x)[a] != r.push(x)[b] by {
                if b == r.len() {
                    assert(r[a] == r.push(x)[a]);
                }
            }
        }
    }
}

} // verus!

verus! {

/// `b` keeps the shape of `a`: every component of `a` is one of `b` with
/// the same connectors and as many target maps, every connector of `a` is
/// one of `b` of the same component, type and index, and no entity of `a`
/// that is no connector there is one in `b`.
pub open spec fn shape_kept(a: WorldView, b: WorldView) -> bool {
    &&& a.len() <= b.len()
    &&& conn_kept(a, b)
    &&& targets_len_kept(a, b)
    &&& forall|e: int| #![trigger a[e]] is_node(a, e) ==> is_node(b, e) && node_of(b, e).children == node_of(a, e).children
    &&& forall|c: int| #![trigger b[c]] 0 <= c < a.len() && is_connector(b, c) ==> is_connector(a, c)
}

/// Keeping the shape is transitive.
pub proof fn lemma_shape_kept_trans(a: WorldView, b: WorldView, c: WorldView)
    requires
        shape_kept(a, b),
        shape_kept(b, c),
    ensures
        shape_kept(a, c),
{
    assert forall|x: int| #![trigger a[x]] is_connector(a, x) implies is_connector(c, x) && connector_of(c, x).parent
        == connector_of(a, x).parent && connector_of(c, x).connector == connector_of(a, x).connector by {
        assert(b[x] is Connector);
    }
    assert forall|e: int| #![trigger a[e]] is_node(a, e) && node_of(a, e).targets is Some implies is_node(c, e) && node_of(
        c,
        e,
    ).targets is Some && node_of(c, e).targets.unwrap().len() == node_of(a, e).targets.unwrap().len() by {
        assert(b[e] is Node);
    }
    assert forall|e: int| #![trigger a[e]] is_node(a, e) implies is_node(c, e) && node_of(c, e).children == node_of(
        a,
        e,
    ).children by {
        assert(b[e] is Node);
    }
    assert forall|x: int| #![trigger c[x]] 0 <= x < a.len() && is_connector(c, x) implies is_connector(a, x) by {
        assert(b[x] is Connector);
    }
}

/// Appending entities keeps the shape.
pub proof fn lemma_shape_kept_append(a: WorldView, t: Seq<SlotView>)
    ensures
        shape_kept(a, a + t),
{
    let b = a + t;
    assert forall|x: int| #![trigger a[x]] is_connector(a, x) implies is_connector(b, x) && connector_of(b, x).parent
        == connector_of(a, x).parent && connector_of(b, x).connector == connector_of(a, x).connector by {
        assert(b[x] == a[x]);
    }
    assert forall|e: int| #![trigger a[e]] is_node(a, e) && node_of(a, e).targets is Some implies is_node(b, e) && node_of(
        b,
        e,
    ).targets is Some && node_of(b, e).targets.unwrap().len() == node_of(a, e).targets.unwrap().len() by {
        assert(b[e] == a[e]);
    }
    assert forall|e: int| #![trigger a[e]] is_node(a, e) implies is_node(b, e) && node_of(b, e).children == node_of(
        a,
        e,
    ).children by {
        assert(b[e] == a[e]);
    }
    assert forall|x: int| #![trigger b[x]] 0 <= x < a.len() && is_connector(b, x) implies is_connector(a, x) by {
        assert(b[x] == a[x]);
    }
}

/// A connection keeps the shape.
pub proof fn lemma_shape_kept_connect(v: WorldView, ev: ConnectEvent)
    requires
        connect_ok(v, ev),
    ensures
        shape_kept(v, spec_connect(v, ev)),
{
    lemma_connect_keeps(v, ev);
    lemma_connect_links_only(v, ev);
    let r = spec_connect(v, ev);
    let w1 = v.push(SlotView::Line(event_line(ev)));
    let w3 = connect_w3(v, ev);
    assert forall|e: int| #![trigger v[e]] is_node(v, e) implies is_node(r, e) && node_of(r, e).children == node_of(
        v,
        e,
    ).children by {
        assert(set_targets(node_of(r, e), Seq::empty()).children == node_of(r, e).children);
    }
    assert forall|x: int| #![trigger r[x]] 0 <= x < v.len() && is_connector(r, x) implies is_connector(v, x) by {
        assert(w1[x] == v[x]);
        match connect_owner(v, ev) {
            Some(o) => {
                if x != o {
                    assert(r[x] == w3[x]);
                }
            },
            None => {},
        }
    }
}

/// A disconnection that can be carried out keeps the shape.
pub proof fn lemma_shape_kept_disconnect(v: WorldView, ev: DisconnectEvent)
    requires
        disconnect_ok(v, ev),
    ensures
        shape_kept(v, spec_disconnect(v, ev)),
        spec_disconnect(v, ev).len() == v.len(),
{
    if is_line(v, ev.connection as int) {
        let line = line_of(v, ev.connection as int);
        let w1 = disconnect_w1(v, ev);
        let w2 = disconnect_w2(v, ev);
        let r = spec_disconnect(v, ev);
        let w3 = match disconnect_owner(v, ev) {
            Some(q) => {
                let n = node_of(w2, q);
                let ts = n.targets.unwrap();
                let parent = disconnect_in_parent(v, ev).unwrap();
                let m = ts[line.output.index as int];
                let entry = m[tm_pos(m, parent).unwrap()].1;
                let m2 = if entry.len() > 1 {
                    tm_remove_index(m, parent, line.input.index)
                } else {
                    tm_remove(m, parent)
                };
                w2.update(q, SlotView::Node(set_targets(n, ts.update(line.output.index as int, m2))))
            },
            None => w2,
        };
        assert(r == w3.update(ev.connection as int, SlotView::Vacant));
        // Every slot of `r` is that of `v`, a component with other input
        // values or target maps, or a connector with other lines.
        assert forall|x: int| 0 <= x < v.len() implies #[trigger] r[x] == v[x] || x == ev.connection as int || (v[x] is Node
            && r[x] is Node && set_targets(node_of(r, x), Seq::empty()).children == node_of(v, x).children && node_of(r, x).targets
            == (if node_of(v, x).targets is Some {
            node_of(r, x).targets
        } else {
            None
        }) && (node_of(v, x).targets is Some ==> node_of(r, x).targets.unwrap().len() == node_of(v, x).targets.unwrap().len()))
            || (v[x] is Connector && r[x] is Connector && connector_of(r, x).parent == connector_of(v, x).parent
            && connector_of(r, x).connector == connector_of(v, x).connector) by {
            if x != ev.connection as int {
                assert(r[x] == w3[x]);
            }
        }
        assert forall|x: int| #![trigger v[x]] is_connector(v, x) implies is_connector(r, x) && connector_of(r, x).parent
            == connector_of(v, x).parent && connector_of(r, x).connector == connector_of(v, x).connector by {
            assert(r[x] == v[x] || x == ev.connection as int || (v[x] is Connector && r[x] is Connector));
        }
        assert forall|e: int| #![trigger v[e]] is_node(v, e) && node_of(v, e).targets is Some implies is_node(r, e) && node_of(
            r,
            e,
        ).targets is Some && node_of(r, e).targets.unwrap().len() == node_of(v, e).targets.unwrap().len() by {
            assert(r[e] == v[e] || e == ev.connection as int || (v[e] is Node && r[e] is Node));
        }
        assert forall|e: int| #![trigger v[e]] is_node(v, e) implies is_node(r, e) && node_of(r, e).children == node_of(
            v,
            e,
        ).children by {
            assert(r[e] == v[e] || e == ev.connection as int || (v[e] is Node && r[e] is Node));
        }
        assert forall|x: int| #![trigger r[x]] 0 <= x < v.len() && is_connector(r, x) implies is_connector(v, x) by {
            assert(r[x] == v[x] || x == ev.connection as int || (v[x] is Node && r[x] is Node) || (v[x] is Connector));
        }
    }
}

} // verus!

verus! {

/// Every entity of `a` that is a connector in `b` is one in `a`, of the
/// same type and index.
pub open spec fn no_new_matches(a: WorldView, b: WorldView) -> bool {
    forall|x: int| #![trigger b[x]] 0 <= x < a.len() && is_connector(b, x) ==> is_connector(a, x)
        && connector_of(b, x).connector == connector_of(a, x).connector
}

/// Keeping the shape adds no connector.
pub proof fn lemma_shape_no_new(a: WorldView, b: WorldView)
    requires
        shape_kept(a, b),
    ensures
        no_new_matches(a, b),
{
    assert forall|x: int| #![trigger b[x]] 0 <= x < a.len() && is_connector(b, x) implies is_connector(a, x) && connector_of(
        b,
        x,
    ).connector == connector_of(a, x).connector by {
        assert(a[x] is Connector);
    }
}

/// Adding no connector is transitive where the worlds grow.
pub proof fn lemma_no_new_trans(a: WorldView, b: WorldView, c: WorldView)
    requires
        no_new_matches(a, b),
        no_new_matches(b, c),
        a.len() <= b.len(),
    ensures
        no_new_matches(a, c),
{
    assert forall|x: int| #![trigger c[x]] 0 <= x < a.len() && is_connector(c, x) implies is_connector(a, x) && connector_of(
        c,
        x,
    ).connector == connector_of(a, x).connector by {
        assert(b[x] is Connector);
    }
}

/// What searching finds is the first connector of the type and index.
pub proof fn lemma_find_conn_pos(w: WorldView, ch: Seq<Entity>, ct: ConnectorType, idx: usize)
    requires
        find_conn(w, ch, ct, idx) is Some,
    ensures
        exists|pos: int| #![trigger ch[pos]] 0 <= pos < ch.len() && ch[pos] == find_conn(w, ch, ct, idx).unwrap() && conn_is(
            w,
            ch[pos],
            ct,
            idx,
        ) && forall|q: int| 0 <= q < pos ==> !conn_is(w, #[trigger] ch[q], ct, idx),
    decreases ch.len(),
{
    if !conn_is(w, ch[0], ct, idx) {
        let rest = ch.subrange(1, ch.len() as int);
        lemma_find_conn_pos(w, rest, ct, idx);
        let pos = choose|pos: int| #![trigger rest[pos]] 0 <= pos < rest.len() && rest[pos] == find_conn(w, rest, ct, idx).unwrap()
            && conn_is(w, rest[pos], ct, idx) && forall|q: int| 0 <= q < pos ==> !conn_is(w, #[trigger] rest[q], ct, idx);
        assert(ch[pos + 1] == rest[pos]);
        assert forall|q: int| 0 <= q < pos + 1 implies !conn_is(w, #[trigger] ch[q], ct, idx) by {
            if q > 0 {
                assert(ch[q] == rest[q - 1]);
            }
        }
    } else {
        assert(ch[0] == find_conn(w, ch, ct, idx).unwrap());
    }
}

/// A connector that searching finds is still found where the connector is
/// still one and no entity of the search became a connector of that type
/// and index.
pub proof fn lemma_find_conn_kept(w: WorldView, w2: WorldView, ch: Seq<Entity>, ct: ConnectorType, idx: usize)
    requires
        find_conn(w, ch, ct, idx) is Some,
        conn_is(w2, find_conn(w, ch, ct, idx).unwrap(), ct, idx),
        no_new_matches(w, w2),
        forall|k: int| 0 <= k < ch.len() ==> (#[trigger] ch[k]) < w.len(),
    ensures
        find_conn(w2, ch, ct, idx) == find_conn(w, ch, ct, idx),
{
    lemma_find_conn_pos(w, ch, ct, idx);
    let pos = choose|pos: int| #![trigger ch[pos]] 0 <= pos < ch.len() && ch[pos] == find_conn(w, ch, ct, idx).unwrap() && conn_is(
        w,
        ch[pos],
        ct,
        idx,
    ) && forall|q: int| 0 <= q < pos ==> !conn_is(w, #[trigger] ch[q], ct, idx);
    assert forall|q: int| 0 <= q < pos implies !conn_is(w2, #[trigger] ch[q], ct, idx) by {
        if conn_is(w2, ch[q], ct, idx) {
            assert(ch[q] < w.len());
            assert(w2[ch[q] as int] is Connector);
            assert(conn_is(w, ch[q], ct, idx));
        }
    }
    lemma_find_first(w2, ch, ct, idx, 0, pos);
    assert(ch.subrange(0, ch.len() as int) =~= ch);
}

} // verus!

verus! {

/// Restoring connections keeps the shape, changes components in their
/// target maps only, and keeps every input an output drives.
pub proof fn lemma_reconnects_keep(w: WorldView, st: StackView, ts: Seq<ConnTriple>)
    ensures
        shape_kept(w, reconnect_all_spec(w, st, ts).0),
        same_but_links(w, reconnect_all_spec(w, st, ts).0),
        forall|p: int, i: int, q: Entity, j: usize| has_target(w, p, i, q, j) ==> #[trigger] has_target(
            reconnect_all_spec(w, st, ts).0,
            p,
            i,
            q,
            j,
        ),
    decreases ts.len(),
{
    let r = reconnect_all_spec(w, st, ts).0;
    if ts.len() == 0 {
        lemma_shape_kept_append(w, Seq::empty());
        assert(w + Seq::<SlotView>::empty() =~= w);
        assert forall|e: int| #![trigger w[e]] is_node(w, e) implies is_node(w, e) && set_targets(node_of(w, e), Seq::empty())
            == set_targets(node_of(w, e), Seq::empty()) by {}
    } else {
        lemma_reconnects_keep(w, st, ts.drop_last());
        let (v, sv) = reconnect_all_spec(w, st, ts.drop_last());
        let t = ts.last();
        if reconnect_succeeds(v, t) {
            let ev = reconnect_event(v, t).unwrap();
            lemma_shape_kept_connect(v, ev);
            lemma_connect_links_only(v, ev);
            lemma_connect_keeps(v, ev);
            lemma_shape_kept_trans(w, v, r);
            assert forall|e: int| #![trigger w[e]] is_node(w, e) implies is_node(r, e) && set_targets(node_of(r, e), Seq::empty())
                == set_targets(node_of(w, e), Seq::empty()) by {
                assert(v[e] is Node);
            }
        }
    }
}

/// A connection among those restored, whose components exist with the
/// connectors for its indices (the first of their type and index among the
/// component's connectors, and connectors of that component), and whose
/// output's component has a target map for the output, leaves that
/// component driving the input.
pub proof fn lemma_reconnects_make(w: WorldView, st: StackView, ts: Seq<ConnTriple>, k: int)
    requires
        0 <= k < ts.len(),
        is_node(w, ts[k].0.entity as int),
        is_node(w, ts[k].1.entity as int),
        forall|x: int| 0 <= x < node_of(w, ts[k].0.entity as int).children.len() ==> (#[trigger] node_of(
            w,
            ts[k].0.entity as int,
        ).children[x]) < w.len(),
        forall|x: int| 0 <= x < node_of(w, ts[k].1.entity as int).children.len() ==> (#[trigger] node_of(
            w,
            ts[k].1.entity as int,
        ).children[x]) < w.len(),
        find_conn(w, node_of(w, ts[k].0.entity as int).children, ConnectorType::Out, ts[k].0.index) matches Some(o)
            && connector_of(w, o as int).parent == ts[k].0.entity,
        find_conn(w, node_of(w, ts[k].1.entity as int).children, ConnectorType::In, ts[k].1.index) matches Some(c)
            && connector_of(w, c as int).parent == ts[k].1.entity,
        node_of(w, ts[k].0.entity as int).targets is Some,
        ts[k].0.index < node_of(w, ts[k].0.entity as int).targets.unwrap().len(),
    ensures
        has_target(reconnect_all_spec(w, st, ts).0, ts[k].0.entity as int, ts[k].0.index as int, ts[k].1.entity, ts[k].1.index),
    decreases ts.len(),
{
    let t = ts[k];
    let (v, sv) = reconnect_all_spec(w, st, ts.drop_last());
    if k < ts.len() - 1 {
        assert(ts.drop_last()[k] == t);
        lemma_reconnects_make(w, st, ts.drop_last(), k);
        let last = ts.last();
        if reconnect_succeeds(v, last) {
            lemma_connect_keeps(v, reconnect_event(v, last).unwrap());
        }
    } else {
        lemma_reconnects_keep(w, st, ts.drop_last());
        lemma_shape_no_new(w, v);
        let p = t.0.entity as int;
        let q = t.1.entity as int;
        let ch0 = node_of(w, p).children;
        let ch1 = node_of(w, q).children;
        let o = find_conn(w, ch0, ConnectorType::Out, t.0.index).unwrap();
        let c = find_conn(w, ch1, ConnectorType::In, t.1.index).unwrap();
        lemma_find_conn_pos(w, ch0, ConnectorType::Out, t.0.index);
        lemma_find_conn_pos(w, ch1, ConnectorType::In, t.1.index);
        assert(conn_is(w, o, ConnectorType::Out, t.0.index));
        assert(conn_is(w, c, ConnectorType::In, t.1.index));
        assert(w[o as int] is Connector && w[c as int] is Connector && w[p] is Node && w[q] is Node);
        lemma_find_conn_kept(w, v, ch0, ConnectorType::Out, t.0.index);
        lemma_find_conn_kept(w, v, ch1, ConnectorType::In, t.1.index);
        let ev = ConnectEvent { output: o, output_index: t.0.index, input: c, input_index: t.1.index, signal_success: false };
        assert(reconnect_event(v, t) == Some(ev));
        lemma_connect_makes(v, ev);
        assert(reconnect_succeeds(v, t));
    }
}

} // verus!

verus! {

/// Carrying out disconnect requests keeps the shape.
pub proof fn lemma_disconnects_shape(w: WorldView, evs: Seq<DisconnectEvent>)
    ensures
        shape_kept(w, apply_disconnects(w, evs)),
        apply_disconnects(w, evs).len() == w.len(),
    decreases evs.len(),
{
    if evs.len() == 0 {
        lemma_shape_kept_append(w, Seq::empty());
        assert(w + Seq::<SlotView>::empty() =~= w);
    } else {
        lemma_disconnects_shape(w, evs.drop_last());
        let v = apply_disconnects(w, evs.drop_last());
        if disconnect_ok(v, evs.last()) {
            lemma_shape_kept_disconnect(v, evs.last());
            lemma_shape_kept_trans(w, v, apply_disconnects(w, evs));
        }
    }
}

/// Despawning adds no connector, and keeps every entity it does not
/// despawn.
pub proof fn lemma_vacate_no_new(w: WorldView, ks: Seq<Entity>)
    requires
        w.len() <= usize::MAX,
    ensures
        vacate_seq(w, ks).len() == w.len(),
        no_new_matches(w, vacate_seq(w, ks)),
        forall|x: int| 0 <= x < w.len() && !ks.contains(x as Entity) ==> #[trigger] vacate_seq(w, ks)[x] == w[x],
{
    let v = vacate_seq(w, ks);
    if w.len() > 0 {
        lemma_vacate_seq_at(w, ks, 0);
    } else {
        lemma_vacate_len(w, ks);
    }
    assert forall|x: int| 0 <= x < w.len() && !ks.contains(x as Entity) implies #[trigger] v[x] == w[x] by {
        lemma_vacate_seq_at(w, ks, x);
    }
    assert forall|x: int| #![trigger v[x]] 0 <= x < w.len() && is_connector(v, x) implies is_connector(w, x) && connector_of(
        v,
        x,
    ).connector == connector_of(w, x).connector by {
        lemma_vacate_seq_at(w, ks, x);
    }
}


/// The connection of the line of a disconnect request is among those
/// collected from the requests.
pub proof fn lemma_collect_has(w: WorldView, evs: Seq<DisconnectEvent>, k: int)
    requires
        0 <= k < evs.len(),
        line_triple(w, evs[k].connection) is Some,
    ensures
        collect_triples(w, evs).contains(line_triple(w, evs[k].connection).unwrap()),
    decreases evs.len(),
{
    let t = line_triple(w, evs[k].connection).unwrap();
    let r = collect_triples(w, evs.drop_last());
    if k < evs.len() - 1 {
        assert(evs.drop_last()[k] == evs[k]);
        lemma_collect_has(w, evs.drop_last(), k);
        let j = choose|j: int| 0 <= j < r.len() && r[j] == t;
        if line_triple(w, evs.last().connection) is Some && !r.contains(line_triple(w, evs.last().connection).unwrap()) {
            assert(r.push(line_triple(w, evs.last().connection).unwrap())[j] == t);
        }
    } else {
        if !r.contains(t) {
            assert(r.push(t)[r.len() as int] == t);
        }
    }
}

} // verus!

verus! {

/// A connection `t` of a line of component `e` that undoing a deletion of
/// `e` can restore: one side is `e`, with an index its respawned kind has a
/// connector for; the other side is a component that stays, whose
/// connectors are entities of the world, and the first of them with the
/// type and index of `t` is a connector of that component that stays too;
/// where that component is the output side, it has a target map for the
/// output.
pub open spec fn undo_link_ok(w: WorldView, e: Entity, t: ConnTriple) -> bool {
    let n = node_of(w, e as int);
    let ch = n.children;
    if t.0.entity == e && t.1.entity != e {
        let q = t.1.entity;
        let cq = node_of(w, q as int).children;
        &&& t.0.index < spawn_counts(n).1
        &&& is_node(w, q as int)
        &&& !ch.contains(q)
        &&& forall|x: int| 0 <= x < cq.len() ==> (#[trigger] cq[x]) < w.len()
        &&& find_conn(w, cq, ConnectorType::In, t.1.index) matches Some(c) && c != e && !ch.contains(c)
            && connector_of(w, c as int).parent == q
    } else if t.1.entity == e && t.0.entity != e {
        let p = t.0.entity;
        let cp = node_of(w, p as int).children;
        &&& t.1.index < spawn_counts(n).0
        &&& is_node(w, p as int)
        &&& !ch.contains(p)
        &&& forall|x: int| 0 <= x < cp.len() ==> (#[trigger] cp[x]) < w.len()
        &&& find_conn(w, cp, ConnectorType::Out, t.0.index) matches Some(o) && o != e && !ch.contains(o)
            && connector_of(w, o as int).parent == p
        &&& node_of(w, p as int).targets is Some
        &&& t.0.index < node_of(w, p as int).targets.unwrap().len()
    } else {
        false
    }
}

/// Renaming lines keeps a history whose redo actions are one removal.
proof fn lemma_reconnects_redo(w: WorldView, st: StackView, ts: Seq<ConnTriple>, ids: Seq<Entity>)
    requires
        st.redo == seq![ActionView::Remove(ids)],
    ensures
        reconnect_all_spec(w, st, ts).1.redo == seq![ActionView::Remove(ids)],
    decreases ts.len(),
{
    if ts.len() > 0 {
        lemma_reconnects_redo(w, st, ts.drop_last(), ids);
        let (v, sv) = reconnect_all_spec(w, st, ts.drop_last());
        if reconnect_succeeds(v, ts.last()) {
            let r = rename_line_stack(sv, ts.last().2, v.len() as Entity);
            assert(r.redo =~= seq![ActionView::Remove(ids)]);
        }
    }
}

/// Deleting a component (see [`UndoStack::delete`]) and undoing the
/// deletion spawns the component again, as the entity after the others,
/// with the same snapshot but for its entity and its target maps; each
/// connection of a line of one of its connectors to another component that
/// stays (see [`undo_link_ok`]) is restored between the same outputs and
/// inputs, with the new entity in place of the old; and the redo action
/// removes the new entity.
#[verifier::spinoff_prover]
#[verifier::rlimit(60)]
pub proof fn law_delete_undo(w: WorldView, st: StackView, e: Entity, k: int, y: int)
    requires
        w.len() <= usize::MAX,
        saved_node(w, e as int),
        kind_shaped(node_of(w, e as int)),
        w.len() + 1 + spawn_counts(node_of(w, e as int)).0 + spawn_counts(node_of(w, e as int)).1 <= usize::MAX,
        0 <= k < node_of(w, e as int).children.len(),
        is_connector(w, node_of(w, e as int).children[k] as int),
        0 <= y < connector_of(w, node_of(w, e as int).children[k] as int).connections.len(),
        line_triple(w, connector_of(w, node_of(w, e as int).children[k] as int).connections[y]) matches Some(t)
            && undo_link_ok(w, e, t),
    ensures
        ({
            let es = seq![e];
            let w1 = spec_remove_world(w, es);
            let st1 = match spec_remove_report(w, es) {
                Some((cs, conns)) => clear_redo(push_to(st, false, ActionView::Insert(cs, conns))),
                None => st,
            };
            let (w2, st2) = spec_undo_event(w1, st1, UndoEvent::Undo);
            let a = w.len() as Entity;
            let t = line_triple(w, connector_of(w, node_of(w, e as int).children[k] as int).connections[y]).unwrap();
            let t2 = rename3(e, a, t);
            &&& remove_ok(w, es)
            &&& saved_node(w2, a as int)
            &&& same_saved(spec_snapshot(a, node_of(w2, a as int)), spec_snapshot(e, node_of(w, e as int)))
            &&& has_target(w2, t2.0.entity as int, t2.0.index as int, t2.1.entity, t2.1.index)
            &&& st2.redo == seq![ActionView::Remove(seq![a])]
        }),
{
    let n = node_of(w, e as int);
    let ch = n.children;
    let es = seq![e];
    let c = ch[k];
    let l = connector_of(w, c as int).connections[y];
    let t = line_triple(w, l).unwrap();
    let a = w.len() as Entity;
    // What deleting removes and reports.
    assert(es.drop_last() =~= Seq::<Entity>::empty());
    assert(removed_of(w, es.drop_last()) =~= Seq::<Entity>::empty());
    assert(removed_of(w, es) =~= es);
    let dl = seq![e] + ch;
    let parts = es.map_values(|x: Entity| seq![x] + node_of(w, x as int).children);
    assert(parts.drop_last() =~= Seq::<Seq<Entity>>::empty());
    assert(concat(parts.drop_last()) =~= Seq::<Entity>::empty());
    assert(concat(parts) =~= parts[0]);
    assert(despawn_list(w, es) == dl);
    let evs = node_events(w, e);
    let eparts = es.map_values(|x: Entity| node_events(w, x));
    assert(eparts.drop_last() =~= Seq::<Seq<DisconnectEvent>>::empty());
    assert(concat(eparts.drop_last()) =~= Seq::<DisconnectEvent>::empty());
    assert(concat(eparts) =~= eparts[0]);
    assert(remove_events(w, es) == evs);
    let snap = spec_snapshot(e, n);
    assert(removed_snapshots(w, es) =~= seq![snap]);
    let conns = collect_triples(w, evs);
    let cs = seq![snap];
    assert(w[e as int] is Node);
    lemma_snapshot_shaped(e, n);
    assert(remove_ok(w, es));
    // The line's connection is among those reported.
    let lparts = ch.map_values(
        |x: Entity| conn_lines(w, x).map_values(|m: Entity| DisconnectEvent { connection: m, in_parent: Some(e) }),
    );
    assert(lparts[k][y] == DisconnectEvent { connection: l, in_parent: Some(e) });
    lemma_concat_contains(lparts, k, y);
    let kk = choose|kk: int| 0 <= kk < evs.len() && evs[kk] == DisconnectEvent { connection: l, in_parent: Some(e) };
    lemma_collect_has(w, evs, kk);
    // The world after deleting.
    let wv = vacate_seq(w, dl);
    let w1 = apply_disconnects(wv, evs);
    assert(spec_remove_world(w, es) == w1);
    lemma_vacate_no_new(w, dl);
    lemma_disconnects_shape(wv, evs);
    lemma_shape_no_new(wv, w1);
    // Undoing spawns the snapshot anew.
    let st1 = clear_redo(push_to(st, false, ActionView::Insert(cs, conns)));
    let popped = pop_from(st1, false);
    lemma_respawn_shaped(snap, 0, Seq::empty());
    let (ia, oa, sa, ta) = spawn_args(snap).unwrap();
    let nd = kind_node(snap.ntype, ia, oa, sa, ta, snap.placement);
    let (nin, nout) = spawn_counts(n);
    let lay = in_out_layout(nin as nat, nout as nat);
    assert(kind_layout(snap.ntype, ia, oa) == lay);
    let sl = spawned_slots(nd, lay, a);
    let ws = w1 + sl;
    assert(cs.drop_last() =~= Seq::<ComponentView>::empty());
    assert(spec_insert_all(w1, cs.drop_last()) == (w1, Seq::<Entity>::empty()));
    assert(cs.last() == snap);
    assert(spec_insert_all(w1, cs).0 == ws);
    assert(spec_insert_all(w1, cs).1 =~= seq![a]);
    let renamed = rename_spawned(popped, conns, cs, seq![a], 1);
    assert(rename_spawned(popped, conns, cs, seq![a], 0) == (popped, conns));
    let conns1 = replace_conns(conns, e, a);
    assert(renamed.1 == conns1);
    let st3 = push_to(renamed.0, true, ActionView::Remove(seq![a]));
    assert(popped.redo =~= Seq::<ActionView>::empty());
    assert(st3.redo =~= seq![ActionView::Remove(seq![a])]);
    lemma_reconnects_redo(ws, st3, conns1, seq![a]);
    let wf = reconnect_all_spec(ws, st3, conns1).0;
    // The respawned component and its connectors.
    lemma_shape_kept_append(w1, sl);
    lemma_shape_no_new(w1, ws);
    lemma_shape_kept_trans(wv, w1, ws);
    lemma_no_new_trans(w, wv, w1);
    lemma_no_new_trans(w, w1, ws);
    assert forall|q: int| 0 <= q < sl.len() implies #[trigger] ws[a + q] == sl[q] by {}
    lemma_find_spawned(ws, nd, a, nin as nat, nout as nat);
    let cha = node_of(ws, a as int).children;
    assert forall|x: int| 0 <= x < cha.len() implies (#[trigger] cha[x]) < ws.len() by {}
    lemma_respawn_shaped(snap, a, cha);
    assert(ws[a as int] == sl[0]);
    // The renamed connection is among those restored.
    law_replace_conns_set(conns, e, a);
    let i0 = choose|i0: int| 0 <= i0 < conns.len() && conns[i0] == t;
    let t2 = rename3(e, a, t);
    assert(rename3(e, a, conns[i0]) == t2);
    assert(conns.contains(t));
    assert(exists|i: int| 0 <= i < conns.len() && #[trigger] rename3(e, a, conns[i]) == t2);
    assert(conns1.contains(t2));
    let k2 = choose|k2: int| 0 <= k2 < conns1.len() && conns1[k2] == t2;
    // The other side stays, with its connector.
    let q = if t.0.entity == e { t.1.entity } else { t.0.entity };
    assert(!dl.contains(q)) by {
        if dl.contains(q) {
            let j = choose|j: int| 0 <= j < dl.len() && dl[j] == q;
            if j > 0 {
                assert(ch[j - 1] == q);
            }
        }
    }
    assert(wv[q as int] == w[q as int]);
    assert(w[q as int] is Node);
    let cq = node_of(w, q as int).children;
    let ct = if t.0.entity == e { ConnectorType::In } else { ConnectorType::Out };
    let ix = if t.0.entity == e { t.1.index } else { t.0.index };
    let cc = find_conn(w, cq, ct, ix).unwrap();
    assert(!dl.contains(cc)) by {
        if dl.contains(cc) {
            let j = choose|j: int| 0 <= j < dl.len() && dl[j] == cc;
            if j > 0 {
                assert(ch[j - 1] == cc);
            }
        }
    }
    lemma_find_conn_pos(w, cq, ct, ix);
    assert(conn_is(w, cc, ct, ix));
    assert(wv[cc as int] == w[cc as int]);
    assert(wv[cc as int] is Connector && wv[q as int] is Node);
    assert(conn_is(ws, cc, ct, ix));
    lemma_find_conn_kept(w, ws, cq, ct, ix);
    assert(node_of(ws, q as int).children == cq);
    if t.0.entity == e {
        assert(t2 == (ConnInfo { entity: a, index: t.0.index }, t.1, t.2));
        assert(find_conn(ws, cha, ConnectorType::Out, (t.0.index as int) as usize) is Some);
    } else {
        assert(t2 == (t.0, ConnInfo { entity: a, index: t.1.index }, t.2));
        assert(find_conn(ws, cha, ConnectorType::In, (t.1.index as int) as usize) is Some);
    }
    lemma_reconnects_make(ws, st3, conns1, k2);
    // The component keeps its snapshot through the reconnections.
    lemma_reconnects_keep(ws, st3, conns1);
    let nf = node_of(wf, a as int);
    let ns = node_of(ws, a as int);
    assert(set_targets(nf, Seq::empty()) == set_targets(ns, Seq::empty()));
    assert(nf.kind == ns.kind && nf.name == ns.name && nf.inputs == ns.inputs && nf.outputs == ns.outputs
        && nf.clock == ns.clock && nf.placement == ns.placement);
}


/// Every entity of `es` that is a saved component is removed.
proof fn lemma_removed_all(w: WorldView, es: Seq<Entity>)
    requires
        forall|j: int| 0 <= j < es.len() ==> saved_node(w, #[trigger] es[j] as int),
    ensures
        removed_of(w, es) == es,
    decreases es.len(),
{
    if es.len() > 0 {
        lemma_removed_all(w, es.drop_last());
        assert(es.last() == es[es.len() - 1]);
        assert(es.drop_last().push(es.last()) =~= es);
    }
}

/// The slots that spawning from snapshot `c` as entity `g` appends.
spec fn respawn_slots(c: ComponentView, g: Entity) -> Seq<SlotView> {
    match spawn_args(c) {
        Some((i, o, s, t)) => spawned_slots(kind_node(c.ntype, i, o, s, t, c.placement), kind_layout(c.ntype, i, o), g),
        None => Seq::empty(),
    }
}

/// The slots `sl` stand in `r` from entity `a` on.
spec fn placed_at(r: WorldView, a: Entity, sl: Seq<SlotView>) -> bool {
    &&& a + sl.len() <= r.len()
    &&& forall|q: int| 0 <= q < sl.len() ==> #[trigger] r[a + q] == sl[q]
}

/// Spawning anew from the snapshots of the components `es` of `w` spawns
/// one component per snapshot, after the entities of `v`, each with the
/// same snapshot but for its entity and its target maps.
proof fn lemma_insert_all_respawn(w: WorldView, es: Seq<Entity>, v: WorldView)
    requires
        forall|j: int|
            0 <= j < es.len() ==> saved_node(w, #[trigger] es[j] as int) && kind_shaped(node_of(w, es[j] as int)),
        spec_insert_all(v, removed_snapshots(w, es)).0.len() <= usize::MAX,
    ensures
        ({
            let (r, ids) = spec_insert_all(v, removed_snapshots(w, es));
            &&& ids.len() == es.len()
            &&& r.len() >= v.len()
            &&& r.take(v.len() as int) == v
            &&& forall|j: int|
                0 <= j < es.len() ==> v.len() <= #[trigger] ids[j] < r.len() && saved_node(r, ids[j] as int)
                    && same_saved(
                    spec_snapshot(ids[j], node_of(r, ids[j] as int)),
                    spec_snapshot(es[j], node_of(w, es[j] as int)),
                ) && placed_at(r, ids[j], respawn_slots(removed_snapshots(w, es)[j], ids[j]))
        }),
    decreases es.len(),
{
    let cs = removed_snapshots(w, es);
    if es.len() == 0 {
        assert(v.take(v.len() as int) =~= v);
    } else {
        let d = es.drop_last();
        let e = es.last();
        assert(e == es[es.len() - 1]);
        assert(cs.drop_last() =~= removed_snapshots(w, d));
        assert(cs.last() == spec_snapshot(e, node_of(w, e as int)));
        let (w1, ids1) = spec_insert_all(v, cs.drop_last());
        lemma_snapshot_shaped(e, node_of(w, e as int));
        lemma_respawn_shaped(cs.last(), 0, Seq::empty());
        let (r, ids) = spec_insert_all(v, cs);
        assert(r == spec_insert_one(w1, cs.last()));
        assert(r.len() > w1.len());
        assert forall|j: int| 0 <= j < d.len() implies saved_node(w, #[trigger] d[j] as int) && kind_shaped(
            node_of(w, d[j] as int),
        ) by {
            assert(d[j] == es[j]);
        }
        lemma_insert_all_respawn(w, d, v);
        law_snapshot_respawn(w, e, w1);
        assert(ids == ids1.push(w1.len() as Entity));
        assert forall|j: int|
            0 <= j < es.len() implies v.len() <= #[trigger] ids[j] < r.len() && saved_node(r, ids[j] as int)
                && same_saved(
                spec_snapshot(ids[j], node_of(r, ids[j] as int)),
                spec_snapshot(es[j], node_of(w, es[j] as int)),
            ) && placed_at(r, ids[j], respawn_slots(cs[j], ids[j])) by {
            if j < d.len() {
                assert(ids[j] == ids1[j]);
                assert(es[j] == d[j]);
                assert(cs[j] == removed_snapshots(w, d)[j]);
                assert(r[ids1[j] as int] == r.take(w1.len() as int)[ids1[j] as int]);
                let sl = respawn_slots(cs[j], ids[j]);
                assert(placed_at(w1, ids1[j], sl));
                assert forall|q: int| 0 <= q < sl.len() implies #[trigger] r[ids[j] + q] == sl[q] by {
                    assert(r[ids[j] + q] == r.take(w1.len() as int)[ids[j] + q]);
                    assert(w1[ids1[j] + q] == sl[q]);
                }
            } else {
                let sl = respawn_slots(cs[j], ids[j]);
                assert(r == w1 + sl);
                assert forall|q: int| 0 <= q < sl.len() implies #[trigger] r[ids[j] + q] == sl[q] by {}
            }
        }
        assert(r.take(v.len() as int) =~= r.take(w1.len() as int).take(v.len() as int));
    }
}

/// Renaming spawned components keeps the number of redo actions.
proof fn lemma_rename_spawned_redo(st: StackView, conns: Seq<ConnTriple>, cs: Seq<ComponentView>, ids: Seq<Entity>, k: nat)
    ensures
        rename_spawned(st, conns, cs, ids, k).0.redo.len() == st.redo.len(),
    decreases k,
{
    if k > 0 {
        lemma_rename_spawned_redo(st, conns, cs, ids, (k - 1) as nat);
    }
}

/// Deleting the components `es` (see [`UndoStack::delete`]) and undoing the
/// deletion spawns each of them again, in order, after the other entities,
/// with the same snapshot but for its entity and its target maps; the redo
/// action removes the new entities.
#[verifier::spinoff_prover]
#[verifier::rlimit(40)]
pub proof fn law_delete_undo_all(w: WorldView, st: StackView, es: Seq<Entity>)
    requires
        w.len() <= usize::MAX,
        es.len() > 0,
        forall|j: int|
            0 <= j < es.len() ==> saved_node(w, #[trigger] es[j] as int) && kind_shaped(node_of(w, es[j] as int)),
        spec_insert_all(spec_remove_world(w, es), removed_snapshots(w, es)).0.len() <= usize::MAX,
    ensures
        ({
            let w1 = spec_remove_world(w, es);
            let cs = removed_snapshots(w, es);
            let conns = collect_triples(w, remove_events(w, es));
            let st1 = clear_redo(push_to(st, false, ActionView::Insert(cs, conns)));
            let (w2, st2) = spec_undo_event(w1, st1, UndoEvent::Undo);
            let ids = spec_insert_all(w1, cs).1;
            &&& remove_ok(w, es)
            &&& spec_remove_report(w, es) == Some((cs, conns))
            &&& ids.len() == es.len()
            &&& forall|j: int|
                0 <= j < es.len() ==> w1.len() <= #[trigger] ids[j] && saved_node(w2, ids[j] as int) && same_saved(
                    spec_snapshot(ids[j], node_of(w2, ids[j] as int)),
                    spec_snapshot(es[j], node_of(w, es[j] as int)),
                )
            &&& st2.redo == seq![ActionView::Remove(ids)]
        }),
{
    let w1 = spec_remove_world(w, es);
    let cs = removed_snapshots(w, es);
    let conns = collect_triples(w, remove_events(w, es));
    let st1 = clear_redo(push_to(st, false, ActionView::Insert(cs, conns)));
    lemma_removed_all(w, es);
    assert forall|i: int| #![trigger es[i]] 0 <= i < es.len() && saved_node(w, es[i] as int) implies snapshot_ok(
        node_of(w, es[i] as int),
    ) by {
        lemma_snapshot_shaped(es[i], node_of(w, es[i] as int));
    }
    assert(spec_remove_report(w, es) == Some((cs, conns)));
    // Undoing spawns the snapshots anew.
    let popped = pop_from(st1, false);
    assert(popped.redo.len() == 0);
    lemma_insert_all_respawn(w, es, w1);
    let (ws, ids) = spec_insert_all(w1, cs);
    let k = cs.len();
    let renamed = rename_spawned(popped, conns, cs, ids, k);
    lemma_rename_spawned_redo(popped, conns, cs, ids, k);
    let st3 = push_to(renamed.0, true, ActionView::Remove(ids));
    assert(st3.redo =~= seq![ActionView::Remove(ids)]);
    lemma_reconnects_redo(ws, st3, renamed.1, ids);
    lemma_reconnects_keep(ws, st3, renamed.1);
    let (w2, st2) = spec_undo_event(w1, st1, UndoEvent::Undo);
    assert((w2, st2) == reconnect_all_spec(ws, st3, renamed.1));
    // The spawned components keep their snapshots through the reconnections.
    assert forall|j: int|
        0 <= j < es.len() implies w1.len() <= #[trigger] ids[j] && saved_node(w2, ids[j] as int) && same_saved(
            spec_snapshot(ids[j], node_of(w2, ids[j] as int)),
            spec_snapshot(es[j], node_of(w, es[j] as int)),
        ) by {
        let a = ids[j] as int;
        assert(ws[a] is Node);
        let nf = node_of(w2, a);
        let ns = node_of(ws, a);
        assert(set_targets(nf, Seq::empty()) == set_targets(ns, Seq::empty()));
        assert(nf.kind == ns.kind && nf.name == ns.name && nf.inputs == ns.inputs && nf.outputs == ns.outputs
            && nf.clock == ns.clock && nf.placement == ns.placement);
    }
}


/// Renaming the first `kk` spawned components in the connections keeps
/// connection `t`, with component `e` (the `j0`th) renamed to `a` once the
/// renaming has reached it; no other renaming touches its sides.
proof fn lemma_rename_chain(
    st: StackView,
    conns: Seq<ConnTriple>,
    cs: Seq<ComponentView>,
    ids: Seq<Entity>,
    kk: nat,
    t: ConnTriple,
    j0: int,
)
    requires
        kk <= cs.len(),
        cs.len() == ids.len(),
        0 <= j0 < cs.len(),
        conns.contains(t),
        (t.0.entity == cs[j0].id) != (t.1.entity == cs[j0].id),
        forall|j: int|
            0 <= j < cs.len() ==> #[trigger] cs[j].id != (if t.0.entity == cs[j0].id {
                t.1.entity
            } else {
                t.0.entity
            }) && cs[j].id != ids[j0] && (j != j0 ==> cs[j].id != cs[j0].id),
        ids[j0] != (if t.0.entity == cs[j0].id {
            t.1.entity
        } else {
            t.0.entity
        }),
    ensures
        rename_spawned(st, conns, cs, ids, kk).1.contains(
            if kk > j0 {
                rename3(cs[j0].id, ids[j0], t)
            } else {
                t
            },
        ),
    decreases kk,
{
    if kk > 0 {
        let j = kk - 1;
        lemma_rename_chain(st, conns, cs, ids, (kk - 1) as nat, t, j0);
        let c1 = rename_spawned(st, conns, cs, ids, (kk - 1) as nat).1;
        let x = if kk - 1 > j0 {
            rename3(cs[j0].id, ids[j0], t)
        } else {
            t
        };
        let from = cs[j].id;
        let to = ids[j];
        law_replace_conns_set(c1, from, to);
        let i = choose|i: int| 0 <= i < c1.len() && c1[i] == x;
        assert(rename3(from, to, c1[i]) == rename3(from, to, x));
        assert(from != cs[j0].id || j == j0);
    }
}

/// Deleting the components `es` (see [`UndoStack::delete`]) and undoing the
/// deletion restores each connection of a line of a connector of one of
/// them, `es[j0]`, to a component that stays (see [`undo_link_ok`]; neither
/// that component nor its connector is despawned with `es`) between the same
/// outputs and inputs, with the entity spawned for `es[j0]` in its place.
#[verifier::spinoff_prover]
#[verifier::rlimit(80)]
pub proof fn law_delete_undo_links(w: WorldView, st: StackView, es: Seq<Entity>, j0: int, k: int, y: int)
    requires
        w.len() <= usize::MAX,
        es.no_duplicates(),
        forall|j: int|
            0 <= j < es.len() ==> saved_node(w, #[trigger] es[j] as int) && kind_shaped(node_of(w, es[j] as int)),
        spec_insert_all(spec_remove_world(w, es), removed_snapshots(w, es)).0.len() <= usize::MAX,
        0 <= j0 < es.len(),
        0 <= k < node_of(w, es[j0] as int).children.len(),
        is_connector(w, node_of(w, es[j0] as int).children[k] as int),
        0 <= y < connector_of(w, node_of(w, es[j0] as int).children[k] as int).connections.len(),
        line_triple(w, connector_of(w, node_of(w, es[j0] as int).children[k] as int).connections[y]) matches Some(t)
            && undo_link_ok(w, es[j0], t) && {
            let e = es[j0];
            let q = if t.0.entity == e { t.1.entity } else { t.0.entity };
            let ct = if t.0.entity == e { ConnectorType::In } else { ConnectorType::Out };
            let ix = if t.0.entity == e { t.1.index } else { t.0.index };
            &&& !despawn_list(w, es).contains(q)
            &&& !despawn_list(w, es).contains(find_conn(w, node_of(w, q as int).children, ct, ix).unwrap())
        },
    ensures
        ({
            let w1 = spec_remove_world(w, es);
            let cs = removed_snapshots(w, es);
            let conns = collect_triples(w, remove_events(w, es));
            let st1 = clear_redo(push_to(st, false, ActionView::Insert(cs, conns)));
            let (w2, st2) = spec_undo_event(w1, st1, UndoEvent::Undo);
            let ids = spec_insert_all(w1, cs).1;
            let t = line_triple(w, connector_of(w, node_of(w, es[j0] as int).children[k] as int).connections[y]).unwrap();
            let t2 = rename3(es[j0], ids[j0], t);
            has_target(w2, t2.0.entity as int, t2.0.index as int, t2.1.entity, t2.1.index)
        }),
{
    let e = es[j0];
    let n = node_of(w, e as int);
    let ch = n.children;
    let c = ch[k];
    let l = connector_of(w, c as int).connections[y];
    let t = line_triple(w, l).unwrap();
    let dl = despawn_list(w, es);
    let evs = remove_events(w, es);
    let conns = collect_triples(w, evs);
    let cs = removed_snapshots(w, es);
    lemma_removed_all(w, es);
    // The line's connection is among those reported.
    let lparts = ch.map_values(
        |x: Entity| conn_lines(w, x).map_values(|m: Entity| DisconnectEvent { connection: m, in_parent: Some(e) }),
    );
    assert(lparts[k][y] == DisconnectEvent { connection: l, in_parent: Some(e) });
    lemma_concat_contains(lparts, k, y);
    let ne = node_events(w, e);
    let kk = choose|kk: int| 0 <= kk < ne.len() && ne[kk] == DisconnectEvent { connection: l, in_parent: Some(e) };
    let eparts = es.map_values(|x: Entity| node_events(w, x));
    assert(eparts[j0][kk] == ne[kk]);
    lemma_concat_contains(eparts, j0, kk);
    let k1 = choose|k1: int| 0 <= k1 < evs.len() && evs[k1] == ne[kk];
    lemma_collect_has(w, evs, k1);
    assert(conns.contains(t));
    // The world after deleting.
    let wv = vacate_seq(w, dl);
    let w1 = apply_disconnects(wv, evs);
    assert(spec_remove_world(w, es) == w1);
    lemma_vacate_no_new(w, dl);
    lemma_disconnects_shape(wv, evs);
    lemma_shape_no_new(wv, w1);
    // Undoing spawns the snapshots anew.
    let st1 = clear_redo(push_to(st, false, ActionView::Insert(cs, conns)));
    let popped = pop_from(st1, false);
    lemma_insert_all_respawn(w, es, w1);
    let (ws, ids) = spec_insert_all(w1, cs);
    let a = ids[j0];
    let renamed = rename_spawned(popped, conns, cs, ids, cs.len());
    let conns1 = renamed.1;
    let st3 = push_to(renamed.0, true, ActionView::Remove(ids));
    let (w2, st2) = spec_undo_event(w1, st1, UndoEvent::Undo);
    assert(remove_ok(w, es)) by {
        assert forall|i: int| #![trigger es[i]] 0 <= i < es.len() && saved_node(w, es[i] as int) implies snapshot_ok(
            node_of(w, es[i] as int),
        ) by {
            lemma_snapshot_shaped(es[i], node_of(w, es[i] as int));
        }
    }
    assert((w2, st2) == reconnect_all_spec(ws, st3, conns1));
    // The world before spawning is kept.
    let extra = ws.subrange(w1.len() as int, ws.len() as int);
    assert(w1 + extra =~= ws) by {
        assert forall|x: int| 0 <= x < w1.len() implies ws[x] == w1[x] by {
            assert(ws.take(w1.len() as int)[x] == ws[x]);
        }
    }
    lemma_shape_kept_append(w1, extra);
    lemma_shape_no_new(w1, ws);
    lemma_shape_kept_trans(wv, w1, ws);
    lemma_no_new_trans(w, wv, w1);
    lemma_no_new_trans(w, w1, ws);
    // The respawned component and its connectors.
    let snap = cs[j0];
    assert(snap == spec_snapshot(e, n));
    lemma_snapshot_shaped(e, n);
    lemma_respawn_shaped(snap, a, Seq::empty());
    let (ia, oa, sa, ta) = spawn_args(snap).unwrap();
    let nd = kind_node(snap.ntype, ia, oa, sa, ta, snap.placement);
    let (nin, nout) = spawn_counts(n);
    let lay = in_out_layout(nin as nat, nout as nat);
    assert(kind_layout(snap.ntype, ia, oa) == lay);
    let sl = spawned_slots(nd, lay, a);
    assert(respawn_slots(snap, a) == sl);
    assert(placed_at(ws, a, sl));
    assert forall|q: int| 0 <= q < sl.len() implies #[trigger] ws[a + q] == sl[q] by {}
    lemma_find_spawned(ws, nd, a, nin as nat, nout as nat);
    let cha = node_of(ws, a as int).children;
    assert forall|x: int| 0 <= x < cha.len() implies (#[trigger] cha[x]) < ws.len() by {}
    assert(ws[a + 0] == sl[0]);
    assert(ws[a as int] == sl[0]);
    // The renamed connection is among those restored.
    assert forall|j: int|
        0 <= j < cs.len() implies #[trigger] cs[j].id != (if t.0.entity == cs[j0].id {
            t.1.entity
        } else {
            t.0.entity
        }) && cs[j].id != ids[j0] && (j != j0 ==> cs[j].id != cs[j0].id) by {
        assert(cs[j].id == es[j]);
        assert(saved_node(w, es[j] as int));
        let q = if t.0.entity == e { t.1.entity } else { t.0.entity };
        if es[j] == q {
            let parts = es.map_values(|x: Entity| seq![x] + node_of(w, x as int).children);
            assert(parts[j][0] == es[j]);
            lemma_concat_contains(parts, j, 0);
        }
    }
    lemma_rename_chain(popped, conns, cs, ids, cs.len(), t, j0);
    let t2 = rename3(e, a, t);
    assert(conns1.contains(t2));
    let k2 = choose|k2: int| 0 <= k2 < conns1.len() && conns1[k2] == t2;
    // The other side stays, with its connector.
    let q = if t.0.entity == e { t.1.entity } else { t.0.entity };
    assert(wv[q as int] == w[q as int]);
    assert(w[q as int] is Node);
    let cq = node_of(w, q as int).children;
    let ct = if t.0.entity == e { ConnectorType::In } else { ConnectorType::Out };
    let ix = if t.0.entity == e { t.1.index } else { t.0.index };
    let cc = find_conn(w, cq, ct, ix).unwrap();
    lemma_find_conn_pos(w, cq, ct, ix);
    assert(conn_is(w, cc, ct, ix));
    assert(wv[cc as int] == w[cc as int]);
    assert(wv[cc as int] is Connector && wv[q as int] is Node);
    assert(conn_is(ws, cc, ct, ix));
    lemma_find_conn_kept(w, ws, cq, ct, ix);
    assert(node_of(ws, q as int).children == cq);
    if t.0.entity == e {
        assert(t2 == (ConnInfo { entity: a, index: t.0.index }, t.1, t.2));
        assert(find_conn(ws, cha, ConnectorType::Out, (t.0.index as int) as usize) is Some);
    } else {
        assert(t2 == (t.0, ConnInfo { entity: a, index: t.1.index }, t.2));
        assert(find_conn(ws, cha, ConnectorType::In, (t.1.index as int) as usize) is Some);
    }
    lemma_reconnects_make(ws, st3, conns1, k2);
}


/// Restoring connections keeps the number of undo and of redo actions.
proof fn lemma_reconnects_lens(w: WorldView, st: StackView, ts: Seq<ConnTriple>)
    ensures
        reconnect_all_spec(w, st, ts).1.undo.len() == st.undo.len(),
        reconnect_all_spec(w, st, ts).1.redo.len() == st.redo.len(),
    decreases ts.len(),
{
    if ts.len() > 0 {
        lemma_reconnects_lens(w, st, ts.drop_last());
    }
}

/// Renaming spawned components keeps the number of undo and of redo
/// actions.
proof fn lemma_rename_spawned_lens(st: StackView, conns: Seq<ConnTriple>, cs: Seq<ComponentView>, ids: Seq<Entity>, k: nat)
    ensures
        rename_spawned(st, conns, cs, ids, k).0.undo.len() == st.undo.len(),
        rename_spawned(st, conns, cs, ids, k).0.redo.len() == st.redo.len(),
    decreases k,
{
    if k > 0 {
        lemma_rename_spawned_lens(st, conns, cs, ids, (k - 1) as nat);
    }
}

/// For a removal that removes components of `w`: the insertion of their
/// snapshots and connections, as the removal reports them.
pub open spec fn reinsertion(w: WorldView, a: ActionView) -> Option<ActionView> {
    match a {
        ActionView::Remove(es) => match spec_remove_report(w, es) {
            Some((cs, conns)) => Some(ActionView::Insert(cs, conns)),
            None => None,
        },
        _ => None,
    }
}

/// An undo request takes its action off the undo actions and puts at most
/// one action, its reverse, on the redo actions; a redo request takes its
/// action off the redo actions and puts at most its reverse on the undo
/// actions. Undoing or redoing a removal that removes components puts the
/// reinsertion of their snapshots on top of the other side and leaves the
/// actions below as they were.
pub proof fn law_undo_redo_sides(w: WorldView, st: StackView, ev: UndoEvent)
    requires
        source(st, ev).len() > 0,
    ensures
        ({
            let (w2, st2) = spec_undo_event(w, st, ev);
            &&& ev == UndoEvent::Undo ==> st2.undo.len() + 1 == st.undo.len() && st.redo.len() <= st2.redo.len()
                <= st.redo.len() + 1
            &&& ev == UndoEvent::Redo ==> st2.redo.len() + 1 == st.redo.len() && st.undo.len() <= st2.undo.len()
                <= st.undo.len() + 1
            &&& reinsertion(w, source(st, ev).last()) is Some ==> {
                let back = reinsertion(w, source(st, ev).last()).unwrap();
                &&& ev == UndoEvent::Undo ==> st2.undo == st.undo.drop_last() && st2.redo == st.redo.push(back)
                &&& ev == UndoEvent::Redo ==> st2.redo == st.redo.drop_last() && st2.undo == st.undo.push(back)
            }
        }),
{
    let from_redo = ev == UndoEvent::Redo;
    let a = source(st, ev).last();
    let p = pop_from(st, from_redo);
    match a {
        ActionView::Insert(cs, conns) => {
            let (w1, ids) = spec_insert_all(w, cs);
            if ids.len() > 0 {
                let k: nat = if cs.len() == ids.len() { cs.len() } else { 0 };
                let (st1, conns1) = rename_spawned(p, conns, cs, ids, k);
                lemma_rename_spawned_lens(p, conns, cs, ids, k);
                lemma_reconnects_lens(w1, push_to(st1, !from_redo, ActionView::Remove(ids)), conns1);
            }
        },
        ActionView::InsertConnection(con) => {
            lemma_reconnects_lens(w, p, seq![con]);
            assert(seq![con].drop_last() =~= Seq::<ConnTriple>::empty());
        },
        _ => {},
    }
}

} // verus!
