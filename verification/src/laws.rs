//! The library's laws, proved once for every starting world, every bundle and
//! every sequence of observer definitions: inserting a marker-carrying bundle
//! and flushing registers one observer entity per definition, bound to the
//! triggering entity and in declaration order, and leaves no marker behind.

use vstd::prelude::*;
use crate::model::apply_all;
use crate::model::apply_command;
use crate::model::find_marker;
use crate::model::flush_model;
use crate::model::hook_model;
use crate::model::lemma_empty_marker_idempotent;
use crate::model::lemma_find_after_empty;
use crate::model::lemma_find_marker_at;
use crate::model::lemma_remove_marker_gone;
use crate::model::observes;
use crate::model::spawn_model;
use crate::model::wf_model;
use crate::model::CommandModel;
use crate::model::ComponentValue;
use crate::model::DataCell;
use crate::model::MarkerModel;
use crate::model::ObsCell;
use crate::model::WorldModel;
use crate::observer::bind_all;
use crate::observer::BoundObserver;
use crate::observer::ObserverDef;

verus! {

/// Full shape of the world after spawning a bundle that carries the marker
/// and then flushing, starting from a quiescent world (nothing queued): the
/// bundle's data components are present, the marker is gone, and one observer
/// entity per definition was appended, in declaration order, with consecutive
/// fresh ids.
pub proof fn lemma_spawn_flush_shape(
    m: WorldModel,
    comps: Seq<ComponentValue>,
    defs: Seq<ObserverDef>,
)
    requires
        wf_model(m),
        m.queue.len() == 0,
        m.next_entity + 1 + defs.len() <= u64::MAX,
    ensures
        ({
            let e = m.next_entity;
            let after = flush_model(spawn_model(m, comps, Some(defs)));
            &&& after.queue.len() == 0
            &&& find_marker(after.markers, e) is None
            &&& after.observers.len() == m.observers.len() + defs.len()
            &&& forall|j: int|
                0 <= j < m.observers.len() ==> #[trigger] after.observers[j] == m.observers[j]
            &&& forall|j: int|
                m.observers.len() <= j < after.observers.len() ==> #[trigger] after.observers[j]
                    == (ObsCell {
                    id: (e + 1 + (j - m.observers.len())) as u64,
                    observer: BoundObserver { target: e, def: defs[j - m.observers.len()] },
                })
            &&& after.data == m.data + comps.map_values(
                |cv: ComponentValue| DataCell { entity: e, comp: cv.comp, value: cv.value },
            )
            &&& after.next_entity == m.next_entity + 1 + defs.len()
        }),
{
    let e = m.next_entity;
    let inserted = WorldModel {
        next_entity: (m.next_entity + 1) as u64,
        data: m.data + comps.map_values(
            |cv: ComponentValue| DataCell { entity: e, comp: cv.comp, value: cv.value },
        ),
        markers: m.markers.push(MarkerModel { entity: e, defs }),
        ..m
    };
    assert forall|j: int| 0 <= j < m.markers.len() implies (
    #[trigger] inserted.markers[j]).entity != e by {
        assert(m.markers[j].entity < e);
    }
    lemma_find_marker_at(inserted.markers, e, m.markers.len() as int);
    let hooked = hook_model(inserted, e);
    assert(spawn_model(m, comps, Some(defs)) == hooked);
    let spawn_cmd = CommandModel::Spawn(bind_all(defs, e));
    let remove_cmd = CommandModel::RemoveMarker(e);
    assert(hooked.queue =~= seq![spawn_cmd, remove_cmd]);
    let m0 = WorldModel { queue: Seq::<CommandModel>::empty(), ..hooked };
    let q = hooked.queue;
    assert(q[0] == spawn_cmd);
    assert(q.skip(1) =~= seq![remove_cmd]);
    assert(q.skip(1)[0] == remove_cmd);
    assert(q.skip(1).skip(1) =~= Seq::<CommandModel>::empty());
    let s1 = apply_command(m0, spawn_cmd);
    let s2 = apply_command(s1, remove_cmd);
    assert(apply_all(m0, q) == apply_all(s1, q.skip(1)));
    assert(apply_all(s1, q.skip(1)) == apply_all(s2, q.skip(1).skip(1)));
    assert(apply_all(s2, q.skip(1).skip(1)) == s2);
    lemma_remove_marker_gone(s1.markers, e);
}

/// For every sequence of observer definitions, the empty one included: after
/// a bundle carrying the definitions is inserted on a fresh entity and the
/// deferred commands are flushed, the marker component is absent from that
/// entity, exactly one new observer entity exists per definition, and each of
/// them is bound to the entity and reacts to events of its definition's type
/// targeted at that entity.
pub proof fn lemma_insert_flush_registers_observers(
    m: WorldModel,
    comps: Seq<ComponentValue>,
    defs: Seq<ObserverDef>,
)
    requires
        wf_model(m),
        m.queue.len() == 0,
        m.next_entity + 1 + defs.len() <= u64::MAX,
    ensures
        ({
            let e = m.next_entity;
            let after = flush_model(spawn_model(m, comps, Some(defs)));
            &&& find_marker(after.markers, e) is None
            &&& after.observers.len() == m.observers.len() + defs.len()
            &&& forall|j: int|
                m.observers.len() <= j < after.observers.len() ==> (
                #[trigger] after.observers[j]).observer.target == e
            &&& forall|j: int|
                m.observers.len() <= j < after.observers.len() ==> observes(
                    (#[trigger] after.observers[j]).observer,
                    defs[j - m.observers.len()].event,
                    e,
                )
            &&& after.queue.len() == 0
        }),
{
    lemma_spawn_flush_shape(m, comps, defs);
}

/// Binding order is preserved: the i-th spawned observer entity carries the
/// i-th definition of the original sequence, and the spawned entities' ids
/// grow with i, so spawn order follows declaration order.
pub proof fn lemma_binding_order_preserved(
    m: WorldModel,
    comps: Seq<ComponentValue>,
    defs: Seq<ObserverDef>,
)
    requires
        wf_model(m),
        m.queue.len() == 0,
        m.next_entity + 1 + defs.len() <= u64::MAX,
    ensures
        ({
            let e = m.next_entity;
            let after = flush_model(spawn_model(m, comps, Some(defs)));
            &&& after.observers.len() == m.observers.len() + defs.len()
            &&& forall|j: int|
                m.observers.len() <= j < after.observers.len() ==> (
                #[trigger] after.observers[j]).observer.def == defs[j - m.observers.len()]
            &&& forall|j: int|
                m.observers.len() <= j < after.observers.len() ==> (
                #[trigger] after.observers[j]).id == e + 1 + (j - m.observers.len())
        }),
{
    lemma_spawn_flush_shape(m, comps, defs);
}

/// Emptying is idempotent: because the hook takes the definition sequence out
/// of the marker and leaves an empty one behind, re-running the hook on the
/// same entity changes no component and enqueues the spawn of an empty batch,
/// which creates no entity when flushed.
pub proof fn lemma_hook_rerun_is_noop(m: WorldModel, e: u64)
    requires
        find_marker(m.markers, e) is Some,
    ensures
        ({
            let once = hook_model(m, e);
            let twice = hook_model(once, e);
            &&& twice.markers == once.markers
            &&& twice.data == once.data
            &&& twice.observers == once.observers
            &&& twice.next_entity == once.next_entity
            &&& twice.queue == once.queue + seq![
                CommandModel::Spawn(Seq::empty()),
                CommandModel::RemoveMarker(e),
            ]
            &&& apply_command(
                once,
                CommandModel::Spawn(Seq::<BoundObserver>::empty()),
            ).observers == once.observers
        }),
{
    let once = hook_model(m, e);
    lemma_find_after_empty(m.markers, e);
    lemma_empty_marker_idempotent(m.markers, e);
    assert(bind_all(Seq::<ObserverDef>::empty(), e) =~= Seq::<BoundObserver>::empty());
    assert(apply_command(once, CommandModel::Spawn(Seq::<BoundObserver>::empty())).observers
        =~= once.observers);
    assert(hook_model(once, e).queue =~= once.queue + seq![
        CommandModel::Spawn(Seq::empty()),
        CommandModel::RemoveMarker(e),
    ]);
}

} // verus!
