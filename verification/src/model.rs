//! Mathematical model of the world state and of every transition the library
//! performs: insertion with its synchronous hook, command flushing, and event
//! dispatch to the spawned observer entities.

use vstd::prelude::*;
use crate::observer::bind_all;
use crate::observer::BoundObserver;
use crate::observer::ObserverDef;

verus! {

/// One stored data component: component `comp` of entity `entity` holds `value`.
#[derive(Clone, Copy, PartialEq, Eq, Structural, Debug)]
pub struct DataCell {
    pub entity: u64,
    pub comp: u64,
    pub value: u64,
}

/// One component of a bundle about to be spawned: an identifier and the
/// initial value.
#[derive(Clone, Copy, PartialEq, Eq, Structural, Debug)]
pub struct ComponentValue {
    pub comp: u64,
    pub value: u64,
}

/// One spawned observer entity: a fresh entity `id` hosting one bound observer.
#[derive(Clone, Copy, PartialEq, Eq, Structural, Debug)]
pub struct ObsCell {
    pub id: u64,
    pub observer: BoundObserver,
}

/// Model of one marker cell: the entity it sits on and the observer
/// definitions it still carries.
#[verifier::ext_equal]
pub ghost struct MarkerModel {
    pub entity: u64,
    pub defs: Seq<ObserverDef>,
}

/// Model of one deferred command.
#[verifier::ext_equal]
pub ghost enum CommandModel {
    /// Spawn one new entity per bound observer, in the given order.
    Spawn(Seq<BoundObserver>),
    /// Remove the marker component from the given entity.
    RemoveMarker(u64),
}

/// Model of the whole world: the entity id allocator, the data components,
/// the marker components, the spawned observer entities (in spawn order), and
/// the deferred command queue (in enqueue order).
#[verifier::ext_equal]
pub ghost struct WorldModel {
    pub next_entity: u64,
    pub data: Seq<DataCell>,
    pub markers: Seq<MarkerModel>,
    pub observers: Seq<ObsCell>,
    pub queue: Seq<CommandModel>,
}

/// Validity of a world model: every stored entity identifier was allocated
/// (lies below `next_entity`), and observer entity ids grow in spawn order,
/// so spawned observer entities are pairwise distinct.
pub open spec fn wf_model(m: WorldModel) -> bool {
    &&& forall|i: int| 0 <= i < m.data.len() ==> (#[trigger] m.data[i]).entity < m.next_entity
    &&& forall|i: int| 0 <= i < m.markers.len() ==> (#[trigger] m.markers[i]).entity < m.next_entity
    &&& forall|i: int| 0 <= i < m.observers.len() ==> (#[trigger] m.observers[i]).id < m.next_entity
    &&& forall|i: int, j: int|
        0 <= i < j < m.observers.len() ==> m.observers[i].id < m.observers[j].id
}

/// The value of data component `c` on entity `e`, reading the first matching
/// cell, or `None` when the entity has no such component.
pub open spec fn find_data(s: Seq<DataCell>, e: u64, c: u64) -> Option<u64>
    decreases s.len(),
{
    if s.len() == 0 {
        None
    } else if s[0].entity == e && s[0].comp == c {
        Some(s[0].value)
    } else {
        find_data(s.skip(1), e, c)
    }
}

/// Overwrite the value of the first cell holding component `c` of entity `e`;
/// no effect when the entity has no such component.
pub open spec fn write_data(s: Seq<DataCell>, e: u64, c: u64, v: u64) -> Seq<DataCell>
    decreases s.len(),
{
    if s.len() == 0 {
        s
    } else if s[0].entity == e && s[0].comp == c {
        seq![DataCell { entity: e, comp: c, value: v }] + s.skip(1)
    } else {
        seq![s[0]] + write_data(s.skip(1), e, c, v)
    }
}

/// The observer definitions the marker on entity `e` still carries, reading
/// the first matching cell, or `None` when `e` carries no marker.
pub open spec fn find_marker(s: Seq<MarkerModel>, e: u64) -> Option<Seq<ObserverDef>>
    decreases s.len(),
{
    if s.len() == 0 {
        None
    } else if s[0].entity == e {
        Some(s[0].defs)
    } else {
        find_marker(s.skip(1), e)
    }
}

/// Replace the definition sequence of the first marker cell on entity `e`
/// with the empty sequence, leaving the cell itself in place.
pub open spec fn empty_marker(s: Seq<MarkerModel>, e: u64) -> Seq<MarkerModel>
    decreases s.len(),
{
    if s.len() == 0 {
        s
    } else if s[0].entity == e {
        seq![MarkerModel { entity: e, defs: Seq::empty() }] + s.skip(1)
    } else {
        seq![s[0]] + empty_marker(s.skip(1), e)
    }
}

/// Remove every marker cell sitting on entity `e`.
pub open spec fn remove_marker(s: Seq<MarkerModel>, e: u64) -> Seq<MarkerModel>
    decreases s.len(),
{
    if s.len() == 0 {
        s
    } else if s[0].entity == e {
        remove_marker(s.skip(1), e)
    } else {
        seq![s[0]] + remove_marker(s.skip(1), e)
    }
}

/// Wrapping 64-bit addition, the arithmetic the modelled handlers use.
pub open spec fn wrap_add64(a: u64, b: u64) -> u64 {
    ((a + b) % 0x1_0000_0000_0000_0000) as u64
}

/// Whether a bound observer reacts to `event` targeted at entity `target`.
pub open spec fn observes(o: BoundObserver, event: u64, target: u64) -> bool {
    o.target == target && o.def.event == event
}

/// Effect of one bound observer's handler on the data cells: add the
/// definition's delta (wrapping) to the target entity's component, when that
/// component exists; otherwise no effect.
pub open spec fn fire(d: Seq<DataCell>, o: BoundObserver) -> Seq<DataCell> {
    match find_data(d, o.target, o.def.component) {
        Some(v) => write_data(d, o.target, o.def.component, wrap_add64(v, o.def.delta)),
        None => d,
    }
}

/// Dispatch of one event: run the handler of every matching spawned observer,
/// in spawn order.
pub open spec fn run_trigger(
    d: Seq<DataCell>,
    obs: Seq<ObsCell>,
    event: u64,
    target: u64,
) -> Seq<DataCell>
    decreases obs.len(),
{
    if obs.len() == 0 {
        d
    } else {
        let d1 = if observes(obs[0].observer, event, target) {
            fire(d, obs[0].observer)
        } else {
            d
        };
        run_trigger(d1, obs.skip(1), event, target)
    }
}

/// Effect of one deferred command. A spawn batch creates one entity per bound
/// observer, with consecutive fresh ids; a removal drops the marker from its
/// entity. Neither touches the queue.
pub open spec fn apply_command(m: WorldModel, c: CommandModel) -> WorldModel {
    match c {
        CommandModel::Spawn(list) => WorldModel {
            next_entity: (m.next_entity + list.len()) as u64,
            observers: m.observers + Seq::new(
                list.len(),
                |i: int| ObsCell { id: (m.next_entity + i) as u64, observer: list[i] },
            ),
            ..m
        },
        CommandModel::RemoveMarker(e) => WorldModel {
            markers: remove_marker(m.markers, e),
            ..m
        },
    }
}

/// Applying a sequence of commands, first to last.
pub open spec fn apply_all(m: WorldModel, q: Seq<CommandModel>) -> WorldModel
    decreases q.len(),
{
    if q.len() == 0 {
        m
    } else {
        apply_all(apply_command(m, q[0]), q.skip(1))
    }
}

/// Flush: empty the queue, then apply the commands it held in FIFO order.
pub open spec fn flush_model(m: WorldModel) -> WorldModel {
    apply_all(WorldModel { queue: Seq::<CommandModel>::empty(), ..m }, m.queue)
}

/// How many entities the queued commands will spawn in total.
pub open spec fn spawn_total(q: Seq<CommandModel>) -> int
    decreases q.len(),
{
    if q.len() == 0 {
        0
    } else {
        (match q[0] {
            CommandModel::Spawn(list) => list.len() as int,
            CommandModel::RemoveMarker(_) => 0,
        }) + spawn_total(q.skip(1))
    }
}

/// The insertion hook: empty the marker's definition sequence in place, and
/// enqueue the spawn of the definitions bound to the triggering entity,
/// followed by the removal of the marker from that entity. Nothing else of
/// the world changes: all structural mutation is deferred.
pub open spec fn hook_model(m: WorldModel, e: u64) -> WorldModel {
    let defs = match find_marker(m.markers, e) {
        Some(d) => d,
        None => Seq::empty(),
    };
    WorldModel {
        markers: empty_marker(m.markers, e),
        queue: m.queue + seq![
            CommandModel::Spawn(bind_all(defs, e)),
            CommandModel::RemoveMarker(e),
        ],
        ..m
    }
}

/// Spawning an entity with a bundle of data components and, optionally, the
/// marker. The fresh entity is `m.next_entity`; when the bundle carries the
/// marker, the insertion hook runs synchronously as part of the insertion.
pub open spec fn spawn_model(
    m: WorldModel,
    comps: Seq<ComponentValue>,
    marker: Option<Seq<ObserverDef>>,
) -> WorldModel {
    let e = m.next_entity;
    let inserted = WorldModel {
        next_entity: (m.next_entity + 1) as u64,
        data: m.data + comps.map_values(
            |cv: ComponentValue| DataCell { entity: e, comp: cv.comp, value: cv.value },
        ),
        markers: match marker {
            Some(defs) => m.markers.push(MarkerModel { entity: e, defs }),
            None => m.markers,
        },
        ..m
    };
    match marker {
        Some(_) => hook_model(inserted, e),
        None => inserted,
    }
}

/// A lookup is decided by the first matching cell: when `s[i]` matches and no
/// earlier cell does, the lookup reads `s[i]`.
pub proof fn lemma_find_data_at(s: Seq<DataCell>, e: u64, c: u64, i: int)
    requires
        0 <= i < s.len(),
        s[i].entity == e && s[i].comp == c,
        forall|j: int| 0 <= j < i ==> !((#[trigger] s[j]).entity == e && s[j].comp == c),
    ensures
        find_data(s, e, c) == Some(s[i].value),
    decreases i,
{
    if i > 0 {
        assert(s.skip(1)[i - 1] == s[i]);
        assert(forall|j: int| 0 <= j < i - 1 ==> #[trigger] s.skip(1)[j] == s[j + 1]);
        lemma_find_data_at(s.skip(1), e, c, i - 1);
    }
}

/// When no cell matches, the lookup yields nothing.
pub proof fn lemma_find_data_none(s: Seq<DataCell>, e: u64, c: u64)
    requires
        forall|j: int| 0 <= j < s.len() ==> !((#[trigger] s[j]).entity == e && s[j].comp == c),
    ensures
        find_data(s, e, c) is None,
    decreases s.len(),
{
    if s.len() > 0 {
        assert(forall|j: int| 0 <= j < s.len() - 1 ==> #[trigger] s.skip(1)[j] == s[j + 1]);
        lemma_find_data_none(s.skip(1), e, c);
    }
}

/// Overwriting the first matching cell is a pointwise update at its index.
pub proof fn lemma_write_data_at(s: Seq<DataCell>, e: u64, c: u64, v: u64, i: int)
    requires
        0 <= i < s.len(),
        s[i].entity == e && s[i].comp == c,
        forall|j: int| 0 <= j < i ==> !((#[trigger] s[j]).entity == e && s[j].comp == c),
    ensures
        write_data(s, e, c, v) == s.update(i, DataCell { entity: e, comp: c, value: v }),
    decreases i,
{
    if i == 0 {
        assert(write_data(s, e, c, v) =~= s.update(0, DataCell { entity: e, comp: c, value: v }));
    } else {
        assert(s.skip(1)[i - 1] == s[i]);
        assert(forall|j: int| 0 <= j < i - 1 ==> #[trigger] s.skip(1)[j] == s[j + 1]);
        lemma_write_data_at(s.skip(1), e, c, v, i - 1);
        assert(write_data(s, e, c, v) =~= s.update(i, DataCell { entity: e, comp: c, value: v }));
    }
}

/// A marker lookup is decided by the first cell sitting on the entity.
pub proof fn lemma_find_marker_at(s: Seq<MarkerModel>, e: u64, i: int)
    requires
        0 <= i < s.len(),
        s[i].entity == e,
        forall|j: int| 0 <= j < i ==> (#[trigger] s[j]).entity != e,
    ensures
        find_marker(s, e) == Some(s[i].defs),
    decreases i,
{
    if i > 0 {
        assert(s.skip(1)[i - 1] == s[i]);
        assert(forall|j: int| 0 <= j < i - 1 ==> #[trigger] s.skip(1)[j] == s[j + 1]);
        lemma_find_marker_at(s.skip(1), e, i - 1);
    }
}

/// When no marker cell sits on the entity, the lookup yields nothing.
pub proof fn lemma_find_marker_none(s: Seq<MarkerModel>, e: u64)
    requires
        forall|j: int| 0 <= j < s.len() ==> (#[trigger] s[j]).entity != e,
    ensures
        find_marker(s, e) is None,
    decreases s.len(),
{
    if s.len() > 0 {
        assert(forall|j: int| 0 <= j < s.len() - 1 ==> #[trigger] s.skip(1)[j] == s[j + 1]);
        lemma_find_marker_none(s.skip(1), e);
    }
}

/// Emptying the first marker cell on the entity is a pointwise update at its
/// index.
pub proof fn lemma_empty_marker_at(s: Seq<MarkerModel>, e: u64, i: int)
    requires
        0 <= i < s.len(),
        s[i].entity == e,
        forall|j: int| 0 <= j < i ==> (#[trigger] s[j]).entity != e,
    ensures
        empty_marker(s, e) == s.update(i, MarkerModel { entity: e, defs: Seq::empty() }),
    decreases i,
{
    if i == 0 {
        assert(empty_marker(s, e) =~= s.update(0, MarkerModel { entity: e, defs: Seq::empty() }));
    } else {
        assert(s.skip(1)[i - 1] == s[i]);
        assert(forall|j: int| 0 <= j < i - 1 ==> #[trigger] s.skip(1)[j] == s[j + 1]);
        lemma_empty_marker_at(s.skip(1), e, i - 1);
        assert(empty_marker(s, e) =~= s.update(i, MarkerModel { entity: e, defs: Seq::empty() }));
    }
}

/// Once the first marker cell on `e` has been emptied, looking the marker up
/// on `e` yields the empty sequence.
pub proof fn lemma_find_after_empty(s: Seq<MarkerModel>, e: u64)
    requires
        find_marker(s, e) is Some,
    ensures
        find_marker(empty_marker(s, e), e) == Some(Seq::<ObserverDef>::empty()),
    decreases s.len(),
{
    if s.len() > 0 {
        if s[0].entity == e {
            assert((seq![MarkerModel { entity: e, defs: Seq::empty() }] + s.skip(1))[0]
                == MarkerModel { entity: e, defs: Seq::empty() });
        } else {
            lemma_find_after_empty(s.skip(1), e);
            assert((seq![s[0]] + empty_marker(s.skip(1), e)).skip(1) =~= empty_marker(
                s.skip(1),
                e,
            ));
        }
    }
}

/// Emptying the marker on an entity twice is the same as emptying it once.
pub proof fn lemma_empty_marker_idempotent(s: Seq<MarkerModel>, e: u64)
    ensures
        empty_marker(empty_marker(s, e), e) == empty_marker(s, e),
    decreases s.len(),
{
    if s.len() > 0 {
        if s[0].entity == e {
            let t = seq![MarkerModel { entity: e, defs: Seq::empty() }] + s.skip(1);
            assert(t[0].entity == e);
            assert(t.skip(1) =~= s.skip(1));
            assert(empty_marker(t, e) =~= t);
        } else {
            lemma_empty_marker_idempotent(s.skip(1), e);
            let t = seq![s[0]] + empty_marker(s.skip(1), e);
            assert(t[0] == s[0]);
            assert(t.skip(1) =~= empty_marker(s.skip(1), e));
            assert(empty_marker(t, e) =~= seq![s[0]] + empty_marker(
                empty_marker(s.skip(1), e),
                e,
            ));
        }
    }
}

/// After the removal command is applied, no marker cell sits on the entity.
pub proof fn lemma_remove_marker_gone(s: Seq<MarkerModel>, e: u64)
    ensures
        find_marker(remove_marker(s, e), e) is None,
    decreases s.len(),
{
    if s.len() > 0 {
        lemma_remove_marker_gone(s.skip(1), e);
        if s[0].entity != e {
            assert((seq![s[0]] + remove_marker(s.skip(1), e)).skip(1) =~= remove_marker(
                s.skip(1),
                e,
            ));
        }
    }
}

/// A queue never spawns a negative number of entities.
pub proof fn lemma_spawn_total_nonneg(q: Seq<CommandModel>)
    ensures
        spawn_total(q) >= 0,
    decreases q.len(),
{
    if q.len() > 0 {
        lemma_spawn_total_nonneg(q.skip(1));
    }
}

} // verus!
