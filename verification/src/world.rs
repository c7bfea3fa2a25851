//! The executable world: component storage, the deferred command queue, the
//! insertion hook, command flushing, and event dispatch.

use vstd::prelude::*;
use crate::model::apply_all;
use crate::model::apply_command;
use crate::model::empty_marker;
use crate::model::find_data;
use crate::model::find_marker;
use crate::model::fire;
use crate::model::flush_model;
use crate::model::hook_model;
use crate::model::lemma_empty_marker_at;
use crate::model::lemma_find_data_at;
use crate::model::lemma_find_data_none;
use crate::model::lemma_find_marker_at;
use crate::model::lemma_find_marker_none;
use crate::model::lemma_spawn_total_nonneg;
use crate::model::lemma_write_data_at;
use crate::model::observes;
use crate::model::remove_marker;
use crate::model::run_trigger;
use crate::model::spawn_model;
use crate::model::spawn_total;
use crate::model::wf_model;
use crate::model::wrap_add64;
use crate::model::write_data;
use crate::model::CommandModel;
use crate::model::ComponentValue;
use crate::model::DataCell;
use crate::model::MarkerModel;
use crate::model::ObsCell;
use crate::model::WorldModel;
use crate::observer::bind_all;
use crate::observer::BoundObserver;
use crate::observer::Observers;
use crate::observer::ObserverDef;

verus! {

/// One deferred structural mutation, recorded by the insertion hook and
/// applied at the next flush.
pub enum Command {
    /// Spawn one new entity per bound observer, in the given order.
    Spawn(Vec<BoundObserver>),
    /// Remove the marker component from the given entity.
    RemoveMarker(u64),
}

impl View for Command {
    type V = CommandModel;

    open spec fn view(&self) -> CommandModel {
        match self {
            Command::Spawn(list) => CommandModel::Spawn(list@),
            Command::RemoveMarker(e) => CommandModel::RemoveMarker(*e),
        }
    }
}

/// One marker cell: an entity and the marker component it carries.
pub struct MarkerCell {
    pub entity: u64,
    pub defs: Observers,
}

impl View for MarkerCell {
    type V = MarkerModel;

    open spec fn view(&self) -> MarkerModel {
        MarkerModel { entity: self.entity, defs: self.defs@ }
    }
}

/// The marker cells as a sequence of their models.
pub open spec fn markers_view(v: Seq<MarkerCell>) -> Seq<MarkerModel> {
    v.map_values(|mc: MarkerCell| mc@)
}

/// The queued commands as a sequence of their models.
pub open spec fn queue_view(v: Seq<Command>) -> Seq<CommandModel> {
    v.map_values(|c: Command| c@)
}

/// The marker argument of a spawn, as the definitions it carries.
pub open spec fn marker_view(m: Option<Observers>) -> Option<Seq<ObserverDef>> {
    match m {
        Some(o) => Some(o@),
        None => None,
    }
}

/// The world: data components, marker components, spawned observer entities
/// (in spawn order), and the deferred command queue (in enqueue order).
pub struct World {
    next_entity: u64,
    data: Vec<DataCell>,
    markers: Vec<MarkerCell>,
    observers: Vec<ObsCell>,
    queue: Vec<Command>,
}

impl View for World {
    type V = WorldModel;

    closed spec fn view(&self) -> WorldModel {
        WorldModel {
            next_entity: self.next_entity,
            data: self.data@,
            markers: markers_view(self.markers@),
            observers: self.observers@,
            queue: queue_view(self.queue@),
        }
    }
}

/// The index of the first marker cell on entity `e`, if any.
fn marker_index(v: &Vec<MarkerCell>, e: u64) -> (r: Option<usize>)
    ensures
        match r {
            Some(i) => i < v@.len() && v@[i as int].entity == e && forall|j: int|
                0 <= j < i ==> (#[trigger] v@[j]).entity != e,
            None => forall|j: int| 0 <= j < v@.len() ==> (#[trigger] v@[j]).entity != e,
        },
{
    let mut i: usize = 0;
    while i < v.len()
        invariant
            i <= v@.len(),
            forall|j: int| 0 <= j < i ==> (#[trigger] v@[j]).entity != e,
        decreases v@.len() - i,
    {
        if v[i].entity == e {
            return Some(i);
        }
        i += 1;
    }
    None
}

/// The index of the first cell holding component `c` of entity `e`, if any.
fn data_index(v: &Vec<DataCell>, e: u64, c: u64) -> (r: Option<usize>)
    ensures
        match r {
            Some(i) => i < v@.len() && v@[i as int].entity == e && v@[i as int].comp == c
                && forall|j: int|
                0 <= j < i ==> !((#[trigger] v@[j]).entity == e && v@[j].comp == c),
            None => forall|j: int|
                0 <= j < v@.len() ==> !((#[trigger] v@[j]).entity == e && v@[j].comp == c),
        },
{
    let mut i: usize = 0;
    while i < v.len()
        invariant
            i <= v@.len(),
            forall|j: int| 0 <= j < i ==> !((#[trigger] v@[j]).entity == e && v@[j].comp == c),
        decreases v@.len() - i,
    {
        if v[i].entity == e && v[i].comp == c {
            return Some(i);
        }
        i += 1;
    }
    None
}

/// A copy of a definition list (definitions are plain values).
fn copy_defs(v: &Vec<ObserverDef>) -> (r: Vec<ObserverDef>)
    ensures
        r@ == v@,
{
    let mut r: Vec<ObserverDef> = Vec::new();
    let mut i: usize = 0;
    while i < v.len()
        invariant
            i <= v@.len(),
            r@ == v@.subrange(0, i as int),
        decreases v@.len() - i,
    {
        r.push(v[i]);
        proof {
            assert(r@ =~= v@.subrange(0, i + 1 as int));
        }
        i += 1;
    }
    proof {
        assert(r@ =~= v@);
    }
    r
}

/// Wrapping 64-bit addition.
fn wrap_add(a: u64, b: u64) -> (r: u64)
    ensures
        r == wrap_add64(a, b),
{
    if b <= u64::MAX - a {
        a + b
    } else {
        b - (u64::MAX - a) - 1
    }
}

impl World {
    /// Validity of the world; established by `new` and preserved by every
    /// operation.
    pub open spec fn wf(&self) -> bool {
        wf_model(self@)
    }

    /// An empty world: no entities, no components, nothing queued.
    pub fn new() -> (w: World)
        ensures
            w@ == (WorldModel {
                next_entity: 0,
                data: Seq::empty(),
                markers: Seq::empty(),
                observers: Seq::empty(),
                queue: Seq::empty(),
            }),
            w.wf(),
    {
        let w = World {
            next_entity: 0,
            data: Vec::new(),
            markers: Vec::new(),
            observers: Vec::new(),
            queue: Vec::new(),
        };
        proof {
            assert(w@ =~= WorldModel {
                next_entity: 0,
                data: Seq::empty(),
                markers: Seq::empty(),
                observers: Seq::empty(),
                queue: Seq::empty(),
            });
        }
        w
    }

    /// The insertion hook. It runs synchronously while the insertion of a
    /// bundle carrying the marker is in progress, so the marker is present on
    /// the triggering entity; a world in which it is absent violates the
    /// host's wiring and is ruled out. The hook empties the marker's
    /// definition sequence in place, binds every definition to the triggering
    /// entity in its original order, and enqueues two deferred commands:
    /// spawn the bound observers, then remove the marker. Nothing structural
    /// is mutated before the flush.
    pub fn on_insert(&mut self, entity: u64)
        requires
            old(self).wf(),
            find_marker(old(self)@.markers, entity) is Some,
        ensures
            final(self).wf(),
            final(self)@ == hook_model(old(self)@, entity),
            // emptying is immediate: the marker's sequence reads empty as
            // soon as the hook has run, so a re-run would process nothing
            find_marker(final(self)@.markers, entity) == Some(Seq::<ObserverDef>::empty()),
            // no structural mutation before the flush: same entities, same
            // components, same spawned observers; only the marker's content
            // and the queue changed
            final(self)@.next_entity == old(self)@.next_entity,
            final(self)@.data == old(self)@.data,
            final(self)@.observers == old(self)@.observers,
            final(self)@.markers.len() == old(self)@.markers.len(),
            forall|i: int|
                0 <= i < old(self)@.markers.len() ==> final(self)@.markers[i].entity == old(
                    self,
                )@.markers[i].entity,
            // exactly two commands were appended: spawn the definitions bound
            // to the triggering entity, in order, then remove the marker
            final(self)@.queue == old(self)@.queue + seq![
                CommandModel::Spawn(
                    bind_all(
                        match find_marker(old(self)@.markers, entity) {
                            Some(d) => d,
                            None => Seq::empty(),
                        },
                        entity,
                    ),
                ),
                CommandModel::RemoveMarker(entity),
            ],
    {
        let idx = match marker_index(&self.markers, entity) {
            Some(i) => i,
            None => {
                proof {
                    lemma_find_marker_none(self@.markers, entity);
                }
                // unreachable: the requires rules a missing marker out
                unreached()
            },
        };
        proof {
            lemma_find_marker_at(self@.markers, entity, idx as int);
        }
        // move the definitions out, leaving an emptied marker in place
        let defs = copy_defs(&self.markers[idx].defs.0);
        self.markers[idx] = MarkerCell { entity, defs: Observers(Vec::new()) };
        proof {
            lemma_empty_marker_at(old(self)@.markers, entity, idx as int);
            assert(markers_view(self.markers@) =~= empty_marker(old(self)@.markers, entity));
        }
        // bind each definition, in original order, to the entity that is now
        // known
        let mut bound: Vec<BoundObserver> = Vec::new();
        let mut j: usize = 0;
        while j < defs.len()
            invariant
                j <= defs@.len(),
                bound@ == bind_all(defs@.subrange(0, j as int), entity),
            decreases defs@.len() - j,
        {
            bound.push(BoundObserver { target: entity, def: defs[j] });
            proof {
                assert(bound@ =~= bind_all(defs@.subrange(0, j + 1 as int), entity));
            }
            j += 1;
        }
        proof {
            assert(defs@.subrange(0, defs@.len() as int) =~= defs@);
        }
        // queue the two deferred operations
        self.queue.push(Command::Spawn(bound));
        self.queue.push(Command::RemoveMarker(entity));
        proof {
            assert(queue_view(self.queue@) =~= old(self)@.queue + seq![
                CommandModel::Spawn(bind_all(defs@, entity)),
                CommandModel::RemoveMarker(entity),
            ]);
            assert(self@ =~= hook_model(old(self)@, entity));
            lemma_find_marker_at(self@.markers, entity, idx as int);
        }
    }

    /// Apply every queued command in FIFO order and empty the queue: spawn
    /// batches materialize as new observer entities with consecutive fresh
    /// ids, and removals erase the marker from their entity. The id space
    /// must be large enough for everything the queue spawns.
    pub fn flush(&mut self)
        requires
            old(self).wf(),
            old(self)@.next_entity + spawn_total(old(self)@.queue) <= u64::MAX,
        ensures
            final(self).wf(),
            final(self)@ == flush_model(old(self)@),
    {
        let mut q: Vec<Command> = Vec::new();
        core::mem::swap(&mut q, &mut self.queue);
        let ghost m0 = WorldModel { queue: Seq::<CommandModel>::empty(), ..old(self)@ };
        let ghost cmds = queue_view(q@);
        proof {
            assert(queue_view(Seq::<Command>::empty()) =~= Seq::<CommandModel>::empty());
            assert(self@ =~= m0);
            assert(cmds == old(self)@.queue);
            assert(cmds.skip(0) =~= cmds);
        }
        let mut i: usize = 0;
        while i < q.len()
            invariant
                i <= q@.len(),
                cmds == queue_view(q@),
                self@.queue == Seq::<CommandModel>::empty(),
                wf_model(self@),
                self@.next_entity + spawn_total(cmds.skip(i as int)) <= u64::MAX,
                apply_all(self@, cmds.skip(i as int)) == apply_all(m0, cmds),
            decreases q@.len() - i,
        {
            let ghost pre = self@;
            proof {
                assert(cmds.skip(i as int)[0] == cmds[i as int]);
                assert(cmds.skip(i as int).skip(1) =~= cmds.skip(i as int + 1));
                lemma_spawn_total_nonneg(cmds.skip(i as int + 1));
            }
            match &q[i] {
                Command::Spawn(list) => {
                    proof {
                        assert(cmds[i as int] == CommandModel::Spawn(list@));
                    }
                    let mut k: usize = 0;
                    while k < list.len()
                        invariant
                            k <= list@.len(),
                            pre.next_entity + list@.len() <= u64::MAX,
                            self.next_entity == pre.next_entity + k,
                            self.data@ == pre.data,
                            markers_view(self.markers@) == pre.markers,
                            queue_view(self.queue@) == pre.queue,
                            self.observers@ == pre.observers + Seq::new(
                                k as nat,
                                |t: int| ObsCell {
                                    id: (pre.next_entity + t) as u64,
                                    observer: list@[t],
                                },
                            ),
                        decreases list@.len() - k,
                    {
                        self.observers.push(ObsCell { id: self.next_entity, observer: list[k] });
                        self.next_entity = self.next_entity + 1;
                        k += 1;
                        proof {
                            assert(self.observers@ =~= pre.observers + Seq::new(
                                k as nat,
                                |t: int| ObsCell {
                                    id: (pre.next_entity + t) as u64,
                                    observer: list@[t],
                                },
                            ));
                        }
                    }
                    proof {
                        assert(self@ =~= apply_command(pre, cmds[i as int]));
                        assert(wf_model(self@));
                    }
                },
                Command::RemoveMarker(e) => {
                    let ent = *e;
                    proof {
                        assert(cmds[i as int] == CommandModel::RemoveMarker(ent));
                        assert(pre.markers.subrange(0, 0) =~= Seq::<MarkerModel>::empty());
                        assert(pre.markers.skip(0) =~= pre.markers);
                    }
                    let mut j: usize = 0;
                    while j < self.markers.len()
                        invariant
                            j <= self.markers@.len(),
                            self.next_entity == pre.next_entity,
                            self.data@ == pre.data,
                            self.observers@ == pre.observers,
                            queue_view(self.queue@) == pre.queue,
                            forall|t: int|
                                0 <= t < self.markers@.len() ==> (#[trigger] markers_view(
                                    self.markers@,
                                )[t]).entity < pre.next_entity,
                            remove_marker(pre.markers, ent) == markers_view(
                                self.markers@,
                            ).subrange(0, j as int) + remove_marker(
                                markers_view(self.markers@).skip(j as int),
                                ent,
                            ),
                        decreases self.markers@.len() - j,
                    {
                        let ghost before = markers_view(self.markers@);
                        if self.markers[j].entity == ent {
                            self.markers.remove(j);
                            proof {
                                assert(markers_view(self.markers@) =~= before.remove(j as int));
                                assert(before.skip(j as int)[0] == before[j as int]);
                                assert(before.skip(j as int).skip(1) =~= markers_view(
                                    self.markers@,
                                ).skip(j as int));
                                assert(markers_view(self.markers@).subrange(0, j as int)
                                    =~= before.subrange(0, j as int));
                            }
                        } else {
                            proof {
                                assert(before.skip(j as int)[0] == before[j as int]);
                                assert(before.skip(j as int).skip(1) =~= before.skip(
                                    j as int + 1,
                                ));
                                assert(before.subrange(0, j as int + 1) =~= before.subrange(
                                    0,
                                    j as int,
                                ) + seq![before[j as int]]);
                                assert(before.subrange(0, j as int) + (seq![before[j as int]]
                                    + remove_marker(before.skip(j as int + 1), ent))
                                    =~= before.subrange(0, j as int + 1) + remove_marker(
                                    before.skip(j as int + 1),
                                    ent,
                                ));
                            }
                            j += 1;
                        }
                    }
                    proof {
                        let fin = markers_view(self.markers@);
                        assert(fin.skip(fin.len() as int) =~= Seq::<MarkerModel>::empty());
                        assert(fin.subrange(0, fin.len() as int) =~= fin);
                        assert(fin =~= remove_marker(pre.markers, ent));
                        assert(self@ =~= apply_command(pre, cmds[i as int]));
                        assert(wf_model(self@));
                    }
                },
            }
            proof {
                assert(apply_all(pre, cmds.skip(i as int)) == apply_all(
                    self@,
                    cmds.skip(i as int + 1),
                ));
            }
            i += 1;
        }
        proof {
            assert(cmds.skip(q@.len() as int) =~= Seq::<CommandModel>::empty());
            assert(self@ == flush_model(old(self)@));
        }
    }

    /// Dispatch one event: every spawned observer whose definition's filter
    /// matches `event` and whose bound target is `target` runs its handler,
    /// in spawn order. Handlers only change data component values; entities,
    /// markers, spawned observers and the queue are untouched.
    pub fn trigger(&mut self, event: u64, target: u64)
        requires
            old(self).wf(),
        ensures
            final(self).wf(),
            final(self)@ == (WorldModel {
                data: run_trigger(old(self)@.data, old(self)@.observers, event, target),
                ..old(self)@
            }),
    {
        let n = self.observers.len();
        proof {
            assert(self.observers@.skip(0) =~= self.observers@);
        }
        let mut i: usize = 0;
        while i < n
            invariant
                i <= n,
                n == self.observers@.len(),
                self.next_entity == old(self)@.next_entity,
                markers_view(self.markers@) == old(self)@.markers,
                self.observers@ == old(self)@.observers,
                queue_view(self.queue@) == old(self)@.queue,
                self.data@.len() == old(self)@.data.len(),
                forall|t: int|
                    0 <= t < self.data@.len() ==> (#[trigger] self.data@[t]).entity == old(
                        self,
                    )@.data[t].entity && self.data@[t].comp == old(self)@.data[t].comp,
                run_trigger(old(self)@.data, old(self)@.observers, event, target) == run_trigger(
                    self.data@,
                    self.observers@.skip(i as int),
                    event,
                    target,
                ),
            decreases n - i,
        {
            let ghost pre_data = self.data@;
            let o = self.observers[i];
            proof {
                assert(self.observers@.skip(i as int)[0] == self.observers@[i as int]);
                assert(self.observers@.skip(i as int).skip(1) =~= self.observers@.skip(
                    i as int + 1,
                ));
            }
            if o.observer.def.event == event && o.observer.target == target {
                let c = o.observer.def.component;
                match data_index(&self.data, target, c) {
                    Some(di) => {
                        let v = self.data[di].value;
                        let nv = wrap_add(v, o.observer.def.delta);
                        self.data[di] = DataCell { entity: target, comp: c, value: nv };
                        proof {
                            lemma_find_data_at(pre_data, target, c, di as int);
                            lemma_write_data_at(pre_data, target, c, nv, di as int);
                            assert(self.data@ == fire(pre_data, o.observer));
                        }
                    },
                    None => {
                        proof {
                            lemma_find_data_none(pre_data, target, c);
                            assert(fire(pre_data, o.observer) == pre_data);
                        }
                    },
                }
            } else {
                proof {
                    assert(!observes(o.observer, event, target));
                }
            }
            i += 1;
        }
        proof {
            assert(self.observers@.skip(n as int) =~= Seq::<ObsCell>::empty());
            assert(self@ =~= (WorldModel {
                data: run_trigger(old(self)@.data, old(self)@.observers, event, target),
                ..old(self)@
            }));
        }
    }

    /// Spawn a new entity carrying the given bundle: data components and,
    /// optionally, the marker with its observer definitions. When the bundle
    /// carries the marker, the insertion hook runs synchronously as part of
    /// the insertion: the returned entity's marker is already emptied and the
    /// two deferred commands are queued, but nothing structural changes until
    /// `flush`.
    pub fn spawn(&mut self, components: Vec<ComponentValue>, marker: Option<Observers>) -> (e:
        u64)
        requires
            old(self).wf(),
            old(self)@.next_entity < u64::MAX,
        ensures
            final(self).wf(),
            e == old(self)@.next_entity,
            final(self)@ == spawn_model(old(self)@, components@, marker_view(marker)),
    {
        let ghost mview = marker_view(marker);
        let e = self.next_entity;
        self.next_entity = e + 1;
        proof {
            assert(components@.subrange(0, 0).map_values(
                |cv: ComponentValue| DataCell { entity: e, comp: cv.comp, value: cv.value },
            ) =~= Seq::<DataCell>::empty());
            assert(self.data@ =~= old(self)@.data + Seq::<DataCell>::empty());
        }
        let mut i: usize = 0;
        while i < components.len()
            invariant
                i <= components@.len(),
                e == old(self)@.next_entity,
                e < u64::MAX,
                self.next_entity == e + 1,
                markers_view(self.markers@) == old(self)@.markers,
                self.observers@ == old(self)@.observers,
                queue_view(self.queue@) == old(self)@.queue,
                self.data@ == old(self)@.data + components@.subrange(0, i as int).map_values(
                    |cv: ComponentValue| DataCell { entity: e, comp: cv.comp, value: cv.value },
                ),
            decreases components@.len() - i,
        {
            self.data.push(
                DataCell { entity: e, comp: components[i].comp, value: components[i].value },
            );
            proof {
                assert(self.data@ =~= old(self)@.data + components@.subrange(
                    0,
                    i as int + 1,
                ).map_values(
                    |cv: ComponentValue| DataCell { entity: e, comp: cv.comp, value: cv.value },
                ));
            }
            i += 1;
        }
        proof {
            assert(components@.subrange(0, components@.len() as int) =~= components@);
        }
        match marker {
            None => {
                proof {
                    assert(wf_model(self@));
                    assert(self@ =~= spawn_model(old(self)@, components@, mview));
                }
            },
            Some(obs) => {
                let ghost defs0 = obs@;
                self.markers.push(MarkerCell { entity: e, defs: obs });
                proof {
                    assert(markers_view(self.markers@) =~= old(self)@.markers.push(
                        MarkerModel { entity: e, defs: defs0 },
                    ));
                    // the new cell is the only one on `e`: every older cell
                    // sits on a previously allocated entity
                    assert forall|j: int| 0 <= j < old(self)@.markers.len() implies (
                    #[trigger] markers_view(self.markers@)[j]).entity != e by {
                        assert(old(self)@.markers[j].entity < e);
                    }
                    lemma_find_marker_at(
                        markers_view(self.markers@),
                        e,
                        old(self)@.markers.len() as int,
                    );
                    assert(wf_model(self@));
                }
                self.on_insert(e);
                proof {
                    assert(self@ =~= spawn_model(old(self)@, components@, mview));
                }
            },
        }
        e
    }

    /// The value of data component `comp` on entity `entity`, or `None` when
    /// the entity has no such component.
    pub fn get_data(&self, entity: u64, comp: u64) -> (r: Option<u64>)
        ensures
            r == find_data(self@.data, entity, comp),
    {
        match data_index(&self.data, entity, comp) {
            Some(i) => {
                proof {
                    lemma_find_data_at(self@.data, entity, comp, i as int);
                }
                Some(self.data[i].value)
            },
            None => {
                proof {
                    lemma_find_data_none(self@.data, entity, comp);
                }
                None
            },
        }
    }

    /// The observer definitions the marker on `entity` still carries, or
    /// `None` when the entity carries no marker component.
    pub fn get_marker(&self, entity: u64) -> (r: Option<Vec<ObserverDef>>)
        ensures
            match r {
                Some(d) => find_marker(self@.markers, entity) == Some(d@),
                None => find_marker(self@.markers, entity) is None,
            },
    {
        match marker_index(&self.markers, entity) {
            Some(i) => {
                proof {
                    lemma_find_marker_at(self@.markers, entity, i as int);
                }
                Some(copy_defs(&self.markers[i].defs.0))
            },
            None => {
                proof {
                    lemma_find_marker_none(self@.markers, entity);
                }
                None
            },
        }
    }

    /// How many observer entities have been spawned.
    pub fn observer_count(&self) -> (n: usize)
        ensures
            n == self@.observers.len(),
    {
        self.observers.len()
    }

    /// The `i`-th spawned observer entity, in spawn order.
    pub fn observer_at(&self, i: usize) -> (o: ObsCell)
        requires
            i < self@.observers.len(),
        ensures
            o == self@.observers[i as int],
    {
        self.observers[i]
    }

    /// How many deferred commands are queued and not yet flushed.
    pub fn queue_len(&self) -> (n: usize)
        ensures
            n == self@.queue.len(),
    {
        self.queue.len()
    }
}

} // verus!
