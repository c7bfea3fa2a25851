use bundled_observers::model::ComponentValue;
use bundled_observers::observer::Observers;
use bundled_observers::observer::ObserverDef;
use bundled_observers::world::World;

const FOO: u64 = 1;
const BAZ: u64 = 2;
const QUX: u64 = 3;
const BAR: u64 = 10;
const BAR2: u64 = 11;
const BAR3: u64 = 12;

fn def(event: u64, component: u64, delta: u64) -> ObserverDef {
    ObserverDef { event, component, delta }
}

#[test]
fn test() {
    let mut world = World::new();

    let entity = world.spawn(
        vec![ComponentValue { comp: BAR, value: 0 }],
        Some(Observers::new(vec![def(FOO, BAR, 1)])),
    );
    world.flush();

    world.trigger(FOO, entity);

    assert_eq!(world.get_data(entity, BAR), Some(1));
}

#[test]
fn triggering_twice_increments_twice() {
    let mut world = World::new();
    let entity = world.spawn(
        vec![ComponentValue { comp: BAR, value: 0 }],
        Some(Observers::new(vec![def(FOO, BAR, 1)])),
    );
    world.flush();

    world.trigger(FOO, entity);
    assert_eq!(world.get_data(entity, BAR), Some(1));
    world.trigger(FOO, entity);
    assert_eq!(world.get_data(entity, BAR), Some(2));
}

#[test]
fn empty_observer_list_leaves_no_residue() {
    let mut world = World::new();
    let entity = world.spawn(vec![], Some(Observers::new(vec![])));
    world.flush();

    assert_eq!(world.get_marker(entity), None);
    assert_eq!(world.observer_count(), 0);
    assert_eq!(world.queue_len(), 0);
}

#[test]
fn three_event_types_react_independently() {
    let mut world = World::new();
    let entity = world.spawn(
        vec![
            ComponentValue { comp: BAR, value: 0 },
            ComponentValue { comp: BAR2, value: 0 },
            ComponentValue { comp: BAR3, value: 0 },
        ],
        Some(Observers::new(vec![
            def(FOO, BAR, 1),
            def(BAZ, BAR2, 1),
            def(QUX, BAR3, 1),
        ])),
    );
    world.flush();
    assert_eq!(world.observer_count(), 3);

    world.trigger(BAZ, entity);

    assert_eq!(world.get_data(entity, BAR), Some(0));
    assert_eq!(world.get_data(entity, BAR2), Some(1));
    assert_eq!(world.get_data(entity, BAR3), Some(0));

    world.trigger(FOO, entity);
    world.trigger(QUX, entity);

    assert_eq!(world.get_data(entity, BAR), Some(1));
    assert_eq!(world.get_data(entity, BAR2), Some(1));
    assert_eq!(world.get_data(entity, BAR3), Some(1));
}

#[test]
fn binding_preserves_declaration_order() {
    let mut world = World::new();
    let entity = world.spawn(
        vec![],
        Some(Observers::new(vec![def(FOO, BAR, 1), def(BAZ, BAR2, 5)])),
    );
    world.flush();

    assert_eq!(world.observer_count(), 2);
    let first = world.observer_at(0);
    let second = world.observer_at(1);
    assert_eq!(first.observer.target, entity);
    assert_eq!(second.observer.target, entity);
    assert_eq!(first.observer.def, def(FOO, BAR, 1));
    assert_eq!(second.observer.def, def(BAZ, BAR2, 5));
    // spawned observer entities get consecutive fresh ids, in order
    assert_eq!(first.id, entity + 1);
    assert_eq!(second.id, entity + 2);
}

#[test]
fn no_structural_change_before_flush() {
    let mut world = World::new();
    let entity = world.spawn(
        vec![ComponentValue { comp: BAR, value: 7 }],
        Some(Observers::new(vec![def(FOO, BAR, 1)])),
    );

    // the hook has run (the marker reads empty), but nothing structural has
    // changed yet: the marker is still present, no observer entity exists,
    // and the two commands sit in the queue
    assert_eq!(world.get_marker(entity), Some(vec![]));
    assert_eq!(world.get_data(entity, BAR), Some(7));
    assert_eq!(world.observer_count(), 0);
    assert_eq!(world.queue_len(), 2);

    world.flush();

    assert_eq!(world.get_marker(entity), None);
    assert_eq!(world.get_data(entity, BAR), Some(7));
    assert_eq!(world.observer_count(), 1);
    assert_eq!(world.queue_len(), 0);
}

#[test]
fn hook_rerun_registers_nothing() {
    let mut world = World::new();
    let entity = world.spawn(
        vec![ComponentValue { comp: BAR, value: 0 }],
        Some(Observers::new(vec![def(FOO, BAR, 1)])),
    );

    // the marker was already emptied by the insertion hook, so a second hook
    // invocation processes zero definitions
    world.on_insert(entity);
    assert_eq!(world.queue_len(), 4);

    world.flush();

    assert_eq!(world.observer_count(), 1);
    assert_eq!(world.get_marker(entity), None);
    world.trigger(FOO, entity);
    assert_eq!(world.get_data(entity, BAR), Some(1));
}

#[test]
fn spawn_without_marker_queues_nothing() {
    let mut world = World::new();
    let entity = world.spawn(vec![ComponentValue { comp: BAR, value: 4 }], None);

    assert_eq!(world.queue_len(), 0);
    assert_eq!(world.get_marker(entity), None);
    assert_eq!(world.get_data(entity, BAR), Some(4));
}

#[test]
fn handler_addition_wraps() {
    let mut world = World::new();
    let entity = world.spawn(
        vec![ComponentValue { comp: BAR, value: u64::MAX }],
        Some(Observers::new(vec![def(FOO, BAR, 1)])),
    );
    world.flush();

    world.trigger(FOO, entity);
    assert_eq!(world.get_data(entity, BAR), Some(0));
}

#[test]
fn handler_without_component_does_nothing() {
    let mut world = World::new();
    let entity = world.spawn(
        vec![ComponentValue { comp: BAR, value: 3 }],
        Some(Observers::new(vec![def(FOO, BAR2, 1)])),
    );
    world.flush();

    world.trigger(FOO, entity);

    assert_eq!(world.get_data(entity, BAR), Some(3));
    assert_eq!(world.get_data(entity, BAR2), None);
}

#[test]
fn two_insertions_share_one_flush() {
    let mut world = World::new();
    let first = world.spawn(
        vec![ComponentValue { comp: BAR, value: 0 }],
        Some(Observers::new(vec![def(FOO, BAR, 1)])),
    );
    let second = world.spawn(
        vec![ComponentValue { comp: BAR, value: 0 }],
        Some(Observers::new(vec![def(FOO, BAR, 10)])),
    );
    assert_eq!(world.queue_len(), 4);

    world.flush();

    assert_eq!(world.observer_count(), 2);
    assert_eq!(world.get_marker(first), None);
    assert_eq!(world.get_marker(second), None);
    // commands applied in enqueue order: the first entity's observers spawn
    // before the second's
    assert_eq!(world.observer_at(0).observer.target, first);
    assert_eq!(world.observer_at(1).observer.target, second);

    world.trigger(FOO, first);
    world.trigger(FOO, second);
    assert_eq!(world.get_data(first, BAR), Some(1));
    assert_eq!(world.get_data(second, BAR), Some(10));
}

#[test]
fn events_for_other_entities_are_ignored() {
    let mut world = World::new();
    let watched = world.spawn(
        vec![ComponentValue { comp: BAR, value: 0 }],
        Some(Observers::new(vec![def(FOO, BAR, 1)])),
    );
    world.flush();
    let other = world.spawn(vec![ComponentValue { comp: BAR, value: 0 }], None);

    world.trigger(FOO, other);

    assert_eq!(world.get_data(watched, BAR), Some(0));
    assert_eq!(world.get_data(other, BAR), Some(0));
}
