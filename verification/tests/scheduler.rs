use coro_engine::engine::{
    damage_entity, dispatch_events, set_velocity, update_coroutines, Coroutine, CoroutineStorage,
    EventSystem, GameEvent, GameWorld, InputAction,
};

fn entity_of(world: &GameWorld, id: u32) -> coro_engine::engine::Entity {
    for (eid, e) in &world.entities {
        if *eid == id {
            return *e;
        }
    }
    panic!("entity {} not found", id);
}

#[test]
fn event_registration_and_unregistration() {
    let mut ev = EventSystem::new();
    let e = GameEvent::PlayerInput(InputAction::Attack);
    ev.register_listener(e, 7);
    ev.register_listener(e, 9);
    ev.register_listener(e, 7); // idempotent
    let ids = ev.get_waiting_coroutines(&e).unwrap().clone();
    assert_eq!(ids.len(), 2);
    assert!(ids.contains(&7) && ids.contains(&9));
    ev.unregister_listener(&e, 7);
    let ids = ev.get_waiting_coroutines(&e).unwrap().clone();
    assert!(!ids.contains(&7) && ids.contains(&9));
    // unregistering an absent id is a no-op
    ev.unregister_listener(&e, 42);
    assert_eq!(ev.get_waiting_coroutines(&e).unwrap().len(), 1);
}

#[test]
fn fired_queue_and_clear() {
    let mut ev = EventSystem::new();
    let e = GameEvent::EntityDied(3);
    assert!(!ev.fired_contains(&e));
    ev.fire_event(e);
    assert!(ev.fired_contains(&e));
    ev.clear_fired();
    assert!(!ev.fired_contains(&e));
}

#[test]
fn dispatch_wakes_registered_tasks() {
    // P5, first half: firing E during a tick wakes every task registered on E
    // at the start of that tick's dispatch.
    let mut world = GameWorld::new();
    let mut coros = CoroutineStorage::new();
    let e = GameEvent::PlayerInput(InputAction::MoveUp);
    let id = coros.spawn_coroutine(Coroutine::WaitForEvent { event: e, registered: false });
    update_coroutines(&mut coros, &mut world); // registers, suspends
    assert!(coros.slots[id as usize].live);
    assert!(!coros.slots[id as usize].needs_poll);

    world.events.fire_event(e);
    dispatch_events(&mut coros, &mut world.events);
    assert!(coros.slots[id as usize].needs_poll);
}

#[test]
fn registering_mid_tick_is_not_woken_same_tick() {
    // P5, second half: a task that registers on E during tick N's own
    // resumption is not woken until a later dispatch.
    let mut world = GameWorld::new();
    let mut coros = CoroutineStorage::new();
    let e = GameEvent::PlayerInput(InputAction::MoveUp);
    // the waiter has the smaller id, so it is resumed before the firer
    let waiter = coros.spawn_coroutine(Coroutine::WaitForEvent { event: e, registered: false });
    let firer = coros.spawn_coroutine(Coroutine::FireEvent { event: e });
    update_coroutines(&mut coros, &mut world);
    // the firer completed; the waiter registered before E was fired and was
    // not woken during the same tick
    assert!(!coros.slots[firer as usize].live);
    assert!(coros.slots[waiter as usize].live);
    assert!(!coros.slots[waiter as usize].needs_poll);
    assert!(world.events.fired_contains(&e));
}

#[test]
fn same_tick_observation() {
    // A task that registers while this tick's earlier resumptions already
    // fired E observes E at once and completes.
    let mut world = GameWorld::new();
    let mut coros = CoroutineStorage::new();
    let e = GameEvent::AttackHit { attacker: 1, target: 2, damage: 5 };
    let firer = coros.spawn_coroutine(Coroutine::FireEvent { event: e });
    let waiter = coros.spawn_coroutine(Coroutine::WaitForEvent { event: e, registered: false });
    update_coroutines(&mut coros, &mut world);
    assert!(!coros.slots[firer as usize].live);
    assert!(!coros.slots[waiter as usize].live);
}

#[test]
fn run_to_completion_removed_after_one_resume() {
    // P6: a computation that completes without suspending is removed from the
    // registry after exactly one resume.
    let mut world = GameWorld::new();
    let mut coros = CoroutineStorage::new();
    let id = coros.spawn_coroutine(Coroutine::Noop);
    assert!(coros.slots[id as usize].live);
    update_coroutines(&mut coros, &mut world);
    assert!(!coros.slots[id as usize].live);
    assert!(coros.slots[id as usize].coroutine.is_none());
}

#[test]
fn wait_for_event_never_sees_a_second_firing() {
    // P7, the preserved defect: the movement task unregisters on its first
    // match and suspends forever, so later firings change nothing.
    let mut world = GameWorld::new();
    let mut coros = CoroutineStorage::new();
    world.spawn_entity(0, 0, 0);
    let e = GameEvent::PlayerInput(InputAction::MoveUp);
    coros.spawn_coroutine(Coroutine::FireEvent { event: e });
    let mover = coros.spawn_coroutine(Coroutine::PlayerMovement {
        player: 0,
        registered: false,
        stalled: false,
    });
    update_coroutines(&mut coros, &mut world);
    // first firing observed: velocity set
    assert_eq!(entity_of(&world, 0).velocity, (0, 5));
    assert!(coros.slots[mover as usize].live);

    // disturb the velocity, fire again: the mover is stalled and never resets it
    set_velocity(&mut world, 0, 9, 9);
    world.events.fire_event(e);
    update_coroutines(&mut coros, &mut world);
    update_coroutines(&mut coros, &mut world);
    assert_eq!(entity_of(&world, 0).velocity, (9, 9));
    assert!(coros.slots[mover as usize].live);
}

#[test]
fn damage_fires_death_event() {
    let mut world = GameWorld::new();
    world.spawn_entity(4, 1, 2);
    assert_eq!(entity_of(&world, 4).health, 100);
    damage_entity(&mut world, 4, 30);
    assert_eq!(entity_of(&world, 4).health, 70);
    assert!(!world.events.fired_contains(&GameEvent::EntityDied(4)));
    damage_entity(&mut world, 4, 90);
    assert_eq!(entity_of(&world, 4).health, -20);
    assert!(world.events.fired_contains(&GameEvent::EntityDied(4)));
}

#[test]
fn damage_through_a_task() {
    let mut world = GameWorld::new();
    let mut coros = CoroutineStorage::new();
    world.spawn_entity(2, 0, 0);
    let id = coros.spawn_coroutine(Coroutine::DamageEntity { target: 2, amount: 150 });
    update_coroutines(&mut coros, &mut world);
    assert!(!coros.slots[id as usize].live);
    assert_eq!(entity_of(&world, 2).health, -50);
    assert!(world.events.fired_contains(&GameEvent::EntityDied(2)));
}

#[test]
fn wake_unknown_id_is_a_no_op() {
    let mut coros = CoroutineStorage::new();
    let id = coros.spawn_coroutine(Coroutine::Noop);
    coros.wake_coroutine(99);
    assert_eq!(coros.slots.len(), 1);
    assert!(coros.slots[id as usize].needs_poll);
}

#[test]
fn fork_spawns_a_task_for_the_next_tick() {
    let mut world = GameWorld::new();
    let mut coros = CoroutineStorage::new();
    let parent = coros.spawn_coroutine(Coroutine::Fork { child: Box::new(Coroutine::Noop) });
    update_coroutines(&mut coros, &mut world);
    assert!(!coros.slots[parent as usize].live);
    assert_eq!(coros.slots.len(), 2);
    assert!(coros.slots[1].live);
    update_coroutines(&mut coros, &mut world);
    assert!(!coros.slots[1].live);
}

#[test]
fn spawn_boxed_assigns_monotonic_ids() {
    let mut coros = CoroutineStorage::new();
    let a = coros.spawn_boxed_coroutine(Box::new(Coroutine::Noop));
    let b = coros.spawn_coroutine(Coroutine::Noop);
    assert_eq!(a, 0);
    assert_eq!(b, 1);
}

#[test]
fn one_fire_wakes_every_registered_task() {
    // P5: every task registered on E at the start of dispatch is woken
    let mut world = GameWorld::new();
    let mut coros = CoroutineStorage::new();
    let e = GameEvent::EntityDied(7);
    let ids: Vec<u32> = (0..3)
        .map(|_| coros.spawn_coroutine(Coroutine::WaitForEvent { event: e, registered: false }))
        .collect();
    update_coroutines(&mut coros, &mut world); // all three register and suspend
    for id in &ids {
        assert!(coros.slots[*id as usize].live);
        assert!(!coros.slots[*id as usize].needs_poll);
    }
    world.events.fire_event(e);
    dispatch_events(&mut coros, &mut world.events);
    for id in &ids {
        assert!(coros.slots[*id as usize].needs_poll);
    }
}
