//! Query resolution tests, including a comparison against a naive scan.

use xylux_ecs::{ComponentId, ComponentStorage, Entity, Query, World};

#[derive(Clone, Copy, Debug, PartialEq)]
struct Pair {
    kind: u8,
    value: i64,
}

fn position_id() -> ComponentId {
    ComponentId::of(10)
}

fn velocity_id() -> ComponentId {
    ComponentId::of(11)
}

fn zero(kind: u8) -> Pair {
    Pair { kind, value: 0 }
}

fn collect(query: &Query, world: &World<Pair>) -> Vec<Entity> {
    let mut iter = query.iter(world);
    let mut out = Vec::new();
    while let Some(e) = iter.next(world) {
        out.push(e);
    }
    out
}

#[test]
fn test_query_requires_every_kind() {
    // register Position and Velocity, give the entity only Position: the
    // two-kind query finds nothing, the one-kind query finds the entity
    let mut world: World<Pair> = World::new(10);
    world.register_component(position_id(), zero(0));
    world.register_component(velocity_id(), zero(1));

    let e = world.spawn_entity().unwrap();
    world.insert(e, position_id(), Pair { kind: 0, value: 7 }).unwrap();

    let both = Query::new(vec![position_id(), velocity_id()]);
    assert_eq!(collect(&both, &world).len(), 0);

    let position_only = Query::new(vec![position_id()]);
    let found = collect(&position_only, &world);
    assert_eq!(found.len(), 1);
    assert_eq!(found[0], e);
}

#[test]
fn test_query_unregistered_kind_is_empty() {
    let mut world: World<Pair> = World::new(10);
    world.register_component(position_id(), zero(0));
    let e = world.spawn_entity().unwrap();
    world.insert(e, position_id(), zero(0)).unwrap();

    // an unregistered kind in any position empties the result
    let leading = Query::new(vec![ComponentId::of(99), position_id()]);
    assert_eq!(collect(&leading, &world).len(), 0);
    let trailing = Query::new(vec![position_id(), ComponentId::of(99)]);
    assert_eq!(collect(&trailing, &world).len(), 0);
}

#[test]
fn test_empty_query_yields_every_live_entity() {
    let mut world: World<Pair> = World::new(10);
    let e1 = world.spawn_entity().unwrap();
    let e2 = world.spawn_entity().unwrap();
    let e3 = world.spawn_entity().unwrap();
    world.despawn_entity(e2);

    let all = Query::new(Vec::new());
    let found = collect(&all, &world);
    assert_eq!(found, vec![e1, e3]);
}

#[test]
fn test_query_skips_entities_despawned_mid_iteration() {
    let mut world: World<Pair> = World::new(10);
    world.register_component(position_id(), zero(0));
    let mut entities = Vec::new();
    for _ in 0..4 {
        let e = world.spawn_entity().unwrap();
        world.insert(e, position_id(), zero(0)).unwrap();
        entities.push(e);
    }

    let query = Query::new(vec![position_id()]);
    let mut iter = query.iter(&world);
    let first = iter.next(&world).unwrap();
    assert_eq!(first, entities[0]);
    // despawn a later entity while the iterator is live: the re-check at
    // yield time must skip it
    world.despawn_entity(entities[2]);
    assert_eq!(iter.next(&world).unwrap(), entities[1]);
    assert_eq!(iter.next(&world).unwrap(), entities[3]);
    assert_eq!(iter.next(&world), None);
}

#[test]
fn test_query_matches_naive_scan() {
    // drive the world through a pseudo-random insert/despawn history and
    // compare every query against a per-entity scan with has_component
    let mut world: World<Pair> = World::new(64);
    let mut live: Vec<Entity> = Vec::new();
    world.register_component(position_id(), zero(0));
    world.register_component(velocity_id(), zero(1));

    let mut state: u64 = 0x2545F4914F6CDD1D;
    let mut next = move || {
        state = state.wrapping_mul(6364136223846793005).wrapping_add(1442695040888963407);
        (state >> 33) as u32
    };

    for _ in 0..400 {
        match next() % 5 {
            0 => {
                if let Ok(e) = world.spawn_entity() {
                    live.push(e);
                }
            },
            1 => {
                if !live.is_empty() {
                    let idx = (next() as usize) % live.len();
                    let e = live.swap_remove(idx);
                    world.despawn_entity(e);
                }
            },
            2 => {
                if !live.is_empty() {
                    let idx = (next() as usize) % live.len();
                    world.insert(live[idx], position_id(), Pair { kind: 0, value: idx as i64 }).unwrap();
                }
            },
            _ => {
                if !live.is_empty() {
                    let idx = (next() as usize) % live.len();
                    world.insert(live[idx], velocity_id(), Pair { kind: 1, value: idx as i64 }).unwrap();
                }
            },
        }

        for ids in [
            vec![position_id()],
            vec![velocity_id()],
            vec![position_id(), velocity_id()],
        ] {
            let query = Query::new(ids.clone());
            let yielded = collect(&query, &world);
            let expected: Vec<Entity> = {
                let mut es: Vec<Entity> = live
                    .iter()
                    .copied()
                    .filter(|e| ids.iter().all(|cid| world.has_component(*e, *cid)))
                    .collect();
                es.sort_by_key(|e| e.id);
                es
            };
            assert_eq!(yielded, expected);
        }
    }
}

#[test]
fn test_storage_standalone() {
    let mut storage: ComponentStorage<Pair> = ComponentStorage::new(2, zero(0));
    assert!(!storage.has(0));
    storage.insert(0, Pair { kind: 0, value: 5 });
    assert!(storage.has(0));
    assert_eq!(*storage.get(0).unwrap(), Pair { kind: 0, value: 5 });

    // writing past the end grows the storage instead of failing
    storage.insert(7, Pair { kind: 0, value: 9 });
    assert!(storage.has(7));
    assert!(!storage.has(3));
    assert_eq!(*storage.get(7).unwrap(), Pair { kind: 0, value: 9 });

    match storage.get_mut(7) {
        Some(v) => v.value = 10,
        None => panic!("slot 7 should be present"),
    }
    assert_eq!(*storage.get(7).unwrap(), Pair { kind: 0, value: 10 });

    storage.remove(7);
    assert!(!storage.has(7));
    assert!(storage.get(7).is_none());
    // removing a slot past the end is tolerated
    storage.remove(100);
    assert!(storage.has(0));
}

#[test]
fn test_iterator_is_not_restartable() {
    let mut world: World<Pair> = World::new(4);
    world.register_component(position_id(), zero(0));
    let e = world.spawn_entity().unwrap();
    world.insert(e, position_id(), zero(0)).unwrap();

    let query = Query::new(vec![position_id()]);
    let mut iter = query.iter(&world);
    assert_eq!(iter.next(&world), Some(e));
    assert_eq!(iter.next(&world), None);
    // a consumed iterator stays consumed; a fresh one starts over
    assert_eq!(iter.next(&world), None);
    let mut fresh = query.iter(&world);
    assert_eq!(fresh.next(&world), Some(e));
}

#[test]
fn test_get_mut_misses_leave_world_intact() {
    let mut world: World<Pair> = World::new(4);
    world.register_component(position_id(), zero(0));
    let e = world.spawn_entity().unwrap();
    world.insert(e, position_id(), Pair { kind: 0, value: 1 }).unwrap();

    // wrong kind, unregistered kind, and stale handle all miss
    assert!(world.get_mut(e, velocity_id()).is_none());
    assert!(world.get_mut(e, ComponentId::of(99)).is_none());
    let stale = Entity { id: e.id, version: e.version + 1 };
    assert!(world.get_mut(stale, position_id()).is_none());
    assert_eq!(*world.get(e, position_id()).unwrap(), Pair { kind: 0, value: 1 });
}
