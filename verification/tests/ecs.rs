//! Entity lifecycle and component round-trip tests.

use xylux_ecs::{ComponentId, EcsError, Entity, Query, World};

/// One payload type carrying every component kind the tests use.
#[derive(Clone, Copy, Debug, PartialEq)]
enum Comp {
    Transform { pos: [f32; 3], rot: [f32; 4] },
    Velocity([f32; 3]),
    Tag(u32),
}

fn transform_id() -> ComponentId {
    ComponentId::of(1)
}

fn velocity_id() -> ComponentId {
    ComponentId::of(2)
}

fn tag_id() -> ComponentId {
    ComponentId::of(3)
}

fn zero_transform() -> Comp {
    Comp::Transform { pos: [0.0; 3], rot: [0.0, 0.0, 0.0, 1.0] }
}

fn zero_velocity() -> Comp {
    Comp::Velocity([0.0; 3])
}

fn collect(query: &Query, world: &World<Comp>) -> Vec<Entity> {
    let mut iter = query.iter(world);
    let mut out = Vec::new();
    while let Some(e) = iter.next(world) {
        out.push(e);
    }
    out
}

#[test]
fn test_spawn_and_query_mut() {
    let mut world: World<Comp> = World::new(1000);
    world.register_component(transform_id(), zero_transform());
    world.register_component(velocity_id(), zero_velocity());

    let entity = world.spawn_entity().unwrap();

    world
        .insert(
            entity,
            transform_id(),
            Comp::Transform { pos: [1.0, 2.0, 3.0], rot: [0.0, 0.0, 0.0, 1.0] },
        )
        .unwrap();
    world.insert(entity, velocity_id(), Comp::Velocity([0.1, 0.2, 0.3])).unwrap();

    let query = Query::new(vec![transform_id(), velocity_id()]);
    let mut found = false;
    for e in collect(&query, &world) {
        match *world.get(e, transform_id()).unwrap() {
            Comp::Transform { pos, .. } => assert_eq!(pos, [1.0, 2.0, 3.0]),
            _ => panic!("wrong component kind"),
        }
        match *world.get(e, velocity_id()).unwrap() {
            Comp::Velocity(v) => assert_eq!(v, [0.1, 0.2, 0.3]),
            _ => panic!("wrong component kind"),
        }
        match world.get_mut(e, velocity_id()).unwrap() {
            Comp::Velocity(v) => {
                v[0] += 0.1;
                v[1] += 0.1;
                v[2] += 0.1;
            },
            _ => panic!("wrong component kind"),
        }
        found = true;
    }
    assert!(found, "La query no encontró la entidad");

    let query_check = Query::new(vec![transform_id(), velocity_id()]);
    let results = collect(&query_check, &world);
    match *world.get(results[0], velocity_id()).unwrap() {
        Comp::Velocity(v) => assert_eq!(v, [0.2, 0.3, 0.4]),
        _ => panic!("wrong component kind"),
    }
}

#[test]
fn test_despawn_and_recycle() {
    let mut world: World<Comp> = World::new(10);
    world.register_component(tag_id(), Comp::Tag(0));

    let e1 = world.spawn_entity().unwrap();
    world.insert(e1, tag_id(), Comp::Tag(1)).unwrap();
    let e2 = world.spawn_entity().unwrap();
    world.insert(e2, tag_id(), Comp::Tag(2)).unwrap();

    let tag_query = Query::new(vec![tag_id()]);
    assert_eq!(collect(&tag_query, &world).len(), 2);

    world.despawn_entity(e1);
    assert!(!world.is_alive(e1));

    let results = collect(&tag_query, &world);
    assert_eq!(results.len(), 1);
    assert_eq!(*world.get(results[0], tag_id()).unwrap(), Comp::Tag(2));

    let e3 = world.spawn_entity().unwrap();
    assert_eq!(e1.id, e3.id);
    assert_ne!(e1.version, e3.version);

    world.insert(e3, tag_id(), Comp::Tag(3)).unwrap();
    assert_eq!(collect(&tag_query, &world).len(), 2);
}

#[test]
fn test_query_with_entity() {
    let mut world: World<Comp> = World::new(10);
    world.register_component(transform_id(), zero_transform());

    let e1 = world.spawn_entity().unwrap();
    world.insert(e1, transform_id(), zero_transform()).unwrap();
    let e2 = world.spawn_entity().unwrap();
    world.insert(e2, transform_id(), zero_transform()).unwrap();

    let query = Query::new(vec![transform_id()]);
    let mut results = collect(&query, &world);
    results.sort_by_key(|e| e.id);

    assert_eq!(results.len(), 2);
    assert_eq!(results[0], e1);
    assert_eq!(results[1], e2);
}

#[test]
fn test_capacity_scenario() {
    // capacity 10: ten spawns fill slots 0 through 9, the eleventh fails,
    // and despawning slot 3 makes exactly that slot come back with the
    // version bumped by one
    let mut world: World<Comp> = World::new(10);
    let mut spawned = Vec::new();
    for i in 0..10 {
        let e = world.spawn_entity().unwrap();
        assert_eq!(e.id, i);
        spawned.push(e);
    }
    assert_eq!(world.spawn_entity(), Err(EcsError::CapacityExhausted));
    assert_eq!(world.entity_count(), 10);
    assert_eq!(world.capacity(), 10);

    let victim = spawned[3];
    let old_version = victim.version;
    world.despawn_entity(victim);
    let recycled = world.spawn_entity().unwrap();
    assert_eq!(recycled.id, 3);
    assert_eq!(recycled.version, old_version + 1);
    assert!(!world.is_alive(victim));
    assert!(world.is_alive(recycled));
}

#[test]
fn test_insert_error_variants() {
    let mut world: World<Comp> = World::new(4);
    world.register_component(tag_id(), Comp::Tag(0));

    let e = world.spawn_entity().unwrap();
    assert_eq!(world.insert(e, velocity_id(), zero_velocity()), Err(EcsError::UnregisteredComponent));

    world.despawn_entity(e);
    assert_eq!(world.insert(e, tag_id(), Comp::Tag(1)), Err(EcsError::InvalidEntity));
}

#[test]
fn test_register_component_idempotent() {
    let mut world: World<Comp> = World::new(4);
    world.register_component(tag_id(), Comp::Tag(0));
    let e = world.spawn_entity().unwrap();
    world.insert(e, tag_id(), Comp::Tag(9)).unwrap();
    // a second registration must not reset the existing storage
    world.register_component(tag_id(), Comp::Tag(0));
    assert_eq!(*world.get(e, tag_id()).unwrap(), Comp::Tag(9));
}

#[test]
fn test_despawn_clears_all_components() {
    let mut world: World<Comp> = World::new(8);
    world.register_component(transform_id(), zero_transform());
    world.register_component(velocity_id(), zero_velocity());

    let e = world.spawn_entity().unwrap();
    world.insert(e, transform_id(), zero_transform()).unwrap();
    world.insert(e, velocity_id(), Comp::Velocity([1.0, 0.0, 0.0])).unwrap();
    assert!(world.has_component(e, transform_id()));
    assert!(world.has_component(e, velocity_id()));

    world.despawn_entity(e);
    assert!(world.get(e, transform_id()).is_none());
    assert!(world.get(e, velocity_id()).is_none());
    assert!(!world.has_component(e, transform_id()));
    assert!(!world.has_component(e, velocity_id()));

    // the slot's next occupant starts with no components
    let e2 = world.spawn_entity().unwrap();
    assert_eq!(e2.id, e.id);
    assert!(world.get(e2, transform_id()).is_none());
    assert!(world.get(e2, velocity_id()).is_none());
}

#[test]
fn test_despawn_stale_handle_is_noop() {
    let mut world: World<Comp> = World::new(4);
    let e = world.spawn_entity().unwrap();
    world.despawn_entity(e);
    let e2 = world.spawn_entity().unwrap();
    // the stale handle no longer matches; despawning it again changes nothing
    world.despawn_entity(e);
    assert!(world.is_alive(e2));
    assert_eq!(world.entity_version(e.id), e2.version);
}

#[test]
fn test_stale_handle_stays_dead_after_recycle() {
    let mut world: World<Comp> = World::new(4);
    world.register_component(tag_id(), Comp::Tag(0));
    let e = world.spawn_entity().unwrap();
    world.despawn_entity(e);
    let e2 = world.spawn_entity().unwrap();
    world.insert(e2, tag_id(), Comp::Tag(5)).unwrap();
    // the recycled slot holds data again, but the old handle sees none of it
    assert!(!world.is_alive(e));
    assert!(world.get(e, tag_id()).is_none());
    assert_eq!(*world.get(e2, tag_id()).unwrap(), Comp::Tag(5));
}

#[test]
fn test_entities_with_component_sorted() {
    let mut world: World<Comp> = World::new(8);
    world.register_component(tag_id(), Comp::Tag(0));
    let mut tagged = Vec::new();
    for i in 0..6 {
        let e = world.spawn_entity().unwrap();
        if i % 2 == 0 {
            world.insert(e, tag_id(), Comp::Tag(i as u32)).unwrap();
            tagged.push(e);
        }
    }
    let listed = world.entities_with_component(tag_id()).unwrap();
    assert_eq!(listed, tagged);
    assert!(world.entities_with_component(velocity_id()).is_none());
}

#[test]
fn test_entity_version_tracks_despawns() {
    let mut world: World<Comp> = World::new(2);
    let e = world.spawn_entity().unwrap();
    assert_eq!(world.entity_version(e.id), 0);
    world.despawn_entity(e);
    assert_eq!(world.entity_version(e.id), 1);
    let e2 = world.spawn_entity().unwrap();
    world.despawn_entity(e2);
    assert_eq!(world.entity_version(e.id), 2);
}
