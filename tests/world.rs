use ecs_world::access::{get, AccessMode, AccessRequest};
use ecs_world::archetype;
use ecs_world::chunk;
use ecs_world::component::{self, AnyComponent};
use ecs_world::entity::{EntityId, ENTITY_ID_UUID};
use ecs_world::system::call_system;
use ecs_world::world::{self, AddEntityError, World};

const SPEED: u128 = 0x2ac0c046_bf65_4857_9095_0137d418521c;
const POSITION: u128 = 0x2ac0c046_bf65_4857_9095_0137d418522c;
const HEALTH: u128 = 0x48aa0287_11c0_490c_bd8d_2bce62d9c6ed;

#[derive(Debug, Clone, Copy, PartialEq, Eq)]
struct Vec3 {
    x: u32,
    y: u32,
    z: u32,
}

#[derive(Debug, Clone, Copy, PartialEq, Eq)]
enum Comp {
    Position(Vec3),
    Speed(Vec3),
    Health(u32),
}

fn position(x: u32, y: u32, z: u32) -> AnyComponent<Comp> {
    AnyComponent { uuid: POSITION, value: Comp::Position(Vec3 { x, y, z }) }
}

fn speed(x: u32, y: u32, z: u32) -> AnyComponent<Comp> {
    AnyComponent { uuid: SPEED, value: Comp::Speed(Vec3 { x, y, z }) }
}

fn move_requests() -> Vec<AccessRequest> {
    vec![
        AccessRequest { uuid: ENTITY_ID_UUID, mode: AccessMode::Shared },
        AccessRequest { uuid: POSITION, mode: AccessMode::Exclusive },
        AccessRequest { uuid: SPEED, mode: AccessMode::Shared },
    ]
}

/// Moves every entity that has a speed and a position by its speed plus
/// `offset` on each axis; returns whether the system ran.
fn run_move_system(world: &mut World<Comp>, offset: u32) -> bool {
    let props = match call_system(world, &[SPEED, POSITION], &move_requests()) {
        Some(p) => p,
        None => return false,
    };
    for &a in props.archetypes.iter() {
        for row in 0..world.row_count(a) {
            let s = match world.get_component(a, SPEED, row) {
                Some(Comp::Speed(s)) => *s,
                other => panic!("unexpected speed {other:?}"),
            };
            let p = match world.get_component(a, POSITION, row) {
                Some(Comp::Position(p)) => *p,
                other => panic!("unexpected position {other:?}"),
            };
            let moved = Vec3 { x: p.x + s.x + offset, y: p.y + s.y + offset, z: p.z + s.z + offset };
            assert!(world.set_component(a, POSITION, row, Comp::Position(moved)));
        }
    }
    true
}

fn position_of(world: &World<Comp>, id: EntityId) -> Option<Vec3> {
    for a in 0..world.archetype_count() {
        for row in 0..world.row_count(a) {
            if world.entity_at(a, row) == Some(id) {
                return match world.get_component(a, POSITION, row) {
                    Some(Comp::Position(p)) => Some(*p),
                    _ => None,
                };
            }
        }
    }
    None
}

#[test]
fn base_base() {
    let mut world = world::new::<Comp>();
    let mut moving = Vec::new();
    for i in 0..2 {
        moving.push((i, world.add_entity(vec![position(0, 0, 0), speed(i, 2, 0)]).unwrap()));
    }
    let mut still = Vec::new();
    for _ in 0..2 {
        still.push(world.add_entity(vec![position(0, 0, 0)]).unwrap());
    }
    for i in 0..2 {
        world.add_entity(vec![speed(i, 2, 0)]).unwrap();
    }
    assert_eq!(world.archetype_count(), 3);

    assert!(run_move_system(&mut world, 5));
    assert!(run_move_system(&mut world, 2));

    for (i, id) in moving {
        assert_eq!(position_of(&world, id), Some(Vec3 { x: 2 * i + 7, y: 11, z: 7 }));
    }
    for id in still {
        assert_eq!(position_of(&world, id), Some(Vec3 { x: 0, y: 0, z: 0 }));
    }
}

#[test]
fn scenario_move_by_speed() {
    let mut world = world::new::<Comp>();
    let e1 = world.add_entity(vec![position(0, 0, 0), speed(1, 2, 0)]).unwrap();
    let e2 = world.add_entity(vec![position(0, 0, 0)]).unwrap();
    let matching = world.query_with(&[SPEED, POSITION]);
    assert_eq!(matching.len(), 1);
    assert_eq!(
        world.archetype(matching[0]).composition(),
        &{
            let mut k = vec![ENTITY_ID_UUID, SPEED, POSITION];
            k.sort();
            k
        }
    );
    assert!(run_move_system(&mut world, 0));
    assert_eq!(position_of(&world, e1), Some(Vec3 { x: 1, y: 2, z: 0 }));
    assert_eq!(position_of(&world, e2), Some(Vec3 { x: 0, y: 0, z: 0 }));
}

#[test]
fn ids_are_distinct() {
    let mut world = world::new::<Comp>();
    let mut ids = Vec::new();
    for i in 0..50 {
        ids.push(world.add_entity(vec![speed(i, 0, 0)]).unwrap());
    }
    for i in 0..ids.len() {
        for j in (i + 1)..ids.len() {
            assert_ne!(ids[i], ids[j]);
        }
    }
    for id in &ids {
        assert!(world.knows(*id));
    }
}

#[test]
fn duplicate_id_is_refused() {
    let mut world = world::new::<Comp>();
    let id = EntityId(7);
    assert_eq!(world.add_entity_with_id(id, vec![position(1, 1, 1)]), Ok(id));
    assert_eq!(
        world.add_entity_with_id(id, vec![speed(1, 1, 1)]),
        Err(AddEntityError::DuplicateEntityId)
    );
    assert_eq!(world.archetype_count(), 1);
    assert_eq!(world.row_count(0), 1);
}

#[test]
fn composition_query() {
    let mut world = world::new::<Comp>();
    world.add_entity_with_id(EntityId(1), vec![position(1, 2, 3), speed(4, 5, 6)]).unwrap();
    let both = world.query_with(&[POSITION, SPEED]);
    assert_eq!(both.len(), 1);
    let a = both[0];
    assert_eq!(world.entity_at(a, 0), Some(EntityId(1)));
    assert_eq!(world.get_component(a, POSITION, 0), Some(&Comp::Position(Vec3 { x: 1, y: 2, z: 3 })));
    assert_eq!(world.get_component(a, SPEED, 0), Some(&Comp::Speed(Vec3 { x: 4, y: 5, z: 6 })));
    assert!(world.query_with(&[HEALTH]).is_empty());
    assert!(world.query_with(&[POSITION, HEALTH]).is_empty());
    let by_filter = world.query(|arch: &archetype::Archetype| archetype::has(arch, SPEED));
    assert_eq!(by_filter, vec![a]);
}

#[test]
fn rows_stay_correlated() {
    let mut world = world::new::<Comp>();
    let mut ids = Vec::new();
    for i in 0..40u32 {
        let id = world
            .add_entity_with_id(EntityId(i as u128 + 100), vec![position(i, i, i), speed(i * 10, 0, 0)])
            .unwrap();
        ids.push(id);
    }
    let a = world.query_with(&[POSITION, SPEED])[0];
    assert_eq!(world.row_count(a), 40);
    for row in 0..40usize {
        let id = world.entity_at(a, row).unwrap();
        let i = (id.0 - 100) as u32;
        assert_eq!(world.get_component(a, POSITION, row), Some(&Comp::Position(Vec3 { x: i, y: i, z: i })));
        assert_eq!(world.get_component(a, SPEED, row), Some(&Comp::Speed(Vec3 { x: i * 10, y: 0, z: 0 })));
    }
}

#[test]
fn chunk_sealing() {
    let mut world = world::new::<Comp>();
    for i in 0..(chunk::CHUNK_CAPACITY as u32 + 1) {
        world.add_entity_with_id(EntityId(i as u128), vec![position(i, 0, 0), speed(0, i, 0)]).unwrap();
    }
    let a = world.query_with(&[POSITION, SPEED])[0];
    let arch = world.archetype(a);
    for t in [POSITION, SPEED] {
        let ids = archetype::chunk_ids(arch, t).unwrap().to_vec();
        assert_eq!(ids.len(), 2);
        let store = world.extract_components(t).unwrap();
        assert_eq!(store.chunk_count(), 2);
        let first = component::chunk(store, ids[0]).unwrap();
        let second = component::chunk(store, ids[1]).unwrap();
        assert_eq!(chunk::components(first).len(), chunk::CHUNK_CAPACITY);
        assert!(chunk::is_full_filled(first));
        assert_eq!(chunk::components(second).len(), 1);
        assert!(!chunk::is_full_filled(second));
    }
    let ids = archetype::chunk_ids(arch, ENTITY_ID_UUID).unwrap().to_vec();
    assert_eq!(ids.len(), 2);
    assert_eq!(chunk::components(component::chunk(world.entity_ids(), ids[1]).unwrap()), &[EntityId(32)]);
}

#[test]
fn skip_when_type_never_inserted() {
    let mut world = world::new::<Comp>();
    assert!(world.query_with(&[HEALTH]).is_empty());
    assert!(!run_move_system(&mut world, 1));
    world.add_entity(vec![position(0, 0, 0)]).unwrap();
    assert!(world.query_with(&[HEALTH]).is_empty());
    assert!(world.extract_components(HEALTH).is_none());
    assert_eq!(get(&world, &[AccessRequest { uuid: HEALTH, mode: AccessMode::Shared }]), None);
    assert!(!run_move_system(&mut world, 1));
    assert!(call_system(&world, &[POSITION], &[AccessRequest { uuid: SPEED, mode: AccessMode::Shared }]).is_none());
}

#[test]
fn first_value_of_a_type_wins_and_ids_are_reserved() {
    let mut world = world::new::<Comp>();
    let claimed = AnyComponent { uuid: ENTITY_ID_UUID, value: Comp::Health(1) };
    let id = world
        .add_entity_with_id(EntityId(9), vec![position(1, 1, 1), claimed, position(2, 2, 2)])
        .unwrap();
    assert_eq!(id, EntityId(9));
    let a = world.query_with(&[POSITION])[0];
    assert_eq!(world.archetype(a).composition().len(), 2);
    assert_eq!(world.get_component(a, POSITION, 0), Some(&Comp::Position(Vec3 { x: 1, y: 1, z: 1 })));
    assert_eq!(world.get_component(a, ENTITY_ID_UUID, 0), None);
    assert_eq!(world.entity_at(a, 0), Some(EntityId(9)));
}

#[test]
fn entity_without_components() {
    let mut world = world::new::<Comp>();
    world.add_entity(vec![]).unwrap();
    assert_eq!(world.archetype_count(), 1);
    assert!(archetype::is_empty(world.archetype(0)));
    assert_eq!(world.row_count(0), 1);
}

#[test]
fn set_outside_the_archetype_changes_nothing() {
    let mut world = world::new::<Comp>();
    world.add_entity_with_id(EntityId(3), vec![position(1, 1, 1)]).unwrap();
    assert!(!world.set_component(0, SPEED, 0, Comp::Speed(Vec3 { x: 1, y: 1, z: 1 })));
    assert!(!world.set_component(0, POSITION, 1, Comp::Position(Vec3 { x: 5, y: 5, z: 5 })));
    assert!(!world.set_component(0, ENTITY_ID_UUID, 0, Comp::Health(0)));
    assert_eq!(world.get_component(0, POSITION, 0), Some(&Comp::Position(Vec3 { x: 1, y: 1, z: 1 })));
}
