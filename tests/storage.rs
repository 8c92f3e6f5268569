use ecs_world::archetype;
use ecs_world::chunk;
use ecs_world::component::{self, AnyComponent, ComponentAddress, PushComponentAction, PushError};
use ecs_world::entity::ENTITY_ID_UUID;
use ecs_world::type_info::TypeInfo;

#[test]
fn chunk_push_and_seal() {
    let mut c = chunk::new_with_capacity::<u32>(2);
    assert!(!chunk::is_full_filled(&c));
    assert_eq!(chunk::push(&mut c, 10), 0);
    assert_eq!(chunk::push(&mut c, 20), 1);
    assert!(chunk::is_full_filled(&c));
    assert_eq!(chunk::components(&c), &[10, 20]);
    chunk::components_mut(&mut c)[1] = 21;
    assert_eq!(chunk::components(&c), &[10, 21]);
}

#[test]
fn store_push_errors() {
    let mut store = component::new::<u32>(5);
    assert_eq!(
        component::push_component(&mut store, AnyComponent { uuid: 6, value: 1 }, &[]),
        Err(PushError::InvalidComponentType { expected: TypeInfo::from_type(5) })
    );
    assert_eq!(
        component::push_component(&mut store, AnyComponent { uuid: 5, value: 1 }, &[3]),
        Err(PushError::InvalidChunkIndex { index: 3 })
    );
    assert_eq!(store.chunk_count(), 0);
}

#[test]
fn store_push_candidates() {
    let mut store = component::new::<u32>(5);
    let first = component::push_component(&mut store, AnyComponent { uuid: 5, value: 1 }, &[]).unwrap();
    assert_eq!(first, PushComponentAction::NewChunk { address: ComponentAddress { chunk_idx: 0, component_idx: 0 } });
    assert_eq!(component::chunk_idx(&ComponentAddress { chunk_idx: 0, component_idx: 0 }), 0);
    let second = component::push_component(&mut store, AnyComponent { uuid: 5, value: 2 }, &[0]).unwrap();
    assert_eq!(second, PushComponentAction::PushToChunk { address: ComponentAddress { chunk_idx: 0, component_idx: 1 } });
    for v in 3..=(chunk::CHUNK_CAPACITY as u32) {
        component::push_component(&mut store, AnyComponent { uuid: 5, value: v }, &[0]).unwrap();
    }
    let next = component::push_component(&mut store, AnyComponent { uuid: 5, value: 99 }, &[0]).unwrap();
    assert_eq!(next, PushComponentAction::NewChunk { address: ComponentAddress { chunk_idx: 1, component_idx: 0 } });
    let other = component::push_component(&mut store, AnyComponent { uuid: 5, value: 100 }, &[0, 1]).unwrap();
    assert_eq!(other, PushComponentAction::PushToChunk { address: ComponentAddress { chunk_idx: 1, component_idx: 1 } });
    assert_eq!(chunk::components(component::chunk(&store, 1).unwrap()), &[99, 100]);
    assert!(component::chunk(&store, 2).is_none());
    component::set_component(&mut store, 1, 0, 7);
    assert_eq!(chunk::components(component::chunk(&store, 1).unwrap()), &[7, 100]);
}

#[test]
fn archetype_bookkeeping() {
    let mut arch = archetype::new(vec![3, ENTITY_ID_UUID]);
    assert!(archetype::has(&arch, 3));
    assert!(!archetype::has(&arch, 4));
    assert!(archetype::has_all(&arch, &[3, ENTITY_ID_UUID]));
    assert_eq!(archetype::chunk_ids(&arch, 3), Some(&[][..]));
    assert_eq!(archetype::chunk_ids(&arch, 4), None);
    archetype::add_chunk_id(&mut arch, 3, 8);
    archetype::add_chunk_id(&mut arch, 4, 9);
    assert_eq!(archetype::chunk_ids(&arch, 3), Some(&[8][..]));
    assert_eq!(archetype::chunk_ids(&arch, 4), None);
    assert!(!archetype::is_empty(&arch));
    assert!(archetype::is_empty(&archetype::new_empty()));
}

#[test]
fn type_info_identity() {
    assert_eq!(TypeInfo::from_type(42).id, 42);
}
