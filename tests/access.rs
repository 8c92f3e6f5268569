use std::sync::Arc;
use std::time::Duration;

use ecs_world::access::{get, AccessMode, AccessRequest};
use ecs_world::component::AnyComponent;
use ecs_world::world;

const A: u128 = 11;
const B: u128 = 22;

fn world_with_a_and_b() -> world::World<u8> {
    let mut w = world::new::<u8>();
    w.add_entity(vec![AnyComponent { uuid: B, value: 1 }, AnyComponent { uuid: A, value: 2 }]).unwrap();
    w
}

#[test]
fn plan_is_sorted_whatever_the_listing() {
    let w = world_with_a_and_b();
    let forward = get(&w, &[
        AccessRequest { uuid: A, mode: AccessMode::Exclusive },
        AccessRequest { uuid: B, mode: AccessMode::Shared },
    ])
    .unwrap();
    let backward = get(&w, &[
        AccessRequest { uuid: B, mode: AccessMode::Shared },
        AccessRequest { uuid: A, mode: AccessMode::Exclusive },
    ])
    .unwrap();
    assert_eq!(forward, backward);
    assert_eq!(forward, vec![
        AccessRequest { uuid: A, mode: AccessMode::Exclusive },
        AccessRequest { uuid: B, mode: AccessMode::Shared },
    ]);
}

#[test]
fn repeated_type_is_locked_once_in_the_strongest_mode() {
    let w = world_with_a_and_b();
    let plan = get(&w, &[
        AccessRequest { uuid: B, mode: AccessMode::Shared },
        AccessRequest { uuid: B, mode: AccessMode::Exclusive },
        AccessRequest { uuid: A, mode: AccessMode::Shared },
    ])
    .unwrap();
    assert_eq!(plan, vec![
        AccessRequest { uuid: A, mode: AccessMode::Shared },
        AccessRequest { uuid: B, mode: AccessMode::Exclusive },
    ]);
}

#[test]
fn opposite_orders_do_not_deadlock() {
    let w = world_with_a_and_b();
    let p1 = get(&w, &[
        AccessRequest { uuid: A, mode: AccessMode::Exclusive },
        AccessRequest { uuid: B, mode: AccessMode::Exclusive },
    ])
    .unwrap();
    let p2 = get(&w, &[
        AccessRequest { uuid: B, mode: AccessMode::Exclusive },
        AccessRequest { uuid: A, mode: AccessMode::Exclusive },
    ])
    .unwrap();
    let locks: Arc<Vec<(u128, tokio::sync::RwLock<u32>)>> =
        Arc::new(vec![(A, tokio::sync::RwLock::new(0)), (B, tokio::sync::RwLock::new(0))]);
    let rt = tokio::runtime::Runtime::new().unwrap();
    rt.block_on(async move {
        let mut tasks = Vec::new();
        for plan in [p1, p2] {
            let locks = locks.clone();
            tasks.push(tokio::spawn(async move {
                for _ in 0..200 {
                    let mut guards = Vec::new();
                    for req in &plan {
                        let lock = &locks.iter().find(|(u, _)| *u == req.uuid).unwrap().1;
                        guards.push(lock.write().await);
                        tokio::task::yield_now().await;
                    }
                    for g in guards.iter_mut() {
                        **g += 1;
                    }
                }
            }));
        }
        for t in tasks {
            tokio::time::timeout(Duration::from_secs(10), t).await.expect("deadlock").unwrap();
        }
    });
}
