use nbody::entity::{Body, EntityStore};
use nbody::store::{join2, CompStore};
use nbody::world::spawn_body;

#[test]
fn entities_are_allocated_in_order() {
    let mut ents = EntityStore::new();
    let a = ents.create_entity();
    let b = ents.create_entity();
    let c = ents.create_entity();
    assert_eq!(a.id(), 0);
    assert_eq!(b.id(), 1);
    assert_eq!(c.id(), 2);
    assert_eq!(ents.len(), 3);
    assert!(ents.is_live(&a));
    assert!(ents.is_live(&c));
    assert_eq!(ents.entity_at(1).id(), 1);
}

#[test]
fn attach_get_and_overwrite() {
    let mut ents = EntityStore::new();
    let a = ents.create_entity();
    let b = ents.create_entity();
    let mut masses: CompStore<u64> = CompStore::new();
    assert!(masses.get(&a).is_none());
    masses.attach(&a, 5);
    assert_eq!(masses.get(&a), Some(&5));
    assert!(masses.get(&b).is_none());
    masses.attach(&a, 7);
    assert_eq!(masses.get(&a), Some(&7));
    assert!(masses.contains(&a));
    assert!(!masses.contains(&b));
}

#[test]
fn absence_is_a_valid_state() {
    let mut ents = EntityStore::new();
    let a = ents.create_entity();
    let b = ents.create_entity();
    let c = ents.create_entity();
    let mut vals: CompStore<i64> = CompStore::new();
    vals.attach(&a, -1);
    vals.attach(&c, 9);
    assert_eq!(vals.get(&a), Some(&-1));
    assert!(vals.get(&b).is_none());
    assert_eq!(vals.get(&c), Some(&9));
}

#[test]
fn join_pairs_entities_present_in_both_stores() {
    let mut ents = EntityStore::new();
    let a = ents.create_entity();
    let b = ents.create_entity();
    let c = ents.create_entity();
    let mut left: CompStore<u32> = CompStore::new();
    let mut right: CompStore<u32> = CompStore::new();
    left.attach(&a, 10);
    left.attach(&c, 30);
    right.attach(&a, 100);
    right.attach(&b, 200);
    right.attach(&c, 300);
    let joined = join2(&left, &right, ents.len());
    assert_eq!(joined.len(), 2);
    assert_eq!(joined[0].0.id(), 0);
    assert_eq!(joined[0].1, 10);
    assert_eq!(joined[0].2, 100);
    assert_eq!(joined[1].0.id(), 2);
    assert_eq!(joined[1].1, 30);
    assert_eq!(joined[1].2, 300);
}

#[test]
fn join_of_empty_stores_is_empty() {
    let left: CompStore<u32> = CompStore::new();
    let right: CompStore<u32> = CompStore::new();
    let joined = join2(&left, &right, 0);
    assert_eq!(joined.len(), 0);
    let joined_wide = join2(&left, &right, 100);
    assert_eq!(joined_wide.len(), 0);
}

#[test]
fn spawned_body_has_every_component() {
    let mut ents = EntityStore::new();
    let mut bodies: CompStore<Body> = CompStore::new();
    let mut masses: CompStore<i32> = CompStore::new();
    let mut accels: CompStore<i32> = CompStore::new();
    let mut vels: CompStore<i32> = CompStore::new();
    let mut positions: CompStore<i32> = CompStore::new();
    let e = spawn_body(
        &mut ents,
        &mut bodies,
        &mut masses,
        &mut accels,
        &mut vels,
        &mut positions,
        3,
        0,
        -2,
        14,
    );
    assert_eq!(e.id(), 0);
    assert_eq!(ents.len(), 1);
    assert!(bodies.contains(&e));
    assert_eq!(masses.get(&e), Some(&3));
    assert_eq!(accels.get(&e), Some(&0));
    assert_eq!(vels.get(&e), Some(&-2));
    assert_eq!(positions.get(&e), Some(&14));
}
