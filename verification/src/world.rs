//! Creating a body: one fresh entity with every component of a simulated
//! body attached. The component value types are the caller's (the
//! application attaches its numeric kinematic quantities); the wiring —
//! a fresh identifier, every store updated at exactly that identifier —
//! is what this module pins down.

use vstd::prelude::*;
use crate::entity::{Body, Entity, EntityStore};
use crate::store::CompStore;

verus! {

/// Creates one body entity and attaches its tag, mass, acceleration,
/// velocity and position. Returns the new entity; every store gains (or
/// overwrites) exactly the entry for that entity.
pub fn spawn_body<M, A, V, P>(
    ents: &mut EntityStore,
    bodies: &mut CompStore<Body>,
    masses: &mut CompStore<M>,
    accels: &mut CompStore<A>,
    vels: &mut CompStore<V>,
    positions: &mut CompStore<P>,
    mass: M,
    accel: A,
    vel: V,
    position: P,
) -> (e: Entity)
    requires
        old(ents).count() < usize::MAX,
    ensures
        e@ == old(ents).count(),
        final(ents).count() == old(ents).count() + 1,
        final(bodies)@ == old(bodies)@.insert(e@, Body),
        final(masses)@ == old(masses)@.insert(e@, mass),
        final(accels)@ == old(accels)@.insert(e@, accel),
        final(vels)@ == old(vels)@.insert(e@, vel),
        final(positions)@ == old(positions)@.insert(e@, position),
{
    let e = ents.create_entity();
    bodies.attach(&e, Body);
    masses.attach(&e, mass);
    accels.attach(&e, accel);
    vels.attach(&e, vel);
    positions.attach(&e, position);
    e
}

} // verus!
