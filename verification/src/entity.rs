//! Entities: opaque unique identifiers, and the store that allocates them.

use vstd::prelude::*;

verus! {

/// Tag component marking an entity as a simulated body. It carries no data;
/// presence in a component store is the whole of its meaning.
#[derive(Clone, Copy, PartialEq, Eq, Structural)]
pub struct Body;

/// An opaque, unique identifier for one entity. Its view is the identifier
/// as a mathematical natural number.
#[derive(Clone, Copy, PartialEq, Eq, Structural, Hash)]
pub struct Entity {
    id: usize,
}

impl View for Entity {
    type V = nat;

    closed spec fn view(&self) -> nat {
        self.id as nat
    }
}

impl Entity {
    /// The numeric identifier, for callers outside the crate that index by it.
    pub fn id(&self) -> (r: usize)
        ensures
            r as nat == self@,
    {
        self.id
    }

    /// The entity with identifier `i`; identifiers are allocated densely
    /// from zero, so iteration by index reaches every live entity.
    pub(crate) fn from_index(i: usize) -> (e: Entity)
        ensures
            e@ == i as nat,
    {
        Entity { id: i }
    }
}

/// Allocates entity identifiers in order of creation and tracks the live set.
/// Entities are never destroyed during a run, so the live set is exactly the
/// identifiers below `count`.
pub struct EntityStore {
    next: usize,
}

impl EntityStore {
    /// How many entities have been created.
    pub closed spec fn count(&self) -> nat {
        self.next as nat
    }

    /// Whether `e` names an entity this store has created.
    pub open spec fn live(&self, e: nat) -> bool {
        e < self.count()
    }

    pub fn new() -> (r: Self)
        ensures
            r.count() == 0,
    {
        EntityStore { next: 0 }
    }

    /// Allocates a fresh entity: its identifier is the current count, which
    /// no earlier entity carries.
    pub fn create_entity(&mut self) -> (e: Entity)
        requires
            old(self).count() < usize::MAX,
        ensures
            e@ == old(self).count(),
            final(self).count() == old(self).count() + 1,
    {
        let e = Entity { id: self.next };
        self.next = self.next + 1;
        e
    }

    /// The number of live entities.
    pub fn len(&self) -> (r: usize)
        ensures
            r as nat == self.count(),
    {
        self.next
    }

    pub fn is_live(&self, e: &Entity) -> (r: bool)
        ensures
            r == self.live(e@),
    {
        e.id < self.next
    }

    /// The `i`-th entity, in order of creation.
    pub fn entity_at(&self, i: usize) -> (e: Entity)
        requires
            i < self.count(),
        ensures
            e@ == i as nat,
    {
        Entity { id: i }
    }
}

} // verus!
