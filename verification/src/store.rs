//! Component stores: one per component type, each a mapping from entity to
//! value. Absence is a valid state; `attach` overwrites any prior value.

use vstd::prelude::*;
use crate::entity::Entity;

verus! {

/// Per-type component storage. The view is the mathematical map from entity
/// identifier to the stored value; identifiers without a value are absent
/// from the map.
pub struct CompStore<T> {
    slots: Vec<Option<T>>,
}

impl<T> View for CompStore<T> {
    type V = Map<nat, T>;

    closed spec fn view(&self) -> Map<nat, T> {
        Map::new(
            |i: nat| i < self.slots@.len() && self.slots@[i as int] is Some,
            |i: nat| self.slots@[i as int]->Some_0,
        )
    }
}

impl<T> CompStore<T> {
    pub fn new() -> (r: Self)
        ensures
            r@ == Map::<nat, T>::empty(),
    {
        let r = CompStore { slots: Vec::new() };
        proof {
            assert(r@ =~= Map::<nat, T>::empty());
        }
        r
    }

    /// Associates `v` with `e`, overwriting any prior value for `e`.
    pub fn attach(&mut self, e: &Entity, v: T)
        ensures
            final(self)@ == old(self)@.insert(e@, v),
    {
        let i = e.id();
        while self.slots.len() <= i
            invariant
                self@ == old(self)@,
            decreases i + 1 - self.slots.len(),
        {
            self.slots.push(None);
            proof {
                assert(self@ =~= old(self)@);
            }
        }
        self.slots.set(i, Some(v));
        proof {
            assert(self@ =~= old(self)@.insert(e@, v));
        }
    }

    /// Looks up the value attached to `e`, if any.
    pub fn get(&self, e: &Entity) -> (r: Option<&T>)
        ensures
            match r {
                Some(v) => self@.contains_key(e@) && *v == self@[e@],
                None => !self@.contains_key(e@),
            },
    {
        let i = e.id();
        if i < self.slots.len() {
            match &self.slots[i] {
                Some(v) => Some(v),
                None => None,
            }
        } else {
            None
        }
    }

    pub fn contains(&self, e: &Entity) -> (r: bool)
        ensures
            r == self@.contains_key(e@),
    {
        let i = e.id();
        i < self.slots.len() && self.slots[i].is_some()
    }
}

/// The identifiers below `upto` that are present in both `a` and `b`, in
/// ascending order: the join of two stores by entity identity.
pub open spec fn joined_ids<A, B>(a: Map<nat, A>, b: Map<nat, B>, upto: nat) -> Seq<nat>
    decreases upto,
{
    if upto == 0 {
        Seq::empty()
    } else {
        let prev = joined_ids(a, b, (upto - 1) as nat);
        if a.contains_key((upto - 1) as nat) && b.contains_key((upto - 1) as nat) {
            prev.push((upto - 1) as nat)
        } else {
            prev
        }
    }
}

/// Iterates entities `0 .. upto` and yields, in ascending identifier order,
/// each entity that has a value in both stores, together with those values.
pub fn join2<A: Copy, B: Copy>(a: &CompStore<A>, b: &CompStore<B>, upto: usize) -> (r: Vec<
    (Entity, A, B),
>)
    ensures
        r@.len() == joined_ids(a@, b@, upto as nat).len(),
        forall|k: int|
            0 <= k < r@.len() ==> {
                &&& (#[trigger] r@[k]).0@ == joined_ids(a@, b@, upto as nat)[k]
                &&& a@.contains_key(r@[k].0@)
                &&& b@.contains_key(r@[k].0@)
                &&& r@[k].1 == a@[r@[k].0@]
                &&& r@[k].2 == b@[r@[k].0@]
            },
{
    let mut r: Vec<(Entity, A, B)> = Vec::new();
    let mut i: usize = 0;
    while i < upto
        invariant
            i <= upto,
            r@.len() == joined_ids(a@, b@, i as nat).len(),
            forall|k: int|
                0 <= k < r@.len() ==> {
                    &&& (#[trigger] r@[k]).0@ == joined_ids(a@, b@, i as nat)[k]
                    &&& a@.contains_key(r@[k].0@)
                    &&& b@.contains_key(r@[k].0@)
                    &&& r@[k].1 == a@[r@[k].0@]
                    &&& r@[k].2 == b@[r@[k].0@]
                },
        decreases upto - i,
    {
        let e = Entity::from_index(i);
        let va = a.get(&e);
        let vb = b.get(&e);
        match (va, vb) {
            (Some(x), Some(y)) => {
                r.push((e, *x, *y));
            },
            _ => {},
        }
        proof {
            assert(joined_ids(a@, b@, (i + 1) as nat) == if a@.contains_key(i as nat)
                && b@.contains_key(i as nat) {
                joined_ids(a@, b@, i as nat).push(i as nat)
            } else {
                joined_ids(a@, b@, i as nat)
            });
        }
        i = i + 1;
    }
    r
}

} // verus!
