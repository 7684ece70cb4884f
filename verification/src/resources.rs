//! Storing and loading of resources. Resource IDs are consecutive `usize`s,
//! so a vector of slots, indexed by the ID, holds the resources.

use crate::ids::ResourceId;
use crate::mappings::{alloc_counter, alloc_entries, alloc_index, index_for_type, Mappings};
use std::any::TypeId;
use vstd::prelude::*;

verus! {

/// A type which can be stored as a resource.
pub trait Resource: Send + Sync + 'static {}

impl<T: Send + Sync + 'static> Resource for T {}

/// Returns the resource ID allocated in `mappings` for the type `T`: the ID
/// `T` was given before, or the next ID if `T` is new.
pub fn resource_id_for<T: Resource>(mappings: &mut Mappings<TypeId, ResourceId>) -> (r: ResourceId)
    requires
        old(mappings).wf(),
        old(mappings).allocated() < usize::MAX,
    ensures
        final(mappings).wf(),
        old(mappings).only_keyed() ==> final(mappings).only_keyed(),
        exists|key: TypeId|
            {
                &&& final(mappings)@ == alloc_entries(old(mappings)@, old(mappings).allocated(), key)
                &&& final(mappings).allocated() == alloc_counter(old(mappings)@, old(mappings).allocated(), key)
                &&& r.0 == alloc_index(old(mappings)@, old(mappings).allocated(), key)
            },
{
    index_for_type::<T, ResourceId>(mappings)
}

/// The slot `id` of `slots`, or `None` past the end.
pub open spec fn lookup<R>(slots: Seq<Option<R>>, id: ResourceId) -> Option<R> {
    if id.0 < slots.len() {
        slots[id.0 as int]
    } else {
        None
    }
}

/// `slots` grown with empty slots so that `id` is one of them.
pub open spec fn extended<R>(slots: Seq<Option<R>>, id: ResourceId) -> Seq<Option<R>> {
    if id.0 < slots.len() {
        slots
    } else {
        slots + Seq::new((id.0 + 1 - slots.len()) as nat, |i: int| None::<R>)
    }
}

/// The slots after inserting `value` under `id`.
pub open spec fn with_resource<R>(slots: Seq<Option<R>>, id: ResourceId, value: R) -> Seq<Option<R>> {
    extended(slots, id).update(id.0 as int, Some(value))
}

/// The slots after inserting `value` under `id` only where `id` is empty.
pub open spec fn with_resource_if_absent<R>(slots: Seq<Option<R>>, id: ResourceId, value: R) -> Seq<Option<R>> {
    if lookup(slots, id) is Some {
        extended(slots, id)
    } else {
        with_resource(slots, id, value)
    }
}

/// Stores resources, each in the slot of its `ResourceId`.
pub struct Resources<R> {
    /// Stored resources, accessed by the `ResourceId` index.
    resources: Vec<Option<R>>,
}

impl<R> Resources<R> {
    /// The slots, indexed by resource ID.
    pub closed spec fn view(&self) -> Seq<Option<R>> {
        self.resources@
    }

    /// Whether a resource is stored under `id`.
    pub open spec fn contains(&self, id: ResourceId) -> bool {
        lookup(self@, id) is Some
    }

    /// Creates an empty resource container.
    pub fn new() -> (r: Self)
        ensures
            r@ == Seq::<Option<R>>::empty(),
    {
        Resources { resources: Vec::new() }
    }

    /// Whether a resource is stored under `id`.
    pub fn has(&self, id: ResourceId) -> (r: bool)
        ensures
            r == self.contains(id),
    {
        id.0 < self.resources.len() && self.resources[id.0].is_some()
    }

    /// Returns a reference to the resource with the given ID.
    pub fn get(&self, id: ResourceId) -> (r: &R)
        requires
            self.contains(id),
        ensures
            Some(*r) == lookup(self@, id),
    {
        self.resources[id.0].as_ref().unwrap()
    }

    /// Returns a mutable reference to the resource with the given ID.
    pub fn get_mut(&mut self, id: ResourceId) -> (r: &mut R)
        requires
            old(self).contains(id),
        ensures
            Some(*r) == lookup(old(self)@, id),
            final(self)@ == old(self)@.update(id.0 as int, Some(*final(r))),
    {
        self.resources[id.0].as_mut().unwrap()
    }

    /// Inserts a resource under the given ID, replacing the old resource if
    /// it exists.
    pub fn insert(&mut self, id: ResourceId, value: R)
        requires
            id.0 < usize::MAX,
        ensures
            final(self)@ == with_resource(old(self)@, id, value),
    {
        self.extend_to(id);
        self.resources.set(id.0, Some(value));
    }

    /// Inserts a resource under the given ID if none is stored there.
    pub fn insert_if_absent(&mut self, id: ResourceId, value: R)
        requires
            id.0 < usize::MAX,
        ensures
            final(self)@ == with_resource_if_absent(old(self)@, id, value),
    {
        self.extend_to(id);
        if self.resources[id.0].is_some() {
            return;
        }
        self.resources.set(id.0, Some(value));
    }

    /// Grows the slots with empty ones so that `id` is a slot.
    fn extend_to(&mut self, id: ResourceId)
        requires
            id.0 < usize::MAX,
        ensures
            final(self)@ == extended(old(self)@, id),
    {
        let ghost start = self.resources@;
        if self.resources.len() <= id.0 {
            while self.resources.len() <= id.0
                invariant
                    start.len() <= id.0,
                    start.len() <= self.resources@.len() <= id.0 + 1,
                    self.resources@ =~= start + Seq::new(
                        (self.resources@.len() - start.len()) as nat,
                        |i: int| None::<R>,
                    ),
                decreases id.0 + 1 - self.resources@.len(),
            {
                self.resources.push(None);
            }
        }
        proof {
            if start.len() <= id.0 {
                assert(self.resources@ =~= extended(start, id));
            }
        }
    }
}

impl<R> Default for Resources<R> {
    fn default() -> (r: Self)
        ensures
            r@ == Seq::<Option<R>>::empty(),
    {
        Self::new()
    }
}

/// A resource read after it was inserted is the value inserted.
pub proof fn lemma_get_after_insert<R>(slots: Seq<Option<R>>, id: ResourceId, value: R)
    requires
        id.0 < usize::MAX,
    ensures
        lookup(with_resource(slots, id, value), id) == Some(value),
{
}

/// Inserting under one ID leaves the resource under every other ID as it was.
pub proof fn lemma_insert_keeps_others<R>(slots: Seq<Option<R>>, id: ResourceId, value: R, other: ResourceId)
    requires
        id.0 < usize::MAX,
        other != id,
    ensures
        lookup(with_resource(slots, id, value), other) == lookup(slots, other),
{
}

/// Inserting where a resource is already stored changes no resource; inserting
/// where none is stored acts as `insert`.
pub proof fn lemma_insert_if_absent<R>(slots: Seq<Option<R>>, id: ResourceId, value: R, other: ResourceId)
    requires
        id.0 < usize::MAX,
    ensures
        lookup(slots, id) is Some ==> lookup(with_resource_if_absent(slots, id, value), other) == lookup(slots, other),
        lookup(slots, id) is None ==> with_resource_if_absent(slots, id, value) == with_resource(slots, id, value),
{
}

} // verus!
