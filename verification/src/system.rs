//! Systems, as the scheduler sees them: an ID and the resources and
//! components they read and write.

use crate::builder::Access;
use crate::ids::{ResourceId, SystemId};
use crate::mappings::{alloc_counter, alloc_entries, alloc_index, index_for_type, Mappings};
use std::any::TypeId;
use vstd::prelude::*;

verus! {

/// Returns the system ID allocated in `mappings` for the type `T`: the ID
/// `T` was given before, or the next ID if `T` is new.
pub fn system_id_for<T: 'static>(mappings: &mut Mappings<TypeId, SystemId>) -> (r: SystemId)
    requires
        old(mappings).wf(),
        old(mappings).allocated() < usize::MAX,
    ensures
        final(mappings).wf(),
        old(mappings).only_keyed() ==> final(mappings).only_keyed(),
        exists|key: TypeId|
            {
                &&& final(mappings)@ == alloc_entries(old(mappings)@, old(mappings).allocated(), key)
                &&& final(mappings).allocated() == alloc_counter(old(mappings)@, old(mappings).allocated(), key)
                &&& r.0 == alloc_index(old(mappings)@, old(mappings).allocated(), key)
            },
{
    index_for_type::<T, SystemId>(mappings)
}

/// The IDs in `ids`, as accesses to components (`component`) or to
/// resources.
pub open spec fn tagged(ids: Seq<ResourceId>, component: bool) -> Set<Access> {
    Set::new(
        |a: Access|
            match a {
                Access::Resource(r) => !component && ids.contains(r),
                Access::Component(c) => component && ids.contains(c),
            },
    )
}

/// The access to `id`, as a component (`component`) or as a resource.
pub open spec fn access_to(id: ResourceId, component: bool) -> Access {
    if component {
        Access::Component(id)
    } else {
        Access::Resource(id)
    }
}

/// What a system declares it accesses. Components are named by the resource
/// ID allocated for their type.
pub struct SystemAccess {
    pub id: SystemId,
    pub resource_reads: Vec<ResourceId>,
    pub resource_writes: Vec<ResourceId>,
    pub component_reads: Vec<ResourceId>,
    pub component_writes: Vec<ResourceId>,
}

impl SystemAccess {
    /// The accesses the system reads.
    pub open spec fn reads(&self) -> Set<Access> {
        tagged(self.resource_reads@, false).union(tagged(self.component_reads@, true))
    }

    /// The accesses the system writes.
    pub open spec fn writes(&self) -> Set<Access> {
        tagged(self.resource_writes@, false).union(tagged(self.component_writes@, true))
    }

    /// All resource IDs the system reads: its resources, then its components.
    pub open spec fn all_reads(&self) -> Seq<ResourceId> {
        self.resource_reads@ + self.component_reads@
    }

    /// All resource IDs the system writes: its resources, then its components.
    pub open spec fn all_writes(&self) -> Seq<ResourceId> {
        self.resource_writes@ + self.component_writes@
    }
}

/// Whether a system with accesses `a` conflicts with accesses already read
/// (`reads`) and written (`writes`): it reads something written, or writes
/// something read or written.
pub open spec fn conflicts(a: SystemAccess, reads: Set<Access>, writes: Set<Access>) -> bool {
    ||| exists|x: Access| a.reads().contains(x) && writes.contains(x)
    ||| exists|x: Access| a.writes().contains(x) && (reads.contains(x) || writes.contains(x))
}

} // verus!
