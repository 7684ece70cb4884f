//! Which components a system may access through its prepared world.

use crate::collections::{type_set_contains, type_set_insert, type_set_items, type_set_new, TypeSet};
use std::any::TypeId;
use vstd::prelude::*;

verus! {

/// The component types a system may read and write through its prepared
/// world: those its queries declare. A component type is named by its
/// `TypeId`.
pub struct ComponentAccess {
    read_components: TypeSet,
    write_components: TypeSet,
}

impl ComponentAccess {
    /// The component types that may be read.
    pub closed spec fn reads(&self) -> Set<TypeId> {
        type_set_items(self.read_components)
    }

    /// The component types that may be written.
    pub closed spec fn writes(&self) -> Set<TypeId> {
        type_set_items(self.write_components)
    }

    /// No component may be accessed.
    pub fn new() -> (r: Self)
        ensures
            r.reads() == Set::<TypeId>::empty(),
            r.writes() == Set::<TypeId>::empty(),
    {
        ComponentAccess { read_components: type_set_new(), write_components: type_set_new() }
    }

    /// Grants the accesses of a system's queries: components read or written
    /// may be read, components written may be written.
    pub fn init(&mut self, component_reads: &Vec<TypeId>, component_writes: &Vec<TypeId>)
        ensures
            final(self).reads() == old(self).reads().union(component_reads@.to_set()).union(
                component_writes@.to_set(),
            ),
            final(self).writes() == old(self).writes().union(component_writes@.to_set()),
    {
        extend(&mut self.read_components, component_reads);
        extend(&mut self.read_components, component_writes);
        extend(&mut self.write_components, component_writes);
    }

    /// Whether the component type may be read.
    pub fn can_read(&self, component: &TypeId) -> (r: bool)
        ensures
            r == self.reads().contains(*component),
    {
        type_set_contains(&self.read_components, component)
    }

    /// Whether the component type may be written.
    pub fn can_write(&self, component: &TypeId) -> (r: bool)
        ensures
            r == self.writes().contains(*component),
    {
        type_set_contains(&self.write_components, component)
    }
}

/// Inserts every type of `types` into `set`.
fn extend(set: &mut TypeSet, types: &Vec<TypeId>)
    ensures
        type_set_items(*final(set)) == type_set_items(*old(set)).union(types@.to_set()),
{
    let ghost start = type_set_items(*set);
    let mut k: usize = 0;
    while k < types.len()
        invariant
            k <= types@.len(),
            type_set_items(*set) == start.union(types@.take(k as int).to_set()),
        decreases types@.len() - k,
    {
        type_set_insert(set, types[k]);
        proof {
            let t = types@.take(k as int);
            let t1 = types@.take(k + 1);
            assert(t1 == t.push(types@[k as int]));
            assert(t1.to_set() =~= t.to_set().insert(types@[k as int])) by {
                assert forall|x: TypeId| t1.to_set().contains(x) == t.to_set().insert(types@[k as int]).contains(x) by {
                    if t1.contains(x) {
                        let j = choose|j: int| 0 <= j < t1.len() && t1[j] == x;
                        if j < k {
                            assert(t[j] == x);
                        }
                    }
                    if t.contains(x) {
                        let j = choose|j: int| 0 <= j < t.len() && t[j] == x;
                        assert(t1[j] == x);
                    }
                    if x == types@[k as int] {
                        assert(t1[k as int] == x);
                    }
                }
            }
            assert(type_set_items(*set) =~= start.union(t1.to_set()));
        }
        k = k + 1;
    }
    proof {
        assert(types@.take(types@.len() as int) == types@);
    }
}

} // verus!
