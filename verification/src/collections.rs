//! Declarations of the outside types this library keeps, and the trusted
//! wrappers through which it calls them.
//!
//! Each wrapper makes one call into its crate; its contract states what that
//! crate's source does to the contents of the collection, over a name for
//! those contents.

use crate::builder::Access;
use crate::ids::{ResourceId, SystemId};
use std::any::TypeId;
use vstd::prelude::*;

verus! {

// ---------------------------------------------------------------------------
// `std::any::TypeId`
// ---------------------------------------------------------------------------

#[verifier::external_type_specification]
#[verifier::external_body]
pub struct ExTypeId(TypeId);

/// Calls `std::any::TypeId::of::<T>()`. Nothing is claimed of the result.
#[verifier::external_body]
pub(crate) fn type_id_of<T: ?Sized + 'static>() -> TypeId {
    TypeId::of::<T>()
}

// ---------------------------------------------------------------------------
// `std::convert::From` of a type into itself
// ---------------------------------------------------------------------------

/// Specifies `<T as From<T>>::from`, std's conversion of a value into its own
/// type, which its documentation says returns the argument unchanged.
pub assume_specification<X>[ <X as std::convert::From<X>>::from ](value: X) -> (r: X)
    ensures
        r == value,
;

// ---------------------------------------------------------------------------
// `TypeIndexMap`
// ---------------------------------------------------------------------------

#[verifier::external_type_specification]
#[verifier::external_body]
#[verifier::reject_recursive_types(K)]
#[verifier::reject_recursive_types(V)]
#[verifier::reject_recursive_types(S)]
pub struct ExHashMap<K, V, S>(hashbrown::HashMap<K, V, S>);

/// The hasher that `hashbrown` maps use by default.
#[verifier::external_type_specification]
#[verifier::external_body]
pub struct ExDefaultHashBuilder(hashbrown::hash_map::DefaultHashBuilder);

/// A `hashbrown::HashMap` from types to indices.
pub type TypeIndexMap = hashbrown::HashMap<TypeId, usize>;

/// The entries held by a `hashbrown::HashMap` from types to indices.
pub uninterp spec fn type_index_entries(m: TypeIndexMap) -> Map<TypeId, usize>;

/// Calls `hashbrown::HashMap::new`: the map holds no entry.
#[verifier::external_body]
pub(crate) fn type_index_map_new() -> (r: TypeIndexMap)
    ensures
        type_index_entries(r).dom() == Set::<TypeId>::empty(),
{
    hashbrown::HashMap::new()
}

/// Calls `hashbrown::HashMap::get`: the value stored under `key`, if any.
/// (`TypeId`'s `Eq` and `Hash` compare the type's identity.)
#[verifier::external_body]
pub(crate) fn type_index_map_get(m: &TypeIndexMap, key: &TypeId) -> (r: Option<usize>)
    ensures
        r == (if type_index_entries(*m).contains_key(*key) {
            Some(type_index_entries(*m)[*key])
        } else {
            None::<usize>
        }),
{
    m.get(key).copied()
}

/// Calls `hashbrown::HashMap::insert`: `key` now maps to `value`, all other
/// entries are kept; the previous value under `key` is returned.
#[verifier::external_body]
pub(crate) fn type_index_map_insert(m: &mut TypeIndexMap, key: TypeId, value: usize) -> (r: Option<usize>)
    ensures
        type_index_entries(*final(m)) == type_index_entries(*old(m)).insert(key, value),
        r == (if type_index_entries(*old(m)).contains_key(key) {
            Some(type_index_entries(*old(m))[key])
        } else {
            None::<usize>
        }),
{
    m.insert(key, value)
}

/// Calls `hashbrown::HashMap::len`: the number of entries.
#[verifier::external_body]
pub(crate) fn type_index_map_len(m: &TypeIndexMap) -> (r: usize)
    ensures
        r == type_index_entries(*m).len(),
{
    m.len()
}

// ---------------------------------------------------------------------------
// `hashbrown::HashSet<Access>`
// ---------------------------------------------------------------------------

#[verifier::external_type_specification]
#[verifier::external_body]
#[verifier::reject_recursive_types(T)]
#[verifier::reject_recursive_types(S)]
pub struct ExHashSet<T, S>(hashbrown::HashSet<T, S>);

/// A `hashbrown::HashSet` of accesses.
pub type AccessSet = hashbrown::HashSet<Access>;

/// The accesses held by an `AccessSet`.
pub uninterp spec fn access_set_items(s: AccessSet) -> Set<Access>;

/// Calls `hashbrown::HashSet::new`: the set holds nothing.
#[verifier::external_body]
pub(crate) fn access_set_new() -> (r: AccessSet)
    ensures
        access_set_items(r) == Set::<Access>::empty(),
{
    hashbrown::HashSet::new()
}

/// Calls `hashbrown::HashSet::insert`: `value` is added; the result tells
/// whether it was absent. (`Access` derives `Eq` and `Hash` from its fields.)
#[verifier::external_body]
pub(crate) fn access_set_insert(s: &mut AccessSet, value: Access) -> (r: bool)
    ensures
        access_set_items(*final(s)) == access_set_items(*old(s)).insert(value),
        r == !access_set_items(*old(s)).contains(value),
{
    s.insert(value)
}

/// Calls `hashbrown::HashSet::contains`.
#[verifier::external_body]
pub(crate) fn access_set_contains(s: &AccessSet, value: &Access) -> (r: bool)
    ensures
        r == access_set_items(*s).contains(*value),
{
    s.contains(value)
}

// ---------------------------------------------------------------------------
// `hashbrown::HashSet<TypeId>`
// ---------------------------------------------------------------------------

/// A `hashbrown::HashSet` of types.
pub type TypeSet = hashbrown::HashSet<TypeId>;

/// The types held by a `TypeSet`.
pub uninterp spec fn type_set_items(s: TypeSet) -> Set<TypeId>;

/// Calls `hashbrown::HashSet::new`: the set holds nothing.
#[verifier::external_body]
pub(crate) fn type_set_new() -> (r: TypeSet)
    ensures
        type_set_items(r) == Set::<TypeId>::empty(),
{
    hashbrown::HashSet::new()
}

/// Calls `hashbrown::HashSet::insert`: `value` is added; the result tells
/// whether it was absent.
#[verifier::external_body]
pub(crate) fn type_set_insert(s: &mut TypeSet, value: TypeId) -> (r: bool)
    ensures
        type_set_items(*final(s)) == type_set_items(*old(s)).insert(value),
        r == !type_set_items(*old(s)).contains(value),
{
    s.insert(value)
}

/// Calls `hashbrown::HashSet::contains`.
#[verifier::external_body]
pub(crate) fn type_set_contains(s: &TypeSet, value: &TypeId) -> (r: bool)
    ensures
        r == type_set_items(*s).contains(*value),
{
    s.contains(value)
}

// ---------------------------------------------------------------------------
// `bit_set::BitSet`
// ---------------------------------------------------------------------------

#[verifier::external_type_specification]
#[verifier::external_body]
#[verifier::reject_recursive_types(Block)]
pub struct ExBitSet<Block>(bit_set::BitSet<Block>);

/// The members of a `bit_set::BitSet`.
pub uninterp spec fn bit_set_items(s: bit_set::BitSet) -> Set<usize>;

/// Calls `bit_set::BitSet::new`: the set is empty.
#[verifier::external_body]
pub(crate) fn bit_set_new() -> (r: bit_set::BitSet)
    ensures
        bit_set_items(r) == Set::<usize>::empty(),
{
    bit_set::BitSet::new()
}

/// Calls `bit_set::BitSet::with_capacity`: the set is empty (the capacity
/// only reserves room).
#[verifier::external_body]
pub(crate) fn bit_set_with_capacity(nbits: usize) -> (r: bit_set::BitSet)
    ensures
        bit_set_items(r) == Set::<usize>::empty(),
{
    bit_set::BitSet::with_capacity(nbits)
}

/// Calls `bit_set::BitSet::insert`: `value` becomes a member; the result
/// tells whether it was absent. (Growing to `value + 1` bits overflows, and
/// panics, for `usize::MAX`.)
#[verifier::external_body]
pub(crate) fn bit_set_insert(s: &mut bit_set::BitSet, value: usize) -> (r: bool)
    requires
        value < usize::MAX,
    ensures
        bit_set_items(*final(s)) == bit_set_items(*old(s)).insert(value),
        r == !bit_set_items(*old(s)).contains(value),
{
    s.insert(value)
}

/// Calls `bit_set::BitSet::remove`: `value` is no longer a member; the
/// result tells whether it was one.
#[verifier::external_body]
pub(crate) fn bit_set_remove(s: &mut bit_set::BitSet, value: usize) -> (r: bool)
    ensures
        bit_set_items(*final(s)) == bit_set_items(*old(s)).remove(value),
        r == bit_set_items(*old(s)).contains(value),
{
    s.remove(value)
}

/// Calls `bit_set::BitSet::contains`.
#[verifier::external_body]
pub(crate) fn bit_set_contains(s: &bit_set::BitSet, value: usize) -> (r: bool)
    ensures
        r == bit_set_items(*s).contains(value),
{
    s.contains(value)
}

/// Calls `bit_set::BitSet::is_empty`.
#[verifier::external_body]
pub(crate) fn bit_set_is_empty(s: &bit_set::BitSet) -> (r: bool)
    ensures
        r == (bit_set_items(*s) == Set::<usize>::empty()),
{
    s.is_empty()
}

// ---------------------------------------------------------------------------
// `smallvec::SmallVec`: Verus refuses to declare the type itself (its
// parameter is bound by the crate's `Array` trait), so each instance used here
// is held in a struct whose body Verus does not see.
// ---------------------------------------------------------------------------

/// Resource IDs, stored inline up to eight (`SmallVec<[ResourceId; 8]>`).
#[verifier::external_body]
pub struct ResourceVec {
    items: smallvec::SmallVec<[ResourceId; 8]>,
}

/// The IDs held by a `ResourceVec`, in order.
pub uninterp spec fn resource_vec_items(v: ResourceVec) -> Seq<ResourceId>;

/// Calls `smallvec::SmallVec::from_vec`: the same IDs in the same order.
#[verifier::external_body]
pub(crate) fn resource_vec_from_vec(v: Vec<ResourceId>) -> (r: ResourceVec)
    ensures
        resource_vec_items(r) == v@,
{
    ResourceVec { items: smallvec::SmallVec::from_vec(v) }
}

/// Calls `smallvec::SmallVec::len`.
#[verifier::external_body]
pub(crate) fn resource_vec_len(v: &ResourceVec) -> (r: usize)
    ensures
        r == resource_vec_items(*v).len(),
{
    v.items.len()
}

/// Indexes a `smallvec::SmallVec`.
#[verifier::external_body]
pub(crate) fn resource_vec_get(v: &ResourceVec, i: usize) -> (r: ResourceId)
    requires
        i < resource_vec_items(*v).len(),
    ensures
        r == resource_vec_items(*v)[i as int],
{
    v.items[i]
}

/// The systems of a stage, stored inline up to six (`SmallVec<[SystemId; 6]>`).
#[verifier::external_body]
pub struct StageSystems {
    items: smallvec::SmallVec<[SystemId; 6]>,
}

/// The IDs held by a `StageSystems`, in order.
pub uninterp spec fn stage_systems_items(v: StageSystems) -> Seq<SystemId>;

/// Calls `smallvec::SmallVec::from_vec`: the same IDs in the same order.
#[verifier::external_body]
pub(crate) fn stage_systems_from_vec(v: Vec<SystemId>) -> (r: StageSystems)
    ensures
        stage_systems_items(r) == v@,
{
    StageSystems { items: smallvec::SmallVec::from_vec(v) }
}

/// Calls `smallvec::SmallVec::len`.
#[verifier::external_body]
pub(crate) fn stage_systems_len(v: &StageSystems) -> (r: usize)
    ensures
        r == stage_systems_items(*v).len(),
{
    v.items.len()
}

/// Indexes a `smallvec::SmallVec`.
#[verifier::external_body]
pub(crate) fn stage_systems_get(v: &StageSystems, i: usize) -> (r: SystemId)
    requires
        i < stage_systems_items(*v).len(),
    ensures
        r == stage_systems_items(*v)[i as int],
{
    v.items[i]
}

/// The handlers of an event, stored inline up to four (`SmallVec<[SystemId; 4]>`).
#[verifier::external_body]
pub struct HandlerIds {
    items: smallvec::SmallVec<[SystemId; 4]>,
}

/// The IDs held by a `HandlerIds`, in order.
pub uninterp spec fn handler_ids_items(v: HandlerIds) -> Seq<SystemId>;

/// Calls `smallvec::SmallVec::from_vec`: the same IDs in the same order.
#[verifier::external_body]
pub(crate) fn handler_ids_from_vec(v: Vec<SystemId>) -> (r: HandlerIds)
    ensures
        handler_ids_items(r) == v@,
{
    HandlerIds { items: smallvec::SmallVec::from_vec(v) }
}

/// Calls `smallvec::SmallVec::len`.
#[verifier::external_body]
pub(crate) fn handler_ids_len(v: &HandlerIds) -> (r: usize)
    ensures
        r == handler_ids_items(*v).len(),
{
    v.items.len()
}

/// Indexes a `smallvec::SmallVec`.
#[verifier::external_body]
pub(crate) fn handler_ids_get(v: &HandlerIds, i: usize) -> (r: SystemId)
    requires
        i < handler_ids_items(*v).len(),
    ensures
        r == handler_ids_items(*v)[i as int],
{
    v.items[i]
}

} // verus!
