use std::any::TypeId;
use tonks::event::event_id_for;
use tonks::ids::{EventId, ResourceId, SystemId};
use tonks::mappings::Mappings;
use tonks::resources::resource_id_for;
use tonks::system::system_id_for;

#[test]
fn mappings_basic() {
    let mut mappings = Mappings::<TypeId, usize>::new();

    assert_eq!(mappings.get_or_alloc(TypeId::of::<usize>()), 0);
    assert_eq!(mappings.get_or_alloc(TypeId::of::<isize>()), 1);
}

#[test]
fn same_key_same_index() {
    let mut mappings = Mappings::<TypeId, usize>::new();
    assert_eq!(mappings.len(), 0);
    assert_eq!(mappings.get_or_alloc(TypeId::of::<u8>()), 0);
    assert_eq!(mappings.get_or_alloc(TypeId::of::<u16>()), 1);
    assert_eq!(mappings.get_or_alloc(TypeId::of::<u8>()), 0);
    assert_eq!(mappings.get_or_alloc(TypeId::of::<u32>()), 2);
    assert_eq!(mappings.get_or_alloc(TypeId::of::<u16>()), 1);
    assert_eq!(mappings.len(), 3);
}

#[test]
fn default_mappings_are_empty() {
    let mut mappings: Mappings<TypeId, ResourceId> = Default::default();
    assert_eq!(mappings.len(), 0);
    assert_eq!(mappings.get_or_alloc(TypeId::of::<()>()), ResourceId(0));
}

struct A;
struct B;

#[test]
fn ids_for_types() {
    let mut resources = Mappings::<TypeId, ResourceId>::new();
    let mut systems = Mappings::<TypeId, SystemId>::new();
    let mut events = Mappings::<TypeId, EventId>::new();

    assert_eq!(resource_id_for::<A>(&mut resources), ResourceId(0));
    assert_eq!(resource_id_for::<B>(&mut resources), ResourceId(1));
    assert_eq!(resource_id_for::<A>(&mut resources), ResourceId(0));

    assert_eq!(system_id_for::<B>(&mut systems), SystemId(0));
    assert_eq!(system_id_for::<A>(&mut systems), SystemId(1));
    assert_eq!(system_id_for::<B>(&mut systems), SystemId(0));

    assert_eq!(event_id_for::<A>(&mut events), EventId(0));
    assert_eq!(event_id_for::<A>(&mut events), EventId(0));
    assert_eq!(events.len(), 1);
}

#[test]
fn allocate_gives_unkeyed_indices() {
    let mut mappings = Mappings::<TypeId, SystemId>::new();
    assert_eq!(mappings.allocate(), SystemId(0));
    assert_eq!(mappings.get_or_alloc(TypeId::of::<u8>()), SystemId(1));
    assert_eq!(mappings.allocate(), SystemId(2));
    assert_eq!(mappings.get_or_alloc(TypeId::of::<u8>()), SystemId(1));
    assert_eq!(mappings.allocated_count(), 3);
    assert_eq!(mappings.len(), 1);
}
