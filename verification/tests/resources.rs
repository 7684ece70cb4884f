use std::any::{Any, TypeId};
use tonks::ids::ResourceId;
use tonks::mappings::Mappings;
use tonks::resources::{resource_id_for, Resources};

type Erased = Box<dyn Any + Send + Sync>;

#[test]
fn resources_basic() {
    let mut ids = Mappings::<TypeId, ResourceId>::new();
    let mut resources: Resources<Erased> = Resources::new();
    let id = resource_id_for::<i32>(&mut ids);
    resources.insert(id, Box::new(1i32));
    let id = resource_id_for::<usize>(&mut ids);
    resources.insert(id, Box::new(1usize));

    assert_eq!(resources.get(ResourceId(0)).downcast_ref::<i32>(), Some(&1));
    assert_eq!(resources.get(ResourceId(1)).downcast_ref::<usize>(), Some(&1));
}

#[test]
fn insert_replaces_and_grows() {
    let mut resources: Resources<u32> = Resources::default();
    resources.insert(ResourceId(3), 7);
    assert_eq!(*resources.get(ResourceId(3)), 7);
    resources.insert(ResourceId(3), 8);
    assert_eq!(*resources.get(ResourceId(3)), 8);
    resources.insert(ResourceId(0), 1);
    assert_eq!(*resources.get(ResourceId(0)), 1);
    assert_eq!(*resources.get(ResourceId(3)), 8);
}

#[test]
fn insert_if_absent_keeps_present() {
    let mut resources: Resources<&'static str> = Resources::new();
    resources.insert_if_absent(ResourceId(1), "first");
    resources.insert_if_absent(ResourceId(1), "second");
    assert_eq!(*resources.get(ResourceId(1)), "first");
    resources.insert(ResourceId(1), "third");
    assert_eq!(*resources.get(ResourceId(1)), "third");
}

#[test]
fn get_mut_writes_back() {
    let mut resources: Resources<Vec<u8>> = Resources::new();
    resources.insert(ResourceId(0), vec![1]);
    resources.get_mut(ResourceId(0)).push(2);
    assert_eq!(resources.get(ResourceId(0)), &vec![1, 2]);
}

#[test]
fn has_tells_filled_slots() {
    let mut resources: Resources<u8> = Resources::new();
    assert!(!resources.has(ResourceId(0)));
    resources.insert(ResourceId(2), 9);
    assert!(!resources.has(ResourceId(0)));
    assert!(!resources.has(ResourceId(1)));
    assert!(resources.has(ResourceId(2)));
    assert!(!resources.has(ResourceId(3)));
}
