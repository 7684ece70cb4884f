use std::any::TypeId;
use tonks::query::ComponentAccess;

struct Position;
struct Velocity;
struct Name;

#[test]
fn new_access_grants_nothing() {
    let access = ComponentAccess::new();
    assert!(!access.can_read(&TypeId::of::<Position>()));
    assert!(!access.can_write(&TypeId::of::<Position>()));
}

#[test]
fn writes_may_be_read_and_reads_not_written() {
    let mut access = ComponentAccess::new();
    access.init(&vec![TypeId::of::<Position>()], &vec![TypeId::of::<Velocity>()]);
    assert!(access.can_read(&TypeId::of::<Position>()));
    assert!(access.can_read(&TypeId::of::<Velocity>()));
    assert!(!access.can_write(&TypeId::of::<Position>()));
    assert!(access.can_write(&TypeId::of::<Velocity>()));
    assert!(!access.can_read(&TypeId::of::<Name>()));
    assert!(!access.can_write(&TypeId::of::<Name>()));

    // A second system's worth of queries adds to what was granted.
    access.init(&vec![], &vec![TypeId::of::<Name>()]);
    assert!(access.can_write(&TypeId::of::<Name>()));
    assert!(access.can_write(&TypeId::of::<Velocity>()));
}
