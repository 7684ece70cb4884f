use tonks::builder::{assert_valid_deps, DepsError, EventsBuilder, SchedulerBuilder, Stage};
use tonks::event::{HandleStrategy, HandlerAccess};
use tonks::ids::{EventId, ResourceId, StageId, SystemId};
use tonks::resources::Resources;
use tonks::scheduler::Scheduler;
use tonks::system::SystemAccess;

fn access(id: usize, reads: &[usize], writes: &[usize]) -> SystemAccess {
    SystemAccess {
        id: SystemId(id),
        resource_reads: reads.iter().map(|r| ResourceId(*r)).collect(),
        resource_writes: writes.iter().map(|r| ResourceId(*r)).collect(),
        component_reads: vec![],
        component_writes: vec![],
    }
}

fn ids(v: &[usize]) -> Vec<ResourceId> {
    v.iter().map(|r| ResourceId(*r)).collect()
}

#[test]
fn valid_deps_accepted() {
    assert_eq!(assert_valid_deps(&ids(&[0, 1]), &ids(&[2, 3])), Ok(()));
    assert_eq!(assert_valid_deps(&ids(&[0, 0]), &ids(&[])), Ok(()));
    assert_eq!(assert_valid_deps(&ids(&[]), &ids(&[])), Ok(()));
}

#[test]
fn double_write_refused() {
    assert_eq!(assert_valid_deps(&ids(&[]), &ids(&[0, 0])), Err(DepsError::DoubleWrite));
    assert_eq!(assert_valid_deps(&ids(&[1]), &ids(&[0, 2, 0])), Err(DepsError::DoubleWrite));
}

#[test]
fn read_and_write_refused() {
    assert_eq!(assert_valid_deps(&ids(&[0]), &ids(&[0])), Err(DepsError::ReadAndWrite));
    // Both faults: reading and writing is reported first.
    assert_eq!(assert_valid_deps(&ids(&[0]), &ids(&[0, 0])), Err(DepsError::ReadAndWrite));
}

#[test]
fn stage_conflicts() {
    let mut stage: Stage<&str> = Stage::new();
    stage.add("writer", access(0, &[], &[1]));
    assert!(stage.conflicts_with(&access(1, &[1], &[])));
    assert!(stage.conflicts_with(&access(1, &[], &[1])));
    assert!(!stage.conflicts_with(&access(1, &[2], &[3])));
    stage.add("reader", access(1, &[2], &[]));
    assert!(stage.conflicts_with(&access(2, &[], &[2])));
    assert!(!stage.conflicts_with(&access(2, &[2], &[])));
    // A component is not the resource with the same ID.
    let component_writer = SystemAccess {
        id: SystemId(3),
        resource_reads: vec![],
        resource_writes: vec![],
        component_reads: vec![],
        component_writes: vec![ResourceId(1)],
    };
    assert!(!stage.conflicts_with(&component_writer));
    stage.add("components", component_writer);
    let component_reader = SystemAccess {
        id: SystemId(4),
        resource_reads: vec![],
        resource_writes: vec![],
        component_reads: vec![ResourceId(1)],
        component_writes: vec![],
    };
    assert!(stage.conflicts_with(&component_reader));
}

/// The scenario of the basic dispatch: system 2
/// writes resource 2, system 3 writes resource 1, system 1 reads both and
/// system 4 reads resource 1.
fn basic_builder() -> SchedulerBuilder<&'static str, ()> {
    let mut builder: SchedulerBuilder<&'static str, ()> = SchedulerBuilder::new();
    builder.add_boxed("system2", access(0, &[], &[1]));
    builder.add_boxed("system3", access(1, &[], &[0]));
    builder.add_boxed("system1", access(2, &[0, 1], &[]));
    builder.add_boxed("system4", access(3, &[0], &[]));
    builder
}

#[test]
fn systems_are_packed_into_first_free_stage() {
    let builder = basic_builder();
    let scheduler: Scheduler<&str, (), (), ()> = builder.build(Resources::new(), 4, 2);
    assert_eq!(scheduler.stage_system_ids(StageId(0)), vec![SystemId(0), SystemId(1)]);
    assert_eq!(scheduler.stage_system_ids(StageId(1)), vec![SystemId(2), SystemId(3)]);
}

#[test]
fn handlers_grouped_by_event() {
    let mut events: EventsBuilder<&'static str> = EventsBuilder::new();
    events.add_boxed(
        "handler_a",
        HandlerAccess {
            id: SystemId(0),
            event_id: EventId(1),
            strategy: HandleStrategy::EndOfTick,
            resource_reads: ids(&[0]),
            resource_writes: vec![],
        },
    );
    events.add_boxed(
        "handler_b",
        HandlerAccess {
            id: SystemId(1),
            event_id: EventId(1),
            strategy: HandleStrategy::EndOfTick,
            resource_reads: vec![],
            resource_writes: ids(&[1]),
        },
    );
    let mut builder = events.finish();
    builder.add_boxed("system", access(2, &[1], &[]));
    let mut scheduler: Scheduler<&str, &str, (), ()> = builder.build(Resources::new(), 3, 2);
    assert_eq!(scheduler.end_of_tick_handler_ids(EventId(0)), Some(vec![]));
    assert_eq!(scheduler.end_of_tick_handler_ids(EventId(1)), Some(vec![SystemId(0), SystemId(1)]));
    assert_eq!(scheduler.end_of_tick_handler_ids(EventId(2)), None);
    assert_eq!(scheduler.event_handlers_mut()[1], Some("handler_b"));
    assert_eq!(scheduler.systems_mut()[2], Some("system"));
    assert_eq!(scheduler.systems_mut()[0], None);
}
