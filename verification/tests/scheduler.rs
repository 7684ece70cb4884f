use tonks::builder::{EventsBuilder, SchedulerBuilder};
use tonks::event::{HandleStrategy, HandlerAccess};
use tonks::ids::{EventId, ResourceId, StageId, SystemId};
use tonks::resources::Resources;
use tonks::scheduler::{try_obtain_resources, Scheduler, Task, TaskMessage};
use tonks::system::SystemAccess;

fn access(id: usize, reads: &[usize], writes: &[usize]) -> SystemAccess {
    SystemAccess {
        id: SystemId(id),
        resource_reads: reads.iter().map(|r| ResourceId(*r)).collect(),
        resource_writes: writes.iter().map(|r| ResourceId(*r)).collect(),
        component_reads: vec![],
        component_writes: vec![],
    }
}

fn assert_send_sync<T: Send + Sync>() {}

#[test]
fn check_scheduler_traits() {
    assert_send_sync::<Scheduler<Box<dyn Fn() + Send + Sync>, Box<dyn Fn() + Send + Sync>, u32, (usize, usize)>>();
}

#[test]
fn basic_dispatch() {
    let mut builder: SchedulerBuilder<&'static str, ()> = SchedulerBuilder::new();
    builder.add_boxed("system2", access(0, &[], &[1]));
    builder.add_boxed("system3", access(1, &[], &[0]));
    builder.add_boxed("system1", access(2, &[0, 1], &[]));
    builder.add_boxed("system4", access(3, &[0], &[]));
    let mut scheduler: Scheduler<&str, (), (), ()> = builder.build(Resources::new(), 4, 2);

    assert!(scheduler.begin_dispatch());
    let first = scheduler.next_task().unwrap();
    assert_eq!(first, Task::Stage(StageId(0)));
    assert!(scheduler.can_run_task(first));
    assert_eq!(scheduler.run_task(first), Ok(2));
    assert_eq!(scheduler.running_systems_count(), 2);

    // The second stage reads what the first writes: it must wait.
    let second = scheduler.next_task().unwrap();
    assert_eq!(second, Task::Stage(StageId(1)));
    assert_eq!(scheduler.run_task(second), Err(()));
    assert!(scheduler.can_accept_message(TaskMessage::StageComplete(StageId(0))));
    assert_eq!(scheduler.on_message(TaskMessage::StageComplete(StageId(0))), 2);
    assert_eq!(scheduler.running_systems_count(), 0);

    let again = scheduler.next_task().unwrap();
    assert_eq!(again, Task::Stage(StageId(1)));
    assert_eq!(scheduler.run_task(again), Ok(2));
    assert_eq!(scheduler.next_task(), None);
    assert!(!scheduler.is_idle());
    assert_eq!(scheduler.on_message(TaskMessage::StageComplete(StageId(1))), 2);
    assert!(scheduler.is_idle());

    // Later dispatches are not the first.
    assert!(!scheduler.begin_dispatch());
    assert_eq!(scheduler.next_task(), Some(Task::Stage(StageId(0))));
}

#[test]
fn events_queue_and_run_handlers() {
    let mut events: EventsBuilder<&'static str> = EventsBuilder::new();
    events.add_boxed(
        "handler",
        HandlerAccess {
            id: SystemId(1),
            event_id: EventId(0),
            strategy: HandleStrategy::EndOfTick,
            resource_reads: vec![],
            resource_writes: vec![ResourceId(0)],
        },
    );
    let mut builder = events.finish();
    builder.add_boxed("system", access(0, &[0], &[]));
    let mut scheduler: Scheduler<&str, &str, (), usize> = builder.build(Resources::new(), 2, 1);

    assert!(scheduler.begin_dispatch());
    let stage = scheduler.next_task().unwrap();
    assert_eq!(scheduler.run_task(stage), Ok(1));
    // The system triggers a batch of events.
    assert_eq!(scheduler.on_message(TaskMessage::TriggerEvents { id: EventId(0), batch: 7 }), 0);
    let handle = scheduler.next_task().unwrap();
    assert_eq!(handle, Task::HandleEvent(EventId(0), 7));
    // The handler writes what the running system reads.
    assert_eq!(scheduler.run_task(handle), Err(()));
    assert_eq!(scheduler.on_message(TaskMessage::StageComplete(StageId(0))), 1);
    let handle = scheduler.next_task().unwrap();
    assert_eq!(scheduler.run_task(handle), Ok(1));
    // While the handler runs, another batch of the same event waits.
    assert_eq!(scheduler.on_message(TaskMessage::TriggerEvents { id: EventId(0), batch: 8 }), 0);
    let next = scheduler.next_task().unwrap();
    assert_eq!(scheduler.run_task(next), Err(()));
    assert_eq!(scheduler.on_message(TaskMessage::EventHandlingComplete(EventId(0))), 1);
    assert!(!scheduler.is_idle());
}

#[test]
fn checks_refuse_out_of_range() {
    let builder: SchedulerBuilder<&'static str, ()> = SchedulerBuilder::new();
    let scheduler: Scheduler<&str, (), (), ()> = builder.build(Resources::new(), 0, 0);
    assert!(!scheduler.can_run_task(Task::Stage(StageId(0))));
    assert!(!scheduler.can_run_task(Task::HandleEvent(EventId(0), ())));
    assert!(!scheduler.can_accept_message(TaskMessage::StageComplete(StageId(0))));
    assert!(scheduler.can_accept_message(TaskMessage::TriggerEvents { id: EventId(3), batch: () }));
}

#[test]
fn resources_are_kept() {
    let builder: SchedulerBuilder<&'static str, ()> = SchedulerBuilder::new();
    let mut resources: Resources<u32> = Resources::new();
    resources.insert(ResourceId(0), 5);
    let mut scheduler: Scheduler<&str, (), u32, ()> = builder.build(resources, 0, 1);
    assert_eq!(*scheduler.resources().get(ResourceId(0)), 5);
    *scheduler.resources_mut().get_mut(ResourceId(0)) += 1;
    assert_eq!(*scheduler.resources().get(ResourceId(0)), 6);
}

fn rv(ids: &[usize]) -> tonks::collections::ResourceVec {
    tonks::scheduler::resource_vec(ids.iter().map(|r| ResourceId(*r)).collect())
}

#[test]
fn obtaining_counts_reads_and_marks_writes() {
    let mut reads_held: Vec<u32> = vec![0, 0, 0];
    let mut writes_held = bit_set::BitSet::new();

    // Two readers of resource 0 may hold it together.
    assert_eq!(try_obtain_resources(&rv(&[0]), &rv(&[1]), &mut reads_held, &mut writes_held), Ok(()));
    assert_eq!(try_obtain_resources(&rv(&[0]), &rv(&[]), &mut reads_held, &mut writes_held), Ok(()));
    assert_eq!(reads_held, vec![2, 0, 0]);
    assert!(writes_held.contains(1));

    // A writer of a read resource, and a reader of a written one, are refused
    // and change nothing.
    assert_eq!(try_obtain_resources(&rv(&[]), &rv(&[0]), &mut reads_held, &mut writes_held), Err(()));
    assert_eq!(try_obtain_resources(&rv(&[1]), &rv(&[2]), &mut reads_held, &mut writes_held), Err(()));
    assert_eq!(reads_held, vec![2, 0, 0]);
    assert!(!writes_held.contains(2));

    // Untouched resources remain free.
    assert_eq!(try_obtain_resources(&rv(&[]), &rv(&[2]), &mut reads_held, &mut writes_held), Ok(()));
    assert!(writes_held.contains(2));
}

#[test]
fn completion_releases_and_unblocks() {
    let mut builder: SchedulerBuilder<&'static str, ()> = SchedulerBuilder::new();
    builder.add_boxed("writer", access(0, &[], &[0]));
    builder.add_boxed("reader", access(1, &[0], &[]));
    let mut scheduler: Scheduler<&str, (), (), ()> = builder.build(Resources::new(), 2, 1);

    assert!(scheduler.begin_dispatch());
    let first = scheduler.next_task().unwrap();
    assert_eq!(scheduler.run_task(first), Ok(1));
    let second = scheduler.next_task().unwrap();
    assert_eq!(second, Task::Stage(StageId(1)));
    // Refused twice while the writer runs, each time back at the front.
    assert_eq!(scheduler.run_task(second), Err(()));
    assert_eq!(scheduler.next_task(), Some(second));
    assert_eq!(scheduler.run_task(second), Err(()));
    // Once the writer completes, the reader runs.
    assert_eq!(scheduler.on_message(TaskMessage::StageComplete(StageId(0))), 1);
    assert_eq!(scheduler.next_task(), Some(second));
    assert_eq!(scheduler.run_task(second), Ok(1));
    assert_eq!(scheduler.stage_system_ids(StageId(1)), vec![SystemId(1)]);
    assert_eq!(scheduler.on_message(TaskMessage::StageComplete(StageId(1))), 1);
    assert!(scheduler.is_idle());
}

fn handler(id: usize, event: usize, writes: &[usize]) -> HandlerAccess {
    HandlerAccess {
        id: SystemId(id),
        event_id: EventId(event),
        strategy: HandleStrategy::EndOfTick,
        resource_reads: vec![],
        resource_writes: writes.iter().map(|r| ResourceId(*r)).collect(),
    }
}

#[test]
fn handlers_are_listed_by_event() {
    let mut events: EventsBuilder<&'static str> = EventsBuilder::new();
    events.add_boxed("first", handler(1, 0, &[0]));
    events.add_boxed("second", handler(2, 0, &[1]));
    events.add_boxed("other", handler(3, 2, &[]));
    let mut builder = events.finish();
    builder.add_boxed("system", access(0, &[], &[]));
    let mut scheduler: Scheduler<&str, &str, (), u8> = builder.build(Resources::new(), 4, 2);

    assert_eq!(scheduler.end_of_tick_handler_ids(EventId(0)), Some(vec![SystemId(1), SystemId(2)]));
    assert_eq!(scheduler.end_of_tick_handler_ids(EventId(1)), Some(vec![]));
    assert_eq!(scheduler.end_of_tick_handler_ids(EventId(2)), Some(vec![SystemId(3)]));
    assert_eq!(scheduler.end_of_tick_handler_ids(EventId(3)), None);
    assert_eq!(scheduler.event_handlers_mut().len(), 4);
    assert_eq!(scheduler.event_handlers_mut()[2], Some("second"));
    assert_eq!(scheduler.event_handlers_mut()[0], None);
    assert_eq!(scheduler.systems_mut()[0], Some("system"));

    // The pipeline of event 0 writes what both of its handlers write.
    let task = Task::HandleEvent(EventId(0), 1);
    assert!(scheduler.can_run_task(task));
    assert_eq!(scheduler.run_task(task), Ok(2));
    assert_eq!(scheduler.running_systems_count(), 2);
    assert_eq!(scheduler.on_message(TaskMessage::EventHandlingComplete(EventId(0))), 2);
    assert_eq!(scheduler.running_systems_count(), 0);
}

#[test]
fn refused_pipeline_holds_nothing() {
    let mut events: EventsBuilder<&'static str> = EventsBuilder::new();
    events.add_boxed(
        "reader",
        HandlerAccess {
            id: SystemId(1),
            event_id: EventId(0),
            strategy: HandleStrategy::EndOfTick,
            resource_reads: vec![ResourceId(0)],
            resource_writes: vec![],
        },
    );
    let mut builder = events.finish();
    builder.add_boxed("writer", access(0, &[], &[0]));
    let mut scheduler: Scheduler<&str, &str, (), u8> = builder.build(Resources::new(), 2, 1);

    // The pipeline starts with resource 0 free.
    let first = Task::HandleEvent(EventId(0), 1);
    assert_eq!(scheduler.run_task(first), Ok(1));
    assert_eq!(scheduler.on_message(TaskMessage::EventHandlingComplete(EventId(0))), 1);

    // A third batch, while the handler runs the second, is put back although
    // resource 0 could be shared, and takes nothing: once the handler
    // completes, the writer of resource 0 may run.
    assert_eq!(scheduler.run_task(Task::HandleEvent(EventId(0), 2)), Ok(1));
    let refused = Task::HandleEvent(EventId(0), 3);
    assert_eq!(scheduler.run_task(refused), Err(()));
    assert_eq!(scheduler.next_task(), Some(refused));
    assert_eq!(scheduler.on_message(TaskMessage::EventHandlingComplete(EventId(0))), 1);
    assert_eq!(scheduler.run_task(Task::Stage(StageId(0))), Ok(1));
    assert_eq!(scheduler.on_message(TaskMessage::StageComplete(StageId(0))), 1);
    assert!(scheduler.is_idle());
}
