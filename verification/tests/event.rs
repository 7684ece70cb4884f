use tonks::event::{HandleStrategy, Trigger};
use tonks::ids::EventId;

#[test]
fn check_event_slice_size_and_align() {
    // Slices of events are passed as (address, length) pairs, whatever the
    // event type.
    assert_eq!(
        std::mem::size_of::<&'static [()]>(),
        std::mem::size_of::<&'static [i32]>()
    );
    assert_eq!(
        std::mem::align_of::<&'static [()]>(),
        std::mem::align_of::<&'static [i32]>()
    );
}

#[derive(Clone, Copy, Debug, PartialEq, Eq)]
struct Ev(u32);

#[test]
fn triggered_events_flush_in_order() {
    let mut trigger: Trigger<Ev> = Trigger::new(EventId(4));
    trigger.trigger(Ev(1));
    trigger.trigger_batched(vec![Ev(2), Ev(3), Ev(5)]);
    let (id, events) = trigger.flush();
    assert_eq!(id, EventId(4));
    assert_eq!(events, vec![Ev(1), Ev(2), Ev(3), Ev(5)]);
    let (_, events) = trigger.flush();
    assert!(events.is_empty());
}

#[test]
fn zero_sized_events_are_counted() {
    #[derive(Clone, Copy, Debug, PartialEq, Eq)]
    struct Zst;
    let mut trigger: Trigger<Zst> = Trigger::new(EventId(0));
    trigger.trigger(Zst);
    trigger.trigger_batched(std::iter::repeat(Zst).take(1023).collect());
    let (_, events) = trigger.flush();
    assert_eq!(events.len(), 1024);
}

#[test]
fn default_strategy_is_end_of_tick() {
    assert_eq!(HandleStrategy::default(), HandleStrategy::EndOfTick);
}
