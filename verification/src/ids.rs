//! Consecutively allocated identifiers, used as indices into vectors.

use vstd::prelude::*;
use vstd::std_specs::convert::FromSpecImpl;

verus! {

/// ID of a resource.
#[derive(Debug, Clone, Copy, PartialEq, Eq, Hash, Default)]
pub struct ResourceId(pub usize);

/// Unique ID of a system (event handlers are systems too).
#[derive(Debug, Clone, Copy, PartialEq, Eq, Hash, Default)]
pub struct SystemId(pub usize);

/// ID of an event type.
#[derive(Debug, Clone, Copy, PartialEq, Eq, Hash, Default)]
pub struct EventId(pub usize);

/// ID of a stage of the scheduler.
#[derive(Debug, Clone, Copy, PartialEq, Eq, Hash, Default)]
pub struct StageId(pub usize);

impl From<usize> for ResourceId {
    fn from(x: usize) -> (r: Self) {
        ResourceId(x)
    }
}

impl FromSpecImpl<usize> for ResourceId {
    open spec fn obeys_from_spec() -> bool {
        true
    }

    open spec fn from_spec(v: usize) -> Self {
        ResourceId(v)
    }
}

impl From<usize> for SystemId {
    fn from(x: usize) -> (r: Self) {
        SystemId(x)
    }
}

impl FromSpecImpl<usize> for SystemId {
    open spec fn obeys_from_spec() -> bool {
        true
    }

    open spec fn from_spec(v: usize) -> Self {
        SystemId(v)
    }
}

impl From<usize> for EventId {
    fn from(x: usize) -> (r: Self) {
        EventId(x)
    }
}

impl FromSpecImpl<usize> for EventId {
    open spec fn obeys_from_spec() -> bool {
        true
    }

    open spec fn from_spec(v: usize) -> Self {
        EventId(v)
    }
}

} // verus!
