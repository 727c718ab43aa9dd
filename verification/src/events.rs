//! Traits that event types implement; the buffering and delivery of events
//! is plumbing around the core and lives with the embedding application.

use vstd::prelude::*;

verus! {

/// Implemented by every type sent through the event channel.
pub trait Event {
    /// The identity of the concrete event type, used to route dynamically
    /// dispatched events to their buffers.
    fn event_type_id(&self) -> core::any::TypeId;
}

/// Marker for event types.
pub trait ECSevent {

}

} // verus!
