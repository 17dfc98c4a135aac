//! The recorded value: a topic and the moment work on it started.
use vstd::prelude::*;

verus! {

/// A topic switch: work on `topic` started at `start_time`, in milliseconds
/// since the Unix epoch.
#[derive(Debug, PartialEq, Eq)]
pub struct Event {
    pub topic: String,
    pub start_time: u128,
}

/// The mathematical value of an [`Event`].
pub struct EventModel {
    pub topic: Seq<char>,
    pub start_time: u128,
}

impl View for Event {
    type V = EventModel;

    open spec fn view(&self) -> EventModel {
        EventModel { topic: self.topic@, start_time: self.start_time }
    }
}

/// The values of a sequence of events, in the same order.
pub open spec fn models(events: Seq<Event>) -> Seq<EventModel> {
    events.map_values(|e: Event| e@)
}

} // verus!
