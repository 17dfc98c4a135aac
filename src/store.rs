//! The store interface, and a store that keeps its log text in memory.
use crate::event::{models, Event, EventModel};
use crate::format::{format_line, get_events_from_file_contents, line_of, parse_contents, FormatError, LineFault};
use vstd::prelude::*;

verus! {

/// An append-only store of events for one profile.
pub trait TimeTrackerStore: Sized {
    /// Why an operation of the store failed.
    type Error;

    /// Opens or creates the store of `profile_name`, keeping what it already holds.
    fn prepare(profile_name: &str) -> Result<Self, Self::Error>;

    /// Appends the event that `topic`, trimmed, started at `time`.
    fn add_topic(&mut self, topic: &str, time: u128) -> Result<(), Self::Error>;

    /// Every event appended so far, in order; the store is left as it was.
    fn retrieve_events(&mut self) -> Result<Vec<Event>, Self::Error>;
}

/// A store whose log text lives in memory, laid out as the log file is.
/// Each handle starts from an empty log.
pub struct MemoryStore {
    contents: String,
}

impl View for MemoryStore {
    type V = Seq<char>;

    /// The log text.
    closed spec fn view(&self) -> Seq<char> {
        self.contents@
    }
}

impl MemoryStore {
    /// The log text.
    pub fn contents(&self) -> (r: &str)
        ensures
            r@ == self@,
    {
        self.contents.as_str()
    }
}

impl TimeTrackerStore for MemoryStore {
    type Error = FormatError;

    fn prepare(_profile_name: &str) -> (r: Result<MemoryStore, FormatError>)
        ensures
            r matches Ok(s) && s@ == Seq::<char>::empty(),
    {
        Ok(MemoryStore { contents: String::new() })
    }

    fn add_topic(&mut self, topic: &str, time: u128) -> (r: Result<(), FormatError>)
        ensures
            r is Ok,
            final(self)@ == old(self)@ + line_of(topic@, time),
    {
        let line = format_line(topic, time);
        self.contents.append(line.as_str());
        Ok(())
    }

    fn retrieve_events(&mut self) -> (r: Result<Vec<Event>, FormatError>)
        ensures
            final(self)@ == old(self)@,
            match r {
                Ok(v) => parse_contents(old(self)@) == Ok::<_, (LineFault, Seq<char>)>(models(v@)),
                Err(err) => parse_contents(old(self)@) == Err::<Seq<EventModel>, _>(
                    (err.fault, err.line@),
                ),
            },
    {
        get_events_from_file_contents(self.contents.as_str())
    }
}

} // verus!
