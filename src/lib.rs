//! An append-only log of topic switches: each event is a topic and the time
//! work on it started, kept one per line as `<time>; <topic>\n`.
pub mod event;
pub mod format;
pub mod laws;
pub mod store;
pub mod text;
