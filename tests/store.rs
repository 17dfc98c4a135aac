use time_tracker::event::Event;
use time_tracker::format::LineFault;
use time_tracker::store::{MemoryStore, TimeTrackerStore};

fn event(topic: &str, start_time: u128) -> Event {
    Event { topic: topic.to_string(), start_time }
}

#[test]
fn should_write_multiple_lines_to_file() {
    let mut store = MemoryStore::prepare("file_double_write").unwrap();
    store.add_topic("TestTopic", 12).unwrap();
    store.add_topic("TestTopic2", 22).unwrap();
    assert_eq!(store.contents(), "12; TestTopic\n22; TestTopic2\n");
}

#[test]
fn should_get_events_from_file_correctly() {
    let mut store = MemoryStore::prepare("get_events_tests").unwrap();
    store.add_topic("RealWrite", 29).unwrap();
    store.add_topic("Another", 31).unwrap();

    let expected = vec![
        Event { topic: "RealWrite".to_string(), start_time: 29 },
        Event { topic: "Another".to_string(), start_time: 31 },
    ];
    let actual = store.retrieve_events().unwrap();

    assert_eq!(actual, expected);
}

#[test]
fn fresh_store_is_empty() {
    let mut store = MemoryStore::prepare("fresh").unwrap();
    assert_eq!(store.contents(), "");
    assert_eq!(store.retrieve_events().unwrap(), vec![]);
}

#[test]
fn reading_twice_then_appending() {
    let mut store = MemoryStore::prepare("reads").unwrap();
    store.add_topic("First", 10).unwrap();
    let once = store.retrieve_events().unwrap();
    let twice = store.retrieve_events().unwrap();
    assert_eq!(once, twice);
    assert_eq!(store.contents(), "10; First\n");
    store.add_topic("Second\n", 20).unwrap();
    assert_eq!(store.contents(), "10; First\n20; Second\n");
    assert_eq!(store.retrieve_events().unwrap(), vec![event("First", 10), event("Second", 20)]);
}

#[test]
fn multi_line_topic_breaks_the_log() {
    let mut store = MemoryStore::prepare("broken").unwrap();
    store.add_topic("one\ntwo", 5).unwrap();
    let err = store.retrieve_events().unwrap_err();
    assert_eq!(err.fault, LineFault::MissingSeparator);
    assert_eq!(err.line, "two");
}
