use time_tracker::event::Event;
use time_tracker::format::{
    data_file_name, format_line, get_event_from_line, get_events_from_file_contents, FormatError,
    LineFault,
};

fn event(topic: &str, start_time: u128) -> Event {
    Event { topic: topic.to_string(), start_time }
}

#[test]
fn it_works() {
    assert_eq!(2 + 2, 4);
}

#[test]
fn should_get_events_from_file_string_correctly() {
    let input = "\
        111; TestString\n\
        1234; MoreTest\n\
    ";
    let expected = vec![
        Event { topic: "TestString".to_string(), start_time: 111 },
        Event { topic: "MoreTest".to_string(), start_time: 1234 },
    ];

    let actual = get_events_from_file_contents(input).unwrap();
    assert_eq!(actual, expected);
}

#[test]
fn should_write_to_file() {
    assert_eq!(format_line("TestTopic", 12), "12; TestTopic\n");
}

#[test]
fn should_have_line_break_after_writing() {
    assert_eq!(format_line("TestTopicWithoutNewline", 20), "20; TestTopicWithoutNewline\n");
}

#[test]
fn should_have_exactly_one_line_break_after_writing() {
    assert_eq!(format_line("TestTopicWithNewline\n", 19), "19; TestTopicWithNewline\n");
}

#[test]
fn format_line_trims_both_ends() {
    assert_eq!(format_line(" \t Deep work \r\n", 0), "0; Deep work\n");
}

#[test]
fn format_line_of_blank_topic() {
    assert_eq!(format_line("   ", 7), "7; \n");
}

#[test]
fn format_line_largest_time() {
    let line = format_line("Max", u128::MAX);
    assert_eq!(line, "340282366920938463463374607431768211455; Max\n");
    let events = get_events_from_file_contents(&line).unwrap();
    assert_eq!(events, vec![event("Max", u128::MAX)]);
}

#[test]
fn data_file_name_of_profile() {
    assert_eq!(data_file_name("default"), "time_data_default.txt");
    assert_eq!(data_file_name(""), "time_data_.txt");
}

#[test]
fn line_with_surrounding_spaces() {
    assert_eq!(get_event_from_line("42;   Reading  "), Ok(event("Reading", 42)));
}

#[test]
fn line_splits_at_first_separator() {
    assert_eq!(get_event_from_line("5; a; b"), Ok(event("a; b", 5)));
}

#[test]
fn line_with_plus_sign_time() {
    assert_eq!(get_event_from_line("+12; Plus"), Ok(event("Plus", 12)));
}

#[test]
fn line_without_separator_is_an_error() {
    assert_eq!(
        get_event_from_line("12 TestTopic"),
        Err(FormatError { fault: LineFault::MissingSeparator, line: "12 TestTopic".to_string() })
    );
}

#[test]
fn line_with_non_numeric_time_is_an_error() {
    assert_eq!(
        get_event_from_line("twelve; TestTopic"),
        Err(FormatError { fault: LineFault::InvalidTime, line: "twelve; TestTopic".to_string() })
    );
}

#[test]
fn line_with_spaced_time_is_an_error() {
    assert_eq!(
        get_event_from_line(" 12; TestTopic"),
        Err(FormatError { fault: LineFault::InvalidTime, line: " 12; TestTopic".to_string() })
    );
}

#[test]
fn line_with_overflowing_time_is_an_error() {
    let line = "340282366920938463463374607431768211456; Big";
    assert_eq!(
        get_event_from_line(line),
        Err(FormatError { fault: LineFault::InvalidTime, line: line.to_string() })
    );
}

#[test]
fn empty_contents_hold_no_events() {
    assert_eq!(get_events_from_file_contents(""), Ok(vec![]));
}

#[test]
fn empty_lines_are_skipped() {
    let events = get_events_from_file_contents("\n1; A\n\n\n2; B").unwrap();
    assert_eq!(events, vec![event("A", 1), event("B", 2)]);
}

#[test]
fn first_malformed_line_is_reported() {
    assert_eq!(
        get_events_from_file_contents("1; A\nbroken\nx; B\n"),
        Err(FormatError { fault: LineFault::MissingSeparator, line: "broken".to_string() })
    );
}

#[test]
fn lines_round_trip() {
    let entries = [("Planning", 3u128), ("  Review\n", 1_700_000_000_000), ("Coding;tests", 9)];
    let mut text = String::new();
    for (topic, time) in entries {
        text.push_str(&format_line(topic, time));
    }
    assert_eq!(text.matches('\n').count(), 3);
    let events = get_events_from_file_contents(&text).unwrap();
    assert_eq!(
        events,
        vec![
            event("Planning", 3),
            event("Review", 1_700_000_000_000),
            event("Coding;tests", 9)
        ]
    );
}

#[test]
fn two_sessions_concatenate() {
    let first = format!("{}{}", format_line("One", 1), format_line("Two", 2));
    let second = format_line("Three", 3);
    let both = format!("{}{}", first, second);
    assert_eq!(
        get_events_from_file_contents(&both).unwrap(),
        vec![event("One", 1), event("Two", 2), event("Three", 3)]
    );
}
