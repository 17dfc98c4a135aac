//! The text layout of the event log. Each event is one line,
//! `<start_time>; <topic>\n`, with the topic trimmed of surrounding
//! whitespace. Reading splits the text at `\n`, skips empty lines, and splits
//! each remaining line at its first `;`.
use crate::event::{models, Event, EventModel};
use crate::text::{
    decimal, lemma_decimal_parses, lemma_trim, parse_decimal, parse_u128, split_once_char, trim, trim_str,
    u128_to_decimal,
};
use vstd::prelude::*;

verus! {

/// The line that records `topic` started at `time`.
pub open spec fn line_of(topic: Seq<char>, time: u128) -> Seq<char> {
    decimal(time as nat) + seq![';', ' '] + trim(topic) + seq!['\n']
}

/// The name of the file that holds the log of a profile.
pub open spec fn data_file_name_of(profile_name: Seq<char>) -> Seq<char> {
    "time_data_"@ + profile_name + ".txt"@
}

/// The text before the first `c` in `s` and the text after it, if `s` holds a `c`.
pub open spec fn split_first(s: Seq<char>, c: char) -> Option<(Seq<char>, Seq<char>)>
    decreases s.len(),
{
    if s.len() == 0 {
        None
    } else if s[0] == c {
        Some((Seq::empty(), s.drop_first()))
    } else {
        match split_first(s.drop_first(), c) {
            Some((a, b)) => Some((seq![s[0]] + a, b)),
            None => None,
        }
    }
}

/// `s` as a list of one item, or no item where it is empty.
pub open spec fn nonempty(s: Seq<char>) -> Seq<Seq<char>> {
    if s.len() == 0 {
        Seq::empty()
    } else {
        seq![s]
    }
}

/// The non-empty lines of `cur + s`, where `cur` is a line begun but not ended.
pub open spec fn records_from(cur: Seq<char>, s: Seq<char>) -> Seq<Seq<char>>
    decreases s.len(),
{
    if s.len() == 0 {
        nonempty(cur)
    } else if s[0] == '\n' {
        nonempty(cur) + records_from(Seq::empty(), s.drop_first())
    } else {
        records_from(cur.push(s[0]), s.drop_first())
    }
}

/// The non-empty `\n`-separated lines of `s`, in order.
pub open spec fn records(s: Seq<char>) -> Seq<Seq<char>> {
    records_from(Seq::empty(), s)
}

/// Why a line could not be read as an event.
#[derive(Clone, Copy, Debug, PartialEq, Eq, Structural)]
pub enum LineFault {
    /// The line holds no `;`.
    MissingSeparator,
    /// The text before the first `;` is not a decimal `u128`.
    InvalidTime,
}

/// A line of the log that could not be read, with the reason.
#[derive(Debug, PartialEq, Eq)]
pub struct FormatError {
    pub fault: LineFault,
    pub line: String,
}

/// The event that a line records, or why it records none.
pub open spec fn parse_line(line: Seq<char>) -> Result<EventModel, LineFault> {
    match split_first(line, ';') {
        None => Err(LineFault::MissingSeparator),
        Some((left, right)) => match parse_u128(left) {
            None => Err(LineFault::InvalidTime),
            Some(t) => Ok(EventModel { topic: trim(right), start_time: t }),
        },
    }
}

/// The events of a list of lines, or the first line that records none.
pub open spec fn parse_lines(lines: Seq<Seq<char>>) -> Result<Seq<EventModel>, (LineFault, Seq<char>)>
    decreases lines.len(),
{
    if lines.len() == 0 {
        Ok(Seq::empty())
    } else {
        match parse_line(lines[0]) {
            Err(f) => Err((f, lines[0])),
            Ok(e) => prepend(seq![e], parse_lines(lines.drop_first())),
        }
    }
}

/// `r` with `es` put in front of its events.
pub open spec fn prepend(
    es: Seq<EventModel>,
    r: Result<Seq<EventModel>, (LineFault, Seq<char>)>,
) -> Result<Seq<EventModel>, (LineFault, Seq<char>)> {
    match r {
        Ok(rest) => Ok(es + rest),
        Err(x) => Err(x),
    }
}

/// The events that a log text records, or the first line that records none.
pub open spec fn parse_contents(s: Seq<char>) -> Result<Seq<EventModel>, (LineFault, Seq<char>)> {
    parse_lines(records(s))
}

/// `split_first` finds the first `c`: where `a` holds no `c`, the split of
/// `a + [c] + b` is `(a, b)`.
pub proof fn lemma_split_first_at(a: Seq<char>, b: Seq<char>, c: char)
    requires
        !a.contains(c),
    ensures
        split_first(a + seq![c] + b, c) == Some((a, b)),
    decreases a.len(),
{
    let s = a + seq![c] + b;
    if a.len() == 0 {
        assert(s =~= seq![c] + b);
        assert(s.drop_first() =~= b);
        assert(a =~= Seq::<char>::empty());
    } else {
        let a2 = a.drop_first();
        assert(s.drop_first() =~= a2 + seq![c] + b);
        assert forall|i: int| 0 <= i < a2.len() implies a2[i] != c by {
            assert(a2[i] == a[i + 1]);
        }
        lemma_split_first_at(a2, b, c);
        assert(a[0] != c);
        assert(seq![a[0]] + a2 =~= a);
    }
}

/// Text without `c` has no split at `c`.
pub proof fn lemma_split_first_none(s: Seq<char>, c: char)
    requires
        !s.contains(c),
    ensures
        split_first(s, c) is None,
    decreases s.len(),
{
    if s.len() > 0 {
        assert(s[0] != c);
        let s2 = s.drop_first();
        assert forall|i: int| 0 <= i < s2.len() implies s2[i] != c by {
            assert(s2[i] == s[i + 1]);
        }
        lemma_split_first_none(s2, c);
    }
}

/// A line `a` without `\n`, begun with `cur` and ended by `\n`, is one record
/// (where not empty) in front of the records of what follows; unended, it is
/// the last one.
pub proof fn lemma_records_from(cur: Seq<char>, a: Seq<char>, b: Seq<char>)
    requires
        !a.contains('\n'),
    ensures
        records_from(cur, a + seq!['\n'] + b) == nonempty(cur + a) + records(b),
        records_from(cur, a) == nonempty(cur + a),
    decreases a.len(),
{
    let s = a + seq!['\n'] + b;
    if a.len() == 0 {
        assert(s.drop_first() =~= b);
        assert(cur + a =~= cur);
    } else {
        let a2 = a.drop_first();
        assert(s.drop_first() =~= a2 + seq!['\n'] + b);
        assert forall|i: int| 0 <= i < a2.len() implies a2[i] != '\n' by {
            assert(a2[i] == a[i + 1]);
        }
        assert(a[0] != '\n');
        lemma_records_from(cur.push(a[0]), a2, b);
        assert(cur.push(a[0]) + a2 =~= cur + a);
    }
}

/// The records of a text split at its first `\n`.
pub proof fn lemma_records_split(a: Seq<char>, b: Seq<char>)
    requires
        !a.contains('\n'),
    ensures
        records(a + seq!['\n'] + b) == nonempty(a) + records(b),
        records(a) == nonempty(a),
{
    lemma_records_from(Seq::empty(), a, b);
    assert(Seq::<char>::empty() + a =~= a);
}

/// Putting `x` and then `y` in front is putting `x + y` in front.
pub proof fn lemma_prepend_prepend(
    x: Seq<EventModel>,
    y: Seq<EventModel>,
    r: Result<Seq<EventModel>, (LineFault, Seq<char>)>,
)
    ensures
        prepend(x, prepend(y, r)) == prepend(x + y, r),
{
    if let Ok(rest) = r {
        assert(x + (y + rest) =~= (x + y) + rest);
    }
}

/// Reading a list of lines one line at a time.
pub proof fn lemma_parse_lines_front(line: Seq<char>, rest: Seq<Seq<char>>)
    ensures
        parse_lines(nonempty(line) + rest) == if line.len() == 0 {
            parse_lines(rest)
        } else {
            match parse_line(line) {
                Err(f) => Err((f, line)),
                Ok(e) => prepend(seq![e], parse_lines(rest)),
            }
        },
{
    if line.len() == 0 {
        assert(nonempty(line) + rest =~= rest);
    } else {
        let l = nonempty(line) + rest;
        assert(l[0] == line);
        assert(l.drop_first() =~= rest);
    }
}

/// The line of an event whose trimmed topic holds no `\n` is one record, and
/// reads back as that event.
pub proof fn lemma_line_of(topic: Seq<char>, time: u128)
    requires
        !trim(topic).contains('\n'),
    ensures
        records(line_of(topic, time)) == seq![line_of(topic, time).drop_last()],
        parse_line(line_of(topic, time).drop_last()) == Ok::<EventModel, LineFault>(
            EventModel { topic: trim(topic), start_time: time },
        ),
        line_of(topic, time).last() == '\n',
        !line_of(topic, time).drop_last().contains('\n'),
{
    let digits = decimal(time as nat);
    let rest = seq![' '] + trim(topic);
    let body = digits + seq![';'] + rest;
    let line = line_of(topic, time);
    lemma_decimal_parses(time);
    lemma_trim(topic);
    assert(line =~= body + seq!['\n']);
    assert(line.drop_last() =~= body);
    assert(!digits.contains(';')) by {
        if digits.contains(';') {
            let i = choose|i: int| 0 <= i < digits.len() && digits[i] == ';';
            assert(crate::text::is_digit(digits[i]));
        }
    }
    lemma_split_first_at(digits, rest, ';');
    assert(!body.contains('\n')) by {
        if body.contains('\n') {
            let i = choose|i: int| 0 <= i < body.len() && body[i] == '\n';
            if i < digits.len() {
                assert(crate::text::is_digit(digits[i]));
            } else if i > digits.len() + 1 {
                assert(trim(topic)[i - digits.len() - 2] == '\n');
            }
        }
    }
    lemma_records_split(body, Seq::empty());
    assert(body + seq!['\n'] + Seq::<char>::empty() =~= line);
    assert(records(Seq::<char>::empty()) == Seq::<Seq<char>>::empty());
    assert(nonempty(body) + Seq::<Seq<char>>::empty() =~= seq![body]);
}

/// The name of the file that holds the log of `profile_name`:
/// `time_data_<profile_name>.txt`.
pub fn data_file_name(profile_name: &str) -> (r: String)
    ensures
        r@ == data_file_name_of(profile_name@),
{
    let mut name = String::from_str("time_data_");
    name.append(profile_name);
    name.append(".txt");
    name
}

/// The line that records `topic` started at `time`: the decimal time, `"; "`,
/// the trimmed topic and one `\n`.
pub fn format_line(topic: &str, time: u128) -> (r: String)
    ensures
        r@ == line_of(topic@, time),
{
    let mut line = u128_to_decimal(time);
    line.append("; ");
    line.append(trim_str(topic));
    line.append("\n");
    proof {
        reveal_strlit("; ");
        reveal_strlit("\n");
    }
    line
}

/// Reads one line of the log: the decimal time before the first `;`, and the
/// trimmed text after it as the topic.
pub fn get_event_from_line(line: &str) -> (r: Result<Event, FormatError>)
    ensures
        match r {
            Ok(e) => parse_line(line@) == Ok::<EventModel, LineFault>(e@),
            Err(err) => parse_line(line@) == Err::<EventModel, LineFault>(err.fault) && err.line@
                == line@,
        },
{
    match split_once_char(line, ';') {
        None => {
            proof {
                lemma_split_first_none(line@, ';');
            }
            Err(FormatError { fault: LineFault::MissingSeparator, line: String::from_str(line) })
        },
        Some((left, right)) => {
            proof {
                lemma_split_first_at(left@, right@, ';');
            }
            match parse_decimal(left) {
                None => Err(FormatError { fault: LineFault::InvalidTime, line: String::from_str(line) }),
                Some(start_time) => {
                    let topic = String::from_str(trim_str(right));
                    Ok(Event { topic, start_time })
                },
            }
        },
    }
}

/// Reads every event of a log text, in order; empty lines are skipped. The
/// first line that records no event is the error.
pub fn get_events_from_file_contents(contents: &str) -> (r: Result<Vec<Event>, FormatError>)
    ensures
        match r {
            Ok(v) => parse_contents(contents@) == Ok::<_, (LineFault, Seq<char>)>(models(v@)),
            Err(err) => parse_contents(contents@) == Err::<Seq<EventModel>, _>((err.fault, err.line@)),
        },
{
    let mut events: Vec<Event> = Vec::new();
    let mut rest: &str = contents;
    loop
        invariant
            parse_contents(contents@) == prepend(models(events@), parse_contents(rest@)),
        decreases rest@.len(),
    {
        match split_once_char(rest, '\n') {
            Some((line, tail)) => {
                proof {
                    lemma_records_split(line@, tail@);
                    lemma_parse_lines_front(line@, records(tail@));
                }
                if !line.is_empty() {
                    match get_event_from_line(line) {
                        Ok(e) => {
                            let ghost done = models(events@);
                            proof {
                                lemma_prepend_prepend(done, seq![e@], parse_contents(tail@));
                            }
                            events.push(e);
                            assert(models(events@) =~= done + seq![e@]);
                        },
                        Err(err) => {
                            return Err(err);
                        },
                    }
                }
                rest = tail;
            },
            None => {
                proof {
                    lemma_records_split(rest@, Seq::empty());
                    lemma_parse_lines_front(rest@, Seq::empty());
                    assert(nonempty(rest@) + Seq::<Seq<char>>::empty() =~= nonempty(rest@));
                }
                if !rest.is_empty() {
                    match get_event_from_line(rest) {
                        Ok(e) => {
                            let ghost done = models(events@);
                            events.push(e);
                            assert(models(events@) =~= done + seq![e@]);
                            assert(done + (seq![e@] + Seq::<EventModel>::empty()) =~= done + seq![
                                e@,
                            ]);
                        },
                        Err(err) => {
                            return Err(err);
                        },
                    }
                } else {
                    assert(models(events@) + Seq::<EventModel>::empty() =~= models(events@));
                }
                return Ok(events);
            },
        }
    }
}

} // verus!
