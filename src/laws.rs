//! What holds of the log text across appends and reads.
use crate::event::EventModel;
use crate::format::{
    lemma_line_of, line_of, nonempty, parse_contents, parse_lines, prepend, records, records_from,
    LineFault,
};
use crate::text::{lemma_trim, trim};
use vstd::prelude::*;

verus! {

/// The log text after appending each `(topic, time)` of `entries` in order.
pub open spec fn log_of(entries: Seq<(Seq<char>, u128)>) -> Seq<char>
    decreases entries.len(),
{
    if entries.len() == 0 {
        Seq::empty()
    } else {
        log_of(entries.drop_last()) + line_of(entries.last().0, entries.last().1)
    }
}

/// The events that appending `entries` records: each topic trimmed.
pub open spec fn events_of(entries: Seq<(Seq<char>, u128)>) -> Seq<EventModel> {
    entries.map_values(|e: (Seq<char>, u128)| EventModel { topic: trim(e.0), start_time: e.1 })
}

/// No topic of `entries` keeps a `\n` once trimmed.
pub open spec fn single_line_topics(entries: Seq<(Seq<char>, u128)>) -> bool {
    forall|i: int| 0 <= i < entries.len() ==> !(#[trigger] trim(entries[i].0)).contains('\n')
}

/// The number of `\n` characters in `s`.
pub open spec fn newline_count(s: Seq<char>) -> nat
    decreases s.len(),
{
    if s.len() == 0 {
        0
    } else {
        newline_count(s.drop_last()) + if s.last() == '\n' {
            1nat
        } else {
            0nat
        }
    }
}

/// Text that is empty or ends a line.
pub open spec fn ends_line(s: Seq<char>) -> bool {
    s.len() == 0 || s.last() == '\n'
}

proof fn lemma_records_from_concat(cur: Seq<char>, s: Seq<char>, t: Seq<char>)
    requires
        s.len() > 0,
        s.last() == '\n',
    ensures
        records_from(cur, s + t) == records_from(cur, s) + records(t),
    decreases s.len(),
{
    let st = s + t;
    let s2 = s.drop_first();
    assert(st[0] == s[0]);
    assert(st.drop_first() =~= s2 + t);
    if s2.len() == 0 {
        assert(s2 + t =~= t);
        assert(records_from(Seq::empty(), s2) == Seq::<Seq<char>>::empty());
        assert(nonempty(cur) + Seq::<Seq<char>>::empty() =~= nonempty(cur));
    } else {
        assert(s2.last() == s.last());
        if s[0] == '\n' {
            lemma_records_from_concat(Seq::empty(), s2, t);
            assert(nonempty(cur) + (records_from(Seq::empty(), s2) + records(t)) =~= (nonempty(cur)
                + records_from(Seq::empty(), s2)) + records(t));
        } else {
            lemma_records_from_concat(cur.push(s[0]), s2, t);
        }
    }
}

/// The records of two texts, the first of which ends a line, follow each other.
pub proof fn lemma_records_concat(s: Seq<char>, t: Seq<char>)
    requires
        ends_line(s),
    ensures
        records(s + t) == records(s) + records(t),
{
    if s.len() == 0 {
        assert(s + t =~= t);
        assert(records(s) + records(t) =~= records(t));
    } else {
        lemma_records_from_concat(Seq::empty(), s, t);
    }
}

/// Reading two lists of lines one after the other.
pub proof fn lemma_parse_lines_concat(a: Seq<Seq<char>>, b: Seq<Seq<char>>)
    ensures
        parse_lines(a + b) == match parse_lines(a) {
            Ok(ea) => prepend(ea, parse_lines(b)),
            Err(x) => Err(x),
        },
    decreases a.len(),
{
    if a.len() == 0 {
        assert(a + b =~= b);
        assert(prepend(Seq::empty(), parse_lines(b)) == parse_lines(b)) by {
            if let Ok(eb) = parse_lines(b) {
                assert(Seq::<EventModel>::empty() + eb =~= eb);
            }
        }
    } else {
        let ab = a + b;
        assert(ab[0] == a[0]);
        assert(ab.drop_first() =~= a.drop_first() + b);
        lemma_parse_lines_concat(a.drop_first(), b);
        if let Ok(e) = crate::format::parse_line(a[0]) {
            if let Ok(ea) = parse_lines(a.drop_first()) {
                crate::format::lemma_prepend_prepend(seq![e], ea, parse_lines(b));
            }
        }
    }
}

/// Appending an event to a log that ends a line adds that event, with its
/// topic trimmed, after the events already recorded, and leaves an error
/// already there as it was. This holds after any number of reads, which
/// leave the text unchanged.
pub proof fn lemma_append_line(s: Seq<char>, topic: Seq<char>, time: u128)
    requires
        ends_line(s),
        !trim(topic).contains('\n'),
    ensures
        parse_contents(s + line_of(topic, time)) == match parse_contents(s) {
            Ok(es) => Ok(es.push(EventModel { topic: trim(topic), start_time: time })),
            Err(x) => Err::<Seq<EventModel>, (LineFault, Seq<char>)>(x),
        },
        ends_line(s + line_of(topic, time)),
{
    let line = line_of(topic, time);
    let e = EventModel { topic: trim(topic), start_time: time };
    lemma_line_of(topic, time);
    lemma_records_concat(s, line);
    lemma_parse_lines_concat(records(s), records(line));
    let one = seq![line.drop_last()];
    assert(one[0] == line.drop_last());
    assert(one.drop_first() =~= Seq::<Seq<char>>::empty());
    assert(parse_lines(one.drop_first()) == Ok::<_, (LineFault, Seq<char>)>(
        Seq::<EventModel>::empty(),
    ));
    assert(crate::format::parse_line(one[0]) == Ok::<EventModel, LineFault>(e));
    assert(parse_lines(one) == Ok::<_, (LineFault, Seq<char>)>(seq![e] + Seq::<EventModel>::empty()));
    assert(seq![e] + Seq::<EventModel>::empty() =~= seq![e]);
    if let Ok(es) = parse_contents(s) {
        assert(es + seq![e] =~= es.push(e));
    }
    assert((s + line).last() == line.last());
}

/// Round trip: the events read back from the log of `entries` are `entries`,
/// in order, each topic trimmed (for topics that hold no `\n` once trimmed).
pub proof fn lemma_round_trip(entries: Seq<(Seq<char>, u128)>)
    requires
        single_line_topics(entries),
    ensures
        parse_contents(log_of(entries)) == Ok::<_, (LineFault, Seq<char>)>(events_of(entries)),
        ends_line(log_of(entries)),
    decreases entries.len(),
{
    if entries.len() == 0 {
        assert(records(Seq::<char>::empty()) == Seq::<Seq<char>>::empty());
        assert(events_of(entries) =~= Seq::<EventModel>::empty());
    } else {
        let init = entries.drop_last();
        let (topic, time) = entries.last();
        assert(single_line_topics(init)) by {
            assert forall|i: int| 0 <= i < init.len() implies !(#[trigger] trim(
                init[i].0,
            )).contains('\n') by {
                assert(init[i] == entries[i]);
            }
        }
        assert(!trim(entries[entries.len() - 1].0).contains('\n'));
        lemma_round_trip(init);
        lemma_append_line(log_of(init), topic, time);
        assert(events_of(entries) =~= events_of(init).push(
            EventModel { topic: trim(topic), start_time: time },
        ));
    }
}

/// The log of two lists of entries appended one after the other is the two
/// logs one after the other.
pub proof fn lemma_log_concat(first: Seq<(Seq<char>, u128)>, second: Seq<(Seq<char>, u128)>)
    ensures
        log_of(first + second) == log_of(first) + log_of(second),
    decreases second.len(),
{
    if second.len() == 0 {
        assert(first + second =~= first);
        assert(log_of(first) + log_of(second) =~= log_of(first));
    } else {
        let both = first + second;
        assert(both.drop_last() =~= first + second.drop_last());
        assert(both.last() == second.last());
        lemma_log_concat(first, second.drop_last());
        let l = line_of(second.last().0, second.last().1);
        assert(log_of(first) + log_of(second.drop_last()) + l =~= log_of(first) + (log_of(
            second.drop_last(),
        ) + l));
    }
}

/// Re-opening: the events of a log written in one session and appended to in
/// a later one are those of both sessions, in order of appending.
pub proof fn lemma_reopen(first: Seq<(Seq<char>, u128)>, second: Seq<(Seq<char>, u128)>)
    requires
        single_line_topics(first),
        single_line_topics(second),
    ensures
        parse_contents(log_of(first) + log_of(second)) == Ok::<_, (LineFault, Seq<char>)>(
            events_of(first) + events_of(second),
        ),
{
    let both = first + second;
    assert(single_line_topics(both)) by {
        assert forall|i: int| 0 <= i < both.len() implies !(#[trigger] trim(both[i].0)).contains(
            '\n',
        ) by {
            if i < first.len() {
                assert(both[i] == first[i]);
            } else {
                assert(both[i] == second[i - first.len()]);
            }
        }
    }
    lemma_log_concat(first, second);
    lemma_round_trip(both);
    assert(events_of(both) =~= events_of(first) + events_of(second));
}

/// After an append the log ends with exactly one `\n`: its last character is
/// `\n` and the one before it is not.
pub proof fn lemma_one_terminator(s: Seq<char>, topic: Seq<char>, time: u128)
    ensures
        (s + line_of(topic, time)).last() == '\n',
        (s + line_of(topic, time))[(s + line_of(topic, time)).len() - 2] != '\n',
{
    let digits = crate::text::decimal(time as nat);
    let t = trim(topic);
    let line = line_of(topic, time);
    let all = s + line;
    crate::text::lemma_decimal_parses(time);
    lemma_trim(topic);
    assert(line =~= (digits + seq![';', ' '] + t) + seq!['\n']);
    assert(all[all.len() - 2] == line[line.len() - 2]);
    if t.len() > 0 {
        assert(line[line.len() - 2] == t.last());
    } else {
        assert(line[line.len() - 2] == ' ');
    }
}

/// The `\n` characters of two texts one after the other.
pub proof fn lemma_newline_count_concat(a: Seq<char>, b: Seq<char>)
    ensures
        newline_count(a + b) == newline_count(a) + newline_count(b),
    decreases b.len(),
{
    if b.len() == 0 {
        assert(a + b =~= a);
    } else {
        assert((a + b).drop_last() =~= a + b.drop_last());
        assert((a + b).last() == b.last());
        lemma_newline_count_concat(a, b.drop_last());
    }
}

proof fn lemma_newline_count_none(s: Seq<char>)
    requires
        !s.contains('\n'),
    ensures
        newline_count(s) == 0,
    decreases s.len(),
{
    if s.len() > 0 {
        assert(s.last() == s[s.len() - 1]);
        assert(!s.drop_last().contains('\n')) by {
            if s.drop_last().contains('\n') {
                let i = choose|i: int| 0 <= i < s.len() - 1 && s.drop_last()[i] == '\n';
                assert(s[i] == '\n');
            }
        }
        lemma_newline_count_none(s.drop_last());
    }
}

/// After appending `entries` to an empty log it holds exactly one line per
/// entry (for topics that hold no `\n` once trimmed).
pub proof fn lemma_line_count(entries: Seq<(Seq<char>, u128)>)
    requires
        single_line_topics(entries),
    ensures
        newline_count(log_of(entries)) == entries.len(),
        records(log_of(entries)).len() == entries.len(),
    decreases entries.len(),
{
    if entries.len() == 0 {
        assert(records(Seq::<char>::empty()) == Seq::<Seq<char>>::empty());
    } else {
        let init = entries.drop_last();
        let (topic, time) = entries.last();
        assert(single_line_topics(init)) by {
            assert forall|i: int| 0 <= i < init.len() implies !(#[trigger] trim(
                init[i].0,
            )).contains('\n') by {
                assert(init[i] == entries[i]);
            }
        }
        assert(!trim(entries[entries.len() - 1].0).contains('\n'));
        lemma_line_count(init);
        lemma_round_trip(init);
        let line = line_of(topic, time);
        lemma_line_of(topic, time);
        lemma_newline_count_concat(log_of(init), line);
        assert(line.drop_last() + seq!['\n'] =~= line);
        lemma_newline_count_none(line.drop_last());
        lemma_newline_count_concat(line.drop_last(), seq!['\n']);
        assert(seq!['\n'].drop_last() =~= Seq::<char>::empty());
        lemma_records_concat(log_of(init), line);
    }
}

} // verus!
