//! The upload history: finished and failed uploads, newest last.

use vstd::prelude::*;

use crate::text::{chars_of, eq_chars, string_of_range, trim, trim_chars, views};

verus! {

broadcast use vstd::string::group_string_axioms;

/// The history keeps at most this many events.
pub const HISTORY_CAP: usize = 200;

/// An event is not recorded again within this many seconds of an equal one.
pub const REPEAT_WINDOW: i64 = 120;

#[derive(Debug, Clone)]
pub struct HistoryEvent {
    pub at: i64,
    pub name: String,
    pub size: i64,
    pub status: String,
    pub detail: String,
}

/// The view of an event: (at, name, size, status, detail).
pub type EventView = (i64, Seq<char>, i64, Seq<char>, Seq<char>);

pub open spec fn event_view(e: HistoryEvent) -> EventView {
    (e.at, e.name@, e.size, e.status@, e.detail@)
}

pub open spec fn event_views(s: Seq<HistoryEvent>) -> Seq<EventView> {
    Seq::new(s.len(), |i: int| event_view(s[i]))
}

/// `e` repeats `ev`: same status, name and detail, less than two minutes
/// before `now`.
pub open spec fn repeats(e: EventView, ev: EventView, now: i64) -> bool {
    &&& e.3 == ev.3
    &&& e.1 == ev.1
    &&& e.4 == ev.4
    &&& now - e.0 < 120
}

/// The history after recording `ev` at time `now`: unchanged when `ev`
/// repeats a recent event, else `ev` appended and the oldest events dropped
/// beyond 200.
pub open spec fn recorded(events: Seq<EventView>, ev: EventView, now: i64) -> Seq<EventView> {
    if exists|i: int| 0 <= i < events.len() && repeats(#[trigger] events[i], ev, now) {
        events
    } else {
        let all = events.push(ev);
        if all.len() > 200 {
            all.skip(all.len() - 200)
        } else {
            all
        }
    }
}

/// The name a failure message is filed under: the text after its last
/// slash or backslash.
pub open spec fn failure_name(detail: Seq<char>) -> Seq<char>
    decreases detail.len(),
{
    if detail.len() == 0 {
        detail
    } else if detail.last() == '/' || detail.last() == '\\' {
        Seq::empty()
    } else {
        failure_name(detail.drop_last()).push(detail.last())
    }
}

/// The history after filing each non-blank message, trimmed, as a failure
/// at `now` under its `failure_name`.
pub open spec fn failures_recorded(events: Seq<EventView>, messages: Seq<Seq<char>>, now: i64) -> Seq<EventView>
    decreases messages.len(),
{
    if messages.len() == 0 {
        events
    } else {
        let mid = failures_recorded(events, messages.drop_last(), now);
        let d = trim(messages.last());
        if d.len() == 0 {
            mid
        } else {
            recorded(mid, (now, failure_name(d), 0, "failed"@, d), now)
        }
    }
}

/// Records `ev` in the history at time `now` (see `recorded`).
pub fn push(events: Vec<HistoryEvent>, ev: HistoryEvent, now: i64) -> (r: Vec<HistoryEvent>)
    ensures
        event_views(r@) == recorded(event_views(events@), event_view(ev), now),
{
    let st = chars_of(ev.status.as_str());
    let nm = chars_of(ev.name.as_str());
    let dt = chars_of(ev.detail.as_str());
    let mut i: usize = 0;
    while i < events.len()
        invariant
            i <= events@.len(),
            st@ == ev.status@,
            nm@ == ev.name@,
            dt@ == ev.detail@,
            forall|j: int| 0 <= j < i ==> !repeats(#[trigger] event_views(events@)[j], event_view(ev), now),
        decreases events.len() - i,
    {
        let e = &events[i];
        let recent = (now as i128) - (e.at as i128) < 120;
        if recent && eq_chars(chars_of(e.status.as_str()).as_slice(), st.as_slice()) && eq_chars(
            chars_of(e.name.as_str()).as_slice(),
            nm.as_slice(),
        ) && eq_chars(chars_of(e.detail.as_str()).as_slice(), dt.as_slice()) {
            assert(repeats(event_views(events@)[i as int], event_view(ev), now));
            return events;
        }
        i = i + 1;
    }
    let ghost ev_v = event_view(ev);
    let ghost base = event_views(events@);
    let mut all = events;
    all.push(ev);
    assert(event_views(all@) =~= base.push(ev_v));
    if all.len() > HISTORY_CAP {
        let skip = all.len() - HISTORY_CAP;
        let mut kept: Vec<HistoryEvent> = Vec::new();
        let ghost a = all@;
        let mut rest = all;
        let mut k: usize = 0;
        while k < skip
            invariant
                k <= skip,
                skip + 200 == a.len(),
                rest@ == a.skip(k as int),
            decreases skip - k,
        {
            let ghost before = rest@;
            let _ = rest.remove(0);
            assert(rest@ =~= a.skip(k + 1));
            k = k + 1;
        }
        assert(event_views(rest@) =~= base.push(ev_v).skip(base.push(ev_v).len() - 200));
        return rest;
    }
    all
}

/// The history after an upload of `name` (`size` bytes) finished at `now`.
pub fn push_finished(events: Vec<HistoryEvent>, name: &str, size: i64, now: i64) -> (r: Vec<HistoryEvent>)
    ensures
        event_views(r@) == recorded(
            event_views(events@),
            (now, name@, size, "finished"@, "Uploaded. The file is no longer waiting on disk."@),
            now,
        ),
{
    let ev = HistoryEvent {
        at: now,
        name: name.to_string(),
        size,
        status: "finished".to_string(),
        detail: "Uploaded. The file is no longer waiting on disk.".to_string(),
    };
    push(events, ev, now)
}

/// The name a failure message is filed under.
pub fn failure_name_of(detail: &[char]) -> (r: String)
    ensures
        r@ == failure_name(detail@),
{
    let mut start: usize = 0;
    let mut i: usize = 0;
    while i < detail.len()
        invariant
            i <= detail@.len(),
            start <= i,
            failure_name(detail@.take(i as int)) == detail@.subrange(start as int, i as int),
        decreases detail.len() - i,
    {
        assert(detail@.take(i + 1).drop_last() == detail@.take(i as int));
        if detail[i] == '/' || detail[i] == '\\' {
            start = i + 1;
            assert(detail@.subrange(start as int, i + 1) =~= Seq::<char>::empty());
        } else {
            assert(detail@.subrange(start as int, i + 1) == detail@.subrange(start as int, i as int).push(detail@[i as int]));
        }
        i = i + 1;
    }
    assert(detail@.take(detail@.len() as int) == detail@);
    string_of_range(detail, start, detail.len())
}

/// Files each non-blank message (trimmed) as a failed upload at `now`,
/// under the name after its last separator.
pub fn note_failures(events: Vec<HistoryEvent>, messages: &[String], now: i64) -> (r: Vec<HistoryEvent>)
    ensures
        event_views(r@) == failures_recorded(event_views(events@), views(messages@), now),
{
    let ghost ms = views(messages@);
    let mut evs = events;
    let mut i: usize = 0;
    assert(ms.take(0) =~= Seq::<Seq<char>>::empty());
    while i < messages.len()
        invariant
            i <= ms.len(),
            ms == views(messages@),
            event_views(evs@) == failures_recorded(event_views(events@), ms.take(i as int), now),
        decreases messages.len() - i,
    {
        assert(ms.take(i + 1).drop_last() == ms.take(i as int));
        assert(ms.take(i + 1).last() == messages@[i as int]@);
        let d = trim_chars(chars_of(messages[i].as_str()).as_slice());
        if d.len() > 0 {
            let ev = HistoryEvent {
                at: now,
                name: failure_name_of(d.as_slice()),
                size: 0,
                status: "failed".to_string(),
                detail: crate::text::string_of(d.as_slice()),
            };
            evs = push(evs, ev, now);
        }
        i = i + 1;
    }
    assert(ms.take(ms.len() as int) == ms);
    evs
}

// ---------------------------------------------------------------------------
// Laws

/// The history never grows beyond 200 events.
pub proof fn law_history_capped(events: Seq<EventView>, ev: EventView, now: i64)
    requires
        events.len() <= 200,
    ensures
        recorded(events, ev, now).len() <= 200,
{
}

/// An event equal to one recorded less than two minutes earlier is not
/// recorded again.
pub proof fn law_history_no_repeat(events: Seq<EventView>, ev: EventView, now: i64, i: int)
    requires
        0 <= i < events.len(),
        repeats(events[i], ev, now),
    ensures
        recorded(events, ev, now) == events,
{
}

/// A new event is recorded last, after the events kept.
pub proof fn law_history_newest_last(events: Seq<EventView>, ev: EventView, now: i64)
    requires
        forall|i: int| 0 <= i < events.len() ==> !repeats(#[trigger] events[i], ev, now),
    ensures
        recorded(events, ev, now).len() > 0,
        recorded(events, ev, now).last() == ev,
{
}

} // verus!
