//! The bandwidth schedule: rules that switch rclone's upload limit at given
//! times of day.

use vstd::prelude::*;

use crate::parse::join_words;
use crate::text::{
    concat, decimal, decimal_string, push_str, chars_of, eq_str, find_char, first_index, parse_bounded, parse_u32_spec, push_all, string_of,
    string_push, trim, trim_chars, views,
};

verus! {

broadcast use vstd::string::group_string_axioms;

/// From `start` (`HH:MM`, local time) on, uploads are limited to `limit`
/// (an rclone rate such as `2M`, or `off`).
#[derive(Debug, Clone)]
pub struct BandwidthRule {
    pub start: String,
    pub limit: String,
}

#[derive(Debug, Clone)]
pub struct BandwidthSchedule {
    pub enabled: bool,
    pub rules: Vec<BandwidthRule>,
}

impl Default for BandwidthSchedule {
    /// Off, with a 2M limit from 08:00 and none from 22:00.
    fn default() -> (s: Self)
        ensures
            !s.enabled,
            s.rules@.len() == 2,
            s.rules@[0].start@ == "08:00"@,
            s.rules@[0].limit@ == "2M"@,
            s.rules@[1].start@ == "22:00"@,
            s.rules@[1].limit@ == "off"@,
    {
        let mut rules = Vec::new();
        rules.push(BandwidthRule { start: "08:00".to_string(), limit: "2M".to_string() });
        rules.push(BandwidthRule { start: "22:00".to_string(), limit: "off".to_string() });
        BandwidthSchedule { enabled: false, rules }
    }
}

/// A rule with both a start and a limit.
pub open spec fn rule_complete(r: BandwidthRule) -> bool {
    trim(r.start@).len() > 0 && trim(r.limit@).len() > 0
}

/// A rule written as rclone's timetable entry `HH:MM,limit`.
pub open spec fn rule_entry(r: BandwidthRule) -> Seq<char> {
    trim(r.start@) + seq![','] + trim(r.limit@)
}

/// The timetable entries of the complete rules, in order.
pub open spec fn timetable_entries(rules: Seq<BandwidthRule>) -> Seq<Seq<char>>
    decreases rules.len(),
{
    if rules.len() == 0 {
        Seq::empty()
    } else if rule_complete(rules.last()) {
        timetable_entries(rules.drop_last()).push(rule_entry(rules.last()))
    } else {
        timetable_entries(rules.drop_last())
    }
}

/// rclone's `--bwlimit` timetable for a schedule: `None` when the schedule is
/// off or has no complete rule.
pub open spec fn timetable_spec(s: BandwidthSchedule) -> Option<Seq<char>> {
    if !s.enabled || timetable_entries(s.rules@).len() == 0 {
        None
    } else {
        Some(join_words(timetable_entries(s.rules@)))
    }
}

/// `HH:MM` as minutes after midnight.
pub open spec fn hhmm_spec(raw: Seq<char>) -> Option<u32> {
    match first_index(raw, ':') {
        None => None,
        Some(c) => match (parse_u32_spec(raw.take(c)), parse_u32_spec(raw.skip(c + 1))) {
            (Some(h), Some(m)) => if h > 23 || m > 59 {
                None
            } else {
                Some((h * 60 + m) as u32)
            },
            _ => None,
        },
    }
}

/// The rules that take part in the choice of the current rate:
/// (minute of the day, limit), in order.
pub open spec fn timed_rules(rules: Seq<BandwidthRule>) -> Seq<(u32, Seq<char>)>
    decreases rules.len(),
{
    if rules.len() == 0 {
        Seq::empty()
    } else {
        let r = rules.last();
        match hhmm_spec(trim(r.start@)) {
            Some(m) => if trim(r.limit@).len() > 0 {
                timed_rules(rules.drop_last()).push((m, trim(r.limit@)))
            } else {
                timed_rules(rules.drop_last())
            },
            None => timed_rules(rules.drop_last()),
        }
    }
}

/// Rule `j` is eligible: it has started by `now` when `early` holds.
pub open spec fn eligible(t: Seq<(u32, Seq<char>)>, now: u32, early: bool, j: int) -> bool {
    0 <= j < t.len() && (early ==> t[j].0 <= now)
}

/// Rule `j` is the latest eligible one: the latest start, and among equal
/// starts the one listed last.
pub open spec fn latest(t: Seq<(u32, Seq<char>)>, now: u32, early: bool, j: int) -> bool {
    &&& eligible(t, now, early, j)
    &&& forall|k: int| #[trigger] eligible(t, now, early, k) ==> (t[k].0 < t[j].0 || (t[k].0 == t[j].0 && k <= j))
}

/// Some rule has started by `now`.
pub open spec fn any_started(t: Seq<(u32, Seq<char>)>, now: u32) -> bool {
    exists|k: int| #[trigger] eligible(t, now, true, k)
}

/// The rate in force at minute `now`: the rule started latest by `now`;
/// before the first start of the day, the rule started latest overall
/// (yesterday's last rule).
pub open spec fn rate_at(t: Seq<(u32, Seq<char>)>, now: u32, r: Seq<char>) -> bool {
    exists|j: int| latest(t, now, any_started(t, now), j) && r == t[j].1
}

/// The `--bwlimit` timetable for a schedule, `HH:MM,limit` entries joined by
/// spaces; `None` when the schedule is off or no rule is complete.
pub fn timetable(schedule: &BandwidthSchedule) -> (r: Option<String>)
    ensures
        match r {
            Some(s) => timetable_spec(*schedule) == Some(s@),
            None => timetable_spec(*schedule) is None,
        },
{
    if !schedule.enabled {
        return None;
    }
    let mut out = String::new();
    let mut count: usize = 0;
    let mut i: usize = 0;
    while i < schedule.rules.len()
        invariant
            i <= schedule.rules@.len(),
            count as nat == timetable_entries(schedule.rules@.take(i as int)).len(),
            count <= i,
            count == 0 ==> out@.len() == 0,
            count > 0 ==> out@ == join_words(timetable_entries(schedule.rules@.take(i as int))),
        decreases schedule.rules.len() - i,
    {
        let r = &schedule.rules[i];
        let s = trim_chars(chars_of(r.start.as_str()).as_slice());
        let l = trim_chars(chars_of(r.limit.as_str()).as_slice());
        assert(schedule.rules@.take(i + 1).drop_last() == schedule.rules@.take(i as int));
        if s.len() > 0 && l.len() > 0 {
            let ghost prev = timetable_entries(schedule.rules@.take(i as int));
            if count > 0 {
                string_push(&mut out, ' ');
            }
            push_all(&mut out, s.as_slice());
            string_push(&mut out, ',');
            push_all(&mut out, l.as_slice());
            proof {
                let e = rule_entry(schedule.rules@[i as int]);
                let now = prev.push(e);
                assert(now.drop_last() == prev);
                if count == 0 {
                    assert(out@ =~= e);
                } else {
                    assert(out@ =~= join_words(prev) + seq![' '] + e);
                }
            }
            count = count + 1;
        }
        i = i + 1;
    }
    assert(schedule.rules@.take(schedule.rules@.len() as int) == schedule.rules@);
    if count == 0 {
        None
    } else {
        Some(out)
    }
}

/// Adds `--bwlimit <timetable>` to a command when the schedule gives a
/// timetable and the command has no `--bwlimit` of its own.
pub fn append_bwlimit(argv: &mut Vec<String>, schedule: &BandwidthSchedule)
    ensures
        ({
            let has = views(old(argv)@).contains("--bwlimit"@);
            match timetable_spec(*schedule) {
                Some(t) => if has {
                    final(argv)@ == old(argv)@
                } else {
                    views(final(argv)@) == views(old(argv)@).push("--bwlimit"@).push(t)
                },
                None => final(argv)@ == old(argv)@,
            }
        }),
{
    let limit = match timetable(schedule) {
        Some(l) => l,
        None => return,
    };
    let mut i: usize = 0;
    while i < argv.len()
        invariant
            i <= argv@.len(),
            argv@ == old(argv)@,
            forall|j: int| 0 <= j < i ==> argv@[j]@ != "--bwlimit"@,
        decreases argv.len() - i,
    {
        let c = chars_of(argv[i].as_str());
        if eq_str(c.as_slice(), "--bwlimit") {
            assert(views(argv@)[i as int] == "--bwlimit"@);
            return;
        }
        i = i + 1;
    }
    assert(!views(argv@).contains("--bwlimit"@));
    let ghost before = views(argv@);
    argv.push("--bwlimit".to_string());
    argv.push(limit);
    assert(views(argv@) =~= before.push("--bwlimit"@).push(timetable_spec(*schedule).unwrap()));
}

/// `HH:MM` as minutes after midnight; `None` unless both parts are numbers
/// and the time is valid.
pub fn parse_hhmm(raw: &[char]) -> (r: Option<u32>)
    ensures
        r == hhmm_spec(raw@),
{
    let c = match find_char(raw, ':') {
        Some(c) => c,
        None => return None,
    };
    let mut h_part: Vec<char> = Vec::new();
    let mut k: usize = 0;
    while k < c
        invariant
            k <= c < raw@.len(),
            h_part@ == raw@.take(k as int),
        decreases c - k,
    {
        h_part.push(raw[k]);
        assert(raw@.take(k + 1) == raw@.take(k as int).push(raw@[k as int]));
        k = k + 1;
    }
    let mut m_part: Vec<char> = Vec::new();
    assert(c < raw.len());
    let mut k = c + 1;
    while k < raw.len()
        invariant
            c < k <= raw@.len(),
            m_part@ == raw@.subrange(c + 1, k as int),
        decreases raw.len() - k,
    {
        m_part.push(raw[k]);
        assert(raw@.subrange(c + 1, k + 1) == raw@.subrange(c + 1, k as int).push(raw@[k as int]));
        k = k + 1;
    }
    assert(raw@.skip(c + 1) == raw@.subrange(c + 1, raw@.len() as int));
    let h = parse_bounded(h_part.as_slice(), 0xffff_ffff);
    let m = parse_bounded(m_part.as_slice(), 0xffff_ffff);
    match (h, m) {
        (Some(h), Some(m)) => {
            if h > 23 || m > 59 {
                None
            } else {
                Some((h * 60 + m) as u32)
            }
        },
        _ => None,
    }
}

/// The rate in force at `now` (minutes after local midnight): the rule
/// started latest by then, or before the first start of the day the rule
/// started latest overall. `None` when no rule has a valid time and a limit.
pub fn current_rate(schedule: &BandwidthSchedule, now: u32) -> (r: Option<String>)
    ensures
        match r {
            Some(l) => rate_at(timed_rules(schedule.rules@), now, l@),
            None => timed_rules(schedule.rules@).len() == 0,
        },
{
    let ghost rules = schedule.rules@;
    let mut mins: Vec<u32> = Vec::new();
    let mut limits: Vec<Vec<char>> = Vec::new();
    let mut i: usize = 0;
    while i < schedule.rules.len()
        invariant
            i <= rules.len(),
            rules == schedule.rules@,
            mins@.len() == limits@.len(),
            mins@.len() == timed_rules(rules.take(i as int)).len(),
            forall|j: int| 0 <= j < mins@.len() ==> (#[trigger] timed_rules(rules.take(i as int))[j]) == (mins@[j], limits@[j]@),
        decreases schedule.rules.len() - i,
    {
        let r = &schedule.rules[i];
        let s = trim_chars(chars_of(r.start.as_str()).as_slice());
        let l = trim_chars(chars_of(r.limit.as_str()).as_slice());
        let ghost prev = timed_rules(rules.take(i as int));
        assert(rules.take(i + 1).drop_last() == rules.take(i as int));
        match parse_hhmm(s.as_slice()) {
            Some(m) => {
                if l.len() > 0 {
                    mins.push(m);
                    limits.push(l);
                }
            },
            None => {},
        }
        i = i + 1;
    }
    assert(rules.take(rules.len() as int) == rules);
    let ghost t = timed_rules(rules);
    if mins.len() == 0 {
        return None;
    }
    let mut best_all: usize = 0;
    let mut best_le: Option<usize> = None;
    let mut k: usize = 0;
    while k < mins.len()
        invariant
            mins@.len() == t.len(),
            forall|j: int| 0 <= j < t.len() ==> (#[trigger] t[j]).0 == mins@[j],
            0 < t.len(),
            k <= t.len(),
            best_all < t.len(),
            k > 0 ==> best_all < k,
            k > 0 ==> forall|x: int| 0 <= x < k ==> (t[x].0 < t[best_all as int].0 || (t[x].0 == t[best_all as int].0 && x <= best_all)),
            match best_le {
                Some(b) => b < k && t[b as int].0 <= now && forall|x: int| 0 <= x < k && t[x].0 <= now ==> (t[x].0 < t[b as int].0 || (t[x].0 == t[b as int].0 && x <= b)),
                None => forall|x: int| 0 <= x < k ==> t[x].0 > now,
            },
        decreases t.len() - k,
    {
        if k == 0 || mins[k] >= mins[best_all] {
            best_all = k;
        }
        if mins[k] <= now {
            match best_le {
                Some(b) => {
                    if mins[k] >= mins[b] {
                        best_le = Some(k);
                    }
                },
                None => {
                    best_le = Some(k);
                },
            }
        }
        k = k + 1;
    }
    let pick = match best_le {
        Some(b) => b,
        None => best_all,
    };
    proof {
        let early = any_started(t, now);
        match best_le {
            Some(b) => {
                assert(eligible(t, now, true, b as int));
                assert(early);
            },
            None => {
                assert(!early);
            },
        }
        assert(latest(t, now, early, pick as int));
    }
    let out = string_of(limits[pick].as_slice());
    assert(out@ == t[pick as int].1);
    Some(out)
}

/// Minutes after midnight of a wall-clock time.
pub fn minutes_of_day(hour: u16, minute: u16) -> (r: u32)
    ensures
        r == hour as int * 60 + minute as int,
{
    hour as u32 * 60 + minute as u32
}

/// What applying the schedule to the running processes reports: the rate
/// and on how many processes it was set.
pub fn bandwidth_report(rate: &str, applied: u32) -> (r: String)
    ensures
        r@ == rate@ + " on "@ + decimal(applied as nat) + " running rclone processes."@,
{
    let mut s = concat(rate, " on ");
    push_str(&mut s, decimal_string(applied as u64).as_str());
    push_str(&mut s, " running rclone processes.");
    s
}

/// The rate to set on the running processes: `None` when the schedule is
/// off; the rate in force at `now`, or `off` when no rule gives one.
pub fn rate_to_apply(schedule: &BandwidthSchedule, now: u32) -> (r: Option<String>)
    ensures
        !schedule.enabled ==> r is None,
        schedule.enabled ==> (r matches Some(l) && (if timed_rules(schedule.rules@).len() == 0 {
            l@ == "off"@
        } else {
            rate_at(timed_rules(schedule.rules@), now, l@)
        })),
{
    if !schedule.enabled {
        return None;
    }
    match current_rate(schedule, now) {
        Some(l) => Some(l),
        None => Some("off".to_string()),
    }
}

/// What applying the schedule reports when the schedule is off.
pub fn schedule_off() -> (r: String)
    ensures
        r@ == "Schedule is off."@,
{
    "Schedule is off.".to_string()
}

} // verus!
