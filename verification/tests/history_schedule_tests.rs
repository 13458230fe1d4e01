use liclone::history::{note_failures, push, push_finished, HistoryEvent, HISTORY_CAP};
use liclone::memo::TimedCache;
use liclone::schedule::{
    append_bwlimit, bandwidth_report, current_rate, minutes_of_day, parse_hhmm, rate_to_apply, timetable,
    BandwidthRule, BandwidthSchedule,
};

fn s(x: &str) -> String {
    x.to_string()
}

fn ev(at: i64, name: &str, status: &str) -> HistoryEvent {
    HistoryEvent { at, name: s(name), size: 1, status: s(status), detail: s("d") }
}

fn rules(v: &[(&str, &str)]) -> BandwidthSchedule {
    BandwidthSchedule {
        enabled: true,
        rules: v.iter().map(|(a, b)| BandwidthRule { start: s(a), limit: s(b) }).collect(),
    }
}

#[test]
fn history_skips_recent_repeat() {
    let h = push(Vec::new(), ev(1000, "a", "failed"), 1000);
    let h = push(h, ev(1050, "a", "failed"), 1050);
    assert_eq!(h.len(), 1);
    let h = push(h, ev(1200, "a", "failed"), 1200);
    assert_eq!(h.len(), 2);
    assert_eq!(h[1].at, 1200);
}

#[test]
fn history_capped_keeps_newest() {
    let mut h = Vec::new();
    for i in 0..(HISTORY_CAP as i64 + 5) {
        h = push(h, ev(i, &format!("f{i}"), "finished"), i);
    }
    assert_eq!(h.len(), HISTORY_CAP);
    assert_eq!(h[0].name, "f5");
    assert_eq!(h[HISTORY_CAP - 1].name, format!("f{}", HISTORY_CAP + 4));
}

#[test]
fn finished_and_failures() {
    let h = push_finished(Vec::new(), "movie.mkv", 42, 7);
    assert_eq!(h[0].status, "finished");
    assert_eq!(h[0].detail, "Uploaded. The file is no longer waiting on disk.");
    assert_eq!(h[0].size, 42);
    let msgs = vec![s("  "), s(" ERROR : photos/2024\\img.jpg: failed to upload "), s("plain")];
    let h = note_failures(Vec::new(), &msgs, 9);
    assert_eq!(h.len(), 2);
    assert_eq!(h[0].name, "img.jpg: failed to upload");
    assert_eq!(h[0].detail, "ERROR : photos/2024\\img.jpg: failed to upload");
    assert_eq!(h[0].status, "failed");
    assert_eq!(h[0].size, 0);
    assert_eq!(h[1].name, "plain");
}

#[test]
fn timetable_joins_complete_rules() {
    let sch = rules(&[(" 08:00 ", " 2M "), ("", "1M"), ("22:00", "off")]);
    assert_eq!(timetable(&sch), Some(s("08:00,2M 22:00,off")));
    let mut offs = sch;
    offs.enabled = false;
    assert_eq!(timetable(&offs), None);
    assert_eq!(timetable(&rules(&[("x", "")])), None);
}

#[test]
fn append_bwlimit_once() {
    let sch = rules(&[("08:00", "2M")]);
    let mut argv = vec![s("rclone"), s("mount")];
    append_bwlimit(&mut argv, &sch);
    assert_eq!(argv, vec![s("rclone"), s("mount"), s("--bwlimit"), s("08:00,2M")]);
    let mut again = vec![s("--bwlimit"), s("1M")];
    append_bwlimit(&mut again, &sch);
    assert_eq!(again, vec![s("--bwlimit"), s("1M")]);
}

#[test]
fn hhmm_values() {
    let c = |x: &str| x.chars().collect::<Vec<char>>();
    assert_eq!(parse_hhmm(&c("08:30")), Some(510));
    assert_eq!(parse_hhmm(&c("23:59")), Some(1439));
    assert_eq!(parse_hhmm(&c("24:00")), None);
    assert_eq!(parse_hhmm(&c("8")), None);
    assert_eq!(parse_hhmm(&c("07:5x")), None);
}

#[test]
fn current_rate_by_time() {
    let sch = rules(&[("22:00", "off"), ("08:00", "2M")]);
    assert_eq!(current_rate(&sch, 9 * 60), Some(s("2M")));
    assert_eq!(current_rate(&sch, 23 * 60), Some(s("off")));
    assert_eq!(current_rate(&sch, 60), Some(s("off")));
    assert_eq!(current_rate(&rules(&[("bad", "1M")]), 0), None);
}

#[test]
fn rate_to_apply_and_report() {
    let sch = rules(&[("08:00", "2M")]);
    assert_eq!(rate_to_apply(&sch, 600), Some(s("2M")));
    assert_eq!(rate_to_apply(&rules(&[]), 600), Some(s("off")));
    let mut offs = sch;
    offs.enabled = false;
    assert_eq!(rate_to_apply(&offs, 600), None);
    assert_eq!(bandwidth_report("2M", 3), "2M on 3 running rclone processes.");
    assert_eq!(minutes_of_day(13, 5), 785);
}

#[test]
fn default_schedule() {
    let d = BandwidthSchedule::default();
    assert!(!d.enabled);
    assert_eq!(d.rules.len(), 2);
    assert_eq!(d.rules[0].start, "08:00");
    assert_eq!(d.rules[1].limit, "off");
}

#[test]
fn timed_cache_gives_back_while_fresh() {
    let mut c: TimedCache<u32> = TimedCache::new(8000);
    assert_eq!(c.fresh(0), None);
    c.store(1000, 7);
    assert_eq!(c.fresh(8999), Some(&7));
    assert_eq!(c.fresh(9000), None);
    assert_eq!(c.fresh(500), Some(&7));
    assert_eq!(c.last(), Some(&7));
    c.clear();
    assert_eq!(c.fresh(1001), None);
    assert_eq!(c.last(), None);
}
