use liclone::cache::{
    analyze_cache, cache_root_paths, cache_sources, summarize_root, CacheRoot, EntryKind, WalkEntry,
};
use liclone::json::JsonValue;
use liclone::purge::{
    apply_message, apply_start, check_line, check_outcome, count_pending, local_file, old_enough, path_parts,
    note_check_line, pending_in_text, preview_message, preview_start, push_candidate, record_removal, still_protected,
    store_plan, take_plan,
    Candidate, CheckLine, Removal, SAMPLE_CAP,
};

fn s(x: &str) -> String {
    x.to_string()
}

fn words(v: &[&str]) -> Vec<String> {
    v.iter().map(|x| x.to_string()).collect()
}

fn file(rel: &str, size: u64, mtime: u64) -> WalkEntry {
    WalkEntry { path: format!("C:\\c\\vfs\\{rel}"), relative: s(rel), kind: EntryKind::File, size, mtime }
}

fn dir(rel: &str) -> WalkEntry {
    WalkEntry { path: s(rel), relative: s(rel), kind: EntryKind::Dir, size: 0, mtime: 0 }
}

fn root(path: &str, source: &str, exists: bool, bytes: u64, files: u64) -> CacheRoot {
    CacheRoot {
        path: s(path),
        exists,
        bytes,
        files,
        dirs: 0,
        buckets: Vec::new(),
        largest: Vec::new(),
        recent: Vec::new(),
        source: s(source),
    }
}

#[test]
fn summarize_groups_by_remote() {
    let now = 10_000;
    let entries = vec![
        dir("gdrive"),
        file("gdrive\\a.txt", 100, 9_000),
        file("gdrive\\sub\\b.bin", 300, 1_000),
        file("box/c", 50, 9_500),
        WalkEntry { path: s("link"), relative: s("link"), kind: EntryKind::Other, size: 7, mtime: 0 },
    ];
    let r = summarize_root(s("C:\\c"), s("default local app data"), true, now, &entries);
    assert!(r.exists);
    assert_eq!(r.bytes, 450);
    assert_eq!(r.files, 3);
    assert_eq!(r.dirs, 1);
    assert_eq!(r.buckets.len(), 2);
    assert_eq!(r.buckets[0].remote, "gdrive");
    assert_eq!(r.buckets[0].files, 2);
    assert_eq!(r.buckets[0].bytes, 400);
    assert_eq!(r.buckets[0].recent_files, 1);
    assert_eq!(r.buckets[0].recent_bytes, 100);
    assert_eq!(r.buckets[1].remote, "box");
    assert_eq!(r.largest.iter().map(|f| f.size).collect::<Vec<_>>(), vec![300, 100, 50]);
    assert_eq!(r.largest[0].relative, "gdrive/sub/b.bin");
    assert_eq!(r.recent.iter().map(|f| f.mtime).collect::<Vec<_>>(), vec![9_500, 9_000]);
    assert!(r.recent.iter().all(|f| f.recent));
    assert_eq!(r.buckets.iter().map(|b| b.bytes).sum::<u64>(), r.bytes);
    assert_eq!(r.buckets.iter().map(|b| b.files).sum::<u64>(), r.files);
}

#[test]
fn summarize_missing_root() {
    let r = summarize_root(s("Z:\\none"), s("pid 7"), false, 5, &vec![file("a", 1, 1)]);
    assert!(!r.exists);
    assert_eq!(r.bytes, 0);
    assert_eq!(r.files, 0);
    assert!(r.buckets.is_empty());
    assert_eq!(r.source, "pid 7");
}

#[test]
fn summarize_caps_lists() {
    let entries: Vec<WalkEntry> = (0..30).map(|i| file(&format!("r/f{i}"), i, 100)).collect();
    let r = summarize_root(s("c"), s("x"), true, 100, &entries);
    assert_eq!(r.largest.len(), 12);
    assert_eq!(r.largest[0].size, 29);
    assert_eq!(r.recent.len(), 20);
    assert_eq!(r.recent[0].relative, "r/f0");
}

#[test]
fn root_paths_once_each() {
    let p = cache_root_paths(&words(&["A", "B"]), &words(&["B", "C", "A"]));
    assert_eq!(p, words(&["A", "B", "C"]));
}

#[test]
fn sources_first_label_wins() {
    let src = cache_sources(
        &vec![(s("A"), s("XDG cache")), (s("A"), s("Windows Local"))],
        &vec![(42, s("A")), (7, s("D")), (8, s("D"))],
    );
    assert_eq!(src, vec![(s("A"), s("XDG cache")), (s("D"), s("pid 7"))]);
}

#[test]
fn report_largest_first() {
    let rep = analyze_cache(vec![
        root("a", "default", true, 10, 1),
        root("b", "pid 3", false, 0, 0),
        root("c", "XDG cache", false, 99, 9),
        root("d", "default", true, 30, 2),
    ]);
    let paths: Vec<&str> = rep.roots.iter().map(|r| r.path.as_str()).collect();
    assert_eq!(paths, vec!["d", "a", "b"]);
    assert_eq!(rep.total_bytes, 40);
    assert_eq!(rep.total_files, 3);
}

#[test]
fn preview_modes() {
    let p = preview_start("old").unwrap();
    assert_eq!(p.mode, "old");
    assert_eq!(p.files, 0);
    assert_eq!(preview_start("all").err(), Some(s("Pick a clear option first.")));
    assert_eq!(apply_start().mode, "delete");
}

#[test]
fn samples_stop_at_cap() {
    let mut p = preview_start("clean").unwrap();
    for i in 0..(SAMPLE_CAP + 3) {
        push_candidate(&mut p, format!("k{i}"), 2);
    }
    assert_eq!(p.files as usize, SAMPLE_CAP + 3);
    assert_eq!(p.bytes as usize, 2 * (SAMPLE_CAP + 3));
    assert_eq!(p.sample.len(), SAMPLE_CAP);
    assert_eq!(p.sample[0].path, "k0");
}

#[test]
fn check_lines() {
    let pending = words(&["gdrive/busy.txt"]);
    assert_eq!(check_line("= /docs\\a.txt ", "gdrive", &pending), CheckLine::Same(s("gdrive/docs/a.txt")));
    assert_eq!(check_line("* b.txt", "gdrive", &pending), CheckLine::Differs);
    assert_eq!(check_line("= busy.txt", "gdrive", &pending), CheckLine::Pending);
    assert_eq!(check_line("-  ", "gdrive", &pending), CheckLine::NoPath);
    assert_eq!(check_line("NOTICE: x", "gdrive", &pending), CheckLine::NotListed);
    assert_eq!(check_line("", "gdrive", &pending), CheckLine::NotListed);
}

#[test]
fn check_outcomes() {
    assert_eq!(check_outcome(false, false, false, " boom \n"), Err(s("boom")));
    assert_eq!(check_outcome(false, false, false, ""), Err(s("rclone check failed.")));
    assert_eq!(check_outcome(false, false, true, "x"), Ok(()));
    assert_eq!(check_outcome(true, false, false, "x"), Ok(()));
}

fn doc(members: Vec<(&str, JsonValue)>) -> Option<JsonValue> {
    Some(JsonValue::Object(members.into_iter().map(|(k, v)| (s(k), v)).collect(), s("{}")))
}

#[test]
fn protection_from_metadata() {
    assert!(still_protected(None));
    assert!(still_protected(doc(vec![("Dirty", JsonValue::Bool(true))])));
    assert!(still_protected(doc(vec![("dirty", JsonValue::Bool(true))])));
    assert!(!still_protected(doc(vec![("Dirty", JsonValue::Bool(false)), ("dirty", JsonValue::Bool(true))])));
    assert!(!still_protected(doc(vec![("Dirty", JsonValue::Str(s("true")))])));
    assert!(!still_protected(Some(JsonValue::Null)));
}

#[test]
fn path_parts_skip_dots() {
    assert_eq!(path_parts("a/./b\\\\c/"), words(&["a", "b", "c"]));
    assert_eq!(path_parts(""), Vec::<String>::new());
}

#[test]
fn local_files_counted() {
    let pending = words(&["r/busy"]);
    let mut p = preview_start("old").unwrap();
    assert!(!local_file(&mut p, s("r/busy"), &pending, true, Some(10 * 86_400), 1, 5));
    assert_eq!(p.files, 0);
    assert!(!local_file(&mut p, s("r/new"), &pending, true, Some(100), 1, 5));
    assert_eq!(p.kept_other, 1);
    assert!(local_file(&mut p, s("r/old"), &pending, true, Some(2 * 86_400), 1, 5));
    assert_eq!(p.files, 1);
    assert!(local_file(&mut p, s("r/any"), &pending, false, None, 1, 5));
    assert_eq!(p.bytes, 10);
    count_pending(&mut p, 3);
    assert_eq!(p.kept_uploads, 3);
    assert!(old_enough(Some(86_401), 0));
    assert!(!old_enough(Some(86_400), 1));
    assert!(!old_enough(None, 1));
}

#[test]
fn plan_used_once() {
    let mut slot = None;
    store_plan(&mut slot, false, vec![Candidate { data: s("d"), meta: s("m"), label: s("l"), bytes: 3 }]);
    let plan = take_plan(&mut slot).unwrap();
    assert_eq!(plan.len(), 1);
    assert_eq!(take_plan(&mut slot).err(), Some(s("Preview the files first. Nothing is deleted until you confirm.")));
    store_plan(&mut slot, true, vec![]);
    assert!(slot.is_none());
}

#[test]
fn removals_counted() {
    let mut r = apply_start();
    record_removal(&mut r, Removal::Pending);
    record_removal(&mut r, Removal::Failed);
    record_removal(&mut r, Removal::Removed(s("gdrive/a"), 9));
    assert_eq!((r.kept_uploads, r.kept_other, r.files, r.bytes), (1, 1, 1, 9));
    assert_eq!(r.sample[0].path, "gdrive/a");
    assert_eq!(apply_message(true), "Delete stopped. Files already removed stay removed.");
    assert_eq!(preview_message(false), "Preview ready. Nothing has been deleted.");
}

#[test]
fn pending_read_from_record_text() {
    assert!(pending_in_text("{\"Dirty\":true}"));
    assert!(pending_in_text("{\"dirty\":true,\"Size\":3}"));
    assert!(!pending_in_text("{\"Dirty\":false}"));
    assert!(!pending_in_text("{\"Dirty\":\"true\"}"));
    assert!(!pending_in_text("[true]"));
    assert!(pending_in_text("{broken"));
}

#[test]
fn check_lines_counted_in_preview() {
    let mut p = preview_start("clean").unwrap();
    assert!(!note_check_line(&mut p, &CheckLine::NotListed));
    assert!(note_check_line(&mut p, &CheckLine::Differs));
    assert!(note_check_line(&mut p, &CheckLine::Differs));
    assert!(note_check_line(&mut p, &CheckLine::Pending));
    assert!(note_check_line(&mut p, &CheckLine::NoPath));
    assert!(note_check_line(&mut p, &CheckLine::Same(s("r/a"))));
    assert_eq!(p.kept_other, 2);
    assert_eq!(p.files, 0);
    assert_eq!(p.kept_uploads, 0);
}
