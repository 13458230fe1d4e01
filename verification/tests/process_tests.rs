use liclone::discover::{
    collect_instances, extra_for, extras_from_json, extras_from_text, instance_from, invalidate_instance_cache, stop_pid, ExtraProc,
    ProcessInfo, RcloneInstance, INSTANCE_TTL_MS,
};
use liclone::json::JsonValue;
use liclone::memo::TimedCache;
use liclone::rc::url;
use liclone::rclone::{
    install_rclone, installed_not_visible, is_rclone_stem, list_remotes, path_with_dir, rclone_info,
    rclone_not_found, rclone_supported, user_path_outcome, user_path_script,
};
use liclone::setup::{refresh_tray_launch, shortcut_outcome, shortcut_script, status};
use liclone::transfers::{
    classify_dirty, dirty_key, dirty_sizes, finished_uploads, keep_recent_done, keep_sample, log_errors, meta_fields,
    meta_fields_text, number_i64, tally,
    tray_tooltip, DirtyTally, Phase, DONE_CAP,
};

fn s(x: &str) -> String {
    x.to_string()
}

fn words(v: &[&str]) -> Vec<String> {
    v.iter().map(|x| x.to_string()).collect()
}

fn proc_(pid: u32, name: &str, cmd: &[&str]) -> ProcessInfo {
    ProcessInfo {
        pid,
        name: s(name),
        exe: None,
        cwd: None,
        cmd: words(cmd),
        memory: 1,
        run_time_secs: 5,
        status: s("Run"),
        parent_pid: None,
    }
}

#[test]
fn instance_reads_command() {
    let p = proc_(
        10,
        "rclone.exe",
        &["rclone", "mount", "gd:", "X:", "--rc", "--rc-user", "me", "--cache-dir", "D:\\c", "--rc-pass", "pw"],
    );
    let i = instance_from(&p, None).unwrap();
    assert_eq!(i.pid, 10);
    assert_eq!(i.rc_addr.as_deref(), Some("127.0.0.1:5572"));
    assert_eq!(i.rc_user.as_deref(), Some("me"));
    assert!(i.rc_has_pass);
    assert_eq!(i.cache_dir.as_deref(), Some("D:\\c"));
    assert_eq!(i.vfs_cache_mode, None);
    assert_eq!(i.parsed.verb, "mount");
    assert_eq!(i.run_time_secs, Some(5));
    assert_eq!(i.cmd_line, "rclone mount gd: X: --rc --rc-user me --cache-dir D:\\c --rc-pass pw");
}

#[test]
fn instance_skips_other_processes() {
    assert!(instance_from(&proc_(1, "explorer.exe", &["explorer"]), None).is_none());
    assert!(instance_from(&proc_(2, "LiClone.exe", &["liclone"]), None).is_none());
    let extra = ExtraProc { command_line: Some(s("C:\\bin\\RCLONE.EXE rcd")), exe: None };
    let i = instance_from(&proc_(3, "worker", &[""]), Some(&extra)).unwrap();
    assert_eq!(i.cmd, words(&["C:\\bin\\RCLONE.EXE", "rcd"]));
    assert_eq!(i.rc_addr.as_deref(), Some("127.0.0.1:5572"));
}

#[test]
fn instance_single_word_uses_system_line() {
    let mut p = proc_(4, "rclone", &[]);
    p.exe = Some(s("C:\\rclone.exe"));
    let extra = ExtraProc { command_line: None, exe: Some(s("C:\\other.exe")) };
    let i = instance_from(&p, Some(&extra)).unwrap();
    assert_eq!(i.cmd, words(&["C:\\rclone.exe"]));
    assert_eq!(i.exe.as_deref(), Some("C:\\rclone.exe"));
    assert_eq!(i.cmd_line, "C:\\rclone.exe");
}

#[test]
fn instances_ordered_by_pid() {
    let procs = vec![
        (proc_(30, "rclone", &["rclone", "rcd"]), None),
        (proc_(5, "notepad", &["notepad"]), None),
        (proc_(12, "rclone", &["rclone", "mount", "a:", "B:"]), None),
    ];
    let out: Vec<RcloneInstance> = collect_instances(&procs);
    assert_eq!(out.iter().map(|i| i.pid).collect::<Vec<_>>(), vec![12, 30]);
}

fn obj(members: Vec<(&str, JsonValue)>) -> JsonValue {
    JsonValue::Object(members.into_iter().map(|(k, v)| (s(k), v)).collect(), s("{}"))
}

#[test]
fn extras_from_listing() {
    let listing = JsonValue::Array(
        vec![
            obj(vec![("ProcessId", JsonValue::Number(s("7"), Some(7))), ("CommandLine", JsonValue::Str(s("rclone rcd")))]),
            obj(vec![("ProcessId", JsonValue::Number(s("0"), Some(0)))]),
            obj(vec![
                ("ProcessId", JsonValue::Number(s("7"), Some(7))),
                ("CommandLine", JsonValue::Str(s(""))),
                ("ExecutablePath", JsonValue::Str(s("C:\\rclone.exe"))),
            ]),
        ],
        s("[]"),
    );
    let ex = extras_from_json(Some(listing));
    assert_eq!(ex.len(), 2);
    let last = extra_for(&ex, 7).unwrap();
    assert_eq!(last.command_line, None);
    assert_eq!(last.exe.as_deref(), Some("C:\\rclone.exe"));
    assert!(extra_for(&ex, 8).is_none());
    let one = extras_from_json(Some(obj(vec![("ProcessId", JsonValue::Number(s("9"), Some(9)))])));
    assert_eq!(one.len(), 1);
    assert!(extras_from_json(None).is_empty());
}

#[test]
fn stop_messages() {
    assert_eq!(stop_pid(5, true, true), Ok(()));
    assert_eq!(stop_pid(5, true, false), Err(s("Could not stop process 5.")));
    assert_eq!(stop_pid(5, false, false), Err(s("Process 5 is not running.")));
}

#[test]
fn instance_cache_invalidated() {
    let mut c: TimedCache<Vec<RcloneInstance>> = TimedCache::new(INSTANCE_TTL_MS);
    c.store(0, Vec::new());
    assert!(c.fresh(10).is_some());
    invalidate_instance_cache(&mut c);
    assert!(c.fresh(10).is_none());
}

#[test]
fn versions_supported() {
    assert!(rclone_supported("rclone v1.65.0"));
    assert!(rclone_supported("RCLONE V1.70.2-beta"));
    assert!(!rclone_supported("rclone v1.64.2"));
    assert!(rclone_supported("rclone v2.0.0"));
    assert!(!rclone_supported("no version here"));
    assert!(rclone_supported("rclone  v1.65"));
    assert!(!rclone_supported("rclone version unknown"));
    assert!(!rclone_supported("v1.99999999999.0"));
}

#[test]
fn info_from_version_output() {
    let i = rclone_info(Some(s("C:\\rclone.exe")), Ok((s("rclone v1.66.0\n- os/version: x\n"), s(""))));
    assert!(i.found);
    assert_eq!(i.version.as_deref(), Some("rclone v1.66.0"));
    assert!(i.compatible);
    assert_eq!(i.error, None);
    let j = rclone_info(Some(s("p")), Ok((s("  v1.50.0 \nmore"), s("warning\n"))));
    assert_eq!(j.version.as_deref(), Some("v1.50.0"));
    assert!(!j.compatible);
    let k = rclone_info(Some(s("p")), Err(s("access denied")));
    assert_eq!(k.error.as_deref(), Some("access denied"));
    assert!(k.found && !k.compatible);
    let n = rclone_not_found();
    assert!(!n.found);
    assert_eq!(n.error.as_deref(), Some("rclone was not found on PATH."));
    assert_eq!(rclone_info(None, Err(s("x"))).error.as_deref(), Some("rclone was not found on PATH."));
}

#[test]
fn remotes_listed() {
    assert_eq!(list_remotes(true, "gd:\r\n\n box: \n", ""), Ok(words(&["gd:", "box:"])));
    assert_eq!(list_remotes(false, "", "  "), Err(s("rclone listremotes failed.")));
    assert_eq!(list_remotes(false, "", " no config "), Err(s("no config")));
}

#[test]
fn install_outcomes() {
    assert_eq!(install_rclone(true, "", ""), Ok(()));
    assert_eq!(install_rclone(false, "Found an existing package already INSTALLED.", ""), Ok(()));
    assert_eq!(install_rclone(false, " out ", " err "), Err(s("out\nerr")));
    assert_eq!(install_rclone(false, "", " err "), Err(s("err")));
    assert!(installed_not_visible().starts_with("rclone was installed"));
}

#[test]
fn path_prepend() {
    assert_eq!(path_with_dir("C:\\R", "C:\\a;c:\\r;D:"), None);
    assert_eq!(path_with_dir("C:\\R", "C:\\a"), Some(s("C:\\R;C:\\a")));
    assert_eq!(path_with_dir("X", ""), Some(s("X;")));
    assert!(user_path_script("C:\\It's").starts_with("\n$dir = 'C:\\It''s'\n$user = "));
    assert_eq!(user_path_outcome(false, " denied "), Err(s("denied")));
    assert!(is_rclone_stem("RClone"));
    assert!(!is_rclone_stem("rclone2"));
}

#[test]
fn rc_urls() {
    assert_eq!(url(" 127.0.0.1:5572/ ", "/core/stats"), "http://127.0.0.1:5572/core/stats");
    assert_eq!(url("https://h:1", "/x"), "https://h:1/x");
}

#[test]
fn setup_parts() {
    let st = status(Some(true), false);
    assert!(st.completed && !st.autostart);
    assert!(!status(None, true).completed);
    assert!(refresh_tray_launch(true));
    assert_eq!(
        shortcut_script("L'nk", "E", "W"),
        "$s = (New-Object -ComObject WScript.Shell).CreateShortcut('L''nk'); $s.TargetPath = 'E'; $s.Arguments = '--tray'; $s.WorkingDirectory = 'W'; $s.WindowStyle = 7; $s.Description = 'Wroom LiClone'; $s.Save()"
    );
    assert_eq!(shortcut_outcome(true, false, ""), Err(s("Could not add LiClone to startup.")));
    assert_eq!(shortcut_outcome(true, true, "x"), Ok(()));
}

#[test]
fn dirty_classification() {
    assert_eq!(classify_dirty(false, 10, 5, false, true, true), None);
    assert_eq!(classify_dirty(true, 10_000, 100, false, false, true), Some((Phase::Writing, 10_000)));
    assert_eq!(classify_dirty(true, 10_000, 100, true, false, true), Some((Phase::Queued, 10_000)));
    assert_eq!(classify_dirty(true, 0, 100, false, false, true), Some((Phase::Queued, 100)));
    assert_eq!(classify_dirty(true, 50, 100, false, true, false), Some((Phase::Writing, 100)));
    let t = tally(DirtyTally { queued: 0, uploading: 0, dirty_bytes: 0 }, Phase::Queued, 7);
    assert_eq!((t.queued, t.uploading, t.dirty_bytes), (1, 0, 7));
}

#[test]
fn finished_between_looks() {
    let before = dirty_sizes(&vec![(s("a"), 1), (s("b"), 2), (s("a"), 3)]);
    assert_eq!(before, vec![(s("a"), 3), (s("b"), 2)]);
    let now = vec![(s("b"), 2)];
    assert_eq!(finished_uploads(&before, &now, true), vec![(s("a"), 3)]);
    assert!(finished_uploads(&before, &now, false).is_empty());
    assert_eq!(dirty_key("x/y"), "dirty:x/y");
    assert!(keep_sample("dirty:b", &now));
    assert!(!keep_sample("dirty:a", &now));
}

#[test]
fn done_list_capped() {
    let mut done: Vec<u32> = (0..45).collect();
    keep_recent_done(&mut done);
    assert_eq!(done.len(), DONE_CAP);
    assert_eq!(done[0], 5);
}

#[test]
fn log_error_lines() {
    let text = "2024 ERROR : a.txt: failed to copy\nINFO ok\nERROR : retry attempt 2\nerror x\n";
    assert_eq!(log_errors(text), words(&["2024 ERROR : a.txt: failed to copy"]));
    let many: String = (0..10).map(|i| format!("ERROR : file number {i}\n")).collect();
    assert_eq!(log_errors(&many).len(), 8);
    assert_eq!(tray_tooltip(0), "Wroom LiClone \u{2014} nothing waiting to upload");
    assert_eq!(tray_tooltip(3), "Wroom LiClone \u{2014} 3 on disk, not on the cloud yet");
}

#[test]
fn extras_from_process_listing_text() {
    let raw = "  [{\"ProcessId\":7,\"CommandLine\":\"rclone mount a: X:\",\"ExecutablePath\":null},{\"ProcessId\":9}]\r\n";
    let ex = extras_from_text(raw);
    assert_eq!(ex.len(), 2);
    let seven = extra_for(&ex, 7).unwrap();
    assert_eq!(seven.command_line.as_deref(), Some("rclone mount a: X:"));
    let one = extras_from_text("{\"ProcessId\":12,\"ExecutablePath\":\"C:\\\\r\\\\rclone.exe\"}");
    assert_eq!(one.len(), 1);
    assert_eq!(extra_for(&one, 12).unwrap().exe.as_deref(), Some("C:\\r\\rclone.exe"));
    assert!(extras_from_text("   \n").is_empty());
    assert!(extras_from_text("not json").is_empty());
}

#[test]
fn meta_records_read_as_rclone_does() {
    assert_eq!(meta_fields_text("{\"Dirty\":true,\"Size\":1234,\"ATime\":\"x\"}"), Some((true, 1234)));
    assert_eq!(meta_fields_text("{\"dirty\":false,\"size\":-5}"), Some((false, -5)));
    assert_eq!(meta_fields_text("{}"), Some((false, 0)));
    assert_eq!(meta_fields_text("{\"Dirty\":true,\"dirty\":true}"), None);
    assert_eq!(meta_fields_text("{\"Dirty\":\"yes\"}"), None);
    assert_eq!(meta_fields_text("{\"Size\":1.5}"), None);
    assert_eq!(meta_fields_text("{\"Size\":9223372036854775807}"), Some((false, i64::MAX)));
    assert_eq!(meta_fields_text("{\"Size\":9223372036854775808}"), None);
    assert_eq!(meta_fields_text("{\"Size\":-9223372036854775808}"), Some((false, i64::MIN)));
    assert_eq!(meta_fields_text("[true, 7]"), Some((true, 7)));
    assert_eq!(meta_fields_text("[true]"), Some((true, 0)));
    assert_eq!(meta_fields_text("[true, 7, 8]"), None);
    assert_eq!(meta_fields_text("3"), None);
    assert_eq!(meta_fields_text("not json"), None);
    assert_eq!(meta_fields(None), None);
    assert_eq!(number_i64(&JsonValue::Number(s("-42"), None)), Some(-42));
    assert_eq!(number_i64(&JsonValue::Number(s("+4"), None)), None);
    assert_eq!(number_i64(&JsonValue::Str(s("4"))), None);
}
