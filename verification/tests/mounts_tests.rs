use liclone::mounts::{
    cache_advice, delete_profile, flag_map, free_bytes_for_home, free_port, norm_point, norm_source,
    preview_command, refuse_double_mount, split_args, start_mount, startup_script, startup_vbs, truthy,
    upsert_profile, used_ports, DiskInfo, MountProfile,
};
use liclone::parse::{parse_argv, split_cmdline};
use liclone::schedule::{BandwidthRule, BandwidthSchedule};

fn words(v: &[&str]) -> Vec<String> {
    v.iter().map(|s| s.to_string()).collect()
}

fn profile(id: &str) -> MountProfile {
    MountProfile {
        id: id.to_string(),
        name: "Photos".to_string(),
        remote: "gdrive:".to_string(),
        remote_path: "/Photos".to_string(),
        mount_point: "X:".to_string(),
        vfs_cache_mode: "full".to_string(),
        cache_dir: String::new(),
        extra_args: String::new(),
        rc_enabled: false,
        rc_port: 5572,
        network_mode: false,
        read_only: false,
        vol_name: String::new(),
        start_on_login: false,
        background: true,
        settings: Vec::new(),
    }
}

fn off() -> BandwidthSchedule {
    BandwidthSchedule { enabled: false, rules: Vec::new() }
}

#[test]
fn source_spec_forms() {
    let p = profile("a");
    assert_eq!(p.source_spec(), "gdrive:Photos");
    let mut q = profile("b");
    q.remote = " box ".to_string();
    q.remote_path = "  ".to_string();
    assert_eq!(q.source_spec(), "box:");
}

#[test]
fn argv_orders_flags_by_name() {
    let mut p = profile("a");
    p.read_only = true;
    p.vol_name = "Cloud".to_string();
    p.extra_args = "--fast-list 'two words'".to_string();
    let argv = p.argv("rclone.exe");
    assert_eq!(
        argv,
        words(&[
            "rclone.exe",
            "mount",
            "gdrive:Photos",
            "X:",
            "--read-only",
            "--vfs-cache-mode",
            "full",
            "--volname",
            "Cloud",
            "--fast-list",
            "two words",
        ])
    );
}

#[test]
fn argv_with_remote_control() {
    let mut p = profile("a");
    p.rc_enabled = true;
    p.rc_port = 5590;
    let argv = p.argv("rclone");
    assert_eq!(&argv[argv.len() - 4..], &words(&["--rc", "--rc-no-auth", "--rc-addr", "127.0.0.1:5590"])[..]);
}

#[test]
fn argv_rc_flags_before_extra_args() {
    let mut p = profile("a");
    p.rc_enabled = true;
    p.rc_port = 5590;
    p.extra_args = "--fast-list --log-level INFO".to_string();
    let argv = p.argv("rclone");
    let extra = split_args(&p.extra_args);
    assert_eq!(extra, words(&["--fast-list", "--log-level", "INFO"]));
    let n = argv.len();
    assert_eq!(&argv[n - 3..], &extra[..]);
    assert_eq!(&argv[n - 7..n - 3], &words(&["--rc", "--rc-no-auth", "--rc-addr", "127.0.0.1:5590"])[..]);
    // A setting turns remote control off: no --rc flag at all.
    p.settings = vec![("rc".to_string(), "off".to_string())];
    let off_argv = p.argv("rclone");
    assert!(!off_argv[..off_argv.len() - 3].iter().any(|a| a == "--rc"));
    // Values that never reach the command line may read `--rc`.
    p.settings = vec![
        ("daemon".to_string(), "--rc".to_string()),
        ("rc".to_string(), "0".to_string()),
        ("rc-port".to_string(), " --rc ".to_string()),
    ];
    let quiet = p.argv("rclone");
    assert!(!quiet[..quiet.len() - 3].iter().any(|a| a == "--rc"));
}

#[test]
fn argv_settings_override_fields() {
    let mut p = profile("a");
    p.settings = vec![("vfs-cache-mode".to_string(), "writes".to_string()), ("daemon".to_string(), "no".to_string())];
    let argv = p.argv("rclone");
    assert_eq!(argv, words(&["rclone", "mount", "gdrive:Photos", "X:", "--vfs-cache-mode", "writes"]));
}

#[test]
fn argv_parses_back() {
    let mut p = profile("a");
    p.cache_dir = "D:\\cache".to_string();
    let argv = p.argv("rclone");
    let parsed = parse_argv(&argv);
    assert_eq!(parsed.verb, "mount");
    assert_eq!(parsed.remote.as_deref(), Some("gdrive:Photos"));
    assert_eq!(parsed.mount_point.as_deref(), Some("X:"));
}

#[test]
fn flag_map_is_sorted_by_name() {
    let mut p = profile("a");
    p.settings = vec![("buffer-size".to_string(), "16M".to_string())];
    let m = flag_map(&p);
    let names: Vec<&str> = m.iter().map(|(k, _)| k.as_str()).collect();
    assert_eq!(names, vec!["buffer-size", "cache-dir", "network-mode", "rc", "rc-port", "read-only", "vfs-cache-mode", "volname"]);
}

#[test]
fn truthy_words() {
    assert!(truthy(" yes "));
    assert!(truthy("1"));
    assert!(truthy("on"));
    assert!(!truthy("True"));
    assert!(!truthy(""));
}

#[test]
fn split_args_quotes() {
    assert_eq!(split_args("--a 'b c' \"d'e\"  f"), words(&["--a", "b c", "d'e", "f"]));
    assert_eq!(split_args("   "), Vec::<String>::new());
}

#[test]
fn free_port_moves_up() {
    assert_eq!(free_port(5572, &[5572, 5573]), 5574);
    assert_eq!(free_port(0, &[]), 5572);
    assert_eq!(free_port(6000, &[5572]), 6000);
    assert_eq!(free_port(65535, &[65535]), 1024);
    assert_eq!(free_port(65534, &[65534, 65535, 1024]), 1025);
    assert_eq!(free_port(80, &[80]), 5572);
}

#[test]
fn used_ports_collects_profiles_and_processes() {
    let mut a = profile("a");
    a.rc_enabled = true;
    a.rc_port = 5580;
    let mut b = profile("b");
    b.rc_enabled = true;
    b.rc_port = 5581;
    let used = used_ports(&[a, b], "a", &words(&["127.0.0.1:5590", "bad"]));
    assert_eq!(used, vec![5581, 5590]);
}

#[test]
fn norm_forms() {
    assert_eq!(norm_point(" X:\\ ").iter().collect::<String>(), "x:");
    assert_eq!(norm_source("GDrive:/Photos/").iter().collect::<String>(), "gdrive:photos");
    assert_eq!(norm_source("Box").iter().collect::<String>(), "box:");
}

#[test]
fn double_mount_refused() {
    let p = profile("a");
    let running = vec![parse_argv(&words(&["rclone", "mount", "other:", "x:\\"]))];
    assert_eq!(refuse_double_mount(&p, &running), Err("X: is already mounted.".to_string()));
    let running2 = vec![parse_argv(&words(&["rclone", "mount", "GDRIVE:Photos/", "Y:"]))];
    assert_eq!(refuse_double_mount(&p, &running2), Err("gdrive:Photos is already mounted.".to_string()));
    let serving = vec![parse_argv(&words(&["rclone", "serve", "gdrive:Photos", "X:"]))];
    assert_eq!(refuse_double_mount(&p, &serving), Ok(()));
}

#[test]
fn cache_advice_values() {
    let gb: u64 = 1024 * 1024 * 1024;
    let a = cache_advice(Some(250 * gb));
    assert_eq!(a.value, "25G");
    assert_eq!(a.label, "25 GB");
    assert_eq!(a.reason, "10% of the 250 GB free on this PC, and never above 100 GB.");
    assert_eq!(cache_advice(Some(3 * gb)).value, "1G");
    assert_eq!(cache_advice(Some(199 * gb / 10)).value, "2G");
    assert_eq!(cache_advice(Some(254 * gb)).value, "25G");
    assert_eq!(cache_advice(Some(255 * gb)).value, "26G");
    assert_eq!(cache_advice(Some(5000 * gb)).value, "100G");
    let none = cache_advice(None);
    assert_eq!(none.value, "20G");
    assert_eq!(none.reason, "20 GB when the free space on this PC could not be read. Never above 100 GB.");
}

#[test]
fn preview_command_quotes() {
    let mut p = profile("a");
    p.mount_point = "C:\\My Drive".to_string();
    let sched = BandwidthSchedule {
        enabled: true,
        rules: vec![BandwidthRule { start: "08:00".to_string(), limit: "2M".to_string() }],
    };
    let line = preview_command(&p, Some("rclone"), &sched).unwrap();
    assert_eq!(line, "rclone mount gdrive:Photos \"C:\\My Drive\" --vfs-cache-mode full --bwlimit 08:00,2M");
    assert_eq!(split_cmdline(&line).len(), 8);
    assert_eq!(preview_command(&p, None, &sched), Err("rclone was not found on PATH.".to_string()));
}

#[test]
fn upsert_gives_fresh_id() {
    let mut p = profile("");
    p.vfs_cache_mode = String::new();
    p.rc_port = 0;
    let (saved, list) = upsert_profile(p, Vec::new(), &[]);
    assert_eq!(saved.id.len(), 36);
    assert_eq!(saved.id.matches('-').count(), 4);
    assert_eq!(saved.vfs_cache_mode, "full");
    assert_eq!(saved.rc_port, 5572);
    assert_eq!(list.len(), 1);
    assert_eq!(list[0].id, saved.id);
}

#[test]
fn upsert_replaces_and_moves_port() {
    let mut a = profile("a");
    a.rc_enabled = true;
    let mut b = profile("b");
    b.rc_enabled = true;
    let (saved, list) = upsert_profile(b.clone(), vec![a, profile("b")], &[]);
    assert_eq!(saved.rc_port, 5573);
    assert_eq!(list.len(), 2);
    assert_eq!(list[1].rc_port, 5573);
    assert!(saved.settings.contains(&("rc-port".to_string(), "5573".to_string())));
    assert!(saved.settings.contains(&("rc".to_string(), "1".to_string())));
}

#[test]
fn delete_keeps_others() {
    let left = delete_profile(vec![profile("a"), profile("b"), profile("a")], "a");
    assert_eq!(left.len(), 1);
    assert_eq!(left[0].id, "b");
}

#[test]
fn start_mount_errors() {
    let ps = vec![profile("a")];
    assert_eq!(start_mount("z", &ps, Some("rclone"), &[], &[], &off()).err(), Some("Mount profile not found.".to_string()));
    assert_eq!(start_mount("a", &ps, None, &[], &[], &off()).err(), Some("rclone was not found on PATH.".to_string()));
    let mut blank = profile("a");
    blank.mount_point = "  ".to_string();
    assert_eq!(
        start_mount("a", &[blank], Some("rclone"), &[], &[], &off()).err(),
        Some("Set a mount point first.".to_string())
    );
}

#[test]
fn start_mount_moves_port() {
    let mut a = profile("a");
    a.rc_enabled = true;
    let s = start_mount("a", &[a], Some("rclone"), &[], &words(&["127.0.0.1:5572"]), &off()).unwrap();
    assert!(s.port_changed);
    assert_eq!(s.profile.rc_port, 5573);
    assert_eq!(s.argv.last().unwrap(), "127.0.0.1:5573");
}

#[test]
fn startup_files() {
    assert_eq!(startup_script("abc"), "LiClone-abc.vbs");
    let mut p = profile("a");
    p.mount_point = "C:\\My Drive".to_string();
    assert_eq!(
        startup_vbs(&p, "rclone"),
        "Set sh = CreateObject(\"Wscript.Shell\")\r\nsh.Run \"rclone mount gdrive:Photos \"\"C:\\My Drive\"\" --vfs-cache-mode full\", 0, False\r\n"
    );
}

#[test]
fn home_disk_is_longest_mount() {
    let disks = vec![
        DiskInfo { holds_home: true, mount_len: 1, available: 10 },
        DiskInfo { holds_home: true, mount_len: 3, available: 0 },
        DiskInfo { holds_home: true, mount_len: 2, available: 20 },
        DiskInfo { holds_home: false, mount_len: 9, available: 30 },
        DiskInfo { holds_home: true, mount_len: 2, available: 40 },
    ];
    assert_eq!(free_bytes_for_home(&disks), Some(20));
    assert_eq!(free_bytes_for_home(&vec![]), None);
}
