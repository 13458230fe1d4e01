use liclone::parse::{
    flag_value, has_flag, join_spaced, normalize_addr, normalize_argv, parse_argv, quote_win, rc_addr,
    split_cmdline,
};

fn words(v: &[&str]) -> Vec<String> {
    v.iter().map(|s| s.to_string()).collect()
}

#[test]
fn split_cmdline_honours_quotes() {
    let out = split_cmdline(r#""C:\Program Files\rclone\rclone.exe" mount remote: X: --vfs-cache-mode full"#);
    assert_eq!(
        out,
        words(&[r"C:\Program Files\rclone\rclone.exe", "mount", "remote:", "X:", "--vfs-cache-mode", "full"])
    );
}

#[test]
fn split_cmdline_drops_empty_words() {
    assert_eq!(split_cmdline("  a   b  "), words(&["a", "b"]));
    assert_eq!(split_cmdline(""), Vec::<String>::new());
    assert_eq!(split_cmdline("\"\""), Vec::<String>::new());
}

#[test]
fn split_cmdline_backslash_before_quote() {
    // One backslash before a quote gives a literal quote.
    assert_eq!(split_cmdline(r#"a\"b c"#), words(&[r#"a"b"#, "c"]));
    // Two backslashes give one, and the quote opens quoting.
    assert_eq!(split_cmdline(r#"a\\"b c" d"#), words(&[r"a\b c", "d"]));
    // Three give one backslash and a literal quote.
    assert_eq!(split_cmdline(r#"a\\\"b"#), words(&[r#"a\"b"#]));
    // Backslashes not before a quote are kept as they are.
    assert_eq!(split_cmdline(r"C:\dir\\x y\"), words(&[r"C:\dir\\x", r"y\"]));
    assert_eq!(split_cmdline(r#""C:\a b\\""#), words(&[r"C:\a b\"]));
}

#[test]
fn normalize_argv_splits_single_line() {
    assert_eq!(normalize_argv(&words(&["rclone mount r: X:"])), words(&["rclone", "mount", "r:", "X:"]));
    assert_eq!(normalize_argv(&words(&["rclone"])), words(&["rclone"]));
    assert_eq!(normalize_argv(&[]), Vec::<String>::new());
}

#[test]
fn parse_argv_reads_mount() {
    let p = parse_argv(&words(&[
        "rclone",
        "mount",
        "gdrive:Photos",
        "X:",
        "--vfs-cache-mode",
        "full",
        "--rc",
        "--rc-addr=:5573",
        "-v",
    ]));
    assert_eq!(p.binary, "rclone");
    assert_eq!(p.verb, "mount");
    assert_eq!(p.remote.as_deref(), Some("gdrive:Photos"));
    assert_eq!(p.mount_point.as_deref(), Some("X:"));
    assert_eq!(flag_value(&p, "--vfs-cache-mode"), Some("full"));
    assert_eq!(flag_value(&p, "--rc-addr"), Some(":5573"));
    assert!(has_flag(&p, "--rc"));
    assert!(has_flag(&p, "-v"));
    assert_eq!(flag_value(&p, "--rc"), None);
    assert_eq!(p.positional, words(&["mount", "gdrive:Photos", "X:"]));
    assert_eq!(rc_addr(&p).as_deref(), Some("127.0.0.1:5573"));
}

#[test]
fn parse_argv_value_flag_before_dash_word_takes_none() {
    let p = parse_argv(&words(&["rclone", "serve", "--cache-dir", "-x", "rest"]));
    assert!(has_flag(&p, "--cache-dir"));
    assert_eq!(flag_value(&p, "--cache-dir"), None);
    assert_eq!(p.verb, "serve");
    assert_eq!(p.mount_point, None);
    assert_eq!(p.remote.as_deref(), Some("rest"));
}

#[test]
fn parse_argv_double_dash_ends_flags() {
    let p = parse_argv(&words(&["rclone", "mount", "--", "--odd", "Y:"]));
    assert_eq!(p.positional, words(&["mount", "--odd", "Y:"]));
    assert_eq!(p.remote.as_deref(), Some("--odd"));
    assert!(!has_flag(&p, "--odd"));
}

#[test]
fn parse_argv_empty_defaults() {
    let p = parse_argv(&[]);
    assert_eq!(p.binary, "rclone");
    assert_eq!(p.verb, "unknown");
    assert_eq!(p.remote, None);
    assert!(p.raw.is_empty());
}

#[test]
fn parse_argv_later_flag_wins() {
    let p = parse_argv(&words(&["rclone", "mount", "--log-level", "INFO", "--log-level=DEBUG"]));
    assert_eq!(flag_value(&p, "--log-level"), Some("DEBUG"));
    assert_eq!(p.flags.len(), 1);
}

#[test]
fn rc_addr_default_and_absent() {
    let p = parse_argv(&words(&["rclone", "rcd"]));
    assert_eq!(rc_addr(&p).as_deref(), Some("127.0.0.1:5572"));
    let q = parse_argv(&words(&["rclone", "mount", "a:", "B:"]));
    assert_eq!(rc_addr(&q), None);
}

#[test]
fn normalize_addr_forms() {
    assert_eq!(normalize_addr(" :5572 "), "127.0.0.1:5572");
    assert_eq!(normalize_addr("http://localhost:5572/"), "localhost:5572");
    assert_eq!(normalize_addr("https://host:1//"), "host:1");
    assert_eq!(normalize_addr("10.0.0.2:80"), "10.0.0.2:80");
}

#[test]
fn quote_win_cases() {
    assert_eq!(quote_win(""), "\"\"");
    assert_eq!(quote_win("plain"), "plain");
    assert_eq!(quote_win("C:\\Program Files\\x"), "\"C:\\Program Files\\x\"");
    assert_eq!(quote_win("say \"hi\""), "\"say \"\"hi\"\"\"");
    assert_eq!(quote_win("50%"), "\"50%\"");
}

#[test]
fn quoted_words_split_back() {
    let args = words(&["rclone", "mount", "my remote:", "X:"]);
    let line: Vec<String> = args.iter().map(|a| quote_win(a)).collect();
    let joined = join_spaced(&line);
    assert_eq!(split_cmdline(&joined), args);
}

#[test]
fn parsed_parts_come_from_the_line() {
    let argv = words(&["rclone", "-v", "mount", "--vfs-cache-mode", "full", "r:", "--", "-x", "X:"]);
    let p = parse_argv(&argv);
    assert_eq!(p.positional, words(&["mount", "r:", "-x", "X:"]));
    let mut at = 1;
    for w in &p.positional {
        let found = argv[at..].iter().position(|a| a == w).expect("positional taken from the line");
        at += found + 1;
    }
    assert!(p.flags.iter().all(|(k, _)| k.starts_with('-')));
    assert_eq!(p.flags.len(), 2);
}
