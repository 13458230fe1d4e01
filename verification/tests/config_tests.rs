use liclone::configedit::{
    check_name, clip, confirm_args, delete_remote, dump_remotes, dump_remotes_from, json_body, parse_option, parse_provider,
    providers, providers_from, reconnect_remote, remote_write_params, retry_without_confirm, run_outcome, run_timed_out, save_remote,
    RemoteParamWrite,
    RemoteWrite,
};
use liclone::json::{parse_json, JsonValue};
use liclone::wizard::{create_remote, create_remote_params, failure_detail, obscure, RemoteDraft, RemoteParam};

fn s(x: &str) -> String {
    x.to_string()
}

fn words(v: &[&str]) -> Vec<String> {
    v.iter().map(|x| x.to_string()).collect()
}

fn text(x: &str) -> JsonValue {
    JsonValue::Str(s(x))
}

fn obj(members: Vec<(&str, JsonValue)>) -> JsonValue {
    JsonValue::Object(members.into_iter().map(|(k, v)| (s(k), v)).collect(), s("{}"))
}

fn write(name: &str) -> RemoteWrite {
    RemoteWrite {
        name: s(name),
        previous_name: String::new(),
        kind: s("drive"),
        previous_kind: String::new(),
        create: false,
        params: Vec::new(),
        clear: Vec::new(),
    }
}

fn param(k: &str, v: &str) -> RemoteParam {
    RemoteParam { key: s(k), value: s(v) }
}

fn pw(k: &str, v: &str, obscure: bool) -> RemoteParamWrite {
    RemoteParamWrite { key: s(k), value: s(v), obscure }
}

#[test]
fn check_name_rules() {
    assert_eq!(check_name(" photos: "), Ok(s("photos")));
    assert_eq!(check_name("my-box_2"), Ok(s("my-box_2")));
    let bad = Err(s("Use a remote name with letters, numbers, dashes, or underscores."));
    assert_eq!(check_name("has space"), bad);
    assert_eq!(check_name(":"), bad);
}

#[test]
fn save_new_remote_creates_it() {
    let mut b = write("box");
    b.create = true;
    b.params = vec![pw("client_id", "x", false), pw("token", "t", false)];
    let plan = save_remote(&b, &[None, None]).unwrap();
    assert_eq!(plan.calls.len(), 1);
    assert_eq!(plan.calls[0].args, words(&["config", "create", "box", "drive", "client_id", "x", "token", "t"]));
    assert!(!plan.calls[0].confirm);
    assert_eq!(plan.calls[0].timeout_secs, 120);
    assert_eq!(plan.outcome, Ok(s("box:")));
}

#[test]
fn save_renamed_remote_copies_clears_updates() {
    let mut b = write("newname");
    b.previous_name = s("old:");
    b.previous_kind = s("drive");
    b.clear = words(&[" scope ", "type", ""]);
    b.params = vec![pw("team_drive", "abc", false)];
    let plan = save_remote(&b, &[None]).unwrap();
    let args: Vec<Vec<String>> = plan.calls.iter().map(|c| c.args.clone()).collect();
    assert_eq!(
        args,
        vec![
            words(&["config", "copy", "old", "newname"]),
            words(&["config", "delete", "old"]),
            words(&["config", "update", "newname", "scope", ""]),
            words(&["config", "update", "newname", "team_drive", "abc"]),
        ]
    );
    assert_eq!(plan.calls.iter().map(|c| c.confirm).collect::<Vec<_>>(), vec![false, true, true, true]);
    assert_eq!(plan.calls.iter().map(|c| c.timeout_secs).collect::<Vec<_>>(), vec![20, 20, 20, 40]);
    assert_eq!(plan.outcome, Ok(s("newname:")));
}

#[test]
fn save_obscures_marked_settings() {
    let mut b = write("box");
    b.create = true;
    b.params = vec![pw("pass", " secret ", true), pw("user", " me ", false)];
    let ps = remote_write_params(&b).unwrap();
    assert_eq!(ps.len(), 2);
    assert_eq!(ps[0].value, "secret");
    assert!(ps[0].obscure);
    assert_eq!(ps[1].value, " me ");
    let plan = save_remote(&b, &[Some(s("OBSC")), None]).unwrap();
    assert_eq!(plan.calls[0].args, words(&["config", "create", "box", "drive", "pass", "OBSC", "user", " me "]));
}

#[test]
fn blank_secret_kept_on_edit() {
    let mut b = write("box");
    b.previous_name = s("box");
    b.previous_kind = s("drive");
    b.params = vec![pw("token", "  ", true), pw("client_id", "id", false), pw("pass", "", false)];
    let ps = remote_write_params(&b).unwrap();
    assert_eq!(ps.len(), 1);
    assert_eq!(ps[0].key, "client_id");
    let plan = save_remote(&b, &[None]).unwrap();
    let args: Vec<Vec<String>> = plan.calls.iter().map(|c| c.args.clone()).collect();
    assert_eq!(args, vec![words(&["config", "update", "box", "client_id", "id"])]);
    // A new remote writes what was given.
    b.create = true;
    assert_eq!(remote_write_params(&b).unwrap().len(), 3);
}

#[test]
fn save_with_new_type_recreates() {
    let mut b = write("box");
    b.previous_name = s("box");
    b.previous_kind = s("s3");
    let plan = save_remote(&b, &[]).unwrap();
    let args: Vec<Vec<String>> = plan.calls.iter().map(|c| c.args.clone()).collect();
    assert_eq!(args, vec![words(&["config", "delete", "box"]), words(&["config", "create", "box", "drive"])]);
}

#[test]
fn save_errors() {
    let mut b = write("box");
    b.kind = s("  ");
    assert_eq!(save_remote(&b, &[]).err(), Some(s("Pick a remote type.")));
    assert_eq!(
        save_remote(&write("bad name"), &[]).err(),
        Some(s("Use a remote name with letters, numbers, dashes, or underscores."))
    );
    let same = save_remote(&write("box"), &[]).unwrap();
    assert!(same.calls.is_empty());
    assert_eq!(same.outcome, Ok(s("box:")));
}

#[test]
fn delete_and_reconnect_calls() {
    let d = delete_remote("box:").unwrap();
    assert_eq!(d.args, words(&["config", "delete", "box"]));
    assert!(d.confirm);
    let (r, answer) = reconnect_remote(" box ").unwrap();
    assert_eq!(r.args, words(&["config", "reconnect", "box:"]));
    assert_eq!(r.timeout_secs, 120);
    assert_eq!(answer, "box:");
    assert!(delete_remote("a b").is_err());
}

#[test]
fn confirm_and_retry() {
    assert_eq!(confirm_args(&words(&["config", "delete", "x"])), words(&["--auto-confirm", "config", "delete", "x"]));
    assert!(retry_without_confirm("Error: UNKNOWN FLAG: --auto-confirm"));
    assert!(!retry_without_confirm("permission denied"));
}

#[test]
fn run_outcomes() {
    assert_eq!(run_outcome(true, s("out"), "err"), Ok(s("out")));
    assert_eq!(run_outcome(false, s(" out "), "  "), Err(s("out")));
    assert_eq!(run_outcome(false, s("out"), " bad "), Err(s("bad")));
    assert_eq!(run_outcome(false, s(""), ""), Err(s("rclone config command failed.")));
    assert!(run_timed_out().starts_with("rclone took too long."));
}

#[test]
fn json_body_and_clip() {
    assert_eq!(json_body("NOTICE: x\n[1,2]\n"), "[1,2]");
    assert_eq!(json_body(" {\"a\":1} "), "{\"a\":1}");
    assert_eq!(json_body(" plain "), "plain");
    assert_eq!(clip("  abcdef ", 3), "abc…");
    assert_eq!(clip(" ab ", 3), "ab");
}

#[test]
fn parse_option_reads_fields() {
    let o = obj(vec![
        ("Name", text("token")),
        ("Help", text("  OAuth token ")),
        ("Default", JsonValue::Number(s("0"), Some(0))),
        ("IsPassword", JsonValue::Bool(true)),
        ("Hide", JsonValue::Number(s("2"), Some(2))),
        ("Type", text("string")),
        (
            "Examples",
            JsonValue::Array(
                vec![obj(vec![("Value", text("a")), ("Help", text("first"))]), obj(vec![("Value", text(""))])],
                s("[]"),
            ),
        ),
    ]);
    let p = parse_option(&o).unwrap();
    assert_eq!(p.name, "token");
    assert_eq!(p.help, "OAuth token");
    assert_eq!(p.default_value, "0");
    assert!(p.password);
    assert!(p.sensitive);
    assert!(p.advanced);
    assert!(!p.required);
    assert_eq!(p.option_type, "string");
    assert_eq!(p.examples.len(), 1);
    assert_eq!(p.examples[0].value, "a");
    assert!(parse_option(&obj(vec![("Help", text("x"))])).is_none());
}

#[test]
fn providers_lists_named_backends() {
    let list = JsonValue::Array(
        vec![
            obj(vec![("Name", text("drive")), ("Description", text("Google Drive")), ("Options", JsonValue::Array(vec![], s("[]")))]),
            obj(vec![("Description", text("nameless"))]),
            text("junk"),
        ],
        s("[]"),
    );
    let out = providers(Some(list)).unwrap();
    assert_eq!(out.len(), 1);
    assert_eq!(out[0].name, "drive");
    assert_eq!(out[0].description, "Google Drive");
    assert_eq!(
        providers(None).err(),
        Some(s("This rclone is too old to list backends. LiClone needs rclone 1.65 or newer."))
    );
    assert_eq!(providers(Some(text("x"))).err(), Some(s("rclone config providers did not return a list.")));
    assert!(parse_provider(&text("x")).is_none());
}

#[test]
fn dump_remotes_sorted_without_case() {
    let dump = obj(vec![
        ("Zeta", obj(vec![("type", text("s3")), ("region", text("eu"))])),
        ("alpha", obj(vec![("type", text("drive")), ("scope", text("drive")), ("chunk", JsonValue::Number(s("8"), Some(8)))])),
        ("broken", text("not an object")),
    ]);
    let out = dump_remotes(Some(dump)).unwrap();
    let names: Vec<&str> = out.iter().map(|r| r.name.as_str()).collect();
    assert_eq!(names, vec!["alpha", "Zeta"]);
    assert_eq!(out[0].kind, "drive");
    assert_eq!(out[0].values, vec![(s("scope"), s("drive")), (s("chunk"), s("8"))]);
    assert_eq!(
        dump_remotes(None).err(),
        Some(s("Could not read rclone\u{2019}s config. LiClone needs rclone 1.65 or newer."))
    );
    assert_eq!(dump_remotes(Some(text("x"))).err(), Some(s("rclone config dump did not return an object.")));
}

#[test]
fn wizard_create_remote() {
    let draft = RemoteDraft {
        name: s(" box "),
        kind: s("drive"),
        params: vec![param("client_secret", " abc "), param("scope", ""), param(" ", "x")],
        obscure: words(&["client_secret"]),
    };
    let ps = create_remote_params(&draft).unwrap();
    assert_eq!(ps.len(), 1);
    assert_eq!(ps[0].key, "client_secret");
    assert_eq!(ps[0].value, "abc");
    assert!(ps[0].obscure);
    let (args, answer) = create_remote(&draft, &[Some(s("OBSC"))]).unwrap();
    assert_eq!(args, words(&["config", "create", "box", "drive", "client_secret=OBSC"]));
    assert_eq!(answer, "box:");
    let mut bad = draft.clone();
    bad.kind = s(" ");
    assert_eq!(create_remote_params(&bad).err(), Some(s("Pick a remote type.")));
}

#[test]
fn wizard_obscure_and_failures() {
    assert_eq!(obscure(true, " xyz \n", ""), Ok(s("xyz")));
    assert_eq!(obscure(true, "  ", ""), Err(s("rclone obscure returned an empty password.")));
    assert_eq!(obscure(false, "", " no "), Err(s("no")));
    assert_eq!(failure_detail(" o ", "", "fallback"), "o");
    assert_eq!(failure_detail("", "", "fallback"), "fallback");
}

#[test]
fn write_params_trim_secret_values() {
    let mut b = write("box");
    b.params = vec![
        RemoteParamWrite { key: s(" pass "), value: s(" secret "), obscure: true },
        RemoteParamWrite { key: s("type"), value: s("x"), obscure: false },
        RemoteParamWrite { key: s("label"), value: s(" keep spaces "), obscure: false },
    ];
    let ps = liclone::configedit::remote_write_params(&b).unwrap();
    assert_eq!(ps.len(), 2);
    assert_eq!((ps[0].key.as_str(), ps[0].value.as_str(), ps[0].obscure), ("pass", "secret", true));
    assert_eq!((ps[1].key.as_str(), ps[1].value.as_str(), ps[1].obscure), ("label", " keep spaces ", false));
}

#[test]
fn providers_from_rclone_output() {
    let raw = "NOTICE: something\n[{\"Name\":\"drive\",\"Description\":\"Google Drive\",\"Options\":[]},{\"Name\":\"s3\",\"Description\":\"Amazon S3\",\"Options\":[]}]\n";
    let out = providers_from(raw).unwrap();
    let names: Vec<&str> = out.iter().map(|p| p.name.as_str()).collect();
    assert_eq!(names, vec!["drive", "s3"]);
    assert_eq!(out[1].description, "Amazon S3");
    assert_eq!(
        providers_from("Usage: rclone config").err(),
        Some(s("This rclone is too old to list backends. LiClone needs rclone 1.65 or newer."))
    );
    assert_eq!(providers_from("{\"a\":1}").err(), Some(s("rclone config providers did not return a list.")));
}

#[test]
fn dump_remotes_from_rclone_output() {
    let raw = "{\"Zeta\":{\"type\":\"s3\"},\"alpha\":{\"type\":\"drive\",\"chunk\":8}}";
    let out = dump_remotes_from(raw).unwrap();
    let names: Vec<&str> = out.iter().map(|r| r.name.as_str()).collect();
    assert_eq!(names, vec!["alpha", "Zeta"]);
    assert_eq!(out[0].values, vec![(s("chunk"), s("8"))]);
    assert_eq!(
        dump_remotes_from("not json").err(),
        Some(s("Could not read rclone\u{2019}s config. LiClone needs rclone 1.65 or newer."))
    );
    assert_eq!(dump_remotes_from("[1, 2]").err(), Some(s("rclone config dump did not return an object.")));
}

#[test]
fn parse_json_keeps_values_and_text() {
    let doc = parse_json(" {\"a\": [1, \"x\", -2.5, true, null]} ");
    let Some(JsonValue::Object(members, printed)) = doc else {
        panic!("not an object");
    };
    assert_eq!(printed, "{\"a\":[1,\"x\",-2.5,true,null]}");
    assert_eq!(members.len(), 1);
    assert_eq!(members[0].0, "a");
    let JsonValue::Array(items, _) = &members[0].1 else {
        panic!("not an array");
    };
    assert!(matches!(&items[0], JsonValue::Number(t, Some(1)) if t == "1"));
    assert!(matches!(&items[1], JsonValue::Str(t) if t == "x"));
    assert!(matches!(&items[2], JsonValue::Number(t, None) if t == "-2.5"));
    assert!(matches!(items[3], JsonValue::Bool(true)));
    assert!(matches!(items[4], JsonValue::Null));
    assert!(parse_json("nope").is_none());
    assert!(parse_json("").is_none());
}
