//! Running rclone processes: which processes count as rclone, and what
//! their command lines say about each one.

use vstd::prelude::*;

use crate::json::{get_member, json_of, json_u64, member, parse_json, JsonValue};
use crate::memo::TimedCache;
use crate::order::{law_sort_desc, lemma_insert_desc_at, lemma_sort_desc_push, sort_asc, sort_desc};
use crate::parse::{
    flag_value, has_flag, join_spaced, join_words, parse_argv, parsed_from, rc_addr, rc_addr_spec,
    spec_flag_value, spec_has_flag, split_cmdline, split_spec, ParsedRclone,
};
use crate::text::{decimal, decimal_string, concat, push_str, chars_of, has_infix, lower_contains, opt_view, trim, trim_str, unicode_lower, views};

verus! {

broadcast use vstd::string::group_string_axioms;

/// What the process table says of one process.
#[derive(Debug, Clone)]
pub struct ProcessInfo {
    pub pid: u32,
    pub name: String,
    pub exe: Option<String>,
    pub cwd: Option<String>,
    pub cmd: Vec<String>,
    pub memory: u64,
    pub run_time_secs: u64,
    pub status: String,
    pub parent_pid: Option<u32>,
}

/// What the operating system's management interface adds: the command line
/// and executable as it reports them.
#[derive(Debug, Clone)]
pub struct ExtraProc {
    pub command_line: Option<String>,
    pub exe: Option<String>,
}

/// A running rclone process.
#[derive(Debug, Clone)]
pub struct RcloneInstance {
    pub pid: u32,
    pub name: String,
    pub exe: Option<String>,
    pub cwd: Option<String>,
    pub cmd: Vec<String>,
    pub cmd_line: String,
    pub parsed: ParsedRclone,
    pub rc_addr: Option<String>,
    pub rc_user: Option<String>,
    pub rc_has_pass: bool,
    pub cache_dir: Option<String>,
    pub vfs_cache_mode: Option<String>,
    pub memory: u64,
    pub run_time_secs: Option<u64>,
    pub status: String,
    pub parent_pid: Option<u32>,
}

pub open spec fn lower_has(s: Seq<char>, p: Seq<char>) -> bool {
    has_infix(unicode_lower(s), p)
}

pub open spec fn extra_exe(extra: Option<ExtraProc>) -> Option<Seq<char>> {
    match extra {
        Some(e) => opt_view(e.exe),
        None => None,
    }
}

pub open spec fn extra_line(extra: Option<ExtraProc>) -> Option<Seq<char>> {
    match extra {
        Some(e) => opt_view(e.command_line),
        None => None,
    }
}

/// A process counts as rclone when its name, its executable or its command
/// line mentions rclone, and its name does not mention LiClone.
pub open spec fn counts_as_rclone(p: ProcessInfo, extra: Option<ExtraProc>) -> bool {
    &&& (lower_has(p.name@, "rclone"@)
        || (extra_exe(extra) matches Some(e) && lower_has(e, "rclone"@))
        || (extra_line(extra) matches Some(l) && lower_has(l, "rclone"@)))
    &&& !lower_has(p.name@, "liclone"@)
}

/// The words of `s` that are not empty.
pub open spec fn non_empty(s: Seq<Seq<char>>) -> Seq<Seq<char>>
    decreases s.len(),
{
    if s.len() == 0 {
        s
    } else if s.last().len() == 0 {
        non_empty(s.drop_last())
    } else {
        non_empty(s.drop_last()).push(s.last())
    }
}

/// The command of a process: its arguments, else its command line split into
/// words, else its executable, else its name.
pub open spec fn instance_cmd(p: ProcessInfo, extra: Option<ExtraProc>) -> Seq<Seq<char>> {
    let args = non_empty(views(p.cmd@));
    let split = match extra_line(extra) {
        Some(l) => split_spec(l),
        None => Seq::empty(),
    };
    if args.len() > 0 {
        args
    } else if split.len() > 0 {
        split
    } else {
        match opt_view(p.exe) {
            Some(e) => seq![e],
            None => match extra_exe(extra) {
                Some(e) => seq![e],
                None => seq![p.name@],
            },
        }
    }
}

/// The command line shown: the words joined by spaces, or the whole command
/// line the system reported when there is one word.
pub open spec fn instance_line(cmd: Seq<Seq<char>>, extra: Option<ExtraProc>) -> Seq<char> {
    if cmd.len() == 1 {
        match extra_line(extra) {
            Some(l) => l,
            None => join_words(cmd),
        }
    } else {
        join_words(cmd)
    }
}

/// What a process's command line says, as its instance shows it.
pub open spec fn instance_spec(i: RcloneInstance, p: ProcessInfo, extra: Option<ExtraProc>) -> bool {
    &&& i.pid == p.pid
    &&& i.name@ == p.name@
    &&& opt_view(i.exe) == (match opt_view(p.exe) {
        Some(e) => Some(e),
        None => extra_exe(extra),
    })
    &&& opt_view(i.cwd) == opt_view(p.cwd)
    &&& views(i.cmd@) == instance_cmd(p, extra)
    &&& i.cmd_line@ == instance_line(instance_cmd(p, extra), extra)
    &&& parsed_from(i.parsed, instance_cmd(p, extra))
    &&& opt_view(i.rc_addr) == rc_addr_spec(i.parsed)
    &&& opt_view(i.rc_user) == spec_flag_value(i.parsed, "--rc-user"@)
    &&& i.rc_has_pass == (spec_flag_value(i.parsed, "--rc-pass"@) is Some || spec_has_flag(i.parsed, "--rc-htpasswd"@))
    &&& opt_view(i.cache_dir) == spec_flag_value(i.parsed, "--cache-dir"@)
    &&& opt_view(i.vfs_cache_mode) == spec_flag_value(i.parsed, "--vfs-cache-mode"@)
    &&& i.memory == p.memory
    &&& i.run_time_secs == Some(p.run_time_secs)
    &&& i.status@ == p.status@
    &&& i.parent_pid == p.parent_pid
}

fn copy_opt(o: &Option<String>) -> (r: Option<String>)
    ensures
        opt_view(r) == opt_view(*o),
{
    match o {
        Some(s) => Some(s.clone()),
        None => None,
    }
}

fn owned(o: Option<&str>) -> (r: Option<String>)
    ensures
        match o {
            Some(s) => r matches Some(t) && t@ == s@,
            None => r is None,
        },
{
    match o {
        Some(s) => Some(s.to_string()),
        None => None,
    }
}

/// The instance a process makes, or `None` when it does not count as
/// rclone.
pub fn instance_from(p: &ProcessInfo, extra: Option<&ExtraProc>) -> (r: Option<RcloneInstance>)
    ensures
        r is Some <==> counts_as_rclone(*p, opt_ref(extra)),
        r matches Some(i) ==> instance_spec(i, *p, opt_ref(extra)),
{
    let ghost ex = opt_ref(extra);
    let exe_named = match extra {
        Some(e) => match &e.exe {
            Some(x) => lower_contains(x.as_str(), "rclone"),
            None => false,
        },
        None => false,
    };
    let line_named = match extra {
        Some(e) => match &e.command_line {
            Some(l) => lower_contains(l.as_str(), "rclone"),
            None => false,
        },
        None => false,
    };
    let looks = lower_contains(p.name.as_str(), "rclone") || exe_named || line_named;
    if !looks {
        return None;
    }
    if lower_contains(p.name.as_str(), "liclone") {
        return None;
    }
    let mut cmd: Vec<String> = Vec::new();
    let mut k: usize = 0;
    while k < p.cmd.len()
        invariant
            k <= p.cmd@.len(),
            views(cmd@) == non_empty(views(p.cmd@).take(k as int)),
        decreases p.cmd.len() - k,
    {
        let ghost before = views(cmd@);
        assert(views(p.cmd@).take(k + 1).drop_last() =~= views(p.cmd@).take(k as int));
        if chars_of(p.cmd[k].as_str()).len() > 0 {
            cmd.push(p.cmd[k].clone());
            assert(views(cmd@) =~= before.push(p.cmd@[k as int]@));
        }
        k = k + 1;
    }
    assert(views(p.cmd@).take(p.cmd@.len() as int) =~= views(p.cmd@));
    if cmd.len() == 0 {
        if let Some(e) = extra {
            if let Some(line) = &e.command_line {
                cmd = split_cmdline(line.as_str());
            }
        }
    }
    if cmd.len() == 0 {
        let first = match &p.exe {
            Some(x) => x.clone(),
            None => match extra {
                Some(e) => match &e.exe {
                    Some(x) => x.clone(),
                    None => p.name.clone(),
                },
                None => p.name.clone(),
            },
        };
        cmd.push(first);
    }
    assert(views(cmd@) == instance_cmd(*p, ex));
    let parsed = parse_argv(cmd.as_slice());
    let rc = rc_addr(&parsed);
    let cache_dir = owned(flag_value(&parsed, "--cache-dir"));
    let vfs_cache_mode = owned(flag_value(&parsed, "--vfs-cache-mode"));
    let rc_user = owned(flag_value(&parsed, "--rc-user"));
    let rc_has_pass = flag_value(&parsed, "--rc-pass").is_some() || has_flag(&parsed, "--rc-htpasswd");
    let exe = match &p.exe {
        Some(x) => Some(x.clone()),
        None => match extra {
            Some(e) => copy_opt(&e.exe),
            None => None,
        },
    };
    let joined = join_spaced(&cmd);
    let cmd_line = if cmd.len() == 1 {
        match extra {
            Some(e) => match &e.command_line {
                Some(l) => l.clone(),
                None => joined,
            },
            None => joined,
        }
    } else {
        joined
    };
    Some(RcloneInstance {
        pid: p.pid,
        name: p.name.clone(),
        exe,
        cwd: copy_opt(&p.cwd),
        cmd,
        cmd_line,
        parsed,
        rc_addr: rc,
        rc_user,
        rc_has_pass,
        cache_dir,
        vfs_cache_mode,
        memory: p.memory,
        run_time_secs: Some(p.run_time_secs),
        status: p.status.clone(),
        parent_pid: p.parent_pid,
    })
}

/// The processes that count as rclone, as (pid, position among the
/// processes), in the order of the process table.
pub open spec fn counted(procs: Seq<(ProcessInfo, Option<ExtraProc>)>) -> Seq<(int, int)>
    decreases procs.len(),
{
    if procs.len() == 0 {
        Seq::empty()
    } else if counts_as_rclone(procs.last().0, procs.last().1) {
        counted(procs.drop_last()).push((procs.last().0.pid as int, procs.len() - 1))
    } else {
        counted(procs.drop_last())
    }
}

pub open spec fn by_pid() -> spec_fn((int, int)) -> int {
    |t: (int, int)| t.0
}

/// The rclone instances among the processes of the process table, each
/// with the extra information the system gave for it, ordered by pid.
pub fn collect_instances(procs: &Vec<(ProcessInfo, Option<ExtraProc>)>) -> (r: Vec<RcloneInstance>)
    ensures
        r@.len() == sort_asc(counted(procs@), by_pid()).len(),
        forall|k: int| 0 <= k < r@.len() ==> {
            let at = sort_asc(counted(procs@), by_pid())[k].1;
            instance_spec(#[trigger] r@[k], procs@[at].0, procs@[at].1)
        },
{
    let ghost neg = |t: (int, int)| -(by_pid())(t);
    let mut out: Vec<RcloneInstance> = Vec::new();
    let ghost mut keys: Seq<(int, int)> = Seq::empty();
    let mut i: usize = 0;
    while i < procs.len()
        invariant
            i <= procs@.len(),
            neg == (|t: (int, int)| -(by_pid())(t)),
            keys == sort_desc(counted(procs@.take(i as int)), neg),
            out@.len() == keys.len(),
            forall|k: int| 0 <= k < keys.len() ==> 0 <= #[trigger] keys[k].1 < i,
            forall|k: int| 0 <= k < out@.len() ==> (#[trigger] out@[k]).pid == keys[k].0 && instance_spec(
                out@[k],
                procs@[keys[k].1].0,
                procs@[keys[k].1].1,
            ),
        decreases procs.len() - i,
    {
        assert(procs@.take(i + 1).drop_last() =~= procs@.take(i as int));
        let (p, e) = &procs[i];
        let found = match e {
            Some(x) => instance_from(p, Some(x)),
            None => instance_from(p, None),
        };
        assert(opt_ref(match e { Some(x) => Some(x), None => None }) == procs@[i as int].1);
        if let Some(x) = found {
            let ghost t = (x.pid as int, i as int);
            let mut j: usize = out.len();
            while j > 0 && out[j - 1].pid > x.pid
                invariant
                    j <= out@.len(),
                    neg == (|t: (int, int)| -(by_pid())(t)),
                    t.0 == x.pid,
                    out@.len() == keys.len(),
                    forall|k: int| 0 <= k < out@.len() ==> (#[trigger] out@[k]).pid == keys[k].0,
                    forall|k: int| j <= k < keys.len() ==> neg(#[trigger] keys[k]) < neg(t),
                decreases j,
            {
                assert(out@[j - 1].pid == keys[j - 1].0);
                assert(neg(keys[j - 1]) == -keys[j - 1].0);
                assert(neg(t) == -t.0);
                j = j - 1;
            }
            proof {
                if j > 0 {
                    assert(out@[j - 1].pid == keys[j - 1].0);
                }
                lemma_insert_desc_at(keys, t, neg, j as int);
                lemma_sort_desc_push(counted(procs@.take(i as int)), t, neg);
                keys = keys.insert(j as int, t);
            }
            let ghost old_out = out@;
            out.insert(j, x);
            assert forall|k: int| 0 <= k < out@.len() implies (#[trigger] out@[k]).pid == keys[k].0 && instance_spec(
                out@[k],
                procs@[keys[k].1].0,
                procs@[keys[k].1].1,
            ) by {
                if k < j {
                    assert(out@[k] == old_out[k]);
                } else if k > j {
                    assert(out@[k] == old_out[k - 1]);
                }
            }
        }
        i = i + 1;
    }
    assert(procs@.take(procs@.len() as int) =~= procs@);
    out
}

/// The instances come ordered by pid.
pub proof fn law_instances_by_pid(procs: Seq<(ProcessInfo, Option<ExtraProc>)>)
    ensures
        forall|i: int, j: int|
            0 <= i < j < sort_asc(counted(procs), by_pid()).len() ==> #[trigger] sort_asc(counted(procs), by_pid())[i].0
                <= #[trigger] sort_asc(counted(procs), by_pid())[j].0,
{
    let neg = |t: (int, int)| -(by_pid())(t);
    law_sort_desc(counted(procs), neg);
    let r = sort_asc(counted(procs), by_pid());
    assert forall|i: int, j: int| 0 <= i < j < r.len() implies #[trigger] r[i].0 <= #[trigger] r[j].0 by {
        assert(neg(r[i]) >= neg(r[j]));
    }
}

/// A member of a JSON object as text, when it is a string that is not
/// empty.
pub open spec fn text_member(m: Seq<(String, JsonValue)>, k: Seq<char>) -> Option<Seq<char>> {
    match member(m, k) {
        Some(JsonValue::Str(s)) => if s@.len() > 0 {
            Some(s@)
        } else {
            None
        },
        _ => None,
    }
}

/// The process id a record names, cut to 32 bits; 0 when it names none.
pub open spec fn record_pid(v: JsonValue) -> u32 {
    match v {
        JsonValue::Object(m, _) => match member(m@, "ProcessId"@) {
            Some(n) => match json_u64(n) {
                Some(x) => x as u32,
                None => 0,
            },
            None => 0,
        },
        _ => 0,
    }
}

/// The records of the system's process listing: the items of an array, or
/// the one value it gave.
pub open spec fn records(doc: Option<JsonValue>) -> Seq<JsonValue> {
    match doc {
        Some(JsonValue::Array(items, _)) => items@,
        Some(v) => seq![v],
        None => Seq::empty(),
    }
}

pub open spec fn extra_of(v: JsonValue) -> (Option<Seq<char>>, Option<Seq<char>>) {
    match v {
        JsonValue::Object(m, _) => (text_member(m@, "CommandLine"@), text_member(m@, "ExecutablePath"@)),
        _ => (None, None),
    }
}

/// The records with a process id, in order, as (pid, command line, exe).
pub open spec fn extras_spec(rs: Seq<JsonValue>) -> Seq<(u32, Option<Seq<char>>, Option<Seq<char>>)>
    decreases rs.len(),
{
    if rs.len() == 0 {
        Seq::empty()
    } else if record_pid(rs.last()) == 0 {
        extras_spec(rs.drop_last())
    } else {
        extras_spec(rs.drop_last()).push((record_pid(rs.last()), extra_of(rs.last()).0, extra_of(rs.last()).1))
    }
}

pub open spec fn extra_views(s: Seq<(u32, ExtraProc)>) -> Seq<(u32, Option<Seq<char>>, Option<Seq<char>>)> {
    Seq::new(s.len(), |i: int| (s[i].0, opt_view(s[i].1.command_line), opt_view(s[i].1.exe)))
}

fn text_of(m: &Vec<(String, JsonValue)>, k: &str) -> (r: Option<String>)
    ensures
        opt_view(r) == text_member(m@, k@),
{
    match get_member(m, k) {
        Some(JsonValue::Str(s)) => {
            if chars_of(s.as_str()).len() > 0 {
                Some(s.clone())
            } else {
                None
            }
        },
        _ => None,
    }
}

/// What the system's process listing (parsed JSON, `None` when it was not
/// JSON) says of each process, in order; a process listed twice is taken
/// from its last record (see `extra_for`).
pub fn extras_from_json(doc: Option<JsonValue>) -> (r: Vec<(u32, ExtraProc)>)
    ensures
        extra_views(r@) == extras_spec(records(doc)),
{
    let ghost d = doc;
    let items: Vec<JsonValue> = match doc {
        Some(JsonValue::Array(items, _)) => items,
        Some(v) => {
            let mut one = Vec::new();
            one.push(v);
            assert(one@ =~= seq![v]);
            one
        },
        None => Vec::new(),
    };
    assert(items@ == records(d));
    let ghost rs = items@;
    let mut out: Vec<(u32, ExtraProc)> = Vec::new();
    let mut i: usize = 0;
    while i < items.len()
        invariant
            i <= rs.len(),
            rs == items@,
            extra_views(out@) == extras_spec(rs.take(i as int)),
        decreases items.len() - i,
    {
        assert(rs.take(i + 1).drop_last() =~= rs.take(i as int));
        if let JsonValue::Object(m, _) = &items[i] {
            let pid: u32 = match get_member(m, "ProcessId") {
                Some(JsonValue::Number(_, Some(x))) => *x as u32,
                _ => 0,
            };
            if pid != 0 {
                let ghost before = extra_views(out@);
                let e = ExtraProc { command_line: text_of(m, "CommandLine"), exe: text_of(m, "ExecutablePath") };
                out.push((pid, e));
                assert(extra_views(out@) =~= before.push((pid, extra_of(rs[i as int]).0, extra_of(rs[i as int]).1)));
            }
        }
        i = i + 1;
    }
    assert(rs.take(rs.len() as int) =~= rs);
    out
}

/// What the system's process listing says of each process, given the text
/// it printed: nothing when the text is blank, else the trimmed text parsed
/// as JSON and read as `extras_from_json` reads it.
pub fn extras_from_text(raw: &str) -> (r: Vec<(u32, ExtraProc)>)
    ensures
        trim(raw@).len() == 0 ==> r@.len() == 0,
        trim(raw@).len() > 0 ==> extra_views(r@) == extras_spec(records(json_of(trim(raw@)))),
{
    let t = trim_str(raw);
    if chars_of(t.as_str()).len() == 0 {
        return Vec::new();
    }
    extras_from_json(parse_json(t.as_str()))
}

/// The last record for process `pid`.
pub fn extra_for(extras: &Vec<(u32, ExtraProc)>, pid: u32) -> (r: Option<&ExtraProc>)
    ensures
        match r {
            Some(e) => exists|k: int|
                0 <= k < extras@.len() && extras@[k].0 == pid && extras@[k].1 == *e && forall|m: int|
                    k < m < extras@.len() ==> (#[trigger] extras@[m]).0 != pid,
            None => forall|m: int| 0 <= m < extras@.len() ==> (#[trigger] extras@[m]).0 != pid,
        },
{
    let mut k: usize = extras.len();
    while k > 0
        invariant
            k <= extras@.len(),
            forall|m: int| k <= m < extras@.len() ==> (#[trigger] extras@[m]).0 != pid,
        decreases k,
    {
        k = k - 1;
        if extras[k].0 == pid {
            return Some(&extras[k].1);
        }
    }
    None
}

/// How long a scan of the process table is reused: eight seconds.
pub const INSTANCE_TTL_MS: u64 = 8000;

/// Forgets the last scan of the process table, so that the next listing
/// scans again.
pub fn invalidate_instance_cache<T>(cache: &mut TimedCache<T>)
    ensures
        final(cache).hit is None,
        final(cache).ttl_ms == old(cache).ttl_ms,
{
    cache.clear();
}

/// The answer to a request to stop process `pid`: whether the process table
/// has it, and whether the kill signal was delivered.
pub fn stop_pid(pid: u32, found: bool, killed: bool) -> (r: Result<(), String>)
    ensures
        found && killed ==> r is Ok,
        found && !killed ==> (r matches Err(e) && e@ == "Could not stop process "@ + decimal(pid as nat) + "."@),
        !found ==> (r matches Err(e) && e@ == "Process "@ + decimal(pid as nat) + " is not running."@),
{
    let n = decimal_string(pid as u64);
    if found {
        if killed {
            Ok(())
        } else {
            let mut e = concat("Could not stop process ", n.as_str());
            push_str(&mut e, ".");
            Err(e)
        }
    } else {
        let mut e = concat("Process ", n.as_str());
        push_str(&mut e, " is not running.");
        Err(e)
    }
}

pub open spec fn opt_ref(o: Option<&ExtraProc>) -> Option<ExtraProc> {
    match o {
        Some(e) => Some(*e),
        None => None,
    }
}

} // verus!
