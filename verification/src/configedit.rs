//! Editing rclone remotes: the checks, the `rclone config` commands a
//! change takes, and the backend descriptions rclone lists.

use vstd::prelude::*;

use crate::json::{get_member, get_member2, json_of, json_string, json_text, json_u64, member, member2, parse_json, JsonValue, Members};
use crate::text::{
    lemma_trim_idem, chars_of, eq_chars, eq_str, lower_all, lower_seq, has_infix, contains_str, string_of, string_of_range, string_push, trim, trim_chars, trim_end_char, trim_end_char_len, trim_str, views,
    unicode_lower, to_lowercase, str_lt, less,
};
use crate::wizard::{final_spec, final_values, obscured_fit, obscured_views, rp_views, failure_detail, failure_text, name_is_valid, param_views, valid_remote_name, ParamToWrite, RemoteParam};

verus! {

broadcast use vstd::string::group_string_axioms;

/// One setting to write: key, value, and whether rclone must obscure it.
#[derive(Debug, Clone)]
pub struct RemoteParamWrite {
    pub key: String,
    pub value: String,
    pub obscure: bool,
}

/// A change to a remote: create it, or update it, possibly renaming it or
/// changing its type; `clear` lists settings to empty.
#[derive(Debug, Clone)]
pub struct RemoteWrite {
    pub name: String,
    pub previous_name: String,
    pub kind: String,
    pub previous_kind: String,
    pub create: bool,
    pub params: Vec<RemoteParamWrite>,
    pub clear: Vec<String>,
}

/// One `rclone` run: its arguments; `confirm` runs it with
/// `--auto-confirm` (and again without it when this rclone does not know
/// the flag); how long it may take.
#[derive(Debug, Clone)]
pub struct RcloneCall {
    pub args: Vec<String>,
    pub confirm: bool,
    pub timeout_secs: u64,
}

/// The runs a change takes, in order, and the answer once all of them
/// succeeded. A failing run ends the change with its error.
#[derive(Debug)]
pub struct SavePlan {
    pub calls: Vec<RcloneCall>,
    pub outcome: Result<String, String>,
}

pub type CallView = (Seq<Seq<char>>, bool, u64);

pub open spec fn call_view(c: RcloneCall) -> CallView {
    (views(c.args@), c.confirm, c.timeout_secs)
}

pub open spec fn call_views(s: Seq<RcloneCall>) -> Seq<CallView> {
    Seq::new(s.len(), |i: int| call_view(s[i]))
}

pub open spec fn res_view(r: Result<String, String>) -> Result<Seq<char>, Seq<char>> {
    match r {
        Ok(s) => Ok(s@),
        Err(e) => Err(e@),
    }
}

/// A remote name as typed: trimmed, without trailing colons.
pub open spec fn clean_name(name: Seq<char>) -> Seq<char> {
    trim_end_char(trim(name), ':')
}

pub open spec fn name_error() -> Seq<char> {
    "Use a remote name with letters, numbers, dashes, or underscores."@
}

/// A remote name, checked.
pub open spec fn check_name_spec(name: Seq<char>) -> Result<Seq<char>, Seq<char>> {
    if valid_remote_name(clean_name(name)) {
        Ok(clean_name(name))
    } else {
        Err(name_error())
    }
}

/// The name of a remote with surrounding whitespace and trailing colons
/// removed, when it holds only letters, digits, dashes and underscores.
pub fn check_name(name: &str) -> (r: Result<String, String>)
    ensures
        res_view(r) == check_name_spec(name@),
{
    let t = trim_chars(chars_of(name).as_slice());
    let n = trim_end_char_len(t.as_slice(), t.len(), ':');
    assert(t@.take(t@.len() as int) == t@);
    let s = string_of_range(t.as_slice(), 0, n);
    assert(t@.subrange(0, n as int) == t@.take(n as int));
    let c = chars_of(s.as_str());
    if !name_is_valid(c.as_slice()) {
        return Err("Use a remote name with letters, numbers, dashes, or underscores.".to_string());
    }
    Ok(s)
}

/// The settings a change writes: keys trimmed, blank keys and `type` left
/// out, and in an edit (see `is_edit`) settings whose trimmed value is blank
/// left out too; values as given, trimmed where they are to be obscured.
pub open spec fn write_params(params: Seq<RemoteParamWrite>, edit: bool) -> Seq<(Seq<char>, Seq<char>, bool)>
    decreases params.len(),
{
    if params.len() == 0 {
        Seq::empty()
    } else {
        let p = params.last();
        let k = trim(p.key@);
        let prev = write_params(params.drop_last(), edit);
        if k.len() == 0 || k == "type"@ || (edit && trim(p.value@).len() == 0) {
            prev
        } else {
            prev.push((k, if p.obscure { trim(p.value@) } else { p.value@ }, p.obscure))
        }
    }
}

/// The checks a change meets before rclone runs, then its settings.
pub open spec fn write_check(b: RemoteWrite) -> Result<Seq<(Seq<char>, Seq<char>, bool)>, Seq<char>> {
    match check_name_spec(b.name@) {
        Err(e) => Err(e),
        Ok(_) => if trim(b.kind@).len() == 0 {
            Err("Pick a remote type."@)
        } else {
            Ok(write_params(b.params@, is_edit(b)))
        },
    }
}

/// Whether a change edits a remote in place: not a new remote, and not a
/// new type. A setting left blank in such an edit keeps the value rclone
/// already has.
pub open spec fn is_edit(b: RemoteWrite) -> bool {
    !b.create && !(b.previous_kind@.len() > 0 && b.previous_kind@ != trim(b.kind@))
}

/// Checks a change and lists the settings it writes; a setting marked
/// `obscure` must go through `rclone obscure` before it is written.
pub fn remote_write_params(body: &RemoteWrite) -> (r: Result<Vec<ParamToWrite>, String>)
    ensures
        match r {
            Ok(ps) => write_check(*body) == Ok::<_, Seq<char>>(param_views(ps@)),
            Err(e) => write_check(*body) == Err::<Seq<(Seq<char>, Seq<char>, bool)>, _>(e@),
        },
{
    match check_name(body.name.as_str()) {
        Err(e) => return Err(e),
        Ok(_) => {},
    }
    let kind = trim_chars(chars_of(body.kind.as_str()).as_slice());
    if kind.len() == 0 {
        return Err("Pick a remote type.".to_string());
    }
    let pk = chars_of(body.previous_kind.as_str());
    let edit = !body.create && !(pk.len() > 0 && !eq_chars(pk.as_slice(), kind.as_slice()));
    assert(edit == is_edit(*body));
    let mut out: Vec<ParamToWrite> = Vec::new();
    let mut i: usize = 0;
    while i < body.params.len()
        invariant
            i <= body.params@.len(),
            edit == is_edit(*body),
            param_views(out@) == write_params(body.params@.take(i as int), edit),
        decreases body.params.len() - i,
    {
        assert(body.params@.take(i + 1).drop_last() == body.params@.take(i as int));
        let p = &body.params[i];
        let k = trim_chars(chars_of(p.key.as_str()).as_slice());
        let blank = trim_chars(chars_of(p.value.as_str()).as_slice()).len() == 0;
        if k.len() > 0 && !eq_str(k.as_slice(), "type") && !(edit && blank) {
            let value = if p.obscure {
                trim_str(p.value.as_str())
            } else {
                p.value.clone()
            };
            let ghost before = param_views(out@);
            out.push(ParamToWrite { key: string_of(k.as_slice()), value, obscure: p.obscure });
            assert(param_views(out@) =~= before.push(
                (k@, if p.obscure { trim(p.value@) } else { p.value@ }, p.obscure),
            ));
        }
        i = i + 1;
    }
    assert(body.params@.take(body.params@.len() as int) == body.params@);
    Ok(out)
}

/// Keys and values, in order, as arguments.
pub open spec fn kv_args(ps: Seq<(Seq<char>, Seq<char>)>) -> Seq<Seq<char>>
    decreases ps.len(),
{
    if ps.len() == 0 {
        Seq::empty()
    } else {
        kv_args(ps.drop_last()).push(ps.last().0).push(ps.last().1)
    }
}

/// The settings to empty: keys trimmed, blank keys and `type` left out.
pub open spec fn clear_keys(keys: Seq<Seq<char>>) -> Seq<Seq<char>>
    decreases keys.len(),
{
    if keys.len() == 0 {
        Seq::empty()
    } else {
        let k = trim(keys.last());
        if k.len() == 0 || k == "type"@ {
            clear_keys(keys.drop_last())
        } else {
            clear_keys(keys.drop_last()).push(k)
        }
    }
}

pub open spec fn clear_calls(name: Seq<char>, keys: Seq<Seq<char>>) -> Seq<CallView> {
    Seq::new(keys.len(), |i: int| (seq!["config"@, "update"@, name, keys[i], ""@], true, 20u64))
}

pub open spec fn delete_call(name: Seq<char>) -> CallView {
    (seq!["config"@, "delete"@, name], true, 20u64)
}

/// The runs and answer of a change, once its settings hold their final
/// values (`params`).
pub open spec fn save_spec(b: RemoteWrite, params: Seq<(Seq<char>, Seq<char>)>) -> Result<(Seq<CallView>, Result<Seq<char>, Seq<char>>), Seq<char>> {
    match check_name_spec(b.name@) {
        Err(e) => Err(e),
        Ok(name) => {
            let kind = trim(b.kind@);
            if kind.len() == 0 {
                Err("Pick a remote type."@)
            } else {
                let previous = clean_name(b.previous_name@);
                let answer = name.push(':');
                let type_changed = !b.create && b.previous_kind@.len() > 0 && b.previous_kind@ != kind;
                if b.create || type_changed {
                    let create: CallView = (seq!["config"@, "create"@, name, kind] + kv_args(params), false, 120u64);
                    if type_changed && previous.len() > 0 {
                        match check_name_spec(previous) {
                            Err(e) => Ok((Seq::empty(), Err(e))),
                            Ok(p) => Ok((seq![delete_call(p), create], Ok(answer))),
                        }
                    } else {
                        Ok((seq![create], Ok(answer)))
                    }
                } else {
                    let update: Seq<CallView> = if params.len() > 0 {
                        seq![(seq!["config"@, "update"@, name] + kv_args(params), true, 40u64)]
                    } else {
                        Seq::empty()
                    };
                    let tail = clear_calls(name, clear_keys(views(b.clear@))) + update;
                    if previous.len() > 0 && previous != name {
                        let copy: CallView = (seq!["config"@, "copy"@, previous, name], false, 20u64);
                        match check_name_spec(previous) {
                            Err(e) => Ok((seq![copy], Err(e))),
                            Ok(p) => Ok((seq![copy, delete_call(p)] + tail, Ok(answer))),
                        }
                    } else {
                        Ok((tail, Ok(answer)))
                    }
                }
            }
        },
    }
}

pub open spec fn plan_view(p: SavePlan) -> (Seq<CallView>, Result<Seq<char>, Seq<char>>) {
    (call_views(p.calls@), res_view(p.outcome))
}

fn strs(v: &[&str]) -> (r: Vec<String>)
    ensures
        r@.len() == v@.len(),
        forall|i: int| 0 <= i < v@.len() ==> r@[i]@ == v@[i]@,
{
    let mut r: Vec<String> = Vec::new();
    let mut i: usize = 0;
    while i < v.len()
        invariant
            i <= v@.len(),
            r@.len() == i,
            forall|j: int| 0 <= j < i ==> r@[j]@ == v@[j]@,
        decreases v.len() - i,
    {
        r.push(v[i].to_string());
        i = i + 1;
    }
    r
}

fn push_kv(args: &mut Vec<String>, params: &[RemoteParam])
    ensures
        views(final(args)@) == views(old(args)@) + kv_args(rp_views(params@)),
{
    let ghost base = views(args@);
    let ghost pv = rp_views(params@);
    let mut i: usize = 0;
    assert(pv.take(0) =~= Seq::<(Seq<char>, Seq<char>)>::empty());
    while i < params.len()
        invariant
            i <= params@.len(),
            pv == rp_views(params@),
            views(args@) == base + kv_args(pv.take(i as int)),
        decreases params.len() - i,
    {
        assert(pv.take(i + 1).drop_last() == pv.take(i as int));
        let ghost before = views(args@);
        args.push(params[i].key.clone());
        args.push(params[i].value.clone());
        assert(views(args@) =~= before.push(params@[i as int].key@).push(params@[i as int].value@));
        i = i + 1;
    }
    assert(pv.take(pv.len() as int) == pv);
}

fn delete_call_of(name: String) -> (c: RcloneCall)
    ensures
        call_view(c) == delete_call(name@),
{
    let mut args: Vec<String> = Vec::new();
    args.push("config".to_string());
    args.push("delete".to_string());
    args.push(name);
    let ghost n = args@[2]@;
    assert(views(args@) =~= seq!["config"@, "delete"@, n]);
    RcloneCall { args, confirm: true, timeout_secs: 20 }
}

/// The runs a change takes. `params` are the settings of
/// `remote_write_params` with their final values (obscured where asked).
/// A new remote, or one whose type changed, is created (after deleting the
/// old one); otherwise a renamed remote is copied to its new name and the
/// old one deleted, cleared settings are emptied one by one, and the
/// settings are written in one update. The answer is `name:`.
fn plan_remote(body: &RemoteWrite, params: &[RemoteParam]) -> (r: Result<SavePlan, String>)
    ensures
        match r {
            Ok(p) => save_spec(*body, rp_views(params@)) == Ok::<_, Seq<char>>(plan_view(p)),
            Err(e) => save_spec(*body, rp_views(params@)) == Err::<(Seq<CallView>, Result<Seq<char>, Seq<char>>), _>(e@),
        },
{
    let name = match check_name(body.name.as_str()) {
        Err(e) => return Err(e),
        Ok(n) => n,
    };
    let kind = trim_str(body.kind.as_str());
    if kind.as_str().is_empty() {
        return Err("Pick a remote type.".to_string());
    }
    let pt = trim_chars(chars_of(body.previous_name.as_str()).as_slice());
    let pn = trim_end_char_len(pt.as_slice(), pt.len(), ':');
    assert(pt@.take(pt@.len() as int) == pt@);
    let previous = string_of_range(pt.as_slice(), 0, pn);
    assert(pt@.subrange(0, pn as int) == pt@.take(pn as int));
    let mut answer = name.clone();
    string_push(&mut answer, ':');
    let pk = chars_of(body.previous_kind.as_str());
    let kc = chars_of(kind.as_str());
    let type_changed = !body.create && pk.len() > 0 && !eq_chars(pk.as_slice(), kc.as_slice());
    let mut calls: Vec<RcloneCall> = Vec::new();
    let nc = chars_of(name.as_str());
    let prc = chars_of(previous.as_str());
    if body.create || type_changed {
        if type_changed && prc.len() > 0 {
            match check_name(previous.as_str()) {
                Err(e) => {
                    assert(call_views(calls@) =~= Seq::<CallView>::empty());
                    return Ok(SavePlan { calls, outcome: Err(e) });
                },
                Ok(p) => {
                    let ghost pv = p@;
                    calls.push(delete_call_of(p));
                    assert(call_views(calls@) =~= seq![delete_call(pv)]);
                },
            }
        } else {
            assert(call_views(calls@) =~= Seq::<CallView>::empty());
        }
        let mut args = strs(&["config", "create"]);
        args.push(name.clone());
        args.push(kind.clone());
        proof {
            reveal_strlit("config");
            reveal_strlit("create");
        }
        assert(views(args@) =~= seq!["config"@, "create"@, name@, kind@]);
        push_kv(&mut args, params);
        let ghost c0 = call_views(calls@);
        let ghost create_v: CallView = (seq!["config"@, "create"@, name@, kind@] + kv_args(rp_views(params@)), false, 120u64);
        assert(views(args@) == create_v.0);
        calls.push(RcloneCall { args, confirm: false, timeout_secs: 120 });
        assert(call_views(calls@) =~= c0.push(create_v));
        proof {
            if c0.len() == 1 {
                assert(c0.push(create_v) =~= seq![c0[0], create_v]);
            } else {
                assert(c0.push(create_v) =~= seq![create_v]);
            }
        }
        return Ok(SavePlan { calls, outcome: Ok(answer) });
    }
    if prc.len() > 0 && !eq_chars(prc.as_slice(), nc.as_slice()) {
        let mut args = strs(&["config", "copy"]);
        args.push(previous.clone());
        args.push(name.clone());
        proof {
            reveal_strlit("config");
            reveal_strlit("copy");
        }
        assert(views(args@) =~= seq!["config"@, "copy"@, previous@, name@]);
        calls.push(RcloneCall { args, confirm: false, timeout_secs: 20 });
        let ghost copy_v: CallView = (seq!["config"@, "copy"@, previous@, name@], false, 20u64);
        assert(call_views(calls@) =~= seq![copy_v]);
        match check_name(previous.as_str()) {
            Err(e) => {
                return Ok(SavePlan { calls, outcome: Err(e) });
            },
            Ok(p) => {
                let ghost pv = p@;
                calls.push(delete_call_of(p));
                assert(call_views(calls@) =~= seq![copy_v, delete_call(pv)]);
            },
        }
    }
    let ghost head = call_views(calls@);
    let ghost ck = views(body.clear@);
    let mut i: usize = 0;
    let ghost mut keys: Seq<Seq<char>> = Seq::empty();
    while i < body.clear.len()
        invariant
            i <= ck.len(),
            ck == views(body.clear@),
            keys == clear_keys(ck.take(i as int)),
            call_views(calls@) == head + clear_calls(name@, keys),
        decreases body.clear.len() - i,
    {
        assert(ck.take(i + 1).drop_last() == ck.take(i as int));
        assert(ck.take(i + 1).last() == body.clear@[i as int]@);
        let k = trim_chars(chars_of(body.clear[i].as_str()).as_slice());
        if k.len() > 0 && !eq_str(k.as_slice(), "type") {
            let mut args = strs(&["config", "update"]);
            args.push(name.clone());
            args.push(string_of(k.as_slice()));
            args.push(String::new());
            proof {
                reveal_strlit("");
                reveal_strlit("config");
                reveal_strlit("update");
                assert(""@ =~= Seq::<char>::empty());
            }
            let ghost cv: CallView = (seq!["config"@, "update"@, name@, k@, ""@], true, 20u64);
            assert(views(args@) =~= cv.0);
            let ghost before = call_views(calls@);
            calls.push(RcloneCall { args, confirm: true, timeout_secs: 20 });
            assert(call_views(calls@) =~= before.push(cv));
            assert(clear_calls(name@, keys.push(k@)) =~= clear_calls(name@, keys).push(cv));
            proof {
                keys = keys.push(k@);
            }
            assert(call_views(calls@) =~= head + clear_calls(name@, keys));
        }
        i = i + 1;
    }
    assert(ck.take(ck.len() as int) == ck);
    let ghost mid = call_views(calls@);
    let ghost update_v: Seq<CallView> = if params@.len() > 0 {
        seq![(seq!["config"@, "update"@, name@] + kv_args(rp_views(params@)), true, 40u64)]
    } else {
        Seq::empty()
    };
    if params.len() > 0 {
        let mut args = strs(&["config", "update"]);
        args.push(name.clone());
        proof {
            reveal_strlit("config");
            reveal_strlit("update");
        }
        assert(views(args@) =~= seq!["config"@, "update"@, name@]);
        push_kv(&mut args, params);
        let ghost before = call_views(calls@);
        calls.push(RcloneCall { args, confirm: true, timeout_secs: 40 });
        assert(call_views(calls@) =~= before.push((seq!["config"@, "update"@, name@] + kv_args(rp_views(params@)), true, 40u64)));
    }
    assert(call_views(calls@) =~= mid + update_v);
    assert(call_views(calls@) =~= head + (clear_calls(name@, keys) + update_v));
    proof {
        if head.len() == 2 {
            assert(head =~= seq![head[0], head[1]]);
        } else {
            assert(head =~= Seq::<CallView>::empty());
        }
    }
    Ok(SavePlan { calls, outcome: Ok(answer) })
}

/// When a remote is edited in place, no setting left blank is written: the
/// value rclone already has stays.
pub proof fn law_blank_setting_kept(params: Seq<RemoteParamWrite>)
    ensures
        forall|i: int| 0 <= i < write_params(params, true).len() ==> trim(#[trigger] write_params(params, true)[i].1).len() > 0,
    decreases params.len(),
{
    if params.len() > 0 {
        law_blank_setting_kept(params.drop_last());
        let p = params.last();
        let prev = write_params(params.drop_last(), true);
        if !(trim(p.key@).len() == 0 || trim(p.key@) == "type"@ || trim(p.value@).len() == 0) {
            if p.obscure {
                lemma_trim_idem(p.value@);
            }
            assert forall|i: int| 0 <= i < write_params(params, true).len() implies trim(#[trigger] write_params(params, true)[i].1).len() > 0 by {
                if i < prev.len() {
                    assert(write_params(params, true)[i] == prev[i]);
                }
            }
        }
    }
}

/// The runs a change takes, given what `rclone obscure` answered for each
/// setting of `remote_write_params` marked `obscure` (`None` for the
/// others); see `save_spec`. The checks come first: a bad name or a missing
/// type is the error.
pub fn save_remote(body: &RemoteWrite, obscured: &[Option<String>]) -> (r: Result<SavePlan, String>)
    requires
        write_check(*body) matches Ok(ps) ==> obscured_fit(ps, obscured_views(obscured@)),
    ensures
        match write_check(*body) {
            Err(e) => r matches Err(x) && x@ == e,
            Ok(ps) => match r {
                Ok(p) => save_spec(*body, final_spec(ps, obscured_views(obscured@))) == Ok::<_, Seq<char>>(plan_view(p)),
                Err(e) => save_spec(*body, final_spec(ps, obscured_views(obscured@))) == Err::<(Seq<CallView>, Result<Seq<char>, Seq<char>>), _>(e@),
            },
        },
{
    let ps = remote_write_params(body)?;
    let values = final_values(ps.as_slice(), obscured);
    plan_remote(body, values.as_slice())
}

/// The run that deletes remote `name`, once the name is checked.
pub fn delete_remote(name: &str) -> (r: Result<RcloneCall, String>)
    ensures
        match r {
            Ok(c) => check_name_spec(name@) matches Ok(n) && call_view(c) == delete_call(n),
            Err(e) => check_name_spec(name@) == Err::<Seq<char>, _>(e@),
        },
{
    match check_name(name) {
        Err(e) => Err(e),
        Ok(n) => Ok(delete_call_of(n)),
    }
}

/// The run that signs remote `name` in again, and its answer `name:`.
pub fn reconnect_remote(name: &str) -> (r: Result<(RcloneCall, String), String>)
    ensures
        match r {
            Ok((c, answer)) => check_name_spec(name@) matches Ok(n) && call_view(c) == (
                seq!["config"@, "reconnect"@, n.push(':')],
                false,
                120u64,
            ) && answer@ == n.push(':'),
            Err(e) => check_name_spec(name@) == Err::<Seq<char>, _>(e@),
        },
{
    match check_name(name) {
        Err(e) => Err(e),
        Ok(n) => {
            let mut target = n.clone();
            string_push(&mut target, ':');
            let mut args = strs(&["config", "reconnect"]);
            args.push(target.clone());
            Ok((RcloneCall { args, confirm: false, timeout_secs: 120 }, target))
        },
    }
}

/// The arguments of a confirmed run: `--auto-confirm` first.
pub fn confirm_args(args: &[String]) -> (r: Vec<String>)
    ensures
        views(r@) == seq!["--auto-confirm"@] + views(args@),
{
    let mut r: Vec<String> = Vec::new();
    r.push("--auto-confirm".to_string());
    let mut i: usize = 0;
    while i < args.len()
        invariant
            i <= args@.len(),
            views(r@) == seq!["--auto-confirm"@] + views(args@).take(i as int),
        decreases args.len() - i,
    {
        let ghost before = views(r@);
        r.push(args[i].clone());
        assert(views(r@) =~= before.push(args@[i as int]@));
        assert(views(r@) =~= seq!["--auto-confirm"@] + views(args@).take(i + 1));
        i = i + 1;
    }
    assert(views(args@).take(args@.len() as int) == views(args@));
    r
}

/// What a finished rclone config command gives: its stdout when it
/// succeeded, else what it reported (see `failure_text`).
pub open spec fn run_outcome_spec(success: bool, stdout: Seq<char>, stderr: Seq<char>) -> Result<Seq<char>, Seq<char>> {
    if success {
        Ok(stdout)
    } else {
        Err(failure_text(stdout, stderr, "rclone config command failed."@))
    }
}

/// The result of a finished rclone config command.
pub fn run_outcome(success: bool, stdout: String, stderr: &str) -> (r: Result<String, String>)
    ensures
        match r {
            Ok(o) => run_outcome_spec(success, stdout@, stderr@) == Ok::<Seq<char>, Seq<char>>(o@),
            Err(e) => run_outcome_spec(success, stdout@, stderr@) == Err::<Seq<char>, Seq<char>>(e@),
        },
{
    if success {
        Ok(stdout)
    } else {
        Err(failure_detail(stdout.as_str(), stderr, "rclone config command failed."))
    }
}

/// What a config command that ran too long reports.
pub fn run_timed_out() -> (r: String)
    ensures
        r@ == "rclone took too long. If a browser window opened, finish signing in and try again."@,
{
    "rclone took too long. If a browser window opened, finish signing in and try again.".to_string()
}

/// A confirmed run is tried again without `--auto-confirm` when rclone
/// answers that it does not know the flag.
pub fn retry_without_confirm(err: &str) -> (r: bool)
    ensures
        r == has_infix(lower_seq(err@), "unknown flag"@),
{
    let l = lower_all(chars_of(err).as_slice());
    contains_str(l.as_slice(), "unknown flag")
}

/// The JSON part of rclone's output: from the first `{` or `[` (the whole
/// text when there is none), trimmed.
pub open spec fn json_body_spec(raw: Seq<char>) -> Seq<char> {
    let start = match crate::text::first_index(raw.map_values(|c: char| if c == '[' { '{' } else { c }), '{') {
        Some(i) => i,
        None => 0,
    };
    trim(raw.skip(start))
}

/// The JSON part of rclone's output.
pub fn json_body(raw: &str) -> (r: String)
    ensures
        r@ == json_body_spec(raw@),
{
    let c = chars_of(raw);
    let ghost m = c@.map_values(|x: char| if x == '[' { '{' } else { x });
    let mut i: usize = 0;
    while i < c.len() && c[i] != '{' && c[i] != '['
        invariant
            i <= c@.len(),
            m == c@.map_values(|x: char| if x == '[' { '{' } else { x }),
            forall|j: int| 0 <= j < i ==> m[j] != '{',
        decreases c.len() - i,
    {
        i = i + 1;
    }
    let start = if i < c.len() {
        proof {
            assert(m[i as int] == '{');
            crate::text::lemma_first_index(m, '{', i as int);
        }
        i
    } else {
        proof {
            crate::text::lemma_first_index_none(m, '{');
        }
        0
    };
    let rest = string_of_range(c.as_slice(), start, c.len());
    assert(c@.subrange(start as int, c@.len() as int) == c@.skip(start as int));
    trim_str(rest.as_str())
}

/// Text cut to `max` characters after trimming, with `…` when cut.
pub open spec fn clip_spec(text: Seq<char>, max: nat) -> Seq<char> {
    let t = trim(text);
    if t.len() <= max {
        t
    } else {
        t.take(max as int).push('…')
    }
}

/// Text trimmed and cut to `max` characters, with `…` when cut.
pub fn clip(text: &str, max: usize) -> (r: String)
    ensures
        r@ == clip_spec(text@, max as nat),
{
    let t = trim_chars(chars_of(text).as_slice());
    if t.len() <= max {
        return string_of(t.as_slice());
    }
    let mut r = string_of_range(t.as_slice(), 0, max);
    assert(t@.subrange(0, max as int) == t@.take(max as int));
    string_push(&mut r, '…');
    r
}

// ---------------------------------------------------------------------------
// Backends, as `rclone config providers` lists them

/// One example value of a backend option.
#[derive(Debug, Clone)]
pub struct ProviderExample {
    pub value: String,
    pub help: String,
}

/// One option of a backend.
#[derive(Debug, Clone)]
pub struct ProviderOption {
    pub name: String,
    pub help: String,
    pub default_value: String,
    pub required: bool,
    pub password: bool,
    pub sensitive: bool,
    pub advanced: bool,
    pub option_type: String,
    pub examples: Vec<ProviderExample>,
}

/// A backend rclone can use.
#[derive(Debug, Clone)]
pub struct ProviderInfo {
    pub name: String,
    pub description: String,
    pub options: Vec<ProviderOption>,
}

/// The text of member `a` (else `b`), empty when neither is present.
pub open spec fn text_at_spec(m: Members, a: Seq<char>, b: Seq<char>) -> Seq<char> {
    match member2(m, a, b) {
        Some(v) => json_text(v),
        None => Seq::empty(),
    }
}

/// Member `a` (else `b`) as a flag: a boolean, a non-zero number, or the
/// text `true`, `1` or `yes`.
pub open spec fn bool_at_spec(m: Members, a: Seq<char>, b: Seq<char>) -> bool {
    match member2(m, a, b) {
        Some(JsonValue::Bool(x)) => x,
        Some(JsonValue::Number(_, n)) => match n {
            Some(x) => x != 0,
            None => false,
        },
        Some(JsonValue::Str(t)) => t@ == "true"@ || t@ == "1"@ || t@ == "yes"@,
        _ => false,
    }
}

/// The text of member `a`, else of member `b`, else empty.
pub fn text_at(m: &Vec<(String, JsonValue)>, a: &str, b: &str) -> (r: String)
    ensures
        r@ == text_at_spec(m@, a@, b@),
{
    match get_member2(m, a, b) {
        Some(v) => json_string(v),
        None => String::new(),
    }
}

/// Member `a` (else `b`) as a flag.
pub fn bool_at(m: &Vec<(String, JsonValue)>, a: &str, b: &str) -> (r: bool)
    ensures
        r == bool_at_spec(m@, a@, b@),
{
    match get_member2(m, a, b) {
        Some(JsonValue::Bool(x)) => *x,
        Some(JsonValue::Number(_, n)) => match n {
            Some(x) => *x != 0,
            None => false,
        },
        Some(JsonValue::Str(t)) => {
            let c = chars_of(t.as_str());
            eq_str(c.as_slice(), "true") || eq_str(c.as_slice(), "1") || eq_str(c.as_slice(), "yes")
        },
        _ => false,
    }
}

pub open spec fn example_views(s: Seq<ProviderExample>) -> Seq<(Seq<char>, Seq<char>)> {
    Seq::new(s.len(), |i: int| (s[i].value@, s[i].help@))
}

/// The examples among `items`: objects with a value, help cut to 180 characters.
pub open spec fn example_list(items: Seq<JsonValue>) -> Seq<(Seq<char>, Seq<char>)>
    decreases items.len(),
{
    if items.len() == 0 {
        Seq::empty()
    } else {
        let prev = example_list(items.drop_last());
        match items.last() {
            JsonValue::Object(rm, _) => if text_at_spec(rm@, "Value"@, "value"@).len() > 0 {
                prev.push((text_at_spec(rm@, "Value"@, "value"@), clip_spec(text_at_spec(rm@, "Help"@, "help"@), 180)))
            } else {
                prev
            },
            _ => prev,
        }
    }
}

/// At most the first 24.
pub open spec fn first24<T>(s: Seq<T>) -> Seq<T> {
    if s.len() > 24 {
        s.take(24)
    } else {
        s
    }
}

/// The examples of an option.
pub open spec fn option_examples(m: Members) -> Seq<(Seq<char>, Seq<char>)> {
    match member2(m, "Examples"@, "examples"@) {
        Some(JsonValue::Array(items, _)) => first24(example_list(items@)),
        _ => Seq::empty(),
    }
}

/// The `Hide` level of an option, 0 when absent or not a number.
pub open spec fn hide_level(m: Members) -> u64 {
    match member2(m, "Hide"@, "hide"@) {
        Some(v) => match json_u64(v) {
            Some(h) => h,
            None => 0,
        },
        None => 0,
    }
}

/// The default of an option as text: `DefaultStr`, else `Default` shown as text.
pub open spec fn option_default(m: Members) -> Seq<char> {
    let explicit = text_at_spec(m, "DefaultStr"@, "defaultStr"@);
    if explicit.len() == 0 {
        match member2(m, "Default"@, "default"@) {
            Some(d) => json_text(d),
            None => Seq::empty(),
        }
    } else {
        explicit
    }
}

/// A listed option is kept when it is an object with a name.
pub open spec fn option_accepted(v: JsonValue) -> bool {
    v matches JsonValue::Object(m, _) && text_at_spec(m@, "Name"@, "name"@).len() > 0
}

/// `o` is the option described by `v`.
pub open spec fn option_matches(o: ProviderOption, v: JsonValue) -> bool {
    match v {
        JsonValue::Object(mv, _) => {
            let m = mv@;
            &&& o.name@ == text_at_spec(m, "Name"@, "name"@)
            &&& o.help@ == clip_spec(text_at_spec(m, "Help"@, "help"@), 700)
            &&& o.default_value@ == option_default(m)
            &&& o.required == bool_at_spec(m, "Required"@, "required"@)
            &&& o.password == bool_at_spec(m, "IsPassword"@, "isPassword"@)
            &&& o.sensitive == (bool_at_spec(m, "Sensitive"@, "sensitive"@) || bool_at_spec(m, "IsPassword"@, "isPassword"@))
            &&& o.advanced == (bool_at_spec(m, "Advanced"@, "advanced"@) || hide_level(m) != 0)
            &&& o.option_type@ == text_at_spec(m, "Type"@, "type"@)
            &&& example_views(o.examples@) == option_examples(m)
        },
        _ => false,
    }
}

/// `out` holds the options described by the accepted `items`, in order.
pub open spec fn options_match(out: Seq<ProviderOption>, items: Seq<JsonValue>) -> bool
    decreases items.len(),
{
    if items.len() == 0 {
        out.len() == 0
    } else if option_accepted(items.last()) {
        out.len() > 0 && options_match(out.drop_last(), items.drop_last()) && option_matches(out.last(), items.last())
    } else {
        options_match(out, items.drop_last())
    }
}

fn examples_of(m: &Vec<(String, JsonValue)>) -> (r: Vec<ProviderExample>)
    ensures
        example_views(r@) == option_examples(m@),
{
    let mut out: Vec<ProviderExample> = Vec::new();
    match get_member2(m, "Examples", "examples") {
        Some(JsonValue::Array(items, _)) => {
            let mut i: usize = 0;
            while i < items.len()
                invariant
                    i <= items@.len(),
                    example_views(out@) == first24(example_list(items@.take(i as int))),
                decreases items.len() - i,
            {
                let ghost prev = example_list(items@.take(i as int));
                assert(items@.take(i + 1).drop_last() == items@.take(i as int));
                assert(items@.take(i + 1).last() == items@[i as int]);
                match &items[i] {
                    JsonValue::Object(rm, _) => {
                        let value = text_at(rm, "Value", "value");
                        if value.as_str().is_empty() {
                        } else {
                            if out.len() < 24 {
                                let help = clip(text_at(rm, "Help", "help").as_str(), 180);
                                let ghost before = example_views(out@);
                                out.push(ProviderExample { value, help });
                                assert(example_views(out@) =~= before.push(example_views(out@).last()));
                                assert(prev.len() == before.len());
                            } else {
                                assert(first24(prev.push(example_views(out@).last())) =~= first24(prev)) by {
                                    assert(prev.len() >= 24);
                                }
                            }
                            proof {
                                let x = (text_at_spec(rm@, "Value"@, "value"@), clip_spec(text_at_spec(rm@, "Help"@, "help"@), 180));
                                if prev.len() >= 24 {
                                    assert(prev.push(x).take(24) =~= prev.take(24));
                                } else {
                                    assert(first24(prev.push(x)) =~= prev.push(x));
                                }
                            }
                        }
                    },
                    _ => {},
                }
                i = i + 1;
            }
            assert(items@.take(items@.len() as int) == items@);
        },
        _ => {},
    }
    out
}

/// The option that a listed item describes, when it is an object with a name.
pub fn parse_option(value: &JsonValue) -> (r: Option<ProviderOption>)
    ensures
        r is Some <==> option_accepted(*value),
        r matches Some(o) ==> option_matches(o, *value),
{
    let m = match value {
        JsonValue::Object(m, _) => m,
        _ => return None,
    };
    let name = text_at(m, "Name", "name");
    if name.as_str().is_empty() {
        return None;
    }
    let examples = examples_of(m);
    let hide: u64 = match get_member2(m, "Hide", "hide") {
        Some(JsonValue::Number(_, Some(h))) => *h,
        _ => 0,
    };
    let explicit = text_at(m, "DefaultStr", "defaultStr");
    let default_value = if explicit.as_str().is_empty() {
        match get_member2(m, "Default", "default") {
            Some(d) => json_string(d),
            None => String::new(),
        }
    } else {
        explicit
    };
    let password = bool_at(m, "IsPassword", "isPassword");
    Some(ProviderOption {
        name,
        help: clip(text_at(m, "Help", "help").as_str(), 700),
        default_value,
        required: bool_at(m, "Required", "required"),
        password,
        sensitive: bool_at(m, "Sensitive", "sensitive") || password,
        advanced: bool_at(m, "Advanced", "advanced") || hide != 0,
        option_type: text_at(m, "Type", "type"),
        examples,
    })
}

/// The items listed under member `a` (else `b`), when it is an array.
pub open spec fn array_at(m: Members, a: Seq<char>, b: Seq<char>) -> Seq<JsonValue> {
    match member2(m, a, b) {
        Some(JsonValue::Array(items, _)) => items@,
        _ => Seq::empty(),
    }
}

/// A listed backend is kept when it is an object with a name.
pub open spec fn provider_accepted(v: JsonValue) -> bool {
    v matches JsonValue::Object(m, _) && text_at_spec(m@, "Name"@, "name"@).len() > 0
}

/// `p` is the backend described by `v`.
pub open spec fn provider_matches(p: ProviderInfo, v: JsonValue) -> bool {
    match v {
        JsonValue::Object(mv, _) => {
            &&& p.name@ == text_at_spec(mv@, "Name"@, "name"@)
            &&& p.description@ == clip_spec(text_at_spec(mv@, "Description"@, "description"@), 400)
            &&& options_match(p.options@, array_at(mv@, "Options"@, "options"@))
        },
        _ => false,
    }
}

/// `out` holds the backends described by the accepted `items`, in order.
pub open spec fn providers_match(out: Seq<ProviderInfo>, items: Seq<JsonValue>) -> bool
    decreases items.len(),
{
    if items.len() == 0 {
        out.len() == 0
    } else if provider_accepted(items.last()) {
        out.len() > 0 && providers_match(out.drop_last(), items.drop_last()) && provider_matches(out.last(), items.last())
    } else {
        providers_match(out, items.drop_last())
    }
}

/// The backend that a listed item describes, when it is an object with a name.
pub fn parse_provider(value: &JsonValue) -> (r: Option<ProviderInfo>)
    ensures
        r is Some <==> provider_accepted(*value),
        r matches Some(p) ==> provider_matches(p, *value),
{
    let m = match value {
        JsonValue::Object(m, _) => m,
        _ => return None,
    };
    let name = text_at(m, "Name", "name");
    if name.as_str().is_empty() {
        return None;
    }
    let mut options: Vec<ProviderOption> = Vec::new();
    match get_member2(m, "Options", "options") {
        Some(JsonValue::Array(items, _)) => {
            let mut i: usize = 0;
            assert(items@.take(0) =~= Seq::<JsonValue>::empty());
            while i < items.len()
                invariant
                    i <= items@.len(),
                    options_match(options@, items@.take(i as int)),
                decreases items.len() - i,
            {
                assert(items@.take(i + 1).drop_last() == items@.take(i as int));
                assert(items@.take(i + 1).last() == items@[i as int]);
                match parse_option(&items[i]) {
                    Some(o) => {
                        let ghost before = options@;
                        options.push(o);
                        assert(options@.drop_last() == before);
                    },
                    None => {},
                }
                i = i + 1;
            }
            assert(items@.take(items@.len() as int) == items@);
        },
        _ => {},
    }
    let description = clip(text_at(m, "Description", "description").as_str(), 400);
    Some(ProviderInfo { name, description, options })
}

/// The backends in rclone's list (`None` when its answer was not JSON).
pub fn providers(doc: Option<JsonValue>) -> (r: Result<Vec<ProviderInfo>, String>)
    ensures
        doc is None ==> (r matches Err(e) && e@ == "This rclone is too old to list backends. LiClone needs rclone 1.65 or newer."@),
        doc matches Some(JsonValue::Array(items, _)) ==> (r matches Ok(ps) && providers_match(ps@, items@)),
        (doc is Some && !(doc matches Some(JsonValue::Array(_, _)))) ==> (r matches Err(e) && e@ == "rclone config providers did not return a list."@),
{
    let items = match doc {
        None => return Err("This rclone is too old to list backends. LiClone needs rclone 1.65 or newer.".to_string()),
        Some(JsonValue::Array(items, _)) => items,
        Some(_) => return Err("rclone config providers did not return a list.".to_string()),
    };
    let mut out: Vec<ProviderInfo> = Vec::new();
    let mut i: usize = 0;
    assert(items@.take(0) =~= Seq::<JsonValue>::empty());
    while i < items.len()
        invariant
            i <= items@.len(),
            providers_match(out@, items@.take(i as int)),
        decreases items.len() - i,
    {
        assert(items@.take(i + 1).drop_last() == items@.take(i as int));
        assert(items@.take(i + 1).last() == items@[i as int]);
        match parse_provider(&items[i]) {
            Some(p) => {
                let ghost before = out@;
                out.push(p);
                assert(out@.drop_last() == before);
            },
            None => {},
        }
        i = i + 1;
    }
    assert(items@.take(items@.len() as int) == items@);
    Ok(out)
}

// ---------------------------------------------------------------------------
// Remotes, as `rclone config dump` shows them

/// A configured remote: its name, backend type, and its other settings as text.
#[derive(Debug, Clone)]
pub struct RemoteConfig {
    pub name: String,
    pub kind: String,
    pub values: Vec<(String, String)>,
}

pub type RemoteView = (Seq<char>, Seq<char>, Seq<(Seq<char>, Seq<char>)>);

pub open spec fn remote_view(r: RemoteConfig) -> RemoteView {
    (r.name@, r.kind@, Seq::new(r.values@.len(), |i: int| (r.values@[i].0@, r.values@[i].1@)))
}

pub open spec fn remote_views(s: Seq<RemoteConfig>) -> Seq<RemoteView> {
    Seq::new(s.len(), |i: int| remote_view(s[i]))
}

/// The settings of a remote other than `type`, shown as text.
pub open spec fn remote_values(m: Members) -> Seq<(Seq<char>, Seq<char>)>
    decreases m.len(),
{
    if m.len() == 0 {
        Seq::empty()
    } else if m.last().0@ == "type"@ {
        remote_values(m.drop_last())
    } else {
        remote_values(m.drop_last()).push((m.last().0@, json_text(m.last().1)))
    }
}

/// The type of a remote: its `type` setting when that is text.
pub open spec fn remote_kind(m: Members) -> Seq<char> {
    match member(m, "type"@) {
        Some(JsonValue::Str(t)) => t@,
        _ => Seq::empty(),
    }
}

/// The remotes of a dump, in the dump's order; entries that are not
/// objects are left out.
pub open spec fn remote_entries(m: Members) -> Seq<RemoteView>
    decreases m.len(),
{
    if m.len() == 0 {
        Seq::empty()
    } else {
        let prev = remote_entries(m.drop_last());
        match m.last().1 {
            JsonValue::Object(body, _) => prev.push((m.last().0@, remote_kind(body@), remote_values(body@))),
            _ => prev,
        }
    }
}

/// The sort key of a remote: its name in lower case.
pub open spec fn remote_key(r: RemoteView) -> Seq<char> {
    unicode_lower(r.0)
}

/// `x` put into sorted `s` after every remote whose key is not greater.
pub open spec fn insert_by_key(s: Seq<RemoteView>, x: RemoteView) -> Seq<RemoteView>
    decreases s.len(),
{
    if s.len() == 0 {
        seq![x]
    } else if str_lt(remote_key(x), remote_key(s.last())) {
        insert_by_key(s.drop_last(), x).push(s.last())
    } else {
        s.push(x)
    }
}

/// Remotes sorted by key; remotes with equal keys keep their order.
pub open spec fn sort_by_key(s: Seq<RemoteView>) -> Seq<RemoteView>
    decreases s.len(),
{
    if s.len() == 0 {
        s
    } else {
        insert_by_key(sort_by_key(s.drop_last()), s.last())
    }
}

proof fn lemma_insert_by_key_at(s: Seq<RemoteView>, x: RemoteView, j: int)
    requires
        0 <= j <= s.len(),
        forall|k: int| j <= k < s.len() ==> str_lt(remote_key(x), #[trigger] remote_key(s[k])),
        j > 0 ==> !str_lt(remote_key(x), remote_key(s[j - 1])),
    ensures
        insert_by_key(s, x) == s.insert(j, x),
    decreases s.len() - j,
{
    if s.len() == 0 {
        assert(s.insert(j, x) =~= seq![x]);
    } else if j == s.len() {
        assert(s.insert(j, x) =~= s.push(x));
    } else {
        assert(str_lt(remote_key(x), remote_key(s.last())));
        let t = s.drop_last();
        assert forall|k: int| j <= k < t.len() implies str_lt(remote_key(x), #[trigger] remote_key(t[k])) by {
            assert(t[k] == s[k]);
        }
        lemma_insert_by_key_at(t, x, j);
        assert(t.insert(j, x).push(s.last()) =~= s.insert(j, x));
    }
}

/// The remotes of rclone's config dump, sorted by lower-case name (`None`
/// when its answer was not JSON).
pub fn dump_remotes(doc: Option<JsonValue>) -> (r: Result<Vec<RemoteConfig>, String>)
    ensures
        doc is None ==> (r matches Err(e) && e@ == "Could not read rclone\u{2019}s config. LiClone needs rclone 1.65 or newer."@),
        doc matches Some(JsonValue::Object(m, _)) ==> (r matches Ok(rs) && remote_views(rs@) == sort_by_key(remote_entries(m@))),
        (doc is Some && !(doc matches Some(JsonValue::Object(_, _)))) ==> (r matches Err(e) && e@ == "rclone config dump did not return an object."@),
{
    let m = match doc {
        None => return Err("Could not read rclone\u{2019}s config. LiClone needs rclone 1.65 or newer.".to_string()),
        Some(JsonValue::Object(m, _)) => m,
        Some(_) => return Err("rclone config dump did not return an object.".to_string()),
    };
    let mut out: Vec<RemoteConfig> = Vec::new();
    let mut keys: Vec<Vec<char>> = Vec::new();
    let mut i: usize = 0;
    assert(remote_views(out@) =~= Seq::<RemoteView>::empty());
    while i < m.len()
        invariant
            i <= m@.len(),
            keys@.len() == out@.len(),
            forall|k: int| 0 <= k < keys@.len() ==> keys@[k]@ == #[trigger] remote_key(remote_views(out@)[k]),
            remote_views(out@) == sort_by_key(remote_entries(m@.take(i as int))),
        decreases m.len() - i,
    {
        assert(m@.take(i + 1).drop_last() == m@.take(i as int));
        assert(m@.take(i + 1).last() == m@[i as int]);
        match &m[i].1 {
            JsonValue::Object(body, _) => {
                let kind = match get_member(body, "type") {
                    Some(JsonValue::Str(t)) => t.clone(),
                    _ => String::new(),
                };
                let mut values: Vec<(String, String)> = Vec::new();
                let mut k: usize = 0;
                while k < body.len()
                    invariant
                        k <= body@.len(),
                        Seq::new(values@.len(), |x: int| (values@[x].0@, values@[x].1@)) == remote_values(body@.take(k as int)),
                    decreases body.len() - k,
                {
                    assert(body@.take(k + 1).drop_last() == body@.take(k as int));
                    assert(body@.take(k + 1).last() == body@[k as int]);
                    if !eq_str(chars_of(body[k].0.as_str()).as_slice(), "type") {
                        let ghost before = Seq::new(values@.len(), |x: int| (values@[x].0@, values@[x].1@));
                        let v = json_string(&body[k].1);
                        values.push((body[k].0.clone(), v));
                        assert(Seq::new(values@.len(), |x: int| (values@[x].0@, values@[x].1@)) =~= before.push(
                            (body@[k as int].0@, json_text(body@[k as int].1)),
                        ));
                    }
                    k = k + 1;
                }
                assert(body@.take(body@.len() as int) == body@);
                let entry = RemoteConfig { name: m[i].0.clone(), kind, values };
                let key = chars_of(to_lowercase(entry.name.as_str()).as_str());
                let ghost s = remote_views(out@);
                let ghost x = remote_view(entry);
                let mut j: usize = out.len();
                while j > 0 && less(key.as_slice(), keys[j - 1].as_slice())
                    invariant
                        j <= out@.len(),
                        keys@.len() == out@.len(),
                        s == remote_views(out@),
                        key@ == remote_key(x),
                        forall|k: int| 0 <= k < keys@.len() ==> keys@[k]@ == #[trigger] remote_key(remote_views(out@)[k]),
                        forall|k: int| j <= k < s.len() ==> str_lt(remote_key(x), #[trigger] remote_key(s[k])),
                    decreases j,
                {
                    assert(keys@[j - 1]@ == remote_key(s[j - 1]));
                    j = j - 1;
                }
                proof {
                    if j > 0 {
                        assert(keys@[j - 1]@ == remote_key(s[j - 1]));
                    }
                    lemma_insert_by_key_at(s, x, j as int);
                }
                out.insert(j, entry);
                keys.insert(j, key);
                assert(remote_views(out@) =~= s.insert(j as int, x));
                assert forall|k: int| 0 <= k < keys@.len() implies keys@[k]@ == #[trigger] remote_key(remote_views(out@)[k]) by {
                    if k < j {
                    } else if k == j {
                    }
                }
                proof {
                    let prev = remote_entries(m@.take(i as int));
                    assert(x == (m@[i as int].0@, remote_kind(body@), remote_values(body@)));
                    assert(remote_entries(m@.take(i + 1)) == prev.push(x));
                    assert(prev.push(x).drop_last() =~= prev);
                    assert(sort_by_key(prev.push(x)) == insert_by_key(sort_by_key(prev), x));
                }
            },
            _ => {
                assert(remote_entries(m@.take(i + 1)) == remote_entries(m@.take(i as int)));
            },
        }
        i = i + 1;
    }
    assert(m@.take(m@.len() as int) == m@);
    Ok(out)
}

/// The backends in what `rclone config providers` printed: its JSON part
/// (see `json_body`) parsed, then read as `providers` reads it.
pub fn providers_from(raw: &str) -> (r: Result<Vec<ProviderInfo>, String>)
    ensures
        json_of(json_body_spec(raw@)) is None ==> (r matches Err(e)
            && e@ == "This rclone is too old to list backends. LiClone needs rclone 1.65 or newer."@),
        json_of(json_body_spec(raw@)) matches Some(JsonValue::Array(items, _)) ==> (r matches Ok(ps)
            && providers_match(ps@, items@)),
        (json_of(json_body_spec(raw@)) is Some && !(json_of(json_body_spec(raw@)) matches Some(
            JsonValue::Array(_, _),
        ))) ==> (r matches Err(e) && e@ == "rclone config providers did not return a list."@),
{
    let body = json_body(raw);
    providers(parse_json(body.as_str()))
}

/// The remotes in what `rclone config dump` printed: its JSON part (see
/// `json_body`) parsed, then read as `dump_remotes` reads it.
pub fn dump_remotes_from(raw: &str) -> (r: Result<Vec<RemoteConfig>, String>)
    ensures
        json_of(json_body_spec(raw@)) is None ==> (r matches Err(e)
            && e@ == "Could not read rclone\u{2019}s config. LiClone needs rclone 1.65 or newer."@),
        json_of(json_body_spec(raw@)) matches Some(JsonValue::Object(m, _)) ==> (r matches Ok(rs)
            && remote_views(rs@) == sort_by_key(remote_entries(m@))),
        (json_of(json_body_spec(raw@)) is Some && !(json_of(json_body_spec(raw@)) matches Some(
            JsonValue::Object(_, _),
        ))) ==> (r matches Err(e) && e@ == "rclone config dump did not return an object."@),
{
    let body = json_body(raw);
    dump_remotes(parse_json(body.as_str()))
}

} // verus!
