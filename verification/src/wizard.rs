//! Creating a remote from the first-run wizard.

use vstd::prelude::*;

use crate::text::{
    chars_of, is_ascii_alnum, push_str, string_of, trim, trim_chars, views,
};

verus! {

broadcast use vstd::string::group_string_axioms;

/// One setting of a remote, as rclone names it.
#[derive(Debug, Clone)]
pub struct RemoteParam {
    pub key: String,
    pub value: String,
}

/// A remote to create: its name, backend type, settings, and which setting
/// keys hold secrets that rclone must obscure.
#[derive(Debug, Clone)]
pub struct RemoteDraft {
    pub name: String,
    pub kind: String,
    pub params: Vec<RemoteParam>,
    pub obscure: Vec<String>,
}

/// A setting as it goes to rclone: its key, the value to write, and
/// whether `rclone obscure` must turn the value into the one written.
#[derive(Debug, Clone)]
pub struct ParamToWrite {
    pub key: String,
    pub value: String,
    pub obscure: bool,
}

pub open spec fn param_view(p: ParamToWrite) -> (Seq<char>, Seq<char>, bool) {
    (p.key@, p.value@, p.obscure)
}

pub open spec fn param_views(s: Seq<ParamToWrite>) -> Seq<(Seq<char>, Seq<char>, bool)> {
    Seq::new(s.len(), |i: int| param_view(s[i]))
}

/// Settings seen as (key, value).
pub open spec fn rp_views(s: Seq<RemoteParam>) -> Seq<(Seq<char>, Seq<char>)> {
    Seq::new(s.len(), |i: int| (s[i].key@, s[i].value@))
}

pub open spec fn obscured_views(s: Seq<Option<String>>) -> Seq<Option<Seq<char>>> {
    Seq::new(s.len(), |i: int| match s[i] {
        Some(v) => Some(v@),
        None => None,
    })
}

/// Whether `obscured` answers each setting that must be obscured.
pub open spec fn obscured_fit(ps: Seq<(Seq<char>, Seq<char>, bool)>, obscured: Seq<Option<Seq<char>>>) -> bool {
    &&& obscured.len() == ps.len()
    &&& forall|i: int| 0 <= i < ps.len() && #[trigger] ps[i].2 ==> obscured[i] is Some
}

/// The settings as written: the same keys, and for a setting marked
/// `obscure` what `rclone obscure` made of its value.
pub open spec fn final_spec(ps: Seq<(Seq<char>, Seq<char>, bool)>, obscured: Seq<Option<Seq<char>>>) -> Seq<(Seq<char>, Seq<char>)> {
    Seq::new(ps.len(), |i: int| (ps[i].0, if ps[i].2 { obscured[i].unwrap() } else { ps[i].1 }))
}

/// The settings to write, given what `rclone obscure` answered for each
/// setting marked `obscure` (`None` for the others).
pub fn final_values(ps: &[ParamToWrite], obscured: &[Option<String>]) -> (r: Vec<RemoteParam>)
    requires
        obscured_fit(param_views(ps@), obscured_views(obscured@)),
    ensures
        rp_views(r@) == final_spec(param_views(ps@), obscured_views(obscured@)),
{
    let ghost want = final_spec(param_views(ps@), obscured_views(obscured@));
    let mut out: Vec<RemoteParam> = Vec::new();
    let mut i: usize = 0;
    while i < ps.len()
        invariant
            i <= ps@.len(),
            obscured_fit(param_views(ps@), obscured_views(obscured@)),
            want == final_spec(param_views(ps@), obscured_views(obscured@)),
            rp_views(out@) == want.take(i as int),
        decreases ps.len() - i,
    {
        assert(param_views(ps@)[i as int].2 == ps@[i as int].obscure);
        let value = if ps[i].obscure {
            match &obscured[i] {
                Some(v) => v.clone(),
                None => ps[i].value.clone(),
            }
        } else {
            ps[i].value.clone()
        };
        let ghost before = rp_views(out@);
        out.push(RemoteParam { key: ps[i].key.clone(), value });
        assert(rp_views(out@) =~= before.push(want[i as int]));
        assert(want.take(i + 1) =~= want.take(i as int).push(want[i as int]));
        i = i + 1;
    }
    assert(want.take(want.len() as int) =~= want);
    out
}

/// Letters, digits, dashes and underscores only, at least one.
pub open spec fn valid_remote_name(n: Seq<char>) -> bool {
    n.len() > 0 && forall|i: int| 0 <= i < n.len() ==> (is_ascii_alnum(#[trigger] n[i]) || n[i] == '-' || n[i] == '_')
}

/// Whether `n` is a valid remote name.
pub fn name_is_valid(n: &[char]) -> (r: bool)
    ensures
        r == valid_remote_name(n@),
{
    if n.len() == 0 {
        return false;
    }
    let mut i: usize = 0;
    while i < n.len()
        invariant
            i <= n@.len(),
            forall|j: int| 0 <= j < i ==> (is_ascii_alnum(#[trigger] n@[j]) || n@[j] == '-' || n@[j] == '_'),
        decreases n.len() - i,
    {
        let c = n[i];
        if !(('0' <= c && c <= '9') || ('a' <= c && c <= 'z') || ('A' <= c && c <= 'Z') || c == '-' || c == '_') {
            return false;
        }
        i = i + 1;
    }
    true
}

/// The settings of a draft that are written: key and value trimmed, both
/// present; a key listed in `obscure` is obscured.
pub open spec fn draft_params(params: Seq<RemoteParam>, obscure: Seq<Seq<char>>) -> Seq<(Seq<char>, Seq<char>, bool)>
    decreases params.len(),
{
    if params.len() == 0 {
        Seq::empty()
    } else {
        let p = params.last();
        let k = trim(p.key@);
        let v = trim(p.value@);
        let prev = draft_params(params.drop_last(), obscure);
        if k.len() == 0 || v.len() == 0 {
            prev
        } else {
            prev.push((k, v, obscure.contains(k)))
        }
    }
}

/// Which errors a draft meets before rclone runs, else the settings to
/// write.
pub open spec fn draft_check(d: RemoteDraft) -> Result<Seq<(Seq<char>, Seq<char>, bool)>, Seq<char>> {
    if !valid_remote_name(trim(d.name@)) {
        Err("Use a remote name with letters, numbers, dashes, or underscores."@)
    } else if trim(d.kind@).len() == 0 {
        Err("Pick a remote type."@)
    } else {
        Ok(draft_params(d.params@, views(d.obscure@)))
    }
}

/// `key=value` for each written setting.
pub open spec fn assignments(values: Seq<(Seq<char>, Seq<char>)>) -> Seq<Seq<char>> {
    Seq::new(values.len(), |i: int| values[i].0 + seq!['='] + values[i].1)
}

/// Checks a draft and lists the settings to write, in order.
pub fn create_remote_params(draft: &RemoteDraft) -> (r: Result<Vec<ParamToWrite>, String>)
    ensures
        match r {
            Ok(ps) => draft_check(*draft) == Ok::<_, Seq<char>>(param_views(ps@)),
            Err(e) => draft_check(*draft) == Err::<Seq<(Seq<char>, Seq<char>, bool)>, _>(e@),
        },
{
    let name = trim_chars(chars_of(draft.name.as_str()).as_slice());
    if !name_is_valid(name.as_slice()) {
        return Err("Use a remote name with letters, numbers, dashes, or underscores.".to_string());
    }
    let kind = trim_chars(chars_of(draft.kind.as_str()).as_slice());
    if kind.len() == 0 {
        return Err("Pick a remote type.".to_string());
    }
    let ghost ob = views(draft.obscure@);
    let mut out: Vec<ParamToWrite> = Vec::new();
    let mut i: usize = 0;
    while i < draft.params.len()
        invariant
            i <= draft.params@.len(),
            ob == views(draft.obscure@),
            param_views(out@) == draft_params(draft.params@.take(i as int), ob),
        decreases draft.params.len() - i,
    {
        assert(draft.params@.take(i + 1).drop_last() == draft.params@.take(i as int));
        let p = &draft.params[i];
        let k = trim_chars(chars_of(p.key.as_str()).as_slice());
        let v = trim_chars(chars_of(p.value.as_str()).as_slice());
        if k.len() > 0 && v.len() > 0 {
            let mut listed = false;
            let mut j: usize = 0;
            while j < draft.obscure.len()
                invariant
                    j <= draft.obscure@.len(),
                    ob == views(draft.obscure@),
                    listed == (exists|x: int| 0 <= x < j && ob[x] == k@),
                decreases draft.obscure.len() - j,
            {
                assert(ob[j as int] == draft.obscure@[j as int]@);
                if crate::text::eq_chars(chars_of(draft.obscure[j].as_str()).as_slice(), k.as_slice()) {
                    listed = true;
                    assert(ob[j as int] == k@);
                }
                assert(listed == (exists|x: int| 0 <= x < j + 1 && ob[x] == k@)) by {
                    if listed {
                        if !(exists|x: int| 0 <= x < j && ob[x] == k@) {
                            assert(ob[j as int] == k@);
                        }
                    }
                }
                j = j + 1;
            }
            let ghost before = param_views(out@);
            out.push(ParamToWrite { key: string_of(k.as_slice()), value: string_of(v.as_slice()), obscure: listed });
            assert(param_views(out@) =~= before.push((k@, v@, ob.contains(k@))));
        }
        i = i + 1;
    }
    assert(draft.params@.take(draft.params@.len() as int) == draft.params@);
    Ok(out)
}

/// The `rclone config create` arguments for a checked draft, with the
/// values as written (obscured where asked), and the answer on success.
fn create_args(draft: &RemoteDraft, values: &[RemoteParam]) -> (r: Result<(Vec<String>, String), String>)
    ensures
        match r {
            Ok((args, answer)) => {
                &&& draft_check(*draft) is Ok
                &&& views(args@) == seq!["config"@, "create"@, trim(draft.name@), trim(draft.kind@)] + assignments(
                    Seq::new(values@.len(), |i: int| (values@[i].key@, values@[i].value@)),
                )
                &&& answer@ == trim(draft.name@) + seq![':']
            },
            Err(e) => draft_check(*draft) == Err::<Seq<(Seq<char>, Seq<char>, bool)>, _>(e@),
        },
{
    let name = trim_chars(chars_of(draft.name.as_str()).as_slice());
    if !name_is_valid(name.as_slice()) {
        return Err("Use a remote name with letters, numbers, dashes, or underscores.".to_string());
    }
    let kind = trim_chars(chars_of(draft.kind.as_str()).as_slice());
    if kind.len() == 0 {
        return Err("Pick a remote type.".to_string());
    }
    let mut args: Vec<String> = Vec::new();
    args.push("config".to_string());
    args.push("create".to_string());
    args.push(string_of(name.as_slice()));
    args.push(string_of(kind.as_slice()));
    let ghost vs = Seq::new(values@.len(), |i: int| (values@[i].key@, values@[i].value@));
    let ghost head = views(args@);
    let mut i: usize = 0;
    while i < values.len()
        invariant
            i <= values@.len(),
            vs == Seq::new(values@.len(), |i: int| (values@[i].key@, values@[i].value@)),
            views(args@) == head + assignments(vs.take(i as int)),
        decreases values.len() - i,
    {
        assert(vs[i as int] == (values@[i as int].key@, values@[i as int].value@));
        let mut a = values[i].key.clone();
        crate::text::string_push(&mut a, '=');
        push_str(&mut a, values[i].value.as_str());
        let ghost before = views(args@);
        assert(a@ =~= vs[i as int].0 + seq!['='] + vs[i as int].1);
        args.push(a);
        assert(views(args@) =~= before.push(vs[i as int].0 + seq!['='] + vs[i as int].1));
        assert(assignments(vs.take(i + 1)) =~= assignments(vs.take(i as int)).push(vs[i as int].0 + seq!['='] + vs[i as int].1));
        i = i + 1;
    }
    assert(vs.take(vs.len() as int) == vs);
    let mut answer = string_of(name.as_slice());
    crate::text::string_push(&mut answer, ':');
    Ok((args, answer))
}

/// The `rclone config create` arguments for a draft and the answer on
/// success, given what `rclone obscure` answered for each setting of
/// `create_remote_params` marked `obscure` (`None` for the others).
pub fn create_remote(draft: &RemoteDraft, obscured: &[Option<String>]) -> (r: Result<(Vec<String>, String), String>)
    requires
        draft_check(*draft) matches Ok(ps) ==> obscured_fit(ps, obscured_views(obscured@)),
    ensures
        match r {
            Ok((args, answer)) => {
                &&& draft_check(*draft) matches Ok(ps) && views(args@) == seq![
                    "config"@,
                    "create"@,
                    trim(draft.name@),
                    trim(draft.kind@),
                ] + assignments(final_spec(ps, obscured_views(obscured@)))
                &&& answer@ == trim(draft.name@) + seq![':']
            },
            Err(e) => draft_check(*draft) == Err::<Seq<(Seq<char>, Seq<char>, bool)>, _>(e@),
        },
{
    let ps = create_remote_params(draft)?;
    let values = final_values(ps.as_slice(), obscured);
    let r = create_args(draft, values.as_slice());
    assert(Seq::new(values@.len(), |i: int| (values@[i].key@, values@[i].value@)) =~= rp_views(values@));
    r
}


/// What `rclone obscure` gives for a secret: its trimmed output, or an error
/// when it failed (its trimmed error output) or printed nothing.
pub fn obscure(success: bool, stdout: &str, stderr: &str) -> (r: Result<String, String>)
    ensures
        !success ==> (r matches Err(e) && e@ == trim(stderr@)),
        success && trim(stdout@).len() == 0 ==> (r matches Err(e) && e@ == "rclone obscure returned an empty password."@),
        success && trim(stdout@).len() > 0 ==> (r matches Ok(v) && v@ == trim(stdout@)),
{
    if !success {
        return Err(crate::text::trim_str(stderr));
    }
    let v = crate::text::trim_str(stdout);
    if v.as_str().is_empty() {
        Err("rclone obscure returned an empty password.".to_string())
    } else {
        Ok(v)
    }
}

/// The error text of a failed rclone run: its trimmed error output, else
/// its trimmed output, else `fallback`.
pub open spec fn failure_text(stdout: Seq<char>, stderr: Seq<char>, fallback: Seq<char>) -> Seq<char> {
    let d = if trim(stderr).len() == 0 { trim(stdout) } else { trim(stderr) };
    if d.len() == 0 {
        fallback
    } else {
        d
    }
}

/// The error text of a failed rclone run.
pub fn failure_detail(stdout: &str, stderr: &str, fallback: &str) -> (r: String)
    ensures
        r@ == failure_text(stdout@, stderr@, fallback@),
{
    let e = crate::text::trim_str(stderr);
    let d = if e.as_str().is_empty() {
        crate::text::trim_str(stdout)
    } else {
        e
    };
    if d.as_str().is_empty() {
        fallback.to_string()
    } else {
        d
    }
}

/// The result of a finished `rclone config create`: the answer when it
/// succeeded, else what it reported (see `failure_text`).
pub fn create_outcome(success: bool, stdout: &str, stderr: &str, answer: String) -> (r: Result<String, String>)
    ensures
        success ==> r == Ok::<String, String>(answer),
        !success ==> (r matches Err(e) && e@ == failure_text(stdout@, stderr@, "rclone config create failed."@)),
{
    if success {
        Ok(answer)
    } else {
        Err(failure_detail(stdout, stderr, "rclone config create failed."))
    }
}

/// What creating a remote reports when rclone ran too long.
pub fn create_timed_out() -> (r: String)
    ensures
        r@ == "Connecting the remote took too long. Finish the browser sign-in, then try again."@,
{
    "Connecting the remote took too long. Finish the browser sign-in, then try again.".to_string()
}

} // verus!
