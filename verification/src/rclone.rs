//! The rclone binary: which version it reports and whether LiClone can use
//! it, the remotes it lists, what an install attempt's output means, and the
//! `PATH` changes that make a fresh install visible.

use vstd::prelude::*;

use crate::text::{
    chars_of, concat, eq_chars, has_infix, is_digit, lines_of, lines_spec,
    lower_all, lower_contains, lower_seq, parse_bounded, parse_u32_spec, push_str, trim, trim_str, unicode_lower, views, double_single_quotes, escape_single_quotes,
};

verus! {

broadcast use vstd::string::group_string_axioms;

/// What LiClone knows of the rclone binary.
#[derive(Debug, Clone)]
pub struct RcloneInfo {
    pub found: bool,
    pub path: Option<String>,
    pub version: Option<String>,
    pub compatible: bool,
    pub error: Option<String>,
}

/// The runs of decimal digits of `s`, split as `s.split(|c| !c.is_ascii_digit())`
/// with the empty pieces left out. `done` holds the runs read so far and
/// `cur` the run being read.
pub open spec fn digit_runs_from(rest: Seq<char>, done: Seq<Seq<char>>, cur: Seq<char>) -> Seq<Seq<char>>
    decreases rest.len(),
{
    if rest.len() == 0 {
        if cur.len() > 0 {
            done.push(cur)
        } else {
            done
        }
    } else if is_digit(rest[0]) {
        digit_runs_from(rest.drop_first(), done, cur.push(rest[0]))
    } else {
        digit_runs_from(rest.drop_first(), if cur.len() > 0 { done.push(cur) } else { done }, Seq::empty())
    }
}

pub open spec fn digit_runs(s: Seq<char>) -> Seq<Seq<char>> {
    digit_runs_from(s, Seq::empty(), Seq::empty())
}

/// The `k`-th number of a version, 0 when it is missing or does not fit in
/// 32 bits.
pub open spec fn version_part(runs: Seq<Seq<char>>, k: int) -> u32 {
    if 0 <= k < runs.len() {
        match parse_u32_spec(runs[k]) {
            Some(v) => v,
            None => 0,
        }
    } else {
        0
    }
}

/// Whether a version number starts at `i + 1`: a `v` followed by a digit.
pub open spec fn version_mark(lower: Seq<char>, i: int) -> bool {
    0 <= i && i + 1 < lower.len() && lower[i] == 'v' && is_digit(lower[i + 1])
}

/// Where the version number starts: at the first `v` followed by a digit,
/// of the text in ASCII lower case.
#[verifier::opaque]
pub open spec fn version_at(lower: Seq<char>) -> Option<int> {
    if exists|i: int| version_mark(lower, i) {
        Some(choose|i: int| version_mark(lower, i) && forall|j: int| 0 <= j < i ==> !version_mark(lower, j))
    } else {
        None
    }
}

/// Whether a version line names rclone 1.65 or newer.
pub open spec fn supported_spec(text: Seq<char>) -> bool {
    let lower = lower_seq(text);
    match version_at(lower) {
        None => false,
        Some(p) => supported_from(lower, p),
    }
}

/// Whether the version number after position `p` is 1.65 or newer: its
/// first two runs of digits, as (major, minor), are at least (1, 65).
pub open spec fn supported_from(lower: Seq<char>, p: int) -> bool {
    let runs = digit_runs(lower.skip(p + 1));
    let major = version_part(runs, 0);
    let minor = version_part(runs, 1);
    major > 1 || (major == 1 && minor >= 65)
}

/// The runs of digits of `s`.
fn runs_of(s: &[char]) -> (r: Vec<Vec<char>>)
    ensures
        r@.len() == digit_runs(s@).len(),
        forall|k: int| 0 <= k < r@.len() ==> (#[trigger] r@[k])@ == digit_runs(s@)[k],
{
    let mut out: Vec<Vec<char>> = Vec::new();
    let mut cur: Vec<char> = Vec::new();
    let mut i: usize = 0;
    assert(s@.skip(0) =~= s@);
    assert(Seq::new(out@.len(), |k: int| out@[k]@) =~= Seq::<Seq<char>>::empty());
    assert(cur@ =~= Seq::<char>::empty());
    while i < s.len()
        invariant
            i <= s@.len(),
            digit_runs_from(s@.skip(i as int), Seq::new(out@.len(), |k: int| out@[k]@), cur@) == digit_runs(s@),
        decreases s.len() - i,
    {
        assert(s@.skip(i as int).drop_first() =~= s@.skip(i + 1));
        assert(s@.skip(i as int)[0] == s@[i as int]);
        let c = s[i];
        if '0' <= c && c <= '9' {
            cur.push(c);
        } else {
            if cur.len() > 0 {
                let ghost before = Seq::new(out@.len(), |k: int| out@[k]@);
                out.push(cur);
                assert(Seq::new(out@.len(), |k: int| out@[k]@) =~= before.push(out@[out@.len() - 1]@));
            }
            cur = Vec::new();
        }
        i = i + 1;
    }
    if cur.len() > 0 {
        let ghost before = Seq::new(out@.len(), |k: int| out@[k]@);
        out.push(cur);
        assert(Seq::new(out@.len(), |k: int| out@[k]@) =~= before.push(out@[out@.len() - 1]@));
    }
    assert(Seq::new(out@.len(), |k: int| out@[k]@) == digit_runs(s@));
    out
}

fn part_value(runs: &Vec<Vec<char>>, k: usize) -> (r: u32)
    ensures
        r == version_part(Seq::new(runs@.len(), |j: int| runs@[j]@), k as int),
{
    if k < runs.len() {
        match parse_bounded(runs[k].as_slice(), 4294967295) {
            Some(v) => v as u32,
            None => 0,
        }
    } else {
        0
    }
}

/// Where the version number starts in `lower` (see `version_at`).
fn find_version(lower: &[char]) -> (r: Option<usize>)
    ensures
        match r {
            Some(p) => version_at(lower@) == Some(p as int) && p + 1 < lower@.len(),
            None => version_at(lower@) is None,
        },
{
    reveal(version_at);
    let n = lower.len();
    let mut k: usize = 0;
    while k < n && k + 1 < n
        invariant
            n == lower@.len(),
            k <= n,
            forall|j: int| 0 <= j < k ==> !version_mark(lower@, j),
        decreases n - k,
    {
        if lower[k] == 'v' && '0' <= lower[k + 1] && lower[k + 1] <= '9' {
            proof {
                reveal(version_at);
                assert(version_mark(lower@, k as int));
                let c = choose|i: int| version_mark(lower@, i) && forall|j: int| 0 <= j < i ==> !version_mark(lower@, j);
                assert(version_mark(lower@, c));
                if c > k {
                    assert(!version_mark(lower@, k as int));
                }
            }
            return Some(k);
        }
        k = k + 1;
    }
    assert forall|i: int| !version_mark(lower@, i) by {
        if 0 <= i && i < k {
        }
    }
    reveal(version_at);
    None
}

/// Whether `text`, a line of `rclone version`, names rclone 1.65 or newer.
pub fn rclone_supported(text: &str) -> (r: bool)
    ensures
        r == supported_spec(text@),
{
    let lower = lower_all(chars_of(text).as_slice());
    let pos = find_version(lower.as_slice());
    match pos {
        None => false,
        Some(p) => supported_at(lower.as_slice(), p),
    }
}

fn supported_at(lower: &[char], p: usize) -> (r: bool)
    requires
        p < lower@.len(),
    ensures
        r == supported_from(lower@, p as int),
{
    let n = lower.len();
    assert(p < n);
    let mut rest: Vec<char> = Vec::new();
    let mut i: usize = p + 1;
    while i < lower.len()
        invariant
            p + 1 <= i <= lower@.len(),
            rest@ == lower@.subrange(p + 1, i as int),
        decreases lower.len() - i,
    {
        rest.push(lower[i]);
        assert(rest@ =~= lower@.subrange(p + 1, i + 1));
        i = i + 1;
    }
    assert(rest@ =~= lower@.skip(p + 1));
    let runs = runs_of(rest.as_slice());
    assert(Seq::new(runs@.len(), |j: int| runs@[j]@) =~= digit_runs(rest@));
    let major = part_value(&runs, 0);
    let minor = part_value(&runs, 1);
    major > 1 || (major == 1 && minor >= 65)
}

/// The version line: the first line of the output, stdout then stderr,
/// that mentions rclone in any case, trimmed; else the first line of
/// stdout, trimmed, when it is not empty.
pub open spec fn version_line(stdout: Seq<char>, stderr: Seq<char>) -> Option<Seq<char>> {
    let ls = Seq::new(
        (lines_spec(stdout) + lines_spec(stderr)).len(),
        |i: int| trim((lines_spec(stdout) + lines_spec(stderr))[i]),
    );
    if exists|i: int| 0 <= i < ls.len() && has_infix(unicode_lower(#[trigger] ls[i]), "rclone"@) {
        let i = choose|i: int|
            0 <= i < ls.len() && has_infix(unicode_lower(#[trigger] ls[i]), "rclone"@) && forall|j: int|
                0 <= j < i ==> !has_infix(unicode_lower(#[trigger] ls[j]), "rclone"@);
        Some(ls[i])
    } else if lines_spec(stdout).len() > 0 && trim(lines_spec(stdout)[0]).len() > 0 {
        Some(trim(lines_spec(stdout)[0]))
    } else {
        None
    }
}

/// What is known of rclone: where it was found (`None` when it was not),
/// and what `rclone version` printed there, or why it could not run.
pub open spec fn info_spec(info: RcloneInfo, path: Option<Seq<char>>, output: Option<Result<(Seq<char>, Seq<char>), Seq<char>>>) -> bool {
    match path {
        None => {
            &&& !info.found
            &&& info.path is None
            &&& info.version is None
            &&& !info.compatible
            &&& info.error matches Some(e) && e@ == "rclone was not found on PATH."@
        },
        Some(p) => {
            &&& info.found
            &&& info.path matches Some(q) && q@ == p
            &&& match output {
                Some(Ok((out, err))) => {
                    &&& (match info.version {
                        Some(v) => version_line(out, err) == Some(v@),
                        None => version_line(out, err) is None,
                    })
                    &&& info.compatible == (version_line(out, err) matches Some(v) && supported_spec(v))
                    &&& info.error is None
                },
                Some(Err(e)) => {
                    &&& info.version is None
                    &&& !info.compatible
                    &&& info.error matches Some(x) && x@ == e
                },
                None => false,
            }
        },
    }
}

/// The first line of `ls`, trimmed, that mentions rclone in any case.
fn first_rclone_line(ls: &Vec<String>) -> (r: Option<String>)
    ensures
        match r {
            Some(v) => exists|i: int|
                0 <= i < ls@.len() && v@ == trim(ls@[i]@) && has_infix(unicode_lower(trim(ls@[i]@)), "rclone"@)
                    && forall|j: int| 0 <= j < i ==> !has_infix(unicode_lower(trim(#[trigger] ls@[j]@)), "rclone"@),
            None => forall|j: int| 0 <= j < ls@.len() ==> !has_infix(unicode_lower(trim(#[trigger] ls@[j]@)), "rclone"@),
        },
{
    let mut i: usize = 0;
    while i < ls.len()
        invariant
            i <= ls@.len(),
            forall|j: int| 0 <= j < i ==> !has_infix(unicode_lower(trim(#[trigger] ls@[j]@)), "rclone"@),
        decreases ls.len() - i,
    {
        let t = trim_str(ls[i].as_str());
        if lower_contains(t.as_str(), "rclone") {
            return Some(t);
        }
        i = i + 1;
    }
    None
}

/// What is known of rclone, given where it was found (`None` when it was
/// not) and the output of `rclone version` there (`Err` with the reason when
/// it could not run).
pub fn rclone_info(path: Option<String>, output: Result<(String, String), String>) -> (r: RcloneInfo)
    ensures
        info_spec(
            r,
            match path { Some(p) => Some(p@), None => None },
            Some(match output { Ok((o, e)) => Ok((o@, e@)), Err(e) => Err(e@) }),
        ),
{
    let p = match path {
        Some(p) => p,
        None => return rclone_not_found(),
    };
    match output {
        Err(e) => RcloneInfo { found: true, path: Some(p), version: None, compatible: false, error: Some(e) },
        Ok((stdout, stderr)) => {
            let out_lines = lines_of(stdout.as_str());
            let err_lines = lines_of(stderr.as_str());
            let ghost all = views(out_lines@) + views(err_lines@);
            let ghost ls = Seq::new(all.len(), |i: int| trim(all[i]));
            let mut both: Vec<String> = Vec::new();
            let mut k: usize = 0;
            while k < out_lines.len()
                invariant
                    k <= out_lines@.len(),
                    views(both@) == views(out_lines@).take(k as int),
                decreases out_lines.len() - k,
            {
                let ghost b = views(both@);
                both.push(out_lines[k].clone());
                assert(views(both@) =~= b.push(out_lines@[k as int]@));
                assert(views(out_lines@).take(k + 1) =~= views(out_lines@).take(k as int).push(out_lines@[k as int]@));
                k = k + 1;
            }
            let mut m: usize = 0;
            while m < err_lines.len()
                invariant
                    m <= err_lines@.len(),
                    views(both@) == views(out_lines@) + views(err_lines@).take(m as int),
                decreases err_lines.len() - m,
            {
                let ghost b = views(both@);
                both.push(err_lines[m].clone());
                assert(views(both@) =~= b.push(err_lines@[m as int]@));
                assert(views(err_lines@).take(m + 1) =~= views(err_lines@).take(m as int).push(err_lines@[m as int]@));
                assert(views(both@) =~= views(out_lines@) + views(err_lines@).take(m + 1));
                m = m + 1;
            }
            assert(views(out_lines@).take(out_lines@.len() as int) =~= views(out_lines@));
            assert(views(err_lines@).take(err_lines@.len() as int) =~= views(err_lines@));
            assert(views(both@) == all);
            let found = first_rclone_line(&both);
            let ghost found_v: Option<Seq<char>> = opt_string_view(found);
            let version = match found {
                Some(v) => Some(v),
                None => {
                    if out_lines.len() > 0 {
                        let t = trim_str(out_lines[0].as_str());
                        if chars_of(t.as_str()).len() > 0 {
                            Some(t)
                        } else {
                            None
                        }
                    } else {
                        None
                    }
                },
            };
            proof {
                if exists|i: int| 0 <= i < ls.len() && has_infix(unicode_lower(#[trigger] ls[i]), "rclone"@) {
                    let i = choose|i: int| 0 <= i < ls.len() && has_infix(unicode_lower(#[trigger] ls[i]), "rclone"@);
                    assert(ls[i] == trim(both@[i]@));
                }
                match found_v {
                    Some(v) => {
                        let i = choose|i: int|
                            0 <= i < both@.len() && v == trim(both@[i]@) && has_infix(unicode_lower(trim(both@[i]@)), "rclone"@)
                                && forall|j: int| 0 <= j < i ==> !has_infix(unicode_lower(trim(#[trigger] both@[j]@)), "rclone"@);
                        assert(ls[i] == trim(both@[i]@));
                        assert forall|j: int| 0 <= j < i implies !has_infix(unicode_lower(#[trigger] ls[j]), "rclone"@) by {
                            assert(ls[j] == trim(both@[j]@));
                        }
                        let c = choose|c: int|
                            0 <= c < ls.len() && has_infix(unicode_lower(#[trigger] ls[c]), "rclone"@) && forall|j: int|
                                0 <= j < c ==> !has_infix(unicode_lower(#[trigger] ls[j]), "rclone"@);
                        if c < i {
                            assert(ls[c] == trim(both@[c]@));
                        } else if c > i {
                        }
                    },
                    None => {
                        assert forall|j: int| 0 <= j < ls.len() implies !has_infix(unicode_lower(#[trigger] ls[j]), "rclone"@) by {
                            assert(ls[j] == trim(both@[j]@));
                        }
                    },
                }
            }
            let compatible = match &version {
                Some(v) => rclone_supported(v.as_str()),
                None => false,
            };
            RcloneInfo { found: true, path: Some(p), version, compatible, error: None }
        },
    }
}

/// What is known when rclone was not found.
pub fn rclone_not_found() -> (r: RcloneInfo)
    ensures
        info_spec(r, None, None),
{
    RcloneInfo {
        found: false,
        path: None,
        version: None,
        compatible: false,
        error: Some("rclone was not found on PATH.".to_string()),
    }
}

/// The remotes `rclone listremotes` printed: its lines, trimmed, without
/// the empty ones.
pub open spec fn remote_lines(ls: Seq<Seq<char>>) -> Seq<Seq<char>>
    decreases ls.len(),
{
    if ls.len() == 0 {
        ls
    } else if trim(ls.last()).len() == 0 {
        remote_lines(ls.drop_last())
    } else {
        remote_lines(ls.drop_last()).push(trim(ls.last()))
    }
}

/// The remotes from the output of `rclone listremotes`; when it failed,
/// what it wrote to stderr, trimmed, or a plain message when that is empty.
pub fn list_remotes(success: bool, stdout: &str, stderr: &str) -> (r: Result<Vec<String>, String>)
    ensures
        success ==> (r matches Ok(v) && views(v@) == remote_lines(lines_spec(stdout@))),
        !success ==> (r matches Err(e) && e@ == if trim(stderr@).len() == 0 {
            "rclone listremotes failed."@
        } else {
            trim(stderr@)
        }),
{
    if !success {
        let t = trim_str(stderr);
        if chars_of(t.as_str()).len() == 0 {
            return Err("rclone listremotes failed.".to_string());
        }
        return Err(t);
    }
    let ls = lines_of(stdout);
    let ghost all = views(ls@);
    let mut out: Vec<String> = Vec::new();
    let mut i: usize = 0;
    while i < ls.len()
        invariant
            i <= ls@.len(),
            all == views(ls@),
            views(out@) == remote_lines(all.take(i as int)),
        decreases ls.len() - i,
    {
        assert(all.take(i + 1).drop_last() =~= all.take(i as int));
        let t = trim_str(ls[i].as_str());
        if chars_of(t.as_str()).len() > 0 {
            let ghost b = views(out@);
            out.push(t);
            assert(views(out@) =~= b.push(trim(all[i as int])));
        }
        i = i + 1;
    }
    assert(all.take(all.len() as int) =~= all);
    Ok(out)
}

/// Whether an install attempt's output says that rclone is there already.
pub open spec fn already_installed(stdout: Seq<char>, stderr: Seq<char>) -> bool {
    let text = unicode_lower(stdout + "\n"@ + stderr);
    has_infix(text, "already installed"@) || has_infix(text, "no available upgrade"@)
}

/// The outcome of `winget install` for rclone: a failure that does not say
/// rclone is there already is an error, with both outputs trimmed.
pub fn install_rclone(success: bool, stdout: &str, stderr: &str) -> (r: Result<(), String>)
    ensures
        (success || already_installed(stdout@, stderr@)) ==> r is Ok,
        !(success || already_installed(stdout@, stderr@)) ==> (r matches Err(e) && e@ == trim(
            trim(stdout@) + "\n"@ + trim(stderr@),
        )),
{
    let mut text = concat(stdout, "\n");
    push_str(&mut text, stderr);
    let already = lower_contains(text.as_str(), "already installed") || lower_contains(
        text.as_str(),
        "no available upgrade",
    );
    if !success && !already {
        let mut detail = concat(trim_str(stdout).as_str(), "\n");
        push_str(&mut detail, trim_str(stderr).as_str());
        return Err(trim_str(detail.as_str()));
    }
    Ok(())
}

/// What an install reports when rclone is installed but cannot be found.
pub fn installed_not_visible() -> (r: String)
    ensures
        r@ == "rclone was installed, but LiClone cannot see it yet. Close and open LiClone, or add rclone to PATH."@,
{
    "rclone was installed, but LiClone cannot see it yet. Close and open LiClone, or add rclone to PATH.".to_string()
}

/// The pieces of `s` between the occurrences of `c`, empty ones included.
pub open spec fn split_on(s: Seq<char>, c: char) -> Seq<Seq<char>>
    decreases s.len(),
{
    if s.len() == 0 {
        seq![Seq::empty()]
    } else {
        let prev = split_on(s.drop_last(), c);
        if s.last() == c {
            prev.push(Seq::empty())
        } else {
            prev.update(prev.len() - 1, prev.last().push(s.last()))
        }
    }
}

proof fn lemma_split_on_len(s: Seq<char>, c: char)
    ensures
        split_on(s, c).len() >= 1,
    decreases s.len(),
{
    if s.len() > 0 {
        lemma_split_on_len(s.drop_last(), c);
    }
}

/// The process `PATH` with `dir` in front, or `None` when one of its
/// entries is `dir` already, ignoring ASCII case.
pub open spec fn path_with_spec(dir: Seq<char>, current: Seq<char>) -> Option<Seq<char>> {
    if exists|i: int| 0 <= i < split_on(current, ';').len() && lower_seq(#[trigger] split_on(current, ';')[i]) == lower_seq(dir) {
        None
    } else {
        Some(dir + ";"@ + current)
    }
}

/// The process `PATH` with `dir` in front, unless it has `dir` already.
pub fn path_with_dir(dir: &str, current: &str) -> (r: Option<String>)
    ensures
        opt_string_view(r) == path_with_spec(dir@, current@),
{
    let d = lower_all(chars_of(dir).as_slice());
    let c = chars_of(current);
    let mut part: Vec<char> = Vec::new();
    let mut i: usize = 0;
    let ghost mut parts: Seq<Seq<char>> = seq![Seq::empty()];
    assert(c@.take(0) =~= Seq::<char>::empty());
    while i < c.len()
        invariant
            i <= c@.len(),
            c@ == current@,
            d@ == lower_seq(dir@),
            parts == split_on(c@.take(i as int), ';'),
            parts.len() >= 1,
            part@ == parts.last(),
            forall|k: int| 0 <= k < parts.len() - 1 ==> lower_seq(#[trigger] parts[k]) != lower_seq(dir@),
        decreases c.len() - i,
    {
        assert(c@.take(i + 1).drop_last() =~= c@.take(i as int));
        if c[i] == ';' {
            let lp = lower_all(part.as_slice());
            if eq_chars(lp.as_slice(), d.as_slice()) {
                proof {
                    assert(lower_seq(parts[parts.len() - 1]) == lower_seq(dir@));
                    assert(split_on(c@.take(i + 1), ';') == parts.push(Seq::empty()));
                    lemma_split_prefix_parts(c@, i as int + 1, parts.len() - 1);
                    assert(lower_seq(split_on(current@, ';')[parts.len() - 1]) == lower_seq(dir@));
                }
                return None;
            }
            proof {
                parts = parts.push(Seq::empty());
            }
            part = Vec::new();
        } else {
            part.push(c[i]);
            proof {
                parts = parts.update(parts.len() - 1, parts.last().push(c@[i as int]));
            }
        }
        i = i + 1;
    }
    assert(c@.take(c@.len() as int) =~= c@);
    let lp = lower_all(part.as_slice());
    if eq_chars(lp.as_slice(), d.as_slice()) {
        assert(lower_seq(split_on(current@, ';')[parts.len() - 1]) == lower_seq(dir@));
        return None;
    }
    assert(!exists|k: int| 0 <= k < split_on(current@, ';').len() && lower_seq(#[trigger] split_on(current@, ';')[k]) == lower_seq(dir@));
    let mut r = concat(dir, ";");
    push_str(&mut r, current);
    proof {
        reveal_strlit(";");
    }
    Some(r)
}

/// The first `n` pieces of a prefix stay pieces of the whole.
proof fn lemma_split_prefix_parts(s: Seq<char>, m: int, n: int)
    requires
        0 <= m <= s.len(),
        0 <= n < split_on(s.take(m), ';').len() - 1,
    ensures
        split_on(s, ';').len() >= split_on(s.take(m), ';').len(),
        split_on(s, ';')[n] == split_on(s.take(m), ';')[n],
    decreases s.len() - m,
{
    if m < s.len() {
        assert(s.take(m + 1).drop_last() =~= s.take(m));
        lemma_split_on_len(s.take(m), ';');
        lemma_split_prefix_parts(s, m + 1, n);
    } else {
        assert(s.take(m) =~= s);
    }
}

/// The PowerShell script that puts `dir` first in the user's `PATH` and
/// drops other entries naming it.
pub open spec fn user_path_spec(dir: Seq<char>) -> Seq<char> {
    "\n$dir = '"@ + double_single_quotes(dir)
        + "'\n$user = [Environment]::GetEnvironmentVariable('Path','User')\n$parts = @()\nif ($user) { $parts = @($user -split ';' | Where-Object { $_ -and ($_.TrimEnd('\\') -ine $dir.TrimEnd('\\')) }) }\n[Environment]::SetEnvironmentVariable('Path', ((@($dir) + $parts) -join ';'), 'User')\n"@
}

/// The script that puts `dir` first in the user's `PATH`.
pub fn user_path_script(dir: &str) -> (r: String)
    ensures
        r@ == user_path_spec(dir@),
{
    let mut s = concat("\n$dir = '", escape_single_quotes(dir).as_str());
    push_str(
        &mut s,
        "'\n$user = [Environment]::GetEnvironmentVariable('Path','User')\n$parts = @()\nif ($user) { $parts = @($user -split ';' | Where-Object { $_ -and ($_.TrimEnd('\\') -ine $dir.TrimEnd('\\')) }) }\n[Environment]::SetEnvironmentVariable('Path', ((@($dir) + $parts) -join ';'), 'User')\n",
    );
    s
}

/// The outcome of the `PATH` script: what it wrote to stderr, trimmed, when
/// it failed.
pub fn user_path_outcome(success: bool, stderr: &str) -> (r: Result<(), String>)
    ensures
        success ==> r is Ok,
        !success ==> (r matches Err(e) && e@ == trim(stderr@)),
{
    if success {
        Ok(())
    } else {
        Err(trim_str(stderr))
    }
}

/// Whether a file name without its extension names rclone, in any ASCII
/// case.
pub fn is_rclone_stem(stem: &str) -> (r: bool)
    ensures
        r == (lower_seq(stem@) == "rclone"@),
{
    let l = lower_all(chars_of(stem).as_slice());
    crate::text::eq_str(l.as_slice(), "rclone")
}

pub open spec fn opt_string_view(o: Option<String>) -> Option<Seq<char>> {
    match o {
        Some(s) => Some(s@),
        None => None,
    }
}

} // verus!
