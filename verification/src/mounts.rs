//! Mount profiles: saved `rclone mount` commands, the command line each one
//! runs, remote-control port assignment and the checks made before a mount
//! starts.

use vstd::prelude::*;

use crate::parse::{
    dash2, double_quotes, join_words, law_split_undoes_quote, lemma_scan_keeps_positional, normalize_spec,
    plain_arg, quote_spec, quote_win, scan, scan_all, spec_mount_point, spec_remote, spec_verb, split_spec,
    Flags, ParsedRclone,
};
use crate::schedule::{append_bwlimit, timetable_spec, BandwidthSchedule};
use crate::text::{is_ws, has_suffix, trim, trim_start, trim_end, trim_start_char, parse_u16_spec, decimal, views, string_push, chars_of, string_of_range, string_of, push_all, push_str, is_whitespace, eq_chars, eq_str, trim_chars, trim_str, parse_bounded, str_lt, less, decimal_string, last_index, rfind_char, lemma_last_index_bound, lower_seq, first_index, trim_end_char, lower_all, find_char, trim_end_char_len, lemma_prefix1, lemma_prefix2, lemma_str_lt_total, lemma_str_lt_transitive, has_prefix, forward_slashes};

verus! {

broadcast use vstd::string::group_string_axioms;

/// A saved `rclone mount`.
#[derive(Debug, Clone)]
pub struct MountProfile {
    pub id: String,
    pub name: String,
    pub remote: String,
    pub remote_path: String,
    pub mount_point: String,
    pub vfs_cache_mode: String,
    pub cache_dir: String,
    pub extra_args: String,
    pub rc_enabled: bool,
    pub rc_port: u16,
    pub network_mode: bool,
    pub read_only: bool,
    pub vol_name: String,
    pub start_on_login: bool,
    pub background: bool,
    /// rclone flags without the leading dashes, in name order. Booleans use "1".
    pub settings: Vec<(String, String)>,
}

/// The character view of a table of (name, value) pairs.
pub type Table = Seq<(Seq<char>, Seq<char>)>;

pub open spec fn pair_views(v: Seq<(String, String)>) -> Table {
    Seq::new(v.len(), |i: int| (v[i].0@, v[i].1@))
}

/// Index of the last entry named `k`, or -1.
pub open spec fn table_find(m: Table, k: Seq<char>) -> int
    decreases m.len(),
{
    if m.len() == 0 {
        -1
    } else if m.last().0 == k {
        m.len() - 1
    } else {
        table_find(m.drop_last(), k)
    }
}

pub open spec fn table_get(m: Table, k: Seq<char>) -> Option<Seq<char>> {
    let j = table_find(m, k);
    if j >= 0 {
        Some(m[j].1)
    } else {
        None
    }
}

/// The number of leading entries whose names sort before `k`.
pub open spec fn insert_pos(m: Table, k: Seq<char>) -> nat
    decreases m.len(),
{
    if m.len() == 0 {
        0
    } else if str_lt(m[0].0, k) {
        1 + insert_pos(m.drop_first(), k)
    } else {
        0
    }
}

/// Sets `k` to `v` in a table kept in name order, as a `BTreeMap` does.
pub open spec fn table_insert(m: Table, k: Seq<char>, v: Seq<char>) -> Table {
    let i = insert_pos(m, k) as int;
    if i < m.len() && m[i].0 == k {
        m.update(i, (k, v))
    } else {
        m.insert(i, (k, v))
    }
}

/// Every entry of `s`, in order, set in `m`.
pub open spec fn insert_all(m: Table, s: Table) -> Table
    decreases s.len(),
{
    if s.len() == 0 {
        m
    } else {
        let r = insert_all(m, s.drop_last());
        table_insert(r, s.last().0, s.last().1)
    }
}

/// Names in strictly increasing order.
pub open spec fn table_sorted(m: Table) -> bool {
    forall|i: int, j: int| 0 <= i < j < m.len() ==> str_lt(m[i].0, m[j].0)
}

pub open spec fn bool_flag(b: bool) -> Seq<char> {
    if b {
        "1"@
    } else {
        ""@
    }
}

/// All flags of a profile by name: the fields first, then the settings,
/// which take precedence.
pub open spec fn flag_map_spec(p: MountProfile) -> Table {
    let m0 = table_insert(Seq::empty(), "vfs-cache-mode"@, p.vfs_cache_mode@);
    let m1 = table_insert(m0, "cache-dir"@, p.cache_dir@);
    let m2 = table_insert(m1, "volname"@, p.vol_name@);
    let m3 = table_insert(m2, "network-mode"@, bool_flag(p.network_mode));
    let m4 = table_insert(m3, "read-only"@, bool_flag(p.read_only));
    let m5 = table_insert(m4, "rc"@, bool_flag(p.rc_enabled));
    let m6 = table_insert(m5, "rc-port"@, decimal(p.rc_port as nat));
    insert_all(m6, pair_views(p.settings@))
}

/// `1`, `true`, `yes` or `on`, around whitespace.
pub open spec fn truthy_spec(v: Seq<char>) -> bool {
    let t = trim(v);
    t == "1"@ || t == "true"@ || t == "yes"@ || t == "on"@
}

/// rclone flags that are switches: given without a value.
pub open spec fn is_switch(k: Seq<char>) -> bool {
    ||| k == "network-mode"@
    ||| k == "read-only"@
    ||| k == "fast-list"@
    ||| k == "links"@
    ||| k == "vfs-case-insensitive"@
    ||| k == "no-modtime"@
    ||| k == "no-checksum"@
    ||| k == "allow-other"@
    ||| k == "daemon"@
    ||| k == "use-mmap"@
}

/// The arguments one flag contributes to the command line.
pub open spec fn entry_tokens(e: (Seq<char>, Seq<char>)) -> Seq<Seq<char>> {
    let k = e.0;
    let t = trim(e.1);
    if k == "rc"@ || k == "rc-port"@ {
        Seq::empty()
    } else if is_switch(k) {
        if truthy_spec(t) {
            seq![dash2() + k]
        } else {
            Seq::empty()
        }
    } else if t.len() == 0 {
        Seq::empty()
    } else {
        seq![dash2() + k, t]
    }
}

pub open spec fn flag_tokens(m: Table) -> Seq<Seq<char>>
    decreases m.len(),
{
    if m.len() == 0 {
        Seq::empty()
    } else {
        flag_tokens(m.drop_last()) + entry_tokens(m.last())
    }
}

/// `remote:path`, with surrounding whitespace, one trailing colon of the
/// remote and leading slashes of the path removed.
pub open spec fn source_spec_of(p: MountProfile) -> Seq<char> {
    let r = trim(p.remote@);
    let remote = if has_suffix(r, seq![':']) { r.drop_last() } else { r };
    let path = trim_start_char(trim(p.remote_path@), '/');
    if path.len() == 0 {
        remote.push(':')
    } else {
        remote.push(':') + path
    }
}

/// One step of the extra-argument splitter: (words, current word, open quote).
pub open spec fn args_step(
    st: (Seq<Seq<char>>, Seq<char>, Option<char>),
    c: char,
) -> (Seq<Seq<char>>, Seq<char>, Option<char>) {
    match st.2 {
        Some(q) => if c == q {
            (st.0, st.1, None)
        } else {
            (st.0, st.1.push(c), st.2)
        },
        None => if c == '"' || c == '\'' {
            (st.0, st.1, Some(c))
        } else if is_ws(c) {
            if st.1.len() > 0 {
                (st.0.push(st.1), Seq::empty(), None)
            } else {
                st
            }
        } else {
            (st.0, st.1.push(c), None)
        },
    }
}

pub open spec fn args_run(s: Seq<char>) -> (Seq<Seq<char>>, Seq<char>, Option<char>)
    decreases s.len(),
{
    if s.len() == 0 {
        (Seq::empty(), Seq::empty(), None)
    } else {
        args_step(args_run(s.drop_last()), s.last())
    }
}

/// Extra arguments split into words: whitespace outside quotes separates
/// words; single or double quotes group, and an unclosed quote runs to the end.
pub open spec fn split_args_spec(s: Seq<char>) -> Seq<Seq<char>> {
    let st = args_run(s);
    if st.1.len() > 0 {
        st.0.push(st.1)
    } else {
        st.0
    }
}

/// The remote-control port a profile's command line uses.
pub open spec fn argv_port(p: MountProfile) -> u16 {
    let fallback: u16 = if p.rc_port == 0 { 5572 } else { p.rc_port };
    match table_get(flag_map_spec(p), "rc-port"@) {
        Some(v) => match parse_u16_spec(v) {
            Some(n) => if n != 0 { n } else { fallback },
            None => fallback,
        },
        None => fallback,
    }
}

/// Whether a profile's command line turns remote control on: its `rc`
/// flag (the field, with the settings laid over it) is truthy.
pub open spec fn rc_flag_on(p: MountProfile) -> bool {
    match table_get(flag_map_spec(p), "rc"@) {
        Some(v) => truthy_spec(v),
        None => truthy_spec(Seq::empty()),
    }
}

pub open spec fn rc_tokens(p: MountProfile) -> Seq<Seq<char>> {
    if rc_flag_on(p) {
        seq!["--rc"@, "--rc-no-auth"@, "--rc-addr"@, "127.0.0.1:"@ + decimal(argv_port(p) as nat)]
    } else {
        Seq::empty()
    }
}

/// The command line of a profile.
pub open spec fn argv_spec(p: MountProfile, rclone: Seq<char>) -> Seq<Seq<char>> {
    seq![rclone, "mount"@, source_spec_of(p), trim(p.mount_point@)] + flag_tokens(flag_map_spec(p))
        + rc_tokens(p) + split_args_spec(p.extra_args@)
}

/// Whether `k` is a switch.
pub fn switch_flag(k: &[char]) -> (r: bool)
    ensures
        r == is_switch(k@),
{
    eq_str(k, "network-mode") || eq_str(k, "read-only") || eq_str(k, "fast-list") || eq_str(k, "links") || eq_str(k, "vfs-case-insensitive") || eq_str(k, "no-modtime") || eq_str(k, "no-checksum") || eq_str(k, "allow-other") || eq_str(k, "daemon") || eq_str(k, "use-mmap")
}

/// `1`, `true`, `yes` or `on`, around whitespace.
pub fn truthy(value: &str) -> (r: bool)
    ensures
        r == truthy_spec(value@),
{
    let t = trim_chars(chars_of(value).as_slice());
    eq_str(t.as_slice(), "1") || eq_str(t.as_slice(), "true") || eq_str(t.as_slice(), "yes")
        || eq_str(t.as_slice(), "on")
}

/// Index of the last entry named `k`.
pub fn table_lookup(m: &Vec<(String, String)>, k: &str) -> (r: Option<usize>)
    ensures
        match r {
            Some(j) => table_find(pair_views(m@), k@) == j as int && j < m@.len(),
            None => table_find(pair_views(m@), k@) == -1,
        },
{
    let ghost t = pair_views(m@);
    let key = chars_of(k);
    let mut n: usize = m.len();
    assert(t.take(t.len() as int) == t);
    while n > 0
        invariant
            n <= m@.len(),
            t == pair_views(m@),
            key@ == k@,
            table_find(t, k@) == table_find(t.take(n as int), k@),
        decreases n,
    {
        let kc = chars_of(m[n - 1].0.as_str());
        assert(t.take(n as int).last() == t[n - 1]);
        if eq_chars(kc.as_slice(), key.as_slice()) {
            return Some(n - 1);
        }
        assert(t.take(n as int).drop_last() == t.take(n - 1));
        n = n - 1;
    }
    None
}

/// The value named `k`.
pub fn table_value<'a>(m: &'a Vec<(String, String)>, k: &str) -> (r: Option<&'a String>)
    ensures
        match r {
            Some(v) => table_get(pair_views(m@), k@) == Some(v@),
            None => table_get(pair_views(m@), k@) is None,
        },
{
    match table_lookup(m, k) {
        Some(j) => Some(&m[j].1),
        None => None,
    }
}

proof fn lemma_insert_pos_skip(m: Table, k: Seq<char>, i: int)
    requires
        0 <= i < m.len(),
        str_lt(m[i].0, k),
    ensures
        insert_pos(m.skip(i), k) == 1 + insert_pos(m.skip(i + 1), k),
{
    assert(m.skip(i).drop_first() == m.skip(i + 1));
}

/// Sets `k` to `v`, keeping the table in name order.
pub fn table_set(m: &mut Vec<(String, String)>, k: String, v: String)
    ensures
        pair_views(final(m)@) == table_insert(pair_views(old(m)@), k@, v@),
{
    let ghost t = pair_views(m@);
    let kc = chars_of(k.as_str());
    let mut i: usize = 0;
    let mut go = true;
    assert(t.skip(0) == t);
    while go && i < m.len()
        invariant
            i <= m@.len(),
            t == pair_views(m@),
            t == pair_views(old(m)@),
            kc@ == k@,
            insert_pos(t, k@) == i + insert_pos(t.skip(i as int), k@),
            !go ==> i < m@.len() && !str_lt(t[i as int].0, k@),
        decreases (m.len() - i) as int + (if go { 1int } else { 0int }),
    {
        let e = chars_of(m[i].0.as_str());
        if less(e.as_slice(), kc.as_slice()) {
            proof {
                lemma_insert_pos_skip(t, k@, i as int);
            }
            i = i + 1;
        } else {
            go = false;
        }
    }
    proof {
        if !go {
            assert(t.skip(i as int)[0] == t[i as int]);
            assert(insert_pos(t.skip(i as int), k@) == 0);
        } else {
            assert(t.skip(i as int).len() == 0);
        }
        assert(insert_pos(t, k@) == i);
    }
    let ghost kv = k@;
    let ghost vv = v@;
    if i < m.len() && m[i].0 == k {
        m.set(i, (k, v));
        assert(pair_views(m@) =~= t.update(i as int, (kv, vv)));
    } else {
        m.insert(i, (k, v));
        assert(pair_views(m@) =~= t.insert(i as int, (kv, vv)));
    }
}

/// Splits extra arguments into words: whitespace outside quotes separates
/// words, and single or double quotes group.
pub fn split_args(raw: &str) -> (out: Vec<String>)
    ensures
        views(out@) == split_args_spec(raw@),
{
    let chars = chars_of(raw);
    let mut out: Vec<String> = Vec::new();
    let mut cur: Vec<char> = Vec::new();
    let mut quote: Option<char> = None;
    let mut i: usize = 0;
    while i < chars.len()
        invariant
            i <= chars@.len(),
            args_run(chars@.take(i as int)) == (views(out@), cur@, quote),
        decreases chars.len() - i,
    {
        let c = chars[i];
        let ghost before = (views(out@), cur@, quote);
        match quote {
            Some(q) => {
                if c == q {
                    quote = None;
                } else {
                    cur.push(c);
                }
            },
            None => {
                if c == '"' || c == '\'' {
                    quote = Some(c);
                } else if is_whitespace(c) {
                    if cur.len() > 0 {
                        let w = string_of(cur.as_slice());
                        out.push(w);
                        assert(views(out@) =~= before.0.push(before.1));
                        cur = Vec::new();
                    }
                } else {
                    cur.push(c);
                }
            },
        }
        assert(chars@.take(i + 1).drop_last() == chars@.take(i as int));
        assert(args_run(chars@.take(i + 1)) == args_step(before, c));
        i = i + 1;
    }
    assert(chars@.take(chars@.len() as int) == chars@);
    if cur.len() > 0 {
        let ghost before = views(out@);
        let w = string_of(cur.as_slice());
        out.push(w);
        assert(views(out@) =~= before.push(cur@));
    }
    out
}

/// `"1"` for true, `""` for false.
fn bool_text(b: bool) -> (s: String)
    ensures
        s@ == bool_flag(b),
{
    if b {
        "1".to_string()
    } else {
        "".to_string()
    }
}

/// All flags of a profile by name: the fields first, then the settings,
/// which take precedence.
pub fn flag_map(profile: &MountProfile) -> (m: Vec<(String, String)>)
    ensures
        pair_views(m@) == flag_map_spec(*profile),
{
    let mut m: Vec<(String, String)> = Vec::new();
    assert(pair_views(m@) =~= Table::empty());
    table_set(&mut m, "vfs-cache-mode".to_string(), profile.vfs_cache_mode.clone());
    table_set(&mut m, "cache-dir".to_string(), profile.cache_dir.clone());
    table_set(&mut m, "volname".to_string(), profile.vol_name.clone());
    table_set(&mut m, "network-mode".to_string(), bool_text(profile.network_mode));
    table_set(&mut m, "read-only".to_string(), bool_text(profile.read_only));
    table_set(&mut m, "rc".to_string(), bool_text(profile.rc_enabled));
    table_set(&mut m, "rc-port".to_string(), decimal_string(profile.rc_port as u64));
    let ghost m6 = pair_views(m@);
    let ghost s = pair_views(profile.settings@);
    let mut i: usize = 0;
    while i < profile.settings.len()
        invariant
            i <= s.len(),
            s == pair_views(profile.settings@),
            pair_views(m@) == insert_all(m6, s.take(i as int)),
        decreases profile.settings.len() - i,
    {
        assert(s.take(i + 1).drop_last() == s.take(i as int));
        table_set(&mut m, profile.settings[i].0.clone(), profile.settings[i].1.clone());
        i = i + 1;
    }
    assert(s.take(s.len() as int) == s);
    m
}

impl MountProfile {
    /// `remote:path` for the rclone command line.
    pub fn source_spec(&self) -> (r: String)
        ensures
            r@ == source_spec_of(*self),
    {
        let r = trim_chars(chars_of(self.remote.as_str()).as_slice());
        let n = if r.len() > 0 && r[r.len() - 1] == ':' {
            r.len() - 1
        } else {
            r.len()
        };
        proof {
            if r@.len() > 0 && r@.last() == ':' {
                assert(r@.skip(r@.len() - 1) =~= seq![':']);
            }
            if has_suffix(r@, seq![':']) {
                assert(r@.skip(r@.len() - 1)[0] == ':');
            }
        }
        let mut out = string_of_range(r.as_slice(), 0, n);
        assert(r@.subrange(0, n as int) == (if has_suffix(r@, seq![':']) { r@.drop_last() } else { r@ }));
        string_push(&mut out, ':');
        let p = trim_chars(chars_of(self.remote_path.as_str()).as_slice());
        let mut s: usize = 0;
        assert(p@.skip(0) == p@);
        while s < p.len() && p[s] == '/'
            invariant
                s <= p@.len(),
                trim_start_char(p@, '/') == trim_start_char(p@.skip(s as int), '/'),
            decreases p.len() - s,
        {
            assert(p@.skip(s as int).drop_first() == p@.skip(s + 1));
            s = s + 1;
        }
        let ghost path = trim_start_char(p@, '/');
        assert(path == p@.skip(s as int));
        assert(p@.skip(s as int) == p@.subrange(s as int, p@.len() as int));
        let ghost base = out@;
        let mut k = s;
        while k < p.len()
            invariant
                s <= k <= p@.len(),
                out@ == base + p@.subrange(s as int, k as int),
            decreases p.len() - k,
        {
            string_push(&mut out, p[k]);
            assert(p@.subrange(s as int, k + 1) == p@.subrange(s as int, k as int).push(p@[k as int]));
            k = k + 1;
        }
        proof {
            if path.len() == 0 {
                assert(out@ =~= base);
            }
        }
        out
    }

    /// The `rclone mount` command line of this profile, program first:
    /// source and mount point, each flag in name order (switches bare,
    /// empty values left out), remote control on a loopback port when it is
    /// on, then the extra arguments.
    pub fn argv(&self, rclone: &str) -> (args: Vec<String>)
        ensures
            views(args@) == argv_spec(*self, rclone@),
    {
        let mut args: Vec<String> = Vec::new();
        args.push(rclone.to_string());
        args.push("mount".to_string());
        args.push(self.source_spec());
        args.push(trim_str(self.mount_point.as_str()));
        assert(views(args@) =~= seq![rclone@, "mount"@, source_spec_of(*self), trim(self.mount_point@)]);
        let flags = flag_map(self);
        let ghost fm = flag_map_spec(*self);
        let ghost head = views(args@);
        proof {
            reveal_strlit("");
            assert(""@ =~= Seq::<char>::empty());
        }
        let rc_on = match table_value(&flags, "rc") {
            Some(v) => truthy(v.as_str()),
            None => truthy(""),
        };
        let fallback: u16 = if self.rc_port == 0 {
            5572
        } else {
            self.rc_port
        };
        let port: u16 = match table_value(&flags, "rc-port") {
            Some(v) => match parse_bounded(chars_of(v.as_str()).as_slice(), 0xffff) {
                Some(n) => if n != 0 {
                    n as u16
                } else {
                    fallback
                },
                None => fallback,
            },
            None => fallback,
        };
        assert(port == argv_port(*self));
        let mut i: usize = 0;
        while i < flags.len()
            invariant
                i <= flags@.len(),
                pair_views(flags@) == fm,
                views(args@) == head + flag_tokens(fm.take(i as int)),
            decreases flags.len() - i,
        {
            let k = chars_of(flags[i].0.as_str());
            let value = trim_chars(chars_of(flags[i].1.as_str()).as_slice());
            let ghost e = fm[i as int];
            let ghost before = views(args@);
            assert(fm.take(i + 1).drop_last() == fm.take(i as int));
            assert(fm.take(i + 1).last() == e);
            if eq_str(k.as_slice(), "rc") || eq_str(k.as_slice(), "rc-port") {
                assert(entry_tokens(e) =~= Seq::<Seq<char>>::empty());
            } else if switch_flag(k.as_slice()) {
                let vs = string_of(value.as_slice());
                if truthy(vs.as_str()) {
                    let mut f = "--".to_string();
                    push_all(&mut f, k.as_slice());
                    args.push(f);
                    proof {
                        reveal_strlit("--");
                        assert("--"@ =~= dash2());
                    }
                    assert(views(args@) =~= before + entry_tokens(e));
                } else {
                    assert(entry_tokens(e) =~= Seq::<Seq<char>>::empty());
                }
            } else if value.len() == 0 {
                assert(entry_tokens(e) =~= Seq::<Seq<char>>::empty());
            } else {
                let mut f = "--".to_string();
                push_all(&mut f, k.as_slice());
                args.push(f);
                args.push(string_of(value.as_slice()));
                proof {
                    reveal_strlit("--");
                    assert("--"@ =~= dash2());
                }
                assert(views(args@) =~= before + entry_tokens(e));
            }
            assert(views(args@) =~= head + flag_tokens(fm.take(i + 1)));
            i = i + 1;
        }
        assert(fm.take(fm.len() as int) == fm);
        let ghost mid = views(args@);
        if rc_on {
            args.push("--rc".to_string());
            args.push("--rc-no-auth".to_string());
            args.push("--rc-addr".to_string());
            let mut a = "127.0.0.1:".to_string();
            let ps = decimal_string(port as u64);
            push_str(&mut a, ps.as_str());
            args.push(a);
            assert(views(args@) =~= mid + seq!["--rc"@, "--rc-no-auth"@, "--rc-addr"@, "127.0.0.1:"@ + decimal(port as nat)]);
        }
        assert(views(args@) =~= mid + rc_tokens(*self));
        let extra = split_args(self.extra_args.as_str());
        let ghost mid2 = views(args@);
        let mut j: usize = 0;
        while j < extra.len()
            invariant
                j <= extra@.len(),
                views(args@) == mid2 + views(extra@).take(j as int),
            decreases extra.len() - j,
        {
            let ghost before = views(args@);
            args.push(extra[j].clone());
            assert(views(args@) =~= before.push(extra@[j as int]@));
            assert(views(extra@).take(j + 1) =~= views(extra@).take(j as int).push(extra@[j as int]@));
            assert(views(args@) =~= mid2 + views(extra@).take(j + 1));
            j = j + 1;
        }
        assert(views(extra@).take(extra@.len() as int) == views(extra@));
        args
    }
}

// ---------------------------------------------------------------------------
// Legacy fields, remote-control ports

pub open spec fn legacy_str(s: Table, k: Seq<char>, old: Seq<char>) -> Seq<char> {
    match table_get(s, k) {
        Some(v) => v,
        None => old,
    }
}

pub open spec fn legacy_bool(s: Table, k: Seq<char>, old: bool) -> bool {
    match table_get(s, k) {
        Some(v) => truthy_spec(v),
        None => old,
    }
}

pub open spec fn legacy_port(s: Table, old: u16) -> u16 {
    match table_get(s, "rc-port"@) {
        Some(v) => match parse_u16_spec(v) {
            Some(n) => if n != 0 {
                n
            } else {
                old
            },
            None => old,
        },
        None => old,
    }
}

/// The fields that are not kept in the settings are equal.
pub open spec fn same_identity(o: MountProfile, n: MountProfile) -> bool {
    &&& n.id@ == o.id@
    &&& n.name@ == o.name@
    &&& n.remote@ == o.remote@
    &&& n.remote_path@ == o.remote_path@
    &&& n.mount_point@ == o.mount_point@
    &&& n.extra_args@ == o.extra_args@
    &&& n.start_on_login == o.start_on_login
    &&& n.background == o.background
}

/// Two profiles hold the same values.
pub open spec fn same_profile(a: MountProfile, b: MountProfile) -> bool {
    &&& same_identity(a, b)
    &&& a.vfs_cache_mode@ == b.vfs_cache_mode@
    &&& a.cache_dir@ == b.cache_dir@
    &&& a.vol_name@ == b.vol_name@
    &&& a.network_mode == b.network_mode
    &&& a.read_only == b.read_only
    &&& a.rc_enabled == b.rc_enabled
    &&& a.rc_port == b.rc_port
    &&& pair_views(a.settings@) == pair_views(b.settings@)
}

/// Two lists of profiles hold the same values.
pub open spec fn same_profiles(a: Seq<MountProfile>, b: Seq<MountProfile>) -> bool {
    a.len() == b.len() && forall|k: int| 0 <= k < a.len() ==> same_profile(#[trigger] a[k], b[k])
}

/// A copy of a table.
pub fn copy_table(m: &Vec<(String, String)>) -> (r: Vec<(String, String)>)
    ensures
        pair_views(r@) == pair_views(m@),
{
    let mut r: Vec<(String, String)> = Vec::new();
    let mut i: usize = 0;
    while i < m.len()
        invariant
            i <= m@.len(),
            pair_views(r@) == pair_views(m@).take(i as int),
        decreases m.len() - i,
    {
        let ghost before = pair_views(r@);
        let e = (m[i].0.clone(), m[i].1.clone());
        r.push(e);
        assert(pair_views(r@) =~= before.push((m@[i as int].0@, m@[i as int].1@)));
        assert(pair_views(r@) =~= pair_views(m@).take(i + 1));
        i = i + 1;
    }
    assert(pair_views(m@).take(m@.len() as int) == pair_views(m@));
    r
}

/// A copy of a profile.
pub fn copy_profile(p: &MountProfile) -> (r: MountProfile)
    ensures
        same_profile(r, *p),
{
    MountProfile {
        id: p.id.clone(),
        name: p.name.clone(),
        remote: p.remote.clone(),
        remote_path: p.remote_path.clone(),
        mount_point: p.mount_point.clone(),
        vfs_cache_mode: p.vfs_cache_mode.clone(),
        cache_dir: p.cache_dir.clone(),
        extra_args: p.extra_args.clone(),
        rc_enabled: p.rc_enabled,
        rc_port: p.rc_port,
        network_mode: p.network_mode,
        read_only: p.read_only,
        vol_name: p.vol_name.clone(),
        start_on_login: p.start_on_login,
        background: p.background,
        settings: copy_table(&p.settings),
    }
}

/// `n` is `o` with its older fields brought in line with its settings.
pub open spec fn synced(o: MountProfile, n: MountProfile) -> bool {
    let s = pair_views(o.settings@);
    &&& same_identity(o, n)
    &&& n.settings@ == o.settings@
    &&& n.vfs_cache_mode@ == legacy_str(s, "vfs-cache-mode"@, o.vfs_cache_mode@)
    &&& n.cache_dir@ == legacy_str(s, "cache-dir"@, o.cache_dir@)
    &&& n.vol_name@ == legacy_str(s, "volname"@, o.vol_name@)
    &&& n.network_mode == legacy_bool(s, "network-mode"@, o.network_mode)
    &&& n.read_only == legacy_bool(s, "read-only"@, o.read_only)
    &&& n.rc_enabled == legacy_bool(s, "rc"@, o.rc_enabled)
    &&& n.rc_port == legacy_port(s, o.rc_port)
}

/// Remote control is on, by the field or by the `rc` setting.
pub open spec fn rc_on_spec(p: MountProfile) -> bool {
    p.rc_enabled || match table_get(pair_views(p.settings@), "rc"@) {
        Some(v) => truthy_spec(v),
        None => false,
    }
}

/// The port the `rc-port` setting names, if it is a number.
pub open spec fn setting_port(p: MountProfile) -> Option<u16> {
    match table_get(pair_views(p.settings@), "rc-port"@) {
        Some(v) => parse_u16_spec(v),
        None => None,
    }
}

/// The ports a saved profile holds: its port when remote control is on,
/// and the port of its `rc-port` setting.
pub open spec fn ports_of(p: MountProfile) -> Seq<u16> {
    let a: Seq<u16> = if rc_on_spec(p) && p.rc_port > 0 { seq![p.rc_port] } else { Seq::empty() };
    let b: Seq<u16> = match setting_port(p) {
        Some(n) => if n > 0 { seq![n] } else { Seq::empty() },
        None => Seq::empty(),
    };
    a + b
}

pub open spec fn profile_ports(ps: Seq<MountProfile>, except: Seq<char>) -> Seq<u16>
    decreases ps.len(),
{
    if ps.len() == 0 {
        Seq::empty()
    } else if ps.last().id@ == except {
        profile_ports(ps.drop_last(), except)
    } else {
        profile_ports(ps.drop_last(), except) + ports_of(ps.last())
    }
}

/// The port of an rc address: the part after the last colon.
pub open spec fn addr_port(a: Seq<char>) -> Option<u16> {
    let seg = match last_index(a, ':') {
        Some(c) => a.skip(c + 1),
        None => a,
    };
    parse_u16_spec(seg)
}

pub open spec fn addr_ports(addrs: Seq<Seq<char>>) -> Seq<u16>
    decreases addrs.len(),
{
    if addrs.len() == 0 {
        Seq::empty()
    } else {
        match addr_port(addrs.last()) {
            Some(n) => if n > 0 {
                addr_ports(addrs.drop_last()).push(n)
            } else {
                addr_ports(addrs.drop_last())
            },
            None => addr_ports(addrs.drop_last()),
        }
    }
}

/// The next port to try after `p`: one up, from 65535 round to 1024, and
/// 5572 in place of a port below 1024.
pub open spec fn port_step(p: u16) -> u16 {
    if p == 0xffff {
        1024
    } else if p + 1 < 1024 {
        5572
    } else {
        (p + 1) as u16
    }
}

/// Tries `p`, then the ports after it, at most `k` more times.
pub open spec fn probe(p: u16, used: Seq<u16>, k: nat) -> u16
    decreases k,
{
    if k == 0 || !used.contains(p) {
        p
    } else {
        probe(port_step(p), used, (k - 1) as nat)
    }
}

/// How many ports `free_port` tries: the starting port and then each of the
/// 64512 ports from 1024 up once.
pub open spec fn port_tries() -> nat {
    64513
}

/// The first free port from `preferred` (5572 when 0), going round the
/// ports from 1024 up once; when every one of them is in use, the port that
/// the round ends on.
pub open spec fn free_port_spec(preferred: u16, used: Seq<u16>) -> u16 {
    probe(if preferred == 0 { 5572 } else { preferred }, used, port_tries())
}

/// The port a profile asks for: its `rc-port` setting, else its port, else 5572.
pub open spec fn preferred_port(p: MountProfile) -> u16 {
    match setting_port(p) {
        Some(n) => if n > 0 {
            n
        } else if p.rc_port == 0 {
            5572
        } else {
            p.rc_port
        },
        None => if p.rc_port == 0 {
            5572
        } else {
            p.rc_port
        },
    }
}

/// `n` is `o` with remote control set on a free port, when it was on.
pub open spec fn port_assigned(o: MountProfile, n: MountProfile, used: Seq<u16>) -> bool {
    if !rc_on_spec(o) {
        same_profile(n, o)
    } else {
        let port = free_port_spec(preferred_port(o), used);
        &&& same_identity(o, n)
        &&& n.vfs_cache_mode@ == o.vfs_cache_mode@
        &&& n.cache_dir@ == o.cache_dir@
        &&& n.vol_name@ == o.vol_name@
        &&& n.network_mode == o.network_mode
        &&& n.read_only == o.read_only
        &&& n.rc_enabled
        &&& n.rc_port == port
        &&& pair_views(n.settings@) == table_insert(
            table_insert(pair_views(o.settings@), "rc"@, "1"@),
            "rc-port"@,
            decimal(port as nat),
        )
    }
}

fn legacy_text(s: &Vec<(String, String)>, k: &str, old: &String) -> (r: String)
    ensures
        r@ == legacy_str(pair_views(s@), k@, old@),
{
    match table_value(s, k) {
        Some(v) => v.clone(),
        None => old.clone(),
    }
}

fn legacy_flag(s: &Vec<(String, String)>, k: &str, old: bool) -> (r: bool)
    ensures
        r == legacy_bool(pair_views(s@), k@, old),
{
    match table_value(s, k) {
        Some(v) => truthy(v.as_str()),
        None => old,
    }
}

fn legacy_rc_port(s: &Vec<(String, String)>, old: u16) -> (r: u16)
    ensures
        r == legacy_port(pair_views(s@), old),
{
    match table_value(s, "rc-port") {
        Some(v) => match parse_bounded(chars_of(v.as_str()).as_slice(), 0xffff) {
            Some(n) => if n != 0 {
                n as u16
            } else {
                old
            },
            None => old,
        },
        None => old,
    }
}

/// Brings the older fields of a profile in line with its settings.
pub fn sync_legacy(profile: &mut MountProfile)
    ensures
        synced(*old(profile), *final(profile)),
{
    let vfs = legacy_text(&profile.settings, "vfs-cache-mode", &profile.vfs_cache_mode);
    let cache = legacy_text(&profile.settings, "cache-dir", &profile.cache_dir);
    let vol = legacy_text(&profile.settings, "volname", &profile.vol_name);
    let network = legacy_flag(&profile.settings, "network-mode", profile.network_mode);
    let read_only = legacy_flag(&profile.settings, "read-only", profile.read_only);
    let rc = legacy_flag(&profile.settings, "rc", profile.rc_enabled);
    let port = legacy_rc_port(&profile.settings, profile.rc_port);
    profile.vfs_cache_mode = vfs;
    profile.cache_dir = cache;
    profile.vol_name = vol;
    profile.network_mode = network;
    profile.read_only = read_only;
    profile.rc_enabled = rc;
    profile.rc_port = port;
}

/// The port of an rc address, when the part after its last colon is one.
pub fn port_of_addr(addr: &str) -> (r: Option<u16>)
    ensures
        r == addr_port(addr@),
{
    let a = chars_of(addr);
    let start: usize = match rfind_char(a.as_slice(), ':') {
        Some(c) => c + 1,
        None => 0,
    };
    proof {
        if start > 0 {
            lemma_last_index_bound(a@, ':');
        }
    }
    let seg = string_of_range(a.as_slice(), start, a.len());
    assert(a@.subrange(start as int, a@.len() as int) == a@.skip(start as int));
    assert(a@.skip(0) == a@);
    match parse_bounded(chars_of(seg.as_str()).as_slice(), 0xffff) {
        Some(n) => Some(n as u16),
        None => None,
    }
}

/// The remote-control ports in use, apart from the profile `except_id`:
/// those of the other saved profiles, then those of the running rclone
/// processes (`rc_addrs`).
pub fn used_ports(profiles: &[MountProfile], except_id: &str, rc_addrs: &[String]) -> (r: Vec<u16>)
    ensures
        r@ == profile_ports(profiles@, except_id@) + addr_ports(views(rc_addrs@)),
{
    let mut r: Vec<u16> = Vec::new();
    let mut i: usize = 0;
    let ex = chars_of(except_id);
    while i < profiles.len()
        invariant
            i <= profiles@.len(),
            ex@ == except_id@,
            r@ == profile_ports(profiles@.take(i as int), except_id@),
        decreases profiles.len() - i,
    {
        let p = &profiles[i];
        assert(profiles@.take(i + 1).drop_last() == profiles@.take(i as int));
        assert(profiles@.take(i + 1).last() == *p);
        let id = chars_of(p.id.as_str());
        if !eq_chars(id.as_slice(), ex.as_slice()) {
            let ghost before = r@;
            let on = p.rc_enabled || match table_value(&p.settings, "rc") {
                Some(v) => truthy(v.as_str()),
                None => false,
            };
            if on && p.rc_port > 0 {
                r.push(p.rc_port);
            }
            let ghost mid = r@;
            match table_value(&p.settings, "rc-port") {
                Some(v) => match parse_bounded(chars_of(v.as_str()).as_slice(), 0xffff) {
                    Some(n) => if n > 0 {
                        r.push(n as u16);
                    },
                    None => {},
                },
                None => {},
            }
            assert(r@ =~= before + ports_of(*p));
        }
        i = i + 1;
    }
    assert(profiles@.take(profiles@.len() as int) == profiles@);
    let ghost base = r@;
    let ghost av = views(rc_addrs@);
    let mut j: usize = 0;
    while j < rc_addrs.len()
        invariant
            j <= rc_addrs@.len(),
            av == views(rc_addrs@),
            r@ == base + addr_ports(av.take(j as int)),
        decreases rc_addrs.len() - j,
    {
        assert(av.take(j + 1).drop_last() == av.take(j as int));
        assert(av.take(j + 1).last() == rc_addrs@[j as int]@);
        match port_of_addr(rc_addrs[j].as_str()) {
            Some(n) => if n > 0 {
                r.push(n);
            },
            None => {},
        }
        assert(r@ =~= base + addr_ports(av.take(j + 1)));
        j = j + 1;
    }
    assert(av.take(av.len() as int) == av);
    r
}

/// Whether `used` holds `port`.
fn holds(used: &[u16], port: u16) -> (r: bool)
    ensures
        r == used@.contains(port),
{
    let mut i: usize = 0;
    while i < used.len()
        invariant
            i <= used@.len(),
            forall|j: int| 0 <= j < i ==> used@[j] != port,
        decreases used.len() - i,
    {
        if used[i] == port {
            return true;
        }
        i = i + 1;
    }
    false
}

/// The first port from `preferred` (5572 when 0) that `used` does not hold,
/// moving one port up at a time, from 65535 round to 1024, and never below
/// 1024: whenever some port from 1024 up is free, the port given is free.
pub fn free_port(preferred: u16, used: &[u16]) -> (r: u16)
    ensures
        r == free_port_spec(preferred, used@),
{
    let mut port: u16 = if preferred == 0 {
        5572
    } else {
        preferred
    };
    let mut k: u32 = 0;
    while k < 64513
        invariant
            k <= 64513,
            free_port_spec(preferred, used@) == probe(port, used@, (64513 - k) as nat),
        decreases 64513 - k,
    {
        if !holds(used, port) {
            return port;
        }
        if port == 0xffff {
            port = 1024;
        } else if port + 1 < 1024 {
            port = 5572;
        } else {
            port = port + 1;
        }
        k = k + 1;
    }
    port
}

/// When remote control is on, moves the profile to a free port (see
/// `free_port`) and records port and switch in its settings.
pub fn assign_rc_port(profile: &mut MountProfile, used: &[u16])
    ensures
        port_assigned(*old(profile), *final(profile), used@),
{
    let on = profile.rc_enabled || match table_value(&profile.settings, "rc") {
        Some(v) => truthy(v.as_str()),
        None => false,
    };
    if !on {
        return;
    }
    let fallback: u16 = if profile.rc_port == 0 {
        5572
    } else {
        profile.rc_port
    };
    let preferred: u16 = match table_value(&profile.settings, "rc-port") {
        Some(v) => match parse_bounded(chars_of(v.as_str()).as_slice(), 0xffff) {
            Some(n) => if n > 0 {
                n as u16
            } else {
                fallback
            },
            None => fallback,
        },
        None => fallback,
    };
    let port = free_port(preferred, used);
    profile.rc_enabled = true;
    profile.rc_port = port;
    table_set(&mut profile.settings, "rc".to_string(), "1".to_string());
    table_set(&mut profile.settings, "rc-port".to_string(), decimal_string(port as u64));
}

// ---------------------------------------------------------------------------
// Mount points and sources

/// `s` without its trailing slashes and backslashes.
pub open spec fn trim_end_slashes(s: Seq<char>) -> Seq<char>
    decreases s.len(),
{
    if s.len() > 0 && (s.last() == '\\' || s.last() == '/') {
        trim_end_slashes(s.drop_last())
    } else {
        s
    }
}

/// A mount point compared without case, surrounding whitespace or a trailing separator.
pub open spec fn norm_point_spec(v: Seq<char>) -> Seq<char> {
    lower_seq(trim_end_slashes(trim(v)))
}

/// A source `remote:path` compared without case, surrounding whitespace,
/// separators at either end of the path, or the kind of slash.
pub open spec fn norm_source_spec(v: Seq<char>) -> Seq<char> {
    let w = forward_slashes(trim_end_slashes(trim(v)));
    let remote = match first_index(w, ':') {
        Some(c) => w.take(c),
        None => w,
    };
    let path = match first_index(w, ':') {
        Some(c) => w.skip(c + 1),
        None => Seq::empty(),
    };
    lower_seq(remote) + seq![':'] + lower_seq(trim_start_char(trim_end_char(path, '/'), '/'))
}

/// `s` holds no backslash.
pub open spec fn no_backslash(s: Seq<char>) -> bool {
    forall|j: int| 0 <= j < s.len() ==> #[trigger] s[j] != '\\'
}

proof fn lemma_trim_start_fwd(s: Seq<char>)
    ensures
        trim_start(forward_slashes(s)) == forward_slashes(trim_start(s)),
    decreases s.len(),
{
    if s.len() > 0 {
        assert(forward_slashes(s).drop_first() =~= forward_slashes(s.drop_first()));
        lemma_trim_start_fwd(s.drop_first());
    }
}

proof fn lemma_trim_end_fwd(s: Seq<char>)
    ensures
        trim_end(forward_slashes(s)) == forward_slashes(trim_end(s)),
    decreases s.len(),
{
    if s.len() > 0 {
        assert(forward_slashes(s).drop_last() =~= forward_slashes(s.drop_last()));
        lemma_trim_end_fwd(s.drop_last());
    }
}

proof fn lemma_trim_end_slashes_fwd(s: Seq<char>)
    ensures
        trim_end_slashes(forward_slashes(s)) == forward_slashes(trim_end_slashes(s)),
    decreases s.len(),
{
    if s.len() > 0 {
        assert(forward_slashes(s).drop_last() =~= forward_slashes(s.drop_last()));
        lemma_trim_end_slashes_fwd(s.drop_last());
    }
}

proof fn lemma_trim_end_char_keeps(s: Seq<char>, c: char)
    requires
        no_backslash(s),
    ensures
        no_backslash(trim_end_char(s, c)),
    decreases s.len(),
{
    if s.len() > 0 && s.last() == c {
        lemma_trim_end_char_keeps(s.drop_last(), c);
    }
}

proof fn lemma_trim_start_char_keeps(s: Seq<char>, c: char)
    requires
        no_backslash(s),
    ensures
        no_backslash(trim_start_char(s, c)),
    decreases s.len(),
{
    if s.len() > 0 && s[0] == c {
        lemma_trim_start_char_keeps(s.drop_first(), c);
    }
}

proof fn lemma_lower_keeps(s: Seq<char>)
    requires
        no_backslash(s),
    ensures
        no_backslash(lower_seq(s)),
{
    assert forall|j: int| 0 <= j < lower_seq(s).len() implies #[trigger] lower_seq(s)[j] != '\\' by {
        let c = s[j];
        if 'A' <= c && c <= 'Z' {
            assert((c as u32) + 32 >= 97);
            assert(((c as u32) + 32) as char != '\\');
        }
    }
}

/// A normalized source never holds a backslash: `\` and `/` are the same
/// separator.
pub proof fn law_norm_source_forward(v: Seq<char>)
    ensures
        no_backslash(norm_source_spec(v)),
{
    let t = trim_end_slashes(trim(v));
    let w = forward_slashes(t);
    assert(no_backslash(w));
    let remote = match first_index(w, ':') {
        Some(c) => w.take(c),
        None => w,
    };
    let path = match first_index(w, ':') {
        Some(c) => w.skip(c + 1),
        None => Seq::empty(),
    };
    crate::text::lemma_first_index_range(w, ':');
    assert(no_backslash(remote));
    assert(no_backslash(path));
    lemma_trim_end_char_keeps(path, '/');
    lemma_trim_start_char_keeps(trim_end_char(path, '/'), '/');
    lemma_lower_keeps(remote);
    lemma_lower_keeps(trim_start_char(trim_end_char(path, '/'), '/'));
    let r = lower_seq(remote) + seq![':'] + lower_seq(trim_start_char(trim_end_char(path, '/'), '/'));
    assert forall|j: int| 0 <= j < r.len() implies #[trigger] r[j] != '\\' by {
        if j < lower_seq(remote).len() {
            assert(r[j] == lower_seq(remote)[j]);
        } else if j > lower_seq(remote).len() {
            assert(r[j] == lower_seq(trim_start_char(trim_end_char(path, '/'), '/'))[j - lower_seq(remote).len() - 1]);
        }
    }
}

/// Writing a source's separators as `/` does not change it: the
/// normalized source of `v` is that of `v` with every `\` made `/`.
pub proof fn law_norm_source_separators(v: Seq<char>)
    ensures
        norm_source_spec(forward_slashes(v)) == norm_source_spec(v),
{
    lemma_trim_start_fwd(v);
    lemma_trim_end_fwd(trim_start(v));
    lemma_trim_end_slashes_fwd(trim(v));
    let x = trim_end_slashes(trim(v));
    assert(forward_slashes(forward_slashes(x)) =~= forward_slashes(x));
}

/// Two sources that differ only in writing separators as `\` or `/` are
/// the same source, so a folder mounted as `gdrive:Photos/2024` refuses a
/// second mount of `gdrive:Photos\2024`.
pub proof fn law_norm_source_same_folder(a: Seq<char>, b: Seq<char>)
    requires
        a.len() == b.len(),
        forall|i: int|
            0 <= i < a.len() ==> #[trigger] a[i] == b[i] || ((a[i] == '\\' || a[i] == '/') && (b[i] == '\\' || b[i]
                == '/')),
    ensures
        norm_source_spec(a) == norm_source_spec(b),
{
    assert(forward_slashes(a) =~= forward_slashes(b));
    law_norm_source_separators(a);
    law_norm_source_separators(b);
}

/// Why a running rclone process stops `p` from mounting, if it does.
pub open spec fn conflict(p: MountProfile, inst: ParsedRclone) -> Option<Seq<char>> {
    if inst.verb@ != "mount"@ {
        None
    } else if (match inst.mount_point {
        Some(m) => norm_point_spec(m@) == norm_point_spec(p.mount_point@),
        None => false,
    }) {
        Some(trim(p.mount_point@) + " is already mounted."@)
    } else if (match inst.remote {
        Some(r) => norm_source_spec(r@) == norm_source_spec(source_spec_of(p)),
        None => false,
    }) {
        Some(source_spec_of(p) + " is already mounted."@)
    } else {
        None
    }
}

/// The first running process that stops `p` from mounting.
pub open spec fn first_conflict(p: MountProfile, insts: Seq<ParsedRclone>) -> Option<Seq<char>>
    decreases insts.len(),
{
    if insts.len() == 0 {
        None
    } else {
        match conflict(p, insts[0]) {
            Some(e) => Some(e),
            None => first_conflict(p, insts.drop_first()),
        }
    }
}

fn trim_end_slashes_len(s: &[char]) -> (n: usize)
    ensures
        n <= s@.len(),
        trim_end_slashes(s@) == s@.take(n as int),
{
    let mut n = s.len();
    assert(s@.take(s@.len() as int) == s@);
    while n > 0 && (s[n - 1] == '\\' || s[n - 1] == '/')
        invariant
            n <= s@.len(),
            trim_end_slashes(s@) == trim_end_slashes(s@.take(n as int)),
        decreases n,
    {
        assert(s@.take(n as int).drop_last() == s@.take(n - 1));
        n = n - 1;
    }
    n
}

/// A mount point for comparison: trimmed, without a trailing separator,
/// in ASCII lower case.
pub fn norm_point(value: &str) -> (r: Vec<char>)
    ensures
        r@ == norm_point_spec(value@),
{
    let t = trim_chars(chars_of(value).as_slice());
    let n = trim_end_slashes_len(t.as_slice());
    let mut u: Vec<char> = Vec::new();
    let mut i: usize = 0;
    while i < n
        invariant
            n <= t@.len(),
            i <= n,
            u@ == t@.take(i as int),
        decreases n - i,
    {
        u.push(t[i]);
        assert(t@.take(i + 1) == t@.take(i as int).push(t@[i as int]));
        i = i + 1;
    }
    lower_all(u.as_slice())
}

/// A source `remote:path` for comparison (see `norm_source_spec`).
pub fn norm_source(value: &str) -> (r: Vec<char>)
    ensures
        r@ == norm_source_spec(value@),
{
    let t = trim_chars(chars_of(value).as_slice());
    let n = trim_end_slashes_len(t.as_slice());
    let mut w: Vec<char> = Vec::new();
    let mut i: usize = 0;
    while i < n
        invariant
            n <= t@.len(),
            i <= n,
            w@ == forward_slashes(t@.take(i as int)),
        decreases n - i,
    {
        let c = if t[i] == '\\' {
            '/'
        } else {
            t[i]
        };
        w.push(c);
        assert(w@ =~= forward_slashes(t@.take(i + 1)));
        i = i + 1;
    }
    let (remote_end, path_start): (usize, usize) = match find_char(w.as_slice(), ':') {
        Some(c) => (c, c + 1),
        None => (w.len(), w.len()),
    };
    let mut remote: Vec<char> = Vec::new();
    let mut k: usize = 0;
    while k < remote_end
        invariant
            remote_end <= w@.len(),
            k <= remote_end,
            remote@ == w@.take(k as int),
        decreases remote_end - k,
    {
        remote.push(w[k]);
        assert(w@.take(k + 1) == w@.take(k as int).push(w@[k as int]));
        k = k + 1;
    }
    assert(w@.take(w@.len() as int) == w@);
    let mut path_v: Vec<char> = Vec::new();
    let mut k = path_start;
    while k < w.len()
        invariant
            path_start <= k <= w@.len(),
            path_v@ == w@.subrange(path_start as int, k as int),
        decreases w.len() - k,
    {
        path_v.push(w[k]);
        assert(w@.subrange(path_start as int, k + 1) == w@.subrange(path_start as int, k as int).push(w@[k as int]));
        k = k + 1;
    }
    assert(path_v@ == (match first_index(w@, ':') {
        Some(c) => w@.skip(c + 1),
        None => Seq::<char>::empty(),
    }));
    let e = trim_end_char_len(path_v.as_slice(), path_v.len(), '/');
    assert(path_v@.take(path_v@.len() as int) == path_v@);
    let mut b: usize = 0;
    assert(path_v@.take(e as int).skip(0) == path_v@.take(e as int));
    while b < e && path_v[b] == '/'
        invariant
            b <= e <= path_v@.len(),
            trim_start_char(path_v@.take(e as int), '/') == trim_start_char(path_v@.take(e as int).skip(b as int), '/'),
        decreases e - b,
    {
        assert(path_v@.take(e as int).skip(b as int).drop_first() == path_v@.take(e as int).skip(b + 1));
        b = b + 1;
    }
    let mut core: Vec<char> = Vec::new();
    let mut k = b;
    while k < e
        invariant
            b <= k <= e <= path_v@.len(),
            core@ == path_v@.subrange(b as int, k as int),
        decreases e - k,
    {
        core.push(path_v[k]);
        assert(path_v@.subrange(b as int, k + 1) == path_v@.subrange(b as int, k as int).push(path_v@[k as int]));
        k = k + 1;
    }
    assert(path_v@.take(e as int).skip(b as int) == path_v@.subrange(b as int, e as int));
    let mut r = lower_all(remote.as_slice());
    r.push(':');
    let lp = lower_all(core.as_slice());
    let ghost r0 = r@;
    let mut k: usize = 0;
    while k < lp.len()
        invariant
            k <= lp@.len(),
            r@ == r0 + lp@.take(k as int),
        decreases lp.len() - k,
    {
        r.push(lp[k]);
        assert(lp@.take(k + 1) == lp@.take(k as int).push(lp@[k as int]));
        k = k + 1;
    }
    assert(lp@.take(lp@.len() as int) == lp@);
    r
}

/// Refuses a mount whose mount point or source a running `rclone mount`
/// already serves; the error names the one in use.
pub fn refuse_double_mount(profile: &MountProfile, running: &[ParsedRclone]) -> (r: Result<(), String>)
    ensures
        match r {
            Ok(()) => first_conflict(*profile, running@) is None,
            Err(e) => first_conflict(*profile, running@) == Some(e@),
        },
{
    let point = norm_point(profile.mount_point.as_str());
    let spec_src = profile.source_spec();
    let source = norm_source(spec_src.as_str());
    let mut i: usize = 0;
    assert(running@.skip(0) == running@);
    while i < running.len()
        invariant
            i <= running@.len(),
            point@ == norm_point_spec(profile.mount_point@),
            source@ == norm_source_spec(source_spec_of(*profile)),
            spec_src@ == source_spec_of(*profile),
            first_conflict(*profile, running@) == first_conflict(*profile, running@.skip(i as int)),
        decreases running.len() - i,
    {
        let inst = &running[i];
        assert(running@.skip(i as int)[0] == *inst);
        assert(running@.skip(i as int).drop_first() == running@.skip(i + 1));
        let verb = chars_of(inst.verb.as_str());
        if eq_str(verb.as_slice(), "mount") {
            match &inst.mount_point {
                Some(m) => {
                    let mp = norm_point(m.as_str());
                    if eq_chars(mp.as_slice(), point.as_slice()) {
                        let mut e = trim_str(profile.mount_point.as_str());
                        push_str(&mut e, " is already mounted.");
                        return Err(e);
                    }
                },
                None => {},
            }
            match &inst.remote {
                Some(rm) => {
                    let rs = norm_source(rm.as_str());
                    if eq_chars(rs.as_slice(), source.as_slice()) {
                        let mut e = spec_src.clone();
                        push_str(&mut e, " is already mounted.");
                        return Err(e);
                    }
                },
                None => {},
            }
        }
        i = i + 1;
    }
    Ok(())
}

// ---------------------------------------------------------------------------
// Cache size advice

/// The suggested cache size is never above this many gigabytes.
pub const CACHE_CAP_GB: u64 = 100;

/// A suggested `--vfs-cache-max-size`.
#[derive(Debug, Clone)]
pub struct CacheAdvice {
    pub value: String,
    pub label: String,
    pub reason: String,
}

/// Whole gigabytes (GiB) in `bytes`.
pub open spec fn whole_gb(bytes: u64) -> nat {
    (bytes / 1073741824) as nat
}

/// A tenth of the free space in gigabytes (GiB), rounded to the nearest
/// whole number (halves up).
pub open spec fn tenth_gb(free: u64) -> nat {
    let q = free / 10737418240;
    let r = free % 10737418240;
    if r >= 5368709120 {
        (q + 1) as nat
    } else {
        q as nat
    }
}

/// A tenth of the free space in whole gigabytes, at least 1 and at most 100.
pub open spec fn advised_gb(free: u64) -> nat {
    let tenth = tenth_gb(free);
    if tenth < 1 {
        1
    } else if tenth > 100 {
        100
    } else {
        tenth
    }
}

pub open spec fn advice_spec(free: Option<u64>, a: CacheAdvice) -> bool {
    match free {
        None => {
            &&& a.value@ == "20G"@
            &&& a.label@ == "20 GB"@
            &&& a.reason@ == "20 GB when the free space on this PC could not be read. Never above "@
                + decimal(100) + " GB."@
        },
        Some(f) => {
            &&& a.value@ == decimal(advised_gb(f)) + "G"@
            &&& a.label@ == decimal(advised_gb(f)) + " GB"@
            &&& a.reason@ == "10% of the "@ + decimal(whole_gb(f)) + " GB free on this PC, and never above "@
                + decimal(100) + " GB."@
        },
    }
}

/// The cache size to suggest for a new mount, from the free bytes on the
/// disk of the user profile (`None` when they could not be read): 10% of the
/// free space rounded to whole gigabytes, at least 1 GB and at most 100 GB; 20 GB
/// when the free space is unknown.
pub fn cache_advice(free: Option<u64>) -> (a: CacheAdvice)
    ensures
        advice_spec(free, a),
{
    let cap = decimal_string(CACHE_CAP_GB);
    match free {
        None => {
            let mut reason = "20 GB when the free space on this PC could not be read. Never above ".to_string();
            push_str(&mut reason, cap.as_str());
            push_str(&mut reason, " GB.");
            CacheAdvice { value: "20G".to_string(), label: "20 GB".to_string(), reason }
        },
        Some(f) => {
            let gb: u64 = 1024 * 1024 * 1024;
            let free_gb = f / gb;
            let tenth = if f % 10737418240 >= 5368709120 { f / 10737418240 + 1 } else { f / 10737418240 };
            let share = if tenth < 1 {
                1
            } else if tenth > CACHE_CAP_GB {
                CACHE_CAP_GB
            } else {
                tenth
            };
            let n = decimal_string(share);
            let mut value = n.clone();
            push_str(&mut value, "G");
            let mut label = n.clone();
            push_str(&mut label, " GB");
            let mut reason = "10% of the ".to_string();
            let fg = decimal_string(free_gb);
            push_str(&mut reason, fg.as_str());
            push_str(&mut reason, " GB free on this PC, and never above ");
            push_str(&mut reason, cap.as_str());
            push_str(&mut reason, " GB.");
            CacheAdvice { value, label, reason }
        },
    }
}

// ---------------------------------------------------------------------------
// Commands built from a profile

/// A command line with the schedule's `--bwlimit` added when it has none.
pub open spec fn with_bwlimit(argv: Seq<Seq<char>>, s: BandwidthSchedule) -> Seq<Seq<char>> {
    match timetable_spec(s) {
        Some(t) => if argv.contains("--bwlimit"@) {
            argv
        } else {
            argv.push("--bwlimit"@).push(t)
        },
        None => argv,
    }
}

/// Each argument quoted, joined by spaces.
pub open spec fn quoted_line(argv: Seq<Seq<char>>) -> Seq<char> {
    join_words(Seq::new(argv.len(), |i: int| quote_spec(argv[i])))
}

/// Quotes each argument with `quote_win` and joins them with spaces.
pub fn join_quoted(argv: &Vec<String>) -> (r: String)
    ensures
        r@ == quoted_line(views(argv@)),
{
    let ghost q = Seq::new(argv@.len(), |i: int| quote_spec(argv@[i]@));
    let mut r = String::new();
    let mut i: usize = 0;
    while i < argv.len()
        invariant
            i <= argv@.len(),
            q == Seq::new(argv@.len(), |i: int| quote_spec(argv@[i]@)),
            r@ == join_words(q.take(i as int)),
        decreases argv.len() - i,
    {
        let w = quote_win(argv[i].as_str());
        let ghost before = r@;
        assert(q.take(i + 1).drop_last() == q.take(i as int));
        if i > 0 {
            string_push(&mut r, ' ');
        }
        push_str(&mut r, w.as_str());
        proof {
            if i == 0 {
                assert(r@ =~= w@);
            } else {
                assert(r@ =~= before + seq![' '] + w@);
            }
        }
        i = i + 1;
    }
    assert(q.take(q.len() as int) == q);
    assert(q == Seq::new(views(argv@).len(), |i: int| quote_spec(views(argv@)[i])));
    r
}

/// The command a profile would run, quoted as one line, with the schedule's
/// bandwidth limit.
pub fn preview_command(profile: &MountProfile, rclone: Option<&str>, schedule: &BandwidthSchedule) -> (r: Result<String, String>)
    ensures
        match rclone {
            None => r matches Err(e) && e@ == "rclone was not found on PATH."@,
            Some(p) => r matches Ok(s) && s@ == quoted_line(with_bwlimit(argv_spec(*profile, p@), *schedule)),
        },
{
    let rc = match rclone {
        Some(p) => p,
        None => return Err("rclone was not found on PATH.".to_string()),
    };
    let mut argv = profile.argv(rc);
    append_bwlimit(&mut argv, schedule);
    Ok(join_quoted(&argv))
}

// ---------------------------------------------------------------------------
// Saving, deleting and starting profiles

/// The index of the first profile with id `id`.
pub open spec fn find_profile(ps: Seq<MountProfile>, id: Seq<char>) -> int
    decreases ps.len(),
{
    if ps.len() == 0 {
        -1
    } else if ps[0].id@ == id {
        0
    } else {
        let r = find_profile(ps.drop_first(), id);
        if r < 0 {
            -1
        } else {
            r + 1
        }
    }
}

proof fn lemma_find_profile(ps: Seq<MountProfile>, id: Seq<char>)
    ensures
        -1 <= find_profile(ps, id) < ps.len(),
        find_profile(ps, id) >= 0 ==> ps[find_profile(ps, id)].id@ == id,
        find_profile(ps, id) >= 0 ==> forall|k: int| 0 <= k < find_profile(ps, id) ==> ps[k].id@ != id,
        find_profile(ps, id) == -1 ==> forall|k: int| 0 <= k < ps.len() ==> ps[k].id@ != id,
    decreases ps.len(),
{
    if ps.len() > 0 && ps[0].id@ != id {
        lemma_find_profile(ps.drop_first(), id);
        assert forall|k: int| 1 <= k < ps.len() implies ps[k] == ps.drop_first()[k - 1] by {}
    }
}

/// Index of the first profile with id `id`.
pub fn position_of(profiles: &[MountProfile], id: &str) -> (r: Option<usize>)
    ensures
        match r {
            Some(j) => find_profile(profiles@, id@) == j as int,
            None => find_profile(profiles@, id@) == -1,
        },
        r is Some ==> r.unwrap() < profiles@.len(),
{
    let key = chars_of(id);
    let mut i: usize = 0;
    while i < profiles.len()
        invariant
            i <= profiles@.len(),
            key@ == id@,
            forall|k: int| 0 <= k < i ==> profiles@[k].id@ != id@,
        decreases profiles.len() - i,
    {
        let c = chars_of(profiles[i].id.as_str());
        if eq_chars(c.as_slice(), key.as_slice()) {
            proof {
                lemma_find_profile(profiles@, id@);
                let f = find_profile(profiles@, id@);
                assert(f == i as int) by {
                    if f < i as int && f >= 0 {
                    } else if f > i as int {
                        assert(profiles@[i as int].id@ == id@);
                    }
                }
            }
            return Some(i);
        }
        i = i + 1;
    }
    proof {
        lemma_find_profile(profiles@, id@);
    }
    None
}

/// The list without the profiles whose id is `id`.
pub open spec fn without_id(ps: Seq<MountProfile>, id: Seq<char>) -> Seq<MountProfile>
    decreases ps.len(),
{
    if ps.len() == 0 {
        ps
    } else if ps.last().id@ == id {
        without_id(ps.drop_last(), id)
    } else {
        without_id(ps.drop_last(), id).push(ps.last())
    }
}

/// The saved profiles left after deleting `id`.
pub fn delete_profile(profiles: Vec<MountProfile>, id: &str) -> (r: Vec<MountProfile>)
    ensures
        r@ == without_id(profiles@, id@),
{
    let key = chars_of(id);
    let mut rest = profiles;
    let ghost all = rest@;
    let ghost mut taken: Seq<MountProfile> = Seq::empty();
    let mut kept: Vec<MountProfile> = Vec::new();
    while rest.len() > 0
        invariant
            key@ == id@,
            all == taken + rest@,
            kept@ == without_id(taken, id@),
        decreases rest.len(),
    {
        let ghost before = rest@;
        let p = rest.remove(0);
        assert(before =~= seq![p] + rest@);
        let c = chars_of(p.id.as_str());
        let ghost t0 = taken;
        proof {
            taken = taken.push(p);
        }
        assert(taken.drop_last() == t0);
        assert(taken.last() == p);
        if !eq_chars(c.as_slice(), key.as_slice()) {
            kept.push(p);
        }
        assert(all =~= taken + rest@);
    }
    assert(taken =~= all);
    kept
}

/// The list with `p` in place of the first profile with its id, or added.
pub open spec fn upserted(ps: Seq<MountProfile>, p: MountProfile) -> Seq<MountProfile> {
    let j = find_profile(ps, p.id@);
    if j >= 0 {
        ps.update(j, p)
    } else {
        ps.push(p)
    }
}

/// The shape `Uuid::to_string` gives: 36 lower-case hex digits and dashes,
/// version 4.
pub open spec fn uuid_shape(s: Seq<char>) -> bool {
    &&& s.len() == 36
    &&& forall|i: int| 0 <= i < 36 ==> (if i == 8 || i == 13 || i == 18 || i == 23 {
        #[trigger] s[i] == '-'
    } else {
        ('0' <= s[i] && s[i] <= '9') || ('a' <= s[i] && s[i] <= 'f')
    })
    &&& s[14] == '4'
}

/// A fresh random id: `uuid::Uuid::new_v4`, written by its `Display`
/// impl. The contract claims the hyphenated lower-case form of a version 4
/// UUID; which bits are random is left unsaid.
#[verifier::external_body]
fn new_uuid() -> (s: String)
    ensures
        uuid_shape(s@),
{
    uuid::Uuid::new_v4().to_string()
}

/// `n` is `o` with the defaults of a saved profile: the id given, port 5572
/// when none, cache mode `full` when none.
pub open spec fn defaults_applied(o: MountProfile, n: MountProfile, id: Seq<char>) -> bool {
    &&& n.id@ == id
    &&& n.rc_port == (if o.rc_port == 0 { 5572 } else { o.rc_port })
    &&& n.vfs_cache_mode@ == (if o.vfs_cache_mode@.len() == 0 { "full"@ } else { o.vfs_cache_mode@ })
    &&& n.name@ == o.name@
    &&& n.remote@ == o.remote@
    &&& n.remote_path@ == o.remote_path@
    &&& n.mount_point@ == o.mount_point@
    &&& n.extra_args@ == o.extra_args@
    &&& n.start_on_login == o.start_on_login
    &&& n.background == o.background
    &&& n.cache_dir@ == o.cache_dir@
    &&& n.vol_name@ == o.vol_name@
    &&& n.network_mode == o.network_mode
    &&& n.read_only == o.read_only
    &&& n.rc_enabled == o.rc_enabled
    &&& n.settings@ == o.settings@
}

/// The ports in use for profile `id`.
pub open spec fn used_for(ps: Seq<MountProfile>, id: Seq<char>, addrs: Seq<Seq<char>>) -> Seq<u16> {
    profile_ports(ps, id) + addr_ports(addrs)
}

/// Prepares a profile for saving and puts it in the list: a fresh id when it
/// has none, port 5572 and cache mode `full` by default, older fields in line
/// with the settings, a free remote-control port (apart from the other saved
/// profiles and the running processes' `rc_addrs`). Returns the profile and
/// the new list.
pub fn upsert_profile(profile: MountProfile, profiles: Vec<MountProfile>, rc_addrs: &[String]) -> (r: (MountProfile, Vec<MountProfile>))
    ensures
        profile.id@.len() > 0 ==> r.0.id@ == profile.id@,
        profile.id@.len() == 0 ==> uuid_shape(r.0.id@),
        exists|p1: MountProfile, p2: MountProfile|
            defaults_applied(profile, p1, r.0.id@) && synced(p1, p2)
                && port_assigned(p2, r.0, used_for(profiles@, r.0.id@, views(rc_addrs@))),
        same_profiles(r.1@, upserted(profiles@, r.0)),
{
    let mut p = profile;
    if p.id.as_str().is_empty() {
        p.id = new_uuid();
    }
    if p.rc_port == 0 {
        p.rc_port = 5572;
    }
    if p.vfs_cache_mode.as_str().is_empty() {
        p.vfs_cache_mode = "full".to_string();
    }
    let ghost p1 = p;
    sync_legacy(&mut p);
    let ghost p2 = p;
    let used = used_ports(profiles.as_slice(), p.id.as_str(), rc_addrs);
    assign_rc_port(&mut p, used.as_slice());
    assert(defaults_applied(profile, p1, p.id@));
    let mut list = profiles;
    match position_of(list.as_slice(), p.id.as_str()) {
        Some(j) => {
            list.set(j, copy_profile(&p));
        },
        None => {
            list.push(copy_profile(&p));
        },
    }
    (p, list)
}

/// What starting a mount needs done: the profile as it will run (its port
/// may have moved), whether the port moved, and the command to spawn.
#[derive(Debug)]
pub struct MountStart {
    pub profile: MountProfile,
    pub port_changed: bool,
    pub argv: Vec<String>,
}

/// The outcome of starting profile `id`.
pub open spec fn start_spec(
    id: Seq<char>,
    ps: Seq<MountProfile>,
    rclone: Option<Seq<char>>,
    running: Seq<ParsedRclone>,
    addrs: Seq<Seq<char>>,
    s: BandwidthSchedule,
    r: Result<MountStart, String>,
) -> bool {
    let j = find_profile(ps, id);
    if j < 0 {
        r matches Err(e) && e@ == "Mount profile not found."@
    } else if rclone is None {
        r matches Err(e) && e@ == "rclone was not found on PATH."@
    } else if trim(ps[j].mount_point@).len() == 0 {
        r matches Err(e) && e@ == "Set a mount point first."@
    } else if first_conflict(ps[j], running) is Some {
        r matches Err(e) && Some(e@) == first_conflict(ps[j], running)
    } else {
        r matches Ok(m) && {
            &&& port_assigned(ps[j], m.profile, used_for(ps, id, addrs))
            &&& m.port_changed == (m.profile.rc_port != ps[j].rc_port)
            &&& views(m.argv@) == with_bwlimit(argv_spec(m.profile, rclone.unwrap()), s)
        }
    }
}

/// The checks and the command for starting a saved mount: the profile must
/// exist, rclone must be found, the mount point set, and no running rclone
/// (`running`) may already mount the same point or source; the profile is
/// then moved to a free remote-control port and its command built with the
/// bandwidth schedule.
pub fn start_mount(
    id: &str,
    profiles: &[MountProfile],
    rclone: Option<&str>,
    running: &[ParsedRclone],
    rc_addrs: &[String],
    schedule: &BandwidthSchedule,
) -> (r: Result<MountStart, String>)
    ensures
        start_spec(id@, profiles@, match rclone { Some(p) => Some(p@), None => None }, running@, views(rc_addrs@), *schedule, r),
{
    let j = match position_of(profiles, id) {
        Some(j) => j,
        None => return Err("Mount profile not found.".to_string()),
    };
    let mut profile = copy_profile(&profiles[j]);
    let rc = match rclone {
        Some(p) => p,
        None => return Err("rclone was not found on PATH.".to_string()),
    };
    let mp = trim_chars(chars_of(profile.mount_point.as_str()).as_slice());
    if mp.len() == 0 {
        return Err("Set a mount point first.".to_string());
    }
    match refuse_double_mount(&profiles[j], running) {
        Ok(()) => {},
        Err(e) => return Err(e),
    }
    let before = profile.rc_port;
    let used = used_ports(profiles, id, rc_addrs);
    assign_rc_port(&mut profile, used.as_slice());
    let mut argv = profile.argv(rc);
    append_bwlimit(&mut argv, schedule);
    Ok(MountStart { port_changed: profile.rc_port != before, profile, argv })
}

/// The name of the startup script of profile `id`.
pub fn startup_script(id: &str) -> (r: String)
    ensures
        r@ == "LiClone-"@ + id@ + ".vbs"@,
{
    let mut r = "LiClone-".to_string();
    push_str(&mut r, id);
    push_str(&mut r, ".vbs");
    r
}

/// The VBScript that starts a profile's mount at sign-in, without a window.
pub fn startup_vbs(profile: &MountProfile, rclone: &str) -> (r: String)
    ensures
        r@ == "Set sh = CreateObject(\"Wscript.Shell\")\r\nsh.Run \""@ + double_quotes(
            quoted_line(argv_spec(*profile, rclone@)),
        ) + "\", 0, False\r\n"@,
{
    let argv = profile.argv(rclone);
    let line = join_quoted(&argv);
    let lc = chars_of(line.as_str());
    let mut r = "Set sh = CreateObject(\"Wscript.Shell\")\r\nsh.Run \"".to_string();
    let ghost r0 = r@;
    let mut k: usize = 0;
    assert(lc@.take(0) =~= Seq::<char>::empty());
    while k < lc.len()
        invariant
            k <= lc@.len(),
            r@ == r0 + double_quotes(lc@.take(k as int)),
        decreases lc.len() - k,
    {
        let ch = lc[k];
        assert(lc@.take(k + 1).drop_last() == lc@.take(k as int));
        if ch == '"' {
            string_push(&mut r, '"');
            string_push(&mut r, '"');
        } else {
            string_push(&mut r, ch);
        }
        k = k + 1;
    }
    assert(lc@.take(lc@.len() as int) == lc@);
    push_str(&mut r, "\", 0, False\r\n");
    r
}

// ---------------------------------------------------------------------------
// Laws

proof fn lemma_probe_first_free(p: u16, used: Seq<u16>, k: nat, q: u16)
    requires
        1024 <= p <= q,
        q - p < k,
        !used.contains(q),
        forall|x: u16| p <= x < q ==> used.contains(x),
    ensures
        probe(p, used, k) == q,
    decreases q - p,
{
    if p < q {
        assert(used.contains(p));
        assert(port_step(p) == p + 1);
        lemma_probe_first_free((p + 1) as u16, used, (k - 1) as nat, q);
    }
}

/// The port reached from `p` (at least 1024) after `j` steps.
pub open spec fn port_after(p: u16, j: int) -> int {
    1024 + (p - 1024 + j) % 64512
}

proof fn lemma_port_after_step(p: u16, j: int)
    requires
        1024 <= p,
        0 <= j,
    ensures
        port_after(port_step(p), j) == port_after(p, j + 1),
{
    if p == 0xffff {
        assert((64512 + j) % 64512 == j % 64512) by (nonlinear_arith)
            requires
                0 <= j,
        ;
    }
}

/// When `probe` from `p` (at least 1024) ends on a port in use, every port
/// it passed was in use.
proof fn lemma_probe_covers(p: u16, used: Seq<u16>, k: nat)
    requires
        1024 <= p,
    ensures
        used.contains(probe(p, used, k)) ==> forall|j: int|
            0 <= j < k ==> #[trigger] used.contains(port_after(p, j) as u16),
    decreases k,
{
    if k > 0 && used.contains(p) {
        let n = port_step(p);
        assert(n >= 1024);
        lemma_probe_covers(n, used, (k - 1) as nat);
        if used.contains(probe(p, used, k)) {
            assert forall|j: int| 0 <= j < k implies #[trigger] used.contains(port_after(p, j) as u16) by {
                if j == 0 {
                    assert(port_after(p, 0) == p);
                } else {
                    lemma_port_after_step(p, j - 1);
                    assert(used.contains(port_after(n, j - 1) as u16));
                }
            }
        }
    }
}

/// Every port from 1024 up is reached from `p` (at least 1024) within 64512 steps.
proof fn lemma_port_after_reaches(p: u16, q: u16)
    requires
        1024 <= p,
        1024 <= q,
    ensures
        0 <= (if q >= p { q - p } else { q - p + 64512 }) < 64512,
        port_after(p, if q >= p { q - p } else { q - p + 64512 }) == q,
{
}

/// Remote control moves a profile to the next free port: when port `q` is
/// free and every port from `preferred` up to it is in use, the port chosen
/// is `q`.
pub proof fn law_free_port_is_next_free(preferred: u16, used: Seq<u16>, q: u16)
    requires
        1024 <= preferred <= q,
        !used.contains(q),
        forall|x: u16| preferred <= x < q ==> used.contains(x),
    ensures
        free_port_spec(preferred, used) == q,
{
    lemma_probe_first_free(preferred, used, port_tries(), q);
}

/// Each profile gets a port of its own: whenever some port from 1024 up is
/// free, the port chosen is not in use, going round from 65535 to 1024 where
/// need be.
pub proof fn law_free_port_is_free(preferred: u16, used: Seq<u16>, q: u16)
    requires
        1024 <= q,
        !used.contains(q),
    ensures
        !used.contains(free_port_spec(preferred, used)),
{
    let start: u16 = if preferred == 0 { 5572 } else { preferred };
    let r = free_port_spec(preferred, used);
    if used.contains(r) {
        assert(used.contains(start));
        let n: u16 = if start >= 1024 { start } else { port_step(start) };
        assert(n >= 1024);
        let k: nat = if start >= 1024 { port_tries() } else { (port_tries() - 1) as nat };
        assert(probe(n, used, k) == r);
        lemma_probe_covers(n, used, k);
        lemma_port_after_reaches(n, q);
        let j = if q >= n { q - n } else { q - n + 64512 };
        assert(used.contains(port_after(n, j) as u16));
        assert(false);
    }
}

proof fn lemma_probe_nonzero(p: u16, used: Seq<u16>, k: nat)
    requires
        p != 0,
    ensures
        probe(p, used, k) != 0,
    decreases k,
{
    if k > 0 && used.contains(p) {
        lemma_probe_nonzero(port_step(p), used, (k - 1) as nat);
    }
}

/// The port chosen is never 0.
pub proof fn law_free_port_nonzero(preferred: u16, used: Seq<u16>)
    ensures
        free_port_spec(preferred, used) != 0,
{
    lemma_probe_nonzero(if preferred == 0 { 5572 } else { preferred }, used, port_tries());
}

/// A free preferred port is kept.
pub proof fn law_free_port_keeps_free_preferred(preferred: u16, used: Seq<u16>)
    requires
        preferred != 0,
        !used.contains(preferred),
    ensures
        free_port_spec(preferred, used) == preferred,
{
}

proof fn lemma_first_conflict_found(p: MountProfile, insts: Seq<ParsedRclone>, i: int)
    requires
        0 <= i < insts.len(),
        conflict(p, insts[i]) is Some,
    ensures
        first_conflict(p, insts) is Some,
    decreases i,
{
    if i > 0 && conflict(p, insts[0]) is None {
        lemma_first_conflict_found(p, insts.drop_first(), i - 1);
    }
}

/// A mount is refused while a running `rclone mount` uses the same mount
/// point, or the same remote and folder.
pub proof fn law_no_double_mount(p: MountProfile, running: Seq<ParsedRclone>, i: int)
    requires
        0 <= i < running.len(),
        running[i].verb@ == "mount"@,
        (running[i].mount_point matches Some(m) && norm_point_spec(m@) == norm_point_spec(p.mount_point@))
            || (running[i].remote matches Some(r) && norm_source_spec(r@) == norm_source_spec(source_spec_of(p))),
    ensures
        first_conflict(p, running) is Some,
{
    lemma_first_conflict_found(p, running, i);
}

/// Whether running process `inst` is a mount on the same mount point as
/// `p`, or of the same remote and folder.
pub open spec fn same_mount(p: MountProfile, inst: ParsedRclone) -> bool {
    &&& inst.verb@ == "mount"@
    &&& (inst.mount_point matches Some(m) && norm_point_spec(m@) == norm_point_spec(p.mount_point@))
        || (inst.remote matches Some(r) && norm_source_spec(r@) == norm_source_spec(source_spec_of(p)))
}

/// A mount is refused only because of a running mount: when the check
/// refuses `p`, some running `rclone mount` uses the same mount point, or
/// the same remote and folder.
pub proof fn law_refused_mount_has_match(p: MountProfile, running: Seq<ParsedRclone>)
    requires
        first_conflict(p, running) is Some,
    ensures
        exists|i: int| 0 <= i < running.len() && same_mount(p, #[trigger] running[i]),
    decreases running.len(),
{
    if conflict(p, running[0]) is Some {
        assert(same_mount(p, running[0]));
    } else {
        law_refused_mount_has_match(p, running.drop_first());
        let i = choose|i: int| 0 <= i < running.drop_first().len() && same_mount(p, #[trigger] running.drop_first()[i]);
        assert(same_mount(p, running[i + 1]));
    }
}

/// The command line of a profile, read back by `parse_argv`, names the
/// profile's verb, source and mount point, so that a mount started from a
/// profile is recognised as one; this holds when neither the source nor the
/// mount point starts with a dash and the mount point is set.
pub proof fn law_argv_parses_back(p: MountProfile, rclone: Seq<char>)
    requires
        !has_prefix(source_spec_of(p), seq!['-']),
        trim(p.mount_point@).len() > 0,
        !has_prefix(trim(p.mount_point@), seq!['-']),
    ensures
        spec_verb(argv_spec(p, rclone)) == "mount"@,
        spec_remote(argv_spec(p, rclone)) == Some(source_spec_of(p)),
        spec_mount_point(argv_spec(p, rclone)) == Some(trim(p.mount_point@)),
{
    let a = argv_spec(p, rclone);
    let src = source_spec_of(p);
    let mp = trim(p.mount_point@);
    assert(a[1] == "mount"@);
    assert(a[2] == src);
    assert(a[3] == mp);
    assert(normalize_spec(a) == a);
    reveal_strlit("mount");
    lemma_prefix1("mount"@, '-');
    lemma_prefix2("mount"@, '-', '-');
    lemma_prefix1(src, '-');
    lemma_prefix2(src, '-', '-');
    lemma_prefix1(mp, '-');
    lemma_prefix2(mp, '-', '-');
    let e = Seq::<Seq<char>>::empty();
    let f = Flags::empty();
    assert(scan(a, 1, f, e) == scan(a, 2, f, e.push(a[1])));
    assert(scan(a, 2, f, e.push(a[1])) == scan(a, 3, f, e.push(a[1]).push(a[2])));
    let three = e.push(a[1]).push(a[2]).push(a[3]);
    assert(scan(a, 3, f, e.push(a[1]).push(a[2])) == scan(a, 4, f, three));
    lemma_scan_keeps_positional(a, 4, f, three);
    let pos = scan_all(a).1;
    assert(pos.take(3) == three);
    assert(pos[0] == three[0]);
    assert(pos[1] == three[1]);
    assert(pos[2] == three[2]);
}

/// The suggested cache size is a tenth of the free space rounded to the
/// nearest gigabyte, kept between 1 GB and 100 GB.
pub proof fn law_cache_advice_bounds(free: u64)
    ensures
        1 <= advised_gb(free) <= 100,
        tenth_gb(free) * 10737418240 - 5368709120 <= free < tenth_gb(free) * 10737418240 + 5368709120,
        tenth_gb(free) >= 1 && tenth_gb(free) <= 100 ==> advised_gb(free) == tenth_gb(free),
{
}

proof fn lemma_insert_pos(m: Table, k: Seq<char>)
    ensures
        insert_pos(m, k) <= m.len(),
        forall|j: int| 0 <= j < insert_pos(m, k) ==> str_lt(#[trigger] m[j].0, k),
        insert_pos(m, k) < m.len() ==> !str_lt(m[insert_pos(m, k) as int].0, k),
    decreases m.len(),
{
    if m.len() > 0 && str_lt(m[0].0, k) {
        lemma_insert_pos(m.drop_first(), k);
        assert forall|j: int| 0 <= j < insert_pos(m, k) implies str_lt(#[trigger] m[j].0, k) by {
            if j > 0 {
                assert(m[j] == m.drop_first()[j - 1]);
            }
        }
    }
}

proof fn lemma_table_insert_sorted(m: Table, k: Seq<char>, v: Seq<char>)
    requires
        table_sorted(m),
    ensures
        table_sorted(table_insert(m, k, v)),
{
    lemma_insert_pos(m, k);
    let i = insert_pos(m, k) as int;
    let r = table_insert(m, k, v);
    if i < m.len() && m[i].0 == k {
        assert forall|a: int, b: int| 0 <= a < b < r.len() implies str_lt(r[a].0, r[b].0) by {
            assert(r[a].0 == m[a].0);
            assert(r[b].0 == m[b].0);
        }
    } else {
        if i < m.len() {
            lemma_str_lt_total(m[i].0, k);
        }
        assert forall|a: int, b: int| 0 <= a < b < r.len() implies str_lt(r[a].0, r[b].0) by {
            if b < i {
                assert(r[a] == m[a] && r[b] == m[b]);
            } else if b == i {
                assert(r[a] == m[a]);
            } else if a < i {
                assert(r[a] == m[a]);
                assert(r[b] == m[b - 1]);
                if i < m.len() {
                    if b - 1 > i {
                        lemma_str_lt_transitive(k, m[i].0, m[b - 1].0);
                    }
                    lemma_str_lt_transitive(m[a].0, k, m[b - 1].0);
                }
            } else if a == i {
                assert(r[b] == m[b - 1]);
                if b - 1 > i {
                    lemma_str_lt_transitive(k, m[i].0, m[b - 1].0);
                }
            } else {
                assert(r[a] == m[a - 1] && r[b] == m[b - 1]);
            }
        }
    }
}

proof fn lemma_insert_all_sorted(m: Table, s: Table)
    requires
        table_sorted(m),
    ensures
        table_sorted(insert_all(m, s)),
    decreases s.len(),
{
    if s.len() > 0 {
        lemma_insert_all_sorted(m, s.drop_last());
        lemma_table_insert_sorted(insert_all(m, s.drop_last()), s.last().0, s.last().1);
    }
}

/// The flags of a profile are passed in name order, each name once, however
/// its settings were listed.
pub proof fn law_flag_map_sorted(p: MountProfile)
    ensures
        table_sorted(flag_map_spec(p)),
{
    let e = Table::empty();
    lemma_table_insert_sorted(e, "vfs-cache-mode"@, p.vfs_cache_mode@);
    let m0 = table_insert(e, "vfs-cache-mode"@, p.vfs_cache_mode@);
    lemma_table_insert_sorted(m0, "cache-dir"@, p.cache_dir@);
    let m1 = table_insert(m0, "cache-dir"@, p.cache_dir@);
    lemma_table_insert_sorted(m1, "volname"@, p.vol_name@);
    let m2 = table_insert(m1, "volname"@, p.vol_name@);
    lemma_table_insert_sorted(m2, "network-mode"@, bool_flag(p.network_mode));
    let m3 = table_insert(m2, "network-mode"@, bool_flag(p.network_mode));
    lemma_table_insert_sorted(m3, "read-only"@, bool_flag(p.read_only));
    let m4 = table_insert(m3, "read-only"@, bool_flag(p.read_only));
    lemma_table_insert_sorted(m4, "rc"@, bool_flag(p.rc_enabled));
    let m5 = table_insert(m4, "rc"@, bool_flag(p.rc_enabled));
    lemma_table_insert_sorted(m5, "rc-port"@, decimal(p.rc_port as nat));
    let m6 = table_insert(m5, "rc-port"@, decimal(p.rc_port as nat));
    lemma_insert_all_sorted(m6, pair_views(p.settings@));
}

/// The previewed command splits back into the arguments it runs, when no
/// argument is empty, holds a double quote or whitespace other than space
/// and tab, or ends in a backslash where it is put in quotes (see `plain_arg`).
pub proof fn law_preview_splits_back(p: MountProfile, rclone: Seq<char>, s: BandwidthSchedule)
    requires
        forall|i: int|
            0 <= i < with_bwlimit(argv_spec(p, rclone), s).len() ==> plain_arg(
                #[trigger] with_bwlimit(argv_spec(p, rclone), s)[i],
            ),
    ensures
        split_spec(quoted_line(with_bwlimit(argv_spec(p, rclone), s))) == with_bwlimit(argv_spec(p, rclone), s),
{
    law_split_undoes_quote(with_bwlimit(argv_spec(p, rclone), s));
}

/// The first part of a profile's command line: program, verb, source and
/// mount point.
pub open spec fn argv_head(p: MountProfile, rclone: Seq<char>) -> Seq<Seq<char>> {
    seq![rclone, "mount"@, source_spec_of(p), trim(p.mount_point@)]
}

/// A profile's command line ends with its extra arguments, and what comes
/// before them ends with the remote-control flags (`--rc --rc-no-auth
/// --rc-addr 127.0.0.1:<port>`) when remote control is on; when it is off,
/// no remote-control flags are added.
pub proof fn law_argv_rc_before_extra(p: MountProfile, rclone: Seq<char>)
    ensures
        ({
            let a = argv_spec(p, rclone);
            let extra = split_args_spec(p.extra_args@);
            let g = a.take(a.len() - extra.len());
            &&& a.len() >= extra.len()
            &&& a.skip(a.len() - extra.len()) == extra
            &&& rc_flag_on(p) ==> g.len() >= 4 && g.skip(g.len() - 4) == seq![
                "--rc"@,
                "--rc-no-auth"@,
                "--rc-addr"@,
                "127.0.0.1:"@ + decimal(argv_port(p) as nat),
            ]
            &&& !rc_flag_on(p) ==> g == argv_head(p, rclone) + flag_tokens(flag_map_spec(p))
        }),
{
    let a = argv_spec(p, rclone);
    let extra = split_args_spec(p.extra_args@);
    let front = argv_head(p, rclone) + flag_tokens(flag_map_spec(p)) + rc_tokens(p);
    assert(a =~= front + extra);
    assert(a.skip(a.len() - extra.len()) =~= extra);
    let g = a.take(a.len() - extra.len());
    assert(g =~= front);
    if rc_flag_on(p) {
        assert(g.skip(g.len() - 4) =~= rc_tokens(p));
    } else {
        assert(rc_tokens(p) =~= Seq::<Seq<char>>::empty());
        assert(front =~= argv_head(p, rclone) + flag_tokens(flag_map_spec(p)));
    }
}

/// Whether a flag-table entry puts its value on the command line: it is
/// not a remote-control entry nor a switch, and its value is not blank.
pub open spec fn emits_value(e: (Seq<char>, Seq<char>)) -> bool {
    &&& !(e.0 == "rc"@ || e.0 == "rc-port"@)
    &&& !is_switch(e.0)
    &&& trim(e.1).len() > 0
}

proof fn lemma_flag_tokens_no_rc(m: Table)
    requires
        forall|j: int| 0 <= j < m.len() && emits_value(#[trigger] m[j]) ==> trim(m[j].1) != "--rc"@,
    ensures
        !flag_tokens(m).contains("--rc"@),
    decreases m.len(),
{
    if m.len() > 0 {
        lemma_flag_tokens_no_rc(m.drop_last());
        let e = m.last();
        let k = e.0;
        assert(emits_value(m[m.len() - 1]) ==> trim(e.1) != "--rc"@);
        assert forall|j: int| 0 <= j < m.drop_last().len() && emits_value(#[trigger] m.drop_last()[j]) implies trim(
            m.drop_last()[j].1,
        ) != "--rc"@ by {
            assert(m.drop_last()[j] == m[j]);
        }
        if dash2() + k == "--rc"@ {
            reveal_strlit("--rc");
            reveal_strlit("--");
            reveal_strlit("rc");
            assert((dash2() + k).skip(2) =~= k);
            assert("--rc"@.skip(2) =~= "rc"@);
        }
        let t = flag_tokens(m.drop_last()) + entry_tokens(e);
        assert forall|x: int| 0 <= x < t.len() implies t[x] != "--rc"@ by {
            if x >= flag_tokens(m.drop_last()).len() {
                assert(entry_tokens(e).contains(t[x]));
            } else {
                assert(flag_tokens(m.drop_last()).contains(t[x]));
            }
        }
    }
}

/// With remote control off, `--rc` appears nowhere before the extra
/// arguments: the settings give no `--rc` flag of their own. This holds
/// unless the program path, the source, the mount point or a value that the
/// command line carries (see `emits_value`) is itself the text `--rc`.
pub proof fn law_argv_no_rc_when_off(p: MountProfile, rclone: Seq<char>)
    requires
        !rc_flag_on(p),
        !argv_head(p, rclone).contains("--rc"@),
        forall|j: int|
            0 <= j < flag_map_spec(p).len() && emits_value(#[trigger] flag_map_spec(p)[j]) ==> trim(
                flag_map_spec(p)[j].1,
            ) != "--rc"@,
    ensures
        ({
            let a = argv_spec(p, rclone);
            !a.take(a.len() - split_args_spec(p.extra_args@).len()).contains("--rc"@)
        }),
{
    law_argv_rc_before_extra(p, rclone);
    lemma_flag_tokens_no_rc(flag_map_spec(p));
    let h = argv_head(p, rclone);
    let f = flag_tokens(flag_map_spec(p));
    assert forall|x: int| 0 <= x < (h + f).len() implies (h + f)[x] != "--rc"@ by {
        if x < h.len() {
            assert(h.contains((h + f)[x]));
        } else {
            assert(f.contains((h + f)[x]));
        }
    }
}

/// The switches of rclone mount that a profile turns on by name alone:
/// network mode, read-only, fast listing, links, case-insensitive VFS, no
/// modification times, no checksums, allow-other, daemon and mmap.
pub proof fn law_switches_listed()
    ensures
        is_switch("network-mode"@),
        is_switch("read-only"@),
        is_switch("fast-list"@),
        is_switch("links"@),
        is_switch("vfs-case-insensitive"@),
        is_switch("no-modtime"@),
        is_switch("no-checksum"@),
        is_switch("allow-other"@),
        is_switch("daemon"@),
        is_switch("use-mmap"@),
{
}

proof fn lemma_switch_not_rc(k: Seq<char>)
    requires
        is_switch(k),
    ensures
        k != "rc"@,
        k != "rc-port"@,
{
    reveal_strlit("rc");
    reveal_strlit("rc-port");
    reveal_strlit("network-mode");
    reveal_strlit("read-only");
    reveal_strlit("fast-list");
    reveal_strlit("links");
    reveal_strlit("vfs-case-insensitive");
    reveal_strlit("no-modtime");
    reveal_strlit("no-checksum");
    reveal_strlit("allow-other");
    reveal_strlit("daemon");
    reveal_strlit("use-mmap");
    assert(k.len() >= 5 && k.len() != 7);
    assert("rc"@.len() == 2);
    assert("rc-port"@.len() == 7);
}

/// A switch never carries a value onto the command line: whatever its
/// setting, it gives at most one argument, `--<name>`.
pub proof fn law_switch_takes_no_value(k: Seq<char>, v: Seq<char>)
    requires
        is_switch(k),
    ensures
        entry_tokens((k, v)).len() <= 1,
        forall|j: int| 0 <= j < entry_tokens((k, v)).len() ==> #[trigger] entry_tokens((k, v))[j] == dash2() + k,
{
}

/// A switch field of a profile (network mode, read-only) set to true gives
/// exactly `--<name>`, and set to false gives nothing.
pub proof fn law_switch_field(k: Seq<char>, b: bool)
    requires
        is_switch(k),
    ensures
        entry_tokens((k, bool_flag(b))) == (if b { seq![dash2() + k] } else { Seq::<Seq<char>>::empty() }),
{
    lemma_switch_not_rc(k);
    reveal_strlit("1");
    reveal_strlit("");
    assert(trim_start("1"@) == "1"@);
    assert(trim_end("1"@) == "1"@);
    assert(trim_start(""@) == ""@);
    assert(trim_end(""@) == ""@);
    reveal_strlit("true");
    reveal_strlit("yes");
    reveal_strlit("on");
}

/// A mounted disk as the disk list shows it: whether its mount point is an
/// ancestor of the user's home directory, the length of the mount point,
/// and its free bytes.
#[derive(Debug, Clone, Copy, PartialEq, Eq)]
pub struct DiskInfo {
    pub holds_home: bool,
    pub mount_len: usize,
    pub available: u64,
}

/// Whether disk `k` is the one holding the home directory: it holds it,
/// has free space, has the longest mount point of those, and comes first
/// among those of that length.
pub open spec fn home_disk(ds: Seq<DiskInfo>, k: int) -> bool {
    let fits = |d: DiskInfo| d.holds_home && d.available > 0;
    &&& 0 <= k < ds.len()
    &&& fits(ds[k])
    &&& forall|m: int| 0 <= m < ds.len() && fits(#[trigger] ds[m]) ==> ds[m].mount_len <= ds[k].mount_len
    &&& forall|m: int| 0 <= m < k && fits(#[trigger] ds[m]) ==> ds[m].mount_len < ds[k].mount_len
}

/// The free bytes of the disk that holds the home directory: of the disks
/// whose mount point contains it and that have free space, the one with the
/// longest mount point. `None` when there is none.
pub fn free_bytes_for_home(disks: &Vec<DiskInfo>) -> (r: Option<u64>)
    ensures
        match r {
            Some(b) => exists|k: int| home_disk(disks@, k) && disks@[k].available == b,
            None => forall|m: int| 0 <= m < disks@.len() ==> !((#[trigger] disks@[m]).holds_home && disks@[m].available > 0),
        },
{
    let mut best: Option<usize> = None;
    let mut i: usize = 0;
    while i < disks.len()
        invariant
            i <= disks@.len(),
            match best {
                Some(k) => home_disk(disks@.take(i as int), k as int),
                None => forall|m: int| 0 <= m < i ==> !((#[trigger] disks@[m]).holds_home && disks@[m].available > 0),
            },
        decreases disks.len() - i,
    {
        let d = disks[i];
        assert(disks@.take(i + 1)[i as int] == d);
        assert forall|m: int| 0 <= m < i implies #[trigger] disks@.take(i + 1)[m] == disks@.take(i as int)[m] by {}
        if d.holds_home && d.available > 0 {
            let better = match best {
                Some(k) => d.mount_len > disks[k].mount_len,
                None => true,
            };
            if better {
                best = Some(i);
            }
        }
        i = i + 1;
    }
    assert(disks@.take(disks@.len() as int) =~= disks@);
    match best {
        Some(k) => Some(disks[k].available),
        None => None,
    }
}

} // verus!
