//! Parsing of rclone command lines, as Windows reports them for running
//! processes, and the quoting used to print a command back.

use vstd::prelude::*;

use crate::text::{is_ws, has_ws, has_prefix, trim, trim_end_char, first_index, views, opt_view, chars_of, string_of_range, string_of, is_whitespace, any_whitespace, eq_chars, eq_str, find_char_from, lemma_prefix1, lemma_prefix2, trim_chars, push_all, starts_with_str, matches_at, trim_end_char_len, string_push, push_str};

verus! {

broadcast use vstd::string::group_string_axioms;

/// The character view of a flag table: (flag, value) in first-insertion order.
pub type Flags = Seq<(Seq<char>, Option<Seq<char>>)>;

/// An rclone command line taken apart.
///
/// `flags` holds each flag once, in the order in which it first appeared; a
/// later occurrence replaces the value of an earlier one.
#[derive(Debug, Clone)]
pub struct ParsedRclone {
    pub binary: String,
    pub verb: String,
    pub remote: Option<String>,
    pub mount_point: Option<String>,
    pub flags: Vec<(String, Option<String>)>,
    pub positional: Vec<String>,
    pub raw: Vec<String>,
}

/// The character view of a flag table.
pub open spec fn flag_views(v: Seq<(String, Option<String>)>) -> Flags {
    Seq::new(v.len(), |i: int| (v[i].0@, opt_view(v[i].1)))
}

/// Index of the last entry for `k`, or -1.
pub open spec fn find_flag(m: Flags, k: Seq<char>) -> int
    decreases m.len(),
{
    if m.len() == 0 {
        -1
    } else if m.last().0 == k {
        m.len() - 1
    } else {
        find_flag(m.drop_last(), k)
    }
}

/// Sets the value of flag `k`: in place where `k` is present, else at the end.
pub open spec fn flag_insert(m: Flags, k: Seq<char>, v: Option<Seq<char>>) -> Flags {
    let j = find_flag(m, k);
    if j >= 0 {
        m.update(j, (k, v))
    } else {
        m.push((k, v))
    }
}

/// The entry for `k`: `None` when absent, `Some(value)` when present.
pub open spec fn flag_get(m: Flags, k: Seq<char>) -> Option<Option<Seq<char>>> {
    let j = find_flag(m, k);
    if j >= 0 {
        Some(m[j].1)
    } else {
        None
    }
}

/// No flag appears twice.
pub open spec fn flags_unique(m: Flags) -> bool {
    forall|i: int, j: int| 0 <= i < j < m.len() ==> m[i].0 != m[j].0
}

/// The flags of rclone that take their value from the next argument.
pub open spec fn is_value_flag(s: Seq<char>) -> bool {
    ||| s == "--rc-addr"@
    ||| s == "--rc-user"@
    ||| s == "--rc-pass"@
    ||| s == "--rc-htpasswd"@
    ||| s == "--rc-cert"@
    ||| s == "--rc-key"@
    ||| s == "--rc-client-ca"@
    ||| s == "--rc-job-expire-duration"@
    ||| s == "--rc-job-expire-interval"@
    ||| s == "--cache-dir"@
    ||| s == "--vfs-cache-mode"@
    ||| s == "--vfs-cache-max-size"@
    ||| s == "--vfs-cache-max-age"@
    ||| s == "--vfs-cache-poll-interval"@
    ||| s == "--vfs-write-back"@
    ||| s == "--vfs-read-ahead"@
    ||| s == "--vfs-read-chunk-size"@
    ||| s == "--vfs-read-chunk-size-limit"@
    ||| s == "--vfs-disk-space-total-size"@
    ||| s == "--dir-cache-time"@
    ||| s == "--poll-interval"@
    ||| s == "--buffer-size"@
    ||| s == "--bwlimit"@
    ||| s == "--bwlimit-file"@
    ||| s == "--config"@
    ||| s == "--log-file"@
    ||| s == "--log-level"@
    ||| s == "--log-format"@
    ||| s == "--stats"@
    ||| s == "--stats-file-name-length"@
    ||| s == "--volname"@
    ||| s == "--uid"@
    ||| s == "--gid"@
    ||| s == "--umask"@
    ||| s == "--attr-timeout"@
    ||| s == "--timeout"@
    ||| s == "--contimeout"@
    ||| s == "--retries"@
    ||| s == "--retries-sleep"@
    ||| s == "--low-level-retries"@
    ||| s == "--bind"@
    ||| s == "--user-agent"@
    ||| s == "--multi-thread-cutoff"@
    ||| s == "--multi-thread-streams"@
    ||| s == "--transfers"@
    ||| s == "--checkers"@
    ||| s == "--max-depth"@
    ||| s == "--sfn-hash-type"@
    ||| s == "--vfs-cache-min-free-space"@
    ||| s == "--tpslimit"@
    ||| s == "--tpslimit-burst"@
    ||| s == "--file-perms"@
    ||| s == "--dir-perms"@
    ||| s == "--drive-chunk-size"@
}

/// The state of the command-line splitter: the words so far, the current
/// word, whether it is inside double quotes, and how many backslashes have
/// been read and not yet placed.
pub type SplitState = (Seq<Seq<char>>, Seq<char>, bool, nat);

/// `n` backslashes.
pub open spec fn backslashes(n: nat) -> Seq<char>
    decreases n,
{
    if n == 0 {
        Seq::empty()
    } else {
        backslashes((n - 1) as nat).push('\\')
    }
}

/// The current word with the backslashes still pending placed after it.
pub open spec fn pending_word(st: SplitState) -> Seq<char> {
    st.1 + backslashes(st.3)
}

/// One step of the command-line splitter, by the rules of
/// `CommandLineToArgvW`: backslashes are counted; before a double quote, an
/// even count 2n gives n backslashes and the quote toggles quoting, an odd
/// count 2n+1 gives n backslashes and a literal quote; before any other
/// character the backslashes are kept as they are. Whitespace outside quotes
/// ends the current word.
pub open spec fn split_step(st: SplitState, c: char) -> SplitState {
    if c == '\\' {
        (st.0, st.1, st.2, st.3 + 1)
    } else if c == '"' {
        let w = st.1 + backslashes(st.3 / 2);
        if st.3 % 2 == 0 {
            (st.0, w, !st.2, 0)
        } else {
            (st.0, w.push('"'), st.2, 0)
        }
    } else if !st.2 && is_ws(c) {
        let w = pending_word(st);
        if w.len() > 0 {
            (st.0.push(w), Seq::empty(), st.2, 0)
        } else {
            (st.0, w, st.2, 0)
        }
    } else {
        (st.0, pending_word(st).push(c), st.2, 0)
    }
}

/// The splitter's state after reading all of `s`.
pub open spec fn split_run(s: Seq<char>) -> SplitState
    decreases s.len(),
{
    if s.len() == 0 {
        (Seq::empty(), Seq::empty(), false, 0)
    } else {
        split_step(split_run(s.drop_last()), s.last())
    }
}

/// A command line split into words by the rules of `CommandLineToArgvW`
/// (see `split_step`); empty words are left out.
pub open spec fn split_spec(s: Seq<char>) -> Seq<Seq<char>> {
    let w = pending_word(split_run(s));
    if w.len() > 0 {
        split_run(s).0.push(w)
    } else {
        split_run(s).0
    }
}

/// An argument vector of one element holding whitespace is a whole command
/// line and is split; any other vector is kept.
pub open spec fn normalize_spec(argv: Seq<Seq<char>>) -> Seq<Seq<char>> {
    if argv.len() == 0 {
        Seq::empty()
    } else if argv.len() == 1 && has_ws(argv[0]) {
        split_spec(argv[0])
    } else {
        argv
    }
}

pub open spec fn dash2() -> Seq<char> {
    seq!['-', '-']
}

/// The argument scan from position `i`, with the flags and positional
/// arguments found before it.
pub open spec fn scan(
    argv: Seq<Seq<char>>,
    i: int,
    flags: Flags,
    pos: Seq<Seq<char>>,
) -> (Flags, Seq<Seq<char>>)
    decreases argv.len() - i,
{
    if i < 0 || i >= argv.len() {
        (flags, pos)
    } else {
        let a = argv[i];
        if a == dash2() {
            (flags, pos + argv.subrange(i + 1, argv.len() as int))
        } else if has_prefix(a, dash2()) {
            match first_index(a.skip(2), '=') {
                Some(e) => scan(argv, i + 1, flag_insert(flags, a.take(e + 2), Some(a.skip(e + 3))), pos),
                None => if is_value_flag(a) && i + 1 < argv.len() && !has_prefix(argv[i + 1], seq!['-']) {
                    scan(argv, i + 2, flag_insert(flags, a, Some(argv[i + 1])), pos)
                } else {
                    scan(argv, i + 1, flag_insert(flags, a, None), pos)
                },
            }
        } else if has_prefix(a, seq!['-']) && a.len() > 1 {
            scan(argv, i + 1, flag_insert(flags, a, None), pos)
        } else {
            scan(argv, i + 1, flags, pos.push(a))
        }
    }
}

/// The flags and positional arguments of a (normalized) argument vector;
/// `argv[0]` is the program.
pub open spec fn scan_all(argv: Seq<Seq<char>>) -> (Flags, Seq<Seq<char>>) {
    scan(argv, 1, Seq::empty(), Seq::empty())
}

pub open spec fn spec_binary(argv: Seq<Seq<char>>) -> Seq<char> {
    let a = normalize_spec(argv);
    if a.len() > 0 { a[0] } else { "rclone"@ }
}

pub open spec fn spec_verb(argv: Seq<Seq<char>>) -> Seq<char> {
    let pos = scan_all(normalize_spec(argv)).1;
    if pos.len() > 0 { pos[0] } else { "unknown"@ }
}

pub open spec fn spec_remote(argv: Seq<Seq<char>>) -> Option<Seq<char>> {
    let pos = scan_all(normalize_spec(argv)).1;
    if pos.len() > 1 { Some(pos[1]) } else { None }
}

pub open spec fn spec_mount_point(argv: Seq<Seq<char>>) -> Option<Seq<char>> {
    let pos = scan_all(normalize_spec(argv)).1;
    if spec_verb(argv) == "mount"@ && pos.len() > 2 { Some(pos[2]) } else { None }
}

/// What `parse_argv(argv)` returns, field by field.
pub open spec fn parsed_from(p: ParsedRclone, argv: Seq<Seq<char>>) -> bool {
    &&& p.binary@ == spec_binary(argv)
    &&& p.verb@ == spec_verb(argv)
    &&& opt_view(p.remote) == spec_remote(argv)
    &&& opt_view(p.mount_point) == spec_mount_point(argv)
    &&& flag_views(p.flags@) == scan_all(normalize_spec(argv)).0
    &&& views(p.positional@) == scan_all(normalize_spec(argv)).1
    &&& views(p.raw@) == normalize_spec(argv)
}

/// The value of flag `name`, when present with a value.
pub open spec fn spec_flag_value(p: ParsedRclone, name: Seq<char>) -> Option<Seq<char>> {
    match flag_get(flag_views(p.flags@), name) {
        Some(Some(v)) => Some(v),
        _ => None,
    }
}

pub open spec fn spec_has_flag(p: ParsedRclone, name: Seq<char>) -> bool {
    flag_get(flag_views(p.flags@), name) is Some
}

/// `s` with every leading copy of `p` removed (`trim_start_matches(p)`).
pub open spec fn trim_start_str(s: Seq<char>, p: Seq<char>) -> Seq<char>
    decreases s.len(),
{
    if p.len() > 0 && has_prefix(s, p) {
        trim_start_str(s.skip(p.len() as int), p)
    } else {
        s
    }
}

/// An rc address as given on a command line, made into `host:port`.
pub open spec fn normalize_addr_spec(raw: Seq<char>) -> Seq<char> {
    let t = trim(raw);
    if has_prefix(t, seq![':']) {
        "127.0.0.1"@ + t
    } else if has_prefix(t, "http://"@) || has_prefix(t, "https://"@) {
        trim_end_char(trim_start_str(trim_start_str(t, "http://"@), "https://"@), '/')
    } else {
        t
    }
}

/// The rc address a parsed command line serves on, if it serves one.
pub open spec fn rc_addr_spec(p: ParsedRclone) -> Option<Seq<char>> {
    let implied = p.verb@ == "rcd"@ || spec_has_flag(p, "--rc"@) || spec_has_flag(p, "--rc-web-gui"@)
        || spec_flag_value(p, "--rc-addr"@) is Some;
    if implied {
        let raw = match spec_flag_value(p, "--rc-addr"@) {
            Some(v) => v,
            None => "127.0.0.1:5572"@,
        };
        Some(normalize_addr_spec(raw))
    } else {
        None
    }
}

/// The characters after which `quote_win` quotes an argument.
pub open spec fn needs_quote(c: char) -> bool {
    c == ' ' || c == '\t' || c == '"' || c == '\'' || c == '&' || c == '^' || c == '%'
}

/// `s` with every double quote doubled.
pub open spec fn double_quotes(s: Seq<char>) -> Seq<char>
    decreases s.len(),
{
    if s.len() == 0 {
        s
    } else if s.last() == '"' {
        double_quotes(s.drop_last()) + seq!['"', '"']
    } else {
        double_quotes(s.drop_last()).push(s.last())
    }
}

/// One argument quoted for a Windows command line.
pub open spec fn quote_spec(arg: Seq<char>) -> Seq<char> {
    if arg.len() == 0 {
        seq!['"', '"']
    } else if !(exists|i: int| 0 <= i < arg.len() && needs_quote(#[trigger] arg[i])) {
        arg
    } else {
        seq!['"'] + double_quotes(arg) + seq!['"']
    }
}

/// Whether `s` is one of the flags that take a value.
pub fn value_flag(s: &[char]) -> (r: bool)
    ensures
        r == is_value_flag(s@),
{
    eq_str(s, "--rc-addr") ||
        eq_str(s, "--rc-user") ||
        eq_str(s, "--rc-pass") ||
        eq_str(s, "--rc-htpasswd") ||
        eq_str(s, "--rc-cert") ||
        eq_str(s, "--rc-key") ||
        eq_str(s, "--rc-client-ca") ||
        eq_str(s, "--rc-job-expire-duration") ||
        eq_str(s, "--rc-job-expire-interval") ||
        eq_str(s, "--cache-dir") ||
        eq_str(s, "--vfs-cache-mode") ||
        eq_str(s, "--vfs-cache-max-size") ||
        eq_str(s, "--vfs-cache-max-age") ||
        eq_str(s, "--vfs-cache-poll-interval") ||
        eq_str(s, "--vfs-write-back") ||
        eq_str(s, "--vfs-read-ahead") ||
        eq_str(s, "--vfs-read-chunk-size") ||
        eq_str(s, "--vfs-read-chunk-size-limit") ||
        eq_str(s, "--vfs-disk-space-total-size") ||
        eq_str(s, "--dir-cache-time") ||
        eq_str(s, "--poll-interval") ||
        eq_str(s, "--buffer-size") ||
        eq_str(s, "--bwlimit") ||
        eq_str(s, "--bwlimit-file") ||
        eq_str(s, "--config") ||
        eq_str(s, "--log-file") ||
        eq_str(s, "--log-level") ||
        eq_str(s, "--log-format") ||
        eq_str(s, "--stats") ||
        eq_str(s, "--stats-file-name-length") ||
        eq_str(s, "--volname") ||
        eq_str(s, "--uid") ||
        eq_str(s, "--gid") ||
        eq_str(s, "--umask") ||
        eq_str(s, "--attr-timeout") ||
        eq_str(s, "--timeout") ||
        eq_str(s, "--contimeout") ||
        eq_str(s, "--retries") ||
        eq_str(s, "--retries-sleep") ||
        eq_str(s, "--low-level-retries") ||
        eq_str(s, "--bind") ||
        eq_str(s, "--user-agent") ||
        eq_str(s, "--multi-thread-cutoff") ||
        eq_str(s, "--multi-thread-streams") ||
        eq_str(s, "--transfers") ||
        eq_str(s, "--checkers") ||
        eq_str(s, "--max-depth") ||
        eq_str(s, "--sfn-hash-type") ||
        eq_str(s, "--vfs-cache-min-free-space") ||
        eq_str(s, "--tpslimit") ||
        eq_str(s, "--tpslimit-burst") ||
        eq_str(s, "--file-perms") ||
        eq_str(s, "--dir-perms") ||
        eq_str(s, "--drive-chunk-size")
}

/// Append `n` backslashes to `cur`.
fn push_backslashes(cur: &mut Vec<char>, n: usize)
    ensures
        final(cur)@ == old(cur)@ + backslashes(n as nat),
{
    let mut k: usize = 0;
    assert(old(cur)@ + backslashes(0) =~= old(cur)@);
    while k < n
        invariant
            k <= n,
            cur@ == old(cur)@ + backslashes(k as nat),
        decreases n - k,
    {
        cur.push('\\');
        assert(old(cur)@ + backslashes((k + 1) as nat) =~= (old(cur)@ + backslashes(k as nat)).push('\\'));
        k = k + 1;
    }
}

/// Split a Windows process CommandLine into argv (CommandLineToArgvW rules).
pub fn split_cmdline(line: &str) -> (out: Vec<String>)
    ensures
        views(out@) == split_spec(line@),
{
    let chars = chars_of(line);
    let mut out: Vec<String> = Vec::new();
    let mut cur: Vec<char> = Vec::new();
    let mut in_quotes = false;
    let mut bs: usize = 0;
    let mut i: usize = 0;
    while i < chars.len()
        invariant
            i <= chars@.len(),
            bs <= i,
            split_run(chars@.take(i as int)) == (views(out@), cur@, in_quotes, bs as nat),
        decreases chars.len() - i,
    {
        let c = chars[i];
        let ghost before: SplitState = (views(out@), cur@, in_quotes, bs as nat);
        if c == '\\' {
            bs = bs + 1;
        } else if c == '"' {
            push_backslashes(&mut cur, bs / 2);
            if bs % 2 == 0 {
                in_quotes = !in_quotes;
            } else {
                cur.push('"');
            }
            bs = 0;
        } else {
            push_backslashes(&mut cur, bs);
            bs = 0;
            if !in_quotes && is_whitespace(c) {
                if cur.len() > 0 {
                    let w = string_of(cur.as_slice());
                    out.push(w);
                    assert(views(out@) == before.0.push(pending_word(before)));
                    cur = Vec::new();
                }
            } else {
                cur.push(c);
            }
        }
        assert(chars@.take(i + 1).drop_last() == chars@.take(i as int));
        assert(split_run(chars@.take(i + 1)) == split_step(before, c));
        i = i + 1;
    }
    assert(chars@.take(chars@.len() as int) == chars@);
    push_backslashes(&mut cur, bs);
    if cur.len() > 0 {
        let ghost before = views(out@);
        let w = string_of(cur.as_slice());
        out.push(w);
        assert(views(out@) == before.push(cur@));
    }
    out
}

/// A copy of `v`.
pub fn copy_strings(v: &[String]) -> (r: Vec<String>)
    ensures
        r@ == v@,
{
    let mut r: Vec<String> = Vec::new();
    let mut i: usize = 0;
    while i < v.len()
        invariant
            i <= v@.len(),
            r@ == v@.take(i as int),
        decreases v.len() - i,
    {
        r.push(v[i].clone());
        assert(v@.take(i + 1) == v@.take(i as int).push(v@[i as int]));
        i = i + 1;
    }
    assert(v@.take(v@.len() as int) == v@);
    r
}

/// A one-element argument vector whose element holds whitespace is a whole
/// command line: it is split. Any other vector is returned as it is.
pub fn normalize_argv(argv: &[String]) -> (r: Vec<String>)
    ensures
        views(r@) == normalize_spec(views(argv@)),
{
    if argv.len() == 0 {
        return Vec::new();
    }
    if argv.len() == 1 {
        let c = chars_of(argv[0].as_str());
        if any_whitespace(c.as_slice()) {
            return split_cmdline(argv[0].as_str());
        }
    }
    copy_strings(argv)
}

proof fn lemma_find_flag_views_take(v: Seq<(String, Option<String>)>, n: int, k: Seq<char>)
    requires
        0 < n <= v.len(),
    ensures
        flag_views(v).take(n).drop_last() == flag_views(v).take(n - 1),
        flag_views(v).take(n).last() == (v[n - 1].0@, opt_view(v[n - 1].1)),
{
}

/// Sets flag `k` to `v` in the table.
pub fn insert_flag(flags: &mut Vec<(String, Option<String>)>, k: String, v: Option<String>)
    ensures
        flag_views(final(flags)@) == flag_insert(flag_views(old(flags)@), k@, opt_view(v)),
{
    let ghost m = flag_views(flags@);
    let mut n: usize = flags.len();
    assert(m.take(m.len() as int) == m);
    while n > 0
        invariant
            n <= flags@.len(),
            m == flag_views(flags@),
            m == flag_views(old(flags)@),
            find_flag(m, k@) == find_flag(m.take(n as int), k@),
        decreases n,
    {
        if flags[n - 1].0 == k {
            let ghost j = (n - 1) as int;
            let ghost kv = k@;
            let ghost ov = opt_view(v);
            assert(m[j] == (flags@[j].0@, opt_view(flags@[j].1)));
            assert(m.take(n as int).last() == m[j]);
            assert(m[j].0 == kv);
            assert(find_flag(m.take(n as int), kv) == j);
            let item = (k, v);
            flags.set(n - 1, item);
            assert(flag_views(flags@) =~= m.update(j, (kv, ov)));
            return;
        }
        proof {
            lemma_find_flag_views_take(flags@, n as int, k@);
        }
        n = n - 1;
    }
    assert(find_flag(m, k@) == -1);
    let ghost kv = k@;
    let ghost ov = opt_view(v);
    flags.push((k, v));
    assert(flag_views(flags@) == m.push((kv, ov)));
}

/// Index of the entry for `name` in the table.
pub fn lookup_flag(flags: &Vec<(String, Option<String>)>, name: &str) -> (r: Option<usize>)
    ensures
        match r {
            Some(j) => find_flag(flag_views(flags@), name@) == j as int && j < flags@.len(),
            None => find_flag(flag_views(flags@), name@) == -1,
        },
{
    let ghost m = flag_views(flags@);
    let key = chars_of(name);
    let mut n: usize = flags.len();
    assert(m.take(m.len() as int) == m);
    while n > 0
        invariant
            n <= flags@.len(),
            m == flag_views(flags@),
            key@ == name@,
            find_flag(m, name@) == find_flag(m.take(n as int), name@),
        decreases n,
    {
        let kc = chars_of(flags[n - 1].0.as_str());
        if eq_chars(kc.as_slice(), key.as_slice()) {
            assert(m.take(n as int).last() == m[n - 1]);
            return Some(n - 1);
        }
        proof {
            lemma_find_flag_views_take(flags@, n as int, name@);
        }
        n = n - 1;
    }
    None
}

pub fn parse_argv(argv: &[String]) -> (p: ParsedRclone)
    ensures
        parsed_from(p, views(argv@)),
{
    let argv = normalize_argv(argv);
    let ghost a = views(argv@);
    let binary = if argv.len() > 0 {
        argv[0].clone()
    } else {
        "rclone".to_string()
    };
    let mut flags: Vec<(String, Option<String>)> = Vec::new();
    let mut positional: Vec<String> = Vec::new();
    let mut i: usize = 1;
    assert(flag_views(flags@) == Flags::empty());
    assert(views(positional@) == Seq::<Seq<char>>::empty());
    while i < argv.len()
        invariant
            1 <= i,
            a == views(argv@),
            scan_all(a) == scan(a, i as int, flag_views(flags@), views(positional@)),
        decreases argv.len() - i,
    {
        let ghost i0 = i as int;
        let ghost f0 = flag_views(flags@);
        let ghost p0 = views(positional@);
        let t = chars_of(argv[i].as_str());
        assert(t@ == a[i as int]);
        proof {
            lemma_prefix1(t@, '-');
            lemma_prefix2(t@, '-', '-');
        }
        proof {
            reveal_strlit("--");
            assert("--"@ =~= dash2());
        }
        if eq_str(t.as_slice(), "--") {
            assert(t@ == dash2());
            let ghost pos0 = views(positional@);
            let mut j = i + 1;
            while j < argv.len()
                invariant
                    i < j <= argv.len(),
                    a == views(argv@),
                    views(positional@) == pos0 + a.subrange(i + 1, j as int),
                decreases argv.len() - j,
            {
                let ghost before = views(positional@);
                positional.push(argv[j].clone());
                assert(views(positional@) =~= before.push(a[j as int]));
                assert(a.subrange(i + 1, j + 1) =~= a.subrange(i + 1, j as int).push(a[j as int]));
                j = j + 1;
            }
            i = argv.len();
            assert(scan(a, i0, f0, p0) == scan(a, i as int, flag_views(flags@), views(positional@)));
        } else if t.len() >= 2 && t[0] == '-' && t[1] == '-' {
            assert(t@.take(2) =~= dash2());
            assert(has_prefix(t@, dash2()));
            assert(t@.skip(2) == t@.skip(2));
            match find_char_from(t.as_slice(), 2, '=') {
                Some(e) => {
                    let k = string_of_range(t.as_slice(), 0, e + 2);
                    let v = string_of_range(t.as_slice(), e + 3, t.len());
                    assert(t@.take(e + 2) == t@.subrange(0, e + 2));
                    assert(t@.skip(e + 3) == t@.subrange(e + 3, t@.len() as int));
                    insert_flag(&mut flags, k, Some(v));
                    i = i + 1;
                    assert(scan(a, i0, f0, p0) == scan(a, i as int, flag_views(flags@), views(positional@)));
                },
                None => {
                    let takes = value_flag(t.as_slice());
                    let mut consumed = false;
                    if takes && i + 1 < argv.len() {
                        let n = chars_of(argv[i + 1].as_str());
                        proof {
                            lemma_prefix1(n@, '-');
                            assert(n@ == a[i + 1]);
                        }
                        if !(n.len() > 0 && n[0] == '-') {
                            insert_flag(&mut flags, argv[i].clone(), Some(argv[i + 1].clone()));
                            i = i + 2;
                            consumed = true;
                            assert(scan(a, i0, f0, p0) == scan(a, i as int, flag_views(flags@), views(positional@)));
                        }
                    }
                    if !consumed {
                        insert_flag(&mut flags, argv[i].clone(), None);
                        i = i + 1;
                        assert(scan(a, i0, f0, p0) == scan(a, i as int, flag_views(flags@), views(positional@)));
                    }
                },
            }
        } else if t.len() > 1 && t[0] == '-' {
            assert(t@.take(1) =~= seq!['-']);
            assert(has_prefix(t@, seq!['-']));
            insert_flag(&mut flags, argv[i].clone(), None);
            i = i + 1;
        } else {
            assert(!has_prefix(t@, dash2()));
            assert(!(has_prefix(t@, seq!['-']) && t@.len() > 1));
            let ghost pos0 = views(positional@);
            positional.push(argv[i].clone());
            assert(views(positional@) =~= pos0.push(a[i as int]));
            i = i + 1;
        }
    }
    let verb = if positional.len() > 0 {
        positional[0].clone()
    } else {
        "unknown".to_string()
    };
    let remote = if positional.len() > 1 {
        Some(positional[1].clone())
    } else {
        None
    };
    let vc = chars_of(verb.as_str());
    let mount_point = if eq_str(vc.as_slice(), "mount") && positional.len() > 2 {
        Some(positional[2].clone())
    } else {
        None
    };
    ParsedRclone { binary, verb, remote, mount_point, flags, positional, raw: argv }
}

/// The value of flag `name`, when it was given with one.
pub fn flag_value<'a>(parsed: &'a ParsedRclone, name: &str) -> (r: Option<&'a str>)
    ensures
        match r {
            Some(s) => spec_flag_value(*parsed, name@) == Some(s@),
            None => spec_flag_value(*parsed, name@) is None,
        },
{
    match lookup_flag(&parsed.flags, name) {
        Some(j) => match &parsed.flags[j].1 {
            Some(v) => Some(v.as_str()),
            None => None,
        },
        None => None,
    }
}

/// Whether flag `name` was given, with or without a value.
pub fn has_flag(parsed: &ParsedRclone, name: &str) -> (r: bool)
    ensures
        r == spec_has_flag(*parsed, name@),
{
    lookup_flag(&parsed.flags, name).is_some()
}

/// `s` with every leading copy of `p` removed.
fn strip_all_prefix(s: &[char], p: &str) -> (r: Vec<char>)
    ensures
        r@ == trim_start_str(s@, p@),
{
    let pv = chars_of(p);
    let mut off: usize = 0;
    assert(s@.skip(0) == s@);
    if pv.len() > 0 {
        while off < s.len() && matches_at(s, pv.as_slice(), off)
            invariant
                off <= s@.len(),
                pv@ == p@,
                pv@.len() > 0,
                trim_start_str(s@, p@) == trim_start_str(s@.skip(off as int), p@),
            decreases s.len() - off,
        {
            assert(s@.skip(off as int).take(pv@.len() as int) == s@.subrange(off as int, off + pv@.len()));
            assert(s@.skip(off as int).skip(pv@.len() as int) == s@.skip(off + pv@.len()));
            off = off + pv.len();
        }
        proof {
            if off < s@.len() {
                assert(s@.skip(off as int).take(pv@.len() as int) =~= s@.subrange(off as int, off + pv@.len()) || pv@.len() > s@.skip(off as int).len());
            } else {
                assert(s@.skip(off as int).len() == 0);
            }
        }
    }
    let mut r: Vec<char> = Vec::new();
    let mut i = off;
    while i < s.len()
        invariant
            off <= i <= s@.len(),
            r@ == s@.subrange(off as int, i as int),
        decreases s.len() - i,
    {
        r.push(s[i]);
        assert(s@.subrange(off as int, i + 1) == s@.subrange(off as int, i as int).push(s@[i as int]));
        i = i + 1;
    }
    assert(s@.skip(off as int) == s@.subrange(off as int, s@.len() as int));
    r
}

/// A remote-control address as written on a command line, made into
/// `host:port`: a bare `:port` gets the loopback host, a URL loses its scheme
/// and trailing slashes.
pub fn normalize_addr(raw: &str) -> (r: String)
    ensures
        r@ == normalize_addr_spec(raw@),
{
    let c = chars_of(raw);
    let t = trim_chars(c.as_slice());
    proof {
        lemma_prefix1(t@, ':');
    }
    if t.len() > 0 && t[0] == ':' {
        let mut s = "127.0.0.1".to_string();
        push_all(&mut s, t.as_slice());
        s
    } else if starts_with_str(t.as_slice(), "http://") || starts_with_str(t.as_slice(), "https://") {
        let a = strip_all_prefix(t.as_slice(), "http://");
        let b = strip_all_prefix(a.as_slice(), "https://");
        let n = trim_end_char_len(b.as_slice(), b.len(), '/');
        assert(b@.take(b@.len() as int) == b@);
        assert(b@.take(n as int) == b@.subrange(0, n as int));
        string_of_range(b.as_slice(), 0, n)
    } else {
        string_of(t.as_slice())
    }
}

/// The address of the remote-control server that a command line starts,
/// if it starts one: `rcd`, `--rc`, `--rc-web-gui` or an `--rc-addr` value.
pub fn rc_addr(parsed: &ParsedRclone) -> (r: Option<String>)
    ensures
        opt_view(r) == rc_addr_spec(*parsed),
{
    let vc = chars_of(parsed.verb.as_str());
    let addr = flag_value(parsed, "--rc-addr");
    let implied = eq_str(vc.as_slice(), "rcd") || has_flag(parsed, "--rc") || has_flag(
        parsed,
        "--rc-web-gui",
    ) || addr.is_some();
    if implied {
        let raw = match addr {
            Some(v) => v,
            None => "127.0.0.1:5572",
        };
        Some(normalize_addr(raw))
    } else {
        None
    }
}

/// One argument quoted for a Windows command line: empty gives `""`, an
/// argument with a space, tab, quote, apostrophe, `&`, `^` or `%` is put in
/// double quotes with its own double quotes doubled, any other is kept.
pub fn quote_win(arg: &str) -> (r: String)
    ensures
        r@ == quote_spec(arg@),
{
    let c = chars_of(arg);
    if c.len() == 0 {
        let mut s = String::new();
        string_push(&mut s, '"');
        string_push(&mut s, '"');
        assert(s@ =~= seq!['"', '"']);
        return s;
    }
    let mut i: usize = 0;
    let mut any = false;
    while i < c.len()
        invariant
            i <= c@.len(),
            any == (exists|j: int| 0 <= j < i && needs_quote(#[trigger] c@[j])),
        decreases c.len() - i,
    {
        let ch = c[i];
        if ch == ' ' || ch == '\t' || ch == '"' || ch == '\'' || ch == '&' || ch == '^' || ch == '%' {
            any = true;
        }
        i = i + 1;
    }
    if !any {
        return string_of(c.as_slice());
    }
    let mut s = String::new();
    string_push(&mut s, '"');
    let mut k: usize = 0;
    assert(c@.take(0) =~= Seq::<char>::empty());
    while k < c.len()
        invariant
            k <= c@.len(),
            s@ == seq!['"'] + double_quotes(c@.take(k as int)),
        decreases c.len() - k,
    {
        let ch = c[k];
        assert(c@.take(k + 1).drop_last() == c@.take(k as int));
        if ch == '"' {
            string_push(&mut s, '"');
            string_push(&mut s, '"');
        } else {
            string_push(&mut s, ch);
        }
        k = k + 1;
    }
    assert(c@.take(c@.len() as int) == c@);
    string_push(&mut s, '"');
    s
}

// ---------------------------------------------------------------------------
// Laws

proof fn lemma_find_flag(m: Flags, k: Seq<char>)
    ensures
        -1 <= find_flag(m, k) < m.len(),
        find_flag(m, k) >= 0 ==> m[find_flag(m, k)].0 == k,
        find_flag(m, k) == -1 ==> forall|i: int| 0 <= i < m.len() ==> m[i].0 != k,
    decreases m.len(),
{
    if m.len() > 0 && m.last().0 != k {
        lemma_find_flag(m.drop_last(), k);
        assert forall|i: int| 0 <= i < m.len() - 1 implies m[i] == m.drop_last()[i] by {}
    }
}

proof fn lemma_insert_unique(m: Flags, k: Seq<char>, v: Option<Seq<char>>)
    requires
        flags_unique(m),
    ensures
        flags_unique(flag_insert(m, k, v)),
{
    lemma_find_flag(m, k);
    let r = flag_insert(m, k, v);
    assert forall|i: int, j: int| 0 <= i < j < r.len() implies r[i].0 != r[j].0 by {
        if find_flag(m, k) == -1 && j == m.len() {
            assert(r[i] == m[i]);
        }
    }
}

proof fn lemma_scan_unique(argv: Seq<Seq<char>>, i: int, flags: Flags, pos: Seq<Seq<char>>)
    requires
        flags_unique(flags),
    ensures
        flags_unique(scan(argv, i, flags, pos).0),
    decreases argv.len() - i,
{
    if 0 <= i < argv.len() {
        let a = argv[i];
        if a == dash2() {
        } else if has_prefix(a, dash2()) {
            match first_index(a.skip(2), '=') {
                Some(e) => {
                    lemma_insert_unique(flags, a.take(e + 2), Some(a.skip(e + 3)));
                    lemma_scan_unique(argv, i + 1, flag_insert(flags, a.take(e + 2), Some(a.skip(e + 3))), pos);
                },
                None => {
                    if is_value_flag(a) && i + 1 < argv.len() && !has_prefix(argv[i + 1], seq!['-']) {
                        lemma_insert_unique(flags, a, Some(argv[i + 1]));
                        lemma_scan_unique(argv, i + 2, flag_insert(flags, a, Some(argv[i + 1])), pos);
                    } else {
                        lemma_insert_unique(flags, a, None);
                        lemma_scan_unique(argv, i + 1, flag_insert(flags, a, None), pos);
                    }
                },
            }
        } else if has_prefix(a, seq!['-']) && a.len() > 1 {
            lemma_insert_unique(flags, a, None);
            lemma_scan_unique(argv, i + 1, flag_insert(flags, a, None), pos);
        } else {
            lemma_scan_unique(argv, i + 1, flags, pos.push(a));
        }
    }
}

/// A parsed command line lists each flag once: a repeated flag keeps one
/// entry, holding the value given last.
pub proof fn law_flags_unique(argv: Seq<Seq<char>>)
    ensures
        flags_unique(scan_all(normalize_spec(argv)).0),
{
    lemma_scan_unique(normalize_spec(argv), 1, Seq::empty(), Seq::empty());
}

/// The scan only ever adds positional arguments after those it was given.
pub proof fn lemma_scan_keeps_positional(argv: Seq<Seq<char>>, i: int, flags: Flags, pos: Seq<Seq<char>>)
    ensures
        scan(argv, i, flags, pos).1.len() >= pos.len(),
        scan(argv, i, flags, pos).1.take(pos.len() as int) == pos,
    decreases argv.len() - i,
{
    if 0 <= i < argv.len() {
        let a = argv[i];
        if a == dash2() {
            assert((pos + argv.subrange(i + 1, argv.len() as int)).take(pos.len() as int) =~= pos);
        } else if has_prefix(a, dash2()) {
            match first_index(a.skip(2), '=') {
                Some(e) => {
                    lemma_scan_keeps_positional(argv, i + 1, flag_insert(flags, a.take(e + 2), Some(a.skip(e + 3))), pos);
                },
                None => {
                    if is_value_flag(a) && i + 1 < argv.len() && !has_prefix(argv[i + 1], seq!['-']) {
                        lemma_scan_keeps_positional(argv, i + 2, flag_insert(flags, a, Some(argv[i + 1])), pos);
                    } else {
                        lemma_scan_keeps_positional(argv, i + 1, flag_insert(flags, a, None), pos);
                    }
                },
            }
        } else if has_prefix(a, seq!['-']) && a.len() > 1 {
            lemma_scan_keeps_positional(argv, i + 1, flag_insert(flags, a, None), pos);
        } else {
            lemma_scan_keeps_positional(argv, i + 1, flags, pos.push(a));
            let r = scan(argv, i + 1, flags, pos.push(a)).1;
            assert(r.take(pos.len() as int) =~= r.take(pos.len() + 1int).take(pos.len() as int));
            assert(pos.push(a).take(pos.len() as int) =~= pos);
        }
    } else {
        assert(pos.take(pos.len() as int) =~= pos);
    }
}

/// `idx` picks `s` out of `t` in order, from index 1 on: `s[k] == t[idx[k]]`
/// with `1 <= idx[0] < idx[1] < ...`.
pub open spec fn picks_from(s: Seq<Seq<char>>, t: Seq<Seq<char>>, idx: Seq<int>) -> bool {
    &&& idx.len() == s.len()
    &&& forall|k: int| 0 <= k < idx.len() ==> 1 <= #[trigger] idx[k] < t.len() && t[idx[k]] == s[k]
    &&& forall|k1: int, k2: int| 0 <= k1 < k2 < idx.len() ==> #[trigger] idx[k1] < #[trigger] idx[k2]
}

/// Every flag name in the table starts with `-`.
pub open spec fn dash_keys(m: Flags) -> bool {
    forall|j: int| 0 <= j < m.len() ==> has_prefix(#[trigger] m[j].0, seq!['-'])
}

proof fn lemma_insert_dash(m: Flags, k: Seq<char>, v: Option<Seq<char>>)
    requires
        dash_keys(m),
        has_prefix(k, seq!['-']),
    ensures
        dash_keys(flag_insert(m, k, v)),
{
    lemma_find_flag(m, k);
}

proof fn lemma_dash_prefix(a: Seq<char>, n: int)
    requires
        has_prefix(a, dash2()),
        2 <= n <= a.len(),
    ensures
        has_prefix(a, seq!['-']),
        has_prefix(a.take(n), seq!['-']),
{
    assert(a.take(2)[0] == '-');
    assert(a.take(1) =~= seq!['-']);
    assert(a.take(n).take(1) =~= a.take(1));
}

/// The scan keeps flag names that start with `-`, and picks its positional
/// arguments out of `argv` in order; `idx` shows where those given came from.
proof fn lemma_scan_shape(argv: Seq<Seq<char>>, i: int, flags: Flags, pos: Seq<Seq<char>>, idx: Seq<int>) -> (out: Seq<int>)
    requires
        i >= 1,
        dash_keys(flags),
        picks_from(pos, argv, idx),
        forall|k: int| 0 <= k < idx.len() ==> #[trigger] idx[k] < i,
    ensures
        dash_keys(scan(argv, i, flags, pos).0),
        picks_from(scan(argv, i, flags, pos).1, argv, out),
    decreases argv.len() - i,
{
    if i >= argv.len() {
        idx
    } else {
        let a = argv[i];
        if a == dash2() {
            let rest = argv.subrange(i + 1, argv.len() as int);
            let out = idx + Seq::new(rest.len(), |k: int| i + 1 + k);
            let r = pos + rest;
            assert forall|k: int| 0 <= k < out.len() implies 1 <= #[trigger] out[k] < argv.len() && argv[out[k]] == r[k] by {
                if k >= idx.len() {
                    assert(out[k] == i + 1 + (k - idx.len()));
                }
            }
            assert forall|k1: int, k2: int| 0 <= k1 < k2 < out.len() implies #[trigger] out[k1] < #[trigger] out[k2] by {
                if k2 >= idx.len() && k1 < idx.len() {
                    assert(idx[k1] < i);
                }
            }
            out
        } else if has_prefix(a, dash2()) {
            match first_index(a.skip(2), '=') {
                Some(e) => {
                    crate::text::lemma_first_index_range(a.skip(2), '=');
                    lemma_dash_prefix(a, e + 2);
                    lemma_insert_dash(flags, a.take(e + 2), Some(a.skip(e + 3)));
                    lemma_scan_shape(argv, i + 1, flag_insert(flags, a.take(e + 2), Some(a.skip(e + 3))), pos, idx)
                },
                None => {
                    lemma_dash_prefix(a, 2);
                    if is_value_flag(a) && i + 1 < argv.len() && !has_prefix(argv[i + 1], seq!['-']) {
                        lemma_insert_dash(flags, a, Some(argv[i + 1]));
                        lemma_scan_shape(argv, i + 2, flag_insert(flags, a, Some(argv[i + 1])), pos, idx)
                    } else {
                        lemma_insert_dash(flags, a, None);
                        lemma_scan_shape(argv, i + 1, flag_insert(flags, a, None), pos, idx)
                    }
                },
            }
        } else if has_prefix(a, seq!['-']) && a.len() > 1 {
            lemma_insert_dash(flags, a, None);
            lemma_scan_shape(argv, i + 1, flag_insert(flags, a, None), pos, idx)
        } else {
            let idx2 = idx.push(i);
            assert(picks_from(pos.push(a), argv, idx2)) by {
                assert forall|k1: int, k2: int| 0 <= k1 < k2 < idx2.len() implies #[trigger] idx2[k1] < #[trigger] idx2[k2] by {
                    if k2 == idx.len() {
                        assert(idx[k1] < i);
                    }
                }
            }
            lemma_scan_shape(argv, i + 1, flags, pos.push(a), idx2)
        }
    }
}

/// What `parse_argv` takes apart stays within the command line: its
/// positional arguments are picked, in order, from the (normalized)
/// arguments after the program, and every flag name starts with `-`.
pub proof fn law_parse_shape(argv: Seq<Seq<char>>)
    ensures
        exists|idx: Seq<int>| picks_from(scan_all(normalize_spec(argv)).1, normalize_spec(argv), idx),
        dash_keys(scan_all(normalize_spec(argv)).0),
{
    let idx = lemma_scan_shape(normalize_spec(argv), 1, Seq::empty(), Seq::empty(), Seq::empty());
    assert(picks_from(scan_all(normalize_spec(argv)).1, normalize_spec(argv), idx));
}

/// The flags of rclone that take their value from the next argument, each
/// by name: the remote-control address, user, password, htpasswd file,
/// certificate, key, client CA and job expiry; the cache directory and the
/// VFS cache and read settings; buffer and bandwidth limits; config and
/// log files, log level and format; stats; volume name, uid, gid, umask;
/// attribute and network timeouts and retries; bind address and user
/// agent; multi-thread settings, transfers, checkers, depth, hash type,
/// free-space floor, transactions per second, permissions and drive chunk
/// size.
pub proof fn law_value_flags_listed()
    ensures
        is_value_flag("--rc-addr"@),
        is_value_flag("--rc-user"@),
        is_value_flag("--rc-pass"@),
        is_value_flag("--rc-htpasswd"@),
        is_value_flag("--rc-cert"@),
        is_value_flag("--rc-key"@),
        is_value_flag("--rc-client-ca"@),
        is_value_flag("--rc-job-expire-duration"@),
        is_value_flag("--rc-job-expire-interval"@),
        is_value_flag("--cache-dir"@),
        is_value_flag("--vfs-cache-mode"@),
        is_value_flag("--vfs-cache-max-size"@),
        is_value_flag("--vfs-cache-max-age"@),
        is_value_flag("--vfs-cache-poll-interval"@),
        is_value_flag("--vfs-write-back"@),
        is_value_flag("--vfs-read-ahead"@),
        is_value_flag("--vfs-read-chunk-size"@),
        is_value_flag("--vfs-read-chunk-size-limit"@),
        is_value_flag("--vfs-disk-space-total-size"@),
        is_value_flag("--dir-cache-time"@),
        is_value_flag("--poll-interval"@),
        is_value_flag("--buffer-size"@),
        is_value_flag("--bwlimit"@),
        is_value_flag("--bwlimit-file"@),
        is_value_flag("--config"@),
        is_value_flag("--log-file"@),
        is_value_flag("--log-level"@),
        is_value_flag("--log-format"@),
        is_value_flag("--stats"@),
        is_value_flag("--stats-file-name-length"@),
        is_value_flag("--volname"@),
        is_value_flag("--uid"@),
        is_value_flag("--gid"@),
        is_value_flag("--umask"@),
        is_value_flag("--attr-timeout"@),
        is_value_flag("--timeout"@),
        is_value_flag("--contimeout"@),
        is_value_flag("--retries"@),
        is_value_flag("--retries-sleep"@),
        is_value_flag("--low-level-retries"@),
        is_value_flag("--bind"@),
        is_value_flag("--user-agent"@),
        is_value_flag("--multi-thread-cutoff"@),
        is_value_flag("--multi-thread-streams"@),
        is_value_flag("--transfers"@),
        is_value_flag("--checkers"@),
        is_value_flag("--max-depth"@),
        is_value_flag("--sfn-hash-type"@),
        is_value_flag("--vfs-cache-min-free-space"@),
        is_value_flag("--tpslimit"@),
        is_value_flag("--tpslimit-burst"@),
        is_value_flag("--file-perms"@),
        is_value_flag("--dir-perms"@),
        is_value_flag("--drive-chunk-size"@),
{
}

proof fn lemma_find_flag_same_keys(m: Flags, m2: Flags, k: Seq<char>)
    requires
        m.len() == m2.len(),
        forall|j: int| 0 <= j < m.len() ==> #[trigger] m[j].0 == m2[j].0,
    ensures
        find_flag(m, k) == find_flag(m2, k),
    decreases m.len(),
{
    if m.len() > 0 {
        lemma_find_flag_same_keys(m.drop_last(), m2.drop_last(), k);
    }
}

proof fn lemma_get_insert(m: Flags, k: Seq<char>, v: Option<Seq<char>>, k2: Seq<char>)
    ensures
        flag_get(flag_insert(m, k, v), k2) == (if k2 == k { Some(v) } else { flag_get(m, k2) }),
{
    lemma_find_flag(m, k);
    lemma_find_flag(m, k2);
    let j = find_flag(m, k);
    let r = flag_insert(m, k, v);
    if j >= 0 {
        lemma_find_flag_same_keys(m, r, k2);
        lemma_find_flag_same_keys(m, r, k);
    } else {
        assert(r.drop_last() =~= m);
    }
}

/// Until the scan reaches index `i` (a word starting with `-`, with no `--`
/// on the way), it never steps over `i`.
proof fn lemma_scan_reaches(argv: Seq<Seq<char>>, j: int, flags: Flags, pos: Seq<Seq<char>>, i: int) -> (st: (Flags, Seq<Seq<char>>))
    requires
        0 <= j <= i < argv.len(),
        has_prefix(argv[i], seq!['-']),
        forall|k: int| j <= k < i ==> #[trigger] argv[k] != dash2(),
    ensures
        scan(argv, j, flags, pos) == scan(argv, i, st.0, st.1),
    decreases i - j,
{
    if j == i {
        (flags, pos)
    } else {
        let a = argv[j];
        if has_prefix(a, dash2()) {
            match first_index(a.skip(2), '=') {
                Some(e) => lemma_scan_reaches(argv, j + 1, flag_insert(flags, a.take(e + 2), Some(a.skip(e + 3))), pos, i),
                None => if is_value_flag(a) && j + 1 < argv.len() && !has_prefix(argv[j + 1], seq!['-']) {
                    lemma_scan_reaches(argv, j + 2, flag_insert(flags, a, Some(argv[j + 1])), pos, i)
                } else {
                    lemma_scan_reaches(argv, j + 1, flag_insert(flags, a, None), pos, i)
                },
            }
        } else if has_prefix(a, seq!['-']) && a.len() > 1 {
            lemma_scan_reaches(argv, j + 1, flag_insert(flags, a, None), pos, i)
        } else {
            lemma_scan_reaches(argv, j + 1, flags, pos.push(a), i)
        }
    }
}

/// A scan over words none of which starts with `f` leaves the entry of `f` alone.
proof fn lemma_scan_keeps_flag(argv: Seq<Seq<char>>, j: int, flags: Flags, pos: Seq<Seq<char>>, f: Seq<char>)
    requires
        0 <= j,
        forall|k: int| j <= k < argv.len() ==> !has_prefix(#[trigger] argv[k], f),
    ensures
        flag_get(scan(argv, j, flags, pos).0, f) == flag_get(flags, f),
    decreases argv.len() - j,
{
    if j < argv.len() {
        let a = argv[j];
        assert(!has_prefix(a, f));
        assert(a.take(a.len() as int) =~= a);
        if a == dash2() {
        } else if has_prefix(a, dash2()) {
            match first_index(a.skip(2), '=') {
                Some(e) => {
                    crate::text::lemma_first_index_range(a.skip(2), '=');
                    assert(a.take(e + 2).len() == e + 2);
                    if a.take(e + 2) == f {
                        assert(a.take(f.len() as int) == f);
                    }
                    lemma_get_insert(flags, a.take(e + 2), Some(a.skip(e + 3)), f);
                    lemma_scan_keeps_flag(argv, j + 1, flag_insert(flags, a.take(e + 2), Some(a.skip(e + 3))), pos, f);
                },
                None => if is_value_flag(a) && j + 1 < argv.len() && !has_prefix(argv[j + 1], seq!['-']) {
                    lemma_get_insert(flags, a, Some(argv[j + 1]), f);
                    lemma_scan_keeps_flag(argv, j + 2, flag_insert(flags, a, Some(argv[j + 1])), pos, f);
                } else {
                    lemma_get_insert(flags, a, None, f);
                    lemma_scan_keeps_flag(argv, j + 1, flag_insert(flags, a, None), pos, f);
                },
            }
        } else if has_prefix(a, seq!['-']) && a.len() > 1 {
            lemma_get_insert(flags, a, None, f);
            lemma_scan_keeps_flag(argv, j + 1, flag_insert(flags, a, None), pos, f);
        } else {
            lemma_scan_keeps_flag(argv, j + 1, flags, pos.push(a), f);
        }
    }
}

/// A flag that takes a value gets the word after it: when the (normalized)
/// command line has such a flag `f` at index `i` (before any `--`), followed
/// by a word that does not start with `-`, and no later word starts with
/// `f`, the parsed value of `f` is that word.
pub proof fn law_value_flag_takes_next(argv: Seq<Seq<char>>, p: ParsedRclone, f: Seq<char>, i: int)
    requires
        parsed_from(p, argv),
        is_value_flag(f),
        has_prefix(f, dash2()),
        f != dash2(),
        first_index(f.skip(2), '=') is None,
        1 <= i,
        i + 1 < normalize_spec(argv).len(),
        normalize_spec(argv)[i] == f,
        !has_prefix(normalize_spec(argv)[i + 1], seq!['-']),
        forall|k: int| 1 <= k < i ==> #[trigger] normalize_spec(argv)[k] != dash2(),
        forall|k: int| i + 2 <= k < normalize_spec(argv).len() ==> !has_prefix(#[trigger] normalize_spec(argv)[k], f),
    ensures
        spec_flag_value(p, f) == Some(normalize_spec(argv)[i + 1]),
{
    let n = normalize_spec(argv);
    assert(f.take(1) =~= f.take(2).take(1));
    assert(dash2().take(1) =~= seq!['-']);
    assert(has_prefix(f, seq!['-']));
    let st = lemma_scan_reaches(n, 1, Seq::empty(), Seq::empty(), i);
    let fl = flag_insert(st.0, f, Some(n[i + 1]));
    assert(scan(n, i, st.0, st.1) == scan(n, i + 2, fl, st.1));
    lemma_scan_keeps_flag(n, i + 2, fl, st.1, f);
    lemma_get_insert(st.0, f, Some(n[i + 1]), f);
}

/// The address a running rclone serves remote control on is the one its
/// command line gives after `--rc-addr`: for the line LiClone itself builds
/// (`--rc --rc-no-auth --rc-addr 127.0.0.1:<port>` at the end), the parsed
/// address is that `host:port`, not the default.
pub proof fn law_rc_addr_from_command_line(argv: Seq<Seq<char>>, p: ParsedRclone, i: int)
    requires
        parsed_from(p, argv),
        1 <= i,
        i + 1 < normalize_spec(argv).len(),
        normalize_spec(argv)[i] == "--rc-addr"@,
        !has_prefix(normalize_spec(argv)[i + 1], seq!['-']),
        forall|k: int| 1 <= k < i ==> #[trigger] normalize_spec(argv)[k] != dash2(),
        forall|k: int| i + 2 <= k < normalize_spec(argv).len() ==> !has_prefix(#[trigger] normalize_spec(argv)[k], "--rc-addr"@),
    ensures
        spec_flag_value(p, "--rc-addr"@) == Some(normalize_spec(argv)[i + 1]),
        rc_addr_spec(p) == Some(normalize_addr_spec(normalize_spec(argv)[i + 1])),
{
    reveal_strlit("--rc-addr");
    reveal_strlit("--");
    let f = "--rc-addr"@;
    assert(f.take(2) =~= dash2());
    assert(f != dash2());
    crate::text::lemma_first_index_none(f.skip(2), '=');
    law_value_flag_takes_next(argv, p, f, i);
}

/// An argument holding a space, a tab, a double quote, an apostrophe, `&`,
/// `^` or `%` is put in double quotes, so that `cmd.exe` keeps it whole.
pub proof fn law_quote_win_wraps(arg: Seq<char>, i: int)
    requires
        0 <= i < arg.len(),
        arg[i] == ' ' || arg[i] == '\t' || arg[i] == '"' || arg[i] == '\'' || arg[i] == '&' || arg[i] == '^'
            || arg[i] == '%',
    ensures
        quote_spec(arg).len() >= 2,
        quote_spec(arg)[0] == '"',
        quote_spec(arg).last() == '"',
{
    assert(needs_quote(arg[i]));
    let q = seq!['"'] + double_quotes(arg) + seq!['"'];
    assert(q[0] == '"');
    assert(q.last() == '"');
}

/// A non-empty argument holding none of those characters is left as it
/// is, and an empty one becomes `""`.
pub proof fn law_quote_win_bare(arg: Seq<char>)
    requires
        forall|j: int|
            0 <= j < arg.len() ==> !(#[trigger] arg[j] == ' ' || arg[j] == '\t' || arg[j] == '"' || arg[j] == '\''
                || arg[j] == '&' || arg[j] == '^' || arg[j] == '%'),
    ensures
        arg.len() > 0 ==> quote_spec(arg) == arg,
        arg.len() == 0 ==> quote_spec(arg) == seq!['"', '"'],
{
    assert forall|j: int| 0 <= j < arg.len() implies !needs_quote(#[trigger] arg[j]) by {}
}

/// Words joined by single spaces.
pub open spec fn join_words(ws: Seq<Seq<char>>) -> Seq<char>
    decreases ws.len(),
{
    if ws.len() == 0 {
        Seq::empty()
    } else if ws.len() == 1 {
        ws[0]
    } else {
        join_words(ws.drop_last()) + seq![' '] + ws.last()
    }
}

/// `words.join(" ")`.
pub fn join_spaced(words: &Vec<String>) -> (r: String)
    ensures
        r@ == join_words(views(words@)),
{
    let ghost w = views(words@);
    let mut r = String::new();
    let mut i: usize = 0;
    while i < words.len()
        invariant
            i <= words@.len(),
            w == views(words@),
            r@ == join_words(w.take(i as int)),
        decreases words.len() - i,
    {
        let ghost before = r@;
        assert(w.take(i + 1).drop_last() == w.take(i as int));
        if i > 0 {
            string_push(&mut r, ' ');
        }
        push_str(&mut r, words[i].as_str());
        proof {
            if i == 0 {
                assert(r@ =~= w[0]);
            } else {
                assert(r@ =~= before + seq![' '] + w[i as int]);
            }
        }
        i = i + 1;
    }
    assert(w.take(w.len() as int) == w);
    r
}

/// Each argument quoted with `quote_win`, then joined by single spaces.
pub open spec fn command_line_spec(args: Seq<Seq<char>>) -> Seq<char> {
    join_words(Seq::new(args.len(), |i: int| quote_spec(args[i])))
}

/// An argument that survives quoting and splitting unchanged: not empty,
/// no double quote, no whitespace other than space and tab, and, where it
/// is put in quotes, no backslash at its end (the closing quote would take it).
pub open spec fn plain_arg(a: Seq<char>) -> bool {
    &&& a.len() > 0
    &&& forall|j: int| 0 <= j < a.len() ==> #[trigger] a[j] != '"' && (is_ws(a[j]) ==> (a[j] == ' ' || a[j] == '\t'))
    &&& (exists|i: int| 0 <= i < a.len() && needs_quote(#[trigger] a[i])) ==> a.last() != '\\'
}

/// The splitter's state after reading `t` from state `st`.
pub open spec fn split_from(st: SplitState, t: Seq<char>) -> SplitState
    decreases t.len(),
{
    if t.len() == 0 {
        st
    } else {
        split_step(split_from(st, t.drop_last()), t.last())
    }
}

proof fn lemma_split_from_concat(st: SplitState, t: Seq<char>, u: Seq<char>)
    ensures
        split_from(st, t + u) == split_from(split_from(st, t), u),
    decreases u.len(),
{
    if u.len() == 0 {
        assert(t + u =~= t);
    } else {
        assert((t + u).drop_last() =~= t + u.drop_last());
        lemma_split_from_concat(st, t, u.drop_last());
    }
}

proof fn lemma_split_run_from(s: Seq<char>)
    ensures
        split_run(s) == split_from((Seq::empty(), Seq::empty(), false, 0), s),
    decreases s.len(),
{
    if s.len() > 0 {
        lemma_split_run_from(s.drop_last());
    }
}

/// Reading a stretch with no double quote (and, outside quotes, no
/// whitespace) only extends the pending word; after a last character that is
/// not a backslash nothing is left pending.
proof fn lemma_split_word(st: SplitState, w: Seq<char>)
    requires
        forall|j: int| 0 <= j < w.len() ==> #[trigger] w[j] != '"' && (!st.2 ==> !is_ws(w[j])),
    ensures
        split_from(st, w).0 == st.0,
        split_from(st, w).2 == st.2,
        pending_word(split_from(st, w)) == pending_word(st) + w,
        w.len() > 0 && w.last() != '\\' ==> split_from(st, w).3 == 0,
    decreases w.len(),
{
    if w.len() == 0 {
        assert(pending_word(st) + w =~= pending_word(st));
    } else {
        let s0 = split_from(st, w.drop_last());
        lemma_split_word(st, w.drop_last());
        let c = w.last();
        assert(pending_word(st) + w =~= (pending_word(st) + w.drop_last()).push(c));
        if c == '\\' {
            assert(pending_word(split_step(s0, c)) =~= pending_word(s0).push(c));
        } else {
            assert(backslashes(0) =~= Seq::<char>::empty());
            assert(pending_word(split_step(s0, c)) =~= pending_word(s0).push(c));
        }
    }
}

proof fn lemma_double_quotes_plain(w: Seq<char>)
    requires
        forall|j: int| 0 <= j < w.len() ==> #[trigger] w[j] != '"',
    ensures
        double_quotes(w) == w,
    decreases w.len(),
{
    if w.len() > 0 {
        lemma_double_quotes_plain(w.drop_last());
        assert(w.drop_last().push(w.last()) =~= w);
    }
}

/// Reading one quoted plain argument from a fresh word leaves that argument
/// pending, outside quotes.
proof fn lemma_split_one(out: Seq<Seq<char>>, w: Seq<char>)
    requires
        plain_arg(w),
    ensures
        split_from((out, Seq::empty(), false, 0), quote_spec(w)).0 == out,
        !split_from((out, Seq::empty(), false, 0), quote_spec(w)).2,
        pending_word(split_from((out, Seq::empty(), false, 0), quote_spec(w))) == w,
{
    let st: SplitState = (out, Seq::<char>::empty(), false, 0);
    assert(backslashes(0) =~= Seq::<char>::empty());
    assert(Seq::<char>::empty() + Seq::<char>::empty() =~= Seq::<char>::empty());
    assert(pending_word(st) =~= Seq::<char>::empty());
    assert(Seq::<char>::empty() + w =~= w);
    if exists|i: int| 0 <= i < w.len() && needs_quote(#[trigger] w[i]) {
        lemma_double_quotes_plain(w);
        let q = seq!['"'] + w + seq!['"'];
        assert(quote_spec(w) == q);
        lemma_split_from_concat(st, seq!['"'] + w, seq!['"']);
        lemma_split_from_concat(st, seq!['"'], w);
        assert(seq!['"'].drop_last() =~= Seq::<char>::empty());
        assert(split_from(st, seq!['"']) == split_step(split_from(st, Seq::<char>::empty()), '"'));
        let s1: SplitState = (out, Seq::<char>::empty(), true, 0);
        assert(split_from(st, seq!['"']) == s1);
        assert(pending_word(s1) =~= Seq::<char>::empty());
        lemma_split_word(s1, w);
        let s2 = split_from(s1, w);
        assert(split_from(s2, seq!['"']) == split_step(split_from(s2, Seq::<char>::empty()), '"'));
        assert(s2.3 == 0);
        assert(pending_word(s2) == s2.1 + backslashes(0));
        assert(s2.1 + backslashes(0) =~= s2.1);
        assert(pending_word(split_from(s2, seq!['"'])) =~= s2.1);
    } else {
        assert forall|j: int| 0 <= j < w.len() implies #[trigger] w[j] != '"' && (!st.2 ==> !is_ws(w[j])) by {
            if is_ws(w[j]) {
                assert(needs_quote(w[j]));
            }
            if w[j] == '"' {
                assert(needs_quote(w[j]));
            }
        }
        lemma_split_word(st, w);
    }
}

proof fn lemma_split_command_line(args: Seq<Seq<char>>)
    requires
        args.len() > 0,
        forall|i: int| 0 <= i < args.len() ==> plain_arg(#[trigger] args[i]),
    ensures
        split_run(command_line_spec(args)).0 == args.drop_last(),
        !split_run(command_line_spec(args)).2,
        pending_word(split_run(command_line_spec(args))) == args.last(),
    decreases args.len(),
{
    let q = Seq::new(args.len(), |i: int| quote_spec(args[i]));
    lemma_split_run_from(command_line_spec(args));
    if args.len() == 1 {
        lemma_split_one(Seq::empty(), args[0]);
        assert(args.drop_last() =~= Seq::<Seq<char>>::empty());
    } else {
        let init = args.drop_last();
        lemma_split_command_line(init);
        assert(q.drop_last() =~= Seq::new(init.len(), |i: int| quote_spec(init[i])));
        let l0 = command_line_spec(init);
        assert(command_line_spec(args) == l0 + seq![' '] + q.last());
        lemma_split_run_from(l0);
        let st0: SplitState = (Seq::<Seq<char>>::empty(), Seq::<char>::empty(), false, 0);
        lemma_split_from_concat(st0, l0 + seq![' '], q.last());
        lemma_split_from_concat(st0, l0, seq![' ']);
        assert(seq![' '].drop_last() =~= Seq::<char>::empty());
        assert(is_ws(' '));
        let x = split_from(st0, l0);
        assert(x.0 == init.drop_last() && !x.2 && pending_word(x) == init.last());
        assert(split_from(x, seq![' ']) == split_step(split_from(x, Seq::<char>::empty()), ' '));
        assert(plain_arg(init.last()));
        assert(init.drop_last().push(init.last()) =~= init);
        assert(split_from(x, seq![' ']) == (init, Seq::<char>::empty(), false, 0nat));
        lemma_split_one(init, args.last());
    }
}

/// Quoting each argument with `quote_win` and joining them with spaces gives
/// a command line that `split_cmdline` takes back apart into the same
/// arguments, whenever no argument is empty, holds a double quote or
/// whitespace other than space and tab, or ends in a backslash where it is
/// put in quotes.
pub proof fn law_split_undoes_quote(args: Seq<Seq<char>>)
    requires
        forall|i: int| 0 <= i < args.len() ==> plain_arg(#[trigger] args[i]),
    ensures
        split_spec(command_line_spec(args)) == args,
{
    if args.len() == 0 {
        assert(command_line_spec(args) == Seq::<char>::empty());
        assert(backslashes(0) =~= Seq::<char>::empty());
        assert(pending_word(split_run(Seq::<char>::empty())) =~= Seq::<char>::empty());
    } else {
        lemma_split_command_line(args);
        assert(args.drop_last().push(args.last()) =~= args);
    }
}

} // verus!
