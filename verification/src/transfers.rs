//! Uploads seen from the VFS cache: which cached files rclone has not
//! uploaded yet, which of them are still being written, which uploads
//! finished between two looks, and the errors a log file reports.

use vstd::prelude::*;

use crate::json::{get_member, get_member2, json_of, member, member2, parse_json, JsonValue};
use crate::text::{
    all_digits, digits_value, parse_bounded, byte_len, byte_len_exceeds, chars_of, concat, contains_str, has_infix, lines_of, lines_spec, lower_all,
    lower_seq, trim, trim_chars, string_of, views, eq_chars, decimal, decimal_string, push_str,
};

verus! {

broadcast use vstd::string::group_string_axioms;

/// Where a file that is not uploaded yet stands.
#[derive(Debug, Clone, Copy, PartialEq, Eq)]
pub enum Phase {
    /// Something is still writing it.
    Writing,
    /// Written, waiting for rclone to upload it.
    Queued,
}

/// An integer as `serde_json` prints it, when it fits an `i64`: digits, or
/// `-` and digits. Any other value (a fraction, an exponent, a string) is
/// `None`, as `i64` deserialisation refuses it.
pub open spec fn json_i64(v: JsonValue) -> Option<i64> {
    match v {
        JsonValue::Number(t, _) => {
            let neg = t@.len() > 0 && t@[0] == '-';
            let d = if neg { t@.drop_first() } else { t@ };
            if d.len() > 0 && all_digits(d) {
                let n = digits_value(d);
                if neg && n <= 0x8000_0000_0000_0000 {
                    Some((0 - n) as i64)
                } else if !neg && n <= 0x7fff_ffff_ffff_ffff {
                    Some(n as i64)
                } else {
                    None
                }
            } else {
                None
            }
        },
        _ => None,
    }
}

/// A record's dirty flag: `false` when absent, else it must be a boolean.
pub open spec fn meta_dirty(v: Option<JsonValue>) -> Option<bool> {
    match v {
        None => Some(false),
        Some(JsonValue::Bool(b)) => Some(b),
        Some(_) => None,
    }
}

/// A record's size: 0 when absent, else it must be an integer that fits an `i64`.
pub open spec fn meta_size(v: Option<JsonValue>) -> Option<i64> {
    match v {
        None => Some(0),
        Some(x) => json_i64(x),
    }
}

/// Both fields, when both were read.
pub open spec fn meta_pair(d: Option<bool>, s: Option<i64>) -> Option<(bool, i64)> {
    match (d, s) {
        (Some(a), Some(b)) => Some((a, b)),
        _ => None,
    }
}

/// A cache metadata record read as rclone's record type with fields
/// `dirty` (also spelled `Dirty`) and `size` (also `Size`), both optional:
/// an object, where a field given under both spellings is refused and other
/// members are ignored; or an array of at most two items, dirty flag then
/// size. Anything else is refused (`None`).
pub open spec fn meta_spec(doc: Option<JsonValue>) -> Option<(bool, i64)> {
    match doc {
        Some(JsonValue::Object(m, _)) => if (member(m@, "Dirty"@) is Some && member(m@, "dirty"@) is Some) || (
        member(m@, "Size"@) is Some && member(m@, "size"@) is Some) {
            None
        } else {
            meta_pair(meta_dirty(member2(m@, "Dirty"@, "dirty"@)), meta_size(member2(m@, "Size"@, "size"@)))
        },
        Some(JsonValue::Array(items, _)) => if items@.len() > 2 {
            None
        } else {
            meta_pair(
                meta_dirty(if items@.len() > 0 { Some(items@[0]) } else { None }),
                meta_size(if items@.len() > 1 { Some(items@[1]) } else { None }),
            )
        },
        _ => None,
    }
}

/// A JSON number as an `i64`, when it is an integer that fits.
pub fn number_i64(v: &JsonValue) -> (r: Option<i64>)
    ensures
        r == json_i64(*v),
{
    match v {
        JsonValue::Number(t, _) => {
            let c = chars_of(t.as_str());
            let neg = c.len() > 0 && c[0] == '-';
            let start: usize = if neg { 1 } else { 0 };
            let mut d: Vec<char> = Vec::new();
            let mut i: usize = start;
            while i < c.len()
                invariant
                    start <= i <= c@.len(),
                    start <= c@.len(),
                    d@ == c@.subrange(start as int, i as int),
                decreases c.len() - i,
            {
                d.push(c[i]);
                i = i + 1;
            }
            assert(d@ == (if neg { t@.drop_first() } else { t@ }));
            if d.len() == 0 || d[0] == '+' {
                return None;
            }
            match parse_bounded(d.as_slice(), 0x8000_0000_0000_0000) {
                Some(n) => if neg {
                    if n == 0x8000_0000_0000_0000 {
                        Some(i64::MIN)
                    } else {
                        Some(0 - (n as i64))
                    }
                } else if n <= 0x7fff_ffff_ffff_ffff {
                    Some(n as i64)
                } else {
                    None
                },
                None => None,
            }
        },
        _ => None,
    }
}

/// What a cache metadata record says: whether the file is dirty, and its
/// size (see `meta_spec`); `None` when rclone's record type would refuse it.
pub fn meta_fields(doc: Option<JsonValue>) -> (r: Option<(bool, i64)>)
    ensures
        r == meta_spec(doc),
{
    match doc {
        Some(JsonValue::Object(m, _)) => {
            if get_member(&m, "Dirty").is_some() && get_member(&m, "dirty").is_some() {
                return None;
            }
            if get_member(&m, "Size").is_some() && get_member(&m, "size").is_some() {
                return None;
            }
            let dirty = match get_member2(&m, "Dirty", "dirty") {
                None => false,
                Some(JsonValue::Bool(b)) => *b,
                Some(_) => return None,
            };
            let size = match get_member2(&m, "Size", "size") {
                None => 0,
                Some(x) => match number_i64(x) {
                    Some(n) => n,
                    None => return None,
                },
            };
            Some((dirty, size))
        },
        Some(JsonValue::Array(items, _)) => {
            if items.len() > 2 {
                return None;
            }
            let dirty = if items.len() > 0 {
                match &items[0] {
                    JsonValue::Bool(b) => *b,
                    _ => return None,
                }
            } else {
                false
            };
            let size = if items.len() > 1 {
                match number_i64(&items[1]) {
                    Some(n) => n,
                    None => return None,
                }
            } else {
                0
            };
            Some((dirty, size))
        },
        _ => None,
    }
}

/// What a cache metadata record says, given its text: the text parsed as
/// JSON, then read as `meta_fields` reads it. The parsed document keeps a
/// name repeated in the text once, so a field repeated under the same
/// spelling is read with its last value rather than refused.
pub fn meta_fields_text(text: &str) -> (r: Option<(bool, i64)>)
    ensures
        r == meta_spec(json_of(text@)),
{
    meta_fields(parse_json(text))
}

/// The size a pending file will have: what its metadata record says when
/// positive, else what is on disk, and never less than what is on disk.
pub open spec fn local_size(meta_size: i64, on_disk: u64) -> i64 {
    let expected = if meta_size > 0 { meta_size } else { on_disk as i64 };
    if expected >= on_disk as i64 {
        expected
    } else {
        on_disk as i64
    }
}

/// Whether a pending file is still being written: it grows faster than
/// 256 bytes a second, or it is new, was modified in the last seconds and
/// lacks more than 4 KiB of its size.
pub open spec fn writing(meta_size: i64, on_disk: u64, seen_before: bool, fast: bool, fresh: bool) -> bool {
    fast || (!seen_before && fresh && (on_disk + 4096) < (local_size(meta_size, on_disk) as u64))
}

/// What a cache metadata record makes of its file: nothing when the file
/// is not marked dirty (its bytes are in the cloud), else its phase and
/// size. `fast` says whether it grew faster than 256 bytes a second since
/// the last look, `fresh` whether it was modified in the last 8 seconds.
pub fn classify_dirty(dirty: bool, meta_size: i64, on_disk: u64, seen_before: bool, fast: bool, fresh: bool) -> (r: Option<(Phase, i64)>)
    requires
        !seen_before && fresh ==> on_disk + 4096 <= u64::MAX,
    ensures
        !dirty ==> r is None,
        dirty ==> r == Some((
            if writing(meta_size, on_disk, seen_before, fast, fresh) { Phase::Writing } else { Phase::Queued },
            local_size(meta_size, on_disk),
        )),
{
    if !dirty {
        return None;
    }
    let disk = on_disk as i64;
    let expected = if meta_size > 0 { meta_size } else { disk };
    let size = if expected >= disk { expected } else { disk };
    let still_writing = fast || (!seen_before && fresh && on_disk + 4096 < size as u64);
    if still_writing {
        Some((Phase::Writing, size))
    } else {
        Some((Phase::Queued, size))
    }
}

/// Counts for the pending files of the caches: queued, being written, and
/// their bytes on disk.
#[derive(Debug, Clone, Copy, PartialEq, Eq)]
pub struct DirtyTally {
    pub queued: u64,
    pub uploading: u64,
    pub dirty_bytes: u64,
}

/// Counts one pending file.
pub fn tally(t: DirtyTally, phase: Phase, on_disk: u64) -> (r: DirtyTally)
    requires
        t.dirty_bytes + on_disk <= u64::MAX,
        phase == Phase::Queued ==> t.queued < u64::MAX,
        phase == Phase::Writing ==> t.uploading < u64::MAX,
    ensures
        r.dirty_bytes == t.dirty_bytes + on_disk,
        r.queued == t.queued + if phase == Phase::Queued { 1int } else { 0int },
        r.uploading == t.uploading + if phase == Phase::Writing { 1int } else { 0int },
{
    match phase {
        Phase::Queued => DirtyTally { queued: t.queued + 1, uploading: t.uploading, dirty_bytes: t.dirty_bytes + on_disk },
        Phase::Writing => DirtyTally { queued: t.queued, uploading: t.uploading + 1, dirty_bytes: t.dirty_bytes + on_disk },
    }
}

pub type SizeView = (Seq<char>, i64);

pub open spec fn size_views(s: Seq<(String, i64)>) -> Seq<SizeView> {
    Seq::new(s.len(), |i: int| (s[i].0@, s[i].1))
}

/// Position of `name` in a table, or -1.
pub open spec fn name_index(m: Seq<SizeView>, name: Seq<char>) -> int
    decreases m.len(),
{
    if m.len() == 0 {
        -1
    } else if m.last().0 == name {
        m.len() - 1
    } else {
        name_index(m.drop_last(), name)
    }
}

/// The table of pending files by name: each name once, at its first
/// place, with the size it was last seen with.
pub open spec fn size_table(s: Seq<SizeView>) -> Seq<SizeView>
    decreases s.len(),
{
    if s.len() == 0 {
        s
    } else {
        let m = size_table(s.drop_last());
        let j = name_index(m, s.last().0);
        if j >= 0 {
            m.update(j, s.last())
        } else {
            m.push(s.last())
        }
    }
}

proof fn lemma_name_index(m: Seq<SizeView>, name: Seq<char>)
    ensures
        -1 <= name_index(m, name) < m.len(),
        name_index(m, name) >= 0 ==> m[name_index(m, name)].0 == name,
        name_index(m, name) < 0 ==> forall|k: int| 0 <= k < m.len() ==> m[k].0 != name,
    decreases m.len(),
{
    if m.len() > 0 {
        let t = m.drop_last();
        lemma_name_index(t, name);
        if name_index(t, name) >= 0 {
            assert(m[name_index(t, name)] == t[name_index(t, name)]);
        }
        if m.last().0 != name && name_index(t, name) < 0 {
            assert forall|k: int| 0 <= k < m.len() implies m[k].0 != name by {
                if k < m.len() - 1 {
                    assert(m[k] == t[k]);
                }
            }
        }
    }
}

/// Position of `name` in `m`, searched from the end.
fn find_name(m: &Vec<(String, i64)>, name: &str) -> (r: Option<usize>)
    ensures
        match r {
            Some(j) => name_index(size_views(m@), name@) == j as int,
            None => name_index(size_views(m@), name@) == -1,
        },
{
    let nc = chars_of(name);
    let mut k: usize = m.len();
    assert(size_views(m@).take(m@.len() as int) =~= size_views(m@));
    while k > 0
        invariant
            k <= m@.len(),
            nc@ == name@,
            name_index(size_views(m@), name@) == name_index(size_views(m@).take(k as int), name@),
        decreases k,
    {
        let ghost t = size_views(m@).take(k as int);
        assert(t.drop_last() =~= size_views(m@).take(k - 1));
        if eq_chars(chars_of(m[k - 1].0.as_str()).as_slice(), nc.as_slice()) {
            return Some(k - 1);
        }
        k = k - 1;
    }
    None
}

/// The pending files seen now, as a table by name.
pub fn dirty_sizes(items: &Vec<(String, i64)>) -> (r: Vec<(String, i64)>)
    ensures
        size_views(r@) == size_table(size_views(items@)),
{
    let mut out: Vec<(String, i64)> = Vec::new();
    let mut i: usize = 0;
    while i < items.len()
        invariant
            i <= items@.len(),
            size_views(out@) == size_table(size_views(items@).take(i as int)),
        decreases items.len() - i,
    {
        let ghost s = size_views(items@).take(i + 1);
        assert(s.drop_last() =~= size_views(items@).take(i as int));
        let ghost before = size_views(out@);
        proof {
            lemma_name_index(before, s.last().0);
        }
        match find_name(&out, items[i].0.as_str()) {
            Some(j) => {
                out.set(j, (items[i].0.clone(), items[i].1));
                assert(size_views(out@) =~= before.update(j as int, s.last()));
            },
            None => {
                out.push((items[i].0.clone(), items[i].1));
                assert(size_views(out@) =~= before.push(s.last()));
            },
        }
        i = i + 1;
    }
    assert(size_views(items@).take(items@.len() as int) =~= size_views(items@));
    out
}

/// The entries of `before` whose name `now` does not have, in order.
pub open spec fn gone(before: Seq<SizeView>, now: Seq<SizeView>) -> Seq<SizeView>
    decreases before.len(),
{
    if before.len() == 0 {
        before
    } else if name_index(now, before.last().0) >= 0 {
        gone(before.drop_last(), now)
    } else {
        gone(before.drop_last(), now).push(before.last())
    }
}

/// The uploads that finished between two looks: the files pending at the
/// last look that are pending no more. Nothing on the first look.
pub fn finished_uploads(before: &Vec<(String, i64)>, now: &Vec<(String, i64)>, ready: bool) -> (r: Vec<(String, i64)>)
    ensures
        !ready ==> r@.len() == 0,
        ready ==> size_views(r@) == gone(size_views(before@), size_views(now@)),
{
    let mut out: Vec<(String, i64)> = Vec::new();
    if !ready {
        return out;
    }
    let mut i: usize = 0;
    while i < before.len()
        invariant
            i <= before@.len(),
            size_views(out@) == gone(size_views(before@).take(i as int), size_views(now@)),
        decreases before.len() - i,
    {
        let ghost s = size_views(before@).take(i + 1);
        assert(s.drop_last() =~= size_views(before@).take(i as int));
        if find_name(now, before[i].0.as_str()).is_none() {
            let ghost b = size_views(out@);
            out.push((before[i].0.clone(), before[i].1));
            assert(size_views(out@) =~= b.push(s.last()));
        }
        i = i + 1;
    }
    assert(size_views(before@).take(before@.len() as int) =~= size_views(before@));
    out
}

/// An upload counts as finished only when its file was pending at the last
/// look and is pending no more.
pub proof fn law_finished_were_pending(before: Seq<SizeView>, now: Seq<SizeView>)
    ensures
        forall|k: int| 0 <= k < gone(before, now).len() ==> before.contains(#[trigger] gone(before, now)[k])
            && name_index(now, gone(before, now)[k].0) < 0,
    decreases before.len(),
{
    if before.len() > 0 {
        let t = before.drop_last();
        law_finished_were_pending(t, now);
        assert forall|k: int| 0 <= k < gone(before, now).len() implies before.contains(#[trigger] gone(before, now)[k])
            && name_index(now, gone(before, now)[k].0) < 0 by {
            let g = gone(t, now);
            if k < g.len() {
                assert(gone(before, now)[k] == g[k]);
                let w = choose|w: int| 0 <= w < t.len() && t[w] == g[k];
                assert(before[w] == t[w]);
            } else {
                assert(gone(before, now)[k] == before.last());
                assert(before[before.len() - 1] == before.last());
            }
        }
    }
}

/// How many finished uploads are remembered.
pub const DONE_CAP: usize = 40;

/// Keeps the last `DONE_CAP` finished uploads.
pub fn keep_recent_done<T>(done: &mut Vec<T>)
    ensures
        old(done)@.len() <= DONE_CAP ==> final(done)@ == old(done)@,
        old(done)@.len() > DONE_CAP ==> final(done)@ == old(done)@.skip(old(done)@.len() - DONE_CAP),
{
    if done.len() > DONE_CAP {
        let skip = done.len() - DONE_CAP;
        let tail = done.split_off(skip);
        *done = tail;
    }
}

/// The key under which the growth of a pending file is tracked.
pub open spec fn sample_key(name: Seq<char>) -> Seq<char> {
    "dirty:"@ + name
}

/// `dirty:{name}`.
pub fn dirty_key(name: &str) -> (r: String)
    ensures
        r@ == sample_key(name@),
{
    concat("dirty:", name)
}

/// Whether a growth sample is still wanted: its file is pending now.
pub fn keep_sample(key: &str, now: &Vec<(String, i64)>) -> (r: bool)
    ensures
        r == exists|k: int| 0 <= k < now@.len() && key@ == sample_key(#[trigger] now@[k].0@),
{
    let kc = chars_of(key);
    let mut i: usize = 0;
    while i < now.len()
        invariant
            i <= now@.len(),
            kc@ == key@,
            forall|k: int| 0 <= k < i ==> key@ != sample_key(#[trigger] now@[k].0@),
        decreases now.len() - i,
    {
        let d = dirty_key(now[i].0.as_str());
        if eq_chars(chars_of(d.as_str()).as_slice(), kc.as_slice()) {
            return true;
        }
        i = i + 1;
    }
    false
}

/// Whether a log line reports an error: it says "error" in any case and
/// does not say "attempt" (a retry that may still succeed).
pub open spec fn error_line(line: Seq<char>) -> bool {
    has_infix(lower_seq(line), "error"@) && !has_infix(lower_seq(line), "attempt"@)
}

/// The error lines of a log text, trimmed, longer than 12 bytes, in order.
pub open spec fn error_lines(ls: Seq<Seq<char>>) -> Seq<Seq<char>>
    decreases ls.len(),
{
    if ls.len() == 0 {
        ls
    } else if error_line(ls.last()) && byte_len(trim(ls.last())) > 12 {
        error_lines(ls.drop_last()).push(trim(ls.last()))
    } else {
        error_lines(ls.drop_last())
    }
}

/// How many error lines one log gives at most.
pub const LOG_ERRORS_CAP: usize = 8;

/// The first eight error lines of the end of a log file.
pub fn log_errors(text: &str) -> (r: Vec<String>)
    ensures
        views(r@) == if error_lines(lines_spec(text@)).len() <= LOG_ERRORS_CAP {
            error_lines(lines_spec(text@))
        } else {
            error_lines(lines_spec(text@)).take(LOG_ERRORS_CAP as int)
        },
{
    let ls = lines_of(text);
    let ghost all = views(ls@);
    let mut out: Vec<String> = Vec::new();
    let mut i: usize = 0;
    while i < ls.len()
        invariant
            i <= ls@.len(),
            all == views(ls@),
            all == lines_spec(text@),
            views(out@) == error_lines(all.take(i as int)),
        decreases ls.len() - i,
    {
        assert(all.take(i + 1).drop_last() =~= all.take(i as int));
        let line = chars_of(ls[i].as_str());
        let lower = lower_all(line.as_slice());
        if contains_str(lower.as_slice(), "error") && !contains_str(lower.as_slice(), "attempt") {
            let t = trim_chars(line.as_slice());
            if byte_len_exceeds(t.as_slice(), 12) {
                let ghost b = views(out@);
                out.push(string_of(t.as_slice()));
                assert(views(out@) =~= b.push(trim(all[i as int])));
            }
        }
        i = i + 1;
    }
    assert(all.take(all.len() as int) =~= all);
    let ghost full = views(out@);
    out.truncate(LOG_ERRORS_CAP);
    assert(views(out@) =~= if full.len() <= LOG_ERRORS_CAP { full } else { full.take(LOG_ERRORS_CAP as int) });
    out
}

/// The tray icon's tooltip: how many files are on disk and not yet in the
/// cloud.
pub fn tray_tooltip(waiting: usize) -> (r: String)
    ensures
        waiting == 0 ==> r@ == "Wroom LiClone \u{2014} nothing waiting to upload"@,
        waiting > 0 ==> r@ == "Wroom LiClone \u{2014} "@ + decimal(waiting as nat) + " on disk, not on the cloud yet"@,
{
    if waiting == 0 {
        "Wroom LiClone \u{2014} nothing waiting to upload".to_string()
    } else {
        let mut s = concat("Wroom LiClone \u{2014} ", decimal_string(waiting as u64).as_str());
        push_str(&mut s, " on disk, not on the cloud yet");
        s
    }
}

} // verus!
