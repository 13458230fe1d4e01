//! Clearing the VFS cache safely: what a preview counts, which files a
//! `rclone check --size-only --one-way --combined -` listing makes safe to
//! delete, and what a delete run reports. A file whose upload is still
//! pending is never a candidate.

use vstd::prelude::*;

use crate::json::{get_member2, json_of, member2, parse_json, JsonValue};
use crate::text::{
    chars_of, concat, eq_str, forward_slashes, push_str, string_of, string_of_range, string_push, trim,
    trim_chars, trim_str, views,
};

verus! {

broadcast use vstd::string::group_string_axioms;

/// A file named in a preview or a delete run, with its size.
#[derive(Debug, Clone)]
pub struct CacheSample {
    pub path: String,
    pub bytes: u64,
}

/// What a preview found, or what a delete run removed.
#[derive(Debug, Clone)]
pub struct CachePreview {
    pub mode: String,
    pub files: u64,
    pub bytes: u64,
    pub kept_uploads: u64,
    pub kept_other: u64,
    pub sample: Vec<CacheSample>,
    pub errors: Vec<String>,
    pub cancelled: bool,
}

/// How many files a preview or a delete run names at most.
pub const SAMPLE_CAP: usize = 40;

pub type SampleView = (Seq<char>, u64);

pub open spec fn sample_views(s: Seq<CacheSample>) -> Seq<SampleView> {
    Seq::new(s.len(), |i: int| (s[i].path@, s[i].bytes))
}

/// An empty report for `mode`.
pub open spec fn fresh_preview(p: CachePreview, mode: Seq<char>) -> bool {
    &&& p.mode@ == mode
    &&& p.files == 0
    &&& p.bytes == 0
    &&& p.kept_uploads == 0
    &&& p.kept_other == 0
    &&& p.sample@.len() == 0
    &&& p.errors@.len() == 0
    &&& !p.cancelled
}

/// The clear options a preview accepts.
pub open spec fn known_mode(mode: Seq<char>) -> bool {
    mode == "cloud"@ || mode == "clean"@ || mode == "old"@
}

fn empty_preview(mode: String) -> (r: CachePreview)
    ensures
        fresh_preview(r, mode@),
{
    CachePreview {
        mode,
        files: 0,
        bytes: 0,
        kept_uploads: 0,
        kept_other: 0,
        sample: Vec::new(),
        errors: Vec::new(),
        cancelled: false,
    }
}

/// The empty preview a scan in `mode` starts from: `cloud` deletes what the
/// cloud holds with the same size, `clean` every cached file, `old` the
/// files older than a number of days.
pub fn preview_start(mode: &str) -> (r: Result<CachePreview, String>)
    ensures
        known_mode(mode@) ==> (r matches Ok(p) && fresh_preview(p, mode@)),
        !known_mode(mode@) ==> (r matches Err(e) && e@ == "Pick a clear option first."@),
{
    let m = chars_of(mode);
    if eq_str(m.as_slice(), "cloud") || eq_str(m.as_slice(), "clean") || eq_str(m.as_slice(), "old") {
        Ok(empty_preview(mode.to_string()))
    } else {
        Err("Pick a clear option first.".to_string())
    }
}

/// The empty report a delete run starts from.
pub fn apply_start() -> (r: CachePreview)
    ensures
        fresh_preview(r, "delete"@),
{
    empty_preview("delete".to_string())
}

/// The report after one more file counted: its key and size.
pub open spec fn counted_one(before: CachePreview, after: CachePreview, key: Seq<char>, bytes: u64) -> bool {
    &&& after.files == before.files + 1
    &&& after.bytes == before.bytes + bytes
    &&& sample_views(after.sample@) == if before.sample@.len() < SAMPLE_CAP {
        sample_views(before.sample@).push((key, bytes))
    } else {
        sample_views(before.sample@)
    }
    &&& after.mode == before.mode
    &&& after.kept_uploads == before.kept_uploads
    &&& after.kept_other == before.kept_other
    &&& after.errors == before.errors
    &&& after.cancelled == before.cancelled
}

/// Counts one file in a report: one more file, its bytes, and its name in
/// the sample while the sample has room.
pub fn push_candidate(preview: &mut CachePreview, key: String, bytes: u64)
    requires
        old(preview).files < u64::MAX,
        old(preview).bytes + bytes <= u64::MAX,
    ensures
        counted_one(*old(preview), *final(preview), key@, bytes),
{
    preview.files = preview.files + 1;
    preview.bytes = preview.bytes + bytes;
    if preview.sample.len() < SAMPLE_CAP {
        let ghost before = sample_views(preview.sample@);
        let ghost k = key@;
        preview.sample.push(CacheSample { path: key, bytes });
        assert(sample_views(preview.sample@) =~= before.push((k, bytes)));
    }
}

/// `s` without its leading slashes and backslashes.
pub open spec fn trim_start_slashes(s: Seq<char>) -> Seq<char>
    decreases s.len(),
{
    if s.len() > 0 && (s[0] == '/' || s[0] == '\\') {
        trim_start_slashes(s.drop_first())
    } else {
        s
    }
}

/// The marks of `rclone check --combined`: `=` same, `*` differs, `+` only
/// on the local side, `-` only in the cloud, `!` error.
pub open spec fn check_mark(c: char) -> bool {
    c == '=' || c == '*' || c == '+' || c == '-' || c == '!'
}

/// A line of the check listing, read: `None` when it is no entry, else its
/// mark and its path with `/` as separator and no leading separator.
pub open spec fn check_entry(line: Seq<char>) -> Option<(char, Seq<char>)> {
    let t = trim(line);
    if t.len() > 0 && check_mark(t[0]) {
        Some((t[0], forward_slashes(trim_start_slashes(trim(t.drop_first())))))
    } else {
        None
    }
}

/// What one line of the check listing means for the preview.
#[derive(Debug, Clone, PartialEq, Eq)]
pub enum CheckLine {
    /// Not an entry of the listing.
    NotListed,
    /// An entry without a path.
    NoPath,
    /// A file whose upload is still pending: left alone.
    Pending,
    /// A file that differs from the cloud or is missing there: kept.
    Differs,
    /// A file the cloud holds with the same size: `remote/path`.
    Same(String),
}

/// The key of a cached file: `remote/path`.
pub open spec fn file_key(remote: Seq<char>, path: Seq<char>) -> Seq<char> {
    remote + "/"@ + path
}

pub open spec fn check_line_spec(line: Seq<char>, remote: Seq<char>, pending: Seq<Seq<char>>) -> CheckLineView {
    match check_entry(line) {
        None => CheckLineView::NotListed,
        Some((op, path)) => if path.len() == 0 {
            CheckLineView::NoPath
        } else if pending.contains(file_key(remote, path)) {
            CheckLineView::Pending
        } else if op != '=' {
            CheckLineView::Differs
        } else {
            CheckLineView::Same(file_key(remote, path))
        },
    }
}

pub enum CheckLineView {
    NotListed,
    NoPath,
    Pending,
    Differs,
    Same(Seq<char>),
}

pub open spec fn check_line_view(c: CheckLine) -> CheckLineView {
    match c {
        CheckLine::NotListed => CheckLineView::NotListed,
        CheckLine::NoPath => CheckLineView::NoPath,
        CheckLine::Pending => CheckLineView::Pending,
        CheckLine::Differs => CheckLineView::Differs,
        CheckLine::Same(k) => CheckLineView::Same(k@),
    }
}

fn trim_start_slashes_of(s: &[char]) -> (r: usize)
    ensures
        r <= s@.len(),
        trim_start_slashes(s@) == s@.skip(r as int),
{
    let mut i: usize = 0;
    assert(s@.skip(0) =~= s@);
    while i < s.len() && (s[i] == '/' || s[i] == '\\')
        invariant
            i <= s@.len(),
            trim_start_slashes(s@) == trim_start_slashes(s@.skip(i as int)),
        decreases s.len() - i,
    {
        assert(s@.skip(i as int).drop_first() =~= s@.skip(i + 1));
        i = i + 1;
    }
    assert(trim_start_slashes(s@.skip(i as int)) == s@.skip(i as int));
    i
}

/// Whether `key` is one of `keys`.
fn listed(keys: &Vec<String>, key: &str) -> (r: bool)
    ensures
        r == views(keys@).contains(key@),
{
    let kc = chars_of(key);
    let mut i: usize = 0;
    while i < keys.len()
        invariant
            i <= keys@.len(),
            kc@ == key@,
            forall|m: int| 0 <= m < i ==> (#[trigger] views(keys@)[m]) != key@,
        decreases keys.len() - i,
    {
        if eq_str(kc.as_slice(), keys[i].as_str()) {
            assert(views(keys@)[i as int] == key@);
            return true;
        }
        i = i + 1;
    }
    false
}

/// Reads one line of `rclone check --combined -` run on the cache of
/// `remote`; `pending` holds the keys of the files whose upload is pending.
pub fn check_line(line: &str, remote: &str, pending: &Vec<String>) -> (r: CheckLine)
    ensures
        check_line_view(r) == check_line_spec(line@, remote@, views(pending@)),
{
    let t = trim_chars(chars_of(line).as_slice());
    if t.len() == 0 {
        return CheckLine::NotListed;
    }
    let op = t[0];
    if !(op == '=' || op == '*' || op == '+' || op == '-' || op == '!') {
        return CheckLine::NotListed;
    }
    let rest = string_of_range(t.as_slice(), 1, t.len());
    assert(rest@ == t@.drop_first());
    let inner = trim_chars(chars_of(rest.as_str()).as_slice());
    let skip = trim_start_slashes_of(inner.as_slice());
    let mut path = String::new();
    let mut i: usize = skip;
    while i < inner.len()
        invariant
            skip <= i <= inner@.len(),
            path@ == forward_slashes(inner@.subrange(skip as int, i as int)),
        decreases inner.len() - i,
    {
        let c = if inner[i] == '\\' { '/' } else { inner[i] };
        string_push(&mut path, c);
        assert(path@ =~= forward_slashes(inner@.subrange(skip as int, i + 1)));
        i = i + 1;
    }
    assert(inner@.subrange(skip as int, inner@.len() as int) =~= inner@.skip(skip as int));
    assert(path@ == check_entry(line@).unwrap().1);
    if chars_of(path.as_str()).len() == 0 {
        return CheckLine::NoPath;
    }
    let mut key = concat(remote, "/");
    push_str(&mut key, path.as_str());
    proof {
        reveal_strlit("/");
    }
    assert(key@ == file_key(remote@, path@));
    if listed(pending, key.as_str()) {
        CheckLine::Pending
    } else if op != '=' {
        CheckLine::Differs
    } else {
        CheckLine::Same(key)
    }
}

/// A line of the check listing offers a file for deletion only when the
/// cloud has it with the same size and its upload is not pending.
pub proof fn law_pending_never_offered(line: Seq<char>, remote: Seq<char>, pending: Seq<Seq<char>>)
    ensures
        check_line_spec(line, remote, pending) matches CheckLineView::Same(k) ==> (!pending.contains(k)
            && (check_entry(line) matches Some((op, path)) && op == '=' && k == file_key(remote, path))),
{
}

/// The outcome of a check run on one remote's cache: a failed run that
/// listed nothing is an error, with what it wrote to stderr.
pub fn check_outcome(cancelled: bool, success: bool, saw_entry: bool, stderr_tail: &str) -> (r: Result<(), String>)
    ensures
        (cancelled || success || saw_entry) ==> r is Ok,
        !(cancelled || success || saw_entry) ==> (r matches Err(e) && e@ == if trim(stderr_tail@).len() == 0 {
            "rclone check failed."@
        } else {
            trim(stderr_tail@)
        }),
{
    if cancelled {
        return Ok(());
    }
    if !success && !saw_entry {
        let detail = trim_str(stderr_tail);
        if chars_of(detail.as_str()).len() == 0 {
            return Err("rclone check failed.".to_string());
        }
        return Err(detail);
    }
    Ok(())
}

/// Counts one line of `rclone check`'s listing in a preview: a file that
/// differs from the cloud, or is missing there, adds one to the files kept
/// for another reason. The answer says whether the line was an entry of the
/// listing at all.
pub fn note_check_line(preview: &mut CachePreview, line: &CheckLine) -> (saw: bool)
    requires
        (*line) is Differs ==> old(preview).kept_other < u64::MAX,
    ensures
        saw == !((*line) is NotListed),
        final(preview).kept_other == old(preview).kept_other + (if (*line) is Differs { 1int } else { 0int }),
        final(preview).mode@ == old(preview).mode@,
        final(preview).files == old(preview).files,
        final(preview).bytes == old(preview).bytes,
        final(preview).kept_uploads == old(preview).kept_uploads,
        sample_views(final(preview).sample@) == sample_views(old(preview).sample@),
        views(final(preview).errors@) == views(old(preview).errors@),
        final(preview).cancelled == old(preview).cancelled,
{
    match line {
        CheckLine::NotListed => false,
        CheckLine::Differs => {
            preview.kept_other = preview.kept_other + 1;
            true
        },
        _ => true,
    }
}

/// Whether a cache metadata record still marks its file as not uploaded
/// (`None` when the record could not be read as JSON, which counts as
/// pending).
pub open spec fn pending_spec(doc: Option<JsonValue>) -> bool {
    match doc {
        None => true,
        Some(JsonValue::Object(m, _)) => match member2(m@, "Dirty"@, "dirty"@) {
            Some(JsonValue::Bool(b)) => b,
            _ => false,
        },
        Some(_) => false,
    }
}

/// Whether a file must stay in the cache because its metadata record says
/// that rclone still holds bytes the cloud does not have.
pub fn still_protected(doc: Option<JsonValue>) -> (r: bool)
    ensures
        r == pending_spec(doc),
{
    match doc {
        None => true,
        Some(JsonValue::Object(m, _)) => match get_member2(&m, "Dirty", "dirty") {
            Some(JsonValue::Bool(b)) => *b,
            _ => false,
        },
        Some(_) => false,
    }
}

/// Whether a file must stay in the cache, given the text of its metadata
/// record: the text parsed as JSON, then read as `still_protected` reads it.
pub fn pending_in_text(text: &str) -> (r: bool)
    ensures
        r == pending_spec(json_of(text@)),
{
    still_protected(parse_json(text))
}

/// The parts of a relative path that name directories or the file: not
/// empty and not `.`.
pub open spec fn path_parts_spec(rel: Seq<char>) -> Seq<Seq<char>> {
    parts_run(rel, Seq::empty(), Seq::empty())
}

pub open spec fn keep_part(part: Seq<char>) -> bool {
    part.len() > 0 && part != "."@
}

/// Splits on `/` and `\` what is left, with `done` the parts kept so far and
/// `cur` the part being read.
pub open spec fn parts_run(rest: Seq<char>, done: Seq<Seq<char>>, cur: Seq<char>) -> Seq<Seq<char>>
    decreases rest.len(),
{
    if rest.len() == 0 {
        if keep_part(cur) {
            done.push(cur)
        } else {
            done
        }
    } else if rest[0] == '/' || rest[0] == '\\' {
        parts_run(rest.drop_first(), if keep_part(cur) { done.push(cur) } else { done }, Seq::empty())
    } else {
        parts_run(rest.drop_first(), done, cur.push(rest[0]))
    }
}

/// The parts of `rel` to join below a directory, as `child_path` joins them.
pub fn path_parts(rel: &str) -> (r: Vec<String>)
    ensures
        views(r@) == path_parts_spec(rel@),
{
    let t = chars_of(rel);
    let mut out: Vec<String> = Vec::new();
    let mut cur: Vec<char> = Vec::new();
    let mut i: usize = 0;
    assert(t@.skip(0) =~= t@);
    assert(views(out@) =~= Seq::<Seq<char>>::empty());
    assert(cur@ =~= Seq::<char>::empty());
    while i < t.len()
        invariant
            i <= t@.len(),
            t@ == rel@,
            parts_run(t@.skip(i as int), views(out@), cur@) == path_parts_spec(rel@),
        decreases t.len() - i,
    {
        assert(t@.skip(i as int).drop_first() =~= t@.skip(i + 1));
        assert(t@.skip(i as int)[0] == t@[i as int]);
        if t[i] == '/' || t[i] == '\\' {
            let keep = cur.len() > 0 && !(cur.len() == 1 && cur[0] == '.');
            assert(keep == keep_part(cur@)) by {
                reveal_strlit(".");
                if cur@.len() == 1 {
                    assert(("."@).len() == 1 && ("."@)[0] == '.');
                    if cur@[0] == '.' {
                        assert(cur@ =~= "."@);
                    }
                }
            }
            if keep {
                let ghost before = views(out@);
                out.push(string_of(cur.as_slice()));
                assert(views(out@) =~= before.push(cur@));
            }
            cur = Vec::new();
        } else {
            cur.push(t[i]);
        }
        i = i + 1;
    }
    let keep = cur.len() > 0 && !(cur.len() == 1 && cur[0] == '.');
    assert(keep == keep_part(cur@)) by {
        reveal_strlit(".");
        if cur@.len() == 1 {
            assert(("."@).len() == 1 && ("."@)[0] == '.');
            if cur@[0] == '.' {
                assert(cur@ =~= "."@);
            }
        }
    }
    if keep {
        let ghost before = views(out@);
        out.push(string_of(cur.as_slice()));
        assert(views(out@) =~= before.push(cur@));
    }
    out
}

/// Counts one file met while walking a cache for the `clean` or `old`
/// options and says whether it is a candidate: a file whose upload is
/// pending is left alone, a file too young for `old` is kept, any other is
/// counted.
pub fn local_file(
    preview: &mut CachePreview,
    rel: String,
    pending: &Vec<String>,
    only_old: bool,
    age_secs: Option<u64>,
    days: u32,
    bytes: u64,
) -> (r: bool)
    requires
        old(preview).files < u64::MAX,
        old(preview).kept_other < u64::MAX,
        old(preview).bytes + bytes <= u64::MAX,
    ensures
        views(pending@).contains(rel@) ==> !r && *final(preview) == *old(preview),
        !views(pending@).contains(rel@) && only_old && !(age_secs matches Some(a) && a > (if days < 1 { 1 } else { days as int }) * 86400)
            ==> !r && final(preview).kept_other == old(preview).kept_other + 1 && final(preview).files == old(preview).files
            && final(preview).bytes == old(preview).bytes && final(preview).sample == old(preview).sample,
        r <==> !views(pending@).contains(rel@) && (!only_old || (age_secs matches Some(a) && a > (if days < 1 { 1 } else { days as int }) * 86400)),
        r ==> counted_one(*old(preview), *final(preview), rel@, bytes),
{
    if listed(pending, rel.as_str()) {
        return false;
    }
    if only_old && !old_enough(age_secs, days) {
        preview.kept_other = preview.kept_other + 1;
        return false;
    }
    push_candidate(preview, rel, bytes);
    true
}

/// Counts the files of one cache whose upload is pending.
pub fn count_pending(preview: &mut CachePreview, n: usize)
    requires
        old(preview).kept_uploads + n <= u64::MAX,
    ensures
        final(preview).kept_uploads == old(preview).kept_uploads + n,
        final(preview).files == old(preview).files,
        final(preview).bytes == old(preview).bytes,
        final(preview).kept_other == old(preview).kept_other,
        final(preview).sample == old(preview).sample,
        final(preview).mode == old(preview).mode,
        final(preview).errors == old(preview).errors,
        final(preview).cancelled == old(preview).cancelled,
{
    preview.kept_uploads = preview.kept_uploads + n as u64;
}

/// A file a preview offers for deletion: the cached file, its metadata
/// record, its key and its size.
#[derive(Debug, Clone)]
pub struct Candidate {
    pub data: String,
    pub meta: String,
    pub label: String,
    pub bytes: u64,
}

/// Keeps the files of a finished preview for the delete run that confirms
/// it; a cancelled preview keeps nothing.
pub fn store_plan(slot: &mut Option<Vec<Candidate>>, cancelled: bool, candidates: Vec<Candidate>)
    ensures
        cancelled ==> *final(slot) is None,
        !cancelled ==> *final(slot) == Some(candidates),
{
    if cancelled {
        *slot = None;
    } else {
        *slot = Some(candidates);
    }
}

/// The files of the last preview, for a delete run. A preview is used once:
/// a second run needs a new preview.
pub fn take_plan(slot: &mut Option<Vec<Candidate>>) -> (r: Result<Vec<Candidate>, String>)
    ensures
        *final(slot) is None,
        match *old(slot) {
            Some(c) => r == Ok::<Vec<Candidate>, String>(c),
            None => r matches Err(e) && e@ == "Preview the files first. Nothing is deleted until you confirm."@,
        },
{
    match slot.take() {
        Some(c) => Ok(c),
        None => Err("Preview the files first. Nothing is deleted until you confirm.".to_string()),
    }
}

/// What happened to one previewed file in a delete run.
#[derive(Debug, Clone)]
pub enum Removal {
    /// Its upload became pending during the scan: kept.
    Pending,
    /// The file could not be removed: kept.
    Failed,
    /// Removed; its key and size.
    Removed(String, u64),
}

/// Counts one previewed file in a delete run's report.
pub fn record_removal(report: &mut CachePreview, outcome: Removal)
    requires
        outcome matches Removal::Pending ==> old(report).kept_uploads < u64::MAX,
        outcome matches Removal::Failed ==> old(report).kept_other < u64::MAX,
        outcome matches Removal::Removed(_, b) ==> old(report).files < u64::MAX && old(report).bytes + b
            <= u64::MAX,
    ensures
        outcome matches Removal::Pending ==> (final(report).kept_uploads == old(report).kept_uploads + 1
            && final(report).kept_other == old(report).kept_other && final(report).files == old(report).files
            && final(report).bytes == old(report).bytes && final(report).sample == old(report).sample),
        outcome matches Removal::Failed ==> (final(report).kept_other == old(report).kept_other + 1
            && final(report).kept_uploads == old(report).kept_uploads && final(report).files == old(report).files
            && final(report).bytes == old(report).bytes && final(report).sample == old(report).sample),
        outcome matches Removal::Removed(k, b) ==> counted_one(*old(report), *final(report), k@, b),
        final(report).mode == old(report).mode,
        final(report).errors == old(report).errors,
        final(report).cancelled == old(report).cancelled,
{
    match outcome {
        Removal::Pending => {
            report.kept_uploads = report.kept_uploads + 1;
        },
        Removal::Failed => {
            report.kept_other = report.kept_other + 1;
        },
        Removal::Removed(key, bytes) => {
            push_candidate(report, key, bytes);
        },
    }
}

/// Whether a file is old enough for the `old` option: older than `days`
/// days, at least one; a file whose age is unknown is not.
pub fn old_enough(age_secs: Option<u64>, days: u32) -> (r: bool)
    ensures
        r == (age_secs matches Some(a) && a > (if days < 1 { 1 } else { days as int }) * 86400),
{
    let d: u64 = if days < 1 { 1 } else { days as u64 };
    match age_secs {
        Some(a) => a > d * 86400,
        None => false,
    }
}

/// The message shown when a delete run ends.
pub fn apply_message(cancelled: bool) -> (r: &'static str)
    ensures
        cancelled ==> r@ == "Delete stopped. Files already removed stay removed."@,
        !cancelled ==> r@ == "Deleted the previewed files. Uploads that changed during the scan were kept."@,
{
    if cancelled {
        "Delete stopped. Files already removed stay removed."
    } else {
        "Deleted the previewed files. Uploads that changed during the scan were kept."
    }
}

/// The message shown when a preview ends.
pub fn preview_message(cancelled: bool) -> (r: &'static str)
    ensures
        cancelled ==> r@ == "Scan cancelled."@,
        !cancelled ==> r@ == "Preview ready. Nothing has been deleted."@,
{
    if cancelled {
        "Scan cancelled."
    } else {
        "Preview ready. Nothing has been deleted."
    }
}

/// Whether a preview or delete run is going on, and whether the user asked
/// it to stop.
#[derive(Debug, Clone, Copy, PartialEq, Eq)]
pub struct PurgeRun {
    pub running: bool,
    pub cancelled: bool,
}

/// Starts a preview or delete run; only one runs at a time.
pub fn begin_run(run: &mut PurgeRun) -> (r: Result<(), String>)
    ensures
        old(run).running ==> (r matches Err(e) && e@ == "A cache scan is already running."@) && *final(run) == *old(run),
        !old(run).running ==> r is Ok && final(run).running && !final(run).cancelled,
{
    if run.running {
        return Err("A cache scan is already running.".to_string());
    }
    run.running = true;
    run.cancelled = false;
    Ok(())
}

/// Asks the run going on to stop at its next file.
pub fn cancel(run: &mut PurgeRun)
    ensures
        final(run).cancelled,
        final(run).running == old(run).running,
{
    run.cancelled = true;
}

/// Ends the run going on.
pub fn end_run(run: &mut PurgeRun)
    ensures
        !final(run).running,
        final(run).cancelled == old(run).cancelled,
{
    run.running = false;
}

/// The progress line shown while one remote's cache is checked.
pub fn checking_message(remote: &str) -> (r: String)
    ensures
        r@ == "Checking "@ + remote@ + " with rclone check --size-only --one-way."@,
{
    let mut m = concat("Checking ", remote);
    push_str(&mut m, " with rclone check --size-only --one-way.");
    m
}

/// The progress line shown while files of a remote match the cloud.
pub fn matched_message(remote: &str) -> (r: String)
    ensures
        r@ == remote@ + ": sizes match the cloud."@,
{
    concat(remote, ": sizes match the cloud.")
}

/// An error of one remote's check, as the preview lists it.
pub fn remote_error(remote: &str, err: &str) -> (r: String)
    ensures
        r@ == remote@ + ": "@ + err@,
{
    let mut m = concat(remote, ": ");
    push_str(&mut m, err);
    m
}

} // verus!
