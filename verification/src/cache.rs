//! The VFS cache report: what a walk of each cache directory found, grouped
//! by remote, with the largest and the most recently written files.

use vstd::prelude::*;

use crate::order::{first_n, law_sort_desc, lemma_insert_desc_at, lemma_sort_desc_push, sort_desc, sorted_desc};
use crate::text::{views, chars_of, concat, decimal, decimal_string, eq_chars, find_char, first_index, forward_slashes, forward_slashes_of, has_prefix, starts_with_str, string_of_range};

verus! {

broadcast use vstd::string::group_string_axioms;

/// A file found in a cache directory.
#[derive(Debug, Clone)]
pub struct CacheFile {
    pub path: String,
    pub relative: String,
    pub size: u64,
    pub mtime: u64,
    pub recent: bool,
}

/// What the files of one remote hold in a cache directory.
#[derive(Debug, Clone)]
pub struct CacheBucket {
    pub remote: String,
    pub files: u64,
    pub bytes: u64,
    pub recent_files: u64,
    pub recent_bytes: u64,
}

/// One cache directory and what it holds.
#[derive(Debug, Clone)]
pub struct CacheRoot {
    pub path: String,
    pub exists: bool,
    pub bytes: u64,
    pub files: u64,
    pub dirs: u64,
    pub buckets: Vec<CacheBucket>,
    pub largest: Vec<CacheFile>,
    pub recent: Vec<CacheFile>,
    pub source: String,
}

/// Every cache directory, largest first, with their totals.
#[derive(Debug, Clone)]
pub struct CacheReport {
    pub roots: Vec<CacheRoot>,
    pub total_bytes: u64,
    pub total_files: u64,
}

/// What a directory walk reports an entry to be.
#[derive(Debug, Clone, Copy, PartialEq, Eq)]
pub enum EntryKind {
    Dir,
    File,
    Other,
}

/// One entry of a directory walk: its full path, its path below the walked
/// directory as the platform writes it, its kind, length and modification
/// time in seconds since the epoch.
#[derive(Debug, Clone)]
pub struct WalkEntry {
    pub path: String,
    pub relative: String,
    pub kind: EntryKind,
    pub size: u64,
    pub mtime: u64,
}

/// A file seen as (path, relative path, size, mtime, recent).
pub type FileView = (Seq<char>, Seq<char>, u64, u64, bool);

/// A bucket seen as (remote, files, bytes, recent files, recent bytes).
pub type BucketView = (Seq<char>, int, int, int, int);

pub open spec fn file_view(f: CacheFile) -> FileView {
    (f.path@, f.relative@, f.size, f.mtime, f.recent)
}

pub open spec fn file_views(s: Seq<CacheFile>) -> Seq<FileView> {
    Seq::new(s.len(), |i: int| file_view(s[i]))
}

pub open spec fn bucket_view(b: CacheBucket) -> BucketView {
    (b.remote@, b.files as int, b.bytes as int, b.recent_files as int, b.recent_bytes as int)
}

pub open spec fn bucket_views(s: Seq<CacheBucket>) -> Seq<BucketView> {
    Seq::new(s.len(), |i: int| bucket_view(s[i]))
}

/// Files written at or after this second count as recent: half an hour
/// before `now`.
pub open spec fn recent_cut(now: u64) -> u64 {
    if now >= 1800 {
        (now - 1800) as u64
    } else {
        0
    }
}

/// The files of a walk, in walk order, with `/` as separator.
pub open spec fn walked_files(es: Seq<WalkEntry>, cut: u64) -> Seq<FileView>
    decreases es.len(),
{
    if es.len() == 0 {
        Seq::empty()
    } else {
        let prev = walked_files(es.drop_last(), cut);
        let e = es.last();
        if e.kind == EntryKind::File {
            prev.push((e.path@, forward_slashes(e.relative@), e.size, e.mtime, e.mtime >= cut))
        } else {
            prev
        }
    }
}

/// The number of directories in a walk.
pub open spec fn dir_count(es: Seq<WalkEntry>) -> nat
    decreases es.len(),
{
    if es.len() == 0 {
        0
    } else if es.last().kind == EntryKind::Dir {
        dir_count(es.drop_last()) + 1
    } else {
        dir_count(es.drop_last())
    }
}

/// The bytes of the files of a walk.
pub open spec fn file_bytes(es: Seq<WalkEntry>) -> nat
    decreases es.len(),
{
    if es.len() == 0 {
        0
    } else if es.last().kind == EntryKind::File {
        (file_bytes(es.drop_last()) + es.last().size) as nat
    } else {
        file_bytes(es.drop_last())
    }
}

/// The remote a cached file belongs to: the first segment of its path.
pub open spec fn segment(rel: Seq<char>) -> Seq<char> {
    match first_index(rel, '/') {
        Some(i) => rel.take(i),
        None => rel,
    }
}

/// Position of the bucket named `n`, or -1.
pub open spec fn bucket_index(bs: Seq<BucketView>, n: Seq<char>) -> int
    decreases bs.len(),
{
    if bs.len() == 0 {
        -1
    } else {
        let i = bucket_index(bs.drop_last(), n);
        if i >= 0 {
            i
        } else if bs.last().0 == n {
            bs.len() - 1
        } else {
            -1
        }
    }
}

/// A bucket with one more file counted.
pub open spec fn add_file(b: BucketView, f: FileView) -> BucketView {
    (
        b.0,
        b.1 + 1,
        b.2 + f.2,
        b.3 + if f.4 { 1int } else { 0int },
        b.4 + if f.4 { f.2 as int } else { 0int },
    )
}

/// The files grouped by remote, remotes in order of first appearance.
pub open spec fn bucket_list(fs: Seq<FileView>) -> Seq<BucketView>
    decreases fs.len(),
{
    if fs.len() == 0 {
        Seq::empty()
    } else {
        let prev = bucket_list(fs.drop_last());
        let f = fs.last();
        let i = bucket_index(prev, segment(f.1));
        if i >= 0 {
            prev.update(i, add_file(prev[i], f))
        } else {
            prev.push(add_file((segment(f.1), 0, 0, 0, 0), f))
        }
    }
}

/// The recent files, in order.
pub open spec fn recent_only(fs: Seq<FileView>) -> Seq<FileView>
    decreases fs.len(),
{
    if fs.len() == 0 {
        Seq::empty()
    } else if fs.last().4 {
        recent_only(fs.drop_last()).push(fs.last())
    } else {
        recent_only(fs.drop_last())
    }
}

pub open spec fn by_bytes() -> spec_fn(BucketView) -> int {
    |b: BucketView| b.2
}

pub open spec fn by_size() -> spec_fn(FileView) -> int {
    |f: FileView| f.2 as int
}

pub open spec fn by_mtime() -> spec_fn(FileView) -> int {
    |f: FileView| f.3 as int
}

proof fn lemma_bucket_index(bs: Seq<BucketView>, n: Seq<char>)
    ensures
        -1 <= bucket_index(bs, n) < bs.len(),
        bucket_index(bs, n) >= 0 ==> bs[bucket_index(bs, n)].0 == n,
        bucket_index(bs, n) >= 0 ==> forall|k: int| 0 <= k < bucket_index(bs, n) ==> bs[k].0 != n,
        bucket_index(bs, n) < 0 ==> forall|k: int| 0 <= k < bs.len() ==> bs[k].0 != n,
    decreases bs.len(),
{
    if bs.len() > 0 {
        let t = bs.drop_last();
        lemma_bucket_index(t, n);
        let i = bucket_index(t, n);
        if i >= 0 {
            assert(bs[i] == t[i]);
            assert forall|k: int| 0 <= k < i implies bs[k].0 != n by {
                assert(bs[k] == t[k]);
            }
        } else {
            assert forall|k: int| 0 <= k < bs.len() - 1 implies bs[k].0 != n by {
                assert(bs[k] == t[k]);
            }
        }
    }
}

proof fn lemma_bucket_index_same(bs: Seq<BucketView>, n: Seq<char>, k: int)
    requires
        0 <= k < bs.len(),
        bs[k].0 == n,
        forall|m: int| 0 <= m < k ==> bs[m].0 != n,
    ensures
        bucket_index(bs, n) == k,
    decreases bs.len(),
{
    lemma_bucket_index(bs, n);
    if bs.len() > 0 && k < bs.len() - 1 {
        lemma_bucket_index_same(bs.drop_last(), n, k);
    }
}

/// Position of the first bucket of remote `name`.
fn find_bucket(bs: &Vec<CacheBucket>, name: &str) -> (r: Option<usize>)
    ensures
        match r {
            Some(k) => k < bs@.len() && bs@[k as int].remote@ == name@ && forall|m: int|
                0 <= m < k ==> (#[trigger] bs@[m]).remote@ != name@,
            None => forall|m: int| 0 <= m < bs@.len() ==> (#[trigger] bs@[m]).remote@ != name@,
        },
{
    let rk = chars_of(name);
    let mut k: usize = 0;
    while k < bs.len()
        invariant
            k <= bs@.len(),
            rk@ == name@,
            forall|m: int| 0 <= m < k ==> (#[trigger] bs@[m]).remote@ != name@,
        decreases bs.len() - k,
    {
        let bk = chars_of(bs[k].remote.as_str());
        if eq_chars(bk.as_slice(), rk.as_slice()) {
            return Some(k);
        }
        k = k + 1;
    }
    None
}

/// `s.split('/').next()`: the text before the first `/`.
fn first_segment(rel: &str) -> (r: String)
    ensures
        r@ == segment(rel@),
{
    let t = chars_of(rel);
    match find_char(t.as_slice(), '/') {
        Some(i) => {
            assert(t@.subrange(0, i as int) == t@.take(i as int));
            string_of_range(t.as_slice(), 0, i)
        },
        None => {
            assert(t@.subrange(0, t@.len() as int) == t@);
            string_of_range(t.as_slice(), 0, t.len())
        },
    }
}

fn copy_file(f: &CacheFile) -> (r: CacheFile)
    ensures
        file_view(r) == file_view(*f),
{
    CacheFile { path: f.path.clone(), relative: f.relative.clone(), size: f.size, mtime: f.mtime, recent: f.recent }
}

fn copy_bucket(b: &CacheBucket) -> (r: CacheBucket)
    ensures
        bucket_view(r) == bucket_view(*b),
{
    CacheBucket {
        remote: b.remote.clone(),
        files: b.files,
        bytes: b.bytes,
        recent_files: b.recent_files,
        recent_bytes: b.recent_bytes,
    }
}

/// The buckets ordered by bytes, largest first.
fn buckets_by_bytes(bs: &Vec<CacheBucket>) -> (r: Vec<CacheBucket>)
    ensures
        bucket_views(r@) == sort_desc(bucket_views(bs@), by_bytes()),
{
    let mut out: Vec<CacheBucket> = Vec::new();
    let mut i: usize = 0;
    while i < bs.len()
        invariant
            i <= bs@.len(),
            bucket_views(out@) == sort_desc(bucket_views(bs@).take(i as int), by_bytes()),
        decreases bs.len() - i,
    {
        let x = copy_bucket(&bs[i]);
        let ghost s = bucket_views(out@);
        let mut j: usize = out.len();
        while j > 0 && out[j - 1].bytes < x.bytes
            invariant
                j <= out@.len(),
                s == bucket_views(out@),
                forall|k: int| j <= k < s.len() ==> (by_bytes())(#[trigger] s[k]) < (by_bytes())(bucket_view(x)),
            decreases j,
        {
            j = j - 1;
        }
        proof {
            lemma_insert_desc_at(s, bucket_view(x), by_bytes(), j as int);
            assert(bucket_views(bs@).take(i + 1) =~= bucket_views(bs@).take(i as int).push(bucket_view(x)));
            lemma_sort_desc_push(bucket_views(bs@).take(i as int), bucket_view(x), by_bytes());
        }
        out.insert(j, x);
        assert(bucket_views(out@) =~= s.insert(j as int, bucket_view(x)));
        i = i + 1;
    }
    assert(bucket_views(bs@).take(bs@.len() as int) =~= bucket_views(bs@));
    out
}

/// The modification time or the size of a file.
fn file_key(f: &CacheFile, by_time: bool) -> (r: u64)
    ensures
        r as int == (if by_time { by_mtime() } else { by_size() })(file_view(*f)),
{
    if by_time {
        f.mtime
    } else {
        f.size
    }
}

/// The files ordered by size (or by modification time), largest first, and
/// cut to `limit`.
fn files_by(fs: &Vec<CacheFile>, by_time: bool, only_recent: bool, limit: usize) -> (r: Vec<CacheFile>)
    ensures
        !only_recent ==> file_views(r@) == first_n(
            sort_desc(file_views(fs@), if by_time { by_mtime() } else { by_size() }),
            limit as int,
        ),
        only_recent ==> file_views(r@) == first_n(
            sort_desc(recent_only(file_views(fs@)), if by_time { by_mtime() } else { by_size() }),
            limit as int,
        ),
{
    let ghost key = if by_time { by_mtime() } else { by_size() };
    let ghost chosen = if only_recent { recent_only(file_views(fs@)) } else { file_views(fs@) };
    let mut out: Vec<CacheFile> = Vec::new();
    let mut i: usize = 0;
    while i < fs.len()
        invariant
            i <= fs@.len(),
            key == (if by_time { by_mtime() } else { by_size() }),
            file_views(out@) == sort_desc(
                if only_recent { recent_only(file_views(fs@).take(i as int)) } else { file_views(fs@).take(i as int) },
                key,
            ),
        decreases fs.len() - i,
    {
        let x = copy_file(&fs[i]);
        let ghost before = file_views(fs@).take(i as int);
        assert(file_views(fs@).take(i + 1) =~= before.push(file_view(x)));
        assert(file_views(fs@).take(i + 1).drop_last() =~= before);
        if !only_recent || x.recent {
            let ghost s = file_views(out@);
            let mut j: usize = out.len();
            while j > 0 && file_key(&out[j - 1], by_time) < file_key(&x, by_time)
                invariant
                    j <= out@.len(),
                    s == file_views(out@),
                    key == (if by_time { by_mtime() } else { by_size() }),
                    forall|k: int| j <= k < s.len() ==> key(#[trigger] s[k]) < key(file_view(x)),
                decreases j,
            {
                j = j - 1;
            }
            proof {
                lemma_insert_desc_at(s, file_view(x), key, j as int);
                if only_recent {
                    lemma_sort_desc_push(recent_only(before), file_view(x), key);
                } else {
                    lemma_sort_desc_push(before, file_view(x), key);
                }
            }
            out.insert(j, x);
            assert(file_views(out@) =~= s.insert(j as int, file_view(x)));
        }
        i = i + 1;
    }
    assert(file_views(fs@).take(fs@.len() as int) =~= file_views(fs@));
    proof {
        crate::order::lemma_sort_desc_len(chosen, key);
    }
    out.truncate(limit);
    assert(file_views(out@) =~= first_n(sort_desc(chosen, key), limit as int));
    out
}

/// What a walk of one cache directory found: `entries` as the walk gave
/// them, `now` in seconds since the epoch. A directory that does not exist
/// reports nothing.
pub fn summarize_root(path: String, source: String, exists: bool, now: u64, entries: &Vec<WalkEntry>) -> (r: CacheRoot)
    requires
        exists ==> file_bytes(entries@) <= u64::MAX,
    ensures
        r.path@ == path@,
        r.source@ == source@,
        r.exists == exists,
        !exists ==> r.bytes == 0 && r.files == 0 && r.dirs == 0 && r.buckets@.len() == 0 && r.largest@.len() == 0
            && r.recent@.len() == 0,
        exists ==> ({
            let fs = walked_files(entries@, recent_cut(now));
            &&& r.bytes == file_bytes(entries@)
            &&& r.files == fs.len()
            &&& r.dirs == dir_count(entries@)
            &&& bucket_views(r.buckets@) == sort_desc(bucket_list(fs), by_bytes())
            &&& file_views(r.largest@) == first_n(sort_desc(fs, by_size()), 12)
            &&& file_views(r.recent@) == first_n(sort_desc(recent_only(fs), by_mtime()), 20)
        }),
{
    if !exists {
        return CacheRoot {
            path,
            exists: false,
            bytes: 0,
            files: 0,
            dirs: 0,
            buckets: Vec::new(),
            largest: Vec::new(),
            recent: Vec::new(),
            source,
        };
    }
    let cut = now.saturating_sub(1800);
    let ghost es = entries@;
    let mut bytes: u64 = 0;
    let mut files: u64 = 0;
    let mut dirs: u64 = 0;
    let mut buckets: Vec<CacheBucket> = Vec::new();
    let mut all: Vec<CacheFile> = Vec::new();
    let mut i: usize = 0;
    proof {
        lemma_file_bytes_prefix(es, 0);
    }
    while i < entries.len()
        invariant
            i <= es.len(),
            es == entries@,
            cut == recent_cut(now),
            file_bytes(es) <= u64::MAX,
            bytes == file_bytes(es.take(i as int)),
            files == walked_files(es.take(i as int), cut).len(),
            files <= i,
            dirs <= i,
            dirs == dir_count(es.take(i as int)),
            file_views(all@) == walked_files(es.take(i as int), cut),
            bucket_views(buckets@) == bucket_list(file_views(all@)),
            forall|k: int| 0 <= k < buckets@.len() ==> (#[trigger] buckets@[k]).bytes <= bytes
                && buckets@[k].recent_bytes <= bytes && buckets@[k].files <= files && buckets@[k].recent_files <= files,
        decreases es.len() - i,
    {
        let e = &entries[i];
        let ghost pre = es.take(i as int);
        assert(es.take(i + 1).drop_last() =~= pre);
        assert(es.take(i + 1).last() == es[i as int]);
        proof {
            lemma_file_bytes_prefix(es, i + 1);
        }
        match e.kind {
            EntryKind::Dir => {
                dirs = dirs + 1;
            },
            EntryKind::File => {
                let size = e.size;
                let ghost old_all = file_views(all@);
                let ghost old_buckets = bucket_views(buckets@);
                bytes = bytes + size;
                files = files + 1;
                let recent = e.mtime >= cut;
                let relative = forward_slashes_of(e.relative.as_str());
                let remote = first_segment(relative.as_str());
                let f = CacheFile { path: e.path.clone(), relative, size, mtime: e.mtime, recent };
                let ghost fv = file_view(f);
                // the bucket of this remote, if it has one already
                let at = find_bucket(&buckets, remote.as_str());
                proof {
                    lemma_bucket_index(old_buckets, remote@);
                    assert(file_views(all@.push(f)) =~= old_all.push(fv));
                    assert(old_all.push(fv).drop_last() =~= old_all);
                }
                if let Some(k) = at {
                    proof {
                        lemma_bucket_index_same(old_buckets, remote@, k as int);
                    }
                    let b = &buckets[k];
                    let nb = CacheBucket {
                        remote: b.remote.clone(),
                        files: b.files + 1,
                        bytes: b.bytes + size,
                        recent_files: if recent { b.recent_files + 1 } else { b.recent_files },
                        recent_bytes: if recent { b.recent_bytes + size } else { b.recent_bytes },
                    };
                    buckets.set(k, nb);
                    assert(bucket_views(buckets@) =~= old_buckets.update(k as int, add_file(old_buckets[k as int], fv)));
                } else {
                    let nb = CacheBucket {
                        remote,
                        files: 1,
                        bytes: size,
                        recent_files: if recent { 1 } else { 0 },
                        recent_bytes: if recent { size } else { 0 },
                    };
                    buckets.push(nb);
                    assert(bucket_views(buckets@) =~= old_buckets.push(add_file((segment(fv.1), 0, 0, 0, 0), fv)));
                }
                all.push(f);
            },
            EntryKind::Other => {},
        }
        i = i + 1;
    }
    assert(es.take(es.len() as int) =~= es);
    let sorted = buckets_by_bytes(&buckets);
    let largest = files_by(&all, false, false, 12);
    let recent = files_by(&all, true, true, 20);
    CacheRoot { path, exists: true, bytes, files, dirs, buckets: sorted, largest, recent, source }
}

// ---------------------------------------------------------------------------
// Which directories to look at, and the report over all of them

/// `s` with every item that occurred before left out.
pub open spec fn distinct(s: Seq<Seq<char>>) -> Seq<Seq<char>>
    decreases s.len(),
{
    if s.len() == 0 {
        s
    } else if distinct(s.drop_last()).contains(s.last()) {
        distinct(s.drop_last())
    } else {
        distinct(s.drop_last()).push(s.last())
    }
}

/// Labelled directories with each directory kept once, under its first label.
pub open spec fn first_labels(s: Seq<(Seq<char>, Seq<char>)>) -> Seq<(Seq<char>, Seq<char>)>
    decreases s.len(),
{
    if s.len() == 0 {
        s
    } else if exists|k: int| 0 <= k < first_labels(s.drop_last()).len() && (#[trigger] first_labels(s.drop_last())[k]).0 == s.last().0 {
        first_labels(s.drop_last())
    } else {
        first_labels(s.drop_last()).push(s.last())
    }
}

/// The label of a cache directory that a running process named: `pid N`.
pub open spec fn pid_label(pid: u32) -> Seq<char> {
    "pid "@ + decimal(pid as nat)
}

pub open spec fn pair_views(s: Seq<(String, String)>) -> Seq<(Seq<char>, Seq<char>)> {
    Seq::new(s.len(), |i: int| (s[i].0@, s[i].1@))
}

/// Adds `p` to `out` unless it is there already.
fn add_once(out: &mut Vec<String>, p: &String)
    ensures
        views(old(out)@).contains(p@) ==> views(final(out)@) == views(old(out)@),
        !views(old(out)@).contains(p@) ==> views(final(out)@) == views(old(out)@).push(p@),
{
    let pv = chars_of(p.as_str());
    let mut k: usize = 0;
    while k < out.len()
        invariant
            k <= out@.len(),
            out@ == old(out)@,
            pv@ == p@,
            forall|m: int| 0 <= m < k ==> (#[trigger] views(out@)[m]) != p@,
        decreases out.len() - k,
    {
        let ov = chars_of(out[k].as_str());
        if eq_chars(ov.as_slice(), pv.as_slice()) {
            assert(views(out@)[k as int] == p@);
            return;
        }
        k = k + 1;
    }
    let ghost before = views(out@);
    out.push(p.clone());
    assert(views(out@) =~= before.push(p@));
}

/// The cache directories to report on: the default ones, then those that
/// running rclone processes name with `--cache-dir`, each once.
pub fn cache_root_paths(defaults: &Vec<String>, instance_dirs: &Vec<String>) -> (r: Vec<String>)
    ensures
        views(r@) == distinct(views(defaults@) + views(instance_dirs@)),
{
    let ghost all = views(defaults@) + views(instance_dirs@);
    let mut out: Vec<String> = Vec::new();
    let mut i: usize = 0;
    while i < defaults.len()
        invariant
            i <= defaults@.len(),
            all == views(defaults@) + views(instance_dirs@),
            views(out@) == distinct(all.take(i as int)),
        decreases defaults.len() - i,
    {
        assert(all.take(i + 1).drop_last() =~= all.take(i as int));
        assert(all[i as int] == defaults@[i as int]@);
        add_once(&mut out, &defaults[i]);
        i = i + 1;
    }
    let mut j: usize = 0;
    while j < instance_dirs.len()
        invariant
            j <= instance_dirs@.len(),
            all == views(defaults@) + views(instance_dirs@),
            views(out@) == distinct(all.take(defaults@.len() + j)),
        decreases instance_dirs.len() - j,
    {
        let ghost n = defaults@.len() + j;
        assert(all.take(n + 1).drop_last() =~= all.take(n));
        assert(all[n] == instance_dirs@[j as int]@);
        add_once(&mut out, &instance_dirs[j]);
        j = j + 1;
    }
    assert(all.take(all.len() as int) =~= all);
    out
}

/// Adds directory `dir` labelled `label` to `out` unless the directory is
/// there already.
fn add_labelled(out: &mut Vec<(String, String)>, dir: String, label: String)
    ensures
        (exists|m: int| 0 <= m < old(out)@.len() && (#[trigger] pair_views(old(out)@)[m]).0 == dir@) ==> pair_views(final(out)@) == pair_views(old(out)@),
        !(exists|m: int| 0 <= m < old(out)@.len() && (#[trigger] pair_views(old(out)@)[m]).0 == dir@) ==> pair_views(final(out)@) == pair_views(old(out)@).push((dir@, label@)),
{
    let dv = chars_of(dir.as_str());
    let mut k: usize = 0;
    while k < out.len()
        invariant
            k <= out@.len(),
            out@ == old(out)@,
            dv@ == dir@,
            forall|m: int| 0 <= m < k ==> (#[trigger] pair_views(out@)[m]).0 != dir@,
        decreases out.len() - k,
    {
        let ov = chars_of(out[k].0.as_str());
        if eq_chars(ov.as_slice(), dv.as_slice()) {
            assert(pair_views(out@)[k as int].0 == dir@);
            return;
        }
        k = k + 1;
    }
    let ghost before = pair_views(out@);
    out.push((dir, label));
    assert(pair_views(out@) =~= before.push((dir@, label@)));
}

/// The cache directories to report on with where each came from: the
/// default ones with their labels, then those that running rclone processes
/// name, labelled `pid N`; each directory once, under its first label.
pub fn cache_sources(defaults: &Vec<(String, String)>, instances: &Vec<(u32, String)>) -> (r: Vec<(String, String)>)
    ensures
        pair_views(r@) == first_labels(
            pair_views(defaults@) + Seq::new(instances@.len(), |i: int| (instances@[i].1@, pid_label(instances@[i].0))),
        ),
{
    let ghost all = pair_views(defaults@) + Seq::new(instances@.len(), |i: int| (instances@[i].1@, pid_label(instances@[i].0)));
    let mut out: Vec<(String, String)> = Vec::new();
    let mut i: usize = 0;
    while i < defaults.len()
        invariant
            i <= defaults@.len(),
            all == pair_views(defaults@) + Seq::new(instances@.len(), |i: int| (instances@[i].1@, pid_label(instances@[i].0))),
            pair_views(out@) == first_labels(all.take(i as int)),
        decreases defaults.len() - i,
    {
        assert(all.take(i + 1).drop_last() =~= all.take(i as int));
        assert(all[i as int] == (defaults@[i as int].0@, defaults@[i as int].1@));
        add_labelled(&mut out, defaults[i].0.clone(), defaults[i].1.clone());
        i = i + 1;
    }
    let mut j: usize = 0;
    while j < instances.len()
        invariant
            j <= instances@.len(),
            all == pair_views(defaults@) + Seq::new(instances@.len(), |i: int| (instances@[i].1@, pid_label(instances@[i].0))),
            pair_views(out@) == first_labels(all.take(defaults@.len() + j)),
        decreases instances.len() - j,
    {
        let ghost n = defaults@.len() + j;
        assert(all.take(n + 1).drop_last() =~= all.take(n));
        let (pid, dir) = &instances[j];
        let label = concat("pid ", decimal_string(*pid as u64).as_str());
        assert(all[n] == (dir@, label@));
        add_labelled(&mut out, dir.clone(), label);
        j = j + 1;
    }
    assert(all.take(all.len() as int) =~= all);
    out
}

/// A cache directory seen as (path, exists, bytes, files, dirs, buckets,
/// largest files, recent files, source).
pub type RootView = (Seq<char>, bool, u64, u64, u64, Seq<BucketView>, Seq<FileView>, Seq<FileView>, Seq<char>);

pub open spec fn root_view(r: CacheRoot) -> RootView {
    (r.path@, r.exists, r.bytes, r.files, r.dirs, bucket_views(r.buckets@), file_views(r.largest@), file_views(r.recent@), r.source@)
}

pub open spec fn root_views(s: Seq<CacheRoot>) -> Seq<RootView> {
    Seq::new(s.len(), |i: int| root_view(s[i]))
}

/// Whether a directory belongs in the report: it exists, or a running
/// process names it.
pub open spec fn reported(r: RootView) -> bool {
    r.1 || has_prefix(r.8, "pid"@)
}

pub open spec fn reported_roots(s: Seq<RootView>) -> Seq<RootView>
    decreases s.len(),
{
    if s.len() == 0 {
        s
    } else if reported(s.last()) {
        reported_roots(s.drop_last()).push(s.last())
    } else {
        reported_roots(s.drop_last())
    }
}

/// The bytes of the reported directories.
pub open spec fn reported_bytes(s: Seq<RootView>) -> nat
    decreases s.len(),
{
    if s.len() == 0 {
        0
    } else if reported(s.last()) {
        (reported_bytes(s.drop_last()) + s.last().2) as nat
    } else {
        reported_bytes(s.drop_last())
    }
}

/// The files of the reported directories.
pub open spec fn reported_files(s: Seq<RootView>) -> nat
    decreases s.len(),
{
    if s.len() == 0 {
        0
    } else if reported(s.last()) {
        (reported_files(s.drop_last()) + s.last().3) as nat
    } else {
        reported_files(s.drop_last())
    }
}

pub open spec fn by_root_bytes() -> spec_fn(RootView) -> int {
    |r: RootView| r.2 as int
}

proof fn lemma_reported_prefix(s: Seq<RootView>, n: int)
    requires
        0 <= n <= s.len(),
    ensures
        reported_bytes(s.take(n)) <= reported_bytes(s),
        reported_files(s.take(n)) <= reported_files(s),
    decreases s.len() - n,
{
    if n < s.len() {
        lemma_reported_prefix(s, n + 1);
        assert(s.take(n + 1).drop_last() =~= s.take(n));
    } else {
        assert(s.take(n) =~= s);
    }
}

/// The report over the scanned directories: those that exist or that a
/// running process names, largest first, with their totals.
pub fn analyze_cache(roots: Vec<CacheRoot>) -> (r: CacheReport)
    requires
        reported_bytes(root_views(roots@)) <= u64::MAX,
        reported_files(root_views(roots@)) <= u64::MAX,
    ensures
        root_views(r.roots@) == sort_desc(reported_roots(root_views(roots@)), by_root_bytes()),
        r.total_bytes == reported_bytes(root_views(roots@)),
        r.total_files == reported_files(root_views(roots@)),
{
    let ghost all = root_views(roots@);
    let mut rest = roots;
    let mut out: Vec<CacheRoot> = Vec::new();
    let mut total_bytes: u64 = 0;
    let mut total_files: u64 = 0;
    let mut i: usize = 0;
    proof {
        lemma_reported_prefix(all, 0);
    }
    assert(all.len() == rest.len());
    while rest.len() > 0
        invariant
            i <= all.len() <= usize::MAX,
            root_views(rest@) == all.skip(i as int),
            reported_bytes(all) <= u64::MAX,
            reported_files(all) <= u64::MAX,
            total_bytes == reported_bytes(all.take(i as int)),
            total_files == reported_files(all.take(i as int)),
            root_views(out@) == sort_desc(reported_roots(all.take(i as int)), by_root_bytes()),
        decreases rest.len(),
    {
        assert(root_views(rest@).len() == rest@.len());
        assert(all.skip(i as int).len() == all.len() - i);
        assert(root_views(rest@)[0] == all.skip(i as int)[0]);
        let ghost before = rest@;
        let x = rest.remove(0);
        assert forall|k: int| 0 <= k < rest@.len() implies #[trigger] root_views(rest@)[k] == all.skip(i + 1)[k] by {
            assert(rest@[k] == before[k + 1]);
            assert(root_views(before)[k + 1] == all.skip(i as int)[k + 1]);
        }
        assert(root_views(rest@) =~= all.skip(i + 1));
        assert(all.take(i + 1).drop_last() =~= all.take(i as int));
        assert(all.take(i + 1).last() == root_view(x));
        proof {
            lemma_reported_prefix(all, i + 1);
        }
        let src = chars_of(x.source.as_str());
        proof {
            reveal_strlit("pid");
        }
        if x.exists || starts_with_str(src.as_slice(), "pid") {
            total_bytes = total_bytes + x.bytes;
            total_files = total_files + x.files;
            let ghost s = root_views(out@);
            let mut j: usize = out.len();
            while j > 0 && out[j - 1].bytes < x.bytes
                invariant
                    j <= out@.len(),
                    s == root_views(out@),
                    forall|k: int| j <= k < s.len() ==> (by_root_bytes())(#[trigger] s[k]) < (by_root_bytes())(root_view(x)),
                decreases j,
            {
                j = j - 1;
            }
            proof {
                lemma_insert_desc_at(s, root_view(x), by_root_bytes(), j as int);
                lemma_sort_desc_push(reported_roots(all.take(i as int)), root_view(x), by_root_bytes());
            }
            out.insert(j, x);
            assert(root_views(out@) =~= s.insert(j as int, all[i as int]));
        }
        i = i + 1;
    }
    assert(all.take(i as int) =~= all);
    CacheReport { roots: out, total_bytes, total_files }
}

/// The report lists the directories largest first, and it lists the
/// reported directories, each as often as it was scanned.
pub proof fn law_report_largest_first(roots: Seq<RootView>)
    ensures
        sorted_desc(sort_desc(reported_roots(roots), by_root_bytes()), by_root_bytes()),
        sort_desc(reported_roots(roots), by_root_bytes()).to_multiset() == reported_roots(roots).to_multiset(),
{
    law_sort_desc(reported_roots(roots), by_root_bytes());
}

/// The total bytes of some buckets.
pub open spec fn bucket_bytes(bs: Seq<BucketView>) -> int
    decreases bs.len(),
{
    if bs.len() == 0 {
        0
    } else {
        bucket_bytes(bs.drop_last()) + bs.last().2
    }
}

/// The total files of some buckets.
pub open spec fn bucket_files(bs: Seq<BucketView>) -> int
    decreases bs.len(),
{
    if bs.len() == 0 {
        0
    } else {
        bucket_files(bs.drop_last()) + bs.last().1
    }
}

/// The total size of some files.
pub open spec fn size_sum(fs: Seq<FileView>) -> int
    decreases fs.len(),
{
    if fs.len() == 0 {
        0
    } else {
        size_sum(fs.drop_last()) + fs.last().2
    }
}

proof fn lemma_bucket_sums_update(bs: Seq<BucketView>, i: int, b: BucketView)
    requires
        0 <= i < bs.len(),
    ensures
        bucket_bytes(bs.update(i, b)) == bucket_bytes(bs) - bs[i].2 + b.2,
        bucket_files(bs.update(i, b)) == bucket_files(bs) - bs[i].1 + b.1,
    decreases bs.len(),
{
    if i < bs.len() - 1 {
        lemma_bucket_sums_update(bs.drop_last(), i, b);
        assert(bs.update(i, b).drop_last() =~= bs.drop_last().update(i, b));
    } else {
        assert(bs.update(i, b).drop_last() =~= bs.drop_last());
    }
}

/// Every file of a walk is counted in exactly one bucket: the buckets' bytes
/// and files add up to those of the walk.
pub proof fn law_buckets_cover_files(fs: Seq<FileView>)
    ensures
        bucket_bytes(bucket_list(fs)) == size_sum(fs),
        bucket_files(bucket_list(fs)) == fs.len(),
    decreases fs.len(),
{
    if fs.len() > 0 {
        let prev = bucket_list(fs.drop_last());
        law_buckets_cover_files(fs.drop_last());
        let f = fs.last();
        let i = bucket_index(prev, segment(f.1));
        lemma_bucket_index(prev, segment(f.1));
        if i >= 0 {
            lemma_bucket_sums_update(prev, i, add_file(prev[i], f));
        } else {
            assert(prev.push(add_file((segment(f.1), 0, 0, 0, 0), f)).drop_last() =~= prev);
        }
    }
}

proof fn lemma_file_bytes_prefix(es: Seq<WalkEntry>, n: int)
    requires
        0 <= n <= es.len(),
    ensures
        file_bytes(es.take(n)) <= file_bytes(es),
    decreases es.len() - n,
{
    if n < es.len() {
        lemma_file_bytes_prefix(es, n + 1);
        assert(es.take(n + 1).drop_last() =~= es.take(n));
    } else {
        assert(es.take(n) =~= es);
    }
}

} // verus!
