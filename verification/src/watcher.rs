//! What becomes of changes in the file system after the scan.

use vstd::prelude::*;

use crate::lang::Lang;
use crate::path;
use crate::path::FilePath;
use crate::path_table::PathTable;
use crate::scanner;
use crate::scanner::{ScanConfig, ScanEvent, Stamp};

verus! {

/// What the watcher reports.
#[derive(Debug)]
pub enum WatchEvent {
    /// A file changed, or came.
    Upsert { path: FilePath, lang: Lang, lines: u64, bytes: u64, mtime: Option<Stamp> },
    /// A file is gone.
    Remove { path: FilePath },
    /// All changes that came together were reported.
    BatchDone,
}

/// What a file was like when it was counted.
#[derive(Debug, Clone, Copy, PartialEq, Eq, Structural)]
pub struct CachedMeta {
    pub mtime: Option<Stamp>,
    pub bytes: u64,
}

/// What the files were like when they were counted, by path.
pub type MetaCache = PathTable<CachedMeta>;

/// What happened to a path.
#[derive(Debug, Clone, Copy, PartialEq, Eq, Structural)]
pub enum ChangeKind {
    Removed,
    Touched,
}

/// Something happened to a path.
#[derive(Debug)]
pub struct Change {
    pub path: FilePath,
    pub is_dir: bool,
    pub kind: ChangeKind,
}

/// Something happened to a path.
#[verifier::ext_equal]
pub struct ChangeModel {
    pub path: Seq<u8>,
    pub is_dir: bool,
    pub kind: ChangeKind,
}

impl Change {
    /// What happened.
    pub open spec fn model(self) -> ChangeModel {
        ChangeModel { path: self.path@, is_dir: self.is_dir, kind: self.kind }
    }
}

/// What happened, change by change.
pub open spec fn change_models(v: Seq<Change>) -> Seq<ChangeModel> {
    v.map_values(|c: Change| c.model())
}

/// The paths to look at, with what happened to them.
pub open spec fn job_models(v: Seq<(FilePath, ChangeKind)>) -> Seq<(Seq<u8>, ChangeKind)> {
    v.map_values(|j: (FilePath, ChangeKind)| (j.0@, j.1))
}

/// The first of the jobs from `i` on that is about a path, or the end.
pub open spec fn job_at(jobs: Seq<(Seq<u8>, ChangeKind)>, p: Seq<u8>, i: int) -> int
    decreases jobs.len() - i,
{
    if i >= jobs.len() || path::parts(jobs[i].0) == path::parts(p) {
        i
    } else {
        job_at(jobs, p, i + 1)
    }
}

/// The paths to look at after some changes: each once, in the order in which
/// they came first. Folders are left out, since what happens to their files is
/// reported by file. The last change of a path says what happened to it.
pub open spec fn bucketed(cs: Seq<ChangeModel>) -> Seq<(Seq<u8>, ChangeKind)>
    decreases cs.len(),
{
    if cs.len() == 0 {
        seq![]
    } else {
        let before = bucketed(cs.drop_last());
        let c = cs.last();
        let i = job_at(before, c.path, 0);
        if c.is_dir {
            before
        } else if i >= before.len() {
            before.push((c.path, c.kind))
        } else {
            before.update(i, (before[i].0, c.kind))
        }
    }
}

proof fn lemma_job_at(jobs: Seq<(Seq<u8>, ChangeKind)>, p: Seq<u8>, i: int)
    requires
        0 <= i <= jobs.len(),
    ensures
        i <= job_at(jobs, p, i) <= jobs.len(),
        job_at(jobs, p, i) < jobs.len() ==> path::parts(jobs[job_at(jobs, p, i)].0)
            == path::parts(p),
        forall|k: int|
            i <= k < job_at(jobs, p, i) ==> path::parts((#[trigger] jobs[k]).0) != path::parts(p),
    decreases jobs.len() - i,
{
    if i < jobs.len() && path::parts(jobs[i].0) != path::parts(p) {
        lemma_job_at(jobs, p, i + 1);
    }
}

/// Whether a change says something of a path that is to be looked at.
pub open spec fn concerns(c: ChangeModel, p: Seq<u8>) -> bool {
    !c.is_dir && path::parts(c.path) == path::parts(p)
}

/// The last change of a path, or -1.
pub open spec fn last_change(cs: Seq<ChangeModel>, p: Seq<u8>) -> int
    decreases cs.len(),
{
    if cs.len() == 0 {
        -1
    } else if concerns(cs.last(), p) {
        cs.len() - 1
    } else {
        last_change(cs.drop_last(), p)
    }
}

/// The last change of a path is about the path, and no later one is.
pub proof fn lemma_last_change(cs: Seq<ChangeModel>, p: Seq<u8>)
    ensures
        -1 <= last_change(cs, p) < cs.len(),
        last_change(cs, p) >= 0 ==> concerns(cs[last_change(cs, p)], p),
        forall|k: int| last_change(cs, p) < k < cs.len() ==> !concerns(#[trigger] cs[k], p),
    decreases cs.len(),
{
    if cs.len() > 0 && !concerns(cs.last(), p) {
        let less = cs.drop_last();
        lemma_last_change(less, p);
        assert forall|k: int| last_change(cs, p) < k < cs.len() implies !concerns(
            #[trigger] cs[k],
            p,
        ) by {
            if k < less.len() {
                assert(less[k] == cs[k]);
            }
        }
    }
}

proof fn lemma_same_last_change(cs: Seq<ChangeModel>, p: Seq<u8>, q: Seq<u8>)
    requires
        path::parts(p) == path::parts(q),
    ensures
        last_change(cs, p) == last_change(cs, q),
    decreases cs.len(),
{
    if cs.len() > 0 {
        lemma_same_last_change(cs.drop_last(), p, q);
    }
}

/// No path is looked at twice; each that is looked at was changed, and what
/// happened to it is what its last change says.
pub proof fn each_path_once(cs: Seq<ChangeModel>)
    ensures
        forall|i: int, j: int|
            0 <= i < j < bucketed(cs).len() ==> path::parts((#[trigger] bucketed(cs)[i]).0)
                != path::parts((#[trigger] bucketed(cs)[j]).0),
        forall|i: int|
            0 <= i < bucketed(cs).len() ==> {
                let job = #[trigger] bucketed(cs)[i];
                &&& 0 <= last_change(cs, job.0) < cs.len()
                &&& job.1 == cs[last_change(cs, job.0)].kind
            },
    decreases cs.len(),
{
    if cs.len() > 0 {
        let less = cs.drop_last();
        let before = bucketed(less);
        let now = bucketed(cs);
        let c = cs.last();
        let at = job_at(before, c.path, 0);
        each_path_once(less);
        lemma_job_at(before, c.path, 0);
        assert forall|i: int| 0 <= i < now.len() implies {
            let job = #[trigger] now[i];
            &&& 0 <= last_change(cs, job.0) < cs.len()
            &&& job.1 == cs[last_change(cs, job.0)].kind
        } by {
            let job = now[i];
            if i < before.len() {
                assert(job.0 == before[i].0);
                assert(0 <= last_change(less, before[i].0) < less.len());
                if concerns(c, job.0) {
                    assert(i == at) by {
                        if at < i {
                            assert(path::parts(before[at].0) == path::parts(before[i].0));
                        }
                    }
                }
            } else {
                assert(concerns(c, job.0));
            }
        }
    }
}

/// A file that is removed and then comes back within a batch is looked at as one
/// that came; one that is changed and then removed is gone.
pub proof fn last_change_wins(cs: Seq<ChangeModel>, k: int)
    requires
        0 <= k < cs.len(),
        !cs[k].is_dir,
        forall|j: int| k < j < cs.len() ==> !concerns(#[trigger] cs[j], cs[k].path),
    ensures
        exists|i: int|
            0 <= i < bucketed(cs).len() && path::parts((#[trigger] bucketed(cs)[i]).0)
                == path::parts(cs[k].path) && bucketed(cs)[i].1 == cs[k].kind,
{
    no_path_missed(cs, k);
    each_path_once(cs);
    let i = choose|i: int|
        0 <= i < bucketed(cs).len() && path::parts((#[trigger] bucketed(cs)[i]).0) == path::parts(
            cs[k].path,
        );
    let p = bucketed(cs)[i].0;
    lemma_last_change(cs, cs[k].path);
    lemma_same_last_change(cs, p, cs[k].path);
    assert(concerns(cs[k], cs[k].path));
    assert(last_change(cs, cs[k].path) == k);
}

/// Every path that was changed and is no folder is looked at.
pub proof fn no_path_missed(cs: Seq<ChangeModel>, k: int)
    requires
        0 <= k < cs.len(),
        !cs[k].is_dir,
    ensures
        exists|i: int|
            0 <= i < bucketed(cs).len() && path::parts((#[trigger] bucketed(cs)[i]).0)
                == path::parts(cs[k].path),
    decreases cs.len(),
{
    let less = cs.drop_last();
    let before = bucketed(less);
    let now = bucketed(cs);
    if k < cs.len() - 1 {
        no_path_missed(less, k);
        lemma_job_at(before, cs.last().path, 0);
        assert(less[k] == cs[k]);
        let i = choose|i: int|
            0 <= i < before.len() && path::parts((#[trigger] before[i]).0) == path::parts(
                less[k].path,
            );
        assert(now[i].0 == before[i].0);
    } else {
        let i = job_at(before, cs[k].path, 0);
        lemma_job_at(before, cs[k].path, 0);
        assert(path::parts(now[i].0) == path::parts(cs[k].path));
    }
}

/// The paths to look at after some changes.
pub fn bucket(changes: &Vec<Change>) -> (jobs: Vec<(FilePath, ChangeKind)>)
    ensures
        job_models(jobs@) == bucketed(change_models(changes@)),
{
    let ghost cs = change_models(changes@);
    let mut jobs: Vec<(FilePath, ChangeKind)> = Vec::new();
    let mut places: PathTable<usize> = PathTable::new();
    let mut n: usize = 0;
    proof {
        assert(cs.take(0) =~= seq![]);
        assert(job_models(jobs@) =~= seq![]);
    }
    while n < changes.len()
        invariant
            n <= changes@.len() == cs.len(),
            cs == change_models(changes@),
            job_models(jobs@) == bucketed(cs.take(n as int)),
            places.wf(),
            forall|k: Seq<Seq<u8>>| #[trigger]
                places.view().contains_key(k) ==> places.view()[k] < jobs@.len() && path::parts(
                    jobs@[places.view()[k] as int].0@,
                ) == k,
            forall|i: int|
                0 <= i < jobs@.len() ==> places.view().contains_key(
                    path::parts((#[trigger] jobs@[i]).0@),
                ) && places.view()[path::parts(jobs@[i].0@)] == i,
        decreases changes@.len() - n,
    {
        let c = &changes[n];
        let ghost before = job_models(jobs@);
        let ghost held = places.view();
        let ghost key = path::parts(c.path@);
        proof {
            assert(cs.take(n + 1).drop_last() =~= cs.take(n as int));
            assert(cs.take(n + 1).last() == c.model());
            lemma_job_at(before, c.path@, 0);
            let at = job_at(before, c.path@, 0);
            if at < before.len() {
                assert(before[at] == (jobs@[at].0@, jobs@[at].1));
            }
        }
        if !c.is_dir {
            match places.get(&c.path) {
                Some(i) => {
                    proof {
                        assert(before[i as int] == (jobs@[i as int].0@, jobs@[i as int].1));
                        assert(job_at(before, c.path@, 0) == i);
                    }
                    let p = jobs[i].0.clone();
                    jobs.set(i, (p, c.kind));
                    proof {
                        assert(job_models(jobs@) =~= before.update(
                            i as int,
                            (before[i as int].0, c.kind),
                        ));
                    }
                },
                None => {
                    let ghost so_far = jobs@;
                    let at: usize = jobs.len();
                    places.insert(&c.path, at);
                    jobs.push((c.path.clone(), c.kind));
                    proof {
                        assert(job_at(before, c.path@, 0) >= before.len());
                        assert(job_models(jobs@) =~= before.push((c.path@, c.kind)));
                        assert forall|i: int| 0 <= i < jobs@.len() implies places.view().contains_key(
                            path::parts((#[trigger] jobs@[i]).0@),
                        ) && places.view()[path::parts(jobs@[i].0@)] == i by {
                            if i < at {
                                assert(jobs@[i] == so_far[i]);
                                assert(held.contains_key(path::parts(so_far[i].0@)));
                            }
                        }
                        assert forall|k: Seq<Seq<u8>>| #[trigger]
                            places.view().contains_key(k) implies places.view()[k] < jobs@.len()
                            && path::parts(jobs@[places.view()[k] as int].0@) == k by {
                            if k != key {
                                assert(held.contains_key(k));
                                assert(jobs@[held[k] as int] == so_far[held[k] as int]);
                            }
                        }
                    }
                },
            }
        }
        n = n + 1;
    }
    proof {
        assert(cs.take(cs.len() as int) =~= cs);
    }
    jobs
}

/// How many threads share the work: as many as there are jobs, at most the
/// number that was asked for, and one at least.
pub fn workers(threads: usize, jobs: usize) -> (r: usize)
    ensures
        r == if threads < 1 && jobs >= 1 {
            1
        } else if threads < jobs {
            threads as int
        } else {
            jobs as int
        },
        r <= jobs,
        jobs > 0 ==> r > 0,
{
    let wanted = if threads < 1 {
        1
    } else {
        threads
    };
    if wanted < jobs {
        wanted
    } else {
        jobs
    }
}

/// What a first look at a path says.
#[derive(Debug, Clone, Copy)]
pub enum Look {
    /// The file is gone.
    Gone,
    /// The file does not count.
    Ignore,
    /// The file counts, with this language.
    Counts(Lang),
}

/// A first look at a path that was changed: the scan's own rules say whether it
/// counts.
pub fn look(path: &FilePath, kind: ChangeKind, cfg: &ScanConfig) -> (r: Look)
    ensures
        r is Gone <==> kind == ChangeKind::Removed,
        r is Ignore <==> kind == ChangeKind::Touched && scanner::classified(path@, cfg.model())
            is None,
        r is Counts ==> scanner::classified(path@, cfg.model()) == Some(r->Counts_0.name()),
{
    match kind {
        ChangeKind::Removed => Look::Gone,
        ChangeKind::Touched => match scanner::classify(path, cfg) {
            Some(lang) => Look::Counts(lang),
            None => Look::Ignore,
        },
    }
}

/// Whether a file is as it was when it was counted, so that it need not be
/// counted again.
pub fn unchanged(prev: Option<CachedMeta>, stat: Option<CachedMeta>) -> (r: bool)
    ensures
        r == (prev is Some && stat == prev),
{
    match (prev, stat) {
        (Some(a), Some(b)) => a.bytes == b.bytes && same_time(a.mtime, b.mtime),
        _ => false,
    }
}

fn same_time(a: Option<Stamp>, b: Option<Stamp>) -> (r: bool)
    ensures
        r == (a == b),
{
    match (a, b) {
        (Some(x), Some(y)) => x == y,
        (None, None) => true,
        _ => false,
    }
}

/// What is reported of a file after it was counted. One that cannot be counted
/// any more is taken as removed.
pub fn outcome(path: FilePath, lang: Lang, counted: Option<(u64, u64)>, mtime: Option<Stamp>) -> (r:
    WatchEvent)
    ensures
        counted is None ==> r == (WatchEvent::Remove { path }),
        counted is Some ==> r == (WatchEvent::Upsert {
            path,
            lang,
            lines: (counted->0).0,
            bytes: (counted->0).1,
            mtime,
        }),
{
    match counted {
        Some((lines, bytes)) => WatchEvent::Upsert { path, lang, lines, bytes, mtime },
        None => WatchEvent::Remove { path },
    }
}

/// What is remembered of the files after the scan reported something.
pub open spec fn noted_scan(m: Map<Seq<Seq<u8>>, CachedMeta>, ev: ScanEvent) -> Map<
    Seq<Seq<u8>>,
    CachedMeta,
> {
    match ev {
        ScanEvent::File { path, bytes, mtime, .. } => m.insert(
            path::parts(path@),
            CachedMeta { mtime, bytes },
        ),
        ScanEvent::Done { .. } => m,
    }
}

/// Remembers what a file was like when the scan counted it.
pub fn note_scan(meta: &mut MetaCache, ev: &ScanEvent)
    requires
        old(meta).wf(),
    ensures
        final(meta).wf(),
        final(meta).view() == noted_scan(old(meta).view(), *ev),
{
    match ev {
        ScanEvent::File { path, bytes, mtime, .. } => {
            meta.insert(path, CachedMeta { mtime: *mtime, bytes: *bytes });
        },
        ScanEvent::Done { .. } => {},
    }
}

/// What is remembered of the files after the watcher reported something.
pub open spec fn noted_watch(m: Map<Seq<Seq<u8>>, CachedMeta>, ev: WatchEvent) -> Map<
    Seq<Seq<u8>>,
    CachedMeta,
> {
    match ev {
        WatchEvent::Upsert { path, bytes, mtime, .. } => m.insert(
            path::parts(path@),
            CachedMeta { mtime, bytes },
        ),
        WatchEvent::Remove { path } => m.remove(path::parts(path@)),
        WatchEvent::BatchDone => m,
    }
}

/// Remembers what a file was like when it was counted again, and forgets one
/// that is gone.
pub fn note_watch(meta: &mut MetaCache, ev: &WatchEvent)
    requires
        old(meta).wf(),
    ensures
        final(meta).wf(),
        final(meta).view() == noted_watch(old(meta).view(), *ev),
{
    match ev {
        WatchEvent::Upsert { path, bytes, mtime, .. } => {
            meta.insert(path, CachedMeta { mtime: *mtime, bytes: *bytes });
        },
        WatchEvent::Remove { path } => {
            meta.remove(path);
        },
        WatchEvent::BatchDone => {},
    }
}

/// A file that was just counted is not counted again until its time or its size
/// changes.
pub proof fn counted_files_rest(
    m: Map<Seq<Seq<u8>>, CachedMeta>,
    path: FilePath,
    lang: Lang,
    lines: u64,
    bytes: u64,
    mtime: Option<Stamp>,
)
    ensures
        ({
            let k = path::parts(path@);
            let now = noted_watch(m, WatchEvent::Upsert { path, lang, lines, bytes, mtime });
            &&& now.contains_key(k)
            &&& now[k] == CachedMeta { mtime, bytes }
        }),
{
}

/// The first change of a path, or the end.
pub open spec fn first_change(cs: Seq<ChangeModel>, p: Seq<u8>) -> int
    decreases cs.len(),
{
    if cs.len() == 0 {
        0
    } else {
        let k = first_change(cs.drop_last(), p);
        if k < cs.len() - 1 || concerns(cs.last(), p) {
            k
        } else {
            cs.len() as int
        }
    }
}

/// The first change of a path is about the path, and no earlier one is.
proof fn lemma_first_change(cs: Seq<ChangeModel>, p: Seq<u8>)
    ensures
        0 <= first_change(cs, p) <= cs.len(),
        first_change(cs, p) < cs.len() ==> concerns(cs[first_change(cs, p)], p),
        forall|k: int| 0 <= k < first_change(cs, p) ==> !concerns(#[trigger] cs[k], p),
    decreases cs.len(),
{
    if cs.len() > 0 {
        let less = cs.drop_last();
        lemma_first_change(less, p);
        assert forall|k: int| 0 <= k < first_change(cs, p) implies !concerns(
            #[trigger] cs[k],
            p,
        ) by {
            if k < less.len() {
                assert(less[k] == cs[k]);
            }
        }
    }
}

/// Paths are looked at in the order in which they were changed first, and under
/// the name that they had then.
pub proof fn paths_keep_their_order(cs: Seq<ChangeModel>)
    ensures
        forall|i: int|
            0 <= i < bucketed(cs).len() ==> {
                let p = (#[trigger] bucketed(cs)[i]).0;
                &&& 0 <= first_change(cs, p) < cs.len()
                &&& cs[first_change(cs, p)].path == p
            },
        forall|i: int, j: int|
            0 <= i < j < bucketed(cs).len() ==> first_change(cs, (#[trigger] bucketed(cs)[i]).0)
                < first_change(cs, (#[trigger] bucketed(cs)[j]).0),
    decreases cs.len(),
{
    if cs.len() > 0 {
        let less = cs.drop_last();
        let before = bucketed(less);
        let now = bucketed(cs);
        let c = cs.last();
        let at = job_at(before, c.path, 0);
        paths_keep_their_order(less);
        lemma_job_at(before, c.path, 0);
        lemma_first_change(less, c.path);
        assert forall|i: int| 0 <= i < before.len() implies ({
            let p = (#[trigger] before[i]).0;
            &&& now[i].0 == p
            &&& first_change(cs, p) == first_change(less, p)
            &&& first_change(cs, p) < less.len()
            &&& cs[first_change(cs, p)].path == p
        }) by {
            let k = first_change(less, before[i].0);
            assert(less[k] == cs[k]);
        }
        if !c.is_dir && at >= before.len() {
            let k = first_change(less, c.path);
            if k < less.len() {
                no_path_missed(less, k);
                assert(concerns(less[k], c.path));
                assert(false);
            }
            assert(first_change(cs, c.path) == cs.len() - 1);
        }
        assert forall|i: int| 0 <= i < now.len() implies ({
            let p = (#[trigger] now[i]).0;
            &&& 0 <= first_change(cs, p) < cs.len()
            &&& cs[first_change(cs, p)].path == p
        }) by {
            if i < before.len() {
                let p = before[i].0;
                lemma_first_change(cs, p);
            }
        }
        assert forall|i: int, j: int| 0 <= i < j < now.len() implies first_change(
            cs,
            (#[trigger] now[i]).0,
        ) < first_change(cs, (#[trigger] now[j]).0) by {
            let p = before[i].0;
            if j < before.len() {
                let q = before[j].0;
                assert(first_change(less, p) < first_change(less, q));
            }
        }
    }
}

/// What is remembered of a file is what was last reported of it; what is
/// remembered of other files stays.
pub proof fn the_last_report_is_remembered(
    m: Map<Seq<Seq<u8>>, CachedMeta>,
    path: FilePath,
    lang: Lang,
    lines: u64,
    bytes: u64,
    mtime: Option<Stamp>,
    count_nanos: u64,
    other: Seq<Seq<u8>>,
)
    requires
        other != path::parts(path@),
    ensures
        ({
            let k = path::parts(path@);
            let scanned = noted_scan(
                m,
                ScanEvent::File { path, lang, lines, bytes, mtime, count_nanos },
            );
            let changed = noted_watch(m, WatchEvent::Upsert { path, lang, lines, bytes, mtime });
            let gone = noted_watch(m, WatchEvent::Remove { path });
            &&& scanned.contains_key(k) && scanned[k].mtime == mtime && scanned[k].bytes == bytes
            &&& changed == scanned
            &&& !gone.contains_key(k)
            &&& scanned.contains_key(other) == m.contains_key(other)
            &&& gone.contains_key(other) == m.contains_key(other)
            &&& m.contains_key(other) ==> scanned[other] == m[other] && gone[other] == m[other]
        }),
        noted_watch(m, WatchEvent::BatchDone) == m,
{
}

} // verus!
