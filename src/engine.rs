use vstd::prelude::*;

use crate::error::{outcome_view, BackupError, BackupErrorView};
use crate::model::{SyncJob, SyncJobView};

verus! {

/// A regular file seen in a tree: its path relative to the tree's root, its
/// size in bytes and its modification time.
#[derive(Clone, Debug)]
pub struct FileEntry {
    pub rel_path: String,
    pub size: u64,
    pub modified: u64,
}

/// A `FileEntry` with its path as a character sequence.
pub struct FileView {
    pub path: Seq<char>,
    pub size: u64,
    pub modified: u64,
}

impl View for FileEntry {
    type V = FileView;

    open spec fn view(&self) -> FileView {
        FileView { path: self.rel_path@, size: self.size, modified: self.modified }
    }
}

/// How a source file compares with the destination.
#[derive(PartialEq, Eq, Structural, Clone, Copy, Debug)]
pub enum Classification {
    /// No destination file at that path.
    New,
    /// The destination file differs in size or modification time.
    Changed,
    /// The destination file matches.
    Unchanged,
}

/// The file chosen for one relative path: from which source (by position
/// in the job's `sources`), with what size and time, and how it compares
/// with the destination.
#[derive(Clone, Debug)]
pub struct PlannedFile {
    pub rel_path: String,
    pub source: usize,
    pub size: u64,
    pub modified: u64,
    pub class: Classification,
}

/// A `PlannedFile` with its path as a character sequence.
pub struct PlannedView {
    pub path: Seq<char>,
    pub source: int,
    pub size: u64,
    pub modified: u64,
    pub class: Classification,
}

impl View for PlannedFile {
    type V = PlannedView;

    open spec fn view(&self) -> PlannedView {
        PlannedView {
            path: self.rel_path@,
            source: self.source as int,
            size: self.size,
            modified: self.modified,
            class: self.class,
        }
    }
}

/// What a run of one job is to do. Destination files that no source holds
/// are listed as orphans and left in place: a backup never deletes.
#[derive(Clone, Debug)]
pub struct Plan {
    pub files: Vec<PlannedFile>,
    pub orphans: Vec<String>,
}

/// The listing of a tree, as values.
pub open spec fn listing_view(l: Seq<FileEntry>) -> Seq<FileView> {
    l.map_values(|f: FileEntry| f@)
}

/// The listings of a job's sources, in order, as values.
pub open spec fn sources_view(s: Seq<Vec<FileEntry>>) -> Seq<Seq<FileView>> {
    s.map_values(|l: Vec<FileEntry>| listing_view(l@))
}

/// Whether entry `e` of source `j` is the last occurrence of its path over
/// all sources in order: later sources take precedence.
pub open spec fn is_winner(src: Seq<Seq<FileView>>, j: int, e: int) -> bool {
    &&& 0 <= j < src.len()
    &&& 0 <= e < src[j].len()
    &&& forall|j2: int, e2: int|
        0 <= j2 < src.len() && 0 <= e2 < src[j2].len() && (j < j2 || (j == j2 && e < e2))
            ==> (#[trigger] src[j2][e2]).path != src[j][e].path
}

/// Whether some source holds this relative path.
pub open spec fn in_sources(src: Seq<Seq<FileView>>, p: Seq<char>) -> bool {
    exists|j: int, e: int| 0 <= j < src.len() && 0 <= e < src[j].len() && (#[trigger] src[j][e]).path == p
}

/// The last destination entry at this relative path.
pub open spec fn dest_lookup(dest: Seq<FileView>, p: Seq<char>) -> Option<FileView>
    decreases dest.len(),
{
    if dest.len() == 0 {
        None
    } else if dest.last().path == p {
        Some(dest.last())
    } else {
        dest_lookup(dest.drop_last(), p)
    }
}

/// New without a destination file, unchanged when size and modification
/// time both match, changed otherwise.
pub open spec fn classify(f: FileView, d: Option<FileView>) -> Classification {
    match d {
        None => Classification::New,
        Some(x) => if x.size == f.size && x.modified == f.modified {
            Classification::Unchanged
        } else {
            Classification::Changed
        },
    }
}

/// The plan's entry for entry `e` of source `j`.
pub open spec fn planned_for(
    src: Seq<Seq<FileView>>,
    dest: Seq<FileView>,
    j: int,
    e: int,
) -> PlannedView {
    PlannedView {
        path: src[j][e].path,
        source: j,
        size: src[j][e].size,
        modified: src[j][e].modified,
        class: classify(src[j][e], dest_lookup(dest, src[j][e].path)),
    }
}

/// Whether `f` is the plan's entry for some winning source file.
pub open spec fn is_planned(src: Seq<Seq<FileView>>, dest: Seq<FileView>, f: PlannedView) -> bool {
    exists|j: int, e: int| is_winner(src, j, e) && f == #[trigger] planned_for(src, dest, j, e)
}

/// The destination paths that no source holds, in destination order.
pub open spec fn orphan_paths(src: Seq<Seq<FileView>>, dest: Seq<FileView>) -> Seq<Seq<char>>
    decreases dest.len(),
{
    if dest.len() == 0 {
        Seq::empty()
    } else {
        let rest = orphan_paths(src, dest.drop_last());
        if in_sources(src, dest.last().path) {
            rest
        } else {
            rest.push(dest.last().path)
        }
    }
}

/// Whether some planned file has this path.
pub open spec fn has_path(files: Seq<PlannedView>, p: Seq<char>) -> bool {
    exists|q: int| 0 <= q < files.len() && (#[trigger] files[q]).path == p
}

/// Whether some file of the plan being built has this path.
pub open spec fn path_planned(files: Seq<PlannedFile>, p: Seq<char>) -> bool {
    exists|q: int| 0 <= q < files.len() && (#[trigger] files[q])@.path == p
}

/// What a plan for these listings holds: one entry for each relative path
/// of the sources, taken from its winning file, and the orphans.
pub open spec fn plan_matches(
    files: Seq<PlannedView>,
    orphans: Seq<Seq<char>>,
    src: Seq<Seq<FileView>>,
    dest: Seq<FileView>,
) -> bool {
    &&& forall|q: int| 0 <= q < files.len() ==> is_planned(src, dest, #[trigger] files[q])
    &&& forall|j: int, e: int|
        0 <= j < src.len() && 0 <= e < src[j].len() ==> has_path(files, (#[trigger] src[j][e]).path)
    &&& forall|q1: int, q2: int|
        0 <= q1 < files.len() && 0 <= q2 < files.len() && q1 != q2 ==> (#[trigger] files[q1]).path
            != (#[trigger] files[q2]).path
    &&& orphans == orphan_paths(src, dest)
}

/// The files of a plan, as values.
pub open spec fn planned_view(files: Seq<PlannedFile>) -> Seq<PlannedView> {
    files.map_values(|f: PlannedFile| f@)
}

/// A list of paths, as character sequences.
pub open spec fn paths_view(v: Seq<String>) -> Seq<Seq<char>> {
    v.map_values(|s: String| s@)
}

/// The last destination entry at `p`, as size and modification time.
fn lookup_dest(dest: &Vec<FileEntry>, p: &String) -> (r: Option<(u64, u64)>)
    ensures
        r == (match dest_lookup(listing_view(dest@), p@) {
            None => None,
            Some(x) => Some((x.size, x.modified)),
        }),
{
    let ghost dv = listing_view(dest@);
    let mut i = dest.len();
    assert(dv.take(i as int) =~= dv);
    while i > 0
        invariant
            i <= dest.len(),
            dv == listing_view(dest@),
            dest_lookup(dv, p@) == dest_lookup(dv.take(i as int), p@),
        decreases i,
    {
        assert(dv.take(i as int).drop_last() =~= dv.take(i - 1));
        assert(dv.take(i as int).last() == dest@[i - 1]@);
        if dest[i - 1].rel_path == *p {
            return Some((dest[i - 1].size, dest[i - 1].modified));
        }
        i -= 1;
    }
    assert(dv.take(0) =~= Seq::<FileView>::empty());
    None
}

/// Whether a planned file has this path.
fn contains_path(files: &Vec<PlannedFile>, p: &String) -> (r: bool)
    ensures
        r == path_planned(files@, p@),
{
    let n = files.len();
    for i in 0..n
        invariant
            n == files.len(),
            forall|q: int| 0 <= q < i ==> (#[trigger] files@[q])@.path != p@,
    {
        if files[i].rel_path == *p {
            return true;
        }
    }
    false
}

/// Compares the source trees of a job, each listed in `sources` in the
/// job's order, with the listing of its destination.
///
/// Each relative path of the sources is planned once, from the last source
/// that holds it, and classified against the destination file at that path.
pub fn plan_job(sources: &Vec<Vec<FileEntry>>, dest: &Vec<FileEntry>) -> (r: Plan)
    ensures
        plan_matches(
            planned_view(r.files@),
            paths_view(r.orphans@),
            sources_view(sources@),
            listing_view(dest@),
        ),
{
    let ghost sv = sources_view(sources@);
    let ghost dv = listing_view(dest@);
    let mut files: Vec<PlannedFile> = Vec::new();
    let mut j = sources.len();
    while j > 0
        invariant
            j <= sources.len(),
            sv == sources_view(sources@),
            dv == listing_view(dest@),
            forall|q: int| 0 <= q < files@.len() ==> is_planned(sv, dv, #[trigger] files@[q]@),
            forall|j2: int, e2: int|
                j <= j2 < sv.len() && 0 <= e2 < sv[j2].len() ==> path_planned(
                    files@,
                    (#[trigger] sv[j2][e2]).path,
                ),
            forall|q1: int, q2: int|
                0 <= q1 < files@.len() && 0 <= q2 < files@.len() && q1 != q2
                    ==> (#[trigger] files@[q1])@.path != (#[trigger] files@[q2])@.path,
        decreases j,
    {
        j -= 1;
        let src = &sources[j];
        assert(sv[j as int] == listing_view(src@));
        let mut e = src.len();
        while e > 0
            invariant
                j < sources.len(),
                e <= src@.len(),
                *src == sources@[j as int],
                sv == sources_view(sources@),
                dv == listing_view(dest@),
                sv[j as int] == listing_view(src@),
                forall|q: int| 0 <= q < files@.len() ==> is_planned(sv, dv, #[trigger] files@[q]@),
                forall|j2: int, e2: int|
                    0 <= j2 < sv.len() && 0 <= e2 < sv[j2].len() && (j < j2 || (j == j2 && e <= e2))
                        ==> path_planned(files@, (#[trigger] sv[j2][e2]).path),
                forall|q1: int, q2: int|
                    0 <= q1 < files@.len() && 0 <= q2 < files@.len() && q1 != q2
                        ==> (#[trigger] files@[q1])@.path != (#[trigger] files@[q2])@.path,
            decreases e,
        {
            e -= 1;
            let f = &src[e];
            assert(sv[j as int][e as int] == f@);
            if !contains_path(&files, &f.rel_path) {
                assert(is_winner(sv, j as int, e as int)) by {
                    assert forall|j2: int, e2: int|
                        0 <= j2 < sv.len() && 0 <= e2 < sv[j2].len() && (j < j2 || (j == j2 && e
                            < e2)) implies (#[trigger] sv[j2][e2]).path != sv[j as int][e as int].path by {
                        assert(path_planned(files@, sv[j2][e2].path));
                    }
                }
                let class = match lookup_dest(dest, &f.rel_path) {
                    None => Classification::New,
                    Some((size, modified)) => if size == f.size && modified == f.modified {
                        Classification::Unchanged
                    } else {
                        Classification::Changed
                    },
                };
                let pf = PlannedFile {
                    rel_path: f.rel_path.clone(),
                    source: j,
                    size: f.size,
                    modified: f.modified,
                    class,
                };
                assert(pf@ == planned_for(sv, dv, j as int, e as int));
                let ghost before = files@;
                files.push(pf);
                assert forall|q: int| 0 <= q < files@.len() implies is_planned(
                    sv,
                    dv,
                    #[trigger] files@[q]@,
                ) by {
                    if q < before.len() {
                        assert(files@[q] == before[q]);
                    }
                }
                assert forall|j2: int, e2: int|
                    0 <= j2 < sv.len() && 0 <= e2 < sv[j2].len() && (j < j2 || (j == j2 && e
                        <= e2)) implies path_planned(files@, (#[trigger] sv[j2][e2]).path) by {
                    if j == j2 && e == e2 {
                        assert(files@[before.len() as int]@.path == sv[j2][e2].path);
                    } else {
                        assert(path_planned(before, sv[j2][e2].path));
                        let q = choose|q: int|
                            0 <= q < before.len() && (#[trigger] before[q])@.path == sv[j2][e2].path;
                        assert(files@[q] == before[q]);
                    }
                }
            }
        }
    }
    let ghost fv = planned_view(files@);
    assert forall|q: int| 0 <= q < fv.len() implies is_planned(sv, dv, #[trigger] fv[q]) by {
        assert(fv[q] == files@[q]@);
    }
    assert forall|j2: int, e2: int| 0 <= j2 < sv.len() && 0 <= e2 < sv[j2].len() implies has_path(
        fv,
        (#[trigger] sv[j2][e2]).path,
    ) by {
        assert(path_planned(files@, sv[j2][e2].path));
        let q = choose|q: int| 0 <= q < files@.len() && (#[trigger] files@[q])@.path == sv[j2][e2].path;
        assert(fv[q] == files@[q]@);
    }
    assert forall|p: Seq<char>| in_sources(sv, p) <==> path_planned(files@, p) by {
        if in_sources(sv, p) {
            let (j2, e2) = choose|j2: int, e2: int|
                0 <= j2 < sv.len() && 0 <= e2 < sv[j2].len() && (#[trigger] sv[j2][e2]).path == p;
            assert(path_planned(files@, sv[j2][e2].path));
        }
        if path_planned(files@, p) {
            let q = choose|q: int| 0 <= q < files@.len() && (#[trigger] files@[q])@.path == p;
            assert(is_planned(sv, dv, files@[q]@));
            let (j2, e2) = choose|j2: int, e2: int|
                is_winner(sv, j2, e2) && files@[q]@ == #[trigger] planned_for(sv, dv, j2, e2);
            assert(sv[j2][e2].path == p);
        }
    }
    assert forall|q1: int, q2: int|
        0 <= q1 < fv.len() && 0 <= q2 < fv.len() && q1 != q2 implies (#[trigger] fv[q1]).path
        != (#[trigger] fv[q2]).path by {
        assert(fv[q1] == files@[q1]@);
        assert(fv[q2] == files@[q2]@);
    }
    let orphans = find_orphans(&files, dest, Ghost(sv));
    Plan { files, orphans }
}

/// The destination paths that no planned file has, in destination order.
fn find_orphans(files: &Vec<PlannedFile>, dest: &Vec<FileEntry>, sv: Ghost<Seq<Seq<FileView>>>) -> (r:
    Vec<String>)
    requires
        forall|p: Seq<char>| in_sources(sv@, p) <==> path_planned(files@, p),
    ensures
        paths_view(r@) == orphan_paths(sv@, listing_view(dest@)),
{
    let ghost dv = listing_view(dest@);
    let mut r: Vec<String> = Vec::new();
    let n = dest.len();
    assert(paths_view(r@) =~= orphan_paths(sv@, dv.take(0)));
    for i in 0..n
        invariant
            n == dest.len(),
            dv == listing_view(dest@),
            forall|p: Seq<char>| in_sources(sv@, p) <==> path_planned(files@, p),
            paths_view(r@) == orphan_paths(sv@, dv.take(i as int)),
    {
        let d = &dest[i];
        assert(dv.take(i + 1).drop_last() =~= dv.take(i as int));
        assert(dv.take(i + 1).last() == d@);
        let known = contains_path(files, &d.rel_path);
        if !known {
            r.push(d.rel_path.clone());
        }
        assert(paths_view(r@) =~= orphan_paths(sv@, dv.take(i + 1)));
    }
    assert(dv.take(n as int) =~= dv);
    r
}

/// The positions of the new and changed files, in plan order.
pub open spec fn copy_positions(files: Seq<PlannedView>) -> Seq<int>
    decreases files.len(),
{
    if files.len() == 0 {
        Seq::empty()
    } else {
        let rest = copy_positions(files.drop_last());
        if files.last().class != Classification::Unchanged {
            rest.push(files.len() - 1)
        } else {
            rest
        }
    }
}

/// The positions in the plan of the files that the run copies: the new and
/// changed ones, in plan order. A dry run copies nothing.
pub fn files_to_copy(plan: &Plan, dry_run: bool) -> (r: Vec<usize>)
    ensures
        dry_run ==> r@.len() == 0,
        !dry_run ==> r@.map_values(|q: usize| q as int) == copy_positions(planned_view(plan.files@)),
{
    let mut r: Vec<usize> = Vec::new();
    if dry_run {
        return r;
    }
    let ghost fv = planned_view(plan.files@);
    let n = plan.files.len();
    assert(fv.take(0) =~= Seq::<PlannedView>::empty());
    assert(r@.map_values(|q: usize| q as int) =~= copy_positions(fv.take(0)));
    for i in 0..n
        invariant
            n == plan.files.len(),
            fv == planned_view(plan.files@),
            r@.map_values(|q: usize| q as int) == copy_positions(fv.take(i as int)),
    {
        assert(fv.take(i + 1).drop_last() =~= fv.take(i as int));
        assert(fv.take(i + 1).last() == plan.files@[i as int]@);
        if plan.files[i].class != Classification::Unchanged {
            r.push(i);
        }
        assert(r@.map_values(|q: usize| q as int) =~= copy_positions(fv.take(i + 1)));
    }
    assert(fv.take(n as int) =~= fv);
    r
}

/// The first source of the job that is not there, if any.
pub open spec fn first_missing(present: Seq<bool>, i: int) -> bool {
    0 <= i < present.len() && !present[i] && forall|k: int| 0 <= k < i ==> #[trigger] present[k]
}

/// Checks, before a run of `job` on `device`, that its sources exist;
/// `present[i]` tells whether source `i` does.
///
/// Fails with `SourceMissing`, naming the device, the job and the first
/// source that is not there.
pub fn check_sources(device: &String, job: &SyncJob, present: &Vec<bool>) -> (r: Result<
    (),
    BackupError,
>)
    requires
        present@.len() == job.sources@.len(),
    ensures
        r is Ok <==> forall|i: int| 0 <= i < present@.len() ==> #[trigger] present@[i],
        r is Err ==> exists|i: int|
            first_missing(present@, i) && outcome_view(r) == Err::<(), BackupErrorView>(
                BackupErrorView::SourceMissing {
                    device: device@,
                    job: job.name@,
                    path: job.sources@[i]@,
                },
            ),
{
    let n = present.len();
    for i in 0..n
        invariant
            n == present@.len(),
            present@.len() == job.sources@.len(),
            forall|k: int| 0 <= k < i ==> #[trigger] present@[k],
    {
        if !present[i] {
            let r = Err(
                BackupError::SourceMissing {
                    device: device.clone(),
                    job: job.name.clone(),
                    path: job.sources[i].clone(),
                },
            );
            assert(first_missing(present@, i as int));
            return r;
        }
    }
    Ok(())
}

/// What happened to one planned file.
#[derive(PartialEq, Eq, Structural, Clone, Copy, Debug)]
pub enum FileOutcome {
    /// Unchanged: nothing to do.
    Skipped,
    /// A dry run: it would have been copied.
    Planned,
    Copied,
    Failed,
}

/// One line of a run report.
#[derive(Clone, Debug)]
pub struct ReportLine {
    pub rel_path: String,
    pub class: Classification,
    pub outcome: FileOutcome,
}

/// What a run of one job did, file by file.
#[derive(Clone, Debug)]
pub struct RunReport {
    pub device: String,
    pub job: String,
    pub dry_run: bool,
    pub lines: Vec<ReportLine>,
    pub orphans: Vec<String>,
    /// Whether at least one file failed to copy.
    pub failed: bool,
}

/// The outcome of a file of this class, given whether its copy succeeded.
pub open spec fn outcome_for(class: Classification, dry_run: bool, copied: bool) -> FileOutcome {
    if class == Classification::Unchanged {
        FileOutcome::Skipped
    } else if dry_run {
        FileOutcome::Planned
    } else if copied {
        FileOutcome::Copied
    } else {
        FileOutcome::Failed
    }
}

/// Reports a run of `job` on `device` along its plan; `copied[q]` tells
/// whether the copy of the plan's file `q` succeeded, and is read only for
/// the files that the run copied.
pub fn build_report(
    device: &String,
    job: &SyncJob,
    plan: &Plan,
    dry_run: bool,
    copied: &Vec<bool>,
) -> (r: RunReport)
    requires
        copied@.len() == plan.files@.len(),
    ensures
        r.device@ == device@,
        r.job@ == job.name@,
        r.dry_run == dry_run,
        r.lines@.len() == plan.files@.len(),
        forall|q: int|
            0 <= q < r.lines@.len() ==> {
                &&& (#[trigger] r.lines@[q]).rel_path@ == plan.files@[q].rel_path@
                &&& r.lines@[q].class == plan.files@[q].class
                &&& r.lines@[q].outcome == outcome_for(plan.files@[q].class, dry_run, copied@[q])
            },
        paths_view(r.orphans@) == paths_view(plan.orphans@),
        r.failed == exists|q: int|
            0 <= q < r.lines@.len() && (#[trigger] r.lines@[q]).outcome == FileOutcome::Failed,
{
    let mut lines: Vec<ReportLine> = Vec::new();
    let mut failed = false;
    let n = plan.files.len();
    for i in 0..n
        invariant
            n == plan.files.len(),
            copied@.len() == n,
            lines@.len() == i,
            forall|q: int|
                0 <= q < i ==> {
                    &&& (#[trigger] lines@[q]).rel_path@ == plan.files@[q].rel_path@
                    &&& lines@[q].class == plan.files@[q].class
                    &&& lines@[q].outcome == outcome_for(plan.files@[q].class, dry_run, copied@[q])
                },
            failed == exists|q: int|
                0 <= q < i && (#[trigger] lines@[q]).outcome == FileOutcome::Failed,
    {
        let f = &plan.files[i];
        let outcome = if f.class == Classification::Unchanged {
            FileOutcome::Skipped
        } else if dry_run {
            FileOutcome::Planned
        } else if copied[i] {
            FileOutcome::Copied
        } else {
            FileOutcome::Failed
        };
        if outcome == FileOutcome::Failed {
            failed = true;
        }
        let ghost before = lines@;
        lines.push(ReportLine { rel_path: f.rel_path.clone(), class: f.class, outcome });
        assert(lines@[i as int].outcome == outcome);
        assert(forall|q: int| 0 <= q < i ==> lines@[q] == before[q]);
    }
    let mut orphans: Vec<String> = Vec::new();
    let m = plan.orphans.len();
    for i in 0..m
        invariant
            m == plan.orphans.len(),
            orphans@.len() == i,
            forall|q: int| 0 <= q < i ==> (#[trigger] orphans@[q])@ == plan.orphans@[q]@,
    {
        orphans.push(plan.orphans[i].clone());
    }
    assert(paths_view(orphans@) =~= paths_view(plan.orphans@));
    RunReport { device: device.clone(), job: job.name.clone(), dry_run, lines, orphans, failed }
}

/// The last run marker after a run that started at `started` completed
/// without failure. It never moves back.
pub open spec fn advanced_last_run(last_run: Option<u64>, started: u64) -> Option<u64> {
    match last_run {
        None => Some(started),
        Some(t) => Some(if t < started { started } else { t }),
    }
}

/// Whether some file of the report was copied.
pub open spec fn any_copied(lines: Seq<ReportLine>) -> bool {
    exists|q: int| 0 <= q < lines.len() && (#[trigger] lines[q]).outcome == FileOutcome::Copied
}

/// Records the end of a run of `job` started at `started`.
///
/// A run with a failed file fails with `RunFailed` and leaves `last_run` as
/// it was, so that the next run looks at every file again. A dry run
/// changes nothing. A run that copied nothing keeps a `last_run` that is
/// already set: it backed up nothing new. Otherwise `last_run` moves to the
/// start time.
pub fn finish_job(job: &mut SyncJob, report: &RunReport, started: u64) -> (r: Result<(), BackupError>)
    ensures
        outcome_view(r) == (if report.failed {
            Err(BackupErrorView::RunFailed { device: report.device@, job: old(job).name@ })
        } else {
            Ok(())
        }),
        final(job)@ == (if report.failed || report.dry_run || (old(job).last_run is Some
            && !any_copied(report.lines@)) {
            old(job)@
        } else {
            SyncJobView { last_run: advanced_last_run(old(job).last_run, started), ..old(job)@ }
        }),
{
    if report.failed {
        return Err(BackupError::RunFailed { device: report.device.clone(), job: job.name.clone() });
    }
    if report.dry_run {
        return Ok(());
    }
    let mut copied = false;
    let n = report.lines.len();
    for i in 0..n
        invariant
            n == report.lines@.len(),
            copied == exists|q: int|
                0 <= q < i && (#[trigger] report.lines@[q]).outcome == FileOutcome::Copied,
    {
        if report.lines[i].outcome == FileOutcome::Copied {
            copied = true;
        }
    }
    if job.last_run.is_some() && !copied {
        return Ok(());
    }
    job.last_run = match job.last_run {
        None => Some(started),
        Some(t) => Some(if t < started { started } else { t }),
    };
    Ok(())
}

/// The destination entry that copying a planned file leaves: its content,
/// size and modification time come along.
pub open spec fn landed(f: PlannedView) -> FileView {
    FileView { path: f.path, size: f.size, modified: f.modified }
}

/// The entries that a run writes: one for each new or changed file, in
/// plan order.
pub open spec fn copied_entries(files: Seq<PlannedView>) -> Seq<FileView>
    decreases files.len(),
{
    if files.len() == 0 {
        Seq::empty()
    } else {
        let rest = copied_entries(files.drop_last());
        if files.last().class != Classification::Unchanged {
            rest.push(landed(files.last()))
        } else {
            rest
        }
    }
}

/// The destination listing after a run in which every copy succeeded.
pub open spec fn after_run(files: Seq<PlannedView>, dest: Seq<FileView>) -> Seq<FileView> {
    dest + copied_entries(files)
}

proof fn lemma_lookup_append(a: Seq<FileView>, b: Seq<FileView>, p: Seq<char>)
    ensures
        dest_lookup(a + b, p) == (if dest_lookup(b, p) is Some {
            dest_lookup(b, p)
        } else {
            dest_lookup(a, p)
        }),
    decreases b.len(),
{
    if b.len() == 0 {
        assert(a + b =~= a);
    } else {
        assert((a + b).drop_last() =~= a + b.drop_last());
        lemma_lookup_append(a, b.drop_last(), p);
    }
}

/// Among planned files with distinct paths, the entries a run writes show
/// each new or changed file, and nothing at the path of an unchanged one.
proof fn lemma_copied_lookup(files: Seq<PlannedView>, k: int)
    requires
        0 <= k < files.len(),
        forall|q1: int, q2: int|
            0 <= q1 < files.len() && 0 <= q2 < files.len() && q1 != q2 ==> (#[trigger] files[q1]).path
                != (#[trigger] files[q2]).path,
    ensures
        dest_lookup(copied_entries(files), files[k].path) == (if files[k].class
            != Classification::Unchanged {
            Some(landed(files[k]))
        } else {
            None::<FileView>
        }),
    decreases files.len(),
{
    let front = files.drop_last();
    let p = files[k].path;
    let rest = copied_entries(front);
    assert(rest.push(landed(files.last())).drop_last() =~= rest);
    if k == files.len() - 1 {
        assert forall|q: int| 0 <= q < front.len() implies (#[trigger] front[q]).path != p by {
            assert(front[q] == files[q]);
        }
        lemma_copied_absent(front, p);
    } else {
        assert(front[k] == files[k]);
        assert forall|q1: int, q2: int|
            0 <= q1 < front.len() && 0 <= q2 < front.len() && q1 != q2 implies (
            #[trigger] front[q1]).path != (#[trigger] front[q2]).path by {
            assert(front[q1] == files[q1]);
            assert(front[q2] == files[q2]);
        }
        lemma_copied_lookup(front, k);
        assert(files.last().path != p);
    }
}

/// A path that no planned file has is not among the entries a run writes.
proof fn lemma_copied_absent(files: Seq<PlannedView>, p: Seq<char>)
    requires
        forall|q: int| 0 <= q < files.len() ==> (#[trigger] files[q]).path != p,
    ensures
        dest_lookup(copied_entries(files), p) is None,
    decreases files.len(),
{
    if files.len() > 0 {
        let front = files.drop_last();
        assert forall|q: int| 0 <= q < front.len() implies (#[trigger] front[q]).path != p by {
            assert(front[q] == files[q]);
        }
        lemma_copied_absent(front, p);
        assert(files[files.len() - 1].path != p);
        let rest = copied_entries(front);
        assert(rest.push(landed(files.last())).drop_last() =~= rest);
    }
}

proof fn lemma_winner_unique(src: Seq<Seq<FileView>>, j1: int, e1: int, j2: int, e2: int)
    requires
        is_winner(src, j1, e1),
        is_winner(src, j2, e2),
        src[j1][e1].path == src[j2][e2].path,
    ensures
        j1 == j2 && e1 == e2,
{
}

proof fn lemma_no_copies(files: Seq<PlannedView>)
    requires
        forall|q: int| 0 <= q < files.len() ==> (#[trigger] files[q]).class == Classification::Unchanged,
    ensures
        copy_positions(files).len() == 0,
    decreases files.len(),
{
    if files.len() > 0 {
        lemma_no_copies(files.drop_last());
    }
}

/// A second run over unchanged sources, after a run in which every copy
/// succeeded, finds every file unchanged and copies nothing: every line of
/// its report is skipped, so `finish_job` leaves the `last_run` that the
/// first run set.
pub proof fn lemma_second_run_copies_nothing(
    src: Seq<Seq<FileView>>,
    dest: Seq<FileView>,
    files: Seq<PlannedView>,
    orphans: Seq<Seq<char>>,
    files2: Seq<PlannedView>,
    orphans2: Seq<Seq<char>>,
)
    requires
        plan_matches(files, orphans, src, dest),
        plan_matches(files2, orphans2, src, after_run(files, dest)),
    ensures
        forall|q: int| 0 <= q < files2.len() ==> (#[trigger] files2[q]).class
            == Classification::Unchanged,
        copy_positions(files2).len() == 0,
        forall|q: int, dry_run: bool, copied: bool|
            0 <= q < files2.len() ==> #[trigger] outcome_for(files2[q].class, dry_run, copied)
                == FileOutcome::Skipped,
{
    let dest2 = after_run(files, dest);
    assert forall|q: int| 0 <= q < files2.len() implies (#[trigger] files2[q]).class
        == Classification::Unchanged by {
        let (j, e) = choose|j: int, e: int|
            is_winner(src, j, e) && files2[q] == #[trigger] planned_for(src, dest2, j, e);
        let p = src[j][e].path;
        assert(has_path(files, src[j][e].path));
        let k = choose|k: int| 0 <= k < files.len() && (#[trigger] files[k]).path == p;
        let (j1, e1) = choose|j1: int, e1: int|
            is_winner(src, j1, e1) && files[k] == #[trigger] planned_for(src, dest, j1, e1);
        lemma_winner_unique(src, j, e, j1, e1);
        lemma_copied_lookup(files, k);
        lemma_lookup_append(dest, copied_entries(files), p);
    }
    lemma_no_copies(files2);
}

/// Of two sources that hold the same relative path, the earlier one never
/// supplies it: the plan takes it from the later source or one after it.
pub proof fn lemma_later_source_wins(
    src: Seq<Seq<FileView>>,
    dest: Seq<FileView>,
    files: Seq<PlannedView>,
    orphans: Seq<Seq<char>>,
    j: int,
    e: int,
    k: int,
    e2: int,
)
    requires
        plan_matches(files, orphans, src, dest),
        0 <= j < k < src.len(),
        0 <= e < src[j].len(),
        0 <= e2 < src[k].len(),
        src[j][e].path == src[k][e2].path,
    ensures
        !is_winner(src, j, e),
        forall|q: int|
            0 <= q < files.len() && (#[trigger] files[q]).path == src[j][e].path ==> files[q].source
                >= k,
{
    assert(src[k][e2].path == src[j][e].path);
    assert forall|q: int|
        0 <= q < files.len() && (#[trigger] files[q]).path == src[j][e].path implies files[q].source
            >= k by {
        let (j1, e1) = choose|j1: int, e1: int|
            is_winner(src, j1, e1) && files[q] == #[trigger] planned_for(src, dest, j1, e1);
        if j1 < k {
            assert(src[k][e2].path == src[j1][e1].path);
        }
    }
}

} // verus!
