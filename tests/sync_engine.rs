use smartsync::{
    add_device, add_sync_job, build_report, check_sources, files_to_copy, finish_job, plan_job, BackupError,
    Classification, Configuration, FileEntry, FileOutcome, Plan, SyncJob,
};

fn dev() -> String {
    "laptop".to_string()
}

fn f(path: &str, size: u64, modified: u64) -> FileEntry {
    FileEntry { rel_path: path.to_string(), size, modified }
}

fn entry<'a>(plan: &'a Plan, path: &str) -> &'a smartsync::PlannedFile {
    plan.files.iter().find(|p| p.rel_path == path).unwrap()
}

/// Applies the copies of a plan to a destination listing, as a run does
/// when each copy in `ok` succeeds.
fn apply(plan: &Plan, dest: &mut Vec<FileEntry>, copies: &[usize], ok: &[bool]) -> Vec<bool> {
    let mut copied = vec![true; plan.files.len()];
    for (k, &q) in copies.iter().enumerate() {
        let p = &plan.files[q];
        if ok[k] {
            dest.retain(|d| d.rel_path != p.rel_path);
            dest.push(f(&p.rel_path, p.size, p.modified));
        } else {
            copied[q] = false;
        }
    }
    copied
}

#[test]
fn classifies_new_changed_unchanged() {
    let sources = vec![vec![f("a", 1, 10), f("b", 2, 20), f("c", 3, 30)]];
    let dest = vec![f("b", 2, 21), f("c", 3, 30)];
    let plan = plan_job(&sources, &dest);
    assert_eq!(plan.files.len(), 3);
    assert_eq!(entry(&plan, "a").class, Classification::New);
    assert_eq!(entry(&plan, "b").class, Classification::Changed);
    assert_eq!(entry(&plan, "c").class, Classification::Unchanged);
}

#[test]
fn size_difference_is_a_change() {
    let plan = plan_job(&vec![vec![f("a", 5, 10)]], &vec![f("a", 4, 10)]);
    assert_eq!(plan.files[0].class, Classification::Changed);
}

#[test]
fn empty_sources_plan_nothing() {
    let plan = plan_job(&vec![vec![], vec![]], &vec![]);
    assert!(plan.files.is_empty());
    assert!(plan.orphans.is_empty());
    assert!(files_to_copy(&plan, false).is_empty());
}

#[test]
fn later_source_wins_on_collision() {
    let sources = vec![vec![f("x", 1, 100), f("only_a", 1, 1)], vec![f("x", 2, 200)]];
    let plan = plan_job(&sources, &vec![]);
    assert_eq!(plan.files.len(), 2);
    let x = entry(&plan, "x");
    assert_eq!(x.source, 1);
    assert_eq!((x.size, x.modified), (2, 200));
    assert_eq!(entry(&plan, "only_a").source, 0);
    let mut dest = vec![];
    let copies = files_to_copy(&plan, false);
    apply(&plan, &mut dest, &copies, &vec![true; copies.len()]);
    let landed = dest.iter().find(|d| d.rel_path == "x").unwrap();
    assert_eq!((landed.size, landed.modified), (2, 200));
}

#[test]
fn orphans_are_listed_not_deleted() {
    let plan = plan_job(&vec![vec![f("a", 1, 1)]], &vec![f("old", 1, 1), f("a", 1, 1), f("gone", 2, 2)]);
    assert_eq!(plan.orphans, vec!["old".to_string(), "gone".to_string()]);
    assert!(files_to_copy(&plan, false).is_empty());
}

#[test]
fn copies_new_and_changed_in_plan_order() {
    let sources = vec![vec![f("a", 1, 10), f("b", 2, 20), f("c", 3, 30)]];
    let plan = plan_job(&sources, &vec![f("b", 2, 20)]);
    let copies = files_to_copy(&plan, false);
    assert_eq!(copies.len(), 2);
    assert!(copies[0] < copies[1]);
    for &q in &copies {
        assert_ne!(plan.files[q].class, Classification::Unchanged);
    }
}

#[test]
fn dry_run_copies_nothing_and_keeps_last_run() {
    let sources = vec![vec![f("a", 1, 10), f("b", 2, 20)]];
    let plan = plan_job(&sources, &vec![]);
    assert!(files_to_copy(&plan, true).is_empty());
    let mut job = SyncJob::new("docs".to_string(), "/b".to_string(), vec!["/s".to_string()]);
    job.last_run = Some(5);
    let report = build_report(&dev(), &job, &plan, true, &vec![false; plan.files.len()]);
    assert!(!report.failed);
    assert!(report.lines.iter().all(|l| l.outcome == FileOutcome::Planned));
    assert!(finish_job(&mut job, &report, 99).is_ok());
    assert_eq!(job.last_run, Some(5));
}

#[test]
fn partial_failure_reports_run_failed() {
    let sources = vec![vec![f("one", 1, 1), f("two", 2, 2), f("three", 3, 3)]];
    let plan = plan_job(&sources, &vec![]);
    let copies = files_to_copy(&plan, false);
    assert_eq!(copies.len(), 3);
    let mut dest = vec![];
    let failing = copies.iter().position(|&q| plan.files[q].rel_path == "two").unwrap();
    let mut ok = vec![true; 3];
    ok[failing] = false;
    let copied = apply(&plan, &mut dest, &copies, &ok);
    let mut job = SyncJob::new("docs".to_string(), "/b".to_string(), vec!["/s".to_string()]);
    job.last_run = Some(7);
    let report = build_report(&dev(), &job, &plan, false, &copied);
    assert!(report.failed);
    let failed: Vec<&str> = report
        .lines
        .iter()
        .filter(|l| l.outcome == FileOutcome::Failed)
        .map(|l| l.rel_path.as_str())
        .collect();
    assert_eq!(failed, vec!["two"]);
    let mut names: Vec<&str> = dest.iter().map(|d| d.rel_path.as_str()).collect();
    names.sort();
    assert_eq!(names, vec!["one", "three"]);
    let r = finish_job(&mut job, &report, 100);
    assert!(
        matches!(r, Err(BackupError::RunFailed { ref device, ref job }) if device == "laptop" && job == "docs")
    );
    assert_eq!(job.last_run, Some(7));
}

#[test]
fn successful_run_sets_last_run() {
    let mut job = SyncJob::new("docs".to_string(), "/b".to_string(), vec!["/s".to_string()]);
    let plan = plan_job(&vec![vec![f("a", 1, 1)]], &vec![]);
    let report = build_report(&dev(), &job, &plan, false, &vec![true]);
    assert_eq!(report.lines[0].outcome, FileOutcome::Copied);
    assert_eq!(report.job, "docs");
    finish_job(&mut job, &report, 1000).unwrap();
    assert_eq!(job.last_run, Some(1000));
}

#[test]
fn last_run_never_moves_back() {
    let mut job = SyncJob::new("docs".to_string(), "/b".to_string(), vec!["/s".to_string()]);
    job.last_run = Some(2000);
    let plan = plan_job(&vec![vec![f("a", 1, 1)]], &vec![]);
    let report = build_report(&dev(), &job, &plan, false, &vec![true]);
    finish_job(&mut job, &report, 1500).unwrap();
    assert_eq!(job.last_run, Some(2000));
}

#[test]
fn run_that_copies_nothing_keeps_last_run() {
    let mut job = SyncJob::new("docs".to_string(), "/b".to_string(), vec!["/s".to_string()]);
    job.last_run = Some(1000);
    let plan = plan_job(&vec![vec![f("a", 1, 1)]], &vec![f("a", 1, 1)]);
    let report = build_report(&dev(), &job, &plan, false, &vec![true]);
    finish_job(&mut job, &report, 3000).unwrap();
    assert_eq!(job.last_run, Some(1000));
}

#[test]
fn first_run_sets_last_run_even_with_nothing_to_copy() {
    let mut job = SyncJob::new("docs".to_string(), "/b".to_string(), vec!["/s".to_string()]);
    let plan = plan_job(&vec![vec![]], &vec![]);
    let report = build_report(&dev(), &job, &plan, false, &vec![]);
    finish_job(&mut job, &report, 1500).unwrap();
    assert_eq!(job.last_run, Some(1500));
}

#[test]
fn missing_source_names_device_job_and_path() {
    let job = SyncJob::new("docs".to_string(), "/b".to_string(), vec!["/s".to_string(), "/t".to_string(), "/u".to_string()]);
    assert!(check_sources(&dev(), &job, &vec![true, true, true]).is_ok());
    let r = check_sources(&dev(), &job, &vec![true, false, false]);
    assert!(matches!(
        r,
        Err(BackupError::SourceMissing { ref device, ref job, ref path })
            if device == "laptop" && job == "docs" && path == "/t"
    ));
}

#[test]
fn second_run_finds_nothing_to_do() {
    let sources = vec![vec![f("a", 1, 10)], vec![f("a", 9, 90), f("b", 2, 20)]];
    let mut dest = vec![f("stale", 1, 1), f("b", 1, 1)];
    let plan = plan_job(&sources, &dest);
    let copies = files_to_copy(&plan, false);
    assert_eq!(copies.len(), 2);
    apply(&plan, &mut dest, &copies, &vec![true; copies.len()]);
    let again = plan_job(&sources, &dest);
    assert!(again.files.iter().all(|p| p.class == Classification::Unchanged));
    assert!(files_to_copy(&again, false).is_empty());
}

#[test]
fn laptop_docs_scenario() {
    let mut cfg = Configuration::new();
    add_device(&mut cfg, "laptop".to_string()).unwrap();
    add_sync_job(
        &mut cfg,
        &"laptop".to_string(),
        "docs".to_string(),
        vec!["/home/u/docs".to_string()],
        "/backup/docs".to_string(),
    )
    .unwrap();
    let sources = vec![vec![f("a.txt", 12, 1_000)]];
    let mut dest: Vec<FileEntry> = vec![];

    let plan = plan_job(&sources, &dest);
    let copies = files_to_copy(&plan, false);
    assert_eq!(copies, vec![0]);
    assert_eq!(plan.files[0].rel_path, "a.txt");
    assert_eq!(plan.files[0].class, Classification::New);
    let copied = apply(&plan, &mut dest, &copies, &[true]);
    let job = &mut cfg.devices[0].sync_jobs[0];
    let report = build_report(&dev(), job, &plan, false, &copied);
    finish_job(job, &report, 5_000).unwrap();
    assert_eq!(job.last_run, Some(5_000));
    assert_eq!(dest.len(), 1);
    assert_eq!((dest[0].rel_path.as_str(), dest[0].size, dest[0].modified), ("a.txt", 12, 1_000));

    let again = plan_job(&sources, &dest);
    assert!(files_to_copy(&again, false).is_empty());
    let report = build_report(&dev(), job, &again, false, &vec![true]);
    assert!(report.lines.iter().all(|l| l.outcome == FileOutcome::Skipped));
    finish_job(job, &report, 9_000).unwrap();
    assert_eq!(job.last_run, Some(5_000));
}
