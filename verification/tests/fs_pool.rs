//! Plans run against files that are held in memory.

use std::collections::BTreeMap;

use bytes::Bytes;
use normfs::fault::Faults;
use normfs::fs::plan::{Plan, TmpMode};
use normfs::fs::pool::{
    tail_iovs, DriveError, Outcome, PlanDriver, PublishReport, Report, RunPart, Step, IOV_MAX,
};

fn runs(parts: &[&[u8]]) -> Vec<Bytes> {
    parts.iter().map(|p| Bytes::copy_from_slice(p)).collect()
}

/// Files by name, and the directories that they may be in.
#[derive(Default)]
struct Disk {
    files: BTreeMap<Vec<u8>, Vec<u8>>,
    dirs: Vec<Vec<u8>>,
    flushes: Option<Faults>,
    cuts: Option<Faults>,
    /// What was done, in order.
    log: Vec<String>,
}

impl Disk {
    fn new() -> Disk {
        Disk {
            dirs: vec![b"d".to_vec()],
            flushes: Some(Faults::new()),
            cuts: Some(Faults::new()),
            ..Disk::default()
        }
    }

    fn has_dir_of(&self, path: &[u8]) -> bool {
        let at = path.iter().rposition(|&b| b == b'/').expect("a path with a directory");
        self.dirs.iter().any(|d| d[..] == path[..at])
    }

    /// Runs a plan to its end. `open` is the file that an append or a restore works on.
    fn run(&mut self, plan: Plan, runs: Vec<Bytes>, sync: bool, open: &[u8]) -> (PlanDriver, Outcome) {
        let mut flushes = self.flushes.take().unwrap();
        let mut cuts = self.cuts.take().unwrap();
        let mut driver = PlanDriver::new(plan, runs, sync).unwrap();
        let mut target: Vec<u8> = open.to_vec();
        let outcome = loop {
            let step = driver.step(&mut flushes, &mut cuts);
            let dst = driver.plan().dst().to_vec();
            let mut written = 0;
            let report = match &step {
                Step::Again => continue,
                Step::Open { tmp, mode } => {
                    target = if *tmp { driver.plan().tmp().to_vec() } else { dst };
                    if !self.has_dir_of(&target) {
                        Report::Failed(libc::ENOENT)
                    } else if *mode == TmpMode::Excl && self.files.contains_key(&target) {
                        Report::Failed(libc::EEXIST)
                    } else {
                        self.files.insert(target.clone(), Vec::new());
                        Report::Opened(77)
                    }
                }
                Step::Write { parts, offset, len } => {
                    let file = self.files.get_mut(&target).unwrap();
                    file.resize(*offset as usize, 0);
                    for part in parts {
                        file.extend_from_slice(&driver.runs()[part.run][part.from..]);
                    }
                    assert_eq!(file.len() as u64, offset + len);
                    written = *len;
                    Report::Completed
                }
                Step::FsyncFile => {
                    self.log.push("fsync file".to_string());
                    Report::Completed
                }
                Step::CloseFile => Report::Completed,
                Step::StatDst => match self.files.get(&dst) {
                    Some(file) => Report::Length(file.len() as u64),
                    None if self.has_dir_of(&dst) => Report::Absent,
                    None => Report::Failed(libc::ENOENT),
                },
                Step::Rename => {
                    self.log.push("rename".to_string());
                    let file = self.files.remove(driver.plan().tmp()).unwrap();
                    self.files.insert(dst, file);
                    Report::Completed
                }
                Step::FsyncDir => {
                    self.log.push("fsync dir".to_string());
                    Report::Completed
                }
                Step::Truncate(len) => {
                    self.files.get_mut(&target).unwrap().truncate(*len as usize);
                    Report::Completed
                }
                Step::Unlink => match self.files.remove(&dst) {
                    Some(_) => Report::Completed,
                    None => Report::Absent,
                },
                Step::Finished(outcome) => break *outcome,
            };
            driver.report(report, written).unwrap();
        };
        if outcome.unlink_tmp {
            self.files.remove(driver.plan().tmp());
        }
        self.flushes = Some(flushes);
        self.cuts = Some(cuts);
        (driver, outcome)
    }
}

#[test]
fn publish_lands_the_bytes_and_leaves_no_temp() {
    let mut disk = Disk::new();
    let plan = Plan::publish(b"d/a.tmp", b"d/a.store", TmpMode::Excl, 9).unwrap();
    let (_, outcome) = disk.run(plan, runs(&[b"head", b"-", b"body"]), true, b"");
    assert!(outcome.done);
    assert_eq!(outcome.report, Some(PublishReport { old_len: None, new_len: 9 }));
    assert_eq!(disk.files[&b"d/a.store"[..]], b"head-body");
    assert!(!disk.files.contains_key(&b"d/a.tmp"[..]));
    // The bytes are on disk before they get their name, and then the name is.
    assert_eq!(disk.log, vec!["fsync file", "rename", "fsync dir"]);

    let plan = Plan::publish(b"d/a.tmp", b"d/a.store", TmpMode::Excl, 2).unwrap();
    let (_, outcome) = disk.run(plan, runs(&[b"v2"]), true, b"");
    assert_eq!(outcome.report, Some(PublishReport { old_len: Some(9), new_len: 2 }));
    assert_eq!(disk.files[&b"d/a.store"[..]], b"v2");
}

#[test]
fn publish_failure_reports_errno_and_cleans_up() {
    let mut disk = Disk::new();
    let plan = Plan::publish(b"d/b.tmp", b"d/missing/b.store", TmpMode::Excl, 1).unwrap();
    let (driver, outcome) = disk.run(plan, runs(&[b"x"]), true, b"");
    assert!(!outcome.done);
    assert_eq!(driver.plan().os_error(), libc::ENOENT);
    assert!(disk.files.is_empty());
}

#[test]
fn a_temporary_file_of_somebody_else_is_left_alone() {
    let mut disk = Disk::new();
    disk.files.insert(b"d/t".to_vec(), b"theirs".to_vec());
    let plan = Plan::publish(b"d/t", b"d/x", TmpMode::Excl, 1).unwrap();
    let (driver, outcome) = disk.run(plan, runs(&[b"x"]), true, b"");
    assert!(!outcome.done);
    assert!(!outcome.unlink_tmp);
    assert_eq!(driver.plan().os_error(), libc::EEXIST);
    assert_eq!(disk.files[&b"d/t"[..]], b"theirs");
}

#[test]
fn append_commits_whole_batches_and_cuts_back_on_failure() {
    let mut disk = Disk::new();
    let path: &[u8] = b"d/q.wal";
    let plan = Plan::create(path, TmpMode::Excl, 3).unwrap();
    let (_, outcome) = disk.run(plan, runs(&[b"HDR"]), true, b"");
    assert!(outcome.done && outcome.keep_file);
    assert_eq!(disk.files[path], b"HDR");

    let plan = Plan::append(path, 5, 3, 6).unwrap();
    let (_, outcome) = disk.run(plan, runs(&[b"one", b"two"]), true, path);
    assert!(outcome.done);
    assert_eq!(disk.files[path], b"HDRonetwo");

    disk.flushes.as_mut().unwrap().fail_flushes(path, 1);
    let plan = Plan::append(path, 5, 9, 5).unwrap();
    let (driver, outcome) = disk.run(plan, runs(&[b"three"]), true, path);
    assert!(!outcome.done, "committed through an injected failure");
    assert!(driver.plan().restored());
    assert_eq!(driver.plan().os_error(), libc::EIO);
    assert_eq!(disk.files[path], b"HDRonetwo");

    let plan = Plan::append(path, 5, 9, 5).unwrap();
    let (_, outcome) = disk.run(plan, runs(&[b"three"]), true, path);
    assert!(outcome.done);
    assert_eq!(disk.files[path], b"HDRonetwothree");

    let plan = Plan::append(path, 5, 14, 0).unwrap();
    let (_, outcome) = disk.run(plan, Vec::new(), true, path);
    assert!(outcome.done);
    assert_eq!(disk.files[path], b"HDRonetwothree");
}

#[test]
fn a_cut_that_fails_leaves_the_file_as_it_is() {
    let mut disk = Disk::new();
    let path: &[u8] = b"d/q.wal";
    disk.files.insert(path.to_vec(), b"HDR".to_vec());
    disk.flushes.as_mut().unwrap().fail_flushes(path, 1);
    disk.cuts.as_mut().unwrap().fail_flushes(path, 1);
    let plan = Plan::append(path, 5, 3, 3).unwrap();
    let (driver, outcome) = disk.run(plan, runs(&[b"one"]), true, path);
    assert!(!outcome.done);
    assert!(!driver.plan().restored());
    assert_eq!(disk.files[path], b"HDRone");
}

#[test]
fn restore_cuts_the_file_back() {
    let mut disk = Disk::new();
    let path: &[u8] = b"d/r.wal";
    disk.files.insert(path.to_vec(), b"0123456789".to_vec());
    let plan = Plan::restore(path, 5, 4).unwrap();
    let (_, outcome) = disk.run(plan, Vec::new(), true, path);
    assert!(outcome.done);
    assert_eq!(disk.files[path], b"0123");
}

#[test]
fn markers_come_and_go_durably() {
    let mut disk = Disk::new();
    let marker: &[u8] = b"d/closed";
    let plan = Plan::create(marker, TmpMode::Trunc, 0).unwrap();
    let (_, outcome) = disk.run(plan, Vec::new(), true, b"");
    assert!(outcome.done && outcome.keep_file);
    assert!(disk.files.contains_key(marker));
    let (_, outcome) = disk.run(Plan::remove(marker).unwrap(), Vec::new(), true, b"");
    assert!(outcome.done && !outcome.absent);
    assert!(!disk.files.contains_key(marker));
    let (_, outcome) = disk.run(Plan::remove(marker).unwrap(), Vec::new(), false, b"");
    assert!(outcome.done && outcome.absent);

    let plan = Plan::create(b"d/no/dir", TmpMode::Excl, 0).unwrap();
    let (driver, outcome) = disk.run(plan, Vec::new(), true, b"");
    assert!(!outcome.done);
    assert_eq!(driver.plan().os_error(), libc::ENOENT);
}

#[test]
fn without_sync_nothing_is_synced() {
    let mut disk = Disk::new();
    let plan = Plan::publish(b"d/t", b"d/x", TmpMode::Trunc, 1).unwrap();
    let (_, outcome) = disk.run(plan, runs(&[b"x"]), false, b"");
    assert!(outcome.done);
    assert_eq!(disk.log, vec!["rename"]);
}

#[test]
fn bytes_that_run_out_fail_the_plan() {
    let mut disk = Disk::new();
    let plan = Plan::publish(b"d/t", b"d/x", TmpMode::Trunc, 5).unwrap();
    let (driver, outcome) = disk.run(plan, runs(&[b"abc"]), true, b"");
    assert!(!outcome.done && outcome.unlink_tmp);
    assert_eq!(driver.plan().os_error(), libc::EIO);
    assert!(disk.files.is_empty());
}

#[test]
fn a_publication_onto_its_own_temporary_file_is_refused() {
    for (tmp, dst) in [(&b"d/x"[..], &b"d/x"[..]), (b"d/./x", b"d//x"), (b"/x/", b"/x")] {
        let plan = Plan::publish(tmp, dst, TmpMode::Trunc, 1).unwrap();
        match PlanDriver::new(plan, runs(&[b"x"]), true) {
            Err(e) => assert_eq!(e, DriveError::Alias),
            Ok(_) => panic!("{tmp:?} and {dst:?} are the same file"),
        }
    }
    let plan = Plan::publish(b"x", b"/x", TmpMode::Trunc, 1).unwrap();
    assert!(PlanDriver::new(plan, runs(&[b"x"]), true).is_ok());
}

#[test]
fn a_report_that_does_not_fit_is_refused() {
    let (mut flushes, mut cuts) = (Faults::new(), Faults::new());
    let plan = Plan::remove(b"d/x").unwrap();
    let mut driver = PlanDriver::new(plan, Vec::new(), true).unwrap();
    assert_eq!(driver.step(&mut flushes, &mut cuts), Step::Unlink);
    assert!(matches!(driver.report(Report::Opened(1), 0), Err(DriveError::Plan(_))));
    assert_eq!(driver.step(&mut flushes, &mut cuts), Step::Unlink);
}

#[test]
fn the_tail_of_the_runs_starts_where_the_writing_stopped() {
    let all = runs(&[b"head", b"", b"-", b"body"]);
    let part = |run: usize, from: usize| RunPart { run, from };
    assert_eq!(tail_iovs(&all, 0), (vec![part(0, 0), part(2, 0), part(3, 0)], 9));
    assert_eq!(tail_iovs(&all, 3), (vec![part(0, 3), part(2, 0), part(3, 0)], 6));
    assert_eq!(tail_iovs(&all, 4), (vec![part(2, 0), part(3, 0)], 5));
    assert_eq!(tail_iovs(&all, 7), (vec![part(3, 2)], 2));
    assert_eq!(tail_iovs(&all, 9), (vec![], 0));

    let many: Vec<Bytes> = (0..IOV_MAX + 3).map(|_| Bytes::from_static(b"ab")).collect();
    let (parts, n) = tail_iovs(&many, 2);
    assert_eq!(parts.len(), IOV_MAX);
    assert_eq!(parts[0], part(1, 0));
    assert_eq!(n, 2 * IOV_MAX as u64);

    // As many runs are left as fit: they reach the end, whatever empty runs follow.
    let mut fits: Vec<Bytes> = (0..IOV_MAX).map(|_| Bytes::from_static(b"ab")).collect();
    fits.extend([Bytes::new(), Bytes::new()]);
    let (parts, n) = tail_iovs(&fits, 1);
    assert_eq!(parts.len(), IOV_MAX);
    assert_eq!(parts[0], part(0, 1));
    assert_eq!(parts[IOV_MAX - 1], part(IOV_MAX - 1, 0));
    assert_eq!(n, 2 * IOV_MAX as u64 - 1);
}
