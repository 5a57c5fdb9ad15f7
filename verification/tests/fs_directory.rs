//! Directories made on a tree that is held in memory.

use std::collections::{BTreeMap, BTreeSet};

use bytes::Bytes;
use normfs::fault::Faults;
use normfs::fs::directory::{
    Creation, DirError, FinishStep, Found, Mkdir, MkdirStep, PendingDirs, MAX_PATH_LEN,
};
use normfs::fs::plan::{Plan, TmpMode};
use normfs::fs::pool::{Outcome, PlanDriver, PublishReport, Report, Step};

#[derive(Default)]
struct Tree {
    dirs: BTreeSet<Vec<u8>>,
    files: BTreeSet<Vec<u8>>,
    /// Directories that cannot be synced.
    unsyncable: BTreeSet<Vec<u8>>,
    log: Vec<String>,
    /// The files that were published, or are about to be.
    contents: BTreeMap<Vec<u8>, Vec<u8>>,
}

fn parent(path: &[u8]) -> Vec<u8> {
    match path.iter().rposition(|&b| b == b'/') {
        Some(0) => b"/".to_vec(),
        Some(at) => path[..at].to_vec(),
        None => b".".to_vec(),
    }
}

impl Tree {
    fn with(dirs: &[&[u8]]) -> Tree {
        Tree { dirs: dirs.iter().map(|d| d.to_vec()).collect(), ..Tree::default() }
    }

    fn sync(&mut self, path: &[u8]) -> Option<i32> {
        self.log.push(format!("sync {}", String::from_utf8_lossy(path)));
        if self.unsyncable.contains(path) {
            Some(libc::EACCES)
        } else {
            None
        }
    }

    fn finish(
        &mut self,
        pending: &mut PendingDirs,
        path: &[u8],
        ticket: u64,
    ) -> Result<(), DirError> {
        loop {
            match pending.step(path, ticket) {
                FinishStep::Create => {
                    let creation = if self.dirs.contains(path) {
                        Creation::Exists
                    } else if self.dirs.contains(&parent(path)) {
                        self.log.push(format!("make {}", String::from_utf8_lossy(path)));
                        self.dirs.insert(path.to_vec());
                        Creation::Created
                    } else {
                        Creation::Failed(libc::ENOENT)
                    };
                    pending.created(path, ticket, creation)?;
                }
                FinishStep::SyncDir => {
                    let e = self.sync(path);
                    pending.synced(path, ticket, e)?;
                }
                FinishStep::SyncParent => {
                    let e = self.sync(&parent(path));
                    pending.synced(path, ticket, e)?;
                }
                FinishStep::Done => return Ok(()),
                FinishStep::Failed(e) => {
                    pending.leave(path, ticket);
                    return Err(e);
                }
            }
        }
    }

    /// Does what a publication asks for, until it ends.
    fn publish(&mut self, plan: Plan, runs: Vec<Bytes>) -> Outcome {
        let (tmp, dst) = (plan.tmp().to_vec(), plan.dst().to_vec());
        let mut driver = PlanDriver::new(plan, runs, true).unwrap();
        let (mut flushes, mut cuts) = (Faults::new(), Faults::new());
        loop {
            let step = driver.step(&mut flushes, &mut cuts);
            let mut written = 0;
            let report = match step {
                Step::Again => continue,
                Step::Finished(outcome) => return outcome,
                Step::Open { .. } => {
                    self.contents.insert(tmp.clone(), Vec::new());
                    Report::Opened(1)
                }
                Step::Write { parts, len, .. } => {
                    written = len;
                    let file = self.contents.get_mut(&tmp).unwrap();
                    for part in parts {
                        file.extend_from_slice(&driver.runs()[part.run][part.from..]);
                    }
                    Report::Completed
                }
                Step::StatDst => match self.contents.get(&dst) {
                    Some(content) => Report::Length(content.len() as u64),
                    None => Report::Absent,
                },
                Step::Rename => {
                    let content = self.contents.remove(&tmp).unwrap();
                    self.contents.insert(dst.clone(), content);
                    Report::Completed
                }
                Step::FsyncDir => match self.sync(&parent(&dst)) {
                    Some(e) => Report::Failed(e),
                    None => Report::Completed,
                },
                _ => Report::Completed,
            };
            driver.report(report, written).unwrap();
        }
    }

    fn mkdir_all(&mut self, pending: &mut PendingDirs, path: &[u8]) -> Result<(), DirError> {
        let mut mkdir = Mkdir::new(path);
        loop {
            match mkdir.step() {
                MkdirStep::Look(p) => mkdir.looked(if self.dirs.contains(&p) {
                    Found::Directory
                } else if self.files.contains(&p) {
                    Found::Other
                } else {
                    Found::Nothing
                })?,
                MkdirStep::Settle(p) => {
                    if let Some(ticket) = pending.join_existing(&p) {
                        self.finish(pending, &p, ticket)?;
                    }
                    mkdir.settled();
                }
                MkdirStep::Make(p) => {
                    let ticket = pending.reserve(&p);
                    self.finish(pending, &p, ticket)?;
                    mkdir.made();
                }
                MkdirStep::Done => return Ok(()),
                MkdirStep::Failed(e) => return Err(e),
            }
        }
    }
}

#[test]
fn directories_are_made_from_the_top_and_each_is_synced() {
    let mut tree = Tree::with(&[b"/", b"/root"]);
    let mut pending = PendingDirs::new();
    tree.mkdir_all(&mut pending, b"/root/queue//./wal/").unwrap();
    assert_eq!(
        tree.log,
        vec![
            "make /root/queue",
            "sync /root/queue",
            "sync /root",
            "make /root/queue/wal",
            "sync /root/queue/wal",
            "sync /root/queue",
        ]
    );
    assert!(pending.is_empty());

    // What exists and is complete is not synced again.
    tree.log.clear();
    tree.mkdir_all(&mut pending, b"/root/queue/wal").unwrap();
    assert!(tree.log.is_empty());
}

#[test]
fn a_failed_parent_sync_is_retried_across_fs_instances() {
    let mut tree = Tree::with(&[b"/", b"/root"]);
    let mut pending = PendingDirs::new();
    tree.unsyncable.insert(b"/root".to_vec());
    assert_eq!(
        tree.mkdir_all(&mut pending, b"/root/new"),
        Err(DirError::Os(libc::EACCES))
    );
    assert!(tree.dirs.contains(&b"/root/new"[..]));
    assert!(!pending.is_empty());
    // The directory is there, and still its name has to be synced.
    assert_eq!(
        tree.mkdir_all(&mut pending, b"/root/new"),
        Err(DirError::Os(libc::EACCES))
    );
    tree.unsyncable.clear();
    tree.log.clear();
    tree.mkdir_all(&mut pending, b"/root/new").unwrap();
    assert_eq!(tree.log, vec!["sync /root"]);
    assert!(pending.is_empty());
    tree.unsyncable.insert(b"/root".to_vec());
    tree.mkdir_all(&mut pending, b"/root/new").unwrap();
}

#[test]
fn publication_below_a_search_only_ancestor() {
    // An ancestor that cannot be opened is no obstacle, as long as nothing is made in it.
    let mut tree = Tree::with(&[b"/", b"/root", b"/root/service"]);
    tree.unsyncable.insert(b"/root".to_vec());
    let mut pending = PendingDirs::new();
    tree.mkdir_all(&mut pending, b"/root/service/queue/wal").unwrap();
    tree.mkdir_all(&mut pending, b"/root/service/queue/wal").unwrap();
    assert!(tree.dirs.contains(&b"/root/service/queue/wal"[..]));

    let plan = Plan::publish(
        b"/root/service/queue/wal/tmp",
        b"/root/service/queue/wal/target",
        TmpMode::Excl,
        9,
    )
    .unwrap();
    let outcome = tree.publish(plan, vec![Bytes::from_static(b"committed")]);
    assert!(outcome.done);
    assert_eq!(outcome.report, Some(PublishReport { old_len: None, new_len: 9 }));
    assert_eq!(tree.contents[&b"/root/service/queue/wal/target"[..]], b"committed");
    assert_eq!(tree.contents.len(), 1);
}

#[test]
fn concurrent_creation_shares_completion_for_the_same_directory() {
    let mut pending = PendingDirs::new();
    let mut tree = Tree::with(&[b"."]);
    let first = pending.reserve(b"./shared");
    let second = pending.reserve(b"./shared");
    tree.finish(&mut pending, b"./shared", first).unwrap();
    // The first is through, and the second finds nothing to do.
    assert!(pending.is_empty());
    assert_eq!(pending.step(b"./shared", second), FinishStep::Done);
    tree.finish(&mut pending, b"./shared", second).unwrap();
    assert!(pending.is_empty());
    assert_eq!(tree.log, vec!["make ./shared", "sync ./shared", "sync ."]);
}

#[test]
fn a_directory_that_was_removed_is_made_again() {
    let mut pending = PendingDirs::new();
    let mut tree = Tree::with(&[b"."]);
    let first = pending.reserve(b"./shared");
    let second = pending.reserve(b"./shared");
    tree.finish(&mut pending, b"./shared", first).unwrap();

    // The second has not looked yet, and the directory is gone.
    tree.dirs.remove(&b"./shared"[..]);
    tree.log.clear();
    let third = pending.reserve(b"./shared");
    assert_eq!(pending.step(b"./shared", third), FinishStep::Create);
    assert_eq!(pending.step(b"./shared", second), FinishStep::Done);
    pending.leave(b"./shared", second);
    assert_eq!(pending.step(b"./shared", third), FinishStep::Create);
    tree.finish(&mut pending, b"./shared", third).unwrap();
    assert_eq!(tree.log, vec!["make ./shared", "sync ./shared", "sync ."]);
    assert!(pending.is_empty());
}

#[test]
fn the_last_to_fail_discards_the_reservation() {
    let mut pending = PendingDirs::new();
    let mut tree = Tree::with(&[b"/"]);
    let first = pending.reserve(b"/no/dir");
    let second = pending.reserve(b"/no/dir");
    assert!(pending.has_room(b"/no/dir"));
    let missing = Err(DirError::Os(libc::ENOENT));
    assert_eq!(tree.finish(&mut pending, b"/no/dir", first), missing);
    assert!(!pending.is_empty());
    assert_eq!(tree.finish(&mut pending, b"/no/dir", second), missing);
    assert!(pending.is_empty());
}

#[test]
fn what_cannot_be_made_is_refused() {
    let mut pending = PendingDirs::new();
    let mut tree = Tree::with(&[b"/"]);
    tree.files.insert(b"/file".to_vec());
    assert_eq!(tree.mkdir_all(&mut pending, b"/file"), Err(DirError::NotADirectory));
    assert_eq!(tree.mkdir_all(&mut pending, b"/new/.."), Err(DirError::NoName));
    assert!(tree.dirs.contains(&b"/new"[..]));
    assert_eq!(Tree::default().mkdir_all(&mut pending, b"/x"), Err(DirError::NoName));

    let mut mkdir = Mkdir::new(b"/x");
    assert_eq!(mkdir.looked(Found::Failed(libc::EACCES)), Err(DirError::Os(libc::EACCES)));

    // A directory that never came into being is forgotten.
    assert!(pending.is_empty());
    let ticket = pending.reserve(b"/no/dir");
    assert_eq!(
        tree.finish(&mut pending, b"/no/dir", ticket),
        Err(DirError::Os(libc::ENOENT))
    );
    assert!(pending.is_empty());
}

#[test]
fn a_path_that_cannot_be_synced_stays_pending() {
    let mut pending = PendingDirs::new();
    let mut tree = Tree::with(&[b"/"]);
    let mut long = b"/".to_vec();
    long.resize(MAX_PATH_LEN, b'a');
    let ticket = pending.reserve(&long);
    assert_eq!(tree.finish(&mut pending, &long, ticket), Err(DirError::TooLong));
    let ticket = pending.reserve(b"/a\0b");
    assert_eq!(tree.finish(&mut pending, b"/a\0b", ticket), Err(DirError::Nul));
    assert!(!pending.is_empty());
}

#[test]
fn an_empty_path_is_the_current_directory() {
    let mut tree = Tree::with(&[b"."]);
    let mut pending = PendingDirs::new();
    tree.mkdir_all(&mut pending, b"").unwrap();
    tree.mkdir_all(&mut pending, b"a").unwrap();
    assert!(tree.dirs.contains(&b"./a"[..]));
}
