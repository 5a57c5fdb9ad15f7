//! Failures on schedule, and tails that land in spite of them.

use normfs::drainer::{LandReport, LandStep, Landing, DRAIN_WARN_EVERY};
use normfs::fault::Faults;

#[test]
fn a_scheduled_failure_is_taken_as_often_as_asked() {
    let mut faults = Faults::new();
    assert!(!faults.take_failure(b"/a"));
    faults.fail_flushes(b"/a", 2);
    assert!(!faults.take_failure(b"/b"));
    assert!(faults.take_failure(b"/a"));
    assert!(faults.take_failure(b"//a/"));
    assert!(!faults.take_failure(b"/a"));

    faults.fail_flushes(b"/a", 5);
    faults.heal(b"/a");
    assert!(!faults.take_failure(b"/a"));
}

/// Takes every step as done until something else than a step of an attempt comes.
fn attempt(landing: &mut Landing, faults: &mut Faults, file_len: u64) -> (Vec<LandStep>, LandStep) {
    let mut steps = Vec::new();
    loop {
        let step = landing.step(faults);
        match step {
            LandStep::Landed | LandStep::Lost | LandStep::Retry { .. } => return (steps, step),
            LandStep::Length => landing.report(LandReport::Length(file_len)),
            _ => landing.report(LandReport::Done),
        }
        steps.push(step);
    }
}

#[test]
fn a_tail_is_written_behind_what_is_valid() {
    let mut faults = Faults::new();
    let mut landing = Landing::new(b"/q/001.wal".to_vec(), 100, 2, true);
    let (steps, end) = attempt(&mut landing, &mut faults, 130);
    assert_eq!(end, LandStep::Landed);
    assert_eq!(
        steps,
        vec![
            LandStep::Open,
            LandStep::Length,
            LandStep::CutBack(100),
            LandStep::Write(0),
            LandStep::Write(1),
            LandStep::Flush,
            LandStep::Sync,
        ]
    );
    let mut landing = Landing::new(b"/q/001.wal".to_vec(), 100, 0, false);
    let (steps, end) = attempt(&mut landing, &mut faults, 100);
    assert_eq!(end, LandStep::Landed);
    assert_eq!(steps.len(), 4);
    assert_eq!(steps[3], LandStep::Flush);
}

#[test]
fn a_failed_attempt_begins_again_from_the_start() {
    let mut faults = Faults::new();
    faults.fail_flushes(b"/q/001.wal", 1);
    let mut landing = Landing::new(b"/q/001.wal".to_vec(), 100, 1, true);
    let (steps, end) = attempt(&mut landing, &mut faults, 100);
    assert_eq!(end, LandStep::Retry { warn: true });
    assert_eq!(steps.last(), Some(&LandStep::Write(0)));
    assert_eq!(landing.step(&mut faults), LandStep::Open);
    landing.report(LandReport::Failed);
    assert_eq!(landing.step(&mut faults), LandStep::Retry { warn: false });
    let (steps, end) = attempt(&mut landing, &mut faults, 100);
    assert_eq!(end, LandStep::Landed);
    assert_eq!(steps[0], LandStep::Open);
}

#[test]
fn a_warning_is_due_every_so_often() {
    let mut faults = Faults::new();
    let mut landing = Landing::new(b"/f".to_vec(), 0, 0, false);
    let mut warned = Vec::new();
    for attempt in 0..DRAIN_WARN_EVERY + 2 {
        landing.report(LandReport::Failed);
        if landing.step(&mut faults) == (LandStep::Retry { warn: true }) {
            warned.push(attempt);
        }
    }
    assert_eq!(warned, vec![0, DRAIN_WARN_EVERY]);
}

#[test]
fn a_tail_whose_file_is_gone_or_too_short_is_lost() {
    let mut faults = Faults::new();
    let mut landing = Landing::new(b"/f".to_vec(), 100, 1, true);
    landing.report(LandReport::NotFound);
    assert_eq!(landing.step(&mut faults), LandStep::Lost);

    let mut landing = Landing::new(b"/f".to_vec(), 100, 1, true);
    let (_, end) = attempt(&mut landing, &mut faults, 99);
    assert_eq!(end, LandStep::Lost);
    assert_eq!(landing.step(&mut faults), LandStep::Lost);
}
