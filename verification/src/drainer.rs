//! Landing the tail of a file whose closing flush failed, however often it takes.

use vstd::prelude::*;

use crate::fault;
use crate::fault::Faults;
use crate::fs::path;

verus! {

/// Every how many failed attempts a warning is due.
pub const DRAIN_WARN_EVERY: u32 = 500;

/// Why an attempt failed.
#[derive(Debug, Clone, Copy, PartialEq, Eq, Structural)]
pub enum Failure {
    /// It may pass.
    Transient,
    /// The file is gone, or shorter than what the tail follows. No attempt can undo that.
    Fatal,
}

/// What to do next.
#[derive(Debug, Clone, Copy, PartialEq, Eq, Structural)]
pub enum LandStep {
    /// Open the file for writing. It is never created.
    Open,
    /// Find out how long it is.
    Length,
    /// Cut it back to this length, and go there.
    CutBack(u64),
    /// Write this run of the tail.
    Write(usize),
    /// Flush what was written.
    Flush,
    /// Sync the file.
    Sync,
    /// The tail has landed.
    Landed,
    /// Wait and begin again. Whether a warning is due.
    Retry { warn: bool },
    /// The tail reaches no file.
    Lost,
}

/// What came of it.
#[derive(Debug, Clone, Copy, PartialEq, Eq, Structural)]
pub enum LandReport {
    Done,
    /// The length of the file.
    Length(u64),
    /// There is no such file.
    NotFound,
    /// It failed otherwise.
    Failed,
}

/// How far an attempt has come.
#[derive(Debug, Clone, Copy, PartialEq, Eq, Structural)]
pub enum Stage {
    Open,
    Length,
    CutBack,
    /// The run to write.
    Write(usize),
    Flush,
    Sync,
    Landed,
    Failed(Failure),
}

/// A tail that is to land, as its users see it.
#[verifier::ext_equal]
pub struct LandingView {
    pub path: Seq<u8>,
    /// The length of the file up to the tail.
    pub valid_len: u64,
    /// How many runs of bytes the tail has.
    pub runs: usize,
    pub fsync: bool,
    pub stage: Stage,
    /// How many attempts have failed.
    pub attempt: u32,
}

impl LandingView {
    pub open spec fn inv(self) -> bool {
        &&& self.stage matches Stage::Write(i) ==> i < self.runs
        &&& self.stage == Stage::Sync ==> self.fsync
    }

    /// How many steps an attempt takes to get to a stage.
    pub open spec fn steps_to(self, stage: Stage) -> nat {
        match stage {
            Stage::Open => 0,
            Stage::Length => 1,
            Stage::CutBack => 2,
            Stage::Write(i) => 3 + i as nat,
            Stage::Flush => 3 + self.runs as nat,
            Stage::Sync => 4 + self.runs as nat,
            Stage::Landed => if self.fsync {
                5 + self.runs as nat
            } else {
                4 + self.runs as nat
            },
            Stage::Failed(_) => 0,
        }
    }

    /// The stage once `n` runs are written.
    pub open spec fn writing(self, n: int) -> Stage {
        if n < self.runs {
            Stage::Write(n as usize)
        } else {
            Stage::Flush
        }
    }

    /// What is asked for at a stage of an attempt that goes on.
    pub open spec fn asks(self) -> LandStep {
        match self.stage {
            Stage::Open => LandStep::Open,
            Stage::Length => LandStep::Length,
            Stage::CutBack => LandStep::CutBack(self.valid_len),
            Stage::Write(i) => LandStep::Write(i),
            Stage::Flush => LandStep::Flush,
            Stage::Sync => LandStep::Sync,
            Stage::Landed => LandStep::Landed,
            Stage::Failed(_) => LandStep::Lost,
        }
    }

    /// The next attempt.
    pub open spec fn again(self) -> LandingView {
        LandingView {
            stage: Stage::Open,
            attempt: if self.attempt == u32::MAX {
                u32::MAX
            } else {
                (self.attempt + 1) as u32
            },
            ..self
        }
    }

    /// The stage after a report. An injected failure comes before the flush.
    pub open spec fn told(self, report: LandReport) -> Stage {
        match (self.stage, report) {
            (Stage::Open, LandReport::Done) => Stage::Length,
            (Stage::Open, LandReport::NotFound) => Stage::Failed(Failure::Fatal),
            (Stage::Length, LandReport::Length(n)) => if n < self.valid_len {
                Stage::Failed(Failure::Fatal)
            } else {
                Stage::CutBack
            },
            (Stage::CutBack, LandReport::Done) => self.writing(0),
            (Stage::Write(i), LandReport::Done) => self.writing(i + 1),
            (Stage::Flush, LandReport::Done) => if self.fsync {
                Stage::Sync
            } else {
                Stage::Landed
            },
            (Stage::Sync, LandReport::Done) => Stage::Landed,
            (Stage::Landed, _) => Stage::Landed,
            (Stage::Failed(f), _) => Stage::Failed(f),
            _ => Stage::Failed(Failure::Transient),
        }
    }
}

/// Whether a warning is due once this many attempts have failed before.
pub open spec fn warns(attempt: u32) -> bool {
    attempt % DRAIN_WARN_EVERY == 0
}

/// A warning is due at the first failure, and from then on at every five hundredth.
pub proof fn lemma_when_a_warning_is_due(attempt: u32, more: u32)
    requires
        attempt + more <= u32::MAX,
    ensures
        warns(0),
        warns(attempt) && 0 < more < 500 ==> !warns((attempt + more) as u32),
        warns(attempt) && more == 500 ==> warns((attempt + more) as u32),
{
}

/// An attempt that may pass begins again from the start, with nothing changed but the count of
/// attempts.
pub proof fn lemma_an_attempt_begins_again(l: LandingView)
    ensures
        l.again().inv(),
        l.again().asks() == LandStep::Open,
        l.again().steps_to(l.again().stage) == 0,
        l.attempt < u32::MAX ==> l.again().attempt == l.attempt + 1,
        l.attempt == u32::MAX ==> l.again().attempt == u32::MAX,
        l.again().path == l.path,
        l.again().valid_len == l.valid_len,
        l.again().runs == l.runs,
        l.again().fsync == l.fsync,
{
}

/// What a landing asks for, from the opening of the file on, is each thing once and in turn: its
/// length, to cut it back to where the tail begins, each run, the flush, and the sync where one
/// is due.
pub proof fn lemma_what_a_landing_asks(l: LandingView)
    requires
        l.inv(),
    ensures
        match l.asks() {
            LandStep::Open => l.steps_to(l.stage) == 0 && l.told(LandReport::Done) == Stage::Length,
            LandStep::Length => l.steps_to(l.stage) == 1 && l.told(LandReport::Length(l.valid_len))
                == Stage::CutBack,
            LandStep::CutBack(n) => n == l.valid_len && l.steps_to(l.stage) == 2,
            LandStep::Write(i) => i < l.runs && l.steps_to(l.stage) == 3 + i,
            LandStep::Flush => l.steps_to(l.stage) == 3 + l.runs,
            LandStep::Sync => l.fsync && l.steps_to(l.stage) == 4 + l.runs,
            LandStep::Landed => l.stage == Stage::Landed,
            LandStep::Lost => l.stage is Failed,
            LandStep::Retry { .. } => false,
        },
{
}

/// A tail that is to land.
///
/// The caller asks [`Landing::step`] what to do, does it, and tells [`Landing::report`] what
/// came of it.
pub struct Landing {
    path: Vec<u8>,
    valid_len: u64,
    runs: usize,
    fsync: bool,
    stage: Stage,
    attempt: u32,
}

impl View for Landing {
    type V = LandingView;

    closed spec fn view(&self) -> LandingView {
        LandingView {
            path: self.path@,
            valid_len: self.valid_len,
            runs: self.runs,
            fsync: self.fsync,
            stage: self.stage,
            attempt: self.attempt,
        }
    }
}

impl Landing {
    /// A tail of `runs` runs that follows the first `valid_len` bytes of the file at `path`.
    pub fn new(path: Vec<u8>, valid_len: u64, runs: usize, fsync: bool) -> (l: Landing)
        ensures
            l@.inv(),
            l@ == (LandingView {
                path: path@,
                valid_len,
                runs,
                fsync,
                stage: Stage::Open,
                attempt: 0,
            }),
    {
        Landing { path, valid_len, runs, fsync, stage: Stage::Open, attempt: 0 }
    }

    /// What to do next. An attempt that failed and may pass begins again, from the start:
    /// it may have left bytes behind, and ids are positions.
    pub fn step(&mut self, flushes: &mut Faults) -> (step: LandStep)
        requires
            old(self)@.inv(),
            old(flushes).inv(),
        ensures
            final(self)@.inv(),
            final(flushes).inv(),
            final(flushes)@ == if old(self)@.stage == Stage::Flush {
                fault::flushed(old(flushes)@, path::named(old(self)@.path))
            } else {
                old(flushes)@
            },
            ({
                let injected = old(self)@.stage == Stage::Flush && fault::fails(
                    old(flushes)@,
                    path::named(old(self)@.path),
                );
                if old(self)@.stage == Stage::Failed(Failure::Transient) || injected {
                    &&& step == (LandStep::Retry { warn: warns(old(self)@.attempt) })
                    &&& final(self)@ == old(self)@.again()
                } else {
                    &&& final(self)@ == old(self)@
                    &&& step == old(self)@.asks()
                }
            }),
    {
        if self.stage == Stage::Flush && flushes.take_failure(self.path.as_slice()) {
            self.stage = Stage::Failed(Failure::Transient);
        }
        match self.stage {
            Stage::Open => LandStep::Open,
            Stage::Length => LandStep::Length,
            Stage::CutBack => LandStep::CutBack(self.valid_len),
            Stage::Write(i) => LandStep::Write(i),
            Stage::Flush => LandStep::Flush,
            Stage::Sync => LandStep::Sync,
            Stage::Landed => LandStep::Landed,
            Stage::Failed(Failure::Fatal) => LandStep::Lost,
            Stage::Failed(Failure::Transient) => {
                let warn: bool = self.attempt % DRAIN_WARN_EVERY == 0;
                self.attempt = self.attempt.saturating_add(1);
                self.stage = Stage::Open;
                LandStep::Retry { warn }
            },
        }
    }

    /// Takes what came of the last step.
    pub fn report(&mut self, report: LandReport)
        requires
            old(self)@.inv(),
        ensures
            final(self)@.inv(),
            final(self)@ == (LandingView { stage: old(self)@.told(report), ..old(self)@ }),
    {
        self.stage = match (self.stage, report) {
            (Stage::Open, LandReport::Done) => Stage::Length,
            (Stage::Open, LandReport::NotFound) => Stage::Failed(Failure::Fatal),
            (Stage::Length, LandReport::Length(n)) => {
                if n < self.valid_len {
                    Stage::Failed(Failure::Fatal)
                } else {
                    Stage::CutBack
                }
            },
            (Stage::CutBack, LandReport::Done) => {
                if self.runs > 0 {
                    Stage::Write(0)
                } else {
                    Stage::Flush
                }
            },
            (Stage::Write(i), LandReport::Done) => {
                if i + 1 < self.runs {
                    Stage::Write(i + 1)
                } else {
                    Stage::Flush
                }
            },
            (Stage::Flush, LandReport::Done) => {
                if self.fsync {
                    Stage::Sync
                } else {
                    Stage::Landed
                }
            },
            (Stage::Sync, LandReport::Done) => Stage::Landed,
            (Stage::Landed, _) => Stage::Landed,
            (Stage::Failed(f), _) => Stage::Failed(f),
            _ => Stage::Failed(Failure::Transient),
        };
    }
}

/// A tail is given up only when its file is gone, or shorter than what the tail follows.
pub proof fn lemma_given_up_only_for_good(l: LandingView, report: LandReport)
    requires
        l.stage != Stage::Failed(Failure::Fatal),
        l.told(report) == Stage::Failed(Failure::Fatal),
    ensures
        l.stage == Stage::Open && report == LandReport::NotFound || l.stage == Stage::Length && (
        report matches LandReport::Length(n) && n < l.valid_len),
{
}

/// Every stage of a landing follows on the one before it, and only once that was done: the file
/// is opened, found long enough, cut back, written run by run, flushed, and synced where that is
/// asked for.
pub proof fn lemma_what_a_stage_follows(l: LandingView, report: LandReport)
    requires
        l.inv(),
        l.stage != Stage::Landed,
        !(l.stage is Failed),
    ensures
        match l.told(report) {
            Stage::Open => false,
            Stage::Length => l.stage == Stage::Open && report == LandReport::Done,
            Stage::CutBack => l.stage == Stage::Length && (report matches LandReport::Length(n) && n
                >= l.valid_len),
            Stage::Write(i) => report == LandReport::Done && i < l.runs && if i == 0 {
                l.stage == Stage::CutBack
            } else {
                l.stage == Stage::Write((i - 1) as usize)
            },
            Stage::Flush => report == LandReport::Done && if l.runs == 0 {
                l.stage == Stage::CutBack
            } else {
                l.stage == Stage::Write((l.runs - 1) as usize)
            },
            Stage::Sync => report == LandReport::Done && l.fsync && l.stage == Stage::Flush,
            Stage::Landed => report == LandReport::Done && if l.fsync {
                l.stage == Stage::Sync
            } else {
                l.stage == Stage::Flush
            },
            Stage::Failed(Failure::Fatal) => l.stage == Stage::Open && report
                == LandReport::NotFound || l.stage == Stage::Length && (
            report matches LandReport::Length(n) && n < l.valid_len),
            Stage::Failed(Failure::Transient) => report != LandReport::Done && !(l.stage
                == Stage::Length && report is Length) && !(l.stage == Stage::Open && report
                == LandReport::NotFound) || l.stage == Stage::Length && report == LandReport::Done,
        },
{
}

/// A landing skips nothing: what does not fail goes on to the next step, so a tail that has
/// landed was written whole and flushed, and synced where that is asked for.
pub proof fn lemma_a_landing_skips_nothing(l: LandingView, report: LandReport)
    requires
        l.inv(),
        l.stage != Stage::Landed,
        !(l.stage is Failed),
    ensures
        l.told(report) is Failed || l.steps_to(l.told(report)) == l.steps_to(l.stage) + 1,
{
}

} // verus!
