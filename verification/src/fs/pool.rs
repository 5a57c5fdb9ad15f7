//! Running a plan: which system call comes next, and what its outcome tells the plan.

use bytes::Bytes;
use vstd::prelude::*;

use crate::buf;
use crate::fault;
use crate::fault::Faults;
use crate::fs::path;
use crate::fs::plan;
use crate::fs::plan::{Kind, Op, Plan, PlanError, PlanView, TmpMode};

verus! {

/// The most parts that one write hands down; more of them go in several writes.
pub const IOV_MAX: usize = 1024;

/// The rest of a run of bytes, from `from` on.
#[derive(Debug, Clone, Copy, PartialEq, Eq, Structural)]
pub struct RunPart {
    pub run: usize,
    pub from: usize,
}

/// All bytes of `runs`, in order.
pub open spec fn run_bytes(runs: Seq<Bytes>) -> Seq<u8>
    decreases runs.len(),
{
    if runs.len() == 0 {
        Seq::empty()
    } else {
        run_bytes(runs.drop_last()) + buf::shown(runs.last())
    }
}

/// The bytes of `parts` of `runs`, in order.
pub open spec fn part_bytes(runs: Seq<Bytes>, parts: Seq<RunPart>) -> Seq<u8>
    decreases parts.len(),
{
    if parts.len() == 0 {
        Seq::empty()
    } else {
        part_bytes(runs, parts.drop_last()) + buf::shown(runs[parts.last().run as int]).skip(
            parts.last().from as int,
        )
    }
}

/// Whether `parts` are parts of `runs`, and none of them is empty.
pub open spec fn are_parts(runs: Seq<Bytes>, parts: Seq<RunPart>) -> bool {
    forall|i: int|
        0 <= i < parts.len() ==> (#[trigger] parts[i]).run < runs.len() && parts[i].from
            < buf::shown(runs[parts[i].run as int]).len()
}

/// What is left of `runs` once `written` bytes are in the file: each run that has bytes left,
/// in order. The first is cut where the written bytes end.
pub open spec fn unwritten(runs: Seq<Bytes>, written: nat) -> Seq<RunPart>
    decreases runs.len(),
{
    if runs.len() == 0 {
        Seq::empty()
    } else {
        let head = runs.drop_last();
        let before = run_bytes(head).len();
        let from = if written > before {
            written - before
        } else {
            0
        };
        if from < buf::shown(runs.last()).len() {
            unwritten(head, written).push(RunPart { run: head.len() as usize, from: from as usize })
        } else {
            unwritten(head, written)
        }
    }
}

/// Whether `parts` are what a write hands down once `written` bytes are in the file: what is
/// left of the runs, or as many parts of it as fit. They are the bytes that come next, and
/// all of them where every part fits.
pub open spec fn is_tail(runs: Seq<Bytes>, written: nat, parts: Seq<RunPart>) -> bool {
    let all = run_bytes(runs);
    let n = part_bytes(runs, parts).len();
    let left = unwritten(runs, written);
    &&& are_parts(runs, parts)
    &&& parts == if left.len() <= IOV_MAX {
        left
    } else {
        left.take(IOV_MAX as int)
    }
    &&& parts.len() == 0 ==> written >= all.len()
    &&& parts.len() > 0 ==> written + n <= all.len() && part_bytes(runs, parts) == all.subrange(
        written as int,
        written as int + n,
    )
    &&& 0 < left.len() <= IOV_MAX ==> written + n == all.len()
}

/// What is left of the first runs comes first. If that is all that is left, the other runs
/// have no bytes.
proof fn lemma_unwritten_take(runs: Seq<Bytes>, i: int, written: nat)
    requires
        0 <= i <= runs.len(),
    ensures
        unwritten(runs.take(i), written).is_prefix_of(unwritten(runs, written)),
        ({
            &&& written <= run_bytes(runs.take(i)).len()
            &&& unwritten(runs.take(i), written).len() == unwritten(runs, written).len()
        }) ==> run_bytes(runs).len() == run_bytes(runs.take(i)).len(),
    decreases runs.len(),
{
    let part = unwritten(runs.take(i), written);
    if i < runs.len() {
        let head = runs.drop_last();
        lemma_unwritten_take(head, i, written);
        lemma_run_bytes_take(head, i);
        assert(head.take(i) =~= runs.take(i));
        assert(unwritten(runs, written).subrange(0, part.len() as int) =~= unwritten(
            head,
            written,
        ).subrange(0, part.len() as int));
    } else {
        assert(runs.take(i) =~= runs);
        assert(part.subrange(0, part.len() as int) =~= part);
    }
}

/// The bytes of some runs are those of the one after those of the other.
pub proof fn lemma_runs_follow_each_other(a: Seq<Bytes>, b: Seq<Bytes>, one: Bytes)
    ensures
        run_bytes(a + b) == run_bytes(a) + run_bytes(b),
        run_bytes(seq![one]) == buf::shown(one),
        run_bytes(Seq::empty()) == Seq::<u8>::empty(),
    decreases b.len(),
{
    assert(seq![one].drop_last() =~= Seq::empty());
    assert(run_bytes(Seq::empty()) =~= Seq::empty());
    assert(run_bytes(seq![one]) =~= buf::shown(one));
    if b.len() == 0 {
        assert(a + b =~= a);
        assert(run_bytes(a) + run_bytes(b) =~= run_bytes(a));
    } else {
        lemma_runs_follow_each_other(a, b.drop_last(), one);
        assert((a + b).drop_last() =~= a + b.drop_last());
        assert(run_bytes(a + b) =~= run_bytes(a) + run_bytes(b));
    }
}

/// What a write hands down are the bytes that come next in the runs, and it reaches their end
/// unless there are more parts than fit; it hands down nothing only when nothing is left.
pub proof fn lemma_a_write_goes_on_where_it_stopped(
    runs: Seq<Bytes>,
    written: nat,
    parts: Seq<RunPart>,
)
    requires
        is_tail(runs, written, parts),
    ensures
        ({
            let all = run_bytes(runs);
            let next = part_bytes(runs, parts);
            &&& parts.len() <= 1024
            &&& parts.len() == 0 ==> written >= all.len()
            &&& parts.len() > 0 ==> written + next.len() <= all.len() && next == all.skip(
                written as int,
            ).take(next.len() as int)
            &&& 0 < parts.len() < 1024 ==> written + next.len() == all.len()
        }),
{
    let all = run_bytes(runs);
    let next = part_bytes(runs, parts);
    if parts.len() > 0 {
        assert(all.skip(written as int).take(next.len() as int) =~= all.subrange(
            written as int,
            written as int + next.len(),
        ));
    }
}

proof fn lemma_run_bytes_take(runs: Seq<Bytes>, i: int)
    requires
        0 <= i <= runs.len(),
    ensures
        run_bytes(runs.take(i)).is_prefix_of(run_bytes(runs)),
    decreases runs.len(),
{
    if i < runs.len() {
        let head = runs.drop_last();
        lemma_run_bytes_take(head, i);
        assert(head.take(i) =~= runs.take(i));
        let part = run_bytes(runs.take(i));
        assert(run_bytes(runs).subrange(0, part.len() as int) =~= run_bytes(head).subrange(
            0,
            part.len() as int,
        ));
    } else {
        assert(runs.take(i) =~= runs);
        assert(run_bytes(runs).subrange(0, run_bytes(runs).len() as int) =~= run_bytes(runs));
    }
}

/// The parts of `runs` that are not yet written, at most [`IOV_MAX`] of them, and how many
/// bytes they are.
pub fn tail_iovs(runs: &Vec<Bytes>, written: u64) -> (r: (Vec<RunPart>, u64))
    requires
        run_bytes(runs@).len() <= u64::MAX,
    ensures
        is_tail(runs@, written as nat, r.0@),
        r.1 as nat == part_bytes(runs@, r.0@).len(),
        r.0@.len() > 0 ==> r.1 > 0,
{
    let mut skip: u64 = written;
    let mut out: Vec<RunPart> = Vec::new();
    let mut n: u64 = 0;
    let mut i: usize = 0;
    assert(runs@.take(0) =~= Seq::empty());
    while i < runs.len() && out.len() < IOV_MAX
        invariant
            i <= runs@.len(),
            run_bytes(runs@).len() <= u64::MAX,
            out@.len() <= IOV_MAX,
            are_parts(runs@, out@),
            out@ == unwritten(runs@.take(i as int), written as nat),
            n as nat == part_bytes(runs@, out@).len(),
            out@.len() > 0 ==> n > 0,
            ({
                let done = run_bytes(runs@.take(i as int));
                if out@.len() == 0 {
                    &&& done.len() <= written
                    &&& skip == written - done.len()
                } else {
                    &&& skip == 0
                    &&& written + n == done.len()
                    &&& part_bytes(runs@, out@) == done.skip(written as int)
                }
            }),
        decreases runs@.len() - i,
    {
        let ghost done = run_bytes(runs@.take(i as int));
        let ghost run = buf::shown(runs@[i as int]);
        proof {
            assert(runs@.take(i + 1).drop_last() =~= runs@.take(i as int));
            assert(run_bytes(runs@.take(i + 1)) == done + run);
            lemma_run_bytes_take(runs@, i + 1);
        }
        let len: u64 = buf::as_slice(&runs[i]).len() as u64;
        if skip >= len {
            skip = skip - len;
            proof {
                if out@.len() > 0 {
                    assert(done + run =~= done);
                }
            }
        } else {
            let from: usize = skip as usize;
            skip = 0;
            let ghost was = out@;
            out.push(RunPart { run: i, from });
            n = n + (len - from as u64);
            proof {
                assert(out@.drop_last() =~= was);
                if was.len() == 0 {
                    assert(part_bytes(runs@, out@) =~= run.skip(from as int));
                    assert((done + run).skip(written as int) =~= run.skip(from as int));
                } else {
                    assert(run.skip(0) =~= run);
                    assert((done + run).skip(written as int) =~= done.skip(written as int) + run);
                }
            }
        }
        i = i + 1;
    }
    proof {
        let done = run_bytes(runs@.take(i as int));
        let left = unwritten(runs@, written as nat);
        lemma_run_bytes_take(runs@, i as int);
        lemma_unwritten_take(runs@, i as int, written as nat);
        if i == runs@.len() {
            assert(runs@.take(i as int) =~= runs@);
        }
        assert(left.subrange(0, out@.len() as int) =~= left.take(out@.len() as int));
        if left.len() == out@.len() {
            assert(left.take(out@.len() as int) =~= left);
        }
        if out@.len() > 0 {
            let all = run_bytes(runs@);
            assert(done =~= all.subrange(0, done.len() as int));
            assert(done.skip(written as int) =~= all.subrange(written as int, written + n));
        }
    }
    (out, n)
}

/// What was published.
#[derive(Debug, Clone, Copy, PartialEq, Eq, Structural)]
pub struct PublishReport {
    /// The length of what was there before, where there was something.
    pub old_len: Option<u64>,
    pub new_len: u64,
}

/// How a plan came out.
#[derive(Debug, Clone, Copy, PartialEq, Eq, Structural)]
pub struct Outcome {
    /// Whether the plan is done, and not failed.
    pub done: bool,
    /// Whether a removal found nothing to remove.
    pub absent: bool,
    /// Whether the file that was opened is handed back open.
    pub keep_file: bool,
    /// Whether the temporary file is to be removed.
    pub unlink_tmp: bool,
    /// What to account for.
    pub report: Option<PublishReport>,
}

/// What to do next.
#[derive(Debug, PartialEq, Eq)]
pub enum Step {
    /// Ask again.
    Again,
    /// Open the temporary file of a publication, or else the destination, in this mode.
    Open { tmp: bool, mode: TmpMode },
    /// Write these parts, `len` bytes, at `offset`.
    Write { parts: Vec<RunPart>, offset: u64, len: u64 },
    FsyncFile,
    CloseFile,
    StatDst,
    Rename,
    FsyncDir,
    /// Cut the file back to this length.
    Truncate(u64),
    Unlink,
    Finished(Outcome),
}

/// What came of it.
#[derive(Debug, Clone, Copy, PartialEq, Eq, Structural)]
pub enum Report {
    /// It completed.
    Completed,
    /// The file was opened and has this inode.
    Opened(u64),
    /// The destination has this length.
    Length(u64),
    /// There was no file.
    Absent,
    /// It failed with this error number.
    Failed(i32),
}

/// Why a plan could not be run.
#[derive(Debug, Clone, Copy, PartialEq, Eq, Structural)]
pub enum DriveError {
    /// The temporary name and the destination of a publication are the same.
    Alias,
    /// A report that the plan refuses.
    Plan(PlanError),
}

/// The running of a plan as its users see it.
#[verifier::ext_equal]
pub struct DriverView {
    pub plan: PlanView,
    pub runs: Seq<Bytes>,
    /// With this off, syncs count as done without being done.
    pub sync: bool,
    /// Whether the file was opened.
    pub opened: bool,
    /// Whether a removal found nothing.
    pub absent: bool,
    /// Whether the opened file is still open.
    pub holding: bool,
    /// The error number of a failed transfer.
    pub eio: i32,
}

impl DriverView {
    pub open spec fn inv(self) -> bool {
        &&& self.plan.inv()
        &&& self.plan.at + self.plan.total <= u64::MAX
        &&& run_bytes(self.runs).len() <= u64::MAX
        &&& self.eio != 0
    }

    /// Whether the bytes to write have run out.
    pub open spec fn out_of_bytes(self) -> bool {
        self.plan.written >= run_bytes(self.runs).len()
    }

    /// What happens next without a system call, where that is so.
    pub open spec fn on_its_own(self, flush_fails: bool, cut_fails: bool) -> Option<PlanView> {
        match self.plan.op {
            Op::Write => if self.out_of_bytes() {
                Some(self.plan.after_err(self.eio as int))
            } else {
                None
            },
            Op::FsyncFile => if self.plan.kind == Kind::Append && flush_fails {
                Some(self.plan.after_err(self.eio as int))
            } else if !self.sync {
                Some(self.plan.after_ok(0))
            } else {
                None
            },
            Op::CloseFile => if !self.holding {
                Some(self.plan.after_ok(0))
            } else {
                None
            },
            Op::FsyncDir => if !self.sync {
                Some(self.plan.after_ok(0))
            } else {
                None
            },
            Op::TruncateBack => if cut_fails {
                Some(self.plan.after_err(self.eio as int))
            } else {
                None
            },
            _ => None,
        }
    }

    /// How the plan came out, once it has ended.
    pub open spec fn outcome(self) -> Outcome {
        let done = self.plan.op == Op::Done;
        Outcome {
            done,
            absent: self.absent,
            keep_file: done && self.plan.kind == Kind::Create && self.holding,
            unlink_tmp: !done && self.opened && self.plan.kind == Kind::Publish,
            report: if done && self.plan.kind == Kind::Publish {
                Some(
                    PublishReport {
                        old_len: match self.plan.old_len {
                            Some(n) => Some(n as u64),
                            None => None,
                        },
                        new_len: self.plan.total as u64,
                    },
                )
            } else {
                None
            },
        }
    }

    /// Whether `step` is the system call that comes next.
    pub open spec fn asks(self, step: Step) -> bool {
        match self.plan.op {
            Op::Open => step == (Step::Open {
                tmp: self.plan.kind == Kind::Publish,
                mode: self.plan.mode,
            }),
            Op::Write => step matches Step::Write { parts, offset, len } && is_tail(
                self.runs,
                self.plan.written,
                parts@,
            ) && parts@.len() > 0 && offset as nat == self.plan.at + self.plan.written && len as nat
                == part_bytes(self.runs, parts@).len(),
            Op::FsyncFile => step == Step::FsyncFile,
            Op::CloseFile => step == Step::CloseFile,
            Op::StatDst => step == Step::StatDst,
            Op::Rename => step == Step::Rename,
            Op::FsyncDir => step == Step::FsyncDir,
            Op::TruncateBack => step == Step::Truncate(self.plan.at as u64),
            Op::Unlink => step == Step::Unlink,
            Op::Done => step == Step::Finished(self.outcome()),
            Op::Failed => step == Step::Finished(self.outcome()),
        }
    }

    /// What the outcome of a system call tells the plan: `None` if it does not fit.
    pub open spec fn told(self, report: Report, len: nat) -> Option<PlanView> {
        let completed = match (self.plan.op, report) {
            (Op::Open, Report::Opened(ino)) => Some(ino as nat),
            (Op::Write, Report::Completed) => Some(len),
            (Op::FsyncFile, Report::Completed) => Some(0nat),
            (Op::CloseFile, Report::Completed) => Some(0nat),
            (Op::StatDst, Report::Length(n)) => Some(n as nat),
            (Op::Rename, Report::Completed) => Some(0nat),
            (Op::FsyncDir, Report::Completed) => Some(0nat),
            (Op::TruncateBack, Report::Completed) => Some(0nat),
            (Op::Unlink, Report::Completed) => Some(0nat),
            _ => None,
        };
        match (completed, report) {
            (Some(n), _) => if self.plan.takes_ok(n) {
                Some(self.plan.after_ok(n))
            } else {
                None
            },
            (None, Report::Absent) => if (self.plan.op == Op::StatDst || self.plan.op == Op::Unlink)
                && self.plan.takes_absent() {
                Some(self.plan.after_absent())
            } else {
                None
            },
            (None, Report::Failed(e)) => if self.plan.ended() {
                None
            } else {
                Some(
                    self.plan.after_err(
                        if e > 0 {
                            e as int
                        } else {
                            self.eio as int
                        },
                    ),
                )
            },
            _ => None,
        }
    }

    /// The driver after a report, whether it fits or not.
    pub open spec fn after(self, report: Report, len: nat) -> DriverView {
        DriverView {
            plan: match self.told(report, len) {
                Some(next) => next,
                None => self.plan,
            },
            opened: self.opened || self.plan.op == Op::Open && report is Opened,
            holding: if self.plan.op == Op::Open && report is Opened {
                true
            } else {
                self.holding && self.plan.op != Op::CloseFile
            },
            absent: self.absent || self.plan.op == Op::Unlink && report == Report::Absent,
            ..self
        }
    }
}

/// The running of a plan.
///
/// The caller asks [`PlanDriver::step`] what to do, does it, and tells
/// [`PlanDriver::report`] what came of it.
pub struct PlanDriver {
    plan: Plan,
    runs: Vec<Bytes>,
    sync: bool,
    opened: bool,
    absent: bool,
    holding: bool,
    eio: i32,
}

impl View for PlanDriver {
    type V = DriverView;

    closed spec fn view(&self) -> DriverView {
        DriverView {
            plan: self.plan@,
            runs: self.runs@,
            sync: self.sync,
            opened: self.opened,
            absent: self.absent,
            holding: self.holding,
            eio: self.eio,
        }
    }
}

impl PlanDriver {
    /// Starts to run `plan`, which writes the bytes of `runs`.
    pub fn new(plan: Plan, runs: Vec<Bytes>, sync: bool) -> (r: Result<PlanDriver, DriveError>)
        requires
            plan@.inv(),
            plan@.at + plan@.total <= u64::MAX,
            run_bytes(runs@).len() <= u64::MAX,
        ensures
            match r {
                Ok(d) => {
                    &&& !(plan@.kind == Kind::Publish && path::named(plan@.tmp) == path::named(
                        plan@.dst,
                    ))
                    &&& d@.inv()
                    &&& d@.eio != 0
                    &&& d@ == (DriverView {
                        plan: plan@,
                        runs: runs@,
                        sync,
                        opened: false,
                        absent: false,
                        holding: false,
                        eio: d@.eio,
                    })
                },
                Err(e) => e == DriveError::Alias && plan@.kind == Kind::Publish && path::named(
                    plan@.tmp,
                ) == path::named(plan@.dst),
            },
    {
        if plan.kind() == Kind::Publish && path::same_path(plan.tmp(), plan.dst()) {
            return Err(DriveError::Alias);
        }
        Ok(
            PlanDriver {
                plan,
                runs,
                sync,
                opened: false,
                absent: false,
                holding: false,
                eio: plan::transfer_error(),
            },
        )
    }

    /// The plan that is run.
    pub fn plan(&self) -> (p: &Plan)
        ensures
            p@ == self@.plan,
    {
        &self.plan
    }

    /// The bytes that the plan writes.
    pub fn runs(&self) -> (r: &Vec<Bytes>)
        ensures
            r@ == self@.runs,
    {
        &self.runs
    }

    /// What to do next. `flushes` and `cuts` are the failures that are on schedule, of the
    /// flush of an append and of cutting a file back.
    pub fn step(&mut self, flushes: &mut Faults, cuts: &mut Faults) -> (step: Step)
        requires
            old(self)@.inv(),
            old(flushes).inv(),
            old(cuts).inv(),
        ensures
            final(self)@.inv(),
            final(flushes).inv(),
            final(cuts).inv(),
            ({
                let name = path::named(old(self)@.plan.dst);
                let flush_fails = fault::fails(old(flushes)@, name);
                let cut_fails = fault::fails(old(cuts)@, name);
                match old(self)@.on_its_own(flush_fails, cut_fails) {
                    Some(next) => {
                        &&& step == Step::Again
                        &&& final(self)@ == (DriverView { plan: next, ..old(self)@ })
                    },
                    None => {
                        &&& final(self)@.asks(step)
                        &&& final(self)@ == old(self)@
                    },
                }
            }),
            final(flushes)@ == if old(self)@.plan.op == Op::FsyncFile && old(self)@.plan.kind
                == Kind::Append {
                fault::flushed(old(flushes)@, path::named(old(self)@.plan.dst))
            } else {
                old(flushes)@
            },
            final(cuts)@ == if old(self)@.plan.op == Op::TruncateBack {
                fault::flushed(old(cuts)@, path::named(old(self)@.plan.dst))
            } else {
                old(cuts)@
            },
    {
        proof {
            plan::lemma_plans_end(self@.plan, 0, self.eio as int);
        }
        let op: Op = match self.plan.next() {
            Ok(op) => op,
            Err(_) => Op::Failed,
        };
        match op {
            Op::Open => Step::Open {
                tmp: self.plan.kind() == Kind::Publish,
                mode: self.plan.tmp_mode(),
            },
            Op::Write => {
                let (parts, len): (Vec<RunPart>, u64) = tail_iovs(&self.runs, self.plan.written());
                if parts.len() == 0 {
                    let _ = self.plan.fail(self.eio);
                    return Step::Again;
                }
                let offset: u64 = self.plan.at() + self.plan.written();
                Step::Write { parts, offset, len }
            },
            Op::FsyncFile => {
                if self.plan.kind() == Kind::Append && flushes.take_failure(self.plan.dst()) {
                    let _ = self.plan.fail(self.eio);
                    return Step::Again;
                }
                if !self.sync {
                    let _ = self.plan.ok(0);
                    return Step::Again;
                }
                Step::FsyncFile
            },
            Op::CloseFile => {
                if !self.holding {
                    let _ = self.plan.ok(0);
                    return Step::Again;
                }
                Step::CloseFile
            },
            Op::StatDst => Step::StatDst,
            Op::Rename => Step::Rename,
            Op::FsyncDir => {
                if !self.sync {
                    let _ = self.plan.ok(0);
                    return Step::Again;
                }
                Step::FsyncDir
            },
            Op::TruncateBack => {
                if cuts.take_failure(self.plan.dst()) {
                    let _ = self.plan.fail(self.eio);
                    return Step::Again;
                }
                Step::Truncate(self.plan.at())
            },
            Op::Unlink => Step::Unlink,
            Op::Done => Step::Finished(self.outcome(true)),
            Op::Failed => Step::Finished(self.outcome(false)),
        }
    }

    /// How the plan came out.
    fn outcome(&self, done: bool) -> (o: Outcome)
        requires
            done == (self@.plan.op == Op::Done),
        ensures
            o == self@.outcome(),
    {
        let kind: Kind = self.plan.kind();
        Outcome {
            done,
            absent: self.absent,
            keep_file: done && kind == Kind::Create && self.holding,
            unlink_tmp: !done && self.opened && kind == Kind::Publish,
            report: if done && kind == Kind::Publish {
                Some(PublishReport { old_len: self.plan.old_len(), new_len: self.plan.total() })
            } else {
                None
            },
        }
    }

    /// Takes the outcome of the system call that [`PlanDriver::step`] asked for. `len` is the
    /// number of bytes of a write.
    ///
    /// A file that was opened counts as opened also when the plan refuses its inode, and a
    /// close gives the file up whatever comes of it.
    pub fn report(&mut self, report: Report, len: u64) -> (r: Result<(), DriveError>)
        requires
            old(self)@.inv(),
        ensures
            final(self)@.inv(),
            r is Ok <==> old(self)@.told(report, len as nat) is Some,
            r matches Err(e) ==> e == DriveError::Plan(PlanError::State),
            final(self)@ == old(self)@.after(report, len as nat),
    {
        proof {
            plan::lemma_plans_end(self@.plan, 0, 0);
        }
        let op: Op = match self.plan.next() {
            Ok(op) => op,
            Err(_) => Op::Failed,
        };
        if op == Op::CloseFile {
            self.holding = false;
        }
        let r: Result<(), PlanError> = match (op, report) {
            (Op::Open, Report::Opened(ino)) => {
                self.opened = true;
                self.holding = true;
                self.plan.ok(ino)
            },
            (Op::Write, Report::Completed) => self.plan.ok(len),
            (Op::FsyncFile, Report::Completed) => self.plan.ok(0),
            (Op::CloseFile, Report::Completed) => self.plan.ok(0),
            (Op::StatDst, Report::Length(n)) => self.plan.ok(n),
            (Op::Rename, Report::Completed) => self.plan.ok(0),
            (Op::FsyncDir, Report::Completed) => self.plan.ok(0),
            (Op::TruncateBack, Report::Completed) => self.plan.ok(0),
            (Op::Unlink, Report::Completed) => self.plan.ok(0),
            (Op::StatDst, Report::Absent) => self.plan.absent(),
            (Op::Unlink, Report::Absent) => {
                self.absent = true;
                self.plan.absent()
            },
            (_, Report::Failed(e)) => self.plan.fail(
                if e > 0 {
                    e
                } else {
                    self.eio
                },
            ),
            _ => Err(PlanError::State),
        };
        match r {
            Ok(_) => Ok(()),
            Err(e) => Err(DriveError::Plan(e)),
        }
    }
}

/// A plan that runs makes progress: what it does on its own, and what it is told, brings it
/// closer to its end.
pub proof fn lemma_driving_ends(d: DriverView, report: Report, len: nat, flush: bool, cut: bool)
    requires
        d.inv(),
    ensures
        d.on_its_own(flush, cut) matches Some(next) ==> next.inv() && next.steps_left()
            < d.plan.steps_left(),
        d.told(report, len) matches Some(next) ==> next.inv() && next.steps_left()
            < d.plan.steps_left(),
{
    plan::lemma_plans_end(d.plan, 0, d.eio as int);
    plan::lemma_plans_end(d.plan, len, d.eio as int);
    match report {
        Report::Opened(n) => plan::lemma_plans_end(d.plan, n as nat, 0),
        Report::Length(n) => plan::lemma_plans_end(d.plan, n as nat, 0),
        Report::Failed(e) => plan::lemma_plans_end(d.plan, 0, e as int),
        _ => {},
    }
}

/// What a driver does without a system call is to count a sync as done where syncs are off, and
/// the closing of a file that is not open; or to fail, for want of bytes or as scheduled. With
/// syncs on, every sync is asked for.
pub proof fn lemma_no_sync_is_skipped(d: DriverView, flush: bool, cut: bool)
    requires
        d.inv(),
    ensures
        match d.on_its_own(flush, cut) {
            Some(next) => {
                ||| next == d.plan.after_ok(0) && !d.sync && (d.plan.op == Op::FsyncFile || d.plan.op
                    == Op::FsyncDir)
                ||| next == d.plan.after_ok(0) && !d.holding && d.plan.op == Op::CloseFile
                ||| next == d.plan.after_err(d.eio as int) && d.plan.op == Op::Write
                    && d.plan.written >= run_bytes(d.runs).len()
                ||| next == d.plan.after_err(d.eio as int) && d.plan.op == Op::FsyncFile && flush
                    && d.plan.kind == Kind::Append
                ||| next == d.plan.after_err(d.eio as int) && d.plan.op == Op::TruncateBack && cut
            },
            None => {
                &&& d.plan.op == Op::Write ==> d.plan.written < run_bytes(d.runs).len()
                &&& d.plan.op == Op::FsyncFile || d.plan.op == Op::FsyncDir ==> d.sync
                &&& d.plan.op == Op::FsyncFile && d.plan.kind == Kind::Append ==> !flush
                &&& d.plan.op == Op::TruncateBack ==> !cut
            },
        },
{
}

/// How a plan came out is what its last operation says: a publication that is done reports its
/// lengths, a created file is handed over open, and a publication that failed leaves no
/// temporary file that it had opened.
pub proof fn lemma_how_a_plan_came_out(d: DriverView)
    requires
        d.inv(),
        d.plan.total <= u64::MAX,
    ensures
        d.outcome().done <==> d.plan.op == Op::Done,
        d.outcome().absent == d.absent,
        d.outcome().keep_file <==> d.plan.op == Op::Done && d.plan.kind == Kind::Create
            && d.holding,
        d.outcome().unlink_tmp <==> d.plan.op != Op::Done && d.plan.kind == Kind::Publish
            && d.opened,
        d.outcome().report is Some <==> d.plan.op == Op::Done && d.plan.kind == Kind::Publish,
        d.outcome().report matches Some(r) ==> r.new_len as nat == d.plan.total && (r.old_len is Some
            <==> d.plan.old_len is Some) && (r.old_len matches Some(n) ==> n
            == d.plan.old_len->0 as u64),
{
}

/// A plan moves only by a report on what it asked for: a write counts as many bytes as were
/// handed down, and a failure has the reason that was given, or else that of a failed transfer.
pub proof fn lemma_what_a_report_does(d: DriverView, report: Report, len: nat)
    requires
        d.inv(),
    ensures
        d.told(report, len) matches Some(next) ==> match report {
            Report::Opened(ino) => d.plan.op == Op::Open && next == d.plan.after_ok(ino as nat),
            Report::Length(n) => d.plan.op == Op::StatDst && next == d.plan.after_ok(n as nat),
            Report::Absent => (d.plan.op == Op::StatDst || d.plan.op == Op::Unlink) && next
                == d.plan.after_absent(),
            Report::Completed => d.plan.op != Op::Open && d.plan.op != Op::StatDst && next
                == d.plan.after_ok(
                if d.plan.op == Op::Write {
                    len
                } else {
                    0
                },
            ),
            Report::Failed(e) => next == d.plan.after_err(
                if e > 0 {
                    e as int
                } else {
                    d.eio as int
                },
            ),
        },
        report is Failed && d.plan.op != Op::Done && d.plan.op != Op::Failed ==> d.told(
            report,
            len,
        ) is Some,
        report == Report::Completed && d.plan.op == Op::Write && 0 < len && d.plan.written + len
            <= d.plan.total ==> d.told(report, len) is Some,
{
}

/// A file counts as opened from the report of its opening on, is held until it is closed, and
/// was absent once its removal found none; a report that does not fit leaves the plan as it is,
/// and none changes the bytes.
pub proof fn lemma_what_a_driver_remembers(d: DriverView, report: Report, len: nat)
    ensures
        ({
            let after = d.after(report, len);
            &&& after.runs == d.runs && after.sync == d.sync && after.eio == d.eio
            &&& d.opened ==> after.opened
            &&& after.opened && !d.opened ==> d.plan.op == Op::Open && report is Opened
            &&& d.plan.op == Op::Open && report is Opened ==> after.opened && after.holding
            &&& d.plan.op == Op::CloseFile ==> !after.holding
            &&& d.plan.op != Op::CloseFile && d.holding ==> after.holding
            &&& after.holding && !d.holding ==> d.plan.op == Op::Open
            &&& d.absent ==> after.absent
            &&& after.absent && !d.absent ==> d.plan.op == Op::Unlink && report == Report::Absent
            &&& d.plan.op == Op::Unlink && report == Report::Absent ==> after.absent
            &&& d.told(report, len) is None ==> after.plan == d.plan
            &&& d.told(report, len) matches Some(next) ==> after.plan == next
        }),
{
}

/// What is asked for is the operation that comes next, on the right file and at the right
/// place.
pub proof fn lemma_what_is_asked_for(d: DriverView, step: Step)
    requires
        d.inv(),
        d.asks(step),
    ensures
        match step {
            Step::Again => false,
            Step::Open { tmp, mode } => d.plan.op == Op::Open && mode == d.plan.mode && (tmp <==>
                d.plan.kind == Kind::Publish),
            Step::Write { parts, offset, len } => d.plan.op == Op::Write && offset == d.plan.at
                + d.plan.written && len == part_bytes(d.runs, parts@).len() && part_bytes(
                d.runs,
                parts@,
            ) == run_bytes(d.runs).skip(d.plan.written as int).take(len as int),
            Step::FsyncFile => d.plan.op == Op::FsyncFile,
            Step::CloseFile => d.plan.op == Op::CloseFile,
            Step::StatDst => d.plan.op == Op::StatDst,
            Step::Rename => d.plan.op == Op::Rename,
            Step::FsyncDir => d.plan.op == Op::FsyncDir,
            Step::Truncate(len) => d.plan.op == Op::TruncateBack && len == d.plan.at,
            Step::Unlink => d.plan.op == Op::Unlink,
            Step::Finished(outcome) => (d.plan.op == Op::Done || d.plan.op == Op::Failed)
                && outcome.done == (d.plan.op == Op::Done),
        },
{
    if let Step::Write { parts, .. } = step {
        lemma_a_write_goes_on_where_it_stopped(d.runs, d.plan.written, parts@);
    }
}

/// The temporary file of a publication that failed is removed only if it was opened: an open
/// that failed does not own the name.
pub proof fn lemma_only_its_own_file_is_removed(d: DriverView)
    ensures
        d.outcome().unlink_tmp ==> d.opened && d.plan.op != Op::Done && d.plan.kind
            == Kind::Publish,
{
}

} // verus!
