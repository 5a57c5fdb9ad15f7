//! The steps of a durable change to a file, one at a time.
//!
//! A plan names the next operation. Whoever performs it reports what came of it, and the plan
//! moves on. A report that does not fit changes nothing.

use vstd::prelude::*;

verus! {

/// The operation to perform next.
#[derive(Debug, Clone, Copy, PartialEq, Eq, Structural)]
pub enum Op {
    Open,
    Write,
    FsyncFile,
    CloseFile,
    StatDst,
    Rename,
    FsyncDir,
    TruncateBack,
    Unlink,
    Done,
    Failed,
}

/// What a plan is for.
#[derive(Debug, Clone, Copy, PartialEq, Eq, Structural)]
pub enum Kind {
    /// A new file under a temporary name, renamed over its destination.
    Publish,
    /// More bytes at the end of a file, which is cut back if they do not all get there.
    Append,
    /// A new file under its own name.
    Create,
    /// A file that goes away.
    Remove,
    /// A file that is cut back.
    Restore,
}

/// Whether a temporary or created file replaces what is at its path.
#[derive(Debug, Clone, Copy, PartialEq, Eq, Structural)]
pub enum TmpMode {
    /// Fail if the path exists: for names chosen to be unique.
    Excl,
    /// Truncate what is there: for a fixed temporary name, and for a file whose previous
    /// incarnation is to be discarded.
    Trunc,
}

/// Why a plan could not be made or a report not be taken.
#[derive(Debug, Clone, Copy, PartialEq, Eq, Structural)]
pub enum PlanError {
    /// The report does not fit the state of the plan.
    State,
    /// The path contains a NUL.
    Path,
}

impl PlanError {
    /// The error in words.
    pub fn message(&self) -> (s: String)
        ensures
            s@ == match self {
                PlanError::State => "report does not fit the plan's state"@,
                PlanError::Path => "path contains an interior NUL"@,
            },
    {
        match self {
            PlanError::State => "report does not fit the plan's state".to_owned(),
            PlanError::Path => "path contains an interior NUL".to_owned(),
        }
    }
}

/// A plan as its users see it.
#[verifier::ext_equal]
pub struct PlanView {
    pub kind: Kind,
    pub op: Op,
    pub mode: TmpMode,
    pub tmp: Seq<u8>,
    pub dst: Seq<u8>,
    /// Where in the file the bytes go, and where it is cut back to.
    pub at: nat,
    /// How many bytes are to be written.
    pub total: nat,
    /// How many of them were.
    pub written: nat,
    pub ino: nat,
    /// The length of what the destination held before.
    pub old_len: Option<nat>,
    /// Whether a failed append was cut back.
    pub restored: bool,
    /// Why the plan failed.
    pub os_error: int,
}

impl PlanView {
    pub open spec fn inv(self) -> bool {
        &&& self.written <= self.total
        &&& self.op == Op::Write ==> self.written < self.total
        &&& self.op != Op::Open && self.op != Op::Write && self.op != Op::TruncateBack && self.op
            != Op::Failed ==> self.written == self.total
        &&& match self.kind {
            Kind::Publish => self.op != Op::TruncateBack && self.op != Op::Unlink,
            Kind::Create => self.op == Op::Open || self.op == Op::Write || self.op == Op::FsyncFile
                || self.op == Op::FsyncDir || self.ended(),
            Kind::Append => self.op == Op::Write || self.op == Op::FsyncFile || self.op
                == Op::TruncateBack || self.ended(),
            Kind::Remove => self.total == 0 && (self.op == Op::Unlink || self.op == Op::FsyncDir
                || self.ended()),
            Kind::Restore => self.total == 0 && (self.op == Op::TruncateBack || self.ended()),
        }
    }

    /// Whether there is nothing left to do.
    pub open spec fn ended(self) -> bool {
        self.op == Op::Done || self.op == Op::Failed
    }

    /// The operation that comes once everything is in the file.
    pub open spec fn after_open(self) -> Op {
        if self.total == self.written {
            Op::FsyncFile
        } else {
            Op::Write
        }
    }

    /// Whether the report that the next operation completed, with `n`, fits.
    pub open spec fn takes_ok(self, n: nat) -> bool {
        match self.op {
            Op::Open => n > 0,
            Op::Write => 0 < n <= self.total - self.written,
            Op::Done => false,
            Op::Failed => false,
            _ => true,
        }
    }

    /// The plan after the next operation completed, with `n`.
    pub open spec fn after_ok(self, n: nat) -> PlanView {
        match self.op {
            Op::Open => PlanView { ino: n, op: self.after_open(), ..self },
            Op::Write => {
                let written = PlanView { written: self.written + n, ..self };
                PlanView { op: written.after_open(), ..written }
            },
            Op::FsyncFile => PlanView {
                op: match self.kind {
                    Kind::Publish => Op::CloseFile,
                    Kind::Create => Op::FsyncDir,
                    _ => Op::Done,
                },
                ..self
            },
            Op::CloseFile => PlanView { op: Op::StatDst, ..self },
            Op::StatDst => PlanView { op: Op::Rename, old_len: Some(n), ..self },
            Op::Rename => PlanView { op: Op::FsyncDir, ..self },
            Op::FsyncDir => PlanView { op: Op::Done, ..self },
            Op::TruncateBack => PlanView {
                op: if self.kind == Kind::Restore {
                    Op::Done
                } else {
                    Op::Failed
                },
                restored: true,
                ..self
            },
            Op::Unlink => PlanView { op: Op::FsyncDir, ..self },
            Op::Done => self,
            Op::Failed => self,
        }
    }

    /// The plan after the next operation failed. A failed append is cut back first, and keeps
    /// the first reason.
    pub open spec fn after_err(self, os_error: int) -> PlanView {
        if self.kind == Kind::Append {
            if self.op == Op::TruncateBack {
                PlanView { op: Op::Failed, ..self }
            } else {
                PlanView { op: Op::TruncateBack, os_error, ..self }
            }
        } else {
            PlanView { op: Op::Failed, os_error, ..self }
        }
    }

    /// Whether the report that there was no file fits.
    pub open spec fn takes_absent(self) -> bool {
        match self.kind {
            Kind::Publish => self.op == Op::StatDst,
            Kind::Remove => !self.ended(),
            _ => false,
        }
    }

    /// The plan after the next operation found no file.
    pub open spec fn after_absent(self) -> PlanView {
        if self.kind == Kind::Publish {
            PlanView { op: Op::Rename, old_len: None, ..self }
        } else {
            self.after_ok(0)
        }
    }

    /// How many operations can still follow, at most.
    pub open spec fn steps_left(self) -> nat {
        let unwritten = (self.total - self.written) as nat;
        match self.op {
            Op::Open => unwritten + 8,
            Op::Write => unwritten + 7,
            Op::FsyncFile => 7,
            Op::CloseFile => 6,
            Op::StatDst => 5,
            Op::Rename => 4,
            Op::Unlink => 4,
            Op::FsyncDir => 3,
            Op::TruncateBack => 2,
            Op::Done => 0,
            Op::Failed => 0,
        }
    }
}

/// A plan that has not begun.
pub open spec fn fresh(
    kind: Kind,
    op: Op,
    mode: TmpMode,
    tmp: Seq<u8>,
    dst: Seq<u8>,
    ino: nat,
    at: nat,
    total: nat,
) -> PlanView {
    PlanView {
        kind,
        op,
        mode,
        tmp,
        dst,
        at,
        total,
        written: 0,
        ino,
        old_len: None,
        restored: false,
        os_error: 0,
    }
}

/// Every report that fits brings a plan closer to its end.
pub proof fn lemma_plans_end(plan: PlanView, n: nat, os_error: int)
    requires
        plan.inv(),
    ensures
        plan.takes_ok(n) ==> plan.after_ok(n).inv() && plan.after_ok(n).steps_left()
            < plan.steps_left(),
        !plan.ended() ==> plan.after_err(os_error).inv() && plan.after_err(os_error).steps_left()
            < plan.steps_left(),
        plan.takes_absent() ==> plan.after_absent().inv() && plan.after_absent().steps_left()
            < plan.steps_left(),
{
}

/// A plan is only done after its last sync: the file of an append, the directory of a
/// publication, a creation or a removal.
pub proof fn lemma_done_follows_a_sync(plan: PlanView, n: nat)
    requires
        plan.inv(),
        plan.takes_ok(n),
        plan.after_ok(n).op == Op::Done,
    ensures
        match plan.kind {
            Kind::Append => plan.op == Op::FsyncFile && plan.written == plan.total,
            Kind::Restore => plan.op == Op::TruncateBack,
            _ => plan.op == Op::FsyncDir,
        },
{
}

/// Every operation of a plan follows on the one before it, and only once that completed: a
/// file is synced only when all its bytes are in it, renamed only when it is synced and closed
/// and the destination was looked at, and a directory is synced only for a name that was made,
/// replaced or removed. An operation that completed fails no plan, but for the cutting back of
/// an append that had failed.
pub proof fn lemma_what_an_operation_follows(plan: PlanView, n: nat)
    requires
        plan.inv(),
        plan.takes_ok(n),
    ensures
        ({
            let next = plan.after_ok(n);
            &&& match next.op {
                Op::Open => false,
                Op::Write => (plan.op == Op::Open || plan.op == Op::Write) && next.written
                    < next.total,
                Op::FsyncFile => (plan.op == Op::Open || plan.op == Op::Write) && next.written
                    == next.total,
                Op::CloseFile => plan.op == Op::FsyncFile && plan.kind == Kind::Publish,
                Op::StatDst => plan.op == Op::CloseFile,
                Op::Rename => plan.op == Op::StatDst && next.old_len == Some(n),
                Op::FsyncDir => match plan.kind {
                    Kind::Publish => plan.op == Op::Rename,
                    Kind::Create => plan.op == Op::FsyncFile,
                    Kind::Remove => plan.op == Op::Unlink,
                    _ => false,
                },
                Op::TruncateBack => false,
                Op::Unlink => false,
                Op::Done => match plan.kind {
                    Kind::Append => plan.op == Op::FsyncFile && plan.written == plan.total,
                    Kind::Restore => plan.op == Op::TruncateBack && next.restored,
                    _ => plan.op == Op::FsyncDir,
                },
                Op::Failed => plan.kind == Kind::Append && plan.op == Op::TruncateBack
                    && next.restored,
            }
            &&& next.written == plan.written + if plan.op == Op::Write {
                n
            } else {
                0
            }
            &&& next.kind == plan.kind && next.mode == plan.mode && next.tmp == plan.tmp && next.dst
                == plan.dst && next.at == plan.at && next.total == plan.total
            &&& next.os_error == plan.os_error
            &&& plan.op == Op::Open ==> next.ino == n
            &&& plan.op != Op::Open ==> next.ino == plan.ino
            &&& plan.op != Op::StatDst ==> next.old_len == plan.old_len
            &&& plan.op != Op::TruncateBack ==> next.restored == plan.restored
        }),
{
}

/// A plan that fails says why: with the first reason. Only an append is cut back first, once;
/// whether that worked does not change the reason. Nothing else about the plan changes.
pub proof fn lemma_how_a_plan_fails(plan: PlanView, os_error: int)
    requires
        plan.inv(),
        !plan.ended(),
    ensures
        ({
            let next = plan.after_err(os_error);
            let cutting = plan.kind == Kind::Append && plan.op != Op::TruncateBack;
            &&& next.op == if cutting {
                Op::TruncateBack
            } else {
                Op::Failed
            }
            &&& next.os_error == if plan.kind == Kind::Append && plan.op == Op::TruncateBack {
                plan.os_error
            } else {
                os_error
            }
            &&& next.restored == plan.restored && next.written == plan.written && next.total
                == plan.total && next.at == plan.at && next.kind == plan.kind && next.tmp == plan.tmp
                && next.dst == plan.dst && next.old_len == plan.old_len
        }),
{
}

/// A destination that is not there is no obstacle to a publication, and neither is one to a
/// removal; nothing else may find no file.
pub proof fn lemma_what_may_be_absent(plan: PlanView)
    requires
        plan.inv(),
    ensures
        plan.kind == Kind::Publish ==> (plan.takes_absent() <==> plan.op == Op::StatDst),
        plan.kind == Kind::Remove && plan.op == Op::Unlink ==> plan.takes_absent()
            && plan.after_absent().op == Op::FsyncDir,
        plan.kind == Kind::Remove ==> (plan.takes_absent() <==> plan.op == Op::Unlink || plan.op
            == Op::FsyncDir),
        plan.kind != Kind::Publish && plan.kind != Kind::Remove ==> !plan.takes_absent(),
        plan.kind == Kind::Publish && plan.takes_absent() ==> plan.after_absent().op == Op::Rename
            && plan.after_absent().old_len is None && plan.after_absent().written == plan.written,
{
}

/// A report that an operation completed fits as long as there is one to come: a write may be of
/// any part of what is left, and an open needs a file.
pub proof fn lemma_which_reports_fit(plan: PlanView, n: nat)
    requires
        plan.inv(),
    ensures
        plan.takes_ok(n) <==> plan.op != Op::Done && plan.op != Op::Failed && (plan.op == Op::Open
            ==> n > 0) && (plan.op == Op::Write ==> n > 0 && plan.written + n <= plan.total),
{
}

/// The start of a publication.
pub open spec fn publishing(tmp: Seq<u8>, dst: Seq<u8>, mode: TmpMode, total: nat) -> PlanView {
    fresh(Kind::Publish, Op::Open, mode, tmp, dst, 0, 0, total)
}

/// The start of an append.
pub open spec fn appending(path: Seq<u8>, ino: nat, at: nat, total: nat) -> PlanView {
    fresh(
        Kind::Append,
        if total == 0 {
            Op::FsyncFile
        } else {
            Op::Write
        },
        TmpMode::Excl,
        Seq::empty(),
        path,
        ino,
        at,
        total,
    )
}

/// The start of a creation.
pub open spec fn creating(dst: Seq<u8>, mode: TmpMode, total: nat) -> PlanView {
    fresh(Kind::Create, Op::Open, mode, Seq::empty(), dst, 0, 0, total)
}

/// The start of a removal.
pub open spec fn removing(dst: Seq<u8>) -> PlanView {
    fresh(Kind::Remove, Op::Unlink, TmpMode::Excl, Seq::empty(), dst, 0, 0, 0)
}

/// The start of a restoration.
pub open spec fn restoring(path: Seq<u8>, ino: nat, at: nat) -> PlanView {
    fresh(Kind::Restore, Op::TruncateBack, TmpMode::Excl, Seq::empty(), path, ino, at, 0)
}

/// `plan` once everything that is left to write is written, in `a` bytes and then the rest.
pub open spec fn all_written(plan: PlanView, a: nat) -> PlanView {
    if plan.op != Op::Write {
        plan
    } else if 0 < a < plan.total - plan.written {
        let some = plan.after_ok(a);
        some.after_ok((some.total - some.written) as nat)
    } else {
        plan.after_ok((plan.total - plan.written) as nat)
    }
}

/// A publication where all goes well: the new file is opened, written in full in whatever parts,
/// synced and closed; then the destination is looked at, replaced, and its directory synced. The
/// report has the length of what was replaced, or none where there was nothing.
pub proof fn lemma_how_a_publication_goes(
    tmp: Seq<u8>,
    dst: Seq<u8>,
    mode: TmpMode,
    total: nat,
    a: nat,
    ino: nat,
    len: Option<nat>,
)
    ensures
        ({
            let p0 = publishing(tmp, dst, mode, total);
            let p1 = all_written(p0.after_ok(ino), a);
            let p2 = p1.after_ok(0);
            let p3 = p2.after_ok(0);
            let p4 = match len {
                Some(n) => p3.after_ok(n),
                None => p3.after_absent(),
            };
            let p5 = p4.after_ok(0);
            let p6 = p5.after_ok(0);
            &&& p0.op == Op::Open && p0.tmp == tmp && p0.dst == dst && p0.mode == mode && p0.at == 0
            &&& p0.kind == Kind::Publish && p0.written == 0 && p0.old_len is None && !p0.restored
            &&& p1.op == Op::FsyncFile && p1.written == total && p1.ino == ino
            &&& p2.op == Op::CloseFile
            &&& p3.op == Op::StatDst
            &&& p4.op == Op::Rename
            &&& p5.op == Op::FsyncDir
            &&& p6.op == Op::Done && p6.old_len == len && p6.total == total && p6.tmp == tmp
                && p6.dst == dst && p6.written == total && p6.os_error == 0
        }),
{
}

/// An append, a creation, a removal and a restoration where all goes well. An append writes from
/// the end of the file on, and one that fails cuts the file back to where it began.
pub proof fn lemma_how_the_other_plans_go(
    path: Seq<u8>,
    mode: TmpMode,
    ino: nat,
    at: nat,
    total: nat,
    a: nat,
    os_error: int,
)
    ensures
        ({
            let p0 = appending(path, ino, at, total);
            let p1 = all_written(p0, a);
            let failed = p0.after_err(os_error);
            &&& total > 0 ==> p0.op == Op::Write
            &&& p0.at == at && p0.ino == ino && p0.dst == path && p0.written == 0
            &&& p0.kind == Kind::Append && p0.mode == TmpMode::Excl && p0.tmp.len() == 0
            &&& p1.op == Op::FsyncFile && p1.written == total
            &&& p1.after_ok(0).op == Op::Done
            &&& failed.op == Op::TruncateBack && failed.at == at
            &&& failed.after_ok(0).op == Op::Failed && failed.after_ok(0).restored
                && failed.after_ok(0).os_error == os_error
        }),
        ({
            let p0 = creating(path, mode, total);
            let p1 = all_written(p0.after_ok(ino), a);
            &&& p0.op == Op::Open && p0.mode == mode && p0.dst == path && p0.at == 0
            &&& p0.kind == Kind::Create && p0.written == 0 && p0.tmp.len() == 0
            &&& p1.op == Op::FsyncFile && p1.written == total && p1.ino == ino
            &&& p1.after_ok(0).op == Op::FsyncDir
            &&& p1.after_ok(0).after_ok(0).op == Op::Done
        }),
        ({
            let p0 = removing(path);
            &&& p0.op == Op::Unlink && p0.dst == path && p0.kind == Kind::Remove
            &&& p0.after_ok(0).op == Op::FsyncDir && p0.after_absent().op == Op::FsyncDir
            &&& p0.after_ok(0).after_ok(0).op == Op::Done
        }),
        ({
            let p0 = restoring(path, ino, at);
            &&& p0.op == Op::TruncateBack && p0.at == at && p0.dst == path && p0.ino == ino
            &&& p0.kind == Kind::Restore && p0.total == 0
            &&& p0.after_ok(0).op == Op::Done && p0.after_ok(0).restored
        }),
{
}

/// Whether a path contains a NUL.
pub open spec fn has_nul(path: Seq<u8>) -> bool {
    path.contains(0u8)
}

/// Copies a path, unless it contains a NUL.
fn checked(path: &[u8]) -> (r: Result<Vec<u8>, PlanError>)
    ensures
        match r {
            Ok(p) => !has_nul(path@) && p@ == path@,
            Err(e) => has_nul(path@) && e == PlanError::Path,
        },
{
    let mut out: Vec<u8> = Vec::new();
    let n: usize = path.len();
    let mut i: usize = 0;
    while i < n
        invariant
            i <= n == path@.len(),
            out@ == path@.take(i as int),
            forall|k: int| 0 <= k < i ==> path@[k] != 0,
        decreases n - i,
    {
        let b: u8 = path[i];
        if b == 0 {
            assert(path@[i as int] == 0u8);
            return Err(PlanError::Path);
        }
        out.push(b);
        assert(out@ =~= path@.take(i + 1));
        i = i + 1;
    }
    assert(path@.take(n as int) =~= path@);
    Ok(out)
}

/// `libc::EIO`, the error number of a failed transfer. Its value is that of the platform.
#[verifier::external_body]
pub(crate) fn transfer_error() -> (e: i32)
    ensures
        e != 0,
{
    libc::EIO
}

/// The steps of a durable change to a file.
#[derive(Debug)]
pub struct Plan {
    kind: Kind,
    op: Op,
    tmp_mode: TmpMode,
    tmp: Vec<u8>,
    dst: Vec<u8>,
    at: u64,
    total: u64,
    written: u64,
    ino: u64,
    old_len: Option<u64>,
    restored: bool,
    os_error: i32,
}

impl View for Plan {
    type V = PlanView;

    closed spec fn view(&self) -> PlanView {
        PlanView {
            kind: self.kind,
            op: self.op,
            mode: self.tmp_mode,
            tmp: self.tmp@,
            dst: self.dst@,
            at: self.at as nat,
            total: self.total as nat,
            written: self.written as nat,
            ino: self.ino as nat,
            old_len: match self.old_len {
                Some(n) => Some(n as nat),
                None => None,
            },
            restored: self.restored,
            os_error: self.os_error as int,
        }
    }
}

impl Plan {
    /// A plan that has not begun.
    fn blank(
        kind: Kind,
        op: Op,
        tmp_mode: TmpMode,
        tmp: Vec<u8>,
        dst: Vec<u8>,
        ino: u64,
        at: u64,
        total: u64,
    ) -> (plan: Plan)
        ensures
            plan@ == fresh(kind, op, tmp_mode, tmp@, dst@, ino as nat, at as nat, total as nat),
    {
        Plan {
            kind,
            op,
            tmp_mode,
            tmp,
            dst,
            at,
            total,
            written: 0,
            ino,
            old_len: None,
            restored: false,
            os_error: 0,
        }
    }

    /// Writes a file of `total` bytes under the name `tmp` and renames it to `dst`.
    pub fn publish(tmp: &[u8], dst: &[u8], mode: TmpMode, total: u64) -> (r: Result<
        Plan,
        PlanError,
    >)
        ensures
            match r {
                Ok(plan) => !has_nul(tmp@) && !has_nul(dst@) && plan@.inv() && plan@ == publishing(
                    tmp@,
                    dst@,
                    mode,
                    total as nat,
                ),
                Err(e) => (has_nul(tmp@) || has_nul(dst@)) && e == PlanError::Path,
            },
    {
        let tmp: Vec<u8> = match checked(tmp) {
            Ok(path) => path,
            Err(e) => {
                return Err(e);
            },
        };
        let dst: Vec<u8> = match checked(dst) {
            Ok(path) => path,
            Err(e) => {
                return Err(e);
            },
        };
        Ok(Plan::blank(Kind::Publish, Op::Open, mode, tmp, dst, 0, 0, total))
    }

    /// Writes `total` bytes at `at`, the end of the open file with the inode `ino`.
    pub fn append(path: &[u8], ino: u64, at: u64, total: u64) -> (r: Result<Plan, PlanError>)
        ensures
            match r {
                Ok(plan) => !has_nul(path@) && plan@.inv() && plan@ == appending(
                    path@,
                    ino as nat,
                    at as nat,
                    total as nat,
                ),
                Err(e) => has_nul(path@) && e == PlanError::Path,
            },
    {
        let op: Op = if total == 0 {
            Op::FsyncFile
        } else {
            Op::Write
        };
        match checked(path) {
            Ok(dst) => Ok(
                Plan::blank(Kind::Append, op, TmpMode::Excl, Vec::new(), dst, ino, at, total),
            ),
            Err(e) => Err(e),
        }
    }

    /// Writes a file of `total` bytes at `dst`.
    pub fn create(dst: &[u8], mode: TmpMode, total: u64) -> (r: Result<Plan, PlanError>)
        ensures
            match r {
                Ok(plan) => !has_nul(dst@) && plan@.inv() && plan@ == creating(
                    dst@,
                    mode,
                    total as nat,
                ),
                Err(e) => has_nul(dst@) && e == PlanError::Path,
            },
    {
        match checked(dst) {
            Ok(dst) => Ok(Plan::blank(Kind::Create, Op::Open, mode, Vec::new(), dst, 0, 0, total)),
            Err(e) => Err(e),
        }
    }

    /// Removes the file at `dst`.
    pub fn remove(dst: &[u8]) -> (r: Result<Plan, PlanError>)
        ensures
            match r {
                Ok(plan) => !has_nul(dst@) && plan@.inv() && plan@ == removing(dst@),
                Err(e) => has_nul(dst@) && e == PlanError::Path,
            },
    {
        match checked(dst) {
            Ok(dst) => Ok(
                Plan::blank(Kind::Remove, Op::Unlink, TmpMode::Excl, Vec::new(), dst, 0, 0, 0),
            ),
            Err(e) => Err(e),
        }
    }

    /// Cuts the open file with the inode `ino` back to `at` bytes.
    pub fn restore(path: &[u8], ino: u64, at: u64) -> (r: Result<Plan, PlanError>)
        ensures
            match r {
                Ok(plan) => !has_nul(path@) && plan@.inv() && plan@ == restoring(
                    path@,
                    ino as nat,
                    at as nat,
                ),
                Err(e) => has_nul(path@) && e == PlanError::Path,
            },
    {
        match checked(path) {
            Ok(dst) => Ok(
                Plan::blank(
                    Kind::Restore,
                    Op::TruncateBack,
                    TmpMode::Excl,
                    Vec::new(),
                    dst,
                    ino,
                    at,
                    0,
                ),
            ),
            Err(e) => Err(e),
        }
    }

    pub fn kind(&self) -> (k: Kind)
        ensures
            k == self@.kind,
    {
        self.kind
    }

    /// The operation to perform next.
    pub fn next(&self) -> (r: Result<Op, PlanError>)
        ensures
            r == Ok::<Op, PlanError>(self@.op),
    {
        Ok(self.op)
    }

    /// The next operation completed. `n` is the inode for [`Op::Open`], the bytes written for
    /// [`Op::Write`], the length for [`Op::StatDst`].
    pub fn ok(&mut self, n: u64) -> (r: Result<(), PlanError>)
        requires
            old(self)@.inv(),
        ensures
            final(self)@.inv(),
            match r {
                Ok(_) => old(self)@.takes_ok(n as nat) && final(self)@ == old(self)@.after_ok(
                    n as nat,
                ),
                Err(e) => !old(self)@.takes_ok(n as nat) && e == PlanError::State && *final(self)
                    == *old(self),
            },
    {
        proof {
            lemma_plans_end(self@, n as nat, 0);
        }
        match self.op {
            Op::Open => {
                if n == 0 {
                    return Err(PlanError::State);
                }
                self.ino = n;
                self.op = if self.written == self.total {
                    Op::FsyncFile
                } else {
                    Op::Write
                };
            },
            Op::Write => {
                if n == 0 || n > self.total - self.written {
                    return Err(PlanError::State);
                }
                self.written = self.written + n;
                self.op = if self.written == self.total {
                    Op::FsyncFile
                } else {
                    Op::Write
                };
            },
            Op::FsyncFile => {
                self.op = match self.kind {
                    Kind::Publish => Op::CloseFile,
                    Kind::Create => Op::FsyncDir,
                    _ => Op::Done,
                };
            },
            Op::CloseFile => {
                self.op = Op::StatDst;
            },
            Op::StatDst => {
                self.old_len = Some(n);
                self.op = Op::Rename;
            },
            Op::Rename => {
                self.op = Op::FsyncDir;
            },
            Op::FsyncDir => {
                self.op = Op::Done;
            },
            Op::TruncateBack => {
                self.restored = true;
                self.op = match self.kind {
                    Kind::Restore => Op::Done,
                    _ => Op::Failed,
                };
            },
            Op::Unlink => {
                self.op = Op::FsyncDir;
            },
            Op::Done => {
                return Err(PlanError::State);
            },
            Op::Failed => {
                return Err(PlanError::State);
            },
        }
        Ok(())
    }

    /// The next operation failed for the reason `os_error`.
    pub fn fail(&mut self, os_error: i32) -> (r: Result<(), PlanError>)
        requires
            old(self)@.inv(),
        ensures
            final(self)@.inv(),
            match r {
                Ok(_) => !old(self)@.ended() && final(self)@ == old(self)@.after_err(
                    os_error as int,
                ),
                Err(e) => old(self)@.ended() && e == PlanError::State && *final(self) == *old(
                    self
                ),
            },
    {
        proof {
            lemma_plans_end(self@, 0, os_error as int);
        }
        match self.op {
            Op::Done => {
                return Err(PlanError::State);
            },
            Op::Failed => {
                return Err(PlanError::State);
            },
            Op::TruncateBack => {
                if self.kind != Kind::Append {
                    self.os_error = os_error;
                }
                self.op = Op::Failed;
            },
            _ => {
                self.os_error = os_error;
                self.op = if self.kind == Kind::Append {
                    Op::TruncateBack
                } else {
                    Op::Failed
                };
            },
        }
        Ok(())
    }

    /// The next operation failed with `os_error`. What is not an error number counts as a
    /// failed transfer.
    pub fn err(&mut self, os_error: i32) -> (r: Result<(), PlanError>)
        requires
            old(self)@.inv(),
        ensures
            final(self)@.inv(),
            match r {
                Ok(_) => !old(self)@.ended() && exists|e: i32|
                    (os_error > 0 ==> e == os_error) && e != 0 && final(self)@ == #[trigger] old(
                        self
                    )@.after_err(e as int),
                Err(e) => old(self)@.ended() && e == PlanError::State && *final(self) == *old(
                    self
                ),
            },
    {
        let e: i32 = if os_error > 0 {
            os_error
        } else {
            transfer_error()
        };
        let ghost before = self@;
        let r: Result<(), PlanError> = self.fail(e);
        proof {
            if r is Ok {
                assert(self@ == before.after_err(e as int));
            }
        }
        r
    }

    /// [`Op::StatDst`] or [`Op::Unlink`] found no file at the path.
    pub fn absent(&mut self) -> (r: Result<(), PlanError>)
        requires
            old(self)@.inv(),
        ensures
            final(self)@.inv(),
            match r {
                Ok(_) => old(self)@.takes_absent() && final(self)@ == old(self)@.after_absent(),
                Err(e) => !old(self)@.takes_absent() && e == PlanError::State && *final(self)
                    == *old(self),
            },
    {
        match self.kind {
            Kind::Publish => {
                if self.op != Op::StatDst {
                    return Err(PlanError::State);
                }
                self.old_len = None;
                self.op = Op::Rename;
                Ok(())
            },
            Kind::Remove => self.ok(0),
            _ => Err(PlanError::State),
        }
    }

    /// The temporary name.
    pub fn tmp(&self) -> (path: &[u8])
        ensures
            path@ == self@.tmp,
    {
        self.tmp.as_slice()
    }

    /// The destination.
    pub fn dst(&self) -> (path: &[u8])
        ensures
            path@ == self@.dst,
    {
        self.dst.as_slice()
    }

    pub fn tmp_mode(&self) -> (mode: TmpMode)
        ensures
            mode == self@.mode,
    {
        self.tmp_mode
    }

    pub fn at(&self) -> (n: u64)
        ensures
            n as nat == self@.at,
    {
        self.at
    }

    pub fn total(&self) -> (n: u64)
        ensures
            n as nat == self@.total,
    {
        self.total
    }

    pub fn written(&self) -> (n: u64)
        ensures
            n as nat == self@.written,
    {
        self.written
    }

    /// The length of what the destination held, where there was something.
    pub fn old_len(&self) -> (r: Option<u64>)
        ensures
            match r {
                Some(n) => self@.old_len == Some(n as nat),
                None => self@.old_len is None,
            },
    {
        self.old_len
    }

    /// Whether a failed append was cut back.
    pub fn restored(&self) -> (b: bool)
        ensures
            b == self@.restored,
    {
        self.restored
    }

    /// Why the plan failed.
    pub fn os_error(&self) -> (e: i32)
        ensures
            e as int == self@.os_error,
    {
        self.os_error
    }
}

} // verus!
