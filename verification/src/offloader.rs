//! Copying finished files to a remote store: what counts as copied, and when to try again.

use vstd::prelude::*;
use vstd::string::StringExecFns;

use crate::text;
use crate::uintn::UintN;

verus! {

/// The status of a put that succeeded.
pub const PUT_OK: u16 = 200;

/// Why a file was not copied.
#[derive(Debug, PartialEq, Eq)]
pub enum OffloadError {
    /// The local file cannot be read. Trying again does not help.
    LocalFileError(String),
    /// The remote store failed. Trying again may help.
    RemoteError(String),
}

/// What kind of failure an access to a local file had.
#[derive(Debug, Clone, Copy, PartialEq, Eq, Structural)]
pub enum IoKind {
    NotFound,
    PermissionDenied,
    Other,
}

impl OffloadError {
    /// What a failed access to a local file means. A file that is not there, or may not be
    /// read, stays so; anything else may pass.
    pub fn from_io(kind: IoKind, message: String) -> (e: OffloadError)
        ensures
            e == match kind {
                IoKind::Other => OffloadError::RemoteError(message),
                _ => OffloadError::LocalFileError(message),
            },
    {
        match kind {
            IoKind::Other => OffloadError::RemoteError(message),
            _ => OffloadError::LocalFileError(message),
        }
    }

    /// The error in words.
    pub fn message(&self) -> (s: String)
        ensures
            s@ == match self {
                OffloadError::LocalFileError(m) => "Local file error: "@ + m@,
                OffloadError::RemoteError(m) => "Remote error: "@ + m@,
            },
    {
        match self {
            OffloadError::LocalFileError(m) => "Local file error: ".to_owned().concat(m.as_str()),
            OffloadError::RemoteError(m) => "Remote error: ".to_owned().concat(m.as_str()),
        }
    }
}

/// Checks the status of a put.
pub fn check_put(status_code: u16) -> (r: Result<(), OffloadError>)
    ensures
        match r {
            Ok(_) => status_code == PUT_OK,
            Err(OffloadError::RemoteError(m)) => status_code != PUT_OK && m@
                == "Failed to upload to S3, response code: "@ + text::decimal(status_code as nat),
            Err(_) => false,
        },
{
    if status_code == PUT_OK {
        return Ok(());
    }
    let mut m: String = "Failed to upload to S3, response code: ".to_owned();
    text::push_decimal(&mut m, status_code as u64);
    Err(OffloadError::RemoteError(m))
}

/// Checks, after a put of `local` bytes at `key`, that the object is there in full.
pub fn check_stored(key: &str, local: u64, remote: Option<u64>) -> (r: Result<(), OffloadError>)
    ensures
        match r {
            Ok(_) => remote == Some(local),
            Err(OffloadError::RemoteError(m)) => match remote {
                None => m@ == "Not found after upload: "@ + key@,
                Some(size) => size != local && m@ == "Size mismatch after upload: local="@
                    + text::decimal(local as nat) + ", s3="@ + text::decimal(size as nat),
            },
            Err(_) => false,
        },
{
    match remote {
        None => {
            let m: String = "Not found after upload: ".to_owned().concat(key);
            Err(OffloadError::RemoteError(m))
        },
        Some(size) => {
            if size == local {
                return Ok(());
            }
            let mut m: String = "Size mismatch after upload: local=".to_owned();
            text::push_decimal(&mut m, local);
            m.append(", s3=");
            text::push_decimal(&mut m, size);
            Err(OffloadError::RemoteError(m))
        },
    }
}

/// Whether a local file of `local` bytes is already in the remote store.
pub fn is_copied(local: u64, remote: Option<u64>) -> (b: bool)
    ensures
        b == (remote == Some(local)),
{
    match remote {
        Some(size) => size == local,
        None => false,
    }
}

/// What came of looking whether a file is copied.
#[derive(Debug, Clone, Copy, PartialEq, Eq, Structural)]
pub enum Checked {
    Copied,
    Missing,
    /// The local file cannot be read.
    LocalFailure,
    /// The remote store failed.
    RemoteFailure,
}

/// What came of copying a file.
#[derive(Debug, Clone, Copy, PartialEq, Eq, Structural)]
pub enum Uploaded {
    Copied,
    /// The local file cannot be read.
    LocalFailure,
    /// The remote store failed.
    RemoteFailure,
}

/// What to do next about a file.
#[derive(Debug, Clone, Copy, PartialEq, Eq, Structural)]
pub enum OffloadStep {
    /// Copy it.
    Upload,
    /// Wait, and then look again whether it is copied.
    Retry,
    /// It is copied: take the next file.
    Finished,
    /// It cannot be read: take the next file.
    Skipped,
}

/// The larger of two ids, where there are any.
pub open spec fn later(latest: Option<nat>, id: nat) -> nat {
    match latest {
        Some(l) => if id > l {
            id
        } else {
            l
        },
        None => id,
    }
}

/// What to do about a file, after looking whether it is copied.
pub open spec fn after_check(checked: Checked) -> OffloadStep {
    match checked {
        Checked::Copied => OffloadStep::Finished,
        Checked::Missing => OffloadStep::Upload,
        Checked::LocalFailure => OffloadStep::Skipped,
        Checked::RemoteFailure => OffloadStep::Retry,
    }
}

/// What to do about a file, after copying it.
pub open spec fn after_upload(uploaded: Uploaded) -> OffloadStep {
    match uploaded {
        Uploaded::Copied => OffloadStep::Finished,
        Uploaded::LocalFailure => OffloadStep::Skipped,
        Uploaded::RemoteFailure => OffloadStep::Retry,
    }
}

/// The latest file that is copied, after a step about the file `id`.
pub open spec fn noted(latest: Option<nat>, id: nat, step: OffloadStep) -> Option<nat> {
    if step == OffloadStep::Finished {
        Some(later(latest, id))
    } else {
        latest
    }
}

/// A file is finished exactly once it is copied, and only then does it count as copied. It is
/// uploaded only if it is missing, given up only if it cannot be read, and tried again only if
/// the remote store failed.
pub proof fn lemma_only_what_is_copied_is_finished(
    latest: Option<nat>,
    id: nat,
    checked: Checked,
    uploaded: Uploaded,
)
    ensures
        after_check(checked) == OffloadStep::Finished <==> checked == Checked::Copied,
        after_check(checked) == OffloadStep::Upload <==> checked == Checked::Missing,
        after_check(checked) == OffloadStep::Skipped <==> checked == Checked::LocalFailure,
        after_check(checked) == OffloadStep::Retry <==> checked == Checked::RemoteFailure,
        after_upload(uploaded) == OffloadStep::Finished <==> uploaded == Uploaded::Copied,
        after_upload(uploaded) == OffloadStep::Skipped <==> uploaded == Uploaded::LocalFailure,
        after_upload(uploaded) == OffloadStep::Retry <==> uploaded == Uploaded::RemoteFailure,
        checked != Checked::Copied ==> noted(latest, id, after_check(checked)) == latest,
        uploaded != Uploaded::Copied ==> noted(latest, id, after_upload(uploaded)) == latest,
        checked == Checked::Copied ==> (noted(latest, id, after_check(checked)) matches Some(l) && l
            >= id && (l == id || latest == Some(l)) && (latest matches Some(before) ==> l >= before)),
        uploaded == Uploaded::Copied ==> noted(latest, id, after_upload(uploaded)) == noted(
            latest,
            id,
            OffloadStep::Finished,
        ),
{
}

/// The copying of the files of a queue.
pub struct OffloadState {
    latest: Option<UintN>,
}

impl View for OffloadState {
    type V = Option<nat>;

    /// The latest file that is copied.
    closed spec fn view(&self) -> Option<nat> {
        match self.latest {
            Some(id) => Some(id@),
            None => None,
        }
    }
}

impl OffloadState {
    pub fn new() -> (s: OffloadState)
        ensures
            s@ is None,
    {
        OffloadState { latest: None }
    }

    /// The latest file that is copied.
    pub fn get_latest_offloaded_id(&self) -> (r: Option<UintN>)
        ensures
            match r {
                Some(id) => self@ == Some(id@),
                None => self@ is None,
            },
    {
        match &self.latest {
            Some(id) => Some(id.clone()),
            None => None,
        }
    }

    /// Notes that `file_id` is copied. Files may finish out of order.
    fn note(&mut self, file_id: &UintN)
        ensures
            final(self)@ == Some(later(old(self)@, file_id@)),
    {
        let newer: bool = match &self.latest {
            Some(latest) => latest.is_below(file_id),
            None => true,
        };
        if newer {
            self.latest = Some(file_id.clone());
        }
    }

    /// What to do about `file_id`, after looking whether it is copied.
    pub fn checked(&mut self, file_id: &UintN, checked: Checked) -> (step: OffloadStep)
        ensures
            step == after_check(checked),
            final(self)@ == noted(old(self)@, file_id@, step),
    {
        match checked {
            Checked::Copied => {
                self.note(file_id);
                OffloadStep::Finished
            },
            Checked::Missing => OffloadStep::Upload,
            Checked::LocalFailure => OffloadStep::Skipped,
            Checked::RemoteFailure => OffloadStep::Retry,
        }
    }

    /// What to do about `file_id`, after copying it.
    pub fn uploaded(&mut self, file_id: &UintN, uploaded: Uploaded) -> (step: OffloadStep)
        ensures
            step == after_upload(uploaded),
            final(self)@ == noted(old(self)@, file_id@, step),
    {
        match uploaded {
            Uploaded::Copied => {
                self.note(file_id);
                OffloadStep::Finished
            },
            Uploaded::LocalFailure => OffloadStep::Skipped,
            Uploaded::RemoteFailure => OffloadStep::Retry,
        }
    }
}

/// The latest file that is copied never goes back.
pub proof fn lemma_latest_only_grows(latest: Option<nat>, id: nat)
    ensures
        later(latest, id) >= id,
        latest matches Some(l) ==> later(latest, id) >= l,
{
}

/// The latest file is the one before or the one that was just copied, and not below either.
pub proof fn lemma_latest_was_copied(latest: Option<nat>, id: nat)
    ensures
        later(latest, id) == id || latest == Some(later(latest, id)),
        later(latest, id) >= id,
        latest matches Some(l) ==> later(latest, id) >= l,
{
}

/// The latest file once all of `ids` were copied, in this order.
pub open spec fn latest_of(ids: Seq<nat>) -> Option<nat>
    decreases ids.len(),
{
    if ids.len() == 0 {
        None
    } else {
        Some(later(latest_of(ids.drop_last()), ids.last()))
    }
}

/// The latest file is one of those that were copied, in whatever order they were, and none of
/// them is above it.
pub proof fn lemma_latest_is_the_highest(ids: Seq<nat>)
    ensures
        ids.len() == 0 <==> latest_of(ids) is None,
        latest_of(ids) matches Some(l) ==> ids.contains(l) && forall|i: int|
            0 <= i < ids.len() ==> #[trigger] ids[i] <= l,
    decreases ids.len(),
{
    if ids.len() > 0 {
        let head = ids.drop_last();
        lemma_latest_is_the_highest(head);
        let l = latest_of(ids)->0;
        assert(ids[ids.len() - 1] == ids.last());
        if head.len() > 0 && l == latest_of(head)->0 {
            let i = head.index_of(l);
            assert(ids[i] == l);
        }
        assert forall|i: int| 0 <= i < ids.len() implies #[trigger] ids[i] <= l by {
            if i < head.len() {
                assert(ids[i] == head[i]);
            }
        }
    }
}

/// The id that follows `id` in a range that ends at `last`.
pub open spec fn following(id: nat, last: nat) -> Option<nat> {
    if id == last {
        None
    } else {
        Some(id + 1)
    }
}

/// The ids that are taken of a range, from its next one on.
pub open spec fn taken(current: Option<nat>, last: nat) -> Seq<nat>
    decreases
        match current {
            Some(id) => last - id + 1,
            None => 0int,
        },
{
    match current {
        Some(id) => if id <= last {
            seq![id] + match following(id, last) {
                Some(next) => if next > id {
                    taken(Some(next), last)
                } else {
                    Seq::empty()
                },
                None => Seq::empty(),
            }
        } else {
            Seq::empty()
        },
        None => Seq::empty(),
    }
}

/// Every id of a range is taken, from its first to its last, each once and in order.
pub proof fn lemma_every_id_is_taken(first: nat, last: nat)
    requires
        first <= last,
    ensures
        taken(Some(first), last).len() == last - first + 1,
        forall|i: int|
            0 <= i <= last - first ==> #[trigger] taken(Some(first), last)[i] == first + i,
    decreases last - first,
{
    if first < last {
        lemma_every_id_is_taken(first + 1, last);
        assert(taken(Some(first), last) =~= seq![first] + taken(Some(first + 1), last));
    } else {
        assert(taken(Some(first), last) =~= seq![first]);
    }
}

/// The ids of a range, one after the other.
pub struct IdRange {
    current: Option<UintN>,
    last: UintN,
}

impl IdRange {
    /// The next id, until the range is through.
    pub closed spec fn current(&self) -> Option<nat> {
        match self.current {
            Some(id) => Some(id@),
            None => None,
        }
    }

    pub closed spec fn last(&self) -> nat {
        self.last@
    }

    /// The ids from `first` to `last`.
    pub fn new(first: UintN, last: UintN) -> (r: IdRange)
        requires
            first@ <= last@,
        ensures
            r.current() == Some(first@),
            r.last() == last@,
    {
        IdRange { current: Some(first), last }
    }

    /// Takes the next id.
    pub fn take(&mut self) -> (r: Option<UintN>)
        requires
            old(self).current() matches Some(id) ==> id <= old(self).last(),
        ensures
            final(self).last() == old(self).last(),
            final(self).current() matches Some(id) ==> id <= final(self).last(),
            match r {
                Some(id) => old(self).current() == Some(id@) && final(self).current() == following(
                    id@,
                    old(self).last(),
                ),
                None => old(self).current() is None && final(self).current() is None,
            },
    {
        let mut taken: Option<UintN> = None;
        std::mem::swap(&mut taken, &mut self.current);
        match taken {
            Some(id) => {
                if id.is_below(&self.last) {
                    self.current = Some(id.increment());
                }
                Some(id)
            },
            None => None,
        }
    }
}

} // verus!
