//! Making directories that last: each is created, and then it and its name are synced.
//!
//! A directory is registered before it is created, and stays registered until both syncs are
//! done: then it has settled. Whoever finds it there in between completes them first, and
//! whoever asks for it afterwards begins anew.

use vstd::prelude::*;

use crate::byte_map::ByteMap;
use crate::fs::path;
use crate::fs::plan;

verus! {

/// Paths of this length and more cannot be synced.
pub const MAX_PATH_LEN: usize = 4096;

/// How far a directory has come.
#[derive(Debug, Clone, Copy, PartialEq, Eq, Structural)]
pub enum Stage {
    /// It is not created.
    Reserved,
    /// It is created.
    Created,
    /// It is created and synced; its name is not.
    Synced,
}

/// A directory that is being made, and how many are waiting for it.
#[derive(Debug, Clone, Copy, PartialEq, Eq, Structural)]
pub struct PendingDir {
    pub stage: Stage,
    pub waiters: u64,
    /// What those who wait for it hold. It tells them from those who waited for a directory
    /// of the same name that was made before.
    pub ticket: u64,
}

/// The directories that are being made, as their users see them.
#[verifier::ext_equal]
pub struct DirsView {
    pub dirs: Map<Seq<u8>, PendingDir>,
    /// The ticket of the next directory.
    pub next: nat,
}

/// The directories that are being made.
pub struct PendingDirs {
    dirs: ByteMap<PendingDir>,
    next: u64,
}

impl View for PendingDirs {
    type V = DirsView;

    closed spec fn view(&self) -> DirsView {
        DirsView { dirs: self.dirs@, next: self.next as nat }
    }
}

impl DirsView {
    /// Every ticket was given out before.
    pub open spec fn inv(self) -> bool {
        forall|path: Seq<u8>|
            self.dirs.contains_key(path) ==> (#[trigger] self.dirs[path]).ticket < self.next
    }

    /// Whether the directory at `path` that the ticket is for is still being made. One that is
    /// not has settled.
    pub open spec fn pending(self, path: Seq<u8>, ticket: u64) -> bool {
        self.dirs.contains_key(path) && self.dirs[path].ticket == ticket
    }

    /// The directories with `path` in another state.
    pub open spec fn with(self, path: Seq<u8>, dir: PendingDir) -> DirsView {
        DirsView { dirs: self.dirs.insert(path, dir), ..self }
    }

    /// The directories without `path`.
    pub open spec fn without(self, path: Seq<u8>) -> DirsView {
        DirsView { dirs: self.dirs.remove(path), ..self }
    }

    /// The directories once `path`, which is being made, has one waiter more.
    pub open spec fn joined(self, path: Seq<u8>) -> DirsView {
        let dir = self.dirs[path];
        self.with(path, PendingDir { waiters: (dir.waiters + 1) as u64, ..dir })
    }

    /// The directories once `path` is reserved: one that is being made has one waiter more,
    /// and any other begins anew.
    pub open spec fn reserved(self, path: Seq<u8>) -> DirsView {
        if self.dirs.contains_key(path) {
            self.joined(path)
        } else {
            DirsView {
                dirs: self.dirs.insert(
                    path,
                    PendingDir { stage: Stage::Reserved, waiters: 1, ticket: self.next as u64 },
                ),
                next: self.next + 1,
            }
        }
    }

    /// The directories once `path`, which is being made, has one waiter fewer. The last one
    /// discards what was never created; a directory that still has to be synced stays.
    pub open spec fn left(self, path: Seq<u8>) -> DirsView {
        let dir = self.dirs[path];
        if dir.waiters <= 1 && dir.stage == Stage::Reserved {
            self.without(path)
        } else {
            self.with(
                path,
                PendingDir {
                    waiters: if dir.waiters == 0 {
                        0
                    } else {
                        (dir.waiters - 1) as u64
                    },
                    ..dir
                },
            )
        }
    }

    /// The directories once `path`, which is being made, is at another stage. One that has
    /// settled is not being made any more.
    pub open spec fn moved(self, path: Seq<u8>, stage: Option<Stage>) -> DirsView {
        match stage {
            Some(stage) => self.with(path, PendingDir { stage, ..self.dirs[path] }),
            None => self.without(path),
        }
    }

    /// Whether one more can wait for `path`.
    pub open spec fn has_room(self, path: Seq<u8>) -> bool {
        if self.dirs.contains_key(path) {
            self.dirs[path].waiters < u64::MAX
        } else {
            self.next < u64::MAX
        }
    }

    /// Whether a directory exists that still has to be synced.
    pub open spec fn unsynced(self, path: Seq<u8>) -> bool {
        self.dirs.contains_key(path) && self.dirs[path].stage != Stage::Reserved
    }
}

/// A directory that still has to be synced is not forgotten, whoever gives up on it.
pub proof fn lemma_unsynced_stays(dirs: DirsView, path: Seq<u8>, other: Seq<u8>)
    requires
        dirs.unsynced(path),
    ensures
        dirs.dirs.contains_key(other) ==> dirs.left(other).unsynced(path),
        dirs.reserved(other).unsynced(path),
{
}

/// Whoever waited for a directory that has settled finds it settled from then on, though one
/// of the same name is made again.
pub proof fn lemma_settled_stays(
    dirs: DirsView,
    path: Seq<u8>,
    ticket: u64,
    other: Seq<u8>,
    stage: Option<Stage>,
)
    requires
        dirs.inv(),
        ticket < dirs.next,
        dirs.has_room(other),
        !dirs.pending(path, ticket),
    ensures
        ticket < dirs.reserved(other).next,
        !dirs.reserved(other).pending(path, ticket),
        dirs.dirs.contains_key(other) ==> !dirs.left(other).pending(path, ticket),
        dirs.dirs.contains_key(other) ==> !dirs.moved(other, stage).pending(path, ticket),
{
}

/// A directory that is reserved once it has settled is created again.
pub proof fn lemma_settled_begins_anew(dirs: DirsView, path: Seq<u8>)
    ensures
        ({
            let again = dirs.moved(path, None).reserved(path);
            &&& again.dirs[path].stage == Stage::Reserved
            &&& again.dirs[path].waiters == 1
        }),
{
}

/// What came of creating a directory.
#[derive(Debug, Clone, Copy, PartialEq, Eq, Structural)]
pub enum Creation {
    Created,
    /// There is a directory already.
    Exists,
    /// It failed with this error number.
    Failed(i32),
}

/// Why a directory could not be made.
#[derive(Debug, Clone, Copy, PartialEq, Eq, Structural)]
pub enum DirError {
    /// Something else is at the path.
    NotADirectory,
    /// The path has no last name that could be created.
    NoName,
    /// The path contains a NUL.
    Nul,
    /// The path is too long to be synced.
    TooLong,
    /// A system call failed with this error number.
    Os(i32),
}

/// What to do next to finish a directory.
#[derive(Debug, Clone, Copy, PartialEq, Eq, Structural)]
pub enum FinishStep {
    /// Create it.
    Create,
    /// Sync it.
    SyncDir,
    /// Sync the directory that its name is in.
    SyncParent,
    /// It is finished.
    Done,
    /// It cannot be finished.
    Failed(DirError),
}

/// What is wrong with a path that is to be synced.
pub open spec fn path_error(path: Seq<u8>) -> Option<DirError> {
    if plan::has_nul(path) {
        Some(DirError::Nul)
    } else if path.len() >= MAX_PATH_LEN {
        Some(DirError::TooLong)
    } else {
        None
    }
}

/// What comes next for a directory at `stage`, or for one that has settled.
pub open spec fn next_step(path: Seq<u8>, stage: Option<Stage>) -> FinishStep {
    match stage {
        None => FinishStep::Done,
        Some(Stage::Reserved) => FinishStep::Create,
        Some(stage) => match path_error(path) {
            Some(e) => FinishStep::Failed(e),
            None => if stage == Stage::Created {
                FinishStep::SyncDir
            } else {
                FinishStep::SyncParent
            },
        },
    }
}

/// A directory is created, synced, and its name synced, in this order and each once; then it has
/// settled. Only a path that cannot be synced stops it.
pub proof fn lemma_how_a_directory_is_finished(path: Seq<u8>)
    ensures
        next_step(path, Some(Stage::Reserved)) == FinishStep::Create,
        !path.contains(0u8) && path.len() < 4096 ==> next_step(path, Some(Stage::Created))
            == FinishStep::SyncDir && next_step(path, Some(Stage::Synced)) == FinishStep::SyncParent,
        path.contains(0u8) ==> next_step(path, Some(Stage::Created)) == FinishStep::Failed(
            DirError::Nul,
        ) && next_step(path, Some(Stage::Synced)) == FinishStep::Failed(DirError::Nul),
        !path.contains(0u8) && path.len() >= 4096 ==> next_step(path, Some(Stage::Created))
            == FinishStep::Failed(DirError::TooLong) && next_step(path, Some(Stage::Synced))
            == FinishStep::Failed(DirError::TooLong),
        next_step(path, None) == FinishStep::Done,
{
}

/// The stage after a sync that worked; none once the directory has settled.
pub open spec fn after_sync(stage: Stage) -> Option<Stage> {
    if stage == Stage::Created {
        Some(Stage::Synced)
    } else {
        None
    }
}

/// A directory that was created has settled after two syncs, first its own and then that of its
/// name, and not before.
pub proof fn lemma_a_directory_settles_after_two_syncs(path: Seq<u8>)
    requires
        !path.contains(0u8),
        path.len() < 4096,
    ensures
        next_step(path, Some(Stage::Created)) == FinishStep::SyncDir,
        after_sync(Stage::Created) is Some,
        next_step(path, after_sync(Stage::Created)) == FinishStep::SyncParent,
        after_sync(after_sync(Stage::Created)->0) is None,
        next_step(path, after_sync(after_sync(Stage::Created)->0)) == FinishStep::Done,
{
}

/// There is room for one more who waits as long as they can be counted, and for one more
/// directory as long as there are tickets; the first to wait for a directory is the only one,
/// and has a ticket that no other has.
pub proof fn lemma_who_may_wait(dirs: DirsView, path: Seq<u8>, other: Seq<u8>)
    requires
        dirs.inv(),
    ensures
        dirs.dirs.contains_key(path) ==> (dirs.has_room(path) <==> dirs.dirs[path].waiters + 1
            <= u64::MAX),
        !dirs.dirs.contains_key(path) ==> (dirs.has_room(path) <==> dirs.next + 1 <= u64::MAX),
        dirs.has_room(path) && !dirs.dirs.contains_key(path) ==> {
            let after = dirs.reserved(path);
            &&& after.dirs.contains_key(path)
            &&& after.dirs[path].waiters == 1
            &&& after.dirs[path].stage == Stage::Reserved
            &&& after.next == dirs.next + 1
            &&& dirs.dirs.contains_key(other) ==> after.dirs[other] == dirs.dirs[other]
                && after.dirs[other].ticket != after.dirs[path].ticket
        },
        dirs.unsynced(path) <==> dirs.dirs.contains_key(path) && (dirs.dirs[path].stage
            == Stage::Created || dirs.dirs[path].stage == Stage::Synced),
{
}

/// One more or one fewer who waits, and how far a directory is, changes nothing about other
/// directories; the last who gives up on one that was never created discards it.
pub proof fn lemma_directories_do_not_mix(
    dirs: DirsView,
    path: Seq<u8>,
    other: Seq<u8>,
    stage: Option<Stage>,
)
    requires
        dirs.dirs.contains_key(path),
        other != path,
        dirs.dirs[path].waiters < u64::MAX,
    ensures
        dirs.joined(path).dirs.contains_key(other) == dirs.dirs.contains_key(other),
        dirs.left(path).dirs.contains_key(other) == dirs.dirs.contains_key(other),
        dirs.moved(path, stage).dirs.contains_key(other) == dirs.dirs.contains_key(other),
        dirs.dirs.contains_key(other) ==> dirs.joined(path).dirs[other] == dirs.dirs[other]
            && dirs.left(path).dirs[other] == dirs.dirs[other] && dirs.moved(path, stage).dirs[other]
            == dirs.dirs[other],
        dirs.joined(path).dirs[path].waiters == dirs.dirs[path].waiters + 1,
        dirs.joined(path).dirs[path].stage == dirs.dirs[path].stage,
        dirs.joined(path).dirs[path].ticket == dirs.dirs[path].ticket,
        dirs.dirs[path].waiters > 1 ==> dirs.left(path).dirs.contains_key(path) && dirs.left(
            path,
        ).dirs[path].waiters == dirs.dirs[path].waiters - 1 && dirs.left(path).dirs[path].stage
            == dirs.dirs[path].stage,
        dirs.dirs[path].waiters <= 1 && dirs.dirs[path].stage != Stage::Reserved ==> dirs.left(
            path,
        ).dirs[path] == (PendingDir { waiters: 0, ..dirs.dirs[path] }),
        dirs.dirs[path].waiters <= 1 && dirs.dirs[path].stage == Stage::Reserved ==> !dirs.left(
            path,
        ).dirs.contains_key(path),
        stage is None ==> !dirs.moved(path, stage).dirs.contains_key(path),
        stage matches Some(s) ==> dirs.moved(path, stage).dirs[path].stage == s && dirs.moved(
            path,
            stage,
        ).dirs[path].waiters == dirs.dirs[path].waiters,
{
}

impl PendingDirs {
    pub closed spec fn inv(&self) -> bool {
        self.dirs.inv() && self@.inv()
    }

    pub fn new() -> (d: PendingDirs)
        ensures
            d.inv(),
            d@ == (DirsView { dirs: Map::empty(), next: 0 }),
    {
        PendingDirs { dirs: ByteMap::new(), next: 0 }
    }

    /// Whether no directory is being made.
    pub fn is_empty(&self) -> (b: bool)
        ensures
            b == (self@.dirs == Map::<Seq<u8>, PendingDir>::empty()),
    {
        self.dirs.is_empty()
    }

    /// Whether one more can wait for the directory at `path`.
    pub fn has_room(&self, path: &[u8]) -> (b: bool)
        requires
            self.inv(),
        ensures
            b == self@.has_room(path@),
    {
        match self.dirs.get(path) {
            Some(dir) => dir.waiters < u64::MAX,
            None => self.next < u64::MAX,
        }
    }

    /// Waits for the directory at `path`, if it is being made. Gives a ticket for it.
    pub fn join_existing(&mut self, path: &[u8]) -> (r: Option<u64>)
        requires
            old(self).inv(),
            old(self)@.dirs.contains_key(path@) ==> old(self)@.has_room(path@),
        ensures
            final(self).inv(),
            match r {
                Some(ticket) => old(self)@.pending(path@, ticket) && final(self)@ == old(
                    self
                )@.joined(path@),
                None => !old(self)@.dirs.contains_key(path@) && final(self)@ == old(self)@,
            },
    {
        match self.dirs.get(path) {
            Some(dir) => {
                let dir: PendingDir = *dir;
                self.dirs.insert(
                    path,
                    PendingDir { stage: dir.stage, waiters: dir.waiters + 1, ticket: dir.ticket },
                );
                Some(dir.ticket)
            },
            None => None,
        }
    }

    /// Registers the directory at `path`, before it is created, or waits for it. Gives a
    /// ticket for it.
    pub fn reserve(&mut self, path: &[u8]) -> (ticket: u64)
        requires
            old(self).inv(),
            old(self)@.has_room(path@),
        ensures
            final(self).inv(),
            final(self)@ == old(self)@.reserved(path@),
            final(self)@.pending(path@, ticket),
    {
        match self.join_existing(path) {
            Some(ticket) => ticket,
            None => {
                let ticket: u64 = self.next;
                self.dirs.insert(path, PendingDir { stage: Stage::Reserved, waiters: 1, ticket });
                self.next = ticket + 1;
                ticket
            },
        }
    }

    /// What to do next for the directory at `path` that the ticket is for.
    pub fn step(&self, path: &[u8], ticket: u64) -> (step: FinishStep)
        requires
            self.inv(),
        ensures
            step == next_step(
                path@,
                if self@.pending(path@, ticket) {
                    Some(self@.dirs[path@].stage)
                } else {
                    None
                },
            ),
    {
        let stage: Stage = match self.dirs.get(path) {
            Some(dir) => {
                if dir.ticket != ticket {
                    return FinishStep::Done;
                }
                dir.stage
            },
            None => {
                return FinishStep::Done;
            },
        };
        match stage {
            Stage::Reserved => FinishStep::Create,
            _ => {
                if has_nul(path) {
                    FinishStep::Failed(DirError::Nul)
                } else if path.len() >= MAX_PATH_LEN {
                    FinishStep::Failed(DirError::TooLong)
                } else if stage == Stage::Created {
                    FinishStep::SyncDir
                } else {
                    FinishStep::SyncParent
                }
            },
        }
    }

    /// Takes what came of creating the directory at `path`. Says why it failed, where it did.
    ///
    /// A directory that is there already has settled.
    pub fn created(&mut self, path: &[u8], ticket: u64, creation: Creation) -> (r: Result<
        (),
        DirError,
    >)
        requires
            old(self).inv(),
            old(self)@.pending(path@, ticket),
            old(self)@.dirs[path@].stage == Stage::Reserved,
        ensures
            final(self).inv(),
            match creation {
                Creation::Created => r == Ok::<(), DirError>(()) && final(self)@ == old(
                    self
                )@.moved(path@, Some(Stage::Created)),
                Creation::Exists => r == Ok::<(), DirError>(()) && final(self)@ == old(
                    self
                )@.moved(path@, None),
                Creation::Failed(e) => r == Err::<(), DirError>(DirError::Os(e)) && final(self)@
                    == old(self)@.left(path@),
            },
    {
        match creation {
            Creation::Created => {
                self.move_to(path, Some(Stage::Created));
                Ok(())
            },
            Creation::Exists => {
                self.move_to(path, None);
                Ok(())
            },
            Creation::Failed(e) => {
                self.leave(path, ticket);
                Err(DirError::Os(e))
            },
        }
    }

    /// Takes what came of a sync of the directory at `path` or of its name. A failed one is
    /// left to whoever comes next; with the last one the directory has settled.
    pub fn synced(&mut self, path: &[u8], ticket: u64, os_error: Option<i32>) -> (r: Result<
        (),
        DirError,
    >)
        requires
            old(self).inv(),
            old(self)@.pending(path@, ticket),
            old(self)@.unsynced(path@),
        ensures
            final(self).inv(),
            match os_error {
                Some(e) => r == Err::<(), DirError>(DirError::Os(e)) && final(self)@ == old(
                    self
                )@.left(path@) && final(self)@.unsynced(path@),
                None => r == Ok::<(), DirError>(()) && final(self)@ == old(self)@.moved(
                    path@,
                    after_sync(old(self)@.dirs[path@].stage),
                ),
            },
    {
        match os_error {
            Some(e) => {
                self.leave(path, ticket);
                Err(DirError::Os(e))
            },
            None => {
                let next: Option<Stage> = match self.dirs.get(path) {
                    Some(PendingDir { stage: Stage::Created, .. }) => Some(Stage::Synced),
                    _ => None,
                };
                self.move_to(path, next);
                Ok(())
            },
        }
    }

    fn move_to(&mut self, path: &[u8], stage: Option<Stage>)
        requires
            old(self).inv(),
            old(self)@.dirs.contains_key(path@),
        ensures
            final(self).inv(),
            final(self)@ == old(self)@.moved(path@, stage),
    {
        match (self.dirs.get(path), stage) {
            (Some(dir), Some(stage)) => {
                let dir: PendingDir = *dir;
                self.dirs.insert(
                    path,
                    PendingDir { stage, waiters: dir.waiters, ticket: dir.ticket },
                );
            },
            _ => {
                self.dirs.remove(path);
            },
        }
    }

    /// Stops waiting for the directory at `path` that the ticket is for. Nobody waits for one
    /// that has settled.
    pub fn leave(&mut self, path: &[u8], ticket: u64)
        requires
            old(self).inv(),
        ensures
            final(self).inv(),
            final(self)@ == if old(self)@.pending(path@, ticket) {
                old(self)@.left(path@)
            } else {
                old(self)@
            },
    {
        let dir: PendingDir = match self.dirs.get(path) {
            Some(dir) => *dir,
            None => {
                return ;
            },
        };
        if dir.ticket != ticket {
            return ;
        }
        if dir.waiters <= 1 && dir.stage == Stage::Reserved {
            self.dirs.remove(path);
        } else {
            let waiters: u64 = if dir.waiters == 0 {
                0
            } else {
                dir.waiters - 1
            };
            self.dirs.insert(path, PendingDir { stage: dir.stage, waiters, ticket });
        }
    }
}

/// Whether a path contains a NUL.
fn has_nul(path: &[u8]) -> (b: bool)
    ensures
        b == plan::has_nul(path@),
{
    let n: usize = path.len();
    let mut i: usize = 0;
    while i < n
        invariant
            i <= n == path@.len(),
            forall|k: int| 0 <= k < i ==> path@[k] != 0,
        decreases n - i,
    {
        if path[i] == 0 {
            return true;
        }
        i = i + 1;
    }
    false
}

/// What is at a path.
#[derive(Debug, Clone, Copy, PartialEq, Eq, Structural)]
pub enum Found {
    Directory,
    /// Something else.
    Other,
    Nothing,
    /// Looking failed with this error number.
    Failed(i32),
}

/// What making a directory and those above it needs next.
#[derive(Debug, PartialEq, Eq)]
pub enum MkdirStep {
    /// Look what is at this path.
    Look(Vec<u8>),
    /// This directory exists: complete it if it is being made.
    Settle(Vec<u8>),
    /// Create the last name of this path in the directory that the rest names.
    Make(Vec<u8>),
    /// All of them exist.
    Done,
    /// They cannot be made.
    Failed(DirError),
}

/// A path of `depth` of the pieces of `parts`, from the root or from here.
pub open spec fn path_text(rooted: bool, parts: Seq<Seq<u8>>, depth: int) -> Seq<u8>
    decreases depth,
{
    if depth <= 0 {
        if rooted {
            seq![path::SLASH]
        } else {
            seq![path::DOT]
        }
    } else if depth == 1 && rooted {
        seq![path::SLASH] + parts[0]
    } else {
        path_text(rooted, parts, depth - 1) + seq![path::SLASH] + parts[depth - 1]
    }
}

/// The path of some pieces names those pieces, from the root or from here.
pub proof fn lemma_a_path_names_its_pieces(rooted: bool, parts: Seq<Seq<u8>>, depth: int)
    requires
        0 <= depth <= parts.len(),
        forall|i: int, j: int|
            0 <= i < parts.len() && 0 <= j < (#[trigger] parts[i]).len() ==> #[trigger] parts[i][j]
                != path::SLASH,
        forall|i: int|
            0 <= i < parts.len() ==> (#[trigger] parts[i]).len() > 0 && parts[i] != seq![path::DOT],
    ensures
        path::pieces(path_text(rooted, parts, depth)) == parts.take(depth),
        path_text(rooted, parts, depth).len() > 0,
        (path_text(rooted, parts, depth)[0] == path::SLASH) == rooted,
    decreases depth,
{
    let text = path_text(rooted, parts, depth);
    let none = Seq::<u8>::empty();
    path::lemma_a_name_is_one_piece(none);
    if depth == 0 {
        if rooted {
            assert(text =~= none + seq![path::SLASH] + none);
            path::lemma_pieces_join(none, none);
        } else {
            path::lemma_a_name_is_one_piece(text);
        }
        assert(path::pieces(text) =~= parts.take(0));
    } else {
        let part = parts[depth - 1];
        path::lemma_a_name_is_one_piece(part);
        lemma_a_path_names_its_pieces(rooted, parts, depth - 1);
        assert(parts.take(depth) =~= parts.take(depth - 1) + seq![part]);
        if depth == 1 && rooted {
            assert(text =~= none + seq![path::SLASH] + part);
            path::lemma_pieces_join(none, part);
            assert(path::pieces(text) =~= parts.take(1));
        } else {
            path::lemma_pieces_join(path_text(rooted, parts, depth - 1), part);
        }
    }
}

/// The making of a directory and of those above it, as its users see it.
#[verifier::ext_equal]
pub struct MkdirView {
    pub rooted: bool,
    /// The pieces of the path.
    pub parts: Seq<Seq<u8>>,
    /// How many of them lead to the directory that is looked at or made.
    pub depth: int,
    /// Whether the way up is over, and directories are made on the way down.
    pub descending: bool,
    /// Whether the directory at `depth` exists and may have to be completed.
    pub settling: bool,
}

impl MkdirView {
    pub open spec fn inv(self) -> bool {
        0 <= self.depth <= self.parts.len()
    }

    /// The path of the directory that is looked at or made.
    pub open spec fn path(self) -> Seq<u8> {
        path_text(self.rooted, self.parts, self.depth)
    }

    /// What follows once the path that was looked at was found to be this.
    pub open spec fn looked(self, found: Found) -> Result<MkdirView, DirError> {
        match found {
            Found::Directory => Ok(MkdirView { descending: true, settling: true, ..self }),
            Found::Other => Err(DirError::NotADirectory),
            Found::Failed(e) => Err(DirError::Os(e)),
            Found::Nothing => if self.depth == 0 {
                Err(DirError::NoName)
            } else {
                Ok(MkdirView { depth: self.depth - 1, ..self })
            },
        }
    }

    /// What follows once the directory that was found is complete.
    pub open spec fn settled(self) -> MkdirView {
        MkdirView { settling: false, ..self }
    }

    /// What follows once the next directory is made.
    pub open spec fn made(self) -> MkdirView {
        MkdirView { depth: self.depth + 1, ..self }
    }

    /// Whether `step` comes next.
    pub open spec fn asks(self, step: MkdirStep) -> bool {
        if self.settling {
            step matches MkdirStep::Settle(p) && p@ == self.path()
        } else if !self.descending {
            step matches MkdirStep::Look(p) && p@ == self.path()
        } else if self.depth >= self.parts.len() {
            step == MkdirStep::Done
        } else if self.parts[self.depth] == seq![path::DOT, path::DOT] {
            step == MkdirStep::Failed(DirError::NoName)
        } else {
            step matches MkdirStep::Make(p) && p@ == path_text(
                self.rooted,
                self.parts,
                self.depth + 1,
            )
        }
    }
}

/// `m` once the next `n` directories are made.
pub open spec fn made_often(m: MkdirView, n: nat) -> MkdirView
    decreases n,
{
    if n == 0 {
        m
    } else {
        made_often(m, (n - 1) as nat).made()
    }
}

/// The way up ends at the first path that is there: one step up for each that is not, and at
/// anything but a directory in failure. From a directory the way leads down, one directory after
/// the other, each below the one before; after as many as are missing, all are made.
pub proof fn lemma_every_missing_directory_is_made(
    m: MkdirView,
    n: nat,
    step: MkdirStep,
    os_error: i32,
)
    requires
        m.inv(),
        !m.descending,
        !m.settling,
        forall|i: int| 0 <= i < m.parts.len() ==> #[trigger] m.parts[i] != seq![path::DOT, path::DOT],
    ensures
        m.looked(Found::Other) == Err::<MkdirView, DirError>(DirError::NotADirectory),
        m.depth == 0 ==> m.looked(Found::Nothing) == Err::<MkdirView, DirError>(DirError::NoName),
        m.depth > 0 ==> m.looked(Found::Nothing) is Ok,
        m.looked(Found::Failed(os_error)) == Err::<MkdirView, DirError>(DirError::Os(os_error)),
        m.looked(Found::Nothing) matches Ok(after) ==> after.depth == m.depth - 1
            && !after.descending && !after.settling && after.parts == m.parts && after.rooted
            == m.rooted,
        m.looked(Found::Directory) matches Ok(after) && after.settling && after.path() == m.path(),
        ({
            let down = made_often(m.looked(Found::Directory)->Ok_0.settled(), n);
            &&& m.depth + n < m.parts.len() && down.asks(step) ==> (step matches MkdirStep::Make(p)
                && p@ == path_text(m.rooted, m.parts, m.depth + n + 1))
            &&& m.depth + n == m.parts.len() && down.asks(step) ==> step == MkdirStep::Done
            &&& down.depth == m.depth + n && down.parts == m.parts && down.rooted == m.rooted
                && down.descending && !down.settling
        }),
    decreases n,
{
    if n > 0 {
        lemma_every_missing_directory_is_made(m, (n - 1) as nat, step, os_error);
    }
}

/// What the making of directories asks for next: on the way up, to look at the path that it
/// has come to; then to complete what was found there; and on the way down, to make the next
/// directory. It is done at the whole path, and cannot make the directory above another.
pub proof fn lemma_what_the_making_of_directories_asks(m: MkdirView, step: MkdirStep)
    requires
        m.inv(),
        m.asks(step),
        forall|i: int, j: int|
            0 <= i < m.parts.len() && 0 <= j < (#[trigger] m.parts[i]).len()
                ==> #[trigger] m.parts[i][j] != path::SLASH,
        forall|i: int|
            0 <= i < m.parts.len() ==> (#[trigger] m.parts[i]).len() > 0 && m.parts[i]
                != seq![path::DOT],
    ensures
        match step {
            MkdirStep::Look(p) => !m.descending && !m.settling && path::pieces(p@) == m.parts.take(
                m.depth,
            ) && (p@[0] == path::SLASH) == m.rooted,
            MkdirStep::Settle(p) => m.settling && path::pieces(p@) == m.parts.take(m.depth) && (p@[0]
                == path::SLASH) == m.rooted,
            MkdirStep::Make(p) => m.descending && !m.settling && m.depth < m.parts.len()
                && path::pieces(p@) == m.parts.take(m.depth + 1) && (p@[0] == path::SLASH)
                == m.rooted && m.parts[m.depth] != seq![path::DOT, path::DOT],
            MkdirStep::Done => m.descending && !m.settling && m.depth == m.parts.len(),
            MkdirStep::Failed(e) => e == DirError::NoName && m.descending && m.depth < m.parts.len()
                && m.parts[m.depth] == seq![path::DOT, path::DOT],
        },
{
    lemma_a_path_names_its_pieces(m.rooted, m.parts, m.depth);
    if m.depth < m.parts.len() {
        lemma_a_path_names_its_pieces(m.rooted, m.parts, m.depth + 1);
    }
}

/// The making of a directory and of those above it.
///
/// It goes up until it finds a directory, and then down again. The caller asks
/// [`Mkdir::step`] what to do, does it, and says what came of it.
pub struct Mkdir {
    rooted: bool,
    parts: Vec<Vec<u8>>,
    depth: usize,
    descending: bool,
    settling: bool,
}

impl View for Mkdir {
    type V = MkdirView;

    closed spec fn view(&self) -> MkdirView {
        MkdirView {
            rooted: self.rooted,
            parts: path::part_views(self.parts@),
            depth: self.depth as int,
            descending: self.descending,
            settling: self.settling,
        }
    }
}

impl Mkdir {
    /// Starts to make the directory at `path`. An empty path is the current directory.
    pub fn new(path: &[u8]) -> (m: Mkdir)
        ensures
            m@.inv(),
            m@ == (MkdirView {
                rooted: path::named(path@).rooted,
                parts: path::named(path@).pieces,
                depth: path::named(path@).pieces.len() as int,
                descending: false,
                settling: false,
            }),
    {
        let rooted: bool = path.len() > 0 && path[0] == path::SLASH;
        let parts: Vec<Vec<u8>> = path::split(path);
        let depth: usize = parts.len();
        assert(path::part_views(parts@).len() == depth);
        Mkdir { rooted, parts, depth, descending: false, settling: false }
    }

    /// The path of the first `depth` pieces.
    fn text(&self, depth: usize) -> (out: Vec<u8>)
        requires
            depth <= self.parts@.len(),
        ensures
            out@ == path_text(self.rooted, path::part_views(self.parts@), depth as int),
    {
        let ghost parts = path::part_views(self.parts@);
        let mut out: Vec<u8> = Vec::new();
        if self.rooted {
            out.push(path::SLASH);
        } else {
            out.push(path::DOT);
        }
        assert(out@ =~= path_text(self.rooted, parts, 0));
        let mut i: usize = 0;
        while i < depth
            invariant
                i <= depth <= self.parts@.len(),
                parts == path::part_views(self.parts@),
                out@ == path_text(self.rooted, parts, i as int),
            decreases depth - i,
        {
            let ghost was = out@;
            if !(i == 0 && self.rooted) {
                out.push(path::SLASH);
            }
            out.extend_from_slice(self.parts[i].as_slice());
            assert(parts[i as int] == self.parts@[i as int]@);
            assert(out@ =~= path_text(self.rooted, parts, i + 1));
            i = i + 1;
        }
        out
    }

    /// What to do next.
    pub fn step(&self) -> (step: MkdirStep)
        requires
            self@.inv(),
        ensures
            self@.asks(step),
    {
        if self.settling {
            return MkdirStep::Settle(self.text(self.depth));
        }
        if !self.descending {
            return MkdirStep::Look(self.text(self.depth));
        }
        if self.depth >= self.parts.len() {
            return MkdirStep::Done;
        }
        let name: &[u8] = self.parts[self.depth].as_slice();
        let up: bool = name.len() == 2 && name[0] == path::DOT && name[1] == path::DOT;
        proof {
            let part = self@.parts[self.depth as int];
            assert(part == name@);
            if up {
                assert(part =~= seq![path::DOT, path::DOT]);
            }
        }
        if up {
            return MkdirStep::Failed(DirError::NoName);
        }
        MkdirStep::Make(self.text(self.depth + 1))
    }

    /// Takes what was found at the path that was looked at.
    pub fn looked(&mut self, found: Found) -> (r: Result<(), DirError>)
        requires
            old(self)@.inv(),
            !old(self)@.descending,
            !old(self)@.settling,
        ensures
            final(self)@.inv(),
            match old(self)@.looked(found) {
                Ok(after) => r is Ok && final(self)@ == after,
                Err(e) => r == Err::<(), DirError>(e),
            },
            r is Err ==> *final(self) == *old(self),
    {
        match found {
            Found::Directory => {
                self.descending = true;
                self.settling = true;
                Ok(())
            },
            Found::Other => Err(DirError::NotADirectory),
            Found::Failed(e) => Err(DirError::Os(e)),
            Found::Nothing => {
                if self.depth == 0 {
                    return Err(DirError::NoName);
                }
                self.depth = self.depth - 1;
                Ok(())
            },
        }
    }

    /// The directory that existed is complete.
    pub fn settled(&mut self)
        requires
            old(self)@.inv(),
            old(self)@.settling,
        ensures
            final(self)@.inv(),
            final(self)@ == old(self)@.settled(),
    {
        self.settling = false;
    }

    /// The directory that was to be made is complete.
    pub fn made(&mut self)
        requires
            old(self)@.inv(),
            old(self)@.descending,
            old(self)@.depth < old(self)@.parts.len(),
        ensures
            final(self)@.inv(),
            final(self)@ == old(self)@.made(),
    {
        let n: usize = self.parts.len();
        assert(self.depth < n);
        self.depth = self.depth + 1;
    }
}

} // verus!
