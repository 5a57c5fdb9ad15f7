//! The root secret, and how it is opened.

use vstd::prelude::*;
use zeroize::Zeroize;

verus! {

/// Size of a seed in bytes.
pub const SEED_SIZE: usize = 32;

/// Why a seed could not be had.
#[derive(Debug, Clone, Copy, PartialEq, Eq, Structural)]
pub enum SeedError {
    /// A file could not be read or written, for this reason.
    Io(i32),
    /// What was stored is not a seed.
    InvalidSeed,
    /// The system gave no random bytes.
    OsRng,
}

/// How to open the seed of a directory.
#[derive(Debug, Clone, Copy, PartialEq, Eq, Structural)]
pub enum SeedSource {
    /// There is one: load it.
    Load,
    /// There is none: generate one and save it.
    Generate,
}

/// The seed that was stored as `content`. Anything but a whole seed is none.
pub open spec fn loaded(content: Seq<u8>) -> Result<Seq<u8>, SeedError> {
    if content.len() == SEED_SIZE {
        Ok(content)
    } else {
        Err(SeedError::InvalidSeed)
    }
}

/// How to open the seed of a directory that holds one or does not.
pub open spec fn source(present: bool) -> SeedSource {
    if present {
        SeedSource::Load
    } else {
        SeedSource::Generate
    }
}

/// What opening the seed of a directory gives, and what is stored there afterwards. What was
/// stored before is `stored`; a seed that is generated is `fresh`.
pub open spec fn opened(stored: Option<Seq<u8>>, fresh: Seq<u8>) -> (
    Result<Seq<u8>, SeedError>,
    Option<Seq<u8>>,
) {
    match source(stored is Some) {
        SeedSource::Load => (loaded(stored->0), stored),
        SeedSource::Generate => (Ok(fresh), Some(fresh)),
    }
}

/// A seed is generated once: whoever opens a directory after that gets the same one, and what
/// is stored is never replaced.
pub proof fn lemma_an_existing_seed_is_kept(stored: Option<Seq<u8>>, first: Seq<u8>, second: Seq<u8>)
    requires
        first.len() == SEED_SIZE,
    ensures
        ({
            let (seed, then) = opened(stored, first);
            let (again, after) = opened(then, second);
            &&& again == seed
            &&& after == then
            &&& stored is Some ==> then == stored
            &&& seed matches Ok(bytes) ==> then == Some(bytes)
        }),
{
}

/// What was stored is a seed exactly if it has the size of one, and then it is that seed.
pub proof fn lemma_only_a_whole_seed_is_loaded(content: Seq<u8>)
    ensures
        loaded(content) is Ok <==> content.len() == 32,
        loaded(content) matches Ok(bytes) ==> bytes == content,
        loaded(content) matches Err(e) ==> e == SeedError::InvalidSeed,
        source(true) == SeedSource::Load,
        source(false) == SeedSource::Generate,
{
}

/// `zeroize::Zeroize::zeroize` on an array of bytes: every byte is zero afterwards.
#[verifier::external_body]
fn wipe_bytes(bytes: &mut [u8; 32])
    ensures
        forall|i: int| 0 <= i < 32 ==> final(bytes)@[i] == 0,
    opens_invariants none
    no_unwind
{
    bytes.zeroize()
}

/// The root secret. It has no textual form, so that no log shows it.
pub struct Seed {
    bytes: [u8; 32],
}

impl View for Seed {
    type V = Seq<u8>;

    closed spec fn view(&self) -> Seq<u8> {
        self.bytes@
    }
}

impl Drop for Seed {
    /// Overwrites the secret with zeros.
    fn drop(&mut self)
        ensures
            final(self)@ == Seq::new(32, |i: int| 0u8),
        opens_invariants none
        no_unwind
    {
        wipe_bytes(&mut self.bytes);
        assert(self@ =~= Seq::new(32, |i: int| 0u8));
    }
}

impl Seed {
    pub fn from_bytes(bytes: [u8; 32]) -> (seed: Seed)
        ensures
            seed@ == bytes@,
    {
        Seed { bytes }
    }

    /// The seed that was stored as `content`. Anything but a whole seed is refused.
    pub fn load(content: &[u8]) -> (r: Result<Seed, SeedError>)
        ensures
            match r {
                Ok(seed) => loaded(content@) == Ok::<Seq<u8>, SeedError>(seed@),
                Err(e) => loaded(content@) == Err::<Seq<u8>, SeedError>(e),
            },
    {
        if content.len() != SEED_SIZE {
            return Err(SeedError::InvalidSeed);
        }
        let mut seed = Seed { bytes: [0u8;32] };
        let mut i: usize = 0;
        while i < SEED_SIZE
            invariant
                i <= SEED_SIZE,
                content@.len() == SEED_SIZE,
                forall|k: int| 0 <= k < i ==> seed.bytes@[k] == content@[k],
            decreases SEED_SIZE - i,
        {
            seed.bytes[i] = content[i];
            i = i + 1;
        }
        assert(seed@ =~= content@);
        Ok(seed)
    }

    /// How to open the seed of a directory: an existing one is loaded and never replaced.
    pub fn open(present: bool) -> (source: SeedSource)
        ensures
            source == self::source(present),
    {
        if present {
            SeedSource::Load
        } else {
            SeedSource::Generate
        }
    }

    pub fn as_bytes(&self) -> (bytes: &[u8; 32])
        ensures
            bytes@ == self@,
    {
        &self.bytes
    }

    /// Overwrites the secret with zeros.
    pub fn wipe(&mut self)
        ensures
            final(self)@ == Seq::new(32, |i: int| 0u8),
    {
        wipe_bytes(&mut self.bytes);
        assert(self@ =~= Seq::new(32, |i: int| 0u8));
    }
}

} // verus!
