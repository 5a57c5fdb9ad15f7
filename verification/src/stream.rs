//! Reading files block by block: what to read next, and what the bytes so far give.

use bytes::BytesMut;
use vstd::prelude::*;
use vstd::slice::slice_subrange;

use crate::buf;
use crate::errors::WalError;
use crate::reader;
use crate::reader::{
    BodyView, Entry, Found, Look, Progress, RangeProgress, RangeView, ReadEntry, ReadRangeResult,
    WalBody, READ_AHEAD,
};
use crate::uintn::UintN;
use crate::wal_header;
use crate::wal_header::WalHeader;
use crate::wal_header_v1;
use crate::wal_header_v1::{AnyHeaderView, AnyWalHeader, AnyWalHeaderError};

verus! {

/// The serving path pays this much per reader at a time.
pub const WAL_READ_BUFFER_CAPACITY: usize = 65536;

/// Recovery scans one file at a time and can afford a big block.
pub const WAL_SCAN_BLOCK_CAPACITY: usize = 1048576;

/// Covers the widest header.
pub const WAL_HEADER_PROBE: usize = 128;

/// A window of unread bytes, so that entries are read in place.
///
/// The window is topped up to a whole block, and grows past it for one larger entry.
pub struct BlockReader {
    buf: BytesMut,
    eof: bool,
    block: usize,
    /// How many bytes the source had when it was opened. The size of a record is read before
    /// its checksum, so that without this a damaged one could ask for far too much.
    limit: usize,
    fed: Ghost<Seq<u8>>,
}

/// How many bytes to read onto `have` so that there are `want`: enough for a whole block.
pub open spec fn top_up(have: nat, want: nat, block: nat) -> int {
    (if want < block {
        block
    } else {
        want
    }) - have
}

/// What is read is as much as is wanted, and at least a whole block.
pub proof fn lemma_a_block_is_topped_up(have: nat, want: nat, block: nat)
    requires
        have < want,
    ensures
        top_up(have, want, block) > 0,
        have + top_up(have, want, block) >= want,
        have + top_up(have, want, block) >= block,
        have + top_up(have, want, block) == want || have + top_up(have, want, block) == block,
{
}

impl BlockReader {
    /// Bytes read and not consumed.
    pub closed spec fn window(&self) -> Seq<u8> {
        buf::filled(self.buf)
    }

    /// All bytes that were read.
    pub closed spec fn fed(&self) -> Seq<u8> {
        self.fed@
    }

    /// Whether the source has no more bytes.
    pub closed spec fn ended(&self) -> bool {
        self.eof
    }

    /// How many bytes the source had when it was opened.
    pub closed spec fn most(&self) -> nat {
        self.limit as nat
    }

    pub closed spec fn granularity(&self) -> nat {
        self.block as nat
    }

    /// Whether `more` may still follow the bytes that were read.
    pub open spec fn may_follow(&self, more: Seq<u8>) -> bool {
        self.ended() ==> more.len() == 0
    }

    pub fn new(block: usize, limit: usize) -> (r: BlockReader)
        ensures
            r.window() == Seq::<u8>::empty(),
            r.fed() == Seq::<u8>::empty(),
            !r.ended(),
            r.most() == limit,
            r.granularity() == block,
    {
        BlockReader { buf: buf::empty(), eof: false, block, limit, fed: Ghost(Seq::empty()) }
    }

    /// Bytes read and not consumed.
    pub fn unread(&self) -> (s: &[u8])
        ensures
            s@ == self.window(),
    {
        buf::as_filled(&self.buf)
    }

    /// Takes the first `n` bytes out of the window.
    pub fn consume(&mut self, n: usize)
        requires
            n <= old(self).window().len(),
        ensures
            final(self).window() == old(self).window().skip(n as int),
            final(self).fed() == old(self).fed(),
            final(self).ended() == old(self).ended(),
            final(self).most() == old(self).most(),
            final(self).granularity() == old(self).granularity(),
    {
        buf::advance(&mut self.buf, n);
    }

    /// Whether the source has no more bytes.
    pub fn at_eof(&self) -> (b: bool)
        ensures
            b == self.ended(),
    {
        self.eof
    }

    /// How many bytes the source had when it was opened.
    pub fn limit(&self) -> (n: usize)
        ensures
            n as nat == self.most(),
    {
        self.limit
    }

    /// How many bytes to read so that at least `want` are unread: enough for a whole block.
    /// Zero when they are there, or no more can come.
    pub fn fill(&self, want: usize) -> (n: usize)
        ensures
            n == if self.window().len() >= want || self.ended() {
                0
            } else {
                top_up(self.window().len(), want as nat, self.granularity())
            },
    {
        let len: usize = self.unread().len();
        if len >= want || self.eof {
            return 0;
        }
        let target: usize = if want < self.block {
            self.block
        } else {
            want
        };
        target - len
    }

    /// Adds bytes that were read. None means that there are no more.
    pub fn feed(&mut self, data: &[u8])
        requires
            !old(self).ended(),
            old(self).window().len() + data@.len() <= isize::MAX,
        ensures
            final(self).window() == old(self).window() + data@,
            final(self).fed() == old(self).fed() + data@,
            final(self).ended() == (data@.len() == 0),
            final(self).most() == old(self).most(),
            final(self).granularity() == old(self).granularity(),
    {
        if data.len() == 0 {
            self.eof = true;
            assert(self.window() + data@ =~= self.window());
            assert(self.fed() + data@ =~= self.fed());
        } else {
            buf::extend(&mut self.buf, data);
            self.fed = Ghost(self.fed@ + data@);
        }
    }
}

/// Whether the entries that `body` finds in what follows `window` come after `passed`, of
/// all that `whole` finds in what follows `bytes`.
pub open spec fn in_step(
    whole: BodyView,
    bytes: Seq<u8>,
    passed: Seq<Entry>,
    body: BodyView,
    window: Seq<u8>,
    more: Seq<u8>,
    limit: nat,
) -> bool {
    let rest = reader::find(body, window + more, limit);
    reader::find(whole, bytes + more, limit) == (Found {
        entries: passed + rest.entries,
        torn: rest.torn,
    })
}

#[verifier::spinoff_prover]
proof fn lemma_in_step_next(
    whole: BodyView,
    bytes: Seq<u8>,
    passed: Seq<Entry>,
    body: BodyView,
    window: Seq<u8>,
    more: Seq<u8>,
    limit: nat,
    look: Look,
    end: bool,
)
    requires
        body.inv(),
        in_step(whole, bytes, passed, body, window, more, limit),
        end || body.decided(window, limit),
        end ==> more.len() == 0,
        look.is(body.front(window, limit), window),
    ensures
        match look {
            Look::Entry { id, from, to, consumed } => in_step(
                whole,
                bytes,
                passed.push((id as nat, window.subrange(from as int, to as int))),
                body.after(),
                window.skip(consumed as int),
                more,
                limit,
            ),
            Look::Torn { id } => reader::find(whole, bytes + more, limit) == (Found {
                entries: passed,
                torn: Some(id as nat),
            }),
            Look::End => reader::find(whole, bytes + more, limit) == (Found {
                entries: passed,
                torn: None,
            }),
            Look::More(_) => true,
        },
{
    let all = window + more;
    let front = body.front(window, limit);
    assert(body.front(all, limit) == front) by {
        if end {
            assert(all =~= window);
        } else {
            reader::lemma_front_extends(body, window, more, limit);
        }
    }
    reader::lemma_front_consumes(body, window, limit);
    reader::lemma_find_begins(body, all, limit);
    match look {
        Look::Entry { id, from, to, consumed } => {
            let entry: Entry = (id as nat, window.subrange(from as int, to as int));
            let rest = reader::find(body.after(), all.skip(consumed as int), limit);
            assert(all.skip(consumed as int) =~= window.skip(consumed as int) + more);
            assert(passed + (seq![entry] + rest.entries) =~= passed.push(entry) + rest.entries);
        },
        Look::Torn { id } => {
            assert(passed + Seq::<Entry>::empty() =~= passed);
        },
        Look::End => {
            assert(passed + Seq::<Entry>::empty() =~= passed);
        },
        Look::More(_) => {},
    }
}

/// The entries of a file, one after the other, as its bytes come in.
pub struct EntryStream {
    block: BlockReader,
    body: Option<WalBody>,
    any: Ghost<AnyHeaderView>,
    start: Ghost<nat>,
    passed: Ghost<Seq<Entry>>,
}

impl EntryStream {
    /// All bytes that were read.
    pub closed spec fn fed(&self) -> Seq<u8> {
        self.block.fed()
    }

    /// Bytes read and not consumed.
    pub closed spec fn window(&self) -> Seq<u8> {
        self.block.window()
    }

    /// Whether the file has no more bytes.
    pub closed spec fn ended(&self) -> bool {
        self.block.ended()
    }

    /// How many bytes the file had when it was opened.
    pub closed spec fn most(&self) -> nat {
        self.block.most()
    }

    /// The size of a block.
    pub closed spec fn granularity(&self) -> nat {
        self.block.granularity()
    }

    /// How the next entry is read, once the header has been.
    pub closed spec fn body(&self) -> Option<BodyView> {
        match self.body {
            Some(body) => Some(body@),
            None => None,
        }
    }

    /// Whether the header has been read.
    pub open spec fn started(&self) -> bool {
        self.body() is Some
    }

    /// How many unread bytes are awaited before reading goes on, where there are fewer.
    pub open spec fn awaits(&self) -> Option<nat> {
        if self.ended() {
            None
        } else {
            match self.body() {
                Some(body) => body.awaits(self.window(), self.most()),
                None => if self.window().len() < WAL_HEADER_PROBE {
                    Some(WAL_HEADER_PROBE as nat)
                } else {
                    None
                },
            }
        }
    }

    /// The header, once it has been read.
    pub closed spec fn any(&self) -> AnyHeaderView {
        self.any@
    }

    /// The entries that were taken.
    pub closed spec fn passed(&self) -> Seq<Entry> {
        self.passed@
    }

    /// Whether `more` may still follow what was read.
    pub open spec fn may_follow(&self, more: Seq<u8>) -> bool {
        self.ended() ==> more.len() == 0
    }

    /// What the whole file holds if `more` follows what was read.
    pub closed spec fn whole(&self, more: Seq<u8>) -> Found {
        reader::find(
            BodyView::of(self.any@),
            self.block.fed().skip(self.start@ as int) + more,
            self.block.most(),
        )
    }

    spec fn on_course(&self, body: BodyView, more: Seq<u8>) -> bool {
        in_step(
            BodyView::of(self.any@),
            self.block.fed().skip(self.start@ as int),
            self.passed@,
            body,
            self.block.window(),
            more,
            self.block.most(),
        )
    }

    /// Whether `look` is what stands at the front of the window.
    pub closed spec fn shows(&self, look: Look) -> bool {
        &&& self.body is Some
        &&& self.block.ended() || self.body->0@.decided(self.block.window(), self.block.most())
        &&& look.is(self.body->0@.front(self.block.window(), self.block.most()), self.block.window())
    }

    pub closed spec fn inv(&self) -> bool {
        &&& self.block.window().len() <= isize::MAX
        &&& match self.body {
            None => self.block.window() == self.block.fed() && self.passed@ == Seq::<
                Entry,
            >::empty(),
            Some(body) => {
                &&& body@.inv()
                &&& wal_header_v1::parse_any(self.block.fed()) == Ok::<
                    (AnyHeaderView, nat),
                    AnyWalHeaderError,
                >((self.any@, self.start@))
                &&& self.start@ <= self.block.fed().len()
                &&& forall|more: Seq<u8>|
                    self.may_follow(more) ==> #[trigger] self.on_course(body@, more)
            },
        }
    }

    /// The entries of a file of `file_len` bytes, read in blocks of `block`.
    pub fn new(block: usize, file_len: usize) -> (r: EntryStream)
        ensures
            r.inv(),
            r.fed() == Seq::<u8>::empty(),
            r.window() == Seq::<u8>::empty(),
            !r.ended(),
            r.most() == file_len,
            r.granularity() == block,
            !r.started(),
            r.passed() == Seq::<Entry>::empty(),
    {
        EntryStream {
            block: BlockReader::new(block, file_len),
            body: None,
            any: Ghost(arbitrary()),
            start: Ghost(0),
            passed: Ghost(Seq::empty()),
        }
    }

    /// Adds bytes that were read. None means that there are no more.
    pub fn feed(&mut self, data: &[u8])
        requires
            old(self).inv(),
            !old(self).ended(),
            old(self).window().len() + data@.len() <= isize::MAX,
        ensures
            final(self).inv(),
            final(self).fed() == old(self).fed() + data@,
            final(self).window() == old(self).window() + data@,
            final(self).ended() == (data@.len() == 0),
            final(self).most() == old(self).most(),
            final(self).granularity() == old(self).granularity(),
            final(self).body() == old(self).body(),
            final(self).any() == old(self).any(),
            final(self).passed() == old(self).passed(),
    {
        let ghost before = *self;
        self.block.feed(data);
        proof {
            if let Some(body) = self.body {
                wal_header_v1::lemma_parse_any_extends(before.block.fed(), data@);
                let n = self.start@ as int;
                assert forall|more: Seq<u8>| self.may_follow(more) implies #[trigger] self.on_course(
                body@, more) by {
                    assert(before.on_course(body@, data@ + more));
                    assert((before.block.fed() + data@).skip(n) + more =~= before.block.fed().skip(n)
                        + (data@ + more));
                    assert((before.block.window() + data@) + more =~= before.block.window() + (data@
                        + more));
                }
            }
        }
    }

    /// Reads the header, once it is there. Otherwise says how many bytes to read.
    pub fn begin(&mut self) -> (r: Result<Result<AnyWalHeader, usize>, AnyWalHeaderError>)
        requires
            old(self).inv(),
            !old(self).started(),
        ensures
            final(self).inv(),
            final(self).fed() == old(self).fed(),
            final(self).ended() == old(self).ended(),
            final(self).most() == old(self).most(),
            final(self).granularity() == old(self).granularity(),
            final(self).passed() == old(self).passed(),
            final(self).window().len() <= old(self).window().len(),
            match r {
                Ok(Ok(header)) => old(self).awaits() is None && final(self).started()
                    && final(self).any() == header@,
                Ok(Err(n)) => {
                    &&& *final(self) == *old(self)
                    &&& old(self).awaits() matches Some(want)
                    &&& n == top_up(old(self).window().len(), want, old(self).granularity())
                },
                Err(e) => {
                    &&& old(self).awaits() is None
                    &&& *final(self) == *old(self)
                    &&& forall|more: Seq<u8>|
                        final(self).may_follow(more) ==> wal_header_v1::parse_any(
                            #[trigger] (final(self).fed() + more),
                        ) == Err::<(AnyHeaderView, nat), AnyWalHeaderError>(e)
                    &&& !e.cut_short() ==> forall|more: Seq<u8>|
                        wal_header_v1::parse_any(#[trigger] (final(self).fed() + more)) == Err::<
                            (AnyHeaderView, nat),
                            AnyWalHeaderError,
                        >(e)
                },
            },
    {
        let n: usize = self.block.fill(WAL_HEADER_PROBE);
        if n > 0 {
            return Ok(Err(n));
        }
        let ghost fed = self.block.fed();
        match AnyWalHeader::from_bytes(self.block.unread()) {
            Ok((header, size)) => {
                proof {
                    wal_header_v1::lemma_parse_any_valid(fed);
                }
                let body: WalBody = WalBody::of(&header);
                self.block.consume(size);
                self.body = Some(body);
                self.any = Ghost(header@);
                self.start = Ghost(size as nat);
                proof {
                    assert forall|more: Seq<u8>| self.may_follow(more) implies #[trigger] self.on_course(
                    body@, more) by {
                        let rest = reader::find(
                            body@,
                            fed.skip(size as int) + more,
                            self.block.most(),
                        );
                        assert(Seq::<Entry>::empty() + rest.entries =~= rest.entries);
                    }
                }
                Ok(Ok(header))
            },
            Err(e) => {
                proof {
                    assert forall|more: Seq<u8>|
                        self.may_follow(more) || !e.cut_short() implies wal_header_v1::parse_any(
                        #[trigger] (fed + more),
                    ) == Err::<(AnyHeaderView, nat), AnyWalHeaderError>(e) by {
                        wal_header_v1::lemma_parse_any_extends(fed, more);
                        if e.cut_short() {
                            assert(fed + more =~= fed);
                        }
                    }
                }
                Err(e)
            },
        }
    }

    /// Whether the file was empty when it was opened.
    pub fn is_empty_file(&self) -> (b: bool)
        ensures
            b == (self.most() == 0),
    {
        self.block.limit() == 0
    }

    /// Whether the header has been read.
    pub fn has_started(&self) -> (b: bool)
        ensures
            b == self.started(),
    {
        self.body.is_some()
    }

    /// What stands at the front of the window.
    pub fn look(&self) -> (r: Look)
        requires
            self.inv(),
            self.started(),
        ensures
            match r {
                Look::More(n) => self.awaits() == Some(n as nat) && n > self.window().len() && (n
                    <= self.most() || n <= self.window().len() + READ_AHEAD),
                Look::Entry { from, to, consumed, .. } => {
                    &&& self.awaits() is None
                    &&& self.shows(r)
                    &&& from <= to <= self.window().len()
                    &&& 0 < consumed <= self.window().len()
                },
                Look::Torn { id } => self.awaits() is None && forall|more: Seq<u8>|
                    self.may_follow(more) ==> #[trigger] self.whole(more) == (Found {
                        entries: self.passed(),
                        torn: Some(id as nat),
                    }),
                Look::End => self.awaits() is None && forall|more: Seq<u8>|
                    self.may_follow(more) ==> #[trigger] self.whole(more) == (Found {
                        entries: self.passed(),
                        torn: None,
                    }),
            },
    {
        let body: WalBody = match self.body {
            Some(body) => body,
            None => WalBody::V1 { next: None },
        };
        let look: Look = body.look(self.block.unread(), self.block.limit(), self.block.at_eof());
        proof {
            reader::lemma_awaits(body@, self.block.window(), self.block.most());
            if look is Torn || look is End {
                assert forall|more: Seq<u8>| self.may_follow(more) implies #[trigger] self.whole(
                    more,
                ) == (Found {
                    entries: self.passed@,
                    torn: match look {
                        Look::Torn { id } => Some(id as nat),
                        _ => None,
                    },
                }) by {
                    assert(self.on_course(body@, more));
                    lemma_in_step_next(
                        BodyView::of(self.any@),
                        self.block.fed().skip(self.start@ as int),
                        self.passed@,
                        body@,
                        self.block.window(),
                        more,
                        self.block.most(),
                        look,
                        self.block.ended(),
                    );
                }
            }
        }
        look
    }

    /// Takes the entry that stands at the front of the window.
    pub fn take(&mut self, look: Look)
        requires
            old(self).inv(),
            look is Entry,
            old(self).shows(look),
        ensures
            final(self).inv(),
            final(self).started(),
            final(self).fed() == old(self).fed(),
            final(self).ended() == old(self).ended(),
            final(self).most() == old(self).most(),
            final(self).granularity() == old(self).granularity(),
            final(self).any() == old(self).any(),
            final(self).window() == old(self).window().skip(look->consumed as int),
            final(self).passed() == old(self).passed().push(
                (look->Entry_id as nat, old(self).window().subrange(look->from as int, look->to as int)),
            ),
    {
        let ghost before = *self;
        if let (Some(body), Look::Entry { id, from, to, consumed }) = (self.body, look) {
            proof {
                reader::lemma_front_consumes(body@, self.block.window(), self.block.most());
            }
            let ghost window = self.block.window();
            let ghost entry: Entry = (id as nat, window.subrange(from as int, to as int));
            self.block.consume(consumed);
            let after: WalBody = body.after();
            self.body = Some(after);
            self.passed = Ghost(before.passed@.push(entry));
            proof {
                assert forall|more: Seq<u8>| self.may_follow(more) implies #[trigger] self.on_course(
                after@, more) by {
                    assert(before.on_course(body@, more));
                    lemma_in_step_next(
                        BodyView::of(self.any@),
                        before.block.fed().skip(self.start@ as int),
                        before.passed@,
                        body@,
                        window,
                        more,
                        self.block.most(),
                        look,
                        self.block.ended(),
                    );
                }
            }
        }
    }

    /// Bytes read and not consumed.
    pub fn unread(&self) -> (s: &[u8])
        ensures
            s@ == self.window(),
    {
        self.block.unread()
    }

    /// How many bytes to read so that at least `want` are unread. See [`BlockReader::fill`].
    pub fn fill(&self, want: usize) -> (n: usize)
        ensures
            n == if self.window().len() >= want || self.ended() {
                0
            } else {
                top_up(self.window().len(), want as nat, self.granularity())
            },
    {
        self.block.fill(want)
    }

    /// As much is asked for before the header is read as the widest header takes and more.
    pub proof fn lemma_a_header_is_awaited(&self, h: wal_header::HeaderView)
        ensures
            !self.ended() && !self.started() ==> self.awaits() == if self.window().len() < 128 {
                Some(128nat)
            } else {
                None
            },
            self.ended() ==> self.awaits() is None,
            wal_header::encodable(h) ==> wal_header::encode(h).len() <= 128,
            wal_header_v1::valid(h) ==> wal_header_v1::encode(h).len() <= 128,
    {
        if wal_header::encodable(h) {
            wal_header::lemma_encode_len(h);
        }
        if wal_header_v1::valid(h) {
            wal_header_v1::lemma_the_charge_covers_every_header(h);
        }
    }

    /// The entries that were taken come first in the file, whatever follows.
    pub proof fn lemma_passed(&self, more: Seq<u8>) -> (rest: Seq<Entry>)
        requires
            self.inv(),
            self.started(),
            self.may_follow(more),
        ensures
            self.whole(more).entries == self.passed() + rest,
    {
        let body = self.body->0;
        assert(self.on_course(body@, more));
        reader::find(body@, self.block.window() + more, self.block.most()).entries
    }

    /// The file holds what its header and the entries after it are.
    pub proof fn lemma_whole(&self, more: Seq<u8>)
        requires
            self.inv(),
            self.started(),
        ensures
            wal_header_v1::parse_any(self.fed() + more) matches Ok((any, n)) && any == self.any()
                && self.whole(more) == reader::find(
                BodyView::of(any),
                (self.fed() + more).skip(n as int),
                self.most(),
            ),
    {
        wal_header_v1::lemma_parse_any_extends(self.fed(), more);
        assert((self.fed() + more).skip(self.start@ as int) =~= self.fed().skip(self.start@ as int)
            + more);
    }
}

/// What a reader of a file needs, or has found, next.
#[derive(Debug)]
pub enum ReadAction {
    /// Read this many bytes, or as many as there are.
    Fill(usize),
    /// Hand this entry out.
    Deliver(ReadEntry),
    /// The read is over.
    Finished(ReadRangeResult),
}

/// A read of a range of entries of a file, block by block.
///
/// The caller asks [`FileRangeReader::poll`] what to do, does it, and asks again.
pub struct FileRangeReader {
    stream: EntryStream,
    progress: RangeProgress,
}

impl FileRangeReader {
    /// All bytes that were read.
    pub closed spec fn fed(&self) -> Seq<u8> {
        self.stream.fed()
    }

    /// Bytes read and not consumed.
    pub closed spec fn window(&self) -> Seq<u8> {
        self.stream.window()
    }

    /// Whether the file has no more bytes.
    pub closed spec fn ended(&self) -> bool {
        self.stream.ended()
    }

    /// How many bytes the file had when it was opened.
    pub closed spec fn most(&self) -> nat {
        self.stream.most()
    }

    /// What is asked for.
    pub closed spec fn range(&self) -> RangeView {
        self.progress.range()
    }

    /// What has been handed out.
    pub closed spec fn sent(&self) -> Seq<Entry> {
        self.progress.progress().sent
    }

    /// Whether the end of the range was reached.
    pub closed spec fn done(&self) -> bool {
        self.progress.progress().done
    }

    /// How many unread bytes are awaited before reading goes on, where there are fewer.
    pub closed spec fn awaits(&self) -> Option<nat> {
        self.stream.awaits()
    }

    /// Whether `more` may still follow what was read.
    pub open spec fn may_follow(&self, more: Seq<u8>) -> bool {
        self.ended() ==> more.len() == 0
    }

    /// Whether the header has been read.
    pub closed spec fn started(&self) -> bool {
        self.stream.started()
    }

    /// How far reading the whole file comes if `more` follows what was read so far. A file
    /// that was empty when it was opened is not read.
    pub open spec fn outcome(&self, more: Seq<u8>) -> Result<Progress, AnyWalHeaderError> {
        if self.most() == 0 {
            Ok(reader::begun())
        } else {
            reader::read_content(self.range(), self.fed() + more, self.most())
        }
    }

    /// A read fails only for what its header says: if that is whole and wrong. A read that may
    /// hold nothing reads nothing.
    pub proof fn lemma_when_a_read_fails(&self, more: Seq<u8>)
        ensures
            self.outcome(more) is Err <==> self.most() > 0 && (wal_header_v1::parse_any(
                self.fed() + more,
            ) matches Err(e) && !e.cut_short()),
            self.outcome(more) matches Err(e) ==> wal_header_v1::parse_any(self.fed() + more)
                == Err::<(AnyHeaderView, nat), AnyWalHeaderError>(e),
            self.most() == 0 ==> (self.outcome(more) matches Ok(p) && p.sent.len() == 0 && p.last
                is None && !p.done),
    {
    }

    pub closed spec fn inv(&self) -> bool {
        &&& self.stream.inv()
        &&& self.progress.inv()
        &&& self.progress.progress() == reader::begun().over(
            self.progress.range(),
            self.stream.passed(),
        )
        &&& !self.stream.started() ==> self.stream.passed() == Seq::<Entry>::empty()
        &&& self.stream.most() == 0 ==> !self.stream.started()
        &&& self.stream.granularity() == WAL_READ_BUFFER_CAPACITY
    }

    /// A read of the entries with ids from `from_id` to `until_id`, every `step`-th of them,
    /// of a file of `file_len` bytes.
    pub fn new(from_id: &UintN, until_id: &Option<UintN>, step: usize, file_len: usize) -> (r:
        FileRangeReader)
        ensures
            r.inv(),
            r.range() == reader::range_view(*from_id, *until_id, step),
            r.fed() == Seq::<u8>::empty(),
            r.window() == Seq::<u8>::empty(),
            !r.ended(),
            r.most() == file_len,
            r.sent() == Seq::<Entry>::empty(),
            !r.started(),
            !r.done(),
    {
        FileRangeReader {
            stream: EntryStream::new(WAL_READ_BUFFER_CAPACITY, file_len),
            progress: RangeProgress::new(from_id, until_id, step),
        }
    }

    /// Adds bytes that were read. None means that there are no more.
    pub fn feed(&mut self, data: &[u8])
        requires
            old(self).inv(),
            !old(self).ended(),
            old(self).window().len() + data@.len() <= isize::MAX,
        ensures
            final(self).inv(),
            final(self).fed() == old(self).fed() + data@,
            final(self).window() == old(self).window() + data@,
            final(self).ended() == (data@.len() == 0),
            final(self).most() == old(self).most(),
            final(self).range() == old(self).range(),
            final(self).sent() == old(self).sent(),
            final(self).started() == old(self).started(),
            final(self).done() == old(self).done(),
    {
        self.stream.feed(data);
    }

    /// How many bytes are read and not consumed.
    pub fn unread_len(&self) -> (n: usize)
        ensures
            n as nat == self.window().len(),
    {
        self.stream.unread().len()
    }

    /// What to do next. `closed` says that nobody takes the entries any more: then the read
    /// ends behind the header, unless the end of the range was reached.
    ///
    /// What is handed out, and otherwise how the read ends, is what reading the whole file
    /// gives, whatever the bytes are that have not been read.
    pub fn poll(&mut self, closed: bool) -> (r: Result<ReadAction, WalError>)
        requires
            old(self).inv(),
        ensures
            final(self).inv(),
            final(self).fed() == old(self).fed(),
            final(self).ended() == old(self).ended(),
            final(self).most() == old(self).most(),
            final(self).range() == old(self).range(),
            final(self).window().len() <= old(self).window().len(),
            closed && final(self).started() && !old(self).done() ==> r == Ok::<
                ReadAction,
                WalError,
            >(ReadAction::Finished(ReadRangeResult::ChannelClosed)),
            match r {
                Ok(ReadAction::Fill(n)) => {
                    &&& final(self).sent() == old(self).sent()
                    &&& !final(self).ended() && !final(self).done()
                    &&& final(self).awaits() matches Some(want)
                    &&& n == top_up(
                        final(self).window().len(),
                        want,
                        WAL_READ_BUFFER_CAPACITY as nat,
                    )
                    &&& 0 < n && (n <= WAL_READ_BUFFER_CAPACITY || final(self).window().len() + n
                        <= final(self).most())
                },
                Ok(ReadAction::Deliver(entry)) => final(self).sent() == old(self).sent().push(
                    entry@,
                ) && forall|more: Seq<u8>|
                    final(self).may_follow(more) ==> (#[trigger] final(self).outcome(
                        more,
                    ) matches Ok(p) && final(self).sent().is_prefix_of(p.sent)),
                Ok(ReadAction::Finished(ReadRangeResult::ChannelClosed)) => final(self).sent()
                    == old(self).sent() && closed && final(self).started() && !old(self).done(),
                Ok(ReadAction::Finished(result)) => final(self).sent() == old(self).sent()
                    && forall|more: Seq<u8>|
                    final(self).may_follow(more) ==> (#[trigger] final(self).outcome(
                        more,
                    ) matches Ok(p) && p.sent == final(self).sent() && result.ends(
                        final(self).range(),
                        p,
                    )),
                Err(e) => e is WalHeaderError && final(self).sent() == old(self).sent() && forall|
                    more: Seq<u8>,
                | #[trigger]
                    final(self).outcome(more) == Err::<Progress, AnyWalHeaderError>(
                        e->WalHeaderError_0,
                    ),
            },
    {
        if self.stream.is_empty_file() {
            let result: ReadRangeResult = self.progress.finish(None);
            return Ok(ReadAction::Finished(result));
        }
        if !self.stream.has_started() {
            match self.stream.begin() {
                Ok(Ok(_)) => {},
                Ok(Err(n)) => {
                    return Ok(ReadAction::Fill(n));
                },
                Err(e) => {
                    if e.is_cut_short() {
                        let result: ReadRangeResult = self.progress.finish(None);
                        return Ok(ReadAction::Finished(result));
                    }
                    return Err(WalError::from(e));
                },
            }
        }
        if closed && !self.progress.is_done() {
            return Ok(ReadAction::Finished(ReadRangeResult::ChannelClosed));
        }
        while !self.progress.is_done()
            invariant
                self.inv(),
                self.stream.started(),
                closed ==> old(self).done(),
                self.done() == old(self).done() || !closed,
                self.stream.most() > 0,
                self.fed() == old(self).fed(),
                self.ended() == old(self).ended(),
                self.most() == old(self).most(),
                self.range() == old(self).range(),
                self.sent() == old(self).sent(),
                self.window().len() <= old(self).window().len(),
            decreases self.stream.window().len(),
        {
            let ghost before = *self;
            let look: Look = self.stream.look();
            match look {
                Look::More(want) => {
                    let n: usize = self.stream.fill(want);
                    return Ok(ReadAction::Fill(n));
                },
                Look::Entry { id, from, to, .. } => {
                    let ghost record = self.stream.window().subrange(from as int, to as int);
                    let deliver: bool = self.progress.visit(id, Ghost(record));
                    let item: Option<ReadEntry> = if deliver {
                        let part: &[u8] = slice_subrange(self.stream.unread(), from, to);
                        Some(ReadEntry { id: UintN::from(id), data: buf::copied(part) })
                    } else {
                        None
                    };
                    self.stream.take(look);
                    proof {
                        assert(self.stream.passed().drop_last() =~= before.stream.passed());
                    }
                    if let Some(item) = item {
                        proof {
                            assert forall|more: Seq<u8>| self.may_follow(more) implies (
                            #[trigger] self.outcome(more) matches Ok(p)
                                && self.sent().is_prefix_of(p.sent)) by {
                                self.stream.lemma_whole(more);
                                let rest = self.stream.lemma_passed(more);
                                reader::lemma_over_concat(
                                    reader::begun(),
                                    self.range(),
                                    self.stream.passed(),
                                    rest,
                                );
                                reader::lemma_over_extends(
                                    self.progress.progress(),
                                    self.range(),
                                    rest,
                                );
                            }
                        }
                        return Ok(ReadAction::Deliver(item));
                    }
                },
                Look::Torn { id } => {
                    let result: ReadRangeResult = self.progress.finish(Some(id));
                    proof {
                        assert forall|more: Seq<u8>| self.may_follow(more) implies (
                        #[trigger] self.outcome(more) matches Ok(p) && p.sent == self.sent()
                            && result.ends(self.range(), p)) by {
                            self.stream.lemma_whole(more);
                        }
                    }
                    return Ok(ReadAction::Finished(result));
                },
                Look::End => {
                    let result: ReadRangeResult = self.progress.finish(None);
                    proof {
                        assert forall|more: Seq<u8>| self.may_follow(more) implies (
                        #[trigger] self.outcome(more) matches Ok(p) && p.sent == self.sent()
                            && result.ends(self.range(), p)) by {
                            self.stream.lemma_whole(more);
                        }
                    }
                    return Ok(ReadAction::Finished(result));
                },
            }
        }
        let result: ReadRangeResult = self.progress.finish(None);
        proof {
            assert forall|more: Seq<u8>| self.may_follow(more) implies (#[trigger] self.outcome(
                more,
            ) matches Ok(p) && p.sent == self.sent() && result.ends(self.range(), p)) by {
                self.stream.lemma_whole(more);
                let rest = self.stream.lemma_passed(more);
                reader::lemma_over_concat(
                    reader::begun(),
                    self.range(),
                    self.stream.passed(),
                    rest,
                );
                reader::lemma_done_stays(self.progress.progress(), self.range(), rest);
            }
        }
        Ok(ReadAction::Finished(result))
    }
}

/// The first and the last id of the entries that were found.
pub open spec fn id_range(found: Found) -> Option<(nat, nat)> {
    if found.entries.len() == 0 {
        None
    } else {
        Some((found.entries[0].0, found.entries.last().0))
    }
}

/// Both ids are those of entries that were found, and where ids ascend no entry is outside
/// them. There are ids exactly where there are entries.
pub proof fn lemma_the_ids_span_what_was_found(found: Found)
    ensures
        id_range(found) is Some <==> found.entries.len() > 0,
        id_range(found) matches Some((first, last)) ==> {
            &&& exists|i: int| 0 <= i < found.entries.len() && (#[trigger] found.entries[i]).0 == first
            &&& exists|i: int| 0 <= i < found.entries.len() && (#[trigger] found.entries[i]).0 == last
            &&& reader::ascending(found.entries) ==> forall|i: int|
                0 <= i < found.entries.len() ==> first <= (#[trigger] found.entries[i]).0 <= last
        },
{
    let n = found.entries.len() as int;
    if n > 0 {
        assert(found.entries[n - 1] == found.entries.last());
        assert(found.entries[0].0 == (id_range(found)->0).0);
        if reader::ascending(found.entries) {
            assert forall|i: int| 0 <= i < n implies (id_range(found)->0).0 <= (
            #[trigger] found.entries[i]).0 <= (id_range(found)->0).1 by {
                if i > 0 {
                    assert(found.entries[0].0 < found.entries[i].0);
                }
                if i < n - 1 {
                    assert(found.entries[i].0 < found.entries[n - 1].0);
                }
            }
        }
    }
}

/// A first and a last id, where there are some.
pub open spec fn ids_view(ids: Option<(UintN, UintN)>) -> Option<(nat, nat)> {
    match ids {
        Some((first, last)) => Some((first@, last@)),
        None => None,
    }
}

/// What a scan of a file needs, or has found.
#[derive(Debug)]
pub enum ScanAction {
    /// Read this many bytes, or as many as there are.
    Fill(usize),
    /// The header, and the first and the last id of the entries.
    Finished(WalHeader, Option<(UintN, UintN)>),
}

/// A scan of a file for the ids of its entries, block by block.
///
/// The caller asks [`FileScan::poll`] what to do, does it, and asks again.
pub struct FileScan {
    stream: EntryStream,
    header: Option<AnyWalHeader>,
    first: Option<u64>,
    last: Option<u64>,
    file_id: UintN,
}

impl FileScan {
    /// All bytes that were read.
    pub closed spec fn fed(&self) -> Seq<u8> {
        self.stream.fed()
    }

    /// Bytes read and not consumed.
    pub closed spec fn window(&self) -> Seq<u8> {
        self.stream.window()
    }

    /// Whether the file has no more bytes.
    pub closed spec fn ended(&self) -> bool {
        self.stream.ended()
    }

    /// How many bytes the file had when it was opened.
    pub closed spec fn most(&self) -> nat {
        self.stream.most()
    }

    /// How many unread bytes are awaited before reading goes on, where there are fewer.
    pub closed spec fn awaits(&self) -> Option<nat> {
        self.stream.awaits()
    }

    /// The id of the file.
    pub closed spec fn file(&self) -> nat {
        self.file_id@
    }

    /// Whether `more` may still follow what was read.
    pub open spec fn may_follow(&self, more: Seq<u8>) -> bool {
        self.ended() ==> more.len() == 0
    }

    pub closed spec fn inv(&self) -> bool {
        let passed = self.stream.passed();
        &&& self.stream.inv()
        &&& self.stream.started() == (self.header is Some)
        &&& self.header is Some ==> self.header->0@ == self.stream.any()
        &&& !self.stream.started() ==> passed == Seq::<Entry>::empty()
        &&& if passed.len() == 0 {
            self.first is None && self.last is None
        } else {
            &&& self.first is Some && self.last is Some
            &&& self.first->0 as nat == passed[0].0
            &&& self.last->0 as nat == passed.last().0
        }
        &&& self.stream.most() == 0 ==> !self.stream.started()
        &&& self.stream.granularity() == WAL_SCAN_BLOCK_CAPACITY
    }

    /// A scan of the file `file_id`, which has `file_len` bytes.
    pub fn new(file_id: &UintN, file_len: usize) -> (r: FileScan)
        ensures
            r.inv(),
            r.fed() == Seq::<u8>::empty(),
            r.window() == Seq::<u8>::empty(),
            !r.ended(),
            r.most() == file_len,
            r.file() == file_id@,
    {
        FileScan {
            stream: EntryStream::new(WAL_SCAN_BLOCK_CAPACITY, file_len),
            header: None,
            first: None,
            last: None,
            file_id: file_id.clone(),
        }
    }

    /// Adds bytes that were read. None means that there are no more.
    pub fn feed(&mut self, data: &[u8])
        requires
            old(self).inv(),
            !old(self).ended(),
            old(self).window().len() + data@.len() <= isize::MAX,
        ensures
            final(self).inv(),
            final(self).fed() == old(self).fed() + data@,
            final(self).window() == old(self).window() + data@,
            final(self).ended() == (data@.len() == 0),
            final(self).most() == old(self).most(),
            final(self).file() == old(self).file(),
    {
        self.stream.feed(data);
    }

    /// How many bytes are read and not consumed.
    pub fn unread_len(&self) -> (n: usize)
        ensures
            n as nat == self.window().len(),
    {
        self.stream.unread().len()
    }

    /// What to do next.
    ///
    /// What the scan finds is what the whole file holds, whatever the bytes are that have not
    /// been read. A file without a whole header is empty, and so is one that was empty when
    /// it was opened.
    pub fn poll(&mut self) -> (r: Result<ScanAction, WalError>)
        requires
            old(self).inv(),
        ensures
            final(self).inv(),
            final(self).fed() == old(self).fed(),
            final(self).ended() == old(self).ended(),
            final(self).most() == old(self).most(),
            final(self).file() == old(self).file(),
            final(self).window().len() <= old(self).window().len(),
            final(self).most() == 0 ==> r matches Err(WalError::WalEmpty(_)),
            match r {
                Ok(ScanAction::Fill(n)) => {
                    &&& !final(self).ended()
                    &&& final(self).awaits() matches Some(want)
                    &&& n == top_up(
                        final(self).window().len(),
                        want,
                        WAL_SCAN_BLOCK_CAPACITY as nat,
                    )
                    &&& 0 < n && (n <= WAL_SCAN_BLOCK_CAPACITY || final(self).window().len() + n
                        <= final(self).most())
                },
                Ok(ScanAction::Finished(header, ids)) => forall|more: Seq<u8>|
                    final(self).may_follow(more) ==> (wal_header_v1::parse_any(
                        #[trigger] (final(self).fed() + more),
                    ) matches Ok((any, n)) && header@ == any.header && ids_view(ids) == id_range(
                        reader::find(
                            BodyView::of(any),
                            (final(self).fed() + more).skip(n as int),
                            final(self).most(),
                        ),
                    )),
                Err(WalError::WalEmpty(id)) => id@ == final(self).file() && forall|more: Seq<u8>|
                    final(self).may_follow(more) && final(self).most() > 0 ==> (wal_header_v1::parse_any(
                        #[trigger] (final(self).fed() + more),
                    ) matches Err(e) && e.cut_short()),
                Err(e) => e is WalHeaderError && !e->WalHeaderError_0.cut_short() && forall|
                    more: Seq<u8>,
                |
                    wal_header_v1::parse_any(#[trigger] (final(self).fed() + more)) == Err::<
                        (AnyHeaderView, nat),
                        AnyWalHeaderError,
                    >(e->WalHeaderError_0),
            },
    {
        if self.stream.is_empty_file() {
            return Err(WalError::WalEmpty(self.file_id.clone()));
        }
        if !self.stream.has_started() {
            match self.stream.begin() {
                Ok(Ok(header)) => {
                    self.header = Some(header);
                },
                Ok(Err(n)) => {
                    return Ok(ScanAction::Fill(n));
                },
                Err(e) => {
                    if e.is_cut_short() {
                        return Err(WalError::WalEmpty(self.file_id.clone()));
                    }
                    return Err(WalError::from(e));
                },
            }
        }
        let mut going: bool = true;
        while going
            invariant
                self.inv(),
                self.stream.started(),
                self.fed() == old(self).fed(),
                self.ended() == old(self).ended(),
                self.most() == old(self).most(),
                self.file() == old(self).file(),
                self.window().len() <= old(self).window().len(),
                !going ==> forall|more: Seq<u8>|
                    self.stream.may_follow(more) ==> (#[trigger] self.stream.whole(more)).entries
                        == self.stream.passed(),
            decreases
                    self.stream.window().len() + if going {
                        1int
                    } else {
                        0int
                    },
        {
            let ghost before = *self;
            let look: Look = self.stream.look();
            match look {
                Look::More(want) => {
                    let n: usize = self.stream.fill(want);
                    return Ok(ScanAction::Fill(n));
                },
                Look::Entry { id, .. } => {
                    self.stream.take(look);
                    if self.first.is_none() {
                        self.first = Some(id);
                    }
                    self.last = Some(id);
                },
                _ => {
                    going = false;
                },
            }
        }
        let ids: Option<(UintN, UintN)> = match (self.first, self.last) {
            (Some(first), Some(last)) => Some((UintN::from(first), UintN::from(last))),
            _ => None,
        };
        let header: WalHeader = match &self.header {
            Some(header) => header.to_header(),
            None => WalHeader::default(),
        };
        proof {
            assert forall|more: Seq<u8>| self.may_follow(more) implies (wal_header_v1::parse_any(
                #[trigger] (self.fed() + more),
            ) matches Ok((any, n)) && header@ == any.header && ids_view(ids) == id_range(
                reader::find(BodyView::of(any), (self.fed() + more).skip(n as int), self.most()),
            )) by {
                self.stream.lemma_whole(more);
                assert(self.stream.whole(more).entries == self.stream.passed());
            }
        }
        Ok(ScanAction::Finished(header, ids))
    }
}

} // verus!
