//! Reading a file in pieces: what has been read ahead, and what to read next.

use vstd::prelude::*;
use vstd::slice::{slice_subrange, slice_to_vec};

verus! {

/// The most bytes that one read asks for.
pub const MAX_READ: usize = 1048576;

/// Where to go in a file.
#[derive(Debug, Clone, Copy, PartialEq, Eq, Structural)]
pub enum SeekFrom {
    Start(u64),
    Current(i64),
    End(i64),
}

/// What a reader needs next.
#[derive(Debug, Clone, Copy, PartialEq, Eq, Structural)]
pub enum ReadStep {
    /// Nothing was asked for, or there are bytes to hand out.
    Ready,
    /// Read this many bytes at this offset.
    Fetch { offset: u64, len: usize },
}

/// A reader as its users see it.
#[verifier::ext_equal]
pub struct ReadView {
    /// Where in the file the next byte is.
    pub offset: nat,
    /// The bytes from there on that have been read.
    pub ahead: Seq<u8>,
    /// What the buffer holds, handed out or not.
    pub buffer: Seq<u8>,
}

impl ReadView {
    /// What is needed before `wanted` bytes can be handed out, or some of them.
    pub open spec fn needs(self, wanted: usize) -> ReadStep {
        if wanted == 0 || self.ahead.len() > 0 {
            ReadStep::Ready
        } else {
            ReadStep::Fetch {
                offset: self.offset as u64,
                len: if wanted < MAX_READ {
                    wanted
                } else {
                    MAX_READ
                },
            }
        }
    }

    /// How many of `wanted` bytes are handed out at once.
    pub open spec fn at_once(self, wanted: nat) -> nat {
        if wanted < self.ahead.len() {
            wanted
        } else {
            self.ahead.len()
        }
    }

    /// The reader once the next `n` bytes are handed out.
    pub open spec fn past(self, n: nat) -> ReadView {
        ReadView { offset: self.offset + n, ahead: self.ahead.skip(n as int), buffer: self.buffer }
    }
}

/// What is handed out is the front of what was read ahead, as much of it as is wanted, and the
/// rest stays for later, at the offset that follows. More is read only when nothing is left and
/// something is wanted: at the offset, no more than is wanted, and at most a mebibyte.
pub proof fn lemma_what_is_handed_out(r: ReadView, wanted: usize)
    ensures
        ({
            let n = r.at_once(wanted as nat);
            let after = r.past(n);
            &&& n <= wanted
            &&& r.ahead.take(n as int) + after.ahead == r.ahead
            &&& n < wanted ==> after.ahead.len() == 0
            &&& after.offset == r.offset + n
            &&& after.offset + after.ahead.len() == r.offset + r.ahead.len()
        }),
        r.needs(wanted) == ReadStep::Ready <==> wanted == 0 || r.at_once(wanted as nat) > 0,
        r.offset <= u64::MAX ==> (r.needs(wanted) matches ReadStep::Fetch { offset, len } ==> offset
            == r.offset && 0 < len <= wanted && (len == wanted || len == 1048576) && len <= 1048576),
{
    let n = r.at_once(wanted as nat);
    assert(r.ahead.take(n as int) + r.past(n).ahead =~= r.ahead);
}

/// Where a seek goes, where there is such a place.
pub open spec fn seek_target(from: SeekFrom, offset: nat, file_len: nat) -> Option<nat> {
    let place = match from {
        SeekFrom::Start(n) => n as int,
        SeekFrom::Current(n) => offset + n,
        SeekFrom::End(n) => file_len + n,
    };
    if 0 <= place <= u64::MAX {
        Some(place as nat)
    } else {
        None
    }
}

/// A seek goes where it is told, from the start of the file, from where the reader is or from
/// the end; and nowhere if that is before the start or beyond what an offset can say. Two seeks
/// in a row go as far as one.
pub proof fn lemma_where_a_seek_goes(offset: nat, file_len: nat, n: u64, a: i64, b: i64)
    requires
        offset <= u64::MAX,
        file_len <= u64::MAX,
    ensures
        seek_target(SeekFrom::Start(n), offset, file_len) == Some(n as nat),
        seek_target(SeekFrom::Current(0), offset, file_len) == Some(offset),
        seek_target(SeekFrom::End(0), offset, file_len) == Some(file_len),
        seek_target(SeekFrom::Current(a), offset, file_len) is None <==> offset + a < 0 || offset + a
            > u64::MAX,
        seek_target(SeekFrom::Current(a), offset, file_len) matches Some(x) ==> x == offset + a,
        seek_target(SeekFrom::End(a), offset, file_len) is None <==> file_len + a < 0 || file_len + a
            > u64::MAX,
        seek_target(SeekFrom::End(a), offset, file_len) matches Some(x) ==> x == file_len + a,
        seek_target(SeekFrom::Current(a), offset, file_len) matches Some(x) ==> i64::MIN <= a + b
            <= i64::MAX ==> seek_target(SeekFrom::Current(b), x, file_len) == seek_target(
            SeekFrom::Current((a + b) as i64),
            offset,
            file_len,
        ),
{
}

/// `a` moved by `n`, where that is a place.
fn moved(a: u64, n: i64) -> (r: Option<u64>)
    ensures
        match r {
            Some(v) => v == a + n,
            None => a + n < 0 || a + n > u64::MAX,
        },
{
    if n >= 0 {
        a.checked_add(n as u64)
    } else {
        let back: u64 = (-(n + 1)) as u64 + 1;
        a.checked_sub(back)
    }
}

/// A reader of a file.
pub struct ReadWindow {
    offset: u64,
    buffer: Vec<u8>,
    start: usize,
    end: usize,
}

impl View for ReadWindow {
    type V = ReadView;

    closed spec fn view(&self) -> ReadView {
        ReadView {
            offset: self.offset as nat,
            ahead: self.buffer@.subrange(self.start as int, self.end as int),
            buffer: self.buffer@,
        }
    }
}

impl ReadWindow {
    pub closed spec fn inv(&self) -> bool {
        self.start <= self.end <= self.buffer@.len() && self.offset + (self.end - self.start)
            <= u64::MAX
    }

    /// A reader at the start of a file.
    pub fn new() -> (w: ReadWindow)
        ensures
            w.inv(),
            w@ == (ReadView { offset: 0, ahead: Seq::empty(), buffer: Seq::empty() }),
    {
        let w = ReadWindow { offset: 0, buffer: Vec::new(), start: 0, end: 0 };
        assert(w@.ahead =~= Seq::empty());
        w
    }

    /// Goes to another place. Says where that is; `None` if there is no such place. What was
    /// read ahead is dropped, and the buffer is kept.
    pub fn seek(&mut self, from: SeekFrom, file_len: u64) -> (r: Option<u64>)
        requires
            old(self).inv(),
        ensures
            final(self).inv(),
            match r {
                Some(n) => seek_target(from, old(self)@.offset, file_len as nat) == Some(n as nat)
                    && final(self)@ == (ReadView {
                    offset: n as nat,
                    ahead: Seq::empty(),
                    buffer: old(self)@.buffer,
                }),
                None => seek_target(from, old(self)@.offset, file_len as nat) is None && *final(
                    self
                ) == *old(self),
            },
    {
        let target: Option<u64> = match from {
            SeekFrom::Start(n) => Some(n),
            SeekFrom::Current(n) => moved(self.offset, n),
            SeekFrom::End(n) => moved(file_len, n),
        };
        if let Some(n) = target {
            self.start = 0;
            self.end = 0;
            self.offset = n;
            assert(self@.ahead =~= Seq::empty());
        }
        target
    }

    /// What is needed before `wanted` bytes can be handed out, or some of them.
    pub fn step(&self, wanted: usize) -> (step: ReadStep)
        requires
            self.inv(),
        ensures
            step == self@.needs(wanted),
    {
        if wanted == 0 || self.start != self.end {
            return ReadStep::Ready;
        }
        ReadStep::Fetch {
            offset: self.offset,
            len: if wanted < MAX_READ {
                wanted
            } else {
                MAX_READ
            },
        }
    }

    /// Gives the buffer out, so that the next read reuses it, and is left with an empty one.
    pub fn take_buffer(&mut self) -> (buffer: Vec<u8>)
        requires
            old(self).inv(),
            old(self)@.ahead.len() == 0,
        ensures
            final(self).inv(),
            buffer@ == old(self)@.buffer,
            final(self)@ == (ReadView { buffer: Seq::empty(), ..old(self)@ }),
    {
        let mut buffer: Vec<u8> = Vec::new();
        self.start = 0;
        self.end = 0;
        std::mem::swap(&mut buffer, &mut self.buffer);
        assert(self@.ahead =~= Seq::empty());
        buffer
    }

    /// Takes the buffer back, whose first `n` bytes were read at the offset.
    pub fn fetched(&mut self, buffer: Vec<u8>, n: usize)
        requires
            old(self).inv(),
            old(self)@.ahead.len() == 0,
            n <= buffer@.len(),
            old(self)@.offset + n <= u64::MAX,
        ensures
            final(self).inv(),
            final(self)@ == (ReadView {
                offset: old(self)@.offset,
                ahead: buffer@.take(n as int),
                buffer: buffer@,
            }),
    {
        self.buffer = buffer;
        self.start = 0;
        self.end = n;
        assert(self@.ahead =~= buffer@.take(n as int));
    }

    /// Hands out the next bytes, at most `wanted` of them.
    pub fn serve(&mut self, wanted: usize) -> (out: Vec<u8>)
        requires
            old(self).inv(),
        ensures
            final(self).inv(),
            out@ == old(self)@.ahead.take(old(self)@.at_once(wanted as nat) as int),
            final(self)@ == old(self)@.past(old(self)@.at_once(wanted as nat)),
    {
        let ghost before = self@;
        let have: usize = self.end - self.start;
        let n: usize = if wanted < have {
            wanted
        } else {
            have
        };
        let part: &[u8] = slice_subrange(self.buffer.as_slice(), self.start, self.start + n);
        let out: Vec<u8> = slice_to_vec(part);
        assert(out@ =~= before.ahead.take(n as int));
        self.start = self.start + n;
        self.offset = self.offset + n as u64;
        assert(self@.ahead =~= before.ahead.skip(n as int));
        out
    }
}

} // verus!
