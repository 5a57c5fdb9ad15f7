//! Reading files of either format: which entries they hold, and the entries of a range.

use bytes::{Bytes, BytesMut};
use vstd::prelude::*;
use vstd::slice::slice_subrange;

use crate::buf;
use crate::errors::WalError;
use crate::uintn::UintN;
use crate::varint;
use crate::wal_entry;
use crate::wal_entry::{WalEntryError, WalEntryHeader, WAL_ENTRY_HASH_SIZE};
use crate::wal_entry_v1;
use crate::wal_entry_v1::{WalEntryV1, WAL_ENTRY_V1_CRC_SIZE, WAL_ENTRY_V1_MIN_SIZE};
use crate::wal_header::{WalHeader, WAL_HEADER_V0_VERSION};
use crate::wal_header_v1;
use crate::wal_header_v1::{AnyHeaderView, AnyWalHeader, AnyWalHeaderError};
use crate::wal_page;

verus! {

/// How far a read goes at once beyond the length that a file had when it was opened.
pub const READ_AHEAD: usize = 65536;

/// One entry: its id and its record.
pub type Entry = (nat, Seq<u8>);

/// What is needed to read the entries that follow a header.
pub enum BodyView {
    /// Entries without ids; the next one has this id.
    V1 { next: nat },
    /// Entries that start with an id and a record size of these widths.
    V0 { id_size: nat, data_size: nat },
}

/// What stands at the front of the unread bytes of a file.
pub enum Front {
    /// A whole entry, and how many bytes it takes.
    Entry { id: nat, record: Seq<u8>, consumed: nat },
    /// The header of an entry whose record is cut short or damaged.
    Torn { id: nat },
    /// Nothing that can be read.
    End,
}

impl BodyView {
    /// How to read the entries of a file with this header.
    pub open spec fn of(any: AnyHeaderView) -> BodyView {
        if any.version == WAL_HEADER_V0_VERSION {
            BodyView::V0 { id_size: any.header.id_size, data_size: any.header.data_size }
        } else {
            BodyView::V1 { next: any.header.before }
        }
    }

    /// How to read what follows one entry.
    pub open spec fn after(self) -> BodyView {
        match self {
            BodyView::V1 { next } => BodyView::V1 { next: next + 1 },
            BodyView::V0 { .. } => self,
        }
    }

    pub open spec fn inv(self) -> bool {
        match self {
            BodyView::V1 { .. } => true,
            BodyView::V0 { id_size, data_size } => 1 <= id_size <= 8 && 1 <= data_size <= 8,
        }
    }

    /// What stands at the front of `data`, when that is all there is. An entry without an id
    /// that would be longer than `limit` has a damaged size.
    #[verifier::opaque]
    pub open spec fn front(self, data: Seq<u8>, limit: nat) -> Front {
        match self {
            BodyView::V1 { next } => match varint::decode_32(data) {
                Err(_) => Front::End,
                Ok((size, at)) => if at + size + 4 > limit || next > u64::MAX {
                    Front::End
                } else {
                    match wal_entry_v1::parse(data) {
                        Ok((record, consumed)) => Front::Entry { id: next, record, consumed },
                        Err(_) => Front::End,
                    }
                },
            },
            BodyView::V0 { id_size, data_size } => match wal_entry::parse_header(
                data,
                id_size,
                data_size,
            ) {
                None => Front::End,
                Some(h) => {
                    let at = (id_size + data_size + 8) as int;
                    let end = at + h.record_size;
                    if data.len() < end {
                        Front::Torn { id: h.id }
                    } else if wal_entry::xxh64_of(data.subrange(at, end), 0) != h.hash {
                        Front::Torn { id: h.id }
                    } else {
                        Front::Entry { id: h.id, record: data.subrange(at, end), consumed: end as nat }
                    }
                },
            },
        }
    }

    /// How many bytes are awaited before the front of `data` is looked at, where there are
    /// fewer and more may come.
    pub open spec fn awaits(self, data: Seq<u8>, limit: nat) -> Option<nat> {
        match self {
            BodyView::V1 { .. } => if data.len() < WAL_ENTRY_V1_MIN_SIZE {
                Some(WAL_ENTRY_V1_MIN_SIZE as nat)
            } else {
                match varint::decode_32(data) {
                    Ok((size, at)) if data.len() < at + size + 4 <= limit => Some(at + size + 4),
                    _ => None,
                }
            },
            BodyView::V0 { id_size, data_size } => match wal_entry::parse_header(
                data,
                id_size,
                data_size,
            ) {
                Some(h) => {
                    let end = id_size + data_size + 8 + h.record_size;
                    if data.len() < end {
                        Some(within_reach(data.len(), end, limit))
                    } else {
                        None
                    }
                },
                None => Some(id_size + data_size + 8),
            },
        }
    }

    /// Whether more bytes could not change what stands at the front of `data`.
    pub open spec fn decided(self, data: Seq<u8>, limit: nat) -> bool {
        match self {
            BodyView::V1 { .. } => match varint::decode_32(data) {
                Err(e) => e != varint::VarintError::Truncated,
                Ok((size, at)) => at + size + 4 > limit || at + size + 4 <= data.len(),
            },
            BodyView::V0 { id_size, data_size } => match wal_entry::parse_header(
                data,
                id_size,
                data_size,
            ) {
                None => false,
                Some(h) => id_size + data_size + 8 + h.record_size <= data.len(),
            },
        }
    }
}

/// How many bytes to await at once where there are `have` and `end` are wanted: no more than
/// the file had when it was opened, or a little more than there are. A damaged size asks for
/// far too many.
pub open spec fn within_reach(have: nat, end: nat, limit: nat) -> nat {
    let reach = if limit < have + READ_AHEAD {
        have + READ_AHEAD as nat
    } else {
        limit
    };
    if end < reach {
        end
    } else {
        reach
    }
}

/// The entries of a file, and the id of the entry that reading broke off at, where it is
/// known.
#[verifier::ext_equal]
pub struct Found {
    pub entries: Seq<Entry>,
    pub torn: Option<nat>,
}

/// What reading `data` to its end finds.
pub open spec fn find(body: BodyView, data: Seq<u8>, limit: nat) -> Found
    decreases data.len(),
{
    match body.front(data, limit) {
        Front::Entry { id, record, consumed } => if 0 < consumed <= data.len() {
            let rest = find(body.after(), data.skip(consumed as int), limit);
            Found { entries: seq![(id, record)] + rest.entries, torn: rest.torn }
        } else {
            Found { entries: Seq::empty(), torn: None }
        },
        Front::Torn { id } => Found { entries: Seq::empty(), torn: Some(id) },
        Front::End => Found { entries: Seq::empty(), torn: None },
    }
}

/// An entry takes some of the bytes, and has an id of 64 bits.
pub proof fn lemma_front_consumes(body: BodyView, data: Seq<u8>, limit: nat)
    requires
        body.inv(),
    ensures
        body.front(data, limit) matches Front::Entry { consumed, .. } ==> 0 < consumed <= data.len(),
        body.front(data, limit) is Entry ==> !(body matches BodyView::V1 { next } && next > u64::MAX),
{
    reveal(BodyView::front);
    if body is V1 {
        varint::lemma_decode_32_shape(data);
    }
}

/// Where bytes are awaited, they are more than there are, and no more than the whole file, or
/// a little more than there are.
pub proof fn lemma_awaits(body: BodyView, data: Seq<u8>, limit: nat)
    requires
        body.inv(),
    ensures
        body.awaits(data, limit) matches Some(n) ==> data.len() < n && (n <= limit || n
            <= data.len() + READ_AHEAD),
{
}

/// What is found begins with what stands at the front.
pub proof fn lemma_find_begins(body: BodyView, data: Seq<u8>, limit: nat)
    requires
        body.inv(),
    ensures
        find(body, data, limit) == match body.front(data, limit) {
            Front::Entry { id, record, consumed } => {
                let rest = find(body.after(), data.skip(consumed as int), limit);
                Found { entries: seq![(id, record)] + rest.entries, torn: rest.torn }
            },
            Front::Torn { id } => Found { entries: Seq::empty(), torn: Some(id) },
            Front::End => Found { entries: Seq::empty(), torn: None },
        },
{
    lemma_front_consumes(body, data, limit);
}

/// Once it is decided what stands at the front, more bytes change nothing about it.
pub proof fn lemma_front_extends(body: BodyView, data: Seq<u8>, more: Seq<u8>, limit: nat)
    requires
        body.inv(),
        body.decided(data, limit),
    ensures
        body.front(data + more, limit) == body.front(data, limit),
{
    reveal(BodyView::front);
    let all = data + more;
    match body {
        BodyView::V1 { next } => {
            varint::lemma_decode_extends(data, more, 5, u32::MAX as nat);
            if let Ok((size, at)) = varint::decode_32(data) {
                if at + size + 4 <= data.len() {
                    wal_entry_v1::lemma_parse_extends(data, more);
                }
            }
        },
        BodyView::V0 { id_size, data_size } => {
            let a = id_size as int;
            let b = (id_size + data_size) as int;
            assert(all.subrange(0, a) =~= data.subrange(0, a));
            assert(all.subrange(a, b) =~= data.subrange(a, b));
            assert(all.subrange(b, b + 8) =~= data.subrange(b, b + 8));
            let end = b + 8 + wal_entry::parse_header(data, id_size, data_size)->0.record_size;
            if end <= data.len() {
                assert(all.subrange(b + 8, end) =~= data.subrange(b + 8, end));
            }
        },
    }
}

/// What reads from `from` on ask for.
pub struct RangeView {
    pub from: nat,
    /// The last id that is wanted, where there is a last one.
    pub until: Option<nat>,
    /// Every how many-th entry from `from` on is wanted.
    pub step: nat,
}

impl RangeView {
    /// Whether the id lies beyond the range.
    pub open spec fn past(self, id: nat) -> bool {
        match self.until {
            Some(until) => id > until,
            None => false,
        }
    }

    /// Whether the entry `id` is asked for.
    pub open spec fn wants(self, id: nat) -> bool {
        self.from <= id && !self.past(id) && (id - self.from) % (self.step as int) == 0
    }
}

/// How far a read has come.
#[verifier::ext_equal]
pub struct Progress {
    /// What has been handed out.
    pub sent: Seq<Entry>,
    /// The last id that was looked at.
    pub last: Option<nat>,
    /// Whether the end of the range was reached.
    pub done: bool,
    /// Whether an entry that is asked for could not be read.
    pub missed: bool,
}

/// A read that has not begun.
pub open spec fn begun() -> Progress {
    Progress { sent: Seq::empty(), last: None, done: false, missed: false }
}

impl Progress {
    /// The read after one more entry. It ends at an entry beyond the range, and once the last
    /// entry of the range is handed out.
    pub open spec fn next(self, range: RangeView, entry: Entry) -> Progress {
        if self.done {
            self
        } else if range.past(entry.0) {
            Progress { last: Some(entry.0), done: true, ..self }
        } else if range.wants(entry.0) {
            Progress {
                sent: self.sent.push(entry),
                last: Some(entry.0),
                done: range.until == Some(entry.0),
                ..self
            }
        } else {
            Progress { last: Some(entry.0), ..self }
        }
    }

    /// The read after the entries of `entries`.
    pub open spec fn over(self, range: RangeView, entries: Seq<Entry>) -> Progress
        decreases entries.len(),
    {
        if entries.len() == 0 {
            self
        } else {
            self.over(range, entries.drop_last()).next(range, entries.last())
        }
    }

    /// The read after it broke off at an entry, where it did.
    pub open spec fn broken_off(self, range: RangeView, torn: Option<nat>) -> Progress {
        match torn {
            Some(id) if !self.done => Progress {
                last: Some(id),
                missed: range.wants(id),
                ..self
            },
            _ => self,
        }
    }

    /// Whether everything that was asked for has been read: the read came to the end of the
    /// range, and missed nothing there.
    pub open spec fn complete(self, range: RangeView) -> bool {
        match (range.until, self.last) {
            (Some(until), Some(last)) => last >= until && !self.missed,
            _ => false,
        }
    }

    /// The last id that was handed out.
    pub open spec fn last_sent(self) -> Option<nat> {
        if self.sent.len() > 0 {
            Some(self.sent.last().0)
        } else {
            None
        }
    }
}

/// A read of the entries that were found.
pub open spec fn read(range: RangeView, found: Found) -> Progress {
    begun().over(range, found.entries).broken_off(range, found.torn)
}

/// Going over entries in two parts is going over them at once.
pub proof fn lemma_over_concat(p: Progress, range: RangeView, a: Seq<Entry>, b: Seq<Entry>)
    ensures
        p.over(range, a + b) == p.over(range, a).over(range, b),
    decreases b.len(),
{
    if b.len() == 0 {
        assert(a + b =~= a);
    } else {
        lemma_over_concat(p, range, a, b.drop_last());
        assert((a + b).drop_last() =~= a + b.drop_last());
    }
}

/// A read that has ended does not change any more.
pub proof fn lemma_done_stays(p: Progress, range: RangeView, entries: Seq<Entry>)
    requires
        p.done,
    ensures
        p.over(range, entries) == p,
    decreases entries.len(),
{
    if entries.len() > 0 {
        lemma_done_stays(p, range, entries.drop_last());
    }
}

/// Going over more entries hands out more, and takes nothing back.
pub proof fn lemma_over_extends(p: Progress, range: RangeView, entries: Seq<Entry>)
    ensures
        p.sent.is_prefix_of(p.over(range, entries).sent),
    decreases entries.len(),
{
    if entries.len() > 0 {
        lemma_over_extends(p, range, entries.drop_last());
        let head = p.over(range, entries.drop_last());
        assert(p.sent =~= head.sent.subrange(0, p.sent.len() as int));
        let all = p.over(range, entries);
        assert(p.sent =~= all.sent.subrange(0, p.sent.len() as int));
    }
}

/// Whether the ids of `entries` ascend.
pub open spec fn ascending(entries: Seq<Entry>) -> bool {
    forall|i: int, j: int| 0 <= i < j < entries.len() ==> (#[trigger] entries[i]).0 < (
    #[trigger] entries[j]).0
}

/// The entries of `entries` that are asked for.
pub open spec fn wanted(range: RangeView, entries: Seq<Entry>) -> Seq<Entry>
    decreases entries.len(),
{
    if entries.len() == 0 {
        Seq::empty()
    } else {
        let head = wanted(range, entries.drop_last());
        if range.wants(entries.last().0) {
            head.push(entries.last())
        } else {
            head
        }
    }
}

/// A read hands out exactly the entries that are asked for, in their order: ending early
/// leaves none of them out.
pub proof fn lemma_read_hands_out_what_is_wanted(range: RangeView, entries: Seq<Entry>)
    requires
        ascending(entries),
    ensures
        begun().over(range, entries).sent == wanted(range, entries),
        begun().over(range, entries).done ==> entries.len() > 0 && (range.past(
            entries.last().0,
        ) || range.until == Some(entries.last().0)),
    decreases entries.len(),
{
    if entries.len() > 0 {
        let head = entries.drop_last();
        assert(ascending(head)) by {
            assert forall|i: int, j: int| 0 <= i < j < head.len() implies (#[trigger] head[i]).0 < (
            #[trigger] head[j]).0 by {
                assert(entries[i].0 < entries[j].0);
            }
        }
        lemma_read_hands_out_what_is_wanted(range, head);
        let p = begun().over(range, head);
        if p.done {
            let i = head.len() - 1;
            assert(entries[i].0 < entries[entries.len() - 1].0);
        }
    }
}

/// A read goes on until it has come to its end and no further: it is over once it has handed out
/// the last entry of its range, or has met one beyond. What it meets counts as met, whether it
/// was asked for or not.
pub proof fn lemma_where_a_read_is_over(p: Progress, range: RangeView, entry: Entry)
    requires
        !p.done,
    ensures
        ({
            let after = p.next(range, entry);
            &&& after.last == Some(entry.0)
            &&& after.missed == p.missed
            &&& after.done <==> (range.until matches Some(u) && (entry.0 > u || entry.0 == u
                && range.from <= u && (u - range.from) % (range.step as int) == 0))
            &&& after.sent == p.sent || after.sent == p.sent.push(entry)
            &&& after.done ==> after.next(range, entry) == after
        }),
{
}

/// A read that is complete missed nothing: every entry of the file that was asked for was
/// handed out, and an entry that reading broke off at was not asked for.
pub proof fn lemma_a_complete_read_misses_nothing(range: RangeView, found: Found)
    requires
        ascending(found.entries),
        found.torn is Some && found.entries.len() > 0 ==> found.entries.last().0 < found.torn->0,
        read(range, found).complete(range),
    ensures
        read(range, found).sent == wanted(range, found.entries),
        found.torn matches Some(id) ==> !range.wants(id),
{
    lemma_read_hands_out_what_is_wanted(range, found.entries);
    lemma_nothing_missed(begun(), range, found.entries);
}

proof fn lemma_nothing_missed(p: Progress, range: RangeView, entries: Seq<Entry>)
    requires
        !p.missed,
    ensures
        !p.over(range, entries).missed,
    decreases entries.len(),
{
    if entries.len() > 0 {
        lemma_nothing_missed(p, range, entries.drop_last());
    }
}

/// Whether the ids of `entries` run without a gap from `first` on.
pub open spec fn consecutive(entries: Seq<Entry>, first: nat) -> bool {
    forall|i: int| 0 <= i < entries.len() ==> (#[trigger] entries[i]).0 == first + i
}

/// Whether `sent` are the entries that lie a step apart, from `from` on and up to `until`, of
/// `entries` with ids from `first` on.
pub open spec fn steps_through(
    sent: Seq<Entry>,
    entries: Seq<Entry>,
    first: nat,
    from: nat,
    until: Option<nat>,
    step: nat,
) -> bool {
    &&& forall|i: int|
        0 <= i < sent.len() ==> {
            let id = (#[trigger] sent[i]).0;
            &&& first <= id < first + entries.len()
            &&& sent[i] == entries[id - first]
            &&& from <= id
            &&& until matches Some(u) ==> id <= u
            &&& (id - from) % (step as int) == 0
        }
    &&& forall|i: int, j: int|
        0 <= i < j < sent.len() && j == i + 1 ==> (#[trigger] sent[j]).0 == (#[trigger] sent[i]).0
            + step
    &&& sent.len() > 0 ==> if from >= first {
        sent[0].0 == from
    } else {
        sent[0].0 < first + step
    }
    &&& forall|id: nat|
        first <= id < first + entries.len() && from <= id && (until matches Some(u) ==> id <= u)
            && #[trigger] ((id - from) % (step as int)) == 0 ==> exists|i: int|
            0 <= i < sent.len() && (#[trigger] sent[i]).0 == id
}

proof fn lemma_a_multiple_is_a_step_away(x: int, y: int, step: int)
    requires
        step >= 1,
        x % step == 0,
        y % step == 0,
        y < x,
    ensures
        x - y >= step,
        (x - step) % step == 0,
{
    vstd::arithmetic::div_mod::lemma_fundamental_div_mod(x, step);
    vstd::arithmetic::div_mod::lemma_fundamental_div_mod(y, step);
    let a = x / step;
    let b = y / step;
    assert(x - y >= step) by (nonlinear_arith)
        requires
            x == step * a,
            y == step * b,
            y < x,
            step >= 1,
    ;
    vstd::arithmetic::div_mod::lemma_mod_sub_multiples_vanish(x, step);
}

/// The entries that a read hands out lie exactly a step apart: the first is the start of the
/// range where the file holds it, each next one is a step further, and none is left out as far
/// as the file and the range reach.
pub proof fn lemma_every_step_th_entry_is_handed_out(range: RangeView, first: nat, entries: Seq<Entry>)
    requires
        consecutive(entries, first),
        range.step >= 1,
    ensures
        steps_through(
            begun().over(range, entries).sent,
            entries,
            first,
            range.from,
            range.until,
            range.step,
        ),
    decreases entries.len(),
{
    assert(ascending(entries)) by {
        assert forall|i: int, j: int| 0 <= i < j < entries.len() implies (
        #[trigger] entries[i]).0 < (#[trigger] entries[j]).0 by {}
    }
    lemma_read_hands_out_what_is_wanted(range, entries);
    lemma_wanted_steps_through(range, first, entries);
}

proof fn lemma_wanted_steps_through(range: RangeView, first: nat, entries: Seq<Entry>)
    requires
        consecutive(entries, first),
        range.step >= 1,
    ensures
        steps_through(
            wanted(range, entries),
            entries,
            first,
            range.from,
            range.until,
            range.step,
        ),
    decreases entries.len(),
{
    let step = range.step as int;
    let from = range.from as int;
    let sent = wanted(range, entries);
    if entries.len() > 0 {
        let head = entries.drop_last();
        assert forall|i: int| 0 <= i < head.len() implies (#[trigger] head[i]).0 == first + i by {
            assert(head[i] == entries[i]);
        }
        lemma_wanted_steps_through(range, first, head);
        let old = wanted(range, head);
        let last = entries.last();
        assert(entries[entries.len() - 1] == last);
        let id = last.0 as int;
        if range.wants(last.0) {
            assert(sent == old.push(last));
            if old.len() > 0 {
                let before = old.last();
                assert(old[old.len() - 1] == before);
                lemma_a_multiple_is_a_step_away(id - from, before.0 - from, step);
                let q = (id - step) as nat;
                assert((q - from) % step == 0);
                let i = choose|i: int| 0 <= i < old.len() && (#[trigger] old[i]).0 == q;
                if i < old.len() - 1 {
                    assert(old[i + 1].0 == old[i].0 + step);
                }
                assert(before.0 + step == id);
            } else if id - from > 0 {
                assert(0int % step == 0) by {
                    vstd::arithmetic::div_mod::lemma_small_mod(0, step as nat);
                }
                lemma_a_multiple_is_a_step_away(id - from, 0, step);
                let q = (id - step) as nat;
                assert((q - from) % step == 0);
                assert(q < first);
            }
            assert forall|i: int| 0 <= i < sent.len() implies {
                let x = (#[trigger] sent[i]).0;
                &&& first <= x < first + entries.len()
                &&& sent[i] == entries[x - first]
                &&& from <= x
                &&& range.until matches Some(u) ==> x <= u
                &&& (x - from) % step == 0
            } by {
                if i < old.len() {
                    assert(sent[i] == old[i]);
                    assert(head[old[i].0 - first] == entries[old[i].0 - first]);
                }
            }
            assert forall|i: int, j: int| 0 <= i < j < sent.len() && j == i + 1 implies (
            #[trigger] sent[j]).0 == (#[trigger] sent[i]).0 + step by {
                assert(sent[i] == old[i]);
                if j < old.len() {
                    assert(sent[j] == old[j]);
                }
            }
            if old.len() > 0 {
                assert(sent[0] == old[0]);
            }
        } else {
            assert(sent == old);
            assert forall|i: int| 0 <= i < sent.len() implies {
                let x = (#[trigger] sent[i]).0;
                &&& first <= x < first + entries.len()
                &&& sent[i] == entries[x - first]
                &&& from <= x
                &&& range.until matches Some(u) ==> x <= u
                &&& (x - from) % step == 0
            } by {
                assert(head[old[i].0 - first] == entries[old[i].0 - first]);
            }
        }
        assert forall|x: nat|
            first <= x < first + entries.len() && from <= x && (range.until matches Some(u) ==> x
                <= u) && #[trigger] ((x - from) % step) == 0 implies exists|i: int|
            0 <= i < sent.len() && (#[trigger] sent[i]).0 == x by {
            if x == id {
                assert(range.wants(last.0));
                assert(sent[sent.len() - 1].0 == x);
            } else {
                let i = choose|i: int| 0 <= i < old.len() && (#[trigger] old[i]).0 == x;
                assert(sent[i] == old[i]);
            }
        }
    }
}

/// The ids of the entries of a file without stored ids are consecutive.
pub proof fn lemma_found_ids(next: nat, data: Seq<u8>, limit: nat)
    ensures
        ({
            let found = find(BodyView::V1 { next }, data, limit);
            &&& found.torn is None
            &&& forall|i: int|
                0 <= i < found.entries.len() ==> (#[trigger] found.entries[i]).0 == next + i
            &&& ascending(found.entries)
        }),
    decreases data.len(),
{
    reveal(BodyView::front);
    let body = BodyView::V1 { next };
    match body.front(data, limit) {
        Front::Entry { id, record, consumed } => if 0 < consumed <= data.len() {
            lemma_found_ids(next + 1, data.skip(consumed as int), limit);
            let found = find(body, data, limit);
            let rest = find(body.after(), data.skip(consumed as int), limit);
            assert forall|i: int| 0 <= i < found.entries.len() implies (
            #[trigger] found.entries[i]).0 == next + i by {
                if i > 0 {
                    assert(found.entries[i] == rest.entries[i - 1]);
                }
            }
        },
        _ => {},
    }
}

/// The entries with ids from `next` on that `records` make.
pub open spec fn numbered(next: nat, records: Seq<Seq<u8>>) -> Seq<Entry> {
    Seq::new(records.len(), |i: int| (next + i as nat, records[i]))
}

/// Whether `tail` is a part of an entry that was cut short, or nothing.
pub open spec fn cut(tail: Seq<u8>) -> bool {
    exists|record: Seq<u8>, n: int|
        record.len() <= u32::MAX && 0 <= n < wal_entry_v1::frame(record).len() && tail
            == #[trigger] wal_entry_v1::frame(record).take(n)
}

/// An entry that was cut short is not found.
proof fn lemma_cut_is_not_found(next: nat, tail: Seq<u8>, limit: nat)
    requires
        cut(tail),
    ensures
        (BodyView::V1 { next }).front(tail, limit) == Front::End,
{
    reveal(BodyView::front);
    let (record, n) = choose|record: Seq<u8>, n: int|
        record.len() <= u32::MAX && 0 <= n < wal_entry_v1::frame(record).len() && tail
            == #[trigger] wal_entry_v1::frame(record).take(n);
    wal_entry_v1::lemma_parse_of_cut_frame(record, n);
}

/// The entry of a record is found at the front.
proof fn lemma_entry_is_found(next: nat, record: Seq<u8>, more: Seq<u8>, limit: nat)
    requires
        record.len() <= u32::MAX,
        next <= u64::MAX,
        limit >= wal_entry_v1::frame(record).len(),
    ensures
        (BodyView::V1 { next }).front(wal_entry_v1::frame(record) + more, limit) == (Front::Entry {
            id: next,
            record,
            consumed: wal_entry_v1::frame(record).len(),
        }),
{
    reveal(BodyView::front);
    let data = wal_entry_v1::frame(record) + more;
    wal_entry_v1::lemma_parse_of_frame(record, more);
    wal_entry_v1::lemma_frame_len(record);
    varint::lemma_decode_32_shape(data);
}

/// What was written reads back: the records of a file, in order and under the ids that
/// follow its header, and an entry at the end that was cut short drops only itself.
pub proof fn lemma_what_was_written_reads_back(
    next: nat,
    records: Seq<Seq<u8>>,
    tail: Seq<u8>,
    limit: nat,
)
    requires
        forall|i: int| 0 <= i < records.len() ==> (#[trigger] records[i]).len() <= u32::MAX,
        next + records.len() <= u64::MAX,
        limit >= (wal_page::frames(records) + tail).len(),
        cut(tail),
    ensures
        find(BodyView::V1 { next }, wal_page::frames(records) + tail, limit) == (Found {
            entries: numbered(next, records),
            torn: None,
        }),
    decreases records.len(),
{
    let body = BodyView::V1 { next };
    let data = wal_page::frames(records) + tail;
    lemma_find_begins(body, data, limit);
    if records.len() == 0 {
        assert(data =~= tail);
        lemma_cut_is_not_found(next, tail, limit);
        assert(numbered(next, records) =~= Seq::empty());
    } else {
        let first = records[0];
        let rest = records.skip(1);
        let f = wal_entry_v1::frame(first);
        let more = wal_page::frames(rest) + tail;
        assert(data == f + more) by {
            assert(records =~= seq![first] + rest);
            wal_page::lemma_frames_concat(seq![first], rest);
            wal_page::lemma_frames_push(Seq::empty(), first);
            assert(Seq::<Seq<u8>>::empty().push(first) =~= seq![first]);
            assert(wal_page::frames(Seq::empty()) =~= Seq::empty());
            assert(data =~= f + more);
        }
        lemma_entry_is_found(next, first, more, limit);
        assert(data.skip(f.len() as int) =~= more);
        assert forall|i: int| 0 <= i < rest.len() implies (#[trigger] rest[i]).len() <= u32::MAX by {
            assert(rest[i] == records[i + 1]);
        }
        lemma_what_was_written_reads_back(next + 1, rest, tail, limit);
        assert(seq![(next, first)] + numbered(next + 1, rest) =~= numbered(next, records));
    }
}

/// The bytes of `entries` in the first format, one after the other.
pub open spec fn first_frames(entries: Seq<Entry>, id_size: nat, data_size: nat) -> Seq<u8>
    decreases entries.len(),
{
    if entries.len() == 0 {
        Seq::empty()
    } else {
        wal_entry::frame(entries[0].0, entries[0].1, id_size, data_size) + first_frames(
            entries.skip(1),
            id_size,
            data_size,
        )
    }
}

/// Whether `tail` is a part of an entry of the first format that was cut short, or nothing.
pub open spec fn first_cut(tail: Seq<u8>, id_size: nat, data_size: nat) -> bool {
    exists|id: nat, record: Seq<u8>|
        wal_entry::fits(id, record.len(), id_size, data_size) && tail.len() < wal_entry::frame(
            id,
            record,
            id_size,
            data_size,
        ).len() && tail.is_prefix_of(#[trigger] wal_entry::frame(id, record, id_size, data_size))
}

proof fn lemma_first_entry_is_found(entry: Entry, id_size: nat, data_size: nat, more: Seq<u8>, limit: nat)
    requires
        wal_entry::fits(entry.0, entry.1.len(), id_size, data_size),
    ensures
        (BodyView::V0 { id_size, data_size }).front(
            wal_entry::frame(entry.0, entry.1, id_size, data_size) + more,
            limit,
        ) == (Front::Entry {
            id: entry.0,
            record: entry.1,
            consumed: wal_entry::frame(entry.0, entry.1, id_size, data_size).len(),
        }),
{
    reveal(BodyView::front);
    let f = wal_entry::frame(entry.0, entry.1, id_size, data_size);
    let data = f + more;
    wal_entry::lemma_frame_len(entry.0, entry.1, id_size, data_size);
    assert(f.is_prefix_of(data)) by {
        assert(f =~= data.subrange(0, f.len() as int));
    }
    wal_entry::lemma_header_of_frame(entry.0, entry.1, id_size, data_size, data);
    let at = (id_size + data_size + 8) as int;
    assert(data.subrange(at, at + entry.1.len()) =~= entry.1);
}

proof fn lemma_first_cut_is_not_found(id_size: nat, data_size: nat, tail: Seq<u8>, limit: nat)
    requires
        first_cut(tail, id_size, data_size),
    ensures
        !((BodyView::V0 { id_size, data_size }).front(tail, limit) is Entry),
{
    reveal(BodyView::front);
    let (id, record) = choose|id: nat, record: Seq<u8>|
        wal_entry::fits(id, record.len(), id_size, data_size) && tail.len() < wal_entry::frame(
            id,
            record,
            id_size,
            data_size,
        ).len() && tail.is_prefix_of(#[trigger] wal_entry::frame(id, record, id_size, data_size));
    wal_entry::lemma_frame_len(id, record, id_size, data_size);
    if tail.len() >= id_size + data_size + 8 {
        wal_entry::lemma_header_of_frame(id, record, id_size, data_size, tail);
    }
}

/// An entry of the first format that is cut short is named as soon as its own header is there,
/// and leaves no trace before that.
pub proof fn lemma_a_cut_entry_is_named(
    id: nat,
    record: Seq<u8>,
    id_size: nat,
    data_size: nat,
    n: int,
    limit: nat,
)
    requires
        wal_entry::fits(id, record.len(), id_size, data_size),
        0 <= n < wal_entry::frame(id, record, id_size, data_size).len(),
    ensures
        ({
            let tail = wal_entry::frame(id, record, id_size, data_size).take(n);
            let found = find(BodyView::V0 { id_size, data_size }, tail, limit);
            &&& found.entries == Seq::<Entry>::empty()
            &&& n >= id_size + data_size + 8 ==> found.torn == Some(id)
            &&& n < id_size + data_size + 8 ==> found.torn is None
        }),
{
    reveal(BodyView::front);
    let tail = wal_entry::frame(id, record, id_size, data_size).take(n);
    wal_entry::lemma_frame_len(id, record, id_size, data_size);
    if n >= id_size + data_size + 8 {
        wal_entry::lemma_header_of_frame(id, record, id_size, data_size, tail);
    }
}

/// While an entry of the second format is cut short, more is asked for, but never more than
/// the entry: all of it once its size is known.
pub proof fn lemma_what_is_read_for_an_entry(next: nat, record: Seq<u8>, n: int, limit: nat)
    requires
        record.len() <= u32::MAX,
        0 <= n < wal_entry_v1::frame(record).len() <= limit,
    ensures
        ({
            let frame = wal_entry_v1::frame(record);
            match (BodyView::V1 { next }).awaits(frame.take(n), limit) {
                Some(m) => n < m <= frame.len() && (n >= 5 ==> m == frame.len()),
                None => false,
            }
        }),
{
    let frame = wal_entry_v1::frame(record);
    let size = varint::encode(record.len());
    wal_entry_v1::lemma_frame_len(record);
    varint::lemma_encode_len_32(record.len());
    if n >= 5 {
        let rest = frame.take(n).skip(size.len() as int);
        assert(frame.take(n) =~= size + rest);
        varint::lemma_decode_of_encode(record.len(), rest, 5, u32::MAX as nat);
    }
}

/// An entry of the second format that is larger than may be held is not read, and the file ends
/// before it.
pub proof fn lemma_an_entry_that_is_too_large_is_not_read(
    next: nat,
    record: Seq<u8>,
    n: int,
    limit: nat,
)
    requires
        record.len() <= u32::MAX,
        5 <= n <= wal_entry_v1::frame(record).len(),
        wal_entry_v1::frame(record).len() > limit,
    ensures
        ({
            let body = BodyView::V1 { next };
            let part = wal_entry_v1::frame(record).take(n);
            let found = find(body, part, limit);
            &&& body.awaits(part, limit) is None
            &&& found.entries == Seq::<Entry>::empty()
            &&& found.torn is None
        }),
{
    reveal(BodyView::front);
    let frame = wal_entry_v1::frame(record);
    let size = varint::encode(record.len());
    wal_entry_v1::lemma_frame_len(record);
    varint::lemma_encode_len_32(record.len());
    let rest = frame.take(n).skip(size.len() as int);
    assert(frame.take(n) =~= size + rest);
    varint::lemma_decode_of_encode(record.len(), rest, 5, u32::MAX as nat);
}

/// While an entry of the first format is cut short, more is asked for: its header, and then all
/// of it; or, of an entry that is larger than may be held, as much as may be held, and always
/// some more.
pub proof fn lemma_what_is_read_for_a_first_entry(
    id: nat,
    record: Seq<u8>,
    id_size: nat,
    data_size: nat,
    n: int,
    limit: nat,
)
    requires
        wal_entry::fits(id, record.len(), id_size, data_size),
        0 <= n < wal_entry::frame(id, record, id_size, data_size).len(),
    ensures
        ({
            let frame = wal_entry::frame(id, record, id_size, data_size);
            let asked = (BodyView::V0 { id_size, data_size }).awaits(frame.take(n), limit);
            &&& asked matches Some(m) && n < m <= frame.len()
            &&& n < id_size + data_size + 8 ==> asked == Some(id_size + data_size + 8)
            &&& n >= id_size + data_size + 8 && (frame.len() <= limit || frame.len() <= n + 65536)
                ==> asked == Some(frame.len())
            &&& n >= id_size + data_size + 8 && frame.len() > limit && frame.len() > n + 65536
                ==> asked == Some(
                if limit > n + 65536 {
                    limit
                } else {
                    (n + 65536) as nat
                },
            )
        }),
{
    let tail = wal_entry::frame(id, record, id_size, data_size).take(n);
    wal_entry::lemma_frame_len(id, record, id_size, data_size);
    if n >= id_size + data_size + 8 {
        wal_entry::lemma_header_of_frame(id, record, id_size, data_size, tail);
    }
}

/// What was written in the first format reads back, in order and under the ids that were
/// written, and an entry at the end that was cut short drops only itself.
pub proof fn lemma_the_first_format_reads_back(
    id_size: nat,
    data_size: nat,
    entries: Seq<Entry>,
    tail: Seq<u8>,
    limit: nat,
)
    requires
        (BodyView::V0 { id_size, data_size }).inv(),
        forall|i: int|
            0 <= i < entries.len() ==> wal_entry::fits(
                (#[trigger] entries[i]).0,
                entries[i].1.len(),
                id_size,
                data_size,
            ),
        first_cut(tail, id_size, data_size),
    ensures
        find(
            BodyView::V0 { id_size, data_size },
            first_frames(entries, id_size, data_size) + tail,
            limit,
        ).entries == entries,
    decreases entries.len(),
{
    let body = BodyView::V0 { id_size, data_size };
    let data = first_frames(entries, id_size, data_size) + tail;
    lemma_find_begins(body, data, limit);
    if entries.len() == 0 {
        assert(data =~= tail);
        lemma_first_cut_is_not_found(id_size, data_size, tail, limit);
        assert(entries =~= Seq::empty());
    } else {
        let first = entries[0];
        let rest = entries.skip(1);
        let f = wal_entry::frame(first.0, first.1, id_size, data_size);
        let more = first_frames(rest, id_size, data_size) + tail;
        assert(data =~= f + more);
        lemma_first_entry_is_found(first, id_size, data_size, more, limit);
        assert(data.skip(f.len() as int) =~= more);
        assert forall|i: int| 0 <= i < rest.len() implies wal_entry::fits(
            (#[trigger] rest[i]).0,
            rest[i].1.len(),
            id_size,
            data_size,
        ) by {
            assert(rest[i] == entries[i + 1]);
        }
        lemma_the_first_format_reads_back(id_size, data_size, rest, tail, limit);
        assert(seq![first] + rest =~= entries);
    }
}

/// How to read the entries that follow a header.
#[derive(Debug, Clone, Copy, PartialEq, Eq, Structural)]
pub enum WalBody {
    /// Entries without ids. The next one has this id, unless ids have run out.
    V1 { next: Option<u64> },
    /// Entries that start with an id and a record size of these widths.
    V0 { id_size: usize, data_size: usize },
}

impl View for WalBody {
    type V = BodyView;

    open spec fn view(&self) -> BodyView {
        match self {
            WalBody::V1 { next: Some(id) } => BodyView::V1 { next: *id as nat },
            WalBody::V1 { next: None } => BodyView::V1 { next: u64::MAX as nat + 1 },
            WalBody::V0 { id_size, data_size } => BodyView::V0 {
                id_size: *id_size as nat,
                data_size: *data_size as nat,
            },
        }
    }
}

/// What stands at the front of the unread bytes of a file.
#[derive(Debug, Clone, Copy, PartialEq, Eq, Structural)]
pub enum Look {
    /// An entry, whose record is at these places, and how many bytes it takes.
    Entry { id: u64, from: usize, to: usize, consumed: usize },
    /// The header of an entry whose record is cut short or damaged.
    Torn { id: u64 },
    /// Nothing that can be read.
    End,
    /// This many bytes are needed to tell.
    More(usize),
}

impl Look {
    /// Whether this is what stands at the front of `data`.
    pub open spec fn is(self, front: Front, data: Seq<u8>) -> bool {
        match (self, front) {
            (Look::Entry { id, from, to, consumed }, Front::Entry { id: i, record, consumed: c }) => {
                &&& id as nat == i
                &&& from <= to <= data.len()
                &&& record == data.subrange(from as int, to as int)
                &&& consumed as nat == c
            },
            (Look::Torn { id }, Front::Torn { id: i }) => id as nat == i,
            (Look::End, Front::End) => true,
            _ => false,
        }
    }
}

impl WalBody {
    /// How to read the entries of a file with this header.
    pub fn of(header: &AnyWalHeader) -> (body: WalBody)
        requires
            wal_header_v1::valid(header@.header),
        ensures
            body@ == BodyView::of(header@),
            body@.inv(),
    {
        match header {
            AnyWalHeader::V0(h) => WalBody::V0 {
                id_size: h.id_size_bytes as usize,
                data_size: h.data_size_bytes as usize,
            },
            AnyWalHeader::V1(h) => WalBody::V1 { next: Some(h.num_entries_before) },
        }
    }

    /// How to read what follows one entry.
    pub fn after(&self) -> (body: WalBody)
        requires
            self@.inv(),
            !(self@ matches BodyView::V1 { next } && next > u64::MAX),
        ensures
            body@ == self@.after(),
            body@.inv(),
    {
        match self {
            WalBody::V1 { next: Some(id) } => WalBody::V1 { next: id.checked_add(1) },
            _ => *self,
        }
    }

    /// What stands at the front of `data`. `end` says that nothing comes after `data`.
    ///
    /// An entry that is cut short and one that there is nothing of are told apart only where
    /// the first knows its id.
    pub fn look(&self, data: &[u8], limit: usize, end: bool) -> (r: Look)
        requires
            self@.inv(),
            end || data@.len() + READ_AHEAD <= usize::MAX,
        ensures
            match r {
                Look::More(n) => !end && self@.awaits(data@, limit as nat) == Some(n as nat),
                _ => (end || self@.awaits(data@, limit as nat) is None && self@.decided(
                    data@,
                    limit as nat,
                )) && r.is(self@.front(data@, limit as nat), data@),
            },
            r matches Look::Entry { consumed, .. } ==> 0 < consumed <= data@.len() && !(
            self@ matches BodyView::V1 { next } && next > u64::MAX),
    {
        proof {
            reveal(BodyView::front);
        }
        match self {
            WalBody::V1 { next } => {
                let len: usize = data.len();
                if len < WAL_ENTRY_V1_MIN_SIZE && !end {
                    return Look::More(WAL_ENTRY_V1_MIN_SIZE);
                }
                assert(data@.skip(0) =~= data@);
                let (size, at): (u32, usize) = match varint::read_32(data, 0) {
                    Ok(x) => x,
                    Err(_) => {
                        proof {
                            varint::lemma_truncated_is_short(data@, 5, u32::MAX as nat);
                        }
                        return Look::End;
                    },
                };
                proof {
                    varint::lemma_decode_32_shape(data@);
                }
                let total: u64 = at as u64 + size as u64 + WAL_ENTRY_V1_CRC_SIZE as u64;
                if total > limit as u64 {
                    return Look::End;
                }
                if (len as u64) < total {
                    if !end {
                        return Look::More(total as usize);
                    }
                    return Look::End;
                }
                let id: u64 = match next {
                    Some(id) => *id,
                    None => {
                        return Look::End;
                    },
                };
                match WalEntryV1::from_bytes(data) {
                    Ok((_, consumed)) => {
                        let to: usize = at + size as usize;
                        Look::Entry { id, from: at, to, consumed }
                    },
                    Err(_) => Look::End,
                }
            },
            WalBody::V0 { id_size, data_size } => {
                let len: usize = data.len();
                let at: usize = *id_size + *data_size + WAL_ENTRY_HASH_SIZE;
                let header: WalEntryHeader = match WalEntryHeader::from_bytes(
                    data,
                    *id_size,
                    *data_size,
                ) {
                    Ok(h) => h,
                    Err(_) => {
                        if !end {
                            return Look::More(at);
                        }
                        return Look::End;
                    },
                };
                let id: u64 = header.entry_id;
                if header.record_size > (len - at) as u64 {
                    if end {
                        return Look::Torn { id };
                    }
                    let reach: usize = if limit < len + READ_AHEAD {
                        len + READ_AHEAD
                    } else {
                        limit
                    };
                    if header.record_size < (reach - at) as u64 {
                        return Look::More(at + header.record_size as usize);
                    }
                    return Look::More(reach);
                }
                let to: usize = at + header.record_size as usize;
                let record: &[u8] = slice_subrange(data, at, to);
                if header.accepts(wal_entry::xxh64(record, 0)) {
                    Look::Entry { id, from: at, to, consumed: to }
                } else {
                    Look::Torn { id }
                }
            },
        }
    }
}

/// An entry that was asked for.
#[derive(Debug)]
pub struct ReadEntry {
    pub id: UintN,
    pub data: Bytes,
}

impl View for ReadEntry {
    type V = Entry;

    open spec fn view(&self) -> Entry {
        (self.id@, buf::shown(self.data))
    }
}

/// What `entries` hold.
pub open spec fn entry_views(entries: Seq<ReadEntry>) -> Seq<Entry> {
    Seq::new(entries.len(), |i: int| entries[i]@)
}

/// How a read of a range ended.
#[derive(Debug, PartialEq, Eq)]
pub enum ReadRangeResult {
    /// All entries that were asked for were read.
    Complete,
    /// The file ended first, or an entry that was asked for is damaged.
    PartialRead {
        /// The last entry that was handed out.
        last_read_id: Option<UintN>,
        /// The last entry that was looked at; the start of the range if there was none.
        last_id_in_file: UintN,
    },
    /// Nobody takes the entries any more.
    ChannelClosed,
}

impl ReadRangeResult {
    /// Whether this is how a read that has come to `p` ends.
    pub open spec fn ends(self, range: RangeView, p: Progress) -> bool {
        match self {
            ReadRangeResult::Complete => p.complete(range),
            ReadRangeResult::PartialRead { last_read_id, last_id_in_file } => {
                &&& !p.complete(range)
                &&& match (last_read_id, p.last_sent()) {
                    (Some(a), Some(b)) => a@ == b,
                    (None, None) => true,
                    _ => false,
                }
                &&& last_id_in_file@ == match p.last {
                    Some(id) => id,
                    None => range.from,
                }
            },
            ReadRangeResult::ChannelClosed => false,
        }
    }
}

/// How far reading the whole of `content` comes. A header that is cut short is one that
/// nothing has finished writing: nothing is looked at.
pub open spec fn read_content(range: RangeView, content: Seq<u8>, limit: nat) -> Result<
    Progress,
    AnyWalHeaderError,
> {
    match wal_header_v1::parse_any(content) {
        Ok((any, n)) => Ok(
            read(range, find(BodyView::of(any), content.skip(n as int), limit)),
        ),
        Err(e) => if e.cut_short() {
            Ok(begun())
        } else {
            Err(e)
        },
    }
}

/// A read of a range, as far as it has come.
pub struct RangeProgress {
    from: UintN,
    until: Option<UintN>,
    step: usize,
    last: Option<u64>,
    last_sent: Option<u64>,
    done: bool,
    sent: Ghost<Seq<Entry>>,
}

/// A last id, where there is one.
pub open spec fn until_view(until: Option<UintN>) -> Option<nat> {
    match until {
        Some(id) => Some(id@),
        None => None,
    }
}

/// A step of zero is a step of one.
pub open spec fn step_view(step: usize) -> nat {
    if step == 0 {
        1
    } else {
        step as nat
    }
}

/// What a read from `from` on asks for.
pub open spec fn range_view(from: UintN, until: Option<UintN>, step: usize) -> RangeView {
    RangeView { from: from@, until: until_view(until), step: step_view(step) }
}

/// A read asks for what its bounds say, and a step of zero is a step of one.
pub proof fn lemma_what_a_read_asks_for(from: UintN, until: Option<UintN>, step: usize, id: nat)
    ensures
        ({
            let range = range_view(from, until, step);
            &&& range.from == from@
            &&& range.until is None <==> until is None
            &&& until matches Some(u) ==> range.until == Some(u@)
            &&& range.step >= 1
            &&& step > 0 ==> range.step == step
            &&& range.wants(id) ==> from@ <= id && (until matches Some(u) ==> id <= u@)
            &&& step <= 1 ==> (range.wants(id) <==> from@ <= id && (until matches Some(u) ==> id
                <= u@))
        }),
{
    assert((id - from@) % 1 == 0);
}

/// A read that breaks off at a damaged entry says so: that entry was the last in the file, and
/// the read is complete only if the entry lies at or beyond the end of the range and was not
/// asked for.
pub proof fn lemma_how_a_read_breaks_off(p: Progress, range: RangeView, torn: nat)
    requires
        !p.done,
        !p.missed,
    ensures
        ({
            let after = p.broken_off(range, Some(torn));
            &&& after.last == Some(torn)
            &&& after.sent == p.sent
            &&& after.complete(range) <==> (range.until matches Some(u) && u <= torn && !(
            range.from <= torn && torn <= u && (torn - range.from) % (range.step as int) == 0))
            &&& p.broken_off(range, None) == p
        }),
{
}

impl RangeProgress {
    pub closed spec fn range(&self) -> RangeView {
        RangeView { from: self.from@, until: until_view(self.until), step: self.step as nat }
    }

    pub closed spec fn progress(&self) -> Progress {
        Progress {
            sent: self.sent@,
            last: match self.last {
                Some(id) => Some(id as nat),
                None => None,
            },
            done: self.done,
            missed: false,
        }
    }

    pub closed spec fn inv(&self) -> bool {
        &&& self.step >= 1
        &&& match self.last_sent {
            Some(id) => self.progress().last_sent() == Some(id as nat),
            None => self.progress().last_sent() is None,
        }
        &&& self.done ==> self.progress().complete(self.range())
    }

    /// A read that has not begun.
    pub fn new(from: &UintN, until: &Option<UintN>, step: usize) -> (p: RangeProgress)
        ensures
            p.inv(),
            p.range() == range_view(*from, *until, step),
            p.progress() == begun(),
    {
        RangeProgress {
            from: from.clone(),
            until: match until {
                Some(id) => Some(id.clone()),
                None => None,
            },
            step: if step == 0 {
                1
            } else {
                step
            },
            last: None,
            last_sent: None,
            done: false,
            sent: Ghost(Seq::empty()),
        }
    }

    /// Whether the entry `id` is asked for.
    fn wants(&self, id: u64) -> (b: bool)
        requires
            self.inv(),
        ensures
            b == self.range().wants(id as nat),
    {
        let entry_id: UintN = UintN::from(id);
        let past: bool = match &self.until {
            Some(until) => until.is_below(&entry_id),
            None => false,
        };
        !past && !entry_id.is_below(&self.from) && entry_id.in_step(&self.from, self.step)
    }

    /// Looks at the entry `id` and says whether it is handed out.
    pub(crate) fn visit(&mut self, id: u64, record: Ghost<Seq<u8>>) -> (deliver: bool)
        requires
            old(self).inv(),
            !old(self).progress().done,
        ensures
            final(self).inv(),
            final(self).range() == old(self).range(),
            final(self).progress() == old(self).progress().next(
                old(self).range(),
                (id as nat, record@),
            ),
            deliver == old(self).range().wants(id as nat),
    {
        let ghost range = self.range();
        let entry_id: UintN = UintN::from(id);
        self.last = Some(id);
        let past: bool = match &self.until {
            Some(until) => until.is_below(&entry_id),
            None => false,
        };
        if past {
            self.done = true;
            return false;
        }
        if !self.wants(id) {
            return false;
        }
        let reached: bool = match &self.until {
            Some(until) => !entry_id.is_below(until),
            None => false,
        };
        self.last_sent = Some(id);
        self.sent = Ghost(self.sent@.push((id as nat, record@)));
        self.done = reached;
        true
    }

    /// Whether the end of the range was reached.
    pub fn is_done(&self) -> (b: bool)
        ensures
            b == self.progress().done,
    {
        self.done
    }

    /// How the read ends, at an entry that it broke off at where there was one.
    pub fn finish(&self, torn: Option<u64>) -> (r: ReadRangeResult)
        requires
            self.inv(),
        ensures
            r.ends(
                self.range(),
                self.progress().broken_off(
                    self.range(),
                    match torn {
                        Some(id) => Some(id as nat),
                        None => None,
                    },
                ),
            ),
    {
        let (last, missed): (Option<u64>, bool) = match torn {
            Some(id) if !self.done => (Some(id), self.wants(id)),
            _ => (self.last, false),
        };
        let complete: bool = match (&self.until, last) {
            (Some(until), Some(id)) => !missed && !UintN::from(id).is_below(until),
            _ => false,
        };
        if complete {
            return ReadRangeResult::Complete;
        }
        ReadRangeResult::PartialRead {
            last_read_id: match self.last_sent {
                Some(id) => Some(UintN::from(id)),
                None => None,
            },
            last_id_in_file: match last {
                Some(id) => UintN::from(id),
                None => self.from.clone(),
            },
        }
    }
}

/// What the header of a file says.
pub fn get_wal_header(content: &Bytes) -> (r: Result<WalHeader, AnyWalHeaderError>)
    ensures
        match r {
            Ok(h) => wal_header_v1::parse_any(buf::shown(*content)) matches Ok((any, _)) && h@
                == any.header,
            Err(e) => wal_header_v1::parse_any(buf::shown(*content)) == Err::<
                (AnyHeaderView, nat),
                AnyWalHeaderError,
            >(e),
        },
{
    match AnyWalHeader::from_bytes(buf::as_slice(content)) {
        Ok((header, _)) => Ok(header.to_header()),
        Err(e) => Err(e),
    }
}

/// The header of the file `file_id`, of which `content` is at least the first bytes. A file
/// without a whole header is empty.
pub fn read_wal_header(content: &[u8], file_id: &UintN) -> (r: Result<WalHeader, WalError>)
    ensures
        match wal_header_v1::parse_any(content@) {
            Ok((any, _)) => r matches Ok(h) && h@ == any.header,
            Err(e) => if e.cut_short() {
                r matches Err(WalError::WalEmpty(id)) && id@ == file_id@
            } else {
                r == Err::<WalHeader, WalError>(WalError::WalHeaderError(e))
            },
        },
{
    match AnyWalHeader::from_bytes(content) {
        Ok((header, _)) => Ok(header.to_header()),
        Err(e) => {
            if e.is_cut_short() {
                Err(WalError::WalEmpty(file_id.clone()))
            } else {
                Err(WalError::from(e))
            }
        },
    }
}

/// The content of a file, and how many entries it holds.
#[derive(Debug)]
pub struct WalContent {
    pub entries_before: UintN,
    pub num_entries: UintN,
    pub content: Bytes,
}

/// Counts the entries of a file up to the first that is damaged.
pub fn get_wal_content(content: Bytes) -> (r: Result<WalContent, WalError>)
    ensures
        buf::shown(content).len() == 0 ==> r == Err::<WalContent, WalError>(
            WalError::WalEntryError(WalEntryError::SliceTooShort),
        ),
        buf::shown(content).len() > 0 ==> match wal_header_v1::parse_any(buf::shown(content)) {
            Ok((any, n)) => {
                &&& r matches Ok(w)
                &&& w.entries_before@ == any.header.before
                &&& w.num_entries@ == find(
                    BodyView::of(any),
                    buf::shown(content).skip(n as int),
                    buf::shown(content).len(),
                ).entries.len()
                &&& w.content == content
            },
            Err(e) => r == Err::<WalContent, WalError>(WalError::WalHeaderError(e)),
        },
{
    let data: &[u8] = buf::as_slice(&content);
    let len: usize = data.len();
    if len == 0 {
        return Err(WalError::WalEntryError(WalEntryError::SliceTooShort));
    }
    let (header, start): (AnyWalHeader, usize) = match AnyWalHeader::from_bytes(data) {
        Ok(x) => x,
        Err(e) => {
            return Err(WalError::from(e));
        },
    };
    proof {
        wal_header_v1::lemma_parse_any_valid(data@);
    }
    let mut body: WalBody = WalBody::of(&header);
    let ghost all = find(body@, data@.skip(start as int), len as nat);
    let mut cursor: usize = start;
    let mut num_entries: u64 = 0;
    let mut going: bool = true;
    while going
        invariant
            body@.inv(),
            data@.len() == len,
            cursor <= len,
            num_entries + find(body@, data@.skip(cursor as int), len as nat).entries.len()
                == all.entries.len(),
            num_entries <= cursor,
            !going ==> find(body@, data@.skip(cursor as int), len as nat).entries.len() == 0,
        decreases len - cursor + if going {
                1int
            } else {
                0int
            },
    {
        let rest: &[u8] = slice_subrange(data, cursor, len);
        assert(rest@ =~= data@.skip(cursor as int));
        match body.look(rest, len, true) {
            Look::Entry { consumed, .. } => {
                proof {
                    assert(rest@.skip(consumed as int) =~= data@.skip(cursor + consumed));
                    let next = find(body@.after(), rest@.skip(consumed as int), len as nat);
                    assert(find(body@, rest@, len as nat).entries.len() == 1 + next.entries.len());
                }
                cursor = cursor + consumed;
                num_entries = num_entries + 1;
                body = body.after();
            },
            _ => {
                going = false;
            },
        }
    }
    Ok(
        WalContent {
            entries_before: header.num_entries_before(),
            num_entries: UintN::from(num_entries),
            content,
        },
    )
}

/// The entries of `content` with ids from `from_id` to `until_id`, every `step`-th of them,
/// and how the read ended.
pub fn read_wal_bytes_range(
    content: &Bytes,
    from_id: &UintN,
    until_id: &Option<UintN>,
    step: usize,
) -> (r: Result<(Vec<ReadEntry>, ReadRangeResult), WalError>)
    ensures
        match read_content(
            range_view(*from_id, *until_id, step),
            buf::shown(*content),
            buf::shown(*content).len(),
        ) {
            Ok(p) => r matches Ok((entries, result)) && entry_views(entries@) == p.sent
                && result.ends(range_view(*from_id, *until_id, step), p),
            Err(e) => r == Err::<(Vec<ReadEntry>, ReadRangeResult), WalError>(
                WalError::WalHeaderError(e),
            ),
        },
{
    let data: &[u8] = buf::as_slice(content);
    let len: usize = data.len();
    let ghost range = range_view(*from_id, *until_id, step);
    let mut progress: RangeProgress = RangeProgress::new(from_id, until_id, step);
    let mut entries: Vec<ReadEntry> = Vec::new();
    assert(entry_views(entries@) =~= Seq::empty());
    let (header, start): (AnyWalHeader, usize) = match AnyWalHeader::from_bytes(data) {
        Ok(x) => x,
        Err(e) => {
            if e.is_cut_short() {
                let result: ReadRangeResult = progress.finish(None);
                return Ok((entries, result));
            }
            return Err(WalError::from(e));
        },
    };
    proof {
        wal_header_v1::lemma_parse_any_valid(data@);
    }
    let mut body: WalBody = WalBody::of(&header);
    let ghost all = find(body@, data@.skip(start as int), len as nat);
    let ghost mut passed: Seq<Entry> = Seq::empty();
    let mut cursor: usize = start;
    proof {
        let rest = find(body@, data@.skip(cursor as int), len as nat);
        assert(all.entries =~= passed + rest.entries);
    }
    while !progress.is_done()
        invariant
            data@ == buf::shown(*content),
            data@.len() == len,
            body@.inv(),
            cursor <= len,
            progress.inv(),
            progress.range() == range,
            range == range_view(*from_id, *until_id, step),
            progress.progress() == begun().over(range, passed),
            entry_views(entries@) == progress.progress().sent,
            ({
                let rest = find(body@, data@.skip(cursor as int), len as nat);
                all == (Found { entries: passed + rest.entries, torn: rest.torn })
            }),
            read_content(range, data@, len as nat) == Ok::<Progress, AnyWalHeaderError>(
                read(range, all),
            ),
        decreases len - cursor,
    {
        let rest: &[u8] = slice_subrange(data, cursor, len);
        assert(rest@ =~= data@.skip(cursor as int));
        match body.look(rest, len, true) {
            Look::Entry { id, from, to, consumed } => {
                let ghost record = rest@.subrange(from as int, to as int);
                let ghost entry: Entry = (id as nat, record);
                proof {
                    let next = find(body@.after(), rest@.skip(consumed as int), len as nat);
                    assert(rest@.skip(consumed as int) =~= data@.skip(cursor + consumed));
                    assert(passed + (seq![entry] + next.entries) =~= passed.push(entry)
                        + next.entries);
                    assert(passed.push(entry).drop_last() =~= passed);
                }
                let deliver: bool = progress.visit(id, Ghost(record));
                if deliver {
                    let item = ReadEntry {
                        id: UintN::from(id),
                        data: buf::slice(content, cursor + from, cursor + to),
                    };
                    assert(buf::shown(item.data) =~= record);
                    let ghost was = entries@;
                    entries.push(item);
                    assert(entry_views(entries@) =~= entry_views(was).push(entry));
                }
                proof {
                    passed = passed.push(entry);
                }
                cursor = cursor + consumed;
                body = body.after();
            },
            Look::Torn { id } => {
                assert(all.entries =~= passed);
                let result: ReadRangeResult = progress.finish(Some(id));
                return Ok((entries, result));
            },
            Look::End => {
                assert(all.entries =~= passed);
                let result: ReadRangeResult = progress.finish(None);
                return Ok((entries, result));
            },
            Look::More(_) => {},
        }
    }
    proof {
        let rest = find(body@, data@.skip(cursor as int), len as nat);
        lemma_over_concat(begun(), range, passed, rest.entries);
        lemma_done_stays(progress.progress(), range, rest.entries);
    }
    let result: ReadRangeResult = progress.finish(None);
    Ok((entries, result))
}

} // verus!
