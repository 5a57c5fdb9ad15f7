//! What reading gives of what was written: counts, ids, ranges, and how a read ends.

use vstd::prelude::*;

use crate::le;
use crate::reader;
use crate::reader::{BodyView, Entry, Found, RangeView, ReadRangeResult};
use crate::stream;
use crate::wal_entry;
use crate::wal_entry_v1;
use crate::wal_header;
use crate::wal_header::HeaderView;
use crate::wal_header_v1;
use crate::wal_page;
use crate::writer::WalEntryFormat;

verus! {

/// The bytes of a file of the second format: a header, the entries of `records`, and whatever
/// of one more entry got there.
pub open spec fn file(header: HeaderView, records: Seq<Seq<u8>>, tail: Seq<u8>) -> Seq<u8> {
    wal_header_v1::encode(header) + wal_page::frames(records) + tail
}

/// Whether `header`, `records` and `tail` are what a writer puts into a file.
pub open spec fn writable(header: HeaderView, records: Seq<Seq<u8>>, tail: Seq<u8>) -> bool {
    &&& 1 <= header.data_size <= 8
    &&& 1 <= header.id_size <= 8
    &&& forall|i: int| 0 <= i < records.len() ==> (#[trigger] records[i]).len() <= u32::MAX
    &&& header.before + records.len() <= u64::MAX
    &&& reader::cut(tail)
}

/// What a file holds is found again.
proof fn lemma_a_file_is_found(header: HeaderView, records: Seq<Seq<u8>>, tail: Seq<u8>, limit: nat)
    requires
        writable(header, records, tail),
        limit >= file(header, records, tail).len(),
    ensures
        ({
            let content = file(header, records, tail);
            &&& wal_header_v1::parse_any(content) matches Ok((any, n)) && any.header == header
                && any.version == wal_header_v1::WAL_HEADER_V1_VERSION && n <= content.len()
                && reader::find(BodyView::of(any), content.skip(n as int), limit) == (Found {
                entries: reader::numbered(header.before, records),
                torn: None,
            })
        }),
{
    let head = wal_header_v1::encode(header);
    let body = wal_page::frames(records) + tail;
    let content = file(header, records, tail);
    assert(content =~= head + body);
    wal_header_v1::lemma_parse_of_encode(header, body);
    wal_header_v1::lemma_fields_len(header);
    wal_header_v1::lemma_version_word(header, body);
    assert(content.skip(head.len() as int) =~= body);
    reader::lemma_what_was_written_reads_back(header.before, records, tail, limit);
}

/// A scan of a file gives its header, and the ids from the count in it up to that of the last
/// whole entry. A file without whole entries has no ids.
pub proof fn lemma_a_scan_finds_the_ids(
    header: HeaderView,
    records: Seq<Seq<u8>>,
    tail: Seq<u8>,
    limit: nat,
)
    requires
        writable(header, records, tail),
        limit >= file(header, records, tail).len(),
    ensures
        ({
            let content = file(header, records, tail);
            &&& wal_header_v1::parse_any(content) matches Ok((any, n)) && any.header == header
                && stream::id_range(
                reader::find(BodyView::of(any), content.skip(n as int), limit),
            ) == if records.len() == 0 {
                None::<(nat, nat)>
            } else {
                Some((header.before, (header.before + records.len() - 1) as nat))
            }
        }),
{
    lemma_a_file_is_found(header, records, tail, limit);
}

/// As many entries are counted in a file as were written to it whole.
pub proof fn lemma_all_entries_are_counted(
    header: HeaderView,
    records: Seq<Seq<u8>>,
    tail: Seq<u8>,
)
    requires
        writable(header, records, tail),
    ensures
        ({
            let content = file(header, records, tail);
            &&& wal_header_v1::parse_any(content) matches Ok((any, n)) && any.header.before
                == header.before && reader::find(
                BodyView::of(any),
                content.skip(n as int),
                content.len(),
            ).entries.len() == records.len()
        }),
{
    lemma_a_file_is_found(header, records, tail, file(header, records, tail).len());
}

/// A read of a range of a file hands out the records that lie a step apart, under their ids.
pub proof fn lemma_a_range_reads_back(
    header: HeaderView,
    records: Seq<Seq<u8>>,
    tail: Seq<u8>,
    range: RangeView,
    limit: nat,
)
    requires
        writable(header, records, tail),
        range.step >= 1,
        limit >= file(header, records, tail).len(),
    ensures
        reader::read_content(range, file(header, records, tail), limit) matches Ok(p)
            && reader::steps_through(
            p.sent,
            Seq::new(records.len(), |i: int| (header.before + i as nat, records[i])),
            header.before,
            range.from,
            range.until,
            range.step,
        ),
{
    lemma_a_file_is_found(header, records, tail, limit);
    let entries = reader::numbered(header.before, records);
    assert(entries =~= Seq::new(
        records.len(),
        |i: int| (header.before + i as nat, records[i]),
    ));
    reader::lemma_every_step_th_entry_is_handed_out(range, header.before, entries);
}

/// How far a read of consecutive entries comes.
proof fn lemma_where_a_read_stops(range: RangeView, first: nat, entries: Seq<Entry>)
    requires
        reader::consecutive(entries, first),
        range.step >= 1,
    ensures
        ({
            let p = reader::begun().over(range, entries);
            let reached = range.until matches Some(u) && entries.len() > 0 && u < first
                + entries.len();
            &&& !p.missed
            &&& p.complete(range) <==> reached
            &&& !p.complete(range) ==> !p.done && p.last == if entries.len() == 0 {
                None::<nat>
            } else {
                Some((first + entries.len() - 1) as nat)
            }
        }),
    decreases entries.len(),
{
    if entries.len() > 0 {
        let head = entries.drop_last();
        assert forall|i: int| 0 <= i < head.len() implies (#[trigger] head[i]).0 == first + i by {
            assert(head[i] == entries[i]);
        }
        lemma_where_a_read_stops(range, first, head);
        assert(entries[entries.len() - 1] == entries.last());
    }
}

/// A read is complete exactly if the file reaches the end of the range. Otherwise it says which
/// entry the file ended with, or where the range begins if it holds none; and which entry was
/// handed out last.
pub proof fn lemma_how_a_read_ends(
    header: HeaderView,
    records: Seq<Seq<u8>>,
    tail: Seq<u8>,
    range: RangeView,
    limit: nat,
    result: ReadRangeResult,
)
    requires
        writable(header, records, tail),
        range.step >= 1,
        limit >= file(header, records, tail).len(),
        reader::read_content(range, file(header, records, tail), limit) matches Ok(p)
            && result.ends(range, p),
    ensures
        match result {
            ReadRangeResult::Complete => range.until matches Some(u) && records.len() > 0 && u
                < header.before + records.len(),
            ReadRangeResult::PartialRead { last_read_id, last_id_in_file } => {
                let p = reader::read_content(range, file(header, records, tail), limit)->Ok_0;
                &&& !(range.until matches Some(u) && records.len() > 0 && u < header.before
                    + records.len())
                &&& last_id_in_file@ == if records.len() == 0 {
                    range.from
                } else {
                    (header.before + records.len() - 1) as nat
                }
                &&& last_read_id is Some <==> p.sent.len() > 0
                &&& last_read_id matches Some(id) ==> id@ == p.sent.last().0
            },
            ReadRangeResult::ChannelClosed => false,
        },
{
    lemma_a_file_is_found(header, records, tail, limit);
    let entries = reader::numbered(header.before, records);
    lemma_where_a_read_stops(range, header.before, entries);
}

/// The records of `entries`.
pub open spec fn records_of(entries: Seq<Entry>) -> Seq<Seq<u8>> {
    Seq::new(entries.len(), |i: int| entries[i].1)
}

/// Whatever the bytes are, what is found in them stands there: they begin with the entries of
/// the records that were found, one after the other.
pub proof fn lemma_what_is_found_stands_there(next: nat, data: Seq<u8>, limit: nat)
    ensures
        ({
            let found = reader::find(BodyView::V1 { next }, data, limit);
            let there = wal_page::frames(records_of(found.entries));
            &&& there.len() <= data.len()
            &&& data.take(there.len() as int) == there
        }),
    decreases data.len(),
{
    let body = BodyView::V1 { next };
    let found = reader::find(body, data, limit);
    reader::lemma_find_begins(body, data, limit);
    reader::lemma_front_consumes(body, data, limit);
    match body.front(data, limit) {
        reader::Front::Entry { id, record, consumed } => {
            let rest = data.skip(consumed as int);
            lemma_what_is_found_stands_there(next + 1, rest, limit);
            let after = reader::find(body.after(), rest, limit);
            assert(wal_entry_v1::parse(data) == Ok::<
                (Seq<u8>, nat),
                wal_entry_v1::WalEntryV1Error,
            >((record, consumed))) by {
                reveal(BodyView::front);
            }
            wal_entry_v1::lemma_parse_is_exact(data);
            let f = wal_entry_v1::frame(record);
            assert(records_of(found.entries) =~= seq![record] + records_of(after.entries));
            wal_page::lemma_frames_concat(seq![record], records_of(after.entries));
            wal_page::lemma_frames_push(Seq::empty(), record);
            assert(Seq::<Seq<u8>>::empty().push(record) =~= seq![record]);
            assert(wal_page::frames(Seq::empty()) =~= Seq::empty());
            let tail = wal_page::frames(records_of(after.entries));
            assert(wal_page::frames(records_of(found.entries)) =~= f + tail);
            assert(data.take((f + tail).len() as int) =~= f + tail) by {
                assert(data =~= data.take(consumed as int) + rest);
                assert(rest.take(tail.len() as int) =~= tail);
            }
        },
        _ => {
            assert(records_of(found.entries) =~= Seq::empty());
            assert(wal_page::frames(Seq::empty()) =~= Seq::empty());
            assert(data.take(0) =~= Seq::empty());
        },
    }
}

/// A header of which only a part got to disk is one that is cut short, in either format.
pub proof fn lemma_a_part_of_a_header_is_cut_short(format: WalEntryFormat, header: HeaderView, n: int)
    requires
        1 <= header.data_size <= 8,
        1 <= header.id_size <= 8,
        header.before < vstd::arithmetic::power::pow(256, header.id_size),
        header.before <= u64::MAX,
        0 <= n < format.header(header).len(),
    ensures
        wal_header_v1::parse_any(format.header(header).take(n)) matches Err(e) && e.cut_short(),
{
    let whole = format.header(header);
    let part = whole.take(n);
    let rest = whole.skip(n);
    assert(part + rest =~= whole);
    assert(whole + Seq::<u8>::empty() =~= whole);
    match format {
        WalEntryFormat::V0 => {
            wal_header::lemma_what_a_header_is(header);
            wal_header::lemma_parse_of_encode(header, Seq::empty());
        },
        WalEntryFormat::V1 => {
            wal_header_v1::lemma_what_a_header_is(header);
            wal_header_v1::lemma_parse_of_encode(header, Seq::empty());
            wal_header_v1::lemma_version_word(header, Seq::empty());
        },
    }
    wal_header_v1::lemma_parse_any_extends(part, rest);
}

/// A file of which only a part of the header got to disk is read as one without entries, and as
/// no error.
pub proof fn lemma_a_part_of_a_header_gives_nothing(
    format: WalEntryFormat,
    header: HeaderView,
    n: int,
    range: RangeView,
    limit: nat,
)
    requires
        1 <= header.data_size <= 8,
        1 <= header.id_size <= 8,
        header.before < vstd::arithmetic::power::pow(256, header.id_size),
        header.before <= u64::MAX,
        0 <= n < format.header(header).len(),
    ensures
        reader::read_content(range, format.header(header).take(n), limit) matches Ok(p)
            && p.sent.len() == 0 && p.last is None && !p.complete(range),
{
    lemma_a_part_of_a_header_is_cut_short(format, header, n);
}

/// The bytes of a file of the first format.
pub open spec fn first_file(header: HeaderView, entries: Seq<Entry>, tail: Seq<u8>) -> Seq<u8> {
    wal_header::encode(header) + reader::first_frames(entries, header.id_size, header.data_size)
        + tail
}

/// Whether `header`, `entries` and `tail` are what a writer puts into a file of the first
/// format.
pub open spec fn first_writable(header: HeaderView, entries: Seq<Entry>, tail: Seq<u8>) -> bool {
    &&& 1 <= header.data_size <= 8
    &&& 1 <= header.id_size <= 8
    &&& header.before < vstd::arithmetic::power::pow(256, header.id_size)
    &&& forall|i: int|
        0 <= i < entries.len() ==> (#[trigger] entries[i]).0 < vstd::arithmetic::power::pow(
            256,
            header.id_size,
        ) && entries[i].1.len() < vstd::arithmetic::power::pow(256, header.data_size)
    &&& reader::first_cut(tail, header.id_size, header.data_size)
}

/// What a file of the first format holds is found again: as many entries as were written, from
/// the first id to the last, and of a range those that lie a step apart.
pub proof fn lemma_a_first_format_file_is_found(
    header: HeaderView,
    entries: Seq<Entry>,
    tail: Seq<u8>,
    range: RangeView,
    first: nat,
    limit: nat,
)
    requires
        first_writable(header, entries, tail),
        range.step >= 1,
        forall|i: int| 0 <= i < entries.len() ==> (#[trigger] entries[i]).0 == first + i,
    ensures
        ({
            let content = first_file(header, entries, tail);
            &&& wal_header_v1::parse_any(content) matches Ok((any, n)) && any.header == header && {
                let found = reader::find(BodyView::of(any), content.skip(n as int), limit);
                &&& found.entries == entries
                &&& stream::id_range(found) == if entries.len() == 0 {
                    None::<(nat, nat)>
                } else {
                    Some((first, (first + entries.len() - 1) as nat))
                }
            }
            &&& reader::read_content(range, content, limit) matches Ok(p) && reader::steps_through(
                p.sent,
                entries,
                first,
                range.from,
                range.until,
                range.step,
            )
        }),
{
    wal_header::lemma_what_a_header_is(header);
    le::lemma_span_is_a_power(header.id_size);
    le::lemma_span_is_a_power(header.data_size);
    let head = wal_header::encode(header);
    let body = reader::first_frames(entries, header.id_size, header.data_size) + tail;
    let content = first_file(header, entries, tail);
    assert(content =~= head + body);
    wal_header::lemma_parse_of_encode(header, body);
    assert(content.skip(head.len() as int) =~= body);
    assert forall|i: int| 0 <= i < entries.len() implies wal_entry::fits(
        (#[trigger] entries[i]).0,
        entries[i].1.len(),
        header.id_size,
        header.data_size,
    ) by {}
    reader::lemma_the_first_format_reads_back(
        header.id_size,
        header.data_size,
        entries,
        tail,
        limit,
    );
    reader::lemma_every_step_th_entry_is_handed_out(range, first, entries);
}

/// An entry of the first format is handed out only with a record whose hash is the one that was
/// stored with it, under the id that was stored.
pub proof fn lemma_a_damaged_record_is_not_handed_out(
    id_size: nat,
    data_size: nat,
    data: Seq<u8>,
    limit: nat,
)
    ensures
        (BodyView::V0 { id_size, data_size }).front(data, limit) matches reader::Front::Entry {
            id,
            record,
            consumed,
        } ==> {
            let a = id_size as int;
            let b = (id_size + data_size) as int;
            &&& consumed == b + 8 + record.len()
            &&& consumed <= data.len()
            &&& id == le::value(data.subrange(0, a))
            &&& record.len() == le::value(data.subrange(a, b))
            &&& record == data.subrange(b + 8, consumed as int)
            &&& wal_entry::xxh64_of(record, 0) == le::value(data.subrange(b, b + 8)) as u64
        },
{
    reveal(BodyView::front);
}

/// A file whose header is cut short gives nothing, and no error.
pub proof fn lemma_a_file_without_a_whole_header_gives_nothing(
    range: RangeView,
    content: Seq<u8>,
    limit: nat,
)
    requires
        wal_header_v1::parse_any(content) matches Err(e) && e.cut_short(),
    ensures
        reader::read_content(range, content, limit) matches Ok(p) && p.sent.len() == 0 && p.last
            is None && !p.complete(range),
{
}

} // verus!
