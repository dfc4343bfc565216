//! How topic records, footnotes, system records and phrase tables lie in bytes,
//! and that reading them gives back what was laid out.

use vstd::prelude::*;

use crate::bytes::{
    cstring, holds, joined, le16_bytes, le32, le32_bytes, lemma_holds_all, lemma_holds_cstring,
    lemma_holds_le16, lemma_holds_le32, lemma_holds_parts, lemma_nul_from, nul_free, nul_from,
    text_of,
};
use crate::error::ErrorView;
use crate::font::{descriptor_at, face_name, fonts_result, FontDescriptorView};
use crate::opcode::segments_from;
use crate::phrase::{bounds_at, cut_from, table_result, PhraseSource, PhraseTableView};
use crate::system::{
    nul_string, system_result, with_record, with_records, SystemInfoView, SYSTEM_MAGIC,
};
use crate::topic::{
    blocks_from, metadata_of, no_metadata, records_from, with_footnote, with_footnotes,
    RawTopicRecordView, TopicBlockView, TopicMetadataView, RECORD_HEADER_SIZE,
    TOPIC_BLOCK_HEADER_SIZE,
};

verus! {

// ---------------------------------------------------------------------------
// Topic blocks
// ---------------------------------------------------------------------------

/// The bytes of a block that is not compressed.
pub open spec fn block_bytes(b: TopicBlockView) -> Seq<u8> {
    le32_bytes(b.last_topic_link) + (le32_bytes(b.first_topic_link) + (le32_bytes(
        b.last_topic_header,
    ) + b.data))
}

/// The bytes of blocks, one after another.
pub open spec fn blocks_bytes(blocks: Seq<TopicBlockView>) -> Seq<u8>
    decreases blocks.len(),
{
    if blocks.len() == 0 {
        Seq::empty()
    } else {
        block_bytes(blocks[0]) + blocks_bytes(blocks.skip(1))
    }
}

proof fn lemma_blocks(
    data: Seq<u8>,
    pos: int,
    block_size: nat,
    phrases: PhraseTableView,
    blocks: Seq<TopicBlockView>,
)
    requires
        holds(data, pos, blocks_bytes(blocks)),
        pos + blocks_bytes(blocks).len() == data.len(),
        block_size >= TOPIC_BLOCK_HEADER_SIZE,
        phrases.phrases.len() == 0,
        forall|i: int|
            0 <= i < blocks.len() ==> (#[trigger] blocks[i]).data.len() + TOPIC_BLOCK_HEADER_SIZE
                == block_size,
    ensures
        blocks_from(data, pos, block_size, false, phrases) == Ok::<
            Seq<TopicBlockView>,
            ErrorView,
        >(blocks),
    decreases blocks.len(),
{
    if blocks.len() > 0 {
        let b = blocks[0];
        let rest = blocks.skip(1);
        assert(b.data.len() + TOPIC_BLOCK_HEADER_SIZE == block_size);
        assert forall|i: int| 0 <= i < rest.len() implies (#[trigger] rest[i]).data.len()
            + TOPIC_BLOCK_HEADER_SIZE == block_size by {
            assert(rest[i] == blocks[i + 1]);
        }
        lemma_holds_parts(data, pos, block_bytes(b), blocks_bytes(rest));
        let third = le32_bytes(b.last_topic_header) + b.data;
        let second = le32_bytes(b.first_topic_link) + third;
        lemma_holds_parts(data, pos, le32_bytes(b.last_topic_link), second);
        lemma_holds_parts(data, pos + 4, le32_bytes(b.first_topic_link), third);
        lemma_holds_parts(data, pos + 8, le32_bytes(b.last_topic_header), b.data);
        lemma_holds_le32(data, pos, b.last_topic_link);
        lemma_holds_le32(data, pos + 4, b.first_topic_link);
        lemma_holds_le32(data, pos + 8, b.last_topic_header);
        lemma_blocks(data, pos + block_size, block_size, phrases, rest);
        assert(seq![b] + rest =~= blocks);
    } else {
        assert(blocks =~= Seq::empty());
    }
}

/// Blocks that are neither compressed nor phrase-encoded are read back as they
/// were laid out.
pub proof fn law_plain_blocks_are_read_back(
    block_size: nat,
    phrases: PhraseTableView,
    blocks: Seq<TopicBlockView>,
)
    requires
        block_size >= TOPIC_BLOCK_HEADER_SIZE,
        phrases.phrases.len() == 0,
        forall|i: int|
            0 <= i < blocks.len() ==> (#[trigger] blocks[i]).data.len() + TOPIC_BLOCK_HEADER_SIZE
                == block_size,
    ensures
        blocks_from(blocks_bytes(blocks), 0, block_size, false, phrases) == Ok::<
            Seq<TopicBlockView>,
            ErrorView,
        >(blocks),
{
    let data = blocks_bytes(blocks);
    lemma_holds_all(data);
    lemma_blocks(data, 0, block_size, phrases, blocks);
}

// ---------------------------------------------------------------------------
// Topic records
// ---------------------------------------------------------------------------

/// The bytes of a record.
pub open spec fn record_bytes(r: RawTopicRecordView) -> Seq<u8> {
    le32_bytes((RECORD_HEADER_SIZE + r.data.len()) as u32) + (le32_bytes(r.data_size) + (seq![
        r.record_type,
    ] + r.data))
}

/// The bytes of records, one after another.
pub open spec fn records_bytes(records: Seq<RawTopicRecordView>) -> Seq<u8>
    decreases records.len(),
{
    if records.len() == 0 {
        Seq::empty()
    } else {
        record_bytes(records[0]) + records_bytes(records.skip(1))
    }
}

/// Whether the records follow one another from `pos` on, each with a size that
/// a record header can hold.
pub open spec fn consecutive(records: Seq<RawTopicRecordView>, pos: int) -> bool
    decreases records.len(),
{
    records.len() == 0 || {
        &&& records[0].stream_offset == pos
        &&& RECORD_HEADER_SIZE + records[0].data.len() <= u32::MAX
        &&& consecutive(records.skip(1), pos + RECORD_HEADER_SIZE + records[0].data.len())
    }
}

pub proof fn lemma_records(stream: Seq<u8>, pos: int, records: Seq<RawTopicRecordView>)
    requires
        holds(stream, pos, records_bytes(records)),
        consecutive(records, pos),
    ensures
        records_from(stream, pos) == records + records_from(
            stream,
            pos + records_bytes(records).len(),
        ),
    decreases records.len(),
{
    let after = records_from(stream, pos + records_bytes(records).len());
    if records.len() == 0 {
        assert(records + after =~= after);
    } else {
        let r = records[0];
        let rest = records.skip(1);
        let size = (RECORD_HEADER_SIZE + r.data.len()) as u32;
        lemma_holds_parts(stream, pos, record_bytes(r), records_bytes(rest));
        let third = seq![r.record_type] + r.data;
        lemma_holds_parts(stream, pos, le32_bytes(size), le32_bytes(r.data_size) + third);
        lemma_holds_parts(stream, pos + 4, le32_bytes(r.data_size), third);
        lemma_holds_parts(stream, pos + 8, seq![r.record_type], r.data);
        lemma_holds_le32(stream, pos, size);
        lemma_holds_le32(stream, pos + 4, r.data_size);
        assert(stream.subrange(pos + 8, pos + 9)[0] == stream[pos + 8]);
        lemma_records(stream, pos + size, rest);
        assert(seq![r] + (rest + after) =~= records + after);
    }
}

/// The records of a topic stream are read back as they were laid out. What
/// follows them counts for nothing where it is too short for a record header
/// or declares a record that is smaller than its header.
pub proof fn law_records_are_read_back(records: Seq<RawTopicRecordView>, tail: Seq<u8>)
    requires
        consecutive(records, 0),
        tail.len() < RECORD_HEADER_SIZE || le32(tail, 0) < RECORD_HEADER_SIZE,
    ensures
        records_from(records_bytes(records) + tail, 0) == records,
{
    let stream = records_bytes(records) + tail;
    let end = records_bytes(records).len() as int;
    assert(stream.subrange(0, end) =~= records_bytes(records));
    lemma_records(stream, 0, records);
    if tail.len() >= RECORD_HEADER_SIZE {
        assert(stream[end] == tail[0] && stream[end + 1] == tail[1] && stream[end + 2] == tail[2]
            && stream[end + 3] == tail[3]);
    }
    assert(records_from(stream, end) =~= Seq::empty());
    assert(records + Seq::<RawTopicRecordView>::empty() =~= records);
}

// ---------------------------------------------------------------------------
// Footnotes
// ---------------------------------------------------------------------------

/// The bytes of footnotes: each is a marker and a string.
pub open spec fn footnotes_bytes(notes: Seq<(u8, Seq<u8>)>) -> Seq<u8>
    decreases notes.len(),
{
    if notes.len() == 0 {
        Seq::empty()
    } else {
        seq![notes[0].0] + (cstring(notes[0].1) + footnotes_bytes(notes.skip(1)))
    }
}

/// The metadata after all footnotes.
pub open spec fn noted(meta: TopicMetadataView, notes: Seq<(u8, Seq<u8>)>) -> TopicMetadataView
    decreases notes.len(),
{
    if notes.len() == 0 {
        meta
    } else {
        noted(with_footnote(meta, notes[0].0, text_of(notes[0].1)), notes.skip(1))
    }
}

proof fn lemma_footnotes(
    meta: TopicMetadataView,
    data: Seq<u8>,
    pos: int,
    notes: Seq<(u8, Seq<u8>)>,
)
    requires
        holds(data, pos, footnotes_bytes(notes)),
        pos + footnotes_bytes(notes).len() == data.len(),
        forall|i: int| 0 <= i < notes.len() ==> nul_free((#[trigger] notes[i]).1),
    ensures
        with_footnotes(meta, data, pos) == noted(meta, notes),
    decreases notes.len(),
{
    if notes.len() > 0 {
        let (marker, note) = notes[0];
        let rest = notes.skip(1);
        assert(nul_free(notes[0].1));
        assert forall|i: int| 0 <= i < rest.len() implies nul_free((#[trigger] rest[i]).1) by {
            assert(rest[i] == notes[i + 1]);
        }
        lemma_holds_parts(data, pos, seq![marker], cstring(note) + footnotes_bytes(rest));
        lemma_holds_parts(data, pos + 1, cstring(note), footnotes_bytes(rest));
        assert(data.subrange(pos, pos + 1)[0] == data[pos]);
        lemma_holds_cstring(data, pos + 1, note);
        let next = with_footnote(meta, marker, text_of(note));
        lemma_footnotes(next, data, pos + 1 + note.len() + 1, rest);
    }
}

/// The footnotes of a topic header record are read back: each counts, in
/// order, whatever link stands in front of them.
pub proof fn law_footnotes_are_read_back(link: u32, notes: Seq<(u8, Seq<u8>)>)
    requires
        forall|i: int| 0 <= i < notes.len() ==> nul_free((#[trigger] notes[i]).1),
    ensures
        metadata_of(le32_bytes(link) + footnotes_bytes(notes)) == noted(no_metadata(), notes),
{
    let data = le32_bytes(link) + footnotes_bytes(notes);
    assert(data.subrange(4, data.len() as int) =~= footnotes_bytes(notes));
    lemma_footnotes(no_metadata(), data, 4, notes);
}

// ---------------------------------------------------------------------------
// System records
// ---------------------------------------------------------------------------

/// The bytes of system records: each has a type and its data.
pub open spec fn system_records_bytes(records: Seq<(u16, Seq<u8>)>) -> Seq<u8>
    decreases records.len(),
{
    if records.len() == 0 {
        Seq::empty()
    } else {
        le16_bytes(records[0].0) + (le16_bytes(records[0].1.len() as u16) + (records[0].1
            + system_records_bytes(records.skip(1))))
    }
}

/// The metadata after all records.
pub open spec fn recorded(info: SystemInfoView, records: Seq<(u16, Seq<u8>)>) -> SystemInfoView
    decreases records.len(),
{
    if records.len() == 0 {
        info
    } else {
        recorded(with_record(info, records[0].0, records[0].1), records.skip(1))
    }
}

proof fn lemma_system_records(
    info: SystemInfoView,
    data: Seq<u8>,
    pos: int,
    records: Seq<(u16, Seq<u8>)>,
)
    requires
        holds(data, pos, system_records_bytes(records)),
        pos + system_records_bytes(records).len() == data.len(),
        forall|i: int| 0 <= i < records.len() ==> (#[trigger] records[i]).1.len() <= u16::MAX,
    ensures
        with_records(info, data, pos) == recorded(info, records),
    decreases records.len(),
{
    if records.len() > 0 {
        let (kind, body) = records[0];
        let rest = records.skip(1);
        assert(records[0].1.len() <= u16::MAX);
        assert forall|i: int| 0 <= i < rest.len() implies (#[trigger] rest[i]).1.len()
            <= u16::MAX by {
            assert(rest[i] == records[i + 1]);
        }
        let size = body.len() as u16;
        let third = body + system_records_bytes(rest);
        lemma_holds_parts(data, pos, le16_bytes(kind), le16_bytes(size) + third);
        lemma_holds_parts(data, pos + 2, le16_bytes(size), third);
        lemma_holds_parts(data, pos + 4, body, system_records_bytes(rest));
        lemma_holds_le16(data, pos, kind);
        lemma_holds_le16(data, pos + 2, size);
        lemma_system_records(with_record(info, kind, body), data, pos + 4 + size, rest);
    }
}

/// The metadata of a system file before its records.
pub open spec fn bare_system(minor_version: u16, flags: u16, flags_ex: Option<u16>) -> SystemInfoView {
    SystemInfoView {
        minor_version,
        flags,
        flags_ex,
        title: None,
        copyright: None,
        root_topic_offset: None,
        starting_topic: None,
    }
}

/// A system file with an extended header is read back: the version, the flags,
/// and every record in order.
pub proof fn law_extended_system_is_read_back(
    minor_version: u16,
    flags: u16,
    date: u32,
    flags_ex: u16,
    records: Seq<(u16, Seq<u8>)>,
)
    requires
        minor_version >= 10,
        forall|i: int| 0 <= i < records.len() ==> (#[trigger] records[i]).1.len() <= u16::MAX,
    ensures
        system_result(
            le16_bytes(SYSTEM_MAGIC) + (le16_bytes(minor_version) + (le16_bytes(flags) + (
            le32_bytes(date) + (le16_bytes(flags_ex) + system_records_bytes(records))))),
        ) == Ok::<SystemInfoView, ErrorView>(
            recorded(bare_system(minor_version, flags, Some(flags_ex)), records),
        ),
{
    let fifth = le16_bytes(flags_ex) + system_records_bytes(records);
    let fourth = le32_bytes(date) + fifth;
    let third = le16_bytes(flags) + fourth;
    let second = le16_bytes(minor_version) + third;
    let data = le16_bytes(SYSTEM_MAGIC) + second;
    lemma_holds_all(data);
    lemma_holds_parts(data, 0, le16_bytes(SYSTEM_MAGIC), second);
    lemma_holds_parts(data, 2, le16_bytes(minor_version), third);
    lemma_holds_parts(data, 4, le16_bytes(flags), fourth);
    lemma_holds_parts(data, 6, le32_bytes(date), fifth);
    lemma_holds_parts(data, 10, le16_bytes(flags_ex), system_records_bytes(records));
    lemma_holds_le16(data, 0, SYSTEM_MAGIC);
    lemma_holds_le16(data, 2, minor_version);
    lemma_holds_le16(data, 4, flags);
    lemma_holds_le16(data, 10, flags_ex);
    lemma_system_records(bare_system(minor_version, flags, Some(flags_ex)), data, 12, records);
}

/// A system file with a short header is read back: the version, the flags, and
/// every record in order.
pub proof fn law_short_system_is_read_back(
    minor_version: u16,
    flags: u16,
    records: Seq<(u16, Seq<u8>)>,
)
    requires
        minor_version < 10,
        forall|i: int| 0 <= i < records.len() ==> (#[trigger] records[i]).1.len() <= u16::MAX,
    ensures
        system_result(
            le16_bytes(SYSTEM_MAGIC) + (le16_bytes(minor_version) + (le16_bytes(flags)
                + system_records_bytes(records))),
        ) == Ok::<SystemInfoView, ErrorView>(
            recorded(bare_system(minor_version, flags, None), records),
        ),
{
    let third = le16_bytes(flags) + system_records_bytes(records);
    let second = le16_bytes(minor_version) + third;
    let data = le16_bytes(SYSTEM_MAGIC) + second;
    lemma_holds_all(data);
    lemma_holds_parts(data, 0, le16_bytes(SYSTEM_MAGIC), second);
    lemma_holds_parts(data, 2, le16_bytes(minor_version), third);
    lemma_holds_parts(data, 4, le16_bytes(flags), system_records_bytes(records));
    lemma_holds_le16(data, 0, SYSTEM_MAGIC);
    lemma_holds_le16(data, 2, minor_version);
    lemma_holds_le16(data, 4, flags);
    lemma_system_records(bare_system(minor_version, flags, None), data, 6, records);
}

// ---------------------------------------------------------------------------
// Phrase tables
// ---------------------------------------------------------------------------

/// The offset behind the first `i` phrases, counted from `start`.
pub open spec fn phrase_end(phrases: Seq<Seq<u8>>, start: int, i: int) -> int
    decreases i,
{
    if i <= 0 {
        start
    } else {
        phrase_end(phrases, start, i - 1) + phrases[i - 1].len()
    }
}

pub proof fn lemma_phrase_end(phrases: Seq<Seq<u8>>, start: int, i: int)
    requires
        0 <= i <= phrases.len(),
    ensures
        phrase_end(phrases, start, i) == start + joined(phrases.take(i)).len(),
        start <= phrase_end(phrases, start, i),
    decreases i,
{
    if i > 0 {
        lemma_phrase_end(phrases, start, i - 1);
        assert(phrases.take(i).drop_last() =~= phrases.take(i - 1));
        assert(phrases.take(i).last() == phrases[i - 1]);
    } else {
        assert(phrases.take(0) =~= Seq::empty());
    }
}

pub proof fn lemma_phrase_place(blob: Seq<u8>, start: int, phrases: Seq<Seq<u8>>, i: int)
    requires
        0 <= i < phrases.len(),
        holds(blob, start, joined(phrases)),
    ensures
        0 <= phrase_end(phrases, start, i) <= phrase_end(phrases, start, i + 1) <= blob.len(),
        blob.subrange(phrase_end(phrases, start, i), phrase_end(phrases, start, i + 1))
            == phrases[i],
    decreases phrases.len(),
{
    let last = phrases.len() - 1;
    let front = phrases.drop_last();
    lemma_holds_parts(blob, start, joined(front), phrases.last());
    lemma_phrase_end(phrases, start, last);
    assert(phrases.take(last) =~= front);
    if i < last {
        lemma_phrase_place(blob, start, front, i);
        lemma_same_ends(front, phrases, start, i);
        lemma_same_ends(front, phrases, start, i + 1);
    }
}

proof fn lemma_same_ends(a: Seq<Seq<u8>>, b: Seq<Seq<u8>>, start: int, i: int)
    requires
        0 <= i <= a.len() <= b.len(),
        a == b.take(a.len() as int),
    ensures
        phrase_end(a, start, i) == phrase_end(b, start, i),
    decreases i,
{
    if i > 0 {
        lemma_same_ends(a, b, start, i - 1);
        assert(a[i - 1] == b[i - 1]);
    }
}

pub proof fn lemma_cut(
    source: PhraseSource,
    blob: Seq<u8>,
    start: int,
    phrases: Seq<Seq<u8>>,
    bounds: Seq<int>,
    i: int,
)
    requires
        0 <= i <= phrases.len(),
        holds(blob, start, joined(phrases)),
        bounds == Seq::new(phrases.len() + 1, |k: int| phrase_end(phrases, start, k)),
    ensures
        cut_from(source, blob, bounds, i) == Ok::<Seq<Seq<u8>>, ErrorView>(phrases.skip(i)),
    decreases phrases.len() - i,
{
    if i < phrases.len() {
        lemma_phrase_place(blob, start, phrases, i);
        lemma_cut(source, blob, start, phrases, bounds, i + 1);
        assert(seq![phrases[i]] + phrases.skip(i + 1) =~= phrases.skip(i));
    } else {
        assert(phrases.skip(i) =~= Seq::empty());
    }
}

/// Whether `|Phrases` holds the given phrases in its plain form: their number,
/// the bounds between them, and their text.
pub open spec fn phrases_hold(data: Seq<u8>, phrases: Seq<Seq<u8>>) -> bool {
    &&& phrases.len() <= u16::MAX
    &&& joined(phrases).len() <= u16::MAX
    &&& holds(data, 0, le16_bytes(phrases.len() as u16))
    &&& forall|i: int|
        0 <= i <= phrases.len() ==> holds(
            data,
            2 + 2 * i,
            le16_bytes(#[trigger] phrase_end(phrases, 0, i) as u16),
        )
    &&& holds(data, 2 + 2 * (phrases.len() as int + 1), joined(phrases))
}

/// A plain phrase table is read back, phrase by phrase.
pub proof fn law_phrases_are_read_back(data: Seq<u8>, phrases: Seq<Seq<u8>>)
    requires
        phrases_hold(data, phrases),
    ensures
        table_result(data, None, false) == Ok::<PhraseTableView, ErrorView>(
            PhraseTableView { phrases, hall: false },
        ),
{
    let count = phrases.len();
    let start = 2 + 2 * (count + 1);
    lemma_holds_le16(data, 0, count as u16);
    let bounds = bounds_at(data, 2, count + 1, start as int, 0);
    let expected = Seq::new(count + 1, |k: int| phrase_end(phrases, start as int, k));
    assert(bounds =~= expected) by {
        assert forall|k: int| 0 <= k <= count implies bounds[k] == expected[k] by {
            lemma_phrase_end(phrases, 0, k);
            lemma_phrase_end(phrases, start as int, k);
            lemma_joined_prefix(phrases, k);
            lemma_holds_le16(data, 2 + 2 * k, phrase_end(phrases, 0, k) as u16);
        }
    }
    lemma_cut(PhraseSource::Inline, data, start as int, phrases, bounds, 0);
    assert(phrases.skip(0) =~= phrases);
}

pub proof fn lemma_joined_prefix(phrases: Seq<Seq<u8>>, k: int)
    requires
        0 <= k <= phrases.len(),
    ensures
        joined(phrases.take(k)).len() <= joined(phrases).len(),
    decreases phrases.len() - k,
{
    if k < phrases.len() {
        lemma_joined_prefix(phrases, k + 1);
        assert(phrases.take(k + 1).drop_last() =~= phrases.take(k));
    } else {
        assert(phrases.take(k) =~= phrases);
    }
}

// ---------------------------------------------------------------------------
// Text segments
// ---------------------------------------------------------------------------

/// Texts with NUL bytes between them.
pub open spec fn nul_separated(texts: Seq<Seq<u8>>) -> Seq<u8>
    decreases texts.len(),
{
    if texts.len() == 0 {
        Seq::empty()
    } else if texts.len() == 1 {
        texts[0]
    } else {
        cstring(texts[0]) + nul_separated(texts.skip(1))
    }
}

proof fn lemma_segments(data: Seq<u8>, pos: int, texts: Seq<Seq<u8>>)
    requires
        texts.len() > 0,
        holds(data, pos, nul_separated(texts)),
        pos + nul_separated(texts).len() == data.len(),
        forall|i: int| 0 <= i < texts.len() ==> nul_free(#[trigger] texts[i]),
    ensures
        segments_from(data, pos) == texts.map_values(|t: Seq<u8>| text_of(t)),
    decreases texts.len(),
{
    let texted = texts.map_values(|t: Seq<u8>| text_of(t));
    assert(nul_free(texts[0]));
    if texts.len() == 1 {
        lemma_nul_from(data, pos);
        let nul = nul_from(data, pos);
        if nul < data.len() {
            assert(data.subrange(pos, data.len() as int)[nul - pos] == texts[0][nul - pos]);
        }
        assert(segments_from(data, nul + 1) =~= Seq::empty());
        assert(seq![text_of(texts[0])] + Seq::<Seq<char>>::empty() =~= texted);
    } else {
        let rest = texts.skip(1);
        assert forall|i: int| 0 <= i < rest.len() implies nul_free(#[trigger] rest[i]) by {
            assert(rest[i] == texts[i + 1]);
        }
        lemma_holds_parts(data, pos, cstring(texts[0]), nul_separated(rest));
        lemma_holds_cstring(data, pos, texts[0]);
        lemma_segments(data, pos + texts[0].len() + 1, rest);
        assert(seq![text_of(texts[0])] + rest.map_values(|t: Seq<u8>| text_of(t)) =~= texted);
    }
}

/// The segments of a text record are read back as they were laid out.
pub proof fn law_segments_are_read_back(texts: Seq<Seq<u8>>)
    requires
        texts.len() > 0,
        forall|i: int| 0 <= i < texts.len() ==> nul_free(#[trigger] texts[i]),
    ensures
        segments_from(nul_separated(texts), 0) == texts.map_values(|t: Seq<u8>| text_of(t)),
{
    let data = nul_separated(texts);
    lemma_holds_all(data);
    lemma_segments(data, 0, texts);
}

// ---------------------------------------------------------------------------
// Fonts
// ---------------------------------------------------------------------------

/// A font as it is laid out: attributes, size, family and the number of its
/// face.
pub struct StoredFont {
    pub attributes: u8,
    pub half_points: u8,
    pub font_family: u8,
    pub face: u16,
}

/// Whether a cell of the face table holds a name: the name fills the cell, or
/// a NUL byte follows it.
pub open spec fn face_lies_at(data: Seq<u8>, at: int, cell: int, name: Seq<u8>) -> bool {
    &&& nul_free(name)
    &&& name.len() <= cell
    &&& at + cell <= data.len()
    &&& holds(data, at, name)
    &&& name.len() < cell ==> data[at + name.len()] == 0
}

/// Whether `|FONT` holds the given faces, in cells of `face_cell` bytes, and
/// the given fonts, in cells of `font_cell` bytes.
pub open spec fn fonts_hold(
    data: Seq<u8>,
    faces_at: u16,
    face_cell: int,
    faces: Seq<Seq<u8>>,
    fonts_at: u16,
    font_cell: int,
    fonts: Seq<StoredFont>,
) -> bool {
    &&& 0 < faces.len() <= u16::MAX
    &&& 0 < fonts.len() <= u16::MAX
    &&& 8 <= faces_at
    &&& face_cell > 0
    &&& font_cell >= 5
    &&& fonts_at == faces_at + faces.len() * face_cell
    &&& data.len() == fonts_at + fonts.len() * font_cell
    &&& holds(data, 0, le16_bytes(faces.len() as u16))
    &&& holds(data, 2, le16_bytes(fonts.len() as u16))
    &&& holds(data, 4, le16_bytes(faces_at))
    &&& holds(data, 6, le16_bytes(fonts_at))
    &&& forall|i: int|
        0 <= i < faces.len() ==> face_lies_at(
            data,
            faces_at + i * face_cell,
            face_cell,
            #[trigger] faces[i],
        )
    &&& forall|i: int|
        0 <= i < fonts.len() ==> holds(
            data,
            fonts_at + i * font_cell,
            seq![
                (#[trigger] fonts[i]).attributes,
                fonts[i].half_points,
                fonts[i].font_family,
            ] + le16_bytes(fonts[i].face),
        )
}

/// The fonts with the names of their faces. A face that is not there has no
/// name.
pub open spec fn named_fonts(faces: Seq<Seq<u8>>, fonts: Seq<StoredFont>) -> Seq<
    FontDescriptorView,
> {
    fonts.map_values(
        |f: StoredFont|
            FontDescriptorView {
                attributes: f.attributes,
                half_points: f.half_points,
                font_family: f.font_family,
                name: if f.face < faces.len() {
                    text_of(faces[f.face as int])
                } else {
                    Seq::empty()
                },
            },
    )
}

proof fn lemma_face(data: Seq<u8>, at: int, cell: int, name: Seq<u8>)
    requires
        0 <= at,
        face_lies_at(data, at, cell, name),
    ensures
        nul_string(data.subrange(at, at + cell)) == text_of(name),
{
    let s = data.subrange(at, at + cell);
    let held = data.subrange(at, at + name.len());
    lemma_nul_from(s, 0);
    let nul = nul_from(s, 0);
    assert forall|i: int| 0 <= i < name.len() implies s[i] == name[i] by {
        assert(held[i] == name[i]);
    }
    assert(nul == name.len()) by {
        if nul < name.len() {
            assert(s[nul] == name[nul]);
        } else if nul > name.len() {
            assert(s[name.len() as int] == data[at + name.len()]);
        }
    }
    assert(s.take(nul) =~= name);
}

/// A font table that is laid out is read back: every font with its attributes
/// and the name of its face.
pub proof fn law_fonts_are_read_back(
    data: Seq<u8>,
    faces_at: u16,
    face_cell: int,
    faces: Seq<Seq<u8>>,
    fonts_at: u16,
    font_cell: int,
    fonts: Seq<StoredFont>,
)
    requires
        fonts_hold(data, faces_at, face_cell, faces, fonts_at, font_cell, fonts),
    ensures
        fonts_result(data) == Ok::<Seq<FontDescriptorView>, ErrorView>(named_fonts(faces, fonts)),
{
    let face_count = faces.len() as int;
    let count = fonts.len() as int;
    assert(face_count * face_cell > 0) by (nonlinear_arith)
        requires
            face_count > 0,
            face_cell > 0,
    ;
    assert(count * font_cell > 0) by (nonlinear_arith)
        requires
            count > 0,
            font_cell >= 5,
    ;
    lemma_holds_le16(data, 0, faces.len() as u16);
    lemma_holds_le16(data, 2, fonts.len() as u16);
    lemma_holds_le16(data, 4, faces_at);
    lemma_holds_le16(data, 6, fonts_at);
    vstd::arithmetic::div_mod::lemma_div_multiples_vanish(face_cell, face_count);
    vstd::arithmetic::div_mod::lemma_mod_multiples_basic(face_cell, face_count);
    vstd::arithmetic::div_mod::lemma_div_multiples_vanish(font_cell, count);
    assert(face_count * face_cell == face_cell * face_count) by (nonlinear_arith);
    assert(count * font_cell == font_cell * count) by (nonlinear_arith);
    let names = Seq::new(faces.len(), |i: int| face_name(data, faces_at as int, face_cell, i));
    let read = Seq::new(
        fonts.len(),
        |i: int| descriptor_at(data, fonts_at as int, font_cell, names, i),
    );
    assert(fonts_result(data) == Ok::<Seq<FontDescriptorView>, ErrorView>(read));
    assert forall|i: int| 0 <= i < faces.len() implies #[trigger] names[i] == text_of(faces[i]) by {
        assert(0 <= i * face_cell) by (nonlinear_arith)
            requires
                0 <= i,
                face_cell > 0,
        ;
        lemma_face(data, faces_at + i * face_cell, face_cell, faces[i]);
    }
    let expected = named_fonts(faces, fonts);
    assert forall|i: int| 0 <= i < fonts.len() implies read[i] == expected[i] by {
        let f = fonts[i];
        let p = fonts_at + i * font_cell;
        let front = seq![f.attributes, f.half_points, f.font_family];
        lemma_holds_parts(data, p, front, le16_bytes(f.face));
        lemma_holds_le16(data, p + 3, f.face);
        let held = data.subrange(p, p + 3);
        assert(held[0] == data[p] && held[1] == data[p + 1] && held[2] == data[p + 2]);
        if f.face < faces.len() {
            assert(names[f.face as int] == text_of(faces[f.face as int]));
        }
    }
    assert(read =~= expected);
}

} // verus!
