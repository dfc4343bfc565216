//! What is cut off at the end of its data, and what of it still counts.

use vstd::prelude::*;

use crate::bytes::{
    le16, le32, le32_bytes, lemma_holds_le32, lemma_holds_parts, lemma_nul_from, nul_free, nul_from,
    text_of,
};
use crate::error::ErrorView;
use crate::font::{fonts_result, FontDescriptorView};
use crate::lz77::{lz77, lz77_from, lz77_group};
use crate::opcode::segment;
use crate::phrase::{expanded, expanded_hall, PhraseTableView};
use crate::records::{consecutive, lemma_records, records_bytes};
use crate::scan::{int_at, long_at, u32_padded, word_at};
use crate::system::{with_records, SystemInfoView};
use crate::title::leaf_titles;
use crate::topic::{
    blocks_from, metadata_of, no_metadata, records_from, with_footnotes, RawTopicRecordView,
    TopicBlockView,
};

verus! {

/// A record whose size reaches beyond the end of the stream is the last one, and
/// has the data that is there.
pub proof fn law_cut_off_record(
    records: Seq<RawTopicRecordView>,
    size: u32,
    data_size: u32,
    kind: u8,
    data: Seq<u8>,
)
    requires
        consecutive(records, 0),
        size >= 9 + data.len(),
    ensures
        records_from(
            records_bytes(records) + (le32_bytes(size) + (le32_bytes(data_size) + (seq![kind]
                + data))),
            0,
        ) == records.push(
            RawTopicRecordView {
                record_type: kind,
                data,
                data_size,
                stream_offset: records_bytes(records).len() as int,
            },
        ),
{
    let third = seq![kind] + data;
    let second = le32_bytes(data_size) + third;
    let tail = le32_bytes(size) + second;
    let stream = records_bytes(records) + tail;
    let at = records_bytes(records).len() as int;
    assert(stream.subrange(0, at) =~= records_bytes(records));
    assert(stream.subrange(at, stream.len() as int) =~= tail);
    lemma_records(stream, 0, records);
    lemma_holds_parts(stream, at, le32_bytes(size), second);
    lemma_holds_parts(stream, at + 4, le32_bytes(data_size), third);
    lemma_holds_parts(stream, at + 8, seq![kind], data);
    lemma_holds_le32(stream, at, size);
    lemma_holds_le32(stream, at + 4, data_size);
    assert(stream.subrange(at + 8, at + 9)[0] == stream[at + 8]);
    let last = RawTopicRecordView { record_type: kind, data, data_size, stream_offset: at };
    assert(stream.subrange(at + 9, stream.len() as int) =~= data);
    assert(records_from(stream, stream.len() as int) =~= Seq::empty());
    assert(records_from(stream, at) =~= seq![last]);
    assert(records + seq![last] =~= records.push(last));
}

/// Fewer bytes than a block header are no block.
pub proof fn law_short_rest_is_no_block(
    data: Seq<u8>,
    pos: int,
    block_size: nat,
    use_lz77: bool,
    phrases: PhraseTableView,
)
    requires
        0 <= pos,
        data.len() < pos + 12,
    ensures
        blocks_from(data, pos, block_size, use_lz77, phrases) == Ok::<
            Seq<TopicBlockView>,
            ErrorView,
        >(Seq::empty()),
{
}

/// The last footnote needs no NUL byte; a marker at the very end is none, and
/// neither is anything in a header that is too short for its link.
pub proof fn law_cut_off_footnotes(link: u32, marker: u8, note: Seq<u8>, short: Seq<u8>)
    requires
        nul_free(note),
        short.len() < 4,
    ensures
        ({
            let m = metadata_of(le32_bytes(link) + (seq![marker] + note));
            &&& note.len() > 0 && marker == 0x23 ==> m.context_id == Some(text_of(note))
            &&& note.len() > 0 && marker == 0x24 ==> m.title == Some(text_of(note))
            &&& note.len() > 0 && marker == 0x2B ==> m.browse_seq == Some(text_of(note))
            &&& note.len() > 0 && marker == 0x4B ==> m.keywords == seq![text_of(note)]
            &&& note.len() == 0 ==> m == no_metadata()
        }),
        metadata_of(short) == no_metadata(),
        metadata_of(le32_bytes(link)) == no_metadata(),
{
    let data = le32_bytes(link) + (seq![marker] + note);
    assert(data[4] == marker);
    assert(data.subrange(5, data.len() as int) =~= note);
    lemma_nul_from(data, 5);
    let nul = nul_from(data, 5);
    if nul < data.len() {
        assert(data.subrange(5, data.len() as int)[nul - 5] == data[nul]);
    }
    if note.len() > 0 {
        assert(nul == data.len());
        let after = crate::topic::with_footnote(no_metadata(), marker, text_of(note));
        assert(with_footnotes(after, data, nul + 1) == after);
        assert(no_metadata().keywords.push(text_of(note)) =~= seq![text_of(note)]);
    }
}

/// A token of two bytes whose second byte is cut off stands for its first, and a
/// run of literal bytes ends with the data.
pub proof fn law_cut_off_tokens(
    old_table: PhraseTableView,
    new_table: PhraseTableView,
    byte: u8,
    count: u8,
    bytes: Seq<u8>,
)
    requires
        !old_table.hall,
        new_table.hall,
        1 <= count <= 32,
        bytes.len() <= count,
    ensures
        1 <= byte < 16 ==> expanded(old_table, seq![byte]) == Ok::<Seq<u8>, ErrorView>(seq![byte]),
        byte % 4 == 1 ==> expanded(new_table, seq![byte]) == Ok::<Seq<u8>, ErrorView>(seq![byte]),
        expanded(new_table, seq![(8 * (count - 1) + 3) as u8] + bytes) == Ok::<Seq<u8>, ErrorView>(
            bytes,
        ),
{
    let run = seq![(8 * (count - 1) + 3) as u8] + bytes;
    assert(run.subrange(1, run.len() as int) =~= bytes);
    assert(expanded_hall(new_table.phrases, run, run.len() as int) == Ok::<Seq<u8>, ErrorView>(
        Seq::empty(),
    ));
    assert(bytes + Seq::<u8>::empty() =~= bytes);
}

/// A back-reference of which only one byte is there is dropped.
pub proof fn law_cut_off_back_reference(control: u8, byte: u8)
    requires
        control % 2 == 1,
    ensures
        lz77(seq![control, byte]) == Seq::<u8>::empty(),
{
    let data = seq![control, byte];
    assert(lz77_group(data, 1, control as nat, 8, Seq::empty()) == (2int, Seq::<u8>::empty()));
    assert(lz77_from(data, 2, Seq::<u8>::empty()) == Seq::<u8>::empty());
}

/// A number of a topic record that is cut off counts as zero and takes up the
/// rest of the data; behind the data every number is zero. A link hash that is
/// cut off has zeros for the bytes that are not there.
pub proof fn law_cut_off_numbers(data: Seq<u8>, at: int)
    requires
        0 <= at <= data.len(),
    ensures
        at == data.len() ==> word_at(data, at) == (0u16, at) && int_at(data, at) == (0i16, at)
            && long_at(data, at) == (0u32, at) && u32_padded(data, at) == 0,
        at + 1 == data.len() && data[at] % 2 == 1 ==> word_at(data, at) == (0u16, at + 1) && int_at(
            data,
            at,
        ) == (0i16, at + 1),
        at + 1 == data.len() ==> long_at(data, at) == (0u32, at + 1) && u32_padded(data, at)
            == data[at],
        at + 2 == data.len() ==> u32_padded(data, at) == le16(data, at),
        at + 2 <= data.len() < at + 4 && data[at] % 2 == 1 ==> long_at(data, at) == (
            0u32,
            data.len() as int,
        ),
        at + 4 <= data.len() ==> u32_padded(data, at) == le32(data, at),
{
}

/// Behind the last segment every segment is empty.
pub proof fn law_segments_run_out(segs: Seq<Seq<char>>, i: int)
    ensures
        0 <= i < segs.len() ==> segment(segs, i) == segs[i],
        i >= segs.len() ==> segment(segs, i).len() == 0,
{
}

/// A system record whose length reaches beyond the end of the file does not
/// count, and neither does what follows it.
pub proof fn law_cut_off_system_record(info: SystemInfoView, data: Seq<u8>, at: int)
    requires
        0 <= at <= data.len(),
        data.len() < at + 4 || data.len() < at + 4 + le16(data, at + 2),
    ensures
        with_records(info, data, at) == info,
{
}

/// A font table whose header makes no sense has no fonts: no faces, no
/// descriptors, faces within the header, descriptors in front of the faces or
/// beyond the end, faces that do not fill their room, or descriptors that are
/// too short.
pub proof fn law_senseless_font_tables(data: Seq<u8>)
    requires
        data.len() >= 8,
        le16(data, 0) == 0 || le16(data, 2) == 0 || le16(data, 4) < 8 || le16(data, 6) <= le16(
            data,
            4,
        ) || le16(data, 6) > data.len() || (le16(data, 6) - le16(data, 4)) % (le16(
            data,
            0,
        ) as int) != 0 || (data.len() - le16(data, 6)) / (le16(data, 2) as int) < 5,
    ensures
        fonts_result(data) == Ok::<Seq<FontDescriptorView>, ErrorView>(Seq::empty()),
{
}

/// On a leaf page a title needs no NUL byte where the page ends, and an entry
/// whose offset is cut off ends the page.
pub proof fn law_cut_off_titles(data: Seq<u8>, pos: int, end: int, n: nat)
    requires
        0 <= pos <= end <= data.len(),
        n > 0,
    ensures
        pos + 4 > end ==> leaf_titles(data, pos, end, n).len() == 0,
        pos + 4 <= end && nul_free(data.subrange(pos + 4, end)) ==> leaf_titles(data, pos, end, n)
            == seq![(le32(data, pos), text_of(data.subrange(pos + 4, end)))],
{
    if pos + 4 <= end && nul_free(data.subrange(pos + 4, end)) {
        lemma_nul_from(data, pos + 4);
        let nul = nul_from(data, pos + 4);
        if nul < end {
            assert(data.subrange(pos + 4, end)[nul - (pos + 4)] == data[nul]);
        }
        assert(leaf_titles(data, end, end, (n - 1) as nat) =~= Seq::empty());
        assert(leaf_titles(data, pos, end, n) =~= seq![
            (le32(data, pos), text_of(data.subrange(pos + 4, end))),
        ]);
    }
}

} // verus!
