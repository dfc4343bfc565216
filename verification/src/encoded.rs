//! Topic blocks, phrase tables, footnotes and system records as they are
//! stored, compressed or not, and what they stand for.

use vstd::prelude::*;

use crate::bytes::{
    cstring, holds, joined, le16_bytes, le32_bytes, lemma_holds_all, lemma_holds_cstring,
    lemma_holds_le16, lemma_holds_le32, lemma_holds_parts, lemma_nul_from, nul_free, nul_from,
    text_of,
};
use crate::error::{prefixed, ErrorView};
use crate::lz77::{all_performed, law_operations_decompress, lz77, packed, Operation};
use crate::phrase::{
    bounds_at, expanded, repeated, table_result, PhraseSource, PhraseTableView,
};
use crate::records::{
    bare_system, footnotes_bytes, law_extended_system_is_read_back, law_footnotes_are_read_back,
    law_short_system_is_read_back, lemma_cut, lemma_joined_prefix, lemma_phrase_end, noted,
    phrase_end, recorded, system_records_bytes,
};
use crate::system::{nul_string, system_result, with_record, SystemInfoView};
use crate::tokens::{
    hall_token_ok, hall_tokens_bytes, hall_tokens_text, law_hall_tokens_expand, law_tokens_expand,
    token_ok, tokens_bytes, tokens_text, HallToken, Token,
};
use crate::topic::{
    blocks_from, metadata_of, no_metadata, stream_of, with_footnote, TopicBlockView,
    TopicMetadataView,
};

verus! {

// ---------------------------------------------------------------------------
// Topic blocks
// ---------------------------------------------------------------------------

/// The bytes of a block whose data is stored as `stored`.
pub open spec fn stored_block_bytes(b: TopicBlockView, stored: Seq<u8>) -> Seq<u8> {
    le32_bytes(b.last_topic_link) + (le32_bytes(b.first_topic_link) + (le32_bytes(
        b.last_topic_header,
    ) + stored))
}

/// The bytes of blocks, one after another.
pub open spec fn stored_blocks_bytes(
    blocks: Seq<TopicBlockView>,
    stored: Seq<Seq<u8>>,
) -> Seq<u8>
    decreases blocks.len(),
{
    if blocks.len() == 0 {
        Seq::empty()
    } else {
        stored_block_bytes(blocks[0], stored[0]) + stored_blocks_bytes(
            blocks.skip(1),
            stored.skip(1),
        )
    }
}

/// Whether `stored` stands for the data of a block: compressed or not, `tokens`
/// is what it decompresses to, and these bytes expand to the data wherever
/// there are phrases.
pub open spec fn stands_for(
    stored: Seq<u8>,
    use_lz77: bool,
    tokens: Seq<u8>,
    phrases: PhraseTableView,
    data: Seq<u8>,
) -> bool {
    &&& use_lz77 ==> lz77(stored) == tokens
    &&& !use_lz77 ==> stored == tokens
    &&& phrases.phrases.len() > 0 ==> expanded(phrases, tokens) == Ok::<Seq<u8>, ErrorView>(data)
    &&& phrases.phrases.len() == 0 ==> tokens == data
}

/// Whether every block but the last fills its place, and the last fits into it.
pub open spec fn fill_blocks(stored: Seq<Seq<u8>>, block_size: nat) -> bool {
    &&& forall|i: int|
        0 <= i < stored.len() - 1 ==> (#[trigger] stored[i]).len() + 12 == block_size
    &&& stored.len() > 0 ==> stored.last().len() + 12 <= block_size
}

proof fn lemma_block_is_read(
    data: Seq<u8>,
    pos: int,
    block_size: nat,
    use_lz77: bool,
    phrases: PhraseTableView,
    b: TopicBlockView,
    stored: Seq<u8>,
    tokens: Seq<u8>,
)
    requires
        holds(data, pos, stored_block_bytes(b, stored)),
        stored.len() + 12 == block_size || stored.len() + 12 < block_size && pos + 12
            + stored.len() == data.len(),
        stands_for(stored, use_lz77, tokens, phrases, b.data),
    ensures
        blocks_from(data, pos, block_size, use_lz77, phrases) == prefixed(
            seq![b],
            blocks_from(data, pos + 12 + stored.len(), block_size, use_lz77, phrases),
        ),
{
    let third = le32_bytes(b.last_topic_header) + stored;
    let second = le32_bytes(b.first_topic_link) + third;
    lemma_holds_parts(data, pos, le32_bytes(b.last_topic_link), second);
    lemma_holds_parts(data, pos + 4, le32_bytes(b.first_topic_link), third);
    lemma_holds_parts(data, pos + 8, le32_bytes(b.last_topic_header), stored);
    lemma_holds_le32(data, pos, b.last_topic_link);
    lemma_holds_le32(data, pos + 4, b.first_topic_link);
    lemma_holds_le32(data, pos + 8, b.last_topic_header);
}

proof fn lemma_stored_blocks(
    data: Seq<u8>,
    pos: int,
    block_size: nat,
    use_lz77: bool,
    phrases: PhraseTableView,
    blocks: Seq<TopicBlockView>,
    stored: Seq<Seq<u8>>,
    tokens: Seq<Seq<u8>>,
)
    requires
        holds(data, pos, stored_blocks_bytes(blocks, stored)),
        pos + stored_blocks_bytes(blocks, stored).len() == data.len(),
        block_size >= 12,
        blocks.len() == stored.len() == tokens.len(),
        fill_blocks(stored, block_size),
        forall|i: int|
            0 <= i < blocks.len() ==> stands_for(
                #[trigger] stored[i],
                use_lz77,
                tokens[i],
                phrases,
                blocks[i].data,
            ),
    ensures
        blocks_from(data, pos, block_size, use_lz77, phrases) == Ok::<
            Seq<TopicBlockView>,
            ErrorView,
        >(blocks),
    decreases blocks.len(),
{
    if blocks.len() > 0 {
        let b = blocks[0];
        let first = stored[0];
        let rest = blocks.skip(1);
        let rest_stored = stored.skip(1);
        let rest_tokens = tokens.skip(1);
        assert(stands_for(stored[0], use_lz77, tokens[0], phrases, blocks[0].data));
        assert(fill_blocks(rest_stored, block_size)) by {
            assert forall|i: int| 0 <= i < rest_stored.len() - 1 implies (
            #[trigger] rest_stored[i]).len() + 12 == block_size by {
                assert(rest_stored[i] == stored[i + 1]);
            }
            if rest_stored.len() > 0 {
                assert(rest_stored.last() == stored.last());
            }
        }
        assert forall|i: int| 0 <= i < rest.len() implies stands_for(
            #[trigger] rest_stored[i],
            use_lz77,
            rest_tokens[i],
            phrases,
            rest[i].data,
        ) by {
            assert(stands_for(
                stored[i + 1],
                use_lz77,
                tokens[i + 1],
                phrases,
                blocks[i + 1].data,
            ));
        }
        let back = stored_blocks_bytes(rest, rest_stored);
        let end = pos + 12 + first.len();
        lemma_holds_parts(data, pos, stored_block_bytes(b, first), back);
        assert(stored_block_bytes(b, first).len() == 12 + first.len());
        if rest.len() == 0 {
            assert(back.len() == 0);
        } else {
            assert(stored[0].len() + 12 == block_size);
        }
        lemma_block_is_read(data, pos, block_size, use_lz77, phrases, b, first, tokens[0]);
        lemma_stored_blocks(
            data,
            end,
            block_size,
            use_lz77,
            phrases,
            rest,
            rest_stored,
            rest_tokens,
        );
        assert(seq![b] + rest =~= blocks);
    } else {
        assert(blocks =~= Seq::empty());
    }
}

/// Blocks are read back whether they are compressed or not and whether there
/// are phrases or not: first the compression is undone, then phrases are
/// expanded, in every block.
pub proof fn law_stored_blocks_are_read_back(
    block_size: nat,
    use_lz77: bool,
    phrases: PhraseTableView,
    blocks: Seq<TopicBlockView>,
    stored: Seq<Seq<u8>>,
    tokens: Seq<Seq<u8>>,
)
    requires
        block_size >= 12,
        blocks.len() == stored.len() == tokens.len(),
        fill_blocks(stored, block_size),
        forall|i: int|
            0 <= i < blocks.len() ==> stands_for(
                #[trigger] stored[i],
                use_lz77,
                tokens[i],
                phrases,
                blocks[i].data,
            ),
    ensures
        blocks_from(stored_blocks_bytes(blocks, stored), 0, block_size, use_lz77, phrases) == Ok::<
            Seq<TopicBlockView>,
            ErrorView,
        >(blocks),
{
    let data = stored_blocks_bytes(blocks, stored);
    lemma_holds_all(data);
    lemma_stored_blocks(data, 0, block_size, use_lz77, phrases, blocks, stored, tokens);
}

/// A block of phrase tokens, packed by LZ77 operations, is read back as the
/// text of the tokens, in the encoding of WinHelp 3.1.
pub proof fn law_packed_tokens_are_read_back(
    block_size: nat,
    phrases: PhraseTableView,
    b: TopicBlockView,
    ops: Seq<Operation>,
    tokens: Seq<Token>,
)
    requires
        packed(ops).len() + 12 <= block_size,
        forall|i: int| 0 <= i < ops.len() ==> crate::lz77::encodable(#[trigger] ops[i]),
        all_performed(Seq::empty(), ops) == tokens_bytes(tokens),
        !phrases.hall,
        phrases.phrases.len() > 0,
        forall|i: int| 0 <= i < tokens.len() ==> token_ok(phrases.phrases, #[trigger] tokens[i]),
        b.data == tokens_text(phrases.phrases, tokens),
    ensures
        blocks_from(stored_block_bytes(b, packed(ops)), 0, block_size, true, phrases) == Ok::<
            Seq<TopicBlockView>,
            ErrorView,
        >(seq![b]),
{
    law_operations_decompress(ops);
    law_tokens_expand(phrases, tokens);
    lemma_one_block(block_size, phrases, b, packed(ops), tokens_bytes(tokens));
}

/// The same in the encoding of WinHelp 4.0.
pub proof fn law_packed_hall_tokens_are_read_back(
    block_size: nat,
    phrases: PhraseTableView,
    b: TopicBlockView,
    ops: Seq<Operation>,
    tokens: Seq<HallToken>,
)
    requires
        packed(ops).len() + 12 <= block_size,
        forall|i: int| 0 <= i < ops.len() ==> crate::lz77::encodable(#[trigger] ops[i]),
        all_performed(Seq::empty(), ops) == hall_tokens_bytes(tokens),
        phrases.hall,
        phrases.phrases.len() > 0,
        forall|i: int|
            0 <= i < tokens.len() ==> hall_token_ok(phrases.phrases, #[trigger] tokens[i]),
        b.data == hall_tokens_text(phrases.phrases, tokens),
    ensures
        blocks_from(stored_block_bytes(b, packed(ops)), 0, block_size, true, phrases) == Ok::<
            Seq<TopicBlockView>,
            ErrorView,
        >(seq![b]),
{
    law_operations_decompress(ops);
    law_hall_tokens_expand(phrases, tokens);
    lemma_one_block(block_size, phrases, b, packed(ops), hall_tokens_bytes(tokens));
}

proof fn lemma_one_block(
    block_size: nat,
    phrases: PhraseTableView,
    b: TopicBlockView,
    stored: Seq<u8>,
    tokens: Seq<u8>,
)
    requires
        stored.len() + 12 <= block_size,
        stands_for(stored, true, tokens, phrases, b.data),
    ensures
        blocks_from(stored_block_bytes(b, stored), 0, block_size, true, phrases) == Ok::<
            Seq<TopicBlockView>,
            ErrorView,
        >(seq![b]),
{
    law_stored_blocks_are_read_back(
        block_size,
        true,
        phrases,
        seq![b],
        seq![stored],
        seq![tokens],
    );
    let none = seq![b].skip(1);
    assert(stored_blocks_bytes(none, seq![stored].skip(1)) =~= Seq::empty());
    assert(stored_blocks_bytes(seq![b], seq![stored]) =~= stored_block_bytes(b, stored));
}

proof fn lemma_joined_concat(a: Seq<Seq<u8>>, b: Seq<Seq<u8>>)
    ensures
        joined(a + b) == joined(a) + joined(b),
    decreases b.len(),
{
    if b.len() == 0 {
        assert(a + b =~= a);
        assert(joined(a) + joined(b) =~= joined(a));
    } else {
        assert((a + b).drop_last() =~= a + b.drop_last());
        lemma_joined_concat(a, b.drop_last());
        assert(joined(a + b) =~= joined(a) + joined(b));
    }
}

/// The topic stream is the data of the blocks in the order of the blocks: that
/// of the first blocks, and then that of the others.
pub proof fn law_stream_follows_the_blocks(a: Seq<TopicBlockView>, b: Seq<TopicBlockView>)
    ensures
        stream_of(a + b) == stream_of(a) + stream_of(b),
        a.len() == 1 ==> stream_of(a) == a[0].data,
        a.len() == 0 ==> stream_of(a).len() == 0,
{
    let x = Seq::new(a.len(), |i: int| a[i].data);
    let y = Seq::new(b.len(), |i: int| b[i].data);
    assert(Seq::new((a + b).len(), |i: int| (a + b)[i].data) =~= x + y);
    lemma_joined_concat(x, y);
    if a.len() == 1 {
        assert(x.drop_last() =~= Seq::empty());
        assert(joined(x.drop_last()) =~= Seq::empty());
        assert(stream_of(a) =~= a[0].data);
    }
}

/// Copies of a byte: as many as asked for, and nothing else.
pub proof fn law_copies_of_a_byte(byte: u8, n: nat)
    ensures
        repeated(byte, n).len() == n,
        forall|i: int| 0 <= i < n ==> #[trigger] repeated(byte, n)[i] == byte,
{
}

// ---------------------------------------------------------------------------
// Phrase tables
// ---------------------------------------------------------------------------

/// Whether offsets of 16 bits each, from `at` on, are the bounds of the phrases,
/// counted from `start`.
pub open spec fn bounds_hold(
    data: Seq<u8>,
    at: int,
    phrases: Seq<Seq<u8>>,
    start: int,
) -> bool {
    forall|i: int|
        0 <= i <= phrases.len() ==> holds(
            data,
            at + 2 * i,
            le16_bytes(#[trigger] phrase_end(phrases, start, i) as u16),
        )
}

proof fn lemma_bounds(
    data: Seq<u8>,
    at: int,
    phrases: Seq<Seq<u8>>,
    start: int,
    base: int,
)
    requires
        0 <= start,
        start + joined(phrases).len() <= u16::MAX,
        bounds_hold(data, at, phrases, start),
    ensures
        bounds_at(data, at, phrases.len() + 1, base, start) == Seq::new(
            phrases.len() + 1,
            |k: int| phrase_end(phrases, base, k),
        ),
{
    let bounds = bounds_at(data, at, phrases.len() + 1, base, start);
    let expected = Seq::new(phrases.len() + 1, |k: int| phrase_end(phrases, base, k));
    assert forall|k: int| 0 <= k <= phrases.len() implies bounds[k] == expected[k] by {
        lemma_phrase_end(phrases, start, k);
        lemma_phrase_end(phrases, base, k);
        lemma_joined_prefix(phrases, k);
        lemma_holds_le16(data, at + 2 * k, phrase_end(phrases, start, k) as u16);
    }
    assert(bounds =~= expected);
}

/// A compressed phrase file is read back: the number of phrases, six bytes that
/// do not matter, bounds that count from the first of them on, and the phrases,
/// packed by LZ77 operations.
pub proof fn law_compressed_phrases_are_read_back(
    data: Seq<u8>,
    phrases: Seq<Seq<u8>>,
    ops: Seq<Operation>,
)
    requires
        phrases.len() <= u16::MAX,
        2 * (phrases.len() + 1) + joined(phrases).len() <= u16::MAX,
        holds(data, 0, le16_bytes(phrases.len() as u16)),
        bounds_hold(data, 8, phrases, 2 * (phrases.len() + 1) as int),
        data.len() >= 8 + 2 * (phrases.len() + 1),
        data.skip(8 + 2 * (phrases.len() + 1) as int) == packed(ops),
        forall|i: int| 0 <= i < ops.len() ==> crate::lz77::encodable(#[trigger] ops[i]),
        all_performed(Seq::empty(), ops) == joined(phrases),
    ensures
        table_result(data, None, true) == Ok::<PhraseTableView, ErrorView>(
            PhraseTableView { phrases, hall: false },
        ),
{
    let size = 2 * (phrases.len() + 1) as int;
    lemma_holds_le16(data, 0, phrases.len() as u16);
    law_operations_decompress(ops);
    lemma_bounds(data, 8, phrases, size, 0);
    let blob = joined(phrases);
    lemma_holds_all(blob);
    lemma_cut(
        PhraseSource::Compressed,
        blob,
        0,
        phrases,
        bounds_at(data, 8, phrases.len() + 1, 0, size),
        0,
    );
    assert(phrases.skip(0) =~= phrases);
}

/// A phrase file whose bounds are in an index file is read back, and its tokens
/// are in the encoding of WinHelp 4.0.
pub proof fn law_indexed_phrases_are_read_back(
    data: Seq<u8>,
    index: Seq<u8>,
    phrases: Seq<Seq<u8>>,
    compressed: bool,
)
    requires
        phrases.len() <= u16::MAX,
        joined(phrases).len() <= u16::MAX,
        holds(data, 0, le16_bytes(phrases.len() as u16)),
        holds(data, 2, joined(phrases)),
        index.len() >= 2 * (phrases.len() + 1),
        bounds_hold(index, 0, phrases, 0),
    ensures
        table_result(data, Some(index), compressed) == Ok::<PhraseTableView, ErrorView>(
            PhraseTableView { phrases, hall: true },
        ),
{
    lemma_holds_le16(data, 0, phrases.len() as u16);
    lemma_bounds(index, 0, phrases, 0, 2);
    lemma_cut(
        PhraseSource::Indexed,
        data,
        2,
        phrases,
        bounds_at(index, 0, phrases.len() + 1, 2, 0),
        0,
    );
    assert(phrases.skip(0) =~= phrases);
}

// ---------------------------------------------------------------------------
// Footnotes
// ---------------------------------------------------------------------------

/// Whether note `k` is the last one with the given marker.
pub open spec fn last_with(notes: Seq<(u8, Seq<u8>)>, marker: u8, k: int) -> bool {
    &&& 0 <= k < notes.len()
    &&& notes[k].0 == marker
    &&& forall|j: int| k < j < notes.len() ==> (#[trigger] notes[j]).0 != marker
}

/// Whether no note has the given marker.
pub open spec fn none_with(notes: Seq<(u8, Seq<u8>)>, marker: u8) -> bool {
    forall|j: int| 0 <= j < notes.len() ==> (#[trigger] notes[j]).0 != marker
}

/// Whether `value` is the text of the last note with the given marker, and
/// nothing where there is none.
pub open spec fn is_last_text(
    notes: Seq<(u8, Seq<u8>)>,
    marker: u8,
    value: Option<Seq<char>>,
) -> bool {
    &&& forall|k: int|
        #[trigger] last_with(notes, marker, k) ==> value == Some(text_of(notes[k].1))
    &&& none_with(notes, marker) ==> value is None
}

/// The texts of the notes with the given marker, in order.
pub open spec fn texts_with(notes: Seq<(u8, Seq<u8>)>, marker: u8) -> Seq<Seq<char>> {
    notes.filter(|n: (u8, Seq<u8>)| n.0 == marker).map_values(|n: (u8, Seq<u8>)| text_of(n.1))
}

proof fn lemma_noted_last(meta: TopicMetadataView, notes: Seq<(u8, Seq<u8>)>)
    requires
        notes.len() > 0,
    ensures
        noted(meta, notes) == with_footnote(
            noted(meta, notes.drop_last()),
            notes.last().0,
            text_of(notes.last().1),
        ),
    decreases notes.len(),
{
    let rest = notes.skip(1);
    if notes.len() > 1 {
        lemma_noted_last(with_footnote(meta, notes[0].0, text_of(notes[0].1)), rest);
        assert(rest.drop_last() =~= notes.drop_last().skip(1));
        assert(notes.drop_last()[0] == notes[0]);
    } else {
        assert(rest =~= Seq::empty());
        assert(notes.drop_last() =~= Seq::empty());
        assert(noted(meta, notes.drop_last()) == meta);
        assert(noted(with_footnote(meta, notes[0].0, text_of(notes[0].1)), rest) == with_footnote(
            meta,
            notes[0].0,
            text_of(notes[0].1),
        ));
    }
}

proof fn lemma_last_text(
    notes: Seq<(u8, Seq<u8>)>,
    marker: u8,
    before: Option<Seq<char>>,
    after: Option<Seq<char>>,
)
    requires
        notes.len() > 0,
        is_last_text(notes.drop_last(), marker, before),
        notes.last().0 == marker ==> after == Some(text_of(notes.last().1)),
        notes.last().0 != marker ==> after == before,
    ensures
        is_last_text(notes, marker, after),
{
    let shorter = notes.drop_last();
    let n = notes.len() - 1;
    assert forall|k: int| #[trigger] last_with(notes, marker, k) implies after == Some(
        text_of(notes[k].1),
    ) by {
        if k < n {
            assert(notes[n].0 != marker);
            assert(last_with(shorter, marker, k)) by {
                assert forall|j: int| k < j < shorter.len() implies (#[trigger] shorter[j]).0
                    != marker by {
                    assert(notes[j].0 != marker);
                }
            }
        }
    }
    if none_with(notes, marker) {
        assert(notes[n].0 != marker);
        assert forall|j: int| 0 <= j < shorter.len() implies (#[trigger] shorter[j]).0
            != marker by {
            assert(notes[j].0 != marker);
        }
    }
}

proof fn lemma_noted_means(notes: Seq<(u8, Seq<u8>)>)
    ensures
        ({
            let m = noted(no_metadata(), notes);
            &&& is_last_text(notes, 0x23, m.context_id)
            &&& is_last_text(notes, 0x24, m.title)
            &&& is_last_text(notes, 0x2B, m.browse_seq)
            &&& m.keywords == texts_with(notes, 0x4B)
        }),
    decreases notes.len(),
{
    reveal(Seq::filter);
    let m = noted(no_metadata(), notes);
    if notes.len() > 0 {
        let shorter = notes.drop_last();
        let before = noted(no_metadata(), shorter);
        lemma_noted_means(shorter);
        lemma_noted_last(no_metadata(), notes);
        lemma_last_text(notes, 0x23, before.context_id, m.context_id);
        lemma_last_text(notes, 0x24, before.title, m.title);
        lemma_last_text(notes, 0x2B, before.browse_seq, m.browse_seq);
        assert(m.keywords =~= texts_with(notes, 0x4B));
    } else {
        assert(m.keywords =~= texts_with(notes, 0x4B));
    }
}

/// What the footnotes of a topic header mean: the last `#` is the context
/// string, the last `$` the title, the last `+` the browse sequence, and every
/// `K` is a keyword, in order. Other notes mean nothing.
pub proof fn law_footnotes_mean(link: u32, notes: Seq<(u8, Seq<u8>)>)
    requires
        forall|i: int| 0 <= i < notes.len() ==> nul_free((#[trigger] notes[i]).1),
    ensures
        ({
            let m = metadata_of(le32_bytes(link) + footnotes_bytes(notes));
            &&& is_last_text(notes, 0x23, m.context_id)
            &&& is_last_text(notes, 0x24, m.title)
            &&& is_last_text(notes, 0x2B, m.browse_seq)
            &&& m.keywords == texts_with(notes, 0x4B)
        }),
{
    law_footnotes_are_read_back(link, notes);
    lemma_noted_means(notes);
}

// ---------------------------------------------------------------------------
// System records
// ---------------------------------------------------------------------------

/// Whether record `k` is the last one of the given type.
pub open spec fn last_of_type(records: Seq<(u16, Seq<u8>)>, kind: u16, k: int) -> bool {
    &&& 0 <= k < records.len()
    &&& records[k].0 == kind
    &&& forall|j: int| k < j < records.len() ==> (#[trigger] records[j]).0 != kind
}

/// Whether no record has the given type.
pub open spec fn none_of_type(records: Seq<(u16, Seq<u8>)>, kind: u16) -> bool {
    forall|j: int| 0 <= j < records.len() ==> (#[trigger] records[j]).0 != kind
}

/// Whether `value` is the string of the last record of the given type, and
/// nothing where there is none.
pub open spec fn is_last_string(
    records: Seq<(u16, Seq<u8>)>,
    kind: u16,
    value: Option<Seq<char>>,
) -> bool {
    &&& forall|k: int, s: Seq<u8>|
        #![trigger last_of_type(records, kind, k), text_of(s)]
        last_of_type(records, kind, k) && records[k].1 == cstring(s) && nul_free(s) ==> value
            == Some(text_of(s))
    &&& none_of_type(records, kind) ==> value is None
}

/// A string that a NUL byte or the end of the data terminates is the text in
/// front of it.
pub proof fn law_strings_end_at_a_nul(s: Seq<u8>, rest: Seq<u8>)
    requires
        nul_free(s),
    ensures
        nul_string(s) == text_of(s),
        nul_string(cstring(s) + rest) == text_of(s),
{
    let all = cstring(s) + rest;
    assert(all.subrange(0, cstring(s).len() as int) =~= cstring(s));
    lemma_holds_cstring(all, 0, s);
    assert(all.take(s.len() as int) =~= s);
    lemma_nul_from(s, 0);
    if nul_from(s, 0) < s.len() {
        assert(s[nul_from(s, 0)] == 0);
    }
    assert(s.take(s.len() as int) =~= s);
}

proof fn lemma_recorded_last(info: SystemInfoView, records: Seq<(u16, Seq<u8>)>)
    requires
        records.len() > 0,
    ensures
        recorded(info, records) == with_record(
            recorded(info, records.drop_last()),
            records.last().0,
            records.last().1,
        ),
    decreases records.len(),
{
    let rest = records.skip(1);
    let next = with_record(info, records[0].0, records[0].1);
    if records.len() > 1 {
        lemma_recorded_last(next, rest);
        assert(rest.drop_last() =~= records.drop_last().skip(1));
        assert(records.drop_last()[0] == records[0]);
    } else {
        assert(rest =~= Seq::empty());
        assert(records.drop_last() =~= Seq::empty());
        assert(recorded(info, records.drop_last()) == info);
        assert(recorded(next, rest) == next);
    }
}

proof fn lemma_last_string(
    records: Seq<(u16, Seq<u8>)>,
    kind: u16,
    before: Option<Seq<char>>,
    after: Option<Seq<char>>,
)
    requires
        records.len() > 0,
        is_last_string(records.drop_last(), kind, before),
        records.last().0 == kind ==> after == Some(nul_string(records.last().1)),
        records.last().0 != kind ==> after == before,
    ensures
        is_last_string(records, kind, after),
{
    let shorter = records.drop_last();
    let n = records.len() - 1;
    assert forall|k: int, s: Seq<u8>|
        #![trigger last_of_type(records, kind, k), text_of(s)]
        last_of_type(records, kind, k) && records[k].1 == cstring(s) && nul_free(s) implies after
        == Some(text_of(s)) by {
        if k < n {
            assert(records[n].0 != kind);
            assert(last_of_type(shorter, kind, k)) by {
                assert forall|j: int| k < j < shorter.len() implies (#[trigger] shorter[j]).0
                    != kind by {
                    assert(records[j].0 != kind);
                }
            }
        } else {
            law_strings_end_at_a_nul(s, Seq::empty());
            assert(cstring(s) + Seq::<u8>::empty() =~= cstring(s));
        }
    }
    if none_of_type(records, kind) {
        assert(records[n].0 != kind);
        assert forall|j: int| 0 <= j < shorter.len() implies (#[trigger] shorter[j]).0 != kind by {
            assert(records[j].0 != kind);
        }
    }
}

/// Whether `value` is the number in the last record of type 3, and nothing where
/// there is none.
pub open spec fn is_last_root(records: Seq<(u16, Seq<u8>)>, value: Option<u32>) -> bool {
    &&& forall|k: int, n: u32|
        #![trigger last_of_type(records, 3, k), le32_bytes(n)]
        last_of_type(records, 3, k) && records[k].1 == le32_bytes(n) ==> value == Some(n)
    &&& none_of_type(records, 3) ==> value is None
}

proof fn lemma_last_root(
    records: Seq<(u16, Seq<u8>)>,
    info: SystemInfoView,
    before: Option<u32>,
    after: Option<u32>,
)
    requires
        records.len() > 0,
        is_last_root(records.drop_last(), before),
        before == info.root_topic_offset,
        after == with_record(info, records.last().0, records.last().1).root_topic_offset,
    ensures
        is_last_root(records, after),
{
    let shorter = records.drop_last();
    let last = records.len() - 1;
    assert forall|k: int, n: u32|
        #![trigger last_of_type(records, 3, k), le32_bytes(n)]
        last_of_type(records, 3, k) && records[k].1 == le32_bytes(n) implies after == Some(n) by {
        if k < last {
            assert(records[last].0 != 3);
            assert(last_of_type(shorter, 3, k)) by {
                assert forall|j: int| k < j < shorter.len() implies (#[trigger] shorter[j]).0
                    != 3 by {
                    assert(records[j].0 != 3);
                }
            }
        } else {
            let bytes = records[k].1;
            lemma_holds_all(bytes);
            lemma_holds_le32(bytes, 0, n);
        }
    }
    if none_of_type(records, 3) {
        assert(records[last].0 != 3);
        assert forall|j: int| 0 <= j < shorter.len() implies (#[trigger] shorter[j]).0 != 3 by {
            assert(records[j].0 != 3);
        }
    }
}

/// What the records say: type 1 the title, type 2 the copyright, type 3 the
/// root topic, type 4 the starting topic, and of several the last counts.
pub open spec fn says(info: SystemInfoView, records: Seq<(u16, Seq<u8>)>) -> bool {
    &&& is_last_string(records, 1, info.title)
    &&& is_last_string(records, 2, info.copyright)
    &&& is_last_root(records, info.root_topic_offset)
    &&& is_last_string(records, 4, info.starting_topic)
}

proof fn lemma_recorded_means(
    minor_version: u16,
    flags: u16,
    flags_ex: Option<u16>,
    records: Seq<(u16, Seq<u8>)>,
)
    ensures
        ({
            let info = recorded(bare_system(minor_version, flags, flags_ex), records);
            &&& info.minor_version == minor_version
            &&& info.flags == flags
            &&& info.flags_ex == flags_ex
            &&& says(info, records)
        }),
    decreases records.len(),
{
    let bare = bare_system(minor_version, flags, flags_ex);
    let info = recorded(bare, records);
    if records.len() > 0 {
        let before = recorded(bare, records.drop_last());
        lemma_recorded_means(minor_version, flags, flags_ex, records.drop_last());
        lemma_recorded_last(bare, records);
        lemma_last_string(records, 1, before.title, info.title);
        lemma_last_string(records, 2, before.copyright, info.copyright);
        lemma_last_root(records, before, before.root_topic_offset, info.root_topic_offset);
        lemma_last_string(records, 4, before.starting_topic, info.starting_topic);
    }
}

/// What a system file with the long header says: its version and flags, and the
/// last record of each type.
pub proof fn law_system_file_means(
    minor_version: u16,
    flags: u16,
    date: u32,
    flags_ex: u16,
    records: Seq<(u16, Seq<u8>)>,
)
    requires
        minor_version >= 10,
        forall|i: int| 0 <= i < records.len() ==> (#[trigger] records[i]).1.len() <= u16::MAX,
    ensures
        system_result(
            le16_bytes(0x036C) + (le16_bytes(minor_version) + (le16_bytes(flags) + (le32_bytes(date)
                + (le16_bytes(flags_ex) + system_records_bytes(records))))),
        ) matches Ok(info) && info.minor_version == minor_version && info.flags == flags
            && info.flags_ex == Some(flags_ex) && says(info, records),
{
    law_extended_system_is_read_back(minor_version, flags, date, flags_ex, records);
    lemma_recorded_means(minor_version, flags, Some(flags_ex), records);
}

/// What a system file with the short header says.
pub proof fn law_short_system_file_means(
    minor_version: u16,
    flags: u16,
    records: Seq<(u16, Seq<u8>)>,
)
    requires
        minor_version < 10,
        forall|i: int| 0 <= i < records.len() ==> (#[trigger] records[i]).1.len() <= u16::MAX,
    ensures
        system_result(
            le16_bytes(0x036C) + (le16_bytes(minor_version) + (le16_bytes(flags)
                + system_records_bytes(records))),
        ) matches Ok(info) && info.minor_version == minor_version && info.flags == flags
            && info.flags_ex is None && says(info, records),
{
    law_short_system_is_read_back(minor_version, flags, records);
    lemma_recorded_means(minor_version, flags, None, records);
}

} // verus!
