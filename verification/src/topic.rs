//! The `|TOPIC` internal file: blocks, the topic stream, and its records.
//!
//! The file is divided into blocks of a fixed size. Each has a 12-byte header
//! and data that may be compressed. The blocks are decompressed (LZ77, then
//! phrases) and put together into one stream of records.

use vstd::prelude::*;

use crate::bytes::{find_nul, joined, le32, nul_from, push_all, text_between, text_of, u32_at};
use crate::error::{prefixed, ErrorView};
use crate::lz77::{lz77, lz77_decompress};
use crate::phrase::{expanded, PhraseTable, PhraseTableView};
use crate::views::{lemma_views_push, opt_view, views};
use crate::Error;

verus! {

/// Topic block size of WinHelp 3.1.
pub const TOPIC_BLOCK_SIZE_31: usize = 4096;

/// Size of the header of a topic block.
pub const TOPIC_BLOCK_HEADER_SIZE: usize = 12;

/// Record type: topic header (footnotes and metadata).
pub const RECORD_TYPE_TOPIC: u8 = 0x02;

/// Record type: text.
pub const RECORD_TYPE_TEXT: u8 = 0x20;

/// Record type: text in a table.
pub const RECORD_TYPE_TABLE: u8 = 0x23;

/// Size of the header of a record: total size (u32), size of the text (u32)
/// and type (u8).
pub const RECORD_HEADER_SIZE: usize = 9;

/// A topic block after decompression.
#[derive(Debug, Clone)]
pub struct TopicBlock {
    /// Offset of the last topic link that starts in this block.
    pub last_topic_link: u32,
    /// Offset of the first topic link in this block (0xFFFFFFFF if none).
    pub first_topic_link: u32,
    /// Offset of the last topic header that ends in this block.
    pub last_topic_header: u32,
    /// The data of the block, decompressed and with phrases expanded.
    pub data: Vec<u8>,
}

/// A topic block with its data as a byte sequence.
pub struct TopicBlockView {
    pub last_topic_link: u32,
    pub first_topic_link: u32,
    pub last_topic_header: u32,
    pub data: Seq<u8>,
}

impl View for TopicBlock {
    type V = TopicBlockView;

    open spec fn view(&self) -> TopicBlockView {
        TopicBlockView {
            last_topic_link: self.last_topic_link,
            first_topic_link: self.first_topic_link,
            last_topic_header: self.last_topic_header,
            data: self.data@,
        }
    }
}

/// A record of the topic stream.
#[derive(Debug, Clone)]
pub struct RawTopicRecord {
    /// Record type.
    pub record_type: u8,
    /// What follows the record header.
    pub data: Vec<u8>,
    /// Size of the text at the end of the data, as the header declares it.
    pub data_size: u32,
    /// Byte offset of this record in the topic stream.
    pub stream_offset: usize,
}

/// A record with its data as a byte sequence.
pub struct RawTopicRecordView {
    pub record_type: u8,
    pub data: Seq<u8>,
    pub data_size: u32,
    pub stream_offset: int,
}

impl View for RawTopicRecord {
    type V = RawTopicRecordView;

    open spec fn view(&self) -> RawTopicRecordView {
        RawTopicRecordView {
            record_type: self.record_type,
            data: self.data@,
            data_size: self.data_size,
            stream_offset: self.stream_offset as int,
        }
    }
}

/// Where the text of a record starts: its size is counted from the end.
pub open spec fn text_start(record: RawTopicRecordView) -> int {
    if record.data_size <= record.data.len() {
        record.data.len() - record.data_size
    } else {
        0
    }
}

/// The commands of a record.
pub open spec fn commands_of(record: RawTopicRecordView) -> Seq<u8> {
    record.data.take(text_start(record))
}

/// The text of a record.
pub open spec fn strings_of(record: RawTopicRecordView) -> Seq<u8> {
    record.data.skip(text_start(record))
}

/// The commands and the text of a record together are its data.
pub proof fn law_commands_and_text_are_the_data(record: RawTopicRecordView)
    ensures
        commands_of(record) + strings_of(record) == record.data,
{
    assert(commands_of(record) + strings_of(record) =~= record.data);
}

/// The text of a record is at the end of its data and has the size that its
/// header declares; where the data is shorter, all of it is text.
pub proof fn law_text_is_at_the_end(record: RawTopicRecordView)
    ensures
        record.data_size <= record.data.len() ==> strings_of(record).len() == record.data_size,
        record.data_size > record.data.len() ==> strings_of(record) == record.data,
        strings_of(record).is_suffix_of(record.data),
        commands_of(record).is_prefix_of(record.data),
{
    let n = text_start(record);
    assert(record.data.subrange(
        record.data.len() - strings_of(record).len(),
        record.data.len() as int,
    ) =~= strings_of(record));
    assert(record.data.subrange(0, commands_of(record).len() as int) =~= commands_of(record));
    assert(record.data.skip(0) =~= record.data);
}

impl RawTopicRecord {
    fn split(&self) -> (n: usize)
        ensures
            n == text_start(self@),
            n <= self.data@.len(),
    {
        let len: usize = self.data.len();
        if self.data_size as u64 <= len as u64 {
            len - self.data_size as usize
        } else {
            0
        }
    }

    /// The commands of this record.
    pub fn link_data1(&self) -> (r: &[u8])
        ensures
            r@ == commands_of(self@),
    {
        let n: usize = self.split();
        assert(self.data@.subrange(0, n as int) =~= self.data@.take(n as int));
        vstd::slice::slice_subrange(self.data.as_slice(), 0, n)
    }

    /// The text of this record.
    pub fn link_data2(&self) -> (r: &[u8])
        ensures
            r@ == strings_of(self@),
    {
        let n: usize = self.split();
        assert(self.data@.subrange(n as int, self.data@.len() as int) =~= self.data@.skip(
            n as int,
        ));
        vstd::slice::slice_subrange(self.data.as_slice(), n, self.data.len())
    }
}

/// Metadata of a topic, from the footnotes of its header record.
#[derive(Debug, Clone)]
pub struct TopicMetadata {
    /// Context string, the identifier of the topic (`#` footnote).
    pub context_id: Option<String>,
    /// Display title (`$` footnote).
    pub title: Option<String>,
    /// Keywords (`K` footnotes).
    pub keywords: Vec<String>,
    /// Browse sequence identifier (`+` footnote).
    pub browse_seq: Option<String>,
}

/// Topic metadata with its strings as sequences of characters.
pub struct TopicMetadataView {
    pub context_id: Option<Seq<char>>,
    pub title: Option<Seq<char>>,
    pub keywords: Seq<Seq<char>>,
    pub browse_seq: Option<Seq<char>>,
}

impl View for TopicMetadata {
    type V = TopicMetadataView;

    open spec fn view(&self) -> TopicMetadataView {
        TopicMetadataView {
            context_id: opt_view(self.context_id),
            title: opt_view(self.title),
            keywords: views(self.keywords@),
            browse_seq: opt_view(self.browse_seq),
        }
    }
}

/// Metadata without any footnote.
pub open spec fn no_metadata() -> TopicMetadataView {
    TopicMetadataView { context_id: None, title: None, keywords: Seq::empty(), browse_seq: None }
}

impl Default for TopicMetadata {
    fn default() -> (m: Self)
        ensures
            m@ == no_metadata(),
    {
        let m = TopicMetadata {
            context_id: None,
            title: None,
            keywords: Vec::new(),
            browse_seq: None,
        };
        assert(views(m.keywords@) =~= Seq::empty());
        m
    }
}

// ---------------------------------------------------------------------------
// Blocks
// ---------------------------------------------------------------------------

/// The data of a block: decompressed where blocks are compressed, then with
/// phrases expanded where there are phrases.
pub open spec fn block_data(packed: Seq<u8>, use_lz77: bool, phrases: PhraseTableView) -> Result<
    Seq<u8>,
    ErrorView,
> {
    let plain = if use_lz77 {
        lz77(packed)
    } else {
        packed
    };
    if phrases.phrases.len() == 0 {
        Ok(plain)
    } else {
        expanded(phrases, plain)
    }
}

/// The blocks from `pos` on, one every `block_size` bytes; the last one may be
/// shorter. Fewer bytes than a header are no block.
pub open spec fn blocks_from(
    data: Seq<u8>,
    pos: int,
    block_size: nat,
    use_lz77: bool,
    phrases: PhraseTableView,
) -> Result<Seq<TopicBlockView>, ErrorView>
    decreases data.len() - pos,
{
    if pos < 0 || pos + TOPIC_BLOCK_HEADER_SIZE > data.len() || block_size
        < TOPIC_BLOCK_HEADER_SIZE {
        Ok(Seq::empty())
    } else {
        let end = if pos + block_size <= data.len() {
            pos + block_size
        } else {
            data.len() as int
        };
        match block_data(
            data.subrange(pos + TOPIC_BLOCK_HEADER_SIZE, end),
            use_lz77,
            phrases,
        ) {
            Err(e) => Err(e),
            Ok(plain) => prefixed(
                seq![
                    TopicBlockView {
                        last_topic_link: le32(data, pos),
                        first_topic_link: le32(data, pos + 4),
                        last_topic_header: le32(data, pos + 8),
                        data: plain,
                    },
                ],
                blocks_from(data, end, block_size, use_lz77, phrases),
            ),
        }
    }
}

/// Reads the bytes of `|TOPIC` as a sequence of decompressed blocks.
pub fn read_topic_blocks(
    topic_data: &[u8],
    block_size: usize,
    use_lz77: bool,
    phrases: &PhraseTable,
) -> (r: Result<Vec<TopicBlock>, Error>)
    ensures
        match r {
            Ok(blocks) => blocks_from(topic_data@, 0, block_size as nat, use_lz77, phrases@)
                == Ok::<Seq<TopicBlockView>, ErrorView>(views(blocks@)),
            Err(e) => blocks_from(topic_data@, 0, block_size as nat, use_lz77, phrases@) == Err::<
                Seq<TopicBlockView>,
                ErrorView,
            >(e@),
        },
{
    let mut blocks: Vec<TopicBlock> = Vec::new();
    let len: usize = topic_data.len();
    let mut pos: usize = 0;
    let ghost all = blocks_from(topic_data@, 0, block_size as nat, use_lz77, phrases@);
    proof {
        assert(views(blocks@) =~= Seq::empty());
        if let Ok(s) = all {
            assert(Seq::<TopicBlockView>::empty() + s =~= s);
        }
    }
    while len - pos >= TOPIC_BLOCK_HEADER_SIZE && block_size >= TOPIC_BLOCK_HEADER_SIZE
        invariant
            pos <= len,
            len == topic_data@.len(),
            all == blocks_from(topic_data@, 0, block_size as nat, use_lz77, phrases@),
            all == prefixed(
                views(blocks@),
                blocks_from(topic_data@, pos as int, block_size as nat, use_lz77, phrases@),
            ),
        decreases len - pos,
    {
        let end: usize = if block_size <= len - pos {
            pos + block_size
        } else {
            len
        };
        let packed: &[u8] = vstd::slice::slice_subrange(
            topic_data,
            pos + TOPIC_BLOCK_HEADER_SIZE,
            end,
        );
        let plain: Vec<u8> = if use_lz77 {
            match lz77_decompress(packed) {
                Ok(v) => v,
                Err(e) => {
                    return Err(e);
                },
            }
        } else {
            vstd::slice::slice_to_vec(packed)
        };
        let data: Vec<u8> = if !phrases.is_empty() {
            match phrases.expand(plain.as_slice()) {
                Ok(v) => v,
                Err(e) => {
                    return Err(e);
                },
            }
        } else {
            plain
        };
        let block = TopicBlock {
            last_topic_link: u32_at(topic_data, pos),
            first_topic_link: u32_at(topic_data, pos + 4),
            last_topic_header: u32_at(topic_data, pos + 8),
            data,
        };
        proof {
            let rest = blocks_from(
                topic_data@,
                end as int,
                block_size as nat,
                use_lz77,
                phrases@,
            );
            lemma_views_push(blocks@, block);
            if let Ok(s) = rest {
                assert(views(blocks@) + (seq![block@] + s) =~= views(blocks@.push(block)) + s);
            }
        }
        blocks.push(block);
        pos = end;
    }
    assert(views(blocks@) + Seq::<TopicBlockView>::empty() =~= views(blocks@));
    Ok(blocks)
}

/// The data of all blocks, put together.
pub open spec fn stream_of(blocks: Seq<TopicBlockView>) -> Seq<u8> {
    joined(Seq::new(blocks.len(), |i: int| blocks[i].data))
}

/// Puts the data of the blocks together into one stream.
pub fn flatten_topic_stream(blocks: &[TopicBlock]) -> (stream: Vec<u8>)
    ensures
        stream@ == stream_of(views(blocks@)),
{
    let mut stream: Vec<u8> = Vec::new();
    let mut i: usize = 0;
    let ghost pieces = Seq::new(views(blocks@).len(), |i: int| views(blocks@)[i].data);
    assert(pieces.take(0) =~= Seq::empty());
    while i < blocks.len()
        invariant
            i <= blocks@.len(),
            pieces == Seq::new(views(blocks@).len(), |i: int| views(blocks@)[i].data),
            stream@ == joined(pieces.take(i as int)),
        decreases blocks@.len() - i,
    {
        push_all(&mut stream, blocks[i].data.as_slice());
        i += 1;
        assert(pieces.take(i as int).drop_last() =~= pieces.take(i - 1));
    }
    assert(pieces.take(i as int) =~= pieces);
    stream
}

// ---------------------------------------------------------------------------
// Records
// ---------------------------------------------------------------------------

/// The records from `pos` on. A size that does not even cover the record
/// header ends the list; the last record ends with the stream.
pub open spec fn records_from(stream: Seq<u8>, pos: int) -> Seq<RawTopicRecordView>
    decreases stream.len() - pos,
{
    if pos < 0 || pos + RECORD_HEADER_SIZE > stream.len() || le32(stream, pos)
        < RECORD_HEADER_SIZE {
        Seq::empty()
    } else {
        let size = le32(stream, pos);
        let end = if pos + size <= stream.len() {
            pos + size
        } else {
            stream.len() as int
        };
        seq![
            RawTopicRecordView {
                record_type: stream[pos + 8],
                data: stream.subrange(pos + RECORD_HEADER_SIZE, end),
                data_size: le32(stream, pos + 4),
                stream_offset: pos,
            },
        ] + records_from(stream, end)
    }
}

/// Splits the topic stream into its records.
pub fn extract_records(stream: &[u8]) -> (r: Result<Vec<RawTopicRecord>, Error>)
    ensures
        r matches Ok(records) && views(records@) == records_from(stream@, 0),
{
    let mut records: Vec<RawTopicRecord> = Vec::new();
    let len: usize = stream.len();
    let mut pos: usize = 0;
    let ghost all = records_from(stream@, 0);
    assert(views(records@) + all =~= all);
    while len - pos >= RECORD_HEADER_SIZE
        invariant
            pos <= len,
            len == stream@.len(),
            all == records_from(stream@, 0),
            all == views(records@) + records_from(stream@, pos as int),
        decreases len - pos,
    {
        let size: usize = u32_at(stream, pos) as usize;
        if size < RECORD_HEADER_SIZE {
            assert(views(records@) + Seq::<RawTopicRecordView>::empty() =~= views(records@));
            return Ok(records);
        }
        let end: usize = if size <= len - pos {
            pos + size
        } else {
            len
        };
        let record = RawTopicRecord {
            record_type: stream[pos + 8],
            data: vstd::slice::slice_to_vec(
                vstd::slice::slice_subrange(stream, pos + RECORD_HEADER_SIZE, end),
            ),
            data_size: u32_at(stream, pos + 4),
            stream_offset: pos,
        };
        proof {
            lemma_views_push(records@, record);
            let rest = records_from(stream@, end as int);
            assert(views(records@) + (seq![record@] + rest) =~= views(records@.push(record))
                + rest);
        }
        records.push(record);
        pos = end;
    }
    assert(views(records@) + Seq::<RawTopicRecordView>::empty() =~= views(records@));
    Ok(records)
}

/// The records of a stream, one after another, never overlap, and every record
/// lies within the stream.
pub proof fn law_records_are_disjoint(stream: Seq<u8>, pos: int)
    requires
        0 <= pos <= stream.len(),
    ensures
        forall|i: int|
            0 <= i < records_from(stream, pos).len() ==> {
                let r = #[trigger] records_from(stream, pos)[i];
                pos <= r.stream_offset && r.stream_offset + RECORD_HEADER_SIZE + r.data.len()
                    <= stream.len()
            },
        forall|i: int, j: int|
            0 <= i < j < records_from(stream, pos).len() ==> #[trigger] records_from(
                stream,
                pos,
            )[i].stream_offset + RECORD_HEADER_SIZE + records_from(stream, pos)[i].data.len()
                <= (#[trigger] records_from(stream, pos)[j]).stream_offset,
    decreases stream.len() - pos,
{
    if pos + RECORD_HEADER_SIZE <= stream.len() && le32(stream, pos) >= RECORD_HEADER_SIZE {
        let size = le32(stream, pos);
        let end = if pos + size <= stream.len() {
            pos + size
        } else {
            stream.len() as int
        };
        law_records_are_disjoint(stream, end);
        let all = records_from(stream, pos);
        let rest = records_from(stream, end);
        assert(all[0].stream_offset == pos && all[0].data.len() == end - pos - RECORD_HEADER_SIZE);
        assert forall|i: int| 1 <= i < all.len() implies #[trigger] all[i] == rest[i - 1] by {}
        assert forall|i: int| 0 <= i < all.len() implies {
            let r = #[trigger] all[i];
            pos <= r.stream_offset && r.stream_offset + RECORD_HEADER_SIZE + r.data.len()
                <= stream.len()
        } by {
            if i > 0 {
                assert(rest[i - 1].stream_offset >= end);
            }
        }
        assert forall|i: int, j: int| 0 <= i < j < all.len() implies #[trigger] all[i].stream_offset
            + RECORD_HEADER_SIZE + all[i].data.len() <= (#[trigger] all[j]).stream_offset by {
            assert(all[j] == rest[j - 1]);
            if i > 0 {
                assert(all[i] == rest[i - 1]);
                assert(rest[i - 1].stream_offset + RECORD_HEADER_SIZE + rest[i - 1].data.len()
                    <= rest[j - 1].stream_offset);
            } else {
                assert(rest[j - 1].stream_offset >= end);
            }
        }
    }
}

// ---------------------------------------------------------------------------
// Footnotes
// ---------------------------------------------------------------------------

/// The metadata after a footnote. Other markers change nothing.
pub open spec fn with_footnote(meta: TopicMetadataView, marker: u8, s: Seq<char>) -> TopicMetadataView {
    if marker == 0x23 {
        TopicMetadataView { context_id: Some(s), ..meta }
    } else if marker == 0x24 {
        TopicMetadataView { title: Some(s), ..meta }
    } else if marker == 0x4B {
        TopicMetadataView { keywords: meta.keywords.push(s), ..meta }
    } else if marker == 0x2B {
        TopicMetadataView { browse_seq: Some(s), ..meta }
    } else {
        meta
    }
}

/// The metadata after all footnotes from `pos` on: each is a marker byte and a
/// string, which a NUL byte or the end of the record terminates. A marker at
/// the very end has no string and counts for nothing.
pub open spec fn with_footnotes(meta: TopicMetadataView, data: Seq<u8>, pos: int) -> TopicMetadataView
    decreases data.len() + 1 - pos,
{
    if pos < 0 || pos + 1 >= data.len() {
        meta
    } else {
        let end = nul_from(data, pos + 1);
        proof {
            crate::bytes::lemma_nul_from(data, pos + 1);
        }
        with_footnotes(
            with_footnote(meta, data[pos], text_of(data.subrange(pos + 1, end))),
            data,
            end + 1,
        )
    }
}

/// The metadata of a topic header record: footnotes behind a 32-bit link.
pub open spec fn metadata_of(data: Seq<u8>) -> TopicMetadataView {
    if data.len() < 4 {
        no_metadata()
    } else {
        with_footnotes(no_metadata(), data, 4)
    }
}

/// Parses the footnotes of a topic header record.
///
/// The markers are `#` (context string), `$` (display title), `K` (keyword)
/// and `+` (browse sequence).
pub fn parse_topic_metadata(record_data: &[u8]) -> (m: TopicMetadata)
    ensures
        m@ == metadata_of(record_data@),
{
    let mut meta: TopicMetadata = TopicMetadata::default();
    let len: usize = record_data.len();
    if len < 4 {
        return meta;
    }
    let mut pos: usize = 4;
    while pos < len && len - pos > 1
        invariant
            pos <= len,
            len == record_data@.len(),
            with_footnotes(meta@, record_data@, pos as int) == metadata_of(record_data@),
        decreases len - pos,
    {
        let marker: u8 = record_data[pos];
        let end: usize = find_nul(record_data, pos + 1);
        let s: String = text_between(record_data, pos + 1, end);
        let ghost before = meta@;
        let ghost text = s@;
        if marker == 0x23 {
            meta.context_id = Some(s);
        } else if marker == 0x24 {
            meta.title = Some(s);
        } else if marker == 0x4B {
            proof {
                lemma_views_push(meta.keywords@, s);
            }
            meta.keywords.push(s);
        } else if marker == 0x2B {
            meta.browse_seq = Some(s);
        }
        assert(meta@ == with_footnote(before, marker, text));
        if end < len {
            pos = end + 1;
        } else {
            assert(with_footnotes(meta@, record_data@, end + 1) == meta@);
            pos = len;
        }
    }
    meta
}

} // verus!
