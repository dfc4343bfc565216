//! A help file as a whole: from the container to the document model.

use std::collections::HashMap;

use vstd::prelude::*;

use crate::bitmap::{extract_bitmap, extract_result};
use crate::container::{read_result, ContainerView, HlpContainer};
use crate::context::{context_hash, context_result, hash_of, ContextMap};
use crate::error::ErrorView;
use crate::font::{fonts_result, FontDescriptorView, FontTable};
use crate::hall::hall_result;
use crate::inversion::{build_keyword_index, inverted};
use crate::model::{
    blocks_view, lemma_blocks_index, lemma_rows_index, rows_view, Block, BlockView, HelpFile,
    HelpFileView, KeywordEntry, Topic, TopicView,
};
use crate::opcode::{
    law_record_blocks_are_tidy, parse_text_record, record_blocks, targets_view, tidy_block,
};
use crate::phrase::{table_result, PhraseTable, PhraseTableView};
use crate::system::{block_size_of, lz77_used, system_result, SystemInfo, SystemInfoView};
use crate::title::{titles_result, TitleIndex};
use crate::topic::{
    blocks_from, commands_of, extract_records, flatten_topic_stream, law_records_are_disjoint,
    metadata_of, parse_topic_metadata, read_topic_blocks, records_from, stream_of, strings_of, RawTopicRecord,
    RawTopicRecordView, TopicBlock, TopicMetadata, TopicMetadataView, RECORD_TYPE_TABLE,
    RECORD_TYPE_TEXT, RECORD_TYPE_TOPIC,
};
use crate::views::{lemma_views_push, opt_view, views};
use crate::Error;

verus! {

broadcast use vstd::std_specs::hash::group_hash_axioms;

/// How to read a help file.
#[derive(Debug, Clone, Copy)]
pub struct ParseOptions {
    /// A minor version to go by instead of the one in `|SYSTEM`.
    pub format_version_override: Option<u16>,
}

impl Default for ParseOptions {
    fn default() -> (o: Self)
        ensures
            o.format_version_override == None::<u16>,
    {
        ParseOptions { format_version_override: None }
    }
}

/// The WinHelp format versions that a reader can be told to go by.
#[derive(Debug, Clone, Copy, PartialEq, Eq, Structural)]
pub enum FormatVersion {
    /// WinHelp 3.0.
    V30,
    /// WinHelp 3.1.
    V31,
    /// WinHelp 4.0.
    V40,
}

/// The minor version that `|SYSTEM` holds for a format version.
pub open spec fn minor_version_of(v: FormatVersion) -> u16 {
    match v {
        FormatVersion::V30 => 15,
        FormatVersion::V31 => 21,
        FormatVersion::V40 => 27,
    }
}

/// The name of a format version.
pub open spec fn version_label(v: FormatVersion) -> Seq<char> {
    match v {
        FormatVersion::V30 => "3.0"@,
        FormatVersion::V31 => "3.1"@,
        FormatVersion::V40 => "4.0"@,
    }
}

impl FormatVersion {
    /// The minor version of this format.
    pub fn minor_version(self) -> (r: u16)
        ensures
            r == minor_version_of(self),
    {
        match self {
            FormatVersion::V30 => 15,
            FormatVersion::V31 => 21,
            FormatVersion::V40 => 27,
        }
    }

    /// The name of this format.
    pub fn label(self) -> (r: &'static str)
        ensures
            r@ == version_label(self),
    {
        match self {
            FormatVersion::V30 => "3.0",
            FormatVersion::V31 => "3.1",
            FormatVersion::V40 => "4.0",
        }
    }
}

// ---------------------------------------------------------------------------
// What a container holds
// ---------------------------------------------------------------------------

/// The metadata of the help file, with the version that the options ask for.
pub open spec fn system_of(c: ContainerView, options: ParseOptions) -> Result<
    SystemInfoView,
    ErrorView,
> {
    match read_result(c, "|SYSTEM"@) {
        Err(e) => Err(e),
        Ok(data) => match system_result(data) {
            Err(e) => Err(e),
            Ok(info) => Ok(
                match options.format_version_override {
                    Some(minor_version) => SystemInfoView { minor_version, ..info },
                    None => info,
                },
            ),
        },
    }
}

/// A table without phrases.
pub open spec fn no_phrases() -> PhraseTableView {
    PhraseTableView { phrases: Seq::empty(), hall: false }
}

/// The phrases of WinHelp 4.0, where both files are there.
pub open spec fn hall_phrases_of(c: ContainerView) -> Result<PhraseTableView, ErrorView> {
    match read_result(c, "|PhrIndex"@) {
        Err(ErrorView::FileNotFound(_)) => Ok(no_phrases()),
        Err(e) => Err(e),
        Ok(index) => match read_result(c, "|PhrImage"@) {
            Err(ErrorView::FileNotFound(_)) => Ok(no_phrases()),
            Err(e) => Err(e),
            Ok(image) => hall_result(index, image),
        },
    }
}

/// The phrases of the help file. Without `|Phrases`, those of WinHelp 4.0.
pub open spec fn phrases_of(c: ContainerView, info: SystemInfoView) -> Result<
    PhraseTableView,
    ErrorView,
> {
    match read_result(c, "|Phrases"@) {
        Err(ErrorView::FileNotFound(_)) => hall_phrases_of(c),
        Err(e) => Err(e),
        Ok(data) => table_result(
            data,
            match read_result(c, "|PhrIndex"@) {
                Ok(index) => Some(index),
                Err(_) => None,
            },
            info.minor_version > 16,
        ),
    }
}

/// What an optional internal file holds: `absent` where it is not there.
pub open spec fn optional_result<T>(
    c: ContainerView,
    name: Seq<char>,
    parse: spec_fn(Seq<u8>) -> Result<T, ErrorView>,
    absent: T,
) -> Result<T, ErrorView> {
    match read_result(c, name) {
        Err(ErrorView::FileNotFound(_)) => Ok(absent),
        Err(e) => Err(e),
        Ok(data) => parse(data),
    }
}

/// The fonts of the help file; none without `|FONT`.
pub open spec fn fonts_of(c: ContainerView) -> Result<Seq<FontDescriptorView>, ErrorView> {
    optional_result(c, "|FONT"@, |d: Seq<u8>| fonts_result(d), Seq::empty())
}

/// The context map of the help file; empty without `|CONTEXT`.
pub open spec fn context_of(c: ContainerView) -> Result<Map<u32, u32>, ErrorView> {
    optional_result(c, "|CONTEXT"@, |d: Seq<u8>| context_result(d), Map::empty())
}

/// The titles of the help file; none without `|TTLBTREE`.
pub open spec fn titles_of(c: ContainerView) -> Result<Seq<(u32, Seq<char>)>, ErrorView> {
    optional_result(c, "|TTLBTREE"@, |d: Seq<u8>| titles_result(d), Seq::empty())
}

/// The records of the topic stream.
pub open spec fn records_of(c: ContainerView, info: SystemInfoView, phrases: PhraseTableView) -> Result<
    Seq<RawTopicRecordView>,
    ErrorView,
> {
    match read_result(c, "|TOPIC"@) {
        Err(e) => Err(e),
        Ok(data) => match blocks_from(
            data,
            0,
            block_size_of(info) as nat,
            lz77_used(info),
            phrases,
        ) {
            Err(e) => Err(e),
            Ok(blocks) => Ok(records_from(stream_of(blocks), 0)),
        },
    }
}

/// The hash of a context string.
pub open spec fn context_key(id: Seq<char>) -> u32 {
    hash_of(vstd::utf8::encode_utf8(id)) as u32
}

/// The context strings of the topics, by their hash; of two with one hash the
/// later counts.
pub open spec fn targets_of(records: Seq<RawTopicRecordView>) -> Map<u32, Seq<char>>
    decreases records.len(),
{
    if records.len() == 0 {
        Map::empty()
    } else {
        let before = targets_of(records.drop_last());
        let record = records.last();
        if record.record_type == RECORD_TYPE_TOPIC {
            match metadata_of(record.data).context_id {
                Some(id) => before.insert(context_key(id), id),
                None => before,
            }
        } else {
            before
        }
    }
}

/// A topic of the given metadata and content.
pub open spec fn topic_of(meta: TopicMetadataView, body: Seq<BlockView>) -> TopicView {
    TopicView {
        id: match meta.context_id {
            Some(id) => id,
            None => Seq::empty(),
        },
        aliases: Seq::empty(),
        title: match meta.title {
            Some(title) => title,
            None => "(untitled)"@,
        },
        keywords: meta.keywords,
        browse_seq: meta.browse_seq,
        body,
    }
}

/// The topics that are complete, and the topic that is being read.
pub struct Grouping {
    pub topics: Seq<TopicView>,
    pub meta: Option<TopicMetadataView>,
    pub body: Seq<BlockView>,
}

/// The topics with the one that is being read.
pub open spec fn flushed(g: Grouping) -> Seq<TopicView> {
    match g.meta {
        Some(meta) => g.topics.push(topic_of(meta, g.body)),
        None => g.topics,
    }
}

/// The topics after some records: a topic header starts a topic, text belongs
/// to the current topic. Text before the first topic belongs to none.
pub open spec fn grouped(records: Seq<RawTopicRecordView>, targets: Map<u32, Seq<char>>) -> Grouping
    decreases records.len(),
{
    if records.len() == 0 {
        Grouping { topics: Seq::empty(), meta: None, body: Seq::empty() }
    } else {
        let before = grouped(records.drop_last(), targets);
        let record = records.last();
        if record.record_type == RECORD_TYPE_TOPIC {
            Grouping {
                topics: flushed(before),
                meta: Some(metadata_of(record.data)),
                body: Seq::empty(),
            }
        } else if (record.record_type == RECORD_TYPE_TEXT || record.record_type
            == RECORD_TYPE_TABLE) && before.meta is Some {
            Grouping {
                body: before.body + record_blocks(
                    commands_of(record),
                    strings_of(record),
                    targets,
                ),
                ..before
            }
        } else {
            before
        }
    }
}

/// The topics of the records.
pub open spec fn topics_of(records: Seq<RawTopicRecordView>) -> Seq<TopicView> {
    flushed(grouped(records, targets_of(records)))
}

/// The images that a block refers to, in order.
pub open spec fn block_images(b: BlockView) -> Seq<Seq<char>>
    decreases b,
{
    match b {
        BlockView::Paragraph(_) => Seq::empty(),
        BlockView::Table(rows) => rows_images(rows),
        BlockView::Image(image) => seq![image.filename],
    }
}

/// The images that the rows of a table refer to, in order.
pub open spec fn rows_images(rows: Seq<Seq<BlockView>>) -> Seq<Seq<char>>
    decreases rows,
{
    if rows.len() == 0 {
        Seq::empty()
    } else {
        rows_images(rows.drop_last()) + blocks_images(rows.last())
    }
}

/// The images that blocks refer to, in order.
pub open spec fn blocks_images(s: Seq<BlockView>) -> Seq<Seq<char>>
    decreases s,
{
    if s.len() == 0 {
        Seq::empty()
    } else {
        blocks_images(s.drop_last()) + block_images(s.last())
    }
}

/// The images that topics refer to, in order.
pub open spec fn topics_images(topics: Seq<TopicView>) -> Seq<Seq<char>>
    decreases topics.len(),
{
    if topics.len() == 0 {
        Seq::empty()
    } else {
        topics_images(topics.drop_last()) + blocks_images(topics.last().body)
    }
}

/// Whether there is an image with the given name.
pub open spec fn has_image(images: Seq<(Seq<char>, Seq<u8>)>, name: Seq<char>) -> bool {
    exists|i: int| 0 <= i < images.len() && #[trigger] images[i].0 == name
}

/// The images with the given names, in the order of first mention, each once.
/// A name whose internal file is not there or cannot be read has no image.
pub open spec fn images_of(c: ContainerView, names: Seq<Seq<char>>) -> Seq<(Seq<char>, Seq<u8>)>
    decreases names.len(),
{
    if names.len() == 0 {
        Seq::empty()
    } else {
        let before = images_of(c, names.drop_last());
        if has_image(before, names.last()) {
            before
        } else {
            match extract_result(c, names.last()) {
                Ok(Some(bytes)) => before.push((names.last(), bytes)),
                _ => before,
            }
        }
    }
}

/// The root topic: the starting topic, where the metadata names one, otherwise
/// the first topic.
pub open spec fn root_of(info: SystemInfoView, topics: Seq<TopicView>) -> Seq<char> {
    match info.starting_topic {
        Some(id) => id,
        None => if topics.len() > 0 {
            topics[0].id
        } else {
            Seq::empty()
        },
    }
}

/// The document of the given metadata and topics.
pub open spec fn document_of(
    info: SystemInfoView,
    topics: Seq<TopicView>,
    images: Seq<(Seq<char>, Seq<u8>)>,
) -> HelpFileView {
    HelpFileView {
        title: match info.title {
            Some(title) => title,
            None => "(untitled)"@,
        },
        copyright: info.copyright,
        root_topic: root_of(info, topics),
        topics,
        keyword_index: inverted(topics),
        images,
    }
}

/// The document that a container holds. The fonts, the context map and the
/// titles have no part in it, but where one of these files is malformed, so is
/// the help file.
pub open spec fn helpfile_result(c: ContainerView, options: ParseOptions) -> Result<
    HelpFileView,
    ErrorView,
> {
    match system_of(c, options) {
        Err(e) => Err(e),
        Ok(info) => match phrases_of(c, info) {
            Err(e) => Err(e),
            Ok(phrases) => match fonts_of(c) {
                Err(e) => Err(e),
                Ok(_) => match records_of(c, info, phrases) {
                    Err(e) => Err(e),
                    Ok(records) => match context_of(c) {
                        Err(e) => Err(e),
                        Ok(_) => match titles_of(c) {
                            Err(e) => Err(e),
                            Ok(_) => {
                                let topics = topics_of(records);
                                Ok(document_of(info, topics, images_of(c, topics_images(topics))))
                            },
                        },
                    },
                },
            },
        },
    }
}

// ---------------------------------------------------------------------------
// Laws
// ---------------------------------------------------------------------------

/// The metadata of the topic header records, in order.
pub open spec fn headers_of(records: Seq<RawTopicRecordView>) -> Seq<TopicMetadataView>
    decreases records.len(),
{
    if records.len() == 0 {
        Seq::empty()
    } else if records.last().record_type == RECORD_TYPE_TOPIC {
        headers_of(records.drop_last()).push(metadata_of(records.last().data))
    } else {
        headers_of(records.drop_last())
    }
}

/// Whether each topic has the metadata of its header.
pub open spec fn described_by(topics: Seq<TopicView>, headers: Seq<TopicMetadataView>) -> bool {
    &&& topics.len() == headers.len()
    &&& forall|i: int|
        0 <= i < topics.len() ==> #[trigger] topics[i] == topic_of(headers[i], topics[i].body)
}

pub proof fn lemma_topics_described(
    records: Seq<RawTopicRecordView>,
    targets: Map<u32, Seq<char>>,
)
    ensures
        described_by(flushed(grouped(records, targets)), headers_of(records)),
        grouped(records, targets).meta is None ==> headers_of(records).len() == 0,
    decreases records.len(),
{
    if records.len() > 0 {
        lemma_topics_described(records.drop_last(), targets);
        let before = grouped(records.drop_last(), targets);
        let after = grouped(records, targets);
        let old_topics = flushed(before);
        let topics = flushed(after);
        let old_headers = headers_of(records.drop_last());
        let headers = headers_of(records);
        assert forall|i: int| 0 <= i < topics.len() implies #[trigger] topics[i] == topic_of(
            headers[i],
            topics[i].body,
        ) by {
            if i < old_topics.len() {
                assert(old_topics[i] == topic_of(old_headers[i], old_topics[i].body));
            }
        }
    }
}

/// Every topic header record makes one topic, and the topics stand in the
/// order of their headers, with the identifier, the title, the keywords and
/// the browse sequence that the header gives.
pub proof fn law_headers_make_topics(records: Seq<RawTopicRecordView>)
    ensures
        described_by(topics_of(records), headers_of(records)),
{
    lemma_topics_described(records, targets_of(records));
}

/// The topic header records, in order.
pub open spec fn header_records(records: Seq<RawTopicRecordView>) -> Seq<RawTopicRecordView>
    decreases records.len(),
{
    if records.len() == 0 {
        Seq::empty()
    } else if records.last().record_type == RECORD_TYPE_TOPIC {
        header_records(records.drop_last()).push(records.last())
    } else {
        header_records(records.drop_last())
    }
}

/// Whether each record lies behind the one before it in the topic stream.
pub open spec fn in_stream_order(records: Seq<RawTopicRecordView>) -> bool {
    forall|i: int, j: int|
        0 <= i < j < records.len() ==> (#[trigger] records[i]).stream_offset < (
        #[trigger] records[j]).stream_offset
}

proof fn lemma_headers_in_order(records: Seq<RawTopicRecordView>)
    requires
        in_stream_order(records),
    ensures
        in_stream_order(header_records(records)),
        header_records(records).len() == headers_of(records).len(),
        forall|i: int|
            0 <= i < header_records(records).len() ==> headers_of(records)[i] == metadata_of(
                (#[trigger] header_records(records)[i]).data,
            ),
        forall|i: int|
            0 <= i < header_records(records).len() ==> records.contains(
                #[trigger] header_records(records)[i],
            ),
    decreases records.len(),
{
    if records.len() > 0 {
        let shorter = records.drop_last();
        assert(in_stream_order(shorter)) by {
            assert forall|i: int, j: int| 0 <= i < j < shorter.len() implies (
            #[trigger] shorter[i]).stream_offset < (#[trigger] shorter[j]).stream_offset by {
                assert(records[i].stream_offset < records[j].stream_offset);
            }
        }
        lemma_headers_in_order(shorter);
        let before = header_records(shorter);
        let after = header_records(records);
        let last = records.len() - 1;
        assert forall|i: int| 0 <= i < before.len() implies before[i].stream_offset
            < records[last].stream_offset && records.contains(#[trigger] before[i]) by {
            let k = choose|k: int| 0 <= k < shorter.len() && shorter[k] == before[i];
            assert(records[k] == before[i]);
        }
        assert(records.contains(records[last]));
        assert forall|i: int| 0 <= i < after.len() implies headers_of(records)[i] == metadata_of(
            (#[trigger] after[i]).data,
        ) by {
            if i < before.len() {
                assert(headers_of(shorter)[i] == metadata_of(before[i].data));
            }
        }
        assert forall|i: int, j: int| 0 <= i < j < after.len() implies (
        #[trigger] after[i]).stream_offset < (#[trigger] after[j]).stream_offset by {
            if j < before.len() {
                assert(before[i].stream_offset < before[j].stream_offset);
            } else {
                assert(after[i] == before[i]);
            }
        }
        assert forall|i: int| 0 <= i < after.len() implies records.contains(
            #[trigger] after[i],
        ) by {
            if i < before.len() {
                assert(after[i] == before[i]);
            }
        }
    }
}

/// The topics of a stream stand in the order of their offsets (the title index
/// goes by offsets too, see `title::law_titles_are_ordered`): each topic is
/// described by the header record with its number, and each header record lies
/// behind the one before it.
pub proof fn law_topics_follow_the_stream(stream: Seq<u8>)
    ensures
        ({
            let records = records_from(stream, 0);
            let topics = topics_of(records);
            let headers = header_records(records);
            &&& topics.len() == headers.len()
            &&& forall|i: int|
                0 <= i < topics.len() ==> #[trigger] topics[i] == topic_of(
                    metadata_of(headers[i].data),
                    topics[i].body,
                )
            &&& in_stream_order(headers)
        }),
{
    let records = records_from(stream, 0);
    law_records_are_disjoint(stream, 0);
    assert(in_stream_order(records));
    lemma_headers_in_order(records);
    law_headers_make_topics(records);
    let topics = topics_of(records);
    let headers = header_records(records);
    assert forall|i: int| 0 <= i < topics.len() implies #[trigger] topics[i] == topic_of(
        metadata_of(headers[i].data),
        topics[i].body,
    ) by {
        assert(headers_of(records)[i] == metadata_of(headers[i].data));
    }
}

/// The hash of a topic's context string resolves to that context string, where
/// no later topic has the same hash.
pub proof fn law_context_strings_resolve(records: Seq<RawTopicRecordView>, k: int)
    requires
        0 <= k < records.len(),
        records[k].record_type == RECORD_TYPE_TOPIC,
        metadata_of(records[k].data).context_id is Some,
        forall|j: int|
            k < j < records.len() && (#[trigger] records[j]).record_type == RECORD_TYPE_TOPIC ==> (
            metadata_of(records[j].data).context_id matches Some(id) ==> context_key(id)
                != context_key(metadata_of(records[k].data).context_id->Some_0)),
    ensures
        ({
            let id = metadata_of(records[k].data).context_id->Some_0;
            targets_of(records).contains_key(context_key(id)) && targets_of(
                records,
            )[context_key(id)] == id
        }),
    decreases records.len(),
{
    if k < records.len() - 1 {
        let shorter = records.drop_last();
        assert(shorter[k] == records[k]);
        assert(records[records.len() - 1] == records.last());
        assert forall|j: int|
            k < j < shorter.len() && (#[trigger] shorter[j]).record_type
                == RECORD_TYPE_TOPIC implies (metadata_of(shorter[j].data).context_id matches Some(
            id,
        ) ==> context_key(id) != context_key(
            metadata_of(records[k].data).context_id->Some_0,
        )) by {
            assert(shorter[j] == records[j]);
        }
        law_context_strings_resolve(shorter, k);
    }
}

/// Whether no two images have one name.
pub open spec fn distinct_names(images: Seq<(Seq<char>, Seq<u8>)>) -> bool {
    forall|i: int, j: int|
        0 <= i < j < images.len() ==> (#[trigger] images[i]).0 != (#[trigger] images[j]).0
}

/// Whether an image has one of the names, and the bytes that the internal file
/// of that name stands for.
pub open spec fn is_image_of(
    c: ContainerView,
    names: Seq<Seq<char>>,
    image: (Seq<char>, Seq<u8>),
) -> bool {
    &&& names.contains(image.0)
    &&& extract_result(c, image.0) == Ok::<Option<Seq<u8>>, ErrorView>(Some(image.1))
}

/// Whether a name has an image, or no internal file that one can be made of.
pub open spec fn accounted_for(
    c: ContainerView,
    images: Seq<(Seq<char>, Seq<u8>)>,
    name: Seq<char>,
) -> bool {
    has_image(images, name) || !(extract_result(c, name) matches Ok(Some(_)))
}

proof fn lemma_image_added(
    c: ContainerView,
    names: Seq<Seq<char>>,
    before: Seq<(Seq<char>, Seq<u8>)>,
    image: (Seq<char>, Seq<u8>),
)
    requires
        distinct_names(before),
        !has_image(before, image.0),
        forall|i: int| 0 <= i < before.len() ==> is_image_of(c, names, #[trigger] before[i]),
        is_image_of(c, names, image),
    ensures
        distinct_names(before.push(image)),
        has_image(before.push(image), image.0),
        forall|name: Seq<char>|
            has_image(before, name) ==> #[trigger] has_image(before.push(image), name),
        forall|i: int|
            0 <= i < before.push(image).len() ==> is_image_of(
                c,
                names,
                #[trigger] before.push(image)[i],
            ),
{
    let images = before.push(image);
    assert(images[before.len() as int].0 == image.0);
    assert forall|name: Seq<char>| has_image(before, name) implies #[trigger] has_image(
        images,
        name,
    ) by {
        let i = choose|i: int| 0 <= i < before.len() && #[trigger] before[i].0 == name;
        assert(images[i].0 == name);
    }
    assert forall|i: int, j: int| 0 <= i < j < images.len() implies (#[trigger] images[i]).0 != (
    #[trigger] images[j]).0 by {
        if j == before.len() {
            assert(before[i].0 != image.0);
        } else {
            assert(before[i].0 != before[j].0);
        }
    }
}

/// The images of a document have distinct names. Each is an image that some
/// topic refers to, with the bytes that its internal file stands for; an image
/// that a topic refers to is missing only where its internal file is not there
/// or cannot be read.
pub proof fn law_images_are_the_referenced_ones(c: ContainerView, names: Seq<Seq<char>>)
    ensures
        distinct_names(images_of(c, names)),
        forall|i: int|
            0 <= i < images_of(c, names).len() ==> is_image_of(
                c,
                names,
                #[trigger] images_of(c, names)[i],
            ),
        forall|k: int|
            0 <= k < names.len() ==> accounted_for(
                c,
                images_of(c, names),
                #[trigger] names[k],
            ),
    decreases names.len(),
{
    if names.len() > 0 {
        let shorter = names.drop_last();
        law_images_are_the_referenced_ones(c, shorter);
        let before = images_of(c, shorter);
        let images = images_of(c, names);
        let last = names.last();
        assert(names[names.len() - 1] == last);
        assert forall|i: int| 0 <= i < before.len() implies is_image_of(
            c,
            names,
            #[trigger] before[i],
        ) by {
            assert(is_image_of(c, shorter, before[i]));
            let k = choose|k: int| 0 <= k < shorter.len() && shorter[k] == before[i].0;
            assert(names[k] == before[i].0);
        }
        if !has_image(before, last) {
            if let Ok(Some(bytes)) = extract_result(c, last) {
                lemma_image_added(c, names, before, (last, bytes));
            }
        }
        assert forall|k: int| 0 <= k < names.len() implies accounted_for(
            c,
            images,
            #[trigger] names[k],
        ) by {
            if k < shorter.len() {
                assert(accounted_for(c, before, shorter[k]));
            }
        }
    }
}

/// Whether the blocks of the topics, and those that are being read, are tidy.
pub open spec fn tidy_grouping(targets: Map<u32, Seq<char>>, g: Grouping) -> bool {
    &&& forall|i: int, j: int|
        0 <= i < g.topics.len() && 0 <= j < g.topics[i].body.len() ==> tidy_block(
            targets,
            #[trigger] g.topics[i].body[j],
        )
    &&& forall|j: int| 0 <= j < g.body.len() ==> tidy_block(targets, #[trigger] g.body[j])
}

proof fn lemma_grouping_tidy(records: Seq<RawTopicRecordView>, targets: Map<u32, Seq<char>>)
    ensures
        tidy_grouping(targets, grouped(records, targets)),
    decreases records.len(),
{
    if records.len() > 0 {
        lemma_grouping_tidy(records.drop_last(), targets);
        let before = grouped(records.drop_last(), targets);
        let after = grouped(records, targets);
        let record = records.last();
        if record.record_type == RECORD_TYPE_TOPIC {
            assert forall|i: int, j: int|
                0 <= i < after.topics.len() && 0 <= j < after.topics[i].body.len() implies tidy_block(
                targets,
                #[trigger] after.topics[i].body[j],
            ) by {
                if i < before.topics.len() {
                    assert(tidy_block(targets, before.topics[i].body[j]));
                } else {
                    assert(tidy_block(targets, before.body[j]));
                }
            }
        } else {
            let more = record_blocks(commands_of(record), strings_of(record), targets);
            law_record_blocks_are_tidy(commands_of(record), strings_of(record), targets);
            assert forall|j: int| 0 <= j < after.body.len() implies tidy_block(
                targets,
                #[trigger] after.body[j],
            ) by {
                if j < before.body.len() {
                    assert(tidy_block(targets, before.body[j]));
                } else {
                    assert(tidy_block(targets, more[j - before.body.len()]));
                }
            }
        }
    }
}

/// The content of every topic is made of images and of paragraphs of plain
/// text and links, none of them empty; the links lead to context strings of the
/// document, or show a hash that it does not have.
pub proof fn law_topic_bodies_are_tidy(records: Seq<RawTopicRecordView>)
    ensures
        forall|i: int, j: int|
            0 <= i < topics_of(records).len() && 0 <= j < topics_of(records)[i].body.len()
                ==> tidy_block(targets_of(records), #[trigger] topics_of(records)[i].body[j]),
{
    let targets = targets_of(records);
    let g = grouped(records, targets);
    lemma_grouping_tidy(records, targets);
    let topics = topics_of(records);
    assert forall|i: int, j: int|
        0 <= i < topics.len() && 0 <= j < topics[i].body.len() implies tidy_block(
        targets,
        #[trigger] topics[i].body[j],
    ) by {
        if i < g.topics.len() {
            assert(tidy_block(targets, g.topics[i].body[j]));
        } else {
            assert(tidy_block(targets, g.body[j]));
        }
    }
}

// ---------------------------------------------------------------------------
// Reading
// ---------------------------------------------------------------------------

/// Reads the metadata of the help file.
fn read_system(container: &HlpContainer, options: &ParseOptions) -> (r: Result<SystemInfo, Error>)
    ensures
        match r {
            Ok(info) => system_of(container@, *options) == Ok::<SystemInfoView, ErrorView>(info@),
            Err(e) => system_of(container@, *options) == Err::<SystemInfoView, ErrorView>(e@),
        },
{
    let data: Vec<u8> = match container.read_file("|SYSTEM") {
        Ok(data) => data,
        Err(e) => {
            return Err(e);
        },
    };
    match SystemInfo::from_bytes(data.as_slice()) {
        Ok(info) => {
            let mut info: SystemInfo = info;
            if let Some(minor_version) = options.format_version_override {
                info.minor_version = minor_version;
            }
            Ok(info)
        },
        Err(e) => Err(e),
    }
}

/// Reads the phrases of WinHelp 4.0.
fn read_hall_phrases(container: &HlpContainer) -> (r: Result<PhraseTable, Error>)
    ensures
        match r {
            Ok(t) => hall_phrases_of(container@) == Ok::<PhraseTableView, ErrorView>(t@),
            Err(e) => hall_phrases_of(container@) == Err::<PhraseTableView, ErrorView>(e@),
        },
{
    let index: Vec<u8> = match container.read_file("|PhrIndex") {
        Ok(data) => data,
        Err(Error::FileNotFound(_)) => {
            return Ok(PhraseTable::empty());
        },
        Err(e) => {
            return Err(e);
        },
    };
    let image: Vec<u8> = match container.read_file("|PhrImage") {
        Ok(data) => data,
        Err(Error::FileNotFound(_)) => {
            return Ok(PhraseTable::empty());
        },
        Err(e) => {
            return Err(e);
        },
    };
    PhraseTable::from_hall(index.as_slice(), image.as_slice())
}

/// Reads the phrases of the help file.
fn read_phrases(container: &HlpContainer, info: &SystemInfo) -> (r: Result<PhraseTable, Error>)
    ensures
        match r {
            Ok(t) => phrases_of(container@, info@) == Ok::<PhraseTableView, ErrorView>(t@),
            Err(e) => phrases_of(container@, info@) == Err::<PhraseTableView, ErrorView>(e@),
        },
{
    match container.read_file("|Phrases") {
        Ok(data) => {
            match container.read_file("|PhrIndex") {
                Ok(index) => PhraseTable::from_bytes(
                    data.as_slice(),
                    Some(index.as_slice()),
                    info.phrases_compressed(),
                ),
                Err(_) => PhraseTable::from_bytes(
                    data.as_slice(),
                    None,
                    info.phrases_compressed(),
                ),
            }
        },
        Err(Error::FileNotFound(_)) => read_hall_phrases(container),
        Err(e) => Err(e),
    }
}

/// Reads the fonts of the help file.
fn read_fonts(container: &HlpContainer) -> (r: Result<FontTable, Error>)
    ensures
        match r {
            Ok(t) => fonts_of(container@) == Ok::<Seq<FontDescriptorView>, ErrorView>(t@),
            Err(e) => fonts_of(container@) == Err::<Seq<FontDescriptorView>, ErrorView>(e@),
        },
{
    match container.read_file("|FONT") {
        Ok(data) => FontTable::from_bytes(data.as_slice()),
        Err(Error::FileNotFound(_)) => Ok(FontTable::empty()),
        Err(e) => Err(e),
    }
}

/// Reads the context map of the help file.
fn read_context(container: &HlpContainer) -> (r: Result<ContextMap, Error>)
    ensures
        match r {
            Ok(m) => context_of(container@) == Ok::<Map<u32, u32>, ErrorView>(m@),
            Err(e) => context_of(container@) == Err::<Map<u32, u32>, ErrorView>(e@),
        },
{
    match container.read_file("|CONTEXT") {
        Ok(data) => ContextMap::from_bytes(data.as_slice()),
        Err(Error::FileNotFound(_)) => Ok(ContextMap::empty()),
        Err(e) => Err(e),
    }
}

/// Reads the titles of the help file.
fn read_titles(container: &HlpContainer) -> (r: Result<TitleIndex, Error>)
    ensures
        match r {
            Ok(t) => titles_of(container@) == Ok::<Seq<(u32, Seq<char>)>, ErrorView>(t@),
            Err(e) => titles_of(container@) == Err::<Seq<(u32, Seq<char>)>, ErrorView>(e@),
        },
{
    match container.read_file("|TTLBTREE") {
        Ok(data) => TitleIndex::from_bytes(data.as_slice()),
        Err(Error::FileNotFound(_)) => Ok(TitleIndex::empty()),
        Err(e) => Err(e),
    }
}

/// Reads the records of the topic stream.
fn read_records(container: &HlpContainer, info: &SystemInfo, phrases: &PhraseTable) -> (r: Result<
    Vec<RawTopicRecord>,
    Error,
>)
    ensures
        match r {
            Ok(records) => records_of(container@, info@, phrases@) == Ok::<
                Seq<RawTopicRecordView>,
                ErrorView,
            >(views(records@)),
            Err(e) => records_of(container@, info@, phrases@) == Err::<
                Seq<RawTopicRecordView>,
                ErrorView,
            >(e@),
        },
{
    let data: Vec<u8> = match container.read_file("|TOPIC") {
        Ok(data) => data,
        Err(e) => {
            return Err(e);
        },
    };
    let blocks: Vec<TopicBlock> = match read_topic_blocks(
        data.as_slice(),
        info.topic_block_size(),
        info.uses_lz77(),
        phrases,
    ) {
        Ok(blocks) => blocks,
        Err(e) => {
            return Err(e);
        },
    };
    let stream: Vec<u8> = flatten_topic_stream(blocks.as_slice());
    extract_records(stream.as_slice())
}

/// Collects the context strings of the topics by their hash.
pub fn collect_targets(records: &Vec<RawTopicRecord>) -> (targets: HashMap<u32, String>)
    ensures
        targets_view(targets@) == targets_of(views(records@)),
{
    let mut targets: HashMap<u32, String> = HashMap::new();
    let mut i: usize = 0;
    let ghost all = views(records@);
    assert(targets_view(targets@) =~= targets_of(all.take(0)));
    while i < records.len()
        invariant
            i <= records@.len(),
            all == views(records@),
            targets_view(targets@) == targets_of(all.take(i as int)),
        decreases records@.len() - i,
    {
        proof {
            assert(all.take(i + 1).drop_last() =~= all.take(i as int));
            assert(all.take(i + 1).last() == records@[i as int]@);
        }
        if records[i].record_type == RECORD_TYPE_TOPIC {
            let meta: TopicMetadata = parse_topic_metadata(records[i].data.as_slice());
            if let Some(id) = meta.context_id {
                let hash: u32 = context_hash(id.as_str());
                let ghost before = targets@;
                let ghost name = id@;
                targets.insert(hash, id);
                assert(targets_view(targets@) =~= targets_view(before).insert(hash, name));
            }
        }
        i += 1;
    }
    assert(all.take(i as int) =~= all);
    targets
}

/// Builds a topic from its metadata and its content.
pub fn build_topic(meta: TopicMetadata, body: Vec<Block>) -> (t: Topic)
    ensures
        t@ == topic_of(meta@, blocks_view(body@)),
{
    let aliases: Vec<String> = Vec::new();
    assert(views(aliases@) =~= Seq::empty());
    Topic {
        id: match meta.context_id {
            Some(id) => id,
            None => String::new(),
        },
        aliases,
        title: match meta.title {
            Some(title) => title,
            None => "(untitled)".to_owned(),
        },
        keywords: meta.keywords,
        browse_seq: meta.browse_seq,
        body,
    }
}

proof fn lemma_blocks_view_concat(a: Seq<Block>, b: Seq<Block>)
    ensures
        blocks_view(a + b) == blocks_view(a) + blocks_view(b),
    decreases b.len(),
{
    if b.len() == 0 {
        assert(a + b =~= a);
        assert(blocks_view(a) + blocks_view(b) =~= blocks_view(a));
    } else {
        assert((a + b).drop_last() =~= a + b.drop_last());
        lemma_blocks_view_concat(a, b.drop_last());
        assert((blocks_view(a) + blocks_view(b.drop_last())).push(b.last()@) =~= blocks_view(a)
            + blocks_view(b));
    }
}

/// Groups the records into topics.
pub fn group_topics(
    records: &Vec<RawTopicRecord>,
    fonts: &FontTable,
    targets: &HashMap<u32, String>,
) -> (topics: Vec<Topic>)
    ensures
        views(topics@) == flushed(grouped(views(records@), targets_view(targets@))),
{
    let mut topics: Vec<Topic> = Vec::new();
    let mut meta: Option<TopicMetadata> = None;
    let mut body: Vec<Block> = Vec::new();
    let mut i: usize = 0;
    let ghost all = views(records@);
    let ghost map = targets_view(targets@);
    proof {
        assert(views(topics@) =~= Seq::empty());
        assert(all.take(0) =~= Seq::empty());
    }
    while i < records.len()
        invariant
            i <= records@.len(),
            all == views(records@),
            map == targets_view(targets@),
            grouped(all.take(i as int), map) == (Grouping {
                topics: views(topics@),
                meta: opt_view(meta),
                body: blocks_view(body@),
            }),
        decreases records@.len() - i,
    {
        let record: &RawTopicRecord = &records[i];
        proof {
            assert(all.take(i + 1).drop_last() =~= all.take(i as int));
            assert(all.take(i + 1).last() == record@);
        }
        if record.record_type == RECORD_TYPE_TOPIC {
            let mut done: Vec<Block> = Vec::new();
            std::mem::swap(&mut done, &mut body);
            if let Some(m) = meta {
                let topic: Topic = build_topic(m, done);
                proof {
                    lemma_views_push(topics@, topic);
                }
                topics.push(topic);
            }
            meta = Some(parse_topic_metadata(record.data.as_slice()));
        } else if record.record_type == RECORD_TYPE_TEXT || record.record_type
            == RECORD_TYPE_TABLE {
            if meta.is_some() {
                match parse_text_record(record.link_data1(), record.link_data2(), fonts, targets) {
                    Ok(parsed) => {
                        let mut parsed: Vec<Block> = parsed;
                        proof {
                            lemma_blocks_view_concat(body@, parsed@);
                        }
                        body.append(&mut parsed);
                    },
                    Err(_) => {},
                }
            }
        }
        i += 1;
    }
    assert(all.take(i as int) =~= all);
    if let Some(m) = meta {
        let topic: Topic = build_topic(m, body);
        proof {
            lemma_views_push(topics@, topic);
        }
        topics.push(topic);
    }
    topics
}

/// Appends the names of the images that blocks refer to.
fn collect_image_names(blocks: &Vec<Block>, names: &mut Vec<String>)
    ensures
        views(final(names)@) == views(old(names)@) + blocks_images(blocks_view(blocks@)),
    decreases blocks,
{
    let mut i: usize = 0;
    let ghost before = views(names@);
    let ghost all = blocks_view(blocks@);
    proof {
        lemma_blocks_index(blocks@);
        assert(before + blocks_images(all.take(0)) =~= before);
    }
    while i < blocks.len()
        invariant
            i <= blocks@.len(),
            all == blocks_view(blocks@),
            all.len() == blocks@.len(),
            forall|k: int| 0 <= k < blocks@.len() ==> #[trigger] all[k] == blocks@[k]@,
            views(names@) == before + blocks_images(all.take(i as int)),
        decreases blocks@.len() - i,
    {
        let ghost listed = views(names@);
        let ghost image_names = block_images(all[i as int]);
        match &blocks[i] {
            Block::Paragraph(_) => {
                assert(listed + image_names =~= listed);
            },
            Block::Table(rows) => {
                collect_row_image_names(rows, names);
            },
            Block::Image(image) => {
                let name: String = image.filename.clone();
                proof {
                    lemma_views_push(names@, name);
                    assert(listed.push(name@) =~= listed + image_names);
                }
                names.push(name);
            },
        }
        proof {
            assert(views(names@) == listed + image_names);
            assert(all.take(i + 1).drop_last() =~= all.take(i as int));
            assert(before + blocks_images(all.take(i as int)) + image_names =~= before + (
            blocks_images(all.take(i as int)) + image_names));
        }
        i += 1;
    }
    assert(all.take(i as int) =~= all);
}

/// Appends the names of the images that the rows of a table refer to.
fn collect_row_image_names(rows: &Vec<Vec<Block>>, names: &mut Vec<String>)
    ensures
        views(final(names)@) == views(old(names)@) + rows_images(rows_view(rows@)),
    decreases rows,
{
    let mut i: usize = 0;
    let ghost before = views(names@);
    let ghost all = rows_view(rows@);
    proof {
        lemma_rows_index(rows@);
        assert(before + rows_images(all.take(0)) =~= before);
    }
    while i < rows.len()
        invariant
            i <= rows@.len(),
            all == rows_view(rows@),
            all.len() == rows@.len(),
            forall|k: int|
                0 <= k < rows@.len() ==> #[trigger] all[k] == blocks_view(rows@[k]@),
            views(names@) == before + rows_images(all.take(i as int)),
        decreases rows@.len() - i,
    {
        let ghost listed = views(names@);
        collect_image_names(&rows[i], names);
        proof {
            let image_names = blocks_images(all[i as int]);
            assert(all.take(i + 1).drop_last() =~= all.take(i as int));
            assert(before + rows_images(all.take(i as int)) + image_names =~= before + (rows_images(
                all.take(i as int),
            ) + image_names));
        }
        i += 1;
    }
    assert(all.take(i as int) =~= all);
}

/// Lists the names of the images that topics refer to.
fn topic_image_names(topics: &Vec<Topic>) -> (names: Vec<String>)
    ensures
        views(names@) == topics_images(views(topics@)),
{
    let mut names: Vec<String> = Vec::new();
    let mut i: usize = 0;
    let ghost all = views(topics@);
    assert(views(names@) =~= topics_images(all.take(0)));
    while i < topics.len()
        invariant
            i <= topics@.len(),
            all == views(topics@),
            views(names@) == topics_images(all.take(i as int)),
        decreases topics@.len() - i,
    {
        collect_image_names(&topics[i].body, &mut names);
        assert(all.take(i + 1).drop_last() =~= all.take(i as int));
        i += 1;
    }
    assert(all.take(i as int) =~= all);
    names
}

/// Whether there is an image with the given name.
fn is_collected(images: &Vec<(String, Vec<u8>)>, name: &String) -> (b: bool)
    ensures
        b == has_image(images_view(images@), name@),
{
    let mut i: usize = 0;
    while i < images.len()
        invariant
            i <= images@.len(),
            forall|k: int| 0 <= k < i ==> (#[trigger] images_view(images@)[k]).0 != name@,
        decreases images@.len() - i,
    {
        if images[i].0 == *name {
            assert(images_view(images@)[i as int].0 == name@);
            return true;
        }
        i += 1;
    }
    false
}

/// The names and bytes of images.
pub open spec fn images_view(images: Seq<(String, Vec<u8>)>) -> Seq<(Seq<char>, Seq<u8>)> {
    views(images)
}

/// Extracts the images with the given names.
fn collect_images(container: &HlpContainer, names: &Vec<String>) -> (images: Vec<
    (String, Vec<u8>),
>)
    ensures
        images_view(images@) == images_of(container@, views(names@)),
{
    let mut images: Vec<(String, Vec<u8>)> = Vec::new();
    let mut i: usize = 0;
    let ghost all = views(names@);
    assert(images_view(images@) =~= Seq::empty());
    assert(all.take(0) =~= Seq::empty());
    while i < names.len()
        invariant
            i <= names@.len(),
            all == views(names@),
            images_view(images@) == images_of(container@, all.take(i as int)),
        decreases names@.len() - i,
    {
        proof {
            assert(all.take(i + 1).drop_last() =~= all.take(i as int));
            assert(all.take(i + 1).last() == names@[i as int]@);
        }
        if !is_collected(&images, &names[i]) {
            match extract_bitmap(container, names[i].as_str()) {
                Ok(Some(bytes)) => {
                    let image: (String, Vec<u8>) = (names[i].clone(), bytes);
                    proof {
                        lemma_views_push(images@, image);
                    }
                    images.push(image);
                },
                Ok(None) => {},
                Err(_) => {},
            }
        }
        i += 1;
    }
    assert(all.take(i as int) =~= all);
    images
}

/// Puts the document together.
fn assemble(info: SystemInfo, topics: Vec<Topic>, images: Vec<(String, Vec<u8>)>) -> (h: HelpFile)
    ensures
        h@ == document_of(info@, views(topics@), images_view(images@)),
{
    let root_topic: String = match info.starting_topic {
        Some(id) => id,
        None => {
            if topics.len() > 0 {
                topics[0].id.clone()
            } else {
                String::new()
            }
        },
    };
    let keyword_index: Vec<KeywordEntry> = build_keyword_index(topics.as_slice());
    HelpFile {
        title: match info.title {
            Some(title) => title,
            None => "(untitled)".to_owned(),
        },
        copyright: info.copyright,
        root_topic,
        topics,
        keyword_index,
        images,
    }
}

impl HelpFile {
    /// Parses a help file from its container.
    pub fn from_container(container: &HlpContainer) -> (r: Result<Self, Error>)
        ensures
            match r {
                Ok(h) => helpfile_result(
                    container@,
                    (ParseOptions { format_version_override: None }),
                ) == Ok::<HelpFileView, ErrorView>(h@),
                Err(e) => helpfile_result(
                    container@,
                    (ParseOptions { format_version_override: None }),
                ) == Err::<HelpFileView, ErrorView>(e@),
            },
    {
        HelpFile::from_container_with_options(container, &ParseOptions::default())
    }

    /// Parses a help file from its container, as the options say.
    pub fn from_container_with_options(
        container: &HlpContainer,
        options: &ParseOptions,
    ) -> (r: Result<Self, Error>)
        ensures
            match r {
                Ok(h) => helpfile_result(container@, *options) == Ok::<HelpFileView, ErrorView>(
                    h@,
                ),
                Err(e) => helpfile_result(container@, *options) == Err::<HelpFileView, ErrorView>(
                    e@,
                ),
            },
    {
        let info: SystemInfo = match read_system(container, options) {
            Ok(info) => info,
            Err(e) => {
                return Err(e);
            },
        };
        let phrases: PhraseTable = match read_phrases(container, &info) {
            Ok(t) => t,
            Err(e) => {
                return Err(e);
            },
        };
        let fonts: FontTable = match read_fonts(container) {
            Ok(t) => t,
            Err(e) => {
                return Err(e);
            },
        };
        let records: Vec<RawTopicRecord> = match read_records(container, &info, &phrases) {
            Ok(records) => records,
            Err(e) => {
                return Err(e);
            },
        };
        match read_context(container) {
            Ok(_) => {},
            Err(e) => {
                return Err(e);
            },
        }
        match read_titles(container) {
            Ok(_) => {},
            Err(e) => {
                return Err(e);
            },
        }
        let targets: HashMap<u32, String> = collect_targets(&records);
        let topics: Vec<Topic> = group_topics(&records, &fonts, &targets);
        let names: Vec<String> = topic_image_names(&topics);
        let images: Vec<(String, Vec<u8>)> = collect_images(container, &names);
        Ok(assemble(info, topics, images))
    }
}

} // verus!
