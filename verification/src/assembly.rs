//! How a document is put together: which records make up a topic, which images
//! it refers to, and which internal files it comes from.

use vstd::prelude::*;

use crate::bitmap::{extract_result, image_of};
use crate::container::{read_result, ContainerView};
use crate::context::{context_result, hash_of};
use crate::error::ErrorView;
use crate::font::fonts_result;
use crate::hall::hall_result;
use crate::helpfile::{
    block_images, blocks_images, context_key, flushed, grouped, headers_of, helpfile_result, images_of,
    lemma_topics_described, rows_images, targets_of, topic_of, topics_images, topics_of,
    ParseOptions,
};
use crate::inversion::inverted;
use crate::model::{BlockView, TopicView};
use crate::opcode::record_blocks;
use crate::phrase::{table_result, PhraseTableView};
use crate::system::{system_result, SystemInfoView};
use crate::title::titles_result;
use crate::topic::{
    blocks_from, commands_of, metadata_of, records_from, stream_of, strings_of, RawTopicRecordView,
    TopicBlockView,
};

verus! {

// ---------------------------------------------------------------------------
// Topics
// ---------------------------------------------------------------------------

/// The blocks of the text records (types `0x20` and `0x23`), one after another.
pub open spec fn text_blocks(
    records: Seq<RawTopicRecordView>,
    targets: Map<u32, Seq<char>>,
) -> Seq<BlockView>
    decreases records.len(),
{
    if records.len() == 0 {
        Seq::empty()
    } else {
        (if records[0].record_type == 0x20 || records[0].record_type == 0x23 {
            record_blocks(commands_of(records[0]), strings_of(records[0]), targets)
        } else {
            Seq::empty()
        }) + text_blocks(records.skip(1), targets)
    }
}

/// Whether no record is a topic header (type `0x02`).
pub open spec fn no_headers(records: Seq<RawTopicRecordView>) -> bool {
    forall|i: int| 0 <= i < records.len() ==> (#[trigger] records[i]).record_type != 0x02
}

proof fn lemma_text_blocks_push(
    records: Seq<RawTopicRecordView>,
    r: RawTopicRecordView,
    targets: Map<u32, Seq<char>>,
)
    ensures
        text_blocks(records.push(r), targets) == text_blocks(records, targets) + (if r.record_type
            == 0x20 || r.record_type == 0x23 {
            record_blocks(commands_of(r), strings_of(r), targets)
        } else {
            Seq::empty()
        }),
    decreases records.len(),
{
    let all = records.push(r);
    if records.len() == 0 {
        assert(all.skip(1) =~= Seq::empty());
        assert(text_blocks(all.skip(1), targets) =~= Seq::empty());
        assert(text_blocks(all, targets) =~= text_blocks(records, targets) + (if r.record_type
            == 0x20 || r.record_type == 0x23 {
            record_blocks(commands_of(r), strings_of(r), targets)
        } else {
            Seq::empty()
        }));
    } else {
        assert(all.skip(1) =~= records.skip(1).push(r));
        lemma_text_blocks_push(records.skip(1), r, targets);
        assert(text_blocks(all, targets) =~= text_blocks(records, targets) + (if r.record_type
            == 0x20 || r.record_type == 0x23 {
            record_blocks(commands_of(r), strings_of(r), targets)
        } else {
            Seq::empty()
        }));
    }
}

proof fn lemma_text_is_collected(
    front: Seq<RawTopicRecordView>,
    header: RawTopicRecordView,
    between: Seq<RawTopicRecordView>,
    targets: Map<u32, Seq<char>>,
)
    requires
        header.record_type == 0x02,
        no_headers(between),
    ensures
        ({
            let g = grouped(front.push(header) + between, targets);
            &&& g.topics == flushed(grouped(front, targets))
            &&& g.meta == Some(metadata_of(header.data))
            &&& g.body == text_blocks(between, targets)
        }),
    decreases between.len(),
{
    let all = front.push(header) + between;
    if between.len() == 0 {
        assert(all =~= front.push(header));
        assert(all.drop_last() =~= front);
    } else {
        let shorter = between.drop_last();
        let last = between.last();
        assert(between[between.len() - 1].record_type != 0x02);
        assert(no_headers(shorter)) by {
            assert forall|i: int| 0 <= i < shorter.len() implies (
            #[trigger] shorter[i]).record_type != 0x02 by {
                assert(between[i].record_type != 0x02);
            }
        }
        lemma_text_is_collected(front, header, shorter, targets);
        assert(all.drop_last() =~= front.push(header) + shorter);
        assert(all.last() == last);
        lemma_text_blocks_push(shorter, last, targets);
        assert(shorter.push(last) =~= between);
        assert(text_blocks(shorter, targets) + Seq::<BlockView>::empty() =~= text_blocks(
            shorter,
            targets,
        ));
    }
}

proof fn lemma_topics_stay(
    a: Seq<RawTopicRecordView>,
    b: Seq<RawTopicRecordView>,
    targets: Map<u32, Seq<char>>,
)
    requires
        b.len() == 0 || b[0].record_type == 0x02,
    ensures
        flushed(grouped(a, targets)).is_prefix_of(flushed(grouped(a + b, targets))),
        b.len() > 0 ==> flushed(grouped(a, targets)).is_prefix_of(grouped(a + b, targets).topics),
    decreases b.len(),
{
    let done = flushed(grouped(a, targets));
    if b.len() == 0 {
        assert(a + b =~= a);
    } else {
        assert((a + b).drop_last() =~= a + b.drop_last());
        if b.len() == 1 {
            assert(b.drop_last() =~= Seq::empty());
            assert(a + b.drop_last() =~= a);
        } else {
            lemma_topics_stay(a, b.drop_last(), targets);
        }
        let topics = grouped(a + b, targets).topics;
        assert(done.is_prefix_of(topics));
        assert forall|i: int| 0 <= i < done.len() implies #[trigger] flushed(
            grouped(a + b, targets),
        )[i] == done[i] by {
            assert(topics.subrange(0, done.len() as int)[i] == topics[i]);
        }
        assert(flushed(grouped(a + b, targets)).subrange(0, done.len() as int) =~= done);
    }
}

/// What a topic is made of. Its header is a record of type `0x02`: the number of
/// headers before it is its place among the topics, and its footnotes give its
/// identifier, its title, its keywords and its browse sequence. Its body is the
/// blocks of all text records (types `0x20` and `0x23`) between its header and
/// the next one, in order.
pub proof fn law_topics_hold_their_text(
    front: Seq<RawTopicRecordView>,
    header: RawTopicRecordView,
    between: Seq<RawTopicRecordView>,
    back: Seq<RawTopicRecordView>,
)
    requires
        header.record_type == 0x02,
        no_headers(between),
        back.len() == 0 || back[0].record_type == 0x02,
    ensures
        ({
            let records = front.push(header) + between + back;
            let topics = topics_of(records);
            let n = headers_of(front).len() as int;
            let meta = metadata_of(header.data);
            &&& n < topics.len()
            &&& topics[n].body == text_blocks(between, targets_of(records))
            &&& meta.context_id matches Some(id) ==> topics[n].id == id
            &&& meta.context_id is None ==> topics[n].id.len() == 0
            &&& meta.title matches Some(title) ==> topics[n].title == title
            &&& meta.title is None ==> topics[n].title == "(untitled)"@
            &&& topics[n].aliases.len() == 0
            &&& topics[n].keywords == meta.keywords
            &&& topics[n].browse_seq == meta.browse_seq
        }),
{
    let part = front.push(header) + between;
    let records = part + back;
    let targets = targets_of(records);
    lemma_text_is_collected(front, header, between, targets);
    lemma_topics_described(front, targets);
    lemma_topics_stay(part, back, targets);
    let n = headers_of(front).len() as int;
    let done = flushed(grouped(part, targets));
    let topics = topics_of(records);
    assert(done[n] == topic_of(metadata_of(header.data), text_blocks(between, targets)));
    assert(topics.subrange(0, done.len() as int)[n] == topics[n]);
}

/// Every header makes a topic, and nothing else does: text in front of the first
/// header belongs to no topic.
pub proof fn law_headers_are_counted(a: Seq<RawTopicRecordView>, b: Seq<RawTopicRecordView>)
    ensures
        topics_of(a).len() == headers_of(a).len(),
        headers_of(a + b).len() == headers_of(a).len() + headers_of(b).len(),
        a.len() == 1 && a[0].record_type == 0x02 ==> headers_of(a).len() == 1,
        a.len() == 1 && a[0].record_type != 0x02 ==> headers_of(a).len() == 0,
    decreases b.len(),
{
    lemma_topics_described(a, targets_of(a));
    if b.len() == 0 {
        assert(a + b =~= a);
    } else {
        assert((a + b).drop_last() =~= a + b.drop_last());
        law_headers_are_counted(a, b.drop_last());
    }
    if a.len() == 1 {
        assert(headers_of(a.drop_last()) =~= Seq::empty());
    }
}

/// Links lead to context strings of topics only: what a hash resolves to is the
/// context string of some topic header, and has that hash.
pub proof fn law_targets_are_context_strings(records: Seq<RawTopicRecordView>, hash: u32)
    requires
        targets_of(records).contains_key(hash),
    ensures
        exists|k: int|
            0 <= k < records.len() && (#[trigger] records[k]).record_type == 0x02 && metadata_of(
                records[k].data,
            ).context_id == Some(targets_of(records)[hash]),
        hash == hash_of(vstd::utf8::encode_utf8(targets_of(records)[hash])) as u32,
    decreases records.len(),
{
    let shorter = records.drop_last();
    let last = records.len() - 1;
    let found = targets_of(records)[hash];
    let from_last = records.len() > 0 && records[last].record_type == 0x02 && (metadata_of(
        records[last].data,
    ).context_id matches Some(id) && context_key(id) == hash);
    if from_last {
        assert(metadata_of(records[last].data).context_id == Some(found));
    } else {
        assert(targets_of(shorter).contains_key(hash));
        assert(targets_of(shorter)[hash] == found);
        law_targets_are_context_strings(shorter, hash);
        let k = choose|k: int|
            0 <= k < shorter.len() && (#[trigger] shorter[k]).record_type == 0x02 && metadata_of(
                shorter[k].data,
            ).context_id == Some(found);
        assert(records[k] == shorter[k]);
    }
}

// ---------------------------------------------------------------------------
// Images
// ---------------------------------------------------------------------------

/// The names of the images are those of the image blocks, in order, in all
/// topics and within tables too.
pub proof fn law_image_names_follow_the_blocks(
    a: Seq<BlockView>,
    b: Seq<BlockView>,
    block: BlockView,
)
    ensures
        blocks_images(a + b) == blocks_images(a) + blocks_images(b),
        blocks_images(seq![block]) == block_images(block),
        block matches BlockView::Image(i) ==> block_images(block) == seq![i.filename],
        block is Paragraph ==> block_images(block).len() == 0,
        block matches BlockView::Table(rows) ==> block_images(block) == rows_images(rows),
    decreases b.len(),
{
    if b.len() == 0 {
        assert(a + b =~= a);
        assert(blocks_images(a) + blocks_images(b) =~= blocks_images(a));
    } else {
        assert((a + b).drop_last() =~= a + b.drop_last());
        law_image_names_follow_the_blocks(a, b.drop_last(), block);
        assert(blocks_images(a + b) =~= blocks_images(a) + blocks_images(b));
    }
    let one = seq![block];
    assert(one.drop_last() =~= Seq::empty());
    assert(blocks_images(one.drop_last()) =~= Seq::empty());
    assert(blocks_images(one) =~= block_images(block));
}

/// The same for the rows of a table.
pub proof fn law_image_names_follow_the_rows(
    a: Seq<Seq<BlockView>>,
    b: Seq<Seq<BlockView>>,
    row: Seq<BlockView>,
)
    ensures
        rows_images(a + b) == rows_images(a) + rows_images(b),
        rows_images(seq![row]) == blocks_images(row),
    decreases b.len(),
{
    if b.len() == 0 {
        assert(a + b =~= a);
        assert(rows_images(a) + rows_images(b) =~= rows_images(a));
    } else {
        assert((a + b).drop_last() =~= a + b.drop_last());
        law_image_names_follow_the_rows(a, b.drop_last(), row);
        assert(rows_images(a + b) =~= rows_images(a) + rows_images(b));
    }
    let one = seq![row];
    assert(one.drop_last() =~= Seq::empty());
    assert(rows_images(one.drop_last()) =~= Seq::empty());
    assert(rows_images(one) =~= blocks_images(row));
}

/// The same for topics.
pub proof fn law_image_names_follow_the_topics(
    a: Seq<TopicView>,
    b: Seq<TopicView>,
    topic: TopicView,
)
    ensures
        topics_images(a + b) == topics_images(a) + topics_images(b),
        topics_images(seq![topic]) == blocks_images(topic.body),
    decreases b.len(),
{
    if b.len() == 0 {
        assert(a + b =~= a);
        assert(topics_images(a) + topics_images(b) =~= topics_images(a));
    } else {
        assert((a + b).drop_last() =~= a + b.drop_last());
        law_image_names_follow_the_topics(a, b.drop_last(), topic);
        assert(topics_images(a + b) =~= topics_images(a) + topics_images(b));
    }
    let one = seq![topic];
    assert(one.drop_last() =~= Seq::empty());
    assert(topics_images(one.drop_last()) =~= Seq::empty());
    assert(topics_images(one) =~= blocks_images(topic.body));
}

/// An image is the picture that its internal file decodes to; there is none
/// where the file is not there or cannot be read.
pub proof fn law_images_are_decoded_files(c: ContainerView, names: Seq<Seq<char>>, k: int)
    ensures
        0 <= k < images_of(c, names).len() ==> (read_result(
            c,
            images_of(c, names)[k].0,
        ) matches Ok(raw) && images_of(c, names)[k].1 == image_of(raw)),
        0 <= k < names.len() && read_result(c, names[k]) is Ok ==> exists|i: int|
            0 <= i < images_of(c, names).len() && #[trigger] images_of(c, names)[i].0 == names[k],
        missing(c, names[k]) ==> extract_result(c, names[k]) == Ok::<Option<Seq<u8>>, ErrorView>(
            None,
        ),
        read_result(c, names[k]) matches Ok(raw) ==> extract_result(c, names[k]) == Ok::<
            Option<Seq<u8>>,
            ErrorView,
        >(Some(image_of(raw))),
{
    crate::helpfile::law_images_are_the_referenced_ones(c, names);
    let images = images_of(c, names);
    if 0 <= k < images.len() {
        assert(crate::helpfile::is_image_of(c, names, images[k]));
    }
    if 0 <= k < names.len() && read_result(c, names[k]) is Ok {
        assert(crate::helpfile::accounted_for(c, images, names[k]));
        assert(crate::helpfile::has_image(images, names[k]));
    }
}

/// Images are kept in the order of first mention: more names at the end change
/// nothing about the images of those before them.
pub proof fn law_images_follow_the_names(c: ContainerView, a: Seq<Seq<char>>, b: Seq<Seq<char>>)
    ensures
        images_of(c, a).is_prefix_of(images_of(c, a + b)),
    decreases b.len(),
{
    if b.len() == 0 {
        assert(a + b =~= a);
    } else {
        assert((a + b).drop_last() =~= a + b.drop_last());
        law_images_follow_the_names(c, a, b.drop_last());
        let first = images_of(c, a);
        let before = images_of(c, a + b.drop_last());
        let after = images_of(c, a + b);
        assert(before.subrange(0, first.len() as int) == first);
        assert(after.subrange(0, first.len() as int) =~= before.subrange(0, first.len() as int));
    }
}

// ---------------------------------------------------------------------------
// The document
// ---------------------------------------------------------------------------

/// Whether an internal file is not there.
pub open spec fn missing(c: ContainerView, name: Seq<char>) -> bool {
    read_result(c, name) matches Err(ErrorView::FileNotFound(_))
}

/// Whether `t` is the phrase table of the help file: that of `|Phrases`, with
/// the bounds of `|PhrIndex` where it is there, compressed from WinHelp 3.1 on;
/// without `|Phrases` that of `|PhrIndex` and `|PhrImage`; and otherwise none.
pub open spec fn phrases_are(c: ContainerView, minor_version: u16, t: PhraseTableView) -> bool {
    ||| {
        &&& read_result(c, "|Phrases"@) matches Ok(data)
        &&& missing(c, "|PhrIndex"@)
        &&& table_result(data, None, minor_version > 16) == Ok::<PhraseTableView, ErrorView>(t)
    }
    ||| {
        &&& read_result(c, "|Phrases"@) matches Ok(data)
        &&& read_result(c, "|PhrIndex"@) matches Ok(index)
        &&& table_result(data, Some(index), minor_version > 16) == Ok::<
            PhraseTableView,
            ErrorView,
        >(t)
    }
    ||| {
        &&& missing(c, "|Phrases"@)
        &&& read_result(c, "|PhrIndex"@) matches Ok(index)
        &&& read_result(c, "|PhrImage"@) matches Ok(image)
        &&& hall_result(index, image) == Ok::<PhraseTableView, ErrorView>(t)
    }
    ||| {
        &&& missing(c, "|Phrases"@)
        &&& missing(c, "|PhrIndex"@) || read_result(c, "|PhrIndex"@) is Ok && missing(
            c,
            "|PhrImage"@,
        )
        &&& t.phrases.len() == 0
        &&& !t.hall
    }
}

/// The document that the files of a container make up. `|SYSTEM` gives the
/// title, the copyright and the starting topic, and, with the version that the
/// options ask for, the size of the blocks of `|TOPIC` and whether they are
/// compressed. `|FONT`, `|CONTEXT` and `|TTLBTREE` may be missing, but not
/// malformed.
pub proof fn law_document_comes_from_its_files(
    c: ContainerView,
    options: ParseOptions,
    system: Seq<u8>,
    info: SystemInfoView,
    minor_version: u16,
    flags: u16,
    phrases: PhraseTableView,
    topic: Seq<u8>,
    blocks: Seq<TopicBlockView>,
)
    requires
        read_result(c, "|SYSTEM"@) == Ok::<Seq<u8>, ErrorView>(system),
        system_result(system) == Ok::<SystemInfoView, ErrorView>(info),
        options.format_version_override is None ==> minor_version == info.minor_version,
        options.format_version_override matches Some(v) ==> minor_version == v,
        info.flags_ex is None ==> flags == info.flags,
        info.flags_ex matches Some(f) ==> flags == f,
        phrases_are(c, minor_version, phrases),
        read_result(c, "|TOPIC"@) == Ok::<Seq<u8>, ErrorView>(topic),
        blocks_from(
            topic,
            0,
            if minor_version > 16 && flags != 8 {
                4096
            } else {
                2048
            },
            minor_version > 16 && (flags == 4 || flags == 8),
            phrases,
        ) == Ok::<Seq<TopicBlockView>, ErrorView>(blocks),
        missing(c, "|FONT"@) || (read_result(c, "|FONT"@) matches Ok(d) && fonts_result(d) is Ok),
        missing(c, "|CONTEXT"@) || (read_result(c, "|CONTEXT"@) matches Ok(d) && context_result(
            d,
        ) is Ok),
        missing(c, "|TTLBTREE"@) || (read_result(c, "|TTLBTREE"@) matches Ok(d) && titles_result(
            d,
        ) is Ok),
    ensures
        helpfile_result(c, options) matches Ok(h) && ({
            let topics = topics_of(records_from(stream_of(blocks), 0));
            &&& h.topics == topics
            &&& info.title matches Some(title) ==> h.title == title
            &&& info.title is None ==> h.title == "(untitled)"@
            &&& h.copyright == info.copyright
            &&& info.starting_topic matches Some(id) ==> h.root_topic == id
            &&& info.starting_topic is None && topics.len() > 0 ==> h.root_topic == topics[0].id
            &&& info.starting_topic is None && topics.len() == 0 ==> h.root_topic.len() == 0
            &&& h.keyword_index == inverted(topics)
            &&& h.images == images_of(c, topics_images(topics))
        }),
{
    if phrases.phrases.len() == 0 {
        assert(phrases.phrases =~= Seq::empty());
    }
}

/// A document comes only of files that can be read: `|SYSTEM` and `|TOPIC` are
/// there and well-formed, and so are `|FONT`, `|CONTEXT` and `|TTLBTREE` where
/// they are there.
pub proof fn law_documents_need_their_files(c: ContainerView, options: ParseOptions)
    requires
        helpfile_result(c, options) is Ok,
    ensures
        read_result(c, "|SYSTEM"@) matches Ok(d) && system_result(d) is Ok,
        read_result(c, "|TOPIC"@) is Ok,
        missing(c, "|FONT"@) || (read_result(c, "|FONT"@) matches Ok(d) && fonts_result(d) is Ok),
        missing(c, "|CONTEXT"@) || (read_result(c, "|CONTEXT"@) matches Ok(d) && context_result(
            d,
        ) is Ok),
        missing(c, "|TTLBTREE"@) || (read_result(c, "|TTLBTREE"@) matches Ok(d) && titles_result(
            d,
        ) is Ok),
        missing(c, "|Phrases"@) || read_result(c, "|Phrases"@) is Ok,
{
}

} // verus!
