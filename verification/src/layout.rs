//! How the structures of a help file lie in bytes, and that reading them gives
//! back what was laid out.

use vstd::prelude::*;

use crate::btree::{page_at, BTREE_MAGIC};
use crate::bytes::{
    cstring, holds, le16_bytes, le32, le32_bytes, lemma_holds_cstring, lemma_holds_le16,
    lemma_holds_le32, lemma_holds_parts, nul_free, text_of,
};
use crate::container::{
    container_result, directory_result, leaf_entries, lookup, read_raw_result, read_result,
    ContainerView, InternalFileView, BTREE_HEADER_SIZE, HLP_MAGIC, INTERNAL_FILE_HEADER_SIZE,
};
use crate::context::{
    context_result, law_last_pair_counts, leaf_pairs, pairs_result, with_pairs, CONTEXT_HEADER_SIZE,
};
use crate::error::ErrorView;
use crate::keyword::{kwdata_result, keywords_result, leaf_keywords, RawKeywordEntryView};
use crate::title::{in_order, leaf_titles, titles_result};

verus! {

// ---------------------------------------------------------------------------
// Internal files
// ---------------------------------------------------------------------------

/// An internal file: reserved space, used space and flags in front of its
/// content.
pub open spec fn stored_file(content: Seq<u8>, reserved: u32, flags: u8) -> Seq<u8> {
    le32_bytes(reserved) + (le32_bytes(content.len() as u32) + (seq![flags] + content))
}

/// An internal file that is stored at the offset of its directory entry is
/// read back: its content, and with its header.
pub proof fn law_stored_file_is_read_back(
    c: ContainerView,
    name: Seq<char>,
    offset: u64,
    content: Seq<u8>,
    reserved: u32,
    flags: u8,
)
    requires
        lookup(c.files, name) == Some(offset),
        content.len() <= u32::MAX,
        holds(c.data, offset as int, stored_file(content, reserved, flags)),
    ensures
        read_result(c, name) == Ok::<Seq<u8>, ErrorView>(content),
        read_raw_result(c, name) == Ok::<Seq<u8>, ErrorView>(
            stored_file(content, reserved, flags),
        ),
{
    let at = offset as int;
    let size = content.len() as u32;
    lemma_holds_parts(
        c.data,
        at,
        le32_bytes(reserved),
        le32_bytes(size) + (seq![flags] + content),
    );
    lemma_holds_parts(c.data, at + 4, le32_bytes(size), seq![flags] + content);
    lemma_holds_parts(c.data, at + 8, seq![flags], content);
    lemma_holds_le32(c.data, at + 4, size);
}

// ---------------------------------------------------------------------------
// The directory
// ---------------------------------------------------------------------------

/// The bytes of directory entries: each is a name and an offset.
pub open spec fn directory_bytes(entries: Seq<(Seq<u8>, u32)>) -> Seq<u8>
    decreases entries.len(),
{
    if entries.len() == 0 {
        Seq::empty()
    } else {
        cstring(entries[0].0) + (le32_bytes(entries[0].1) + directory_bytes(entries.skip(1)))
    }
}

/// Directory entries with their names as text.
pub open spec fn directory_view(entries: Seq<(Seq<u8>, u32)>) -> Seq<InternalFileView> {
    entries.map_values(
        |e: (Seq<u8>, u32)| InternalFileView { name: text_of(e.0), offset: e.1 as u64 },
    )
}

pub proof fn lemma_directory_entries(
    data: Seq<u8>,
    pos: int,
    end: int,
    entries: Seq<(Seq<u8>, u32)>,
)
    requires
        forall|i: int| 0 <= i < entries.len() ==> nul_free((#[trigger] entries[i]).0),
        holds(data, pos, directory_bytes(entries)),
        pos + directory_bytes(entries).len() <= end,
    ensures
        leaf_entries(data, pos, end, entries.len()) == Ok::<Seq<InternalFileView>, ErrorView>(
            directory_view(entries),
        ),
    decreases entries.len(),
{
    if entries.len() == 0 {
        assert(directory_view(entries) =~= Seq::empty());
    } else {
        let (name, offset) = entries[0];
        let rest = entries.skip(1);
        lemma_holds_parts(data, pos, cstring(name), le32_bytes(offset) + directory_bytes(rest));
        let mid = pos + name.len() + 1;
        lemma_holds_parts(data, mid, le32_bytes(offset), directory_bytes(rest));
        lemma_holds_cstring(data, pos, name);
        lemma_holds_le32(data, mid, offset);
        assert forall|i: int| 0 <= i < rest.len() implies nul_free((#[trigger] rest[i]).0) by {
            assert(rest[i] == entries[i + 1]);
        }
        lemma_directory_entries(data, mid + 4, end, rest);
        assert(seq![
            InternalFileView { name: text_of(name), offset: offset as u64 },
        ] + directory_view(rest) =~= directory_view(entries));
    }
}

/// Whether a directory of one page with the given entries lies at
/// `dir_offset`: an internal file with a B-tree of one level.
pub open spec fn directory_lies_at(
    data: Seq<u8>,
    dir_offset: int,
    page_size: u16,
    entries: Seq<(Seq<u8>, u32)>,
) -> bool {
    let tree = dir_offset + INTERNAL_FILE_HEADER_SIZE;
    let page = tree + BTREE_HEADER_SIZE;
    &&& 0 <= dir_offset
    &&& page + page_size <= data.len()
    &&& holds(data, tree, le16_bytes(BTREE_MAGIC))
    &&& holds(data, tree + 4, le16_bytes(page_size))
    &&& holds(data, tree + 0x1A, le16_bytes(0))
    &&& holds(data, tree + 0x1E, le16_bytes(1))
    &&& holds(data, tree + 0x20, le16_bytes(1))
    &&& entries.len() <= u16::MAX
    &&& holds(data, page + 2, le16_bytes(entries.len() as u16))
    &&& 8 + directory_bytes(entries).len() <= page_size
    &&& holds(data, page + 8, directory_bytes(entries))
}

/// A directory that is laid out is read back, entry by entry.
pub proof fn law_directory_is_read_back(
    data: Seq<u8>,
    dir_offset: int,
    page_size: u16,
    entries: Seq<(Seq<u8>, u32)>,
)
    requires
        forall|i: int| 0 <= i < entries.len() ==> nul_free((#[trigger] entries[i]).0),
        directory_lies_at(data, dir_offset, page_size, entries),
    ensures
        directory_result(data, dir_offset) == Ok::<Seq<InternalFileView>, ErrorView>(
            directory_view(entries),
        ),
{
    let tree = dir_offset + INTERNAL_FILE_HEADER_SIZE;
    let page = tree + BTREE_HEADER_SIZE;
    lemma_holds_le16(data, tree, BTREE_MAGIC);
    lemma_holds_le16(data, tree + 4, page_size);
    lemma_holds_le16(data, tree + 0x1A, 0);
    lemma_holds_le16(data, tree + 0x1E, 1);
    lemma_holds_le16(data, tree + 0x20, 1);
    lemma_holds_le16(data, page + 2, entries.len() as u16);
    assert(page_at(page, page_size, 0) == page);
    lemma_directory_entries(data, page + 8, page + page_size, entries);
}

/// Whether the bytes of a help file hold the given internal files: the file
/// header, the directory, and each file at the offset of its entry.
pub open spec fn archive_of(
    data: Seq<u8>,
    page_size: u16,
    names: Seq<Seq<u8>>,
    offsets: Seq<u32>,
    contents: Seq<Seq<u8>>,
) -> bool {
    &&& names.len() == offsets.len() == contents.len()
    &&& holds(data, 0, le32_bytes(HLP_MAGIC))
    &&& data.len() >= 8
    &&& directory_lies_at(
        data,
        le32(data, 4) as int,
        page_size,
        Seq::new(names.len(), |i: int| (names[i], offsets[i])),
    )
    &&& forall|i: int|
        0 <= i < names.len() ==> {
            &&& nul_free(#[trigger] names[i])
            &&& contents[i].len() <= u32::MAX
            &&& holds(
                data,
                offsets[i] as int,
                stored_file(contents[i], contents[i].len() as u32, 0),
            )
        }
}

/// A help file that holds internal files under distinct names opens as a
/// container that lists them in order, and reading a name gives back the
/// content that was stored under it.
pub proof fn law_archive_is_read_back(
    data: Seq<u8>,
    page_size: u16,
    names: Seq<Seq<u8>>,
    offsets: Seq<u32>,
    contents: Seq<Seq<u8>>,
)
    requires
        archive_of(data, page_size, names, offsets, contents),
        forall|i: int, j: int|
            0 <= i < j < names.len() ==> text_of(#[trigger] names[i]) != text_of(
                #[trigger] names[j],
            ),
    ensures
        container_result(data) matches Ok(c) && c.data == data && c.files.len() == names.len()
            && forall|i: int|
            0 <= i < names.len() ==> (#[trigger] c.files[i]).name == text_of(names[i])
                && c.files[i].offset == offsets[i] && read_result(c, text_of(names[i])) == Ok::<
                Seq<u8>,
                ErrorView,
            >(contents[i]),
{
    let entries = Seq::new(names.len(), |i: int| (names[i], offsets[i]));
    lemma_holds_le32(data, 0, HLP_MAGIC);
    assert forall|i: int| 0 <= i < entries.len() implies nul_free((#[trigger] entries[i]).0) by {
        assert(nul_free(names[i]));
    }
    law_directory_is_read_back(data, le32(data, 4) as int, page_size, entries);
    let c = ContainerView { data, files: directory_view(entries) };
    assert(container_result(data) == Ok::<ContainerView, ErrorView>(c));
    assert forall|i: int| 0 <= i < names.len() implies (#[trigger] c.files[i]).name == text_of(
        names[i],
    ) && c.files[i].offset == offsets[i] && read_result(c, text_of(names[i])) == Ok::<
        Seq<u8>,
        ErrorView,
    >(contents[i]) by {
        let files = c.files;
        assert(files[i].name == text_of(names[i]));
        assert forall|j: int| i < j < files.len() implies (#[trigger] files[j]).name
            != files[i].name by {
            assert(files[j].name == text_of(names[j]));
            assert(text_of(names[i]) != text_of(names[j]));
        }
        law_last_entry_counts(files, i);
        assert(nul_free(names[i]));
        law_stored_file_is_read_back(
            c,
            text_of(names[i]),
            offsets[i] as u64,
            contents[i],
            contents[i].len() as u32,
            0,
        );
    }
}

/// Of several directory entries with one name the last one counts.
pub proof fn law_last_entry_counts(files: Seq<InternalFileView>, i: int)
    requires
        0 <= i < files.len(),
        forall|j: int| i < j < files.len() ==> (#[trigger] files[j]).name != files[i].name,
    ensures
        lookup(files, files[i].name) == Some(files[i].offset),
    decreases files.len(),
{
    if i < files.len() - 1 {
        assert(files[files.len() - 1].name != files[i].name);
        let shorter = files.drop_last();
        assert(shorter[i] == files[i]);
        law_last_entry_counts(shorter, i);
    }
}

// ---------------------------------------------------------------------------
// The context map
// ---------------------------------------------------------------------------

/// The bytes of hashes and topic offsets.
pub open spec fn pairs_bytes(pairs: Seq<(u32, u32)>) -> Seq<u8>
    decreases pairs.len(),
{
    if pairs.len() == 0 {
        Seq::empty()
    } else {
        le32_bytes(pairs[0].0) + (le32_bytes(pairs[0].1) + pairs_bytes(pairs.skip(1)))
    }
}

pub proof fn lemma_pairs(data: Seq<u8>, pos: int, end: int, pairs: Seq<(u32, u32)>)
    requires
        holds(data, pos, pairs_bytes(pairs)),
        pos + pairs_bytes(pairs).len() <= end,
    ensures
        leaf_pairs(data, pos, end, pairs.len()) == pairs,
    decreases pairs.len(),
{
    if pairs.len() > 0 {
        let rest = pairs.skip(1);
        let tail = le32_bytes(pairs[0].1) + pairs_bytes(rest);
        lemma_holds_parts(data, pos, le32_bytes(pairs[0].0), tail);
        lemma_holds_parts(data, pos + 4, le32_bytes(pairs[0].1), pairs_bytes(rest));
        lemma_holds_le32(data, pos, pairs[0].0);
        lemma_holds_le32(data, pos + 4, pairs[0].1);
        lemma_pairs(data, pos + 8, end, rest);
        assert(seq![pairs[0]] + rest =~= pairs);
    }
}

/// Whether `|CONTEXT` holds the given pairs in a tree of one page.
pub open spec fn context_holds(data: Seq<u8>, page_size: u16, pairs: Seq<(u32, u32)>) -> bool {
    &&& CONTEXT_HEADER_SIZE + page_size <= data.len()
    &&& holds(data, 0, le16_bytes(BTREE_MAGIC))
    &&& holds(data, 4, le16_bytes(page_size))
    &&& holds(data, 12, le16_bytes(0))
    &&& holds(data, 16, le16_bytes(1))
    &&& pairs.len() <= u16::MAX
    &&& holds(data, CONTEXT_HEADER_SIZE + 2, le16_bytes(pairs.len() as u16))
    &&& 4 + pairs_bytes(pairs).len() <= page_size
    &&& holds(data, CONTEXT_HEADER_SIZE + 4, pairs_bytes(pairs))
}

/// A context map that is laid out is read back: the pairs in order, and each
/// hash that occurs once resolves to its offset.
pub proof fn law_context_is_read_back(data: Seq<u8>, page_size: u16, pairs: Seq<(u32, u32)>)
    requires
        context_holds(data, page_size, pairs),
        forall|i: int, j: int|
            0 <= i < j < pairs.len() ==> (#[trigger] pairs[i]).0 != (#[trigger] pairs[j]).0,
    ensures
        pairs_result(data) == Ok::<Seq<(u32, u32)>, ErrorView>(pairs),
        context_result(data) matches Ok(m) && forall|i: int|
            0 <= i < pairs.len() ==> m.contains_key((#[trigger] pairs[i]).0) && m[pairs[i].0]
                == pairs[i].1,
{
    lemma_holds_le16(data, 0, BTREE_MAGIC);
    lemma_holds_le16(data, 4, page_size);
    lemma_holds_le16(data, 12, 0);
    lemma_holds_le16(data, 16, 1);
    let page = CONTEXT_HEADER_SIZE as int;
    lemma_holds_le16(data, page + 2, pairs.len() as u16);
    assert(page_at(page, page_size, 0) == page);
    lemma_pairs(data, page + 4, page + page_size, pairs);
    assert(pairs_result(data) == Ok::<Seq<(u32, u32)>, ErrorView>(pairs));
    let m = with_pairs(Map::empty(), pairs);
    assert forall|i: int| 0 <= i < pairs.len() implies m.contains_key((#[trigger] pairs[i]).0)
        && m[pairs[i].0] == pairs[i].1 by {
        law_last_pair_counts(pairs, i);
    }
}

// ---------------------------------------------------------------------------
// The title index
// ---------------------------------------------------------------------------

/// The bytes of topic offsets and titles.
pub open spec fn titles_bytes(titles: Seq<(u32, Seq<u8>)>) -> Seq<u8>
    decreases titles.len(),
{
    if titles.len() == 0 {
        Seq::empty()
    } else {
        le32_bytes(titles[0].0) + (cstring(titles[0].1) + titles_bytes(titles.skip(1)))
    }
}

/// Topic offsets with their titles as text.
pub open spec fn titles_view(titles: Seq<(u32, Seq<u8>)>) -> Seq<(u32, Seq<char>)> {
    titles.map_values(|t: (u32, Seq<u8>)| (t.0, text_of(t.1)))
}

pub proof fn lemma_titles(data: Seq<u8>, pos: int, end: int, titles: Seq<(u32, Seq<u8>)>)
    requires
        holds(data, pos, titles_bytes(titles)),
        pos + titles_bytes(titles).len() <= end <= data.len(),
        forall|i: int| 0 <= i < titles.len() ==> nul_free((#[trigger] titles[i]).1),
    ensures
        leaf_titles(data, pos, end, titles.len()) == titles_view(titles),
    decreases titles.len(),
{
    if titles.len() == 0 {
        assert(titles_view(titles) =~= Seq::empty());
    } else {
        let (offset, title) = titles[0];
        let rest = titles.skip(1);
        lemma_holds_parts(data, pos, le32_bytes(offset), cstring(title) + titles_bytes(rest));
        lemma_holds_parts(data, pos + 4, cstring(title), titles_bytes(rest));
        lemma_holds_le32(data, pos, offset);
        assert(nul_free(titles[0].1));
        lemma_holds_cstring(data, pos + 4, title);
        assert forall|i: int| 0 <= i < rest.len() implies nul_free((#[trigger] rest[i]).1) by {
            assert(rest[i] == titles[i + 1]);
        }
        lemma_titles(data, pos + 4 + title.len() + 1, end, rest);
        assert(seq![(offset, text_of(title))] + titles_view(rest) =~= titles_view(titles));
    }
}

/// Whether `|TTLBTREE` holds the given titles in a tree of one page.
pub open spec fn titles_hold(data: Seq<u8>, page_size: u16, titles: Seq<(u32, Seq<u8>)>) -> bool {
    &&& BTREE_HEADER_SIZE + page_size <= data.len()
    &&& holds(data, 0, le16_bytes(BTREE_MAGIC))
    &&& holds(data, 4, le16_bytes(page_size))
    &&& holds(data, 0x1A, le16_bytes(0))
    &&& holds(data, 0x20, le16_bytes(1))
    &&& titles.len() <= u16::MAX
    &&& holds(data, BTREE_HEADER_SIZE + 2, le16_bytes(titles.len() as u16))
    &&& 4 + titles_bytes(titles).len() <= page_size
    &&& holds(data, BTREE_HEADER_SIZE + 4, titles_bytes(titles))
}

/// Titles that are laid out are read back, in the order of their offsets.
pub proof fn law_titles_are_read_back(
    data: Seq<u8>,
    page_size: u16,
    titles: Seq<(u32, Seq<u8>)>,
)
    requires
        titles_hold(data, page_size, titles),
        forall|i: int| 0 <= i < titles.len() ==> nul_free((#[trigger] titles[i]).1),
    ensures
        titles_result(data) == Ok::<Seq<(u32, Seq<char>)>, ErrorView>(
            in_order(titles_view(titles)),
        ),
{
    lemma_holds_le16(data, 0, BTREE_MAGIC);
    lemma_holds_le16(data, 4, page_size);
    lemma_holds_le16(data, 0x1A, 0);
    lemma_holds_le16(data, 0x20, 1);
    let page = BTREE_HEADER_SIZE as int;
    lemma_holds_le16(data, page + 2, titles.len() as u16);
    assert(page_at(page, page_size, 0) == page);
    lemma_titles(data, page + 4, page + page_size, titles);
}

// ---------------------------------------------------------------------------
// The keyword index
// ---------------------------------------------------------------------------

/// The bytes of topic offsets.
pub open spec fn offsets_bytes(offsets: Seq<u32>) -> Seq<u8>
    decreases offsets.len(),
{
    if offsets.len() == 0 {
        Seq::empty()
    } else {
        le32_bytes(offsets[0]) + offsets_bytes(offsets.skip(1))
    }
}

proof fn lemma_offsets(data: Seq<u8>, pos: int, offsets: Seq<u32>)
    requires
        holds(data, pos, offsets_bytes(offsets)),
    ensures
        offsets_bytes(offsets).len() == 4 * offsets.len(),
        forall|i: int| 0 <= i < offsets.len() ==> le32(data, pos + 4 * i) == #[trigger] offsets[i],
    decreases offsets.len(),
{
    if offsets.len() > 0 {
        let rest = offsets.skip(1);
        lemma_holds_parts(data, pos, le32_bytes(offsets[0]), offsets_bytes(rest));
        lemma_holds_le32(data, pos, offsets[0]);
        lemma_offsets(data, pos + 4, rest);
        assert forall|i: int| 0 <= i < offsets.len() implies le32(data, pos + 4 * i)
            == #[trigger] offsets[i] by {
            if i > 0 {
                assert(rest[i - 1] == offsets[i]);
                assert(pos + 4 * i == (pos + 4) + 4 * (i - 1));
            }
        }
    }
}

/// Whether `|KWDATA` holds the given topic offsets at `at`.
pub open spec fn kwdata_holds(kwdata: Seq<u8>, at: int, offsets: Seq<u32>) -> bool {
    &&& offsets.len() <= u16::MAX
    &&& holds(kwdata, at, le16_bytes(offsets.len() as u16) + offsets_bytes(offsets))
}

/// The bytes of keywords, each with its place in `|KWDATA`.
pub open spec fn keywords_bytes(keywords: Seq<(Seq<u8>, u32)>) -> Seq<u8>
    decreases keywords.len(),
{
    if keywords.len() == 0 {
        Seq::empty()
    } else {
        cstring(keywords[0].0) + (le32_bytes(keywords[0].1) + keywords_bytes(keywords.skip(1)))
    }
}

/// Keywords with their topic offsets, as text.
pub open spec fn keywords_view(
    keywords: Seq<(Seq<u8>, u32)>,
    topics: Seq<Seq<u32>>,
) -> Seq<RawKeywordEntryView> {
    Seq::new(
        keywords.len(),
        |i: int| RawKeywordEntryView { keyword: text_of(keywords[i].0), topic_offsets: topics[i] },
    )
}

proof fn lemma_kwdata(kwdata: Seq<u8>, at: int, offsets: Seq<u32>)
    requires
        kwdata_holds(kwdata, at, offsets),
    ensures
        kwdata_result(kwdata, at) == Ok::<Seq<u32>, ErrorView>(offsets),
{
    let count = offsets.len() as u16;
    lemma_holds_parts(kwdata, at, le16_bytes(count), offsets_bytes(offsets));
    lemma_holds_le16(kwdata, at, count);
    lemma_offsets(kwdata, at + 2, offsets);
    let read = Seq::new(count as nat, |i: int| le32(kwdata, at + 2 + 4 * i));
    assert(read =~= offsets) by {
        assert forall|i: int| 0 <= i < offsets.len() implies read[i] == offsets[i] by {
            assert(le32(kwdata, at + 2 + 4 * i) == offsets[i]);
        }
    }
}

pub proof fn lemma_keywords(
    data: Seq<u8>,
    kwdata: Seq<u8>,
    pos: int,
    end: int,
    keywords: Seq<(Seq<u8>, u32)>,
    topics: Seq<Seq<u32>>,
)
    requires
        holds(data, pos, keywords_bytes(keywords)),
        pos + keywords_bytes(keywords).len() <= end <= data.len(),
        keywords.len() == topics.len(),
        forall|i: int|
            0 <= i < keywords.len() ==> nul_free((#[trigger] keywords[i]).0) && kwdata_holds(
                kwdata,
                keywords[i].1 as int,
                topics[i],
            ),
    ensures
        leaf_keywords(data, kwdata, pos, end, keywords.len()) == Ok::<
            Seq<RawKeywordEntryView>,
            ErrorView,
        >(keywords_view(keywords, topics)),
    decreases keywords.len(),
{
    if keywords.len() == 0 {
        assert(keywords_view(keywords, topics) =~= Seq::empty());
    } else {
        let (keyword, place) = keywords[0];
        let rest = keywords.skip(1);
        let rest_topics = topics.skip(1);
        assert(nul_free(keywords[0].0));
        lemma_holds_parts(data, pos, cstring(keyword), le32_bytes(place) + keywords_bytes(rest));
        let mid = pos + keyword.len() + 1;
        lemma_holds_parts(data, mid, le32_bytes(place), keywords_bytes(rest));
        lemma_holds_cstring(data, pos, keyword);
        lemma_holds_le32(data, mid, place);
        lemma_kwdata(kwdata, place as int, topics[0]);
        assert forall|i: int| 0 <= i < rest.len() implies nul_free((#[trigger] rest[i]).0)
            && kwdata_holds(kwdata, rest[i].1 as int, rest_topics[i]) by {
            assert(rest[i] == keywords[i + 1]);
            assert(rest_topics[i] == topics[i + 1]);
        }
        lemma_keywords(data, kwdata, mid + 4, end, rest, rest_topics);
        assert(seq![
            RawKeywordEntryView { keyword: text_of(keyword), topic_offsets: topics[0] },
        ] + keywords_view(rest, rest_topics) =~= keywords_view(keywords, topics));
    }
}

/// Whether `|KWBTREE` and `|KWDATA` hold the given keywords, in a tree of one
/// page.
pub open spec fn keywords_hold(
    data: Seq<u8>,
    kwdata: Seq<u8>,
    page_size: u16,
    keywords: Seq<(Seq<u8>, u32)>,
    topics: Seq<Seq<u32>>,
) -> bool {
    &&& BTREE_HEADER_SIZE + page_size <= data.len()
    &&& holds(data, 0, le16_bytes(BTREE_MAGIC))
    &&& holds(data, 4, le16_bytes(page_size))
    &&& holds(data, 0x1A, le16_bytes(0))
    &&& holds(data, 0x20, le16_bytes(1))
    &&& keywords.len() <= u16::MAX
    &&& holds(data, BTREE_HEADER_SIZE + 2, le16_bytes(keywords.len() as u16))
    &&& 4 + keywords_bytes(keywords).len() <= page_size
    &&& holds(data, BTREE_HEADER_SIZE + 4, keywords_bytes(keywords))
    &&& keywords.len() == topics.len()
    &&& forall|i: int|
        0 <= i < keywords.len() ==> nul_free((#[trigger] keywords[i]).0) && kwdata_holds(
            kwdata,
            keywords[i].1 as int,
            topics[i],
        )
}

/// Keywords that are laid out are read back, with their topic offsets.
pub proof fn law_keywords_are_read_back(
    data: Seq<u8>,
    kwdata: Seq<u8>,
    page_size: u16,
    keywords: Seq<(Seq<u8>, u32)>,
    topics: Seq<Seq<u32>>,
)
    requires
        keywords_hold(data, kwdata, page_size, keywords, topics),
    ensures
        keywords_result(data, kwdata) == Ok::<Seq<RawKeywordEntryView>, ErrorView>(
            keywords_view(keywords, topics),
        ),
{
    lemma_holds_le16(data, 0, BTREE_MAGIC);
    lemma_holds_le16(data, 4, page_size);
    lemma_holds_le16(data, 0x1A, 0);
    lemma_holds_le16(data, 0x20, 1);
    let page = BTREE_HEADER_SIZE as int;
    lemma_holds_le16(data, page + 2, keywords.len() as u16);
    assert(page_at(page, page_size, 0) == page);
    lemma_keywords(data, kwdata, page + 4, page + page_size, keywords, topics);
}

} // verus!
