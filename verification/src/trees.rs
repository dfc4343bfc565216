//! B-trees of any depth: how their pages lie in bytes, and that reading a tree
//! gives the entries of its leaf pages, from left to right.

use vstd::prelude::*;

use crate::btree::{page_at, walk, walk_all};
use crate::bytes::{
    cstring, holds, le16_bytes, le32_bytes, lemma_holds_cstring, lemma_holds_le16,
    lemma_holds_parts, nul_free,
};
use crate::container::{directory_result, InternalFileView};
use crate::context::pairs_result;
use crate::error::ErrorView;
use crate::keyword::{keywords_result, RawKeywordEntryView};
use crate::layout::{
    directory_bytes, directory_view, keywords_bytes, keywords_view, kwdata_holds,
    lemma_directory_entries, lemma_keywords, lemma_pairs, lemma_titles, pairs_bytes, titles_bytes,
    titles_view,
};
use crate::title::{in_order, titles_result};

verus! {

/// A page of a tree with what is below it.
pub enum Tree<T> {
    /// A leaf page and its entries.
    Leaf { page: u16, entries: Seq<T> },
    /// An index page and its child pages, from left to right.
    Index { page: u16, children: Seq<Tree<T>> },
}

/// The number of the page.
pub open spec fn page_of<T>(t: Tree<T>) -> u16 {
    match t {
        Tree::Leaf { page, .. } => page,
        Tree::Index { page, .. } => page,
    }
}

/// The entries of a tree, from left to right.
pub open spec fn entries_of<T>(t: Tree<T>) -> Seq<T>
    decreases t,
{
    match t {
        Tree::Leaf { entries, .. } => entries,
        Tree::Index { children, .. } => all_entries(children),
    }
}

/// The entries of several trees, one after the other.
pub open spec fn all_entries<T>(trees: Seq<Tree<T>>) -> Seq<T>
    decreases trees,
{
    if trees.len() == 0 {
        Seq::empty()
    } else {
        all_entries(trees.drop_last()) + entries_of(trees.last())
    }
}

/// Whether the pages of a tree with the given number of levels are as `leaf` and
/// `index` give them.
pub open spec fn lies<T>(
    t: Tree<T>,
    leaf: spec_fn(u16) -> Result<Seq<T>, ErrorView>,
    index: spec_fn(u16) -> Result<Seq<u16>, ErrorView>,
    levels: nat,
) -> bool
    decreases t,
{
    match t {
        Tree::Leaf { page, entries } => levels == 1 && leaf(page) == Ok::<Seq<T>, ErrorView>(
            entries,
        ),
        Tree::Index { page, children } => {
            &&& levels > 1
            &&& index(page) matches Ok(pages)
            &&& pages.len() == children.len()
            &&& forall|i: int|
                0 <= i < children.len() ==> pages[i] == page_of(#[trigger] children[i]) && lies(
                    children[i],
                    leaf,
                    index,
                    (levels - 1) as nat,
                )
        },
    }
}

/// Reading a tree gives the entries of its leaf pages, from left to right,
/// whatever its depth.
pub proof fn law_trees_are_read_from_left_to_right<T>(
    t: Tree<T>,
    leaf: spec_fn(u16) -> Result<Seq<T>, ErrorView>,
    index: spec_fn(u16) -> Result<Seq<u16>, ErrorView>,
    levels: nat,
)
    requires
        lies(t, leaf, index, levels),
    ensures
        walk(leaf, index, page_of(t), levels) == Ok::<Seq<T>, ErrorView>(entries_of(t)),
    decreases t,
{
    if let Tree::Index { page, children } = t {
        let pages = index(page)->Ok_0;
        lemma_children(children, pages, leaf, index, (levels - 1) as nat);
    }
}

proof fn lemma_children<T>(
    children: Seq<Tree<T>>,
    pages: Seq<u16>,
    leaf: spec_fn(u16) -> Result<Seq<T>, ErrorView>,
    index: spec_fn(u16) -> Result<Seq<u16>, ErrorView>,
    levels: nat,
)
    requires
        pages.len() == children.len(),
        forall|i: int|
            0 <= i < children.len() ==> pages[i] == page_of(#[trigger] children[i]) && lies(
                children[i],
                leaf,
                index,
                levels,
            ),
    ensures
        walk_all(leaf, index, pages, levels) == Ok::<Seq<T>, ErrorView>(all_entries(children)),
    decreases children,
{
    if children.len() > 0 {
        let front = children.drop_last();
        let last = children.len() - 1;
        assert(lies(children[last], leaf, index, levels));
        assert forall|i: int| 0 <= i < front.len() implies pages.drop_last()[i] == page_of(
            #[trigger] front[i],
        ) && lies(front[i], leaf, index, levels) by {
            assert(front[i] == children[i]);
        }
        lemma_children(front, pages.drop_last(), leaf, index, levels);
        law_trees_are_read_from_left_to_right(children[last], leaf, index, levels);
    }
}

// ---------------------------------------------------------------------------
// The directory
// ---------------------------------------------------------------------------

/// The bytes of string keys, each with the child page behind it.
pub open spec fn string_keys_bytes(kids: Seq<(Seq<u8>, u16)>, counter: Seq<u8>) -> Seq<u8>
    decreases kids.len(),
{
    if kids.len() == 0 {
        Seq::empty()
    } else {
        cstring(kids[0].0) + (counter + (le16_bytes(kids[0].1) + string_keys_bytes(
            kids.skip(1),
            counter,
        )))
    }
}

/// The child pages behind keys.
pub open spec fn pages_behind<K>(kids: Seq<(K, u16)>) -> Seq<u16> {
    Seq::new(kids.len(), |i: int| kids[i].1)
}

proof fn lemma_pages_behind<K>(kids: Seq<(K, u16)>)
    requires
        kids.len() > 0,
    ensures
        pages_behind(kids) == seq![kids[0].1] + pages_behind(kids.skip(1)),
{
    assert(pages_behind(kids) =~= seq![kids[0].1] + pages_behind(kids.skip(1)));
}

/// A leaf page of the directory gives its entries: their number stands two
/// bytes into the page, and they start eight bytes into it.
pub proof fn law_directory_leaf_page(
    data: Seq<u8>,
    at: int,
    page_size: u16,
    entries: Seq<(Seq<u8>, u32)>,
)
    requires
        0 <= at,
        at + page_size <= data.len(),
        entries.len() <= u16::MAX,
        forall|i: int| 0 <= i < entries.len() ==> nul_free((#[trigger] entries[i]).0),
        8 + directory_bytes(entries).len() <= page_size,
        holds(data, at + 2, le16_bytes(entries.len() as u16)),
        holds(data, at + 8, directory_bytes(entries)),
    ensures
        crate::container::leaf_page(data, at, page_size) == Ok::<Seq<InternalFileView>, ErrorView>(
            directory_view(entries),
        ),
{
    lemma_holds_le16(data, at + 2, entries.len() as u16);
    lemma_directory_entries(data, at + 8, at + page_size, entries);
}

proof fn lemma_directory_children(
    data: Seq<u8>,
    pos: int,
    end: int,
    kids: Seq<(Seq<u8>, u16)>,
)
    requires
        forall|i: int| 0 <= i < kids.len() ==> nul_free((#[trigger] kids[i]).0),
        holds(data, pos, string_keys_bytes(kids, Seq::empty())),
        pos + string_keys_bytes(kids, Seq::empty()).len() <= end,
    ensures
        crate::container::index_children(data, pos, end, kids.len()) == Ok::<Seq<u16>, ErrorView>(
            pages_behind(kids),
        ),
    decreases kids.len(),
{
    if kids.len() == 0 {
        assert(pages_behind(kids) =~= Seq::empty());
    } else {
        let (key, child) = kids[0];
        let rest = kids.skip(1);
        let tail = string_keys_bytes(rest, Seq::empty());
        let none = Seq::<u8>::empty();
        assert(nul_free(kids[0].0));
        assert forall|i: int| 0 <= i < rest.len() implies nul_free((#[trigger] rest[i]).0) by {
            assert(rest[i] == kids[i + 1]);
        }
        lemma_holds_parts(data, pos, cstring(key), none + (le16_bytes(child) + tail));
        let mid = pos + key.len() + 1;
        lemma_holds_parts(data, mid, none, le16_bytes(child) + tail);
        lemma_holds_parts(data, mid, le16_bytes(child), tail);
        lemma_holds_cstring(data, pos, key);
        lemma_holds_le16(data, mid, child);
        lemma_directory_children(data, mid + 2, end, rest);
        lemma_pages_behind(kids);
    }
}

/// An index page of the directory gives its child pages: the first, and the one
/// behind each key.
pub proof fn law_directory_index_page(
    data: Seq<u8>,
    at: int,
    page_size: u16,
    first: u16,
    kids: Seq<(Seq<u8>, u16)>,
)
    requires
        0 <= at,
        at + page_size <= data.len(),
        kids.len() <= u16::MAX,
        forall|i: int| 0 <= i < kids.len() ==> nul_free((#[trigger] kids[i]).0),
        6 + string_keys_bytes(kids, Seq::empty()).len() <= page_size,
        holds(data, at + 2, le16_bytes(kids.len() as u16)),
        holds(data, at + 4, le16_bytes(first)),
        holds(data, at + 6, string_keys_bytes(kids, Seq::empty())),
    ensures
        crate::container::index_page(data, at, page_size) == Ok::<Seq<u16>, ErrorView>(
            seq![first] + pages_behind(kids),
        ),
{
    lemma_holds_le16(data, at + 2, kids.len() as u16);
    lemma_holds_le16(data, at + 4, first);
    lemma_directory_children(data, at + 6, at + page_size, kids);
}

/// Whether a B-tree header lies at `at`: magic number, page size, root page and
/// number of levels.
pub open spec fn tree_header(
    data: Seq<u8>,
    at: int,
    page_size: u16,
    root: u16,
    levels: u16,
) -> bool {
    &&& 0 <= at
    &&& at + 38 <= data.len()
    &&& holds(data, at, le16_bytes(0x293B))
    &&& holds(data, at + 4, le16_bytes(page_size))
    &&& holds(data, at + 0x1A, le16_bytes(root))
    &&& holds(data, at + 0x20, le16_bytes(levels))
}

proof fn lemma_tree_header(data: Seq<u8>, at: int, page_size: u16, root: u16, levels: u16)
    requires
        tree_header(data, at, page_size, root, levels),
    ensures
        crate::bytes::le16(data, at) == 0x293B,
        crate::bytes::le16(data, at + 4) == page_size,
        crate::bytes::le16(data, at + 0x1A) == root,
        crate::bytes::le16(data, at + 0x20) == levels,
{
    lemma_holds_le16(data, at, 0x293B);
    lemma_holds_le16(data, at + 4, page_size);
    lemma_holds_le16(data, at + 0x1A, root);
    lemma_holds_le16(data, at + 0x20, levels);
}

/// A directory of any depth is read back. Its pages lie behind its header, one
/// every `page_size` bytes.
pub proof fn law_directory_tree_is_read_back(
    data: Seq<u8>,
    dir_offset: int,
    page_size: u16,
    pages: u16,
    levels: u16,
    t: Tree<InternalFileView>,
)
    requires
        tree_header(data, dir_offset + 9, page_size, page_of(t), levels),
        pages > 0,
        holds(data, dir_offset + 9 + 0x1E, le16_bytes(pages)),
        lies(
            t,
            |p: u16|
                crate::container::leaf_page(data, dir_offset + 47 + p * page_size, page_size),
            |p: u16|
                crate::container::index_page(data, dir_offset + 47 + p * page_size, page_size),
            levels as nat,
        ),
    ensures
        directory_result(data, dir_offset) == Ok::<Seq<InternalFileView>, ErrorView>(
            entries_of(t),
        ),
{
    lemma_tree_header(data, dir_offset + 9, page_size, page_of(t), levels);
    lemma_holds_le16(data, dir_offset + 9 + 0x1E, pages);
    let leaf = |p: u16|
        crate::container::leaf_page(data, dir_offset + 47 + p * page_size, page_size);
    let index = |p: u16|
        crate::container::index_page(data, dir_offset + 47 + p * page_size, page_size);
    law_trees_are_read_from_left_to_right(t, leaf, index, levels as nat);
    let start = dir_offset + 47;
    assert(leaf =~= |p: u16|
        crate::container::leaf_page(data, page_at(start, page_size, p), page_size));
    assert(index =~= |p: u16|
        crate::container::index_page(data, page_at(start, page_size, p), page_size));
}

// ---------------------------------------------------------------------------
// The context map
// ---------------------------------------------------------------------------

/// The bytes of 32-bit keys, each with the child page behind it.
pub open spec fn number_keys_bytes(kids: Seq<(u32, u16)>, counter: Seq<u8>) -> Seq<u8>
    decreases kids.len(),
{
    if kids.len() == 0 {
        Seq::empty()
    } else {
        le32_bytes(kids[0].0) + (counter + (le16_bytes(kids[0].1) + number_keys_bytes(
            kids.skip(1),
            counter,
        )))
    }
}

/// A leaf page of the context map gives its pairs.
pub proof fn law_context_leaf_page(
    data: Seq<u8>,
    at: int,
    page_size: u16,
    pairs: Seq<(u32, u32)>,
)
    requires
        0 <= at,
        at + page_size <= data.len(),
        pairs.len() <= u16::MAX,
        4 + pairs_bytes(pairs).len() <= page_size,
        holds(data, at + 2, le16_bytes(pairs.len() as u16)),
        holds(data, at + 4, pairs_bytes(pairs)),
    ensures
        crate::context::leaf_page(data, at, page_size) == Ok::<Seq<(u32, u32)>, ErrorView>(pairs),
{
    lemma_holds_le16(data, at + 2, pairs.len() as u16);
    lemma_pairs(data, at + 4, at + page_size, pairs);
}

proof fn lemma_context_children(
    data: Seq<u8>,
    pos: int,
    end: int,
    counter: Seq<u8>,
    kids: Seq<(u32, u16)>,
)
    requires
        counter.len() == 0 || counter.len() == 2,
        holds(data, pos, number_keys_bytes(kids, counter)),
        pos + number_keys_bytes(kids, counter).len() <= end,
    ensures
        crate::context::index_children(data, pos, end, counter.len() == 2, kids.len())
            == pages_behind(kids),
    decreases kids.len(),
{
    if kids.len() == 0 {
        assert(pages_behind(kids) =~= Seq::empty());
    } else {
        let (key, child) = kids[0];
        let rest = kids.skip(1);
        let tail = number_keys_bytes(rest, counter);
        lemma_holds_parts(data, pos, le32_bytes(key), counter + (le16_bytes(child) + tail));
        lemma_holds_parts(data, pos + 4, counter, le16_bytes(child) + tail);
        let at = pos + 4 + counter.len();
        lemma_holds_parts(data, at, le16_bytes(child), tail);
        lemma_holds_le16(data, at, child);
        lemma_context_children(data, at + 2, end, counter, rest);
        lemma_pages_behind(kids);
    }
}

/// An index page of the context map gives its child pages, with or without a
/// counter of two bytes behind each key.
pub proof fn law_context_index_page(
    data: Seq<u8>,
    at: int,
    page_size: u16,
    counter: Seq<u8>,
    first: u16,
    kids: Seq<(u32, u16)>,
)
    requires
        0 <= at,
        at + page_size <= data.len(),
        counter.len() == 0 || counter.len() == 2,
        kids.len() <= u16::MAX,
        6 + number_keys_bytes(kids, counter).len() <= page_size,
        holds(data, at + 2, le16_bytes(kids.len() as u16)),
        holds(data, at + 4, le16_bytes(first)),
        holds(data, at + 6, number_keys_bytes(kids, counter)),
    ensures
        crate::context::index_page(data, at, page_size, counter.len() == 2) == Ok::<
            Seq<u16>,
            ErrorView,
        >(seq![first] + pages_behind(kids)),
{
    lemma_holds_le16(data, at + 2, kids.len() as u16);
    lemma_holds_le16(data, at + 4, first);
    lemma_context_children(data, at + 6, at + page_size, counter, kids);
}

/// A context map of any depth is read back. Bit 10 of its flags tells whether
/// index pages have counters.
pub proof fn law_context_tree_is_read_back(
    data: Seq<u8>,
    flags: u16,
    page_size: u16,
    levels: u16,
    t: Tree<(u32, u32)>,
)
    requires
        data.len() >= 22,
        holds(data, 0, le16_bytes(0x293B)),
        holds(data, 2, le16_bytes(flags)),
        holds(data, 4, le16_bytes(page_size)),
        holds(data, 12, le16_bytes(page_of(t))),
        holds(data, 16, le16_bytes(levels)),
        lies(
            t,
            |p: u16| crate::context::leaf_page(data, 22 + p * page_size, page_size),
            |p: u16|
                crate::context::index_page(
                    data,
                    22 + p * page_size,
                    page_size,
                    flags / 0x400 % 2 == 1,
                ),
            levels as nat,
        ),
    ensures
        pairs_result(data) == Ok::<Seq<(u32, u32)>, ErrorView>(entries_of(t)),
{
    lemma_holds_le16(data, 0, 0x293B);
    lemma_holds_le16(data, 2, flags);
    lemma_holds_le16(data, 4, page_size);
    lemma_holds_le16(data, 12, page_of(t));
    lemma_holds_le16(data, 16, levels);
    let counters = flags / 0x400 % 2 == 1;
    let leaf = |p: u16| crate::context::leaf_page(data, 22 + p * page_size, page_size);
    let index = |p: u16|
        crate::context::index_page(
            data,
            22 + p * page_size,
            page_size,
            flags / 0x400 % 2 == 1,
        );
    law_trees_are_read_from_left_to_right(t, leaf, index, levels as nat);
    assert(leaf =~= |p: u16|
        crate::context::leaf_page(data, page_at(22, page_size, p), page_size));
    assert(index =~= |p: u16|
        crate::context::index_page(data, page_at(22, page_size, p), page_size, counters));
}

// ---------------------------------------------------------------------------
// The title index
// ---------------------------------------------------------------------------

/// A leaf page of the title index gives its titles.
pub proof fn law_title_leaf_page(
    data: Seq<u8>,
    at: int,
    page_size: u16,
    titles: Seq<(u32, Seq<u8>)>,
)
    requires
        0 <= at,
        at + page_size <= data.len(),
        titles.len() <= u16::MAX,
        forall|i: int| 0 <= i < titles.len() ==> nul_free((#[trigger] titles[i]).1),
        4 + titles_bytes(titles).len() <= page_size,
        holds(data, at + 2, le16_bytes(titles.len() as u16)),
        holds(data, at + 4, titles_bytes(titles)),
    ensures
        crate::title::leaf_page(data, at, page_size) == Ok::<Seq<(u32, Seq<char>)>, ErrorView>(
            titles_view(titles),
        ),
{
    lemma_holds_le16(data, at + 2, titles.len() as u16);
    lemma_titles(data, at + 4, at + page_size, titles);
}

proof fn lemma_title_children(data: Seq<u8>, pos: int, end: int, kids: Seq<(u32, u16)>)
    requires
        holds(data, pos, number_keys_bytes(kids, Seq::empty())),
        pos + number_keys_bytes(kids, Seq::empty()).len() <= end,
    ensures
        crate::title::index_children(data, pos, end, kids.len()) == pages_behind(kids),
    decreases kids.len(),
{
    if kids.len() == 0 {
        assert(pages_behind(kids) =~= Seq::empty());
    } else {
        let (key, child) = kids[0];
        let rest = kids.skip(1);
        let none = Seq::<u8>::empty();
        let tail = number_keys_bytes(rest, none);
        lemma_holds_parts(data, pos, le32_bytes(key), none + (le16_bytes(child) + tail));
        lemma_holds_parts(data, pos + 4, none, le16_bytes(child) + tail);
        lemma_holds_parts(data, pos + 4, le16_bytes(child), tail);
        lemma_holds_le16(data, pos + 4, child);
        lemma_title_children(data, pos + 6, end, rest);
        lemma_pages_behind(kids);
    }
}

/// An index page of the title index gives its child pages.
pub proof fn law_title_index_page(
    data: Seq<u8>,
    at: int,
    page_size: u16,
    first: u16,
    kids: Seq<(u32, u16)>,
)
    requires
        0 <= at,
        at + page_size <= data.len(),
        kids.len() <= u16::MAX,
        6 + number_keys_bytes(kids, Seq::empty()).len() <= page_size,
        holds(data, at + 2, le16_bytes(kids.len() as u16)),
        holds(data, at + 4, le16_bytes(first)),
        holds(data, at + 6, number_keys_bytes(kids, Seq::empty())),
    ensures
        crate::title::index_page(data, at, page_size) == Ok::<Seq<u16>, ErrorView>(
            seq![first] + pages_behind(kids),
        ),
{
    lemma_holds_le16(data, at + 2, kids.len() as u16);
    lemma_holds_le16(data, at + 4, first);
    lemma_title_children(data, at + 6, at + page_size, kids);
}

/// A title index of any depth is read back, in the order of the offsets.
pub proof fn law_title_tree_is_read_back(
    data: Seq<u8>,
    page_size: u16,
    levels: u16,
    t: Tree<(u32, Seq<char>)>,
)
    requires
        tree_header(data, 0, page_size, page_of(t), levels),
        lies(
            t,
            |p: u16| crate::title::leaf_page(data, 38 + p * page_size, page_size),
            |p: u16| crate::title::index_page(data, 38 + p * page_size, page_size),
            levels as nat,
        ),
    ensures
        titles_result(data) == Ok::<Seq<(u32, Seq<char>)>, ErrorView>(in_order(entries_of(t))),
{
    lemma_tree_header(data, 0, page_size, page_of(t), levels);
    let leaf = |p: u16| crate::title::leaf_page(data, 38 + p * page_size, page_size);
    let index = |p: u16| crate::title::index_page(data, 38 + p * page_size, page_size);
    law_trees_are_read_from_left_to_right(t, leaf, index, levels as nat);
    assert(leaf =~= |p: u16|
        crate::title::leaf_page(data, page_at(38, page_size, p), page_size));
    assert(index =~= |p: u16|
        crate::title::index_page(data, page_at(38, page_size, p), page_size));
}

// ---------------------------------------------------------------------------
// The keyword index
// ---------------------------------------------------------------------------

/// A leaf page of the keyword index gives its keywords, with their offsets.
pub proof fn law_keyword_leaf_page(
    data: Seq<u8>,
    kwdata: Seq<u8>,
    at: int,
    page_size: u16,
    keywords: Seq<(Seq<u8>, u32)>,
    topics: Seq<Seq<u32>>,
)
    requires
        0 <= at,
        at + page_size <= data.len(),
        keywords.len() == topics.len() <= u16::MAX,
        forall|i: int|
            0 <= i < keywords.len() ==> nul_free((#[trigger] keywords[i]).0) && kwdata_holds(
                kwdata,
                keywords[i].1 as int,
                topics[i],
            ),
        4 + keywords_bytes(keywords).len() <= page_size,
        holds(data, at + 2, le16_bytes(keywords.len() as u16)),
        holds(data, at + 4, keywords_bytes(keywords)),
    ensures
        crate::keyword::leaf_page(data, kwdata, at, page_size) == Ok::<
            Seq<RawKeywordEntryView>,
            ErrorView,
        >(keywords_view(keywords, topics)),
{
    lemma_holds_le16(data, at + 2, keywords.len() as u16);
    lemma_keywords(data, kwdata, at + 4, at + page_size, keywords, topics);
}

proof fn lemma_keyword_children(
    data: Seq<u8>,
    pos: int,
    end: int,
    counter: Seq<u8>,
    kids: Seq<(Seq<u8>, u16)>,
)
    requires
        counter.len() == 0 || counter.len() == 2,
        forall|i: int| 0 <= i < kids.len() ==> nul_free((#[trigger] kids[i]).0),
        holds(data, pos, string_keys_bytes(kids, counter)),
        pos + string_keys_bytes(kids, counter).len() <= end <= data.len(),
    ensures
        crate::keyword::index_children(data, pos, end, counter.len() == 2, kids.len())
            == pages_behind(kids),
    decreases kids.len(),
{
    if kids.len() == 0 {
        assert(pages_behind(kids) =~= Seq::empty());
    } else {
        let (key, child) = kids[0];
        let rest = kids.skip(1);
        let tail = string_keys_bytes(rest, counter);
        assert(nul_free(kids[0].0));
        assert forall|i: int| 0 <= i < rest.len() implies nul_free((#[trigger] rest[i]).0) by {
            assert(rest[i] == kids[i + 1]);
        }
        lemma_holds_parts(data, pos, cstring(key), counter + (le16_bytes(child) + tail));
        let mid = pos + key.len() + 1;
        lemma_holds_parts(data, mid, counter, le16_bytes(child) + tail);
        let at = mid + counter.len();
        lemma_holds_parts(data, at, le16_bytes(child), tail);
        lemma_holds_cstring(data, pos, key);
        lemma_holds_le16(data, at, child);
        lemma_keyword_children(data, at + 2, end, counter, rest);
        lemma_pages_behind(kids);
    }
}

/// An index page of the keyword index gives its child pages, with or without a
/// counter of two bytes behind each key.
pub proof fn law_keyword_index_page(
    data: Seq<u8>,
    at: int,
    page_size: u16,
    counter: Seq<u8>,
    first: u16,
    kids: Seq<(Seq<u8>, u16)>,
)
    requires
        0 <= at,
        at + page_size <= data.len(),
        counter.len() == 0 || counter.len() == 2,
        kids.len() <= u16::MAX,
        forall|i: int| 0 <= i < kids.len() ==> nul_free((#[trigger] kids[i]).0),
        6 + string_keys_bytes(kids, counter).len() <= page_size,
        holds(data, at + 2, le16_bytes(kids.len() as u16)),
        holds(data, at + 4, le16_bytes(first)),
        holds(data, at + 6, string_keys_bytes(kids, counter)),
    ensures
        crate::keyword::index_page(data, at, page_size, counter.len() == 2) == Ok::<
            Seq<u16>,
            ErrorView,
        >(seq![first] + pages_behind(kids)),
{
    lemma_holds_le16(data, at + 2, kids.len() as u16);
    lemma_holds_le16(data, at + 4, first);
    lemma_keyword_children(data, at + 6, at + page_size, counter, kids);
}

/// A keyword index of any depth is read back.
pub proof fn law_keyword_tree_is_read_back(
    data: Seq<u8>,
    kwdata: Seq<u8>,
    flags: u16,
    page_size: u16,
    levels: u16,
    t: Tree<RawKeywordEntryView>,
)
    requires
        tree_header(data, 0, page_size, page_of(t), levels),
        holds(data, 2, le16_bytes(flags)),
        lies(
            t,
            |p: u16| crate::keyword::leaf_page(data, kwdata, 38 + p * page_size, page_size),
            |p: u16|
                crate::keyword::index_page(
                    data,
                    38 + p * page_size,
                    page_size,
                    flags / 0x400 % 2 == 1,
                ),
            levels as nat,
        ),
    ensures
        keywords_result(data, kwdata) == Ok::<Seq<RawKeywordEntryView>, ErrorView>(entries_of(t)),
{
    lemma_tree_header(data, 0, page_size, page_of(t), levels);
    lemma_holds_le16(data, 2, flags);
    let counters = flags / 0x400 % 2 == 1;
    let leaf = |p: u16| crate::keyword::leaf_page(data, kwdata, 38 + p * page_size, page_size);
    let index = |p: u16|
        crate::keyword::index_page(
            data,
            38 + p * page_size,
            page_size,
            flags / 0x400 % 2 == 1,
        );
    law_trees_are_read_from_left_to_right(t, leaf, index, levels as nat);
    assert(leaf =~= |p: u16|
        crate::keyword::leaf_page(data, kwdata, page_at(38, page_size, p), page_size));
    assert(index =~= |p: u16|
        crate::keyword::index_page(data, page_at(38, page_size, p), page_size, counters));
}

} // verus!
