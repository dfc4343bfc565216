//! The `|TTLBTREE` B-tree: topic offsets and display titles.

use vstd::prelude::*;

use crate::btree::{lemma_walk_all_prefix_error, page_at, page_offset, walk, walk_all, BTREE_MAGIC};
use crate::bytes::{find_nul_before, le16, le32, nul_before, text_between, text_of, u16_at, u32_at};
use crate::container::BTREE_HEADER_SIZE;
use crate::error::{bad_file, new_bad_file, new_parse_error, parse_error, ErrorView};
use crate::text::{hex_upper, push_hex_padded, zero_padded};
use crate::views::{lemma_views_push, views};
use crate::Error;

verus! {

/// The titles of the topics, in the order of the topic offsets.
#[derive(Debug, Clone)]
pub struct TitleIndex {
    entries: Vec<(u32, String)>,
}

impl View for TitleIndex {
    type V = Seq<(u32, Seq<char>)>;

    closed spec fn view(&self) -> Seq<(u32, Seq<char>)> {
        views(self.entries@)
    }
}

/// At most `n` titles from `pos` on, up to `end`: a 32-bit offset and a string
/// that a NUL byte or the end of the page terminates.
pub open spec fn leaf_titles(data: Seq<u8>, pos: int, end: int, n: nat) -> Seq<(u32, Seq<char>)>
    decreases n,
{
    if n == 0 || pos + 4 > end {
        Seq::empty()
    } else {
        let nul = nul_before(data, pos + 4, end);
        let next = if nul < end {
            nul + 1
        } else {
            nul
        };
        seq![(le32(data, pos), text_of(data.subrange(pos + 4, nul)))] + leaf_titles(
            data,
            next,
            end,
            (n - 1) as nat,
        )
    }
}

/// The titles of the leaf page at byte `at`.
pub open spec fn leaf_page(data: Seq<u8>, at: int, page_size: u16) -> Result<
    Seq<(u32, Seq<char>)>,
    ErrorView,
> {
    if data.len() < at + page_size || data.len() < at + 4 {
        Err(parse_error(at, "title leaf page past EOF"@))
    } else {
        Ok(leaf_titles(data, at + 4, at + page_size, le16(data, at + 2) as nat))
    }
}

/// At most `n` child pages from `pos` on, up to `end`, each behind a 32-bit key.
pub open spec fn index_children(data: Seq<u8>, pos: int, end: int, n: nat) -> Seq<u16>
    decreases n,
{
    if n == 0 || pos + 6 > end {
        Seq::empty()
    } else {
        seq![le16(data, pos + 4)] + index_children(data, pos + 6, end, (n - 1) as nat)
    }
}

/// The child pages of the index page at byte `at`.
pub open spec fn index_page(data: Seq<u8>, at: int, page_size: u16) -> Result<
    Seq<u16>,
    ErrorView,
> {
    if data.len() < at + page_size || data.len() < at + 6 {
        Err(parse_error(at, "title index page past EOF"@))
    } else {
        Ok(
            seq![le16(data, at + 4)] + index_children(
                data,
                at + 6,
                at + page_size,
                le16(data, at + 2) as nat,
            ),
        )
    }
}

/// The titles below a page.
pub open spec fn titles_below(data: Seq<u8>, page_size: u16, page: u16, levels: nat) -> Result<
    Seq<(u32, Seq<char>)>,
    ErrorView,
> {
    walk(
        |p: u16| leaf_page(data, page_at(BTREE_HEADER_SIZE as int, page_size, p), page_size),
        |p: u16| index_page(data, page_at(BTREE_HEADER_SIZE as int, page_size, p), page_size),
        page,
        levels,
    )
}

/// The place of a new entry with the given offset: behind all entries whose
/// offset is not greater.
pub open spec fn place_of(s: Seq<(u32, Seq<char>)>, offset: u32) -> int
    decreases s.len(),
{
    if s.len() == 0 || s.last().0 <= offset {
        s.len() as int
    } else {
        place_of(s.drop_last(), offset)
    }
}

/// The entries in the order of their offsets; entries with one offset keep
/// their order.
pub open spec fn in_order(s: Seq<(u32, Seq<char>)>) -> Seq<(u32, Seq<char>)>
    decreases s.len(),
{
    if s.len() == 0 {
        s
    } else {
        let before = in_order(s.drop_last());
        before.insert(place_of(before, s.last().0), s.last())
    }
}

/// The titles that the bytes of `|TTLBTREE` hold, in the order of the offsets.
pub open spec fn titles_result(data: Seq<u8>) -> Result<Seq<(u32, Seq<char>)>, ErrorView> {
    if data.len() < BTREE_HEADER_SIZE {
        Err(bad_file("|TTLBTREE"@, "too small for B-tree header"@))
    } else if le16(data, 0) != BTREE_MAGIC {
        Err(
            bad_file(
                "|TTLBTREE"@,
                "bad B-tree magic: 0x"@ + zero_padded(hex_upper(le16(data, 0) as nat), 4),
            ),
        )
    } else if le16(data, 0x20) == 0 {
        Ok(Seq::empty())
    } else {
        match titles_below(data, le16(data, 4), le16(data, 0x1A), le16(data, 0x20) as nat) {
            Err(e) => Err(e),
            Ok(s) => Ok(in_order(s)),
        }
    }
}

/// The first title with the given offset.
pub open spec fn title_at(s: Seq<(u32, Seq<char>)>, offset: u32) -> Option<Seq<char>>
    decreases s.len(),
{
    if s.len() == 0 {
        None
    } else if s[0].0 == offset {
        Some(s[0].1)
    } else {
        title_at(s.skip(1), offset)
    }
}

// ---------------------------------------------------------------------------
// Laws
// ---------------------------------------------------------------------------

/// Whether the offsets never decrease.
pub open spec fn ordered(s: Seq<(u32, Seq<char>)>) -> bool {
    forall|i: int, j: int| 0 <= i < j < s.len() ==> (#[trigger] s[i]).0 <= (#[trigger] s[j]).0
}

proof fn lemma_place(s: Seq<(u32, Seq<char>)>, offset: u32)
    requires
        ordered(s),
    ensures
        0 <= place_of(s, offset) <= s.len(),
        forall|i: int| 0 <= i < place_of(s, offset) ==> (#[trigger] s[i]).0 <= offset,
        forall|i: int| place_of(s, offset) <= i < s.len() ==> (#[trigger] s[i]).0 > offset,
    decreases s.len(),
{
    if s.len() > 0 && s.last().0 > offset {
        let shorter = s.drop_last();
        assert(ordered(shorter)) by {
            assert forall|i: int, j: int| 0 <= i < j < shorter.len() implies (#[trigger] shorter[i]).0
                <= (#[trigger] shorter[j]).0 by {
                assert(s[i].0 <= s[j].0);
            }
        }
        lemma_place(shorter, offset);
        assert forall|i: int| 0 <= i < shorter.len() implies #[trigger] s[i] == shorter[i] by {}
    } else if s.len() > 0 {
        assert(s[s.len() - 1].0 <= offset);
    }
}

/// An offset has the first title that stands under it, and none where none does.
pub proof fn law_first_title_counts(s: Seq<(u32, Seq<char>)>, offset: u32, k: int)
    ensures
        0 <= k < s.len() && s[k].0 == offset && (forall|j: int|
            0 <= j < k ==> (#[trigger] s[j]).0 != offset) ==> title_at(s, offset) == Some(s[k].1),
        (forall|j: int| 0 <= j < s.len() ==> (#[trigger] s[j]).0 != offset) ==> title_at(
            s,
            offset,
        ) is None,
    decreases s.len(),
{
    if s.len() > 0 {
        let rest = s.skip(1);
        law_first_title_counts(rest, offset, k - 1);
        if 0 < k < s.len() && s[k].0 == offset && (forall|j: int|
            0 <= j < k ==> (#[trigger] s[j]).0 != offset) {
            assert(s[0].0 != offset);
            assert(rest[k - 1] == s[k]);
            assert forall|j: int| 0 <= j < k - 1 implies (#[trigger] rest[j]).0 != offset by {
                assert(s[j + 1].0 != offset);
            }
        }
        if forall|j: int| 0 <= j < s.len() ==> (#[trigger] s[j]).0 != offset {
            assert(s[0].0 != offset);
            assert forall|j: int| 0 <= j < rest.len() implies (#[trigger] rest[j]).0
                != offset by {
                assert(s[j + 1].0 != offset);
            }
        }
    }
}

/// Titles come out in the order of their offsets.
pub proof fn law_titles_are_ordered(s: Seq<(u32, Seq<char>)>)
    ensures
        ordered(in_order(s)),
        in_order(s).len() == s.len(),
    decreases s.len(),
{
    if s.len() > 0 {
        law_titles_are_ordered(s.drop_last());
        let before = in_order(s.drop_last());
        let at = place_of(before, s.last().0);
        lemma_place(before, s.last().0);
        let after = before.insert(at, s.last());
        assert forall|i: int, j: int| 0 <= i < j < after.len() implies (#[trigger] after[i]).0 <= (
        #[trigger] after[j]).0 by {
            let a = if i < at {
                i
            } else {
                i - 1
            };
            let b = if j < at {
                j
            } else {
                j - 1
            };
            if i != at {
                assert(after[i] == before[a]);
            }
            if j != at {
                assert(after[j] == before[b]);
            }
        }
    }
}

/// Ordering the titles loses none and adds none.
pub proof fn law_ordering_keeps_titles(s: Seq<(u32, Seq<char>)>)
    ensures
        in_order(s).to_multiset() == s.to_multiset(),
    decreases s.len(),
{
    broadcast use vstd::seq_lib::group_to_multiset_ensures;

    if s.len() > 0 {
        law_ordering_keeps_titles(s.drop_last());
        law_titles_are_ordered(s.drop_last());
        let before = in_order(s.drop_last());
        lemma_place(before, s.last().0);
        vstd::seq_lib::to_multiset_insert(before, place_of(before, s.last().0), s.last());
        assert(s =~= s.drop_last().push(s.last()));
    }
}

/// The entries with one offset.
pub open spec fn with_offset(s: Seq<(u32, Seq<char>)>, offset: u32) -> Seq<(u32, Seq<char>)>
    decreases s.len(),
{
    if s.len() == 0 {
        s
    } else if s.last().0 == offset {
        with_offset(s.drop_last(), offset).push(s.last())
    } else {
        with_offset(s.drop_last(), offset)
    }
}

proof fn lemma_with_offset_concat(
    a: Seq<(u32, Seq<char>)>,
    b: Seq<(u32, Seq<char>)>,
    offset: u32,
)
    ensures
        with_offset(a + b, offset) == with_offset(a, offset) + with_offset(b, offset),
    decreases b.len(),
{
    if b.len() == 0 {
        assert(a + b =~= a);
        assert(with_offset(a, offset) + with_offset(b, offset) =~= with_offset(a, offset));
    } else {
        assert((a + b).drop_last() =~= a + b.drop_last());
        lemma_with_offset_concat(a, b.drop_last(), offset);
        if b.last().0 == offset {
            assert(with_offset(a, offset) + with_offset(b.drop_last(), offset).push(b.last()) =~= (
            with_offset(a, offset) + with_offset(b.drop_last(), offset)).push(b.last()));
        }
    }
}

proof fn lemma_with_offset_none(s: Seq<(u32, Seq<char>)>, offset: u32)
    requires
        forall|i: int| 0 <= i < s.len() ==> (#[trigger] s[i]).0 != offset,
    ensures
        with_offset(s, offset) == Seq::<(u32, Seq<char>)>::empty(),
    decreases s.len(),
{
    if s.len() > 0 {
        assert(s[s.len() - 1].0 != offset);
        let shorter = s.drop_last();
        assert forall|i: int| 0 <= i < shorter.len() implies (#[trigger] shorter[i]).0 != offset by {
            assert(s[i].0 != offset);
        }
        lemma_with_offset_none(shorter, offset);
    }
}

/// Titles with one offset keep their order.
pub proof fn law_ordering_is_stable(s: Seq<(u32, Seq<char>)>, offset: u32)
    ensures
        with_offset(in_order(s), offset) == with_offset(s, offset),
    decreases s.len(),
{
    if s.len() > 0 {
        law_ordering_is_stable(s.drop_last(), offset);
        law_titles_are_ordered(s.drop_last());
        let before = in_order(s.drop_last());
        let new = s.last();
        let at = place_of(before, new.0);
        lemma_place(before, new.0);
        let front = before.take(at);
        let back = before.skip(at);
        assert(before =~= front + back);
        assert(before.insert(at, new) =~= front.push(new) + back);
        lemma_with_offset_concat(front, back, offset);
        lemma_with_offset_concat(front.push(new), back, offset);
        assert(front.push(new).drop_last() =~= front);
        if new.0 == offset {
            assert forall|i: int| 0 <= i < back.len() implies (#[trigger] back[i]).0 != offset by {
                assert(before[at + i].0 > new.0);
            }
            lemma_with_offset_none(back, offset);
            assert(with_offset(front, offset) + Seq::<(u32, Seq<char>)>::empty() =~= with_offset(
                front,
                offset,
            ));
            assert(with_offset(front, offset).push(new) + Seq::<(u32, Seq<char>)>::empty()
                =~= with_offset(front, offset).push(new));
        }
    }
}

// ---------------------------------------------------------------------------
// Reading
// ---------------------------------------------------------------------------

/// Parses a leaf page and appends its titles.
fn parse_title_leaf(
    data: &[u8],
    page_offset: u64,
    page_size: u16,
    entries: &mut Vec<(u32, String)>,
) -> (r: Result<(), Error>)
    requires
        page_offset <= 0x2_0000_0000_0000,
    ensures
        match r {
            Ok(_) => leaf_page(data@, page_offset as int, page_size) is Ok && views(
                final(entries)@,
            ) == views(old(entries)@) + leaf_page(data@, page_offset as int, page_size)->Ok_0,
            Err(e) => leaf_page(data@, page_offset as int, page_size) == Err::<
                Seq<(u32, Seq<char>)>,
                ErrorView,
            >(e@),
        },
{
    let len: u64 = data.len() as u64;
    if len < page_offset + page_size as u64 || len < page_offset + 4 {
        return Err(new_parse_error(page_offset, "title leaf page past EOF"));
    }
    let at: usize = page_offset as usize;
    let page_end: usize = at + page_size as usize;
    let num_entries: u16 = u16_at(data, at + 2);
    let mut pos: usize = at + 4;
    let mut i: u16 = 0;
    let ghost before = views(entries@);
    let ghost all = leaf_titles(data@, at + 4, page_end as int, num_entries as nat);
    while i < num_entries && pos <= page_end && page_end - pos >= 4
        invariant
            i <= num_entries,
            page_end <= data@.len(),
            before + all == views(entries@) + leaf_titles(
                data@,
                pos as int,
                page_end as int,
                (num_entries - i) as nat,
            ),
        decreases num_entries - i,
    {
        let offset: u32 = u32_at(data, pos);
        let nul: usize = find_nul_before(data, pos + 4, page_end);
        let title: String = text_between(data, pos + 4, nul);
        let ghost entry = (offset, title@);
        let ghost listed = entries@;
        entries.push((offset, title));
        pos = if nul < page_end {
            nul + 1
        } else {
            nul
        };
        i += 1;
        proof {
            lemma_views_push(listed, entries@.last());
            let rest = leaf_titles(data@, pos as int, page_end as int, (num_entries - i) as nat);
            assert(views(listed) + (seq![entry] + rest) =~= views(entries@) + rest);
        }
    }
    assert(views(entries@) + Seq::<(u32, Seq<char>)>::empty() =~= views(entries@));
    Ok(())
}

/// Parses an index page: the child pages, left to right.
fn parse_title_index_page(data: &[u8], page_offset: u64, page_size: u16) -> (r: Result<
    Vec<u16>,
    Error,
>)
    requires
        page_offset <= 0x2_0000_0000_0000,
    ensures
        match r {
            Ok(children) => index_page(data@, page_offset as int, page_size) == Ok::<
                Seq<u16>,
                ErrorView,
            >(children@),
            Err(e) => index_page(data@, page_offset as int, page_size) == Err::<
                Seq<u16>,
                ErrorView,
            >(e@),
        },
{
    let len: u64 = data.len() as u64;
    if len < page_offset + page_size as u64 || len < page_offset + 6 {
        return Err(new_parse_error(page_offset, "title index page past EOF"));
    }
    let at: usize = page_offset as usize;
    let page_end: usize = at + page_size as usize;
    let num_entries: u16 = u16_at(data, at + 2);
    let mut children: Vec<u16> = Vec::new();
    children.push(u16_at(data, at + 4));
    let mut pos: usize = at + 6;
    let mut i: u16 = 0;
    let ghost all = index_page(data@, page_offset as int, page_size)->Ok_0;
    assert(children@ =~= seq![le16(data@, at + 4)]);
    while i < num_entries && pos <= page_end && page_end - pos >= 6
        invariant
            i <= num_entries,
            page_end <= data@.len(),
            all == children@ + index_children(
                data@,
                pos as int,
                page_end as int,
                (num_entries - i) as nat,
            ),
        decreases num_entries - i,
    {
        let child: u16 = u16_at(data, pos + 4);
        let ghost before = children@;
        children.push(child);
        pos += 6;
        i += 1;
        proof {
            let rest = index_children(
                data@,
                pos as int,
                page_end as int,
                (num_entries - i) as nat,
            );
            assert(before + (seq![child] + rest) =~= children@ + rest);
        }
    }
    assert(children@ + Seq::<u16>::empty() =~= children@);
    Ok(children)
}

/// Walks the tree and appends the titles of its leaf pages.
fn collect_title_entries(
    data: &[u8],
    page_size: u16,
    page_index: u16,
    levels_remaining: u16,
    entries: &mut Vec<(u32, String)>,
) -> (r: Result<(), Error>)
    requires
        levels_remaining >= 1,
    ensures
        match r {
            Ok(_) => titles_below(data@, page_size, page_index, levels_remaining as nat) is Ok
                && views(final(entries)@) == views(old(entries)@) + titles_below(
                data@,
                page_size,
                page_index,
                levels_remaining as nat,
            )->Ok_0,
            Err(e) => titles_below(data@, page_size, page_index, levels_remaining as nat) == Err::<
                Seq<(u32, Seq<char>)>,
                ErrorView,
            >(e@),
        },
    decreases levels_remaining,
{
    let ghost leaf = |p: u16|
        leaf_page(data@, page_at(BTREE_HEADER_SIZE as int, page_size, p), page_size);
    let ghost index = |p: u16|
        index_page(data@, page_at(BTREE_HEADER_SIZE as int, page_size, p), page_size);
    let at: u64 = page_offset(BTREE_HEADER_SIZE as u64, page_size, page_index);
    if levels_remaining == 1 {
        return parse_title_leaf(data, at, page_size, entries);
    }
    let children: Vec<u16> = match parse_title_index_page(data, at, page_size) {
        Ok(v) => v,
        Err(e) => {
            return Err(e);
        },
    };
    let ghost before = views(entries@);
    let ghost below: Seq<(u32, Seq<char>)> = Seq::empty();
    let ghost levels = (levels_remaining - 1) as nat;
    let mut i: usize = 0;
    assert(children@.take(0) =~= Seq::empty());
    assert(views(entries@) =~= before + below);
    while i < children.len()
        invariant
            i <= children@.len(),
            levels_remaining >= 2,
            levels == levels_remaining - 1,
            leaf == (|p: u16|
                leaf_page(data@, page_at(BTREE_HEADER_SIZE as int, page_size, p), page_size)),
            index == (|p: u16|
                index_page(data@, page_at(BTREE_HEADER_SIZE as int, page_size, p), page_size)),
            index(page_index) == Ok::<Seq<u16>, ErrorView>(children@),
            views(entries@) == before + below,
            walk_all(leaf, index, children@.take(i as int), levels) == Ok::<
                Seq<(u32, Seq<char>)>,
                ErrorView,
            >(below),
        decreases children@.len() - i,
    {
        let child: u16 = children[i];
        let ghost upto = children@.take(i + 1);
        assert(upto.drop_last() =~= children@.take(i as int));
        assert(upto.last() == child);
        match collect_title_entries(data, page_size, child, levels_remaining - 1, entries) {
            Ok(_) => {},
            Err(e) => {
                proof {
                    lemma_walk_all_prefix_error(leaf, index, children@, levels, i + 1);
                }
                return Err(e);
            },
        }
        proof {
            let more = walk(leaf, index, child, levels)->Ok_0;
            assert(before + (below + more) =~= before + below + more);
            below = below + more;
        }
        i += 1;
    }
    assert(children@.take(i as int) =~= children@);
    Ok(())
}

/// Puts the entries into the order of their offsets.
fn sort_by_offset(entries: Vec<(u32, String)>) -> (sorted: Vec<(u32, String)>)
    ensures
        views(sorted@) == in_order(views(entries@)),
{
    let mut sorted: Vec<(u32, String)> = Vec::new();
    let mut i: usize = 0;
    let ghost all = views(entries@);
    assert(views(sorted@) =~= in_order(all.take(0)));
    while i < entries.len()
        invariant
            i <= entries@.len(),
            all == views(entries@),
            views(sorted@) == in_order(all.take(i as int)),
        decreases entries@.len() - i,
    {
        let offset: u32 = entries[i].0;
        let title: String = entries[i].1.clone();
        let mut at: usize = sorted.len();
        assert(views(sorted@).take(at as int) =~= views(sorted@));
        while at > 0 && sorted[at - 1].0 > offset
            invariant
                at <= sorted@.len(),
                place_of(views(sorted@).take(at as int), offset) == place_of(
                    views(sorted@),
                    offset,
                ),
            decreases at,
        {
            assert(views(sorted@).take(at as int).drop_last() =~= views(sorted@).take(at - 1));
            at -= 1;
        }
        proof {
            let upto = all.take(i + 1);
            assert(upto.drop_last() =~= all.take(i as int));
            assert(upto.last() == (offset, title@));
            assert(at == place_of(views(sorted@), offset)) by {
                let front = views(sorted@).take(at as int);
                assert(front.len() > 0 ==> front.last() == sorted@[at - 1]@);
            }
            assert(views(sorted@.insert(at as int, (offset, title))) =~= views(sorted@).insert(
                at as int,
                (offset, title@),
            ));
        }
        sorted.insert(at, (offset, title));
        i += 1;
    }
    assert(all.take(i as int) =~= all);
    sorted
}

impl TitleIndex {
    /// Parses the bytes of the `|TTLBTREE` internal file.
    ///
    /// A page whose header is past the end of the data is past the end itself.
    pub fn from_bytes(data: &[u8]) -> (r: Result<Self, Error>)
        ensures
            match r {
                Ok(t) => titles_result(data@) == Ok::<Seq<(u32, Seq<char>)>, ErrorView>(t@),
                Err(e) => titles_result(data@) == Err::<Seq<(u32, Seq<char>)>, ErrorView>(e@),
            },
    {
        if data.len() < BTREE_HEADER_SIZE {
            return Err(new_bad_file("|TTLBTREE", "too small for B-tree header"));
        }
        let magic: u16 = u16_at(data, 0);
        if magic != BTREE_MAGIC {
            let mut detail: String = "bad B-tree magic: 0x".to_owned();
            push_hex_padded(&mut detail, magic as u64, 4);
            return Err(new_bad_file("|TTLBTREE", detail.as_str()));
        }
        let page_size: u16 = u16_at(data, 4);
        let root_page: u16 = u16_at(data, 0x1A);
        let num_levels: u16 = u16_at(data, 0x20);
        if num_levels == 0 {
            return Ok(TitleIndex::empty());
        }
        let mut entries: Vec<(u32, String)> = Vec::new();
        assert(views(entries@) =~= Seq::empty());
        match collect_title_entries(data, page_size, root_page, num_levels, &mut entries) {
            Ok(_) => {},
            Err(e) => {
                return Err(e);
            },
        }
        proof {
            let s = titles_below(data@, page_size, root_page, num_levels as nat)->Ok_0;
            assert(Seq::<(u32, Seq<char>)>::empty() + s =~= s);
        }
        Ok(TitleIndex { entries: sort_by_offset(entries) })
    }

    /// An empty title index.
    pub fn empty() -> (t: Self)
        ensures
            t@ == Seq::<(u32, Seq<char>)>::empty(),
    {
        let t = TitleIndex { entries: Vec::new() };
        assert(t@ =~= Seq::empty());
        t
    }

    /// All entries as pairs of an offset and a title, in the order of the
    /// offsets.
    pub fn titles_in_order(&self) -> (r: &[(u32, String)])
        ensures
            views(r@) == self@,
    {
        self.entries.as_slice()
    }

    /// The title of the topic with the given offset.
    pub fn get_title(&self, offset: u32) -> (r: Option<&str>)
        ensures
            match r {
                Some(title) => title_at(self@, offset) == Some(title@),
                None => title_at(self@, offset) == None::<Seq<char>>,
            },
    {
        let mut i: usize = 0;
        assert(self@.skip(0) =~= self@);
        while i < self.entries.len()
            invariant
                i <= self.entries@.len(),
                self@ == views(self.entries@),
                title_at(self@.skip(i as int), offset) == title_at(self@, offset),
            decreases self.entries@.len() - i,
        {
            assert(self@.skip(i as int)[0] == self.entries@[i as int]@);
            assert(self@.skip(i as int).skip(1) =~= self@.skip(i + 1));
            if self.entries[i].0 == offset {
                return Some(self.entries[i].1.as_str());
            }
            i += 1;
        }
        None
    }

    /// Number of entries.
    pub fn len(&self) -> (n: usize)
        ensures
            n == self@.len(),
    {
        self.entries.len()
    }

    /// Whether the index is empty.
    pub fn is_empty(&self) -> (b: bool)
        ensures
            b == (self@.len() == 0),
    {
        self.entries.is_empty()
    }
}

} // verus!
