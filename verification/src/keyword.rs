//! The keyword index of the `|KWBTREE` and `|KWDATA` internal files.
//!
//! `|KWBTREE` is a B-tree of keywords with 32-bit offsets into `|KWDATA`, where
//! a 16-bit count and as many 32-bit topic offsets stand.

use vstd::prelude::*;

use crate::btree::{lemma_walk_all_prefix_error, page_at, page_offset, walk, walk_all, BTREE_MAGIC};
use crate::bytes::{find_nul_before, le16, le32, nul_before, text_between, text_of, u16_at, u32_at};
use crate::container::BTREE_HEADER_SIZE;
use crate::context::has_counters;
use crate::error::{bad_file, new_bad_file, new_parse_error, parse_error, prefixed, ErrorView};
use crate::text::{decimal, hex_upper, push_decimal, push_hex_padded, push_str, zero_padded};
use crate::views::{lemma_views_push, views};
use crate::Error;

verus! {

/// A keyword with its topic offsets as `|KWDATA` holds them.
#[derive(Debug, Clone)]
pub struct RawKeywordEntry {
    /// The keyword.
    pub keyword: String,
    /// Topic offsets.
    pub topic_offsets: Vec<u32>,
}

/// A raw keyword entry with its keyword as a sequence of characters.
pub struct RawKeywordEntryView {
    pub keyword: Seq<char>,
    pub topic_offsets: Seq<u32>,
}

impl View for RawKeywordEntry {
    type V = RawKeywordEntryView;

    open spec fn view(&self) -> RawKeywordEntryView {
        RawKeywordEntryView { keyword: self.keyword@, topic_offsets: self.topic_offsets@ }
    }
}

/// The keyword index of `|KWBTREE` and `|KWDATA`.
#[derive(Debug, Clone)]
pub struct KeywordIndex {
    entries: Vec<RawKeywordEntry>,
}

impl View for KeywordIndex {
    type V = Seq<RawKeywordEntryView>;

    closed spec fn view(&self) -> Seq<RawKeywordEntryView> {
        views(self.entries@)
    }
}

// ---------------------------------------------------------------------------
// What the bytes mean
// ---------------------------------------------------------------------------

/// The topic offsets at `offset` in `|KWDATA`.
pub open spec fn kwdata_result(kwdata: Seq<u8>, offset: int) -> Result<Seq<u32>, ErrorView> {
    if offset + 2 > kwdata.len() {
        Err(parse_error(offset, "KWDATA entry past EOF"@))
    } else {
        let count = le16(kwdata, offset) as nat;
        if offset + 2 + 4 * count > kwdata.len() {
            Err(
                parse_error(
                    offset,
                    "KWDATA entry needs "@ + decimal(4 * count) + " bytes but only "@ + decimal(
                        (kwdata.len() - (offset + 2)) as nat,
                    ) + " available"@,
                ),
            )
        } else {
            Ok(Seq::new(count, |i: int| le32(kwdata, offset + 2 + 4 * i)))
        }
    }
}

/// Behind a string that starts at `pos`: past its NUL byte, or at `end`.
pub open spec fn after_string(data: Seq<u8>, pos: int, end: int) -> int {
    if nul_before(data, pos, end) < end {
        nul_before(data, pos, end) + 1
    } else {
        end
    }
}

/// At most `n` keywords from `pos` on, up to `end`. An offset that is cut off
/// ends the page.
pub open spec fn leaf_keywords(
    data: Seq<u8>,
    kwdata: Seq<u8>,
    pos: int,
    end: int,
    n: nat,
) -> Result<Seq<RawKeywordEntryView>, ErrorView>
    decreases n,
{
    let at = after_string(data, pos, end);
    if n == 0 || pos >= end || at + 4 > end {
        Ok(Seq::empty())
    } else {
        match kwdata_result(kwdata, le32(data, at) as int) {
            Err(e) => Err(e),
            Ok(topic_offsets) => prefixed(
                seq![
                    RawKeywordEntryView {
                        keyword: text_of(data.subrange(pos, nul_before(data, pos, end))),
                        topic_offsets,
                    },
                ],
                leaf_keywords(data, kwdata, at + 4, end, (n - 1) as nat),
            ),
        }
    }
}

/// The keywords of the leaf page at byte `at`.
pub open spec fn leaf_page(data: Seq<u8>, kwdata: Seq<u8>, at: int, page_size: u16) -> Result<
    Seq<RawKeywordEntryView>,
    ErrorView,
> {
    if data.len() < at + page_size || data.len() < at + 4 {
        Err(parse_error(at, "KWBTREE leaf page past EOF"@))
    } else {
        leaf_keywords(data, kwdata, at + 4, at + page_size, le16(data, at + 2) as nat)
    }
}

/// Where the child page stands whose key is at `pos`: behind the key and, with
/// `counters`, behind a 16-bit counter where there is room for one.
pub open spec fn child_at(data: Seq<u8>, pos: int, end: int, counters: bool) -> int {
    let at = after_string(data, pos, end);
    if counters && at + 2 <= end {
        at + 2
    } else {
        at
    }
}

/// At most `n` child pages from `pos` on, up to `end`.
pub open spec fn index_children(
    data: Seq<u8>,
    pos: int,
    end: int,
    counters: bool,
    n: nat,
) -> Seq<u16>
    decreases n,
{
    let at = child_at(data, pos, end, counters);
    if n == 0 || at + 2 > end {
        Seq::empty()
    } else {
        seq![le16(data, at)] + index_children(data, at + 2, end, counters, (n - 1) as nat)
    }
}

/// The child pages of the index page at byte `at`. A page without room for its
/// first child has none.
pub open spec fn index_page(data: Seq<u8>, at: int, page_size: u16, counters: bool) -> Result<
    Seq<u16>,
    ErrorView,
> {
    if data.len() < at + page_size || data.len() < at + 4 {
        Err(parse_error(at, "KWBTREE index page past EOF"@))
    } else if page_size < 6 {
        Ok(Seq::empty())
    } else {
        Ok(
            seq![le16(data, at + 4)] + index_children(
                data,
                at + 6,
                at + page_size,
                counters,
                le16(data, at + 2) as nat,
            ),
        )
    }
}

/// The keywords below a page.
pub open spec fn keywords_below(
    data: Seq<u8>,
    kwdata: Seq<u8>,
    page_size: u16,
    counters: bool,
    page: u16,
    levels: nat,
) -> Result<Seq<RawKeywordEntryView>, ErrorView> {
    walk(
        |p: u16|
            leaf_page(data, kwdata, page_at(BTREE_HEADER_SIZE as int, page_size, p), page_size),
        |p: u16|
            index_page(data, page_at(BTREE_HEADER_SIZE as int, page_size, p), page_size, counters),
        page,
        levels,
    )
}

/// The keywords that the bytes of `|KWBTREE` and `|KWDATA` hold, in order.
pub open spec fn keywords_result(data: Seq<u8>, kwdata: Seq<u8>) -> Result<
    Seq<RawKeywordEntryView>,
    ErrorView,
> {
    if data.len() < BTREE_HEADER_SIZE {
        Err(bad_file("|KWBTREE"@, "too small for B-tree header"@))
    } else if le16(data, 0) != BTREE_MAGIC {
        Err(
            bad_file(
                "|KWBTREE"@,
                "bad B-tree magic: 0x"@ + zero_padded(hex_upper(le16(data, 0) as nat), 4),
            ),
        )
    } else if le16(data, 0x20) == 0 {
        Ok(Seq::empty())
    } else {
        keywords_below(
            data,
            kwdata,
            le16(data, 4),
            has_counters(le16(data, 2)),
            le16(data, 0x1A),
            le16(data, 0x20) as nat,
        )
    }
}

// ---------------------------------------------------------------------------
// Reading
// ---------------------------------------------------------------------------

/// Reads the topic offsets at `offset` in `|KWDATA`.
pub fn read_kwdata_entry(kwdata: &[u8], offset: u32) -> (r: Result<Vec<u32>, Error>)
    ensures
        match r {
            Ok(v) => kwdata_result(kwdata@, offset as int) == Ok::<Seq<u32>, ErrorView>(v@),
            Err(e) => kwdata_result(kwdata@, offset as int) == Err::<Seq<u32>, ErrorView>(e@),
        },
{
    let len: u64 = kwdata.len() as u64;
    if offset as u64 + 2 > len {
        return Err(new_parse_error(offset as u64, "KWDATA entry past EOF"));
    }
    let at: usize = offset as usize;
    let count: u16 = u16_at(kwdata, at);
    let start: usize = at + 2;
    if 4 * (count as u64) > len - start as u64 {
        let mut detail: String = "KWDATA entry needs ".to_owned();
        push_decimal(&mut detail, 4 * (count as u64));
        push_str(&mut detail, " bytes but only ");
        push_decimal(&mut detail, len - start as u64);
        push_str(&mut detail, " available");
        return Err(new_parse_error(offset as u64, detail.as_str()));
    }
    let mut offsets: Vec<u32> = Vec::new();
    let mut i: usize = 0;
    while i < count as usize
        invariant
            i <= count,
            start == offset + 2,
            start + 4 * count <= kwdata@.len() <= usize::MAX,
            offsets@.len() == i,
            forall|k: int|
                0 <= k < i ==> #[trigger] offsets@[k] == le32(kwdata@, offset + 2 + 4 * k),
        decreases count - i,
    {
        offsets.push(u32_at(kwdata, start + 4 * i));
        i += 1;
    }
    assert(offsets@ =~= Seq::new(count as nat, |i: int| le32(kwdata@, offset + 2 + 4 * i)));
    Ok(offsets)
}

/// Parses a leaf page and appends its keywords.
fn parse_kw_leaf(
    btree: &[u8],
    kwdata: &[u8],
    page_offset: u64,
    page_size: u16,
    entries: &mut Vec<RawKeywordEntry>,
) -> (r: Result<(), Error>)
    requires
        page_offset <= 0x2_0000_0000_0000,
    ensures
        match r {
            Ok(_) => leaf_page(btree@, kwdata@, page_offset as int, page_size) is Ok && views(
                final(entries)@,
            ) == views(old(entries)@) + leaf_page(
                btree@,
                kwdata@,
                page_offset as int,
                page_size,
            )->Ok_0,
            Err(e) => leaf_page(btree@, kwdata@, page_offset as int, page_size) == Err::<
                Seq<RawKeywordEntryView>,
                ErrorView,
            >(e@),
        },
{
    let len: u64 = btree.len() as u64;
    if len < page_offset + page_size as u64 || len < page_offset + 4 {
        return Err(new_parse_error(page_offset, "KWBTREE leaf page past EOF"));
    }
    let at: usize = page_offset as usize;
    let page_end: usize = at + page_size as usize;
    let num_entries: u16 = u16_at(btree, at + 2);
    let mut pos: usize = at + 4;
    let mut i: u16 = 0;
    let ghost before = views(entries@);
    let ghost all = leaf_keywords(btree@, kwdata@, at + 4, page_end as int, num_entries as nat);
    let ghost done: Seq<RawKeywordEntryView> = Seq::empty();
    proof {
        assert(before + done =~= before);
        if let Ok(s) = all {
            assert(done + s =~= s);
        }
    }
    while i < num_entries && pos < page_end
        invariant
            i <= num_entries,
            page_end <= btree@.len(),
            all == leaf_page(btree@, kwdata@, page_offset as int, page_size),
            views(entries@) == before + done,
            views(old(entries)@) == before,
            all == prefixed(
                done,
                leaf_keywords(
                    btree@,
                    kwdata@,
                    pos as int,
                    page_end as int,
                    (num_entries - i) as nat,
                ),
            ),
        decreases num_entries - i,
    {
        let nul: usize = find_nul_before(btree, pos, page_end);
        let keyword: String = text_between(btree, pos, nul);
        let next: usize = if nul < page_end {
            nul + 1
        } else {
            nul
        };
        if page_end - next < 4 {
            assert(done + Seq::<RawKeywordEntryView>::empty() =~= done);
            return Ok(());
        }
        let topic_offsets: Vec<u32> = match read_kwdata_entry(kwdata, u32_at(btree, next)) {
            Ok(v) => v,
            Err(e) => {
                return Err(e);
            },
        };
        let entry = RawKeywordEntry { keyword, topic_offsets };
        proof {
            lemma_views_push(entries@, entry);
            let more = done.push(entry@);
            assert((before + done).push(entry@) =~= before + more);
            let rest = leaf_keywords(
                btree@,
                kwdata@,
                next + 4,
                page_end as int,
                (num_entries - i - 1) as nat,
            );
            if let Ok(s) = rest {
                assert(done + (seq![entry@] + s) =~= more + s);
            }
            done = more;
        }
        entries.push(entry);
        pos = next + 4;
        i += 1;
    }
    assert(done + Seq::<RawKeywordEntryView>::empty() =~= done);
    Ok(())
}

/// Parses an index page: the child pages, left to right.
fn parse_kw_index_page(
    btree: &[u8],
    page_offset: u64,
    page_size: u16,
    counters: bool,
) -> (r: Result<Vec<u16>, Error>)
    requires
        page_offset <= 0x2_0000_0000_0000,
    ensures
        match r {
            Ok(children) => index_page(btree@, page_offset as int, page_size, counters) == Ok::<
                Seq<u16>,
                ErrorView,
            >(children@),
            Err(e) => index_page(btree@, page_offset as int, page_size, counters) == Err::<
                Seq<u16>,
                ErrorView,
            >(e@),
        },
{
    let len: u64 = btree.len() as u64;
    if len < page_offset + page_size as u64 || len < page_offset + 4 {
        return Err(new_parse_error(page_offset, "KWBTREE index page past EOF"));
    }
    let at: usize = page_offset as usize;
    let page_end: usize = at + page_size as usize;
    let num_entries: u16 = u16_at(btree, at + 2);
    let mut children: Vec<u16> = Vec::new();
    if page_size < 6 {
        assert(children@ =~= Seq::empty());
        return Ok(children);
    }
    children.push(u16_at(btree, at + 4));
    let mut pos: usize = at + 6;
    let mut i: u16 = 0;
    let ghost all = index_page(btree@, page_offset as int, page_size, counters)->Ok_0;
    assert(children@ =~= seq![le16(btree@, at + 4)]);
    while i < num_entries
        invariant
            i <= num_entries,
            pos <= page_end <= btree@.len(),
            index_page(btree@, page_offset as int, page_size, counters) == Ok::<
                Seq<u16>,
                ErrorView,
            >(all),
            all == children@ + index_children(
                btree@,
                pos as int,
                page_end as int,
                counters,
                (num_entries - i) as nat,
            ),
        decreases num_entries - i,
    {
        let nul: usize = find_nul_before(btree, pos, page_end);
        let mut next: usize = if nul < page_end {
            nul + 1
        } else {
            nul
        };
        if counters && page_end - next >= 2 {
            next += 2;
        }
        if page_end - next < 2 {
            assert(children@ + Seq::<u16>::empty() =~= children@);
            return Ok(children);
        }
        let child: u16 = u16_at(btree, next);
        let ghost before = children@;
        children.push(child);
        pos = next + 2;
        i += 1;
        proof {
            let rest = index_children(
                btree@,
                pos as int,
                page_end as int,
                counters,
                (num_entries - i) as nat,
            );
            assert(before + (seq![child] + rest) =~= children@ + rest);
        }
    }
    assert(children@ + Seq::<u16>::empty() =~= children@);
    Ok(children)
}

/// The two files of the keyword index, and how the tree is laid out.
struct KwBTreeCtx<'a> {
    btree: &'a [u8],
    kwdata: &'a [u8],
    page_size: u16,
    counters: bool,
}

/// Walks the tree and appends the keywords of its leaf pages.
fn collect_kw_entries(
    ctx: &KwBTreeCtx<'_>,
    page_index: u16,
    levels_remaining: u16,
    entries: &mut Vec<RawKeywordEntry>,
) -> (r: Result<(), Error>)
    requires
        levels_remaining >= 1,
    ensures
        ({
            let below = keywords_below(
                ctx.btree@,
                ctx.kwdata@,
                ctx.page_size,
                ctx.counters,
                page_index,
                levels_remaining as nat,
            );
            match r {
                Ok(_) => below is Ok && views(final(entries)@) == views(old(entries)@)
                    + below->Ok_0,
                Err(e) => below == Err::<Seq<RawKeywordEntryView>, ErrorView>(e@),
            }
        }),
    decreases levels_remaining,
{
    let ghost (data, kwdata, page_size, counters) = (
        ctx.btree@,
        ctx.kwdata@,
        ctx.page_size,
        ctx.counters,
    );
    let ghost leaf = |p: u16|
        leaf_page(data, kwdata, page_at(BTREE_HEADER_SIZE as int, page_size, p), page_size);
    let ghost index = |p: u16|
        index_page(data, page_at(BTREE_HEADER_SIZE as int, page_size, p), page_size, counters);
    let at: u64 = page_offset(BTREE_HEADER_SIZE as u64, ctx.page_size, page_index);
    if levels_remaining == 1 {
        return parse_kw_leaf(ctx.btree, ctx.kwdata, at, ctx.page_size, entries);
    }
    let children: Vec<u16> = match parse_kw_index_page(
        ctx.btree,
        at,
        ctx.page_size,
        ctx.counters,
    ) {
        Ok(v) => v,
        Err(e) => {
            return Err(e);
        },
    };
    let ghost before = views(entries@);
    let ghost below: Seq<RawKeywordEntryView> = Seq::empty();
    let ghost levels = (levels_remaining - 1) as nat;
    let mut i: usize = 0;
    assert(children@.take(0) =~= Seq::empty());
    assert(views(entries@) =~= before + below);
    while i < children.len()
        invariant
            i <= children@.len(),
            levels_remaining >= 2,
            levels == levels_remaining - 1,
            data == ctx.btree@,
            kwdata == ctx.kwdata@,
            page_size == ctx.page_size,
            counters == ctx.counters,
            leaf == (|p: u16|
                leaf_page(
                    data,
                    kwdata,
                    page_at(BTREE_HEADER_SIZE as int, page_size, p),
                    page_size,
                )),
            index == (|p: u16|
                index_page(
                    data,
                    page_at(BTREE_HEADER_SIZE as int, page_size, p),
                    page_size,
                    counters,
                )),
            index(page_index) == Ok::<Seq<u16>, ErrorView>(children@),
            views(old(entries)@) == before,
            views(entries@) == before + below,
            walk_all(leaf, index, children@.take(i as int), levels) == Ok::<
                Seq<RawKeywordEntryView>,
                ErrorView,
            >(below),
        decreases children@.len() - i,
    {
        let child: u16 = children[i];
        let ghost upto = children@.take(i + 1);
        assert(upto.drop_last() =~= children@.take(i as int));
        assert(upto.last() == child);
        match collect_kw_entries(ctx, child, levels_remaining - 1, entries) {
            Ok(_) => {},
            Err(e) => {
                proof {
                    lemma_walk_all_prefix_error(leaf, index, children@, levels, i + 1);
                }
                return Err(e);
            },
        }
        proof {
            let more = walk(leaf, index, child, levels)->Ok_0;
            assert(before + (below + more) =~= before + below + more);
            below = below + more;
        }
        i += 1;
    }
    assert(children@.take(i as int) =~= children@);
    Ok(())
}

impl KeywordIndex {
    /// Parses the bytes of the `|KWBTREE` and `|KWDATA` internal files.
    ///
    /// A page whose header is past the end of the data is past the end itself.
    pub fn from_bytes(kwbtree: &[u8], kwdata: &[u8]) -> (r: Result<Self, Error>)
        ensures
            match r {
                Ok(index) => keywords_result(kwbtree@, kwdata@) == Ok::<
                    Seq<RawKeywordEntryView>,
                    ErrorView,
                >(index@),
                Err(e) => keywords_result(kwbtree@, kwdata@) == Err::<
                    Seq<RawKeywordEntryView>,
                    ErrorView,
                >(e@),
            },
    {
        if kwbtree.len() < BTREE_HEADER_SIZE {
            return Err(new_bad_file("|KWBTREE", "too small for B-tree header"));
        }
        let magic: u16 = u16_at(kwbtree, 0);
        if magic != BTREE_MAGIC {
            let mut detail: String = "bad B-tree magic: 0x".to_owned();
            push_hex_padded(&mut detail, magic as u64, 4);
            return Err(new_bad_file("|KWBTREE", detail.as_str()));
        }
        let flags: u16 = u16_at(kwbtree, 2);
        let root_page: u16 = u16_at(kwbtree, 0x1A);
        let num_levels: u16 = u16_at(kwbtree, 0x20);
        let ctx = KwBTreeCtx {
            btree: kwbtree,
            kwdata,
            page_size: u16_at(kwbtree, 4),
            counters: (flags / 1024) % 2 == 1,
        };
        let mut entries: Vec<RawKeywordEntry> = Vec::new();
        assert(views(entries@) =~= Seq::empty());
        if num_levels > 0 {
            match collect_kw_entries(&ctx, root_page, num_levels, &mut entries) {
                Ok(_) => {},
                Err(e) => {
                    return Err(e);
                },
            }
            proof {
                let s = keywords_result(kwbtree@, kwdata@)->Ok_0;
                assert(Seq::<RawKeywordEntryView>::empty() + s =~= s);
            }
        }
        Ok(KeywordIndex { entries })
    }

    /// An empty keyword index.
    pub fn empty() -> (index: Self)
        ensures
            index@ == Seq::<RawKeywordEntryView>::empty(),
    {
        let index = KeywordIndex { entries: Vec::new() };
        assert(index@ =~= Seq::empty());
        index
    }

    /// The raw keyword entries.
    pub fn entries(&self) -> (r: &[RawKeywordEntry])
        ensures
            views(r@) == self@,
    {
        self.entries.as_slice()
    }

    /// Number of keywords in the index.
    pub fn len(&self) -> (n: usize)
        ensures
            n == self@.len(),
    {
        self.entries.len()
    }

    /// Whether the index has no entries.
    pub fn is_empty(&self) -> (b: bool)
        ensures
            b == (self@.len() == 0),
    {
        self.entries.is_empty()
    }
}

} // verus!
