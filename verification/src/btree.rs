//! The B-tree that the internal files share: a walk from the root page down
//! to the leaf pages, left to right.

use vstd::prelude::*;

use crate::error::ErrorView;

verus! {

/// The magic number at the start of every B-tree.
pub const BTREE_MAGIC: u16 = 0x293B;

/// The entries of the tree below `page`, in key order, where `levels` levels
/// of pages are left. `leaf` gives the entries of a leaf page and `index` the
/// child pages of an index page; the first page that cannot be read decides
/// the error.
pub open spec fn walk<T>(
    leaf: spec_fn(u16) -> Result<Seq<T>, ErrorView>,
    index: spec_fn(u16) -> Result<Seq<u16>, ErrorView>,
    page: u16,
    levels: nat,
) -> Result<Seq<T>, ErrorView>
    decreases levels, 0nat,
{
    if levels <= 1 {
        leaf(page)
    } else {
        match index(page) {
            Err(e) => Err(e),
            Ok(children) => walk_all(leaf, index, children, (levels - 1) as nat),
        }
    }
}

/// The entries below each of `pages`, one after the other.
pub open spec fn walk_all<T>(
    leaf: spec_fn(u16) -> Result<Seq<T>, ErrorView>,
    index: spec_fn(u16) -> Result<Seq<u16>, ErrorView>,
    pages: Seq<u16>,
    levels: nat,
) -> Result<Seq<T>, ErrorView>
    decreases levels, pages.len(),
{
    if pages.len() == 0 {
        Ok(Seq::empty())
    } else {
        match walk_all(leaf, index, pages.drop_last(), levels) {
            Err(e) => Err(e),
            Ok(before) => match walk(leaf, index, pages.last(), levels) {
                Err(e) => Err(e),
                Ok(below) => Ok(before + below),
            },
        }
    }
}

/// Where an error among the first `k` pages is also the error of all pages.
pub proof fn lemma_walk_all_prefix_error<T>(
    leaf: spec_fn(u16) -> Result<Seq<T>, ErrorView>,
    index: spec_fn(u16) -> Result<Seq<u16>, ErrorView>,
    pages: Seq<u16>,
    levels: nat,
    k: int,
)
    requires
        0 <= k <= pages.len(),
        walk_all(leaf, index, pages.take(k), levels) is Err,
    ensures
        walk_all(leaf, index, pages, levels) == walk_all(leaf, index, pages.take(k), levels),
    decreases pages.len(),
{
    if k == pages.len() {
        assert(pages.take(k) =~= pages);
    } else {
        assert(pages.drop_last().take(k) =~= pages.take(k));
        lemma_walk_all_prefix_error(leaf, index, pages.drop_last(), levels, k);
    }
}

/// The byte offset of a page.
pub open spec fn page_at(pages_start: int, page_size: u16, page: u16) -> int {
    pages_start + page as int * page_size as int
}

/// Computes the byte offset of a page.
pub fn page_offset(pages_start: u64, page_size: u16, page: u16) -> (r: u64)
    requires
        pages_start <= 0x1_0000_0000_0000,
    ensures
        r == page_at(pages_start as int, page_size, page),
        pages_start <= r <= 0x2_0000_0000_0000,
{
    assert(0 <= page as int * page_size as int <= 65535 * 65535) by (nonlinear_arith)
        requires
            0 <= page <= 65535,
            0 <= page_size <= 65535,
    ;
    pages_start + (page as u64) * (page_size as u64)
}

} // verus!
