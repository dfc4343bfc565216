//! What is refused: files and structures that are not what they should be, and
//! those that are cut off.

use vstd::prelude::*;

use crate::bitmap::{image_of, mrb_bmp, mrb_wmf, BitmapHeader};
use crate::bytes::{holds, le16, le32, nul_free, nul_from, lemma_nul_from};
use crate::container::{container_result, lookup, read_raw_result, read_result, ContainerView};
use crate::context::context_result;
use crate::error::ErrorView;
use crate::font::fonts_result;
use crate::hall::hall_result;
use crate::hotspot::{hotspots_of, shg_result, stringz_at};
use crate::imagefiles::{colors_by_header, container_with};
use crate::keyword::{keywords_result, kwdata_result};
use crate::phrase::{expanded, table_result, PhraseTableView};
use crate::pictures::{bitmap_header_bytes, bitmap_header_fits, BitmapExtras};
use crate::system::system_result;
use crate::title::titles_result;

verus! {

/// Whether a result is the refusal of the internal file with the given name.
pub open spec fn refuses<T>(r: Result<T, ErrorView>, file: Seq<char>) -> bool {
    r matches Err(ErrorView::BadInternalFile { name, .. }) && name == file
}

/// Whether a result says that something cannot be read at the given offset.
pub open spec fn stops_at<T>(r: Result<T, ErrorView>, at: int) -> bool {
    r matches Err(ErrorView::Parse { offset, .. }) && offset == at as u64
}

/// A file that does not start with the magic number, or is too short for it, is
/// no help file, and one whose directory is not there or no tree is none either.
pub proof fn law_other_files_are_refused(data: Seq<u8>)
    ensures
        data.len() < 8 ==> stops_at(container_result(data), 0),
        data.len() >= 8 && le32(data, 0) != 0x0003_5F3F ==> container_result(data) == Err::<
            ContainerView,
            ErrorView,
        >(ErrorView::BadMagic(le32(data, 0))),
        data.len() >= 8 && le32(data, 0) == 0x0003_5F3F && data.len() < le32(data, 4) + 47
            ==> container_result(data) is Err,
        data.len() >= 8 && le32(data, 0) == 0x0003_5F3F && data.len() >= le32(data, 4) + 47 && le16(
            data,
            le32(data, 4) + 9,
        ) != 0x293B ==> refuses(container_result(data), "(directory)"@),
{
}

/// A name that no file has is not found. A file whose place or whose content
/// reaches beyond the end of the help file is refused under its name.
pub proof fn law_missing_and_cut_off_files(c: ContainerView, file: Seq<char>)
    ensures
        (forall|j: int| 0 <= j < c.files.len() ==> (#[trigger] c.files[j]).name != file) ==> (
        read_result(c, file) == Err::<Seq<u8>, ErrorView>(ErrorView::FileNotFound(file))
            && read_raw_result(c, file) == Err::<Seq<u8>, ErrorView>(
            ErrorView::FileNotFound(file),
        )),
        lookup(c.files, file) matches Some(offset) ==> (c.data.len() < offset + 9 || c.data.len()
            < offset + 9 + le32(c.data, offset + 4)) ==> refuses(read_result(c, file), file)
            && refuses(read_raw_result(c, file), file),
{
    if forall|j: int| 0 <= j < c.files.len() ==> (#[trigger] c.files[j]).name != file {
        lemma_not_found(c.files, file);
    }
}

proof fn lemma_not_found(files: Seq<crate::container::InternalFileView>, name: Seq<char>)
    requires
        forall|j: int| 0 <= j < files.len() ==> (#[trigger] files[j]).name != name,
    ensures
        lookup(files, name) is None,
    decreases files.len(),
{
    if files.len() > 0 {
        assert(files[files.len() - 1].name != name);
        let shorter = files.drop_last();
        assert forall|j: int| 0 <= j < shorter.len() implies (#[trigger] shorter[j]).name
            != name by {
            assert(files[j].name != name);
        }
        lemma_not_found(shorter, name);
    }
}

/// A page that reaches beyond the end of its tree stops the reading of the tree.
pub proof fn law_pages_past_the_end(data: Seq<u8>, kwdata: Seq<u8>, at: int, page_size: u16, counters: bool)
    requires
        0 <= at,
        data.len() < at + page_size,
    ensures
        stops_at(crate::container::leaf_page(data, at, page_size), at),
        stops_at(crate::container::index_page(data, at, page_size), at),
        stops_at(crate::context::leaf_page(data, at, page_size), at),
        stops_at(crate::context::index_page(data, at, page_size, counters), at),
        stops_at(crate::title::leaf_page(data, at, page_size), at),
        stops_at(crate::title::index_page(data, at, page_size), at),
        stops_at(crate::keyword::leaf_page(data, kwdata, at, page_size), at),
        stops_at(crate::keyword::index_page(data, at, page_size, counters), at),
{
}

/// An internal file that is too short for its header, or has the wrong magic
/// number, is refused under its name.
pub proof fn law_wrong_internal_files(data: Seq<u8>, other: Seq<u8>)
    ensures
        data.len() < 22 || le16(data, 0) != 0x293B ==> refuses(context_result(data), "|CONTEXT"@),
        data.len() < 38 || le16(data, 0) != 0x293B ==> refuses(titles_result(data), "|TTLBTREE"@),
        data.len() < 38 || le16(data, 0) != 0x293B ==> refuses(
            keywords_result(data, other),
            "|KWBTREE"@,
        ),
        data.len() < 6 || le16(data, 0) != 0x036C ==> refuses(system_result(data), "|SYSTEM"@),
        data.len() < 8 ==> refuses(fonts_result(data), "|FONT"@),
        data.len() < 2 ==> refuses(table_result(data, None, false), "|Phrases"@) && refuses(
            table_result(data, None, true),
            "|Phrases"@,
        ),
        data.len() < 28 ==> refuses(hall_result(data, other), "|PhrIndex"@),
{
}

/// Topic offsets that reach beyond the end of the keyword data stop the reading.
pub proof fn law_keyword_data_past_the_end(kwdata: Seq<u8>, at: int)
    requires
        0 <= at,
        kwdata.len() < at + 2 || kwdata.len() < at + 2 + 4 * le16(kwdata, at),
    ensures
        stops_at(kwdata_result(kwdata, at), at),
{
}

/// A token whose phrase the table does not have cannot be expanded, wherever it
/// stands behind bytes that stand for themselves.
pub proof fn law_unknown_phrases(table: PhraseTableView, front: Seq<u8>, a: u8, b: u8, rest: Seq<u8>)
    requires
        !table.hall,
        forall|i: int| 0 <= i < front.len() ==> (#[trigger] front[i] == 0 || front[i] >= 16),
        1 <= a < 16,
        (256 * (a - 1) + b) / 2 >= table.phrases.len(),
    ensures
        expanded(table, front + seq![a, b] + rest) matches Err(ErrorView::Decompression(_)),
{
    lemma_unknown_from(table.phrases, front, a, b, rest, 0);
}

proof fn lemma_unknown_from(
    phrases: Seq<Seq<u8>>,
    front: Seq<u8>,
    a: u8,
    b: u8,
    rest: Seq<u8>,
    pos: int,
)
    requires
        0 <= pos <= front.len(),
        forall|i: int| 0 <= i < front.len() ==> (#[trigger] front[i] == 0 || front[i] >= 16),
        1 <= a < 16,
        (256 * (a - 1) + b) / 2 >= phrases.len(),
    ensures
        crate::phrase::expanded_oldstyle(phrases, front + seq![a, b] + rest, pos) matches Err(
            ErrorView::Decompression(_),
        ),
    decreases front.len() - pos,
{
    let data = front + seq![a, b] + rest;
    if pos < front.len() {
        assert(data[pos] == front[pos]);
        lemma_unknown_from(phrases, front, a, b, rest, pos + 1);
    } else {
        assert(data[pos] == a && data[pos + 1] == b);
    }
}

/// A bitmap whose pixels are cut off is not decoded, and its file stays as it
/// is.
pub proof fn law_cut_off_bitmaps(
    data: Seq<u8>,
    at: u32,
    packing: u8,
    h: BitmapHeader,
    x: BitmapExtras,
)
    requires
        container_with(data, at, 6, packing),
        bitmap_header_fits(h, x),
        holds(data, at + 2, bitmap_header_bytes(h, x)),
        data.len() < at + 2 + bitmap_header_bytes(h, x).len() + 4 * colors_by_header(h)
            + h.data_size,
    ensures
        mrb_bmp(data) is None,
        image_of(data) == data,
        shg_result(data) is None,
{
    crate::imagefiles::lemma_container(data, at, 6, packing);
    crate::pictures::lemma_picture(data, at, 6, packing);
    crate::pictures::lemma_bitmap_header(data, at + 2, h, x);
    if h.bit_count <= 8 {
        crate::imagefiles::lemma_color_count(h.bit_count as int);
    }
    assert(mrb_wmf(data) is None);
}

/// A hotspot block that is too short, has another first byte, or whose records
/// reach beyond its end is malformed.
pub proof fn law_malformed_hotspots(block: Seq<u8>)
    ensures
        block.len() < 7 || block[0] != 1 ==> hotspots_of(block) is None,
        block.len() >= 7 && block.len() < 7 + 15 * le16(block, 1) + le32(block, 3) ==> hotspots_of(
            block,
        ) is None,
        block.len() >= 7 && le16(block, 1) > 0 && nul_free(block.skip(7 + 15 * le16(block, 1)
            + le32(block, 3))) ==> hotspots_of(block) is None,
{
    if block.len() >= 7 && le16(block, 1) > 0 {
        let at = 7 + 15 * le16(block, 1) + le32(block, 3);
        if at <= block.len() && nul_free(block.skip(at)) {
            lemma_nul_from(block, at);
            let nul = nul_from(block, at);
            if nul < block.len() {
                assert(block.skip(at)[nul - at] == block[nul]);
            }
            assert(stringz_at(block, at) is None);
        }
    }
}

} // verus!
