//! How pictures and hotspots lie in bytes, and that reading them gives back
//! what was laid out.

use vstd::prelude::*;

use crate::bitmap::{
    apm_file, bitmap_header, bmp_file, cdwords_at, dib_colors, dib_pixels, first_picture, is_mrb,
    metafile_header, monochrome, mrb_bmp, mrb_wmf, unpacked, BitmapHeader, MetafileHeader,
    MRB_TYPE_DDB, MRB_TYPE_DIB, MRB_TYPE_METAFILE,
};
use crate::bytes::{
    cstring, holds, le16, le16_bytes, le32, le32_bytes, lemma_holds_all, lemma_holds_cstring,
    lemma_holds_le16, lemma_holds_le32, lemma_holds_parts, nul_free, text_of,
};
use crate::cursor::{cdword_at, cword_at};
use crate::hotspot::{
    action_of, first_image, hotspot_at, hotspot_block, hotspot_span, hotspots_from, hotspots_of, shg_result,
    HotspotAction, HotspotRect, HotspotView, HOTSPOT_BLOCK_MAGIC, HOTSPOT_RECORD_LEN,
};

verus! {

// ---------------------------------------------------------------------------
// Compressed numbers
// ---------------------------------------------------------------------------

/// The bytes of a compressed word.
pub open spec fn cword_bytes(n: u32) -> Seq<u8> {
    if n < 0x80 {
        seq![(2 * n) as u8]
    } else {
        le16_bytes((2 * n + 1) as u16)
    }
}

/// The bytes of a compressed double word.
pub open spec fn cdword_bytes(n: u32) -> Seq<u8> {
    if n < 0x8000 {
        le16_bytes((2 * n) as u16)
    } else {
        le32_bytes((2 * n + 1) as u32)
    }
}

/// A compressed word is read back, wherever it is.
pub proof fn law_cword_is_read_back(data: Seq<u8>, at: int, n: u32)
    requires
        n < 0x8000,
        holds(data, at, cword_bytes(n)),
    ensures
        cword_at(data, at) == Some((n, at + cword_bytes(n).len())),
{
    let held = data.subrange(at, at + cword_bytes(n).len());
    assert(held[0] == data[at]);
    if n >= 0x80 {
        lemma_holds_le16(data, at, (2 * n + 1) as u16);
        assert(cword_bytes(n)[0] == (2 * n + 1) % 256);
    }
}

/// A compressed double word is read back, wherever it is.
pub proof fn law_cdword_is_read_back(data: Seq<u8>, at: int, n: u32)
    requires
        n < 0x8000_0000,
        holds(data, at, cdword_bytes(n)),
    ensures
        cdword_at(data, at) == Some((n, at + cdword_bytes(n).len())),
{
    if n < 0x8000 {
        lemma_holds_le16(data, at, (2 * n) as u16);
    } else {
        let held = data.subrange(at, at + 4);
        assert(held[0] == data[at] && held[1] == data[at + 1]);
        lemma_holds_le32(data, at, (2 * n + 1) as u32);
        assert(le16(data, at) % 2 == 1) by {
            assert(data[at] == (2 * n + 1) % 256);
        }
    }
}

/// The bytes of compressed double words, one after another.
pub open spec fn cdwords_bytes(v: Seq<u32>) -> Seq<u8>
    decreases v.len(),
{
    if v.len() == 0 {
        Seq::empty()
    } else {
        cdwords_bytes(v.drop_last()) + cdword_bytes(v.last())
    }
}

proof fn lemma_cdwords(data: Seq<u8>, at: int, v: Seq<u32>)
    requires
        0 <= at <= data.len(),
        holds(data, at, cdwords_bytes(v)),
        forall|i: int| 0 <= i < v.len() ==> #[trigger] v[i] < 0x8000_0000,
    ensures
        cdwords_at(data, at, v.len()) == Some((v, at + cdwords_bytes(v).len())),
    decreases v.len(),
{
    if v.len() > 0 {
        let front = v.drop_last();
        assert(v[v.len() - 1] < 0x8000_0000);
        lemma_holds_parts(data, at, cdwords_bytes(front), cdword_bytes(v.last()));
        lemma_cdwords(data, at, front);
        law_cdword_is_read_back(data, at + cdwords_bytes(front).len(), v.last());
        assert(front.push(v.last()) =~= v);
    } else {
        assert(v =~= Seq::empty());
    }
}

// ---------------------------------------------------------------------------
// Picture headers
// ---------------------------------------------------------------------------

/// The fields of a bitmap header that do not matter for decoding.
pub struct BitmapExtras {
    pub x_resolution: u32,
    pub y_resolution: u32,
    pub important: u32,
    pub picture_offset: u32,
    pub hotspot_offset: u32,
}

/// The bytes of a bitmap header.
pub open spec fn bitmap_header_bytes(h: BitmapHeader, x: BitmapExtras) -> Seq<u8> {
    cdwords_bytes(seq![x.x_resolution, x.y_resolution]) + (cword_bytes(h.planes) + (cword_bytes(
        h.bit_count,
    ) + (cdwords_bytes(
        seq![h.width, h.height, h.clr_used, x.important, h.data_size, h.hotspot_size],
    ) + (le32_bytes(x.picture_offset) + le32_bytes(x.hotspot_offset)))))
}

/// Whether the fields of a bitmap header fit into their compressed forms.
pub open spec fn bitmap_header_fits(h: BitmapHeader, x: BitmapExtras) -> bool {
    &&& h.planes < 0x8000
    &&& h.bit_count < 0x8000
    &&& h.width < 0x8000_0000
    &&& h.height < 0x8000_0000
    &&& h.clr_used < 0x8000_0000
    &&& h.data_size < 0x8000_0000
    &&& h.hotspot_size < 0x8000_0000
    &&& x.x_resolution < 0x8000_0000
    &&& x.y_resolution < 0x8000_0000
    &&& x.important < 0x8000_0000
}

pub proof fn lemma_bitmap_header(data: Seq<u8>, at: int, h: BitmapHeader, x: BitmapExtras)
    requires
        bitmap_header_fits(h, x),
        holds(data, at, bitmap_header_bytes(h, x)),
    ensures
        bitmap_header(data, at) == Some((h, at + bitmap_header_bytes(h, x).len())),
{
    let first = seq![x.x_resolution, x.y_resolution];
    let last = seq![h.width, h.height, h.clr_used, x.important, h.data_size, h.hotspot_size];
    let t5 = le32_bytes(x.picture_offset) + le32_bytes(x.hotspot_offset);
    let t4 = cdwords_bytes(last) + t5;
    let t3 = cword_bytes(h.bit_count) + t4;
    let t2 = cword_bytes(h.planes) + t3;
    lemma_holds_parts(data, at, cdwords_bytes(first), t2);
    let p2 = at + cdwords_bytes(first).len();
    lemma_holds_parts(data, p2, cword_bytes(h.planes), t3);
    let p3 = p2 + cword_bytes(h.planes).len();
    lemma_holds_parts(data, p3, cword_bytes(h.bit_count), t4);
    let p4 = p3 + cword_bytes(h.bit_count).len();
    lemma_holds_parts(data, p4, cdwords_bytes(last), t5);
    lemma_cdwords(data, at, first);
    law_cword_is_read_back(data, p2, h.planes);
    law_cword_is_read_back(data, p3, h.bit_count);
    lemma_cdwords(data, p4, last);
}

/// The fields of a metafile header that do not matter for decoding.
pub struct MetafileExtras {
    pub mapping_mode: u32,
    pub resolution: u32,
    pub picture_offset: u32,
    pub hotspot_offset: u32,
}

/// The bytes of a metafile header.
pub open spec fn metafile_header_bytes(h: MetafileHeader, x: MetafileExtras) -> Seq<u8> {
    cword_bytes(x.mapping_mode) + (le16_bytes(h.width) + (le16_bytes(h.height) + (cdwords_bytes(
        seq![x.resolution, h.data_size, h.hotspot_size],
    ) + (le32_bytes(x.picture_offset) + le32_bytes(x.hotspot_offset)))))
}

/// Whether the fields of a metafile header fit into their compressed forms.
pub open spec fn metafile_header_fits(h: MetafileHeader, x: MetafileExtras) -> bool {
    &&& x.mapping_mode < 0x8000
    &&& x.resolution < 0x8000_0000
    &&& h.data_size < 0x8000_0000
    &&& h.hotspot_size < 0x8000_0000
}

proof fn lemma_metafile_header(data: Seq<u8>, at: int, h: MetafileHeader, x: MetafileExtras)
    requires
        metafile_header_fits(h, x),
        holds(data, at, metafile_header_bytes(h, x)),
    ensures
        metafile_header(data, at) == Some((h, at + metafile_header_bytes(h, x).len())),
{
    let sizes = seq![x.resolution, h.data_size, h.hotspot_size];
    let t5 = le32_bytes(x.picture_offset) + le32_bytes(x.hotspot_offset);
    let t4 = cdwords_bytes(sizes) + t5;
    let t3 = le16_bytes(h.height) + t4;
    let t2 = le16_bytes(h.width) + t3;
    lemma_holds_parts(data, at, cword_bytes(x.mapping_mode), t2);
    let p2 = at + cword_bytes(x.mapping_mode).len();
    lemma_holds_parts(data, p2, le16_bytes(h.width), t3);
    lemma_holds_parts(data, p2 + 2, le16_bytes(h.height), t4);
    lemma_holds_parts(data, p2 + 4, cdwords_bytes(sizes), t5);
    law_cword_is_read_back(data, at, x.mapping_mode);
    lemma_holds_le16(data, p2, h.width);
    lemma_holds_le16(data, p2 + 2, h.height);
    lemma_cdwords(data, p2 + 4, sizes);
}

// ---------------------------------------------------------------------------
// Pictures
// ---------------------------------------------------------------------------

/// Whether a container starts with its magic number, holds a picture, and the
/// first picture is at `at`, with the given type and packing.
pub open spec fn picture_lies_at(data: Seq<u8>, at: u32, kind: u8, packing: u8) -> bool {
    &&& is_mrb(data)
    &&& data.len() >= 8
    &&& le16(data, 2) > 0
    &&& holds(data, 4, le32_bytes(at))
    &&& holds(data, at as int, seq![kind, packing])
}

pub proof fn lemma_picture(data: Seq<u8>, at: u32, kind: u8, packing: u8)
    requires
        picture_lies_at(data, at, kind, packing),
    ensures
        first_picture(data) == Some(at as int),
        data[at as int] == kind,
        data[at + 1] == packing,
        at + 2 <= data.len(),
{
    lemma_holds_le32(data, 4, at);
    let held = data.subrange(at as int, at + 2);
    assert(held[0] == data[at as int] && held[1] == data[at + 1]);
}

/// A bitmap with its own palette decodes to a BMP file with that palette and
/// with the pixels that its packed data stands for.
pub proof fn law_dib_is_read_back(
    data: Seq<u8>,
    at: u32,
    packing: u8,
    h: BitmapHeader,
    x: BitmapExtras,
    palette: Seq<u8>,
    packed: Seq<u8>,
    pixels: Seq<u8>,
)
    requires
        picture_lies_at(data, at, MRB_TYPE_DIB, packing),
        bitmap_header_fits(h, x),
        palette.len() == 4 * dib_colors(h),
        packed.len() == h.data_size,
        unpacked(packed, packing) == Some(pixels),
        holds(data, at + 2, bitmap_header_bytes(h, x) + (palette + packed)),
    ensures
        mrb_bmp(data) == Some(bmp_file(h, dib_colors(h) as u32, palette, pixels)),
{
    lemma_picture(data, at, MRB_TYPE_DIB, packing);
    let head = bitmap_header_bytes(h, x);
    lemma_holds_parts(data, at + 2, head, palette + packed);
    lemma_holds_parts(data, at + 2 + head.len(), palette, packed);
    lemma_bitmap_header(data, at + 2, h, x);
}

/// A monochrome bitmap without a palette decodes to a black and white BMP file
/// whose rows are aligned to four bytes.
pub proof fn law_ddb_is_read_back(
    data: Seq<u8>,
    at: u32,
    packing: u8,
    h: BitmapHeader,
    x: BitmapExtras,
    packed: Seq<u8>,
    pixels: Seq<u8>,
    rows: Seq<u8>,
)
    requires
        picture_lies_at(data, at, MRB_TYPE_DDB, packing),
        packing <= 1,
        bitmap_header_fits(h, x),
        h.bit_count == 1,
        packed.len() == h.data_size,
        unpacked(packed, packing) == Some(pixels),
        dib_pixels(pixels, h.width as int, h.height as int, 1) == Some(rows),
        holds(data, at + 2, bitmap_header_bytes(h, x) + packed),
    ensures
        mrb_bmp(data) == Some(bmp_file(h, 2, monochrome(), rows)),
{
    lemma_picture(data, at, MRB_TYPE_DDB, packing);
    let head = bitmap_header_bytes(h, x);
    lemma_holds_parts(data, at + 2, head, packed);
    lemma_bitmap_header(data, at + 2, h, x);
}

/// A metafile decodes to a placeable metafile of the same size, with the
/// content that its packed data stands for.
pub proof fn law_metafile_is_read_back(
    data: Seq<u8>,
    at: u32,
    packing: u8,
    h: MetafileHeader,
    x: MetafileExtras,
    packed: Seq<u8>,
    content: Seq<u8>,
)
    requires
        picture_lies_at(data, at, MRB_TYPE_METAFILE, packing),
        metafile_header_fits(h, x),
        packed.len() == h.data_size,
        unpacked(packed, packing) == Some(content),
        holds(data, at + 2, metafile_header_bytes(h, x) + packed),
    ensures
        mrb_wmf(data) == Some(apm_file(h.width, h.height, content)),
{
    lemma_picture(data, at, MRB_TYPE_METAFILE, packing);
    let head = metafile_header_bytes(h, x);
    lemma_holds_parts(data, at + 2, head, packed);
    lemma_metafile_header(data, at + 2, h, x);
}

// ---------------------------------------------------------------------------
// Hotspots
// ---------------------------------------------------------------------------

/// A hotspot as it is laid out.
pub struct StoredHotspot {
    pub id: (u8, u8, u8),
    pub rect: HotspotRect,
    pub hash: u32,
    pub name: Seq<u8>,
    pub target: Seq<u8>,
}

/// The hotspot that is laid out.
pub open spec fn hotspot_view(h: StoredHotspot) -> HotspotView {
    HotspotView {
        rect: h.rect,
        action: action_of(h.id.0, h.id.1, h.id.2),
        hash: h.hash,
        name: text_of(h.name),
        target: text_of(h.target),
    }
}

/// The hotspots that are laid out.
pub open spec fn hotspot_views(spots: Seq<StoredHotspot>) -> Seq<HotspotView> {
    spots.map_values(|h: StoredHotspot| hotspot_view(h))
}

/// The bytes of the record of a hotspot.
pub open spec fn hotspot_record(h: StoredHotspot) -> Seq<u8> {
    seq![h.id.0, h.id.1, h.id.2] + (le16_bytes(h.rect.x) + (le16_bytes(h.rect.y) + (le16_bytes(
        h.rect.w,
    ) + (le16_bytes(h.rect.h) + le32_bytes(h.hash)))))
}

/// The bytes of the records of hotspots, one after another.
pub open spec fn hotspot_records(spots: Seq<StoredHotspot>) -> Seq<u8>
    decreases spots.len(),
{
    if spots.len() == 0 {
        Seq::empty()
    } else {
        hotspot_record(spots[0]) + hotspot_records(spots.skip(1))
    }
}

/// The bytes of the strings of hotspots: name and target of each.
pub open spec fn hotspot_strings(spots: Seq<StoredHotspot>) -> Seq<u8>
    decreases spots.len(),
{
    if spots.len() == 0 {
        Seq::empty()
    } else {
        cstring(spots[0].name) + (cstring(spots[0].target) + hotspot_strings(spots.skip(1)))
    }
}

/// The bytes of a hotspot block: magic byte, number of hotspots, size of the
/// macro data, the records, the macro data and the strings.
pub open spec fn hotspot_block_bytes(spots: Seq<StoredHotspot>, macros: Seq<u8>) -> Seq<u8> {
    seq![HOTSPOT_BLOCK_MAGIC] + (le16_bytes(spots.len() as u16) + (le32_bytes(
        macros.len() as u32,
    ) + (hotspot_records(spots) + (macros + hotspot_strings(spots)))))
}

proof fn lemma_hotspot_record(block: Seq<u8>, at: int, h: StoredHotspot)
    requires
        holds(block, at, hotspot_record(h)),
    ensures
        hotspot_at(block, at, text_of(h.name), text_of(h.target)) == hotspot_view(h),
        hotspot_record(h).len() == HOTSPOT_RECORD_LEN,
{
    let t5 = le16_bytes(h.rect.h) + le32_bytes(h.hash);
    let t4 = le16_bytes(h.rect.w) + t5;
    let t3 = le16_bytes(h.rect.y) + t4;
    let t2 = le16_bytes(h.rect.x) + t3;
    let ids = seq![h.id.0, h.id.1, h.id.2];
    lemma_holds_parts(block, at, ids, t2);
    lemma_holds_parts(block, at + 3, le16_bytes(h.rect.x), t3);
    lemma_holds_parts(block, at + 5, le16_bytes(h.rect.y), t4);
    lemma_holds_parts(block, at + 7, le16_bytes(h.rect.w), t5);
    lemma_holds_parts(block, at + 9, le16_bytes(h.rect.h), le32_bytes(h.hash));
    lemma_holds_le16(block, at + 3, h.rect.x);
    lemma_holds_le16(block, at + 5, h.rect.y);
    lemma_holds_le16(block, at + 7, h.rect.w);
    lemma_holds_le16(block, at + 9, h.rect.h);
    lemma_holds_le32(block, at + 11, h.hash);
    let held = block.subrange(at, at + 3);
    assert(held[0] == block[at] && held[1] == block[at + 1] && held[2] == block[at + 2]);
}

proof fn lemma_hotspots(block: Seq<u8>, at: int, pos: int, spots: Seq<StoredHotspot>)
    requires
        holds(block, at, hotspot_records(spots)),
        holds(block, pos, hotspot_strings(spots)),
        forall|i: int|
            0 <= i < spots.len() ==> nul_free((#[trigger] spots[i]).name) && nul_free(
                spots[i].target,
            ),
    ensures
        hotspots_from(block, at, pos, spots.len()) == Some(
            hotspot_views(spots),
        ),
        hotspot_records(spots).len() == HOTSPOT_RECORD_LEN * spots.len(),
    decreases spots.len(),
{
    let expected = hotspot_views(spots);
    if spots.len() == 0 {
        assert(expected =~= Seq::empty());
    } else {
        let h = spots[0];
        let rest = spots.skip(1);
        assert(nul_free(spots[0].name) && nul_free(spots[0].target));
        assert forall|i: int| 0 <= i < rest.len() implies nul_free((#[trigger] rest[i]).name)
            && nul_free(rest[i].target) by {
            assert(rest[i] == spots[i + 1]);
        }
        lemma_holds_parts(block, at, hotspot_record(h), hotspot_records(rest));
        lemma_hotspot_record(block, at, h);
        lemma_holds_parts(
            block,
            pos,
            cstring(h.name),
            cstring(h.target) + hotspot_strings(rest),
        );
        let p = pos + h.name.len() + 1;
        lemma_holds_parts(block, p, cstring(h.target), hotspot_strings(rest));
        lemma_holds_cstring(block, pos, h.name);
        lemma_holds_cstring(block, p, h.target);
        lemma_hotspots(block, at + HOTSPOT_RECORD_LEN, p + h.target.len() + 1, rest);
        assert(seq![hotspot_view(h)] + hotspot_views(rest)
            =~= expected);
    }
}

proof fn lemma_block_parts(block: Seq<u8>, spots: Seq<StoredHotspot>, macros: Seq<u8>)
    requires
        spots.len() <= u16::MAX,
        macros.len() <= u32::MAX,
        holds(block, 0, hotspot_block_bytes(spots, macros)),
    ensures
        block[0] == HOTSPOT_BLOCK_MAGIC,
        le16(block, 1) == spots.len(),
        le32(block, 3) == macros.len(),
        holds(block, 7, hotspot_records(spots)),
        holds(
            block,
            7 + hotspot_records(spots).len() as int + macros.len(),
            hotspot_strings(spots),
        ),
{
    let count = spots.len() as u16;
    let size = macros.len() as u32;
    let t4 = macros + hotspot_strings(spots);
    let t3 = hotspot_records(spots) + t4;
    let t2 = le32_bytes(size) + t3;
    let t1 = le16_bytes(count) + t2;
    lemma_holds_parts(block, 0, seq![HOTSPOT_BLOCK_MAGIC], t1);
    lemma_holds_parts(block, 1, le16_bytes(count), t2);
    lemma_holds_parts(block, 3, le32_bytes(size), t3);
    lemma_holds_parts(block, 7, hotspot_records(spots), t4);
    let mid = 7 + hotspot_records(spots).len() as int;
    lemma_holds_parts(block, mid, macros, hotspot_strings(spots));
    lemma_holds_le16(block, 1, count);
    lemma_holds_le32(block, 3, size);
    assert(block.subrange(0, 1)[0] == block[0]);
}

proof fn lemma_hotspots_of(block: Seq<u8>, spots: Seq<StoredHotspot>, macros: Seq<u8>)
    requires
        spots.len() <= u16::MAX,
        macros.len() <= u32::MAX,
        holds(block, 0, hotspot_block_bytes(spots, macros)),
        forall|i: int|
            0 <= i < spots.len() ==> nul_free((#[trigger] spots[i]).name) && nul_free(
                spots[i].target,
            ),
    ensures
        hotspots_of(block) == Some(hotspot_views(spots)),
{
    lemma_block_parts(block, spots, macros);
    let strings = 7 + hotspot_records(spots).len() as int + macros.len();
    lemma_hotspots(block, 7, strings, spots);
    assert(block.len() >= 7);
    assert(strings <= block.len());
}

/// The hotspots of a block are read back as they were laid out, whatever macro
/// data stands between their records and their strings.
pub proof fn law_hotspots_are_read_back(spots: Seq<StoredHotspot>, macros: Seq<u8>)
    requires
        spots.len() <= u16::MAX,
        macros.len() <= u32::MAX,
        forall|i: int|
            0 <= i < spots.len() ==> nul_free((#[trigger] spots[i]).name) && nul_free(
                spots[i].target,
            ),
    ensures
        hotspots_of(hotspot_block_bytes(spots, macros)) == Some(hotspot_views(spots)),
{
    lemma_holds_all(hotspot_block_bytes(spots, macros));
    lemma_hotspots_of(hotspot_block_bytes(spots, macros), spots, macros);
}

/// A picture file whose hotspot block lies where its first picture says gives
/// the image of that picture and the hotspots of the block.
pub proof fn law_hotspots_follow_the_picture(
    data: Seq<u8>,
    image: Seq<u8>,
    start: int,
    spots: Seq<StoredHotspot>,
    macros: Seq<u8>,
)
    requires
        is_mrb(data),
        first_image(data) == Some(image),
        hotspot_span(data) == Some((start, hotspot_block_bytes(spots, macros).len() as int)),
        holds(data, start, hotspot_block_bytes(spots, macros)),
        spots.len() <= u16::MAX,
        macros.len() <= u32::MAX,
        forall|i: int|
            0 <= i < spots.len() ==> nul_free((#[trigger] spots[i]).name) && nul_free(
                spots[i].target,
            ),
    ensures
        shg_result(data) == Some((image, hotspot_views(spots))),
{
    let bytes = hotspot_block_bytes(spots, macros);
    assert(bytes.len() > 0);
    law_hotspots_are_read_back(spots, macros);
}

/// A metafile with hotspots gives its placeable metafile and its hotspots.
pub proof fn law_metafile_with_hotspots_is_read_back(
    data: Seq<u8>,
    at: u32,
    packing: u8,
    h: MetafileHeader,
    x: MetafileExtras,
    packed: Seq<u8>,
    content: Seq<u8>,
    spots: Seq<StoredHotspot>,
    macros: Seq<u8>,
)
    requires
        picture_lies_at(data, at, MRB_TYPE_METAFILE, packing),
        metafile_header_fits(h, x),
        packed.len() == h.data_size,
        unpacked(packed, packing) == Some(content),
        hotspot_block_bytes(spots, macros).len() == h.hotspot_size,
        holds(
            data,
            at + 2,
            metafile_header_bytes(h, x) + (packed + hotspot_block_bytes(spots, macros)),
        ),
        spots.len() <= u16::MAX,
        macros.len() <= u32::MAX,
        forall|i: int|
            0 <= i < spots.len() ==> nul_free((#[trigger] spots[i]).name) && nul_free(
                spots[i].target,
            ),
    ensures
        shg_result(data) == Some(
            (
                apm_file(h.width, h.height, content),
                hotspot_views(spots),
            ),
        ),
        hotspot_block(data) == Some(hotspot_block_bytes(spots, macros)),
{
    let head = metafile_header_bytes(h, x);
    let block = hotspot_block_bytes(spots, macros);
    lemma_picture(data, at, MRB_TYPE_METAFILE, packing);
    lemma_holds_parts(data, at + 2, head, packed + block);
    lemma_holds_parts(data, at + 2 + head.len(), packed, block);
    lemma_holds_front(data, at + 2, head, packed, block);
    law_metafile_is_read_back(data, at, packing, h, x, packed, content);
    lemma_metafile_header(data, at + 2, h, x);
    law_hotspots_are_read_back(spots, macros);
    assert(mrb_bmp(data) is None);
}

/// A bitmap with hotspots gives the BMP file that it gives without them, and its
/// hotspots, whose block lies behind the palette and the packed pixels.
pub proof fn law_bitmap_with_hotspots_is_read_back(
    data: Seq<u8>,
    at: u32,
    packing: u8,
    h: BitmapHeader,
    x: BitmapExtras,
    palette: Seq<u8>,
    packed: Seq<u8>,
    pixels: Seq<u8>,
    spots: Seq<StoredHotspot>,
    macros: Seq<u8>,
)
    requires
        picture_lies_at(data, at, MRB_TYPE_DIB, packing),
        bitmap_header_fits(h, x),
        palette.len() == 4 * dib_colors(h),
        packed.len() == h.data_size,
        unpacked(packed, packing) == Some(pixels),
        hotspot_block_bytes(spots, macros).len() == h.hotspot_size,
        holds(
            data,
            at + 2,
            bitmap_header_bytes(h, x) + (palette + (packed + hotspot_block_bytes(spots, macros))),
        ),
        spots.len() <= u16::MAX,
        macros.len() <= u32::MAX,
        forall|i: int|
            0 <= i < spots.len() ==> nul_free((#[trigger] spots[i]).name) && nul_free(
                spots[i].target,
            ),
    ensures
        shg_result(data) == Some(
            (bmp_file(h, dib_colors(h) as u32, palette, pixels), hotspot_views(spots)),
        ),
        hotspot_block(data) == Some(hotspot_block_bytes(spots, macros)),
{
    let head = bitmap_header_bytes(h, x);
    let block = hotspot_block_bytes(spots, macros);
    lemma_picture(data, at, MRB_TYPE_DIB, packing);
    lemma_holds_parts(data, at + 2, head, palette + (packed + block));
    let start = at + 2 + head.len();
    lemma_holds_parts(data, start, palette, packed + block);
    lemma_holds_parts(data, start + palette.len(), packed, block);
    lemma_bitmap_header(data, at + 2, h, x);
    assert(palette + (packed + block) =~= (palette + packed) + block);
    lemma_holds_front(data, at + 2, head, palette + packed, block);
    law_dib_is_read_back(data, at, packing, h, x, palette, packed, pixels);
    let image = bmp_file(h, dib_colors(h) as u32, palette, pixels);
    assert(first_image(data) == Some(image));
    let end = start + palette.len() + packed.len();
    law_hotspots_follow_the_picture(data, image, end, spots, macros);
}

/// The same for a monochrome bitmap without a palette: its hotspot block lies
/// right behind the packed pixels.
pub proof fn law_monochrome_with_hotspots_is_read_back(
    data: Seq<u8>,
    at: u32,
    packing: u8,
    h: BitmapHeader,
    x: BitmapExtras,
    packed: Seq<u8>,
    pixels: Seq<u8>,
    rows: Seq<u8>,
    spots: Seq<StoredHotspot>,
    macros: Seq<u8>,
)
    requires
        picture_lies_at(data, at, MRB_TYPE_DDB, packing),
        packing <= 1,
        bitmap_header_fits(h, x),
        h.bit_count == 1,
        packed.len() == h.data_size,
        unpacked(packed, packing) == Some(pixels),
        dib_pixels(pixels, h.width as int, h.height as int, 1) == Some(rows),
        hotspot_block_bytes(spots, macros).len() == h.hotspot_size,
        holds(
            data,
            at + 2,
            bitmap_header_bytes(h, x) + (packed + hotspot_block_bytes(spots, macros)),
        ),
        spots.len() <= u16::MAX,
        macros.len() <= u32::MAX,
        forall|i: int|
            0 <= i < spots.len() ==> nul_free((#[trigger] spots[i]).name) && nul_free(
                spots[i].target,
            ),
    ensures
        shg_result(data) == Some((bmp_file(h, 2, monochrome(), rows), hotspot_views(spots))),
        hotspot_block(data) == Some(hotspot_block_bytes(spots, macros)),
{
    let head = bitmap_header_bytes(h, x);
    let block = hotspot_block_bytes(spots, macros);
    lemma_picture(data, at, MRB_TYPE_DDB, packing);
    lemma_holds_parts(data, at + 2, head, packed + block);
    lemma_holds_parts(data, at + 2 + head.len(), packed, block);
    lemma_bitmap_header(data, at + 2, h, x);
    lemma_holds_front(data, at + 2, head, packed, block);
    law_ddb_is_read_back(data, at, packing, h, x, packed, pixels, rows);
    let image = bmp_file(h, 2, monochrome(), rows);
    assert(first_image(data) == Some(image));
    let start = at + 2 + head.len() + packed.len();
    law_hotspots_follow_the_picture(data, image, start, spots, macros);
}

proof fn lemma_holds_front(data: Seq<u8>, at: int, a: Seq<u8>, b: Seq<u8>, c: Seq<u8>)
    requires
        holds(data, at, a + (b + c)),
    ensures
        holds(data, at, a + b),
{
    assert(a + (b + c) =~= (a + b) + c);
    lemma_holds_parts(data, at, a + b, c);
}

/// A picture whose header announces no hotspots has none.
pub proof fn law_pictures_without_hotspots(data: Seq<u8>, at: u32, packing: u8, h: BitmapHeader)
    requires
        picture_lies_at(data, at, MRB_TYPE_DIB, packing),
        bitmap_header(data, at + 2) matches Some((g, _)) && g == h,
        h.hotspot_size == 0,
    ensures
        shg_result(data) == match mrb_bmp(data) {
            Some(bmp) => Some((bmp, Seq::<HotspotView>::empty())),
            None => None,
        },
{
    lemma_picture(data, at, MRB_TYPE_DIB, packing);
}

/// What the ids of hotspots mean: the first byte tells the kind, and whether it
/// is shown; the second byte repeats the latter.
pub proof fn law_hotspot_actions(id: (u8, u8, u8))
    ensures
        ({
            let action = action_of(id.0, id.1, id.2);
            &&& action is MacroVisible <==> id == (0xC8u8, 0u8, 0u8)
            &&& action is MacroInvisible <==> id == (0xCCu8, 4u8, 0u8)
            &&& action is PopupJumpVisible <==> id == (0xE2u8, 0u8, 0u8)
            &&& action is TopicJumpVisible <==> id == (0xE3u8, 0u8, 0u8)
            &&& action is PopupJumpInvisible <==> id == (0xE6u8, 4u8, 0u8)
            &&& action is TopicJumpInvisible <==> id == (0xE7u8, 4u8, 0u8)
            &&& action is ExternalPopupVisible <==> id == (0xEAu8, 0u8, 0u8)
            &&& action is ExternalTopicVisible <==> id == (0xEBu8, 0u8, 0u8)
            &&& action is ExternalPopupInvisible <==> id == (0xEEu8, 4u8, 0u8)
            &&& action is ExternalTopicInvisible <==> id == (0xEFu8, 4u8, 0u8)
            &&& action matches HotspotAction::Unknown(a, b, c) ==> id == (a, b, c)
        }),
{
}

} // verus!
