//! The image files that pictures decode to, field by field, at the offsets of
//! the BMP format and of the placeable metafile format.

use vstd::prelude::*;

use vstd::arithmetic::power2::pow2;

use crate::bitmap::{
    apm_file, apm_words, bmp_file, bmp_file_header, bmp_of, bytes_of, color_count, dib_colors, ddb_stride,
    dib_pixels, dib_stride, image_of, lemma_bytes_of_index, monochrome, mrb_bmp, mrb_wmf,
    padded_rows, palette_size, unpacked, xor_of, BitmapHeader, MetafileHeader,
};
use crate::bytes::{
    holds, joined, le16, le16_bytes, le32, le32_bytes, lemma_holds_le16, lemma_holds_le32,
};
use crate::lz77::{all_performed, law_operations_decompress, packed, Operation};
use crate::phrase::repeated;
use crate::pictures::{
    bitmap_header_bytes, bitmap_header_fits, law_ddb_is_read_back, law_dib_is_read_back,
    law_metafile_is_read_back, metafile_header_bytes, metafile_header_fits, picture_lies_at,
    BitmapExtras, MetafileExtras,
};
use crate::runlen::{law_runs_decode, runs_bytes, runs_text, Run};

verus! {

/// Whether `bmp` is a BMP file of the given size, depth, palette and pixels:
/// what every field of its two headers says, and where palette and pixels lie.
pub open spec fn is_bmp_with(
    bmp: Seq<u8>,
    width: u32,
    height: u32,
    planes: u32,
    bit_count: u32,
    palette: Seq<u8>,
    pixels: Seq<u8>,
) -> bool {
    // The file header: magic bytes, size of the file, and where the pixels are.
    &&& bmp.len() == 54 + palette.len() + pixels.len()
    &&& bmp[0] == 0x42 && bmp[1] == 0x4D
    &&& bmp.len() <= u32::MAX ==> le32(bmp, 2) == bmp.len()
    &&& le32(bmp, 6) == 0
    &&& bmp.len() <= u32::MAX ==> le32(bmp, 10) == 54 + palette.len()
    // The info header.
    &&& le32(bmp, 14) == 40
    &&& le32(bmp, 18) == width
    &&& le32(bmp, 22) == height
    &&& le16(bmp, 26) == planes
    &&& le16(bmp, 28) == bit_count
    &&& le32(bmp, 30) == 0
    &&& bmp.len() <= u32::MAX ==> le32(bmp, 34) == pixels.len()
    &&& le32(bmp, 38) == 0 && le32(bmp, 42) == 0
    &&& 4 * le32(bmp, 46) == palette.len()
    &&& le32(bmp, 50) == 0
    // The rest.
    &&& bmp.subrange(54, 54 + palette.len() as int) == palette
    &&& bmp.skip(54 + palette.len() as int) == pixels
}

proof fn lemma_joined_step(pieces: Seq<Seq<u8>>, k: int)
    requires
        0 < k <= pieces.len(),
    ensures
        joined(pieces.take(k)) == joined(pieces.take(k - 1)) + pieces[k - 1],
        joined(pieces.take(0)) == Seq::<u8>::empty(),
{
    assert(pieces.take(k).drop_last() =~= pieces.take(k - 1));
}

/// Pieces that are put together hold each piece behind those before it.
proof fn lemma_piece(pieces: Seq<Seq<u8>>, k: int)
    requires
        0 <= k < pieces.len(),
    ensures
        holds(joined(pieces), joined(pieces.take(k)).len() as int, pieces[k]),
    decreases pieces.len(),
{
    let all = joined(pieces);
    let at = joined(pieces.take(k)).len() as int;
    let shorter = pieces.drop_last();
    if k == pieces.len() - 1 {
        assert(pieces.take(k) =~= shorter);
        assert(all.subrange(at, at + pieces[k].len()) =~= pieces[k]);
    } else {
        lemma_piece(shorter, k);
        assert(shorter.take(k) =~= pieces.take(k));
        let before = joined(shorter);
        assert(all.subrange(at, at + pieces[k].len()) =~= before.subrange(
            at,
            at + pieces[k].len(),
        ));
    }
}

/// The pieces of a BMP file, in order.
spec fn bmp_pieces(
    h: BitmapHeader,
    colors: u32,
    palette: Seq<u8>,
    pixels: Seq<u8>,
    size: u32,
    at: u32,
    len: u32,
) -> Seq<Seq<u8>> {
    seq![
        seq![0x42u8, 0x4Du8],
        le32_bytes(size),
        le16_bytes(0),
        le16_bytes(0),
        le32_bytes(at),
        le32_bytes(40),
        le32_bytes(h.width),
        le32_bytes(h.height),
        le16_bytes(h.planes as u16),
        le16_bytes(h.bit_count as u16),
        le32_bytes(0),
        le32_bytes(len),
        le32_bytes(0),
        le32_bytes(0),
        le32_bytes(colors),
        le32_bytes(0),
        palette,
        pixels,
    ]
}

proof fn lemma_bmp_pieces(
    h: BitmapHeader,
    colors: u32,
    palette: Seq<u8>,
    pixels: Seq<u8>,
    size: u32,
    at: u32,
    len: u32,
)
    ensures
        bmp_pieces(h, colors, palette, pixels, size, at, len).len() == 18,
        bmp_pieces(h, colors, palette, pixels, size, at, len)[0] == seq![0x42u8, 0x4Du8],
        bmp_pieces(h, colors, palette, pixels, size, at, len)[1] == le32_bytes(size),
        bmp_pieces(h, colors, palette, pixels, size, at, len)[2] == le16_bytes(0),
        bmp_pieces(h, colors, palette, pixels, size, at, len)[3] == le16_bytes(0),
        bmp_pieces(h, colors, palette, pixels, size, at, len)[4] == le32_bytes(at),
        bmp_pieces(h, colors, palette, pixels, size, at, len)[5] == le32_bytes(40),
        bmp_pieces(h, colors, palette, pixels, size, at, len)[6] == le32_bytes(h.width),
        bmp_pieces(h, colors, palette, pixels, size, at, len)[7] == le32_bytes(h.height),
        bmp_pieces(h, colors, palette, pixels, size, at, len)[8] == le16_bytes(h.planes as u16),
        bmp_pieces(h, colors, palette, pixels, size, at, len)[9] == le16_bytes(h.bit_count as u16),
        bmp_pieces(h, colors, palette, pixels, size, at, len)[10] == le32_bytes(0),
        bmp_pieces(h, colors, palette, pixels, size, at, len)[11] == le32_bytes(len),
        bmp_pieces(h, colors, palette, pixels, size, at, len)[12] == le32_bytes(0),
        bmp_pieces(h, colors, palette, pixels, size, at, len)[13] == le32_bytes(0),
        bmp_pieces(h, colors, palette, pixels, size, at, len)[14] == le32_bytes(colors),
        bmp_pieces(h, colors, palette, pixels, size, at, len)[15] == le32_bytes(0),
        bmp_pieces(h, colors, palette, pixels, size, at, len)[16] == palette,
        bmp_pieces(h, colors, palette, pixels, size, at, len)[17] == pixels,
{
}

proof fn lemma_bmp_is_joined(
    h: BitmapHeader,
    colors: u32,
    palette: Seq<u8>,
    pixels: Seq<u8>,
    size: u32,
    at: u32,
    len: u32,
    pieces: Seq<Seq<u8>>,
)
    requires
        size == (54 + palette.len() + pixels.len()) % 0x1_0000_0000,
        at == (54 + palette.len()) % 0x1_0000_0000,
        len == pixels.len() % 0x1_0000_0000,
        pieces.len() == 18,
        pieces[0] == seq![0x42u8, 0x4Du8],
        pieces[1] == le32_bytes(size),
        pieces[2] == le16_bytes(0),
        pieces[3] == le16_bytes(0),
        pieces[4] == le32_bytes(at),
        pieces[5] == le32_bytes(40),
        pieces[6] == le32_bytes(h.width),
        pieces[7] == le32_bytes(h.height),
        pieces[8] == le16_bytes(h.planes as u16),
        pieces[9] == le16_bytes(h.bit_count as u16),
        pieces[10] == le32_bytes(0),
        pieces[11] == le32_bytes(len),
        pieces[12] == le32_bytes(0),
        pieces[13] == le32_bytes(0),
        pieces[14] == le32_bytes(colors),
        pieces[15] == le32_bytes(0),
        pieces[16] == palette,
        pieces[17] == pixels,
    ensures
        joined(pieces) == bmp_file(h, colors, palette, pixels),
{
    lemma_joined_step(pieces, 1);
    lemma_joined_step(pieces, 2);
    lemma_joined_step(pieces, 3);
    lemma_joined_step(pieces, 4);
    lemma_joined_step(pieces, 5);
    lemma_joined_step(pieces, 6);
    lemma_joined_step(pieces, 7);
    lemma_joined_step(pieces, 8);
    lemma_joined_step(pieces, 9);
    lemma_joined_step(pieces, 10);
    lemma_joined_step(pieces, 11);
    lemma_joined_step(pieces, 12);
    lemma_joined_step(pieces, 13);
    lemma_joined_step(pieces, 14);
    lemma_joined_step(pieces, 15);
    lemma_joined_step(pieces, 16);
    lemma_joined_step(pieces, 17);
    lemma_joined_step(pieces, 18);
    assert(pieces.take(18) =~= pieces);
    assert(Seq::<u8>::empty() + pieces[0] =~= crate::bitmap::BMP_MAGIC@);
}

proof fn lemma_bmp_fields(h: BitmapHeader, colors: u32, palette: Seq<u8>, pixels: Seq<u8>)
    requires
        h.planes < 0x8000,
        h.bit_count < 0x8000,
        palette.len() == 4 * colors,
    ensures
        is_bmp_with(
            bmp_file(h, colors, palette, pixels),
            h.width,
            h.height,
            h.planes,
            h.bit_count,
            palette,
            pixels,
        ),
{
    let size = ((54 + palette.len() + pixels.len()) % 0x1_0000_0000) as u32;
    let at = ((54 + palette.len()) % 0x1_0000_0000) as u32;
    let len = (pixels.len() % 0x1_0000_0000) as u32;
    let pieces = bmp_pieces(h, colors, palette, pixels, size, at, len);
    lemma_bmp_pieces(h, colors, palette, pixels, size, at, len);
    lemma_bmp_is_joined(h, colors, palette, pixels, size, at, len, pieces);
    reveal(is_le16);
    reveal(is_le32);
    lemma_pieces_are_fields(
        bmp_file(h, colors, palette, pixels),
        h,
        colors,
        palette,
        pixels,
        size,
        at,
        len,
        pieces,
    );
}

proof fn lemma_two_zero_words(data: Seq<u8>, at: int)
    requires
        holds(data, at, le16_bytes(0)),
        holds(data, at + 2, le16_bytes(0)),
    ensures
        le32(data, at) == 0,
{
    lemma_holds_le16(data, at, 0);
    lemma_holds_le16(data, at + 2, 0);
}

/// Whether a piece is a 16-bit number.
#[verifier::opaque]
spec fn is_le16(piece: Seq<u8>, n: u16) -> bool {
    piece == le16_bytes(n)
}

/// Whether a piece is a 32-bit number.
#[verifier::opaque]
spec fn is_le32(piece: Seq<u8>, n: u32) -> bool {
    piece == le32_bytes(n)
}

proof fn lemma_le16_field(bmp: Seq<u8>, at: int, piece: Seq<u8>, n: u16)
    requires
        holds(bmp, at, piece),
        is_le16(piece, n),
    ensures
        le16(bmp, at) == n,
{
    reveal(is_le16);
    lemma_holds_le16(bmp, at, n);
}

proof fn lemma_le32_field(bmp: Seq<u8>, at: int, piece: Seq<u8>, n: u32)
    requires
        holds(bmp, at, piece),
        is_le32(piece, n),
    ensures
        le32(bmp, at) == n,
{
    reveal(is_le32);
    lemma_holds_le32(bmp, at, n);
}

proof fn lemma_pieces_are_fields(
    bmp: Seq<u8>,
    h: BitmapHeader,
    colors: u32,
    palette: Seq<u8>,
    pixels: Seq<u8>,
    size: u32,
    at: u32,
    len: u32,
    pieces: Seq<Seq<u8>>,
)
    requires
        h.planes < 0x8000,
        h.bit_count < 0x8000,
        palette.len() == 4 * colors,
        size == (54 + palette.len() + pixels.len()) % 0x1_0000_0000,
        at == (54 + palette.len()) % 0x1_0000_0000,
        len == pixels.len() % 0x1_0000_0000,
        bmp == joined(pieces),
        pieces.len() == 18,
        pieces[0] == seq![0x42u8, 0x4Du8],
        is_le32(pieces[1], size),
        is_le16(pieces[2], 0),
        is_le16(pieces[3], 0),
        is_le32(pieces[4], at),
        is_le32(pieces[5], 40),
        is_le32(pieces[6], h.width),
        is_le32(pieces[7], h.height),
        is_le16(pieces[8], h.planes as u16),
        is_le16(pieces[9], h.bit_count as u16),
        is_le32(pieces[10], 0),
        is_le32(pieces[11], len),
        is_le32(pieces[12], 0),
        is_le32(pieces[13], 0),
        is_le32(pieces[14], colors),
        is_le32(pieces[15], 0),
        pieces[16] == palette,
        pieces[17] == pixels,
    ensures
        is_bmp_with(bmp, h.width, h.height, h.planes, h.bit_count, palette, pixels),
{
    lemma_piece_lengths(pieces, size, at, len, colors, h);
    lemma_pieces_at(bmp, pieces);
    lemma_le32_field(bmp, 2, pieces[1], size);
    assert(le32(bmp, 6) == 0) by {
        reveal(is_le16);
        lemma_two_zero_words(bmp, 6);
    }
    lemma_le32_field(bmp, 10, pieces[4], at);
    lemma_le32_field(bmp, 14, pieces[5], 40);
    lemma_le32_field(bmp, 18, pieces[6], h.width);
    lemma_le32_field(bmp, 22, pieces[7], h.height);
    lemma_le16_field(bmp, 26, pieces[8], h.planes as u16);
    lemma_le16_field(bmp, 28, pieces[9], h.bit_count as u16);
    lemma_le32_field(bmp, 30, pieces[10], 0);
    lemma_le32_field(bmp, 34, pieces[11], len);
    lemma_le32_field(bmp, 38, pieces[12], 0);
    lemma_le32_field(bmp, 42, pieces[13], 0);
    lemma_le32_field(bmp, 46, pieces[14], colors);
    lemma_le32_field(bmp, 50, pieces[15], 0);
    assert(bmp.subrange(0, 2)[0] == bmp[0] && bmp.subrange(0, 2)[1] == bmp[1]);
    assert(bmp.skip(54 + palette.len() as int) =~= bmp.subrange(
        54 + palette.len() as int,
        bmp.len() as int,
    ));
}

proof fn lemma_piece_lengths(
    pieces: Seq<Seq<u8>>,
    size: u32,
    at: u32,
    len: u32,
    colors: u32,
    h: BitmapHeader,
)
    requires
        pieces.len() == 18,
        is_le32(pieces[1], size),
        is_le16(pieces[2], 0),
        is_le16(pieces[3], 0),
        is_le32(pieces[4], at),
        is_le32(pieces[5], 40),
        is_le32(pieces[6], h.width),
        is_le32(pieces[7], h.height),
        is_le16(pieces[8], h.planes as u16),
        is_le16(pieces[9], h.bit_count as u16),
        is_le32(pieces[10], 0),
        is_le32(pieces[11], len),
        is_le32(pieces[12], 0),
        is_le32(pieces[13], 0),
        is_le32(pieces[14], colors),
        is_le32(pieces[15], 0),
    ensures
        pieces[1].len() == 4,
        pieces[2].len() == 2,
        pieces[3].len() == 2,
        pieces[4].len() == 4,
        pieces[5].len() == 4,
        pieces[6].len() == 4,
        pieces[7].len() == 4,
        pieces[8].len() == 2,
        pieces[9].len() == 2,
        forall|k: int| 10 <= k < 16 ==> (#[trigger] pieces[k]).len() == 4,
{
    reveal(is_le16);
    reveal(is_le32);
    assert forall|k: int| 10 <= k < 16 implies (#[trigger] pieces[k]).len() == 4 by {
        assert(k == 10 || k == 11 || k == 12 || k == 13 || k == 14 || k == 15);
    }
}

/// The pieces of a BMP file lie at the offsets of its format.
proof fn lemma_pieces_at(bmp: Seq<u8>, pieces: Seq<Seq<u8>>)
    requires
        bmp == joined(pieces),
        pieces.len() == 18,
        pieces[0].len() == 2,
        pieces[1].len() == 4,
        pieces[2].len() == 2,
        pieces[3].len() == 2,
        pieces[4].len() == 4,
        pieces[5].len() == 4,
        pieces[6].len() == 4,
        pieces[7].len() == 4,
        pieces[8].len() == 2,
        pieces[9].len() == 2,
        forall|k: int| 10 <= k < 16 ==> (#[trigger] pieces[k]).len() == 4,
    ensures
        bmp.len() == 54 + pieces[16].len() + pieces[17].len(),
        holds(bmp, 0, pieces[0]),
        holds(bmp, 2, pieces[1]),
        holds(bmp, 6, pieces[2]),
        holds(bmp, 8, pieces[3]),
        holds(bmp, 10, pieces[4]),
        holds(bmp, 14, pieces[5]),
        holds(bmp, 18, pieces[6]),
        holds(bmp, 22, pieces[7]),
        holds(bmp, 26, pieces[8]),
        holds(bmp, 28, pieces[9]),
        holds(bmp, 30, pieces[10]),
        holds(bmp, 34, pieces[11]),
        holds(bmp, 38, pieces[12]),
        holds(bmp, 42, pieces[13]),
        holds(bmp, 46, pieces[14]),
        holds(bmp, 50, pieces[15]),
        holds(bmp, 54, pieces[16]),
        holds(bmp, 54 + pieces[16].len() as int, pieces[17]),
{
    assert(pieces.take(18) =~= pieces);
    lemma_joined_step(pieces, 1);
    lemma_joined_step(pieces, 2);
    lemma_joined_step(pieces, 3);
    lemma_joined_step(pieces, 4);
    lemma_joined_step(pieces, 5);
    lemma_joined_step(pieces, 6);
    lemma_joined_step(pieces, 7);
    lemma_joined_step(pieces, 8);
    lemma_joined_step(pieces, 9);
    lemma_joined_step(pieces, 10);
    lemma_joined_step(pieces, 11);
    lemma_joined_step(pieces, 12);
    lemma_joined_step(pieces, 13);
    lemma_joined_step(pieces, 14);
    lemma_joined_step(pieces, 15);
    lemma_joined_step(pieces, 16);
    lemma_joined_step(pieces, 17);
    lemma_joined_step(pieces, 18);
    lemma_piece(pieces, 0);
    lemma_piece(pieces, 1);
    lemma_piece(pieces, 2);
    lemma_piece(pieces, 3);
    lemma_piece(pieces, 4);
    lemma_piece(pieces, 5);
    lemma_piece(pieces, 6);
    lemma_piece(pieces, 7);
    lemma_piece(pieces, 8);
    lemma_piece(pieces, 9);
    lemma_piece(pieces, 10);
    lemma_piece(pieces, 11);
    lemma_piece(pieces, 12);
    lemma_piece(pieces, 13);
    lemma_piece(pieces, 14);
    lemma_piece(pieces, 15);
    lemma_piece(pieces, 16);
    lemma_piece(pieces, 17);
}

/// Whether data is a picture container whose first picture is at `at`, with the
/// given type and packing.
pub open spec fn container_with(data: Seq<u8>, at: u32, kind: u8, packing: u8) -> bool {
    &&& data.len() >= 8
    &&& data[0] == 0x6C && (data[1] == 0x50 || data[1] == 0x70)
    &&& le16(data, 2) > 0
    &&& holds(data, 4, le32_bytes(at))
    &&& holds(data, at as int, seq![kind, packing])
}

pub proof fn lemma_container(data: Seq<u8>, at: u32, kind: u8, packing: u8)
    requires
        container_with(data, at, kind, packing),
    ensures
        picture_lies_at(data, at, kind, packing),
        data[at as int] == kind,
        le32(data, 4) == at,
{
    assert(data.subrange(at as int, at + 2)[0] == data[at as int]);
    lemma_holds_le32(data, 4, at);
}

pub proof fn lemma_color_count(n: int)
    requires
        0 <= n <= 8,
    ensures
        color_count(n) == pow2(n as nat),
{
    vstd::arithmetic::power2::lemma2_to64();
    assert(n == 0 || n == 1 || n == 2 || n == 3 || n == 4 || n == 5 || n == 6 || n == 7 || n == 8);
}

/// The number of colors that a bitmap has by its header: as many as it says, or
/// as many as its pixels can tell apart, and none with more than eight bits.
pub open spec fn colors_by_header(h: BitmapHeader) -> nat {
    if h.bit_count > 8 {
        0
    } else if h.clr_used > 0 {
        h.clr_used as nat
    } else {
        pow2(h.bit_count as nat)
    }
}

/// A bitmap with a palette decodes to a BMP file with the width, the height,
/// the planes and the depth of the bitmap, its palette and its pixels, each at
/// its place in the file.
pub proof fn law_bitmap_keeps_its_fields(
    data: Seq<u8>,
    at: u32,
    packing: u8,
    h: BitmapHeader,
    x: BitmapExtras,
    palette: Seq<u8>,
    packed: Seq<u8>,
    pixels: Seq<u8>,
)
    requires
        container_with(data, at, 6, packing),
        bitmap_header_fits(h, x),
        palette.len() == 4 * colors_by_header(h),
        packed.len() == h.data_size,
        unpacked(packed, packing) == Some(pixels),
        holds(data, at + 2, bitmap_header_bytes(h, x) + (palette + packed)),
    ensures
        mrb_bmp(data) == Some(image_of(data)),
        is_bmp_with(
            image_of(data),
            h.width,
            h.height,
            h.planes,
            h.bit_count,
            palette,
            pixels,
        ),
{
    lemma_container(data, at, 6, packing);
    if h.bit_count <= 8 {
        lemma_color_count(h.bit_count as int);
    }
    law_dib_is_read_back(data, at, packing, h, x, palette, packed, pixels);
    vstd::arithmetic::power2::lemma2_to64();
    assert(dib_colors(h) == colors_by_header(h));
    assert(dib_colors(h) <= u32::MAX);
    lemma_bmp_fields(h, dib_colors(h) as u32, palette, pixels);
}

/// Row `r` of rows of `stride` bytes each.
pub open spec fn row_of(rows: Seq<u8>, stride: int, r: int) -> Seq<u8> {
    rows.subrange(r * stride, r * stride + stride)
}

proof fn lemma_row_fits(r: int, n: int, stride: int)
    requires
        0 <= r < n,
        0 <= stride,
    ensures
        0 <= r * stride,
        r * stride + stride <= n * stride,
{
    assert(0 <= r * stride && r * stride + stride <= n * stride) by (nonlinear_arith)
        requires
            0 <= r < n,
            0 <= stride,
    ;
}

proof fn lemma_padded_rows(data: Seq<u8>, stride: int, pad: int, n: nat)
    requires
        0 <= stride,
        0 <= pad,
        data.len() >= n * stride,
    ensures
        padded_rows(data, stride, pad, n).len() == n * (stride + pad),
        forall|r: int|
            0 <= r < n ==> #[trigger] row_of(
                padded_rows(data, stride, pad, n),
                stride + pad,
                r,
            ) == row_of(data, stride, r) + Seq::new(pad as nat, |k: int| 0x20u8),
    decreases n,
{
    let wide = stride + pad;
    if n > 0 {
        let m = (n - 1) as nat;
        lemma_row_fits(m as int, n as int, stride);
        assert(m * stride + stride == n * stride) by (nonlinear_arith)
            requires
                m == n - 1,
        ;
        assert(m * wide + wide == n * wide) by (nonlinear_arith)
            requires
                m == n - 1,
        ;
        lemma_padded_rows(data, stride, pad, m);
        let before = padded_rows(data, stride, pad, m);
        let last = row_of(data, stride, m as int) + repeated(0x20, pad as nat);
        let all = padded_rows(data, stride, pad, n);
        assert(all =~= before + last);
        assert forall|r: int| 0 <= r < n implies #[trigger] row_of(all, wide, r) == row_of(
            data,
            stride,
            r,
        ) + Seq::new(pad as nat, |k: int| 0x20u8) by {
            lemma_row_fits(r, n as int, wide);
            if r < m {
                lemma_row_fits(r, m as int, wide);
                assert(row_of(all, wide, r) =~= row_of(before, wide, r));
            } else {
                assert(row_of(all, wide, r) =~= last);
            }
        }
    }
}

/// Whether `rows` are the rows of a monochrome bitmap. A row of the bitmap takes
/// up a multiple of two bytes; in `rows` it takes up a multiple of four, with
/// spaces behind its bytes.
pub open spec fn realigned(pixels: Seq<u8>, rows: Seq<u8>, width: u32, height: u32) -> bool {
    let from = (width + 15) / 16 * 2;
    let to = (width + 31) / 32 * 4;
    &&& rows.len() == height * to
    &&& forall|r: int|
        0 <= r < height ==> #[trigger] row_of(rows, to, r) == row_of(pixels, from, r) + Seq::new(
            (to - from) as nat,
            |k: int| 0x20u8,
        )
}

proof fn lemma_realigned(pixels: Seq<u8>, width: u32, height: u32)
    requires
        width > 0,
        height > 0,
        pixels.len() >= (width + 15) / 16 * 2 * height,
    ensures
        dib_pixels(pixels, width as int, height as int, 1) matches Some(rows) && realigned(
            pixels,
            rows,
            width,
            height,
        ),
{
    let from = (width + 15) / 16 * 2;
    let to = (width + 31) / 32 * 4;
    assert(from == ddb_stride(width as int, 1));
    assert(to == dib_stride(width as int, 1));
    assert(from <= to);
    assert(from * height == height * from) by (nonlinear_arith);
    lemma_padded_rows(pixels, from, to - from, height as nat);
}

/// A monochrome bitmap without a palette decodes to a BMP file with its width
/// and height, the colors black and white, and its rows in the alignment of the
/// BMP format.
pub proof fn law_monochrome_keeps_its_rows(
    data: Seq<u8>,
    at: u32,
    packing: u8,
    h: BitmapHeader,
    x: BitmapExtras,
    packed: Seq<u8>,
    pixels: Seq<u8>,
)
    requires
        container_with(data, at, 5, packing),
        packing <= 1,
        bitmap_header_fits(h, x),
        h.bit_count == 1,
        h.width > 0,
        h.height > 0,
        packed.len() == h.data_size,
        unpacked(packed, packing) == Some(pixels),
        pixels.len() >= (h.width + 15) / 16 * 2 * h.height,
        holds(data, at + 2, bitmap_header_bytes(h, x) + packed),
    ensures
        mrb_bmp(data) == Some(image_of(data)),
        is_bmp_with(
            image_of(data),
            h.width,
            h.height,
            h.planes,
            1,
            seq![0u8, 0, 0, 0, 255, 255, 255, 0],
            image_of(data).skip(62),
        ),
        realigned(pixels, image_of(data).skip(62), h.width, h.height),
{
    lemma_container(data, at, 5, packing);
    lemma_realigned(pixels, h.width, h.height);
    let rows = dib_pixels(pixels, h.width as int, h.height as int, 1)->Some_0;
    law_ddb_is_read_back(data, at, packing, h, x, packed, pixels, rows);
    lemma_bmp_fields(h, 2, monochrome(), rows);
    assert(monochrome() =~= seq![0u8, 0, 0, 0, 255, 255, 255, 0]);
}

/// What the packings of a payload are: 0 nothing, 1 runs, 2 LZ77, 3 runs within
/// LZ77. A payload with any other packing is not read.
pub proof fn law_packings(data: Seq<u8>, runs: Seq<Run>, ops: Seq<Operation>, packing: u8)
    requires
        forall|i: int| 0 <= i < runs.len() ==> crate::runlen::encodable(#[trigger] runs[i]),
        forall|i: int| 0 <= i < ops.len() ==> crate::lz77::encodable(#[trigger] ops[i]),
    ensures
        unpacked(data, 0) == Some(data),
        unpacked(runs_bytes(runs), 1) == Some(runs_text(runs)),
        unpacked(packed(ops), 2) == Some(all_performed(Seq::empty(), ops)),
        all_performed(Seq::empty(), ops) == runs_bytes(runs) ==> unpacked(packed(ops), 3) == Some(
            runs_text(runs),
        ),
        packing > 3 ==> unpacked(data, packing) is None,
{
    law_runs_decode(runs);
    law_operations_decompress(ops);
}

/// A bitmap without a file header gets one that tells the size of the file and
/// where the pixels start: behind both headers and the colors, of three bytes
/// each behind a header of twelve bytes and of four behind a longer one.
#[verifier::rlimit(40)]
pub proof fn law_file_header_fields(data: Seq<u8>, info: u32, bits: u16)
    requires
        info == 12 || info == 40 || info == 108 || info == 124,
        data.len() >= info,
        data.len() + 14 <= u32::MAX,
        le32(data, 0) == info,
        le16(data, if info == 12 { 10 } else { 14 }) == bits,
        info != 12 ==> le32(data, 32) < 0x1000_0000,
    ensures
        ({
            let bmp = bmp_of(data);
            let used = le32(data, 32) as int;
            &&& bmp.len() == data.len() + 14
            &&& bmp[0] == 0x42 && bmp[1] == 0x4D
            &&& le32(bmp, 2) == bmp.len()
            &&& le32(bmp, 6) == 0
            &&& bmp.skip(14) == data
            &&& bits > 8 ==> le32(bmp, 10) == 14 + info
            &&& bits <= 8 && info == 12 ==> le32(bmp, 10) == 14 + info + 3 * pow2(bits as nat)
            &&& bits <= 8 && info != 12 && used == 0 ==> le32(bmp, 10) == 14 + info + 4 * pow2(
                bits as nat,
            )
            &&& bits <= 8 && info != 12 && used > 0 ==> le32(bmp, 10) == 14 + info + 4 * used
        }),
{
    let bmp = bmp_of(data);
    let colors = palette_size(data, info);
    let offset = ((14 + info + colors) % 0x1_0000_0000) as u32;
    let size = ((14 + data.len()) % 0x1_0000_0000) as u32;
    assert(data[0] == info % 256);
    lemma_file_header(size, offset, data);
    if bits <= 8 {
        lemma_color_count(bits as int);
        vstd::arithmetic::power2::lemma2_to64();
    }
}

proof fn lemma_file_header(size: u32, offset: u32, data: Seq<u8>)
    ensures
        ({
            let bmp = bmp_file_header(size, offset) + data;
            &&& bmp.len() == data.len() + 14
            &&& bmp[0] == 0x42 && bmp[1] == 0x4D
            &&& le32(bmp, 2) == size
            &&& le32(bmp, 6) == 0
            &&& le32(bmp, 10) == offset
            &&& bmp.skip(14) == data
        }),
{
    let bmp = bmp_file_header(size, offset) + data;
    assert(bmp.subrange(2, 6) =~= le32_bytes(size));
    assert(bmp.subrange(6, 8) =~= le16_bytes(0));
    assert(bmp.subrange(8, 10) =~= le16_bytes(0));
    assert(bmp.subrange(10, 14) =~= le32_bytes(offset));
    lemma_holds_le32(bmp, 2, size);
    lemma_two_zero_words(bmp, 6);
    lemma_holds_le32(bmp, 10, offset);
    assert(bmp.skip(14) =~= data);
}

/// A file that is a BMP file or a placeable metafile already stays as it is.
pub proof fn law_image_files_stay(data: Seq<u8>)
    requires
        data.len() >= 4,
        data[0] == 0x42 && data[1] == 0x4D || data[0] == 0xD7 && data[1] == 0xCD && data[2] == 0xC6
            && data[3] == 0x9A,
    ensures
        image_of(data) == data,
{
}

/// A metafile decodes to a placeable metafile: magic number, a bounding box
/// from the origin to the width and height of the picture, 2540 units per inch,
/// a checksum that makes all words cancel out, and the metafile.
pub proof fn law_metafile_keeps_its_fields(
    data: Seq<u8>,
    at: u32,
    packing: u8,
    h: MetafileHeader,
    x: MetafileExtras,
    packed: Seq<u8>,
    content: Seq<u8>,
)
    requires
        container_with(data, at, 8, packing),
        metafile_header_fits(h, x),
        packed.len() == h.data_size,
        unpacked(packed, packing) == Some(content),
        holds(data, at + 2, metafile_header_bytes(h, x) + packed),
    ensures
        mrb_wmf(data) == Some(image_of(data)),
        is_wmf_with(image_of(data), h.width, h.height, content),
{
    lemma_container(data, at, 8, packing);
    law_metafile_is_read_back(data, at, packing, h, x, packed, content);
    assert(mrb_bmp(data) is None);
    lemma_wmf_fields(h.width, h.height, content);
}

/// Whether `wmf` is a placeable metafile of the given size and content.
pub open spec fn is_wmf_with(wmf: Seq<u8>, width: u16, height: u16, content: Seq<u8>) -> bool {
    &&& wmf.len() == 22 + content.len()
    &&& le32(wmf, 0) == 0x9AC6_CDD7
    &&& le16(wmf, 4) == 0
    &&& le16(wmf, 6) == 0 && le16(wmf, 8) == 0
    &&& le16(wmf, 10) == width && le16(wmf, 12) == height
    &&& le16(wmf, 14) == 2540
    &&& le32(wmf, 16) == 0
    &&& le16(wmf, 0) ^ le16(wmf, 2) ^ le16(wmf, 4) ^ le16(wmf, 6) ^ le16(wmf, 8) ^ le16(wmf, 10)
        ^ le16(wmf, 12) ^ le16(wmf, 14) ^ le16(wmf, 16) ^ le16(wmf, 18) ^ le16(wmf, 20) == 0
    &&& wmf.skip(22) == content
}

proof fn lemma_wmf_fields(width: u16, height: u16, content: Seq<u8>)
    ensures
        is_wmf_with(apm_file(width, height, content), width, height, content),
{
    let words = apm_words(width, height);
    let sum = xor_of(words);
    let all = words.push(sum);
    lemma_bytes_of_index(all);
    let bytes = bytes_of(all);
    let wmf = apm_file(width, height, content);
    assert forall|i: int| 0 <= i < 11 implies le16(wmf, 2 * i) == #[trigger] all[i] by {
        assert(wmf[2 * i] == bytes[2 * i] && wmf[2 * i + 1] == bytes[2 * i + 1]);
    }
    assert(all[0] == le16(wmf, 0) && all[1] == le16(wmf, 2) && all[2] == le16(wmf, 4));
    assert(all[3] == le16(wmf, 6) && all[4] == le16(wmf, 8) && all[5] == le16(wmf, 10));
    assert(all[6] == le16(wmf, 12) && all[7] == le16(wmf, 14) && all[8] == le16(wmf, 16));
    assert(all[9] == le16(wmf, 18) && all[10] == le16(wmf, 20));
    lemma_xor_of_ten(words);
    assert(wmf.skip(22) =~= content);
    let a = words[0];
    let b = words[1];
    assert(0u16 ^ a == a) by (bit_vector);
    assert(sum ^ sum == 0) by (bit_vector);
}

proof fn lemma_xor_of_ten(w: Seq<u16>)
    requires
        w.len() == 10,
    ensures
        xor_of(w) == 0u16 ^ w[0] ^ w[1] ^ w[2] ^ w[3] ^ w[4] ^ w[5] ^ w[6] ^ w[7] ^ w[8] ^ w[9],
{
    reveal_with_fuel(xor_of, 11);
    assert forall|k: int| 0 < k <= 10 implies #[trigger] w.take(k).drop_last() == w.take(k - 1) by {
        assert(w.take(k).drop_last() =~= w.take(k - 1));
    }
    assert(w.take(10) =~= w);
    lemma_xor_step(w, 1);
    lemma_xor_step(w, 2);
    lemma_xor_step(w, 3);
    lemma_xor_step(w, 4);
    lemma_xor_step(w, 5);
    lemma_xor_step(w, 6);
    lemma_xor_step(w, 7);
    lemma_xor_step(w, 8);
    lemma_xor_step(w, 9);
    lemma_xor_step(w, 10);
}

proof fn lemma_xor_step(w: Seq<u16>, k: int)
    requires
        0 < k <= w.len(),
    ensures
        xor_of(w.take(k)) == xor_of(w.take(k - 1)) ^ w[k - 1],
        xor_of(w.take(0)) == 0,
{
    assert(w.take(k).drop_last() =~= w.take(k - 1));
}

/// Data of an unknown format stays as it is: no BMP file, no metafile, no
/// container, and no info header of a known size.
pub proof fn law_unknown_data_stays(data: Seq<u8>)
    requires
        data.len() >= 4,
        !(data[0] == 0x42 && data[1] == 0x4D),
        !(data[0] == 0x6C && (data[1] == 0x50 || data[1] == 0x70)),
        le32(data, 0) != 0x9AC6_CDD7,
        le32(data, 0) != 12 && le32(data, 0) != 40 && le32(data, 0) != 108 && le32(data, 0) != 124,
    ensures
        image_of(data) == data,
        bmp_of(data) == data,
{
}

/// A container stays as it is where its first picture is of another type, where
/// it has no picture, or where a bitmap without a palette is not monochrome or
/// packed otherwise than plainly or by runs.
pub proof fn law_other_pictures_stay(
    data: Seq<u8>,
    at: u32,
    kind: u8,
    packing: u8,
    h: BitmapHeader,
    x: BitmapExtras,
)
    ensures
        container_with(data, at, kind, packing) && kind != 5 && kind != 6 && kind != 8 ==> image_of(
            data,
        ) == data,
        data.len() >= 8 && data[0] == 0x6C && (data[1] == 0x50 || data[1] == 0x70) && le16(data, 2)
            == 0 ==> image_of(data) == data,
        container_with(data, at, 5, packing) && bitmap_header_fits(h, x) && holds(
            data,
            at + 2,
            bitmap_header_bytes(h, x),
        ) && (h.bit_count != 1 || packing > 1) ==> image_of(data) == data,
{
    if container_with(data, at, kind, packing) {
        lemma_container(data, at, kind, packing);
    }
    if container_with(data, at, 5, packing) && bitmap_header_fits(h, x) && holds(
        data,
        at + 2,
        bitmap_header_bytes(h, x),
    ) {
        lemma_container(data, at, 5, packing);
        crate::pictures::lemma_picture(data, at, 5, packing);
        crate::pictures::lemma_bitmap_header(data, at + 2, h, x);
    }
}

} // verus!
