//! Pictures: BMP headers, and the MRB container with its bitmaps and
//! metafiles.
//!
//! A picture of a help file is usually an MRB container (magic `lp` or `lP`),
//! whose first picture is a device-independent bitmap (DIB), a
//! device-dependent bitmap (DDB) or a Windows Metafile, run-length encoded
//! and LZ77-compressed as two flags say.

use vstd::prelude::*;

use crate::bytes::{
    le16, le16_bytes, le32, le32_bytes, lemma_empty_front, push_all, push_u16, push_u32, u16_at,
    u32_at,
};
use crate::container::{read_result, ContainerView, HlpContainer};
use crate::cursor::{cdword_at, cword_at, Cursor};
use crate::error::ErrorView;
use crate::lz77::{lz77, lz77_decompress};
use crate::phrase::{push_repeated, repeated};
use crate::runlen::{derun, derun_from};
use crate::Error;

verus! {

/// The bytes at the start of a BMP file.
pub const BMP_MAGIC: [u8; 2] = [0x42, 0x4D];

/// Size of the file header of a BMP file.
pub const BMP_FILE_HEADER_SIZE: usize = 14;

/// Size of the most common info header of a BMP file.
pub const BITMAPINFOHEADER_SIZE: u32 = 40;

/// Picture type: device-dependent bitmap.
pub const MRB_TYPE_DDB: u8 = 5;

/// Picture type: device-independent bitmap.
pub const MRB_TYPE_DIB: u8 = 6;

/// Picture type: Windows Metafile.
pub const MRB_TYPE_METAFILE: u8 = 8;

/// The number at the start of an Aldus Placeable Metafile.
pub const APM_MAGIC: u32 = 0x9AC6_CDD7;

/// Size of the header of an Aldus Placeable Metafile.
pub const APM_HEADER_LEN: usize = 22;

/// Number of different 32-bit words.
pub const WORD_SIZE: u64 = 0x1_0000_0000;

// ---------------------------------------------------------------------------
// BMP headers
// ---------------------------------------------------------------------------

/// Two to the power `n`, for `n` up to eight.
pub open spec fn color_count(n: int) -> int {
    if n <= 0 {
        1
    } else if n == 1 {
        2
    } else if n == 2 {
        4
    } else if n == 3 {
        8
    } else if n == 4 {
        16
    } else if n == 5 {
        32
    } else if n == 6 {
        64
    } else if n == 7 {
        128
    } else {
        256
    }
}

/// Computes the number of colors of `n` bits, for `n` up to eight.
pub fn colors_of_bits(n: u16) -> (r: u32)
    requires
        n <= 8,
    ensures
        r == color_count(n as int),
{
    if n == 0 {
        1
    } else if n == 1 {
        2
    } else if n == 2 {
        4
    } else if n == 3 {
        8
    } else if n == 4 {
        16
    } else if n == 5 {
        32
    } else if n == 6 {
        64
    } else if n == 7 {
        128
    } else {
        256
    }
}

/// The size of the palette behind an info header, as a 32-bit word: three
/// bytes per color behind a 12-byte header, four behind any other. With more
/// than eight bits per pixel, or without the fields that tell, there is none.
pub open spec fn palette_size(data: Seq<u8>, info_header_size: u32) -> u32 {
    if info_header_size == 12 {
        if data.len() >= 12 && le16(data, 10) <= 8 {
            (3 * color_count(le16(data, 10) as int)) as u32
        } else {
            0
        }
    } else if data.len() >= 36 && le16(data, 14) <= 8 {
        (4 * (if le32(data, 32) > 0 {
            le32(data, 32) as int
        } else {
            color_count(le16(data, 14) as int)
        }) % WORD_SIZE as int) as u32
    } else {
        0
    }
}

/// Computes the size of the palette behind an info header.
pub fn compute_palette_size(data: &[u8], info_header_size: u32) -> (r: u32)
    ensures
        r == palette_size(data@, info_header_size),
{
    if info_header_size == 12 {
        if data.len() >= 12 {
            let bits: u16 = u16_at(data, 10);
            if bits <= 8 {
                return 3 * colors_of_bits(bits);
            }
        }
        return 0;
    }
    if data.len() >= 36 {
        let bits: u16 = u16_at(data, 14);
        if bits <= 8 {
            let used: u32 = u32_at(data, 32);
            let colors: u32 = if used > 0 {
                used
            } else {
                colors_of_bits(bits)
            };
            return ((4 * (colors as u64)) % WORD_SIZE) as u32;
        }
    }
    0
}

/// A file header for a BMP file of the given size whose pixels start at the
/// given offset.
pub open spec fn bmp_file_header(size: u32, pixel_offset: u32) -> Seq<u8> {
    BMP_MAGIC@ + le32_bytes(size) + le16_bytes(0) + le16_bytes(0) + le32_bytes(pixel_offset)
}

/// An info header and its pixels with a file header in front.
pub open spec fn with_file_header(data: Seq<u8>) -> Seq<u8> {
    let info = if data.len() >= 4 {
        le32(data, 0)
    } else {
        BITMAPINFOHEADER_SIZE
    };
    bmp_file_header(
        ((BMP_FILE_HEADER_SIZE + data.len()) % WORD_SIZE as int) as u32,
        ((BMP_FILE_HEADER_SIZE + info + palette_size(data, info)) % WORD_SIZE as int) as u32,
    ) + data
}

/// Whether data starts with an info header of a known size.
pub open spec fn has_info_header(data: Seq<u8>) -> bool {
    data.len() >= 4 && (le32(data, 0) == 40 || le32(data, 0) == 12 || le32(data, 0) == 108 || le32(
        data,
        0,
    ) == 124)
}

/// Whether data starts with the magic bytes of a BMP file.
pub open spec fn is_bmp(data: Seq<u8>) -> bool {
    data.len() >= 2 && data[0] == 0x42 && data[1] == 0x4D
}

/// BMP data with a file header: put in front where only an info header is
/// there, and unchanged otherwise.
pub open spec fn bmp_of(data: Seq<u8>) -> Seq<u8> {
    if is_bmp(data) {
        data
    } else if has_info_header(data) {
        with_file_header(data)
    } else {
        data
    }
}

/// Appends a BMP file header.
fn push_file_header(out: &mut Vec<u8>, size: u32, pixel_offset: u32)
    ensures
        final(out)@ == old(out)@ + bmp_file_header(size, pixel_offset),
{
    push_all(out, BMP_MAGIC.as_slice());
    push_u32(out, size);
    push_u16(out, 0);
    push_u16(out, 0);
    push_u32(out, pixel_offset);
    assert(out@ =~= old(out)@ + bmp_file_header(size, pixel_offset));
}

/// A sum as a 32-bit word depends on the low bits of its parts only.
proof fn lemma_word_sum(a: int, b: int)
    requires
        0 <= a,
        0 <= b,
    ensures
        (a + b % WORD_SIZE as int) % WORD_SIZE as int == (a + b) % WORD_SIZE as int,
{
    vstd::arithmetic::div_mod::lemma_add_mod_noop_right(a, b, WORD_SIZE as int);
}

/// Puts a file header in front of an info header and its pixels.
pub fn prepend_bmp_file_header(data: &[u8]) -> (bmp: Vec<u8>)
    ensures
        bmp@ == with_file_header(data@),
{
    let size: u32 = ((BMP_FILE_HEADER_SIZE as u64 + (data.len() as u64) % WORD_SIZE)
        % WORD_SIZE) as u32;
    let info: u32 = if data.len() >= 4 {
        u32_at(data, 0)
    } else {
        BITMAPINFOHEADER_SIZE
    };
    let palette: u32 = compute_palette_size(data, info);
    let pixel_offset: u32 = ((BMP_FILE_HEADER_SIZE as u64 + info as u64 + palette as u64)
        % WORD_SIZE) as u32;
    let mut bmp: Vec<u8> = Vec::new();
    push_file_header(&mut bmp, size, pixel_offset);
    proof {
        lemma_empty_front(bmp_file_header(size, pixel_offset));
        lemma_word_sum(BMP_FILE_HEADER_SIZE as int, data@.len() as int);
    }
    push_all(&mut bmp, data);
    bmp
}

/// Makes sure that BMP data has a file header.
///
/// Data that starts with `BM` stays as it is, and so does data of an unknown
/// format. Sizes that do not fit into 32 bits are cut off to their low bits.
pub fn ensure_bmp_header(data: &[u8]) -> (bmp: Vec<u8>)
    ensures
        bmp@ == bmp_of(data@),
{
    if data.len() >= 2 && data[0] == 0x42 && data[1] == 0x4D {
        return vstd::slice::slice_to_vec(data);
    }
    if data.len() >= 4 {
        let size: u32 = u32_at(data, 0);
        if size == 40 || size == 12 || size == 108 || size == 124 {
            return prepend_bmp_file_header(data);
        }
    }
    vstd::slice::slice_to_vec(data)
}

/// Making sure of the header a second time changes nothing.
pub proof fn law_header_is_added_once(data: Seq<u8>)
    ensures
        bmp_of(bmp_of(data)) == bmp_of(data),
{
    if !is_bmp(data) && has_info_header(data) {
        assert(is_bmp(with_file_header(data)));
    }
}

/// The data stays behind the file header, which takes up fourteen bytes.
pub proof fn law_header_keeps_the_data(data: Seq<u8>)
    requires
        !is_bmp(data),
        has_info_header(data),
    ensures
        is_bmp(bmp_of(data)),
        bmp_of(data).len() == data.len() + BMP_FILE_HEADER_SIZE,
        bmp_of(data).skip(BMP_FILE_HEADER_SIZE as int) == data,
{
    assert(bmp_of(data).skip(BMP_FILE_HEADER_SIZE as int) =~= data);
}

// ---------------------------------------------------------------------------
// MRB containers
// ---------------------------------------------------------------------------

/// Whether data starts with the magic number of an MRB container.
pub open spec fn is_mrb(data: Seq<u8>) -> bool {
    data.len() >= 2 && (le16(data, 0) == 0x506C || le16(data, 0) == 0x706C)
}

/// Where the first picture of a container starts.
pub open spec fn first_picture(data: Seq<u8>) -> Option<int> {
    if data.len() < 8 || le16(data, 2) == 0 || le32(data, 4) > data.len() {
        None
    } else {
        Some(le32(data, 4) as int)
    }
}

/// `n` compressed double words from `pos` on, and where they end.
pub open spec fn cdwords_at(data: Seq<u8>, pos: int, n: nat) -> Option<(Seq<u32>, int)>
    decreases n,
{
    if n == 0 {
        Some((Seq::empty(), pos))
    } else {
        match cdwords_at(data, pos, (n - 1) as nat) {
            None => None,
            Some((before, next)) => match cdword_at(data, next) {
                None => None,
                Some((v, end)) => Some((before.push(v), end)),
            },
        }
    }
}

/// The header of a bitmap.
pub struct BitmapHeader {
    pub planes: u32,
    pub bit_count: u32,
    pub width: u32,
    pub height: u32,
    pub clr_used: u32,
    pub data_size: u32,
    pub hotspot_size: u32,
}

/// The header of a bitmap from `pos` on, and where it ends: resolutions (two
/// compressed double words), planes and bits per pixel (compressed words),
/// then width, height, colors, important colors, data size and hotspot size
/// (compressed double words), and two 32-bit offsets.
pub open spec fn bitmap_header(data: Seq<u8>, pos: int) -> Option<(BitmapHeader, int)> {
    match cdwords_at(data, pos, 2) {
        None => None,
        Some((_, p)) => match cword_at(data, p) {
            None => None,
            Some((planes, p)) => match cword_at(data, p) {
                None => None,
                Some((bit_count, p)) => match cdwords_at(data, p, 6) {
                    None => None,
                    Some((v, p)) => if p + 8 > data.len() {
                        None
                    } else {
                        Some(
                            (
                                BitmapHeader {
                                    planes,
                                    bit_count,
                                    width: v[0],
                                    height: v[1],
                                    clr_used: v[2],
                                    data_size: v[4],
                                    hotspot_size: v[5],
                                },
                                p + 8,
                            ),
                        )
                    },
                },
            },
        },
    }
}

/// The header of a metafile.
pub struct MetafileHeader {
    pub width: u16,
    pub height: u16,
    pub data_size: u32,
    pub hotspot_size: u32,
}

/// The header of a metafile from `pos` on, and where it ends: mapping mode (a
/// compressed word), width and height (16 bits each), resolution, data size
/// and hotspot size (compressed double words), and two 32-bit offsets.
pub open spec fn metafile_header(data: Seq<u8>, pos: int) -> Option<(MetafileHeader, int)> {
    match cword_at(data, pos) {
        None => None,
        Some((_, p)) => if p + 4 > data.len() {
            None
        } else {
            match cdwords_at(data, p + 4, 3) {
                None => None,
                Some((v, q)) => if q + 8 > data.len() {
                    None
                } else {
                    Some(
                        (
                            MetafileHeader {
                                width: le16(data, p),
                                height: le16(data, p + 2),
                                data_size: v[1],
                                hotspot_size: v[2],
                            },
                            q + 8,
                        ),
                    )
                },
            }
        },
    }
}

/// The number of colors in the palette of a DIB.
pub open spec fn dib_colors(header: BitmapHeader) -> int {
    if header.bit_count > 8 {
        0
    } else if header.clr_used == 0 {
        color_count(header.bit_count as int)
    } else {
        header.clr_used as int
    }
}

/// A payload without its packing: 0 plain, 1 run-length encoded, 2 LZ77, 3
/// run-length encoded and then LZ77. There is no other packing.
pub open spec fn unpacked(data: Seq<u8>, packing: u8) -> Option<Seq<u8>> {
    if packing == 0 {
        Some(data)
    } else if packing == 1 {
        Some(derun_from(data, 0))
    } else if packing == 2 {
        Some(lz77(data))
    } else if packing == 3 {
        Some(derun_from(lz77(data), 0))
    } else {
        None
    }
}

/// The part of `data` of the given size at `start`, where it is there.
pub open spec fn part_at(data: Seq<u8>, start: int, size: int) -> Option<Seq<u8>> {
    if start + size > data.len() {
        None
    } else {
        Some(data.subrange(start, start + size))
    }
}

/// Bytes per row of a DDB, whose rows are aligned to two bytes.
pub open spec fn ddb_stride(width: int, bit_count: int) -> int {
    (width * bit_count + 15) / 16 * 2
}

/// Bytes per row of a DIB, whose rows are aligned to four bytes.
pub open spec fn dib_stride(width: int, bit_count: int) -> int {
    (width * bit_count + 31) / 32 * 4
}

/// The first `n` rows, each of `stride` bytes, with `pad` spaces behind each.
pub open spec fn padded_rows(data: Seq<u8>, stride: int, pad: int, n: nat) -> Seq<u8>
    decreases n,
{
    if n == 0 {
        Seq::empty()
    } else {
        padded_rows(data, stride, pad, (n - 1) as nat) + data.subrange(
            (n - 1) * stride,
            (n - 1) * stride + stride,
        ) + repeated(0x20, pad as nat)
    }
}

/// The pixels of a DDB in the row alignment of a DIB.
pub open spec fn dib_pixels(data: Seq<u8>, width: int, height: int, bit_count: int) -> Option<
    Seq<u8>,
> {
    if width <= 0 || height <= 0 || data.len() < ddb_stride(width, bit_count) * height {
        None
    } else {
        Some(
            padded_rows(
                data,
                ddb_stride(width, bit_count),
                dib_stride(width, bit_count) - ddb_stride(width, bit_count),
                height as nat,
            ),
        )
    }
}

/// A BMP file of the given header, palette and pixels.
pub open spec fn bmp_file(
    header: BitmapHeader,
    colors: u32,
    palette: Seq<u8>,
    pixels: Seq<u8>,
) -> Seq<u8> {
    let offset = BMP_FILE_HEADER_SIZE + BITMAPINFOHEADER_SIZE + palette.len();
    bmp_file_header(
        ((offset + pixels.len()) % WORD_SIZE as int) as u32,
        (offset % WORD_SIZE as int) as u32,
    ) + le32_bytes(BITMAPINFOHEADER_SIZE) + le32_bytes(header.width) + le32_bytes(header.height)
        + le16_bytes(header.planes as u16) + le16_bytes(header.bit_count as u16) + le32_bytes(0)
        + le32_bytes((pixels.len() % WORD_SIZE as nat) as u32) + le32_bytes(0) + le32_bytes(0)
        + le32_bytes(colors) + le32_bytes(0) + palette + pixels
}

/// The palette of a DDB: black and white.
pub open spec fn monochrome() -> Seq<u8> {
    seq![0u8, 0, 0, 0, 0xFF, 0xFF, 0xFF, 0]
}

/// The BMP file of a DIB whose header ends at `start`.
pub open spec fn dib_to_bmp(data: Seq<u8>, header: BitmapHeader, start: int, packing: u8) -> Option<
    Seq<u8>,
> {
    let colors = dib_colors(header);
    match part_at(data, start, 4 * colors) {
        None => None,
        Some(palette) => match part_at(data, start + 4 * colors, header.data_size as int) {
            None => None,
            Some(packed) => match unpacked(packed, packing) {
                None => None,
                Some(pixels) => Some(bmp_file(header, colors as u32, palette, pixels)),
            },
        },
    }
}

/// The BMP file of a DDB whose header ends at `start`. Only monochrome ones
/// are there to be had, since no palette is stored, and only plain or
/// run-length encoded.
pub open spec fn ddb_to_bmp(data: Seq<u8>, header: BitmapHeader, start: int, packing: u8) -> Option<
    Seq<u8>,
> {
    if header.bit_count != 1 || packing > 1 {
        None
    } else {
        match part_at(data, start, header.data_size as int) {
            None => None,
            Some(packed) => {
                let pixels = if packing == 0 {
                    packed
                } else {
                    derun_from(packed, 0)
                };
                match dib_pixels(pixels, header.width as int, header.height as int, 1) {
                    None => None,
                    Some(rows) => Some(bmp_file(header, 2, monochrome(), rows)),
                }
            },
        }
    }
}

/// The BMP file of the first picture of a container.
pub open spec fn mrb_bmp(data: Seq<u8>) -> Option<Seq<u8>> {
    match first_picture(data) {
        None => None,
        Some(at) => if at + 2 > data.len() || (data[at] != MRB_TYPE_DIB && data[at]
            != MRB_TYPE_DDB) {
            None
        } else {
            match bitmap_header(data, at + 2) {
                None => None,
                Some((header, start)) => if data[at] == MRB_TYPE_DIB {
                    dib_to_bmp(data, header, start, data[at + 1])
                } else {
                    ddb_to_bmp(data, header, start, data[at + 1])
                },
            }
        },
    }
}

/// The words of the header of a placeable metafile, without the checksum:
/// magic number, handle, bounding box, units per inch, reserved.
pub open spec fn apm_words(width: u16, height: u16) -> Seq<u16> {
    seq![0xCDD7u16, 0x9AC6u16, 0u16, 0u16, 0u16, width, height, 2540u16, 0u16, 0u16]
}

/// The exclusive-or of words.
pub open spec fn xor_of(words: Seq<u16>) -> u16
    decreases words.len(),
{
    if words.len() == 0 {
        0
    } else {
        xor_of(words.drop_last()) ^ words.last()
    }
}

/// The bytes of words.
pub open spec fn bytes_of(words: Seq<u16>) -> Seq<u8>
    decreases words.len(),
{
    if words.len() == 0 {
        Seq::empty()
    } else {
        bytes_of(words.drop_last()) + le16_bytes(words.last())
    }
}

/// A placeable metafile: its header with the checksum, and the metafile.
pub open spec fn apm_file(width: u16, height: u16, metafile: Seq<u8>) -> Seq<u8> {
    let words = apm_words(width, height);
    bytes_of(words.push(xor_of(words))) + metafile
}

/// The placeable metafile of the first picture of a container.
pub open spec fn mrb_wmf(data: Seq<u8>) -> Option<Seq<u8>> {
    match first_picture(data) {
        None => None,
        Some(at) => if at + 2 > data.len() || data[at] != MRB_TYPE_METAFILE {
            None
        } else {
            match metafile_header(data, at + 2) {
                None => None,
                Some((header, start)) => match part_at(data, start, header.data_size as int) {
                    None => None,
                    Some(packed) => match unpacked(packed, data[at + 1]) {
                        None => None,
                        Some(metafile) => Some(apm_file(header.width, header.height, metafile)),
                    },
                },
            }
        },
    }
}

/// Whether data is a placeable metafile.
pub open spec fn is_placeable(data: Seq<u8>) -> bool {
    data.len() >= 4 && le32(data, 0) == APM_MAGIC
}

/// The image that the bytes of a picture file stand for: the BMP file or the
/// metafile of a container, a metafile as it is, and other data as a BMP file.
/// A container whose picture cannot be had stays as it is.
pub open spec fn image_of(raw: Seq<u8>) -> Seq<u8> {
    if raw.len() == 0 {
        raw
    } else if is_mrb(raw) {
        match mrb_bmp(raw) {
            Some(bmp) => bmp,
            None => match mrb_wmf(raw) {
                Some(wmf) => wmf,
                None => raw,
            },
        }
    } else if is_placeable(raw) {
        raw
    } else {
        bmp_of(raw)
    }
}

/// The image of the internal file with the given name, where there is one.
pub open spec fn extract_result(c: ContainerView, name: Seq<char>) -> Result<
    Option<Seq<u8>>,
    ErrorView,
> {
    match read_result(c, name) {
        Ok(raw) => Ok(Some(image_of(raw))),
        Err(ErrorView::FileNotFound(_)) => Ok(None),
        Err(e) => Err(e),
    }
}

// ---------------------------------------------------------------------------
// Decoding
// ---------------------------------------------------------------------------

/// Finds the first picture of a container.
pub fn find_first_picture(data: &[u8]) -> (r: Option<usize>)
    ensures
        match r {
            Some(at) => first_picture(data@) == Some(at as int) && at <= data@.len(),
            None => first_picture(data@) == None::<int>,
        },
{
    if data.len() < 8 {
        return None;
    }
    let num_pictures: u16 = u16_at(data, 2);
    let at: u32 = u32_at(data, 4);
    if num_pictures == 0 || at as u64 > data.len() as u64 {
        return None;
    }
    Some(at as usize)
}

/// Reads `n` compressed double words.
fn take_cdwords(cur: &mut Cursor<'_>, n: usize) -> (r: Option<Vec<u32>>)
    requires
        old(cur).wf(),
    ensures
        final(cur).wf(),
        final(cur).source() == old(cur).source(),
        match r {
            Some(v) => cdwords_at(old(cur).source(), old(cur).at(), n as nat) == Some(
                (v@, final(cur).at()),
            ) && v@.len() == n && forall|i: int| 0 <= i < n ==> #[trigger] v@[i] <= 0x7FFF_FFFF,
            None => cdwords_at(old(cur).source(), old(cur).at(), n as nat) == None::<
                (Seq<u32>, int),
            >,
        },
{
    let mut v: Vec<u32> = Vec::new();
    let mut i: usize = 0;
    assert(v@ =~= Seq::empty());
    let ghost data = cur.source();
    let ghost start = cur.at();
    while i < n
        invariant
            i <= n,
            cur.wf(),
            cur.source() == data,
            data == old(cur).source(),
            start == old(cur).at(),
            v@.len() == i,
            forall|k: int| 0 <= k < i ==> #[trigger] v@[k] <= 0x7FFF_FFFF,
            cdwords_at(data, start, i as nat) == Some((v@, cur.at())),
        decreases n - i,
    {
        match cur.take_cdword() {
            Some(x) => {
                v.push(x);
            },
            None => {
                proof {
                    lemma_cdwords_none(data, start, (i + 1) as nat, n as nat);
                }
                return None;
            },
        }
        i += 1;
    }
    Some(v)
}

/// Where fewer double words are not there, more are not there either.
proof fn lemma_cdwords_none(data: Seq<u8>, pos: int, k: nat, n: nat)
    requires
        k <= n,
        cdwords_at(data, pos, k) is None,
    ensures
        cdwords_at(data, pos, n) is None,
    decreases n,
{
    if k < n {
        lemma_cdwords_none(data, pos, k, (n - 1) as nat);
    }
}

/// Reads the header of a bitmap. Gives it with where it ends.
pub fn read_bitmap_header(data: &[u8], pos: usize) -> (r: Option<(BitmapHeader, usize)>)
    requires
        pos <= data@.len(),
    ensures
        match r {
            Some((h, end)) => bitmap_header(data@, pos as int) == Some((h, end as int)) && end
                <= data@.len() && h.planes <= 0x7FFF && h.bit_count <= 0x7FFF && h.width
                <= 0x7FFF_FFFF && h.height <= 0x7FFF_FFFF && h.clr_used <= 0x7FFF_FFFF
                && h.data_size <= 0x7FFF_FFFF && h.hotspot_size <= 0x7FFF_FFFF,
            None => bitmap_header(data@, pos as int) == None::<(BitmapHeader, int)>,
        },
{
    let mut cur: Cursor<'_> = Cursor::new_at(data, pos);
    if take_cdwords(&mut cur, 2).is_none() {
        return None;
    }
    let planes: u32 = match cur.take_cword() {
        Some(n) => n,
        None => {
            return None;
        },
    };
    let bit_count: u32 = match cur.take_cword() {
        Some(n) => n,
        None => {
            return None;
        },
    };
    let v: Vec<u32> = match take_cdwords(&mut cur, 6) {
        Some(v) => v,
        None => {
            return None;
        },
    };
    let end: usize = cur.pos();
    if data.len() - end < 8 {
        return None;
    }
    Some(
        (
            BitmapHeader {
                planes,
                bit_count,
                width: v[0],
                height: v[1],
                clr_used: v[2],
                data_size: v[4],
                hotspot_size: v[5],
            },
            end + 8,
        ),
    )
}

/// Reads the header of a metafile. Gives it with where it ends.
pub fn read_metafile_header(data: &[u8], pos: usize) -> (r: Option<(MetafileHeader, usize)>)
    requires
        pos <= data@.len(),
    ensures
        match r {
            Some((h, end)) => metafile_header(data@, pos as int) == Some((h, end as int)) && end
                <= data@.len(),
            None => metafile_header(data@, pos as int) == None::<(MetafileHeader, int)>,
        },
{
    let mut cur: Cursor<'_> = Cursor::new_at(data, pos);
    if cur.take_cword().is_none() {
        return None;
    }
    let at: usize = cur.pos();
    if data.len() - at < 4 {
        return None;
    }
    let mut cur: Cursor<'_> = Cursor::new_at(data, at + 4);
    let v: Vec<u32> = match take_cdwords(&mut cur, 3) {
        Some(v) => v,
        None => {
            return None;
        },
    };
    let end: usize = cur.pos();
    if data.len() - end < 8 {
        return None;
    }
    Some(
        (
            MetafileHeader {
                width: u16_at(data, at),
                height: u16_at(data, at + 2),
                data_size: v[1],
                hotspot_size: v[2],
            },
            end + 8,
        ),
    )
}

/// Takes the packing off a payload.
pub fn decompress_packed(input: &[u8], by_packed: u8) -> (r: Option<Vec<u8>>)
    ensures
        match r {
            Some(v) => unpacked(input@, by_packed) == Some(v@),
            None => unpacked(input@, by_packed) == None::<Seq<u8>>,
        },
{
    if by_packed == 0 {
        Some(vstd::slice::slice_to_vec(input))
    } else if by_packed == 1 {
        Some(derun(input))
    } else if by_packed == 2 {
        match lz77_decompress(input) {
            Ok(v) => Some(v),
            Err(_) => None,
        }
    } else if by_packed == 3 {
        match lz77_decompress(input) {
            Ok(v) => Some(derun(v.as_slice())),
            Err(_) => None,
        }
    } else {
        None
    }
}

proof fn lemma_rows_fit(i: int, rows: int, stride: int)
    requires
        0 <= i < rows,
        0 <= stride,
    ensures
        0 <= i * stride,
        i * stride + stride <= stride * rows,
{
    assert(i * stride + stride <= stride * rows) by (nonlinear_arith)
        requires
            0 <= i < rows,
            0 <= stride,
    ;
    assert(0 <= i * stride) by (nonlinear_arith)
        requires
            0 <= i,
            0 <= stride,
    ;
}

/// Puts the pixels of a DDB into the row alignment of a DIB. The bytes that
/// fill up a row are spaces.
pub fn ddb_to_dib_pixels(ddb: &[u8], width: i32, height: i32, bit_count: u16) -> (r: Option<
    Vec<u8>,
>)
    ensures
        match r {
            Some(v) => dib_pixels(ddb@, width as int, height as int, bit_count as int) == Some(v@),
            None => dib_pixels(ddb@, width as int, height as int, bit_count as int) == None::<
                Seq<u8>,
            >,
        },
{
    if width <= 0 || height <= 0 {
        return None;
    }
    assert(0 <= width as int * bit_count as int <= 0x7FFF_FFFF * 65535) by (nonlinear_arith)
        requires
            0 <= width <= 0x7FFF_FFFF,
            0 <= bit_count <= 65535,
    ;
    let bits: u64 = (width as u64) * (bit_count as u64);
    let stride: u64 = (bits + 15) / 16 * 2;
    let padded: u64 = (bits + 31) / 32 * 4;
    let pad: u64 = padded - stride;
    let rows: u64 = height as u64;
    let len: usize = ddb.len();
    assert(stride == ddb_stride(width as int, bit_count as int));
    assert(padded == dib_stride(width as int, bit_count as int));
    let needed: u64 = match stride.checked_mul(rows) {
        Some(n) => n,
        None => {
            return None;
        },
    };
    if (len as u64) < needed {
        return None;
    }
    let mut out: Vec<u8> = Vec::new();
    let mut i: u64 = 0;
    while i < rows
        invariant
            i <= rows,
            len == ddb@.len(),
            stride * rows <= len,
            pad <= 2,
            out@ == padded_rows(ddb@, stride as int, pad as int, i as nat),
        decreases rows - i,
    {
        proof {
            lemma_rows_fit(i as int, rows as int, stride as int);
        }
        let start: usize = (i * stride) as usize;
        let row: &[u8] = vstd::slice::slice_subrange(ddb, start, start + stride as usize);
        push_all(&mut out, row);
        push_repeated(&mut out, 0x20, pad as usize);
        i += 1;
    }
    Some(out)
}

/// Assembles a BMP file.
fn build_bmp(header: &BitmapHeader, colors: u32, palette: &[u8], pixels: &[u8]) -> (bmp: Vec<u8>)
    requires
        header.planes <= 0x7FFF,
        header.bit_count <= 0x7FFF,
    ensures
        bmp@ == bmp_file(*header, colors, palette@, pixels@),
{
    let offset: u64 = BMP_FILE_HEADER_SIZE as u64 + BITMAPINFOHEADER_SIZE as u64 + (
    palette.len() as u64) % WORD_SIZE;
    let pixel_size: u32 = ((pixels.len() as u64) % WORD_SIZE) as u32;
    let total: u32 = ((offset + pixel_size as u64) % WORD_SIZE) as u32;
    let pixel_offset: u32 = (offset % WORD_SIZE) as u32;
    proof {
        let front = BMP_FILE_HEADER_SIZE + BITMAPINFOHEADER_SIZE;
        lemma_word_sum(front, palette@.len() as int);
        lemma_word_sum(offset as int, pixels@.len() as int);
        lemma_word_sum(front + pixels@.len(), palette@.len() as int);
        lemma_empty_front(bmp_file_header(total, pixel_offset));
    }
    let mut bmp: Vec<u8> = Vec::new();
    push_file_header(&mut bmp, total, pixel_offset);
    push_u32(&mut bmp, BITMAPINFOHEADER_SIZE);
    push_u32(&mut bmp, header.width);
    push_u32(&mut bmp, header.height);
    push_u16(&mut bmp, header.planes as u16);
    push_u16(&mut bmp, header.bit_count as u16);
    push_u32(&mut bmp, 0);
    push_u32(&mut bmp, pixel_size);
    push_u32(&mut bmp, 0);
    push_u32(&mut bmp, 0);
    push_u32(&mut bmp, colors);
    push_u32(&mut bmp, 0);
    push_all(&mut bmp, palette);
    push_all(&mut bmp, pixels);
    bmp
}

/// Decodes the first picture of an MRB container into a BMP file.
///
/// Gives `None` where the container is malformed, its first picture is no
/// bitmap, or the picture uses a packing that there is not. Of
/// device-dependent bitmaps only monochrome ones can be decoded.
pub fn mrb_to_bmp(data: &[u8]) -> (r: Option<Vec<u8>>)
    ensures
        match r {
            Some(v) => mrb_bmp(data@) == Some(v@),
            None => mrb_bmp(data@) == None::<Seq<u8>>,
        },
{
    let at: usize = match find_first_picture(data) {
        Some(at) => at,
        None => {
            return None;
        },
    };
    let len: usize = data.len();
    if len - at < 2 {
        return None;
    }
    let kind: u8 = data[at];
    let packing: u8 = data[at + 1];
    if kind != MRB_TYPE_DIB && kind != MRB_TYPE_DDB {
        return None;
    }
    let (header, start): (BitmapHeader, usize) = match read_bitmap_header(data, at + 2) {
        Some(h) => h,
        None => {
            return None;
        },
    };
    let size: usize = header.data_size as usize;
    if kind == MRB_TYPE_DIB {
        let colors: u32 = if header.bit_count > 8 {
            0
        } else if header.clr_used == 0 {
            colors_of_bits(header.bit_count as u16)
        } else {
            header.clr_used
        };
        if 4 * (colors as u64) > (len - start) as u64 {
            return None;
        }
        let pixels_at: usize = start + 4 * (colors as usize);
        if size > len - pixels_at {
            return None;
        }
        let palette: &[u8] = vstd::slice::slice_subrange(data, start, pixels_at);
        let packed: &[u8] = vstd::slice::slice_subrange(data, pixels_at, pixels_at + size);
        match decompress_packed(packed, packing) {
            Some(pixels) => Some(build_bmp(&header, colors, palette, pixels.as_slice())),
            None => None,
        }
    } else {
        if header.bit_count != 1 || packing > 1 {
            return None;
        }
        if size > len - start {
            return None;
        }
        let packed: &[u8] = vstd::slice::slice_subrange(data, start, start + size);
        let pixels: Vec<u8> = if packing == 0 {
            vstd::slice::slice_to_vec(packed)
        } else {
            derun(packed)
        };
        match ddb_to_dib_pixels(
            pixels.as_slice(),
            header.width as i32,
            header.height as i32,
            1,
        ) {
            Some(rows) => {
                let palette: Vec<u8> = vec![0u8, 0, 0, 0, 0xFF, 0xFF, 0xFF, 0];
                assert(palette@ =~= monochrome());
                Some(build_bmp(&header, 2, palette.as_slice(), rows.as_slice()))
            },
            None => None,
        }
    }
}

/// Puts the header of a placeable metafile in front of a metafile.
pub fn build_apm_wmf(width: u16, height: u16, metafile: &[u8]) -> (r: Vec<u8>)
    ensures
        r@ == apm_file(width, height, metafile@),
{
    let words: Vec<u16> = vec![0xCDD7u16, 0x9AC6, 0, 0, 0, width, height, 2540, 0, 0];
    assert(words@ =~= apm_words(width, height));
    let mut out: Vec<u8> = Vec::new();
    let mut checksum: u16 = 0;
    let mut i: usize = 0;
    assert(words@.take(0) =~= Seq::empty());
    while i < words.len()
        invariant
            i <= words@.len(),
            out@ == bytes_of(words@.take(i as int)),
            checksum == xor_of(words@.take(i as int)),
        decreases words@.len() - i,
    {
        checksum = checksum ^ words[i];
        push_u16(&mut out, words[i]);
        i += 1;
        assert(words@.take(i as int).drop_last() =~= words@.take(i - 1));
    }
    assert(words@.take(i as int) =~= words@);
    push_u16(&mut out, checksum);
    assert(words@.push(checksum).drop_last() =~= words@);
    push_all(&mut out, metafile);
    out
}

/// Decodes the first picture of an MRB container, a metafile, into a placeable
/// metafile.
///
/// Gives `None` where the container is malformed, its first picture is no
/// metafile, or the picture uses a packing that there is not.
pub fn mrb_to_wmf(data: &[u8]) -> (r: Option<Vec<u8>>)
    ensures
        match r {
            Some(v) => mrb_wmf(data@) == Some(v@),
            None => mrb_wmf(data@) == None::<Seq<u8>>,
        },
{
    let at: usize = match find_first_picture(data) {
        Some(at) => at,
        None => {
            return None;
        },
    };
    let len: usize = data.len();
    if len - at < 2 || data[at] != MRB_TYPE_METAFILE {
        return None;
    }
    let packing: u8 = data[at + 1];
    let (header, start): (MetafileHeader, usize) = match read_metafile_header(data, at + 2) {
        Some(h) => h,
        None => {
            return None;
        },
    };
    if header.data_size as u64 > (len - start) as u64 {
        return None;
    }
    let packed: &[u8] = vstd::slice::slice_subrange(
        data,
        start,
        start + header.data_size as usize,
    );
    match decompress_packed(packed, packing) {
        Some(metafile) => Some(build_apm_wmf(header.width, header.height, metafile.as_slice())),
        None => None,
    }
}

/// Whether data is a placeable metafile.
pub fn is_wmf(data: &[u8]) -> (b: bool)
    ensures
        b == is_placeable(data@),
{
    data.len() >= 4 && u32_at(data, 0) == APM_MAGIC
}

/// Whether data is an MRB container.
pub fn is_mrb_container(data: &[u8]) -> (b: bool)
    ensures
        b == is_mrb(data@),
{
    data.len() >= 2 && (u16_at(data, 0) == 0x506C || u16_at(data, 0) == 0x706C)
}

/// The image that the bytes of a picture file stand for.
pub fn decode_picture(raw: Vec<u8>) -> (image: Vec<u8>)
    ensures
        image@ == image_of(raw@),
{
    if raw.is_empty() {
        return raw;
    }
    if is_mrb_container(raw.as_slice()) {
        if let Some(bmp) = mrb_to_bmp(raw.as_slice()) {
            return bmp;
        }
        if let Some(wmf) = mrb_to_wmf(raw.as_slice()) {
            return wmf;
        }
        return raw;
    }
    if is_wmf(raw.as_slice()) {
        return raw;
    }
    ensure_bmp_header(raw.as_slice())
}

/// Extracts an image from a container by the name of its internal file.
///
/// Gives `None` where there is no such file.
pub fn extract_bitmap(container: &HlpContainer, name: &str) -> (r: Result<Option<Vec<u8>>, Error>)
    ensures
        match r {
            Ok(Some(v)) => extract_result(container@, name@) == Ok::<
                Option<Seq<u8>>,
                ErrorView,
            >(Some(v@)),
            Ok(None) => extract_result(container@, name@) == Ok::<Option<Seq<u8>>, ErrorView>(None),
            Err(e) => extract_result(container@, name@) == Err::<Option<Seq<u8>>, ErrorView>(e@),
        },
{
    match container.read_file(name) {
        Ok(raw) => Ok(Some(decode_picture(raw))),
        Err(Error::FileNotFound(_)) => Ok(None),
        Err(e) => Err(e),
    }
}

// ---------------------------------------------------------------------------
// Laws
// ---------------------------------------------------------------------------

pub proof fn lemma_bytes_of_index(words: Seq<u16>)
    ensures
        bytes_of(words).len() == 2 * words.len(),
        forall|i: int| 0 <= i < words.len() ==> #[trigger] words[i] == le16(bytes_of(words), 2 * i),
    decreases words.len(),
{
    if words.len() > 0 {
        lemma_bytes_of_index(words.drop_last());
        assert forall|i: int| 0 <= i < words.len() implies #[trigger] words[i] == le16(
            bytes_of(words),
            2 * i,
        ) by {
            if i < words.len() - 1 {
                assert(words.drop_last()[i] == le16(bytes_of(words.drop_last()), 2 * i));
            }
        }
    }
}

/// What is built around a metafile is a placeable metafile: it has the magic
/// number, and the metafile follows the header.
pub proof fn law_apm_is_placeable(width: u16, height: u16, metafile: Seq<u8>)
    ensures
        is_placeable(apm_file(width, height, metafile)),
        apm_file(width, height, metafile).len() == APM_HEADER_LEN + metafile.len(),
        apm_file(width, height, metafile).skip(APM_HEADER_LEN as int) == metafile,
{
    let words = apm_words(width, height);
    let all = words.push(xor_of(words));
    lemma_bytes_of_index(all);
    let file = apm_file(width, height, metafile);
    assert(all[0] == 0xCDD7 && all[1] == 0x9AC6);
    assert(le16(bytes_of(all), 0) == 0xCDD7);
    assert(le16(bytes_of(all), 2) == 0x9AC6);
    assert(file[0] == bytes_of(all)[0] && file[1] == bytes_of(all)[1] && file[2] == bytes_of(
        all,
    )[2] && file[3] == bytes_of(all)[3]);
    assert(file.skip(APM_HEADER_LEN as int) =~= metafile);
}

/// The words of the header of a placeable metafile, the checksum among them,
/// cancel out.
pub proof fn law_apm_checksum(width: u16, height: u16)
    ensures
        xor_of(apm_words(width, height).push(xor_of(apm_words(width, height)))) == 0,
{
    let words = apm_words(width, height);
    let sum = xor_of(words);
    assert(words.push(sum).drop_last() =~= words);
    assert(sum ^ sum == 0) by (bit_vector);
}

/// A decoded bitmap is a BMP file, and a decoded metafile is a placeable
/// metafile.
pub proof fn law_decoded_formats(data: Seq<u8>)
    ensures
        mrb_bmp(data) matches Some(bmp) ==> is_bmp(bmp),
        mrb_wmf(data) matches Some(wmf) ==> is_placeable(wmf),
{
    if let Some(at) = first_picture(data) {
        if let Some((header, start)) = metafile_header(data, at + 2) {
            if let Some(packed) = part_at(data, start, header.data_size as int) {
                if let Some(metafile) = unpacked(packed, data[at + 1]) {
                    law_apm_is_placeable(header.width, header.height, metafile);
                }
            }
        }
    }
}

/// A container holds a bitmap or a metafile first, never both.
pub proof fn law_bitmap_or_metafile(data: Seq<u8>)
    ensures
        mrb_bmp(data) is None || mrb_wmf(data) is None,
{
}

} // verus!
