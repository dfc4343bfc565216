//! Bitmaps, metafiles and hotspots.

use winhelp::bitmap::{
    compute_palette_size, ddb_to_dib_pixels, APM_HEADER_LEN, BITMAPINFOHEADER_SIZE,
    BMP_FILE_HEADER_SIZE, BMP_MAGIC, MRB_TYPE_DDB, MRB_TYPE_DIB, MRB_TYPE_METAFILE,
};
use winhelp::hotspot::{parse_hotspot_block, HOTSPOT_BLOCK_MAGIC};
use winhelp::runlen::derun;
use winhelp::{
    ensure_bmp_header, is_wmf, mrb_to_bmp, mrb_to_wmf, parse_shg, HotspotAction, HotspotRect,
    APM_MAGIC,
};

/// Build a minimal valid BMP with BITMAPFILEHEADER.
fn make_full_bmp() -> Vec<u8> {
    let mut bmp = Vec::new();
    // BITMAPFILEHEADER (14 bytes).
    bmp.extend_from_slice(b"BM");
    bmp.extend_from_slice(&70u32.to_le_bytes()); // file size
    bmp.extend_from_slice(&0u16.to_le_bytes());
    bmp.extend_from_slice(&0u16.to_le_bytes());
    bmp.extend_from_slice(&54u32.to_le_bytes()); // pixel offset

    // BITMAPINFOHEADER (40 bytes).
    bmp.extend_from_slice(&40u32.to_le_bytes()); // header size
    bmp.extend_from_slice(&2i32.to_le_bytes()); // width
    bmp.extend_from_slice(&2i32.to_le_bytes()); // height
    bmp.extend_from_slice(&1u16.to_le_bytes()); // planes
    bmp.extend_from_slice(&24u16.to_le_bytes()); // bpp (24-bit)
    bmp.extend_from_slice(&0u32.to_le_bytes()); // compression
    bmp.extend_from_slice(&16u32.to_le_bytes()); // image size
    bmp.extend_from_slice(&0i32.to_le_bytes()); // x ppm
    bmp.extend_from_slice(&0i32.to_le_bytes()); // y ppm
    bmp.extend_from_slice(&0u32.to_le_bytes()); // colors used
    bmp.extend_from_slice(&0u32.to_le_bytes()); // important colors

    // Pixel data: 2x2 24-bit (each row padded to 4 bytes).
    bmp.extend_from_slice(&[0xFF, 0x00, 0x00, 0x00, 0xFF, 0x00, 0x00, 0x00]);
    bmp.extend_from_slice(&[0x00, 0x00, 0xFF, 0x00, 0xFF, 0xFF, 0x00, 0x00]);

    bmp
}

/// Build a BMP missing the BITMAPFILEHEADER (starts with BITMAPINFOHEADER).
fn make_headerless_bmp() -> Vec<u8> {
    let full = make_full_bmp();
    full[BMP_FILE_HEADER_SIZE..].to_vec()
}

#[test]
fn full_bmp_returned_unchanged() {
    let full = make_full_bmp();
    let result = ensure_bmp_header(&full);
    assert_eq!(result[0..2], BMP_MAGIC);
    assert_eq!(result.len(), full.len());
}

#[test]
fn headerless_bmp_gets_header_prepended() {
    let headerless = make_headerless_bmp();
    let result = ensure_bmp_header(&headerless);

    // Should now start with "BM".
    assert_eq!(result[0..2], BMP_MAGIC);
    // Should be 14 bytes larger.
    assert_eq!(result.len(), headerless.len() + BMP_FILE_HEADER_SIZE);
    // Original data should follow the header.
    assert_eq!(&result[BMP_FILE_HEADER_SIZE..], &headerless[..]);
}

#[test]
fn pixel_offset_correct_for_24bit() {
    let headerless = make_headerless_bmp();
    let result = ensure_bmp_header(&headerless);

    // For 24-bit BMP with no palette: offset = 14 (file header) + 40 (info header) = 54.
    let pixel_offset = u32::from_le_bytes([result[10], result[11], result[12], result[13]]);
    assert_eq!(pixel_offset, 54);
}

#[test]
fn palette_size_for_8bit() {
    // Build a fake 8-bit BITMAPINFOHEADER.
    let mut data = vec![0u8; 40];
    // header size = 40
    data[0..4].copy_from_slice(&40u32.to_le_bytes());
    // biBitCount = 8 at offset 14
    data[14..16].copy_from_slice(&8u16.to_le_bytes());
    // biClrUsed = 0 (means 2^8 = 256 colors)
    data[32..36].copy_from_slice(&0u32.to_le_bytes());

    let palette = compute_palette_size(&data, 40);
    assert_eq!(palette, 256 * 4); // 256 RGBQUAD entries
}

#[test]
fn palette_size_for_24bit() {
    let mut data = vec![0u8; 40];
    data[0..4].copy_from_slice(&40u32.to_le_bytes());
    data[14..16].copy_from_slice(&24u16.to_le_bytes());
    data[32..36].copy_from_slice(&0u32.to_le_bytes());

    let palette = compute_palette_size(&data, 40);
    assert_eq!(palette, 0); // No palette for 24-bit
}

#[test]
fn empty_data_returned_as_is() {
    let result = ensure_bmp_header(&[]);
    assert!(result.is_empty());
}

#[test]
fn unknown_format_returned_as_is() {
    let data = vec![0x89, 0x50, 0x4E, 0x47]; // PNG magic
    let result = ensure_bmp_header(&data);
    assert_eq!(result, data);
}

// -- RunLen (derun) decoder tests --

#[test]
fn derun_packed_run_expands_count_copies() {
    // Control byte 5 (positive) → next byte is data, emitted 5 times.
    let out = derun(&[5, b'A']);
    assert_eq!(out, b"AAAAA");
}

#[test]
fn derun_literal_run_copies_bytes_through() {
    // Control 0x83 as i8 is -125 (0x80 | 3), meaning a literal run of 3.
    let out = derun(&[0x83, b'X', b'Y', b'Z']);
    assert_eq!(out, b"XYZ");
}

#[test]
fn derun_mixed_packed_and_literal_runs() {
    // Packed 3 × 'A', then literal 2 × ['B', 'C'], then packed 2 × 'D'.
    // Encoding:
    //   control=3, data='A'       → "AAA"
    //   control=0x82 (literal 2), 'B', 'C' → "BC"
    //   control=2, data='D'       → "DD"
    let out = derun(&[3, b'A', 0x82, b'B', b'C', 2, b'D']);
    assert_eq!(out, b"AAABCDD");
}

#[test]
fn derun_zero_control_consumes_byte_and_emits_nothing() {
    // Control 0 degenerates to "reset": next byte becomes new control.
    let out = derun(&[0, 0, 3, b'Z']);
    assert_eq!(out, b"ZZZ");
}

#[test]
fn derun_empty_input() {
    assert!(derun(&[]).is_empty());
}

// -- WMF / metafile (MRB type=8) tests --

/// Build a synthetic MRB type=8 metafile with the given packing flag
/// and pre-encoded payload.  The picture's bbox is fixed at 200×100
/// to make the APM-header checksum predictable across tests.
fn make_mrb_metafile(by_packed: u8, payload: &[u8]) -> Vec<u8> {
    // Picture header sizes: by_type+by_packed (2) + cword mapping_mode (1)
    // + width (2) + height (2) + cdword wcaller_inch (2) + cdword
    // data_size (2) + cdword hotspot_size (2) + dwPictureOffset (4) +
    // dwHotspotOffset (4) = 21 bytes.
    let mut mrb = Vec::new();
    // sig 'lP' + 1 picture + offset
    mrb.extend_from_slice(&0x506Cu16.to_le_bytes());
    mrb.extend_from_slice(&1u16.to_le_bytes());
    mrb.extend_from_slice(&8u32.to_le_bytes()); // pic_offset = 8 (right after this)

    // by_type=8 metafile, by_packed=<flag>
    mrb.push(MRB_TYPE_METAFILE);
    mrb.push(by_packed);
    // mapping_mode: cword(0) → single byte 0x00
    mrb.push(0x00);
    // width=200, height=100 (raw u16 LE)
    mrb.extend_from_slice(&200u16.to_le_bytes());
    mrb.extend_from_slice(&100u16.to_le_bytes());
    // wcaller_inch: cdword(0) → 2 bytes
    mrb.extend_from_slice(&0u16.to_le_bytes());
    // data_size: cdword(N) where N = payload.len(); CDWord encodes as
    // value<<1 (LSB=0) in 16 bits when fits.
    let ds_encoded = (payload.len() as u16) << 1;
    mrb.extend_from_slice(&ds_encoded.to_le_bytes());
    // hotspot_size: cdword(0)
    mrb.extend_from_slice(&0u16.to_le_bytes());
    // dwPictureOffset, dwHotspotOffset
    mrb.extend_from_slice(&0u32.to_le_bytes());
    mrb.extend_from_slice(&0u32.to_le_bytes());
    // payload
    mrb.extend_from_slice(payload);
    mrb
}

/// Compute the expected APM-header bytes for a 200×100 metafile —
/// matches the math in `build_apm_wmf` so tests can verify the header
/// independently of the production formula.
fn expected_apm_header_200x100() -> [u8; APM_HEADER_LEN] {
    let mut h = [0u8; APM_HEADER_LEN];
    h[0..4].copy_from_slice(&APM_MAGIC.to_le_bytes());
    // hMF, rcBBox.left, rcBBox.top all zero (already)
    h[10..12].copy_from_slice(&200i16.to_le_bytes());
    h[12..14].copy_from_slice(&100i16.to_le_bytes());
    h[14..16].copy_from_slice(&2540u16.to_le_bytes());
    // dwReserved = 0 (already)
    // checksum = XOR of first 10 LE words
    let mut cs: u16 = 0;
    for i in 0..10 {
        let off = i * 2;
        cs ^= u16::from_le_bytes([h[off], h[off + 1]]);
    }
    h[20..22].copy_from_slice(&cs.to_le_bytes());
    h
}

#[test]
fn mrb_to_wmf_decodes_raw_packed_payload() {
    let payload = b"\x01\x02\x03\x04";
    let mrb = make_mrb_metafile(0, payload);

    let wmf = mrb_to_wmf(&mrb).expect("metafile decode should succeed");

    // Header + payload length.
    assert_eq!(wmf.len(), APM_HEADER_LEN + payload.len());
    // First four bytes are the Aldus magic.
    assert_eq!(
        u32::from_le_bytes([wmf[0], wmf[1], wmf[2], wmf[3]]),
        APM_MAGIC,
    );
    // Header matches independent recomputation.
    assert_eq!(&wmf[..APM_HEADER_LEN], &expected_apm_header_200x100()[..]);
    // Payload follows verbatim for raw packing.
    assert_eq!(&wmf[APM_HEADER_LEN..], payload);
}

#[test]
fn mrb_to_wmf_decompresses_runlen_payload() {
    // RunLen control=5 + data='A' → five 'A' bytes.
    let payload = [5u8, b'A'];
    let mrb = make_mrb_metafile(1, &payload);

    let wmf = mrb_to_wmf(&mrb).expect("RunLen metafile decode should succeed");

    assert_eq!(&wmf[..4], &APM_MAGIC.to_le_bytes());
    assert_eq!(&wmf[APM_HEADER_LEN..], b"AAAAA");
}

#[test]
fn mrb_to_wmf_returns_none_for_dib_picture() {
    // A DIB-typed MRB should not be picked up by the WMF path — that's
    // what `mrb_to_bmp` is for.  Build a degenerate type=6 picture.
    let mut mrb = Vec::new();
    mrb.extend_from_slice(&0x506Cu16.to_le_bytes());
    mrb.extend_from_slice(&1u16.to_le_bytes());
    mrb.extend_from_slice(&8u32.to_le_bytes());
    mrb.push(MRB_TYPE_DIB); // type=6 DIB, not metafile
    mrb.push(0); // raw packed
                 // Pad with junk; we only care that the type discriminator is wrong.
    mrb.extend_from_slice(&[0u8; 64]);

    assert!(mrb_to_wmf(&mrb).is_none());
}

#[test]
fn is_wmf_recognises_aldus_magic() {
    let mut data = vec![0u8; 8];
    data[0..4].copy_from_slice(&APM_MAGIC.to_le_bytes());
    assert!(is_wmf(&data));
}

#[test]
fn is_wmf_rejects_other_signatures() {
    // BMP magic
    assert!(!is_wmf(&[b'B', b'M', 0, 0]));
    // PNG magic
    assert!(!is_wmf(&[0x89, 0x50, 0x4E, 0x47]));
    // Empty / truncated
    assert!(!is_wmf(&[]));
    assert!(!is_wmf(&[0xD7, 0xCD]));
}

#[test]
fn extract_bitmap_round_trips_metafile_through_mrb_dispatch() {
    // End-to-end: feed a synthetic MRB metafile through the same
    // dispatch path the real container code uses, by constructing a
    // fake container in-memory.
    let mrb = make_mrb_metafile(0, b"\xDE\xAD\xBE\xEF");
    // Skip the container plumbing — exercise the helper composition.
    let wmf = mrb_to_wmf(&mrb).unwrap();
    assert!(is_wmf(&wmf));
    assert_eq!(&wmf[APM_HEADER_LEN..], b"\xDE\xAD\xBE\xEF");
}

// -- SHG (hotspot) parsing tests --

/// One hotspot record's worth of test input: id bytes, geometry, hash,
/// and the two trailing strings (`name`, `target`).
struct HotspotFixture {
    id0: u8,
    id1: u8,
    id2: u8,
    rect: HotspotRect,
    hash: u32,
    name: &'static str,
    target: &'static str,
}

/// Build a synthetic on-disk hotspot block (the bytes pointed to by
/// `dwHotspotOffset`). `macro_data` is inserted verbatim between the
/// record array and the string pairs to mirror the real layout.
fn build_hotspot_block(spots: &[HotspotFixture], macro_data: &[u8]) -> Vec<u8> {
    let mut block = Vec::new();
    block.push(HOTSPOT_BLOCK_MAGIC);
    block.extend_from_slice(&(spots.len() as u16).to_le_bytes());
    block.extend_from_slice(&(macro_data.len() as u32).to_le_bytes());
    for s in spots {
        block.push(s.id0);
        block.push(s.id1);
        block.push(s.id2);
        block.extend_from_slice(&s.rect.x.to_le_bytes());
        block.extend_from_slice(&s.rect.y.to_le_bytes());
        block.extend_from_slice(&s.rect.w.to_le_bytes());
        block.extend_from_slice(&s.rect.h.to_le_bytes());
        block.extend_from_slice(&s.hash.to_le_bytes());
    }
    block.extend_from_slice(macro_data);
    for s in spots {
        block.extend_from_slice(s.name.as_bytes());
        block.push(0);
        block.extend_from_slice(s.target.as_bytes());
        block.push(0);
    }
    block
}

/// Variant of `make_mrb_metafile` that appends a hotspot block.  The
/// metafile payload is stored raw (`by_packed = 0`) so the test has a
/// predictable on-disk layout; the hotspot block lives immediately
/// after the payload (sequential positioning, matching `parse_shg`).
fn make_mrb_metafile_with_hotspots(payload: &[u8], hotspot_block: &[u8]) -> Vec<u8> {
    let mut mrb = Vec::new();
    mrb.extend_from_slice(&0x506Cu16.to_le_bytes());
    mrb.extend_from_slice(&1u16.to_le_bytes());
    mrb.extend_from_slice(&8u32.to_le_bytes());
    mrb.push(MRB_TYPE_METAFILE);
    mrb.push(0); // by_packed = 0 raw
    mrb.push(0x00); // mapping_mode cword(0)
    mrb.extend_from_slice(&200u16.to_le_bytes()); // width
    mrb.extend_from_slice(&100u16.to_le_bytes()); // height
    mrb.extend_from_slice(&0u16.to_le_bytes()); // wcaller_inch cdword(0)
    let ds_encoded = (payload.len() as u16) << 1;
    mrb.extend_from_slice(&ds_encoded.to_le_bytes()); // data_size cdword
    let hs_encoded = (hotspot_block.len() as u16) << 1;
    mrb.extend_from_slice(&hs_encoded.to_le_bytes()); // hotspot_size cdword
    mrb.extend_from_slice(&0u32.to_le_bytes()); // dwPictureOffset
    mrb.extend_from_slice(&0u32.to_le_bytes()); // dwHotspotOffset (unused)
    mrb.extend_from_slice(payload);
    mrb.extend_from_slice(hotspot_block);
    mrb
}

/// Build a synthetic 24-bit raw-packed MRB DIB: 1×1 red pixel, 4-byte
/// row (3 BGR bytes + 1 pad), no palette. `hotspot_block` is appended
/// immediately after the pixel data.
fn make_mrb_dib_with_hotspots(hotspot_block: &[u8]) -> Vec<u8> {
    // 1×1 24-bit pixel row: BB GG RR then 1 pad byte = 4 bytes.
    let pixels: [u8; 4] = [0x00, 0x00, 0xFF, 0x00];
    let mut mrb = Vec::new();
    mrb.extend_from_slice(&0x506Cu16.to_le_bytes());
    mrb.extend_from_slice(&1u16.to_le_bytes());
    mrb.extend_from_slice(&8u32.to_le_bytes());
    mrb.push(MRB_TYPE_DIB);
    mrb.push(0); // by_packed = 0 raw

    // All CWord / CDWord values encoded LSB=0 → one or two bytes each.
    // CDWord(0) = u16 0x0000 (2 bytes). CWord(0) = u8 0x00.
    mrb.extend_from_slice(&0u16.to_le_bytes()); // x_ppm cdword
    mrb.extend_from_slice(&0u16.to_le_bytes()); // y_ppm cdword
    mrb.push(0x02); // planes cword(1) → (1<<1)|0 = 0x02
    mrb.push(24 << 1); // bit_count cword(24) = 0x30
    mrb.extend_from_slice(&(1u16 << 1).to_le_bytes()); // width cdword(1) = 2
    mrb.extend_from_slice(&(1u16 << 1).to_le_bytes()); // height cdword(1) = 2
    mrb.extend_from_slice(&0u16.to_le_bytes()); // clr_used cdword(0)
    mrb.extend_from_slice(&0u16.to_le_bytes()); // clr_important cdword(0)
    mrb.extend_from_slice(&((pixels.len() as u16) << 1).to_le_bytes()); // data_size
    mrb.extend_from_slice(&((hotspot_block.len() as u16) << 1).to_le_bytes()); // hotspot_size
    mrb.extend_from_slice(&0u32.to_le_bytes()); // dwPictureOffset
    mrb.extend_from_slice(&0u32.to_le_bytes()); // dwHotspotOffset
                                                // No palette for 24-bit.
    mrb.extend_from_slice(&pixels);
    mrb.extend_from_slice(hotspot_block);
    mrb
}

#[test]
fn parse_shg_extracts_metafile_and_hotspots() {
    let spots = [
        HotspotFixture {
            id0: 0xE3,
            id1: 0x00,
            id2: 0x00,
            rect: HotspotRect {
                x: 10,
                y: 20,
                w: 30,
                h: 40,
            },
            hash: 0xDEAD_BEEF,
            name: "spot1",
            target: "TopicName",
        },
        HotspotFixture {
            id0: 0xC8,
            id1: 0x00,
            id2: 0x00,
            rect: HotspotRect {
                x: 5,
                y: 6,
                w: 7,
                h: 8,
            },
            hash: 1,
            name: "spot2",
            target: "JumpContents()",
        },
    ];
    let block = build_hotspot_block(&spots, b"JumpContents()\0");
    let mrb = make_mrb_metafile_with_hotspots(b"\xAA\xBB\xCC\xDD", &block);

    let (wmf, hotspots) = parse_shg(&mrb).expect("SHG parse succeeds");

    assert!(is_wmf(&wmf));
    assert_eq!(&wmf[APM_HEADER_LEN..], b"\xAA\xBB\xCC\xDD");
    assert_eq!(hotspots.len(), 2);
    assert_eq!(hotspots[0].action, HotspotAction::TopicJumpVisible);
    assert_eq!(
        hotspots[0].rect,
        HotspotRect {
            x: 10,
            y: 20,
            w: 30,
            h: 40
        }
    );
    assert_eq!(hotspots[0].hash, 0xDEAD_BEEF);
    assert_eq!(hotspots[0].name, "spot1");
    assert_eq!(hotspots[0].target, "TopicName");
    assert_eq!(hotspots[1].action, HotspotAction::MacroVisible);
    assert_eq!(hotspots[1].target, "JumpContents()");
}

#[test]
fn parse_shg_extracts_dib_and_hotspots() {
    let spots = [HotspotFixture {
        id0: 0xE7,
        id1: 0x04,
        id2: 0x00,
        rect: HotspotRect {
            x: 0,
            y: 0,
            w: 1,
            h: 1,
        },
        hash: 42,
        name: "invis",
        target: "SomeTopic",
    }];
    let block = build_hotspot_block(&spots, b"");
    let mrb = make_mrb_dib_with_hotspots(&block);

    let (bmp, hotspots) = parse_shg(&mrb).expect("SHG DIB parse succeeds");

    // Produced bytes are a valid standalone BMP.
    assert_eq!(&bmp[0..2], &BMP_MAGIC);
    assert_eq!(hotspots.len(), 1);
    assert_eq!(hotspots[0].action, HotspotAction::TopicJumpInvisible);
    assert_eq!(hotspots[0].name, "invis");
    assert_eq!(hotspots[0].target, "SomeTopic");
}

#[test]
fn parse_shg_returns_empty_list_when_hotspot_size_zero() {
    // An ordinary MRB metafile (no hotspot block) should parse as a
    // zero-hotspot SHG rather than failing.
    let mrb = make_mrb_metafile(0, b"\x01\x02\x03\x04");
    let (wmf, hotspots) = parse_shg(&mrb).expect("MRB without hotspots still parses");
    assert!(is_wmf(&wmf));
    assert!(hotspots.is_empty());
}

#[test]
fn parse_shg_rejects_non_mrb_input() {
    assert!(parse_shg(&[]).is_none());
    assert!(parse_shg(b"BM\x00\x00").is_none());
    assert!(parse_shg(&[0x89, 0x50]).is_none());
}

#[test]
fn hotspot_action_decodes_all_documented_id_triples() {
    let table: [(u8, u8, u8, HotspotAction); 10] = [
        (0xC8, 0x00, 0x00, HotspotAction::MacroVisible),
        (0xCC, 0x04, 0x00, HotspotAction::MacroInvisible),
        (0xE2, 0x00, 0x00, HotspotAction::PopupJumpVisible),
        (0xE3, 0x00, 0x00, HotspotAction::TopicJumpVisible),
        (0xE6, 0x04, 0x00, HotspotAction::PopupJumpInvisible),
        (0xE7, 0x04, 0x00, HotspotAction::TopicJumpInvisible),
        (0xEA, 0x00, 0x00, HotspotAction::ExternalPopupVisible),
        (0xEB, 0x00, 0x00, HotspotAction::ExternalTopicVisible),
        (0xEE, 0x04, 0x00, HotspotAction::ExternalPopupInvisible),
        (0xEF, 0x04, 0x00, HotspotAction::ExternalTopicInvisible),
    ];
    for (id0, id1, id2, expected) in table {
        assert_eq!(HotspotAction::from_id(id0, id1, id2), expected);
    }
}

#[test]
fn hotspot_action_preserves_unknown_triples() {
    assert_eq!(
        HotspotAction::from_id(0x12, 0x34, 0x56),
        HotspotAction::Unknown(0x12, 0x34, 0x56)
    );
}

#[test]
fn parse_hotspot_block_rejects_truncated_header() {
    // Too short to contain the full 7-byte header.
    assert!(parse_hotspot_block(&[HOTSPOT_BLOCK_MAGIC, 0, 0, 0, 0, 0]).is_none());
}

#[test]
fn parse_hotspot_block_rejects_wrong_magic() {
    let mut bad = vec![0x02u8]; // should be 0x01
    bad.extend_from_slice(&0u16.to_le_bytes());
    bad.extend_from_slice(&0u32.to_le_bytes());
    assert!(parse_hotspot_block(&bad).is_none());
}

#[test]
fn parse_hotspot_block_rejects_truncated_strings() {
    // Header claims one hotspot but provides no strings after the
    // record — stringz reader should fail to find a terminator.
    let spots = [HotspotFixture {
        id0: 0xE3,
        id1: 0,
        id2: 0,
        rect: HotspotRect {
            x: 0,
            y: 0,
            w: 1,
            h: 1,
        },
        hash: 0,
        name: "x",
        target: "y",
    }];
    let full = build_hotspot_block(&spots, b"");
    // Truncate just before the target's terminating NUL.
    let truncated = &full[..full.len() - 1];
    assert!(parse_hotspot_block(truncated).is_none());
}

#[test]
fn parse_hotspot_block_preserves_empty_strings() {
    // Name and target are legitimately empty: two zero bytes in a row.
    let spots = [HotspotFixture {
        id0: 0xE2,
        id1: 0,
        id2: 0,
        rect: HotspotRect {
            x: 0,
            y: 0,
            w: 0,
            h: 0,
        },
        hash: 0,
        name: "",
        target: "",
    }];
    let block = build_hotspot_block(&spots, b"");
    let parsed = parse_hotspot_block(&block).expect("empty strings still parse");
    assert_eq!(parsed.len(), 1);
    assert_eq!(parsed[0].name, "");
    assert_eq!(parsed[0].target, "");
}

// -- DDB (MRB type=5) tests --

/// Build a synthetic 1-bit monochrome MRB DDB with `width × height`
/// pixels packed to 2-byte scanlines (DDB stride) and the given
/// `by_packed` flag.  `pixel_bytes` must already be packed to
/// `ddb_stride * height` bytes when `by_packed == 0`, or to an
/// already-RunLen-encoded byte stream when `by_packed == 1`.
fn make_mrb_ddb_1bit(
    width: u16,
    height: u16,
    by_packed: u8,
    pixel_bytes: &[u8],
    hotspot_block: &[u8],
) -> Vec<u8> {
    let mut mrb = Vec::new();
    mrb.extend_from_slice(&0x506Cu16.to_le_bytes());
    mrb.extend_from_slice(&1u16.to_le_bytes());
    mrb.extend_from_slice(&8u32.to_le_bytes());
    mrb.push(MRB_TYPE_DDB);
    mrb.push(by_packed);
    // All CDWord(0) fields emit as the 2-byte form 0x0000; CWord(N<0x80)
    // emits as a single byte `N << 1`.
    mrb.extend_from_slice(&0u16.to_le_bytes()); // x_ppm cdword(0)
    mrb.extend_from_slice(&0u16.to_le_bytes()); // y_ppm cdword(0)
    mrb.push(0x02); // planes cword(1) = (1 << 1)
    mrb.push(0x02); // bit_count cword(1) = (1 << 1)
    mrb.extend_from_slice(&(width << 1).to_le_bytes()); // width cdword
    mrb.extend_from_slice(&(height << 1).to_le_bytes()); // height cdword
    mrb.extend_from_slice(&0u16.to_le_bytes()); // clr_used cdword(0)
    mrb.extend_from_slice(&0u16.to_le_bytes()); // clr_important cdword(0)
    mrb.extend_from_slice(&((pixel_bytes.len() as u16) << 1).to_le_bytes()); // data_size
    mrb.extend_from_slice(&((hotspot_block.len() as u16) << 1).to_le_bytes()); // hotspot_size
    mrb.extend_from_slice(&0u32.to_le_bytes()); // dwPictureOffset
    mrb.extend_from_slice(&0u32.to_le_bytes()); // dwHotspotOffset
    mrb.extend_from_slice(pixel_bytes);
    mrb.extend_from_slice(hotspot_block);
    mrb
}

/// Read back the palette slice from a decoded BMP so assertions can
/// inspect it directly without re-implementing the stride math.
fn bmp_palette(bmp: &[u8]) -> &[u8] {
    let pixel_offset = u32::from_le_bytes([bmp[10], bmp[11], bmp[12], bmp[13]]) as usize;
    &bmp[BMP_FILE_HEADER_SIZE + BITMAPINFOHEADER_SIZE as usize..pixel_offset]
}

/// Read back the pixel slice from a decoded BMP.
fn bmp_pixels(bmp: &[u8]) -> &[u8] {
    let pixel_offset = u32::from_le_bytes([bmp[10], bmp[11], bmp[12], bmp[13]]) as usize;
    &bmp[pixel_offset..]
}

#[test]
fn mrb_to_bmp_converts_raw_ddb_with_stride_padding() {
    // 8×2 1-bit DDB: stride = ((8*1 + 15)/16)*2 = 2 bytes/row, so
    // 4 bytes of pixel data.  Target DIB stride = 4 bytes/row →
    // 2 pad bytes appended per row.
    let ddb_pixels = [0xAA, 0x55, 0xFF, 0x00];
    let mrb = make_mrb_ddb_1bit(8, 2, 0, &ddb_pixels, &[]);

    let bmp = mrb_to_bmp(&mrb).expect("DDB decode succeeds");
    assert_eq!(&bmp[0..2], &BMP_MAGIC);

    // BITMAPINFOHEADER field spot-checks.
    let bit_count = u16::from_le_bytes([bmp[28], bmp[29]]);
    let colors_used = u32::from_le_bytes([bmp[46], bmp[47], bmp[48], bmp[49]]);
    assert_eq!(bit_count, 1);
    assert_eq!(colors_used, 2);

    // Palette: 2 entries = black, white in BGR0 order.
    let palette = bmp_palette(&bmp);
    assert_eq!(palette.len(), 8);
    assert_eq!(&palette[0..4], &[0x00, 0x00, 0x00, 0x00]);
    assert_eq!(&palette[4..8], &[0xFF, 0xFF, 0xFF, 0x00]);

    // Pixels: each DDB row padded to 4 bytes with 0x20 pad bytes.
    let pixels = bmp_pixels(&bmp);
    assert_eq!(pixels, &[0xAA, 0x55, 0x20, 0x20, 0xFF, 0x00, 0x20, 0x20]);
}

#[test]
fn mrb_to_bmp_decompresses_runlen_ddb() {
    // RunLen-pack the DDB stream: control=4 + data=0x55 → four 0x55
    // bytes, which is exactly two 8×2 DDB rows of 0x55 each
    // (ddb_stride = 2, height = 2 → 4 bytes total).
    let encoded = [4u8, 0x55];
    let mrb = make_mrb_ddb_1bit(8, 2, 1, &encoded, &[]);

    let bmp = mrb_to_bmp(&mrb).expect("RunLen DDB decode succeeds");
    let pixels = bmp_pixels(&bmp);
    // 2 DDB bytes + 2 pad per row, 2 rows.
    assert_eq!(pixels, &[0x55, 0x55, 0x20, 0x20, 0x55, 0x55, 0x20, 0x20]);
}

#[test]
fn mrb_to_bmp_rejects_multi_bit_ddb() {
    // DDB has no in-file palette, so we don't support higher bit depths.
    // Hand-build a 4-bit DDB and assert the decoder bails out.
    let mut mrb = Vec::new();
    mrb.extend_from_slice(&0x506Cu16.to_le_bytes());
    mrb.extend_from_slice(&1u16.to_le_bytes());
    mrb.extend_from_slice(&8u32.to_le_bytes());
    mrb.push(MRB_TYPE_DDB);
    mrb.push(0);
    mrb.extend_from_slice(&0u16.to_le_bytes()); // x_ppm
    mrb.extend_from_slice(&0u16.to_le_bytes()); // y_ppm
    mrb.push(0x02); // planes cword(1)
    mrb.push(4 << 1); // bit_count cword(4) — unsupported
    mrb.extend_from_slice(&(1u16 << 1).to_le_bytes()); // width=1
    mrb.extend_from_slice(&(1u16 << 1).to_le_bytes()); // height=1
    mrb.extend_from_slice(&0u16.to_le_bytes()); // clr_used
    mrb.extend_from_slice(&0u16.to_le_bytes()); // clr_important
    mrb.extend_from_slice(&(2u16 << 1).to_le_bytes()); // data_size=2
    mrb.extend_from_slice(&0u16.to_le_bytes()); // hotspot_size
    mrb.extend_from_slice(&0u32.to_le_bytes());
    mrb.extend_from_slice(&0u32.to_le_bytes());
    mrb.extend_from_slice(&[0xFF, 0xFF]);

    assert!(mrb_to_bmp(&mrb).is_none());
}

#[test]
fn mrb_to_bmp_rejects_lz77_packed_ddb() {
    // DDB supports only byPacked 0 and 1.
    // byPacked=2 (LZ77) must be rejected rather than mis-decoded.
    let mrb = make_mrb_ddb_1bit(8, 1, 2, &[0x00, 0x00], &[]);
    assert!(mrb_to_bmp(&mrb).is_none());
}

#[test]
fn mrb_to_bmp_dib_path_unchanged_by_ddb_refactor() {
    // A 1×1 24-bit DIB: the output has no palette and the pixel bytes
    // come back as they are.
    let pixels: [u8; 4] = [0x11, 0x22, 0x33, 0x00];
    let mut mrb = Vec::new();
    mrb.extend_from_slice(&0x506Cu16.to_le_bytes());
    mrb.extend_from_slice(&1u16.to_le_bytes());
    mrb.extend_from_slice(&8u32.to_le_bytes());
    mrb.push(MRB_TYPE_DIB);
    mrb.push(0);
    mrb.extend_from_slice(&0u16.to_le_bytes()); // x_ppm
    mrb.extend_from_slice(&0u16.to_le_bytes()); // y_ppm
    mrb.push(0x02); // planes
    mrb.push(24 << 1); // bit_count=24
    mrb.extend_from_slice(&(1u16 << 1).to_le_bytes()); // width=1
    mrb.extend_from_slice(&(1u16 << 1).to_le_bytes()); // height=1
    mrb.extend_from_slice(&0u16.to_le_bytes()); // clr_used
    mrb.extend_from_slice(&0u16.to_le_bytes()); // clr_important
    mrb.extend_from_slice(&((pixels.len() as u16) << 1).to_le_bytes());
    mrb.extend_from_slice(&0u16.to_le_bytes()); // hotspot_size
    mrb.extend_from_slice(&0u32.to_le_bytes());
    mrb.extend_from_slice(&0u32.to_le_bytes());
    mrb.extend_from_slice(&pixels);

    let bmp = mrb_to_bmp(&mrb).expect("24-bit DIB decode still succeeds");
    assert_eq!(&bmp[0..2], &BMP_MAGIC);
    let bit_count = u16::from_le_bytes([bmp[28], bmp[29]]);
    assert_eq!(bit_count, 24);
    // 24-bit has no palette — pixel offset should equal the sum of file
    // header and info header with no gap.
    let pixel_offset = u32::from_le_bytes([bmp[10], bmp[11], bmp[12], bmp[13]]) as usize;
    assert_eq!(
        pixel_offset,
        BMP_FILE_HEADER_SIZE + BITMAPINFOHEADER_SIZE as usize
    );
    assert_eq!(bmp_pixels(&bmp), &pixels);
}

#[test]
fn parse_shg_extracts_ddb_and_hotspots() {
    // SHG with a 1-bit DDB picture and a single hotspot — exercises
    // the DDB branch in `extract_hotspot_bytes` so the hotspot block
    // is located after the unpacked pixel data.
    let spots = [HotspotFixture {
        id0: 0xE3,
        id1: 0x00,
        id2: 0x00,
        rect: HotspotRect {
            x: 1,
            y: 2,
            w: 3,
            h: 4,
        },
        hash: 0xCAFE_BABE,
        name: "ddb_spot",
        target: "DdbTarget",
    }];
    let hotspot_block = build_hotspot_block(&spots, b"");
    // 8×2 1-bit DDB → 2-byte DDB stride × 2 rows = 4 pixel bytes.
    let mrb = make_mrb_ddb_1bit(8, 2, 0, &[0xF0, 0x0F, 0xAA, 0x55], &hotspot_block);

    let (bmp, hotspots) = parse_shg(&mrb).expect("DDB SHG parse succeeds");
    assert_eq!(&bmp[0..2], &BMP_MAGIC);
    assert_eq!(hotspots.len(), 1);
    assert_eq!(hotspots[0].action, HotspotAction::TopicJumpVisible);
    assert_eq!(hotspots[0].name, "ddb_spot");
    assert_eq!(hotspots[0].hash, 0xCAFE_BABE);
}

#[test]
fn ddb_to_dib_pixels_rejects_truncated_input() {
    // 16-pixel wide, 2 rows → DDB stride = 2 bytes → need 4 bytes total.
    // Provide only 3 and assert None.
    assert!(ddb_to_dib_pixels(&[0u8; 3], 16, 2, 1).is_none());
}

#[test]
fn ddb_to_dib_pixels_rejects_non_positive_dimensions() {
    assert!(ddb_to_dib_pixels(&[0u8; 4], 0, 2, 1).is_none());
    assert!(ddb_to_dib_pixels(&[0u8; 4], 8, 0, 1).is_none());
    assert!(ddb_to_dib_pixels(&[0u8; 4], -1, 2, 1).is_none());
}
