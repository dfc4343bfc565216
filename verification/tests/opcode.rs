//! Text records.

use std::collections::HashMap;

use winhelp::scan::scan_long;
use winhelp::{
    context_hash, parse_text_record, Block, FontDescriptor, FontTable, ImagePlacement, Inline,
    LinkKind,
};

fn fonts() -> FontTable {
    FontTable::empty()
}

fn no_targets() -> HashMap<u32, String> {
    HashMap::new()
}

/// Build a valid empty preamble for a TL_NORMAL record. Layout:
///   scanlong = 0 (2 bytes) + scanword = 0 (1 byte) + 4 skip bytes +
///   u16 bitflags = 0 (2 bytes) = 9 bytes total.
fn empty_preamble() -> Vec<u8> {
    vec![0x00, 0x00, 0x00, 0x00, 0x00, 0x00, 0x00, 0x00, 0x00]
}

/// Wrap a command byte sequence with the empty preamble.
fn ld1(cmd: &[u8]) -> Vec<u8> {
    let mut v = empty_preamble();
    v.extend_from_slice(cmd);
    v
}

#[test]
fn simple_paragraph_emits_single_block() {
    let cmd = [0x80, 0x00, 0x00, 0x82];
    let ld1 = ld1(&cmd);
    let ld2 = b"hello\0\0";
    let blocks = parse_text_record(&ld1, ld2, &fonts(), &no_targets()).unwrap();
    assert_eq!(blocks.len(), 1);
    let Block::Paragraph(inlines) = &blocks[0] else {
        panic!("expected Paragraph, got {:?}", blocks[0]);
    };
    assert_eq!(inlines.len(), 1);
    assert!(matches!(&inlines[0], Inline::Text(t) if t == "hello"));
}

#[test]
fn two_paragraphs_from_two_end_para_opcodes() {
    let cmd = [0x80, 0x00, 0x00, 0x82, 0x80, 0x00, 0x00, 0x82];
    let ld1 = ld1(&cmd);
    let ld2 = b"first\0\0\0second\0\0\0";
    let blocks = parse_text_record(&ld1, ld2, &fonts(), &no_targets()).unwrap();
    assert_eq!(blocks.len(), 2);
}

#[test]
fn jump_link_with_text_from_segment() {
    let cmd = [
        0x80, 0x04, 0x00, 0xE3, 0xEF, 0xBE, 0xAD, 0xDE, 0x89, 0x80, 0x00, 0x00, 0x82,
    ];
    let ld1 = ld1(&cmd);
    let ld2 = b"\0\0click here\0\0\0";
    let blocks = parse_text_record(&ld1, ld2, &fonts(), &no_targets()).unwrap();
    assert_eq!(blocks.len(), 1);
    let Block::Paragraph(inlines) = &blocks[0] else {
        panic!("expected paragraph");
    };
    assert_eq!(inlines.len(), 1);
    let Inline::Link { text, target, kind } = &inlines[0] else {
        panic!("expected Link, got {:?}", inlines[0]);
    };
    assert_eq!(*kind, LinkKind::Jump);
    assert_eq!(target, "0xDEADBEEF");
    assert_eq!(text.len(), 1);
    assert!(matches!(&text[0], Inline::Text(t) if t == "click here"));
}

#[test]
fn popup_link_uses_popup_kind() {
    let cmd = [
        0x80, 0x00, 0x00, 0xE6, 0x78, 0x56, 0x34, 0x12, 0x89, 0x80, 0x00, 0x00, 0x82,
    ];
    let ld1 = ld1(&cmd);
    let ld2 = b"\0\0tooltip\0\0\0";
    let blocks = parse_text_record(&ld1, ld2, &fonts(), &no_targets()).unwrap();
    let Block::Paragraph(inlines) = &blocks[0] else {
        panic!();
    };
    let Inline::Link { kind, target, .. } = &inlines[0] else {
        panic!();
    };
    assert_eq!(*kind, LinkKind::Popup);
    assert_eq!(target, "0x12345678");
}

#[test]
fn resolved_hash_uses_context_id() {
    let hash = context_hash("printf");
    let mut targets = HashMap::new();
    targets.insert(hash, "printf".to_string());

    let mut cmd = vec![0x80, 0x00, 0x00, 0xE3];
    cmd.extend_from_slice(&hash.to_le_bytes());
    cmd.extend_from_slice(&[0x89, 0x80, 0x00, 0x00, 0x82]);
    let ld1 = ld1(&cmd);
    let ld2 = b"\0\0printf\0\0\0";

    let blocks = parse_text_record(&ld1, ld2, &fonts(), &targets).unwrap();
    let Block::Paragraph(inlines) = &blocks[0] else {
        panic!();
    };
    let Inline::Link { target, .. } = &inlines[0] else {
        panic!();
    };
    assert_eq!(target, "printf");
}

/// Font changes do not make text bold, italic or underlined.
#[test]
fn font_change_does_not_toggle_bold_state() {
    // Font 1 is bold in this synthetic table; font 0 is regular.
    let fonts_with_bold = FontTable::from_descriptors(vec![
        FontDescriptor {
            attributes: 0x00,
            half_points: 20,
            font_family: 0,
            name: "Regular".into(),
        },
        FontDescriptor {
            attributes: 0x01,
            half_points: 20,
            font_family: 0,
            name: "Bold".into(),
        },
    ]);
    let cmd = [0x80, 0x01, 0x00, 0x80, 0x00, 0x00, 0x82];
    let ld1 = ld1(&cmd);
    let ld2 = b"\0printf\0 function\0";
    let blocks = parse_text_record(&ld1, ld2, &fonts_with_bold, &no_targets()).unwrap();
    let Block::Paragraph(inlines) = &blocks[0] else {
        panic!();
    };
    // Everything comes out as plain text (merged by push_or_merge), with
    // no Bold wrapper applied.
    assert_eq!(inlines.len(), 1);
    assert!(matches!(&inlines[0], Inline::Text(t) if t == "printf function"));
}

#[test]
fn end_of_record_stops_parsing() {
    let cmd = [0x80, 0x00, 0x00, 0xFF, 0x80, 0x00, 0x00];
    let ld1 = ld1(&cmd);
    let ld2 = b"visible\0invisible\0";
    let blocks = parse_text_record(&ld1, ld2, &fonts(), &no_targets()).unwrap();
    assert_eq!(blocks.len(), 1);
    let Block::Paragraph(inlines) = &blocks[0] else {
        panic!();
    };
    assert!(matches!(&inlines[0], Inline::Text(t) if t == "visible"));
}

#[test]
fn empty_record_returns_no_blocks() {
    let blocks = parse_text_record(&[], b"", &fonts(), &no_targets()).unwrap();
    assert!(blocks.is_empty());
}

/// Build an LD1 with a realistic preamble: bitflags 0x0A50 (qc + qr +
/// li + fi + tab stops). The tab stops are skipped.
#[test]
fn preamble_with_tab_stops_is_skipped() {
    let mut ld1 = Vec::new();
    // scanlong topicsize = 4: 1-byte LSB=0 → 2 bytes value (4<<1)|0x8000 = 0x8008.
    ld1.extend_from_slice(&[0x08, 0x80]);
    // scanword chars = 4: 1-byte LSB=0 → (4<<1) = 0x08.
    ld1.push(0x08);
    // Skip 4 bytes.
    ld1.extend_from_slice(&[0x00, 0x00, 0x00, 0x00]);
    // u16 bitflags = 0x0200 (tab stops only).
    ld1.extend_from_slice(&[0x00, 0x02]);
    // scanint y1 = 2: 1-byte LSB=0 → (2 + 0x40) << 1 = 0x84.
    ld1.push(0x84);
    // tab 0: 1-byte scanword LSB=0 → value = 36 → byte 0x48.
    ld1.push(0x48);
    // tab 1: 2-byte scanword LSB=1 → value = 72 → bytes 0x91, 0x00.
    ld1.extend_from_slice(&[0x91, 0x00]);
    // Command stream: font change + end paragraph.
    ld1.extend_from_slice(&[0x80, 0x00, 0x00, 0x82]);
    let ld2 = b"hello\0\0";
    let blocks = parse_text_record(&ld1, ld2, &fonts(), &no_targets()).unwrap();
    assert_eq!(blocks.len(), 1);
    let Block::Paragraph(inlines) = &blocks[0] else {
        panic!();
    };
    assert!(matches!(&inlines[0], Inline::Text(t) if t == "hello"));
}

#[test]
fn multiple_links_in_series_preserve_separators() {
    let cmd = [
        0x80, 0x04, 0x00, 0xE3, 0xAA, 0xAA, 0xAA, 0xAA, 0x89, 0x80, 0x00, 0x00, 0x80, 0x04,
        0x00, 0xE3, 0xBB, 0xBB, 0xBB, 0xBB, 0x89, 0x80, 0x00, 0x00, 0x82,
    ];
    let ld1 = ld1(&cmd);
    let mut ld2: Vec<u8> = Vec::new();
    ld2.extend_from_slice(b"\0");
    ld2.extend_from_slice(b"\0");
    ld2.extend_from_slice(b"atexit\0");
    ld2.extend_from_slice(b"\0");
    ld2.extend_from_slice(b", \0");
    ld2.extend_from_slice(b"\0");
    ld2.extend_from_slice(b"exit\0");
    ld2.extend_from_slice(b"\0");
    ld2.extend_from_slice(b"\0");

    let blocks = parse_text_record(&ld1, &ld2, &fonts(), &no_targets()).unwrap();
    assert_eq!(blocks.len(), 1);
    let Block::Paragraph(inlines) = &blocks[0] else {
        panic!();
    };
    assert_eq!(inlines.len(), 3);
    let Inline::Link { text, target, .. } = &inlines[0] else {
        panic!("expected link, got {:?}", inlines[0]);
    };
    assert_eq!(target, "0xAAAAAAAA");
    assert!(matches!(&text[0], Inline::Text(t) if t == "atexit"));
    assert!(matches!(&inlines[1], Inline::Text(t) if t == ", "));
    let Inline::Link { text, target, .. } = &inlines[2] else {
        panic!();
    };
    assert_eq!(target, "0xBBBBBBBB");
    assert!(matches!(&text[0], Inline::Text(t) if t == "exit"));
}

#[test]
fn consecutive_code_lines_produce_separate_paragraphs() {
    let cmd = [
        0x80, 0x09, 0x00, 0x80, 0x00, 0x00, 0x82, 0x80, 0x09, 0x00, 0x80, 0x00, 0x00, 0x82,
    ];
    let ld1 = ld1(&cmd);
    let ld2 = b"\0#include <stdlib.h>\0\0\0void abort( void );\0\0\0";
    let blocks = parse_text_record(&ld1, ld2, &fonts(), &no_targets()).unwrap();
    assert_eq!(blocks.len(), 2);
}

#[test]
fn image_opcode_emits_block_image() {
    // Layout of a bmc command:
    //   86 22 08 80 02 00 00 NN 00
    // → HC31 picture, hotspots=1, external bitmap #NN.
    //
    // Preceding 80 00 00 sets font + consumes an empty segment; the
    // image op consumes another empty segment; trailing 82 ends the
    // paragraph (no paragraph to flush because image is emitted as its
    // own block).
    let cmd = [
        0x80, 0x00, 0x00, // font change, consumes seg 0
        0x86, 0x22, 0x08, 0x80, 0x02, 0x00, 0x00, 0x07, 0x00, // bmc bm7, consumes seg 1
        0x82, // end paragraph, consumes seg 2
        0xFF,
    ];
    let ld1 = ld1(&cmd);
    // 3 empty segments to match consumption count.
    let ld2 = b"\0\0\0";
    let blocks = parse_text_record(&ld1, ld2, &fonts(), &no_targets()).unwrap();
    assert_eq!(blocks.len(), 1);
    let Block::Image(img) = &blocks[0] else {
        panic!("expected Image, got {:?}", blocks[0]);
    };
    assert_eq!(img.filename, "|bm7");
    assert_eq!(img.placement, ImagePlacement::Inline);
}

#[test]
fn image_opcode_left_and_right_placement() {
    // Left-aligned (bml, 0x87).
    let cmd_l = [
        0x80, 0x00, 0x00, 0x87, 0x22, 0x08, 0x80, 0x02, 0x00, 0x00, 0x03, 0x00, 0x82, 0xFF,
    ];
    let ld1_l = ld1(&cmd_l);
    let blocks_l = parse_text_record(&ld1_l, b"\0\0\0", &fonts(), &no_targets()).unwrap();
    let Block::Image(img) = &blocks_l[0] else {
        panic!();
    };
    assert_eq!(img.filename, "|bm3");
    assert_eq!(img.placement, ImagePlacement::Left);

    // Right-aligned (bmr, 0x88).
    let cmd_r = [
        0x80, 0x00, 0x00, 0x88, 0x22, 0x08, 0x80, 0x02, 0x00, 0x00, 0x05, 0x00, 0x82, 0xFF,
    ];
    let ld1_r = ld1(&cmd_r);
    let blocks_r = parse_text_record(&ld1_r, b"\0\0\0", &fonts(), &no_targets()).unwrap();
    let Block::Image(img) = &blocks_r[0] else {
        panic!();
    };
    assert_eq!(img.filename, "|bm5");
    assert_eq!(img.placement, ImagePlacement::Right);
}

#[test]
fn image_opcode_embedded_variant_emits_no_block() {
    // PictureIsEmbedded = 1 → no external filename; we emit no block.
    let cmd = [
        0x80, 0x00, 0x00, 0x86, 0x22, 0x08, 0x80, 0x02, 0x01, 0x00, 0x00, 0x00, 0x82, 0xFF,
    ];
    let ld1 = ld1(&cmd);
    let blocks = parse_text_record(&ld1, b"\0\0\0", &fonts(), &no_targets()).unwrap();
    // The trailing 0x82 finds no pending paragraph either. Result: 0 blocks.
    assert!(blocks.is_empty(), "expected no blocks, got {blocks:?}");
}

#[test]
fn scan_long_decodes_2byte_and_4byte_forms() {
    // 2-byte form: bytes 0x08 0x80 → value = (0x8008 >> 1) - 0x4000 = 4.
    let mut p = 0;
    assert_eq!(scan_long(&[0x08, 0x80], &mut p), 4);
    assert_eq!(p, 2);

    // 4-byte form: bytes with LSB=1. Encode value 1000:
    //   stored = ((1000 + 0x40000000) << 1) | 1 = 0x80_00_07_D1.
    let v = 1000u32;
    let stored = ((v.wrapping_add(0x4000_0000)) << 1) | 1;
    let bytes = stored.to_le_bytes();
    let mut p = 0;
    assert_eq!(scan_long(&bytes, &mut p), 1000);
    assert_eq!(p, 4);
}
