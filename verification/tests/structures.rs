//! Corner cases of the internal structures, and the errors they give.

use winhelp::bitmap::{decompress_packed, extract_bitmap};
use winhelp::container::{parse_directory, read_cstring, read_u16, read_u32};
use winhelp::hall::{BitReader, PhrIndexHeader};
use winhelp::hotspot::take_stringz;
use winhelp::keyword::read_kwdata_entry;
use winhelp::opcode::{
    find_command_stream_start, parse_command_stream, parse_image_opcode, resolve_hash_target,
    split_segments,
};
use winhelp::rst::write_block;
use winhelp::runlen::derun;
use winhelp::scan::{read_u32_le, scan_int, scan_long, scan_word};
use winhelp::system::read_nul_string;
use winhelp::{
    build_keyword_index, context_hash, ensure_bmp_header, extract_records, lz77_decompress,
    parse_text_record, parse_topic_metadata, read_topic_blocks, topic_offset_delta, Block,
    ContextMap, Error, FontTable, HlpContainer, Inline, KeywordIndex, PhraseTable, SystemInfo,
    TitleIndex, Topic, RECORD_TYPE_TEXT,
};

use std::collections::HashMap;

fn le16(n: u16) -> [u8; 2] {
    n.to_le_bytes()
}

fn le32(n: u32) -> [u8; 4] {
    n.to_le_bytes()
}

/// A 38-byte B-tree header.
fn btree_header(flags: u16, page_size: u16, root: u16, pages: u16, levels: u16) -> Vec<u8> {
    let mut b = Vec::new();
    b.extend_from_slice(&le16(0x293B));
    b.extend_from_slice(&le16(flags));
    b.extend_from_slice(&le16(page_size));
    b.extend_from_slice(&[0u8; 20]);
    b.extend_from_slice(&le16(root));
    b.extend_from_slice(&le16(0xFFFF));
    b.extend_from_slice(&le16(pages));
    b.extend_from_slice(&le16(levels));
    b.extend_from_slice(&le32(0));
    b
}

fn page(size: usize, parts: &[&[u8]]) -> Vec<u8> {
    let mut b: Vec<u8> = parts.concat();
    b.resize(size, 0);
    b
}

#[test]
fn directory_of_two_levels() {
    let mut data = Vec::new();
    data.extend_from_slice(&le32(0x00035F3F));
    data.extend_from_slice(&le32(8));
    data.extend_from_slice(&[0u8; 9]);
    data.extend_from_slice(&btree_header(0, 32, 1, 3, 2));
    // Page 0 and page 2 are leaves, page 1 is the root.
    data.extend_from_slice(&page(
        32,
        &[&le16(0), &le16(1), &le16(0), &le16(0), b"|A\0", &le32(5)],
    ));
    data.extend_from_slice(&page(
        32,
        &[&le16(0), &le16(1), &le16(0), b"|B\0", &le16(2)],
    ));
    data.extend_from_slice(&page(
        32,
        &[&le16(0), &le16(1), &le16(0), &le16(0), b"|B\0", &le32(6)],
    ));
    let files = parse_directory(&data, 8).unwrap();
    assert_eq!(files.len(), 2);
    assert_eq!((files[0].name.as_str(), files[0].offset), ("|A", 5));
    assert_eq!((files[1].name.as_str(), files[1].offset), ("|B", 6));
}

#[test]
fn directory_errors() {
    assert_eq!(
        parse_directory(&[0; 20], 8).unwrap_err().message(),
        "parse error at offset 0x8: directory too small for B-tree header",
    );
    let mut data = vec![0u8; 17];
    data.extend_from_slice(&btree_header(0, 64, 0, 1, 1));
    assert_eq!(
        parse_directory(&data, 8).unwrap_err().message(),
        "parse error at offset 0x37: leaf page extends past end of file",
    );
    data[17] = 0;
    assert_eq!(
        parse_directory(&data, 8).unwrap_err().message(),
        "invalid internal file header in '(directory)': bad B-tree magic: expected 0x293B, got \
         0x2900",
    );
}

#[test]
fn container_errors() {
    let err = HlpContainer::from_bytes(vec![1, 2, 3, 4, 5, 6, 7, 8]).unwrap_err();
    assert!(matches!(err, Error::BadMagic(0x04030201)));
    assert_eq!(
        err.message(),
        "invalid HLP magic: expected 0x00035F3F, got 0x04030201",
    );
    let err = HlpContainer::from_bytes(vec![]).unwrap_err();
    assert_eq!(
        err.message(),
        "parse error at offset 0x0: file too small for HLP header",
    );
}

#[test]
fn internal_files_past_the_end() {
    let mut data = Vec::new();
    data.extend_from_slice(&le32(0x00035F3F));
    data.extend_from_slice(&le32(8));
    data.extend_from_slice(&[0u8; 9]);
    data.extend_from_slice(&btree_header(0, 40, 0, 1, 1));
    let end: u32 = 55 + 40;
    data.extend_from_slice(&page(
        40,
        &[
            &le16(0),
            &le16(2),
            &le16(0),
            &le16(0),
            b"|A\0",
            &le32(end),
            b"|B\0",
            &le32(1000),
        ],
    ));
    data.extend_from_slice(&le32(4));
    data.extend_from_slice(&le32(4));
    data.push(0);
    data.extend_from_slice(b"abc");
    let c = HlpContainer::from_bytes(data).unwrap();
    assert_eq!(
        c.read_file("|A").unwrap_err().message(),
        "invalid internal file header in '|A': internal file data (4 bytes at 0x68) extends past \
         EOF",
    );
    assert_eq!(
        c.read_file_raw("|A").unwrap_err().message(),
        "invalid internal file header in '|A': internal file (13 bytes at 0x5F) extends past EOF",
    );
    assert_eq!(
        c.read_file("|B").unwrap_err().message(),
        "invalid internal file header in '|B': offset extends past end of file",
    );
    assert!(matches!(c.read_file_raw("|C"), Err(Error::FileNotFound(n)) if n == "|C"));
    assert!(extract_bitmap(&c, "|C").unwrap().is_none());
    assert!(extract_bitmap(&c, "|A").is_err());
}

#[test]
fn numbers_and_strings_past_the_end() {
    assert_eq!(
        read_u16(&[1], 0).unwrap_err().message(),
        "parse error at offset 0x0: unexpected EOF reading u16",
    );
    assert_eq!(
        read_u32(&[1, 2, 3, 4], 1).unwrap_err().message(),
        "parse error at offset 0x1: unexpected EOF reading u32",
    );
    assert_eq!(
        read_cstring(b"abc", 0).unwrap_err().message(),
        "parse error at offset 0x0: unterminated string",
    );
    assert_eq!(
        read_cstring(b"abc", 4).unwrap_err().message(),
        "parse error at offset 0x4: unexpected EOF reading string",
    );
}

#[test]
fn bytes_that_are_not_utf8_are_replaced() {
    let (s, used) = read_cstring(b"a\xFFb\0", 0).unwrap();
    assert_eq!(s, "a\u{FFFD}b");
    assert_eq!(used, 4);
    let (s, _) = read_cstring("é\0".as_bytes(), 0).unwrap();
    assert_eq!(s, "é");
    assert_eq!(read_nul_string(b"x\xC3"), "x\u{FFFD}");
    assert_eq!(read_nul_string(b"x\0y"), "x");
}

#[test]
fn context_trees_of_two_levels() {
    let mut data = Vec::new();
    data.extend_from_slice(&le16(0x293B));
    data.extend_from_slice(&le16(0));
    data.extend_from_slice(&le16(20));
    data.extend_from_slice(&[0u8; 4]);
    data.extend_from_slice(&le16(3));
    data.extend_from_slice(&le16(2));
    data.extend_from_slice(&le16(0));
    data.extend_from_slice(&le16(2));
    data.extend_from_slice(&le32(0));
    data.extend_from_slice(&page(20, &[&le16(0), &le16(1), &le32(1), &le32(10)]));
    data.extend_from_slice(&page(
        20,
        &[&le16(0), &le16(2), &le32(1), &le32(11), &le32(2), &le32(20)],
    ));
    data.extend_from_slice(&page(
        20,
        &[&le16(0), &le16(1), &le16(0), &le32(1), &le16(1)],
    ));
    let map = ContextMap::from_bytes(&data).unwrap();
    assert_eq!(map.len(), 2);
    // Of two pairs with one hash the later counts.
    assert_eq!(map.resolve_hash(1), Some(11));
    assert_eq!(map.resolve_hash(2), Some(20));
    assert_eq!(map.resolve_hash(3), None);
    assert!(!map.is_empty());
    assert!(ContextMap::empty().is_empty());
    assert_eq!(
        ContextMap::from_bytes(&data[..60]).unwrap_err().message(),
        "parse error at offset 0x3e: context index page past EOF",
    );
}

#[test]
fn context_hash_values() {
    assert_eq!(context_hash("a"), 97);
    assert_eq!(context_hash("ab"), 97 * 43 + 98);
    assert_eq!(context_hash("AB"), context_hash("ab"));
    assert_eq!(context_hash("é"), 0xC3 * 43 + 0xA9);
}

#[test]
fn titles_with_one_offset_keep_their_order() {
    let mut data = btree_header(0, 40, 0, 1, 1);
    data.extend_from_slice(&page(
        40,
        &[
            &le16(0),
            &le16(4),
            &le32(2),
            b"x\0",
            &le32(1),
            b"y\0",
            &le32(2),
            b"z\0",
            &le32(1),
            b"\xFF\0",
        ],
    ));
    let index = TitleIndex::from_bytes(&data).unwrap();
    let titles: Vec<(u32, &str)> = index
        .titles_in_order()
        .iter()
        .map(|t| (t.0, t.1.as_str()))
        .collect();
    assert_eq!(titles, [(1, "y"), (1, "\u{FFFD}"), (2, "x"), (2, "z")]);
    assert_eq!(index.get_title(2), Some("x"));
    assert_eq!(
        TitleIndex::from_bytes(&data[..50]).unwrap_err().message(),
        "parse error at offset 0x26: title leaf page past EOF",
    );
}

#[test]
fn keyword_trees_with_counters() {
    let mut data = btree_header(0x0400, 24, 2, 3, 2);
    data.extend_from_slice(&page(24, &[&le16(0), &le16(1), b"a\0", &le32(0)]));
    data.extend_from_slice(&page(24, &[&le16(0), &le16(1), b"b\0", &le32(6)]));
    data.extend_from_slice(&page(
        24,
        &[&le16(0), &le16(1), &le16(0), b"b\0", &le16(9), &le16(1)],
    ));
    let mut kwdata = Vec::new();
    kwdata.extend_from_slice(&le16(1));
    kwdata.extend_from_slice(&le32(100));
    kwdata.extend_from_slice(&le16(2));
    kwdata.extend_from_slice(&le32(200));
    kwdata.extend_from_slice(&le32(300));
    let index = KeywordIndex::from_bytes(&data, &kwdata).unwrap();
    assert_eq!(index.len(), 2);
    assert_eq!(index.entries()[0].keyword, "a");
    assert_eq!(index.entries()[0].topic_offsets, [100]);
    assert_eq!(index.entries()[1].keyword, "b");
    assert_eq!(index.entries()[1].topic_offsets, [200, 300]);
    assert_eq!(
        read_kwdata_entry(&kwdata[..10], 6).unwrap_err().message(),
        "parse error at offset 0x6: KWDATA entry needs 8 bytes but only 2 available",
    );
    assert_eq!(
        read_kwdata_entry(&kwdata, 15).unwrap_err().message(),
        "parse error at offset 0xf: KWDATA entry past EOF",
    );
}

#[test]
fn keyword_index_is_ordered_by_bytes() {
    let topic = |id: &str, keywords: &[&str]| Topic {
        id: id.to_string(),
        aliases: vec![],
        title: String::new(),
        keywords: keywords.iter().map(|k| k.to_string()).collect(),
        browse_seq: None,
        body: vec![],
    };
    let index = build_keyword_index(&[topic("1", &["é", "z", "Z"]), topic("2", &["z", "a", "z"])]);
    let keywords: Vec<&str> = index.iter().map(|k| k.keyword.as_str()).collect();
    assert_eq!(keywords, ["Z", "a", "z", "é"]);
    assert_eq!(index[2].topic_ids, ["1", "2", "2"]);
}

#[test]
fn lz77_operations() {
    // Eight literals, then in a second group a copy of four bytes from six
    // places back.
    let mut data = vec![0x00];
    data.extend_from_slice(b"abcdefgh");
    data.push(0x01);
    data.extend_from_slice(&le16((1 << 12) | 5));
    assert_eq!(lz77_decompress(&data).unwrap(), b"abcdefghcdef");
    // A copy that is cut off is dropped.
    assert_eq!(lz77_decompress(&[0x02, b'x', 0x00]).unwrap(), b"x");
}

#[test]
fn runs_decode() {
    assert_eq!(derun(&[2, b'a', 0x82, b'b', b'c', 1, b'd']), b"aabcd");
    // Runs that are cut off give what is there.
    assert_eq!(derun(&[0x85, b'x', b'y']), b"xy");
    assert_eq!(derun(&[9]), b"");
    assert_eq!(derun(&[0x80, 1, b'k']), b"k");
}

#[test]
fn packings() {
    assert_eq!(decompress_packed(b"ab", 0).unwrap(), b"ab");
    assert_eq!(decompress_packed(&[3, b'a'], 1).unwrap(), b"aaa");
    assert_eq!(decompress_packed(&[0, b'a'], 2).unwrap(), b"a");
    assert_eq!(decompress_packed(&[0, 3, b'a'], 3).unwrap(), b"aaa");
    assert!(decompress_packed(b"", 4).is_none());
}

#[test]
fn phrase_table_errors() {
    let message = |data: &[u8], index: Option<&[u8]>, compressed: bool| {
        PhraseTable::from_bytes(data, index, compressed)
            .unwrap_err()
            .message()
    };
    assert_eq!(
        message(&[1], None, false),
        "invalid internal file header in '|Phrases': too small for phrase count",
    );
    assert_eq!(
        message(&[2, 0, 0, 0], None, false),
        "invalid internal file header in '|Phrases': not enough data for phrase offsets",
    );
    assert_eq!(
        message(&[1, 0, 0, 0, 9, 0, b'x'], None, false),
        "invalid internal file header in '|Phrases': phrase 0 extends past end of data",
    );
    assert_eq!(
        message(&[1, 0, 0, 0], Some(&[0, 0]), false),
        "invalid internal file header in '|PhrIndex': not enough data for phrase offsets",
    );
    assert_eq!(
        message(&[1, 0, 0, 0, 0, 0, 0, 0], None, true),
        "invalid internal file header in '|Phrases': not enough data for phrase offsets \
         (compressed)",
    );
}

#[test]
fn compressed_phrases() {
    let mut data = Vec::new();
    data.extend_from_slice(&le16(2));
    data.extend_from_slice(&le16(0x0100));
    data.extend_from_slice(&le32(5));
    for bound in [6u16, 8, 11] {
        data.extend_from_slice(&le16(bound));
    }
    data.extend_from_slice(b"\0abcde");
    let table = PhraseTable::from_bytes(&data, None, true).unwrap();
    assert_eq!(table.phrases, [b"ab".to_vec(), b"cde".to_vec()]);
    assert!(!table.hall);
    // Tokens of the two phrases, the second with a space behind it.
    assert_eq!(table.expand(&[1, 0, b'-', 1, 3]).unwrap(), b"ab-cde ");
    assert_eq!(
        table.expand(&[1, 4]).unwrap_err().message(),
        "decompression failed: phrase index 2 out of range (table has 2 entries)",
    );
}

#[test]
fn hall_tokens() {
    let mut table = PhraseTable::empty();
    table.hall = true;
    for i in 0..130u8 {
        table.phrases.push(vec![i, b'.']);
    }
    // Phrase 1, phrase 129, three literals, two spaces, one NUL byte.
    let data = [2, 1, 1, 0x13, b'x', b'y', b'z', 0x17, 0x0F];
    assert_eq!(table.expand(&data).unwrap(), b"\x01.\x81.xyz  \0");
    assert_eq!(table.len(), 130);
    assert!(!table.is_empty());
}

#[test]
fn hall_bit_stream() {
    let mut reader = BitReader::new(&[0b0000_0101, 0, 0, 0x80]);
    let mut bits = Vec::new();
    for _ in 0..32 {
        bits.push(reader.read_bit().unwrap());
    }
    assert!(bits[0] && !bits[1] && bits[2] && !bits[3] && bits[31]);
    assert_eq!(
        reader.read_bit().unwrap_err().message(),
        "invalid internal file header in '|PhrIndex': bitstream exhausted before all phrase \
         lengths were read",
    );
    assert_eq!(
        PhrIndexHeader::from_bytes(&[0; 3]).unwrap_err().message(),
        "invalid internal file header in '|PhrIndex': need 28 bytes for PHRINDEXHDR, got 3",
    );
}

#[test]
fn system_records_that_are_cut_off_end_the_list() {
    let mut data = Vec::new();
    data.extend_from_slice(&le16(0x036C));
    data.extend_from_slice(&le16(9));
    data.extend_from_slice(&le16(1));
    data.extend_from_slice(&le16(1));
    data.extend_from_slice(&le16(2));
    data.extend_from_slice(b"T\0");
    data.extend_from_slice(&le16(2));
    data.extend_from_slice(&le16(99));
    data.extend_from_slice(b"cut");
    let info = SystemInfo::from_bytes(&data).unwrap();
    assert_eq!(info.title.as_deref(), Some("T"));
    assert_eq!(info.copyright, None);
    assert_eq!(info.compression_flags(), 1);
    assert_eq!(
        SystemInfo::from_bytes(&[1, 2, 3, 4, 5, 6]).unwrap_err().message(),
        "invalid internal file header in '|SYSTEM': bad magic: expected 0x036C, got 0x0201",
    );
}

#[test]
fn topic_blocks_end_with_a_short_one() {
    let mut data = Vec::new();
    for n in 1u32..4 {
        data.extend_from_slice(&le32(n));
    }
    data.extend_from_slice(b"abcd");
    for n in 4u32..7 {
        data.extend_from_slice(&le32(n));
    }
    data.extend_from_slice(b"e");
    let blocks = read_topic_blocks(&data, 16, false, &PhraseTable::empty()).unwrap();
    assert_eq!(blocks.len(), 2);
    assert_eq!(blocks[0].last_topic_link, 1);
    assert_eq!(blocks[0].first_topic_link, 2);
    assert_eq!(blocks[0].last_topic_header, 3);
    assert_eq!(blocks[0].data, b"abcd");
    assert_eq!(blocks[1].data, b"e");
}

#[test]
fn records_split_into_commands_and_text() {
    let mut stream = Vec::new();
    stream.extend_from_slice(&le32(9 + 5));
    stream.extend_from_slice(&le32(2));
    stream.push(RECORD_TYPE_TEXT);
    stream.extend_from_slice(b"cmdtx");
    stream.extend_from_slice(b"\x08\0\0\0-----");
    let records = extract_records(&stream).unwrap();
    assert_eq!(records.len(), 1);
    assert_eq!(records[0].link_data1(), b"cmd");
    assert_eq!(records[0].link_data2(), b"tx");
}

#[test]
fn footnotes_count_in_order() {
    let data = b"\0\0\0\0#one\0#two\0Kk\0xother\0$t";
    let meta = parse_topic_metadata(data);
    assert_eq!(meta.context_id.as_deref(), Some("two"));
    assert_eq!(meta.keywords, ["k"]);
    assert_eq!(meta.title.as_deref(), Some("t"));
    assert_eq!(meta.browse_seq, None);
}

#[test]
fn font_faces_fill_their_cells() {
    let mut data = Vec::new();
    for n in [2u16, 2, 8, 12] {
        data.extend_from_slice(&le16(n));
    }
    data.extend_from_slice(b"abc\0");
    data.extend_from_slice(&[1, 20, 3, 0, 0]);
    data.extend_from_slice(&[4, 24, 0, 9, 0]);
    let table = FontTable::from_bytes(&data).unwrap();
    assert_eq!(table.len(), 2);
    // Face 0 is "ab", which fills its cell; there is no face 9.
    assert_eq!(table.get(0).unwrap().name, "ab");
    assert!(table.get(0).unwrap().is_bold());
    assert_eq!(table.get(1).unwrap().name, "");
    assert!(table.get(1).unwrap().is_underline());
    assert!(table.get(2).is_none());
}

#[test]
fn compressed_numbers_read_back() {
    let mut p = 0;
    assert_eq!(scan_word(&[0x91, 0x01, 0x06], &mut p), 0xC8);
    assert_eq!(scan_word(&[0x91, 0x01, 0x06], &mut p), 3);
    assert_eq!(p, 3);
    let mut p = 0;
    assert_eq!(scan_int(&[0x84, 0x00], &mut p), 2);
    assert_eq!(scan_int(&[0x84, 0x00], &mut p), -64);
    let mut p = 0;
    assert_eq!(scan_int(&[0x01, 0x80], &mut p), 0);
    let mut p = 0;
    assert_eq!(scan_long(&[0x01, 2], &mut p), 0);
    assert_eq!(p, 2);
    let mut p = 0;
    assert_eq!(read_u32_le(&[1, 2, 3], &mut p), 0x030201);
    assert_eq!(p, 3);
}

#[test]
fn text_records() {
    assert_eq!(topic_offset_delta(&[0x08, 0x80, 0x0A]), 5);
    assert_eq!(topic_offset_delta(&[]), 0);
    assert_eq!(find_command_stream_start(&[0; 9]), 9);
    assert_eq!(find_command_stream_start(&[0; 3]), 3);
    assert_eq!(split_segments(b"a\0\xFF\0"), ["a", "\u{FFFD}", ""]);
    assert_eq!(split_segments(b""), [""]);
    let mut targets = HashMap::new();
    targets.insert(7u32, "seven".to_string());
    assert_eq!(resolve_hash_target(7, &targets), "seven");
    assert_eq!(resolve_hash_target(0xAB, &targets), "0x000000AB");
    assert_eq!(
        parse_image_opcode(&[0x86, 0x03, 0x08, 0x80, 0, 0, 5, 0, 9], 0),
        Some((Some("|bm5".to_string()), 8)),
    );
    assert_eq!(parse_image_opcode(&[0x86, 0x05, 0x02, 0x80, 0], 0), Some((None, 5)));
    assert_eq!(parse_image_opcode(&[0x86, 0x03], 0), None);
}

#[test]
fn links_without_text_show_their_target() {
    let mut commands = vec![0u8; 9];
    commands.extend_from_slice(&[0x80, 0, 0, 0xE3, 1, 0, 0, 0, 0x89, 0x81, 0x83, 0xFF, 0x82]);
    let blocks =
        parse_text_record(&commands, b"\0\0\0a\0b\0c", &FontTable::empty(), &HashMap::new())
            .unwrap();
    assert_eq!(blocks.len(), 1);
    let Block::Paragraph(inlines) = &blocks[0] else {
        panic!("expected a paragraph");
    };
    assert_eq!(inlines.len(), 2);
    let Inline::Link { text, target, .. } = &inlines[0] else {
        panic!("expected a link");
    };
    assert_eq!(target, "0x00000001");
    assert!(matches!(&text[0], Inline::Text(t) if t == "0x00000001"));
    // Line break and tab, merged with the text around them.
    assert!(matches!(&inlines[1], Inline::Text(t) if t == "a\nb\t"));
}

#[test]
fn line_breaks_are_newlines() {
    let run = |commands: &[u8], segments: &[&str]| {
        let segments: Vec<String> = segments.iter().map(|s| s.to_string()).collect();
        parse_command_stream(commands, &segments, &FontTable::empty(), &HashMap::new())
    };
    let blocks = run(&[0x81, 0x80, 0, 0, 0x82], &["a", "b", ""]);
    assert_eq!(blocks.len(), 1);
    let Block::Paragraph(inlines) = &blocks[0] else {
        panic!("expected a paragraph");
    };
    assert_eq!(inlines.len(), 1);
    assert!(matches!(&inlines[0], Inline::Text(t) if t == "a\nb"));
    // The page keeps the line.
    let mut rst = String::new();
    write_block(&mut rst, &blocks[0], &Vec::new());
    assert_eq!(rst, "a\nb\n");
    // Without text around it there is still the newline.
    let blocks = run(&[0x81], &[""]);
    let Block::Paragraph(inlines) = &blocks[0] else {
        panic!("expected a paragraph");
    };
    assert!(matches!(&inlines[0], Inline::Text(t) if t == "\n"));
}

#[test]
fn bitmap_headers() {
    // An unknown info header size leaves the data alone.
    let odd = 41u32.to_le_bytes();
    assert_eq!(ensure_bmp_header(&odd), odd);
    let mut core = 12u32.to_le_bytes().to_vec();
    core.extend_from_slice(&[1, 0, 1, 0, 1, 0, 1, 0]);
    let bmp = ensure_bmp_header(&core);
    assert_eq!(&bmp[..2], b"BM");
    assert_eq!(&bmp[2..6], &le32(26));
    // File header, info header and two colors of three bytes.
    assert_eq!(&bmp[10..14], &le32(14 + 12 + 6));
    assert_eq!(ensure_bmp_header(&bmp), bmp);
}

#[test]
fn strings_of_hotspots() {
    let block = b"ab\0c";
    let mut p = 0;
    assert_eq!(take_stringz(block, &mut p).as_deref(), Some("ab"));
    assert_eq!(p, 3);
    assert_eq!(take_stringz(block, &mut p), None);
}

#[test]
fn messages_of_errors() {
    assert_eq!(
        Error::UnresolvedHash(0xAB).message(),
        "unresolved context hash: 0x000000AB",
    );
    assert_eq!(
        Error::Parse {
            offset: 255,
            detail: "d".to_string(),
        }
        .message(),
        "parse error at offset 0xff: d",
    );
}
