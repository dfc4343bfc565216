//! The topic stream.

use winhelp::{
    extract_records, flatten_topic_stream, parse_topic_metadata, read_topic_blocks, PhraseTable,
    TopicBlock, RECORD_TYPE_TEXT, RECORD_TYPE_TOPIC,
};

/// Build a synthetic topic block (uncompressed, no phrases).
fn make_block_data(
    last_link: u32,
    first_link: u32,
    last_header: u32,
    body: &[u8],
) -> Vec<u8> {
    let mut buf = Vec::new();
    buf.extend_from_slice(&last_link.to_le_bytes());
    buf.extend_from_slice(&first_link.to_le_bytes());
    buf.extend_from_slice(&last_header.to_le_bytes());
    buf.extend_from_slice(body);
    buf
}

#[test]
fn read_single_uncompressed_block() {
    let body = b"hello world";
    let topic_data = make_block_data(0, 0, 0, body);
    let block_size = topic_data.len();
    let phrases = PhraseTable::empty();

    let blocks = read_topic_blocks(&topic_data, block_size, false, &phrases).unwrap();
    assert_eq!(blocks.len(), 1);
    assert_eq!(blocks[0].data, body);
}

#[test]
fn read_multiple_blocks() {
    let block_size = 32;
    let body1 = b"block one data!!"; // 16 bytes
    let body2 = b"block two data!!"; // 16 bytes

    let mut topic_data = make_block_data(0, 0, 0, body1);
    topic_data.resize(block_size, 0); // pad to block_size
    let block2 = make_block_data(0, 0xFFFFFFFF, 0, body2);
    topic_data.extend_from_slice(&block2);
    topic_data.resize(block_size * 2, 0);

    let phrases = PhraseTable::empty();
    let blocks = read_topic_blocks(&topic_data, block_size, false, &phrases).unwrap();
    assert_eq!(blocks.len(), 2);
    assert_eq!(&blocks[0].data[..body1.len()], &body1[..]);
    assert_eq!(&blocks[1].data[..body2.len()], &body2[..]);
    assert_eq!(blocks[1].first_topic_link, 0xFFFFFFFF);
}

#[test]
fn flatten_produces_contiguous_stream() {
    let blocks = vec![
        TopicBlock {
            last_topic_link: 0,
            first_topic_link: 0,
            last_topic_header: 0,
            data: b"AAA".to_vec(),
        },
        TopicBlock {
            last_topic_link: 0,
            first_topic_link: 0,
            last_topic_header: 0,
            data: b"BBB".to_vec(),
        },
    ];

    let stream = flatten_topic_stream(&blocks);
    assert_eq!(stream, b"AAABBB");
}

#[test]
fn extract_records_basic() {
    // Build a stream with one record:
    // block_size = 15 (9 header + 6 data)
    // data_size = 6
    // record_type = 0x02
    // data = "abcdef"
    let mut stream = Vec::new();
    stream.extend_from_slice(&15u32.to_le_bytes()); // block_size
    stream.extend_from_slice(&6u32.to_le_bytes()); // data_size
    stream.push(RECORD_TYPE_TOPIC); // record_type
    stream.extend_from_slice(b"abcdef");

    let records = extract_records(&stream).unwrap();
    assert_eq!(records.len(), 1);
    assert_eq!(records[0].record_type, RECORD_TYPE_TOPIC);
    assert_eq!(records[0].data, b"abcdef");
    assert_eq!(records[0].stream_offset, 0);
}

#[test]
fn extract_records_multiple() {
    let mut stream = Vec::new();

    // Record 1: topic header
    stream.extend_from_slice(&12u32.to_le_bytes());
    stream.extend_from_slice(&3u32.to_le_bytes());
    stream.push(RECORD_TYPE_TOPIC);
    stream.extend_from_slice(b"abc");

    // Record 2: text
    let r2_offset = stream.len();
    stream.extend_from_slice(&11u32.to_le_bytes());
    stream.extend_from_slice(&2u32.to_le_bytes());
    stream.push(RECORD_TYPE_TEXT);
    stream.extend_from_slice(b"xy");

    let records = extract_records(&stream).unwrap();
    assert_eq!(records.len(), 2);
    assert_eq!(records[0].record_type, RECORD_TYPE_TOPIC);
    assert_eq!(records[1].record_type, RECORD_TYPE_TEXT);
    assert_eq!(records[1].stream_offset, r2_offset);
}

#[test]
fn extract_records_stops_at_zero_size() {
    let mut stream = Vec::new();
    stream.extend_from_slice(&12u32.to_le_bytes());
    stream.extend_from_slice(&3u32.to_le_bytes());
    stream.push(RECORD_TYPE_TOPIC);
    stream.extend_from_slice(b"abc");
    // Zero-size record → stop
    stream.extend_from_slice(&0u32.to_le_bytes());
    stream.extend_from_slice(&0u32.to_le_bytes());
    stream.push(0);

    let records = extract_records(&stream).unwrap();
    assert_eq!(records.len(), 1);
}

#[test]
fn parse_metadata_with_all_footnotes() {
    // Build: u32 next_topic + footnote markers
    let mut data = Vec::new();
    data.extend_from_slice(&100u32.to_le_bytes()); // next_topic
    data.push(0x23); // '#' context
    data.extend_from_slice(b"printf\0");
    data.push(0x24); // '$' title
    data.extend_from_slice(b"printf Function\0");
    data.push(0x4B); // 'K' keyword
    data.extend_from_slice(b"printf\0");
    data.push(0x4B); // 'K' keyword
    data.extend_from_slice(b"formatted output\0");
    data.push(0x2B); // '+' browse
    data.extend_from_slice(b"lib_p\0");

    let meta = parse_topic_metadata(&data);
    assert_eq!(meta.context_id.as_deref(), Some("printf"));
    assert_eq!(meta.title.as_deref(), Some("printf Function"));
    assert_eq!(meta.keywords.len(), 2);
    assert_eq!(meta.keywords[0], "printf");
    assert_eq!(meta.keywords[1], "formatted output");
    assert_eq!(meta.browse_seq.as_deref(), Some("lib_p"));
}

#[test]
fn parse_metadata_empty_record() {
    let meta = parse_topic_metadata(&[]);
    assert!(meta.context_id.is_none());
    assert!(meta.title.is_none());
    assert!(meta.keywords.is_empty());
    assert!(meta.browse_seq.is_none());
}

#[test]
fn parse_metadata_only_context() {
    let mut data = Vec::new();
    data.extend_from_slice(&0u32.to_le_bytes());
    data.push(0x23);
    data.extend_from_slice(b"my_topic\0");

    let meta = parse_topic_metadata(&data);
    assert_eq!(meta.context_id.as_deref(), Some("my_topic"));
    assert!(meta.title.is_none());
}
