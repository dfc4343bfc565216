//! Keyword indexes.

use winhelp::{build_keyword_index, Block, Error, Inline, KeywordIndex, Topic};

/// Build a minimal |KWBTREE single-leaf B-tree.
///
/// Each entry is (keyword_string, kwdata_offset_u32).
fn build_kwbtree(entries: &[(&str, u32)], page_size: usize) -> Vec<u8> {
    // Leaf page: u16 prev + u16 num_entries + entries
    let mut page = Vec::new();
    page.extend_from_slice(&0u16.to_le_bytes()); // prev
    page.extend_from_slice(&(entries.len() as u16).to_le_bytes());
    for (kw, offset) in entries {
        page.extend_from_slice(kw.as_bytes());
        page.push(0); // null terminator
        page.extend_from_slice(&offset.to_le_bytes());
    }
    page.resize(page_size, 0); // pad to page_size

    // B-tree header (38 bytes)
    let mut buf = Vec::new();
    buf.extend_from_slice(&0x293Bu16.to_le_bytes()); // +0x00: magic
    buf.extend_from_slice(&0u16.to_le_bytes()); // +0x02: flags
    buf.extend_from_slice(&(page_size as u16).to_le_bytes()); // +0x04: page_size
    buf.extend_from_slice(&[0u8; 16]); // +0x06: structure (char[16])
    buf.extend_from_slice(&0u16.to_le_bytes()); // +0x16: must_be_zero
    buf.extend_from_slice(&0u16.to_le_bytes()); // +0x18: page_splits
    buf.extend_from_slice(&0u16.to_le_bytes()); // +0x1A: root_page
    buf.extend_from_slice(&0xFFFFu16.to_le_bytes()); // +0x1C: must_be_neg_one
    buf.extend_from_slice(&1u16.to_le_bytes()); // +0x1E: total_pages
    buf.extend_from_slice(&1u16.to_le_bytes()); // +0x20: num_levels
    buf.extend_from_slice(&(entries.len() as u32).to_le_bytes()); // +0x22: total_entries
    buf.extend_from_slice(&page);
    buf
}

/// Build |KWDATA from a list of (offset, topic_offsets) pairs.
fn build_kwdata(entries: &[(usize, &[u32])]) -> Vec<u8> {
    // Calculate required size.
    let max_end = entries
        .iter()
        .map(|(off, tops)| off + 2 + tops.len() * 4)
        .max()
        .unwrap_or(0);
    let mut data = vec![0u8; max_end];

    for &(offset, ref tops) in entries {
        let count = tops.len() as u16;
        data[offset] = count as u8;
        data[offset + 1] = (count >> 8) as u8;
        for (i, &t) in tops.iter().enumerate() {
            let p = offset + 2 + i * 4;
            let bytes = t.to_le_bytes();
            data[p..p + 4].copy_from_slice(&bytes);
        }
    }

    data
}

#[test]
fn parse_single_keyword() {
    let kwbtree = build_kwbtree(&[("printf", 0)], 64);
    let kwdata = build_kwdata(&[(0, &[0x1000])]);

    let idx = KeywordIndex::from_bytes(&kwbtree, &kwdata).unwrap();
    assert_eq!(idx.len(), 1);
    assert_eq!(idx.entries()[0].keyword, "printf");
    assert_eq!(idx.entries()[0].topic_offsets, vec![0x1000]);
}

#[test]
fn parse_multiple_keywords() {
    let kwbtree = build_kwbtree(&[("fopen", 0), ("malloc", 6), ("printf", 12)], 128);
    let kwdata = build_kwdata(&[(0, &[0x1000]), (6, &[0x2000]), (12, &[0x3000, 0x3100])]);

    let idx = KeywordIndex::from_bytes(&kwbtree, &kwdata).unwrap();
    assert_eq!(idx.len(), 3);
    assert_eq!(idx.entries()[0].keyword, "fopen");
    assert_eq!(idx.entries()[1].keyword, "malloc");
    assert_eq!(idx.entries()[2].keyword, "printf");
    assert_eq!(idx.entries()[2].topic_offsets, vec![0x3000, 0x3100]);
}

#[test]
fn parse_empty_kwbtree() {
    let kwbtree = build_kwbtree(&[], 32);
    let kwdata: Vec<u8> = Vec::new();

    let idx = KeywordIndex::from_bytes(&kwbtree, &kwdata).unwrap();
    assert!(idx.is_empty());
}

#[test]
fn bad_magic_rejected() {
    let mut kwbtree = build_kwbtree(&[], 32);
    kwbtree[0] = 0xFF;
    let kwdata: Vec<u8> = Vec::new();

    let err = KeywordIndex::from_bytes(&kwbtree, &kwdata).unwrap_err();
    assert!(matches!(err, Error::BadInternalFile { .. }));
}

#[test]
fn kwdata_past_eof_rejected() {
    let kwbtree = build_kwbtree(&[("test", 100)], 64);
    let kwdata = vec![0u8; 10]; // too small for offset 100

    let err = KeywordIndex::from_bytes(&kwbtree, &kwdata).unwrap_err();
    assert!(matches!(err, Error::Parse { .. }));
}

#[test]
fn build_index_from_topics() {
    let topics = vec![
        Topic {
            id: "printf".into(),
            aliases: vec![],
            title: "printf".into(),
            keywords: vec!["printf".into(), "formatted output".into()],
            browse_seq: None,
            body: vec![],
        },
        Topic {
            id: "fprintf".into(),
            aliases: vec![],
            title: "fprintf".into(),
            keywords: vec!["fprintf".into(), "formatted output".into()],
            browse_seq: None,
            body: vec![],
        },
    ];

    let index = build_keyword_index(&topics);

    // Alphabetical order: "formatted output", "fprintf", "printf"
    assert_eq!(index.len(), 3);
    assert_eq!(index[0].keyword, "formatted output");
    assert_eq!(index[0].topic_ids, vec!["printf", "fprintf"]);
    assert_eq!(index[1].keyword, "fprintf");
    assert_eq!(index[1].topic_ids, vec!["fprintf"]);
    assert_eq!(index[2].keyword, "printf");
    assert_eq!(index[2].topic_ids, vec!["printf"]);
}

#[test]
fn build_index_no_keywords() {
    let topics = vec![Topic {
        id: "intro".into(),
        aliases: vec![],
        title: "Introduction".into(),
        keywords: vec![],
        browse_seq: None,
        body: vec![Block::Paragraph(vec![Inline::Text("Hello".into())])],
    }];

    let index = build_keyword_index(&topics);
    assert!(index.is_empty());
}

#[test]
fn keyword_index_empty() {
    let idx = KeywordIndex::empty();
    assert!(idx.is_empty());
    assert_eq!(idx.len(), 0);
    assert!(idx.entries().is_empty());
}
