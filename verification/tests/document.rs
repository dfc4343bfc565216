//! Whole help files, from bytes to documents.

use winhelp::{
    context_hash, Block, Error, FormatVersion, HelpFile, HlpContainer, ImagePlacement, Inline,
    LinkKind, ParseOptions,
};

/// The bytes of a B-tree header with one leaf page.
fn btree_header(page_size: u16) -> Vec<u8> {
    let mut b = Vec::new();
    b.extend_from_slice(&0x293Bu16.to_le_bytes());
    b.extend_from_slice(&0u16.to_le_bytes());
    b.extend_from_slice(&page_size.to_le_bytes());
    b.extend_from_slice(&[0u8; 16]);
    b.extend_from_slice(&0u16.to_le_bytes());
    b.extend_from_slice(&0u16.to_le_bytes());
    b.extend_from_slice(&0u16.to_le_bytes());
    b.extend_from_slice(&0xFFFFu16.to_le_bytes());
    b.extend_from_slice(&1u16.to_le_bytes());
    b.extend_from_slice(&1u16.to_le_bytes());
    b.extend_from_slice(&0u32.to_le_bytes());
    b
}

/// The bytes of an HLP file with the given internal files.
fn archive(files: &[(&str, Vec<u8>)]) -> Vec<u8> {
    let mut entries_len = 8;
    for (name, _) in files {
        entries_len += name.len() + 5;
    }
    let mut offset = 8 + 9 + 38 + entries_len;
    let mut page = Vec::new();
    page.extend_from_slice(&0u16.to_le_bytes());
    page.extend_from_slice(&(files.len() as u16).to_le_bytes());
    page.extend_from_slice(&[0u8; 4]);
    let mut stored = Vec::new();
    for (name, content) in files {
        page.extend_from_slice(name.as_bytes());
        page.push(0);
        page.extend_from_slice(&(offset as u32).to_le_bytes());
        stored.extend_from_slice(&(content.len() as u32).to_le_bytes());
        stored.extend_from_slice(&(content.len() as u32).to_le_bytes());
        stored.push(0);
        stored.extend_from_slice(content);
        offset += 9 + content.len();
    }
    let mut data = Vec::new();
    data.extend_from_slice(&0x00035F3Fu32.to_le_bytes());
    data.extend_from_slice(&8u32.to_le_bytes());
    data.extend_from_slice(&[0u8; 9]);
    data.extend_from_slice(&btree_header(page.len() as u16));
    data.extend_from_slice(&page);
    data.extend_from_slice(&stored);
    data
}

fn system(minor_version: u16, flags: u16, records: &[(u16, &[u8])]) -> Vec<u8> {
    let mut b = Vec::new();
    b.extend_from_slice(&0x036Cu16.to_le_bytes());
    b.extend_from_slice(&minor_version.to_le_bytes());
    b.extend_from_slice(&1u16.to_le_bytes());
    b.extend_from_slice(&0u32.to_le_bytes());
    b.extend_from_slice(&flags.to_le_bytes());
    for (kind, data) in records {
        b.extend_from_slice(&kind.to_le_bytes());
        b.extend_from_slice(&(data.len() as u16).to_le_bytes());
        b.extend_from_slice(data);
    }
    b
}

fn record(kind: u8, commands: &[u8], text: &[u8]) -> Vec<u8> {
    let mut b = Vec::new();
    b.extend_from_slice(&((9 + commands.len() + text.len()) as u32).to_le_bytes());
    b.extend_from_slice(&(text.len() as u32).to_le_bytes());
    b.push(kind);
    b.extend_from_slice(commands);
    b.extend_from_slice(text);
    b
}

fn header(notes: &[(u8, &str)]) -> Vec<u8> {
    let mut data = vec![0u8; 4];
    for (marker, note) in notes {
        data.push(*marker);
        data.extend_from_slice(note.as_bytes());
        data.push(0);
    }
    record(0x02, &data, b"")
}

fn text_record(commands: &[u8], text: &[u8]) -> Vec<u8> {
    let mut all = vec![0u8; 9];
    all.extend_from_slice(commands);
    record(0x20, &all, text)
}

/// The bytes of a topic file of one block that is not compressed.
fn topic_file(records: &[Vec<u8>]) -> Vec<u8> {
    let mut b = vec![0u8; 12];
    for r in records {
        b.extend_from_slice(r);
    }
    b
}

fn parse(files: &[(&str, Vec<u8>)]) -> Result<HelpFile, Error> {
    HelpFile::from_container(&HlpContainer::from_bytes(archive(files))?)
}

#[test]
fn archive_is_read_back() {
    let data = archive(&[
        ("|A", b"first".to_vec()),
        ("|B", b"".to_vec()),
        ("|A", b"second".to_vec()),
    ]);
    let c = HlpContainer::from_bytes(data).unwrap();
    assert_eq!(c.list_files().len(), 3);
    // The last entry with a name counts.
    assert_eq!(c.read_file("|A").unwrap(), b"second");
    assert_eq!(c.read_file("|B").unwrap(), b"");
    let raw = c.read_file_raw("|A").unwrap();
    assert_eq!(raw.len(), 9 + 6);
    assert_eq!(&raw[9..], b"second");
    assert_eq!(&raw[4..8], &6u32.to_le_bytes());
}

#[test]
fn document_holds_topics_links_keywords_and_images() {
    let hash = context_hash("second");
    let mut link = vec![0x80, 0, 0, 0xE3];
    link.extend_from_slice(&hash.to_le_bytes());
    link.extend_from_slice(&[0x89, 0x82]);
    let image = [0x80, 0, 0, 0x86, 0x22, 0x08, 0x80, 0x02, 0, 0, 7, 0, 0x82];
    let missing = [0x80, 0, 0, 0x88, 0x22, 0x08, 0x80, 0x02, 0, 0, 9, 0, 0x82];
    let topic = topic_file(&[
        text_record(&[0x80, 0, 0, 0x82], b"lost\0"),
        header(&[(0x23, "first"), (0x24, "First"), (0x4B, "b"), (0x4B, "a")]),
        text_record(&link, b"See \0\0there\0.\0"),
        text_record(&image, b"\0\0\0"),
        text_record(&image, b"\0\0\0"),
        header(&[(0x23, "second"), (0x4B, "b"), (0x2B, "br")]),
        text_record(&missing, b"x\0\0\0"),
    ]);
    let bitmap = {
        let mut b = 40u32.to_le_bytes().to_vec();
        b.extend_from_slice(&[0u8; 36]);
        b
    };
    let h = parse(&[
        ("|SYSTEM", system(21, 0, &[(1, b"T\0"), (2, b"C\0")])),
        ("|TOPIC", topic),
        ("|bm7", bitmap.clone()),
    ])
    .unwrap();
    assert_eq!(h.title, "T");
    assert_eq!(h.copyright.as_deref(), Some("C"));
    assert_eq!(h.root_topic, "first");
    assert_eq!(h.topics.len(), 2);
    assert_eq!(h.topics[0].id, "first");
    assert_eq!(h.topics[0].title, "First");
    assert!(h.topics[0].aliases.is_empty());
    assert_eq!(h.topics[0].keywords, ["b", "a"]);
    assert_eq!(h.topics[1].title, "(untitled)");
    assert_eq!(h.topics[1].browse_seq.as_deref(), Some("br"));

    assert_eq!(h.topics[0].body.len(), 3);
    let Block::Paragraph(inlines) = &h.topics[0].body[0] else {
        panic!("expected a paragraph");
    };
    assert!(matches!(&inlines[0], Inline::Text(t) if t == "See "));
    let Inline::Link { text, target, kind } = &inlines[1] else {
        panic!("expected a link");
    };
    assert!(matches!(&text[0], Inline::Text(t) if t == "there"));
    assert_eq!(target, "second");
    assert_eq!(*kind, LinkKind::Jump);
    assert!(matches!(&inlines[2], Inline::Text(t) if t == "."));
    assert!(matches!(
        &h.topics[0].body[1],
        Block::Image(i) if i.filename == "|bm7" && i.placement == ImagePlacement::Inline
    ));

    let keywords: Vec<&str> = h.keyword_index.iter().map(|k| k.keyword.as_str()).collect();
    assert_eq!(keywords, ["a", "b"]);
    assert_eq!(h.keyword_index[1].topic_ids, ["first", "second"]);

    // One image, though two blocks refer to it; |bm9 is not there.
    assert_eq!(h.images.len(), 1);
    assert_eq!(h.images[0].0, "|bm7");
    assert_eq!(&h.images[0].1[..2], b"BM");
    assert_eq!(&h.images[0].1[14..], &bitmap[..]);
}

#[test]
fn images_that_cannot_be_read_are_left_out() {
    let image = |n: u8| [0x80, 0, 0, 0x86, 0x22, 0x08, 0x80, 0x02, 0, 0, n, 0, 0x82];
    let mut data = archive(&[
        ("|SYSTEM", system(21, 0, &[])),
        (
            "|TOPIC",
            topic_file(&[
                header(&[(0x23, "id")]),
                text_record(&image(1), b"\0\0\0"),
                text_record(&image(2), b"\0\0\0"),
            ]),
        ),
        ("|bm2", b"BMxx".to_vec()),
        ("|bm1", b"BMyy".to_vec()),
    ]);
    // The last internal file is cut off.
    data.pop();
    let c = HlpContainer::from_bytes(data).unwrap();
    assert!(matches!(c.read_file("|bm1"), Err(Error::BadInternalFile { .. })));
    let h = HelpFile::from_container(&c).unwrap();
    assert_eq!(h.topics[0].body.len(), 2);
    assert_eq!(h.images, [("|bm2".to_string(), b"BMxx".to_vec())]);
}

#[test]
fn topics_stand_in_the_order_of_the_stream() {
    let h = parse(&[
        ("|SYSTEM", system(21, 0, &[])),
        (
            "|TOPIC",
            topic_file(&[
                header(&[(0x23, "z")]),
                header(&[(0x23, "m"), (0x2B, "b:2")]),
                header(&[(0x23, "a"), (0x2B, "b:1")]),
            ]),
        ),
    ])
    .unwrap();
    let ids: Vec<&str> = h.topics.iter().map(|t| t.id.as_str()).collect();
    assert_eq!(ids, ["z", "m", "a"]);
}

#[test]
fn starting_topic_is_the_root() {
    let h = parse(&[
        ("|SYSTEM", system(21, 0, &[(4, b"start\0")])),
        ("|TOPIC", topic_file(&[header(&[(0x23, "other")])])),
    ])
    .unwrap();
    assert_eq!(h.root_topic, "start");
    assert_eq!(h.title, "(untitled)");
    let h = parse(&[("|SYSTEM", system(21, 0, &[])), ("|TOPIC", vec![])]).unwrap();
    assert_eq!(h.root_topic, "");
    assert!(h.topics.is_empty());
}

#[test]
fn missing_files_are_reported() {
    let err = parse(&[("|TOPIC", vec![])]).unwrap_err();
    assert_eq!(err.message(), "internal file not found: '|SYSTEM'");
    let err = parse(&[("|SYSTEM", system(21, 0, &[]))]).unwrap_err();
    assert_eq!(err.message(), "internal file not found: '|TOPIC'");
}

#[test]
fn malformed_optional_files_are_reported() {
    let with = |name: &'static str, data: Vec<u8>| {
        parse(&[
            ("|SYSTEM", system(21, 0, &[])),
            ("|TOPIC", vec![]),
            (name, data),
        ])
        .unwrap_err()
        .message()
    };
    assert_eq!(
        with("|FONT", vec![1, 2]),
        "invalid internal file header in '|FONT': too small for FONTHEADER",
    );
    assert_eq!(
        with("|CONTEXT", vec![0; 22]),
        "invalid internal file header in '|CONTEXT': bad B-tree magic: 0x0000",
    );
    assert_eq!(
        with("|TTLBTREE", vec![1]),
        "invalid internal file header in '|TTLBTREE': too small for B-tree header",
    );
    assert_eq!(
        with("|Phrases", vec![1]),
        "invalid internal file header in '|Phrases': too small for phrase count",
    );
}

#[test]
fn compressed_topics_are_decompressed() {
    // WinHelp 3.1 with LZ77: every byte of the block is a literal.
    let plain = topic_file(&[header(&[(0x23, "id")])]);
    let mut packed = plain[..12].to_vec();
    for group in plain[12..].chunks(8) {
        packed.push(0);
        packed.extend_from_slice(group);
    }
    let h = parse(&[("|SYSTEM", system(21, 4, &[])), ("|TOPIC", packed.clone())]).unwrap();
    assert_eq!(h.topics[0].id, "id");
    // Told to read it as WinHelp 3.0, the reader decompresses nothing.
    let data = archive(&[("|SYSTEM", system(21, 4, &[])), ("|TOPIC", packed)]);
    let options = ParseOptions {
        format_version_override: Some(FormatVersion::V30.minor_version()),
    };
    let c = HlpContainer::from_bytes(data).unwrap();
    let h = HelpFile::from_container_with_options(&c, &options).unwrap();
    assert!(h.topics.is_empty() || h.topics[0].id != "id");
}

#[test]
fn phrases_are_expanded() {
    // The one phrase is a record from its type byte on; the block holds the
    // two sizes of the record and a token for the phrase.
    let phrase = b"\x02\0\0\0\0#printf\0";
    let mut phrases = 1u16.to_le_bytes().to_vec();
    phrases.extend_from_slice(&0u16.to_le_bytes());
    phrases.extend_from_slice(&(phrase.len() as u16).to_le_bytes());
    phrases.extend_from_slice(phrase);
    let mut topic = vec![0u8; 12];
    topic.extend_from_slice(&(8 + phrase.len() as u32).to_le_bytes());
    topic.extend_from_slice(&0u32.to_le_bytes());
    topic.extend_from_slice(&[0x01, 0x00]);
    let h = parse(&[
        ("|SYSTEM", system(15, 0, &[])),
        ("|Phrases", phrases),
        ("|TOPIC", topic),
    ])
    .unwrap();
    assert_eq!(h.topics.len(), 1);
    assert_eq!(h.topics[0].id, "printf");
}

#[test]
fn hall_phrases_stand_in_for_missing_phrases() {
    // One phrase of two bytes; `bits` is zero, so its length is a set bit, a
    // clear bit, and one more clear bit.
    let mut index = Vec::new();
    for n in [1u32, 1, 0, 2, 2, 0] {
        index.extend_from_slice(&n.to_le_bytes());
    }
    index.extend_from_slice(&[0, 0, 0, 0x4A]);
    index.extend_from_slice(&1u32.to_le_bytes());
    let image = b"id".to_vec();
    // A literal run for the front of the record, the phrase, and a NUL.
    let front = b"\x12\0\0\0\0\0\0\0\x02\0\0\0\0#";
    let mut topic = vec![0u8; 12];
    topic.push(((front.len() as u8 - 1) << 3) | 3);
    topic.extend_from_slice(front);
    topic.extend_from_slice(&[0x00, 0x0F]);
    let h = parse(&[
        ("|SYSTEM", system(27, 0, &[])),
        ("|PhrIndex", index),
        ("|PhrImage", image),
        ("|TOPIC", topic),
    ])
    .unwrap();
    assert_eq!(h.topics.len(), 1);
    assert_eq!(h.topics[0].id, "id");
}

#[test]
fn options_and_versions() {
    assert_eq!(ParseOptions::default().format_version_override, None);
    assert_eq!(FormatVersion::V30.minor_version(), 15);
    assert_eq!(FormatVersion::V31.minor_version(), 21);
    assert_eq!(FormatVersion::V40.minor_version(), 27);
    assert_eq!(FormatVersion::V30.label(), "3.0");
    assert_eq!(FormatVersion::V31.label(), "3.1");
    assert_eq!(FormatVersion::V40.label(), "4.0");
}
