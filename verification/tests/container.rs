//! Reading of the container and its directory.

use winhelp::container::{
    parse_header, read_cstring, read_u16, read_u32, BTREE_HEADER_SIZE, HLP_MAGIC,
};
use winhelp::{Error, HlpContainer};

/// Build a minimal valid HLP file with a single-leaf-page B-tree directory.
fn build_test_hlp(entries: &[(&str, u32)]) -> Vec<u8> {
    // We'll lay out:
    //   [0..8)    HLP header: magic + directory_start
    //   [8..17)   Internal file header for directory (9 bytes)
    //   [17..55)  B-tree header (38 bytes)
    //   [55..)    Single leaf page

    let dir_offset: u32 = 8;

    // Build the leaf page.
    let mut page = Vec::new();
    // BTREENODEHEADER: Unknown(2) + NEntries(2) + PreviousPage(2) + NextPage(2) = 8 bytes
    page.extend_from_slice(&0u16.to_le_bytes()); // unknown
    page.extend_from_slice(&(entries.len() as u16).to_le_bytes()); // num_entries
    page.extend_from_slice(&0u16.to_le_bytes()); // previous_page
    page.extend_from_slice(&0u16.to_le_bytes()); // next_page
    for (name, offset) in entries {
        // null-terminated name
        page.extend_from_slice(name.as_bytes());
        page.push(0);
        // u32 offset
        page.extend_from_slice(&offset.to_le_bytes());
    }

    // Page size must be at least as large as the page content.
    let page_size = page.len().max(64);
    // Pad page to page_size.
    page.resize(page_size, 0);

    let total_btree_data = BTREE_HEADER_SIZE + page.len();

    let mut buf = Vec::new();

    // HLP header.
    buf.extend_from_slice(&HLP_MAGIC.to_le_bytes());
    buf.extend_from_slice(&dir_offset.to_le_bytes());

    // Internal file header for the directory.
    let reserved_space = total_btree_data as u32;
    let used_space = total_btree_data as u32;
    buf.extend_from_slice(&reserved_space.to_le_bytes());
    buf.extend_from_slice(&used_space.to_le_bytes());
    buf.push(0); // flags

    // B-tree header (38 bytes).
    buf.extend_from_slice(&0x293Bu16.to_le_bytes()); // +0x00: magic
    buf.extend_from_slice(&0x0002u16.to_le_bytes()); // +0x02: flags (directory)
    buf.extend_from_slice(&(page_size as u16).to_le_bytes()); // +0x04: page_size
    buf.extend_from_slice(&[0u8; 16]); // +0x06: structure (16-byte char array)
    buf.extend_from_slice(&0u16.to_le_bytes()); // +0x16: must_be_zero
    buf.extend_from_slice(&0u16.to_le_bytes()); // +0x18: page_splits
    buf.extend_from_slice(&0u16.to_le_bytes()); // +0x1A: root_page (page 0)
    buf.extend_from_slice(&0xFFFFu16.to_le_bytes()); // +0x1C: must_be_neg_one
    buf.extend_from_slice(&1u16.to_le_bytes()); // +0x1E: total_pages
    buf.extend_from_slice(&1u16.to_le_bytes()); // +0x20: num_levels (1 = leaf only)
    buf.extend_from_slice(&(entries.len() as u32).to_le_bytes()); // +0x22: total_entries

    // Leaf page.
    buf.extend_from_slice(&page);

    buf
}

/// Build a fake internal file at a given buffer position with known content.
fn build_internal_file(content: &[u8]) -> Vec<u8> {
    let mut buf = Vec::new();
    let reserved = (content.len()) as u32;
    let used = (content.len()) as u32;
    buf.extend_from_slice(&reserved.to_le_bytes());
    buf.extend_from_slice(&used.to_le_bytes());
    buf.push(0); // flags
    buf.extend_from_slice(content);
    buf
}

#[test]
fn parse_header_valid() {
    let data = build_test_hlp(&[]);
    let header = parse_header(&data).unwrap();
    assert_eq!(header.directory_start, 8);
}

#[test]
fn parse_header_bad_magic() {
    let mut data = build_test_hlp(&[]);
    // Corrupt magic.
    data[0] = 0xFF;
    let err = parse_header(&data).unwrap_err();
    assert!(matches!(err, Error::BadMagic(_)));
}

#[test]
fn parse_header_too_small() {
    let data = vec![0; 4];
    let err = parse_header(&data).unwrap_err();
    assert!(matches!(err, Error::Parse { .. }));
}

#[test]
fn empty_directory() {
    let data = build_test_hlp(&[]);
    let container = HlpContainer::from_bytes(data).unwrap();
    assert!(container.list_files().is_empty());
}

#[test]
fn single_entry_directory() {
    let data = build_test_hlp(&[("|SYSTEM", 100)]);
    let container = HlpContainer::from_bytes(data).unwrap();
    let files = container.list_files();
    assert_eq!(files.len(), 1);
    assert_eq!(files[0].name, "|SYSTEM");
    assert_eq!(files[0].offset, 100);
}

#[test]
fn multiple_entries_directory() {
    let data = build_test_hlp(&[
        ("|CONTEXT", 200),
        ("|Phrases", 300),
        ("|SYSTEM", 100),
        ("|TOPIC", 400),
    ]);
    let container = HlpContainer::from_bytes(data).unwrap();
    let files = container.list_files();
    assert_eq!(files.len(), 4);

    let names: Vec<&str> = files.iter().map(|f| f.name.as_str()).collect();
    assert!(names.contains(&"|SYSTEM"));
    assert!(names.contains(&"|TOPIC"));
    assert!(names.contains(&"|CONTEXT"));
    assert!(names.contains(&"|Phrases"));
}

#[test]
fn read_file_not_found() {
    let data = build_test_hlp(&[("|SYSTEM", 100)]);
    let container = HlpContainer::from_bytes(data).unwrap();
    let err = container.read_file("|NONEXISTENT").unwrap_err();
    assert!(matches!(err, Error::FileNotFound(_)));
}

#[test]
fn read_internal_file_content() {
    // Build an HLP with a directory entry pointing to an internal file
    // that contains known content.
    let content = b"hello, winhelp!";
    let internal = build_internal_file(content);

    // Build HLP, figure out where the internal file will land, then
    // rebuild the directory pointing to the correct offset.
    let placeholder = build_test_hlp(&[("|TEST", 0)]);
    let actual_offset = placeholder.len() as u32;

    let mut full = build_test_hlp(&[("|TEST", actual_offset)]);
    if full.len() < actual_offset as usize {
        full.resize(actual_offset as usize, 0);
    }
    full.extend_from_slice(&internal);

    let container = HlpContainer::from_bytes(full).unwrap();
    let data = container.read_file("|TEST").unwrap();
    assert_eq!(data, content);
}

#[test]
fn read_cstring_basic() {
    let data = b"hello\x00world";
    let (s, consumed) = read_cstring(data, 0).unwrap();
    assert_eq!(s, "hello");
    assert_eq!(consumed, 6); // 5 chars + null
}

#[test]
fn read_u16_basic() {
    let data = [0x34, 0x12];
    assert_eq!(read_u16(&data, 0).unwrap(), 0x1234);
}

#[test]
fn read_u32_basic() {
    let data = [0x78, 0x56, 0x34, 0x12];
    assert_eq!(read_u32(&data, 0).unwrap(), 0x12345678);
}
