//! The system file.

use winhelp::system::SYSTEM_MAGIC;
use winhelp::{Error, SystemInfo};

/// Build a minimal |SYSTEM file with given records.
/// For minor >= 10, includes the extended header (gen_date + flags_ex).
fn build_system(minor_version: u16, flags: u16, records: &[(u16, &[u8])]) -> Vec<u8> {
    let mut buf = Vec::new();
    buf.extend_from_slice(&SYSTEM_MAGIC.to_le_bytes());
    buf.extend_from_slice(&minor_version.to_le_bytes());
    buf.extend_from_slice(&flags.to_le_bytes());
    if minor_version >= 10 {
        // Extended header: u32 gen_date + u16 flags_ex
        buf.extend_from_slice(&0u32.to_le_bytes()); // gen_date
        buf.extend_from_slice(&flags.to_le_bytes()); // flags_ex = same as flags for tests
    }
    for (rtype, rdata) in records {
        buf.extend_from_slice(&rtype.to_le_bytes());
        buf.extend_from_slice(&(rdata.len() as u16).to_le_bytes());
        buf.extend_from_slice(rdata);
    }
    buf
}

#[test]
fn parse_minimal_system_old() {
    // minor < 10: standard 6-byte header, no extended flags.
    let data = build_system(9, 0, &[]);
    let info = SystemInfo::from_bytes(&data).unwrap();
    assert_eq!(info.minor_version, 9);
    assert_eq!(info.flags, 0);
    assert!(info.flags_ex.is_none());
    assert!(info.title.is_none());
    assert!(info.copyright.is_none());
}

#[test]
fn parse_minimal_system_extended() {
    // minor >= 10: extended 12-byte header with flags_ex.
    let data = build_system(21, 0x0001, &[]);
    let info = SystemInfo::from_bytes(&data).unwrap();
    assert_eq!(info.minor_version, 21);
    assert_eq!(info.flags, 0x0001);
    assert_eq!(info.flags_ex, Some(0x0001));
}

#[test]
fn parse_title_and_copyright() {
    // minor=15 is WinHelp 3.0: NEVER LZ77-compressed regardless of flags.
    let data = build_system(
        15,
        0x0004,
        &[(1, b"C Library Reference\0"), (2, b"Open Watcom\0")],
    );
    let info = SystemInfo::from_bytes(&data).unwrap();
    assert_eq!(info.title.as_deref(), Some("C Library Reference"));
    assert_eq!(info.copyright.as_deref(), Some("Open Watcom"));
    assert!(!info.uses_lz77()); // 3.0 files are never LZ77-compressed
}

#[test]
fn lz77_flags_31() {
    // minor=21, flags=4 → WinHelp 3.1 LZ77 compressed.
    let data = build_system(21, 0x0004, &[]);
    let info = SystemInfo::from_bytes(&data).unwrap();
    assert!(info.uses_lz77());
    assert_eq!(info.topic_block_size(), 4096);
    assert_eq!(info.decompress_size(), 16384);
}

#[test]
fn lz77_flags_31_2k() {
    // minor=21, flags=8 → WinHelp 3.1 LZ77 with 2k blocks.
    let data = build_system(21, 0x0008, &[]);
    let info = SystemInfo::from_bytes(&data).unwrap();
    assert!(info.uses_lz77());
    assert_eq!(info.topic_block_size(), 2048);
    assert_eq!(info.decompress_size(), 16384);
}

#[test]
fn uncompressed_31() {
    // minor=21, flags=0 → WinHelp 3.1 uncompressed.
    let data = build_system(21, 0x0000, &[]);
    let info = SystemInfo::from_bytes(&data).unwrap();
    assert!(!info.uses_lz77());
    assert_eq!(info.topic_block_size(), 4096);
    assert_eq!(info.decompress_size(), 16384);
}

#[test]
fn wh30_sizes() {
    // minor=15 (3.0): block size and decompress size both 2k.
    let data = build_system(15, 0x0000, &[]);
    let info = SystemInfo::from_bytes(&data).unwrap();
    assert!(!info.uses_lz77());
    assert_eq!(info.topic_block_size(), 2048);
    assert_eq!(info.decompress_size(), 2048);
}

#[test]
fn parse_root_topic_offset() {
    let offset_bytes = 0x1234u32.to_le_bytes();
    let data = build_system(15, 0, &[(3, &offset_bytes)]);
    let info = SystemInfo::from_bytes(&data).unwrap();
    assert_eq!(info.root_topic_offset, Some(0x1234));
}

#[test]
fn parse_starting_topic() {
    let data = build_system(21, 0, &[(4, b"contents\0")]);
    let info = SystemInfo::from_bytes(&data).unwrap();
    assert_eq!(info.starting_topic.as_deref(), Some("contents"));
    assert_eq!(info.minor_version, 21);
}

#[test]
fn bad_magic() {
    let mut data = build_system(15, 0, &[]);
    data[0] = 0xFF;
    let err = SystemInfo::from_bytes(&data).unwrap_err();
    assert!(matches!(err, Error::BadInternalFile { .. }));
}

#[test]
fn too_small() {
    let data = vec![0; 4];
    let err = SystemInfo::from_bytes(&data).unwrap_err();
    assert!(matches!(err, Error::BadInternalFile { .. }));
}

#[test]
fn unknown_records_skipped() {
    let data = build_system(
        15,
        0,
        &[
            (99, b"unknown data"),
            (1, b"My Help File\0"),
            (255, b"more unknown"),
        ],
    );
    let info = SystemInfo::from_bytes(&data).unwrap();
    assert_eq!(info.title.as_deref(), Some("My Help File"));
}

#[test]
fn multiple_records_all_types() {
    let offset_bytes = 42u32.to_le_bytes();
    let data = build_system(
        21,
        0x0004,
        &[
            (1, b"Test Title\0"),
            (2, b"(c) 2026\0"),
            (3, &offset_bytes),
            (4, b"main_page\0"),
        ],
    );
    let info = SystemInfo::from_bytes(&data).unwrap();
    assert_eq!(info.title.as_deref(), Some("Test Title"));
    assert_eq!(info.copyright.as_deref(), Some("(c) 2026"));
    assert_eq!(info.root_topic_offset, Some(42));
    assert_eq!(info.starting_topic.as_deref(), Some("main_page"));
    assert!(info.uses_lz77());
}
