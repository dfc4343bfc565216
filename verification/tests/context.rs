//! Context hashes and the context map.

use std::collections::HashMap;

use winhelp::{context_hash, ContextMap, Error};

/// Build a minimal |CONTEXT B-tree with a single leaf page.
fn build_context_btree(entries: &[(u32, u32)]) -> Vec<u8> {
    // Leaf page: u16 prev + u16 num_entries + entries (8 bytes each)
    let mut page = Vec::new();
    page.extend_from_slice(&0u16.to_le_bytes()); // prev
    page.extend_from_slice(&(entries.len() as u16).to_le_bytes());
    for (hash, offset) in entries {
        page.extend_from_slice(&hash.to_le_bytes());
        page.extend_from_slice(&offset.to_le_bytes());
    }
    let page_size = page.len().max(32);
    page.resize(page_size, 0);

    // B-tree header
    let mut buf = Vec::new();
    buf.extend_from_slice(&0x293Bu16.to_le_bytes()); // magic
    buf.extend_from_slice(&0u16.to_le_bytes()); // flags
    buf.extend_from_slice(&(page_size as u16).to_le_bytes());
    buf.extend_from_slice(&0u16.to_le_bytes()); // structure
    buf.extend_from_slice(&0u16.to_le_bytes()); // must_be_zero
    buf.extend_from_slice(&1u16.to_le_bytes()); // num_pages
    buf.extend_from_slice(&0u16.to_le_bytes()); // root_page
    buf.extend_from_slice(&0u16.to_le_bytes()); // unused
    buf.extend_from_slice(&1u16.to_le_bytes()); // num_levels
    buf.extend_from_slice(&(entries.len() as u32).to_le_bytes());
    buf.extend_from_slice(&page);
    buf
}

#[test]
fn context_hash_basic() {
    // Verify the hash is deterministic and case-insensitive.
    let h1 = context_hash("printf");
    let h2 = context_hash("Printf");
    let h3 = context_hash("PRINTF");
    assert_eq!(h1, h2);
    assert_eq!(h2, h3);
}

#[test]
fn context_hash_different_strings() {
    assert_ne!(context_hash("printf"), context_hash("malloc"));
}

#[test]
fn context_map_empty() {
    let data = build_context_btree(&[]);
    let map = ContextMap::from_bytes(&data).unwrap();
    assert!(map.is_empty());
    assert_eq!(map.len(), 0);
}

#[test]
fn context_map_single_entry() {
    let hash = context_hash("printf");
    let data = build_context_btree(&[(hash, 0x1000)]);
    let map = ContextMap::from_bytes(&data).unwrap();
    assert_eq!(map.len(), 1);
    assert_eq!(map.resolve_hash(hash), Some(0x1000));
}

#[test]
fn context_map_multiple_entries() {
    let entries = vec![
        (context_hash("printf"), 0x1000),
        (context_hash("malloc"), 0x2000),
        (context_hash("fopen"), 0x3000),
    ];
    let data = build_context_btree(&entries);
    let map = ContextMap::from_bytes(&data).unwrap();
    assert_eq!(map.len(), 3);
    assert_eq!(map.resolve_hash(context_hash("printf")), Some(0x1000));
    assert_eq!(map.resolve_hash(context_hash("malloc")), Some(0x2000));
    assert_eq!(map.resolve_hash(context_hash("fopen")), Some(0x3000));
}

#[test]
fn context_map_missing_hash() {
    let data = build_context_btree(&[(context_hash("printf"), 0x1000)]);
    let map = ContextMap::from_bytes(&data).unwrap();
    assert_eq!(map.resolve_hash(context_hash("nonexistent")), None);
}

#[test]
fn context_map_bad_magic() {
    let mut data = build_context_btree(&[]);
    data[0] = 0xFF;
    let err = ContextMap::from_bytes(&data).unwrap_err();
    assert!(matches!(err, Error::BadInternalFile { .. }));
}

#[test]
fn context_hash_empty_string() {
    assert_eq!(context_hash(""), 0);
}

#[test]
fn context_map_roundtrip_entries() {
    let entries = vec![
        (0xAAAA_BBBB, 100),
        (0xCCCC_DDDD, 200),
    ];
    let data = build_context_btree(&entries);
    let map = ContextMap::from_bytes(&data).unwrap();
    let collected: HashMap<u32, u32> = map.entries().into_iter().collect();
    assert_eq!(collected[&0xAAAA_BBBB], 100);
    assert_eq!(collected[&0xCCCC_DDDD], 200);
}
