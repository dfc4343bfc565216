//! Font tables and title indexes.

use winhelp::{Error, FontDescriptor, FontTable, TitleIndex};

// -- FontTable tests --

/// Build a synthetic OLDFONT |FONT blob with `faces` and `descs`
/// (attributes, half_points, family, face_idx) tuples.
fn build_oldfont(faces: &[&str], descs: &[(u8, u8, u8, u16)]) -> Vec<u8> {
    let facename_len = 20usize;
    let header_size = 8usize;
    let facenames_off = header_size;
    let descriptors_off = facenames_off + faces.len() * facename_len;
    let desc_size = 11usize; // OLDFONT

    let mut buf = Vec::new();
    buf.extend_from_slice(&(faces.len() as u16).to_le_bytes());
    buf.extend_from_slice(&(descs.len() as u16).to_le_bytes());
    buf.extend_from_slice(&(facenames_off as u16).to_le_bytes());
    buf.extend_from_slice(&(descriptors_off as u16).to_le_bytes());

    for name in faces {
        let mut cell = vec![0u8; facename_len];
        let bytes = name.as_bytes();
        cell[..bytes.len().min(facename_len - 1)]
            .copy_from_slice(&bytes[..bytes.len().min(facename_len - 1)]);
        buf.extend_from_slice(&cell);
    }

    for &(attr, half_pts, family, face_idx) in descs {
        let mut rec = vec![0u8; desc_size];
        rec[0] = attr;
        rec[1] = half_pts;
        rec[2] = family;
        rec[3..5].copy_from_slice(&face_idx.to_le_bytes());
        buf.extend_from_slice(&rec);
    }

    buf
}

#[test]
fn font_table_oldfont_parses_facenames_and_attributes() {
    let data = build_oldfont(
        &["Helv", "Courier"],
        &[
            (0x00, 20, 3, 0), // plain Helv
            (0x01, 20, 3, 0), // bold Helv
            (0x02, 20, 3, 0), // italic Helv
            (0x03, 20, 3, 0), // bold+italic Helv
            (0x00, 20, 1, 1), // plain Courier
        ],
    );
    let table = FontTable::from_bytes(&data).unwrap();
    assert_eq!(table.len(), 5);

    let f0 = table.get(0).unwrap();
    assert_eq!(f0.name, "Helv");
    assert!(!f0.is_bold() && !f0.is_italic() && !f0.is_underline());
    assert_eq!(f0.half_points, 20);

    assert!(table.get(1).unwrap().is_bold());
    assert!(table.get(2).unwrap().is_italic());
    let f3 = table.get(3).unwrap();
    assert!(f3.is_bold() && f3.is_italic());

    assert_eq!(table.get(4).unwrap().name, "Courier");
}

#[test]
fn font_table_rejects_short_header() {
    let err = FontTable::from_bytes(&[0, 0, 0, 0]).unwrap_err();
    assert!(matches!(err, Error::BadInternalFile { .. }));
}

#[test]
fn font_table_returns_empty_on_inconsistent_offsets() {
    // facenames_off > descriptors_off → nonsensical, return empty.
    let mut data = vec![0u8; 32];
    data[0..2].copy_from_slice(&1u16.to_le_bytes()); // 1 facename
    data[2..4].copy_from_slice(&1u16.to_le_bytes()); // 1 descriptor
    data[4..6].copy_from_slice(&20u16.to_le_bytes()); // facenames_off
    data[6..8].copy_from_slice(&8u16.to_le_bytes()); // descriptors_off (< facenames)
    let table = FontTable::from_bytes(&data).unwrap();
    assert!(table.is_empty());
}

#[test]
fn font_table_empty() {
    let table = FontTable::empty();
    assert!(table.is_empty());
    assert_eq!(table.len(), 0);
    assert!(table.get(0).is_none());
}

#[test]
fn font_descriptor_flags() {
    let f = FontDescriptor {
        attributes: 0x07, // bold + italic + underline
        half_points: 24,
        font_family: 0,
        name: "Test".into(),
    };
    assert!(f.is_bold());
    assert!(f.is_italic());
    assert!(f.is_underline());
}

// -- TitleIndex tests --

fn build_title_btree(entries: &[(u32, &str)]) -> Vec<u8> {
    // Leaf page
    let mut page = Vec::new();
    page.extend_from_slice(&0u16.to_le_bytes()); // prev
    page.extend_from_slice(&(entries.len() as u16).to_le_bytes());
    for (offset, title) in entries {
        page.extend_from_slice(&offset.to_le_bytes());
        page.extend_from_slice(title.as_bytes());
        page.push(0);
    }
    let page_size = page.len().max(32);
    page.resize(page_size, 0);

    // B-tree header (38 bytes)
    let mut buf = Vec::new();
    buf.extend_from_slice(&0x293Bu16.to_le_bytes()); // +0x00: magic
    buf.extend_from_slice(&0u16.to_le_bytes()); // +0x02: flags
    buf.extend_from_slice(&(page_size as u16).to_le_bytes()); // +0x04: page_size
    buf.extend_from_slice(&[0u8; 16]); // +0x06: structure (char[16])
    buf.extend_from_slice(&0u16.to_le_bytes()); // +0x16: must_be_zero
    buf.extend_from_slice(&0u16.to_le_bytes()); // +0x18: page_splits
    buf.extend_from_slice(&0u16.to_le_bytes()); // +0x1A: root_page
    buf.extend_from_slice(&0xFFFFu16.to_le_bytes()); // +0x1C: must_be_neg_one
    buf.extend_from_slice(&1u16.to_le_bytes()); // +0x1E: total_pages
    buf.extend_from_slice(&1u16.to_le_bytes()); // +0x20: num_levels
    buf.extend_from_slice(&(entries.len() as u32).to_le_bytes()); // +0x22: total_entries
    buf.extend_from_slice(&page);
    buf
}

#[test]
fn title_index_basic() {
    let data = build_title_btree(&[(0x1000, "printf"), (0x2000, "malloc")]);
    let index = TitleIndex::from_bytes(&data).unwrap();
    assert_eq!(index.len(), 2);
    assert_eq!(index.get_title(0x1000), Some("printf"));
    assert_eq!(index.get_title(0x2000), Some("malloc"));
}

#[test]
fn title_index_sorted_by_offset() {
    let data = build_title_btree(&[(0x3000, "c"), (0x1000, "a"), (0x2000, "b")]);
    let index = TitleIndex::from_bytes(&data).unwrap();
    let titles = index.titles_in_order();
    assert_eq!(titles[0].0, 0x1000);
    assert_eq!(titles[1].0, 0x2000);
    assert_eq!(titles[2].0, 0x3000);
}

#[test]
fn title_index_empty() {
    let index = TitleIndex::empty();
    assert!(index.is_empty());
}

#[test]
fn title_index_bad_magic() {
    let mut data = build_title_btree(&[]);
    data[0] = 0xFF;
    let err = TitleIndex::from_bytes(&data).unwrap_err();
    assert!(matches!(err, Error::BadInternalFile { .. }));
}

#[test]
fn title_index_missing_offset() {
    let data = build_title_btree(&[(0x1000, "printf")]);
    let index = TitleIndex::from_bytes(&data).unwrap();
    assert_eq!(index.get_title(0x9999), None);
}
