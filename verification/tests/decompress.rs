//! Phrase tables and LZ77.

use winhelp::{lz77_decompress, Error, PhraseTable};

// -- Phrase table tests --

#[test]
fn phrase_table_inline() {
    // Build a |Phrases file with 2 phrases: "hello" and "world"
    let mut data = Vec::new();
    // num_phrases = 2
    data.extend_from_slice(&2u16.to_le_bytes());
    // 3 offsets: [0, 5, 10]
    data.extend_from_slice(&0u16.to_le_bytes());
    data.extend_from_slice(&5u16.to_le_bytes());
    data.extend_from_slice(&10u16.to_le_bytes());
    // phrase data
    data.extend_from_slice(b"helloworld");

    let table = PhraseTable::from_bytes(&data, None, false).unwrap();
    assert_eq!(table.len(), 2);
    assert_eq!(&table.phrases[0], b"hello");
    assert_eq!(&table.phrases[1], b"world");
}

#[test]
fn phrase_table_with_index() {
    // |Phrases: num_phrases + phrase data (no inline offsets)
    let mut phrases_data = Vec::new();
    phrases_data.extend_from_slice(&2u16.to_le_bytes());
    phrases_data.extend_from_slice(b"foobar");

    // |PhrIndex: offsets [0, 3, 6]
    let mut index_data = Vec::new();
    index_data.extend_from_slice(&0u16.to_le_bytes());
    index_data.extend_from_slice(&3u16.to_le_bytes());
    index_data.extend_from_slice(&6u16.to_le_bytes());

    let table = PhraseTable::from_bytes(&phrases_data, Some(&index_data), false).unwrap();
    assert_eq!(table.len(), 2);
    assert_eq!(&table.phrases[0], b"foo");
    assert_eq!(&table.phrases[1], b"bar");
}

#[test]
fn phrase_expand_no_tokens() {
    let table = PhraseTable::empty();
    let input = b"plain text";
    let out = table.expand(input).unwrap();
    assert_eq!(out, input);
}

#[test]
fn phrase_expand_with_tokens() {
    // Build table with phrases: [0] = "hello", [1] = " world"
    let mut data = Vec::new();
    data.extend_from_slice(&2u16.to_le_bytes());
    data.extend_from_slice(&0u16.to_le_bytes());
    data.extend_from_slice(&5u16.to_le_bytes());
    data.extend_from_slice(&11u16.to_le_bytes());
    data.extend_from_slice(b"hello world");

    let table = PhraseTable::from_bytes(&data, None, false).unwrap();

    // Non-Hall (WinHelp 3.1) encoding:
    //   phrase_val = 256 * (byte1 - 1) + byte2
    //   phrase_idx = phrase_val / 2
    //
    // Token for index 0 (no trailing space): phrase_val = 0
    //   byte1 = 1 (0x01), byte2 = 0 (0x00)
    // Token for index 1 (no trailing space): phrase_val = 2
    //   byte1 = 1 (0x01), byte2 = 2 (0x02)
    let input = vec![0x01, 0x00, 0x01, 0x02];
    let out = table.expand(&input).unwrap();
    assert_eq!(out, b"hello world");
}

#[test]
fn phrase_expand_with_trailing_space() {
    // Build table with phrase [0] = "hello"
    let mut data = Vec::new();
    data.extend_from_slice(&1u16.to_le_bytes()); // 1 phrase
    data.extend_from_slice(&0u16.to_le_bytes()); // offset[0] = 0
    data.extend_from_slice(&5u16.to_le_bytes()); // offset[1] = 5
    data.extend_from_slice(b"hello");
    let table = PhraseTable::from_bytes(&data, None, false).unwrap();

    // phrase_val = 1 (odd) → phrase_idx = 0, trailing space
    // byte1 = 1, byte2 = 1: phrase_val = 256*0 + 1 = 1
    let input = vec![0x01, 0x01, b'!'];
    let out = table.expand(&input).unwrap();
    assert_eq!(out, b"hello !");
}

#[test]
fn phrase_expand_mixed() {
    let mut data = Vec::new();
    data.extend_from_slice(&1u16.to_le_bytes());
    data.extend_from_slice(&0u16.to_le_bytes());
    data.extend_from_slice(&3u16.to_le_bytes());
    data.extend_from_slice(b"the");

    let table = PhraseTable::from_bytes(&data, None, false).unwrap();

    // "Say " + phrase[0] (no trailing space) + " word"
    // Token for index 0: byte1=0x01, byte2=0x00
    let mut input = Vec::new();
    input.extend_from_slice(b"Say ");
    input.push(0x01); // phrase token marker
    input.push(0x00); // byte2 → phrase_val=0, idx=0, no trailing space
    input.extend_from_slice(b" word");
    let out = table.expand(&input).unwrap();
    assert_eq!(out, b"Say the word");
}

#[test]
fn phrase_expand_literal_high_bytes() {
    // Bytes >= 16 (0x10..0xFF) are always literal in non-Hall mode.
    let table = PhraseTable::empty();
    let input = vec![0x10, 0x80, 0xFF, 0x20];
    let out = table.expand(&input).unwrap();
    assert_eq!(out, input.as_slice());
}

#[test]
fn phrase_expand_out_of_range() {
    let table = PhraseTable::empty();
    // Token marker 0x01 + 0x00 → phrase_val=0, phrase_idx=0, table is empty → error.
    let input = vec![0x01, 0x00];
    let err = table.expand(&input).unwrap_err();
    assert!(matches!(err, Error::Decompression(_)));
}

#[test]
fn phrase_empty_table() {
    let table = PhraseTable::empty();
    assert!(table.is_empty());
    assert_eq!(table.len(), 0);
}

// -- LZ77 tests --
//
// Encoding rules (correct algorithm):
//   control bit CLEAR (0) → next byte is a literal
//   control bit SET   (1) → next 2 bytes are a back-reference:
//       word = b0 | (b1 << 8)
//       pos_field = word & 0x0FFF  (distance back from end, minus 1)
//       length    = (word >> 12) + 3

#[test]
fn lz77_empty_input() {
    let out = lz77_decompress(&[]).unwrap();
    assert!(out.is_empty());
}

#[test]
fn lz77_all_literals() {
    // Control byte 0x00 = all 8 bits clear → 8 literal bytes follow.
    let mut input = vec![0x00u8];
    input.extend_from_slice(b"ABCDEFGH");
    let out = lz77_decompress(&input).unwrap();
    assert_eq!(out, b"ABCDEFGH");
}

#[test]
fn lz77_all_literals_multiple_blocks() {
    // Two control bytes 0x00, each followed by 8 literal bytes.
    let mut input = vec![0x00u8];
    input.extend_from_slice(b"ABCDEFGH");
    input.push(0x00);
    input.extend_from_slice(b"IJKLMNOP");
    let out = lz77_decompress(&input).unwrap();
    assert_eq!(out, b"ABCDEFGHIJKLMNOP");
}

#[test]
fn lz77_back_reference() {
    // Emit "ABC" as literals (bits 0,1,2 = 0), then a back-ref (bit 3 = 1)
    // that copies the last 3 bytes → "ABCABC".
    //
    // Control byte: bits 0,1,2 clear (literal), bit 3 set (back-ref) → 0x08
    // Back-ref word: pos_field = 2 (distance 3 back), length = 3 (upper nibble 0)
    //   word = 0x0002 → b0 = 0x02, b1 = 0x00
    let input = vec![0x08u8, b'A', b'B', b'C', 0x02, 0x00];
    let out = lz77_decompress(&input).unwrap();
    assert_eq!(out, b"ABCABC");
}

#[test]
fn lz77_longer_back_reference() {
    // Emit "ABCD" as literals (bits 0–3 clear), then back-ref (bit 4 set)
    // that copies 4 bytes → "ABCDABCD".
    //
    // Control byte: bits 0-3 clear, bit 4 set → 0x10
    // Back-ref: pos_field = 3 (distance 4 back), length = 4 (upper nibble = 1)
    //   word = (1 << 12) | 3 = 0x1003 → b0 = 0x03, b1 = 0x10
    let input = vec![0x10u8, b'A', b'B', b'C', b'D', 0x03, 0x10];
    let out = lz77_decompress(&input).unwrap();
    assert_eq!(out, b"ABCDABCD");
}

#[test]
fn lz77_back_reference_from_empty_output_gives_zeros() {
    // A back-reference before any output has been emitted copies zero bytes
    // (no pre-initialized window).
    //
    // Control byte 0x01: bit 0 set → back-ref immediately.
    // Back-ref: pos_field=2, length=3 → word=0x0002 → b0=0x02, b1=0x00
    // Output is empty so all 3 bytes are zero.
    let input = vec![0x01u8, 0x02, 0x00];
    let out = lz77_decompress(&input).unwrap();
    assert_eq!(out, b"\x00\x00\x00");
}

#[test]
fn lz77_repeating_run() {
    // "AAAA" via literal 'A' then back-ref of length 3 copying it 3 times.
    //
    // Control byte: bit 0 clear (literal), bit 1 set (back-ref) → 0x02
    // Back-ref: pos_field=0 (distance 1 back), length=3 → word=0x0000
    let input = vec![0x02u8, b'A', 0x00, 0x00];
    let out = lz77_decompress(&input).unwrap();
    assert_eq!(out, b"AAAA");
}

// -- Hall phrase (WinHelp 4.0) tests --

/// Build a minimal Hall |PhrIndex + |PhrImage pair with the given phrase
/// byte-strings, using `bits=0` so every phrase's length is encoded with
/// the zero-suffix-bits path (single `0` terminator bit + one body bit).
fn build_hall(phrases: &[&[u8]]) -> (Vec<u8>, Vec<u8>) {
    let image: Vec<u8> = phrases.iter().flat_map(|p| p.iter().copied()).collect();
    // PHRINDEXHDR (28 bytes).
    let mut idx = Vec::with_capacity(64);
    idx.extend_from_slice(&1u32.to_le_bytes()); // always4A01
    idx.extend_from_slice(&(phrases.len() as u32).to_le_bytes()); // entries
    idx.extend_from_slice(&0u32.to_le_bytes()); // compressedsize (unused)
    idx.extend_from_slice(&(image.len() as u32).to_le_bytes()); // phrimagesize
    idx.extend_from_slice(&(image.len() as u32).to_le_bytes()); // phrimagecompressedsize (== phrimagesize → no LZ77)
    idx.extend_from_slice(&0u32.to_le_bytes()); // always0
    idx.extend_from_slice(&0u16.to_le_bytes()); // bits=0, unknown=0
    idx.extend_from_slice(&0x4A00u16.to_le_bytes()); // always4A00

    // Bitstream: per phrase, one `0` bit (end of Golomb prefix, adds
    // nothing) plus one "fine" bit that adds 1 if set.  With bits=0,
    // no further suffix bits are read.  We need each phrase length = its
    // actual byte count.  Length formula with bits=0:
    //   n = 1 + (suffix1 ? 1 : 0)
    // So only phrases of length 1 or 2 are representable without Golomb
    // iterations.  For longer phrases, the Golomb loop contributes
    // `1 << bits` per set bit — with bits=0 each iteration adds 1, so
    // length N requires (N-1) ones then a zero, then the suffix bit.
    let mut bits = BitWriter::new();
    for p in phrases {
        let n = p.len();
        assert!(n >= 1);
        // Golomb unary: (n - 1) one-bits followed by one zero-bit.
        for _ in 0..(n - 1) {
            bits.push(true);
        }
        bits.push(false);
        // Exactly one suffix bit is read (adds 1 if set) — we want it 0.
        bits.push(false);
    }
    idx.extend_from_slice(&bits.finish());
    (idx, image)
}

struct BitWriter {
    words: Vec<u32>,
    cur: u32,
    mask: u32,
}

impl BitWriter {
    fn new() -> Self {
        Self {
            words: Vec::new(),
            cur: 0,
            mask: 0,
        }
    }
    fn push(&mut self, bit: bool) {
        // Bits fill each word from its lowest bit up.
        self.mask = self.mask.wrapping_shl(1);
        if self.mask == 0 {
            if self.cur != 0 || !self.words.is_empty() {
                self.words.push(self.cur);
                self.cur = 0;
            }
            self.mask = 1;
        }
        if bit {
            self.cur |= self.mask;
        }
    }
    fn finish(mut self) -> Vec<u8> {
        if self.mask != 0 {
            self.words.push(self.cur);
        }
        let mut out = Vec::with_capacity(self.words.len() * 4);
        for w in self.words {
            out.extend_from_slice(&w.to_le_bytes());
        }
        out
    }
}

#[test]
fn hall_table_decodes_two_single_char_phrases() {
    let (idx, img) = build_hall(&[b"A", b"B"]);
    let table = PhraseTable::from_hall(&idx, &img).unwrap();
    assert_eq!(table.len(), 2);
    assert_eq!(&table.phrases[0], b"A");
    assert_eq!(&table.phrases[1], b"B");
}

#[test]
fn hall_expand_single_byte_phrase_even_byte() {
    // Hall encoding: even byte N means phrase N/2.
    let (idx, img) = build_hall(&[b"hello", b"world"]);
    let table = PhraseTable::from_hall(&idx, &img).unwrap();
    // Encoded stream: 0x00 (phrase 0), 0x02 (phrase 1)
    let out = table.expand(&[0x00, 0x02]).unwrap();
    assert_eq!(out, b"helloworld");
}

#[test]
fn hall_expand_literal_run_formula() {
    // Control byte 0x0B (bit pattern xxxxx011) → literal run of
    // `(0x0B >> 3) + 1` = 2 literal bytes following.
    let (idx, img) = build_hall(&[b"phrase0"]);
    let table = PhraseTable::from_hall(&idx, &img).unwrap();
    let out = table.expand(&[0x0B, 0x41, 0x42]).unwrap();
    assert_eq!(out, b"AB");
    assert_eq!(table.len(), 1);
}

#[test]
fn hall_expand_space_run_formula() {
    // 0x07 → bits xxxx0111 → space run of (0x07 >> 4) + 1 = 1 space.
    // 0x17 → (1+1) = 2 spaces.
    let (idx, img) = build_hall(&[b"x"]);
    let table = PhraseTable::from_hall(&idx, &img).unwrap();
    let out = table.expand(&[0x07, 0x17]).unwrap();
    assert_eq!(out, b"   "); // 1 + 2
}

#[test]
fn hall_expand_null_run_formula() {
    // 0x0F → bits xxxx1111 → NUL run of (0x0F >> 4) + 1 = 1 NUL.
    let (idx, img) = build_hall(&[b"x"]);
    let table = PhraseTable::from_hall(&idx, &img).unwrap();
    let out = table.expand(&[0x0F, 0x1F]).unwrap();
    assert_eq!(out, b"\x00\x00\x00"); // 1 + 2
}

#[test]
fn hall_rejects_phrindex_offset_mismatch() {
    // Build a valid Hall table, then fib about the `entries` field so
    // the bitstream produces fewer offsets than the image covers.
    // This trips the "decoded phrase offsets cover N bytes, |PhrImage
    // has M" sanity check at the end of from_hall.
    let (mut idx, img) = build_hall(&[b"ABCDE"]);
    // Claim only 1 entry while the image expects length 5 bytes from
    // what would have been a 1-entry decode — but since build_hall
    // wrote a Golomb prefix for a 5-byte phrase, the first decoded
    // length is 5, so offsets = [0, 5] — matches the 5-byte image.
    // To force a mismatch, shrink the declared image size.
    idx[12..16].copy_from_slice(&3u32.to_le_bytes()); // phrimagesize
    idx[16..20].copy_from_slice(&3u32.to_le_bytes()); // phrimagecompressedsize
    let err = PhraseTable::from_hall(&idx, &img[..3]).unwrap_err();
    match err {
        Error::BadInternalFile { ref detail, .. } => {
            assert!(detail.contains("cover"), "got: {detail}");
        }
        _ => panic!("expected BadInternalFile, got {err:?}"),
    }
}
