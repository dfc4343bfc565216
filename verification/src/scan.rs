//! The variable-length numbers of topic records.
//!
//! A number whose first byte is odd takes up the longer of its two forms. A
//! number that is cut off counts as zero and takes up the rest of the data.

use vstd::prelude::*;

use crate::bytes::{le16, le32, u16_at, u32_at};

verus! {

/// `n` minus `bias` as a 32-bit word.
pub open spec fn biased(n: int, bias: int) -> u32 {
    if n >= bias {
        (n - bias) as u32
    } else {
        (n - bias + 0x1_0000_0000) as u32
    }
}

/// The compressed long at `pos` and where it ends: half of four bytes less
/// `0x40000000`, or half of two bytes less `0x4000`.
pub open spec fn long_at(data: Seq<u8>, pos: int) -> (u32, int) {
    if pos >= data.len() {
        (0, pos)
    } else if data[pos] % 2 == 1 {
        if pos + 4 > data.len() {
            (0, data.len() as int)
        } else {
            (biased((le32(data, pos) / 2) as int, 0x4000_0000), pos + 4)
        }
    } else if pos + 2 > data.len() {
        (0, data.len() as int)
    } else {
        (biased((le16(data, pos) / 2) as int, 0x4000), pos + 2)
    }
}

/// The compressed word at `pos` and where it ends: half of two bytes, or half
/// of one.
pub open spec fn word_at(data: Seq<u8>, pos: int) -> (u16, int) {
    if pos >= data.len() {
        (0, pos)
    } else if data[pos] % 2 == 1 {
        if pos + 2 > data.len() {
            (0, data.len() as int)
        } else {
            (le16(data, pos) / 2, pos + 2)
        }
    } else {
        ((data[pos] / 2) as u16, pos + 1)
    }
}

/// The compressed integer at `pos` and where it ends: half of two bytes less
/// `0x4000`, or half of one less `0x40`.
pub open spec fn int_at(data: Seq<u8>, pos: int) -> (i16, int) {
    if pos >= data.len() {
        (0, pos)
    } else if data[pos] % 2 == 1 {
        if pos + 2 > data.len() {
            (0, data.len() as int)
        } else {
            ((le16(data, pos) / 2 - 0x4000) as i16, pos + 2)
        }
    } else {
        ((data[pos] / 2 - 0x40) as i16, pos + 1)
    }
}

/// The 32-bit number at `pos`, with zeros for the bytes that are not there.
pub open spec fn u32_padded(data: Seq<u8>, pos: int) -> u32 {
    let byte = |i: int|
        if pos + i < data.len() {
            data[pos + i] as int
        } else {
            0
        };
    (byte(0) + 256 * byte(1) + 65536 * byte(2) + 16777216 * byte(3)) as u32
}

/// Reads a compressed long.
pub fn scan_long(data: &[u8], pos: &mut usize) -> (v: u32)
    ensures
        long_at(data@, *old(pos) as int) == (v, *final(pos) as int),
        *old(pos) <= *final(pos),
        *old(pos) <= data@.len() ==> *final(pos) <= data@.len(),
{
    let at: usize = *pos;
    let len: usize = data.len();
    if at >= len {
        return 0;
    }
    if data[at] % 2 == 1 {
        if len - at < 4 {
            *pos = len;
            return 0;
        }
        *pos = at + 4;
        let half: u32 = u32_at(data, at) / 2;
        if half >= 0x4000_0000 {
            half - 0x4000_0000
        } else {
            half + 0xC000_0000
        }
    } else {
        if len - at < 2 {
            *pos = len;
            return 0;
        }
        *pos = at + 2;
        let half: u32 = (u16_at(data, at) / 2) as u32;
        if half >= 0x4000 {
            half - 0x4000
        } else {
            half + 0xFFFF_C000
        }
    }
}

/// Reads a compressed word.
pub fn scan_word(data: &[u8], pos: &mut usize) -> (v: u16)
    ensures
        word_at(data@, *old(pos) as int) == (v, *final(pos) as int),
        *old(pos) <= *final(pos),
        *old(pos) <= data@.len() ==> *final(pos) <= data@.len(),
{
    let at: usize = *pos;
    let len: usize = data.len();
    if at >= len {
        return 0;
    }
    if data[at] % 2 == 1 {
        if len - at < 2 {
            *pos = len;
            return 0;
        }
        *pos = at + 2;
        u16_at(data, at) / 2
    } else {
        *pos = at + 1;
        (data[at] / 2) as u16
    }
}

/// Reads a compressed integer.
pub fn scan_int(data: &[u8], pos: &mut usize) -> (v: i16)
    ensures
        int_at(data@, *old(pos) as int) == (v, *final(pos) as int),
        *old(pos) <= *final(pos),
        *old(pos) <= data@.len() ==> *final(pos) <= data@.len(),
{
    let at: usize = *pos;
    let len: usize = data.len();
    if at >= len {
        return 0;
    }
    if data[at] % 2 == 1 {
        if len - at < 2 {
            *pos = len;
            return 0;
        }
        *pos = at + 2;
        (u16_at(data, at) / 2) as i16 - 0x4000
    } else {
        *pos = at + 1;
        (data[at] / 2) as i16 - 0x40
    }
}

/// Reads a 32-bit number. The bytes that are not there count as zero.
pub fn read_u32_le(data: &[u8], pos: &mut usize) -> (v: u32)
    requires
        *old(pos) <= data@.len(),
    ensures
        v == u32_padded(data@, *old(pos) as int),
        *final(pos) == if *old(pos) + 4 <= data@.len() {
            *old(pos) + 4
        } else {
            data@.len() as int
        },
{
    let at: usize = *pos;
    let len: usize = data.len();
    if len - at >= 4 {
        *pos = at + 4;
        return u32_at(data, at);
    }
    *pos = len;
    let mut v: u32 = 0;
    if len - at >= 1 {
        v = v + data[at] as u32;
    }
    if len - at >= 2 {
        v = v + 256 * (data[at + 1] as u32);
    }
    if len - at >= 3 {
        v = v + 65536 * (data[at + 2] as u32);
    }
    v
}

// ---------------------------------------------------------------------------
// Laws
// ---------------------------------------------------------------------------

/// The bytes of a compressed word.
pub open spec fn word_bytes(n: u16) -> Seq<u8> {
    if n < 128 {
        seq![(2 * n) as u8]
    } else {
        crate::bytes::le16_bytes((2 * n + 1) as u16)
    }
}

/// A compressed word reads back as what was written, whatever follows it.
pub proof fn law_word_round_trip(n: u16, rest: Seq<u8>)
    requires
        n < 0x8000,
    ensures
        word_at(word_bytes(n) + rest, 0) == (n, word_bytes(n).len() as int),
{
}

/// The bytes of a compressed long: the shorter form where it fits.
pub open spec fn long_bytes(n: u32) -> Seq<u8> {
    if n < 0x4000 {
        crate::bytes::le16_bytes((2 * (n + 0x4000)) as u16)
    } else {
        crate::bytes::le32_bytes((2 * (n + 0x4000_0000) + 1) as u32)
    }
}

/// A compressed long reads back as what was written, whatever follows it.
pub proof fn law_long_round_trip(n: u32, rest: Seq<u8>)
    requires
        n < 0x4000_0000,
    ensures
        long_at(long_bytes(n) + rest, 0) == (n, long_bytes(n).len() as int),
{
    let s = long_bytes(n) + rest;
    if n >= 0x4000 {
        let w = (2 * (n + 0x4000_0000) + 1) as u32;
        assert(le32(s, 0) == w) by {
            crate::bytes::law_le32_round_trip(w);
            assert(s[0] == crate::bytes::le32_bytes(w)[0]);
            assert(s[1] == crate::bytes::le32_bytes(w)[1]);
            assert(s[2] == crate::bytes::le32_bytes(w)[2]);
            assert(s[3] == crate::bytes::le32_bytes(w)[3]);
        }
    }
}

/// The bytes of a compressed integer: the shorter form where it fits.
pub open spec fn int_bytes(n: i16) -> Seq<u8> {
    if -0x40 <= n < 0x40 {
        seq![(2 * (n + 0x40)) as u8]
    } else {
        crate::bytes::le16_bytes((2 * (n + 0x4000) + 1) as u16)
    }
}

/// A compressed integer reads back as what was written, whatever follows it.
pub proof fn law_int_round_trip(n: i16, rest: Seq<u8>)
    requires
        -0x4000 <= n < 0x4000,
    ensures
        int_at(int_bytes(n) + rest, 0) == (n, int_bytes(n).len() as int),
{
}

} // verus!
