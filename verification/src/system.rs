//! The `|SYSTEM` internal file: title, copyright, format version and
//! compression flags of the help file.

use vstd::prelude::*;

use crate::bytes::{find_nul, le16, le32, nul_from, text_between, text_of, u16_at, u32_at};
use crate::error::{bad_file, new_bad_file, ErrorView};
use crate::text::{hex_upper, push_hex_padded, zero_padded};
use crate::views::opt_view;
use crate::Error;

verus! {

/// The number at the start of `|SYSTEM`.
pub const SYSTEM_MAGIC: u16 = 0x036C;

/// Metadata from `|SYSTEM`.
///
/// The header holds the magic number, the minor version and the major version
/// (u16 each); with a minor version of ten or more, a generation date (u32) and
/// the compression flags (u16) follow. Records follow the header, each with a
/// type (u16), a length (u16) and its data.
#[derive(Debug, Clone)]
pub struct SystemInfo {
    /// Minor version (15 for WinHelp 3.0, 21 for 3.1, 27 for 4.0).
    pub minor_version: u16,
    /// Major version.
    pub flags: u16,
    /// Compression flags: 0 none, 4 LZ77 with 4 KiB blocks, 8 LZ77 with 2 KiB
    /// blocks.
    pub flags_ex: Option<u16>,
    /// Help file title (record type 1).
    pub title: Option<String>,
    /// Copyright string (record type 2).
    pub copyright: Option<String>,
    /// Byte offset of the root topic in `|TOPIC` (record type 3).
    pub root_topic_offset: Option<u32>,
    /// Context string of the starting topic (record type 4).
    pub starting_topic: Option<String>,
}

/// The metadata with its strings as sequences of characters.
pub struct SystemInfoView {
    pub minor_version: u16,
    pub flags: u16,
    pub flags_ex: Option<u16>,
    pub title: Option<Seq<char>>,
    pub copyright: Option<Seq<char>>,
    pub root_topic_offset: Option<u32>,
    pub starting_topic: Option<Seq<char>>,
}

impl View for SystemInfo {
    type V = SystemInfoView;

    open spec fn view(&self) -> SystemInfoView {
        SystemInfoView {
            minor_version: self.minor_version,
            flags: self.flags,
            flags_ex: self.flags_ex,
            title: opt_view(self.title),
            copyright: opt_view(self.copyright),
            root_topic_offset: self.root_topic_offset,
            starting_topic: opt_view(self.starting_topic),
        }
    }
}

/// The string up to the first NUL byte, or up to the end.
pub open spec fn nul_string(data: Seq<u8>) -> Seq<char> {
    text_of(data.take(nul_from(data, 0)))
}

/// The metadata after a record of the given type. Other types, and a root
/// topic record that is too short, change nothing.
pub open spec fn with_record(info: SystemInfoView, kind: u16, data: Seq<u8>) -> SystemInfoView {
    if kind == 1 {
        SystemInfoView { title: Some(nul_string(data)), ..info }
    } else if kind == 2 {
        SystemInfoView { copyright: Some(nul_string(data)), ..info }
    } else if kind == 3 && data.len() >= 4 {
        SystemInfoView { root_topic_offset: Some(le32(data, 0)), ..info }
    } else if kind == 4 {
        SystemInfoView { starting_topic: Some(nul_string(data)), ..info }
    } else {
        info
    }
}

/// The metadata after all records from `pos` on. A record that is cut off
/// ends the list.
pub open spec fn with_records(info: SystemInfoView, data: Seq<u8>, pos: int) -> SystemInfoView
    decreases data.len() - pos,
{
    if pos < 0 || pos + 4 > data.len() {
        info
    } else {
        let len = le16(data, pos + 2);
        if pos + 4 + len > data.len() {
            info
        } else {
            with_records(
                with_record(info, le16(data, pos), data.subrange(pos + 4, pos + 4 + len)),
                data,
                pos + 4 + len,
            )
        }
    }
}

/// The metadata that the bytes of `|SYSTEM` hold.
pub open spec fn system_result(data: Seq<u8>) -> Result<SystemInfoView, ErrorView> {
    if data.len() < 6 {
        Err(bad_file("|SYSTEM"@, "too small for |SYSTEM header"@))
    } else if le16(data, 0) != SYSTEM_MAGIC {
        Err(
            bad_file(
                "|SYSTEM"@,
                "bad magic: expected 0x036C, got 0x"@ + zero_padded(
                    hex_upper(le16(data, 0) as nat),
                    4,
                ),
            ),
        )
    } else {
        let extended = le16(data, 2) >= 10 && data.len() >= 12;
        Ok(
            with_records(
                SystemInfoView {
                    minor_version: le16(data, 2),
                    flags: le16(data, 4),
                    flags_ex: if extended {
                        Some(le16(data, 10))
                    } else {
                        None
                    },
                    title: None,
                    copyright: None,
                    root_topic_offset: None,
                    starting_topic: None,
                },
                data,
                if extended {
                    12
                } else {
                    6
                },
            ),
        )
    }
}

/// The compression flags: the extended ones, where they are there.
pub open spec fn flags_of(info: SystemInfoView) -> u16 {
    match info.flags_ex {
        Some(f) => f,
        None => info.flags,
    }
}

/// Whether topic blocks are LZ77-compressed: from WinHelp 3.1 on, with the
/// flags 4 or 8.
pub open spec fn lz77_used(info: SystemInfoView) -> bool {
    info.minor_version > 16 && (flags_of(info) == 4 || flags_of(info) == 8)
}

/// The size of a topic block on disk.
pub open spec fn block_size_of(info: SystemInfoView) -> int {
    if info.minor_version <= 16 || flags_of(info) == 8 {
        2048
    } else {
        4096
    }
}

/// The size of a decompressed topic block in topic positions.
pub open spec fn decompress_size_of(info: SystemInfoView) -> int {
    if info.minor_version <= 16 {
        2048
    } else {
        16384
    }
}

/// A file before WinHelp 3.1 is never LZ77-compressed, whatever its flags, and
/// both its block sizes are 2 KiB.
pub proof fn law_before_31(info: SystemInfoView)
    requires
        info.minor_version <= 16,
    ensures
        !lz77_used(info),
        block_size_of(info) == 2048,
        decompress_size_of(info) == block_size_of(info),
{
}

/// From WinHelp 3.1 on a block has 4 KiB on disk, with the flags 8 half of that,
/// and 16 KiB decompressed; it is LZ77-compressed with the flags 4 and 8 only.
/// The flags are those behind the date where there are any.
pub proof fn law_from_31(info: SystemInfoView)
    requires
        info.minor_version > 16,
    ensures
        info.flags_ex is None ==> flags_of(info) == info.flags,
        info.flags_ex matches Some(f) ==> flags_of(info) == f,
        flags_of(info) == 8 ==> block_size_of(info) == 2048 && lz77_used(info),
        flags_of(info) == 4 ==> block_size_of(info) == 4096 && lz77_used(info),
        flags_of(info) != 4 && flags_of(info) != 8 ==> block_size_of(info) == 4096 && !lz77_used(
            info,
        ),
        decompress_size_of(info) == 16384,
{
}

/// A decompressed block holds at least what a block holds on disk.
pub proof fn law_blocks_do_not_shrink(info: SystemInfoView)
    ensures
        block_size_of(info) <= decompress_size_of(info),
{
}

/// Reads the string up to the first NUL byte of `data`.
pub fn read_nul_string(data: &[u8]) -> (s: String)
    ensures
        s@ == nul_string(data@),
{
    let end: usize = find_nul(data, 0);
    assert(data@.subrange(0, end as int) =~= data@.take(end as int));
    text_between(data, 0, end)
}

impl SystemInfo {
    /// Parses the bytes of the `|SYSTEM` internal file.
    pub fn from_bytes(data: &[u8]) -> (r: Result<Self, Error>)
        ensures
            match r {
                Ok(info) => system_result(data@) == Ok::<SystemInfoView, ErrorView>(info@),
                Err(e) => system_result(data@) == Err::<SystemInfoView, ErrorView>(e@),
            },
    {
        if data.len() < 6 {
            return Err(new_bad_file("|SYSTEM", "too small for |SYSTEM header"));
        }
        let magic: u16 = u16_at(data, 0);
        if magic != SYSTEM_MAGIC {
            let mut detail: String = "bad magic: expected 0x036C, got 0x".to_owned();
            push_hex_padded(&mut detail, magic as u64, 4);
            return Err(new_bad_file("|SYSTEM", detail.as_str()));
        }
        let minor_version: u16 = u16_at(data, 2);
        let extended: bool = minor_version >= 10 && data.len() >= 12;
        let flags_ex: Option<u16> = if extended {
            Some(u16_at(data, 10))
        } else {
            None
        };
        let mut info = SystemInfo {
            minor_version,
            flags: u16_at(data, 4),
            flags_ex,
            title: None,
            copyright: None,
            root_topic_offset: None,
            starting_topic: None,
        };
        let mut pos: usize = if extended {
            12
        } else {
            6
        };
        let len: usize = data.len();
        let ghost all = with_records(info@, data@, pos as int);
        while pos <= len && len - pos >= 4
            invariant
                pos <= len,
                len == data@.len(),
                with_records(info@, data@, pos as int) == all,
                system_result(data@) == Ok::<SystemInfoView, ErrorView>(all),
            decreases len - pos,
        {
            let kind: u16 = u16_at(data, pos);
            let record_len: usize = u16_at(data, pos + 2) as usize;
            let start: usize = pos + 4;
            if record_len > len - start {
                return Ok(info);
            }
            let record: &[u8] = vstd::slice::slice_subrange(data, start, start + record_len);
            if kind == 1 {
                info.title = Some(read_nul_string(record));
            } else if kind == 2 {
                info.copyright = Some(read_nul_string(record));
            } else if kind == 3 {
                if record.len() >= 4 {
                    info.root_topic_offset = Some(u32_at(record, 0));
                }
            } else if kind == 4 {
                info.starting_topic = Some(read_nul_string(record));
            }
            pos = start + record_len;
        }
        Ok(info)
    }

    /// The compression flags of this file.
    pub fn compression_flags(&self) -> (f: u16)
        ensures
            f == flags_of(self@),
    {
        match self.flags_ex {
            Some(f) => f,
            None => self.flags,
        }
    }

    /// Whether topic blocks are LZ77-compressed.
    pub fn uses_lz77(&self) -> (b: bool)
        ensures
            b == lz77_used(self@),
    {
        let f: u16 = self.compression_flags();
        self.minor_version > 16 && (f == 4 || f == 8)
    }

    /// Whether the text in `|Phrases` is LZ77-compressed, as it is from
    /// WinHelp 3.1 on.
    pub fn phrases_compressed(&self) -> (b: bool)
        ensures
            b == (self@.minor_version > 16),
    {
        self.minor_version > 16
    }

    /// The size of a topic block on disk.
    pub fn topic_block_size(&self) -> (n: usize)
        ensures
            n == block_size_of(self@),
    {
        let f: u16 = self.compression_flags();
        if self.minor_version <= 16 || f == 8 {
            2048
        } else {
            4096
        }
    }

    /// The size of a decompressed topic block in topic positions.
    pub fn decompress_size(&self) -> (n: usize)
        ensures
            n == decompress_size_of(self@),
    {
        if self.minor_version <= 16 {
            2048
        } else {
            16384
        }
    }
}

} // verus!
