//! HLP file container: header, internal directory B-tree, and file extraction.
//!
//! An HLP file is a virtual filesystem. A B-tree near the start of the file
//! indexes named internal files (such as `|SYSTEM`, `|TOPIC`, `|Phrases`).

use vstd::prelude::*;

use crate::btree::{lemma_walk_all_prefix_error, page_at, page_offset, walk, walk_all, BTREE_MAGIC};
use crate::bytes::{find_nul, le16, le32, nul_from, text_between, text_of, u16_at, u32_at};
use crate::error::{bad_file, new_bad_file, new_parse_error, parse_error, prefixed, ErrorView};
use crate::text::{
    decimal, hex_upper, push_decimal, push_hex_padded, push_hex_upper, push_str, zero_padded,
};
use crate::views::{lemma_views_push, views};
use crate::Error;

verus! {

/// The number at the start of every HLP file.
pub const HLP_MAGIC: u32 = 0x00035F3F;

/// Size of the header in front of every internal file: reserved space (u32),
/// used space (u32) and flags (u8).
pub const INTERNAL_FILE_HEADER_SIZE: usize = 9;

/// Size of the B-tree header.
///
/// ```text
/// +0x00: u16  magic (0x293B)
/// +0x02: u16  flags
/// +0x04: u16  page_size
/// +0x06: char[16] structure
/// +0x16: u16  must_be_zero
/// +0x18: u16  page_splits
/// +0x1A: u16  root_page
/// +0x1C: i16  must_be_neg_one
/// +0x1E: u16  total_pages
/// +0x20: u16  num_levels
/// +0x22: u32  total_entries
/// +0x26: page data
/// ```
pub const BTREE_HEADER_SIZE: usize = 0x26;

/// The header of an HLP file.
#[derive(Debug, Clone)]
pub struct HlpHeader {
    /// Byte offset of the internal directory.
    pub directory_start: u32,
}

/// An entry in the internal file directory.
#[derive(Debug, Clone)]
pub struct InternalFile {
    /// Internal file name (such as `|SYSTEM`).
    pub name: String,
    /// Byte offset within the HLP file.
    pub offset: u64,
}

/// A directory entry with its name as a sequence of characters.
pub struct InternalFileView {
    pub name: Seq<char>,
    pub offset: u64,
}

impl View for InternalFile {
    type V = InternalFileView;

    open spec fn view(&self) -> InternalFileView {
        InternalFileView { name: self.name@, offset: self.offset }
    }
}

/// The container: the bytes of the HLP file and its directory.
///
/// A name may occur more than once in the directory; the last entry counts.
#[derive(Debug)]
pub struct HlpContainer {
    data: Vec<u8>,
    files: Vec<InternalFile>,
}

/// The bytes of an HLP file and the entries of its directory, in order.
pub struct ContainerView {
    pub data: Seq<u8>,
    pub files: Seq<InternalFileView>,
}

impl View for HlpContainer {
    type V = ContainerView;

    closed spec fn view(&self) -> ContainerView {
        ContainerView { data: self.data@, files: views(self.files@) }
    }
}

// ---------------------------------------------------------------------------
// What the bytes mean
// ---------------------------------------------------------------------------

/// The 16-bit number at `offset`, where the data holds one.
pub open spec fn u16_result(data: Seq<u8>, offset: int) -> Result<u16, ErrorView> {
    if offset + 2 <= data.len() {
        Ok(le16(data, offset))
    } else {
        Err(parse_error(offset, "unexpected EOF reading u16"@))
    }
}

/// The 32-bit number at `offset`, where the data holds one.
pub open spec fn u32_result(data: Seq<u8>, offset: int) -> Result<u32, ErrorView> {
    if offset + 4 <= data.len() {
        Ok(le32(data, offset))
    } else {
        Err(parse_error(offset, "unexpected EOF reading u32"@))
    }
}

/// The NUL-terminated string at `offset`, with the number of bytes that it
/// takes up (the NUL included).
pub open spec fn cstring_result(data: Seq<u8>, offset: int) -> Result<(Seq<char>, int), ErrorView> {
    if offset > data.len() {
        Err(parse_error(offset, "unexpected EOF reading string"@))
    } else if nul_from(data, offset) >= data.len() {
        Err(parse_error(offset, "unterminated string"@))
    } else {
        Ok(
            (
                text_of(data.subrange(offset, nul_from(data, offset))),
                nul_from(data, offset) - offset + 1,
            ),
        )
    }
}

/// The offset of the directory that the file header gives.
pub open spec fn header_result(data: Seq<u8>) -> Result<u32, ErrorView> {
    if data.len() < 8 {
        Err(parse_error(0, "file too small for HLP header"@))
    } else if le32(data, 0) != HLP_MAGIC {
        Err(ErrorView::BadMagic(le32(data, 0)))
    } else {
        Ok(le32(data, 4))
    }
}

/// At most `n` directory entries from `pos` on, up to `end`.
pub open spec fn leaf_entries(data: Seq<u8>, pos: int, end: int, n: nat) -> Result<
    Seq<InternalFileView>,
    ErrorView,
>
    decreases n,
{
    if n == 0 || pos >= end {
        Ok(Seq::empty())
    } else {
        match cstring_result(data, pos) {
            Err(e) => Err(e),
            Ok((name, used)) => match u32_result(data, pos + used) {
                Err(e) => Err(e),
                Ok(offset) => prefixed(
                    seq![InternalFileView { name, offset: offset as u64 }],
                    leaf_entries(data, pos + used + 4, end, (n - 1) as nat),
                ),
            },
        }
    }
}

/// The entries of the directory leaf page at byte `at`.
pub open spec fn leaf_page(data: Seq<u8>, at: int, page_size: u16) -> Result<
    Seq<InternalFileView>,
    ErrorView,
> {
    if data.len() < at + page_size {
        Err(parse_error(at, "leaf page extends past end of file"@))
    } else if at + 2 > data.len() {
        Err(parse_error(at, "unexpected EOF reading u16"@))
    } else if at + 4 > data.len() {
        Err(parse_error(at + 2, "unexpected EOF reading u16"@))
    } else if at + 6 > data.len() {
        Err(parse_error(at + 4, "unexpected EOF reading u16"@))
    } else if at + 8 > data.len() {
        Err(parse_error(at + 6, "unexpected EOF reading u16"@))
    } else {
        leaf_entries(data, at + 8, at + page_size, le16(data, at + 2) as nat)
    }
}

/// At most `n` child pages, each behind its key, from `pos` on, up to `end`.
pub open spec fn index_children(data: Seq<u8>, pos: int, end: int, n: nat) -> Result<
    Seq<u16>,
    ErrorView,
>
    decreases n,
{
    if n == 0 || pos >= end {
        Ok(Seq::empty())
    } else {
        match cstring_result(data, pos) {
            Err(e) => Err(e),
            Ok((_, used)) => match u16_result(data, pos + used) {
                Err(e) => Err(e),
                Ok(child) => prefixed(
                    seq![child],
                    index_children(data, pos + used + 2, end, (n - 1) as nat),
                ),
            },
        }
    }
}

/// The child pages of the directory index page at byte `at`.
pub open spec fn index_page(data: Seq<u8>, at: int, page_size: u16) -> Result<
    Seq<u16>,
    ErrorView,
> {
    if data.len() < at + page_size {
        Err(parse_error(at, "index page extends past end of file"@))
    } else if at + 2 > data.len() {
        Err(parse_error(at, "unexpected EOF reading u16"@))
    } else if at + 4 > data.len() {
        Err(parse_error(at + 2, "unexpected EOF reading u16"@))
    } else if at + 6 > data.len() {
        Err(parse_error(at + 4, "unexpected EOF reading u16"@))
    } else {
        prefixed(
            seq![le16(data, at + 4)],
            index_children(data, at + 6, at + page_size, le16(data, at + 2) as nat),
        )
    }
}

/// The entries below a page of the directory.
pub open spec fn directory_below(
    data: Seq<u8>,
    pages_start: int,
    page_size: u16,
    page: u16,
    levels: nat,
) -> Result<Seq<InternalFileView>, ErrorView> {
    walk(
        |p: u16| leaf_page(data, page_at(pages_start, page_size, p), page_size),
        |p: u16| index_page(data, page_at(pages_start, page_size, p), page_size),
        page,
        levels,
    )
}

/// The entries of the directory whose internal file starts at `dir_offset`.
pub open spec fn directory_result(data: Seq<u8>, dir_offset: int) -> Result<
    Seq<InternalFileView>,
    ErrorView,
> {
    let tree = dir_offset + INTERNAL_FILE_HEADER_SIZE;
    if data.len() < tree + BTREE_HEADER_SIZE {
        Err(parse_error(dir_offset, "directory too small for B-tree header"@))
    } else if le16(data, tree) != BTREE_MAGIC {
        Err(
            bad_file(
                "(directory)"@,
                "bad B-tree magic: expected 0x293B, got 0x"@ + zero_padded(
                    hex_upper(le16(data, tree) as nat),
                    4,
                ),
            ),
        )
    } else if le16(data, tree + 0x20) == 0 || le16(data, tree + 0x1E) == 0 {
        Ok(Seq::empty())
    } else {
        directory_below(
            data,
            tree + BTREE_HEADER_SIZE,
            le16(data, tree + 4),
            le16(data, tree + 0x1A),
            le16(data, tree + 0x20) as nat,
        )
    }
}

/// The container that the bytes of an HLP file hold.
pub open spec fn container_result(data: Seq<u8>) -> Result<ContainerView, ErrorView> {
    match header_result(data) {
        Err(e) => Err(e),
        Ok(start) => match directory_result(data, start as int) {
            Err(e) => Err(e),
            Ok(files) => Ok(ContainerView { data, files }),
        },
    }
}

/// The offset of the last directory entry with the given name.
pub open spec fn lookup(files: Seq<InternalFileView>, name: Seq<char>) -> Option<u64>
    decreases files.len(),
{
    if files.len() == 0 {
        None
    } else if files.last().name == name {
        Some(files.last().offset)
    } else {
        lookup(files.drop_last(), name)
    }
}

/// The data of the internal file at `offset`, without its header.
pub open spec fn file_data(data: Seq<u8>, name: Seq<char>, offset: int) -> Result<
    Seq<u8>,
    ErrorView,
> {
    let start = offset + INTERNAL_FILE_HEADER_SIZE;
    if data.len() < start {
        Err(bad_file(name, "offset extends past end of file"@))
    } else if start + le32(data, offset + 4) > data.len() {
        Err(
            bad_file(
                name,
                "internal file data ("@ + decimal(le32(data, offset + 4) as nat) + " bytes at 0x"@
                    + hex_upper(start as nat) + ") extends past EOF"@,
            ),
        )
    } else {
        Ok(data.subrange(start, start + le32(data, offset + 4)))
    }
}

/// The internal file at `offset`, with its header.
pub open spec fn file_raw(data: Seq<u8>, name: Seq<char>, offset: int) -> Result<
    Seq<u8>,
    ErrorView,
> {
    if data.len() < offset + INTERNAL_FILE_HEADER_SIZE {
        Err(bad_file(name, "offset extends past end of file"@))
    } else {
        let total = INTERNAL_FILE_HEADER_SIZE + le32(data, offset + 4);
        if offset + total > data.len() {
            Err(
                bad_file(
                    name,
                    "internal file ("@ + decimal(total as nat) + " bytes at 0x"@ + hex_upper(
                        offset as nat,
                    ) + ") extends past EOF"@,
                ),
            )
        } else {
            Ok(data.subrange(offset, offset + total))
        }
    }
}

/// The data of the internal file with the given name.
pub open spec fn read_result(c: ContainerView, name: Seq<char>) -> Result<Seq<u8>, ErrorView> {
    match lookup(c.files, name) {
        None => Err(ErrorView::FileNotFound(name)),
        Some(offset) => file_data(c.data, name, offset as int),
    }
}

/// The internal file with the given name, with its header.
pub open spec fn read_raw_result(c: ContainerView, name: Seq<char>) -> Result<Seq<u8>, ErrorView> {
    match lookup(c.files, name) {
        None => Err(ErrorView::FileNotFound(name)),
        Some(offset) => file_raw(c.data, name, offset as int),
    }
}

// ---------------------------------------------------------------------------
// Laws
// ---------------------------------------------------------------------------

/// Reading a file with its header and without it succeeds on the same names,
/// and the header is the first nine bytes.
pub proof fn law_raw_is_header_and_data(c: ContainerView, name: Seq<char>)
    ensures
        read_result(c, name) is Ok <==> read_raw_result(c, name) is Ok,
        read_raw_result(c, name) matches Ok(raw) ==> raw.len() >= INTERNAL_FILE_HEADER_SIZE
            && read_result(c, name) == Ok::<Seq<u8>, ErrorView>(
            raw.skip(INTERNAL_FILE_HEADER_SIZE as int),
        ),
{
    match lookup(c.files, name) {
        None => {},
        Some(offset) => {
            if let Ok(raw) = file_raw(c.data, name, offset as int) {
                assert(raw.skip(INTERNAL_FILE_HEADER_SIZE as int) =~= c.data.subrange(
                    offset + INTERNAL_FILE_HEADER_SIZE,
                    offset + INTERNAL_FILE_HEADER_SIZE + le32(c.data, offset + 4),
                ));
            }
        },
    }
}

/// A name is found exactly if some directory entry has it.
pub proof fn law_lookup_finds_listed_names(files: Seq<InternalFileView>, name: Seq<char>)
    ensures
        lookup(files, name) is Some <==> exists|i: int|
            0 <= i < files.len() && #[trigger] files[i].name == name,
    decreases files.len(),
{
    if files.len() > 0 {
        law_lookup_finds_listed_names(files.drop_last(), name);
        assert forall|i: int| 0 <= i < files.len() - 1 implies #[trigger] files[i]
            == files.drop_last()[i] by {}
        if lookup(files.drop_last(), name) is Some {
            let i = choose|i: int|
                0 <= i < files.drop_last().len() && #[trigger] files.drop_last()[i].name == name;
            assert(files[i].name == name);
        }
    }
}

// ---------------------------------------------------------------------------
// Reading
// ---------------------------------------------------------------------------

/// Reads a little-endian u16 from `data` at `offset`.
pub fn read_u16(data: &[u8], offset: usize) -> (r: Result<u16, Error>)
    ensures
        match r {
            Ok(v) => u16_result(data@, offset as int) == Ok::<u16, ErrorView>(v),
            Err(e) => u16_result(data@, offset as int) == Err::<u16, ErrorView>(e@),
        },
{
    if data.len() >= 2 && offset <= data.len() - 2 {
        Ok(u16_at(data, offset))
    } else {
        Err(new_parse_error(offset as u64, "unexpected EOF reading u16"))
    }
}

/// Reads a little-endian u32 from `data` at `offset`.
pub fn read_u32(data: &[u8], offset: usize) -> (r: Result<u32, Error>)
    ensures
        match r {
            Ok(v) => u32_result(data@, offset as int) == Ok::<u32, ErrorView>(v),
            Err(e) => u32_result(data@, offset as int) == Err::<u32, ErrorView>(e@),
        },
{
    if data.len() >= 4 && offset <= data.len() - 4 {
        Ok(u32_at(data, offset))
    } else {
        Err(new_parse_error(offset as u64, "unexpected EOF reading u32"))
    }
}

/// Reads a NUL-terminated string from `data` at `offset`. Returns the string
/// and the number of bytes that it takes up, the NUL included.
pub fn read_cstring(data: &[u8], offset: usize) -> (r: Result<(String, usize), Error>)
    ensures
        match r {
            Ok(v) => cstring_result(data@, offset as int) == Ok::<(Seq<char>, int), ErrorView>(
                (v.0@, v.1 as int),
            ),
            Err(e) => cstring_result(data@, offset as int) == Err::<(Seq<char>, int), ErrorView>(
                e@,
            ),
        },
        r matches Ok(v) ==> 1 <= v.1 && offset + v.1 <= data@.len(),
{
    if offset > data.len() {
        return Err(new_parse_error(offset as u64, "unexpected EOF reading string"));
    }
    let end: usize = find_nul(data, offset);
    if end >= data.len() {
        return Err(new_parse_error(offset as u64, "unterminated string"));
    }
    Ok((text_between(data, offset, end), end - offset + 1))
}

/// Parses the 8-byte HLP file header.
pub fn parse_header(data: &[u8]) -> (r: Result<HlpHeader, Error>)
    ensures
        match r {
            Ok(h) => header_result(data@) == Ok::<u32, ErrorView>(h.directory_start),
            Err(e) => header_result(data@) == Err::<u32, ErrorView>(e@),
        },
{
    if data.len() < 8 {
        return Err(new_parse_error(0, "file too small for HLP header"));
    }
    let magic: u32 = u32_at(data, 0);
    if magic != HLP_MAGIC {
        return Err(Error::BadMagic(magic));
    }
    Ok(HlpHeader { directory_start: u32_at(data, 4) })
}

/// Parses a leaf page of the directory B-tree and appends its entries.
///
/// ```text
/// u16  unknown
/// u16  num_entries
/// u16  previous_page
/// u16  next_page
/// entries[]: NUL-terminated name + u32 offset
/// ```
fn parse_leaf_page(
    data: &[u8],
    page_offset: u64,
    page_size: u16,
    files: &mut Vec<InternalFile>,
) -> (r: Result<(), Error>)
    requires
        page_offset <= 0x2_0000_0000_0000,
    ensures
        match r {
            Ok(_) => prefixed(
                views(old(files)@),
                leaf_page(data@, page_offset as int, page_size),
            ) == Ok::<Seq<InternalFileView>, ErrorView>(views(final(files)@)),
            Err(e) => leaf_page(data@, page_offset as int, page_size) == Err::<
                Seq<InternalFileView>,
                ErrorView,
            >(e@),
        },
{
    let len: u64 = data.len() as u64;
    if len < page_offset + page_size as u64 {
        return Err(new_parse_error(page_offset, "leaf page extends past end of file"));
    }
    if len < page_offset + 2 {
        return Err(new_parse_error(page_offset, "unexpected EOF reading u16"));
    }
    if len < page_offset + 4 {
        return Err(new_parse_error(page_offset + 2, "unexpected EOF reading u16"));
    }
    if len < page_offset + 6 {
        return Err(new_parse_error(page_offset + 4, "unexpected EOF reading u16"));
    }
    if len < page_offset + 8 {
        return Err(new_parse_error(page_offset + 6, "unexpected EOF reading u16"));
    }
    let at: usize = page_offset as usize;
    let page_end: usize = at + page_size as usize;
    let num_entries: u16 = u16_at(data, at + 2);
    let mut pos: usize = at + 8;
    let mut i: u16 = 0;
    let ghost before = views(files@);
    let ghost all = leaf_entries(data@, at + 8, page_end as int, num_entries as nat);
    let ghost acc: Seq<InternalFileView> = Seq::empty();
    assert(views(files@) =~= before + acc);
    assert(all == prefixed(acc, all)) by {
        if let Ok(s) = all {
            assert(Seq::<InternalFileView>::empty() + s =~= s);
        }
    }
    while i < num_entries && pos < page_end
        invariant
            i <= num_entries,
            pos <= data@.len(),
            page_end <= data@.len() <= usize::MAX,
            views(files@) == before + acc,
            all == prefixed(
                acc,
                leaf_entries(data@, pos as int, page_end as int, (num_entries - i) as nat),
            ),
            all == leaf_page(data@, page_offset as int, page_size),
        decreases num_entries - i,
    {
        let (name, used): (String, usize) = match read_cstring(data, pos) {
            Ok(v) => v,
            Err(e) => {
                return Err(e);
            },
        };
        let offset: u32 = match read_u32(data, pos + used) {
            Ok(v) => v,
            Err(e) => {
                return Err(e);
            },
        };
        let ghost entry = InternalFileView { name: name@, offset: offset as u64 };
        let ghost rest = leaf_entries(
            data@,
            pos + used + 4,
            page_end as int,
            (num_entries - i - 1) as nat,
        );
        let ghost old_files = files@;
        pos = pos + used + 4;
        i += 1;
        files.push(InternalFile { name, offset: offset as u64 });
        proof {
            let next = acc.push(entry);
            lemma_views_push(old_files, files@.last());
            assert(views(files@) =~= before + next);
            if let Ok(s) = rest {
                assert(acc + (seq![entry] + s) =~= next + s);
            }
            acc = next;
        }
    }
    assert(acc + Seq::<InternalFileView>::empty() =~= acc);
    Ok(())
}

/// Parses an index page of the directory B-tree: the child pages, left to
/// right.
///
/// ```text
/// u16  unknown
/// u16  num_entries
/// u16  first_child
/// entries[]: NUL-terminated key + u16 child
/// ```
fn parse_index_page(data: &[u8], page_offset: u64, page_size: u16) -> (r: Result<Vec<u16>, Error>)
    requires
        page_offset <= 0x2_0000_0000_0000,
    ensures
        match r {
            Ok(children) => index_page(data@, page_offset as int, page_size) == Ok::<
                Seq<u16>,
                ErrorView,
            >(children@),
            Err(e) => index_page(data@, page_offset as int, page_size) == Err::<
                Seq<u16>,
                ErrorView,
            >(e@),
        },
{
    let len: u64 = data.len() as u64;
    if len < page_offset + page_size as u64 {
        return Err(new_parse_error(page_offset, "index page extends past end of file"));
    }
    if len < page_offset + 2 {
        return Err(new_parse_error(page_offset, "unexpected EOF reading u16"));
    }
    if len < page_offset + 4 {
        return Err(new_parse_error(page_offset + 2, "unexpected EOF reading u16"));
    }
    if len < page_offset + 6 {
        return Err(new_parse_error(page_offset + 4, "unexpected EOF reading u16"));
    }
    let at: usize = page_offset as usize;
    let page_end: usize = at + page_size as usize;
    let num_entries: u16 = u16_at(data, at + 2);
    let mut children: Vec<u16> = Vec::new();
    children.push(u16_at(data, at + 4));
    let mut pos: usize = at + 6;
    let mut i: u16 = 0;
    let ghost all = index_page(data@, page_offset as int, page_size);
    assert(children@ =~= seq![le16(data@, at + 4)]);
    while i < num_entries && pos < page_end
        invariant
            i <= num_entries,
            pos <= data@.len(),
            page_end <= data@.len() <= usize::MAX,
            all == prefixed(
                children@,
                index_children(data@, pos as int, page_end as int, (num_entries - i) as nat),
            ),
            all == index_page(data@, page_offset as int, page_size),
        decreases num_entries - i,
    {
        let used: usize = match read_cstring(data, pos) {
            Ok(v) => v.1,
            Err(e) => {
                return Err(e);
            },
        };
        let child: u16 = match read_u16(data, pos + used) {
            Ok(v) => v,
            Err(e) => {
                return Err(e);
            },
        };
        let ghost rest = index_children(
            data@,
            pos + used + 2,
            page_end as int,
            (num_entries - i - 1) as nat,
        );
        let ghost before = children@;
        pos = pos + used + 2;
        i += 1;
        children.push(child);
        proof {
            if let Ok(s) = rest {
                assert(before + (seq![child] + s) =~= children@ + s);
            }
        }
    }
    assert(children@ + Seq::<u16>::empty() =~= children@);
    Ok(children)
}

/// Walks the directory B-tree and appends the entries of its leaf pages.
fn collect_leaf_entries(
    data: &[u8],
    pages_start: u64,
    page_size: u16,
    page_index: u16,
    levels_remaining: u16,
    files: &mut Vec<InternalFile>,
) -> (r: Result<(), Error>)
    requires
        pages_start <= 0x1_0000_0000_0000,
        levels_remaining >= 1,
    ensures
        match r {
            Ok(_) => prefixed(
                views(old(files)@),
                directory_below(
                    data@,
                    pages_start as int,
                    page_size,
                    page_index,
                    levels_remaining as nat,
                ),
            ) == Ok::<Seq<InternalFileView>, ErrorView>(views(final(files)@)),
            Err(e) => directory_below(
                data@,
                pages_start as int,
                page_size,
                page_index,
                levels_remaining as nat,
            ) == Err::<Seq<InternalFileView>, ErrorView>(e@),
        },
    decreases levels_remaining,
{
    let ghost leaf = |p: u16| leaf_page(data@, page_at(pages_start as int, page_size, p), page_size);
    let ghost index = |p: u16|
        index_page(data@, page_at(pages_start as int, page_size, p), page_size);
    let at: u64 = page_offset(pages_start, page_size, page_index);
    if levels_remaining == 1 {
        return parse_leaf_page(data, at, page_size, files);
    }
    let children: Vec<u16> = match parse_index_page(data, at, page_size) {
        Ok(v) => v,
        Err(e) => {
            return Err(e);
        },
    };
    let ghost before = views(files@);
    let ghost below: Seq<InternalFileView> = Seq::empty();
    let ghost levels = (levels_remaining - 1) as nat;
    let mut i: usize = 0;
    assert(children@.take(0) =~= Seq::empty());
    assert(views(files@) =~= before + below);
    while i < children.len()
        invariant
            i <= children@.len(),
            pages_start <= 0x1_0000_0000_0000,
            levels_remaining >= 2,
            levels == levels_remaining - 1,
            leaf == (|p: u16|
                leaf_page(data@, page_at(pages_start as int, page_size, p), page_size)),
            index == (|p: u16|
                index_page(data@, page_at(pages_start as int, page_size, p), page_size)),
            index(page_index) == Ok::<Seq<u16>, ErrorView>(children@),
            views(files@) == before + below,
            walk_all(leaf, index, children@.take(i as int), levels) == Ok::<
                Seq<InternalFileView>,
                ErrorView,
            >(below),
        decreases children@.len() - i,
    {
        let child: u16 = children[i];
        let ghost upto = children@.take(i + 1);
        assert(upto.drop_last() =~= children@.take(i as int));
        assert(upto.last() == child);
        match collect_leaf_entries(
            data,
            pages_start,
            page_size,
            child,
            levels_remaining - 1,
            files,
        ) {
            Ok(_) => {},
            Err(e) => {
                proof {
                    lemma_walk_all_prefix_error(leaf, index, children@, levels, i + 1);
                }
                return Err(e);
            },
        }
        proof {
            let more = walk(leaf, index, child, levels)->Ok_0;
            assert(before + (below + more) =~= before + below + more);
            below = below + more;
        }
        i += 1;
    }
    assert(children@.take(i as int) =~= children@);
    Ok(())
}

/// Parses the internal directory: its entries, in order.
pub fn parse_directory(data: &[u8], dir_offset: u32) -> (r: Result<Vec<InternalFile>, Error>)
    ensures
        match r {
            Ok(files) => directory_result(data@, dir_offset as int) == Ok::<
                Seq<InternalFileView>,
                ErrorView,
            >(views(files@)),
            Err(e) => directory_result(data@, dir_offset as int) == Err::<
                Seq<InternalFileView>,
                ErrorView,
            >(e@),
        },
{
    let tree_offset: u64 = dir_offset as u64 + INTERNAL_FILE_HEADER_SIZE as u64;
    if (data.len() as u64) < tree_offset + BTREE_HEADER_SIZE as u64 {
        return Err(
            new_parse_error(dir_offset as u64, "directory too small for B-tree header"),
        );
    }
    let tree: usize = tree_offset as usize;
    let magic: u16 = u16_at(data, tree);
    if magic != BTREE_MAGIC {
        let mut detail: String = "bad B-tree magic: expected 0x293B, got 0x".to_owned();
        push_hex_padded(&mut detail, magic as u64, 4);
        return Err(new_bad_file("(directory)", detail.as_str()));
    }
    let page_size: u16 = u16_at(data, tree + 0x04);
    let root_page: u16 = u16_at(data, tree + 0x1A);
    let num_pages: u16 = u16_at(data, tree + 0x1E);
    let num_levels: u16 = u16_at(data, tree + 0x20);
    let mut files: Vec<InternalFile> = Vec::new();
    assert(views(files@) =~= Seq::empty());
    if num_levels == 0 || num_pages == 0 {
        return Ok(files);
    }
    match collect_leaf_entries(
        data,
        tree_offset + BTREE_HEADER_SIZE as u64,
        page_size,
        root_page,
        num_levels,
        &mut files,
    ) {
        Ok(_) => {
            proof {
                let s = directory_result(data@, dir_offset as int)->Ok_0;
                assert(Seq::<InternalFileView>::empty() + s =~= s);
            }
            Ok(files)
        },
        Err(e) => Err(e),
    }
}

/// Reads the data of the internal file at `offset` (after the 9-byte header).
pub fn read_internal_file_data(data: &[u8], name: &str, offset: u64) -> (r: Result<Vec<u8>, Error>)
    ensures
        match r {
            Ok(v) => file_data(data@, name@, offset as int) == Ok::<Seq<u8>, ErrorView>(v@),
            Err(e) => file_data(data@, name@, offset as int) == Err::<Seq<u8>, ErrorView>(e@),
        },
{
    let len: u64 = data.len() as u64;
    if offset > len || len - offset < INTERNAL_FILE_HEADER_SIZE as u64 {
        return Err(new_bad_file(name, "offset extends past end of file"));
    }
    let start: u64 = offset + INTERNAL_FILE_HEADER_SIZE as u64;
    let used_space: u32 = u32_at(data, offset as usize + 4);
    if used_space as u64 > len - start {
        let mut detail: String = "internal file data (".to_owned();
        push_decimal(&mut detail, used_space as u64);
        push_str(&mut detail, " bytes at 0x");
        push_hex_upper(&mut detail, start);
        push_str(&mut detail, ") extends past EOF");
        return Err(new_bad_file(name, detail.as_str()));
    }
    Ok(vstd::slice::slice_to_vec(vstd::slice::slice_subrange(data, start as usize, start as usize + used_space as usize)))
}

/// Reads the internal file at `offset` including its header.
pub fn read_internal_file_raw(data: &[u8], name: &str, offset: u64) -> (r: Result<Vec<u8>, Error>)
    ensures
        match r {
            Ok(v) => file_raw(data@, name@, offset as int) == Ok::<Seq<u8>, ErrorView>(v@),
            Err(e) => file_raw(data@, name@, offset as int) == Err::<Seq<u8>, ErrorView>(e@),
        },
{
    let len: u64 = data.len() as u64;
    if offset > len || len - offset < INTERNAL_FILE_HEADER_SIZE as u64 {
        return Err(new_bad_file(name, "offset extends past end of file"));
    }
    let used_space: u32 = u32_at(data, offset as usize + 4);
    let total: u64 = INTERNAL_FILE_HEADER_SIZE as u64 + used_space as u64;
    if total > len - offset {
        let mut detail: String = "internal file (".to_owned();
        push_decimal(&mut detail, total);
        push_str(&mut detail, " bytes at 0x");
        push_hex_upper(&mut detail, offset);
        push_str(&mut detail, ") extends past EOF");
        return Err(new_bad_file(name, detail.as_str()));
    }
    Ok(vstd::slice::slice_to_vec(vstd::slice::slice_subrange(data, offset as usize, offset as usize + total as usize)))
}

impl HlpContainer {
    /// Parses an HLP container from the bytes of the file.
    pub fn from_bytes(data: Vec<u8>) -> (r: Result<Self, Error>)
        ensures
            match r {
                Ok(c) => container_result(data@) == Ok::<ContainerView, ErrorView>(c@),
                Err(e) => container_result(data@) == Err::<ContainerView, ErrorView>(e@),
            },
    {
        let header: HlpHeader = match parse_header(data.as_slice()) {
            Ok(h) => h,
            Err(e) => {
                return Err(e);
            },
        };
        match parse_directory(data.as_slice(), header.directory_start) {
            Ok(files) => Ok(HlpContainer { data, files }),
            Err(e) => Err(e),
        }
    }

    /// Lists all internal files in directory order.
    pub fn list_files(&self) -> (r: &[InternalFile])
        ensures
            views(r@) == self@.files,
    {
        self.files.as_slice()
    }

    /// The offset of the internal file with the given name.
    fn find(&self, name: &str) -> (r: Option<u64>)
        ensures
            r == lookup(self@.files, name@),
    {
        let mut i: usize = self.files.len();
        let wanted: String = name.to_owned();
        assert(self@.files.take(i as int) =~= self@.files);
        while i > 0
            invariant
                i <= self.files@.len(),
                wanted@ == name@,
                self@.files == views(self.files@),
                lookup(self@.files.take(i as int), name@) == lookup(self@.files, name@),
            decreases i,
        {
            let ghost upto = self@.files.take(i as int);
            assert(upto.drop_last() =~= self@.files.take(i - 1));
            i -= 1;
            if self.files[i].name == wanted {
                return Some(self.files[i].offset);
            }
        }
        None
    }

    /// Reads the data of an internal file by name, without the 9-byte header
    /// that holds its sizes and flags.
    pub fn read_file(&self, name: &str) -> (r: Result<Vec<u8>, Error>)
        ensures
            match r {
                Ok(v) => read_result(self@, name@) == Ok::<Seq<u8>, ErrorView>(v@),
                Err(e) => read_result(self@, name@) == Err::<Seq<u8>, ErrorView>(e@),
            },
    {
        match self.find(name) {
            None => Err(Error::FileNotFound(name.to_owned())),
            Some(offset) => read_internal_file_data(self.data.as_slice(), name, offset),
        }
    }

    /// Reads an internal file by name including its header, up to the size
    /// that the header declares.
    pub fn read_file_raw(&self, name: &str) -> (r: Result<Vec<u8>, Error>)
        ensures
            match r {
                Ok(v) => read_raw_result(self@, name@) == Ok::<Seq<u8>, ErrorView>(v@),
                Err(e) => read_raw_result(self@, name@) == Err::<Seq<u8>, ErrorView>(e@),
            },
    {
        match self.find(name) {
            None => Err(Error::FileNotFound(name.to_owned())),
            Some(offset) => read_internal_file_raw(self.data.as_slice(), name, offset),
        }
    }
}

} // verus!
