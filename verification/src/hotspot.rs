//! Segmented hypergraphics: pictures with clickable regions.
//!
//! Behind the payload of its picture, an MRB container may hold a hotspot
//! block:
//!
//! ```text
//! u8  magic = 0x01
//! u16 num_hotspots
//! u32 macro_size
//! Hotspot[num_hotspots]   (15 bytes each: id0, id1, id2, x, y, w, h, hash)
//! u8  macro_data[macro_size]
//! { STRINGZ name; STRINGZ target; }[num_hotspots]
//! ```

use vstd::prelude::*;

use crate::bitmap::{
    bitmap_header, colors_of_bits, dib_colors, find_first_picture, first_picture, is_mrb,
    is_mrb_container, metafile_header, mrb_bmp, mrb_to_bmp, mrb_to_wmf, mrb_wmf, part_at,
    read_bitmap_header, read_metafile_header, MRB_TYPE_DDB, MRB_TYPE_DIB, MRB_TYPE_METAFILE,
};
use crate::bytes::{find_nul, le16, le32, nul_from, text_between, text_of, u16_at, u32_at};
use crate::views::{lemma_views_push, views};

verus! {

/// Size of a hotspot record.
pub const HOTSPOT_RECORD_LEN: usize = 15;

/// The byte at the start of a hotspot block.
pub const HOTSPOT_BLOCK_MAGIC: u8 = 0x01;

/// A rectangle in pixels: its upper left corner and its size.
#[derive(Debug, Clone, Copy, PartialEq, Eq, Structural)]
pub struct HotspotRect {
    pub x: u16,
    pub y: u16,
    pub w: u16,
    pub h: u16,
}

/// What a click on a hotspot does. Ids that are not known are kept as they are.
#[derive(Debug, Clone, Copy, PartialEq, Eq, Structural)]
pub enum HotspotAction {
    /// Run a macro, visible.
    MacroVisible,
    /// Run a macro, invisible.
    MacroInvisible,
    /// Pop up a topic, visible.
    PopupJumpVisible,
    /// Jump to a topic, visible.
    TopicJumpVisible,
    /// Pop up a topic, invisible.
    PopupJumpInvisible,
    /// Jump to a topic, invisible.
    TopicJumpInvisible,
    /// Pop up a topic in another file, visible.
    ExternalPopupVisible,
    /// Jump to another file or window, visible.
    ExternalTopicVisible,
    /// Pop up a topic in another file, invisible.
    ExternalPopupInvisible,
    /// Jump to another file or window, invisible.
    ExternalTopicInvisible,
    /// Another id.
    Unknown(u8, u8, u8),
}

/// The action of an id.
pub open spec fn action_of(id0: u8, id1: u8, id2: u8) -> HotspotAction {
    if id1 == 0 && id2 == 0 && id0 == 0xC8 {
        HotspotAction::MacroVisible
    } else if id1 == 4 && id2 == 0 && id0 == 0xCC {
        HotspotAction::MacroInvisible
    } else if id1 == 0 && id2 == 0 && id0 == 0xE2 {
        HotspotAction::PopupJumpVisible
    } else if id1 == 0 && id2 == 0 && id0 == 0xE3 {
        HotspotAction::TopicJumpVisible
    } else if id1 == 4 && id2 == 0 && id0 == 0xE6 {
        HotspotAction::PopupJumpInvisible
    } else if id1 == 4 && id2 == 0 && id0 == 0xE7 {
        HotspotAction::TopicJumpInvisible
    } else if id1 == 0 && id2 == 0 && id0 == 0xEA {
        HotspotAction::ExternalPopupVisible
    } else if id1 == 0 && id2 == 0 && id0 == 0xEB {
        HotspotAction::ExternalTopicVisible
    } else if id1 == 4 && id2 == 0 && id0 == 0xEE {
        HotspotAction::ExternalPopupInvisible
    } else if id1 == 4 && id2 == 0 && id0 == 0xEF {
        HotspotAction::ExternalTopicInvisible
    } else {
        HotspotAction::Unknown(id0, id1, id2)
    }
}

impl HotspotAction {
    /// The action of an id.
    pub fn from_id(id0: u8, id1: u8, id2: u8) -> (a: Self)
        ensures
            a == action_of(id0, id1, id2),
    {
        match (id0, id1, id2) {
            (0xC8, 0x00, 0x00) => HotspotAction::MacroVisible,
            (0xCC, 0x04, 0x00) => HotspotAction::MacroInvisible,
            (0xE2, 0x00, 0x00) => HotspotAction::PopupJumpVisible,
            (0xE3, 0x00, 0x00) => HotspotAction::TopicJumpVisible,
            (0xE6, 0x04, 0x00) => HotspotAction::PopupJumpInvisible,
            (0xE7, 0x04, 0x00) => HotspotAction::TopicJumpInvisible,
            (0xEA, 0x00, 0x00) => HotspotAction::ExternalPopupVisible,
            (0xEB, 0x00, 0x00) => HotspotAction::ExternalTopicVisible,
            (0xEE, 0x04, 0x00) => HotspotAction::ExternalPopupInvisible,
            (0xEF, 0x04, 0x00) => HotspotAction::ExternalTopicInvisible,
            _ => HotspotAction::Unknown(id0, id1, id2),
        }
    }
}

/// Different ids have different actions.
pub proof fn law_actions_are_distinct(a: (u8, u8, u8), b: (u8, u8, u8))
    requires
        action_of(a.0, a.1, a.2) == action_of(b.0, b.1, b.2),
    ensures
        a == b,
{
}

/// A clickable region of a picture.
#[derive(Debug, Clone, PartialEq, Eq)]
pub struct Hotspot {
    /// Where it is.
    pub rect: HotspotRect,
    /// What a click on it does.
    pub action: HotspotAction,
    /// Context hash of its target.
    pub hash: u32,
    /// Its name.
    pub name: String,
    /// Context string, macro or file reference, as the action says.
    pub target: String,
}

/// A hotspot with its strings as sequences of characters.
pub struct HotspotView {
    pub rect: HotspotRect,
    pub action: HotspotAction,
    pub hash: u32,
    pub name: Seq<char>,
    pub target: Seq<char>,
}

impl View for Hotspot {
    type V = HotspotView;

    open spec fn view(&self) -> HotspotView {
        HotspotView {
            rect: self.rect,
            action: self.action,
            hash: self.hash,
            name: self.name@,
            target: self.target@,
        }
    }
}

// ---------------------------------------------------------------------------
// The hotspot block
// ---------------------------------------------------------------------------

/// The string at `pos` and where it ends, behind its NUL byte.
pub open spec fn stringz_at(block: Seq<u8>, pos: int) -> Option<(Seq<char>, int)> {
    if pos > block.len() || nul_from(block, pos) >= block.len() {
        None
    } else {
        Some((text_of(block.subrange(pos, nul_from(block, pos))), nul_from(block, pos) + 1))
    }
}

/// The hotspot of the record at `at` with the given strings.
pub open spec fn hotspot_at(
    block: Seq<u8>,
    at: int,
    name: Seq<char>,
    target: Seq<char>,
) -> HotspotView {
    HotspotView {
        rect: HotspotRect {
            x: le16(block, at + 3),
            y: le16(block, at + 5),
            w: le16(block, at + 7),
            h: le16(block, at + 9),
        },
        action: action_of(block[at], block[at + 1], block[at + 2]),
        hash: le32(block, at + 11),
        name,
        target,
    }
}

/// The `n` hotspots whose records start at `at` and whose strings at `pos`.
pub open spec fn hotspots_from(block: Seq<u8>, at: int, pos: int, n: nat) -> Option<
    Seq<HotspotView>,
>
    decreases n,
{
    if n == 0 {
        Some(Seq::empty())
    } else {
        match stringz_at(block, pos) {
            None => None,
            Some((name, p)) => match stringz_at(block, p) {
                None => None,
                Some((target, q)) => match hotspots_from(
                    block,
                    at + HOTSPOT_RECORD_LEN,
                    q,
                    (n - 1) as nat,
                ) {
                    None => None,
                    Some(rest) => Some(seq![hotspot_at(block, at, name, target)] + rest),
                },
            },
        }
    }
}

/// The hotspots of a block.
pub open spec fn hotspots_of(block: Seq<u8>) -> Option<Seq<HotspotView>> {
    if block.len() < 7 || block[0] != HOTSPOT_BLOCK_MAGIC {
        None
    } else {
        let n = le16(block, 1) as int;
        let strings = 7 + n * HOTSPOT_RECORD_LEN + le32(block, 3);
        if strings > block.len() {
            None
        } else {
            hotspots_from(block, 7, strings, n as nat)
        }
    }
}

/// Reads a NUL-terminated string, and moves the cursor behind it.
pub fn take_stringz(block: &[u8], cursor: &mut usize) -> (r: Option<String>)
    ensures
        match r {
            Some(s) => stringz_at(block@, *old(cursor) as int) == Some(
                (s@, *final(cursor) as int),
            ) && *final(cursor) <= block@.len(),
            None => stringz_at(block@, *old(cursor) as int) == None::<(Seq<char>, int)>
                && *final(cursor) == *old(cursor),
        },
{
    let start: usize = *cursor;
    if start > block.len() {
        return None;
    }
    let nul: usize = find_nul(block, start);
    if nul >= block.len() {
        return None;
    }
    let s: String = text_between(block, start, nul);
    *cursor = nul + 1;
    Some(s)
}

/// Decodes a hotspot block.
///
/// Gives `None` where the block is cut off, its first byte is wrong, or a
/// string does not end.
pub fn parse_hotspot_block(block: &[u8]) -> (r: Option<Vec<Hotspot>>)
    ensures
        match r {
            Some(v) => hotspots_of(block@) == Some(views(v@)),
            None => hotspots_of(block@) == None::<Seq<HotspotView>>,
        },
{
    let len: usize = block.len();
    if len < 7 {
        return None;
    }
    if block[0] != HOTSPOT_BLOCK_MAGIC {
        return None;
    }
    let n: u16 = u16_at(block, 1);
    let macro_size: u32 = u32_at(block, 3);
    let strings: u64 = 7 + (n as u64) * (HOTSPOT_RECORD_LEN as u64) + macro_size as u64;
    if strings > len as u64 {
        return None;
    }
    let mut cursor: usize = strings as usize;
    let mut out: Vec<Hotspot> = Vec::new();
    let mut i: usize = 0;
    let ghost all = hotspots_from(block@, 7, strings as int, n as nat);
    proof {
        assert(views(out@) =~= Seq::empty());
        if let Some(s) = all {
            assert(Seq::<HotspotView>::empty() + s =~= s);
        }
    }
    while i < n as usize
        invariant
            i <= n,
            len == block@.len(),
            7 + n * HOTSPOT_RECORD_LEN <= len,
            all == hotspots_of(block@),
            match hotspots_from(
                block@,
                7 + i * HOTSPOT_RECORD_LEN,
                cursor as int,
                (n - i) as nat,
            ) {
                Some(rest) => all == Some(views(out@) + rest),
                None => all == None::<Seq<HotspotView>>,
            },
        decreases n - i,
    {
        let at: usize = 7 + i * HOTSPOT_RECORD_LEN;
        let name: String = match take_stringz(block, &mut cursor) {
            Some(s) => s,
            None => {
                return None;
            },
        };
        let target: String = match take_stringz(block, &mut cursor) {
            Some(s) => s,
            None => {
                return None;
            },
        };
        let hotspot = Hotspot {
            rect: HotspotRect {
                x: u16_at(block, at + 3),
                y: u16_at(block, at + 5),
                w: u16_at(block, at + 7),
                h: u16_at(block, at + 9),
            },
            action: HotspotAction::from_id(block[at], block[at + 1], block[at + 2]),
            hash: u32_at(block, at + 11),
            name,
            target,
        };
        proof {
            lemma_views_push(out@, hotspot);
            let rest = hotspots_from(
                block@,
                at as int + HOTSPOT_RECORD_LEN,
                cursor as int,
                (n - i - 1) as nat,
            );
            if let Some(s) = rest {
                assert(views(out@) + (seq![hotspot@] + s) =~= views(out@.push(hotspot)) + s);
            }
        }
        out.push(hotspot);
        i += 1;
    }
    assert(views(out@) + Seq::<HotspotView>::empty() =~= views(out@));
    Some(out)
}

// ---------------------------------------------------------------------------
// Pictures with hotspots
// ---------------------------------------------------------------------------

/// Where the hotspot block of the first picture starts, behind its palette and
/// its payload, and how long it is.
pub open spec fn hotspot_span(data: Seq<u8>) -> Option<(int, int)> {
    match first_picture(data) {
        None => None,
        Some(at) => if at + 2 > data.len() {
            None
        } else if data[at] == MRB_TYPE_DIB || data[at] == MRB_TYPE_DDB {
            match bitmap_header(data, at + 2) {
                None => None,
                Some((header, start)) => Some(
                    (
                        start + header.data_size + (if data[at] == MRB_TYPE_DIB {
                            4 * dib_colors(header)
                        } else {
                            0
                        }),
                        header.hotspot_size as int,
                    ),
                ),
            }
        } else if data[at] == MRB_TYPE_METAFILE {
            match metafile_header(data, at + 2) {
                None => None,
                Some((header, start)) => Some(
                    (start + header.data_size, header.hotspot_size as int),
                ),
            }
        } else {
            None
        },
    }
}

/// The hotspot block of the first picture, where there is one.
pub open spec fn hotspot_block(data: Seq<u8>) -> Option<Seq<u8>> {
    match hotspot_span(data) {
        None => None,
        Some((start, size)) => if size == 0 {
            None
        } else {
            part_at(data, start, size)
        },
    }
}

/// The image of the first picture: its BMP file or its metafile.
pub open spec fn first_image(data: Seq<u8>) -> Option<Seq<u8>> {
    match mrb_bmp(data) {
        Some(bmp) => Some(bmp),
        None => mrb_wmf(data),
    }
}

/// The image and the hotspots of a picture file. Without a hotspot block there
/// are no hotspots; a malformed one makes the file malformed.
pub open spec fn shg_result(data: Seq<u8>) -> Option<(Seq<u8>, Seq<HotspotView>)> {
    if !is_mrb(data) {
        None
    } else {
        match first_image(data) {
            None => None,
            Some(image) => match hotspot_span(data) {
                None => Some((image, Seq::empty())),
                Some((start, size)) => if size == 0 {
                    Some((image, Seq::empty()))
                } else {
                    match part_at(data, start, size) {
                        None => None,
                        Some(block) => match hotspots_of(block) {
                            None => None,
                            Some(hotspots) => Some((image, hotspots)),
                        },
                    }
                },
            },
        }
    }
}

/// Finds the hotspot block of the first picture: where the picture header
/// ends, how many bytes lie between, and how long the block is.
fn find_hotspot_span(data: &[u8]) -> (r: Option<(usize, u64, u32)>)
    ensures
        match r {
            Some((end, skip, size)) => hotspot_span(data@) == Some((end + skip, size as int))
                && end <= data@.len(),
            None => hotspot_span(data@) == None::<(int, int)>,
        },
{
    let at: usize = match find_first_picture(data) {
        Some(at) => at,
        None => {
            return None;
        },
    };
    if data.len() - at < 2 {
        return None;
    }
    let kind: u8 = data[at];
    if kind == MRB_TYPE_DIB || kind == MRB_TYPE_DDB {
        match read_bitmap_header(data, at + 2) {
            Some((header, end)) => {
                let colors: u32 = if kind == MRB_TYPE_DDB || header.bit_count > 8 {
                    0
                } else if header.clr_used == 0 {
                    colors_of_bits(header.bit_count as u16)
                } else {
                    header.clr_used
                };
                Some(
                    (
                        end,
                        header.data_size as u64 + 4 * (colors as u64),
                        header.hotspot_size,
                    ),
                )
            },
            None => None,
        }
    } else if kind == MRB_TYPE_METAFILE {
        match read_metafile_header(data, at + 2) {
            Some((header, end)) => Some((end, header.data_size as u64, header.hotspot_size)),
            None => None,
        }
    } else {
        None
    }
}

/// The part of `data` of the given size that starts `skip` bytes behind `end`.
fn part_behind(data: &[u8], end: usize, skip: u64, size: u32) -> (r: Option<&[u8]>)
    requires
        end <= data@.len(),
    ensures
        match r {
            Some(part) => part_at(data@, end + skip, size as int) == Some(part@),
            None => part_at(data@, end + skip, size as int) == None::<Seq<u8>>,
        },
{
    let room: u64 = (data.len() - end) as u64;
    if skip > room || size as u64 > room - skip {
        return None;
    }
    let start: usize = end + skip as usize;
    Some(vstd::slice::slice_subrange(data, start, start + size as usize))
}

/// The hotspot block of the first picture of an MRB container.
///
/// Gives `None` where the container is malformed or has no hotspots. The block
/// is behind the payload of the picture; the offset in the picture header does
/// not count.
pub fn extract_hotspot_bytes(data: &[u8]) -> (r: Option<&[u8]>)
    ensures
        match r {
            Some(block) => hotspot_block(data@) == Some(block@),
            None => hotspot_block(data@) == None::<Seq<u8>>,
        },
{
    match find_hotspot_span(data) {
        Some((end, skip, size)) => {
            if size == 0 {
                None
            } else {
                part_behind(data, end, skip, size)
            }
        },
        None => None,
    }
}

/// Parses a picture with hotspots: the image and the hotspots.
///
/// The image is what the picture decodes to, a BMP file or a placeable
/// metafile. Gives `None` where the data is no MRB container, its first
/// picture cannot be decoded, or the hotspot block is cut off or malformed. A
/// picture without a hotspot block has no hotspots.
pub fn parse_shg(data: &[u8]) -> (r: Option<(Vec<u8>, Vec<Hotspot>)>)
    ensures
        match r {
            Some((image, hotspots)) => shg_result(data@) == Some((image@, views(hotspots@))),
            None => shg_result(data@) == None::<(Seq<u8>, Seq<HotspotView>)>,
        },
{
    if !is_mrb_container(data) {
        return None;
    }
    let image: Vec<u8> = match mrb_to_bmp(data) {
        Some(bmp) => bmp,
        None => match mrb_to_wmf(data) {
            Some(wmf) => wmf,
            None => {
                return None;
            },
        },
    };
    let none: Vec<Hotspot> = Vec::new();
    assert(views(none@) =~= Seq::empty());
    match find_hotspot_span(data) {
        Some((end, skip, size)) => {
            if size == 0 {
                return Some((image, none));
            }
            match part_behind(data, end, skip, size) {
                Some(block) => match parse_hotspot_block(block) {
                    Some(hotspots) => Some((image, hotspots)),
                    None => None,
                },
                None => None,
            }
        },
        None => Some((image, none)),
    }
}

/// The image of a picture with hotspots is the image of the same file without
/// regard to them.
pub proof fn law_hotspots_do_not_change_the_image(data: Seq<u8>)
    ensures
        shg_result(data) matches Some((image, _)) ==> image == crate::bitmap::image_of(data),
{
}

/// A block has as many hotspots as it says.
pub proof fn law_hotspot_count(block: Seq<u8>)
    ensures
        hotspots_of(block) matches Some(hotspots) ==> hotspots.len() == le16(block, 1),
{
    if hotspots_of(block) is Some {
        let n = le16(block, 1) as int;
        lemma_hotspot_count(block, 7, 7 + n * HOTSPOT_RECORD_LEN + le32(block, 3), n as nat);
    }
}

proof fn lemma_hotspot_count(block: Seq<u8>, at: int, pos: int, n: nat)
    ensures
        hotspots_from(block, at, pos, n) matches Some(hotspots) ==> hotspots.len() == n,
    decreases n,
{
    if n > 0 {
        if let Some((_, p)) = stringz_at(block, pos) {
            if let Some((_, q)) = stringz_at(block, p) {
                lemma_hotspot_count(block, at + HOTSPOT_RECORD_LEN, q, (n - 1) as nat);
            }
        }
    }
}

} // verus!
