//! Topic text: from the records of the topic stream to blocks.
//!
//! A text record has two streams. The first holds commands behind a paragraph
//! header, the second holds NUL-delimited strings ("segments"). A command that
//! emits text takes the next segment.
//!
//! # Paragraph header
//!
//! ```text
//! long    unknown
//! word    character count
//! 4 bytes unknown
//! u16     flags
//! flag 0x0001: long             (topic offset)
//! flags 0x0002 to 0x0040: int   (spacing and indents)
//! flag 0x0100: 3 bytes          (border)
//! flag 0x0200: int count, then count tab stops:
//!     word x, and another word where x has the bit 0x4000
//! ```
//!
//! # Commands
//!
//! | byte         | parameters          | meaning                                  |
//! |--------------|---------------------|------------------------------------------|
//! | `0x80`       | u16 font            | emit a segment, then change the font     |
//! | `0x81`       |                     | emit a segment, then a hard newline      |
//! | `0x82`       |                     | emit a segment, then end the paragraph   |
//! | `0x83`       |                     | emit a segment, then a tab               |
//! | `0x86`-`0x88`| type, long, payload | an image: inline, left, right            |
//! | `0x89`       |                     | end a link, with a segment as its text   |
//! | `0xE3` `0xCC`| u32 hash            | start a jump link                        |
//! | `0xE6` `0xC8`| u32 hash            | start a popup link                       |
//! | `0xFF`       |                     | end of the record                        |
//!
//! A line break does not end the paragraph: it is a newline in its text.

use std::collections::HashMap;

use vstd::prelude::*;

use crate::bytes::{find_nul, le16, lemma_nul_from, nul_from, text_between, text_of, u16_at};
use crate::font::FontTable;
use crate::model::{
    blocks_view, inlines_view, lemma_blocks_push, lemma_inlines_push, Block, BlockView,
    ImagePlacement, ImageRef, ImageRefView, Inline, InlineView, LinkKind,
};
use crate::scan::{
    int_at, long_at, read_u32_le, scan_int, scan_long, scan_word, u32_padded, word_at,
};
use crate::text::{decimal, hex_upper, push_decimal, push_hex_padded, push_str, zero_padded};
use crate::views::{lemma_views_push, views};
use crate::Error;

verus! {

broadcast use vstd::std_specs::hash::group_hash_axioms;

pub const OP_FONT_CHANGE: u8 = 0x80;

pub const OP_LINE_BREAK: u8 = 0x81;

pub const OP_END_PARAGRAPH: u8 = 0x82;

pub const OP_TAB: u8 = 0x83;

pub const OP_IMAGE_CENTER: u8 = 0x86;

pub const OP_IMAGE_LEFT: u8 = 0x87;

pub const OP_IMAGE_RIGHT: u8 = 0x88;

pub const OP_LINK_END: u8 = 0x89;

pub const OP_POPUP_LINK_HASH_ALT: u8 = 0xC8;

pub const OP_JUMP_LINK_HASH_ALT: u8 = 0xCC;

pub const OP_JUMP_LINK_HASH: u8 = 0xE3;

pub const OP_POPUP_LINK_HASH: u8 = 0xE6;

pub const OP_END_OF_RECORD: u8 = 0xFF;

/// Image type: picture of the 3.1 help compiler.
pub const IMAGE_TYPE_HC31: u8 = 0x22;

/// Image type: picture of the 3.0 help compiler.
pub const IMAGE_TYPE_HC30: u8 = 0x03;

/// Image type: embedded window.
pub const IMAGE_TYPE_EMBEDDED_WINDOW: u8 = 0x05;

// ---------------------------------------------------------------------------
// The paragraph header
// ---------------------------------------------------------------------------

/// Where `n` tab stops end.
pub open spec fn tabs_end(data: Seq<u8>, pos: int, n: nat) -> int
    decreases n,
{
    if n == 0 {
        pos
    } else {
        let before = tabs_end(data, pos, (n - 1) as nat);
        let (x, next) = word_at(data, before);
        if (x / 0x4000) % 2 == 1 {
            word_at(data, next).1
        } else {
            next
        }
    }
}

/// Where the integers end that the flags from bit `k` up to bit 6 announce.
pub open spec fn ints_end(data: Seq<u8>, pos: int, flags: int, k: int) -> int
    decreases 7 - k,
{
    if k > 6 {
        pos
    } else {
        ints_end(
            data,
            if (flags / (vstd::arithmetic::power2::pow2(k as nat) as int)) % 2 == 1 {
                int_at(data, pos).1
            } else {
                pos
            },
            flags,
            k + 1,
        )
    }
}

/// The smaller of two numbers.
pub open spec fn least(a: int, b: int) -> int {
    if a <= b {
        a
    } else {
        b
    }
}

/// Where the commands of a text record start.
pub open spec fn commands_start(data: Seq<u8>) -> int {
    let flags_at = word_at(data, long_at(data, 0).1).1 + 4;
    if flags_at + 2 > data.len() {
        data.len() as int
    } else {
        let flags = le16(data, flags_at) as int;
        let p0 = flags_at + 2;
        let p1 = if flags % 2 == 1 {
            long_at(data, p0).1
        } else {
            p0
        };
        let p2 = ints_end(data, p1, flags, 1);
        let p3 = if (flags / 0x100) % 2 == 1 {
            least(p2 + 3, data.len() as int)
        } else {
            p2
        };
        if (flags / 0x200) % 2 == 1 {
            let (n, p4) = int_at(data, p3);
            tabs_end(
                data,
                p4,
                if n > 0 {
                    n as nat
                } else {
                    0
                },
            )
        } else {
            p3
        }
    }
}

/// The character count of a text record: the number by which it moves the
/// topic offset.
pub fn topic_offset_delta(link_data1: &[u8]) -> (n: u16)
    ensures
        n == word_at(link_data1@, long_at(link_data1@, 0).1).0,
{
    let mut p: usize = 0;
    let _ = scan_long(link_data1, &mut p);
    scan_word(link_data1, &mut p)
}

/// Skips the integers that the flags announce.
fn skip_ints(data: &[u8], pos: &mut usize, flags: u16)
    requires
        *old(pos) <= data@.len(),
    ensures
        *final(pos) == ints_end(data@, *old(pos) as int, flags as int, 1),
        *final(pos) <= data@.len(),
{
    let mut k: u8 = 1;
    let mut unit: u16 = 2;
    proof {
        vstd::arithmetic::power2::lemma2_to64();
    }
    while k <= 6
        invariant
            1 <= k <= 7,
            unit == vstd::arithmetic::power2::pow2(k as nat),
            2 <= unit <= 128,
            *pos <= data@.len(),
            ints_end(data@, *pos as int, flags as int, k as int) == ints_end(
                data@,
                *old(pos) as int,
                flags as int,
                1,
            ),
        decreases 7 - k,
    {
        if (flags / unit) % 2 == 1 {
            let _ = scan_int(data, pos);
        }
        proof {
            vstd::arithmetic::power2::lemma2_to64();
            vstd::arithmetic::power2::lemma_pow2_unfold((k + 1) as nat);
            assert(k == 1 || k == 2 || k == 3 || k == 4 || k == 5 || k == 6);
        }
        unit = unit * 2;
        k += 1;
    }
}

/// Finds the start of the commands in a text record.
pub fn find_command_stream_start(ld1: &[u8]) -> (p: usize)
    ensures
        p == commands_start(ld1@),
        p <= ld1@.len(),
{
    let len: usize = ld1.len();
    let mut p: usize = 0;
    let _ = scan_long(ld1, &mut p);
    let _ = scan_word(ld1, &mut p);
    if len - p < 6 {
        return len;
    }
    let flags: u16 = u16_at(ld1, p + 4);
    p = p + 6;
    if flags % 2 == 1 {
        let _ = scan_long(ld1, &mut p);
    }
    skip_ints(ld1, &mut p, flags);
    if (flags / 0x100) % 2 == 1 {
        p = if len - p >= 3 {
            p + 3
        } else {
            len
        };
    }
    if (flags / 0x200) % 2 == 1 {
        let n: i16 = scan_int(ld1, &mut p);
        let ghost start = p;
        let mut i: i16 = 0;
        while i < n
            invariant
                0 <= i,
                n > 0 ==> i <= n,
                n <= 0 ==> i == 0,
                p <= ld1@.len(),
                p == tabs_end(ld1@, start as int, i as nat),
            decreases n - i,
        {
            let x: u16 = scan_word(ld1, &mut p);
            if (x / 0x4000) % 2 == 1 {
                let _ = scan_word(ld1, &mut p);
            }
            i += 1;
        }
    }
    p
}

// ---------------------------------------------------------------------------
// Segments
// ---------------------------------------------------------------------------

/// The segments from `pos` on: what lies between NUL bytes.
pub open spec fn segments_from(data: Seq<u8>, pos: int) -> Seq<Seq<char>>
    decreases data.len() + 1 - pos,
{
    if pos < 0 || pos > data.len() {
        Seq::empty()
    } else {
        let end = nul_from(data, pos);
        proof {
            lemma_nul_from(data, pos);
        }
        seq![text_of(data.subrange(pos, end))] + segments_from(data, end + 1)
    }
}

/// Splits the text of a record at its NUL bytes.
pub fn split_segments(link_data2: &[u8]) -> (segments: Vec<String>)
    ensures
        views(segments@) == segments_from(link_data2@, 0),
{
    let mut segments: Vec<String> = Vec::new();
    let len: usize = link_data2.len();
    let mut pos: usize = 0;
    let ghost all = segments_from(link_data2@, 0);
    assert(views(segments@) + all =~= all);
    loop
        invariant
            pos <= len,
            len == link_data2@.len(),
            all == segments_from(link_data2@, 0),
            all == views(segments@) + segments_from(link_data2@, pos as int),
        decreases len - pos,
    {
        let end: usize = find_nul(link_data2, pos);
        let s: String = text_between(link_data2, pos, end);
        proof {
            lemma_views_push(segments@, s);
            let rest = segments_from(link_data2@, end + 1);
            assert(views(segments@) + (seq![s@] + rest) =~= views(segments@.push(s)) + rest);
        }
        segments.push(s);
        if end >= len {
            proof {
                let none = segments_from(link_data2@, end + 1);
                assert(views(segments@) + none =~= views(segments@));
            }
            return segments;
        }
        pos = end + 1;
    }
}

/// Segment `i`; the empty string where there are fewer.
pub open spec fn segment(segs: Seq<Seq<char>>, i: int) -> Seq<char> {
    if 0 <= i < segs.len() {
        segs[i]
    } else {
        Seq::empty()
    }
}

/// Hands out segments one by one, and empty strings after the last.
pub struct SegCursor<'a> {
    segs: &'a [String],
    idx: usize,
}

impl<'a> SegCursor<'a> {
    /// The segments.
    pub closed spec fn segs(&self) -> Seq<Seq<char>> {
        views(self.segs@)
    }

    /// How many segments have been handed out.
    pub closed spec fn taken(&self) -> int {
        self.idx as int
    }

    /// No more segments have been handed out than there are.
    pub closed spec fn wf(&self) -> bool {
        self.idx <= self.segs@.len()
    }

    /// A cursor before the first segment.
    pub fn new(segs: &'a [String]) -> (c: Self)
        ensures
            c.wf(),
            c.segs() == views(segs@),
            c.taken() == 0,
    {
        SegCursor { segs, idx: 0 }
    }

    /// The next segment.
    pub fn next(&mut self) -> (s: &'a str)
        requires
            old(self).wf(),
        ensures
            final(self).wf(),
            final(self).segs() == old(self).segs(),
            s@ == segment(old(self).segs(), old(self).taken()),
            final(self).taken() == least(
                old(self).taken() + 1,
                old(self).segs().len() as int,
            ),
    {
        if self.idx < self.segs.len() {
            let s: &'a str = self.segs[self.idx].as_str();
            self.idx = self.idx + 1;
            s
        } else {
            proof {
                reveal_strlit("");
                assert(""@ =~= Seq::empty());
            }
            ""
        }
    }
}

// ---------------------------------------------------------------------------
// The state
// ---------------------------------------------------------------------------

/// What has been read so far.
pub struct StateView {
    pub blocks: Seq<BlockView>,
    pub current: Seq<InlineView>,
    pub bold: bool,
    pub italic: bool,
    pub in_link: bool,
    pub link_kind: LinkKind,
    pub link_hash: u32,
}

/// Nothing has been read.
pub open spec fn start_state() -> StateView {
    StateView {
        blocks: Seq::empty(),
        current: Seq::empty(),
        bold: false,
        italic: false,
        in_link: false,
        link_kind: LinkKind::Jump,
        link_hash: 0,
    }
}

/// An element in the given style.
pub open spec fn styled(inner: InlineView, bold: bool, italic: bool) -> InlineView {
    let slanted = if italic {
        InlineView::Italic(seq![inner])
    } else {
        inner
    };
    if bold {
        InlineView::Bold(seq![slanted])
    } else {
        slanted
    }
}

/// A paragraph with one more element; text behind text becomes one text.
pub open spec fn merged(current: Seq<InlineView>, inline: InlineView) -> Seq<InlineView> {
    match inline {
        InlineView::Text(new) => if current.len() > 0 {
            match current.last() {
                InlineView::Text(prev) => current.drop_last().push(InlineView::Text(prev + new)),
                _ => current.push(inline),
            }
        } else {
            current.push(inline)
        },
        _ => current.push(inline),
    }
}

/// The state after a text in the current style. The empty text changes nothing.
pub open spec fn with_text(st: StateView, text: Seq<char>) -> StateView {
    if text.len() == 0 {
        st
    } else {
        StateView {
            current: merged(st.current, styled(InlineView::Text(text), st.bold, st.italic)),
            ..st
        }
    }
}

/// The state after plain text.
pub open spec fn with_plain(st: StateView, text: Seq<char>) -> StateView {
    StateView { current: merged(st.current, InlineView::Text(text)), ..st }
}

/// The state after the end of a paragraph. An empty paragraph is none.
pub open spec fn with_paragraph_end(st: StateView) -> StateView {
    if st.current.len() == 0 {
        st
    } else {
        StateView {
            blocks: st.blocks.push(BlockView::Paragraph(st.current)),
            current: Seq::empty(),
            ..st
        }
    }
}

/// The context string of a hash; its hexadecimal form where none is known.
pub open spec fn target_of(targets: Map<u32, Seq<char>>, hash: u32) -> Seq<char> {
    if targets.contains_key(hash) {
        targets[hash]
    } else {
        "0x"@ + zero_padded(hex_upper(hash as nat), 8)
    }
}

/// The state after the end of a link with the given text. A link without text
/// shows its target.
pub open spec fn with_link(
    st: StateView,
    text: Seq<char>,
    targets: Map<u32, Seq<char>>,
) -> StateView {
    let target = target_of(targets, st.link_hash);
    StateView {
        in_link: false,
        current: st.current.push(
            InlineView::Link {
                text: seq![
                    InlineView::Text(
                        if text.len() == 0 {
                            target
                        } else {
                            text
                        },
                    ),
                ],
                target,
                kind: st.link_kind,
            },
        ),
        ..st
    }
}

/// The state after an image, which is a block of its own.
pub open spec fn with_image(
    st: StateView,
    filename: Seq<char>,
    placement: ImagePlacement,
) -> StateView {
    let ended = with_paragraph_end(st);
    StateView {
        blocks: ended.blocks.push(BlockView::Image(ImageRefView { filename, placement })),
        ..ended
    }
}

/// The name of the picture that the bytes at `pos` refer to, where it is an
/// internal file.
pub open spec fn bitmap_name(cmd: Seq<u8>, pos: int) -> Option<Seq<char>> {
    if pos + 4 > cmd.len() || le16(cmd, pos) != 0 {
        None
    } else {
        Some("|bm"@ + decimal(le16(cmd, pos + 2) as nat))
    }
}

/// The image command at `pos`: the name of its picture, where it has one, and
/// where the command ends.
pub open spec fn image_at(cmd: Seq<u8>, pos: int) -> Option<(Option<Seq<char>>, int)> {
    if pos + 2 >= cmd.len() {
        None
    } else {
        let (size, start) = long_at(cmd, pos + 2);
        let name = if cmd[pos + 1] == IMAGE_TYPE_HC31 {
            bitmap_name(cmd, word_at(cmd, start).1)
        } else if cmd[pos + 1] == IMAGE_TYPE_HC30 {
            bitmap_name(cmd, start)
        } else {
            None
        };
        Some((name, least(start + size, cmd.len() as int)))
    }
}

/// The placement that an image command stands for.
pub open spec fn placement_of(op: u8) -> ImagePlacement {
    if op == OP_IMAGE_CENTER {
        ImagePlacement::Inline
    } else if op == OP_IMAGE_LEFT {
        ImagePlacement::Left
    } else {
        ImagePlacement::Right
    }
}

/// The effect of one command: the state, the position behind the command, and
/// how many segments it takes (none or one). `None` at the end of the record.
pub open spec fn step(
    cmd: Seq<u8>,
    pos: int,
    seg: Seq<char>,
    st: StateView,
    targets: Map<u32, Seq<char>>,
) -> Option<(StateView, int, int)> {
    let op = cmd[pos];
    if op == OP_FONT_CHANGE {
        Some(
            (
                with_text(st, seg),
                if pos + 3 <= cmd.len() {
                    pos + 3
                } else {
                    pos + 1
                },
                1,
            ),
        )
    } else if op == OP_LINE_BREAK {
        Some((with_plain(with_text(st, seg), "\n"@), pos + 1, 1))
    } else if op == OP_END_PARAGRAPH {
        Some((with_paragraph_end(with_text(st, seg)), pos + 1, 1))
    } else if op == OP_TAB {
        Some((with_plain(with_text(st, seg), "\t"@), pos + 1, 1))
    } else if op == OP_IMAGE_CENTER || op == OP_IMAGE_LEFT || op == OP_IMAGE_RIGHT {
        match image_at(cmd, pos) {
            Some((Some(name), end)) => Some((with_image(st, name, placement_of(op)), end, 1)),
            Some((None, end)) => Some((st, end, 1)),
            None => Some((st, pos + 1, 1)),
        }
    } else if op == OP_LINK_END {
        if st.in_link {
            Some((with_link(st, seg, targets), pos + 1, 1))
        } else {
            Some((st, pos + 1, 0))
        }
    } else if op == OP_JUMP_LINK_HASH || op == OP_JUMP_LINK_HASH_ALT || op == OP_POPUP_LINK_HASH
        || op == OP_POPUP_LINK_HASH_ALT {
        Some(
            (
                StateView {
                    in_link: true,
                    link_kind: if op == OP_JUMP_LINK_HASH || op == OP_JUMP_LINK_HASH_ALT {
                        LinkKind::Jump
                    } else {
                        LinkKind::Popup
                    },
                    link_hash: u32_padded(cmd, pos + 1),
                    ..st
                },
                least(pos + 5, cmd.len() as int),
                1,
            ),
        )
    } else if op == OP_END_OF_RECORD {
        None
    } else {
        Some((st, pos + 1, 0))
    }
}

/// Every command moves on.
pub proof fn lemma_step_advances(
    cmd: Seq<u8>,
    pos: int,
    seg: Seq<char>,
    st: StateView,
    targets: Map<u32, Seq<char>>,
)
    requires
        0 <= pos < cmd.len(),
    ensures
        step(cmd, pos, seg, st, targets) matches Some((_, next, _)) ==> pos < next <= cmd.len(),
{
}

/// The state after all commands from `pos` on, where `taken` segments have been
/// taken before.
pub open spec fn run_from(
    cmd: Seq<u8>,
    pos: int,
    segs: Seq<Seq<char>>,
    taken: int,
    st: StateView,
    targets: Map<u32, Seq<char>>,
) -> StateView
    decreases cmd.len() - pos,
{
    if pos < 0 || pos >= cmd.len() {
        st
    } else {
        proof {
            lemma_step_advances(cmd, pos, segment(segs, taken), st, targets);
        }
        match step(cmd, pos, segment(segs, taken), st, targets) {
            None => st,
            Some((after, next, used)) => run_from(
                cmd,
                next,
                segs,
                least(taken + used, segs.len() as int),
                after,
                targets,
            ),
        }
    }
}

/// The blocks that a command stream and its segments stand for.
pub open spec fn blocks_of(
    cmd: Seq<u8>,
    segs: Seq<Seq<char>>,
    targets: Map<u32, Seq<char>>,
) -> Seq<BlockView> {
    with_paragraph_end(run_from(cmd, 0, segs, 0, start_state(), targets)).blocks
}

/// The blocks of a text record.
pub open spec fn record_blocks(
    link_data1: Seq<u8>,
    link_data2: Seq<u8>,
    targets: Map<u32, Seq<char>>,
) -> Seq<BlockView> {
    blocks_of(
        link_data1.skip(commands_start(link_data1)),
        segments_from(link_data2, 0),
        targets,
    )
}

// ---------------------------------------------------------------------------
// Laws
// ---------------------------------------------------------------------------

/// Whether an element of a paragraph is plain text with something in it, or a
/// link whose target is that of some context hash and whose text is plain.
pub open spec fn plain_inline(targets: Map<u32, Seq<char>>, i: InlineView) -> bool {
    match i {
        InlineView::Text(s) => s.len() > 0,
        InlineView::Link { text, target, kind } => {
            &&& text.len() == 1
            &&& text[0] is Text
            &&& exists|hash: u32| target == #[trigger] target_of(targets, hash)
        },
        _ => false,
    }
}

/// Whether all elements are plain, and no text stands directly behind a text.
pub open spec fn tidy(targets: Map<u32, Seq<char>>, inlines: Seq<InlineView>) -> bool {
    &&& forall|i: int| 0 <= i < inlines.len() ==> plain_inline(targets, #[trigger] inlines[i])
    &&& forall|i: int, j: int|
        0 <= i && j == i + 1 && j < inlines.len() ==> !((#[trigger] inlines[i]) is Text && (
        #[trigger] inlines[j]) is Text)
}

/// Whether a block is an image, or a tidy paragraph with something in it.
pub open spec fn tidy_block(targets: Map<u32, Seq<char>>, b: BlockView) -> bool {
    match b {
        BlockView::Paragraph(inlines) => inlines.len() > 0 && tidy(targets, inlines),
        BlockView::Image(_) => true,
        BlockView::Table(_) => false,
    }
}

/// What every command keeps.
pub open spec fn tidy_state(targets: Map<u32, Seq<char>>, st: StateView) -> bool {
    &&& !st.bold
    &&& !st.italic
    &&& tidy(targets, st.current)
    &&& forall|i: int| 0 <= i < st.blocks.len() ==> tidy_block(targets, #[trigger] st.blocks[i])
}

proof fn lemma_merged_tidy(
    targets: Map<u32, Seq<char>>,
    current: Seq<InlineView>,
    text: Seq<char>,
)
    requires
        tidy(targets, current),
        text.len() > 0,
    ensures
        tidy(targets, merged(current, InlineView::Text(text))),
{
    let after = merged(current, InlineView::Text(text));
    assert forall|i: int| 0 <= i < after.len() implies plain_inline(
        targets,
        #[trigger] after[i],
    ) by {
        if i < current.len() && i < after.len() - 1 {
            assert(plain_inline(targets, current[i]));
        }
    }
    assert forall|i: int, j: int| 0 <= i && j == i + 1 && j < after.len() implies !((
    #[trigger] after[i]) is Text && (#[trigger] after[j]) is Text) by {
        assert(after[i] == current[i]);
        if j < current.len() {
            assert(!(current[i] is Text && current[j] is Text));
            assert(after[j] is Text <==> current[j] is Text || j == current.len());
        }
    }
}

proof fn lemma_paragraph_end_tidy(targets: Map<u32, Seq<char>>, st: StateView)
    requires
        tidy_state(targets, st),
    ensures
        tidy_state(targets, with_paragraph_end(st)),
{
    let after = with_paragraph_end(st);
    assert forall|i: int| 0 <= i < after.blocks.len() implies tidy_block(
        targets,
        #[trigger] after.blocks[i],
    ) by {
        if i < st.blocks.len() {
            assert(tidy_block(targets, st.blocks[i]));
        }
    }
}

proof fn lemma_step_tidy(
    cmd: Seq<u8>,
    pos: int,
    seg: Seq<char>,
    st: StateView,
    targets: Map<u32, Seq<char>>,
)
    requires
        0 <= pos < cmd.len(),
        tidy_state(targets, st),
    ensures
        step(cmd, pos, seg, st, targets) matches Some((after, _, _)) ==> tidy_state(targets, after),
{
    if seg.len() > 0 {
        lemma_merged_tidy(targets, st.current, seg);
    }
    let texted = with_text(st, seg);
    assert(tidy_state(targets, texted));
    reveal_strlit("\n");
    reveal_strlit("\t");
    lemma_merged_tidy(targets, texted.current, "\n"@);
    lemma_merged_tidy(targets, texted.current, "\t"@);
    lemma_paragraph_end_tidy(targets, texted);
    lemma_paragraph_end_tidy(targets, st);
    let op = cmd[pos];
    if op == OP_LINK_END && st.in_link {
        let after = with_link(st, seg, targets);
        assert forall|i: int| 0 <= i < after.current.len() implies plain_inline(
            targets,
            #[trigger] after.current[i],
        ) by {
            if i < st.current.len() {
                assert(plain_inline(targets, st.current[i]));
            } else {
                assert(after.current[i]->target == target_of(targets, st.link_hash));
            }
        }
        assert(tidy(targets, after.current));
    } else if op == OP_IMAGE_CENTER || op == OP_IMAGE_LEFT || op == OP_IMAGE_RIGHT {
        if let Some((Some(name), end)) = image_at(cmd, pos) {
            let ended = with_paragraph_end(st);
            let after = with_image(st, name, placement_of(op));
            assert forall|i: int| 0 <= i < after.blocks.len() implies tidy_block(
                targets,
                #[trigger] after.blocks[i],
            ) by {
                if i < ended.blocks.len() {
                    assert(tidy_block(targets, ended.blocks[i]));
                }
            }
        }
    }
}

proof fn lemma_run_tidy(
    cmd: Seq<u8>,
    pos: int,
    segs: Seq<Seq<char>>,
    taken: int,
    st: StateView,
    targets: Map<u32, Seq<char>>,
)
    requires
        tidy_state(targets, st),
    ensures
        tidy_state(targets, run_from(cmd, pos, segs, taken, st, targets)),
    decreases cmd.len() - pos,
{
    if 0 <= pos < cmd.len() {
        let seg = segment(segs, taken);
        lemma_step_advances(cmd, pos, seg, st, targets);
        lemma_step_tidy(cmd, pos, seg, st, targets);
        if let Some((after, next, used)) = step(cmd, pos, seg, st, targets) {
            lemma_run_tidy(
                cmd,
                next,
                segs,
                least(taken + used, segs.len() as int),
                after,
                targets,
            );
        }
    }
}

/// A text record gives images and paragraphs only, and no paragraph is empty.
/// Whatever fonts the commands name, the text stays plain: a paragraph is made
/// of texts and links, no text is empty, texts that follow one another are one
/// text, and a link leads to the context string of a hash or shows the hash
/// itself.
pub proof fn law_record_blocks_are_tidy(
    link_data1: Seq<u8>,
    link_data2: Seq<u8>,
    targets: Map<u32, Seq<char>>,
)
    ensures
        forall|i: int|
            0 <= i < record_blocks(link_data1, link_data2, targets).len() ==> tidy_block(
                targets,
                #[trigger] record_blocks(link_data1, link_data2, targets)[i],
            ),
{
    let cmd = link_data1.skip(commands_start(link_data1));
    let segs = segments_from(link_data2, 0);
    lemma_run_tidy(cmd, 0, segs, 0, start_state(), targets);
    lemma_paragraph_end_tidy(targets, run_from(cmd, 0, segs, 0, start_state(), targets));
}

/// Nothing behind the end-of-record command is read.
pub proof fn law_end_of_record_ends_the_run(
    cmd: Seq<u8>,
    tail: Seq<u8>,
    pos: int,
    segs: Seq<Seq<char>>,
    taken: int,
    st: StateView,
    targets: Map<u32, Seq<char>>,
)
    requires
        0 <= pos < cmd.len(),
        cmd[pos] == OP_END_OF_RECORD,
    ensures
        run_from(cmd + tail, pos, segs, taken, st, targets) == st,
        run_from(cmd, pos, segs, taken, st, targets) == st,
{
    assert((cmd + tail)[pos] == cmd[pos]);
}

/// A map of context strings with the strings as sequences of characters.
pub open spec fn targets_view(targets: Map<u32, String>) -> Map<u32, Seq<char>> {
    targets.map_values(|s: String| s@)
}

/// The state while reading commands.
pub struct ParseState {
    blocks: Vec<Block>,
    current: Vec<Inline>,
    bold: bool,
    italic: bool,
    in_link: bool,
    link_kind: LinkKind,
    link_hash: u32,
}

impl View for ParseState {
    type V = StateView;

    closed spec fn view(&self) -> StateView {
        StateView {
            blocks: blocks_view(self.blocks@),
            current: inlines_view(self.current@),
            bold: self.bold,
            italic: self.italic,
            in_link: self.in_link,
            link_kind: self.link_kind,
            link_hash: self.link_hash,
        }
    }
}

/// An element in the given style.
pub fn wrap_inline(inner: Inline, bold: bool, italic: bool) -> (r: Inline)
    ensures
        r@ == styled(inner@, bold, italic),
{
    let slanted: Inline = if italic {
        Inline::Italic(one_inline(inner))
    } else {
        inner
    };
    if bold {
        Inline::Bold(one_inline(slanted))
    } else {
        slanted
    }
}

fn one_inline(inner: Inline) -> (v: Vec<Inline>)
    ensures
        inlines_view(v@) == seq![inner@],
{
    let mut v: Vec<Inline> = Vec::new();
    proof {
        lemma_inlines_push(v@, inner);
        assert(inlines_view(v@).push(inner@) =~= seq![inner@]);
    }
    v.push(inner);
    v
}

/// Appends an element; text behind text becomes one text.
pub fn push_or_merge(out: &mut Vec<Inline>, inline: Inline)
    ensures
        inlines_view(final(out)@) == merged(inlines_view(old(out)@), inline@),
{
    proof {
        crate::model::lemma_inlines_index(out@);
        lemma_inlines_push(out@, inline);
    }
    if let Inline::Text(new) = &inline {
        if let Some(last) = out.pop() {
            let ghost rest = out@;
            assert(old(out)@.drop_last() =~= rest);
            match last {
                Inline::Text(prev) => {
                    let mut joined: String = prev;
                    push_str(&mut joined, new.as_str());
                    let text: Inline = Inline::Text(joined);
                    proof {
                        lemma_inlines_push(rest, text);
                        assert(inlines_view(old(out)@).drop_last() =~= inlines_view(rest));
                    }
                    out.push(text);
                    return;
                },
                other => {
                    assert(rest.push(other) =~= old(out)@);
                    out.push(other);
                },
            }
        }
    }
    assert(out@ =~= old(out)@);
    out.push(inline);
}

/// The context string of a hash.
pub fn resolve_hash_target(hash: u32, hash_targets: &HashMap<u32, String>) -> (s: String)
    ensures
        s@ == target_of(targets_view(hash_targets@), hash),
{
    match hash_targets.get(&hash) {
        Some(context_id) => context_id.clone(),
        None => {
            let mut s: String = "0x".to_owned();
            push_hex_padded(&mut s, hash as u64, 8);
            s
        },
    }
}

impl ParseState {
    /// Nothing has been read.
    pub fn new() -> (st: Self)
        ensures
            st@ == start_state(),
    {
        ParseState {
            blocks: Vec::new(),
            current: Vec::new(),
            bold: false,
            italic: false,
            in_link: false,
            link_kind: LinkKind::Jump,
            link_hash: 0,
        }
    }

    /// Emits a text in the current style.
    pub fn emit_text(&mut self, text: &str)
        ensures
            final(self)@ == with_text(old(self)@, text@),
    {
        if text.is_empty() {
            return;
        }
        let inline: Inline = wrap_inline(Inline::Text(text.to_owned()), self.bold, self.italic);
        push_or_merge(&mut self.current, inline);
    }

    /// Emits plain text.
    pub fn emit_plain(&mut self, text: &str)
        ensures
            final(self)@ == with_plain(old(self)@, text@),
    {
        push_or_merge(&mut self.current, Inline::Text(text.to_owned()));
    }

    /// Ends the paragraph.
    pub fn end_paragraph(&mut self)
        ensures
            final(self)@ == with_paragraph_end(old(self)@),
    {
        proof {
            crate::model::lemma_inlines_index(self.current@);
        }
        if !self.current.is_empty() {
            let mut paragraph: Vec<Inline> = Vec::new();
            std::mem::swap(&mut paragraph, &mut self.current);
            let block: Block = Block::Paragraph(paragraph);
            proof {
                lemma_blocks_push(self.blocks@, block);
            }
            self.blocks.push(block);
        }
    }

    /// Starts a link.
    pub fn start_link(&mut self, kind: LinkKind, hash: u32)
        ensures
            final(self)@ == (StateView {
                in_link: true,
                link_kind: kind,
                link_hash: hash,
                ..old(self)@
            }),
    {
        self.in_link = true;
        self.link_kind = kind;
        self.link_hash = hash;
    }

    /// Ends the link with the given text.
    pub fn end_link(&mut self, text: &str, hash_targets: &HashMap<u32, String>)
        ensures
            final(self)@ == with_link(old(self)@, text@, targets_view(hash_targets@)),
    {
        self.in_link = false;
        let target: String = resolve_hash_target(self.link_hash, hash_targets);
        let shown: String = if text.is_empty() {
            target.clone()
        } else {
            text.to_owned()
        };
        let link: Inline = Inline::Link {
            text: one_inline(Inline::Text(shown)),
            target,
            kind: self.link_kind,
        };
        proof {
            lemma_inlines_push(self.current@, link);
        }
        self.current.push(link);
    }

    /// Emits an image as a block of its own.
    pub fn push_image(&mut self, filename: String, placement: ImagePlacement)
        ensures
            final(self)@ == with_image(old(self)@, filename@, placement),
    {
        self.end_paragraph();
        let block: Block = Block::Image(ImageRef { filename, placement });
        proof {
            lemma_blocks_push(self.blocks@, block);
        }
        self.blocks.push(block);
    }

    /// Changes the font. The attributes of fonts do not reliably stand for
    /// emphasis, so the style stays as it is.
    pub fn apply_font(&mut self, _fonts: &FontTable, _font_index: usize)
        ensures
            final(self)@ == old(self)@,
    {
    }

    /// Whether a link has been started and not ended.
    pub fn is_in_link(&self) -> (b: bool)
        ensures
            b == self@.in_link,
    {
        self.in_link
    }

    /// The blocks that have been read.
    pub fn into_blocks(self) -> (blocks: Vec<Block>)
        ensures
            blocks_view(blocks@) == self@.blocks,
    {
        self.blocks
    }
}

/// The name of the picture that the bytes at `p` refer to, where it is an
/// internal file.
pub fn resolve_external_bitmap(cmd: &[u8], p: usize) -> (r: Option<String>)
    ensures
        match r {
            Some(s) => bitmap_name(cmd@, p as int) == Some(s@),
            None => bitmap_name(cmd@, p as int) == None::<Seq<char>>,
        },
{
    if p > cmd.len() || cmd.len() - p < 4 {
        return None;
    }
    if u16_at(cmd, p) != 0 {
        return None;
    }
    let mut s: String = "|bm".to_owned();
    push_decimal(&mut s, u16_at(cmd, p + 2) as u64);
    Some(s)
}

/// Parses the image command at `pos`: the name of its picture, where it has
/// one, and where the command ends.
pub fn parse_image_opcode(cmd: &[u8], pos: usize) -> (r: Option<(Option<String>, usize)>)
    ensures
        match r {
            Some((Some(name), end)) => image_at(cmd@, pos as int) == Some((Some(name@), end as int)),
            Some((None, end)) => image_at(cmd@, pos as int) == Some(
                (None::<Seq<char>>, end as int),
            ),
            None => image_at(cmd@, pos as int) == None::<(Option<Seq<char>>, int)>,
        },
        r matches Some((_, end)) ==> end <= cmd@.len(),
{
    let len: usize = cmd.len();
    if pos > len || len - pos <= 2 {
        return None;
    }
    let kind: u8 = cmd[pos + 1];
    let mut p: usize = pos + 2;
    let size: usize = scan_long(cmd, &mut p) as usize;
    let start: usize = p;
    let name: Option<String> = if kind == IMAGE_TYPE_HC31 {
        let _ = scan_word(cmd, &mut p);
        resolve_external_bitmap(cmd, p)
    } else if kind == IMAGE_TYPE_HC30 {
        resolve_external_bitmap(cmd, p)
    } else {
        None
    };
    let end: usize = if size <= len - start {
        start + size
    } else {
        len
    };
    Some((name, end))
}

/// Reads the commands, with the segments as they are needed.
pub fn parse_command_stream(
    cmd: &[u8],
    segments: &[String],
    fonts: &FontTable,
    hash_targets: &HashMap<u32, String>,
) -> (blocks: Vec<Block>)
    ensures
        blocks_view(blocks@) == blocks_of(cmd@, views(segments@), targets_view(hash_targets@)),
{
    let mut state: ParseState = ParseState::new();
    let mut cur: SegCursor<'_> = SegCursor::new(segments);
    let len: usize = cmd.len();
    let mut pos: usize = 0;
    let ghost segs = views(segments@);
    let ghost targets = targets_view(hash_targets@);
    let ghost all = run_from(cmd@, 0, segs, 0, start_state(), targets);
    while pos < len
        invariant
            pos <= len,
            len == cmd@.len(),
            cur.wf(),
            cur.segs() == segs,
            0 <= cur.taken() <= segs.len(),
            segs == views(segments@),
            targets == targets_view(hash_targets@),
            all == run_from(cmd@, 0, segs, 0, start_state(), targets),
            run_from(cmd@, pos as int, segs, cur.taken(), state@, targets) == all,
        decreases len - pos,
    {
        let byte: u8 = cmd[pos];
        let ghost before = state@;
        let ghost at = pos as int;
        let ghost taken = cur.taken();
        let ghost seg = segment(segs, taken);
        proof {
            lemma_step_advances(cmd@, at, seg, before, targets);
        }
        if byte == OP_FONT_CHANGE {
            pos += 1;
            let mut font_index: usize = 0;
            if len - pos >= 2 {
                font_index = u16_at(cmd, pos) as usize;
                pos += 2;
            }
            state.emit_text(cur.next());
            state.apply_font(fonts, font_index);
        } else if byte == OP_LINE_BREAK {
            pos += 1;
            state.emit_text(cur.next());
            state.emit_plain("\n");
        } else if byte == OP_END_PARAGRAPH {
            pos += 1;
            state.emit_text(cur.next());
            state.end_paragraph();
        } else if byte == OP_TAB {
            pos += 1;
            state.emit_text(cur.next());
            state.emit_plain("\t");
        } else if byte == OP_IMAGE_CENTER || byte == OP_IMAGE_LEFT || byte == OP_IMAGE_RIGHT {
            let _ = cur.next();
            let placement: ImagePlacement = if byte == OP_IMAGE_CENTER {
                ImagePlacement::Inline
            } else if byte == OP_IMAGE_LEFT {
                ImagePlacement::Left
            } else {
                ImagePlacement::Right
            };
            match parse_image_opcode(cmd, pos) {
                Some((Some(name), end)) => {
                    state.push_image(name, placement);
                    pos = end;
                },
                Some((None, end)) => {
                    pos = end;
                },
                None => {
                    pos += 1;
                },
            }
        } else if byte == OP_LINK_END {
            pos += 1;
            if state.is_in_link() {
                state.end_link(cur.next(), hash_targets);
            }
        } else if byte == OP_JUMP_LINK_HASH || byte == OP_JUMP_LINK_HASH_ALT {
            pos += 1;
            let hash: u32 = read_u32_le(cmd, &mut pos);
            let _ = cur.next();
            state.start_link(LinkKind::Jump, hash);
        } else if byte == OP_POPUP_LINK_HASH || byte == OP_POPUP_LINK_HASH_ALT {
            pos += 1;
            let hash: u32 = read_u32_le(cmd, &mut pos);
            let _ = cur.next();
            state.start_link(LinkKind::Popup, hash);
        } else if byte == OP_END_OF_RECORD {
            assert(state@ == all);
            state.end_paragraph();
            return state.into_blocks();
        } else {
            pos += 1;
        }
        proof {
            match step(cmd@, at, seg, before, targets) {
                None => {},
                Some((after, next, used)) => {
                    assert(state@ == after);
                    assert(pos == next);
                    assert(cur.taken() == least(taken + used, segs.len() as int));
                },
            }
        }
    }
    state.end_paragraph();
    state.into_blocks()
}

/// Parses a text record into blocks.
///
/// `link_data1` is the command stream and `link_data2` the text. `hash_targets`
/// maps context hashes to context strings; a hash that it does not have stands
/// for itself, in hexadecimal.
pub fn parse_text_record(
    link_data1: &[u8],
    link_data2: &[u8],
    fonts: &FontTable,
    hash_targets: &HashMap<u32, String>,
) -> (r: Result<Vec<Block>, Error>)
    ensures
        r matches Ok(blocks) && blocks_view(blocks@) == record_blocks(
            link_data1@,
            link_data2@,
            targets_view(hash_targets@),
        ),
{
    let start: usize = find_command_stream_start(link_data1);
    let cmd: &[u8] = vstd::slice::slice_subrange(link_data1, start, link_data1.len());
    assert(cmd@ =~= link_data1@.skip(start as int));
    let segments: Vec<String> = split_segments(link_data2);
    Ok(parse_command_stream(cmd, segments.as_slice(), fonts, hash_targets))
}

} // verus!
