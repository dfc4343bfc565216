//! How the commands of a text record lie in bytes, and what a record made of
//! them shows.

use vstd::prelude::*;

use crate::bytes::{
    holds, le16_bytes, le32, le32_bytes, lemma_holds_le16,
    lemma_holds_le32, lemma_holds_parts, nul_free, text_of,
};
use crate::model::{BlockView, ImagePlacement, ImageRefView, InlineView, LinkKind};
use crate::opcode::{
    blocks_of, commands_start, image_at, ints_end, merged, record_blocks, run_from, segment,
    start_state, step, styled, tabs_end, target_of, with_paragraph_end, StateView,
};
use crate::records::{law_segments_are_read_back, nul_separated};
use crate::scan::{int_at, int_bytes, long_at, long_bytes, word_at, word_bytes};
use crate::text::{decimal, hex_upper, law_numerals, number_of, zero_padded};

verus! {

// ---------------------------------------------------------------------------
// Numbers
// ---------------------------------------------------------------------------

/// A compressed word is read back, wherever it is.
pub proof fn law_word_is_read_back(data: Seq<u8>, at: int, n: u16)
    requires
        n < 0x8000,
        holds(data, at, word_bytes(n)),
    ensures
        word_at(data, at) == (n, at + word_bytes(n).len()),
{
    let held = data.subrange(at, at + word_bytes(n).len());
    assert(held[0] == data[at]);
    if n >= 128 {
        lemma_holds_le16(data, at, (2 * n + 1) as u16);
    }
}

/// A compressed integer is read back, wherever it is.
pub proof fn law_int_is_read_back(data: Seq<u8>, at: int, n: i16)
    requires
        -0x4000 <= n < 0x4000,
        holds(data, at, int_bytes(n)),
    ensures
        int_at(data, at) == (n, at + int_bytes(n).len()),
{
    let held = data.subrange(at, at + int_bytes(n).len());
    assert(held[0] == data[at]);
    if !(-0x40 <= n < 0x40) {
        lemma_holds_le16(data, at, (2 * (n + 0x4000) + 1) as u16);
    }
}

/// A compressed long is read back, wherever it is.
pub proof fn law_long_is_read_back(data: Seq<u8>, at: int, n: u32)
    requires
        n < 0x4000_0000,
        holds(data, at, long_bytes(n)),
    ensures
        long_at(data, at) == (n, at + long_bytes(n).len()),
{
    let held = data.subrange(at, at + long_bytes(n).len());
    assert(held[0] == data[at]);
    if n < 0x4000 {
        lemma_holds_le16(data, at, (2 * (n + 0x4000)) as u16);
    } else {
        let w = (2 * (n + 0x4000_0000) + 1) as u32;
        lemma_holds_le32(data, at, w);
        assert(data[at] == w % 256);
    }
}

/// A compressed long below zero is read as a word in two's complement.
pub proof fn law_negative_long(data: Seq<u8>, at: int, below: u32)
    requires
        0 < below <= 0x4000,
        holds(data, at, le16_bytes((2 * (0x4000 - below)) as u16)),
    ensures
        long_at(data, at) == ((0x1_0000_0000 - below) as u32, at + 2),
{
    let w = (2 * (0x4000 - below)) as u16;
    let held = data.subrange(at, at + 2);
    assert(held[0] == data[at]);
    lemma_holds_le16(data, at, w);
}

// ---------------------------------------------------------------------------
// The paragraph header
// ---------------------------------------------------------------------------

/// A paragraph header as it is laid out.
pub struct ParagraphHeader {
    pub size: u32,
    pub characters: u16,
    pub unknown: Seq<u8>,
    pub flags: u16,
    pub topic_offset: Option<u32>,
    /// Space before, space after, line spacing, left, right and first indent.
    pub measures: Seq<Option<i16>>,
    pub border: Option<Seq<u8>>,
    pub tabs: Option<Seq<(u16, u16)>>,
}

/// The bytes of an optional part.
pub open spec fn optional_long(n: Option<u32>) -> Seq<u8> {
    match n {
        Some(n) => long_bytes(n),
        None => Seq::empty(),
    }
}

/// The bytes of the measures that are there, one after another.
pub open spec fn measures_bytes(measures: Seq<Option<i16>>) -> Seq<u8>
    decreases measures.len(),
{
    if measures.len() == 0 {
        Seq::empty()
    } else {
        (match measures[0] {
            Some(n) => int_bytes(n),
            None => Seq::empty(),
        }) + measures_bytes(measures.skip(1))
    }
}

/// The bytes of a tab stop: its place, and its alignment where the place says
/// that it has one.
pub open spec fn tab_bytes(tab: (u16, u16)) -> Seq<u8> {
    word_bytes(tab.0) + (if tab.0 >= 0x4000 {
        word_bytes(tab.1)
    } else {
        Seq::empty()
    })
}

/// The bytes of tab stops, one after another.
pub open spec fn tabs_bytes(tabs: Seq<(u16, u16)>) -> Seq<u8>
    decreases tabs.len(),
{
    if tabs.len() == 0 {
        Seq::empty()
    } else {
        tabs_bytes(tabs.drop_last()) + tab_bytes(tabs.last())
    }
}

/// The bytes of a paragraph header.
pub open spec fn paragraph_header_bytes(h: ParagraphHeader) -> Seq<u8> {
    long_bytes(h.size) + (word_bytes(h.characters) + (h.unknown + (le16_bytes(h.flags) + (
    optional_long(h.topic_offset) + (measures_bytes(h.measures) + ((match h.border {
        Some(b) => b,
        None => Seq::empty(),
    }) + (match h.tabs {
        Some(tabs) => int_bytes(tabs.len() as i16) + tabs_bytes(tabs),
        None => Seq::empty(),
    })))))))
}

/// Whether a header can be laid out: its numbers fit, and its flags tell which
/// parts are there.
pub open spec fn paragraph_header_ok(h: ParagraphHeader) -> bool {
    &&& h.size < 0x4000_0000
    &&& h.characters < 0x8000
    &&& h.unknown.len() == 4
    &&& h.flags % 2 == 1 <==> h.topic_offset is Some
    &&& h.topic_offset matches Some(n) ==> n < 0x4000_0000
    &&& h.measures.len() == 6
    &&& h.flags / 2 % 2 == 1 <==> h.measures[0] is Some
    &&& h.flags / 4 % 2 == 1 <==> h.measures[1] is Some
    &&& h.flags / 8 % 2 == 1 <==> h.measures[2] is Some
    &&& h.flags / 16 % 2 == 1 <==> h.measures[3] is Some
    &&& h.flags / 32 % 2 == 1 <==> h.measures[4] is Some
    &&& h.flags / 64 % 2 == 1 <==> h.measures[5] is Some
    &&& forall|i: int|
        0 <= i < 6 ==> ((#[trigger] h.measures[i]) matches Some(n) ==> -0x4000 <= n < 0x4000)
    &&& h.flags / 0x100 % 2 == 1 <==> h.border is Some
    &&& h.border matches Some(b) ==> b.len() == 3
    &&& h.flags / 0x200 % 2 == 1 <==> h.tabs is Some
    &&& h.tabs matches Some(tabs) ==> tabs.len() < 0x4000 && forall|i: int|
        0 <= i < tabs.len() ==> (#[trigger] tabs[i]).0 < 0x8000 && tabs[i].1 < 0x8000
}

proof fn lemma_tabs(data: Seq<u8>, at: int, tabs: Seq<(u16, u16)>)
    requires
        0 <= at <= data.len(),
        holds(data, at, tabs_bytes(tabs)),
        forall|i: int| 0 <= i < tabs.len() ==> (#[trigger] tabs[i]).0 < 0x8000 && tabs[i].1 < 0x8000,
    ensures
        tabs_end(data, at, tabs.len()) == at + tabs_bytes(tabs).len(),
    decreases tabs.len(),
{
    if tabs.len() > 0 {
        let front = tabs.drop_last();
        let last = tabs.last();
        assert(tabs[tabs.len() - 1].0 < 0x8000 && tabs[tabs.len() - 1].1 < 0x8000);
        assert forall|i: int| 0 <= i < front.len() implies (#[trigger] front[i]).0 < 0x8000
            && front[i].1 < 0x8000 by {
            assert(tabs[i].0 < 0x8000 && tabs[i].1 < 0x8000);
        }
        lemma_holds_parts(data, at, tabs_bytes(front), tab_bytes(last));
        lemma_tabs(data, at, front);
        let next = at + tabs_bytes(front).len();
        let second = if last.0 >= 0x4000 {
            word_bytes(last.1)
        } else {
            Seq::<u8>::empty()
        };
        lemma_holds_parts(data, next, word_bytes(last.0), second);
        law_word_is_read_back(data, next, last.0);
        if last.0 >= 0x4000 {
            law_word_is_read_back(data, next + word_bytes(last.0).len(), last.1);
        }
    }
}

proof fn lemma_measures(
    data: Seq<u8>,
    at: int,
    flags: int,
    k: int,
    measures: Seq<Option<i16>>,
)
    requires
        1 <= k <= 7,
        measures.len() == 7 - k,
        0 <= at,
        holds(data, at, measures_bytes(measures)),
        forall|i: int|
            0 <= i < measures.len() ==> ((#[trigger] measures[i]) matches Some(n) ==> -0x4000 <= n
                < 0x4000),
        forall|i: int|
            0 <= i < measures.len() ==> ((flags / (vstd::arithmetic::power2::pow2(
                (k + i) as nat,
            ) as int)) % 2 == 1 <==> (#[trigger] measures[i]) is Some),
    ensures
        ints_end(data, at, flags, k) == at + measures_bytes(measures).len(),
    decreases 7 - k,
{
    if k <= 6 {
        let rest = measures.skip(1);
        let first = match measures[0] {
            Some(n) => int_bytes(n),
            None => Seq::empty(),
        };
        lemma_holds_parts(data, at, first, measures_bytes(rest));
        if let Some(n) = measures[0] {
            law_int_is_read_back(data, at, n);
        }
        assert((flags / (vstd::arithmetic::power2::pow2((k + 0) as nat) as int)) % 2 == 1
            <==> measures[0] is Some);
        assert forall|i: int| 0 <= i < rest.len() implies ((#[trigger] rest[i]) matches Some(
            n,
        ) ==> -0x4000 <= n < 0x4000) by {
            assert(rest[i] == measures[i + 1]);
        }
        assert forall|i: int| 0 <= i < rest.len() implies ((flags
            / (vstd::arithmetic::power2::pow2((k + 1 + i) as nat) as int)) % 2 == 1 <==> (
        #[trigger] rest[i]) is Some) by {
            assert(rest[i] == measures[i + 1]);
            assert((flags / (vstd::arithmetic::power2::pow2((k + (i + 1)) as nat) as int)) % 2 == 1
                <==> measures[i + 1] is Some);
        }
        lemma_measures(data, at + first.len(), flags, k + 1, rest);
    }
}

/// The commands of a record start right behind its paragraph header, whichever
/// parts the flags say that it has, and its character count is in the header.
pub proof fn law_commands_follow_the_header(h: ParagraphHeader, commands: Seq<u8>)
    requires
        paragraph_header_ok(h),
    ensures
        commands_start(paragraph_header_bytes(h) + commands) == paragraph_header_bytes(h).len(),
        ({
            let data = paragraph_header_bytes(h) + commands;
            word_at(data, long_at(data, 0).1).0 == h.characters
        }),
{
    let bytes = paragraph_header_bytes(h);
    let data = bytes + commands;
    assert(data.subrange(0, bytes.len() as int) =~= bytes);
    lemma_header_end(data, h);
}

proof fn lemma_header_end(data: Seq<u8>, h: ParagraphHeader)
    requires
        paragraph_header_ok(h),
        holds(data, 0, paragraph_header_bytes(h)),
    ensures
        commands_start(data) == paragraph_header_bytes(h).len(),
        word_at(data, long_at(data, 0).1).0 == h.characters,
{
    let tabs = match h.tabs {
        Some(tabs) => int_bytes(tabs.len() as i16) + tabs_bytes(tabs),
        None => Seq::empty(),
    };
    let border = match h.border {
        Some(b) => b,
        None => Seq::empty(),
    };
    let t6 = border + tabs;
    let t5 = measures_bytes(h.measures) + t6;
    let t4 = optional_long(h.topic_offset) + t5;
    let t3 = le16_bytes(h.flags) + t4;
    let t2 = h.unknown + t3;
    let t1 = word_bytes(h.characters) + t2;
    lemma_holds_parts(data, 0, long_bytes(h.size), t1);
    let p1 = long_bytes(h.size).len() as int;
    lemma_holds_parts(data, p1, word_bytes(h.characters), t2);
    let p2 = p1 + word_bytes(h.characters).len();
    lemma_holds_parts(data, p2, h.unknown, t3);
    lemma_holds_parts(data, p2 + 4, le16_bytes(h.flags), t4);
    let p3 = p2 + 6;
    lemma_holds_parts(data, p3, optional_long(h.topic_offset), t5);
    let p4 = p3 + optional_long(h.topic_offset).len();
    lemma_holds_parts(data, p4, measures_bytes(h.measures), t6);
    let p5 = p4 + measures_bytes(h.measures).len();
    lemma_holds_parts(data, p5, border, tabs);
    let p6 = p5 + border.len();
    law_long_is_read_back(data, 0, h.size);
    law_word_is_read_back(data, p1, h.characters);
    lemma_holds_le16(data, p2 + 4, h.flags);
    if let Some(n) = h.topic_offset {
        law_long_is_read_back(data, p3, n);
    }
    vstd::arithmetic::power2::lemma2_to64();
    assert forall|i: int| 0 <= i < 6 implies ((h.flags as int
        / (vstd::arithmetic::power2::pow2((1 + i) as nat) as int)) % 2 == 1 <==> (
    #[trigger] h.measures[i]) is Some) by {
        assert(i == 0 || i == 1 || i == 2 || i == 3 || i == 4 || i == 5);
    }
    lemma_measures(data, p4, h.flags as int, 1, h.measures);
    if let Some(stops) = h.tabs {
        lemma_holds_parts(data, p6, int_bytes(stops.len() as i16), tabs_bytes(stops));
        law_int_is_read_back(data, p6, stops.len() as i16);
        lemma_tabs(data, p6 + int_bytes(stops.len() as i16).len(), stops);
    }
}

// ---------------------------------------------------------------------------
// What a record shows
// ---------------------------------------------------------------------------

/// What a reader meets in a document: characters, links and images, and the
/// boundaries between paragraphs.
pub enum Shown {
    Character(Seq<char>),
    Link { text: Seq<InlineView>, target: Seq<char>, kind: LinkKind },
    Image { filename: Seq<char>, placement: ImagePlacement },
    Boundary,
    Other,
}

/// The characters of a text, each a text of its own.
pub open spec fn characters(text: Seq<char>) -> Seq<Shown> {
    Seq::new(text.len(), |i: int| Shown::Character(seq![text[i]]))
}

/// What an element of a paragraph shows.
pub open spec fn shown_inline(i: InlineView) -> Seq<Shown> {
    match i {
        InlineView::Text(s) => characters(s),
        InlineView::Link { text, target, kind } => seq![Shown::Link { text, target, kind }],
        _ => seq![Shown::Other],
    }
}

/// What the elements of a paragraph show, one after another.
pub open spec fn shown_inlines(s: Seq<InlineView>) -> Seq<Shown>
    decreases s.len(),
{
    if s.len() == 0 {
        Seq::empty()
    } else {
        shown_inlines(s.drop_last()) + shown_inline(s.last())
    }
}

/// What a block shows.
pub open spec fn shown_block(b: BlockView) -> Seq<Shown> {
    match b {
        BlockView::Paragraph(inlines) => shown_inlines(inlines),
        BlockView::Image(i) => seq![
            Shown::Image { filename: i.filename, placement: i.placement },
        ],
        BlockView::Table(_) => seq![Shown::Other],
    }
}

/// What blocks show, one after another.
pub open spec fn shown_blocks(s: Seq<BlockView>) -> Seq<Shown>
    decreases s.len(),
{
    if s.len() == 0 {
        Seq::empty()
    } else {
        shown_blocks(s.drop_last()) + shown_block(s.last())
    }
}

/// What has been read so far shows: the blocks, and the paragraph that is open.
pub open spec fn shown(st: StateView) -> Seq<Shown> {
    shown_blocks(st.blocks) + shown_inlines(st.current)
}

proof fn lemma_shown_push(s: Seq<InlineView>, i: InlineView)
    ensures
        shown_inlines(s.push(i)) == shown_inlines(s) + shown_inline(i),
{
    assert(s.push(i).drop_last() =~= s);
}

proof fn lemma_shown_block_push(s: Seq<BlockView>, b: BlockView)
    ensures
        shown_blocks(s.push(b)) == shown_blocks(s) + shown_block(b),
{
    assert(s.push(b).drop_last() =~= s);
}

proof fn lemma_characters_concat(a: Seq<char>, b: Seq<char>)
    ensures
        characters(a + b) == characters(a) + characters(b),
{
    assert(characters(a + b) =~= characters(a) + characters(b));
}

proof fn lemma_shown_merged(current: Seq<InlineView>, text: Seq<char>)
    ensures
        shown_inlines(merged(current, InlineView::Text(text))) == shown_inlines(current)
            + characters(text),
{
    lemma_shown_push(current, InlineView::Text(text));
    if current.len() > 0 {
        if let InlineView::Text(prev) = current.last() {
            let front = current.drop_last();
            lemma_shown_push(front, InlineView::Text(prev + text));
            lemma_characters_concat(prev, text);
            assert(shown_inlines(front) + (characters(prev) + characters(text)) =~= shown_inlines(
                front,
            ) + characters(prev) + characters(text));
        }
    }
}

proof fn lemma_shown_end(st: StateView)
    ensures
        shown(with_paragraph_end(st)) == shown(st),
        with_paragraph_end(st).current.len() == 0,
{
    if st.current.len() > 0 {
        let b = BlockView::Paragraph(st.current);
        lemma_shown_block_push(st.blocks, b);
        let after = with_paragraph_end(st);
        assert(shown_inlines(after.current) =~= Seq::empty());
        assert(shown(after) =~= shown(st));
    }
}

/// The state after a text shows what was there before, and then the text.
proof fn lemma_shown_text(before: StateView, after: StateView, text: Seq<char>)
    requires
        after.blocks == before.blocks,
        after.current == merged(before.current, InlineView::Text(text)) || text.len() == 0
            && after.current == before.current,
    ensures
        shown(after) == shown(before) + characters(text),
{
    lemma_shown_merged(before.current, text);
    if text.len() == 0 {
        assert(characters(text) =~= Seq::empty());
        assert(shown_inlines(before.current) + characters(text) =~= shown_inlines(before.current));
    }
    assert(shown_inlines(after.current) == shown_inlines(before.current) + characters(text));
    assert(shown(after) =~= shown(before) + characters(text));
}

/// What one command does to what is shown and to the blocks, on any state. The
/// commands for text (`0x80` to `0x83`) take a segment and show all of it;
/// nothing that was shown before is lost or moved. A line break and a tab show
/// one more character. An image, and the end of a paragraph, close the
/// paragraph that is open. The end of a link shows the link. Bytes that are no
/// commands do nothing.
pub proof fn law_commands_add_to_what_is_shown(
    cmd: Seq<u8>,
    pos: int,
    seg: Seq<char>,
    st: StateView,
    targets: Map<u32, Seq<char>>,
)
    requires
        0 <= pos < cmd.len(),
        !st.bold,
        !st.italic,
    ensures
        cmd[pos] == 0x80 ==> (step(cmd, pos, seg, st, targets) matches Some((after, next, used))
            && shown(after) == shown(st) + characters(seg) && after.blocks == st.blocks && used == 1
            && (pos + 3 <= cmd.len() ==> next == pos + 3)),
        cmd[pos] == 0x81 ==> (step(cmd, pos, seg, st, targets) matches Some((after, next, used))
            && shown(after) == shown(st) + characters(seg) + characters(seq!['\n']) && after.blocks
            == st.blocks && used == 1 && next == pos + 1),
        cmd[pos] == 0x82 ==> (step(cmd, pos, seg, st, targets) matches Some((after, next, used))
            && shown(after) == shown(st) + characters(seg) && after.current.len() == 0
            && after.blocks.len() == st.blocks.len() + if st.current.len() + seg.len() > 0 {
            1int
        } else {
            0int
        } && used == 1 && next == pos + 1),
        cmd[pos] == 0x83 ==> (step(cmd, pos, seg, st, targets) matches Some((after, next, used))
            && shown(after) == shown(st) + characters(seg) + characters(seq!['\t']) && after.blocks
            == st.blocks && used == 1 && next == pos + 1),
        0x86 <= cmd[pos] <= 0x88 ==> (image_at(cmd, pos) matches Some((Some(name), end)) ==> (step(
            cmd,
            pos,
            seg,
            st,
            targets,
        ) matches Some((after, next, used)) && shown(after) == shown(st).push(
            Shown::Image {
                filename: name,
                placement: if cmd[pos] == 0x86 {
                    ImagePlacement::Inline
                } else if cmd[pos] == 0x87 {
                    ImagePlacement::Left
                } else {
                    ImagePlacement::Right
                },
            },
        ) && after.current.len() == 0 && after.blocks.len() == st.blocks.len() + if st.current.len()
            > 0 {
            2int
        } else {
            1int
        } && used == 1 && next == end)),
        cmd[pos] == 0x89 && st.in_link ==> (step(cmd, pos, seg, st, targets) matches Some(
            (after, next, used),
        ) && shown(after) == shown(st).push(
            Shown::Link {
                text: seq![
                    InlineView::Text(
                        if seg.len() > 0 {
                            seg
                        } else {
                            target_of(targets, st.link_hash)
                        },
                    ),
                ],
                target: target_of(targets, st.link_hash),
                kind: st.link_kind,
            },
        ) && after.blocks == st.blocks && !after.in_link && used == 1 && next == pos + 1),
        cmd[pos] == 0x89 && !st.in_link ==> step(cmd, pos, seg, st, targets) == Some(
            (st, pos + 1, 0int),
        ),
        cmd[pos] == 0xE3 || cmd[pos] == 0xCC || cmd[pos] == 0xE6 || cmd[pos] == 0xC8 ==> (step(
            cmd,
            pos,
            seg,
            st,
            targets,
        ) matches Some((after, next, used)) && shown(after) == shown(st) && after.blocks
            == st.blocks && after.in_link && (after.link_kind is Jump <==> cmd[pos] == 0xE3
            || cmd[pos] == 0xCC) && used == 1 && (pos + 5 <= cmd.len() ==> next == pos + 5
            && after.link_hash == le32(cmd, pos + 1))),
        0x86 <= cmd[pos] <= 0x88 ==> (image_at(cmd, pos) matches Some((None, end)) ==> step(
            cmd,
            pos,
            seg,
            st,
            targets,
        ) == Some((st, end, 1int))),
        cmd[pos] == 0xFF ==> step(cmd, pos, seg, st, targets) is None,
        cmd[pos] < 0x80 || 0x84 <= cmd[pos] <= 0x85 || 0x8A <= cmd[pos] < 0xC8 || 0xC8 < cmd[pos]
            < 0xCC || 0xCC < cmd[pos] < 0xE3 || 0xE3 < cmd[pos] < 0xE6 || 0xE6 < cmd[pos]
            < 0xFF ==> step(cmd, pos, seg, st, targets) == Some((st, pos + 1, 0int)),
{
    reveal_strlit("\n");
    reveal_strlit("\t");
    assert("\n"@ =~= seq!['\n']);
    assert("\t"@ =~= seq!['\t']);
    let op = cmd[pos];
    let texted = crate::opcode::with_text(st, seg);
    lemma_shown_text(st, texted, seg);
    lemma_shown_text(texted, crate::opcode::with_plain(texted, seq!['\n']), seq!['\n']);
    lemma_shown_text(texted, crate::opcode::with_plain(texted, seq!['\t']), seq!['\t']);
    lemma_shown_end(texted);
    lemma_shown_end(st);
    if 0x86 <= op <= 0x88 {
        if let Some((Some(name), end)) = image_at(cmd, pos) {
            let placement = crate::opcode::placement_of(op);
            let ended = with_paragraph_end(st);
            let image = BlockView::Image(ImageRefView { filename: name, placement });
            lemma_shown_block_push(ended.blocks, image);
            assert(shown_inlines(ended.current) =~= Seq::empty());
            let after = crate::opcode::with_image(st, name, placement);
            assert(shown(after) =~= shown(st).push(Shown::Image { filename: name, placement }));
        }
    }
    if op == 0x89 && st.in_link {
        let target = target_of(targets, st.link_hash);
        let text = seq![InlineView::Text(if seg.len() > 0 { seg } else { target })];
        lemma_shown_push(st.current, InlineView::Link { text, target, kind: st.link_kind });
        let after = crate::opcode::with_link(st, seg, targets);
        assert(shown(after) =~= shown(st).push(
            Shown::Link { text, target, kind: st.link_kind },
        ));
    }
}

/// A hash leads to the context string that has it; a hash that none has shows
/// itself, as eight hexadecimal digits. Styles wrap an element: italic within
/// bold.
pub proof fn law_targets_and_styles(
    targets: Map<u32, Seq<char>>,
    hash: u32,
    inner: InlineView,
)
    ensures
        targets.contains_key(hash) ==> target_of(targets, hash) == targets[hash],
        !targets.contains_key(hash) ==> target_of(targets, hash).len() == 10 && target_of(
            targets,
            hash,
        )[0] == '0' && target_of(targets, hash)[1] == 'x' && number_of(
            target_of(targets, hash).skip(2),
            16,
        ) == hash && target_of(targets, hash).skip(2) == zero_padded(hex_upper(hash as nat), 8),
        styled(inner, false, false) == inner,
        styled(inner, true, false) == InlineView::Bold(seq![inner]),
        styled(inner, false, true) == InlineView::Italic(seq![inner]),
        styled(inner, true, true) == InlineView::Bold(seq![InlineView::Italic(seq![inner])]),
{
    reveal_strlit("0x");
    law_numerals(hash as nat, 8);
    let digits = zero_padded(hex_upper(hash as nat), 8);
    lemma_eight_digits();
    lemma_hex_length(hash as nat, 8);
    assert(("0x"@ + digits).skip(2) =~= digits);
}

proof fn lemma_eight_digits()
    ensures
        vstd::arithmetic::power::pow(16, 8) == 0x1_0000_0000,
{
    vstd::arithmetic::power::lemma_pow1(16);
    vstd::arithmetic::power::lemma_pow_adds(16, 1, 1);
    assert(vstd::arithmetic::power::pow(16, 2) == 16 * 16);
    vstd::arithmetic::power::lemma_pow_adds(16, 2, 2);
    assert(vstd::arithmetic::power::pow(16, 4) == 256 * 256);
    vstd::arithmetic::power::lemma_pow_adds(16, 4, 4);
    assert(vstd::arithmetic::power::pow(16, 8) == 65536 * 65536);
}

proof fn lemma_hex_length(n: nat, width: nat)
    requires
        n < vstd::arithmetic::power::pow(16, width),
        width > 0,
    ensures
        hex_upper(n).len() <= width,
    decreases width,
{
    if n >= 16 {
        vstd::arithmetic::power::lemma_pow1(16);
        if width == 1 {
            assert(false);
        } else {
            vstd::arithmetic::power::lemma_pow_adds(16, 1, (width - 1) as nat);
            let p = vstd::arithmetic::power::pow(16, (width - 1) as nat);
            assert(n < 16 * p);
            assert(n / 16 < p);
            lemma_hex_length(n / 16, (width - 1) as nat);
        }
    }
}

// ---------------------------------------------------------------------------
// Programs
// ---------------------------------------------------------------------------

/// A command of a text record, with the segments that it takes.
pub enum Command {
    /// Text, and a change of the font.
    Font { font: u16, text: Seq<char> },
    /// Text, and a line break.
    Break { text: Seq<char> },
    /// Text, and the end of the paragraph.
    End { text: Seq<char> },
    /// Text, and a tab.
    Tab { text: Seq<char> },
    /// A picture by its number, inline, left or right. With a number of
    /// hotspots it has the form of the 3.1 compiler, without one that of 3.0.
    Image {
        op: u8,
        hotspots: Option<u16>,
        number: u16,
        rest: Seq<u8>,
        skipped: Seq<char>,
    },
    /// A link with its text.
    Link { op: u8, hash: u32, skipped: Seq<char>, text: Seq<char> },
}

/// Whether a command can be laid out.
pub open spec fn command_ok(c: Command) -> bool {
    match c {
        Command::Image { op, hotspots, rest, .. } => {
            &&& op == 0x86 || op == 0x87 || op == 0x88
            &&& hotspots matches Some(n) ==> n < 0x8000
            &&& rest.len() < 0x1000_0000
        },
        Command::Link { op, .. } => op == 0xE3 || op == 0xCC || op == 0xE6 || op == 0xC8,
        _ => true,
    }
}

/// The bytes of a command.
pub open spec fn command_bytes(c: Command) -> Seq<u8> {
    match c {
        Command::Font { font, .. } => seq![0x80u8] + le16_bytes(font),
        Command::Break { .. } => seq![0x81u8],
        Command::End { .. } => seq![0x82u8],
        Command::Tab { .. } => seq![0x83u8],
        Command::Image { op, hotspots, number, rest, .. } => image_command_bytes(
            op,
            hotspots,
            0,
            number,
            rest,
        ),
        Command::Link { op, hash, .. } => seq![op] + (le32_bytes(hash) + seq![0x89u8]),
    }
}

/// The segments that a command takes. An image skips one, and so does the start
/// of a link.
pub open spec fn command_segments(c: Command) -> Seq<Seq<char>> {
    match c {
        Command::Font { text, .. } => seq![text],
        Command::Break { text } => seq![text],
        Command::End { text } => seq![text],
        Command::Tab { text } => seq![text],
        Command::Image { skipped, .. } => seq![skipped],
        Command::Link { skipped, text, .. } => seq![skipped, text],
    }
}

/// What a command shows.
pub open spec fn command_shows(c: Command, targets: Map<u32, Seq<char>>) -> Seq<Shown> {
    match c {
        Command::Font { text, .. } => characters(text),
        Command::Break { text } => characters(text) + characters(seq!['\n']),
        Command::End { text } => characters(text),
        Command::Tab { text } => characters(text) + characters(seq!['\t']),
        Command::Image { op, number, .. } => seq![
            Shown::Image {
                filename: "|bm"@ + decimal(number as nat),
                placement: if op == 0x86 {
                    ImagePlacement::Inline
                } else if op == 0x87 {
                    ImagePlacement::Left
                } else {
                    ImagePlacement::Right
                },
            },
        ],
        Command::Link { op, hash, text, .. } => seq![
            Shown::Link {
                text: seq![
                    InlineView::Text(
                        if text.len() > 0 {
                            text
                        } else {
                            target_of(targets, hash)
                        },
                    ),
                ],
                target: target_of(targets, hash),
                kind: if op == 0xE3 || op == 0xCC {
                    LinkKind::Jump
                } else {
                    LinkKind::Popup
                },
            },
        ],
    }
}

/// The bytes of commands, one after another.
pub open spec fn program_bytes(p: Seq<Command>) -> Seq<u8>
    decreases p.len(),
{
    if p.len() == 0 {
        Seq::empty()
    } else {
        command_bytes(p[0]) + program_bytes(p.skip(1))
    }
}

/// The segments of commands, one after another.
pub open spec fn program_segments(p: Seq<Command>) -> Seq<Seq<char>>
    decreases p.len(),
{
    if p.len() == 0 {
        Seq::empty()
    } else {
        command_segments(p[0]) + program_segments(p.skip(1))
    }
}

/// What commands show, one after another.
pub open spec fn program_shows(p: Seq<Command>, targets: Map<u32, Seq<char>>) -> Seq<Shown>
    decreases p.len(),
{
    if p.len() == 0 {
        Seq::empty()
    } else {
        command_shows(p[0], targets) + program_shows(p.skip(1), targets)
    }
}

/// Whether the segments from number `taken` on are the given ones.
pub open spec fn segments_are(segs: Seq<Seq<char>>, taken: int, given: Seq<Seq<char>>) -> bool {
    &&& 0 <= taken
    &&& taken + given.len() <= segs.len()
    &&& segs.subrange(taken, taken + given.len()) == given
}

/// Whether no link is open and the text is plain.
pub open spec fn at_rest(st: StateView) -> bool {
    !st.bold && !st.italic && !st.in_link
}

/// The bytes of an image command whose picture is embedded where `embedded` is
/// not zero, and otherwise the internal file with the given number.
pub open spec fn image_command_bytes(
    op: u8,
    hotspots: Option<u16>,
    embedded: u16,
    number: u16,
    rest: Seq<u8>,
) -> Seq<u8> {
    let load = (match hotspots {
        Some(n) => word_bytes(n),
        None => Seq::empty(),
    }) + (le16_bytes(embedded) + (le16_bytes(number) + rest));
    seq![
        op,
        if hotspots is Some {
            0x22u8
        } else {
            0x03u8
        },
    ] + (long_bytes(load.len() as u32) + load)
}

/// An image command is read back: the name of its picture, where it is an
/// internal file, and where the command ends.
pub proof fn law_image_command_is_read_back(
    cmd: Seq<u8>,
    pos: int,
    op: u8,
    hotspots: Option<u16>,
    embedded: u16,
    number: u16,
    rest: Seq<u8>,
)
    requires
        hotspots matches Some(n) ==> n < 0x8000,
        rest.len() < 0x1000_0000,
        holds(cmd, pos, image_command_bytes(op, hotspots, embedded, number, rest)),
    ensures
        image_at(cmd, pos) == Some(
            (
                if embedded == 0 {
                    Some("|bm"@ + decimal(number as nat))
                } else {
                    None
                },
                pos + image_command_bytes(op, hotspots, embedded, number, rest).len(),
            ),
        ),
{
    let kind = if hotspots is Some {
        0x22u8
    } else {
        0x03u8
    };
    let front = match hotspots {
        Some(n) => word_bytes(n),
        None => Seq::empty(),
    };
    let back = le16_bytes(embedded) + (le16_bytes(number) + rest);
    let load = front + back;
    let size = long_bytes(load.len() as u32);
    lemma_holds_parts(cmd, pos, seq![op, kind], size + load);
    lemma_holds_parts(cmd, pos + 2, size, load);
    assert(cmd.subrange(pos, pos + 2)[1] == cmd[pos + 1]);
    law_long_is_read_back(cmd, pos + 2, load.len() as u32);
    let start = pos + 2 + size.len();
    lemma_holds_parts(cmd, start, front, back);
    let at = start + front.len();
    lemma_holds_parts(cmd, at, le16_bytes(embedded), le16_bytes(number) + rest);
    lemma_holds_parts(cmd, at + 2, le16_bytes(number), rest);
    lemma_holds_le16(cmd, at, embedded);
    lemma_holds_le16(cmd, at + 2, number);
    if let Some(n) = hotspots {
        law_word_is_read_back(cmd, start, n);
    }
}

/// An image command of any other type shows nothing and ends where its size
/// says.
pub proof fn law_other_images_show_nothing(cmd: Seq<u8>, pos: int, op: u8, kind: u8, load: Seq<u8>)
    requires
        kind != 0x22,
        kind != 0x03,
        load.len() < 0x1000_0000,
        holds(cmd, pos, seq![op, kind] + (long_bytes(load.len() as u32) + load)),
    ensures
        image_at(cmd, pos) == Some(
            (None::<Seq<char>>, pos + 2 + long_bytes(load.len() as u32).len() + load.len()),
        ),
{
    let size = long_bytes(load.len() as u32);
    lemma_holds_parts(cmd, pos, seq![op, kind], size + load);
    lemma_holds_parts(cmd, pos + 2, size, load);
    assert(cmd.subrange(pos, pos + 2)[1] == cmd[pos + 1]);
    law_long_is_read_back(cmd, pos + 2, load.len() as u32);
}

proof fn lemma_text_runs(
    cmd: Seq<u8>,
    pos: int,
    segs: Seq<Seq<char>>,
    taken: int,
    st: StateView,
    targets: Map<u32, Seq<char>>,
    c: Command,
) -> (after: StateView)
    requires
        c is Font || c is Break || c is End || c is Tab,
        command_ok(c),
        holds(cmd, pos, command_bytes(c)),
        segments_are(segs, taken, command_segments(c)),
        at_rest(st),
    ensures
        run_from(cmd, pos, segs, taken, st, targets) == run_from(
            cmd,
            pos + command_bytes(c).len(),
            segs,
            taken + command_segments(c).len(),
            after,
            targets,
        ),
        shown(after) == shown(st) + command_shows(c, targets),
        at_rest(after),
{
    let bytes = command_bytes(c);
    assert(cmd.subrange(pos, pos + bytes.len())[0] == cmd[pos]);
    assert(segs.subrange(taken, taken + 1)[0] == segs[taken]);
    let seg = segs[taken];
    law_commands_add_to_what_is_shown(cmd, pos, seg, st, targets);
    let (after, next, used) = step(cmd, pos, seg, st, targets)->Some_0;
    assert(shown(after) =~= shown(st) + command_shows(c, targets));
    after
}

proof fn lemma_image_runs(
    cmd: Seq<u8>,
    pos: int,
    segs: Seq<Seq<char>>,
    taken: int,
    st: StateView,
    targets: Map<u32, Seq<char>>,
    c: Command,
) -> (after: StateView)
    requires
        c is Image,
        command_ok(c),
        holds(cmd, pos, command_bytes(c)),
        segments_are(segs, taken, command_segments(c)),
        at_rest(st),
    ensures
        run_from(cmd, pos, segs, taken, st, targets) == run_from(
            cmd,
            pos + command_bytes(c).len(),
            segs,
            taken + command_segments(c).len(),
            after,
            targets,
        ),
        shown(after) == shown(st) + command_shows(c, targets),
        at_rest(after),
{
    let bytes = command_bytes(c);
    assert(cmd.subrange(pos, pos + bytes.len())[0] == cmd[pos]);
    assert(segs.subrange(taken, taken + 1)[0] == segs[taken]);
    let seg = segs[taken];
    law_image_command_is_read_back(cmd, pos, c->Image_op, c->hotspots, 0, c->number, c->rest);
    law_commands_add_to_what_is_shown(cmd, pos, seg, st, targets);
    let (after, next, used) = step(cmd, pos, seg, st, targets)->Some_0;
    assert(shown(after) =~= shown(st) + command_shows(c, targets));
    after
}

proof fn lemma_link_runs(
    cmd: Seq<u8>,
    pos: int,
    segs: Seq<Seq<char>>,
    taken: int,
    st: StateView,
    targets: Map<u32, Seq<char>>,
    c: Command,
) -> (after: StateView)
    requires
        c is Link,
        command_ok(c),
        holds(cmd, pos, command_bytes(c)),
        segments_are(segs, taken, command_segments(c)),
        at_rest(st),
    ensures
        run_from(cmd, pos, segs, taken, st, targets) == run_from(
            cmd,
            pos + command_bytes(c).len(),
            segs,
            taken + command_segments(c).len(),
            after,
            targets,
        ),
        shown(after) == shown(st) + command_shows(c, targets),
        at_rest(after),
{
    let op = c->Link_op;
    let hash = c->hash;
    assert(segs.subrange(taken, taken + 2)[0] == segs[taken]);
    assert(segs.subrange(taken, taken + 2)[1] == segs[taken + 1]);
    lemma_holds_parts(cmd, pos, seq![op], le32_bytes(hash) + seq![0x89u8]);
    lemma_holds_parts(cmd, pos + 1, le32_bytes(hash), seq![0x89u8]);
    assert(cmd.subrange(pos, pos + 1)[0] == cmd[pos]);
    assert(cmd.subrange(pos + 5, pos + 6)[0] == cmd[pos + 5]);
    lemma_holds_le32(cmd, pos + 1, hash);
    let first = segs[taken];
    let second = segs[taken + 1];
    law_commands_add_to_what_is_shown(cmd, pos, first, st, targets);
    let (middle, next, used) = step(cmd, pos, first, st, targets)->Some_0;
    law_commands_add_to_what_is_shown(cmd, pos + 5, second, middle, targets);
    let (after, end, more) = step(cmd, pos + 5, second, middle, targets)->Some_0;
    assert(run_from(cmd, pos, segs, taken, st, targets) == run_from(
        cmd,
        pos + 5,
        segs,
        taken + 1,
        middle,
        targets,
    ));
    assert(run_from(cmd, pos + 5, segs, taken + 1, middle, targets) == run_from(
        cmd,
        pos + 6,
        segs,
        taken + 2,
        after,
        targets,
    ));
    assert(shown(after) =~= shown(st) + command_shows(c, targets));
    after
}

/// One command runs: what it shows is added, and its segments are taken.
proof fn lemma_command_runs(
    cmd: Seq<u8>,
    pos: int,
    segs: Seq<Seq<char>>,
    taken: int,
    st: StateView,
    targets: Map<u32, Seq<char>>,
    c: Command,
) -> (after: StateView)
    requires
        command_ok(c),
        holds(cmd, pos, command_bytes(c)),
        segments_are(segs, taken, command_segments(c)),
        at_rest(st),
    ensures
        run_from(cmd, pos, segs, taken, st, targets) == run_from(
            cmd,
            pos + command_bytes(c).len(),
            segs,
            taken + command_segments(c).len(),
            after,
            targets,
        ),
        shown(after) == shown(st) + command_shows(c, targets),
        at_rest(after),
{
    match c {
        Command::Image { .. } => lemma_image_runs(cmd, pos, segs, taken, st, targets, c),
        Command::Link { .. } => lemma_link_runs(cmd, pos, segs, taken, st, targets, c),
        _ => lemma_text_runs(cmd, pos, segs, taken, st, targets, c),
    }
}

proof fn lemma_segments_parts(
    segs: Seq<Seq<char>>,
    taken: int,
    mine: Seq<Seq<char>>,
    others: Seq<Seq<char>>,
)
    requires
        segments_are(segs, taken, mine + others),
    ensures
        segments_are(segs, taken, mine),
        segments_are(segs, taken + mine.len(), others),
{
    let all = segs.subrange(taken, taken + (mine + others).len());
    assert(segs.subrange(taken, taken + mine.len()) =~= mine) by {
        assert forall|i: int| 0 <= i < mine.len() implies segs[taken + i] == mine[i] by {
            assert(all[i] == (mine + others)[i]);
        }
    }
    assert(segs.subrange(taken + mine.len(), taken + mine.len() + others.len()) =~= others) by {
        assert forall|i: int| 0 <= i < others.len() implies segs[taken + mine.len() + i]
            == others[i] by {
            assert(all[mine.len() + i] == (mine + others)[mine.len() + i]);
        }
    }
}

proof fn lemma_program_runs(
    cmd: Seq<u8>,
    pos: int,
    segs: Seq<Seq<char>>,
    taken: int,
    st: StateView,
    targets: Map<u32, Seq<char>>,
    p: Seq<Command>,
)
    requires
        forall|i: int| 0 <= i < p.len() ==> command_ok(#[trigger] p[i]),
        holds(cmd, pos, program_bytes(p)),
        pos + program_bytes(p).len() == cmd.len() || pos + program_bytes(p).len() < cmd.len()
            && cmd[pos + program_bytes(p).len()] == 0xFF,
        segments_are(segs, taken, program_segments(p)),
        at_rest(st),
    ensures
        shown(run_from(cmd, pos, segs, taken, st, targets)) == shown(st) + program_shows(p, targets),
    decreases p.len(),
{
    if p.len() == 0 {
        assert(shown(st) + program_shows(p, targets) =~= shown(st));
    } else {
        let c = p[0];
        let rest = p.skip(1);
        assert(command_ok(c));
        assert forall|i: int| 0 <= i < rest.len() implies command_ok(#[trigger] rest[i]) by {
            assert(rest[i] == p[i + 1]);
        }
        lemma_holds_parts(cmd, pos, command_bytes(c), program_bytes(rest));
        let mine = command_segments(c);
        let others = program_segments(rest);
        lemma_segments_parts(segs, taken, mine, others);
        let after = lemma_command_runs(cmd, pos, segs, taken, st, targets, c);
        lemma_program_runs(
            cmd,
            pos + command_bytes(c).len(),
            segs,
            taken + mine.len(),
            after,
            targets,
            rest,
        );
        assert(shown(st) + command_shows(c, targets) + program_shows(rest, targets) =~= shown(st)
            + program_shows(p, targets));
    }
}

/// Nothing is lost, and nothing is moved: the blocks of a stream of commands
/// show what the commands show, in order. All text that a command takes is
/// there, with its line breaks and tabs, and links and images stand where their
/// commands stand.
pub proof fn law_blocks_show_all_commands(
    p: Seq<Command>,
    tail: Seq<u8>,
    more: Seq<Seq<char>>,
    targets: Map<u32, Seq<char>>,
)
    requires
        forall|i: int| 0 <= i < p.len() ==> command_ok(#[trigger] p[i]),
        tail.len() == 0 || tail[0] == 0xFF,
    ensures
        shown_blocks(blocks_of(program_bytes(p) + tail, program_segments(p) + more, targets))
            == program_shows(p, targets),
{
    let cmd = program_bytes(p) + tail;
    let segs = program_segments(p) + more;
    assert(cmd.subrange(0, program_bytes(p).len() as int) =~= program_bytes(p));
    assert(segs.subrange(0, program_segments(p).len() as int) =~= program_segments(p));
    lemma_program_runs(cmd, 0, segs, 0, start_state(), targets, p);
    let end = run_from(cmd, 0, segs, 0, start_state(), targets);
    lemma_shown_end(end);
    let blocks = blocks_of(cmd, segs, targets);
    assert(shown(start_state()) + program_shows(p, targets) =~= program_shows(p, targets));
    assert(shown_blocks(blocks) + shown_inlines(with_paragraph_end(end).current)
        =~= shown_blocks(blocks));
}

/// The same for a whole record: a paragraph header, commands, and the texts of
/// their segments with NUL bytes between them.
pub proof fn law_record_shows_all_commands(
    h: ParagraphHeader,
    p: Seq<Command>,
    tail: Seq<u8>,
    texts: Seq<Seq<u8>>,
    targets: Map<u32, Seq<char>>,
)
    requires
        paragraph_header_ok(h),
        forall|i: int| 0 <= i < p.len() ==> command_ok(#[trigger] p[i]),
        tail.len() == 0 || tail[0] == 0xFF,
        texts.len() > 0,
        forall|i: int| 0 <= i < texts.len() ==> nul_free(#[trigger] texts[i]),
        program_segments(p).len() <= texts.len(),
        forall|i: int|
            0 <= i < program_segments(p).len() ==> #[trigger] program_segments(p)[i] == text_of(
                texts[i],
            ),
    ensures
        shown_blocks(
            record_blocks(
                paragraph_header_bytes(h) + (program_bytes(p) + tail),
                nul_separated(texts),
                targets,
            ),
        ) == program_shows(p, targets),
{
    let head = paragraph_header_bytes(h);
    let commands = program_bytes(p) + tail;
    law_commands_follow_the_header(h, commands);
    assert((head + commands).skip(head.len() as int) =~= commands);
    law_segments_are_read_back(texts);
    let segs = texts.map_values(|t: Seq<u8>| text_of(t));
    let n = program_segments(p).len() as int;
    assert(program_segments(p) + segs.skip(n) =~= segs);
    law_blocks_show_all_commands(p, tail, segs.skip(n), targets);
}

// ---------------------------------------------------------------------------
// Paragraphs
// ---------------------------------------------------------------------------

/// What a block shows, with a boundary behind each paragraph.
pub open spec fn marked_block(b: BlockView) -> Seq<Shown> {
    match b {
        BlockView::Paragraph(inlines) => shown_inlines(inlines).push(Shown::Boundary),
        _ => shown_block(b),
    }
}

/// What blocks show, with a boundary behind each paragraph.
pub open spec fn marked_blocks(s: Seq<BlockView>) -> Seq<Shown>
    decreases s.len(),
{
    if s.len() == 0 {
        Seq::empty()
    } else {
        marked_blocks(s.drop_last()) + marked_block(s.last())
    }
}

/// What commands mark: what they show, a boundary at the end of a paragraph, and
/// a boundary in front of an image.
pub open spec fn command_marks(c: Command, targets: Map<u32, Seq<char>>) -> Seq<Shown> {
    match c {
        Command::End { text } => characters(text).push(Shown::Boundary),
        Command::Image { .. } => seq![Shown::Boundary] + command_shows(c, targets),
        _ => command_shows(c, targets),
    }
}

/// What commands mark, one after another.
pub open spec fn program_marks(p: Seq<Command>, targets: Map<u32, Seq<char>>) -> Seq<Shown>
    decreases p.len(),
{
    if p.len() == 0 {
        Seq::empty()
    } else {
        command_marks(p[0], targets) + program_marks(p.skip(1), targets)
    }
}

/// Whether a paragraph is open behind what is shown.
pub open spec fn is_open(s: Seq<Shown>) -> bool {
    s.len() > 0 && !(s.last() is Boundary) && !(s.last() is Image)
}

/// What is shown, without the boundaries that close nothing.
pub open spec fn settled(s: Seq<Shown>) -> Seq<Shown>
    decreases s.len(),
{
    if s.len() == 0 {
        s
    } else {
        let before = settled(s.drop_last());
        if s.last() is Boundary && !is_open(before) {
            before
        } else {
            before.push(s.last())
        }
    }
}

/// What the state shows, with a boundary behind each paragraph that is closed.
pub open spec fn marked(st: StateView) -> Seq<Shown> {
    marked_blocks(st.blocks) + shown_inlines(st.current)
}

/// Whether an element of a paragraph shows something.
pub open spec fn solid(i: InlineView) -> bool {
    i matches InlineView::Text(s) ==> s.len() > 0
}

/// What every command keeps: the text is plain, no link is open, the elements of
/// the open paragraph show something, and the blocks are paragraphs and images.
pub open spec fn orderly(st: StateView) -> bool {
    &&& at_rest(st)
    &&& forall|i: int| 0 <= i < st.current.len() ==> solid(#[trigger] st.current[i])
    &&& forall|i: int| 0 <= i < st.blocks.len() ==> !((#[trigger] st.blocks[i]) is Table)
}

proof fn lemma_settled_push(s: Seq<Shown>, x: Shown)
    ensures
        settled(s.push(x)) == if x is Boundary && !is_open(settled(s)) {
            settled(s)
        } else {
            settled(s).push(x)
        },
{
    assert(s.push(x).drop_last() =~= s);
}

proof fn lemma_settled_text(s: Seq<Shown>, text: Seq<Shown>)
    requires
        forall|i: int| 0 <= i < text.len() ==> !((#[trigger] text[i]) is Boundary),
    ensures
        settled(s + text) == settled(s) + text,
    decreases text.len(),
{
    if text.len() == 0 {
        assert(s + text =~= s);
        assert(settled(s) + text =~= settled(s));
    } else {
        let front = text.drop_last();
        let n = text.len() - 1;
        assert(!(text[n] is Boundary));
        assert forall|i: int| 0 <= i < front.len() implies !((#[trigger] front[i]) is Boundary) by {
            assert(!(text[i] is Boundary));
        }
        lemma_settled_text(s, front);
        assert(s + text =~= (s + front).push(text[n]));
        lemma_settled_push(s + front, text[n]);
        assert((settled(s) + front).push(text[n]) =~= settled(s) + text);
    }
}

proof fn lemma_marked_block_push(s: Seq<BlockView>, b: BlockView)
    ensures
        marked_blocks(s.push(b)) == marked_blocks(s) + marked_block(b),
{
    assert(s.push(b).drop_last() =~= s);
}

proof fn lemma_inlines_solid(s: Seq<InlineView>)
    requires
        forall|i: int| 0 <= i < s.len() ==> solid(#[trigger] s[i]),
    ensures
        s.len() > 0 ==> is_open(shown_inlines(s)),
        s.len() == 0 ==> shown_inlines(s).len() == 0,
{
    if s.len() > 0 {
        let last = s[s.len() - 1];
        assert(solid(last));
        let all = shown_inlines(s);
        let piece = shown_inline(last);
        assert(piece.len() > 0);
        assert(all.last() == piece.last());
    }
}

proof fn lemma_blocks_closed(s: Seq<BlockView>)
    requires
        forall|i: int| 0 <= i < s.len() ==> !((#[trigger] s[i]) is Table),
    ensures
        !is_open(marked_blocks(s)),
{
    if s.len() > 0 {
        assert(!(s[s.len() - 1] is Table));
        let piece = marked_block(s.last());
        assert(piece.len() > 0);
        assert(marked_blocks(s).last() == piece.last());
    }
}

/// A paragraph is open where the state has elements for it.
proof fn lemma_open(st: StateView)
    requires
        orderly(st),
    ensures
        is_open(marked(st)) <==> st.current.len() > 0,
{
    lemma_inlines_solid(st.current);
    lemma_blocks_closed(st.blocks);
    let inlines = shown_inlines(st.current);
    if st.current.len() > 0 {
        assert(marked(st).last() == inlines.last());
    } else {
        assert(marked(st) =~= marked_blocks(st.blocks));
    }
}

proof fn lemma_marked_text(before: StateView, after: StateView, text: Seq<char>)
    requires
        orderly(before),
        after == (StateView { current: after.current, ..before }),
        text.len() > 0 && after.current == merged(before.current, InlineView::Text(text))
            || text.len() == 0 && after.current == before.current,
    ensures
        marked(after) == marked(before) + characters(text),
        orderly(after),
{
    lemma_shown_merged(before.current, text);
    if text.len() == 0 {
        assert(characters(text) =~= Seq::empty());
    }
    assert(marked(after) =~= marked(before) + characters(text));
    assert forall|i: int| 0 <= i < after.current.len() implies solid(
        #[trigger] after.current[i],
    ) by {
        if i < before.current.len() {
            assert(solid(before.current[i]));
        }
    }
}

proof fn lemma_marked_end(st: StateView, raw: Seq<Shown>)
    requires
        orderly(st),
        marked(st) == settled(raw),
    ensures
        marked(with_paragraph_end(st)) == settled(raw.push(Shown::Boundary)),
        orderly(with_paragraph_end(st)),
        with_paragraph_end(st).current.len() == 0,
{
    lemma_open(st);
    lemma_settled_push(raw, Shown::Boundary);
    if st.current.len() > 0 {
        let b = BlockView::Paragraph(st.current);
        lemma_marked_block_push(st.blocks, b);
        let after = with_paragraph_end(st);
        assert(shown_inlines(after.current) =~= Seq::empty());
        assert(marked(after) =~= marked(st).push(Shown::Boundary));
        assert forall|i: int| 0 <= i < after.blocks.len() implies !((
        #[trigger] after.blocks[i]) is Table) by {
            if i < st.blocks.len() {
                assert(!(st.blocks[i] is Table));
            }
        }
    }
}

proof fn lemma_characters_mark_nothing(text: Seq<char>)
    ensures
        forall|i: int|
            0 <= i < characters(text).len() ==> !((#[trigger] characters(text)[i]) is Boundary),
{
}

proof fn lemma_text_marks(
    cmd: Seq<u8>,
    pos: int,
    segs: Seq<Seq<char>>,
    taken: int,
    st: StateView,
    targets: Map<u32, Seq<char>>,
    c: Command,
    raw: Seq<Shown>,
) -> (after: StateView)
    requires
        c is Font || c is Break || c is End || c is Tab,
        command_ok(c),
        holds(cmd, pos, command_bytes(c)),
        segments_are(segs, taken, command_segments(c)),
        orderly(st),
        marked(st) == settled(raw),
    ensures
        run_from(cmd, pos, segs, taken, st, targets) == run_from(
            cmd,
            pos + command_bytes(c).len(),
            segs,
            taken + command_segments(c).len(),
            after,
            targets,
        ),
        marked(after) == settled(raw + command_marks(c, targets)),
        orderly(after),
{
    reveal_strlit("\n");
    reveal_strlit("\t");
    assert("\n"@ =~= seq!['\n']);
    assert("\t"@ =~= seq!['\t']);
    let bytes = command_bytes(c);
    assert(cmd.subrange(pos, pos + bytes.len())[0] == cmd[pos]);
    assert(segs.subrange(taken, taken + 1)[0] == segs[taken]);
    let seg = segs[taken];
    let texted = crate::opcode::with_text(st, seg);
    lemma_marked_text(st, texted, seg);
    lemma_characters_mark_nothing(seg);
    lemma_settled_text(raw, characters(seg));
    let (after, next, used) = step(cmd, pos, seg, st, targets)->Some_0;
    match c {
        Command::Font { .. } => {
            assert(after == texted);
        },
        Command::End { .. } => {
            lemma_marked_end(texted, raw + characters(seg));
            assert((raw + characters(seg)).push(Shown::Boundary) =~= raw + command_marks(
                c,
                targets,
            ));
        },
        Command::Break { .. } => {
            lemma_marked_text(texted, after, seq!['\n']);
            lemma_characters_mark_nothing(seq!['\n']);
            lemma_settled_text(raw + characters(seg), characters(seq!['\n']));
            assert(raw + characters(seg) + characters(seq!['\n']) =~= raw + command_marks(
                c,
                targets,
            ));
        },
        _ => {
            lemma_marked_text(texted, after, seq!['\t']);
            lemma_characters_mark_nothing(seq!['\t']);
            lemma_settled_text(raw + characters(seg), characters(seq!['\t']));
            assert(raw + characters(seg) + characters(seq!['\t']) =~= raw + command_marks(
                c,
                targets,
            ));
        },
    }
    after
}

proof fn lemma_image_marks(
    cmd: Seq<u8>,
    pos: int,
    segs: Seq<Seq<char>>,
    taken: int,
    st: StateView,
    targets: Map<u32, Seq<char>>,
    c: Command,
    raw: Seq<Shown>,
) -> (after: StateView)
    requires
        c is Image,
        command_ok(c),
        holds(cmd, pos, command_bytes(c)),
        segments_are(segs, taken, command_segments(c)),
        orderly(st),
        marked(st) == settled(raw),
    ensures
        run_from(cmd, pos, segs, taken, st, targets) == run_from(
            cmd,
            pos + command_bytes(c).len(),
            segs,
            taken + command_segments(c).len(),
            after,
            targets,
        ),
        marked(after) == settled(raw + command_marks(c, targets)),
        orderly(after),
{
    let bytes = command_bytes(c);
    assert(cmd.subrange(pos, pos + bytes.len())[0] == cmd[pos]);
    assert(segs.subrange(taken, taken + 1)[0] == segs[taken]);
    let seg = segs[taken];
    law_image_command_is_read_back(cmd, pos, c->Image_op, c->hotspots, 0, c->number, c->rest);
    let (after, next, used) = step(cmd, pos, seg, st, targets)->Some_0;
    let ended = with_paragraph_end(st);
    lemma_marked_end(st, raw);
    let filename = "|bm"@ + decimal(c->number as nat);
    let placement = crate::opcode::placement_of(c->Image_op);
    let image = BlockView::Image(ImageRefView { filename, placement });
    lemma_marked_block_push(ended.blocks, image);
    let mark = Shown::Image { filename, placement };
    assert(shown_inlines(ended.current) =~= Seq::empty());
    assert(marked(after) =~= marked(ended).push(mark));
    lemma_settled_push(raw.push(Shown::Boundary), mark);
    assert(raw.push(Shown::Boundary).push(mark) =~= raw + command_marks(c, targets));
    assert forall|i: int| 0 <= i < after.blocks.len() implies !((
    #[trigger] after.blocks[i]) is Table) by {
        if i < ended.blocks.len() {
            assert(!(ended.blocks[i] is Table));
        }
    }
    after
}

proof fn lemma_link_marks(
    cmd: Seq<u8>,
    pos: int,
    segs: Seq<Seq<char>>,
    taken: int,
    st: StateView,
    targets: Map<u32, Seq<char>>,
    c: Command,
    raw: Seq<Shown>,
) -> (after: StateView)
    requires
        c is Link,
        command_ok(c),
        holds(cmd, pos, command_bytes(c)),
        segments_are(segs, taken, command_segments(c)),
        orderly(st),
        marked(st) == settled(raw),
    ensures
        run_from(cmd, pos, segs, taken, st, targets) == run_from(
            cmd,
            pos + command_bytes(c).len(),
            segs,
            taken + command_segments(c).len(),
            after,
            targets,
        ),
        marked(after) == settled(raw + command_marks(c, targets)),
        orderly(after),
{
    let op = c->Link_op;
    let hash = c->hash;
    assert(segs.subrange(taken, taken + 2)[0] == segs[taken]);
    assert(segs.subrange(taken, taken + 2)[1] == segs[taken + 1]);
    lemma_holds_parts(cmd, pos, seq![op], le32_bytes(hash) + seq![0x89u8]);
    lemma_holds_parts(cmd, pos + 1, le32_bytes(hash), seq![0x89u8]);
    assert(cmd.subrange(pos, pos + 1)[0] == cmd[pos]);
    assert(cmd.subrange(pos + 5, pos + 6)[0] == cmd[pos + 5]);
    lemma_holds_le32(cmd, pos + 1, hash);
    let first = segs[taken];
    let second = segs[taken + 1];
    let (middle, next, used) = step(cmd, pos, first, st, targets)->Some_0;
    assert(middle.link_hash == hash);
    let (after, end, more) = step(cmd, pos + 5, second, middle, targets)->Some_0;
    assert(run_from(cmd, pos, segs, taken, st, targets) == run_from(
        cmd,
        pos + 5,
        segs,
        taken + 1,
        middle,
        targets,
    ));
    assert(run_from(cmd, pos + 5, segs, taken + 1, middle, targets) == run_from(
        cmd,
        pos + 6,
        segs,
        taken + 2,
        after,
        targets,
    ));
    let target = target_of(targets, hash);
    let text = seq![InlineView::Text(if second.len() > 0 { second } else { target })];
    let link = InlineView::Link { text, target, kind: middle.link_kind };
    lemma_shown_push(st.current, link);
    let mark = Shown::Link { text, target, kind: middle.link_kind };
    assert(after.current == st.current.push(link));
    assert(marked(after) =~= marked(st).push(mark));
    lemma_settled_push(raw, mark);
    assert(raw.push(mark) =~= raw + command_marks(c, targets));
    assert forall|i: int| 0 <= i < after.current.len() implies solid(
        #[trigger] after.current[i],
    ) by {
        if i < st.current.len() {
            assert(solid(st.current[i]));
        }
    }
    after
}

proof fn lemma_program_marks(
    cmd: Seq<u8>,
    pos: int,
    segs: Seq<Seq<char>>,
    taken: int,
    st: StateView,
    targets: Map<u32, Seq<char>>,
    p: Seq<Command>,
    raw: Seq<Shown>,
)
    requires
        forall|i: int| 0 <= i < p.len() ==> command_ok(#[trigger] p[i]),
        holds(cmd, pos, program_bytes(p)),
        pos + program_bytes(p).len() == cmd.len() || pos + program_bytes(p).len() < cmd.len()
            && cmd[pos + program_bytes(p).len()] == 0xFF,
        segments_are(segs, taken, program_segments(p)),
        orderly(st),
        marked(st) == settled(raw),
    ensures
        marked(run_from(cmd, pos, segs, taken, st, targets)) == settled(
            raw + program_marks(p, targets),
        ),
        orderly(run_from(cmd, pos, segs, taken, st, targets)),
    decreases p.len(),
{
    if p.len() == 0 {
        assert(raw + program_marks(p, targets) =~= raw);
    } else {
        let c = p[0];
        let rest = p.skip(1);
        assert(command_ok(c));
        assert forall|i: int| 0 <= i < rest.len() implies command_ok(#[trigger] rest[i]) by {
            assert(rest[i] == p[i + 1]);
        }
        lemma_holds_parts(cmd, pos, command_bytes(c), program_bytes(rest));
        let mine = command_segments(c);
        let others = program_segments(rest);
        lemma_segments_parts(segs, taken, mine, others);
        let after = match c {
            Command::Image { .. } => lemma_image_marks(cmd, pos, segs, taken, st, targets, c, raw),
            Command::Link { .. } => lemma_link_marks(cmd, pos, segs, taken, st, targets, c, raw),
            _ => lemma_text_marks(cmd, pos, segs, taken, st, targets, c, raw),
        };
        lemma_program_marks(
            cmd,
            pos + command_bytes(c).len(),
            segs,
            taken + mine.len(),
            after,
            targets,
            rest,
            raw + command_marks(c, targets),
        );
        assert(raw + command_marks(c, targets) + program_marks(rest, targets) =~= raw
            + program_marks(p, targets));
    }
}

/// The paragraphs of a stream of commands are what lies between the boundaries:
/// the ends of paragraphs, the images, and the end of the stream. Paragraphs in
/// which nothing is shown are left out, and no other boundary is there.
pub proof fn law_paragraphs_lie_between_boundaries(
    p: Seq<Command>,
    tail: Seq<u8>,
    more: Seq<Seq<char>>,
    targets: Map<u32, Seq<char>>,
)
    requires
        forall|i: int| 0 <= i < p.len() ==> command_ok(#[trigger] p[i]),
        tail.len() == 0 || tail[0] == 0xFF,
    ensures
        marked_blocks(blocks_of(program_bytes(p) + tail, program_segments(p) + more, targets))
            == settled(program_marks(p, targets).push(Shown::Boundary)),
{
    let cmd = program_bytes(p) + tail;
    let segs = program_segments(p) + more;
    assert(cmd.subrange(0, program_bytes(p).len() as int) =~= program_bytes(p));
    assert(segs.subrange(0, program_segments(p).len() as int) =~= program_segments(p));
    let none = Seq::<Shown>::empty();
    assert(marked(start_state()) =~= settled(none));
    lemma_program_marks(cmd, 0, segs, 0, start_state(), targets, p, none);
    assert(none + program_marks(p, targets) =~= program_marks(p, targets));
    let end = run_from(cmd, 0, segs, 0, start_state(), targets);
    lemma_marked_end(end, program_marks(p, targets));
    let done = with_paragraph_end(end);
    assert(shown_inlines(done.current) =~= Seq::empty());
    assert(marked(done) =~= marked_blocks(done.blocks));
}

} // verus!
