//! The document model of a help file.

use vstd::prelude::*;

use crate::views::{opt_view, views};

verus! {

/// Kind of a hyperlink.
#[derive(Debug, Clone, Copy, PartialEq, Eq, Structural)]
pub enum LinkKind {
    /// Navigates to the target topic.
    Jump,
    /// Shows the target topic in a popup window.
    Popup,
}

/// Placement of an image.
#[derive(Debug, Clone, Copy, PartialEq, Eq, Structural)]
pub enum ImagePlacement {
    /// `{bmc}`: at a character position.
    Inline,
    /// `{bml}`: at the left margin.
    Left,
    /// `{bmr}`: at the right margin.
    Right,
}

/// An inline element of a paragraph.
#[derive(Debug)]
pub enum Inline {
    /// Plain text.
    Text(String),
    /// Bold text.
    Bold(Vec<Inline>),
    /// Italic text.
    Italic(Vec<Inline>),
    /// A hyperlink.
    Link { text: Vec<Inline>, target: String, kind: LinkKind },
}

/// A reference to an image.
#[derive(Debug, Clone)]
pub struct ImageRef {
    /// Name of the image within the help file.
    pub filename: String,
    /// Placement of the image.
    pub placement: ImagePlacement,
}

/// A block of a topic.
#[derive(Debug)]
pub enum Block {
    /// A paragraph.
    Paragraph(Vec<Inline>),
    /// A table: rows of cells.
    Table(Vec<Vec<Block>>),
    /// An image.
    Image(ImageRef),
}

/// A help topic.
#[derive(Debug, Clone)]
pub struct Topic {
    /// Context string, the identifier of the topic.
    pub id: String,
    /// Further context strings that lead to this topic.
    pub aliases: Vec<String>,
    /// Display title.
    pub title: String,
    /// Keywords.
    pub keywords: Vec<String>,
    /// Browse sequence identifier.
    pub browse_seq: Option<String>,
    /// Content.
    pub body: Vec<Block>,
}

/// A keyword with the topics that it leads to.
#[derive(Debug, Clone)]
pub struct KeywordEntry {
    /// The keyword.
    pub keyword: String,
    /// Context strings of its topics.
    pub topic_ids: Vec<String>,
}

/// A parsed help file.
#[derive(Debug, Clone)]
pub struct HelpFile {
    /// Title of the help file.
    pub title: String,
    /// Copyright string.
    pub copyright: Option<String>,
    /// Context string of the root topic.
    pub root_topic: String,
    /// All topics, in the order of their offsets in the topic stream
    /// (`helpfile::law_topics_follow_the_stream`), which is that of the browse
    /// sequences. The table of contents lists topics without a browse sequence
    /// last (`contents::law_contents_are_in_browse_order`).
    pub topics: Vec<Topic>,
    /// Keyword index.
    pub keyword_index: Vec<KeywordEntry>,
    /// The images that topics refer to, each name once: its name and its bytes.
    pub images: Vec<(String, Vec<u8>)>,
}

// ---------------------------------------------------------------------------
// Views
// ---------------------------------------------------------------------------

/// An inline element with its strings as sequences of characters.
pub enum InlineView {
    Text(Seq<char>),
    Bold(Seq<InlineView>),
    Italic(Seq<InlineView>),
    Link { text: Seq<InlineView>, target: Seq<char>, kind: LinkKind },
}

/// The view of an inline element.
pub open spec fn inline_view(i: Inline) -> InlineView
    decreases i,
{
    match i {
        Inline::Text(s) => InlineView::Text(s@),
        Inline::Bold(v) => InlineView::Bold(inlines_view(v@)),
        Inline::Italic(v) => InlineView::Italic(inlines_view(v@)),
        Inline::Link { text, target, kind } => InlineView::Link {
            text: inlines_view(text@),
            target: target@,
            kind,
        },
    }
}

/// The views of a list of inline elements.
pub open spec fn inlines_view(s: Seq<Inline>) -> Seq<InlineView>
    decreases s,
{
    if s.len() == 0 {
        Seq::empty()
    } else {
        inlines_view(s.drop_last()).push(inline_view(s.last()))
    }
}

impl View for Inline {
    type V = InlineView;

    open spec fn view(&self) -> InlineView {
        inline_view(*self)
    }
}

/// An image reference with its name as a sequence of characters.
pub struct ImageRefView {
    pub filename: Seq<char>,
    pub placement: ImagePlacement,
}

impl View for ImageRef {
    type V = ImageRefView;

    open spec fn view(&self) -> ImageRefView {
        ImageRefView { filename: self.filename@, placement: self.placement }
    }
}

/// A block with its strings as sequences of characters.
pub enum BlockView {
    Paragraph(Seq<InlineView>),
    Table(Seq<Seq<BlockView>>),
    Image(ImageRefView),
}

/// The view of a block.
pub open spec fn block_view(b: Block) -> BlockView
    decreases b,
{
    match b {
        Block::Paragraph(v) => BlockView::Paragraph(inlines_view(v@)),
        Block::Table(rows) => BlockView::Table(rows_view(rows@)),
        Block::Image(image) => BlockView::Image(image@),
    }
}

/// The views of the rows of a table.
pub open spec fn rows_view(rows: Seq<Vec<Block>>) -> Seq<Seq<BlockView>>
    decreases rows,
{
    if rows.len() == 0 {
        Seq::empty()
    } else {
        rows_view(rows.drop_last()).push(blocks_view(rows.last()@))
    }
}

/// The views of a list of blocks.
pub open spec fn blocks_view(s: Seq<Block>) -> Seq<BlockView>
    decreases s,
{
    if s.len() == 0 {
        Seq::empty()
    } else {
        blocks_view(s.drop_last()).push(block_view(s.last()))
    }
}

impl View for Block {
    type V = BlockView;

    open spec fn view(&self) -> BlockView {
        block_view(*self)
    }
}

/// A topic with its strings as sequences of characters.
pub struct TopicView {
    pub id: Seq<char>,
    pub aliases: Seq<Seq<char>>,
    pub title: Seq<char>,
    pub keywords: Seq<Seq<char>>,
    pub browse_seq: Option<Seq<char>>,
    pub body: Seq<BlockView>,
}

impl View for Topic {
    type V = TopicView;

    open spec fn view(&self) -> TopicView {
        TopicView {
            id: self.id@,
            aliases: views(self.aliases@),
            title: self.title@,
            keywords: views(self.keywords@),
            browse_seq: opt_view(self.browse_seq),
            body: blocks_view(self.body@),
        }
    }
}

/// A keyword entry with its strings as sequences of characters.
pub struct KeywordEntryView {
    pub keyword: Seq<char>,
    pub topic_ids: Seq<Seq<char>>,
}

impl View for KeywordEntry {
    type V = KeywordEntryView;

    open spec fn view(&self) -> KeywordEntryView {
        KeywordEntryView { keyword: self.keyword@, topic_ids: views(self.topic_ids@) }
    }
}

/// A help file with its strings as sequences of characters.
pub struct HelpFileView {
    pub title: Seq<char>,
    pub copyright: Option<Seq<char>>,
    pub root_topic: Seq<char>,
    pub topics: Seq<TopicView>,
    pub keyword_index: Seq<KeywordEntryView>,
    pub images: Seq<(Seq<char>, Seq<u8>)>,
}

impl View for HelpFile {
    type V = HelpFileView;

    open spec fn view(&self) -> HelpFileView {
        HelpFileView {
            title: self.title@,
            copyright: opt_view(self.copyright),
            root_topic: self.root_topic@,
            topics: views(self.topics@),
            keyword_index: views(self.keyword_index@),
            images: views(self.images@),
        }
    }
}

/// The views of an extended list of inline elements.
pub proof fn lemma_inlines_push(s: Seq<Inline>, x: Inline)
    ensures
        inlines_view(s.push(x)) == inlines_view(s).push(x@),
{
    assert(s.push(x).drop_last() =~= s);
}

/// The views of an extended list of blocks.
pub proof fn lemma_blocks_push(s: Seq<Block>, x: Block)
    ensures
        blocks_view(s.push(x)) == blocks_view(s).push(x@),
{
    assert(s.push(x).drop_last() =~= s);
}

/// The views of inline elements, by index.
pub proof fn lemma_inlines_index(s: Seq<Inline>)
    ensures
        inlines_view(s).len() == s.len(),
        forall|i: int| 0 <= i < s.len() ==> #[trigger] inlines_view(s)[i] == s[i]@,
    decreases s.len(),
{
    if s.len() > 0 {
        lemma_inlines_index(s.drop_last());
        assert forall|i: int| 0 <= i < s.len() implies #[trigger] inlines_view(s)[i] == s[i]@ by {
            if i < s.len() - 1 {
                assert(inlines_view(s.drop_last())[i] == s.drop_last()[i]@);
            }
        }
    }
}

/// The views of blocks, by index.
pub proof fn lemma_blocks_index(s: Seq<Block>)
    ensures
        blocks_view(s).len() == s.len(),
        forall|i: int| 0 <= i < s.len() ==> #[trigger] blocks_view(s)[i] == s[i]@,
    decreases s.len(),
{
    if s.len() > 0 {
        lemma_blocks_index(s.drop_last());
        assert forall|i: int| 0 <= i < s.len() implies #[trigger] blocks_view(s)[i] == s[i]@ by {
            if i < s.len() - 1 {
                assert(blocks_view(s.drop_last())[i] == s.drop_last()[i]@);
            }
        }
    }
}

/// The views of table rows, by index.
pub proof fn lemma_rows_index(rows: Seq<Vec<Block>>)
    ensures
        rows_view(rows).len() == rows.len(),
        forall|i: int| 0 <= i < rows.len() ==> #[trigger] rows_view(rows)[i] == blocks_view(rows[i]@),
    decreases rows.len(),
{
    if rows.len() > 0 {
        lemma_rows_index(rows.drop_last());
        assert forall|i: int| 0 <= i < rows.len() implies #[trigger] rows_view(rows)[i]
            == blocks_view(rows[i]@) by {
            if i < rows.len() - 1 {
                assert(rows_view(rows.drop_last())[i] == blocks_view(rows.drop_last()[i]@));
            }
        }
    }
}

// ---------------------------------------------------------------------------
// Copies
// ---------------------------------------------------------------------------

fn copy_inline(inline: &Inline) -> (r: Inline)
    ensures
        r@ == inline@,
    decreases inline,
{
    match inline {
        Inline::Text(s) => Inline::Text(s.clone()),
        Inline::Bold(v) => Inline::Bold(copy_inlines(v)),
        Inline::Italic(v) => Inline::Italic(copy_inlines(v)),
        Inline::Link { text, target, kind } => Inline::Link {
            text: copy_inlines(text),
            target: target.clone(),
            kind: *kind,
        },
    }
}

fn copy_inlines(v: &Vec<Inline>) -> (r: Vec<Inline>)
    ensures
        inlines_view(r@) == inlines_view(v@),
    decreases v,
{
    let mut r: Vec<Inline> = Vec::new();
    let mut i: usize = 0;
    assert(v@.take(0) =~= Seq::empty());
    while i < v.len()
        invariant
            i <= v@.len(),
            inlines_view(r@) == inlines_view(v@.take(i as int)),
        decreases v@.len() - i,
    {
        let item: Inline = copy_inline(&v[i]);
        proof {
            lemma_inlines_push(r@, item);
            lemma_inlines_push(v@.take(i as int), v@[i as int]);
            assert(v@.take(i as int).push(v@[i as int]) =~= v@.take(i + 1));
        }
        r.push(item);
        i += 1;
    }
    assert(v@.take(i as int) =~= v@);
    r
}

impl Clone for Inline {
    fn clone(&self) -> (r: Self)
        ensures
            r@ == self@,
    {
        copy_inline(self)
    }
}

fn copy_block(block: &Block) -> (r: Block)
    ensures
        r@ == block@,
    decreases block,
{
    match block {
        Block::Paragraph(v) => Block::Paragraph(copy_inlines(v)),
        Block::Table(rows) => Block::Table(copy_rows(rows)),
        Block::Image(image) => Block::Image(
            ImageRef { filename: image.filename.clone(), placement: image.placement },
        ),
    }
}

fn copy_rows(rows: &Vec<Vec<Block>>) -> (r: Vec<Vec<Block>>)
    ensures
        rows_view(r@) == rows_view(rows@),
    decreases rows,
{
    let mut r: Vec<Vec<Block>> = Vec::new();
    let mut i: usize = 0;
    assert(rows@.take(0) =~= Seq::empty());
    while i < rows.len()
        invariant
            i <= rows@.len(),
            rows_view(r@) == rows_view(rows@.take(i as int)),
        decreases rows@.len() - i,
    {
        let row: Vec<Block> = copy_blocks(&rows[i]);
        proof {
            assert(r@.push(row).drop_last() =~= r@);
            assert(rows@.take(i + 1).drop_last() =~= rows@.take(i as int));
        }
        r.push(row);
        i += 1;
    }
    assert(rows@.take(i as int) =~= rows@);
    r
}

fn copy_blocks(v: &Vec<Block>) -> (r: Vec<Block>)
    ensures
        blocks_view(r@) == blocks_view(v@),
    decreases v,
{
    let mut r: Vec<Block> = Vec::new();
    let mut i: usize = 0;
    assert(v@.take(0) =~= Seq::empty());
    while i < v.len()
        invariant
            i <= v@.len(),
            blocks_view(r@) == blocks_view(v@.take(i as int)),
        decreases v@.len() - i,
    {
        let item: Block = copy_block(&v[i]);
        proof {
            lemma_blocks_push(r@, item);
            lemma_blocks_push(v@.take(i as int), v@[i as int]);
            assert(v@.take(i as int).push(v@[i as int]) =~= v@.take(i + 1));
        }
        r.push(item);
        i += 1;
    }
    assert(v@.take(i as int) =~= v@);
    r
}

impl Clone for Block {
    fn clone(&self) -> (r: Self)
        ensures
            r@ == self@,
    {
        copy_block(self)
    }
}

} // verus!
