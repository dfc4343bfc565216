//! Rendering of the document model as Sphinx-compatible reStructuredText.

use vstd::prelude::*;

use vstd::utf8::encode_utf8;

use crate::contents::{contents_order, law_contents_are_in_browse_order, order_contents};
use crate::markup::{
    escape_rst, image_stem, label, page_name, paragraph_text, py_literal, py_string, rst_escaped,
    sanitize_filename, sanitize_image_stem, sanitize_label, swap_extension, with_extension,
    write_paragraph,
};
use crate::model::{
    blocks_view, inlines_view, lemma_blocks_index, lemma_inlines_index, lemma_rows_index, rows_view,
    Block, BlockView, HelpFile, HelpFileView, ImagePlacement, ImageRef, ImageRefView, Inline,
    InlineView, Topic, TopicView,
};
use crate::views::{lemma_views_push, views};

verus! {

// ---------------------------------------------------------------------------
// Images
// ---------------------------------------------------------------------------

/// Output format of an embedded image.
///
/// Bitmaps are re-encoded as PNG. Windows metafiles are kept as they are:
/// Sphinx cannot show them, so pages refer to them with a comment.
#[derive(Debug, Clone, Copy, PartialEq, Eq, Structural)]
pub enum ImageOutFormat {
    /// Kept as `.png`, converted from BMP.
    Png,
    /// Kept as `.wmf`, not converted.
    Wmf,
}

/// The file extension of an image format.
pub open spec fn format_extension(format: ImageOutFormat) -> Seq<char> {
    match format {
        ImageOutFormat::Png => "png"@,
        ImageOutFormat::Wmf => "wmf"@,
    }
}

impl ImageOutFormat {
    /// The file extension of the format.
    pub fn extension(self) -> (r: &'static str)
        ensures
            r@ == format_extension(self),
    {
        match self {
            ImageOutFormat::Png => "png",
            ImageOutFormat::Wmf => "wmf",
        }
    }
}

/// The output name of an image that is kept in the given format.
pub open spec fn image_name(filename: Seq<char>, format: ImageOutFormat) -> Seq<char> {
    with_extension(image_stem(filename), format_extension(format))
}

/// Compute the output name of an embedded image from the format that it is
/// kept in.
///
/// The names of internal files begin with `|` (e.g. `|bm0`) and have no
/// extension. The `|` is stripped, characters that file systems reject are
/// replaced, and the extension of the format is put in place of the name's own.
pub fn image_output_name_with(filename: &str, format: ImageOutFormat) -> (r: String)
    ensures
        r@ == image_name(filename@, format),
{
    let stem = sanitize_image_stem(filename);
    swap_extension(stem.as_str(), format.extension())
}

/// The output name of an image that is kept as PNG.
pub fn image_output_name(filename: &str) -> (r: String)
    ensures
        r@ == image_name(filename@, ImageOutFormat::Png),
{
    image_output_name_with(filename, ImageOutFormat::Png)
}

/// The formats of the images, by the names that pages use for them.
pub type ImageFormats = Vec<(String, ImageOutFormat)>;

/// The format that an image is kept in: the one that was noted last under its
/// name, and PNG for an image that was never written.
pub open spec fn format_of(
    formats: Seq<(Seq<char>, ImageOutFormat)>,
    name: Seq<char>,
) -> ImageOutFormat
    decreases formats.len(),
{
    if formats.len() == 0 {
        ImageOutFormat::Png
    } else if formats.last().0 == name {
        formats.last().1
    } else {
        format_of(formats.drop_last(), name)
    }
}

/// The noted formats with their names as sequences of characters.
pub open spec fn formats_view(formats: Seq<(String, ImageOutFormat)>) -> Seq<
    (Seq<char>, ImageOutFormat),
> {
    formats.map_values(|f: (String, ImageOutFormat)| (f.0@, f.1))
}

/// The format that an image is kept in.
pub fn image_format(formats: &ImageFormats, name: &String) -> (r: ImageOutFormat)
    ensures
        r == format_of(formats_view(formats@), name@),
{
    let ghost all = formats_view(formats@);
    let mut i: usize = formats.len();
    assert(all.take(i as int) =~= all);
    while i > 0
        invariant
            i <= formats@.len(),
            all == formats_view(formats@),
            format_of(all, name@) == format_of(all.take(i as int), name@),
        decreases i,
    {
        i = i - 1;
        assert(all.take(i + 1).drop_last() =~= all.take(i as int));
        assert(all.take(i + 1).last() == all[i as int]);
        if formats[i].0 == *name {
            return formats[i].1;
        }
    }
    ImageOutFormat::Png
}

// ---------------------------------------------------------------------------
// Inline elements
// ---------------------------------------------------------------------------

/// The reStructuredText of an inline element.
pub open spec fn inline_text(i: InlineView) -> Seq<char>
    decreases i,
{
    match i {
        InlineView::Text(s) => rst_escaped(s),
        InlineView::Bold(children) => "**"@ + inlines_text(children) + "**"@,
        InlineView::Italic(children) => "*"@ + inlines_text(children) + "*"@,
        InlineView::Link { text, target, kind } => ":ref:`"@ + inlines_text(text) + " <"@ + label(
            target,
        ) + ">`"@,
    }
}

/// The reStructuredText of a run of inline elements.
pub open spec fn inlines_text(s: Seq<InlineView>) -> Seq<char>
    decreases s,
{
    if s.len() == 0 {
        Seq::empty()
    } else {
        inlines_text(s.drop_last()) + inline_text(s.last())
    }
}

/// Appends an inline element.
pub fn write_inline(out: &mut String, inline: &Inline)
    ensures
        final(out)@ == old(out)@ + inline_text(inline@),
    decreases inline,
{
    match inline {
        Inline::Text(text) => {
            let escaped = escape_rst(text.as_str());
            out.append(escaped.as_str());
        },
        Inline::Bold(children) => {
            out.append("**");
            write_inlines(out, children);
            out.append("**");
            assert(out@ =~= old(out)@ + inline_text(inline@));
        },
        Inline::Italic(children) => {
            out.append("*");
            write_inlines(out, children);
            out.append("*");
            assert(out@ =~= old(out)@ + inline_text(inline@));
        },
        Inline::Link { text, target, kind: _ } => {
            out.append(":ref:`");
            write_inlines(out, text);
            out.append(" <");
            let target_label = sanitize_label(target.as_str());
            out.append(target_label.as_str());
            out.append(">`");
            assert(out@ =~= old(out)@ + inline_text(inline@));
        },
    }
}

/// Appends a run of inline elements.
pub fn write_inlines(out: &mut String, inlines: &Vec<Inline>)
    ensures
        final(out)@ == old(out)@ + inlines_text(inlines_view(inlines@)),
    decreases inlines,
{
    let ghost all = inlines_view(inlines@);
    proof {
        lemma_inlines_index(inlines@);
    }
    let mut i: usize = 0;
    assert(out@ =~= old(out)@ + inlines_text(all.take(0)));
    while i < inlines.len()
        invariant
            i <= inlines@.len() == all.len(),
            forall|k: int| 0 <= k < all.len() ==> #[trigger] all[k] == inlines@[k]@,
            out@ == old(out)@ + inlines_text(all.take(i as int)),
        decreases inlines@.len() - i,
    {
        write_inline(out, &inlines[i]);
        i = i + 1;
        proof {
            assert(all.take(i as int).drop_last() =~= all.take(i - 1));
            assert(all.take(i as int).last() == all[i - 1]);
            assert(out@ =~= old(out)@ + inlines_text(all.take(i as int)));
        }
    }
    assert(all.take(i as int) =~= all);
}

// ---------------------------------------------------------------------------
// Blocks
// ---------------------------------------------------------------------------

/// The text of a block within a table cell.
pub open spec fn cell_text(b: BlockView) -> Seq<char> {
    match b {
        BlockView::Paragraph(inlines) => inlines_text(inlines),
        BlockView::Image(image) => "|"@ + image.filename,
        BlockView::Table(_) => "(nested table)"@,
    }
}

/// The list items of a table row: the first cell opens the row.
pub open spec fn row_text(cells: Seq<BlockView>) -> Seq<char>
    decreases cells.len(),
{
    if cells.len() == 0 {
        Seq::empty()
    } else {
        row_text(cells.drop_last()) + (if cells.len() == 1 {
            "   * - "@
        } else {
            "     - "@
        }) + cell_text(cells.last()) + "\n"@
    }
}

/// The list items of the rows of a table.
pub open spec fn rows_text(rows: Seq<Seq<BlockView>>) -> Seq<char>
    decreases rows.len(),
{
    if rows.len() == 0 {
        Seq::empty()
    } else {
        rows_text(rows.drop_last()) + row_text(rows.last())
    }
}

/// The directive that shows an image.
pub open spec fn image_text(image: ImageRefView, format: ImageOutFormat) -> Seq<char> {
    (match format {
        ImageOutFormat::Wmf => WMF_NOTE@,
        ImageOutFormat::Png => ""@,
    }) + (match image.placement {
        ImagePlacement::Inline => ".. image:: _images/"@,
        _ => ".. figure:: _images/"@,
    }) + image_name(image.filename, format) + (match image.placement {
        ImagePlacement::Inline => "\n\n"@,
        ImagePlacement::Left => "\n   :align: left\n\n"@,
        ImagePlacement::Right => "\n   :align: right\n\n"@,
    })
}

/// The reStructuredText of a block.
pub open spec fn block_text(b: BlockView, formats: Seq<(Seq<char>, ImageOutFormat)>) -> Seq<char> {
    match b {
        BlockView::Paragraph(inlines) => paragraph_text(inlines_text(inlines)),
        BlockView::Table(rows) => ".. list-table::\n   :widths: auto\n\n"@ + rows_text(rows),
        BlockView::Image(image) => image_text(image, format_of(formats, image.filename)),
    }
}

/// The comment in front of a metafile.
pub const WMF_NOTE: &'static str =
    ".. WMF (Windows Metafile) — vector image saved unconverted; render to PNG/SVG to display in Sphinx HTML.\n";

/// Write a block as inline text (for table cells).
pub fn write_block_inline(out: &mut String, block: &Block)
    ensures
        final(out)@ == old(out)@ + cell_text(block@),
{
    match block {
        Block::Paragraph(inlines) => write_inlines(out, inlines),
        Block::Image(image) => {
            out.append("|");
            out.append(image.filename.as_str());
            assert(out@ =~= old(out)@ + cell_text(block@));
        },
        Block::Table(_) => out.append("(nested table)"),
    }
}

fn write_row(out: &mut String, row: &Vec<Block>)
    ensures
        final(out)@ == old(out)@ + row_text(blocks_view(row@)),
{
    let ghost all = blocks_view(row@);
    proof {
        lemma_blocks_index(row@);
    }
    let mut i: usize = 0;
    assert(out@ =~= old(out)@ + row_text(all.take(0)));
    while i < row.len()
        invariant
            i <= row@.len() == all.len(),
            forall|k: int| 0 <= k < all.len() ==> #[trigger] all[k] == row@[k]@,
            out@ == old(out)@ + row_text(all.take(i as int)),
        decreases row@.len() - i,
    {
        if i == 0 {
            out.append("   * - ");
        } else {
            out.append("     - ");
        }
        write_block_inline(out, &row[i]);
        out.append("\n");
        i = i + 1;
        proof {
            assert(all.take(i as int).drop_last() =~= all.take(i - 1));
            assert(all.take(i as int).last() == all[i - 1]);
            assert(out@ =~= old(out)@ + row_text(all.take(i as int)));
        }
    }
    assert(all.take(i as int) =~= all);
}

fn write_rows(out: &mut String, rows: &Vec<Vec<Block>>)
    ensures
        final(out)@ == old(out)@ + rows_text(rows_view(rows@)),
{
    let ghost all = rows_view(rows@);
    proof {
        lemma_rows_index(rows@);
    }
    let mut i: usize = 0;
    assert(out@ =~= old(out)@ + rows_text(all.take(0)));
    while i < rows.len()
        invariant
            i <= rows@.len() == all.len(),
            forall|k: int| 0 <= k < all.len() ==> #[trigger] all[k] == blocks_view(rows@[k]@),
            out@ == old(out)@ + rows_text(all.take(i as int)),
        decreases rows@.len() - i,
    {
        write_row(out, &rows[i]);
        i = i + 1;
        proof {
            assert(all.take(i as int).drop_last() =~= all.take(i - 1));
            assert(all.take(i as int).last() == all[i - 1]);
            assert(out@ =~= old(out)@ + rows_text(all.take(i as int)));
        }
    }
    assert(all.take(i as int) =~= all);
}

fn write_image_directive(out: &mut String, image: &ImageRef, format: ImageOutFormat)
    ensures
        final(out)@ == old(out)@ + image_text(image@, format),
{
    match format {
        ImageOutFormat::Wmf => out.append(WMF_NOTE),
        ImageOutFormat::Png => out.append(""),
    }
    match image.placement {
        ImagePlacement::Inline => out.append(".. image:: _images/"),
        _ => out.append(".. figure:: _images/"),
    }
    let name = image_output_name_with(image.filename.as_str(), format);
    out.append(name.as_str());
    match image.placement {
        ImagePlacement::Inline => out.append("\n\n"),
        ImagePlacement::Left => out.append("\n   :align: left\n\n"),
        ImagePlacement::Right => out.append("\n   :align: right\n\n"),
    }
    assert(out@ =~= old(out)@ + image_text(image@, format));
}

/// Appends a block.
pub fn write_block(out: &mut String, block: &Block, image_formats: &ImageFormats)
    ensures
        final(out)@ == old(out)@ + block_text(block@, formats_view(image_formats@)),
{
    match block {
        Block::Paragraph(inlines) => {
            let mut text = String::new();
            write_inlines(&mut text, inlines);
            assert(text@ =~= inlines_text(inlines_view(inlines@)));
            write_paragraph(out, text.as_str());
        },
        Block::Table(rows) => {
            out.append(".. list-table::\n   :widths: auto\n\n");
            write_rows(out, rows);
            assert(out@ =~= old(out)@ + block_text(block@, formats_view(image_formats@)));
        },
        Block::Image(image) => {
            let format = image_format(image_formats, &image.filename);
            write_image_directive(out, image, format);
        },
    }
}

// ---------------------------------------------------------------------------
// Pages
// ---------------------------------------------------------------------------

/// The line under a title: one `=` for each byte of the title, and at least
/// one.
pub open spec fn underline(title: Seq<char>) -> Seq<char> {
    let n = encode_utf8(title).len();
    Seq::new(if n == 0 { 1 } else { n }, |i: int| '=')
}

/// A title with its underline.
pub open spec fn heading(title: Seq<char>) -> Seq<char> {
    title + "\n"@ + underline(title) + "\n\n"@
}

/// Texts put together with commas between them.
pub open spec fn comma_separated(s: Seq<Seq<char>>) -> Seq<char>
    decreases s.len(),
{
    if s.len() == 0 {
        Seq::empty()
    } else if s.len() == 1 {
        s[0]
    } else {
        comma_separated(s.drop_last()) + ", "@ + s.last()
    }
}

/// The index directive of a page, for its keywords.
pub open spec fn index_directive(keywords: Seq<Seq<char>>) -> Seq<char> {
    if keywords.len() == 0 {
        Seq::empty()
    } else {
        ".. index:: "@ + comma_separated(keywords) + "\n\n"@
    }
}

/// The blocks of a page, a blank line after each.
pub open spec fn body_text(
    body: Seq<BlockView>,
    formats: Seq<(Seq<char>, ImageOutFormat)>,
) -> Seq<char>
    decreases body.len(),
{
    if body.len() == 0 {
        Seq::empty()
    } else {
        body_text(body.drop_last(), formats) + block_text(body.last(), formats) + "\n"@
    }
}

/// The page of a topic: its label, its keywords, its title and its body. A
/// topic without a title goes by its identifier.
pub open spec fn topic_page(t: TopicView, formats: Seq<(Seq<char>, ImageOutFormat)>) -> Seq<char> {
    ".. _"@ + label(t.id) + ":\n\n"@ + index_directive(t.keywords) + heading(
        if t.title.len() == 0 {
            t.id
        } else {
            t.title
        },
    ) + body_text(t.body, formats)
}

/// The page of an alias: a label, and a reference to the topic.
pub open spec fn alias_page(alias: Seq<char>, primary: Seq<char>) -> Seq<char> {
    ":orphan:\n\n.. _"@ + label(alias) + ":\n\n"@ + heading(label(primary)) + "See :ref:`"@
        + label(primary) + "`.\n"@
}

/// The lines of the table of contents.
pub open spec fn toc_lines(names: Seq<Seq<char>>) -> Seq<char>
    decreases names.len(),
{
    if names.len() == 0 {
        Seq::empty()
    } else {
        toc_lines(names.drop_last()) + "   "@ + names.last() + "\n"@
    }
}

/// The page names of the topics that have an identifier, in order.
pub open spec fn page_names(topics: Seq<TopicView>) -> Seq<Seq<char>>
    decreases topics.len(),
{
    if topics.len() == 0 {
        Seq::empty()
    } else if topics.last().id.len() == 0 {
        page_names(topics.drop_last())
    } else {
        page_names(topics.drop_last()).push(page_name(topics.last().id))
    }
}

/// The start page: title, copyright and table of contents, which lists the
/// topics by browse sequence and those without one behind them, by title.
pub open spec fn index_page(h: HelpFileView) -> Seq<char> {
    heading(h.title) + (match h.copyright {
        Some(c) => c + "\n\n"@,
        None => ""@,
    }) + ".. toctree::\n   :maxdepth: 2\n   :caption: Contents\n\n"@ + toc_lines(
        page_names(contents_order(h.topics)),
    ) + "\n"@
}

/// The Sphinx configuration.
pub open spec fn conf_page(h: HelpFileView) -> Seq<char> {
    "# Configuration file for the Sphinx documentation builder.\n\nproject = "@ + py_literal(
        h.title,
    ) + "\n"@ + (match h.copyright {
        Some(c) => "copyright = "@ + py_literal(c) + "\n"@,
        None => ""@,
    }) + "extensions = []\nexclude_patterns = ['_build']\n\n"@
}

fn write_heading(out: &mut String, title: &str)
    ensures
        final(out)@ == old(out)@ + heading(title@),
{
    out.append(title);
    out.append("\n");
    let ghost before = out@;
    let len: usize = title.as_bytes().len();
    let n: usize = if len == 0 { 1 } else { len };
    let mut i: usize = 0;
    assert(out@ =~= before + Seq::new(0, |j: int| '='));
    while i < n
        invariant
            i <= n,
            out@ == before + Seq::new(i as nat, |j: int| '='),
        decreases n - i,
    {
        out.push('=');
        i = i + 1;
        assert(out@ =~= before + Seq::new(i as nat, |j: int| '='));
    }
    out.append("\n\n");
    assert(underline(title@) =~= Seq::new(n as nat, |j: int| '='));
    assert(out@ =~= old(out)@ + heading(title@));
}

fn write_comma_separated(out: &mut String, items: &Vec<String>)
    ensures
        final(out)@ == old(out)@ + comma_separated(views(items@)),
{
    let ghost all = views(items@);
    let mut i: usize = 0;
    assert(out@ =~= old(out)@ + comma_separated(all.take(0)));
    while i < items.len()
        invariant
            i <= items@.len(),
            all == views(items@),
            out@ == old(out)@ + comma_separated(all.take(i as int)),
        decreases items@.len() - i,
    {
        if i > 0 {
            out.append(", ");
        }
        out.append(items[i].as_str());
        i = i + 1;
        proof {
            assert(all.take(i as int).drop_last() =~= all.take(i - 1));
            assert(all.take(i as int).last() == all[i - 1]);
            assert(out@ =~= old(out)@ + comma_separated(all.take(i as int)));
        }
    }
    assert(all.take(i as int) =~= all);
}

fn write_body(out: &mut String, body: &Vec<Block>, image_formats: &ImageFormats)
    ensures
        final(out)@ == old(out)@ + body_text(blocks_view(body@), formats_view(image_formats@)),
{
    let ghost all = blocks_view(body@);
    let ghost formats = formats_view(image_formats@);
    proof {
        lemma_blocks_index(body@);
    }
    let mut i: usize = 0;
    assert(out@ =~= old(out)@ + body_text(all.take(0), formats));
    while i < body.len()
        invariant
            i <= body@.len() == all.len(),
            forall|k: int| 0 <= k < all.len() ==> #[trigger] all[k] == body@[k]@,
            formats == formats_view(image_formats@),
            out@ == old(out)@ + body_text(all.take(i as int), formats),
        decreases body@.len() - i,
    {
        write_block(out, &body[i], image_formats);
        out.append("\n");
        i = i + 1;
        proof {
            assert(all.take(i as int).drop_last() =~= all.take(i - 1));
            assert(all.take(i as int).last() == all[i - 1]);
            assert(out@ =~= old(out)@ + body_text(all.take(i as int), formats));
        }
    }
    assert(all.take(i as int) =~= all);
}

/// Render the page of a topic.
pub fn render_topic(topic: &Topic, image_formats: &ImageFormats) -> (rst: String)
    ensures
        rst@ == topic_page(topic@, formats_view(image_formats@)),
{
    let ghost t = topic@;
    let ghost formats = formats_view(image_formats@);
    let mut rst = String::new();
    rst.append(".. _");
    let id_label = sanitize_label(topic.id.as_str());
    rst.append(id_label.as_str());
    rst.append(":\n\n");
    assert(rst@ =~= ".. _"@ + label(t.id) + ":\n\n"@);
    let ghost first = rst@;
    if topic.keywords.len() > 0 {
        rst.append(".. index:: ");
        write_comma_separated(&mut rst, &topic.keywords);
        rst.append("\n\n");
    }
    assert(rst@ =~= first + index_directive(t.keywords));
    if topic.title.as_str().is_empty() {
        write_heading(&mut rst, topic.id.as_str());
    } else {
        write_heading(&mut rst, topic.title.as_str());
    }
    write_body(&mut rst, &topic.body, image_formats);
    rst
}

/// Render the page of an alias: a minimal page that holds the alias label and
/// a one-line reference to the topic. Alias pages are not part of the table
/// of contents; they make references to the alias resolve.
pub fn render_alias_stub(alias: &str, primary: &str) -> (rst: String)
    ensures
        rst@ == alias_page(alias@, primary@),
{
    let primary_label = sanitize_label(primary);
    let alias_label = sanitize_label(alias);
    let mut rst = String::new();
    rst.append(":orphan:\n\n.. _");
    rst.append(alias_label.as_str());
    rst.append(":\n\n");
    write_heading(&mut rst, primary_label.as_str());
    rst.append("See :ref:`");
    rst.append(primary_label.as_str());
    rst.append("`.\n");
    assert(Seq::<char>::empty() + ":orphan:\n\n.. _"@ =~= ":orphan:\n\n.. _"@);
    rst
}

fn write_toc(out: &mut String, topics: &Vec<&Topic>)
    ensures
        final(out)@ == old(out)@ + toc_lines(page_names(views(topics@))),
{
    let ghost all = views(topics@);
    let mut i: usize = 0;
    assert(out@ =~= old(out)@ + toc_lines(page_names(all.take(0))));
    while i < topics.len()
        invariant
            i <= topics@.len(),
            all == views(topics@),
            out@ == old(out)@ + toc_lines(page_names(all.take(i as int))),
        decreases topics@.len() - i,
    {
        let ghost before = page_names(all.take(i as int));
        proof {
            assert(all.take(i + 1).drop_last() =~= all.take(i as int));
            assert(all.take(i + 1).last() == topics@[i as int]@);
        }
        if !topics[i].id.as_str().is_empty() {
            let name = sanitize_filename(topics[i].id.as_str());
            out.append("   ");
            out.append(name.as_str());
            out.append("\n");
            proof {
                let names = before.push(name@);
                assert(names.drop_last() =~= before);
                assert(out@ =~= old(out)@ + toc_lines(names));
            }
        }
        i = i + 1;
    }
    assert(all.take(i as int) =~= all);
}

/// Render `index.rst`, the page with the table of contents.
pub fn render_index(helpfile: &HelpFile) -> (rst: String)
    ensures
        rst@ == index_page(helpfile@),
{
    let mut rst = String::new();
    write_heading(&mut rst, helpfile.title.as_str());
    match &helpfile.copyright {
        Some(copyright) => {
            let ghost before = rst@;
            rst.append(copyright.as_str());
            rst.append("\n\n");
            assert(rst@ =~= before + (copyright@ + "\n\n"@));
        },
        None => rst.append(""),
    }
    rst.append(".. toctree::\n   :maxdepth: 2\n   :caption: Contents\n\n");
    write_toc(&mut rst, &order_contents(&helpfile.topics));
    rst.append("\n");
    assert(Seq::<char>::empty() + heading(helpfile@.title) =~= heading(helpfile@.title));
    rst
}

/// Render `conf.py`, the Sphinx configuration.
pub fn render_conf_py(helpfile: &HelpFile) -> (py: String)
    ensures
        py@ == conf_page(helpfile@),
{
    let mut py = String::new();
    let title = py_string(helpfile.title.as_str());
    py.append("# Configuration file for the Sphinx documentation builder.\n\nproject = ");
    assert(py@
        =~= "# Configuration file for the Sphinx documentation builder.\n\nproject = "@);
    py.append(title.as_str());
    py.append("\n");
    match &helpfile.copyright {
        Some(copyright) => {
            let ghost before = py@;
            let literal = py_string(copyright.as_str());
            py.append("copyright = ");
            py.append(literal.as_str());
            py.append("\n");
            assert(py@ =~= before + ("copyright = "@ + py_literal(copyright@) + "\n"@));
        },
        None => py.append(""),
    }
    py.append("extensions = []\nexclude_patterns = ['_build']\n\n");
    py
}

// ---------------------------------------------------------------------------
// The set of pages
// ---------------------------------------------------------------------------

/// A text file of the output.
#[derive(Debug)]
pub struct TextFile {
    /// File name.
    pub name: String,
    /// Contents.
    pub text: String,
}

/// A text file with its strings as sequences of characters.
pub struct TextFileView {
    pub name: Seq<char>,
    pub text: Seq<char>,
}

impl View for TextFile {
    type V = TextFileView;

    open spec fn view(&self) -> TextFileView {
        TextFileView { name: self.name@, text: self.text@ }
    }
}

/// The pages of one topic.
#[derive(Debug)]
pub struct TopicPages {
    /// Identifier of the topic.
    pub id: String,
    /// The page of the topic.
    pub page: TextFile,
    /// The pages of its aliases.
    pub stubs: Vec<TextFile>,
}

/// The pages of one topic with their strings as sequences of characters.
pub struct TopicPagesView {
    pub id: Seq<char>,
    pub page: TextFileView,
    pub stubs: Seq<TextFileView>,
}

impl View for TopicPages {
    type V = TopicPagesView;

    open spec fn view(&self) -> TopicPagesView {
        TopicPagesView { id: self.id@, page: self.page@, stubs: views(self.stubs@) }
    }
}

/// The pages of the aliases of a topic: aliases that are empty or repeat the
/// identifier get none.
pub open spec fn stub_files(id: Seq<char>, aliases: Seq<Seq<char>>) -> Seq<TextFileView>
    decreases aliases.len(),
{
    if aliases.len() == 0 {
        Seq::empty()
    } else {
        let before = stub_files(id, aliases.drop_last());
        let alias = aliases.last();
        if alias.len() == 0 || alias == id {
            before
        } else {
            before.push(
                (TextFileView {
                    name: page_name(alias) + ".rst"@,
                    text: alias_page(alias, id),
                }),
            )
        }
    }
}

/// The pages of a topic.
pub open spec fn topic_files(
    t: TopicView,
    formats: Seq<(Seq<char>, ImageOutFormat)>,
) -> TopicPagesView {
    TopicPagesView {
        id: t.id,
        page: TextFileView { name: page_name(t.id) + ".rst"@, text: topic_page(t, formats) },
        stubs: stub_files(t.id, t.aliases),
    }
}

/// The pages of the topics that have an identifier, in order.
pub open spec fn all_topic_files(
    topics: Seq<TopicView>,
    formats: Seq<(Seq<char>, ImageOutFormat)>,
) -> Seq<TopicPagesView>
    decreases topics.len(),
{
    if topics.len() == 0 {
        Seq::empty()
    } else {
        let before = all_topic_files(topics.drop_last(), formats);
        if topics.last().id.len() == 0 {
            before
        } else {
            before.push(topic_files(topics.last(), formats))
        }
    }
}

proof fn lemma_page_names_concat(a: Seq<TopicView>, b: Seq<TopicView>)
    ensures
        page_names(a + b) == page_names(a) + page_names(b),
    decreases b.len(),
{
    if b.len() == 0 {
        assert(a + b =~= a);
        assert(page_names(a) + page_names(b) =~= page_names(a));
    } else {
        assert((a + b).drop_last() =~= a + b.drop_last());
        lemma_page_names_concat(a, b.drop_last());
        assert(page_names(a + b) =~= page_names(a) + page_names(b));
    }
}

/// Topics in another order have the same page names.
proof fn lemma_page_names_reordered(a: Seq<TopicView>, b: Seq<TopicView>)
    requires
        a.to_multiset() == b.to_multiset(),
    ensures
        page_names(a).to_multiset() == page_names(b).to_multiset(),
    decreases a.len(),
{
    broadcast use vstd::seq_lib::group_to_multiset_ensures;

    assert(a.len() == a.to_multiset().len());
    assert(b.len() == b.to_multiset().len());
    if a.len() == 0 {
        assert(a =~= b);
    } else {
        let last = a.last();
        assert(a.contains(a[a.len() - 1]));
        assert(b.to_multiset().contains(last));
        let k = choose|k: int| 0 <= k < b.len() && b[k] == last;
        let front = b.take(k);
        let back = b.skip(k + 1);
        assert(b =~= front + (seq![last] + back));
        assert(b.remove(k) =~= front + back);
        assert(a =~= a.drop_last().push(last));
        vstd::seq_lib::to_multiset_remove(b, k);
        assert(a.drop_last().to_multiset() =~= a.to_multiset().remove(last));
        lemma_page_names_reordered(a.drop_last(), front + back);
        lemma_page_names_concat(front, seq![last] + back);
        lemma_page_names_concat(seq![last], back);
        lemma_page_names_concat(front, back);
        assert(page_names(seq![last].drop_last()) =~= Seq::empty());
        let x = page_names(front);
        let y = page_names(back);
        if last.id.len() == 0 {
            assert(page_names(seq![last]) =~= Seq::empty());
            assert(x + (page_names(seq![last]) + y) =~= x + y);
        } else {
            let name = page_name(last.id);
            assert(page_names(seq![last]) =~= seq![name]);
            assert(x + (page_names(seq![last]) + y) =~= (x + y).insert(x.len() as int, name));
            vstd::seq_lib::to_multiset_insert(x + y, x.len() as int, name);
        }
    }
}

/// Every topic with an identifier has one page, in the order of the help file,
/// and the table of contents names these pages, each as often as there are
/// topics with it.
pub proof fn law_contents_name_the_pages(
    topics: Seq<TopicView>,
    formats: Seq<(Seq<char>, ImageOutFormat)>,
)
    ensures
        page_names(contents_order(topics)).to_multiset() == page_names(topics).to_multiset(),
        page_names(topics).len() == all_topic_files(topics, formats).len(),
        forall|i: int|
            0 <= i < page_names(topics).len() ==> (#[trigger] all_topic_files(
                topics,
                formats,
            )[i]).page.name == page_names(topics)[i] + ".rst"@,
{
    law_contents_are_in_browse_order(topics);
    lemma_page_names_reordered(contents_order(topics), topics);
    lemma_pages_are_named(topics, formats);
}

proof fn lemma_pages_are_named(
    topics: Seq<TopicView>,
    formats: Seq<(Seq<char>, ImageOutFormat)>,
)
    ensures
        page_names(topics).len() == all_topic_files(topics, formats).len(),
        forall|i: int|
            0 <= i < page_names(topics).len() ==> (#[trigger] all_topic_files(
                topics,
                formats,
            )[i]).page.name == page_names(topics)[i] + ".rst"@,
    decreases topics.len(),
{
    if topics.len() > 0 {
        lemma_pages_are_named(topics.drop_last(), formats);
        let before = all_topic_files(topics.drop_last(), formats);
        let names = page_names(topics.drop_last());
        assert forall|i: int| 0 <= i < page_names(topics).len() implies (
        #[trigger] all_topic_files(topics, formats)[i]).page.name == page_names(topics)[i]
            + ".rst"@ by {
            if i < before.len() {
                assert(before[i].page.name == names[i] + ".rst"@);
            }
        }
    }
}

/// A page opens with the label of its identifier, and a link closes with the
/// label of its target: a link to a topic's identifier carries the label that
/// the topic's page declares.
pub proof fn law_links_carry_page_labels(
    t: TopicView,
    formats: Seq<(Seq<char>, ImageOutFormat)>,
    link: InlineView,
)
    requires
        link is Link,
        link->target == t.id,
    ensures
        (".. _"@ + label(t.id) + ":"@).is_prefix_of(topic_page(t, formats)),
        (" <"@ + label(t.id) + ">`"@).is_suffix_of(inline_text(link)),
{
    reveal_strlit(":\n\n");
    reveal_strlit(":");
    let front = ".. _"@ + label(t.id) + ":"@;
    let page = topic_page(t, formats);
    assert(page.subrange(0, front.len() as int) =~= front);
    let back = " <"@ + label(t.id) + ">`"@;
    let text = inline_text(link);
    assert(text.subrange(text.len() - back.len(), text.len() as int) =~= back);
}

fn page_file_name(id: &str) -> (name: String)
    ensures
        name@ == page_name(id@) + ".rst"@,
{
    let mut name = sanitize_filename(id);
    name.append(".rst");
    name
}

fn render_stubs(topic: &Topic) -> (stubs: Vec<TextFile>)
    ensures
        views(stubs@) == stub_files(topic.id@, views(topic.aliases@)),
{
    let ghost all = views(topic.aliases@);
    let mut stubs: Vec<TextFile> = Vec::new();
    let mut i: usize = 0;
    assert(views(stubs@) =~= stub_files(topic.id@, all.take(0)));
    while i < topic.aliases.len()
        invariant
            i <= topic.aliases@.len(),
            all == views(topic.aliases@),
            views(stubs@) == stub_files(topic.id@, all.take(i as int)),
        decreases topic.aliases@.len() - i,
    {
        let alias: &String = &topic.aliases[i];
        proof {
            assert(all.take(i + 1).drop_last() =~= all.take(i as int));
            assert(all.take(i + 1).last() == alias@);
        }
        if !alias.as_str().is_empty() && *alias != topic.id {
            let file = TextFile {
                name: page_file_name(alias.as_str()),
                text: render_alias_stub(alias.as_str(), topic.id.as_str()),
            };
            proof {
                lemma_views_push(stubs@, file);
            }
            stubs.push(file);
        }
        i = i + 1;
    }
    assert(all.take(i as int) =~= all);
    stubs
}

/// Render the pages of all topics that have an identifier.
pub fn render_pages(helpfile: &HelpFile, image_formats: &ImageFormats) -> (pages: Vec<TopicPages>)
    ensures
        views(pages@) == all_topic_files(helpfile@.topics, formats_view(image_formats@)),
{
    let ghost all = views(helpfile.topics@);
    let ghost formats = formats_view(image_formats@);
    let mut pages: Vec<TopicPages> = Vec::new();
    let mut i: usize = 0;
    assert(views(pages@) =~= all_topic_files(all.take(0), formats));
    while i < helpfile.topics.len()
        invariant
            i <= helpfile.topics@.len(),
            all == views(helpfile.topics@),
            formats == formats_view(image_formats@),
            views(pages@) == all_topic_files(all.take(i as int), formats),
        decreases helpfile.topics@.len() - i,
    {
        let topic: &Topic = &helpfile.topics[i];
        proof {
            assert(all.take(i + 1).drop_last() =~= all.take(i as int));
            assert(all.take(i + 1).last() == topic@);
        }
        if !topic.id.as_str().is_empty() {
            let page = TextFile {
                name: page_file_name(topic.id.as_str()),
                text: render_topic(topic, image_formats),
            };
            let pages_of_topic = TopicPages {
                id: topic.id.clone(),
                page,
                stubs: render_stubs(topic),
            };
            proof {
                lemma_views_push(pages@, pages_of_topic);
            }
            pages.push(pages_of_topic);
        }
        i = i + 1;
    }
    assert(all.take(i as int) =~= all);
    pages
}

/// How far the output has come with each topic: the number of the topic, from
/// one on, the number of all topics, and the identifier of the topic.
pub open spec fn progress_of(pages: Seq<TopicPagesView>) -> Seq<(int, int, Seq<char>)> {
    Seq::new(pages.len(), |i: int| (i + 1, pages.len() as int, pages[i].id))
}

/// One step of progress for each topic, in the order of the pages.
pub fn progress_steps(pages: &Vec<TopicPages>) -> (steps: Vec<(usize, usize, String)>)
    ensures
        steps@.len() == pages@.len(),
        forall|i: int|
            0 <= i < steps@.len() ==> {
                let step = #[trigger] steps@[i];
                (step.0 as int, step.1 as int, step.2@) == progress_of(views(pages@))[i]
            },
{
    let total: usize = pages.len();
    let mut steps: Vec<(usize, usize, String)> = Vec::new();
    let mut i: usize = 0;
    while i < total
        invariant
            i <= total,
            total == pages@.len(),
            steps@.len() == i,
            forall|k: int|
                0 <= k < i ==> {
                    let step = #[trigger] steps@[k];
                    (step.0 as int, step.1 as int, step.2@) == progress_of(views(pages@))[k]
                },
        decreases total - i,
    {
        steps.push((i + 1, total, pages[i].id.clone()));
        i = i + 1;
    }
    steps
}

/// Counts of the files of an output.
#[derive(Debug, Clone, Copy, PartialEq, Eq, Structural)]
pub struct WriteSummary {
    /// Number of topic pages (alias pages are not counted here).
    pub topics_written: usize,
    /// Number of alias pages.
    pub aliases_written: usize,
    /// Number of image files.
    pub images_written: usize,
}

impl Default for WriteSummary {
    /// Nothing written.
    fn default() -> (r: Self)
        ensures
            r == (WriteSummary { topics_written: 0, aliases_written: 0, images_written: 0 }),
    {
        WriteSummary { topics_written: 0, aliases_written: 0, images_written: 0 }
    }
}

/// The number of alias pages.
pub open spec fn stub_count(pages: Seq<TopicPagesView>) -> nat
    decreases pages.len(),
{
    if pages.len() == 0 {
        0
    } else {
        stub_count(pages.drop_last()) + pages.last().stubs.len()
    }
}

/// The counts of an output with the given pages and number of images. A count
/// that exceeds the machine's word stays at the largest word.
pub fn summarize(pages: &Vec<TopicPages>, images: usize) -> (r: WriteSummary)
    ensures
        r.topics_written == pages@.len(),
        r.aliases_written == if stub_count(views(pages@)) <= usize::MAX {
            stub_count(views(pages@)) as int
        } else {
            usize::MAX as int
        },
        r.images_written == images,
{
    let ghost all = views(pages@);
    let mut aliases: usize = 0;
    let mut i: usize = 0;
    while i < pages.len()
        invariant
            i <= pages@.len(),
            all == views(pages@),
            aliases == if stub_count(all.take(i as int)) <= usize::MAX {
                stub_count(all.take(i as int)) as int
            } else {
                usize::MAX as int
            },
        decreases pages@.len() - i,
    {
        aliases = aliases.saturating_add(pages[i].stubs.len());
        i = i + 1;
        proof {
            assert(all.take(i as int).drop_last() =~= all.take(i - 1));
            assert(all.take(i as int).last() == pages@[i - 1]@);
        }
    }
    assert(all.take(i as int) =~= all);
    WriteSummary {
        topics_written: pages.len(),
        aliases_written: aliases,
        images_written: images,
    }
}

} // verus!
