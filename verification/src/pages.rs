//! What pages are made of: how the texts of their parts are put together, and
//! what each part looks like.

use vstd::prelude::*;

use vstd::utf8::encode_utf8;

use crate::contents::contents_order;
use crate::markup::{
    broken_up, flush_left, image_stem, indent, is_transition, label, last_dot, line_body, line_len,
    lines, page_name, paragraph_text, py_literal, rst_escaped, safe_line, safe_lines,
    transition_mark, trimmed_end, white_space, with_extension,
};
use crate::model::{BlockView, HelpFileView, ImagePlacement, ImageRefView, InlineView, TopicView};
use crate::rst::{
    alias_page, all_topic_files, block_text, body_text, cell_text, comma_separated, conf_page,
    format_of, heading, image_name, image_text, index_page, inline_text, inlines_text, page_names,
    progress_of, row_text, rows_text, stub_count, stub_files, toc_lines, topic_files, topic_page,
    ImageOutFormat, TextFileView, TopicPagesView,
};

verus! {

// ---------------------------------------------------------------------------
// Pages
// ---------------------------------------------------------------------------

/// The body of a page is the text of the blocks in the order of the topic, a
/// blank line after each.
pub proof fn law_body_follows_the_blocks(
    a: Seq<BlockView>,
    b: Seq<BlockView>,
    formats: Seq<(Seq<char>, ImageOutFormat)>,
)
    ensures
        body_text(a + b, formats) == body_text(a, formats) + body_text(b, formats),
        a.len() == 1 ==> body_text(a, formats) == block_text(a[0], formats) + seq!['\n'],
        a.len() == 0 ==> body_text(a, formats).len() == 0,
    decreases b.len(),
{
    reveal_strlit("\n");
    assert("\n"@ =~= seq!['\n']);
    if b.len() == 0 {
        assert(a + b =~= a);
        assert(body_text(a, formats) + body_text(b, formats) =~= body_text(a, formats));
    } else {
        assert((a + b).drop_last() =~= a + b.drop_last());
        law_body_follows_the_blocks(a, b.drop_last(), formats);
        assert(body_text(a + b, formats) =~= body_text(a, formats) + body_text(b, formats));
    }
    if a.len() == 1 {
        assert(a.drop_last() =~= Seq::empty());
        assert(body_text(a.drop_last(), formats) =~= Seq::empty());
        assert(body_text(a, formats) =~= block_text(a[0], formats) + seq!['\n']);
    }
}

/// A topic with more blocks at its end has the same page, with the text of these
/// blocks at the end.
pub proof fn law_pages_grow_at_the_end(
    t: TopicView,
    more: Seq<BlockView>,
    formats: Seq<(Seq<char>, ImageOutFormat)>,
)
    ensures
        topic_page(TopicView { body: t.body + more, ..t }, formats) == topic_page(t, formats)
            + body_text(more, formats),
{
    law_body_follows_the_blocks(t.body, more, formats);
    let longer = TopicView { body: t.body + more, ..t };
    assert(topic_page(longer, formats) =~= topic_page(t, formats) + body_text(more, formats));
}

/// A page without blocks: the label of the topic, its keywords with commas
/// between them, and its title (or its identifier) with a line of `=` below.
pub proof fn law_page_front(t: TopicView, formats: Seq<(Seq<char>, ImageOutFormat)>)
    requires
        t.body.len() == 0,
    ensures
        t.keywords.len() == 0 && t.title.len() > 0 ==> topic_page(t, formats) == ".. _"@ + label(
            t.id,
        ) + ":\n\n"@ + heading(t.title),
        t.keywords.len() == 0 && t.title.len() == 0 ==> topic_page(t, formats) == ".. _"@ + label(
            t.id,
        ) + ":\n\n"@ + heading(t.id),
        t.keywords.len() > 0 ==> topic_page(t, formats) == ".. _"@ + label(t.id)
            + ":\n\n.. index:: "@ + comma_separated(t.keywords) + "\n\n"@ + heading(
            if t.title.len() > 0 {
                t.title
            } else {
                t.id
            },
        ),
{
    reveal_strlit(":\n\n");
    reveal_strlit(".. index:: ");
    reveal_strlit(":\n\n.. index:: ");
    assert(":\n\n"@ + ".. index:: "@ =~= ":\n\n.. index:: "@);
    let title = if t.title.len() > 0 {
        t.title
    } else {
        t.id
    };
    assert(body_text(t.body, formats) =~= Seq::empty());
    if t.keywords.len() == 0 {
        assert(topic_page(t, formats) =~= ".. _"@ + label(t.id) + ":\n\n"@ + heading(title));
    } else {
        assert(topic_page(t, formats) =~= ".. _"@ + label(t.id) + (":\n\n"@ + ".. index:: "@)
            + comma_separated(t.keywords) + "\n\n"@ + heading(title));
    }
}

/// A heading is the title, as many `=` as the title has bytes, and a blank line.
pub proof fn law_heading(title: Seq<char>)
    ensures
        heading(title).len() == title.len() + 3 + if encode_utf8(title).len() > 0 {
            encode_utf8(title).len()
        } else {
            1
        },
        heading(title).take(title.len() as int) == title,
        heading(title)[title.len() as int] == '\n',
        forall|i: int|
            title.len() < i < heading(title).len() - 2 ==> #[trigger] heading(title)[i] == '=',
        heading(title)[heading(title).len() - 2] == '\n',
        heading(title).last() == '\n',
{
    reveal_strlit("\n");
    reveal_strlit("\n\n");
    assert(heading(title).take(title.len() as int) =~= title);
}

/// Keywords are put together in order, with a comma and a space between them.
pub proof fn law_keywords_are_put_together(a: Seq<Seq<char>>, b: Seq<Seq<char>>)
    requires
        a.len() > 0,
        b.len() > 0,
    ensures
        comma_separated(a + b) == comma_separated(a) + seq![',', ' '] + comma_separated(b),
        a.len() == 1 ==> comma_separated(a) == a[0],
    decreases b.len(),
{
    reveal_strlit(", ");
    assert(", "@ =~= seq![',', ' ']);
    assert((a + b).drop_last() =~= a + b.drop_last());
    if b.len() == 1 {
        assert(a + b.drop_last() =~= a);
    } else {
        law_keywords_are_put_together(a, b.drop_last());
    }
    assert(comma_separated(a + b) =~= comma_separated(a) + seq![',', ' '] + comma_separated(b));
}

/// The table of contents has one line for each page, in order.
pub proof fn law_contents_follow_the_names(a: Seq<Seq<char>>, b: Seq<Seq<char>>)
    ensures
        toc_lines(a + b) == toc_lines(a) + toc_lines(b),
        a.len() == 1 ==> toc_lines(a) == seq![' ', ' ', ' '] + a[0] + seq!['\n'],
        a.len() == 0 ==> toc_lines(a).len() == 0,
    decreases b.len(),
{
    reveal_strlit("   ");
    reveal_strlit("\n");
    assert("   "@ =~= seq![' ', ' ', ' ']);
    assert("\n"@ =~= seq!['\n']);
    if b.len() == 0 {
        assert(a + b =~= a);
        assert(toc_lines(a) + toc_lines(b) =~= toc_lines(a));
    } else {
        assert((a + b).drop_last() =~= a + b.drop_last());
        law_contents_follow_the_names(a, b.drop_last());
        assert(toc_lines(a + b) =~= toc_lines(a) + toc_lines(b));
    }
    if a.len() == 1 {
        assert(toc_lines(a.drop_last()) =~= Seq::empty());
        assert(toc_lines(a) =~= seq![' ', ' ', ' '] + a[0] + seq!['\n']);
    }
}

/// The pages of topics come in the order of the topics: each topic with an
/// identifier has one, and a topic without has none.
pub proof fn law_pages_follow_the_topics(
    a: Seq<TopicView>,
    b: Seq<TopicView>,
    formats: Seq<(Seq<char>, ImageOutFormat)>,
)
    ensures
        all_topic_files(a + b, formats) == all_topic_files(a, formats) + all_topic_files(b, formats),
        a.len() == 1 && a[0].id.len() > 0 ==> all_topic_files(a, formats) == seq![
            TopicPagesView {
                id: a[0].id,
                page: TextFileView {
                    name: page_name(a[0].id) + ".rst"@,
                    text: topic_page(a[0], formats),
                },
                stubs: stub_files(a[0].id, a[0].aliases),
            },
        ],
        a.len() == 1 && a[0].id.len() == 0 ==> all_topic_files(a, formats).len() == 0,
        a.len() == 0 ==> all_topic_files(a, formats).len() == 0,
    decreases b.len(),
{
    if b.len() == 0 {
        assert(a + b =~= a);
        assert(all_topic_files(a, formats) + all_topic_files(b, formats) =~= all_topic_files(
            a,
            formats,
        ));
    } else {
        assert((a + b).drop_last() =~= a + b.drop_last());
        law_pages_follow_the_topics(a, b.drop_last(), formats);
        assert(all_topic_files(a + b, formats) =~= all_topic_files(a, formats) + all_topic_files(
            b,
            formats,
        ));
    }
    if a.len() == 1 {
        assert(all_topic_files(a.drop_last(), formats) =~= Seq::empty());
        if a[0].id.len() > 0 {
            assert(all_topic_files(a, formats) =~= seq![topic_files(a[0], formats)]);
        }
    }
}

/// The pages of aliases come in the order of the aliases: each alias that is
/// there and is not the identifier has one, under its own name, which leads to
/// the identifier.
pub proof fn law_stubs_follow_the_aliases(id: Seq<char>, a: Seq<Seq<char>>, b: Seq<Seq<char>>)
    ensures
        stub_files(id, a + b) == stub_files(id, a) + stub_files(id, b),
        a.len() == 1 && a[0].len() > 0 && a[0] != id ==> stub_files(id, a) == seq![
            TextFileView { name: page_name(a[0]) + ".rst"@, text: alias_page(a[0], id) },
        ],
        a.len() == 1 && (a[0].len() == 0 || a[0] == id) ==> stub_files(id, a).len() == 0,
        a.len() == 0 ==> stub_files(id, a).len() == 0,
    decreases b.len(),
{
    if b.len() == 0 {
        assert(a + b =~= a);
        assert(stub_files(id, a) + stub_files(id, b) =~= stub_files(id, a));
    } else {
        assert((a + b).drop_last() =~= a + b.drop_last());
        law_stubs_follow_the_aliases(id, a, b.drop_last());
        assert(stub_files(id, a + b) =~= stub_files(id, a) + stub_files(id, b));
    }
    if a.len() == 1 {
        assert(stub_files(id, a.drop_last()) =~= Seq::empty());
        if a[0].len() > 0 && a[0] != id {
            assert(stub_files(id, a) =~= seq![
                TextFileView { name: page_name(a[0]) + ".rst"@, text: alias_page(a[0], id) },
            ]);
        }
    }
}

/// The number of alias pages is the sum over the topics.
pub proof fn law_stub_count_adds_up(a: Seq<TopicPagesView>, b: Seq<TopicPagesView>)
    ensures
        stub_count(a + b) == stub_count(a) + stub_count(b),
        a.len() == 1 ==> stub_count(a) == a[0].stubs.len(),
        a.len() == 0 ==> stub_count(a) == 0,
    decreases b.len(),
{
    if b.len() == 0 {
        assert(a + b =~= a);
    } else {
        assert((a + b).drop_last() =~= a + b.drop_last());
        law_stub_count_adds_up(a, b.drop_last());
    }
    if a.len() == 1 {
        assert(stub_count(a.drop_last()) == 0);
    }
}

/// The progress of the output: one step for each topic, numbered from one on,
/// with the number of all topics and the identifier.
pub proof fn law_progress(pages: Seq<TopicPagesView>, i: int)
    requires
        0 <= i < pages.len(),
    ensures
        progress_of(pages).len() == pages.len(),
        progress_of(pages)[i].0 == i + 1,
        progress_of(pages)[i].1 == pages.len(),
        progress_of(pages)[i].2 == pages[i].id,
{
}

// ---------------------------------------------------------------------------
// Inline elements
// ---------------------------------------------------------------------------

/// The text of a paragraph is that of its elements, in order.
pub proof fn law_text_follows_the_elements(a: Seq<InlineView>, b: Seq<InlineView>)
    ensures
        inlines_text(a + b) == inlines_text(a) + inlines_text(b),
        a.len() == 1 ==> inlines_text(a) == inline_text(a[0]),
        a.len() == 0 ==> inlines_text(a).len() == 0,
    decreases b.len(),
{
    if b.len() == 0 {
        assert(a + b =~= a);
        assert(inlines_text(a) + inlines_text(b) =~= inlines_text(a));
    } else {
        assert((a + b).drop_last() =~= a + b.drop_last());
        law_text_follows_the_elements(a, b.drop_last());
        assert(inlines_text(a + b) =~= inlines_text(a) + inlines_text(b));
    }
    if a.len() == 1 {
        assert(inlines_text(a.drop_last()) =~= Seq::empty());
        assert(inlines_text(a) =~= inline_text(a[0]));
    }
}

/// What elements look like: plain text is escaped; bold and italic text stands
/// between two asterisks, or one, on each side; a link shows its text and names
/// the label of its target.
pub proof fn law_elements_look(i: InlineView)
    ensures
        i matches InlineView::Text(s) ==> inline_text(i) == rst_escaped(s),
        i matches InlineView::Bold(s) ==> inline_text(i) == seq!['*', '*'] + inlines_text(s) + seq![
            '*',
            '*',
        ],
        i matches InlineView::Italic(s) ==> inline_text(i) == seq!['*'] + inlines_text(s) + seq![
            '*',
        ],
        i matches InlineView::Link { text, target, kind } ==> inline_text(i) == seq![
            ':',
            'r',
            'e',
            'f',
            ':',
            '`',
        ] + inlines_text(text) + seq![' ', '<'] + label(target) + seq!['>', '`'],
{
    reveal_strlit("**");
    reveal_strlit("*");
    reveal_strlit(":ref:`");
    reveal_strlit(" <");
    reveal_strlit(">`");
    assert("**"@ =~= seq!['*', '*']);
    assert("*"@ =~= seq!['*']);
    assert(":ref:`"@ =~= seq![':', 'r', 'e', 'f', ':', '`']);
    assert(" <"@ =~= seq![' ', '<']);
    assert(">`"@ =~= seq!['>', '`']);
}

/// Text is escaped character by character: a backslash goes in front of each
/// backslash, asterisk, backquote, bar and underscore, and nothing else changes.
pub proof fn law_escapes(a: Seq<char>, b: Seq<char>)
    ensures
        rst_escaped(a + b) == rst_escaped(a) + rst_escaped(b),
        a.len() == 1 && (a[0] == '\\' || a[0] == '*' || a[0] == '`' || a[0] == '|' || a[0]
            == '_') ==> rst_escaped(a) == seq!['\\', a[0]],
        a.len() == 1 && !(a[0] == '\\' || a[0] == '*' || a[0] == '`' || a[0] == '|' || a[0]
            == '_') ==> rst_escaped(a) == a,
    decreases a.len(),
{
    if a.len() == 0 {
        assert(a + b =~= b);
        assert(rst_escaped(a) + rst_escaped(b) =~= rst_escaped(b));
    } else {
        assert((a + b).skip(1) =~= a.skip(1) + b);
        law_escapes(a.skip(1), b);
        assert(rst_escaped(a + b) =~= rst_escaped(a) + rst_escaped(b));
    }
    if a.len() == 1 {
        assert(rst_escaped(a.skip(1)) =~= Seq::empty());
        assert(seq![a[0]] =~= a);
        assert(seq!['\\', a[0]] + Seq::<char>::empty() =~= seq!['\\', a[0]]);
        assert(seq![a[0]] + Seq::<char>::empty() =~= a);
    }
}

// ---------------------------------------------------------------------------
// Tables and images
// ---------------------------------------------------------------------------

/// A table has its rows in order; the first cell of a row opens it, and the
/// others follow in order.
pub proof fn law_tables_follow_their_rows(
    a: Seq<Seq<BlockView>>,
    b: Seq<Seq<BlockView>>,
    cells: Seq<BlockView>,
    cell: BlockView,
)
    ensures
        rows_text(a + b) == rows_text(a) + rows_text(b),
        a.len() == 1 ==> rows_text(a) == row_text(a[0]),
        a.len() == 0 ==> rows_text(a).len() == 0,
        cells.len() == 0 ==> row_text(cells.push(cell)) == "   * - "@ + cell_text(cell) + "\n"@,
        cells.len() > 0 ==> row_text(cells.push(cell)) == row_text(cells) + "     - "@ + cell_text(
            cell,
        ) + "\n"@,
    decreases b.len(),
{
    if b.len() == 0 {
        assert(a + b =~= a);
        assert(rows_text(a) + rows_text(b) =~= rows_text(a));
    } else {
        assert((a + b).drop_last() =~= a + b.drop_last());
        law_tables_follow_their_rows(a, b.drop_last(), cells, cell);
        assert(rows_text(a + b) =~= rows_text(a) + rows_text(b));
    }
    if a.len() == 1 {
        assert(rows_text(a.drop_last()) =~= Seq::empty());
        assert(rows_text(a) =~= row_text(a[0]));
    }
    assert(cells.push(cell).drop_last() =~= cells);
    if cells.len() == 0 {
        assert(row_text(cells) =~= Seq::empty());
        assert(row_text(cells.push(cell)) =~= "   * - "@ + cell_text(cell) + "\n"@);
    }
}

/// What blocks look like: a paragraph line by line, a table as a list table,
/// and an image as a directive in the format that was noted for it. Within a
/// table a paragraph is its text, an image its name behind a bar.
pub proof fn law_blocks_look(b: BlockView, formats: Seq<(Seq<char>, ImageOutFormat)>)
    ensures
        b matches BlockView::Paragraph(s) ==> block_text(b, formats) == paragraph_text(
            inlines_text(s),
        ) && cell_text(b) == inlines_text(s),
        b matches BlockView::Table(rows) ==> block_text(b, formats)
            == ".. list-table::\n   :widths: auto\n\n"@ + rows_text(rows) && cell_text(b)
            == "(nested table)"@,
        b matches BlockView::Image(i) ==> block_text(b, formats) == image_text(
            i,
            format_of(formats, i.filename),
        ) && cell_text(b) == seq!['|'] + i.filename,
{
    reveal_strlit("|");
    assert("|"@ =~= seq!['|']);
}

/// What images look like: an inline one is an image, another a figure on its
/// side; a metafile has a comment in front that says what it is.
pub proof fn law_images_look(filename: Seq<char>, format: ImageOutFormat)
    ensures
        image_text(ImageRefView { filename, placement: ImagePlacement::Inline }, ImageOutFormat::Png)
            == ".. image:: _images/"@ + image_name(filename, ImageOutFormat::Png) + "\n\n"@,
        image_text(ImageRefView { filename, placement: ImagePlacement::Left }, ImageOutFormat::Png)
            == ".. figure:: _images/"@ + image_name(filename, ImageOutFormat::Png)
            + "\n   :align: left\n\n"@,
        image_text(ImageRefView { filename, placement: ImagePlacement::Right }, ImageOutFormat::Png)
            == ".. figure:: _images/"@ + image_name(filename, ImageOutFormat::Png)
            + "\n   :align: right\n\n"@,
        image_text(ImageRefView { filename, placement: ImagePlacement::Inline }, ImageOutFormat::Wmf)
            == ".. WMF (Windows Metafile) — vector image saved unconverted; render to PNG/SVG to display in Sphinx HTML.\n"@ + ".. image:: _images/"@ + image_name(
            filename,
            ImageOutFormat::Wmf,
        ) + "\n\n"@,
        image_text(ImageRefView { filename, placement: ImagePlacement::Left }, ImageOutFormat::Wmf)
            == ".. WMF (Windows Metafile) — vector image saved unconverted; render to PNG/SVG to display in Sphinx HTML.\n"@ + ".. figure:: _images/"@ + image_name(
            filename,
            ImageOutFormat::Wmf,
        ) + "\n   :align: left\n\n"@,
        image_text(ImageRefView { filename, placement: ImagePlacement::Right }, ImageOutFormat::Wmf)
            == ".. WMF (Windows Metafile) — vector image saved unconverted; render to PNG/SVG to display in Sphinx HTML.\n"@ + ".. figure:: _images/"@ + image_name(
            filename,
            ImageOutFormat::Wmf,
        ) + "\n   :align: right\n\n"@,
        image_name(filename, ImageOutFormat::Png) == with_extension(
            image_stem(filename),
            seq!['p', 'n', 'g'],
        ),
        image_name(filename, ImageOutFormat::Wmf) == with_extension(
            image_stem(filename),
            seq!['w', 'm', 'f'],
        ),
{
    reveal_strlit("");
    reveal_strlit("png");
    reveal_strlit("wmf");
    assert(""@ =~= Seq::<char>::empty());
    assert("png"@ =~= seq!['p', 'n', 'g']);
    assert("wmf"@ =~= seq!['w', 'm', 'f']);
    assert(""@ + ".. image:: _images/"@ =~= ".. image:: _images/"@);
    assert(""@ + ".. figure:: _images/"@ =~= ".. figure:: _images/"@);
}

/// The format of an image is the one noted last under its name; an image that
/// was never noted counts as PNG.
pub proof fn law_last_format_counts(
    formats: Seq<(Seq<char>, ImageOutFormat)>,
    name: Seq<char>,
    k: int,
)
    ensures
        0 <= k < formats.len() && formats[k].0 == name && (forall|j: int|
            k < j < formats.len() ==> (#[trigger] formats[j]).0 != name) ==> format_of(
            formats,
            name,
        ) == formats[k].1,
        (forall|j: int| 0 <= j < formats.len() ==> (#[trigger] formats[j]).0 != name)
            ==> format_of(formats, name) is Png,
    decreases formats.len(),
{
    if formats.len() > 0 {
        let shorter = formats.drop_last();
        let last = formats.len() - 1;
        law_last_format_counts(shorter, name, k);
        assert(formats[last] == formats.last());
        if 0 <= k < last && formats[k].0 == name && (forall|j: int|
            k < j < formats.len() ==> (#[trigger] formats[j]).0 != name) {
            assert(formats[last].0 != name);
            assert forall|j: int| k < j < shorter.len() implies (#[trigger] shorter[j]).0
                != name by {
                assert(formats[j].0 != name);
            }
        }
        if forall|j: int| 0 <= j < formats.len() ==> (#[trigger] formats[j]).0 != name {
            assert(formats[last].0 != name);
            assert forall|j: int| 0 <= j < shorter.len() implies (#[trigger] shorter[j]).0
                != name by {
                assert(formats[j].0 != name);
            }
        }
    }
}

// ---------------------------------------------------------------------------
// The start page and the configuration
// ---------------------------------------------------------------------------

/// The start page: the title of the help file as its heading, the copyright
/// where there is one, and the table of contents. The configuration names the
/// title, and the copyright where there is one.
pub proof fn law_start_page(h: HelpFileView)
    ensures
        h.copyright is None ==> index_page(h) == heading(h.title)
            + ".. toctree::\n   :maxdepth: 2\n   :caption: Contents\n\n"@ + toc_lines(
            page_names(contents_order(h.topics)),
        ) + seq!['\n'],
        h.copyright matches Some(c) ==> index_page(h) == heading(h.title) + c + seq!['\n', '\n']
            + ".. toctree::\n   :maxdepth: 2\n   :caption: Contents\n\n"@ + toc_lines(
            page_names(contents_order(h.topics)),
        ) + seq!['\n'],
        h.copyright is None ==> conf_page(h)
            == "# Configuration file for the Sphinx documentation builder.\n\nproject = "@
            + py_literal(h.title) + "\n"@ + "extensions = []\nexclude_patterns = ['_build']\n\n"@,
        h.copyright matches Some(c) ==> conf_page(h)
            == "# Configuration file for the Sphinx documentation builder.\n\nproject = "@
            + py_literal(h.title) + "\n"@ + "copyright = "@ + py_literal(c) + "\n"@
            + "extensions = []\nexclude_patterns = ['_build']\n\n"@,
{
    reveal_strlit("");
    reveal_strlit("\n");
    reveal_strlit("\n\n");
    assert(""@ =~= Seq::<char>::empty());
    assert("\n"@ =~= seq!['\n']);
    assert("\n\n"@ =~= seq!['\n', '\n']);
    let front = "# Configuration file for the Sphinx documentation builder.\n\nproject = "@
        + py_literal(h.title) + "\n"@;
    match h.copyright {
        None => {
            assert(heading(h.title) + ""@ =~= heading(h.title));
            assert(front + ""@ =~= front);
        },
        Some(c) => {
            assert(heading(h.title) + (c + seq!['\n', '\n']) =~= heading(h.title) + c + seq![
                '\n',
                '\n',
            ]);
            assert(front + ("copyright = "@ + py_literal(c) + "\n"@) =~= front + "copyright = "@
                + py_literal(c) + "\n"@);
        },
    }
}

/// The page of an alias has the label of the alias and leads to the label of the
/// topic.
pub proof fn law_alias_page(alias: Seq<char>, primary: Seq<char>)
    ensures
        (":orphan:\n\n.. _"@ + label(alias) + ":\n\n"@).is_prefix_of(alias_page(alias, primary)),
        ("See :ref:`"@ + label(primary) + "`.\n"@).is_suffix_of(alias_page(alias, primary)),
        alias_page(alias, primary) == ":orphan:\n\n.. _"@ + label(alias) + ":\n\n"@ + heading(
            label(primary),
        ) + "See :ref:`"@ + label(primary) + "`.\n"@,
{
    let page = alias_page(alias, primary);
    let front = ":orphan:\n\n.. _"@ + label(alias) + ":\n\n"@;
    let back = "See :ref:`"@ + label(primary) + "`.\n"@;
    assert(page.subrange(0, front.len() as int) =~= front);
    assert(page.subrange(page.len() - back.len(), page.len() as int) =~= back);
}

/// The names of pages come in the order of the topics, and a topic without an
/// identifier has none.
pub proof fn law_page_names_follow_the_topics(a: Seq<TopicView>, b: Seq<TopicView>)
    ensures
        page_names(a + b) == page_names(a) + page_names(b),
        a.len() == 1 && a[0].id.len() > 0 ==> page_names(a) == seq![page_name(a[0].id)],
        a.len() == 1 && a[0].id.len() == 0 ==> page_names(a).len() == 0,
    decreases b.len(),
{
    if b.len() == 0 {
        assert(a + b =~= a);
        assert(page_names(a) + page_names(b) =~= page_names(a));
    } else {
        assert((a + b).drop_last() =~= a + b.drop_last());
        law_page_names_follow_the_topics(a, b.drop_last());
        assert(page_names(a + b) =~= page_names(a) + page_names(b));
    }
    if a.len() == 1 {
        assert(page_names(a.drop_last()) =~= Seq::empty());
        if a[0].id.len() > 0 {
            assert(page_names(a) =~= seq![page_name(a[0].id)]);
        }
    }
}

// ---------------------------------------------------------------------------
// Names
// ---------------------------------------------------------------------------

/// Whether a character is a space or a slash of either kind.
pub open spec fn separator(c: char) -> bool {
    c == ' ' || c == '/' || c == '\\'
}

/// Whether a file name cannot hold a character.
pub open spec fn reserved(c: char) -> bool {
    c == '/' || c == '\\' || c == ':' || c == '*' || c == '?' || c == '"' || c == '<' || c == '>'
        || c == '|'
}

/// Names are cleaned character by character. A label loses spaces and slashes,
/// a page name also what file names cannot hold, and an image name only that;
/// everything else stays. One bar in front of an image name is left out.
pub proof fn law_names(s: Seq<char>, i: int)
    requires
        0 <= i < s.len(),
    ensures
        label(s).len() == s.len(),
        label(s)[i] == if separator(s[i]) { '_' } else { s[i] },
        page_name(s).len() == s.len(),
        page_name(s)[i] == if separator(s[i]) || reserved(s[i]) { '_' } else { s[i] },
        s[0] != '|' ==> image_stem(s).len() == s.len() && image_stem(s)[i] == if reserved(s[i]) {
            '_'
        } else {
            s[i]
        },
        image_stem(seq!['|'] + s).len() == s.len(),
        image_stem(seq!['|'] + s)[i] == if reserved(s[i]) { '_' } else { s[i] },
{
    assert((seq!['|'] + s).skip(1) =~= s);
}

/// The extension of a name is what follows its last dot; a name without a dot
/// gets one.
pub proof fn law_extensions(stem: Seq<char>, old_ext: Seq<char>, ext: Seq<char>)
    requires
        forall|i: int| 0 <= i < old_ext.len() ==> old_ext[i] != '.',
    ensures
        with_extension(stem + seq!['.'] + old_ext, ext) == stem + seq!['.'] + ext,
        with_extension(old_ext, ext) == old_ext + seq!['.'] + ext,
{
    lemma_last_dot_at(stem, old_ext);
    let whole = stem + seq!['.'] + old_ext;
    assert(whole.take(stem.len() as int) =~= stem);
}

proof fn lemma_last_dot_at(stem: Seq<char>, ext: Seq<char>)
    requires
        forall|i: int| 0 <= i < ext.len() ==> ext[i] != '.',
    ensures
        last_dot(stem + seq!['.'] + ext) == stem.len(),
        last_dot(ext) == -1,
    decreases ext.len(),
{
    let whole = stem + seq!['.'] + ext;
    if ext.len() == 0 {
        assert(whole.last() == '.');
    } else {
        assert(ext[ext.len() - 1] != '.');
        assert forall|i: int| 0 <= i < ext.drop_last().len() implies ext.drop_last()[i] != '.' by {
            assert(ext[i] != '.');
        }
        lemma_last_dot_at(stem, ext.drop_last());
        assert(whole.last() == ext.last());
        assert(whole.drop_last() =~= stem + seq!['.'] + ext.drop_last());
    }
}

// ---------------------------------------------------------------------------
// Paragraphs
// ---------------------------------------------------------------------------

/// Whether a text has no line feed in it.
pub open spec fn one_line(s: Seq<char>) -> bool {
    forall|i: int| 0 <= i < s.len() ==> #[trigger] s[i] != '\n'
}

/// Whether a text starts with a space or a tab.
pub open spec fn starts_blank(s: Seq<char>) -> bool {
    s.len() > 0 && (s[0] == ' ' || s[0] == '\t')
}

proof fn lemma_first_line(s: Seq<char>, rest: Seq<char>)
    requires
        one_line(s),
    ensures
        line_len(s) == s.len(),
        line_len(s + seq!['\n'] + rest) == s.len(),
    decreases s.len(),
{
    let whole = s + seq!['\n'] + rest;
    if s.len() == 0 {
        assert(whole[0] == '\n');
    } else {
        assert(s[0] != '\n');
        assert(one_line(s.skip(1))) by {
            assert forall|i: int| 0 <= i < s.skip(1).len() implies #[trigger] s.skip(1)[i]
                != '\n' by {
                assert(s[i + 1] != '\n');
            }
        }
        lemma_first_line(s.skip(1), rest);
        assert(whole.skip(1) =~= s.skip(1) + seq!['\n'] + rest);
    }
}

/// A paragraph is written line by line: the blanks in front of it are left out,
/// each line ends with a line feed, the lines stay in order, and a line changes
/// only where it would be read as a transition.
pub proof fn law_paragraphs_are_written_line_by_line(
    blank: char,
    line: Seq<char>,
    rest: Seq<char>,
    next: Seq<char>,
)
    requires
        blank == ' ' || blank == '\t',
        one_line(line),
        !starts_blank(line),
        !starts_blank(rest),
        one_line(next),
    ensures
        paragraph_text(seq![blank] + rest) == paragraph_text(rest),
        paragraph_text(line) == safe_line(line) + seq!['\n'],
        paragraph_text(line + seq!['\n'] + rest) == paragraph_text(line) + paragraph_text(rest),
        paragraph_text(line + seq!['\n'] + next) == paragraph_text(line) + safe_line(next) + seq![
            '\n',
        ],
        !is_transition(line) ==> safe_line(line) == line,
{
    assert((seq![blank] + rest).skip(1) =~= rest);
    lemma_first_line(line, rest);
    lemma_first_line(line, next);
    lemma_first_line(next, Seq::empty());
    lemma_one_line_written(line);
    lemma_one_line_written(next);
    let whole = line + seq!['\n'] + rest;
    let other = line + seq!['\n'] + next;
    assert(flush_left(line) == line);
    assert(flush_left(rest) == rest);
    assert(whole.take(line.len() as int) =~= line);
    assert(whole.skip(line.len() as int + 1) =~= rest);
    assert(other.take(line.len() as int) =~= line);
    assert(other.skip(line.len() as int + 1) =~= next);
    assert(!starts_blank(whole)) by {
        if line.len() == 0 {
            assert(whole[0] == '\n');
        }
    }
    assert(!starts_blank(other)) by {
        if line.len() == 0 {
            assert(other[0] == '\n');
        }
    }
    let l = seq![line] + lines(rest);
    assert(lines(whole) == l);
    assert(l.skip(1) =~= lines(rest));
    let m = seq![line] + lines(next);
    assert(lines(other) == m);
    assert(m.skip(1) =~= lines(next));
    assert(safe_line(line).push('\n') =~= safe_line(line) + seq!['\n']);
    assert(safe_line(next).push('\n') =~= safe_line(next) + seq!['\n']);
    assert(paragraph_text(other) =~= paragraph_text(line) + safe_line(next) + seq!['\n']);
}

proof fn lemma_one_line_written(line: Seq<char>)
    requires
        one_line(line),
    ensures
        safe_lines(lines(line)) == safe_line(line).push('\n'),
{
    lemma_first_line(line, Seq::empty());
    let l = seq![line];
    assert(lines(line) == l);
    assert(l.skip(1) =~= Seq::empty());
    assert(safe_lines(l.skip(1)) =~= Seq::empty());
    assert(safe_lines(l) =~= safe_line(line).push('\n'));
}

/// The marks of transitions are the printable ASCII characters that are neither
/// letters nor digits nor the space.
pub proof fn law_transition_marks(c: char)
    ensures
        transition_mark(c) <==> '!' <= c <= '~' && !('0' <= c <= '9') && !('A' <= c <= 'Z') && !(
        'a' <= c <= 'z'),
{
}

/// A line of white space, a mark four times or more, and white space is a
/// transition, and it is written with a backslash in front of the first mark.
pub proof fn law_transitions_are_broken_up(
    before: Seq<char>,
    mark: char,
    n: nat,
    after: Seq<char>,
)
    requires
        n >= 4,
        transition_mark(mark),
        forall|i: int| 0 <= i < before.len() ==> white_space(#[trigger] before[i]),
        forall|i: int| 0 <= i < after.len() ==> white_space(#[trigger] after[i]),
    ensures
        ({
            let run = Seq::new(n, |i: int| mark);
            &&& is_transition(before + run + after)
            &&& safe_line(before + run + after) == before + seq!['\\'] + run + after
        }),
{
    let run = Seq::new(n, |i: int| mark);
    let line = before + run + after;
    assert(!white_space(mark));
    assert(run.last() == mark);
    lemma_indent_of(before, run + after);
    assert(before + (run + after) =~= line);
    assert(line.skip(before.len() as int) =~= run + after);
    lemma_trimmed(run, after);
    assert(line_body(line) == run);
    assert(line.take(before.len() as int) =~= before);
    assert(broken_up(line) =~= before + seq!['\\'] + run + after);
}

/// No other line is a transition: not one of fewer than four marks, not one of a
/// character that is no mark, and not one with two different characters.
pub proof fn law_other_lines_stay(before: Seq<char>, body: Seq<char>, after: Seq<char>, i: int)
    requires
        body.len() > 0,
        !white_space(body[0]),
        !white_space(body.last()),
        forall|i: int| 0 <= i < before.len() ==> white_space(#[trigger] before[i]),
        forall|i: int| 0 <= i < after.len() ==> white_space(#[trigger] after[i]),
        body.len() < 4 || !transition_mark(body[0]) || 0 <= i < body.len() && body[i] != body[0],
    ensures
        !is_transition(before + body + after),
        safe_line(before + body + after) == before + body + after,
{
    let line = before + body + after;
    lemma_indent_of(before, body + after);
    assert(before + (body + after) =~= line);
    assert(line.skip(before.len() as int) =~= body + after);
    lemma_trimmed(body, after);
    assert(line_body(line) == body);
}

proof fn lemma_indent_of(blanks: Seq<char>, rest: Seq<char>)
    requires
        forall|i: int| 0 <= i < blanks.len() ==> white_space(#[trigger] blanks[i]),
        rest.len() > 0,
        !white_space(rest[0]),
    ensures
        indent(blanks + rest) == blanks.len(),
    decreases blanks.len(),
{
    let whole = blanks + rest;
    if blanks.len() == 0 {
        assert(whole =~= rest);
    } else {
        assert(white_space(blanks[0]));
        assert(whole.skip(1) =~= blanks.skip(1) + rest);
        assert forall|i: int| 0 <= i < blanks.skip(1).len() implies white_space(
            #[trigger] blanks.skip(1)[i],
        ) by {
            assert(white_space(blanks[i + 1]));
        }
        lemma_indent_of(blanks.skip(1), rest);
    }
}

proof fn lemma_trimmed(s: Seq<char>, blanks: Seq<char>)
    requires
        s.len() > 0,
        !white_space(s.last()),
        forall|i: int| 0 <= i < blanks.len() ==> white_space(#[trigger] blanks[i]),
    ensures
        trimmed_end(s + blanks) == s,
    decreases blanks.len(),
{
    let whole = s + blanks;
    if blanks.len() == 0 {
        assert(whole =~= s);
    } else {
        assert(white_space(blanks[blanks.len() - 1]));
        assert(whole.drop_last() =~= s + blanks.drop_last());
        assert forall|i: int| 0 <= i < blanks.drop_last().len() implies white_space(
            #[trigger] blanks.drop_last()[i],
        ) by {
            assert(white_space(blanks[i]));
        }
        lemma_trimmed(s, blanks.drop_last());
    }
}

} // verus!
