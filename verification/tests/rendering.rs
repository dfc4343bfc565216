//! Exact output of the renderer, and the corner cases of names and lines.

use winhelp::contents::order_contents;
use winhelp::markup::{
    escape_rst, neutralize_transition_line, py_string, sanitize_filename, sanitize_image_stem,
    sanitize_label, swap_extension, write_paragraph,
};
use winhelp::picture::{place_image, render_image};
use winhelp::rst::{
    image_output_name_with, render_alias_stub, render_conf_py, render_index, render_pages,
    render_topic, summarize, write_block, write_block_inline, write_inline, ImageOutFormat,
    WriteSummary,
};
use winhelp::{
    Block, HelpFile, ImagePlacement, ImageRef, Inline, LinkKind, Topic, APM_MAGIC,
};

fn text(s: &str) -> Inline {
    Inline::Text(s.to_string())
}

fn topic(id: &str, title: &str) -> Topic {
    Topic {
        id: id.to_string(),
        aliases: vec![],
        title: title.to_string(),
        keywords: vec![],
        browse_seq: None,
        body: vec![],
    }
}

fn help_file(topics: Vec<Topic>) -> HelpFile {
    HelpFile {
        title: "Help".to_string(),
        copyright: None,
        root_topic: "a".to_string(),
        topics,
        keyword_index: vec![],
        images: vec![],
    }
}

fn paragraph(s: &str) -> String {
    let mut out = String::new();
    write_paragraph(&mut out, s);
    out
}

#[test]
fn escapes_put_a_backslash_before_every_special_character() {
    assert_eq!(escape_rst("\\*`|_x"), "\\\\\\*\\`\\|\\_x");
    assert_eq!(escape_rst(""), "");
    assert_eq!(escape_rst("plain — text"), "plain — text");
}

#[test]
fn python_literals_escape_line_breaks() {
    assert_eq!(py_string("a\nb\r'\\"), "'a\\nb\\r\\'\\\\'");
    assert_eq!(py_string(""), "''");
}

#[test]
fn names_are_cleaned() {
    assert_eq!(sanitize_label("a b\\c/d:e"), "a_b_c_d:e");
    assert_eq!(sanitize_filename("a b\\c/d:e<f>g\"h|i?j*k"), "a_b_c_d_e_f_g_h_i_j_k");
    assert_eq!(sanitize_filename("a_b_c"), "a_b_c");
    assert_eq!(sanitize_image_stem("||bm 0"), "_bm 0");
    assert_eq!(sanitize_image_stem("a/b\\c:d*e?f\"g<h>i"), "a_b_c_d_e_f_g_h_i");
}

#[test]
fn extensions_are_replaced_or_added() {
    assert_eq!(swap_extension("a.b.c", "d"), "a.b.d");
    assert_eq!(swap_extension(".bmp", "png"), ".png");
    assert_eq!(swap_extension("", "png"), ".png");
    assert_eq!(swap_extension(&swap_extension("a.bmp", "x"), "png"), "a.png");
    assert_eq!(image_output_name_with("|bm3", ImageOutFormat::Wmf), "bm3.wmf");
}

#[test]
fn unicode_white_space_is_part_of_the_indent() {
    assert_eq!(
        neutralize_transition_line("\u{00A0}\u{3000}====\u{2003} ").as_deref(),
        Some("\u{00A0}\u{3000}\\====\u{2003} "),
    );
    // A zero-width space is no white space.
    assert_eq!(neutralize_transition_line("\u{200B}===="), None);
}

#[test]
fn letters_and_digits_are_no_transitions() {
    assert_eq!(neutralize_transition_line("aaaa"), None);
    assert_eq!(neutralize_transition_line("1111"), None);
    assert_eq!(neutralize_transition_line("éééé"), None);
    assert_eq!(neutralize_transition_line("    "), None);
    assert_eq!(neutralize_transition_line("-é"), None);
}

#[test]
fn a_broken_up_line_is_no_transition() {
    let line = neutralize_transition_line("~~~~").unwrap();
    assert_eq!(line, "\\~~~~");
    assert_eq!(neutralize_transition_line(&line), None);
    // A line of backslashes stays uniform.
    let slashes = neutralize_transition_line("\\\\\\\\").unwrap();
    assert_eq!(slashes, "\\\\\\\\\\");
    assert!(neutralize_transition_line(&slashes).is_some());
}

#[test]
fn paragraphs_are_written_line_by_line() {
    assert_eq!(paragraph(" \t one\n----\n  two"), "one\n\\----\n  two\n");
    assert_eq!(paragraph(""), "\n");
    assert_eq!(paragraph("a\n"), "a\n\n");
}

#[test]
fn inline_elements_nest() {
    let mut out = String::new();
    write_inline(
        &mut out,
        &Inline::Bold(vec![text("a*"), Inline::Italic(vec![text("b")])]),
    );
    write_inline(
        &mut out,
        &Inline::Link {
            text: vec![text("go")],
            target: "my topic".to_string(),
            kind: LinkKind::Popup,
        },
    );
    assert_eq!(out, "**a\\**b***:ref:`go <my_topic>`");
}

#[test]
fn tables_become_list_tables() {
    let table = Block::Table(vec![
        vec![
            Block::Paragraph(vec![text("a")]),
            Block::Image(ImageRef {
                filename: "|bm1".to_string(),
                placement: ImagePlacement::Inline,
            }),
        ],
        vec![Block::Table(vec![])],
        vec![],
    ]);
    let mut out = String::new();
    write_block(&mut out, &table, &vec![]);
    assert_eq!(
        out,
        ".. list-table::\n   :widths: auto\n\n   * - a\n     - ||bm1\n   * - (nested table)\n",
    );
    let mut cell = String::new();
    write_block_inline(&mut cell, &Block::Paragraph(vec![text("x")]));
    assert_eq!(cell, "x");
}

#[test]
fn image_directives_follow_placement_and_format() {
    let image = |placement| {
        Block::Image(ImageRef {
            filename: "|bm0".to_string(),
            placement,
        })
    };
    let mut out = String::new();
    write_block(&mut out, &image(ImagePlacement::Right), &vec![]);
    assert_eq!(out, ".. figure:: _images/bm0.png\n   :align: right\n\n");
    let formats = vec![
        ("|bm0".to_string(), ImageOutFormat::Png),
        ("|bm0".to_string(), ImageOutFormat::Wmf),
    ];
    let mut out = String::new();
    write_block(&mut out, &image(ImagePlacement::Inline), &formats);
    assert_eq!(
        out,
        ".. WMF (Windows Metafile) — vector image saved unconverted; render to PNG/SVG to \
         display in Sphinx HTML.\n.. image:: _images/bm0.wmf\n\n",
    );
}

#[test]
fn topic_page_is_exact() {
    let mut t = topic("my id", "Été");
    t.keywords = vec!["one".to_string(), "two".to_string()];
    t.body = vec![Block::Paragraph(vec![text("Hello")])];
    assert_eq!(
        render_topic(&t, &vec![]),
        ".. _my_id:\n\n.. index:: one, two\n\nÉté\n=====\n\nHello\n\n",
    );
}

#[test]
fn topic_without_title_goes_by_its_identifier() {
    assert_eq!(render_topic(&topic("id", ""), &vec![]), ".. _id:\n\nid\n==\n\n");
}

#[test]
fn alias_page_is_exact() {
    assert_eq!(
        render_alias_stub("old name", "new name"),
        ":orphan:\n\n.. _old_name:\n\nnew_name\n========\n\nSee :ref:`new_name`.\n",
    );
}

#[test]
fn index_page_is_exact() {
    let mut h = help_file(vec![topic("a b", "A"), topic("", "none"), topic("c", "C")]);
    assert_eq!(
        render_index(&h),
        "Help\n====\n\n.. toctree::\n   :maxdepth: 2\n   :caption: Contents\n\n   a_b\n   c\n\n",
    );
    h.title = String::new();
    h.copyright = Some("(c) X".to_string());
    h.topics.clear();
    assert_eq!(
        render_index(&h),
        "\n=\n\n(c) X\n\n.. toctree::\n   :maxdepth: 2\n   :caption: Contents\n\n\n",
    );
}

#[test]
fn contents_list_topics_by_browse_sequence_and_then_by_title() {
    let browsed = |id: &str, title: &str, seq: &str| {
        let mut t = topic(id, title);
        t.browse_seq = Some(seq.to_string());
        t
    };
    let h = help_file(vec![
        topic("p", "pear"),
        browsed("z", "Z", "b:2"),
        topic("a2", "apple"),
        topic("F", "Fig"),
        browsed("m", "M", "b:1"),
        topic("a1", "apple"),
    ]);
    let ids: Vec<&str> = order_contents(&h.topics).iter().map(|t| t.id.as_str()).collect();
    // Capitals come before small letters; one title keeps the order of topics.
    assert_eq!(ids, ["z", "m", "F", "a2", "a1", "p"]);
    assert!(render_index(&h).contains("\n   z\n   m\n   F\n   a2\n   a1\n   p\n\n"));
    // The pages themselves keep the order of the help file.
    let pages = render_pages(&h, &vec![]);
    assert_eq!(pages[0].id, "p");
    assert_eq!(pages[5].id, "a1");
}

#[test]
fn configuration_is_exact() {
    let mut h = help_file(vec![]);
    assert_eq!(
        render_conf_py(&h),
        "# Configuration file for the Sphinx documentation builder.\n\nproject = 'Help'\n\
         extensions = []\nexclude_patterns = ['_build']\n\n",
    );
    h.copyright = Some("a\nb".to_string());
    assert_eq!(
        render_conf_py(&h),
        "# Configuration file for the Sphinx documentation builder.\n\nproject = 'Help'\n\
         copyright = 'a\\nb'\nextensions = []\nexclude_patterns = ['_build']\n\n",
    );
}

#[test]
fn pages_skip_topics_without_identifier_and_idle_aliases() {
    let mut t = topic("t 1", "T");
    t.aliases = vec![
        "alias".to_string(),
        String::new(),
        "t 1".to_string(),
        "other".to_string(),
    ];
    let h = help_file(vec![topic("", "x"), t, topic("u", "U")]);
    let pages = render_pages(&h, &vec![]);
    let names: Vec<&str> = pages.iter().map(|p| p.page.name.as_str()).collect();
    assert_eq!(names, ["t_1.rst", "u.rst"]);
    let stubs: Vec<&str> = pages[0].stubs.iter().map(|p| p.name.as_str()).collect();
    assert_eq!(stubs, ["alias.rst", "other.rst"]);
    assert_eq!(
        summarize(&pages, 3),
        WriteSummary {
            topics_written: 2,
            aliases_written: 2,
            images_written: 3,
        },
    );
    // The table of contents names the pages.
    let index = render_index(&h);
    assert!(index.contains("   t_1\n   u\n"));
    assert_eq!(
        WriteSummary::default(),
        WriteSummary {
            topics_written: 0,
            aliases_written: 0,
            images_written: 0,
        },
    );
}

#[test]
fn data_that_is_no_bitmap_is_kept() {
    let file = render_image("|bm/2", b"not a bitmap").unwrap();
    assert_eq!(file.name, "bm_2");
    assert_eq!(file.data, b"not a bitmap");
    assert_eq!(file.format, ImageOutFormat::Png);
    // The magic bytes alone make no BMP file.
    let file = render_image("|bm2", b"BM").unwrap();
    assert_eq!(file.name, "bm2");
    assert_eq!(file.data, b"BM");
}

#[test]
fn metafiles_are_kept() {
    let mut wmf = APM_MAGIC.to_le_bytes().to_vec();
    wmf.push(7);
    let file = render_image("x.y", &wmf).unwrap();
    assert_eq!(file.name, "x.wmf");
    assert_eq!(file.data, wmf);
    assert_eq!(file.format, ImageOutFormat::Wmf);
}

#[test]
fn images_are_placed_by_the_outcome_of_the_conversion() {
    let file = place_image("|bm1", b"BM..", Ok(vec![1, 2, 3])).unwrap();
    assert_eq!(file.name, "bm1.png");
    assert_eq!(file.data, [1, 2, 3]);
    let file = place_image("|bm1", b"BM..", Err(None)).unwrap();
    assert_eq!(file.name, "bm1");
    assert_eq!(file.data, b"BM..");
    let message = place_image("|bm1", b"BM..", Err(Some("no room".to_string()))).unwrap_err();
    assert_eq!(message, "failed to save bm1.png: no room");
    let wmf = APM_MAGIC.to_le_bytes();
    let file = place_image("|bm1", &wmf, Err(Some("unused".to_string()))).unwrap();
    assert_eq!(file.name, "bm1.wmf");
}

#[test]
fn converted_pixels_survive() {
    // One 24-bit pixel: blue 1, green 2, red 3.
    let mut bmp = Vec::new();
    bmp.extend_from_slice(b"BM");
    bmp.extend_from_slice(&58u32.to_le_bytes());
    bmp.extend_from_slice(&0u32.to_le_bytes());
    bmp.extend_from_slice(&54u32.to_le_bytes());
    bmp.extend_from_slice(&40u32.to_le_bytes());
    bmp.extend_from_slice(&1i32.to_le_bytes());
    bmp.extend_from_slice(&1i32.to_le_bytes());
    bmp.extend_from_slice(&1u16.to_le_bytes());
    bmp.extend_from_slice(&24u16.to_le_bytes());
    bmp.extend_from_slice(&[0u8; 24]);
    bmp.extend_from_slice(&[1, 2, 3, 0]);
    let file = render_image("p", &bmp).unwrap();
    assert_eq!(file.name, "p.png");
    let picture = image::load_from_memory_with_format(&file.data, image::ImageFormat::Png).unwrap();
    assert_eq!(picture.to_rgb8().into_raw(), [3, 2, 1]);
}
