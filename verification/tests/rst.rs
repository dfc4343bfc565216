//! Rendering of reStructuredText.

use winhelp::markup::{
    escape_rst, neutralize_transition_line, py_string, sanitize_label, swap_extension,
};
use winhelp::picture::render_image;
use winhelp::rst::{
    image_output_name, progress_steps, render_conf_py, render_index, render_pages, summarize,
    ImageOutFormat, WriteSummary,
};
use winhelp::{
    Block, HelpFile, ImagePlacement, ImageRef, Inline, KeywordEntry, LinkKind, Topic, APM_MAGIC,
};

/// The output of a help file, as the files that make it up.
struct Output {
    files: Vec<(String, String)>,
    images: Vec<(String, Vec<u8>)>,
    order: Vec<(usize, usize, String)>,
    summary: WriteSummary,
}

impl Output {
    fn text(&self, name: &str) -> &str {
        match self.files.iter().find(|f| f.0 == name) {
            Some(f) => &f.1,
            None => panic!("no file {name}"),
        }
    }

    fn has_image(&self, name: &str) -> bool {
        self.images.iter().any(|f| f.0 == name)
    }
}

fn write_all(helpfile: &HelpFile) -> Output {
    let mut images = Vec::new();
    let mut formats: Vec<(String, ImageOutFormat)> = Vec::new();
    for (filename, data) in &helpfile.images {
        let file = render_image(filename, data).unwrap();
        formats.push((filename.clone(), file.format));
        images.push((file.name, file.data));
    }
    let pages = render_pages(helpfile, &formats);
    let summary = summarize(&pages, images.len());
    let order = progress_steps(&pages);
    let mut files = Vec::new();
    for pages_of_topic in pages {
        files.push((pages_of_topic.page.name, pages_of_topic.page.text));
        for stub in pages_of_topic.stubs {
            files.push((stub.name, stub.text));
        }
    }
    files.push(("index.rst".to_string(), render_index(helpfile)));
    files.push(("conf.py".to_string(), render_conf_py(helpfile)));
    Output { files, images, order, summary }
}

fn sample_helpfile() -> HelpFile {
    HelpFile {
        title: "Test Help".into(),
        copyright: Some("(c) Test".into()),
        root_topic: "intro".into(),
        topics: vec![
            Topic {
                id: "intro".into(),
                aliases: Vec::new(),
                title: "Introduction".into(),
                keywords: vec!["intro".into()],
                browse_seq: None,
                body: vec![Block::Paragraph(vec![
                    Inline::Text("Welcome to ".into()),
                    Inline::Bold(vec![Inline::Text("Test Help".into())]),
                    Inline::Text(".".into()),
                ])],
            },
            Topic {
                id: "chapter1".into(),
                aliases: Vec::new(),
                title: "Chapter 1".into(),
                keywords: vec![],
                browse_seq: Some("ch".into()),
                body: vec![
                    Block::Paragraph(vec![
                        Inline::Text("See ".into()),
                        Inline::Link {
                            text: vec![Inline::Text("Introduction".into())],
                            target: "intro".into(),
                            kind: LinkKind::Jump,
                        },
                    ]),
                    Block::Image(ImageRef {
                        filename: "diagram.bmp".into(),
                        placement: ImagePlacement::Left,
                    }),
                ],
            },
        ],
        keyword_index: vec![KeywordEntry {
            keyword: "intro".into(),
            topic_ids: vec!["intro".into()],
        }],
        images: Vec::new(),
    }
}

#[test]
fn write_all_creates_files() {
    let out = write_all(&sample_helpfile());
    let summary = out.summary;

    assert!(!out.text("index.rst").is_empty());
    assert!(!out.text("conf.py").is_empty());
    assert!(!out.text("intro.rst").is_empty());
    assert!(!out.text("chapter1.rst").is_empty());
    assert!(out.images.is_empty());
    assert_eq!(summary.topics_written, 2);
    assert_eq!(summary.aliases_written, 0);
    assert_eq!(summary.images_written, 0);
}

#[test]
fn write_all_with_progress_invokes_callback_per_primary_topic() {
    let out = write_all(&sample_helpfile());
    let summary = out.summary;
    let seen = out.order;

    assert_eq!(summary.topics_written, 2);
    assert_eq!(seen.len(), 2);
    assert_eq!(seen[0], (1, 2, "intro".to_string()));
    assert_eq!(seen[1], (2, 2, "chapter1".to_string()));
}

#[test]
fn write_all_counts_aliases_in_summary() {
    let helpfile = HelpFile {
        title: "T".into(),
        copyright: None,
        root_topic: "intro".into(),
        topics: vec![Topic {
            id: "intro".into(),
            aliases: vec!["intro_alias".into(), "another".into()],
            title: "Intro".into(),
            keywords: vec![],
            browse_seq: None,
            body: vec![Block::Paragraph(vec![Inline::Text("hi".into())])],
        }],
        keyword_index: vec![],
        images: Vec::new(),
    };

    let summary = write_all(&helpfile).summary;
    assert_eq!(summary.topics_written, 1);
    assert_eq!(summary.aliases_written, 2);
}

#[test]
fn index_rst_contains_toctree() {
    let out = write_all(&sample_helpfile());

    let content = out.text("index.rst");
    assert!(content.contains(".. toctree::"));
    assert!(content.contains("intro"));
    assert!(content.contains("chapter1"));
    assert!(content.contains("Test Help"));
}

#[test]
fn topic_rst_has_label_and_title() {
    let out = write_all(&sample_helpfile());

    let content = out.text("intro.rst");
    assert!(content.contains(".. _intro:"));
    assert!(content.contains("Introduction"));
    assert!(content.contains("========"));
    assert!(content.contains(".. index:: intro"));
}

#[test]
fn topic_rst_has_bold() {
    let out = write_all(&sample_helpfile());

    let content = out.text("intro.rst");
    assert!(content.contains("**Test Help**"));
}

#[test]
fn topic_rst_has_link() {
    let out = write_all(&sample_helpfile());

    let content = out.text("chapter1.rst");
    assert!(content.contains(":ref:`Introduction <intro>`"));
}

#[test]
fn topic_rst_has_image() {
    let out = write_all(&sample_helpfile());

    let content = out.text("chapter1.rst");
    assert!(content.contains(".. figure:: _images/diagram.png"));
    assert!(content.contains(":align: left"));
}

#[test]
fn conf_py_valid() {
    let out = write_all(&sample_helpfile());

    let content = out.text("conf.py");
    assert!(content.contains("project = 'Test Help'"));
    assert!(content.contains("copyright = '(c) Test'"));
}

#[test]
fn escape_rst_special_chars() {
    assert_eq!(escape_rst("a*b"), "a\\*b");
    assert_eq!(escape_rst("a`b"), "a\\`b");
    assert_eq!(escape_rst("a|b"), "a\\|b");
}

#[test]
fn sanitize_label_spaces() {
    assert_eq!(sanitize_label("my topic"), "my_topic");
}

#[test]
fn py_string_escaping() {
    assert_eq!(py_string("it's"), "'it\\'s'");
}

#[test]
fn neutralize_transition_detects_pure_dashes() {
    assert_eq!(
        neutralize_transition_line("     -------------------------").as_deref(),
        Some("     \\-------------------------"),
    );
}

#[test]
fn neutralize_transition_detects_equals_and_tildes() {
    assert!(neutralize_transition_line("====").is_some());
    assert!(neutralize_transition_line("~~~~~").is_some());
}

#[test]
fn neutralize_transition_ignores_mixed_and_short_lines() {
    assert!(neutralize_transition_line("---").is_none()); // too short
    assert!(neutralize_transition_line("--=--").is_none()); // mixed
    assert!(neutralize_transition_line("   Prose text.").is_none());
    assert!(neutralize_transition_line("").is_none());
}

#[test]
fn paragraph_with_dashes_gets_escaped_on_write() {
    let helpfile = HelpFile {
        title: "T".into(),
        copyright: None,
        root_topic: "intro".into(),
        topics: vec![Topic {
            id: "intro".into(),
            aliases: Vec::new(),
            title: "Intro".into(),
            keywords: vec![],
            browse_seq: None,
            body: vec![
                Block::Paragraph(vec![Inline::Text("Header".into())]),
                Block::Paragraph(vec![Inline::Text("     -------------------------".into())]),
                Block::Paragraph(vec![Inline::Text("Next".into())]),
            ],
        }],
        keyword_index: vec![],
        images: Vec::new(),
    };

    let out = write_all(&helpfile);

    let content = out.text("intro.rst");
    assert!(
        content.contains("\\-------------------------"),
        "dashes should be escaped:\n{content}",
    );
}

/// A left-aligned image followed by a paragraph that starts with a space: the
/// space must not reach the page, or the paragraph would read as content of
/// the `.. figure::` directive.
#[test]
fn paragraph_after_figure_has_no_leading_whitespace() {
    let helpfile = HelpFile {
        title: "T".into(),
        copyright: None,
        root_topic: "intro".into(),
        topics: vec![Topic {
            id: "intro".into(),
            aliases: Vec::new(),
            title: "Intro".into(),
            keywords: vec![],
            browse_seq: None,
            body: vec![
                Block::Image(ImageRef {
                    filename: "|bm1".into(),
                    placement: ImagePlacement::Left,
                }),
                Block::Paragraph(vec![Inline::Text(" Popup Help".into())]),
            ],
        }],
        keyword_index: vec![],
        images: Vec::new(),
    };

    let out = write_all(&helpfile);

    let content = out.text("intro.rst");
    assert!(
        content.contains(".. figure:: _images/bm1.png"),
        "figure directive missing:\n{content}",
    );
    assert!(
        content.contains("   :align: left"),
        "align option missing:\n{content}",
    );
    assert!(
        !content.contains(" Popup Help"),
        "paragraph kept its leading space, which confuses docutils:\n{content}",
    );
    assert!(
        content.contains("Popup Help"),
        "paragraph text missing entirely:\n{content}",
    );
}

#[test]
fn swap_extension_bmp_to_png() {
    assert_eq!(swap_extension("diagram.bmp", "png"), "diagram.png");
    assert_eq!(swap_extension("setup.BMP", "png"), "setup.png");
    assert_eq!(swap_extension("noext", "png"), "noext.png");
    assert_eq!(swap_extension("multi.dots.bmp", "png"), "multi.dots.png");
}

#[test]
fn image_output_name_strips_pipe_and_adds_png() {
    // WinHelp embedded bitmaps use |bmN names — strip the `|` and add .png.
    assert_eq!(image_output_name("|bm0"), "bm0.png");
    assert_eq!(image_output_name("|bm20"), "bm20.png");
    // Already-reasonable names just get the extension swapped.
    assert_eq!(image_output_name("diagram.bmp"), "diagram.png");
    // Chars Windows disallows in paths are replaced with underscore.
    assert_eq!(image_output_name("a/b:c"), "a_b_c.png");
}

#[test]
fn bmp_to_png_conversion() {
    // Build a minimal valid BMP: 2x2, 24-bit.
    let mut bmp = Vec::new();
    bmp.extend_from_slice(b"BM");
    bmp.extend_from_slice(&70u32.to_le_bytes());
    bmp.extend_from_slice(&0u16.to_le_bytes());
    bmp.extend_from_slice(&0u16.to_le_bytes());
    bmp.extend_from_slice(&54u32.to_le_bytes());

    bmp.extend_from_slice(&40u32.to_le_bytes()); // header size
    bmp.extend_from_slice(&2i32.to_le_bytes()); // width
    bmp.extend_from_slice(&2i32.to_le_bytes()); // height
    bmp.extend_from_slice(&1u16.to_le_bytes()); // planes
    bmp.extend_from_slice(&24u16.to_le_bytes()); // bpp
    bmp.extend_from_slice(&0u32.to_le_bytes()); // compression
    bmp.extend_from_slice(&16u32.to_le_bytes()); // image size
    bmp.extend_from_slice(&0i32.to_le_bytes()); // x ppm
    bmp.extend_from_slice(&0i32.to_le_bytes()); // y ppm
    bmp.extend_from_slice(&0u32.to_le_bytes()); // colors used
    bmp.extend_from_slice(&0u32.to_le_bytes()); // important colors

    // 2x2 pixels (each row padded to 4 bytes): 8 bytes per row.
    bmp.extend_from_slice(&[0xFF, 0x00, 0x00, 0x00, 0xFF, 0x00, 0x00, 0x00]);
    bmp.extend_from_slice(&[0x00, 0x00, 0xFF, 0x00, 0xFF, 0xFF, 0x00, 0x00]);

    let file = render_image("test.bmp", &bmp).unwrap();

    // The file is test.png.
    assert_eq!(file.name, "test.png");

    // It is a PNG file (starts with PNG magic).
    let png_data = file.data;
    assert_eq!(&png_data[0..4], &[0x89, 0x50, 0x4E, 0x47]); // PNG magic
}

#[test]
fn write_image_with_embedded_bmp_data() {
    // Same BMP as above, but included in a full HelpFile.
    let mut bmp = Vec::new();
    bmp.extend_from_slice(b"BM");
    bmp.extend_from_slice(&70u32.to_le_bytes());
    bmp.extend_from_slice(&0u16.to_le_bytes());
    bmp.extend_from_slice(&0u16.to_le_bytes());
    bmp.extend_from_slice(&54u32.to_le_bytes());
    bmp.extend_from_slice(&40u32.to_le_bytes());
    bmp.extend_from_slice(&2i32.to_le_bytes());
    bmp.extend_from_slice(&2i32.to_le_bytes());
    bmp.extend_from_slice(&1u16.to_le_bytes());
    bmp.extend_from_slice(&24u16.to_le_bytes());
    bmp.extend_from_slice(&0u32.to_le_bytes());
    bmp.extend_from_slice(&16u32.to_le_bytes());
    bmp.extend_from_slice(&0i32.to_le_bytes());
    bmp.extend_from_slice(&0i32.to_le_bytes());
    bmp.extend_from_slice(&0u32.to_le_bytes());
    bmp.extend_from_slice(&0u32.to_le_bytes());
    bmp.extend_from_slice(&[0xFF, 0x00, 0x00, 0x00, 0xFF, 0x00, 0x00, 0x00]);
    bmp.extend_from_slice(&[0x00, 0x00, 0xFF, 0x00, 0xFF, 0xFF, 0x00, 0x00]);

    let mut images = Vec::new();
    images.push(("diagram.bmp".to_string(), bmp));

    let helpfile = HelpFile {
        title: "Image Test".into(),
        copyright: None,
        root_topic: "intro".into(),
        topics: vec![Topic {
            id: "intro".into(),
            aliases: Vec::new(),
            title: "Intro".into(),
            keywords: vec![],
            browse_seq: None,
            body: vec![Block::Image(ImageRef {
                filename: "diagram.bmp".into(),
                placement: ImagePlacement::Inline,
            })],
        }],
        keyword_index: vec![],
        images,
    };

    let out = write_all(&helpfile);

    // Verify PNG file exists.
    assert!(out.has_image("diagram.png"));

    // Verify RST references .png.
    let rst = out.text("intro.rst");
    assert!(rst.contains("_images/diagram.png"));
}

/// Build a minimal byte stream that satisfies `winhelp::is_wmf` —
/// just the Aldus Placeable Metafile magic followed by enough trailing
/// zeros to look like a header.  We don't need a renderable WMF; the
/// writer treats the bytes opaquely.
fn make_fake_wmf() -> Vec<u8> {
    let mut wmf = Vec::with_capacity(32);
    wmf.extend_from_slice(&APM_MAGIC.to_le_bytes());
    wmf.extend_from_slice(&[0u8; 28]);
    wmf
}

#[test]
fn write_image_with_wmf_data_emits_dot_wmf_and_returns_wmf_format() {
    let wmf = make_fake_wmf();
    let file = render_image("|bm5", &wmf).unwrap();

    assert_eq!(file.format, ImageOutFormat::Wmf);
    assert_eq!(file.name, "bm5.wmf");
    // Vector data is kept as it is.
    assert_eq!(file.data, wmf);
}

#[test]
fn topic_rst_emits_wmf_directive_with_caveat_comment() {
    let mut images = Vec::new();
    images.push(("|bm0".to_string(), make_fake_wmf()));

    let helpfile = HelpFile {
        title: "WMF Test".into(),
        copyright: None,
        root_topic: "intro".into(),
        topics: vec![Topic {
            id: "intro".into(),
            aliases: Vec::new(),
            title: "Intro".into(),
            keywords: vec![],
            browse_seq: None,
            body: vec![Block::Image(ImageRef {
                filename: "|bm0".into(),
                placement: ImagePlacement::Inline,
            })],
        }],
        keyword_index: vec![],
        images,
    };

    let out = write_all(&helpfile);

    // WMF file is on disk under _images/.
    assert!(out.has_image("bm0.wmf"));
    // No phantom .png is generated for the WMF image.
    assert!(!out.has_image("bm0.png"));

    let rst = out.text("intro.rst");
    // Image directive references the .wmf path with the right
    // extension.
    assert!(
        rst.contains(".. image:: _images/bm0.wmf"),
        "directive missing or wrong extension:\n{rst}",
    );
    // Caveat comment flags the format as unconverted.
    assert!(
        rst.contains(".. WMF (Windows Metafile)"),
        "WMF caveat comment missing:\n{rst}",
    );
}

#[test]
fn write_all_persists_mixed_bmp_and_wmf_with_correct_extensions() {
    // Two embedded images in one HelpFile — one BMP, one WMF — both
    // referenced from the same topic.  Ensures the per-filename format
    // map dispatches the right extension to each image directive.
    // Minimal 2x2 24-bit BMP.
    let mut bmp = Vec::new();
    bmp.extend_from_slice(b"BM");
    bmp.extend_from_slice(&70u32.to_le_bytes());
    bmp.extend_from_slice(&0u16.to_le_bytes());
    bmp.extend_from_slice(&0u16.to_le_bytes());
    bmp.extend_from_slice(&54u32.to_le_bytes());
    bmp.extend_from_slice(&40u32.to_le_bytes());
    bmp.extend_from_slice(&2i32.to_le_bytes());
    bmp.extend_from_slice(&2i32.to_le_bytes());
    bmp.extend_from_slice(&1u16.to_le_bytes());
    bmp.extend_from_slice(&24u16.to_le_bytes());
    bmp.extend_from_slice(&0u32.to_le_bytes());
    bmp.extend_from_slice(&16u32.to_le_bytes());
    bmp.extend_from_slice(&0i32.to_le_bytes());
    bmp.extend_from_slice(&0i32.to_le_bytes());
    bmp.extend_from_slice(&0u32.to_le_bytes());
    bmp.extend_from_slice(&0u32.to_le_bytes());
    bmp.extend_from_slice(&[0xFF, 0x00, 0x00, 0x00, 0xFF, 0x00, 0x00, 0x00]);
    bmp.extend_from_slice(&[0x00, 0x00, 0xFF, 0x00, 0xFF, 0xFF, 0x00, 0x00]);

    let mut images = Vec::new();
    images.push(("|bm0".to_string(), bmp));
    images.push(("|bm1".to_string(), make_fake_wmf()));

    let helpfile = HelpFile {
        title: "Mixed".into(),
        copyright: None,
        root_topic: "intro".into(),
        topics: vec![Topic {
            id: "intro".into(),
            aliases: Vec::new(),
            title: "Intro".into(),
            keywords: vec![],
            browse_seq: None,
            body: vec![
                Block::Image(ImageRef {
                    filename: "|bm0".into(),
                    placement: ImagePlacement::Inline,
                }),
                Block::Image(ImageRef {
                    filename: "|bm1".into(),
                    placement: ImagePlacement::Left,
                }),
            ],
        }],
        keyword_index: vec![],
        images,
    };

    let out = write_all(&helpfile);

    assert!(out.has_image("bm0.png"));
    assert!(out.has_image("bm1.wmf"));

    let rst = out.text("intro.rst");
    assert!(rst.contains(".. image:: _images/bm0.png"));
    assert!(rst.contains(".. figure:: _images/bm1.wmf"));
    assert!(rst.contains("   :align: left"));
}
