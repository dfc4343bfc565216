//! The document model.

use winhelp::{
    Block, HelpFile, ImagePlacement, ImageRef, Inline, KeywordEntry, LinkKind, Topic,
};

#[test]
fn document_model_construction() {
    let topic = Topic {
        id: "printf".to_string(),
        aliases: vec![],
        title: "printf".to_string(),
        keywords: vec!["printf".to_string(), "formatted output".to_string()],
        browse_seq: Some("lib_p".to_string()),
        body: vec![
            Block::Paragraph(vec![
                Inline::Text("The ".to_string()),
                Inline::Bold(vec![Inline::Text("printf".to_string())]),
                Inline::Text(" function writes formatted output.".to_string()),
            ]),
            Block::Paragraph(vec![Inline::Link {
                text: vec![Inline::Text("See also: fprintf".to_string())],
                target: "fprintf".to_string(),
                kind: LinkKind::Jump,
            }]),
        ],
    };

    let helpfile = HelpFile {
        title: "C Library Reference".to_string(),
        copyright: Some("Open Watcom".to_string()),
        root_topic: "contents".to_string(),
        topics: vec![topic],
        keyword_index: vec![KeywordEntry {
            keyword: "printf".to_string(),
            topic_ids: vec!["printf".to_string()],
        }],
        images: Vec::new(),
    };

    assert_eq!(helpfile.title, "C Library Reference");
    assert_eq!(helpfile.topics.len(), 1);
    assert_eq!(helpfile.topics[0].id, "printf");
    assert_eq!(helpfile.topics[0].keywords.len(), 2);
    assert_eq!(helpfile.keyword_index.len(), 1);
}

#[test]
fn link_kind_equality() {
    assert_eq!(LinkKind::Jump, LinkKind::Jump);
    assert_ne!(LinkKind::Jump, LinkKind::Popup);
}

#[test]
fn image_placement_variants() {
    let img = ImageRef {
        filename: "setup.bmp".to_string(),
        placement: ImagePlacement::Left,
    };
    assert_eq!(img.placement, ImagePlacement::Left);
    assert_ne!(img.placement, ImagePlacement::Inline);
}
