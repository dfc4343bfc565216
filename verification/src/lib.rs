//! Reader for Windows WinHelp (`.hlp`) files.
//!
//! [`HlpContainer::from_bytes`] opens the container, and
//! [`HelpFile::from_container`] parses it into a document: topics with their
//! paragraphs, links and images, and a keyword index. The modules [`rst`] and
//! [`picture`] render a document as a Sphinx project.

pub mod assembly;
pub mod bitmap;
pub mod btree;
pub mod bytes;
pub mod commands;
pub mod container;
pub mod contents;
pub mod context;
pub mod cursor;
pub mod cutoffs;
pub mod encoded;
pub mod error;
pub mod font;
pub mod hall;
pub mod helpfile;
pub mod hotspot;
pub mod imagefiles;
pub mod inversion;
pub mod keyword;
pub mod layout;
pub mod lengths;
pub mod lz77;
pub mod markup;
pub mod model;
pub mod opcode;
pub mod order;
pub mod pages;
pub mod phrase;
pub mod picture;
pub mod pictures;
pub mod records;
pub mod refusals;
pub mod rst;
pub mod runlen;
pub mod scan;
pub mod system;
pub mod text;
pub mod title;
pub mod tokens;
pub mod topic;
pub mod trees;
pub mod views;

pub use bitmap::{
    ensure_bmp_header, extract_bitmap, is_wmf, mrb_to_bmp, mrb_to_wmf, APM_MAGIC,
};
pub use container::{HlpContainer, InternalFile};
pub use context::{context_hash, ContextMap};
pub use error::Error;
pub use font::{FontDescriptor, FontTable};
pub use helpfile::{FormatVersion, ParseOptions};
pub use hotspot::{parse_shg, Hotspot, HotspotAction, HotspotRect};
pub use inversion::build_keyword_index;
pub use keyword::{KeywordIndex, RawKeywordEntry};
pub use lz77::lz77_decompress;
pub use model::{
    Block, HelpFile, ImagePlacement, ImageRef, Inline, KeywordEntry, LinkKind, Topic,
};
pub use opcode::{parse_text_record, topic_offset_delta};
pub use phrase::PhraseTable;
pub use system::SystemInfo;
pub use title::TitleIndex;
pub use topic::{
    extract_records, flatten_topic_stream, parse_topic_metadata, read_topic_blocks,
    RawTopicRecord, TopicBlock, TopicMetadata, RECORD_TYPE_TABLE, RECORD_TYPE_TEXT,
    RECORD_TYPE_TOPIC, TOPIC_BLOCK_SIZE_31,
};
