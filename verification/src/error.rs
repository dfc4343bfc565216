//! Errors of the reader.

use vstd::prelude::*;

use crate::text::{hex_lower, hex_upper, push_hex_lower, push_hex_padded, push_str, zero_padded};

verus! {

/// Errors produced by the WinHelp reader.
#[derive(Debug)]
pub enum Error {
    /// The file does not start with the HLP magic number.
    BadMagic(u32),
    /// An internal file is malformed.
    BadInternalFile { name: String, detail: String },
    /// No internal file has this name.
    FileNotFound(String),
    /// A compressed stream cannot be expanded.
    Decompression(String),
    /// A structure cannot be read at this offset.
    Parse { offset: u64, detail: String },
    /// No topic has this context hash.
    UnresolvedHash(u32),
}

/// What an [`Error`] says, with its strings as sequences of characters.
pub enum ErrorView {
    BadMagic(u32),
    BadInternalFile { name: Seq<char>, detail: Seq<char> },
    FileNotFound(Seq<char>),
    Decompression(Seq<char>),
    Parse { offset: u64, detail: Seq<char> },
    UnresolvedHash(u32),
}

impl View for Error {
    type V = ErrorView;

    open spec fn view(&self) -> ErrorView {
        match *self {
            Error::BadMagic(m) => ErrorView::BadMagic(m),
            Error::BadInternalFile { name, detail } => ErrorView::BadInternalFile {
                name: name@,
                detail: detail@,
            },
            Error::FileNotFound(name) => ErrorView::FileNotFound(name@),
            Error::Decompression(detail) => ErrorView::Decompression(detail@),
            Error::Parse { offset, detail } => ErrorView::Parse { offset, detail: detail@ },
            Error::UnresolvedHash(h) => ErrorView::UnresolvedHash(h),
        }
    }
}

/// The message of an error.
pub open spec fn error_message(e: ErrorView) -> Seq<char> {
    match e {
        ErrorView::BadMagic(m) => "invalid HLP magic: expected 0x00035F3F, got 0x"@ + zero_padded(
            hex_upper(m as nat),
            8,
        ),
        ErrorView::BadInternalFile { name, detail } => "invalid internal file header in '"@ + name
            + "': "@ + detail,
        ErrorView::FileNotFound(name) => "internal file not found: '"@ + name + "'"@,
        ErrorView::Decompression(detail) => "decompression failed: "@ + detail,
        ErrorView::Parse { offset, detail } => "parse error at offset 0x"@ + hex_lower(
            offset as nat,
        ) + ": "@ + detail,
        ErrorView::UnresolvedHash(h) => "unresolved context hash: 0x"@ + zero_padded(
            hex_upper(h as nat),
            8,
        ),
    }
}

impl Error {
    /// The message that describes this error.
    pub fn message(&self) -> (s: String)
        ensures
            s@ == error_message(self@),
    {
        match self {
            Error::BadMagic(m) => {
                let mut s: String = "invalid HLP magic: expected 0x00035F3F, got 0x".to_owned();
                push_hex_padded(&mut s, *m as u64, 8);
                s
            },
            Error::BadInternalFile { name, detail } => {
                let mut s: String = "invalid internal file header in '".to_owned();
                push_str(&mut s, name.as_str());
                push_str(&mut s, "': ");
                push_str(&mut s, detail.as_str());
                s
            },
            Error::FileNotFound(name) => {
                let mut s: String = "internal file not found: '".to_owned();
                push_str(&mut s, name.as_str());
                push_str(&mut s, "'");
                s
            },
            Error::Decompression(detail) => {
                let mut s: String = "decompression failed: ".to_owned();
                push_str(&mut s, detail.as_str());
                s
            },
            Error::Parse { offset, detail } => {
                let mut s: String = "parse error at offset 0x".to_owned();
                push_hex_lower(&mut s, *offset);
                push_str(&mut s, ": ");
                push_str(&mut s, detail.as_str());
                s
            },
            Error::UnresolvedHash(h) => {
                let mut s: String = "unresolved context hash: 0x".to_owned();
                push_hex_padded(&mut s, *h as u64, 8);
                s
            },
        }
    }
}

/// The error of a structure that cannot be read at `offset`.
pub open spec fn parse_error(offset: int, detail: Seq<char>) -> ErrorView {
    ErrorView::Parse { offset: offset as u64, detail }
}

/// The error of a malformed internal file.
pub open spec fn bad_file(name: Seq<char>, detail: Seq<char>) -> ErrorView {
    ErrorView::BadInternalFile { name, detail }
}

/// Makes the error of a structure that cannot be read at `offset`.
pub fn new_parse_error(offset: u64, detail: &str) -> (e: Error)
    ensures
        e@ == parse_error(offset as int, detail@),
{
    Error::Parse { offset, detail: detail.to_owned() }
}

/// Makes the error of a malformed internal file.
pub fn new_bad_file(name: &str, detail: &str) -> (e: Error)
    ensures
        e@ == bad_file(name@, detail@),
{
    Error::BadInternalFile { name: name.to_owned(), detail: detail.to_owned() }
}

/// Puts `front` in front of the items of a successful result.
pub open spec fn prefixed<T, E>(front: Seq<T>, r: Result<Seq<T>, E>) -> Result<Seq<T>, E> {
    match r {
        Ok(s) => Ok(front + s),
        Err(e) => Err(e),
    }
}

/// What messages say: each names its subject, and numbers are hexadecimal.
pub proof fn law_messages(n: u32, offset: u64, name: Seq<char>, detail: Seq<char>)
    ensures
        error_message(ErrorView::BadMagic(n)) == "invalid HLP magic: expected 0x00035F3F, got 0x"@
            + zero_padded(hex_upper(n as nat), 8),
        error_message(ErrorView::BadInternalFile { name, detail })
            == "invalid internal file header in '"@ + name + "': "@ + detail,
        error_message(ErrorView::FileNotFound(name)) == "internal file not found: '"@ + name
            + "'"@,
        error_message(ErrorView::Decompression(detail)) == "decompression failed: "@ + detail,
        error_message(ErrorView::Parse { offset, detail }) == "parse error at offset 0x"@
            + hex_lower(offset as nat) + ": "@ + detail,
        error_message(ErrorView::UnresolvedHash(n)) == "unresolved context hash: 0x"@
            + zero_padded(hex_upper(n as nat), 8),
{
}

} // verus!
