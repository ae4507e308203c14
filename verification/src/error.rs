//! The error value returned by every parsing and extraction function.
//!
//! Each error carries a machine-readable `kind` and a human-readable
//! `message`.
use vstd::prelude::*;
use vstd::string::StringExecFns;

use crate::nid::{nid_name, NID};

verus! {

/// The metadata sections whose terminator can be wrong.
#[derive(Debug, Clone, Copy, PartialEq, Eq, Structural)]
pub enum Section {
    StreamsInfo,
    PackInfo,
    UnpackInfo,
    SubStreamsInfo,
    Header,
}

/// Optional 7z features that this reader rejects.
#[derive(Debug, Clone, Copy, PartialEq, Eq, Structural)]
pub enum Feature {
    AlternativeMethods,
    AdditionalStreamsInfo,
    StartPos,
}

/// What went wrong, by category.
#[derive(Debug, Clone, PartialEq, Eq)]
pub enum ErrorKind {
    /// The input is shorter than the twelve bytes needed to check its prefix.
    TooShort,
    /// The first six bytes are not the 7z signature.
    BadSignature,
    /// The major version byte is not zero; carries (major, minor).
    UnsupportedVersion(u8, u8),
    /// A metadata tag byte outside the known range; carries the byte.
    UnknownNid(u8),
    /// A section ended with a tag other than the one that closes it.
    BadlyTerminated(Section, NID),
    /// A specific tag was required; carries (expected, got).
    UnexpectedNid(NID, NID),
    /// A non-zero "external" marker byte.
    UnsupportedExternal,
    /// A coder method id this reader cannot decode; carries the id bytes.
    UnsupportedCodec(Vec<u8>),
    /// A feature of the format that this reader rejects.
    UnsupportedFeature(Feature),
    /// A folder with one packed stream whose input index could not be found.
    NoPackedStream,
    /// A folder whose coder graph is inconsistent.
    InvalidFolderTopology,
    /// The file-names blob has an odd byte length.
    InvalidFileNames,
    /// A file name is not valid UTF-16.
    Utf16Decode,
    /// A read past the end of the input or of a sub-buffer.
    Truncated,
    /// A streams-info section that the header requires is absent.
    MissingStreamsInfo,
    /// The external decoder failed; carries its report verbatim.
    CodecFailure(String),
}

/// The single error type of this crate.
#[derive(Debug, Clone)]
pub struct ArchiveError {
    pub kind: ErrorKind,
    pub message: String,
}

/// One decimal digit as a string slice.
fn digit_str(d: u8) -> (r: &'static str)
    requires
        d < 10,
{
    match d {
        0 => "0",
        1 => "1",
        2 => "2",
        3 => "3",
        4 => "4",
        5 => "5",
        6 => "6",
        7 => "7",
        8 => "8",
        _ => "9",
    }
}

/// Appends the decimal digits of `n` to `s`.
fn append_dec_u8(s: &mut String, n: u8) {
    if n >= 100 {
        s.append(digit_str(n / 100));
    }
    if n >= 10 {
        s.append(digit_str((n / 10) % 10));
    }
    s.append(digit_str(n % 10));
}

/// Appends the id bytes of a coder method, bracketed and comma-separated,
/// in the shape `[3, 1, 1]`.
fn append_byte_list(s: &mut String, bytes: &Vec<u8>) {
    s.append("[");
    let n: usize = bytes.len();
    for i in 0..n
        invariant
            n == bytes@.len(),
    {
        if i > 0 {
            s.append(", ");
        }
        append_dec_u8(s, bytes[i]);
    }
    s.append("]");
}

fn section_str(s: Section) -> &'static str {
    match s {
        Section::StreamsInfo => "StreamsInfo",
        Section::PackInfo => "PackInfo",
        Section::UnpackInfo => "UnpackInfo",
        Section::SubStreamsInfo => "SubStreamsInfo",
        Section::Header => "Header",
    }
}

fn feature_message(f: Feature) -> &'static str {
    match f {
        Feature::AlternativeMethods => "Alternative methods are unsupported.",
        Feature::AdditionalStreamsInfo => "Additional streams unsupported",
        Feature::StartPos => "StartPos is unsupported, please report",
    }
}

/// The standard message for a kind of error.
fn describe(kind: &ErrorKind) -> String {
    let mut s = String::new();
    match kind {
        ErrorKind::TooShort => {
            s.append("The file is too small");
        },
        ErrorKind::BadSignature => {
            s.append("Signature mismatch");
        },
        ErrorKind::UnsupportedVersion(major, minor) => {
            s.append("Unsupported 7z version (");
            append_dec_u8(&mut s, *major);
            s.append(",");
            append_dec_u8(&mut s, *minor);
            s.append(")");
        },
        ErrorKind::UnknownNid(b) => {
            s.append("Unrecognized NID flag ");
            append_dec_u8(&mut s, *b);
        },
        ErrorKind::BadlyTerminated(section, n) => {
            s.append("Badly terminated ");
            s.append(section_str(*section));
            s.append(" (");
            s.append(nid_name(*n));
            s.append(")");
        },
        ErrorKind::UnexpectedNid(expected, got) => {
            s.append("Expected NID ");
            s.append(nid_name(*expected));
            s.append(", got ");
            s.append(nid_name(*got));
        },
        ErrorKind::UnsupportedExternal => {
            s.append("External unsupported");
        },
        ErrorKind::UnsupportedCodec(id) => {
            s.append("Unrecognized compression ID ");
            append_byte_list(&mut s, id);
        },
        ErrorKind::UnsupportedFeature(f) => {
            s.append(feature_message(*f));
        },
        ErrorKind::NoPackedStream => {
            s.append("Couldn't find stream's bind pair index");
        },
        ErrorKind::InvalidFolderTopology => {
            s.append("Invalid folder topology");
        },
        ErrorKind::InvalidFileNames => {
            s.append("File names length invalid");
        },
        ErrorKind::Utf16Decode => {
            s.append("invalid utf-16: lone surrogate found");
        },
        ErrorKind::Truncated => {
            s.append("Read past the end of the input");
        },
        ErrorKind::MissingStreamsInfo => {
            s.append("Missing StreamsInfo in the header");
        },
        ErrorKind::CodecFailure(report) => {
            s.append(report.as_str());
        },
    }
    s
}

impl ArchiveError {
    /// An error of the given kind with its standard message.
    pub fn new(kind: ErrorKind) -> (e: ArchiveError)
        ensures
            e.kind == kind,
    {
        let message = describe(&kind);
        ArchiveError { kind, message }
    }

    /// An error of the given kind with a message chosen at the call site.
    pub fn with_message(kind: ErrorKind, message: &str) -> (e: ArchiveError)
        ensures
            e.kind == kind,
    {
        ArchiveError { kind, message: String::from_str(message) }
    }
}

} // verus!
