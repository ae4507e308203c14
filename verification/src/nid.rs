//! The single-byte tags that label each block of the 7z metadata stream.
use vstd::prelude::*;

use crate::buffer::Buffer;
use crate::error::{ArchiveError, ErrorKind};

verus! {

/// The closed set of metadata tags.
#[derive(Debug, Clone, Copy, PartialEq, Eq, Structural)]
pub enum NID {
    End,
    Header,
    ArchiveProperties,
    AdditionalStreamsInfo,
    MainStreamsInfo,
    FilesInfo,
    PackInfo,
    UnpackInfo,
    SubStreamsInfo,
    Size,
    Crc,
    Folder,
    CodersUnpackSize,
    NumUnpackStream,
    EmptyStream,
    EmptyFile,
    Anti,
    Name,
    Ctime,
    Atime,
    Mtime,
    WinAttributes,
    Comment,
    EncodedHeader,
    StartPos,
    Dummy,
}

/// The tag a byte denotes; bytes outside the closed set denote none.
pub open spec fn nid_of(b: u8) -> Option<NID> {
    if b == 0 {
        Some(NID::End)
    } else if b == 1 {
        Some(NID::Header)
    } else if b == 2 {
        Some(NID::ArchiveProperties)
    } else if b == 3 {
        Some(NID::AdditionalStreamsInfo)
    } else if b == 4 {
        Some(NID::MainStreamsInfo)
    } else if b == 5 {
        Some(NID::FilesInfo)
    } else if b == 6 {
        Some(NID::PackInfo)
    } else if b == 7 {
        Some(NID::UnpackInfo)
    } else if b == 8 {
        Some(NID::SubStreamsInfo)
    } else if b == 9 {
        Some(NID::Size)
    } else if b == 10 {
        Some(NID::Crc)
    } else if b == 11 {
        Some(NID::Folder)
    } else if b == 12 {
        Some(NID::CodersUnpackSize)
    } else if b == 13 {
        Some(NID::NumUnpackStream)
    } else if b == 14 {
        Some(NID::EmptyStream)
    } else if b == 15 {
        Some(NID::EmptyFile)
    } else if b == 16 {
        Some(NID::Anti)
    } else if b == 17 {
        Some(NID::Name)
    } else if b == 18 {
        Some(NID::Ctime)
    } else if b == 19 {
        Some(NID::Atime)
    } else if b == 20 {
        Some(NID::Mtime)
    } else if b == 21 {
        Some(NID::WinAttributes)
    } else if b == 22 {
        Some(NID::Comment)
    } else if b == 23 {
        Some(NID::EncodedHeader)
    } else if b == 24 {
        Some(NID::StartPos)
    } else if b == 25 {
        Some(NID::Dummy)
    } else {
        None
    }
}

/// The tag and end position of the tag byte at `p`, or the error a read
/// of it yields: `UnknownNid` with the byte when it is outside the
/// closed set, `Truncated` when the buffer ends.
pub open spec fn nid_at(s: Seq<u8>, p: int) -> Result<(NID, int), ErrorKind> {
    if 0 <= p < s.len() {
        match nid_of(s[p]) {
            Some(n) => Ok((n, p + 1)),
            None => Err(ErrorKind::UnknownNid(s[p])),
        }
    } else {
        Err(ErrorKind::Truncated)
    }
}

/// The tag's name, for error messages.
pub fn nid_name(n: NID) -> (r: &'static str) {
    match n {
        NID::End => "End",
        NID::Header => "Header",
        NID::ArchiveProperties => "ArchiveProperties",
        NID::AdditionalStreamsInfo => "AdditionalStreamsInfo",
        NID::MainStreamsInfo => "MainStreamsInfo",
        NID::FilesInfo => "FilesInfo",
        NID::PackInfo => "PackInfo",
        NID::UnpackInfo => "UnpackInfo",
        NID::SubStreamsInfo => "SubStreamsInfo",
        NID::Size => "Size",
        NID::Crc => "Crc",
        NID::Folder => "Folder",
        NID::CodersUnpackSize => "CodersUnpackSize",
        NID::NumUnpackStream => "NumUnpackStream",
        NID::EmptyStream => "EmptyStream",
        NID::EmptyFile => "EmptyFile",
        NID::Anti => "Anti",
        NID::Name => "Name",
        NID::Ctime => "Ctime",
        NID::Atime => "Atime",
        NID::Mtime => "Mtime",
        NID::WinAttributes => "WinAttributes",
        NID::Comment => "Comment",
        NID::EncodedHeader => "EncodedHeader",
        NID::StartPos => "StartPos",
        NID::Dummy => "Dummy",
    }
}

/// Reads one tag byte. A byte inside the closed set yields exactly the
/// tag it denotes; any other byte yields `UnknownNid` with that byte, so
/// an unknown tag can never be taken for a known one.
pub fn read_nid(buf: &mut Buffer) -> (r: Result<NID, ArchiveError>)
    ensures
        final(buf).bytes() == old(buf).bytes(),
        match r {
            Ok(n) => {
                &&& old(buf).pos() < old(buf).bytes().len()
                &&& final(buf).pos() == old(buf).pos() + 1
                &&& Some(n) == nid_of(old(buf).bytes()[old(buf).pos() as int])
            },
            Err(e) => {
                if old(buf).pos() < old(buf).bytes().len() {
                    &&& nid_of(old(buf).bytes()[old(buf).pos() as int]) is None
                    &&& e.kind == ErrorKind::UnknownNid(old(buf).bytes()[old(buf).pos() as int])
                    &&& final(buf).pos() == old(buf).pos() + 1
                } else {
                    &&& e.kind == ErrorKind::Truncated
                    &&& final(buf).pos() == old(buf).pos()
                }
            },
        },
{
    let i = buf.read()?;
    match i {
        0 => Ok(NID::End),
        1 => Ok(NID::Header),
        2 => Ok(NID::ArchiveProperties),
        3 => Ok(NID::AdditionalStreamsInfo),
        4 => Ok(NID::MainStreamsInfo),
        5 => Ok(NID::FilesInfo),
        6 => Ok(NID::PackInfo),
        7 => Ok(NID::UnpackInfo),
        8 => Ok(NID::SubStreamsInfo),
        9 => Ok(NID::Size),
        10 => Ok(NID::Crc),
        11 => Ok(NID::Folder),
        12 => Ok(NID::CodersUnpackSize),
        13 => Ok(NID::NumUnpackStream),
        14 => Ok(NID::EmptyStream),
        15 => Ok(NID::EmptyFile),
        16 => Ok(NID::Anti),
        17 => Ok(NID::Name),
        18 => Ok(NID::Ctime),
        19 => Ok(NID::Atime),
        20 => Ok(NID::Mtime),
        21 => Ok(NID::WinAttributes),
        22 => Ok(NID::Comment),
        23 => Ok(NID::EncodedHeader),
        24 => Ok(NID::StartPos),
        25 => Ok(NID::Dummy),
        _ => Err(ArchiveError::new(ErrorKind::UnknownNid(i))),
    }
}

} // verus!
