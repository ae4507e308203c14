//! The header of the archive: the files-info section, the stream map
//! derived from it, and the per-file extraction entries.
use vstd::prelude::*;

use crate::buffer::Buffer;
use crate::encoded_header::{
    folder_sized, folder_wf, read_streams_info, streams_info_at, streams_info_view,
    substream_layout, Folder, GStreamsInfo, StreamsInfo, SubstreamsInfo,
};
use crate::error::{ArchiveError, ErrorKind, Feature, Section};
use crate::nid::{read_nid, NID};
use crate::bitset::{index_set_elems, IndexSet};
use crate::nid::nid_at;
use crate::read_utils::{
    all_or_bits_at, bits_set, copy_range, dyn64_at, le_bytes, read_all_or_bits, read_bits,
    read_dyn_uint64, read_uint32, read_uint64, to_usize,
};

verus! {

/// One logical file of the archive, as the files-info section declares
/// it; its bytes come later, from the folder buffers.
#[derive(Debug)]
pub struct File {
    pub name: String,
    pub has_stream: bool,
    pub is_directory: bool,
    pub is_anti_item: bool,
    pub creation_date: Option<u64>,
    pub last_modified_date: Option<u64>,
    pub access_date: Option<u64>,
    pub windows_attributes: Option<u32>,
    pub size: u64,
}

/// The UTF-16 code units packed little-endian in `bytes`, two bytes per
/// unit; a trailing odd byte is ignored.
pub open spec fn utf16_units(bytes: Seq<u8>) -> Seq<u16> {
    Seq::new((bytes.len() / 2) as nat, |i: int| (bytes[2 * i] + 256 * bytes[2 * i + 1]) as u16)
}

/// The code points a sequence of UTF-16 units denotes, pairing each high
/// surrogate with the low surrogate after it; `None` on any unpaired
/// surrogate.
pub open spec fn utf16_code_points(units: Seq<u16>) -> Option<Seq<u32>>
    decreases units.len(),
{
    if units.len() == 0 {
        Some(Seq::empty())
    } else {
        let u = units[0];
        if 0xD800 <= u < 0xDC00 {
            if units.len() >= 2 && 0xDC00 <= units[1] < 0xE000 {
                let cp = (0x10000 + (u - 0xD800) * 0x400 + (units[1] - 0xDC00)) as u32;
                match utf16_code_points(units.subrange(2, units.len() as int)) {
                    Some(rest) => Some(seq![cp] + rest),
                    None => None,
                }
            } else {
                None
            }
        } else if 0xDC00 <= u < 0xE000 {
            None
        } else {
            match utf16_code_points(units.subrange(1, units.len() as int)) {
                Some(rest) => Some(seq![u as u32] + rest),
                None => None,
            }
        }
    }
}

/// Relies on `String::from_utf16`: decodes UTF-16 code units into a
/// string, failing exactly on unpaired surrogates, so the string's
/// characters carry the code points `utf16_code_points` names.
#[verifier::external_body]
fn utf16_to_string_raw(units: &Vec<u16>) -> (r: Option<String>)
    ensures
        match r {
            Some(s) => utf16_code_points(units@) matches Some(cps) && s@.map_values(
                |c: char| c as u32,
            ) == cps,
            None => utf16_code_points(units@) is None,
        },
{
    match String::from_utf16(units) {
        Ok(s) => Some(s),
        Err(_) => None,
    }
}

/// Decodes a little-endian UTF-16 byte blob into a string.
pub(crate) fn utf16_decode(data: &[u8]) -> (r: Result<String, ArchiveError>)
    ensures
        match r {
            Ok(s) => utf16_code_points(utf16_units(data@)) matches Some(cps) && s@.map_values(
                |c: char| c as u32,
            ) == cps,
            Err(e) => utf16_code_points(utf16_units(data@)) is None && e.kind
                == ErrorKind::Utf16Decode,
        },
{
    let dlen: usize = data.len();
    let half: usize = dlen / 2;
    let mut converted: Vec<u16> = Vec::new();
    let mut i: usize = 0;
    while i < half
        invariant
            i <= half,
            dlen == data@.len(),
            half == data@.len() / 2,
            converted@ == utf16_units(data@).subrange(0, i as int),
        decreases half - i,
    {
        let first = data[2 * i] as u16;
        let second = data[2 * i + 1] as u16;
        let value: u16 = first + second * 256;
        converted.push(value);
        proof {
            assert(converted@ =~= utf16_units(data@).subrange(0, i as int + 1));
        }
        i = i + 1;
    }
    proof {
        assert(converted@ =~= utf16_units(data@));
    }
    match utf16_to_string_raw(&converted) {
        Some(s) => Ok(s),
        None => Err(ArchiveError::new(ErrorKind::Utf16Decode)),
    }
}

/// Reads the one-byte "external" marker, which must be zero.
pub(crate) fn skip_external(buf: &mut Buffer) -> (r: Result<(), ArchiveError>)
    ensures
        final(buf).bytes() == old(buf).bytes(),
        match r {
            Ok(()) => {
                &&& old(buf).pos() < old(buf).bytes().len()
                &&& old(buf).bytes()[old(buf).pos() as int] == 0
                &&& final(buf).pos() == old(buf).pos() + 1
            },
            Err(e) => {
                if old(buf).pos() < old(buf).bytes().len() {
                    &&& old(buf).bytes()[old(buf).pos() as int] != 0
                    &&& e.kind == ErrorKind::UnsupportedExternal
                } else {
                    e.kind == ErrorKind::Truncated
                }
            },
        },
{
    let external = buf.read()?;
    if external != 0 {
        return Err(ArchiveError::new(ErrorKind::UnsupportedExternal));
    }
    Ok(())
}

/// The end position of an archive-properties section at `p`: size-
/// prefixed blobs, each skipped whole, up to an `End` tag.
pub open spec fn skip_props_at(s: Seq<u8>, p: int) -> Result<int, ErrorKind>
    decreases s.len() - p,
    when 0 <= p <= s.len()
{
    match nid_at(s, p) {
        Err(k) => Err(k),
        Ok((n0, p1)) => if n0 == NID::End {
            Ok(p1)
        } else {
            match dyn64_at(s, p1) {
                None => Err(ErrorKind::Truncated),
                Some((size, p2)) => if size > usize::MAX || p2 + size > s.len() {
                    Err(ErrorKind::Truncated)
                } else {
                    skip_props_at(s, p2 + size)
                },
            }
        },
    }
}

/// Skips the archive-properties section, exactly as `skip_props_at`
/// walks it: size-prefixed blobs up to `End`.
#[verifier::loop_isolation(false)]
pub(crate) fn skip_archive_properties(buf: &mut Buffer) -> (r: Result<(), ArchiveError>)
    requires
        old(buf).pos() <= old(buf).bytes().len(),
    ensures
        final(buf).bytes() == old(buf).bytes(),
        match r {
            Ok(()) => skip_props_at(old(buf).bytes(), old(buf).pos() as int) == Ok::<
                int,
                ErrorKind,
            >(final(buf).pos() as int),
            Err(e) => skip_props_at(old(buf).bytes(), old(buf).pos() as int) == Err::<
                int,
                ErrorKind,
            >(e.kind),
        },
{
    let ghost s = old(buf).bytes();
    let ghost p0 = old(buf).pos() as int;
    let ghost mut pp = p0;
    let mut nid = read_nid(buf)?;
    while nid != NID::End
        invariant
            buf.bytes() == s,
            buf.pos() <= s.len(),
            0 <= pp <= s.len(),
            nid_at(s, pp) == Ok::<(NID, int), ErrorKind>((nid, buf.pos() as int)),
            skip_props_at(s, p0) == skip_props_at(s, pp),
        decreases s.len() - buf.pos(),
    {
        let property_size = read_dyn_uint64(buf)?;
        let psize = to_usize(property_size)?;
        if psize > buf.len() - buf.debug_get_pos() {
            return Err(ArchiveError::new(ErrorKind::Truncated));
        }
        buf.skip(psize)?;
        proof {
            assert(skip_props_at(s, pp) == skip_props_at(s, buf.pos() as int));
            pp = buf.pos() as int;
        }
        nid = read_nid(buf)?;
    }
    Ok(())
}

/// The timestamp words at `p` for indices `i..n`: one eight-byte
/// little-endian word for each index in `d`, an absent entry for the
/// rest; `None` when the words leave the buffer.
pub open spec fn date_words_at(s: Seq<u8>, p: int, d: Set<int>, i: int, n: int) -> Option<
    (Seq<Option<u64>>, int),
>
    decreases n - i,
    when i <= n
{
    if i >= n {
        Some((Seq::empty(), p))
    } else if d.contains(i) {
        if 0 <= p && p + 8 <= s.len() {
            match date_words_at(s, p + 8, d, i + 1, n) {
                Some((rest, pe)) => Some(
                    (seq![Some(le_bytes(s.subrange(p, p + 8)) as u64)] + rest, pe),
                ),
                None => None,
            }
        } else {
            None
        }
    } else {
        match date_words_at(s, p, d, i + 1, n) {
            Some((rest, pe)) => Some((seq![Option::<u64>::None] + rest, pe)),
            None => None,
        }
    }
}

/// A timestamp column at `p`: the defined-set, a zero external marker,
/// and the words of the defined indices.
pub open spec fn dates_at(s: Seq<u8>, p: int, n: int) -> Result<
    (Seq<Option<u64>>, int),
    ErrorKind,
> {
    match all_or_bits_at(s, p, n) {
        None => Err(ErrorKind::Truncated),
        Some((d, p1)) => if !(p1 < s.len()) {
            Err(ErrorKind::Truncated)
        } else if s[p1] != 0 {
            Err(ErrorKind::UnsupportedExternal)
        } else {
            match date_words_at(s, p1 + 1, d, 0, n) {
                Some((v, pe)) => Ok((v, pe)),
                None => Err(ErrorKind::Truncated),
            }
        },
    }
}

/// The attribute words at `p` for indices `i..n`: one four-byte word for
/// each index in `d`.
pub open spec fn attr_words_at(s: Seq<u8>, p: int, d: Set<int>, i: int, n: int) -> Option<
    (Seq<Option<u32>>, int),
>
    decreases n - i,
    when i <= n
{
    if i >= n {
        Some((Seq::empty(), p))
    } else if d.contains(i) {
        if 0 <= p && p + 4 <= s.len() {
            match attr_words_at(s, p + 4, d, i + 1, n) {
                Some((rest, pe)) => Some(
                    (seq![Some(le_bytes(s.subrange(p, p + 4)) as u32)] + rest, pe),
                ),
                None => None,
            }
        } else {
            None
        }
    } else {
        match attr_words_at(s, p, d, i + 1, n) {
            Some((rest, pe)) => Some((seq![Option::<u32>::None] + rest, pe)),
            None => None,
        }
    }
}

/// An attributes column at `p`: the defined-set, a zero external marker,
/// and the words of the defined indices.
pub open spec fn attrs_at(s: Seq<u8>, p: int, n: int) -> Result<
    (Seq<Option<u32>>, int),
    ErrorKind,
> {
    match all_or_bits_at(s, p, n) {
        None => Err(ErrorKind::Truncated),
        Some((d, p1)) => if !(p1 < s.len()) {
            Err(ErrorKind::Truncated)
        } else if s[p1] != 0 {
            Err(ErrorKind::UnsupportedExternal)
        } else {
            match attr_words_at(s, p1 + 1, d, 0, n) {
                Some((v, pe)) => Ok((v, pe)),
                None => Err(ErrorKind::Truncated),
            }
        },
    }
}

/// Reads one timestamp column, exactly as `dates_at` reads it: the
/// defined-set, a zero external marker, and one FILETIME per defined
/// file; undefined files get none.
#[verifier::loop_isolation(false)]
pub(crate) fn read_dates(buf: &mut Buffer, num_files: u64) -> (r: Result<
    Vec<Option<u64>>,
    ArchiveError,
>)
    ensures
        final(buf).bytes() == old(buf).bytes(),
        match r {
            Ok(v) => {
                &&& dates_at(old(buf).bytes(), old(buf).pos() as int, num_files as int) == Ok::<
                    (Seq<Option<u64>>, int),
                    ErrorKind,
                >((v@, final(buf).pos() as int))
                &&& v@.len() == num_files
                &&& final(buf).pos() > old(buf).pos()
                &&& final(buf).pos() <= final(buf).bytes().len()
            },
            Err(e) => dates_at(old(buf).bytes(), old(buf).pos() as int, num_files as int) == Err::<
                (Seq<Option<u64>>, int),
                ErrorKind,
            >(e.kind),
        },
{
    let ghost s = old(buf).bytes();
    let mut dates: Vec<Option<u64>> = Vec::new();
    let times_defined = read_all_or_bits(buf, num_files)?;
    skip_external(buf)?;
    let ghost d = index_set_elems(times_defined);
    let ghost pw = buf.pos() as int;
    let nf = to_usize(num_files)?;
    let mut i: usize = 0;
    while i < nf
        invariant
            i <= nf,
            dates@.len() == i,
            buf.bytes() == s,
            buf.pos() > old(buf).pos(),
            buf.pos() <= buf.bytes().len(),
            match date_words_at(s, buf.pos() as int, d, i as int, nf as int) {
                Some((rest, pe)) => date_words_at(s, pw, d, 0, nf as int) == Some::<
                    (Seq<Option<u64>>, int),
                >((dates@ + rest, pe)),
                None => date_words_at(s, pw, d, 0, nf as int) is None,
            },
        decreases nf - i,
    {
        let ghost before = dates@;
        if times_defined.contains(i) {
            let t = match read_uint64(buf) {
                Ok(v) => v,
                Err(e) => {
                    return Err(e);
                },
            };
            dates.push(Some(t));
        } else {
            dates.push(None);
        }
        proof {
            assert(dates@ == before.push(dates@[i as int]));
            match date_words_at(s, buf.pos() as int, d, i as int + 1, nf as int) {
                Some((rest, pe)) => {
                    assert(before + (seq![dates@[i as int]] + rest) =~= dates@ + rest);
                },
                None => {},
            }
        }
        i = i + 1;
    }
    proof {
        assert(dates@ + Seq::<Option<u64>>::empty() =~= dates@);
    }
    Ok(dates)
}

/// Reads the attributes column, exactly as `attrs_at` reads it: the
/// defined-set, a zero external marker, and one attribute word per
/// defined file; undefined files get none.
#[verifier::loop_isolation(false)]
pub(crate) fn read_win_attributes(buf: &mut Buffer, num_files: u64) -> (r: Result<
    Vec<Option<u32>>,
    ArchiveError,
>)
    ensures
        final(buf).bytes() == old(buf).bytes(),
        match r {
            Ok(v) => {
                &&& attrs_at(old(buf).bytes(), old(buf).pos() as int, num_files as int) == Ok::<
                    (Seq<Option<u32>>, int),
                    ErrorKind,
                >((v@, final(buf).pos() as int))
                &&& v@.len() == num_files
                &&& final(buf).pos() > old(buf).pos()
                &&& final(buf).pos() <= final(buf).bytes().len()
            },
            Err(e) => attrs_at(old(buf).bytes(), old(buf).pos() as int, num_files as int) == Err::<
                (Seq<Option<u32>>, int),
                ErrorKind,
            >(e.kind),
        },
{
    let ghost s = old(buf).bytes();
    let mut attrs: Vec<Option<u32>> = Vec::new();
    let attrs_defined = read_all_or_bits(buf, num_files)?;
    skip_external(buf)?;
    let ghost d = index_set_elems(attrs_defined);
    let ghost pw = buf.pos() as int;
    let nf = to_usize(num_files)?;
    let mut i: usize = 0;
    while i < nf
        invariant
            i <= nf,
            attrs@.len() == i,
            buf.bytes() == s,
            buf.pos() > old(buf).pos(),
            buf.pos() <= buf.bytes().len(),
            match attr_words_at(s, buf.pos() as int, d, i as int, nf as int) {
                Some((rest, pe)) => attr_words_at(s, pw, d, 0, nf as int) == Some::<
                    (Seq<Option<u32>>, int),
                >((attrs@ + rest, pe)),
                None => attr_words_at(s, pw, d, 0, nf as int) is None,
            },
        decreases nf - i,
    {
        let ghost before = attrs@;
        if attrs_defined.contains(i) {
            let a = match read_uint32(buf) {
                Ok(v) => v,
                Err(e) => {
                    return Err(e);
                },
            };
            attrs.push(Some(a));
        } else {
            attrs.push(None);
        }
        proof {
            assert(attrs@ == before.push(attrs@[i as int]));
            match attr_words_at(s, buf.pos() as int, d, i as int + 1, nf as int) {
                Some((rest, pe)) => {
                    assert(before + (seq![attrs@[i as int]] + rest) =~= attrs@ + rest);
                },
                None => {},
            }
        }
        i = i + 1;
    }
    proof {
        assert(attrs@ + Seq::<Option<u32>>::empty() =~= attrs@);
    }
    Ok(attrs)
}


/// The running state of the files-info property blocks: the bit-vectors,
/// the decoded names (as code points), and the four per-file columns.
pub ghost struct GFilesState {
    pub empty_stream: Set<int>,
    pub empty_file: Option<Set<int>>,
    pub anti: Set<int>,
    pub names: Seq<Seq<u32>>,
    pub ctimes: Seq<Option<u64>>,
    pub atimes: Seq<Option<u64>>,
    pub mtimes: Seq<Option<u64>>,
    pub attrs: Seq<Option<u32>>,
}

/// The state before any property block: no file is empty, no names, and
/// every column entry absent.
pub open spec fn init_files_state(n: int) -> GFilesState {
    GFilesState {
        empty_stream: Set::empty(),
        empty_file: None,
        anti: Set::empty(),
        names: Seq::empty(),
        ctimes: Seq::new(n as nat, |i: int| Option::<u64>::None),
        atimes: Seq::new(n as nat, |i: int| Option::<u64>::None),
        mtimes: Seq::new(n as nat, |i: int| Option::<u64>::None),
        attrs: Seq::new(n as nat, |i: int| Option::<u32>::None),
    }
}

/// The code points of the strings in a vector, for relating the decoded
/// names to their byte-level description.
pub open spec fn name_views(v: Seq<String>) -> Seq<Seq<u32>> {
    v.map_values(|t: String| t@.map_values(|c: char| c as u32))
}

/// The names in a Name blob, scanning code units from `x` with the
/// current segment starting at byte `from`: the units split at U+0000,
/// each segment decoded to its code points in order; units after the
/// last terminator are dropped, and a segment with an unpaired surrogate
/// fails with `Utf16Decode`.
pub open spec fn split_names(b: Seq<u8>, from: int, x: int) -> Result<Seq<Seq<u32>>, ErrorKind>
    decreases b.len() / 2 - x,
    when 0 <= x
{
    if x >= b.len() / 2 {
        Ok(Seq::empty())
    } else if b[2 * x] == 0 && b[2 * x + 1] == 0 {
        match utf16_code_points(utf16_units(b.subrange(from, 2 * x))) {
            Some(cps) => match split_names(b, 2 * x + 2, x + 1) {
                Ok(rest) => Ok(seq![cps] + rest),
                Err(k) => Err(k),
            },
            None => Err(ErrorKind::Utf16Decode),
        }
    } else {
        split_names(b, from, x + 1)
    }
}

/// The property blocks of a files-info section at `p`, applied to the
/// state `st`: each block is a tag and a size, dispatched on the tag
/// exactly as the reader consumes it, up to the closing `End` tag.
/// `StartPos` is rejected; an unhandled tag is skipped by its size.
#[verifier::opaque]
pub open spec fn files_props_at(s: Seq<u8>, p: int, n: int, st: GFilesState) -> Result<
    (GFilesState, int),
    ErrorKind,
>
    decreases s.len() - p,
    when 0 <= p <= s.len()
{
    match nid_at(s, p) {
        Err(k) => Err(k),
        Ok((nid, p1)) => if nid == NID::End {
            Ok((st, p1))
        } else {
            match dyn64_at(s, p1) {
                None => Err(ErrorKind::Truncated),
                Some((size, p2)) => if nid == NID::EmptyStream {
                    if n <= usize::MAX && p2 + (n + 7) / 8 <= s.len() && p < p2 + (n + 7) / 8 {
                        files_props_at(
                            s,
                            p2 + (n + 7) / 8,
                            n,
                            GFilesState { empty_stream: bits_set(s, p2, n), ..st },
                        )
                    } else {
                        Err(ErrorKind::Truncated)
                    }
                } else if nid == NID::EmptyFile {
                    let cnt = st.empty_stream.len() as int;
                    if cnt <= usize::MAX && p2 + (cnt + 7) / 8 <= s.len() && p < p2 + (cnt + 7)
                        / 8 {
                        files_props_at(
                            s,
                            p2 + (cnt + 7) / 8,
                            n,
                            GFilesState { empty_file: Some(bits_set(s, p2, cnt)), ..st },
                        )
                    } else {
                        Err(ErrorKind::Truncated)
                    }
                } else if nid == NID::Anti {
                    let cnt = st.empty_stream.len() as int;
                    if cnt <= usize::MAX && p2 + (cnt + 7) / 8 <= s.len() && p < p2 + (cnt + 7)
                        / 8 {
                        files_props_at(
                            s,
                            p2 + (cnt + 7) / 8,
                            n,
                            GFilesState { anti: bits_set(s, p2, cnt), ..st },
                        )
                    } else {
                        Err(ErrorKind::Truncated)
                    }
                } else if nid == NID::Name {
                    if !(p2 < s.len()) {
                        Err(ErrorKind::Truncated)
                    } else if s[p2] != 0 {
                        Err(ErrorKind::UnsupportedExternal)
                    } else if size == 0 || (size - 1) % 2 != 0 {
                        Err(ErrorKind::InvalidFileNames)
                    } else if size - 1 > usize::MAX || p2 + size > s.len() {
                        Err(ErrorKind::Truncated)
                    } else {
                        match split_names(s.subrange(p2 + 1, p2 + size), 0, 0) {
                            Err(k) => Err(k),
                            Ok(segs) => if p < p2 + size {
                                files_props_at(
                                    s,
                                    p2 + size,
                                    n,
                                    GFilesState { names: st.names + segs, ..st },
                                )
                            } else {
                                Err(ErrorKind::Truncated)
                            },
                        }
                    }
                } else if nid == NID::Ctime {
                    match dates_at(s, p2, n) {
                        Err(k) => Err(k),
                        Ok((col, p3)) => if p < p3 <= s.len() {
                            files_props_at(s, p3, n, GFilesState { ctimes: col, ..st })
                        } else {
                            Err(ErrorKind::Truncated)
                        },
                    }
                } else if nid == NID::Atime {
                    match dates_at(s, p2, n) {
                        Err(k) => Err(k),
                        Ok((col, p3)) => if p < p3 <= s.len() {
                            files_props_at(s, p3, n, GFilesState { atimes: col, ..st })
                        } else {
                            Err(ErrorKind::Truncated)
                        },
                    }
                } else if nid == NID::Mtime {
                    match dates_at(s, p2, n) {
                        Err(k) => Err(k),
                        Ok((col, p3)) => if p < p3 <= s.len() {
                            files_props_at(s, p3, n, GFilesState { mtimes: col, ..st })
                        } else {
                            Err(ErrorKind::Truncated)
                        },
                    }
                } else if nid == NID::WinAttributes {
                    match attrs_at(s, p2, n) {
                        Err(k) => Err(k),
                        Ok((col, p3)) => if p < p3 <= s.len() {
                            files_props_at(s, p3, n, GFilesState { attrs: col, ..st })
                        } else {
                            Err(ErrorKind::Truncated)
                        },
                    }
                } else if nid == NID::StartPos {
                    Err(ErrorKind::UnsupportedFeature(Feature::StartPos))
                } else {
                    if size > usize::MAX || p2 + size > s.len() {
                        Err(ErrorKind::Truncated)
                    } else {
                        files_props_at(s, p2 + size, n, st)
                    }
                },
            }
        },
    }
}

/// How many of the first `i` indices are outside the empty-stream set:
/// the stream rank a file at `i` will get.
pub open spec fn nonempty_rank(es: Set<int>, i: int) -> int
    decreases i + 1,
{
    if i <= 0 {
        0
    } else {
        nonempty_rank(es, i - 1) + if es.contains(i - 1) {
            0int
        } else {
            1int
        }
    }
}

/// The first failure of the file-list assembly, scanning files from `i`:
/// a file with no decoded name fails with `InvalidFileNames`, a
/// stream-bearing file whose stream rank leaves the flat size list with
/// `MissingStreamsInfo`; `None` when every file assembles.
pub open spec fn assembly_err(st: GFilesState, n: int, sizes_len: int, i: int) -> Option<ErrorKind>
    decreases n - i,
    when i <= n
{
    if i >= n {
        None
    } else if i >= st.names.len() {
        Some(ErrorKind::InvalidFileNames)
    } else if !st.empty_stream.contains(i) && nonempty_rank(st.empty_stream, i) >= sizes_len {
        Some(ErrorKind::MissingStreamsInfo)
    } else {
        assembly_err(st, n, sizes_len, i + 1)
    }
}

/// What the files-info section promises of file `i`, given the parsed
/// property state and the flat substream sizes: the stream flag mirrors
/// the EmptyStream bit-vector, the name is the `i`-th decoded name, a
/// stream-bearing file draws its size and columns at its stream rank,
/// and an empty-stream file is a directory exactly when the EmptyFile
/// bit-vector is absent or clear at its empty rank, an anti-item exactly
/// when the Anti bit is set there.
pub open spec fn file_matches(
    f: File,
    i: int,
    files: Seq<File>,
    st: GFilesState,
    sizes: Seq<u64>,
) -> bool {
    let r = stream_rank(files, i);
    &&& f.has_stream == !st.empty_stream.contains(i)
    &&& i < st.names.len()
    &&& f.name@.map_values(|c: char| c as u32) == st.names[i]
    &&& (f.has_stream ==> {
        &&& 0 <= r < sizes.len()
        &&& f.size == sizes[r]
        &&& !f.is_directory
        &&& !f.is_anti_item
        &&& f.creation_date == st.ctimes[r]
        &&& f.last_modified_date == st.mtimes[r]
        &&& f.access_date == st.atimes[r]
        &&& f.windows_attributes == st.attrs[r]
    })
    &&& (!f.has_stream ==> {
        &&& f.size == 0
        &&& f.creation_date is None
        &&& f.last_modified_date is None
        &&& f.access_date is None
        &&& f.windows_attributes is None
        &&& f.is_anti_item == st.anti.contains(i - r)
        &&& f.is_directory == (match st.empty_file {
            Some(ef) => !ef.contains(i - r),
            None => true,
        })
    })
}

/// How many of the first `i` files carry a stream.
pub open spec fn stream_rank(files: Seq<File>, i: int) -> int
    decreases i + 1,
{
    if i <= 0 {
        0
    } else {
        stream_rank(files, i - 1) + if files[i - 1].has_stream {
            1int
        } else {
            0int
        }
    }
}

/// Appending a file does not change the rank at earlier positions.
proof fn lemma_stream_rank_push(files: Seq<File>, f: File, j: int)
    requires
        0 <= j <= files.len(),
    ensures
        stream_rank(files.push(f), j) == stream_rank(files, j),
    decreases j,
{
    if j > 0 {
        lemma_stream_rank_push(files, f, j - 1);
        assert(files.push(f)[j - 1] == files[j - 1]);
    }
}

/// A column of `n` absent timestamps.
fn none_column_u64(n: usize) -> (v: Vec<Option<u64>>)
    ensures
        v@.len() == n,
        forall|i: int| 0 <= i < n ==> (#[trigger] v@[i]) is None,
{
    let mut v: Vec<Option<u64>> = Vec::new();
    let mut i: usize = 0;
    while i < n
        invariant
            i <= n,
            v@.len() == i,
            forall|j: int| 0 <= j < i ==> (#[trigger] v@[j]) is None,
        decreases n - i,
    {
        v.push(None);
        i = i + 1;
    }
    v
}

/// A column of `n` absent attribute words.
fn none_column_u32(n: usize) -> (v: Vec<Option<u32>>)
    ensures
        v@.len() == n,
        forall|i: int| 0 <= i < n ==> (#[trigger] v@[i]) is None,
{
    let mut v: Vec<Option<u32>> = Vec::new();
    let mut i: usize = 0;
    while i < n
        invariant
            i <= n,
            v@.len() == i,
            forall|j: int| 0 <= j < i ==> (#[trigger] v@[j]) is None,
        decreases n - i,
    {
        v.push(None);
        i = i + 1;
    }
    v
}

/// A column of `n` absent entries reads back as the initial column.
/// Parses the files-info section, exactly as its byte-level description
/// reads it, and assembles the file list: the leading file count, the
/// property blocks applied by `files_props_at`, and one file per index
/// as `file_matches` fixes it. It fails exactly on a malformed section,
/// a missing name, or a stream-bearing file with no substream size left.
#[verifier::loop_isolation(false)]
#[verifier::rlimit(100)]
pub(crate) fn read_files_info(buf: &mut Buffer, substreams_info: &SubstreamsInfo) -> (r: Result<
    Vec<File>,
    ArchiveError,
>)
    ensures
        final(buf).bytes() == old(buf).bytes(),
        match r {
            Ok(files) => (dyn64_at(old(buf).bytes(), old(buf).pos() as int) matches Some((n, p1))
                && n <= usize::MAX && files@.len() == n && (files_props_at(
                old(buf).bytes(),
                p1,
                n as int,
                init_files_state(n as int),
            ) matches Ok((st, pend)) && final(buf).pos() == pend && assembly_err(
                st,
                n as int,
                substreams_info.unpack_sizes@.len() as int,
                0,
            ) is None && (forall|i: int|
                0 <= i < files@.len() ==> file_matches(
                    #[trigger] files@[i],
                    i,
                    files@,
                    st,
                    substreams_info.unpack_sizes@,
                )))),
            Err(e) => {
                ||| dyn64_at(old(buf).bytes(), old(buf).pos() as int) is None && e.kind
                    == ErrorKind::Truncated
                ||| (dyn64_at(old(buf).bytes(), old(buf).pos() as int) matches Some((n, p1)) && {
                    ||| n > usize::MAX && e.kind == ErrorKind::Truncated
                    ||| n <= usize::MAX && files_props_at(
                        old(buf).bytes(),
                        p1,
                        n as int,
                        init_files_state(n as int),
                    ) == Err::<(GFilesState, int), ErrorKind>(e.kind)
                    ||| n <= usize::MAX && (files_props_at(
                        old(buf).bytes(),
                        p1,
                        n as int,
                        init_files_state(n as int),
                    ) matches Ok((st, pend)) && assembly_err(
                        st,
                        n as int,
                        substreams_info.unpack_sizes@.len() as int,
                        0,
                    ) == Some(e.kind))
                })
            },
        },
{
    proof {
        reveal(files_props_at);
    }
    let ghost s = old(buf).bytes();
    let num_files = read_dyn_uint64(buf)?;
    let nf = to_usize(num_files)?;
    let ghost p1v = buf.pos() as int;
    let ghost init = init_files_state(nf as int);
    let mut is_empty_stream = IndexSet::with_capacity(nf);
    let mut is_empty_file: Option<IndexSet> = None;
    let mut is_anti = IndexSet::with_capacity(nf);
    let mut file_names: Vec<String> = Vec::new();
    let mut file_creation_dates: Vec<Option<u64>> = none_column_u64(nf);
    let mut file_access_dates: Vec<Option<u64>> = none_column_u64(nf);
    let mut file_modified_dates: Vec<Option<u64>> = none_column_u64(nf);
    let mut win_attributes: Vec<Option<u32>> = none_column_u32(nf);
    let ghost mut gst = init;
    proof {
        assert(file_creation_dates@ =~= init.ctimes);
        assert(file_access_dates@ =~= init.atimes);
        assert(file_modified_dates@ =~= init.mtimes);
        assert(win_attributes@ =~= init.attrs);
        assert(name_views(file_names@) =~= Seq::<Seq<u32>>::empty());
    }

    loop
        invariant
            buf.bytes() == s,
            buf.pos() <= s.len(),
            num_files == nf,
            file_creation_dates@ == gst.ctimes,
            file_access_dates@ == gst.atimes,
            file_modified_dates@ == gst.mtimes,
            win_attributes@ == gst.attrs,
            file_creation_dates@.len() == nf,
            file_access_dates@.len() == nf,
            file_modified_dates@.len() == nf,
            win_attributes@.len() == nf,
            index_set_elems(is_empty_stream) == gst.empty_stream,
            index_set_elems(is_empty_stream).finite(),
            gst.empty_file == (match is_empty_file {
                Some(x) => Some(index_set_elems(x)),
                None => None::<Set<int>>,
            }),
            index_set_elems(is_anti) == gst.anti,
            name_views(file_names@) == gst.names,
            files_props_at(s, buf.pos() as int, nf as int, gst) == files_props_at(
                s,
                p1v,
                nf as int,
                init,
            ),
        decreases s.len() - buf.pos(),
    {
        let ghost pit = buf.pos() as int;
        let ghost gst0 = gst;
        let nid = read_nid(buf)?;
        if nid == NID::End {
            break ;
        }
        let size = read_dyn_uint64(buf)?;
        let ghost p2v = buf.pos() as int;
        match nid {
            NID::EmptyStream => {
                is_empty_stream = read_bits(buf, num_files)?;
                proof {
                    gst = GFilesState { empty_stream: bits_set(s, p2v, nf as int), ..gst0 };
                }
            },
            NID::EmptyFile => {
                let cnt = is_empty_stream.count();
                let got = read_bits(buf, cnt as u64)?;
                is_empty_file = Some(got);
                proof {
                    gst =
                    GFilesState {
                        empty_file: Some(bits_set(s, p2v, gst0.empty_stream.len() as int)),
                        ..gst0
                    };
                }
            },
            NID::Anti => {
                let cnt = is_empty_stream.count();
                is_anti = read_bits(buf, cnt as u64)?;
                proof {
                    gst =
                    GFilesState {
                        anti: bits_set(s, p2v, gst0.empty_stream.len() as int),
                        ..gst0
                    };
                }
            },
            NID::Name => {
                skip_external(buf)?;
                if size == 0 || (size - 1) & 1 != 0 {
                    proof {
                        assert((size - 1) as u64 & 1 == (size - 1) as u64 % 2) by (bit_vector);
                    }
                    return Err(ArchiveError::new(ErrorKind::InvalidFileNames));
                }
                proof {
                    assert((size - 1) as u64 & 1 == (size - 1) as u64 % 2) by (bit_vector);
                }
                let blob_len = to_usize(size - 1)?;
                let names = buf.read_multi(blob_len)?;
                let ghost b = names@;
                let ghost gnames0 = gst.names;
                let ghost mut block_names = Seq::<Seq<u32>>::empty();
                let mut next_name_pos: usize = 0;
                let nlen: usize = names.len();
                let half: usize = nlen / 2;
                let mut x: usize = 0;
                proof {
                    assert(Seq::<Seq<u32>>::empty() + Seq::<Seq<u32>>::empty() =~= Seq::<
                        Seq<u32>,
                    >::empty());
                    match split_names(b, 0, 0) {
                        Ok(rest) => {
                            assert(Seq::<Seq<u32>>::empty() + rest =~= rest);
                        },
                        Err(k) => {},
                    }
                }
                while x < half
                    invariant
                        x <= half,
                        nlen == b.len(),
                        names@ == b,
                        half == nlen / 2,
                        next_name_pos <= 2 * x,
                        buf.bytes() == s,
                        buf.pos() <= s.len(),
                        name_views(file_names@) == gnames0 + block_names,
                        match split_names(b, next_name_pos as int, x as int) {
                            Ok(rest) => split_names(b, 0, 0) == Ok::<Seq<Seq<u32>>, ErrorKind>(
                                block_names + rest,
                            ),
                            Err(k) => split_names(b, 0, 0) == Err::<Seq<Seq<u32>>, ErrorKind>(k),
                        },
                    decreases half - x,
                {
                    let i2: usize = 2 * x;
                    if names[i2] == 0 && names[i2 + 1] == 0 {
                        let seg = copy_range(&names, next_name_pos, i2 - next_name_pos)?;
                        let ghost fnames0 = file_names@;
                        let name_str = match utf16_decode(seg.as_slice()) {
                            Ok(v) => v,
                            Err(e) => {
                                return Err(e);
                            },
                        };
                        file_names.push(name_str);
                        proof {
                            let cps = name_str@.map_values(|c: char| c as u32);
                            assert(seg@ =~= b.subrange(next_name_pos as int, 2 * x));
                            assert(name_views(file_names@) =~= name_views(fnames0) + seq![cps]);
                            match split_names(b, 2 * x + 2, x as int + 1) {
                                Ok(rest) => {
                                    assert(block_names + (seq![cps] + rest) =~= (block_names
                                        + seq![cps]) + rest);
                                },
                                Err(k) => {},
                            }
                            block_names = block_names + seq![cps];
                        }
                        next_name_pos = i2 + 2;
                    }
                    x = x + 1;
                }
                proof {
                    assert(split_names(b, next_name_pos as int, half as int) == Ok::<
                        Seq<Seq<u32>>,
                        ErrorKind,
                    >(Seq::empty()));
                    assert(block_names + Seq::<Seq<u32>>::empty() =~= block_names);
                    assert(b =~= s.subrange(p2v + 1, p2v + 1 + (size - 1)));
                    gst = GFilesState { names: gnames0 + block_names, ..gst0 };
                }
            },
            NID::Ctime => {
                file_creation_dates = read_dates(buf, num_files)?;
                proof {
                    gst = GFilesState { ctimes: file_creation_dates@, ..gst0 };
                }
            },
            NID::Atime => {
                file_access_dates = read_dates(buf, num_files)?;
                proof {
                    gst = GFilesState { atimes: file_access_dates@, ..gst0 };
                }
            },
            NID::Mtime => {
                file_modified_dates = read_dates(buf, num_files)?;
                proof {
                    gst = GFilesState { mtimes: file_modified_dates@, ..gst0 };
                }
            },
            NID::WinAttributes => {
                win_attributes = read_win_attributes(buf, num_files)?;
                proof {
                    gst = GFilesState { attrs: win_attributes@, ..gst0 };
                }
            },
            NID::StartPos => {
                return Err(ArchiveError::new(ErrorKind::UnsupportedFeature(Feature::StartPos)));
            },
            _ => {
                let sz = to_usize(size)?;
                if sz > buf.len() - buf.debug_get_pos() {
                    return Err(ArchiveError::new(ErrorKind::Truncated));
                }
                buf.skip(sz)?;
            },
        }
        proof {
            assert(files_props_at(s, pit, nf as int, gst0) == files_props_at(
                s,
                buf.pos() as int,
                nf as int,
                gst,
            ));
        }
    }
    let ghost st = gst;
    let ghost pend = buf.pos() as int;
    proof {
        assert(files_props_at(s, p1v, nf as int, init) == Ok::<(GFilesState, int), ErrorKind>(
            (st, pend),
        ));
    }

    let ghost es = st.empty_stream;
    let mut files: Vec<File> = Vec::new();
    let mut non_empty_file_counter: usize = 0;
    let mut empty_file_counter: usize = 0;
    let nsizes: usize = substreams_info.unpack_sizes.len();
    let mut i: usize = 0;
    while i < nf
        invariant
            i <= nf,
            files@.len() == i,
            non_empty_file_counter == stream_rank(files@, i as int),
            non_empty_file_counter == nonempty_rank(es, i as int),
            non_empty_file_counter + empty_file_counter == i,
            nsizes == substreams_info.unpack_sizes@.len(),
            buf.bytes() == s,
            buf.pos() == pend,
            assembly_err(st, nf as int, nsizes as int, 0) == assembly_err(
                st,
                nf as int,
                nsizes as int,
                i as int,
            ),
            forall|j: int|
                0 <= j < files@.len() ==> file_matches(
                    #[trigger] files@[j],
                    j,
                    files@,
                    st,
                    substreams_info.unpack_sizes@,
                ),
        decreases nf - i,
    {
        let ghost before = files@;
        let has_stream = !is_empty_stream.contains(i);
        if i >= file_names.len() {
            proof {
                assert(assembly_err(st, nf as int, nsizes as int, i as int) == Some(
                    ErrorKind::InvalidFileNames,
                ));
            }
            return Err(
                ArchiveError::with_message(ErrorKind::InvalidFileNames, "Missing file name"),
            );
        }
        if has_stream {
            if non_empty_file_counter >= nsizes {
                proof {
                    assert(!es.contains(i as int) && nonempty_rank(es, i as int) >= nsizes);
                    assert(assembly_err(st, nf as int, nsizes as int, i as int) == Some(
                        ErrorKind::MissingStreamsInfo,
                    ));
                }
                return Err(
                    ArchiveError::with_message(
                        ErrorKind::MissingStreamsInfo,
                        "Too few substream sizes",
                    ),
                );
            }
            let name = file_names[i].clone();
            files.push(
                File {
                    name,
                    has_stream: true,
                    is_directory: false,
                    is_anti_item: false,
                    creation_date: file_creation_dates[non_empty_file_counter],
                    last_modified_date: file_modified_dates[non_empty_file_counter],
                    access_date: file_access_dates[non_empty_file_counter],
                    windows_attributes: win_attributes[non_empty_file_counter],
                    size: substreams_info.unpack_sizes[non_empty_file_counter],
                },
            );
            non_empty_file_counter = non_empty_file_counter + 1;
        } else {
            let is_directory = match &is_empty_file {
                Some(set) => !set.contains(empty_file_counter),
                None => true,
            };
            let name = file_names[i].clone();
            files.push(
                File {
                    name,
                    has_stream: false,
                    is_directory,
                    is_anti_item: is_anti.contains(empty_file_counter),
                    creation_date: None,
                    last_modified_date: None,
                    access_date: None,
                    windows_attributes: None,
                    size: 0,
                },
            );
            empty_file_counter = empty_file_counter + 1;
        }
        i = i + 1;
        proof {
            let cur = files@;
            assert(cur == before.push(cur[i - 1]));
            assert forall|j: int| 0 <= j < i implies stream_rank(cur, j) == stream_rank(
                before,
                j,
            ) by {
                lemma_stream_rank_push(before, cur[i - 1], j);
            }
            assert(stream_rank(cur, i as int) == stream_rank(cur, i - 1) + (
            if cur[i - 1].has_stream {
                1int
            } else {
                0int
            }));
            assert(cur[i - 1].name@.map_values(|c: char| c as u32) == name_views(file_names@)[
                i - 1
            ]);
            assert forall|j: int| 0 <= j < cur.len() implies file_matches(
                #[trigger] cur[j],
                j,
                cur,
                st,
                substreams_info.unpack_sizes@,
            ) by {
                if j < i - 1 {
                    assert(cur[j] == before[j]);
                    assert(file_matches(before[j], j, before, st, substreams_info.unpack_sizes@));
                }
            }
            assert(assembly_err(st, nf as int, nsizes as int, i - 1) == assembly_err(
                st,
                nf as int,
                nsizes as int,
                i as int,
            ));
        }
    }

    Ok(files)
}

/// The per-file extraction descriptor: where the file's bytes sit inside
/// its folder's decompressed buffer.
#[derive(Debug)]
pub struct Entry {
    pub name: String,
    pub offset: u64,
    pub size: u64,
    pub folder_index: usize,
}

/// The derived lookup tables of the archive.
#[derive(Debug)]
pub struct StreamMap {
    pub folder_first_pack_stream_index: Vec<usize>,
    pub pack_stream_offsets: Vec<usize>,
    pub folder_first_file_index: Vec<Option<usize>>,
    pub file_folder_index: Vec<Option<usize>>,
}

/// The parsed header: the file list, the streams info, and the tables
/// derived from them.
#[derive(Debug)]
pub struct Header {
    pub files_info: Vec<File>,
    pub streams_info: StreamsInfo,
    pub stream_map: StreamMap,
}

/// The sum of the packed-stream counts of the first `f` folders.
pub open spec fn packed_prefix(folders: Seq<Folder>, f: int) -> nat
    decreases f + 1,
{
    if f <= 0 {
        0
    } else {
        packed_prefix(folders, f - 1) + folders[f - 1].packed_streams@.len()
    }
}

/// The sum of the first `i` pack-stream sizes.
pub open spec fn pack_offset(sizes: Seq<u64>, i: int) -> nat
    decreases i + 1,
{
    if i <= 0 {
        0
    } else {
        pack_offset(sizes, i - 1) + sizes[i - 1] as nat
    }
}

/// How many of the first `i` files are assigned to a folder.
pub open spec fn assigned_count(ffi: Seq<Option<usize>>, i: int) -> int
    decreases i + 1,
{
    if i <= 0 {
        0
    } else {
        assigned_count(ffi, i - 1) + if ffi[i - 1] is Some {
            1int
        } else {
            0int
        }
    }
}

/// The sum of the sizes of the first `i` files assigned to folder `fidx`:
/// the offset at which file `i`'s bytes start inside that folder's
/// decompressed buffer.
pub open spec fn folder_offset_before(
    files: Seq<File>,
    ffi: Seq<Option<usize>>,
    i: int,
    fidx: usize,
) -> nat
    decreases i + 1,
{
    if i <= 0 {
        0
    } else {
        folder_offset_before(files, ffi, i - 1, fidx) + if ffi[i - 1] == Some(fidx) {
            files[i - 1].size as nat
        } else {
            0
        }
    }
}

/// The consistency of a parsed header: the derived tables have the
/// declared lengths and hold exactly the cumulative sums, every assigned
/// folder index is in range, and every folder is well-formed and sized.
pub open spec fn header_wf(h: Header) -> bool {
    &&& h.stream_map.file_folder_index@.len() == h.files_info@.len()
    &&& forall|i: int|
        0 <= i < h.stream_map.file_folder_index@.len() ==> ((#[trigger] h.stream_map.file_folder_index@[i]) matches Some(f)
            ==> f < h.streams_info.folders@.len())
    &&& h.stream_map.folder_first_pack_stream_index@.len() == h.streams_info.folders@.len()
    &&& forall|f: int|
        0 <= f < h.streams_info.folders@.len() ==> (#[trigger] h.stream_map.folder_first_pack_stream_index@[f]) as nat
            == packed_prefix(h.streams_info.folders@, f)
    &&& h.stream_map.pack_stream_offsets@.len() == h.streams_info.pack_info.pack_sizes@.len()
    &&& forall|i: int|
        0 <= i < h.stream_map.pack_stream_offsets@.len() ==> (#[trigger] h.stream_map.pack_stream_offsets@[i]) as nat
            == pack_offset(h.streams_info.pack_info.pack_sizes@, i)
    &&& forall|i: int|
        0 <= i < h.streams_info.folders@.len() ==> folder_wf(#[trigger] h.streams_info.folders@[i])
            && folder_sized(h.streams_info.folders@[i])
}

/// Each file with a stream draws its size from the flat substream size
/// list in file order; files without a stream have size zero.
pub open spec fn header_files_sized(h: Header) -> bool {
    forall|i: int|
        0 <= i < h.files_info@.len() ==> {
            let f = #[trigger] h.files_info@[i];
            &&& (f.has_stream ==> (h.streams_info.substreams_info matches Some(ssi) && 0
                <= stream_rank(h.files_info@, i) < ssi.unpack_sizes@.len() && f.size
                == ssi.unpack_sizes@[stream_rank(h.files_info@, i)]))
            &&& (!f.has_stream ==> f.size == 0)
        }
}


/// The first folder at or after `cur` that owns at least one substream.
pub open spec fn next_active_folder(folders: Seq<Folder>, cur: int) -> int
    decreases folders.len() - cur,
{
    if cur >= folders.len() {
        cur
    } else if folders[cur].num_unpack_substreams > 0 {
        cur
    } else {
        next_active_folder(folders, cur + 1)
    }
}

/// The file-to-folder assignment, walked from file `i` with the current
/// folder `cur` and `used` of its substreams already taken: a file
/// without a stream between folders gets none; otherwise the walk moves
/// to the next folder with substreams, hands it the file, and advances
/// once the folder's substream count is exhausted. `None` when the
/// folders run out before the stream-bearing files do.
pub open spec fn assignment_walk(
    files: Seq<File>,
    folders: Seq<Folder>,
    i: int,
    cur: int,
    used: u64,
) -> Option<Seq<Option<usize>>>
    decreases files.len() - i,
{
    if i >= files.len() {
        Some(Seq::empty())
    } else if !files[i].has_stream && used == 0 {
        match assignment_walk(files, folders, i + 1, cur, used) {
            Some(rest) => Some(seq![None] + rest),
            None => None,
        }
    } else {
        let cur2 = if used == 0 {
            next_active_folder(folders, cur)
        } else {
            cur
        };
        if cur2 >= folders.len() {
            None
        } else if !files[i].has_stream {
            match assignment_walk(files, folders, i + 1, cur2, used) {
                Some(rest) => Some(seq![Some(cur2 as usize)] + rest),
                None => None,
            }
        } else {
            let used2 = (used + 1) as u64;
            let advance = used2 >= folders[cur2].num_unpack_substreams;
            let cur3 = if advance {
                cur2 + 1
            } else {
                cur2
            };
            let used3: u64 = if advance {
                0
            } else {
                used2
            };
            match assignment_walk(files, folders, i + 1, cur3, used3) {
                Some(rest) => Some(seq![Some(cur2 as usize)] + rest),
                None => None,
            }
        }
    }
}

/// A column of `n` absent folder assignments.
fn none_indices(n: usize) -> (v: Vec<Option<usize>>)
    ensures
        v@.len() == n,
        forall|i: int| 0 <= i < n ==> (#[trigger] v@[i]) is None,
{
    let mut v: Vec<Option<usize>> = Vec::new();
    let mut i: usize = 0;
    while i < n
        invariant
            i <= n,
            v@.len() == i,
            forall|j: int| 0 <= j < i ==> (#[trigger] v@[j]) is None,
        decreases n - i,
    {
        v.push(None);
        i = i + 1;
    }
    v
}

/// Derives the lookup tables: cumulative pack-stream indices and byte
/// offsets, and the file-to-folder assignment that hands each folder its
/// `num_unpack_substreams` stream-bearing files in file order.
pub(crate) fn calculate_stream_map(files: &Vec<File>, streams_info: &StreamsInfo) -> (r: Result<
    StreamMap,
    ArchiveError,
>)
    ensures
        match r {
            Ok(sm) => {
                &&& sm.file_folder_index@.len() == files@.len()
                &&& forall|i: int|
                    0 <= i < sm.file_folder_index@.len() ==> ((#[trigger] sm.file_folder_index@[i]) matches Some(f)
                        ==> f < streams_info.folders@.len())
                &&& sm.folder_first_pack_stream_index@.len() == streams_info.folders@.len()
                &&& forall|f: int|
                    0 <= f < streams_info.folders@.len() ==> (
                    #[trigger] sm.folder_first_pack_stream_index@[f]) as nat == packed_prefix(
                        streams_info.folders@,
                        f,
                    )
                &&& sm.pack_stream_offsets@.len() == streams_info.pack_info.pack_sizes@.len()
                &&& forall|i: int|
                    0 <= i < sm.pack_stream_offsets@.len() ==> (
                    #[trigger] sm.pack_stream_offsets@[i]) as nat == pack_offset(
                        streams_info.pack_info.pack_sizes@,
                        i,
                    )
                &&& assignment_walk(files@, streams_info.folders@, 0, 0, 0) == Some(
                    sm.file_folder_index@,
                )
            },
            Err(e) => {
                ||| (exists|f: int|
                    0 <= f <= streams_info.folders@.len() && packed_prefix(
                        streams_info.folders@,
                        f,
                    ) > usize::MAX) && e.kind == ErrorKind::InvalidFolderTopology
                ||| (exists|q: int|
                    0 <= q < streams_info.pack_info.pack_sizes@.len()
                        && streams_info.pack_info.pack_sizes@[q] > usize::MAX) && e.kind
                    == ErrorKind::Truncated
                ||| (exists|p: int|
                    0 <= p <= streams_info.pack_info.pack_sizes@.len() && pack_offset(
                        streams_info.pack_info.pack_sizes@,
                        p,
                    ) > usize::MAX) && e.kind == ErrorKind::InvalidFolderTopology
                ||| assignment_walk(files@, streams_info.folders@, 0, 0, 0) is None && e.kind
                    == ErrorKind::InvalidFolderTopology
            },
        },
{
    let num_folders: usize = streams_info.folders.len();
    let mut next_folder_pack_stream_index: usize = 0;
    let mut folder_first_pack_stream_index: Vec<usize> = Vec::new();
    let mut i: usize = 0;
    while i < num_folders
        invariant
            i <= num_folders,
            num_folders == streams_info.folders@.len(),
            folder_first_pack_stream_index@.len() == i,
            next_folder_pack_stream_index as nat == packed_prefix(streams_info.folders@, i as int),
            forall|f: int|
                0 <= f < i ==> (#[trigger] folder_first_pack_stream_index@[f]) as nat
                    == packed_prefix(streams_info.folders@, f),
        decreases num_folders - i,
    {
        folder_first_pack_stream_index.push(next_folder_pack_stream_index);
        next_folder_pack_stream_index = match next_folder_pack_stream_index.checked_add(
            streams_info.folders[i].packed_streams.len(),
        ) {
            Some(v) => v,
            None => {
                proof {
                    assert(packed_prefix(streams_info.folders@, i as int + 1) > usize::MAX);
                }
                return Err(
                    ArchiveError::with_message(
                        ErrorKind::InvalidFolderTopology,
                        "Pack stream indices overflow",
                    ),
                );
            },
        };
        i = i + 1;
    }

    let num_pack_sizes: usize = streams_info.pack_info.pack_sizes.len();
    let mut next_pack_stream_offset: usize = 0;
    let mut pack_stream_offsets: Vec<usize> = Vec::new();
    let mut p: usize = 0;
    while p < num_pack_sizes
        invariant
            p <= num_pack_sizes,
            num_pack_sizes == streams_info.pack_info.pack_sizes@.len(),
            pack_stream_offsets@.len() == p,
            next_pack_stream_offset as nat == pack_offset(
                streams_info.pack_info.pack_sizes@,
                p as int,
            ),
            forall|q: int|
                0 <= q < p ==> (#[trigger] pack_stream_offsets@[q]) as nat == pack_offset(
                    streams_info.pack_info.pack_sizes@,
                    q,
                ),
        decreases num_pack_sizes - p,
    {
        pack_stream_offsets.push(next_pack_stream_offset);
        let sz = to_usize(streams_info.pack_info.pack_sizes[p])?;
        next_pack_stream_offset = match next_pack_stream_offset.checked_add(sz) {
            Some(v) => v,
            None => {
                proof {
                    assert(pack_offset(streams_info.pack_info.pack_sizes@, p as int + 1)
                        > usize::MAX);
                }
                return Err(
                    ArchiveError::with_message(
                        ErrorKind::InvalidFolderTopology,
                        "Pack stream offsets overflow",
                    ),
                );
            },
        };
        p = p + 1;
    }

    let ghost fls = files@;
    let ghost flds = streams_info.folders@;
    let num_files: usize = files.len();
    let mut folder_first_file_index = none_indices(num_folders);
    let mut file_folder_index = none_indices(num_files);
    let mut next_folder_index: usize = 0;
    let mut next_folder_unpack_stream_index: u64 = 0;
    let mut fi: usize = 0;
    while fi < num_files
        invariant
            fi <= num_files,
            num_files == fls.len(),
            fls == files@,
            flds == streams_info.folders@,
            num_folders == flds.len(),
            file_folder_index@.len() == num_files,
            folder_first_file_index@.len() == num_folders,
            next_folder_index <= num_folders,
            next_folder_unpack_stream_index > 0 ==> next_folder_index < num_folders,
            next_folder_unpack_stream_index > 0 ==> next_folder_unpack_stream_index
                < flds[next_folder_index as int].num_unpack_substreams,
            forall|j: int|
                0 <= j < file_folder_index@.len() ==> ((#[trigger] file_folder_index@[j]) matches Some(f)
                    ==> f < flds.len()),
            forall|j: int| fi <= j < num_files ==> (#[trigger] file_folder_index@[j]) is None,
            match assignment_walk(
                fls,
                flds,
                fi as int,
                next_folder_index as int,
                next_folder_unpack_stream_index,
            ) {
                Some(rest) => assignment_walk(fls, flds, 0, 0, 0) == Some(
                    file_folder_index@.subrange(0, fi as int) + rest,
                ),
                None => assignment_walk(fls, flds, 0, 0, 0) is None,
            },
        decreases num_files - fi,
    {
        let ghost c0 = next_folder_index as int;
        let ghost u0 = next_folder_unpack_stream_index;
        let ghost before = file_folder_index@;
        if !files[fi].has_stream && next_folder_unpack_stream_index == 0 {
            fi = fi + 1;
            proof {
                assert(before.subrange(0, fi as int) =~= before.subrange(0, fi - 1).push(
                    before[fi - 1],
                ));
                assert(before[fi - 1] is None);
                match assignment_walk(fls, flds, fi as int, c0, u0) {
                    Some(rest) => {
                        assert(assignment_walk(fls, flds, fi - 1, c0, u0) == Some(
                            seq![Option::<usize>::None] + rest,
                        ));
                        assert(before.subrange(0, fi - 1) + (seq![Option::<usize>::None] + rest)
                            =~= before.subrange(0, fi as int) + rest);
                    },
                    None => {
                        assert(assignment_walk(fls, flds, fi - 1, c0, u0) is None);
                    },
                }
            }
            continue ;
        }
        if next_folder_unpack_stream_index == 0 {
            while next_folder_index < num_folders && streams_info.folders[
                next_folder_index
            ].num_unpack_substreams == 0
                invariant
                    next_folder_index <= num_folders,
                    flds == streams_info.folders@,
                    num_folders == flds.len(),
                    folder_first_file_index@.len() == num_folders,
                    fi < num_files,
                    next_active_folder(flds, c0) == next_active_folder(
                        flds,
                        next_folder_index as int,
                    ),
                decreases num_folders - next_folder_index,
            {
                folder_first_file_index[next_folder_index] = Some(fi);
                next_folder_index = next_folder_index + 1;
            }
            if next_folder_index < num_folders {
                folder_first_file_index[next_folder_index] = Some(fi);
            }
            proof {
                assert(next_folder_index as int == next_active_folder(flds, c0));
            }
            if next_folder_index >= num_folders {
                proof {
                    assert(fls[fi as int].has_stream);
                    assert(assignment_walk(fls, flds, fi as int, c0, u0) is None);
                    assert(assignment_walk(fls, flds, 0, 0, 0) is None);
                }
                return Err(
                    ArchiveError::with_message(
                        ErrorKind::InvalidFolderTopology,
                        "Too few folders in archive",
                    ),
                );
            }
        }
        let assigned = next_folder_index;
        file_folder_index[fi] = Some(assigned);
        if files[fi].has_stream {
            next_folder_unpack_stream_index = next_folder_unpack_stream_index + 1;
            if next_folder_unpack_stream_index >= streams_info.folders[
                next_folder_index
            ].num_unpack_substreams {
                next_folder_index = next_folder_index + 1;
                next_folder_unpack_stream_index = 0;
            }
        }
        fi = fi + 1;
        proof {
            let cur = file_folder_index@;
            assert(cur.subrange(0, fi as int) =~= before.subrange(0, fi - 1).push(
                Some(assigned),
            ));
            assert(before.subrange(0, fi - 1) =~= cur.subrange(0, fi - 1));
            match assignment_walk(
                fls,
                flds,
                fi as int,
                next_folder_index as int,
                next_folder_unpack_stream_index,
            ) {
                Some(rest) => {
                    assert(assignment_walk(fls, flds, fi - 1, c0, u0) == Some(
                        seq![Some(assigned)] + rest,
                    ));
                    assert(cur.subrange(0, fi - 1) + (seq![Some(assigned)] + rest) =~= cur.subrange(
                        0,
                        fi as int,
                    ) + rest);
                },
                None => {
                    assert(assignment_walk(fls, flds, fi - 1, c0, u0) is None);
                },
            }
        }
    }
    proof {
        assert(assignment_walk(fls, flds, num_files as int, next_folder_index as int,
            next_folder_unpack_stream_index) == Some(Seq::<Option<usize>>::empty()));
        assert(file_folder_index@.subrange(0, num_files as int) + Seq::<Option<usize>>::empty()
            =~= file_folder_index@);
    }

    Ok(
        StreamMap {
            folder_first_pack_stream_index,
            pack_stream_offsets,
            folder_first_file_index,
            file_folder_index,
        },
    )
}

/// Computes one extraction entry per assigned file, in file order; each
/// entry's offset is the sum of the sizes of the earlier files assigned
/// to the same folder.
pub fn get_stream_offsets(header: &Header) -> (r: Result<Vec<Entry>, ArchiveError>)
    requires
        header_wf(*header),
    ensures
        match r {
            Ok(entries) => {
                &&& entries@.len() == assigned_count(
                    header.stream_map.file_folder_index@,
                    header.files_info@.len() as int,
                )
                &&& forall|i: int|
                    0 <= i < header.files_info@.len() && (
                    #[trigger] header.stream_map.file_folder_index@[i]) is Some ==> {
                        let j = assigned_count(header.stream_map.file_folder_index@, i);
                        &&& 0 <= j < entries@.len()
                        &&& entries@[j].name@ == header.files_info@[i].name@
                        &&& entries@[j].size == header.files_info@[i].size
                        &&& Some(entries@[j].folder_index)
                            == header.stream_map.file_folder_index@[i]
                        &&& entries@[j].offset as nat == folder_offset_before(
                            header.files_info@,
                            header.stream_map.file_folder_index@,
                            i,
                            entries@[j].folder_index,
                        )
                    }
            },
            Err(e) => (exists|i: int|
                0 <= i < header.files_info@.len()
                    && ((#[trigger] header.stream_map.file_folder_index@[i]) matches Some(f)
                    && folder_offset_before(
                    header.files_info@,
                    header.stream_map.file_folder_index@,
                    i,
                    f,
                ) + header.files_info@[i].size > u64::MAX)) && e.kind
                == ErrorKind::InvalidFolderTopology,
        },
{
    let ghost ffi = header.stream_map.file_folder_index@;
    let ghost fls = header.files_info@;
    let mut offsets: Vec<Entry> = Vec::new();
    let num_folders: usize = header.streams_info.folders.len();
    let mut offsets_by_folder: Vec<u64> = Vec::new();
    let mut z: usize = 0;
    while z < num_folders
        invariant
            z <= num_folders,
            offsets_by_folder@.len() == z,
            forall|f: int| 0 <= f < z ==> (#[trigger] offsets_by_folder@[f]) == 0,
        decreases num_folders - z,
    {
        offsets_by_folder.push(0);
        z = z + 1;
    }

    let num_files: usize = header.files_info.len();
    let mut i: usize = 0;
    while i < num_files
        invariant
            i <= num_files,
            num_files == fls.len(),
            ffi == header.stream_map.file_folder_index@,
            fls == header.files_info@,
            header_wf(*header),
            offsets_by_folder@.len() == num_folders,
            num_folders == header.streams_info.folders@.len(),
            offsets@.len() == assigned_count(ffi, i as int),
            forall|f: int|
                0 <= f < num_folders ==> (#[trigger] offsets_by_folder@[f]) as nat
                    == folder_offset_before(fls, ffi, i as int, f as usize),
            forall|j: int|
                0 <= j < i && (#[trigger] ffi[j]) is Some ==> {
                    let e = assigned_count(ffi, j);
                    &&& 0 <= e < offsets@.len()
                    &&& offsets@[e].name@ == fls[j].name@
                    &&& offsets@[e].size == fls[j].size
                    &&& Some(offsets@[e].folder_index) == ffi[j]
                    &&& offsets@[e].offset as nat == folder_offset_before(
                        fls,
                        ffi,
                        j,
                        offsets@[e].folder_index,
                    )
                },
        decreases num_files - i,
    {
        let ghost before = offsets@;
        let ghost obf_before = offsets_by_folder@;
        match header.stream_map.file_folder_index[i] {
            None => {
                proof {
                    assert(assigned_count(ffi, i as int + 1) == assigned_count(ffi, i as int));
                    assert forall|f: int| 0 <= f < num_folders implies (
                    #[trigger] offsets_by_folder@[f]) as nat == folder_offset_before(
                        fls,
                        ffi,
                        i as int + 1,
                        f as usize,
                    ) by {
                        assert(folder_offset_before(fls, ffi, i as int + 1, f as usize)
                            == folder_offset_before(fls, ffi, i as int, f as usize));
                    }
                }
            },
            Some(folder_index) => {
                let uncompressed_size = header.files_info[i].size;
                let offset = offsets_by_folder[folder_index];
                let entry = Entry {
                    name: header.files_info[i].name.clone(),
                    offset,
                    size: uncompressed_size,
                    folder_index,
                };
                offsets.push(entry);
                let bumped = match offset.checked_add(uncompressed_size) {
                    Some(v) => v,
                    None => {
                        proof {
                            assert(ffi[i as int] matches Some(f) && folder_offset_before(
                                fls,
                                ffi,
                                i as int,
                                f,
                            ) + fls[i as int].size > u64::MAX);
                        }
                        return Err(
                            ArchiveError::with_message(
                                ErrorKind::InvalidFolderTopology,
                                "Stream offsets overflow",
                            ),
                        );
                    },
                };
                offsets_by_folder[folder_index] = bumped;
                proof {
                    assert(offsets@ == before.push(offsets@[offsets@.len() - 1]));
                    assert(assigned_count(ffi, i as int + 1) == assigned_count(ffi, i as int) + 1);
                    assert(offsets_by_folder@ == obf_before.update(
                        folder_index as int,
                        bumped,
                    ));
                    assert forall|f: int| 0 <= f < num_folders implies (
                    #[trigger] offsets_by_folder@[f]) as nat == folder_offset_before(
                        fls,
                        ffi,
                        i as int + 1,
                        f as usize,
                    ) by {
                        if f == folder_index {
                            assert(folder_offset_before(fls, ffi, i as int + 1, f as usize)
                                == folder_offset_before(fls, ffi, i as int, f as usize)
                                + fls[i as int].size as nat);
                        } else {
                            assert(ffi[i as int] != Some(f as usize));
                            assert(folder_offset_before(fls, ffi, i as int + 1, f as usize)
                                == folder_offset_before(fls, ffi, i as int, f as usize));
                        }
                    }
                    assert forall|j: int| 0 <= j < i + 1 && (#[trigger] ffi[j]) is Some implies {
                        let e = assigned_count(ffi, j);
                        &&& 0 <= e < offsets@.len()
                        &&& offsets@[e].name@ == fls[j].name@
                        &&& offsets@[e].size == fls[j].size
                        &&& Some(offsets@[e].folder_index) == ffi[j]
                        &&& offsets@[e].offset as nat == folder_offset_before(
                            fls,
                            ffi,
                            j,
                            offsets@[e].folder_index,
                        )
                    } by {
                        if j < i {
                            let e = assigned_count(ffi, j);
                            lemma_assigned_count_le(ffi, j + 1, i as int);
                            assert(e < before.len());
                            assert(offsets@[e] == before[e]);
                        }
                    }
                }
            },
        }
        i = i + 1;
    }
    Ok(offsets)
}

/// `assigned_count` grows with its bound.
pub(crate) proof fn lemma_assigned_count_le(ffi: Seq<Option<usize>>, a: int, b: int)
    requires
        a <= b,
    ensures
        assigned_count(ffi, a) <= assigned_count(ffi, b),
    decreases b - a,
{
    if a < b {
        lemma_assigned_count_le(ffi, a, b - 1);
    }
}

/// The mathematical counterpart of a parsed header, before the derived
/// tables: the streams info, and the files-info state where the section
/// is present.
pub ghost struct GHeader {
    pub si: GStreamsInfo,
    pub has_files: bool,
    pub nfiles: u64,
    pub fst: GFilesState,
}

/// A whole header at `p`: the optional archive-properties and
/// additional-streams sections (the latter rejected), the main streams
/// info, the files info with its assembly checks, and the closing `End`
/// tag; the streams-info section is required.
#[verifier::opaque]
pub open spec fn header_at(s: Seq<u8>, p: int) -> Result<(GHeader, int), ErrorKind> {
    match nid_at(s, p) {
        Err(k) => Err(k),
        Ok((n0, p1)) => {
            let after_props: Result<(NID, int), ErrorKind> = if n0 == NID::ArchiveProperties {
                match skip_props_at(s, p1) {
                    Ok(p2) => nid_at(s, p2),
                    Err(k) => Err(k),
                }
            } else {
                Ok((n0, p1))
            };
            match after_props {
                Err(k) => Err(k),
                Ok((n1, p2)) => if n1 == NID::AdditionalStreamsInfo {
                    Err(ErrorKind::UnsupportedFeature(Feature::AdditionalStreamsInfo))
                } else {
                    let after_si: Result<(Option<GStreamsInfo>, NID, int), ErrorKind> = if n1
                        == NID::MainStreamsInfo {
                        match streams_info_at(s, p2) {
                            Ok((si, p3)) => match nid_at(s, p3) {
                                Ok((n2, p4)) => Ok((Some(si), n2, p4)),
                                Err(k) => Err(k),
                            },
                            Err(k) => Err(k),
                        }
                    } else {
                        Ok((None, n1, p2))
                    };
                    match after_si {
                        Err(k) => Err(k),
                        Ok((osi, n2, p3)) => {
                            let after_files: Result<
                                (bool, u64, GFilesState, NID, int),
                                ErrorKind,
                            > = if n2 == NID::FilesInfo {
                                match osi {
                                    None => Err(ErrorKind::MissingStreamsInfo),
                                    Some(si0) => if si0.substreams is None {
                                        Err(ErrorKind::MissingStreamsInfo)
                                    } else {
                                        match dyn64_at(s, p3) {
                                            None => Err(ErrorKind::Truncated),
                                            Some((n, p4)) => if n > usize::MAX {
                                                Err(ErrorKind::Truncated)
                                            } else {
                                                match files_props_at(
                                                    s,
                                                    p4,
                                                    n as int,
                                                    init_files_state(n as int),
                                                ) {
                                                    Err(k) => Err(k),
                                                    Ok((st, p5)) => match assembly_err(
                                                        st,
                                                        n as int,
                                                        si0.substreams->0.len() as int,
                                                        0,
                                                    ) {
                                                        Some(k) => Err(k),
                                                        None => match nid_at(s, p5) {
                                                            Ok((n3, p6)) => Ok(
                                                                (true, n, st, n3, p6),
                                                            ),
                                                            Err(k) => Err(k),
                                                        },
                                                    },
                                                }
                                            },
                                        }
                                    },
                                }
                            } else {
                                Ok((false, 0, init_files_state(0), n2, p3))
                            };
                            match after_files {
                                Err(k) => Err(k),
                                Ok((hf, n, st, n3, p6)) => if n3 != NID::End {
                                    Err(ErrorKind::BadlyTerminated(Section::Header, n3))
                                } else {
                                    match osi {
                                        None => Err(ErrorKind::MissingStreamsInfo),
                                        Some(si0) => Ok(
                                            (
                                                GHeader {
                                                    si: si0,
                                                    has_files: hf,
                                                    nfiles: n,
                                                    fst: st,
                                                },
                                                p6,
                                            ),
                                        ),
                                    }
                                },
                            }
                        },
                    }
                },
            }
        },
    }
}

/// Parses the whole header, exactly as `header_at` reads it: optional
/// archive properties, the main streams info, and the files info, then
/// derives the stream map. It fails with the error `header_at`
/// classifies, or, once the bytes parse, only on a stream-map failure:
/// folder exhaustion or a table past the machine's limits.
#[verifier::loop_isolation(false)]
pub fn read_header(buf: &mut Buffer) -> (r: Result<Header, ArchiveError>)
    requires
        old(buf).pos() <= old(buf).bytes().len(),
    ensures
        final(buf).bytes() == old(buf).bytes(),
        match r {
            Ok(h) => {
                &&& (header_at(old(buf).bytes(), old(buf).pos() as int) matches Ok((gh, pend)) && {
                    &&& final(buf).pos() == pend
                    &&& streams_info_view(h.streams_info) == gh.si
                    &&& (gh.has_files ==> h.files_info@.len() == gh.nfiles && (forall|i: int|
                        0 <= i < h.files_info@.len() ==> file_matches(
                            #[trigger] h.files_info@[i],
                            i,
                            h.files_info@,
                            gh.fst,
                            gh.si.substreams->0,
                        )))
                    &&& (!gh.has_files ==> h.files_info@.len() == 0)
                })
                &&& header_wf(h)
                &&& header_files_sized(h)
                &&& assignment_walk(h.files_info@, h.streams_info.folders@, 0, 0, 0) == Some(
                    h.stream_map.file_folder_index@,
                )
                &&& match h.streams_info.substreams_info {
                    Some(ssi) => substream_layout(h.streams_info.folders@, true, ssi.unpack_sizes@)
                        || substream_layout(h.streams_info.folders@, false, ssi.unpack_sizes@),
                    None => true,
                }
            },
            Err(e) => {
                ||| header_at(old(buf).bytes(), old(buf).pos() as int) == Err::<
                    (GHeader, int),
                    ErrorKind,
                >(e.kind)
                ||| (header_at(old(buf).bytes(), old(buf).pos() as int) matches Ok(_)) && (e.kind
                    == ErrorKind::InvalidFolderTopology || e.kind == ErrorKind::Truncated)
            },
        },
{
    proof {
        reveal(header_at);
    }
    let ghost s = old(buf).bytes();
    let ghost p0 = old(buf).pos() as int;
    let mut nid = read_nid(buf)?;

    let mut files_info: Vec<File> = Vec::new();
    let mut streams_info: Option<StreamsInfo> = None;

    if nid == NID::ArchiveProperties {
        skip_archive_properties(buf)?;
        nid = read_nid(buf)?;
    }
    let ghost n1 = nid;
    let ghost p2v = buf.pos() as int;

    if nid == NID::AdditionalStreamsInfo {
        return Err(
            ArchiveError::new(ErrorKind::UnsupportedFeature(Feature::AdditionalStreamsInfo)),
        );
    }

    if nid == NID::MainStreamsInfo {
        streams_info = Some(read_streams_info(buf)?);
        nid = read_nid(buf)?;
    }
    let ghost n2 = nid;
    let ghost p3v = buf.pos() as int;
    let ghost osi: Option<GStreamsInfo> = match &streams_info {
        Some(si) => Some(streams_info_view(*si)),
        None => None,
    };

    if nid == NID::FilesInfo {
        match &streams_info {
            Some(info) => {
                match &info.substreams_info {
                    Some(ssi) => {
                        files_info = read_files_info(buf, ssi)?;
                    },
                    None => {
                        return Err(
                            ArchiveError::with_message(
                                ErrorKind::MissingStreamsInfo,
                                "Missing substreams info",
                            ),
                        );
                    },
                }
            },
            None => {
                return Err(
                    ArchiveError::with_message(
                        ErrorKind::MissingStreamsInfo,
                        "Missing substreams info",
                    ),
                );
            },
        }
        nid = read_nid(buf)?;
    }

    if nid != NID::End {
        return Err(ArchiveError::new(ErrorKind::BadlyTerminated(Section::Header, nid)));
    }

    let streams_info = match streams_info {
        Some(si) => si,
        None => {
            return Err(
                ArchiveError::with_message(
                    ErrorKind::MissingStreamsInfo,
                    "Missing StreamsInfo in the header",
                ),
            );
        },
    };
    let stream_map = calculate_stream_map(&files_info, &streams_info)?;
    let header = Header { files_info, stream_map, streams_info };

    Ok(header)
}

} // verus!
