//! The top level of the reader: signature and version checks, the start
//! header, and the extraction of every file's bytes from the decoded
//! folder buffers.
use vstd::prelude::*;

use crate::buffer::Buffer;
use crate::decode;
use crate::decode::{is_lzma2_id, is_lzma_id, lzma2_decoded, lzma_decoded};
use crate::encoded_header::{
    coder_indices_ok, folder_view, g_coder_indices_ok, g_unpack_size, read_encoded_header,
    spec_unpack_size, streams_info_at,
};
use crate::error::{ArchiveError, ErrorKind};
use crate::header::{
    assigned_count, folder_offset_before, header_wf, lemma_assigned_count_le, pack_offset,
    packed_prefix, read_header, Header,
};
use crate::nid::{nid_at, read_nid, NID};
use crate::read_utils::{
    copy_range, le_bytes, read_uint32, read_uint64, to_usize,
};

verus! {

/// One extracted file: its decoded name and its decompressed bytes.
#[derive(Debug)]
pub struct File {
    pub name: String,
    pub data: Vec<u8>,
}

/// The result of a successful extraction: the files in declaration order.
#[derive(Debug)]
pub struct InternalArchive {
    pub files: Vec<File>,
}

/// The fixed part after the signature: where the metadata stream sits.
#[derive(Debug)]
pub(crate) struct StartHeader {
    pub(crate) next_header_offset: u64,
    pub(crate) next_header_size: u64,
    pub(crate) next_header_crc: u32,
}

/// Whether the first six bytes are the 7z signature.
pub open spec fn signature_ok(data: Seq<u8>) -> bool {
    &&& data[0] == 0x37
    &&& data[1] == 0x7a
    &&& data[2] == 0xbc
    &&& data[3] == 0xaf
    &&& data[4] == 0x27
    &&& data[5] == 0x1c
}

/// Reads the start header fields, little-endian, from the cursor.
pub(crate) fn read_start_header(buf: &mut Buffer) -> (r: Result<StartHeader, ArchiveError>)
    ensures
        final(buf).bytes() == old(buf).bytes(),
        match r {
            Ok(sh) => {
                &&& old(buf).pos() + 20 <= old(buf).bytes().len()
                &&& final(buf).pos() == old(buf).pos() + 20
                &&& sh.next_header_offset == le_bytes(
                    old(buf).bytes().subrange(old(buf).pos() as int, old(buf).pos() as int + 8),
                )
                &&& sh.next_header_size == le_bytes(
                    old(buf).bytes().subrange(
                        old(buf).pos() as int + 8,
                        old(buf).pos() as int + 16,
                    ),
                )
                &&& sh.next_header_crc == le_bytes(
                    old(buf).bytes().subrange(
                        old(buf).pos() as int + 16,
                        old(buf).pos() as int + 20,
                    ),
                )
            },
            Err(e) => {
                &&& old(buf).pos() + 20 > old(buf).bytes().len()
                &&& e.kind == ErrorKind::Truncated
            },
        },
{
    let next_header_offset = read_uint64(buf)?;
    let next_header_size = read_uint64(buf)?;
    let next_header_crc = read_uint32(buf)?;
    Ok(StartHeader { next_header_offset, next_header_size, next_header_crc })
}

/// The packed payload of folder `f`: the bytes of its first pack stream,
/// at the signature header plus the pack position plus that stream's
/// cumulative offset.
pub open spec fn folder_payload(h: Header, data: Seq<u8>, f: int) -> Seq<u8> {
    let first = packed_prefix(h.streams_info.folders@, f) as int;
    let start = 32 + h.streams_info.pack_info.pack_pos as int + pack_offset(
        h.streams_info.pack_info.pack_sizes@,
        first,
    ) as int;
    data.subrange(start, start + h.streams_info.pack_info.pack_sizes@[first] as int)
}

/// The decompressed buffer of folder `f`: its payload run through the
/// decoder that the first coder's method id picks.
pub open spec fn folder_decoded(h: Header, data: Seq<u8>, f: int) -> Option<Seq<u8>> {
    let folder = h.streams_info.folders@[f];
    let coder = folder.coders@[folder.packed_streams@[0] as int];
    let m = coder.coder_options.decompression_method_id@;
    if is_lzma2_id(m) {
        lzma2_decoded(folder_payload(h, data, f))
    } else if is_lzma_id(m) {
        lzma_decoded(
            coder.coder_options.properties@ + folder_payload(h, data, f),
            spec_unpack_size(folder),
        )
    } else {
        None
    }
}

/// Every position of the entry list is the rank of some assigned file.
proof fn lemma_assigned_surjective(ffi: Seq<Option<usize>>, n: int, j: int)
    requires
        0 <= n <= ffi.len(),
        0 <= j < assigned_count(ffi, n),
    ensures
        exists|i: int|
            0 <= i < n && (#[trigger] ffi[i]) is Some && assigned_count(ffi, i) == j,
    decreases n,
{
    if n > 0 {
        if ffi[n - 1] is Some && assigned_count(ffi, n - 1) == j {
            assert(0 <= n - 1 < n && ffi[n - 1] is Some && assigned_count(ffi, n - 1) == j);
        } else {
            lemma_assigned_surjective(ffi, n - 1, j);
        }
    }
}

/// Decodes every folder and slices each assigned file's bytes out of its
/// folder's buffer. Each produced file's data is exactly `size` bytes
/// (the substream size the header assigned it), cut from the decoded
/// folder buffer at the sum of the sizes of the earlier files of the
/// same folder.
#[verifier::loop_isolation(false)]
pub(crate) fn read_archive_contents(header: Header, buf: &mut Buffer) -> (r: Result<
    InternalArchive,
    ArchiveError,
>)
    requires
        header_wf(header),
    ensures
        final(buf).bytes() == old(buf).bytes(),
        match r {
            Ok(archive) => {
                let fls = header.files_info@;
                let ffi = header.stream_map.file_folder_index@;
                &&& archive.files@.len() == assigned_count(ffi, fls.len() as int)
                &&& forall|i: int|
                    0 <= i < fls.len() && (#[trigger] ffi[i]) is Some ==> {
                        let j = assigned_count(ffi, i);
                        let fidx = ffi[i]->0;
                        &&& 0 <= j < archive.files@.len()
                        &&& archive.files@[j].name@ == fls[i].name@
                        &&& archive.files@[j].data@.len() == fls[i].size
                        &&& (folder_decoded(header, old(buf).bytes(), fidx as int) matches Some(
                            dec,
                        ) && folder_offset_before(fls, ffi, i, fidx) + fls[i].size <= dec.len()
                            && archive.files@[j].data@ == dec.subrange(
                            folder_offset_before(fls, ffi, i, fidx) as int,
                            folder_offset_before(fls, ffi, i, fidx) + fls[i].size,
                        ))
                    }
            },
            Err(_) => {
                let fls = header.files_info@;
                let ffi = header.stream_map.file_folder_index@;
                let folders = header.streams_info.folders@;
                let sizes = header.streams_info.pack_info.pack_sizes@;
                let base = 32 + header.streams_info.pack_info.pack_pos as int;
                ||| exists|i: int|
                    0 <= i < fls.len() && ((#[trigger] ffi[i]) matches Some(f)
                        && folder_offset_before(fls, ffi, i, f) + fls[i].size > u64::MAX)
                ||| exists|f: int|
                    0 <= f < folders.len() && packed_prefix(folders, f) >= sizes.len()
                ||| base > u64::MAX
                ||| exists|f: int|
                    0 <= f < folders.len() && {
                        let first = #[trigger] packed_prefix(folders, f) as int;
                        ||| base + pack_offset(sizes, first) > usize::MAX
                        ||| first < sizes.len() && sizes[first] > usize::MAX
                        ||| first < sizes.len() && base + pack_offset(sizes, first) + sizes[first]
                            > old(buf).bytes().len()
                    }
                ||| exists|f: int|
                    0 <= f < folders.len() && !g_coder_indices_ok(
                        folder_view(#[trigger] folders[f]),
                    )
                ||| exists|f: int|
                    0 <= f < folders.len() && ((#[trigger] folder_decoded(
                        header,
                        old(buf).bytes(),
                        f,
                    )) is None || (folder_decoded(header, old(buf).bytes(), f) matches Some(d)
                        && d.len() != spec_unpack_size(folders[f])))
                ||| exists|i: int|
                    0 <= i < fls.len() && ((#[trigger] ffi[i]) matches Some(f) && {
                        ||| folder_offset_before(fls, ffi, i, f) > usize::MAX
                        ||| fls[i].size > usize::MAX
                        ||| (folder_decoded(header, old(buf).bytes(), f as int) matches Some(d)
                            && folder_offset_before(fls, ffi, i, f) + fls[i].size > d.len())
                    })
            },
        },
{
    let ghost input = old(buf).bytes();
    let stream_offsets = crate::header::get_stream_offsets(&header)?;

    let mut decoded_folders: Vec<Vec<u8>> = Vec::new();

    let num_folders: usize = header.streams_info.folders.len();
    let mut folder_index: usize = 0;
    while folder_index < num_folders
        invariant
            folder_index <= num_folders,
            num_folders == header.streams_info.folders@.len(),
            decoded_folders@.len() == folder_index,
            header_wf(header),
            buf.bytes() == input,
            input == old(buf).bytes(),
            forall|f: int|
                0 <= f < folder_index ==> folder_decoded(header, input, f) == Some(
                    (#[trigger] decoded_folders@[f])@,
                ),
        decreases num_folders - folder_index,
    {
        let folder = &header.streams_info.folders[folder_index];

        let first_pack_stream_index = header.stream_map.folder_first_pack_stream_index[
            folder_index
        ];
        if first_pack_stream_index >= header.streams_info.pack_info.pack_sizes.len() {
            proof {
                assert(packed_prefix(header.streams_info.folders@, folder_index as int)
                    >= header.streams_info.pack_info.pack_sizes@.len());
            }
            return Err(
                ArchiveError::with_message(
                    ErrorKind::MissingStreamsInfo,
                    "Too few pack sizes for the folders",
                ),
            );
        }
        let stream_off = header.stream_map.pack_stream_offsets[first_pack_stream_index];
        let base = match 32u64.checked_add(header.streams_info.pack_info.pack_pos) {
            Some(v) => v,
            None => {
                return Err(ArchiveError::new(ErrorKind::Truncated));
            },
        };
        let folder_buf_offset = match base.checked_add(stream_off as u64) {
            Some(v) => v,
            None => {
                return Err(ArchiveError::new(ErrorKind::Truncated));
            },
        };
        let offset = to_usize(folder_buf_offset)?;
        let compressed_size = to_usize(
            header.streams_info.pack_info.pack_sizes[first_pack_stream_index],
        )?;

        buf.seek(offset);
        let reader = buf.read_multi(compressed_size)?;

        if !coder_indices_ok(folder) {
            proof {
                let gf = folder_view(header.streams_info.folders@[folder_index as int]);
                assert(gf.coders.len() == folder.coders@.len());
                assert(gf.packed_streams == folder.packed_streams@);
                assert(gf.bind_pairs == folder.bind_pairs@);
                assert(!g_coder_indices_ok(gf));
            }
            return Err(
                ArchiveError::with_message(
                    ErrorKind::InvalidFolderTopology,
                    "Coder index out of range",
                ),
            );
        }
        let coders = folder.get_ordered_coders();
        let coder = coders[0];

        let unpack_size = folder.get_unpack_size();

        proof {
            assert(reader@ == folder_payload(header, input, folder_index as int));
        }
        let res = match decode::decode(
            &coder.coder_options.decompression_method_id,
            &reader,
            &coder.coder_options.properties,
            unpack_size,
        ) {
            Ok(v) => v,
            Err(e) => {
                proof {
                    assert(folder_decoded(header, input, folder_index as int) is None
                        || (folder_decoded(header, input, folder_index as int) matches Some(d)
                        && d.len() != spec_unpack_size(
                        header.streams_info.folders@[folder_index as int],
                    )));
                }
                return Err(e);
            },
        };

        decoded_folders.push(res);
        proof {
            assert(reader@ == folder_payload(header, input, folder_index as int));
            assert(folder_decoded(header, input, folder_index as int) == Some(
                decoded_folders@[folder_index as int]@,
            ));
            assert(forall|f: int|
                0 <= f < folder_index ==> folder_decoded(header, input, f) == Some(
                    (#[trigger] decoded_folders@[f])@,
                ));
        }
        folder_index = folder_index + 1;
    }

    let mut data: Vec<File> = Vec::new();
    let n_entries: usize = stream_offsets.len();
    let mut i: usize = 0;
    while i < n_entries
        invariant
            i <= n_entries,
            n_entries == stream_offsets@.len(),
            data@.len() == i,
            decoded_folders@.len() == header.streams_info.folders@.len(),
            buf.bytes() == input,
            input == old(buf).bytes(),
            forall|f: int|
                0 <= f < decoded_folders@.len() ==> folder_decoded(header, input, f) == Some(
                    (#[trigger] decoded_folders@[f])@,
                ),
            forall|j: int|
                0 <= j < i ==> {
                    let e = #[trigger] stream_offsets@[j];
                    &&& e.folder_index < decoded_folders@.len()
                    &&& data@[j].name@ == e.name@
                    &&& data@[j].data@.len() == e.size
                    &&& e.offset + e.size <= decoded_folders@[e.folder_index as int]@.len()
                    &&& data@[j].data@ == decoded_folders@[e.folder_index as int]@.subrange(
                        e.offset as int,
                        e.offset + e.size,
                    )
                },
        decreases n_entries - i,
    {
        let ghost before = data@;
        let ghost fls = header.files_info@;
        let ghost ffi = header.stream_map.file_folder_index@;
        proof {
            lemma_assigned_surjective(ffi, fls.len() as int, i as int);
        }
        let ghost wit = choose|w: int|
            0 <= w < fls.len() && (#[trigger] ffi[w]) is Some && assigned_count(ffi, w)
                == i as int;
        let folder_idx = stream_offsets[i].folder_index;
        if folder_idx >= decoded_folders.len() {
            proof {
                assert(Some(stream_offsets@[i as int].folder_index) == ffi[wit]);
                assert(false);
            }
            return Err(
                ArchiveError::with_message(
                    ErrorKind::InvalidFolderTopology,
                    "Entry folder out of range",
                ),
            );
        }
        proof {
            assert(Some(stream_offsets@[i as int].folder_index) == ffi[wit]);
            assert(stream_offsets@[i as int].offset as nat == folder_offset_before(
                fls,
                ffi,
                wit,
                stream_offsets@[i as int].folder_index,
            ));
            assert(stream_offsets@[i as int].size == fls[wit].size);
            assert(folder_decoded(header, input, folder_idx as int) == Some(
                decoded_folders@[folder_idx as int]@,
            ));
        }
        let off = to_usize(stream_offsets[i].offset)?;
        let sz = to_usize(stream_offsets[i].size)?;
        let bytes = copy_range(&decoded_folders[folder_idx], off, sz)?;
        let name = stream_offsets[i].name.clone();
        data.push(File { name, data: bytes });
        proof {
            assert(data@ == before.push(data@[i as int]));
            assert forall|j: int| 0 <= j < i + 1 implies {
                let e = #[trigger] stream_offsets@[j];
                &&& e.folder_index < decoded_folders@.len()
                &&& data@[j].name@ == e.name@
                &&& data@[j].data@.len() == e.size
                &&& e.offset + e.size <= decoded_folders@[e.folder_index as int]@.len()
                &&& data@[j].data@ == decoded_folders@[e.folder_index as int]@.subrange(
                    e.offset as int,
                    e.offset + e.size,
                )
            } by {
                if j < i {
                    assert(data@[j] == before[j]);
                }
            }
        }
        i = i + 1;
    }

    let ghost fls = header.files_info@;
    let ghost ffi = header.stream_map.file_folder_index@;
    proof {
        assert forall|i0: int| 0 <= i0 < fls.len() && (#[trigger] ffi[i0]) is Some implies {
            let j = assigned_count(ffi, i0);
            let fidx = ffi[i0]->0;
            &&& 0 <= j < data@.len()
            &&& data@[j].name@ == fls[i0].name@
            &&& data@[j].data@.len() == fls[i0].size
            &&& (folder_decoded(header, input, fidx as int) matches Some(dec)
                && folder_offset_before(fls, ffi, i0, fidx) + fls[i0].size <= dec.len()
                && data@[j].data@ == dec.subrange(
                folder_offset_before(fls, ffi, i0, fidx) as int,
                folder_offset_before(fls, ffi, i0, fidx) + fls[i0].size,
            ))
        } by {
            let j = assigned_count(ffi, i0);
            lemma_assigned_count_le(ffi, 0, i0);
            lemma_assigned_count_le(ffi, i0 + 1, fls.len() as int);
            assert(assigned_count(ffi, i0 + 1) == j + 1);
            assert(0 <= j < stream_offsets@.len());
            let e = stream_offsets@[j];
            assert(e.folder_index < decoded_folders@.len());
            assert(folder_decoded(header, input, e.folder_index as int) == Some(
                decoded_folders@[e.folder_index as int]@,
            ));
        }
    }

    Ok(InternalArchive { files: data })
}

/// Whether a metadata stream stored compressed at `p` resolves to a
/// buffer that begins with the `Header` tag: the streams info parses to
/// one folder, and the named decode of its payload starts with that tag.
pub open spec fn encoded_then_header(s: Seq<u8>, p: int) -> bool {
    streams_info_at(s, p) matches Ok((gsi, _)) && {
        let folder = gsi.folders[0];
        let coder = folder.coders[folder.packed_streams[0] as int];
        let off = 32 + gsi.pack.pack_pos as int;
        let payload = s.subrange(off, off + gsi.pack.pack_sizes[0] as int);
        &&& gsi.folders.len() == 1
        &&& gsi.pack.pack_sizes.len() >= 1
        &&& ((is_lzma2_id(coder.id) && (lzma2_decoded(payload) matches Some(dec) && nid_at(dec, 0)
            == Ok::<(NID, int), crate::error::ErrorKind>((NID::Header, 1)))) || (is_lzma_id(
            coder.id,
        ) && (lzma_decoded(coder.props + payload, g_unpack_size(folder)) matches Some(dec)
            && nid_at(dec, 0) == Ok::<(NID, int), crate::error::ErrorKind>((NID::Header, 1)))))
    }
}

/// Reads a 7z container: checks the signature and version, locates the
/// metadata stream, resolves it when it is itself compressed, parses the
/// header, and extracts every file. On success the tag at the metadata
/// position is `Header`, or `EncodedHeader` whose decoded buffer begins
/// with `Header`; a tag other than those two is rejected as unexpected.
pub fn decompress(data: &[u8]) -> (r: Result<InternalArchive, ArchiveError>)
    ensures
        match r {
            Ok(_) => {
                let hpos = 32 + le_bytes(data@.subrange(12, 20)) as int;
                &&& data@.len() >= 32 && signature_ok(data@) && data@[6] == 0
                &&& 32 + le_bytes(data@.subrange(12, 20)) <= usize::MAX
                &&& (nid_at(data@, hpos) matches Ok((t, hp1)) && (t == NID::Header || (t
                    == NID::EncodedHeader && encoded_then_header(data@, hp1))))
            },
            Err(e) => {
                let hpos = 32 + le_bytes(data@.subrange(12, 20)) as int;
                &&& data@.len() < 12 ==> e.kind == ErrorKind::TooShort
                &&& (data@.len() >= 12 && !signature_ok(data@)) ==> e.kind
                    == ErrorKind::BadSignature
                &&& (data@.len() >= 12 && signature_ok(data@) && data@[6] != 0) ==> e.kind
                    == ErrorKind::UnsupportedVersion(data@[6], data@[7])
                &&& (data@.len() >= 32 && signature_ok(data@) && data@[6] == 0 && hpos
                    <= usize::MAX && hpos < data@.len() && crate::nid::nid_of(data@[hpos]) is None)
                    ==> e.kind == ErrorKind::UnknownNid(data@[hpos])
                &&& (data@.len() >= 32 && signature_ok(data@) && data@[6] == 0 && hpos
                    <= usize::MAX && (nid_at(data@, hpos) matches Ok((t, _)) && t != NID::Header
                    && t != NID::EncodedHeader)) ==> e.kind == ErrorKind::UnexpectedNid(
                    NID::Header,
                    nid_at(data@, hpos)->Ok_0.0,
                )
            },
        },
{
    let mut buf = Buffer::new(data);

    if data.len() < 12 {
        return Err(ArchiveError::new(ErrorKind::TooShort));
    }
    if data[0] != 0x37 || data[1] != 0x7a || data[2] != 0xbc || data[3] != 0xaf || data[4] != 0x27
        || data[5] != 0x1c {
        return Err(ArchiveError::new(ErrorKind::BadSignature));
    }

    let major_version = data[6];
    let minor_version = data[7];
    if major_version != 0 {
        return Err(
            ArchiveError::new(ErrorKind::UnsupportedVersion(major_version, minor_version)),
        );
    }

    buf.seek(8);

    let _start_header_crc = read_uint32(&mut buf)?;
    let start_header = read_start_header(&mut buf)?;

    let next = match 32u64.checked_add(start_header.next_header_offset) {
        Some(v) => v,
        None => {
            return Err(ArchiveError::new(ErrorKind::Truncated));
        },
    };
    buf.seek(to_usize(next)?);

    let mut nid = read_nid(&mut buf)?;
    if nid == NID::EncodedHeader {
        let decoded = read_encoded_header(&mut buf)?;
        let mut header_buf = Buffer::new(decoded.as_slice());
        nid = read_nid(&mut header_buf)?;

        if nid == NID::Header {
            let header = read_header(&mut header_buf)?;
            return read_archive_contents(header, &mut buf);
        }
    }

    if nid == NID::Header {
        let header = read_header(&mut buf)?;
        return read_archive_contents(header, &mut buf);
    }

    Err(ArchiveError::new(ErrorKind::UnexpectedNid(NID::Header, nid)))
}


/// The concatenation of a sequence of byte runs.
pub open spec fn concat_bytes(parts: Seq<Seq<u8>>) -> Seq<u8>
    decreases parts.len(),
{
    if parts.len() == 0 {
        Seq::empty()
    } else {
        concat_bytes(parts.drop_last()) + parts.last()
    }
}

/// The data runs of the files among `0..i` that are assigned to folder
/// `fidx`, in file order; run `k` is the extracted data of the `k`-th
/// such file.
pub open spec fn folder_parts(
    out: Seq<File>,
    ffi: Seq<Option<usize>>,
    i: int,
    fidx: usize,
) -> Seq<Seq<u8>>
    decreases i + 1,
{
    if i <= 0 {
        Seq::empty()
    } else if ffi[i - 1] == Some(fidx) {
        folder_parts(out, ffi, i - 1, fidx).push(out[assigned_count(ffi, i - 1)].data@)
    } else {
        folder_parts(out, ffi, i - 1, fidx)
    }
}

/// Law: the concatenation of the data of the files assigned to one
/// folder, in file order, is exactly the prefix of that folder's
/// decompressed buffer whose length is the sum of their sizes. The
/// hypotheses are what `read_archive_contents` ensures of its output,
/// with `dec` the folder's decoded buffer.
pub proof fn lemma_folder_concat_prefix(
    out: Seq<File>,
    fls: Seq<crate::header::File>,
    ffi: Seq<Option<usize>>,
    dec: Seq<u8>,
    fidx: usize,
    i: int,
)
    requires
        0 <= i <= fls.len(),
        out.len() == assigned_count(ffi, fls.len() as int),
        forall|k: int|
            0 <= k < fls.len() && (#[trigger] ffi[k]) == Some(fidx) ==> {
                let j = assigned_count(ffi, k);
                &&& 0 <= j < out.len()
                &&& folder_offset_before(fls, ffi, k, fidx) + fls[k].size <= dec.len()
                &&& out[j].data@ == dec.subrange(
                    folder_offset_before(fls, ffi, k, fidx) as int,
                    folder_offset_before(fls, ffi, k, fidx) + fls[k].size,
                )
            },
    ensures
        concat_bytes(folder_parts(out, ffi, i, fidx)) == dec.take(
            folder_offset_before(fls, ffi, i, fidx) as int,
        ),
    decreases i,
{
    if i <= 0 {
        assert(concat_bytes(folder_parts(out, ffi, i, fidx)) =~= dec.take(0));
    } else {
        lemma_folder_concat_prefix(out, fls, ffi, dec, fidx, i - 1);
        if ffi[i - 1] == Some(fidx) {
            let off = folder_offset_before(fls, ffi, i - 1, fidx) as int;
            let parts = folder_parts(out, ffi, i, fidx);
            assert(parts.drop_last() =~= folder_parts(out, ffi, i - 1, fidx));
            assert(parts.last() == out[assigned_count(ffi, i - 1)].data@);
            assert(concat_bytes(parts) == dec.take(off) + dec.subrange(
                off,
                off + fls[i - 1].size,
            ));
            assert(concat_bytes(parts) =~= dec.take(off + fls[i - 1].size));
        }
    }
}

} // verus!
