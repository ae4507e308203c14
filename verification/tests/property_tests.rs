use shoeset::archive::decompress;
use shoeset::buffer::Buffer;
use shoeset::decode::decode;
use shoeset::encoded_header::{read_encoded_header, read_streams_info};
use shoeset::error::{ErrorKind, Feature, Section};
use shoeset::header::{get_stream_offsets, read_header};
use shoeset::nid::NID;
use shoeset::read_utils::encode_dyn_uint64;

fn utf16le(s: &str) -> Vec<u8> {
    let mut v = Vec::new();
    for u in s.encode_utf16() {
        v.push((u & 0xff) as u8);
        v.push((u >> 8) as u8);
    }
    v
}

/// The streams-info section of a one-folder LZMA2 archive: 33 packed
/// bytes unpacking to 29, split into substreams of 13 and 16.
fn sample_streams_info() -> Vec<u8> {
    vec![
        0x06, // PackInfo
        0x00, // pack_pos = 0
        0x01, // one pack stream
        0x09, // Size
        0x21, // 33 packed bytes
        0x00, // End of PackInfo
        0x07, // UnpackInfo
        0x0b, // Folder
        0x01, // one folder
        0x00, // not external
        0x01, // one coder
        0x01, // simple coder, one id byte
        0x21, // LZMA2
        0x0c, // CodersUnpackSize
        0x1d, // 29 decompressed bytes
        0x00, // End of UnpackInfo
        0x08, // SubStreamsInfo
        0x0d, // NumUnpackStream
        0x02, // two substreams
        0x09, // Size
        0x0d, // 13 bytes; the last substream's 16 are implied
        0x00, // End of SubStreamsInfo
        0x00, // End of StreamsInfo
    ]
}

/// Header content (after the Header tag) around `sample_streams_info`.
fn sample_header_content() -> Vec<u8> {
    let mut names = utf16le("foobar/hello.txt");
    names.extend_from_slice(&[0, 0]);
    names.extend(utf16le("foobar/world.txt"));
    names.extend_from_slice(&[0, 0]);

    let mut content: Vec<u8> = vec![0x04];
    content.extend(sample_streams_info());
    content.push(0x05); // FilesInfo
    content.push(0x02); // two files
    content.push(0x11); // Name
    content.push((names.len() + 1) as u8);
    content.push(0x00); // not external
    content.extend(names);
    content.push(0x00); // End of FilesInfo
    content.push(0x00); // End of Header
    content
}

#[test]
fn folder_output_streams_match_unpack_sizes() {
    // One unpack size per output stream of the folder.
    let data = sample_streams_info();
    let mut buf = Buffer::new(&data);
    let info = read_streams_info(&mut buf).unwrap();
    assert_eq!(info.folders.len(), 1);
    let folder = &info.folders[0];
    assert_eq!(folder.unpack_sizes.len() as u64, folder.total_output_streams);
    assert_eq!(folder.unpack_sizes, vec![29]);
}

#[test]
fn substream_sizes_sum_to_folder_unpack_size() {
    let data = sample_streams_info();
    let mut buf = Buffer::new(&data);
    let info = read_streams_info(&mut buf).unwrap();
    let folder = &info.folders[0];
    let sizes = &info.substreams_info.as_ref().unwrap().unpack_sizes;
    assert_eq!(sizes, &vec![13, 16]);
    assert_eq!(sizes.iter().sum::<u64>(), folder.get_unpack_size());
}

#[test]
fn stream_offsets_are_cumulative_per_folder() {
    let content = sample_header_content();
    let mut buf = Buffer::new(&content);
    let header = read_header(&mut buf).unwrap();
    let entries = get_stream_offsets(&header).unwrap();
    assert_eq!(entries.len(), 2);
    assert_eq!(entries[0].offset, 0);
    assert_eq!(entries[0].size, 13);
    assert_eq!(entries[0].folder_index, 0);
    assert_eq!(entries[1].offset, 13);
    assert_eq!(entries[1].size, 16);
    assert_eq!(entries[1].folder_index, 0);
    assert_eq!(entries[0].name, "foobar/hello.txt");
    assert_eq!(entries[1].name, "foobar/world.txt");
}

#[test]
fn encoded_header_resolves_to_the_same_archive() {
    let contents: &[u8] = b"catcatcatcat\ndogdogdogdogdog\n";
    let mut folder_pack: Vec<u8> = vec![0x01, 0x00, (contents.len() - 1) as u8];
    folder_pack.extend_from_slice(contents);
    folder_pack.push(0x00);

    let mut plain_header: Vec<u8> = vec![0x01];
    plain_header.extend(sample_header_content());

    // The header itself packed as an LZMA2 stream of one raw chunk.
    let mut header_pack: Vec<u8> = vec![0x01, 0x00, (plain_header.len() - 1) as u8];
    header_pack.extend_from_slice(&plain_header);
    header_pack.push(0x00);

    let mut metadata: Vec<u8> = vec![0x17]; // EncodedHeader
    metadata.push(0x06); // PackInfo
    metadata.extend(encode_dyn_uint64(folder_pack.len() as u64)); // pack_pos after the folder pack
    metadata.push(0x01); // one pack stream
    metadata.push(0x09); // Size
    metadata.extend(encode_dyn_uint64(header_pack.len() as u64));
    metadata.push(0x00); // End of PackInfo
    metadata.push(0x07); // UnpackInfo
    metadata.push(0x0b); // Folder
    metadata.push(0x01); // one folder
    metadata.push(0x00); // not external
    metadata.push(0x01); // one coder
    metadata.push(0x01); // simple coder, one id byte
    metadata.push(0x21); // LZMA2
    metadata.push(0x0c); // CodersUnpackSize
    metadata.extend(encode_dyn_uint64(plain_header.len() as u64));
    metadata.push(0x00); // End of UnpackInfo
    metadata.push(0x00); // End of StreamsInfo

    let mut bytes: Vec<u8> = vec![0x37, 0x7a, 0xbc, 0xaf, 0x27, 0x1c, 0, 4];
    bytes.extend_from_slice(&[0, 0, 0, 0]);
    let body_len = (folder_pack.len() + header_pack.len()) as u64;
    bytes.extend_from_slice(&body_len.to_le_bytes());
    bytes.extend_from_slice(&(metadata.len() as u64).to_le_bytes());
    bytes.extend_from_slice(&[0, 0, 0, 0]);
    bytes.extend_from_slice(&folder_pack);
    bytes.extend_from_slice(&header_pack);
    bytes.extend_from_slice(&metadata);

    let result = decompress(&bytes).unwrap();
    assert_eq!(result.files.len(), 2);
    assert_eq!(result.files[0].name, "foobar/hello.txt");
    assert_eq!(result.files[0].data, b"catcatcatcat\n".to_vec());
    assert_eq!(result.files[1].data, b"dogdogdogdogdog\n".to_vec());
}

#[test]
fn resolve_encoded_header_directly() {
    // read_encoded_header over a buffer whose body holds the packed header.
    let payload: &[u8] = b"0123456789";
    let mut pack: Vec<u8> = vec![0x01, 0x00, (payload.len() - 1) as u8];
    pack.extend_from_slice(payload);
    pack.push(0x00);

    let mut data: Vec<u8> = vec![0; 32];
    data.extend_from_slice(&pack);
    let si: Vec<u8> = vec![
        0x06, 0x00, 0x01, 0x09, pack.len() as u8, 0x00, // PackInfo
        0x07, 0x0b, 0x01, 0x00, 0x01, 0x01, 0x21, 0x0c, payload.len() as u8, 0x00, // UnpackInfo
        0x00, // End of StreamsInfo
    ];
    let meta_start = data.len();
    data.extend_from_slice(&si);

    let mut buf = Buffer::new(&data);
    buf.seek(meta_start);
    let decoded = read_encoded_header(&mut buf).unwrap();
    assert_eq!(decoded, payload.to_vec());
}

#[test]
fn badly_terminated_streams_info() {
    let data: Vec<u8> = vec![0x06, 0x00, 0x00, 0x00, 0x05];
    let mut buf = Buffer::new(&data);
    let err = read_streams_info(&mut buf).unwrap_err();
    assert_eq!(
        err.kind,
        ErrorKind::BadlyTerminated(Section::StreamsInfo, NID::FilesInfo)
    );
}

#[test]
fn unpack_info_must_open_with_folder_tag() {
    let data: Vec<u8> = vec![0x07, 0x0c];
    let mut buf = Buffer::new(&data);
    let err = read_streams_info(&mut buf).unwrap_err();
    assert_eq!(
        err.kind,
        ErrorKind::UnexpectedNid(NID::Folder, NID::CodersUnpackSize)
    );
}

#[test]
fn external_folders_are_unsupported() {
    let data: Vec<u8> = vec![0x07, 0x0b, 0x01, 0x01];
    let mut buf = Buffer::new(&data);
    let err = read_streams_info(&mut buf).unwrap_err();
    assert_eq!(err.kind, ErrorKind::UnsupportedExternal);
    assert_eq!(err.message, "External unsupported");
}

#[test]
fn alternative_methods_are_unsupported() {
    let data: Vec<u8> = vec![0x07, 0x0b, 0x01, 0x00, 0x01, 0x81, 0x21];
    let mut buf = Buffer::new(&data);
    let err = read_streams_info(&mut buf).unwrap_err();
    assert_eq!(
        err.kind,
        ErrorKind::UnsupportedFeature(Feature::AlternativeMethods)
    );
    assert_eq!(err.message, "Alternative methods are unsupported.");
}

#[test]
fn folder_without_outputs_is_invalid() {
    let data: Vec<u8> = vec![0x07, 0x0b, 0x01, 0x00, 0x00];
    let mut buf = Buffer::new(&data);
    let err = read_streams_info(&mut buf).unwrap_err();
    assert_eq!(err.kind, ErrorKind::InvalidFolderTopology);
    assert_eq!(err.message, "Total output streams can't be 0");
}

#[test]
fn additional_streams_are_unsupported() {
    let data: Vec<u8> = vec![0x03];
    let mut buf = Buffer::new(&data);
    let err = read_header(&mut buf).unwrap_err();
    assert_eq!(
        err.kind,
        ErrorKind::UnsupportedFeature(Feature::AdditionalStreamsInfo)
    );
}

#[test]
fn start_pos_is_unsupported() {
    let mut content: Vec<u8> = vec![0x04];
    content.extend(sample_streams_info());
    content.push(0x05); // FilesInfo
    content.push(0x02); // two files
    content.push(0x18); // StartPos
    content.push(0x00); // its size
    let mut buf = Buffer::new(&content);
    let err = read_header(&mut buf).unwrap_err();
    assert_eq!(err.kind, ErrorKind::UnsupportedFeature(Feature::StartPos));
}

#[test]
fn odd_name_blob_is_invalid() {
    let mut content: Vec<u8> = vec![0x04];
    content.extend(sample_streams_info());
    content.push(0x05); // FilesInfo
    content.push(0x02); // two files
    content.push(0x11); // Name
    content.push(0x04); // an even byte count after the external marker
    content.push(0x00);
    content.extend_from_slice(&[0x41, 0x00, 0x42]);
    let mut buf = Buffer::new(&content);
    let err = read_header(&mut buf).unwrap_err();
    assert_eq!(err.kind, ErrorKind::InvalidFileNames);
    assert_eq!(err.message, "File names length invalid");
}

#[test]
fn lone_surrogate_name_fails_utf16_decode() {
    let mut content: Vec<u8> = vec![0x04];
    content.extend(sample_streams_info());
    content.push(0x05); // FilesInfo
    content.push(0x02); // two files
    content.push(0x11); // Name
    content.push(0x05); // one surrogate unit and a terminator
    content.push(0x00);
    content.extend_from_slice(&[0x00, 0xd8, 0x00, 0x00]);
    let mut buf = Buffer::new(&content);
    let err = read_header(&mut buf).unwrap_err();
    assert_eq!(err.kind, ErrorKind::Utf16Decode);
}

#[test]
fn header_without_streams_info_is_rejected() {
    let data: Vec<u8> = vec![0x00];
    let mut buf = Buffer::new(&data);
    let err = read_header(&mut buf).unwrap_err();
    assert_eq!(err.kind, ErrorKind::MissingStreamsInfo);
    assert_eq!(err.message, "Missing StreamsInfo in the header");
}

#[test]
fn decode_rejects_unknown_method() {
    let method: Vec<u8> = vec![0x04];
    let reader: Vec<u8> = Vec::new();
    let properties: Vec<u8> = Vec::new();
    let err = decode(&method, &reader, &properties, 0).unwrap_err();
    assert_eq!(err.kind, ErrorKind::UnsupportedCodec(vec![0x04]));
    assert_eq!(err.message, "Unrecognized compression ID [4]");
}

#[test]
fn decode_lzma2_raw_chunk() {
    let method: Vec<u8> = vec![0x21];
    let reader: Vec<u8> = vec![0x01, 0x00, 0x02, 0x61, 0x62, 0x63, 0x00];
    let properties: Vec<u8> = Vec::new();
    let out = decode(&method, &reader, &properties, 3).unwrap();
    assert_eq!(out, b"abc".to_vec());
}

#[test]
fn substreams_default_to_one_per_folder() {
    // A SubStreamsInfo with neither counts nor sizes: each folder keeps
    // one substream of its whole unpack size.
    let data: Vec<u8> = vec![
        0x06, 0x00, 0x01, 0x09, 0x21, 0x00, // PackInfo: 33 packed bytes
        0x07, 0x0b, 0x01, 0x00, 0x01, 0x01, 0x21, 0x0c, 0x1d, 0x00, // UnpackInfo: 29 out
        0x08, 0x00, // SubStreamsInfo, immediately ended
        0x00, // End of StreamsInfo
    ];
    let mut buf = Buffer::new(&data);
    let info = read_streams_info(&mut buf).unwrap();
    assert_eq!(info.folders[0].num_unpack_substreams, 1);
    assert_eq!(info.substreams_info.unwrap().unpack_sizes, vec![29]);
}
