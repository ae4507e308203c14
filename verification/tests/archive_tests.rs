use shoeset::archive::decompress;
use shoeset::error::ErrorKind;

fn utf16le(s: &str) -> Vec<u8> {
    let mut v = Vec::new();
    for u in s.encode_utf16() {
        v.push((u & 0xff) as u8);
        v.push((u >> 8) as u8);
    }
    v
}

fn build_container(pack: &[u8], header: &[u8]) -> Vec<u8> {
    let mut out: Vec<u8> = vec![0x37, 0x7a, 0xbc, 0xaf, 0x27, 0x1c, 0, 4];
    out.extend_from_slice(&[0, 0, 0, 0]); // start header CRC, parsed but not verified
    out.extend_from_slice(&(pack.len() as u64).to_le_bytes()); // next_header_offset
    out.extend_from_slice(&(header.len() as u64).to_le_bytes()); // next_header_size
    out.extend_from_slice(&[0, 0, 0, 0]); // next header CRC, parsed but not verified
    out.extend_from_slice(pack);
    out.extend_from_slice(header);
    out
}

/// A two-file archive whose header carries one folder with the given
/// coder block; the folder unpacks to the 29 bytes of the two texts.
fn two_file_header(pack_len: u8, coder_block: &[u8]) -> Vec<u8> {
    let mut names = utf16le("foobar/hello.txt");
    names.extend_from_slice(&[0, 0]);
    names.extend(utf16le("foobar/world.txt"));
    names.extend_from_slice(&[0, 0]);

    let mut header: Vec<u8> = Vec::new();
    header.push(0x01); // Header
    header.push(0x04); // MainStreamsInfo
    header.push(0x06); // PackInfo
    header.push(0x00); // pack_pos = 0
    header.push(0x01); // one pack stream
    header.push(0x09); // Size
    header.push(pack_len);
    header.push(0x00); // End of PackInfo
    header.push(0x07); // UnpackInfo
    header.push(0x0b); // Folder
    header.push(0x01); // one folder
    header.push(0x00); // not external
    header.push(0x01); // one coder
    header.extend_from_slice(coder_block);
    header.push(0x0c); // CodersUnpackSize
    header.push(29); // total decompressed bytes
    header.push(0x00); // End of UnpackInfo
    header.push(0x08); // SubStreamsInfo
    header.push(0x0d); // NumUnpackStream
    header.push(0x02); // two substreams
    header.push(0x09); // Size
    header.push(13); // hello.txt; world.txt's 16 bytes are implied
    header.push(0x00); // End of SubStreamsInfo
    header.push(0x00); // End of StreamsInfo
    header.push(0x05); // FilesInfo
    header.push(0x02); // two files
    header.push(0x11); // Name
    header.push((names.len() + 1) as u8);
    header.push(0x00); // not external
    header.extend(names);
    header.push(0x00); // End of FilesInfo
    header.push(0x00); // End of Header
    header
}

fn foobar_archive() -> Vec<u8> {
    let contents: &[u8] = b"catcatcatcat\ndogdogdogdogdog\n";
    // An LZMA2 stream of one uncompressed chunk: control byte 1 (reset
    // dictionary), big-endian length minus one, the bytes, end marker.
    let mut pack: Vec<u8> = vec![0x01, 0x00, (contents.len() - 1) as u8];
    pack.extend_from_slice(contents);
    pack.push(0x00);

    let coder_block: [u8; 2] = [0x01, 0x21]; // simple coder, one id byte, LZMA2
    let header = two_file_header(pack.len() as u8, &coder_block);
    build_container(&pack, &header)
}

#[test]
fn too_short_file_fails() {
    let bytes: [u8; 8] = [0x37, 0x7A, 0xBC, 0xAF, 0x27, 0x1C, 7, 8];
    let result = decompress(&bytes);
    assert!(result.is_err(), "Should be an error");
    assert_eq!(
        "The file is too small",
        result.err().expect("Should be an error").message
    );
}

#[test]
fn wrong_signature() {
    let bytes: [u8; 14] = [1, 2, 3, 4, 5, 6, 7, 8, 9, 10, 11, 12, 13, 14];
    let result = decompress(&bytes);
    assert!(result.is_err(), "Should be an error");
    assert_eq!(
        "Signature mismatch",
        result.err().expect("Should be an error").message
    );
}

#[test]
fn wrong_version() {
    let bytes: [u8; 14] = [0x37, 0x7A, 0xBC, 0xAF, 0x27, 0x1C, 1, 4, 0, 0, 0, 0, 0, 0];
    let result = decompress(&bytes);
    assert!(result.is_err(), "Should be an error");
    assert_eq!(
        "Unsupported 7z version (1,4)",
        result.err().expect("Should be an error").message
    );
}

#[test]
fn it_works() {
    let bytes = foobar_archive();
    let result = decompress(&bytes).unwrap();
    assert_eq!(result.files[0].name, "foobar/hello.txt");
    assert_eq!(
        std::str::from_utf8(&result.files[0].data).unwrap(),
        "catcatcatcat\n"
    );
    assert_eq!(result.files[1].name, "foobar/world.txt");
    assert_eq!(
        std::str::from_utf8(&result.files[1].data).unwrap(),
        "dogdogdogdogdog\n"
    );
}

#[test]
fn lzma_folder_extracts() {
    let contents: &[u8] = b"catcatcatcat\ndogdogdogdogdog\n";
    let mut compressed: Vec<u8> = Vec::new();
    lzma_rs::lzma_compress(&mut std::io::Cursor::new(contents), &mut compressed).unwrap();
    // The stream opens with five property bytes and an eight-byte size;
    // the folder carries the properties, the body carries the payload.
    let props = &compressed[0..5];
    let payload = &compressed[13..];

    let mut coder_block: Vec<u8> = vec![0x23, 0x03, 0x01, 0x01, 0x05];
    coder_block.extend_from_slice(props);
    let header = two_file_header(payload.len() as u8, &coder_block);
    let bytes = build_container(payload, &header);

    let result = decompress(&bytes).unwrap();
    assert_eq!(result.files.len(), 2);
    assert_eq!(result.files[0].data, b"catcatcatcat\n".to_vec());
    assert_eq!(result.files[1].data, b"dogdogdogdogdog\n".to_vec());
}

#[test]
fn unknown_top_level_tag_is_rejected() {
    // A container whose metadata starts with a byte outside the tag set.
    let header: [u8; 1] = [0xEE];
    let bytes = build_container(&[], &header);
    let err = decompress(&bytes).unwrap_err();
    assert_eq!(err.kind, ErrorKind::UnknownNid(0xEE));
}

#[test]
fn garbage_lzma2_payload_is_codec_failure() {
    let pack: [u8; 1] = [0xFF]; // an LZMA2 chunk header cut short
    let coder_block: [u8; 2] = [0x01, 0x21];
    let header = two_file_header(1, &coder_block);
    let bytes = build_container(&pack, &header);
    let err = decompress(&bytes).unwrap_err();
    assert!(matches!(err.kind, ErrorKind::CodecFailure(_)));
}

#[test]
fn unsupported_codec_is_reported() {
    let pack: [u8; 1] = [0x00];
    let coder_block: [u8; 2] = [0x01, 0x5a]; // an id this reader does not know
    let header = two_file_header(1, &coder_block);
    let bytes = build_container(&pack, &header);
    let err = decompress(&bytes).unwrap_err();
    assert_eq!(err.kind, ErrorKind::UnsupportedCodec(vec![0x5a]));
    assert_eq!(err.message, "Unrecognized compression ID [90]");
}

#[test]
fn directory_entries_carry_no_data() {
    // Three declared files: a directory without a stream, then the two
    // texts; only the stream-bearing files reach the output.
    let contents: &[u8] = b"catcatcatcat\ndogdogdogdogdog\n";
    let mut pack: Vec<u8> = vec![0x01, 0x00, (contents.len() - 1) as u8];
    pack.extend_from_slice(contents);
    pack.push(0x00);

    let mut names = utf16le("foobar");
    names.extend_from_slice(&[0, 0]);
    names.extend(utf16le("foobar/hello.txt"));
    names.extend_from_slice(&[0, 0]);
    names.extend(utf16le("foobar/world.txt"));
    names.extend_from_slice(&[0, 0]);

    let mut header: Vec<u8> = Vec::new();
    header.push(0x01); // Header
    header.push(0x04); // MainStreamsInfo
    header.push(0x06); // PackInfo
    header.push(0x00);
    header.push(0x01);
    header.push(0x09);
    header.push(pack.len() as u8);
    header.push(0x00);
    header.push(0x07); // UnpackInfo
    header.push(0x0b);
    header.push(0x01);
    header.push(0x00);
    header.push(0x01);
    header.push(0x01);
    header.push(0x21);
    header.push(0x0c);
    header.push(29);
    header.push(0x00);
    header.push(0x08); // SubStreamsInfo
    header.push(0x0d);
    header.push(0x02);
    header.push(0x09);
    header.push(13);
    header.push(0x00);
    header.push(0x00); // End of StreamsInfo
    header.push(0x05); // FilesInfo
    header.push(0x03); // three files
    header.push(0x0e); // EmptyStream
    header.push(0x01); // one byte of bits
    header.push(0x80); // only the first file lacks a stream
    header.push(0x11); // Name
    header.push((names.len() + 1) as u8);
    header.push(0x00);
    header.extend(names);
    header.push(0x00); // End of FilesInfo
    header.push(0x00); // End of Header

    let bytes = build_container(&pack, &header);
    let result = decompress(&bytes).unwrap();
    assert_eq!(result.files.len(), 2);
    assert_eq!(result.files[0].name, "foobar/hello.txt");
    assert_eq!(result.files[0].data.len(), 13);
    assert_eq!(result.files[1].name, "foobar/world.txt");
    assert_eq!(result.files[1].data.len(), 16);
}
