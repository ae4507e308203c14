use shoeset::buffer::Buffer;
use shoeset::nid::{read_nid, NID};

#[test]
fn read_nid_header() {
    let mut buff = Buffer::new(&[1]);
    let result = read_nid(&mut buff).unwrap();
    assert_eq!(result, NID::Header);
}

#[test]
fn read_unexpected() {
    let mut buff = Buffer::new(&[250]);
    let result = read_nid(&mut buff);
    assert!(result.is_err(), "Should return an error");
    assert_eq!(result.err().unwrap().message, "Unrecognized NID flag 250");
}

#[test]
fn every_known_tag_byte_parses() {
    let mut i: u8 = 0;
    while i <= 25 {
        let mut buff = Buffer::new(std::slice::from_ref(&i));
        assert!(read_nid(&mut buff).is_ok());
        i += 1;
    }
    let mut j: u16 = 26;
    while j <= 255 {
        let b = j as u8;
        let mut buff = Buffer::new(std::slice::from_ref(&b));
        let err = read_nid(&mut buff).unwrap_err();
        assert_eq!(err.kind, shoeset::error::ErrorKind::UnknownNid(b));
        j += 1;
    }
}
