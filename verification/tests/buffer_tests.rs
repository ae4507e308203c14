use shoeset::buffer::Buffer;

#[test]
fn read() {
    let mut buf = Buffer::new(&[1, 2, 3]);
    assert_eq!(buf.read().unwrap(), 1, "Read a byte");
    assert_eq!(buf.read().unwrap(), 2, "Read a byte");
    assert_eq!(buf.read().unwrap(), 3, "Read a byte");
}

#[test]
fn read_multi() {
    let mut buf = Buffer::new(&[1, 2, 3, 4, 5]);
    buf.seek(1);
    let range = buf.read_multi(3).unwrap();
    assert_eq!(range, [2, 3, 4]);
    assert_eq!(buf.read().unwrap(), 5);
}

#[test]
fn seek() {
    let mut buf = Buffer::new(&[1, 2, 3]);
    buf.seek(2);
    assert_eq!(buf.read().unwrap(), 3, "Read a byte");
}

#[test]
fn read_past_end_is_truncated() {
    let mut buf = Buffer::new(&[1]);
    assert_eq!(buf.read().unwrap(), 1);
    let err = buf.read().unwrap_err();
    assert_eq!(err.kind, shoeset::error::ErrorKind::Truncated);
    assert_eq!(err.message, "Read past the end of the input");
    let err2 = buf.read_multi(1).unwrap_err();
    assert_eq!(err2.kind, shoeset::error::ErrorKind::Truncated);
}
