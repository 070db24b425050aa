use surreal_iter::fd::{new, prefix, suffix, Fd, KeyError};

#[test]
fn key() {
    let val = Fd::new("test", "test", "test", "test");
    let enc = Fd::encode(&val).unwrap();
    let dec = Fd::decode(&enc).unwrap();
    assert_eq!(val, dec);
}

#[test]
fn key_bytes_layout() {
    let val = new("ns", "db", "tb", "fd");
    let enc = val.encode().unwrap();
    assert_eq!(enc, b"/*ns\0*db\0*tb\0!fdfd\0".to_vec());
}

#[test]
fn key_decode_borrows_names() {
    let bytes = b"/*a\0*bc\0*d\0!fdname\0".to_vec();
    let dec = Fd::decode(&bytes).unwrap();
    assert_eq!(dec, Fd::new("a", "bc", "d", "name"));
}

#[test]
fn key_decode_rejects_truncated() {
    let bytes = b"/*a\0*bc\0*d\0!f".to_vec();
    assert_eq!(Fd::decode(&bytes), Err(KeyError::Malformed));
    assert_eq!(Fd::decode(b"/"), Err(KeyError::Malformed));
}

#[test]
fn key_decode_rejects_trailing_bytes() {
    let bytes = b"/*a\0*b\0*c\0!fdd\0x".to_vec();
    assert_eq!(Fd::decode(&bytes), Err(KeyError::Malformed));
}

#[test]
fn key_decode_rejects_invalid_utf8() {
    let bytes = vec![b'/', b'*', 0xff, 0, b'*', b'b', 0, b'*', b'c', 0, b'!', b'f', b'd', b'd', 0];
    assert_eq!(Fd::decode(&bytes), Err(KeyError::Malformed));
}

#[test]
fn key_encode_writes_names_as_they_are() {
    let val = Fd::new("a\0b", "db", "tb", "fd");
    assert_eq!(val.encode(), Ok(b"/*a\0b\0*db\0*tb\0!fdfd\0".to_vec()));
    assert_eq!(prefix("a\0", "", "t"), b"/*a\0\0*\0*t\0!fd\x00".to_vec());
}

#[test]
fn key_prefix_and_suffix() {
    assert_eq!(prefix("ns", "db", "tb"), b"/*ns\0*db\0*tb\0!fd\x00".to_vec());
    assert_eq!(suffix("ns", "db", "tb"), b"/*ns\0*db\0*tb\0!fd\xff".to_vec());
    assert!(prefix("ns", "db", "tb") < suffix("ns", "db", "tb"));
}
