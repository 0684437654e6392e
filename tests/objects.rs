use minigit::codec::{encode_header, split_header_payload, ObjectKind};
use minigit::error::StoreError;
use minigit::oid::ObjectId;
use minigit::store::{decode_object, encode_object, frame};

#[test]
fn hello_blob_scenario() {
    let payload = b"hello\n";
    assert_eq!(frame(ObjectKind::Blob, payload), b"blob 6\0hello\n".to_vec());
    let stored = encode_object(ObjectKind::Blob, payload);
    assert_eq!(stored.oid.to_hex(), "ce013625030ba8dba906f756967f9e9ca394464a");
    assert_eq!(
        stored.oid.object_path(),
        "ce/013625030ba8dba906f756967f9e9ca394464a"
    );
    assert_ne!(stored.data, b"blob 6\0hello\n".to_vec());
    let (kind, back) = decode_object(&stored.data).unwrap();
    assert_eq!(kind, ObjectKind::Blob);
    assert_eq!(back, payload.to_vec());
}

#[test]
fn put_twice_gives_same_oid() {
    let b = b"some file content\n".to_vec();
    let first = encode_object(ObjectKind::Blob, &b);
    let second = encode_object(ObjectKind::Blob, &b);
    assert_eq!(first.oid, second.oid);
    assert_eq!(first.data, second.data);
    let other = encode_object(ObjectKind::Blob, b"some file content");
    assert_ne!(first.oid, other.oid);
}

#[test]
fn round_trip_every_kind() {
    let payloads: Vec<Vec<u8>> = vec![vec![], b"a\0b\0c".to_vec(), vec![0u8; 300], b"tree 5\0x".to_vec()];
    for kind in [ObjectKind::Blob, ObjectKind::Tree, ObjectKind::Commit] {
        for p in &payloads {
            let stored = encode_object(kind, p);
            assert_eq!(decode_object(&stored.data), Ok((kind, p.clone())));
        }
    }
}

#[test]
fn header_encoding() {
    assert_eq!(encode_header(ObjectKind::Blob, 6), b"blob 6\0".to_vec());
    assert_eq!(encode_header(ObjectKind::Tree, 0), b"tree 0\0".to_vec());
    assert_eq!(encode_header(ObjectKind::Commit, 1234), b"commit 1234\0".to_vec());
}

#[test]
fn header_framing_recovers_fields() {
    let mut data = encode_header(ObjectKind::Tree, 5);
    data.extend_from_slice(b"a\0b\0c");
    assert_eq!(
        split_header_payload(&data),
        Ok((ObjectKind::Tree, 5, b"a\0b\0c".to_vec()))
    );
    let mut other = encode_header(ObjectKind::Commit, 42);
    other.extend_from_slice(b"\0\0");
    assert_eq!(
        split_header_payload(&other),
        Ok((ObjectKind::Commit, 42, b"\0\0".to_vec()))
    );
}

#[test]
fn malformed_headers_are_corrupt() {
    let cases: Vec<&[u8]> = vec![
        b"blob 6hello",
        b"blob6\0hello",
        b"blub 6\0hello",
        b"blob \0",
        b"blob 6x\0hello",
        b" 6\0",
        b"blob 99999999999999999999999999\0",
        b"",
    ];
    for c in cases {
        assert_eq!(split_header_payload(c), Err(StoreError::Corrupt));
    }
}

#[test]
fn undecodable_bytes_are_corrupt() {
    assert_eq!(decode_object(b"not a zlib stream"), Err(StoreError::Corrupt));
    assert_eq!(decode_object(b""), Err(StoreError::Corrupt));
}

#[test]
fn object_id_from_hex() {
    let o = ObjectId::from_hex("ce013625030ba8dba906f756967f9e9ca394464a").unwrap();
    assert_eq!(o.bytes[0], 0xce);
    assert_eq!(o.bytes[19], 0x4a);
    assert_eq!(o.to_hex(), "ce013625030ba8dba906f756967f9e9ca394464a");
    let upper = ObjectId::from_hex("CE013625030BA8DBA906F756967F9E9CA394464A").unwrap();
    assert_eq!(upper, o);
    assert_eq!(ObjectId::from_bytes(o.bytes), o);
    assert_eq!(ObjectId::from_slice(&o.bytes), Some(o));
    assert_eq!(ObjectId::from_slice(&o.bytes[..19]), None);
}

#[test]
fn malformed_object_ids_are_rejected() {
    let cases = [
        "ce013625030ba8dba906f756967f9e9ca394464",
        "ce013625030ba8dba906f756967f9e9ca394464aa",
        "",
        "ce013625030ba8dba906f756967f9e9ca394464g",
        "ce013625030ba8dba906f756967f9e9ca39446 a",
        "ce013625030ba8dba906f756967f9e9ca39446\u{e9}",
    ];
    for c in cases {
        assert_eq!(ObjectId::from_hex(c), Err(StoreError::InvalidArgument));
    }
}
