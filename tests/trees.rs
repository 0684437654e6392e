use minigit::codec::ObjectKind;
use minigit::error::StoreError;
use minigit::oid::ObjectId;
use minigit::order::bytes_less;
use minigit::tree::{parse_tree, serialize_tree, TreeEntry};

fn oid(fill: u8) -> ObjectId {
    ObjectId::from_bytes([fill; 20])
}

fn entry(mode: &[u8], name: &[u8], fill: u8) -> TreeEntry {
    TreeEntry { mode: mode.to_vec(), name: name.to_vec(), oid: oid(fill) }
}

#[test]
fn tree_serialization_layout() {
    let entries = vec![entry(b"100644", b"a.txt", 1)];
    let mut expected = b"100644 a.txt\0".to_vec();
    expected.extend_from_slice(&[1u8; 20]);
    assert_eq!(serialize_tree(&entries), expected);
}

#[test]
fn tree_round_trip() {
    let entries = vec![
        entry(b"40000", b"dir", 7),
        entry(b"100644", b"file with space", 0),
        entry(b"100755", b"run.sh", 32),
        entry(b"100644", b"z", 255),
    ];
    let bytes = serialize_tree(&entries);
    assert_eq!(parse_tree(&bytes), Ok(entries));
}

#[test]
fn empty_tree_payload_parses_to_nothing() {
    assert_eq!(parse_tree(b""), Ok(vec![]));
    assert_eq!(serialize_tree(&[]), Vec::<u8>::new());
}

#[test]
fn truncated_tree_is_corrupt() {
    let entries = vec![entry(b"100644", b"a", 3), entry(b"40000", b"b", 4)];
    let bytes = serialize_tree(&entries);
    for cut in [1usize, 7, 8, 9, 20, 28, bytes.len() - 1] {
        assert_eq!(parse_tree(&bytes[..cut]), Err(StoreError::Corrupt));
    }
    assert_eq!(parse_tree(b"100644"), Err(StoreError::Corrupt));
    assert_eq!(parse_tree(b"100644 name"), Err(StoreError::Corrupt));
    assert_eq!(parse_tree(b"100644 name\0abc"), Err(StoreError::Corrupt));
}

#[test]
fn entry_kind_and_display_mode() {
    let d = entry(b"40000", b"src", 1);
    assert_eq!(d.kind(), ObjectKind::Tree);
    assert_eq!(d.display_mode(), b"040000".to_vec());
    let f = entry(b"100644", b"main.rs", 2);
    assert_eq!(f.kind(), ObjectKind::Blob);
    assert_eq!(f.display_mode(), b"100644".to_vec());
}

#[test]
fn byte_order_of_names() {
    assert!(bytes_less(b"a", b"b"));
    assert!(!bytes_less(b"b", b"a"));
    assert!(bytes_less(b"a", b"a.txt"));
    assert!(bytes_less(b"B", b"a"));
    assert!(!bytes_less(b"same", b"same"));
    assert!(bytes_less(b"", b"x"));
}
