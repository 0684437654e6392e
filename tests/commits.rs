use minigit::codec::ObjectKind;
use minigit::commit::{build_commit, commit_payload};
use minigit::oid::ObjectId;
use minigit::store::decode_object;

#[test]
fn commit_text_with_parent() {
    let tree = ObjectId::from_hex("4b825dc642cb6eb9a060e54bf8d69288fbee4904").unwrap();
    let parent = ObjectId::from_hex("ce013625030ba8dba906f756967f9e9ca394464a").unwrap();
    let text = commit_payload(&tree, Some(parent), b"A U Thor <a@example.com> 1700000000 +0100", b"C O Mitter <c@example.com> 1700000000 +0100", b"first");
    let expected = "tree 4b825dc642cb6eb9a060e54bf8d69288fbee4904\n\
parent ce013625030ba8dba906f756967f9e9ca394464a\n\
author A U Thor <a@example.com> 1700000000 +0100\n\
committer C O Mitter <c@example.com> 1700000000 +0100\n\
\n\
first\n";
    assert_eq!(String::from_utf8(text).unwrap(), expected);
}

#[test]
fn commit_text_without_parent() {
    let tree = ObjectId::from_hex("4b825dc642cb6eb9a060e54bf8d69288fbee4904").unwrap();
    let text = commit_payload(&tree, None, b"a", b"c", b"msg");
    assert_eq!(
        String::from_utf8(text).unwrap(),
        "tree 4b825dc642cb6eb9a060e54bf8d69288fbee4904\nauthor a\ncommitter c\n\nmsg\n"
    );
}

#[test]
fn commit_object_round_trip() {
    let tree = ObjectId::from_hex("4b825dc642cb6eb9a060e54bf8d69288fbee4904").unwrap();
    let stored = build_commit(&tree, None, b"a", b"c", b"msg");
    let (kind, payload) = decode_object(&stored.data).unwrap();
    assert_eq!(kind, ObjectKind::Commit);
    assert_eq!(payload, commit_payload(&tree, None, b"a", b"c", b"msg"));
}
