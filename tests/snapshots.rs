use minigit::builder::{build_tree, snapshot_is_valid, DirEntry, IgnoreRules, Node};
use minigit::codec::ObjectKind;
use minigit::oid::ObjectId;
use minigit::store::{decode_object, encode_object, StoredObject};
use minigit::tree::{parse_tree, TreeEntry};

fn file(name: &str, content: &[u8]) -> DirEntry {
    DirEntry { name: name.as_bytes().to_vec(), node: Node::File(content.to_vec()) }
}

fn dir(name: &str, entries: Vec<DirEntry>) -> DirEntry {
    DirEntry { name: name.as_bytes().to_vec(), node: Node::Dir(entries) }
}

fn no_rules() -> IgnoreRules {
    IgnoreRules { patterns: vec![] }
}

fn find(objects: &[StoredObject], oid: &ObjectId) -> (ObjectKind, Vec<u8>) {
    let o = objects.iter().find(|o| &o.oid == oid).expect("object is among those built");
    decode_object(&o.data).unwrap()
}

fn root_entries(root: &Vec<DirEntry>, rules: &IgnoreRules) -> Vec<TreeEntry> {
    let built = build_tree(root, rules);
    let (kind, payload) = find(&built.objects, &built.root);
    assert_eq!(kind, ObjectKind::Tree);
    parse_tree(&payload).unwrap()
}

fn names(entries: &[TreeEntry]) -> Vec<Vec<u8>> {
    entries.iter().map(|e| e.name.clone()).collect()
}

#[test]
fn tree_entries_are_ordered_by_name() {
    let root = vec![file("b", b"2"), file("a", b"1"), file("c", b"3")];
    let entries = root_entries(&root, &no_rules());
    assert_eq!(names(&entries), vec![b"a".to_vec(), b"b".to_vec(), b"c".to_vec()]);
    assert_eq!(entries[0].oid, encode_object(ObjectKind::Blob, b"1").oid);
    assert_eq!(entries[0].mode, b"100644".to_vec());
}

#[test]
fn ignored_file_is_left_out() {
    let root = vec![file("secret.txt", b"pw"), file("notes.txt", b"hi"), dir(".git", vec![file("HEAD", b"x")])];
    let rules = IgnoreRules { patterns: vec![b"secret.txt".to_vec()] };
    let entries = root_entries(&root, &rules);
    assert_eq!(names(&entries), vec![b"notes.txt".to_vec()]);
}

#[test]
fn ignored_nested_path_is_left_out() {
    let root = vec![dir("src", vec![file("gen.rs", b"g"), file("lib.rs", b"l")])];
    let rules = IgnoreRules::parse(b"# generated\n/src/gen.rs\n");
    let built = build_tree(&root, &rules);
    let (_, payload) = find(&built.objects, &built.root);
    let top = parse_tree(&payload).unwrap();
    assert_eq!(names(&top), vec![b"src".to_vec()]);
    assert_eq!(top[0].mode, b"40000".to_vec());
    let (kind, sub) = find(&built.objects, &top[0].oid);
    assert_eq!(kind, ObjectKind::Tree);
    assert_eq!(names(&parse_tree(&sub).unwrap()), vec![b"lib.rs".to_vec()]);
}

#[test]
fn empty_directory_gives_the_empty_tree() {
    let built = build_tree(&vec![], &no_rules());
    assert_eq!(built.root.to_hex(), "4b825dc642cb6eb9a060e54bf8d69288fbee4904");
    assert_eq!(built.objects.len(), 1);
    let (kind, payload) = decode_object(&built.objects[0].data).unwrap();
    assert_eq!(kind, ObjectKind::Tree);
    assert_eq!(payload.len(), 0);
    let only_ignored = vec![file("a.log", b"x")];
    let rules = IgnoreRules::parse(b"a.log\n");
    assert_eq!(build_tree(&only_ignored, &rules).root, built.root);
}

#[test]
fn objects_come_before_the_trees_that_list_them() {
    let root = vec![dir("d", vec![file("f", b"data")]), file("top", b"t")];
    let built = build_tree(&root, &no_rules());
    assert_eq!(built.objects.len(), 4);
    assert_eq!(built.objects[0].oid, encode_object(ObjectKind::Blob, b"data").oid);
    assert_eq!(built.objects[3].oid, built.root);
}

#[test]
fn ignore_file_patterns() {
    let rules = IgnoreRules::parse(b"# comment\n/target/\n\nfoo\n/\nlogs/\nlast");
    assert_eq!(
        rules.patterns,
        vec![b"target".to_vec(), b"foo".to_vec(), b"logs".to_vec(), b"last".to_vec()]
    );
    assert!(rules.is_ignored(b"target"));
    assert!(rules.is_ignored(b".git"));
    assert!(!rules.is_ignored(b"src"));
    assert_eq!(IgnoreRules::parse(b"").patterns, Vec::<Vec<u8>>::new());
}

#[test]
fn snapshot_validity() {
    assert!(snapshot_is_valid(&vec![file("a", b""), dir("b", vec![file("a", b"")])]));
    assert!(!snapshot_is_valid(&vec![file("a", b""), file("a", b"x")]));
    assert!(!snapshot_is_valid(&vec![file("", b"")]));
    assert!(!snapshot_is_valid(&vec![file("a/b", b"")]));
    assert!(!snapshot_is_valid(&vec![dir("d", vec![file("x\0", b"")])]));
}
