//! Building tree objects from a snapshot of a directory: ignored paths are
//! left out, files become blobs, subdirectories become trees, and each tree
//! lists its entries by name.

use vstd::prelude::*;
use vstd::slice::{slice_subrange, slice_to_vec};
use crate::codec::{bytes_equal, first_index, is_first, lemma_first_index, ObjectKind};
use crate::oid::ObjectId;
use crate::order::{insert_by_name, is_name_sorting, lemma_sorted_by_name, names_sorted, sorted_by_name};
use crate::store::{encode_object, object_id, StoredObject};
use crate::tree::{
    dir_mode, dir_mode_bytes, entries_view, file_mode, file_mode_bytes, serialize, serialize_tree,
    EntryView, TreeEntry,
};

verus! {

/// What a directory entry is.
#[derive(Debug, PartialEq, Eq)]
pub enum Node {
    /// A regular file, with its content.
    File(Vec<u8>),
    /// A subdirectory, with its entries.
    Dir(Vec<DirEntry>),
}

/// One entry of a directory snapshot.
#[derive(Debug, PartialEq, Eq)]
pub struct DirEntry {
    pub name: Vec<u8>,
    pub node: Node,
}

/// The paths that tree building leaves out, relative to the root, with `/`
/// between components.
#[derive(Clone, Debug, PartialEq, Eq)]
pub struct IgnoreRules {
    pub patterns: Vec<Vec<u8>>,
}

impl View for IgnoreRules {
    type V = Seq<Seq<u8>>;

    open spec fn view(&self) -> Seq<Seq<u8>> {
        self.patterns@.map_values(|p: Vec<u8>| p@)
    }
}

/// The name of the storage directory at the root: `.git`.
pub open spec fn storage_dir_name() -> Seq<u8> {
    seq![46u8, 103u8, 105u8, 116u8]
}

/// The path of a child named `name` of the directory at `prefix` (the root
/// is the empty path).
pub open spec fn child_path(prefix: Seq<u8>, name: Seq<u8>) -> Seq<u8> {
    if prefix.len() == 0 {
        name
    } else {
        prefix + seq![47u8] + name
    }
}

/// A path that tree building leaves out: the storage directory, or a path
/// that a pattern names.
pub open spec fn is_ignored(path: Seq<u8>, patterns: Seq<Seq<u8>>) -> bool {
    path == storage_dir_name() || patterns.contains(path)
}

/// A name that a directory can hold: not empty, without NUL or `/`.
pub open spec fn name_wf(n: Seq<u8>) -> bool {
    &&& n.len() > 0
    &&& forall|i: int| 0 <= i < n.len() ==> #[trigger] n[i] != 0 && n[i] != 47
}

/// No two entries share a name.
pub open spec fn names_distinct(es: Seq<DirEntry>) -> bool {
    forall|i: int, j: int| 0 <= i < es.len() && 0 <= j < es.len() && i != j ==> #[trigger] es[i].name@ != #[trigger] es[j].name@
}

/// An entry of a well-formed snapshot.
pub open spec fn entry_ok(e: DirEntry) -> bool
    decreases e,
{
    name_wf(e.name@) && match e.node {
        Node::File(_) => true,
        Node::Dir(ch) => dir_wf(ch@),
    }
}

/// A well-formed snapshot: names are valid and distinct in each directory.
pub open spec fn dir_wf(es: Seq<DirEntry>) -> bool
    decreases es,
{
    names_distinct(es) && if es.len() == 0 {
        true
    } else {
        dir_wf(es.subrange(0, es.len() - 1)) && entry_ok(es[es.len() - 1])
    }
}

/// The tree entry that a directory entry becomes.
pub open spec fn entry_record(e: DirEntry, prefix: Seq<u8>, pats: Seq<Seq<u8>>) -> EntryView
    decreases e,
{
    match e.node {
        Node::File(content) => EntryView {
            mode: file_mode(),
            name: e.name@,
            oid: object_id(ObjectKind::Blob, content@),
        },
        Node::Dir(ch) => EntryView {
            mode: dir_mode(),
            name: e.name@,
            oid: object_id(
                ObjectKind::Tree,
                serialize(sorted_by_name(dir_records(ch@, child_path(prefix, e.name@), pats))),
            ),
        },
    }
}

/// The tree entries of the entries that are not ignored, in snapshot order.
pub open spec fn dir_records(es: Seq<DirEntry>, prefix: Seq<u8>, pats: Seq<Seq<u8>>) -> Seq<EntryView>
    decreases es,
{
    if es.len() == 0 {
        Seq::empty()
    } else {
        let e = es[es.len() - 1];
        let r = dir_records(es.subrange(0, es.len() - 1), prefix, pats);
        if is_ignored(child_path(prefix, e.name@), pats) {
            r
        } else {
            r.push(entry_record(e, prefix, pats))
        }
    }
}

/// The entries of the tree built for a directory, by name.
pub open spec fn tree_entries(es: Seq<DirEntry>, prefix: Seq<u8>, pats: Seq<Seq<u8>>) -> Seq<EntryView> {
    sorted_by_name(dir_records(es, prefix, pats))
}

/// The payload of the tree built for a directory.
pub open spec fn tree_payload(es: Seq<DirEntry>, prefix: Seq<u8>, pats: Seq<Seq<u8>>) -> Seq<u8> {
    serialize(tree_entries(es, prefix, pats))
}

/// The objects that building stores for one directory entry, in the order
/// they are made: a blob for a file; for a subdirectory, the objects of its
/// entries and then its tree.
pub open spec fn entry_objects(e: DirEntry, prefix: Seq<u8>, pats: Seq<Seq<u8>>) -> Seq<(ObjectKind, Seq<u8>)>
    decreases e,
{
    match e.node {
        Node::File(content) => seq![(ObjectKind::Blob, content@)],
        Node::Dir(ch) => {
            let path = child_path(prefix, e.name@);
            entries_objects(ch@, path, pats) + seq![(ObjectKind::Tree, tree_payload(ch@, path, pats))]
        },
    }
}

/// The objects of the entries that are not ignored, in snapshot order.
pub open spec fn entries_objects(es: Seq<DirEntry>, prefix: Seq<u8>, pats: Seq<Seq<u8>>) -> Seq<(ObjectKind, Seq<u8>)>
    decreases es,
{
    if es.len() == 0 {
        Seq::empty()
    } else {
        let e = es[es.len() - 1];
        let r = entries_objects(es.subrange(0, es.len() - 1), prefix, pats);
        if is_ignored(child_path(prefix, e.name@), pats) {
            r
        } else {
            r + entry_objects(e, prefix, pats)
        }
    }
}

/// The objects that building a directory stores: those of its entries, then
/// its own tree.
pub open spec fn dir_objects(es: Seq<DirEntry>, prefix: Seq<u8>, pats: Seq<Seq<u8>>) -> Seq<(ObjectKind, Seq<u8>)> {
    entries_objects(es, prefix, pats) + seq![(ObjectKind::Tree, tree_payload(es, prefix, pats))]
}

/// Each stored object is the stored form of the object listed at its place.
pub open spec fn objects_match(objs: Seq<StoredObject>, spec: Seq<(ObjectKind, Seq<u8>)>) -> bool {
    &&& objs.len() == spec.len()
    &&& forall|i: int| 0 <= i < objs.len() ==> #[trigger] objs[i].holds(spec[i].0, spec[i].1)
}

pub proof fn lemma_dir_wf_entries(es: Seq<DirEntry>)
    requires
        dir_wf(es),
    ensures
        forall|i: int| 0 <= i < es.len() ==> entry_ok(#[trigger] es[i]),
    decreases es.len(),
{
    if es.len() > 0 {
        let init = es.subrange(0, es.len() - 1);
        lemma_dir_wf_entries(init);
        assert forall|i: int| 0 <= i < es.len() implies entry_ok(#[trigger] es[i]) by {
            if i < es.len() - 1 {
                assert(es[i] == init[i]);
            }
        }
    }
}

pub proof fn lemma_dir_wf_from_entries(es: Seq<DirEntry>)
    requires
        names_distinct(es),
        forall|i: int| 0 <= i < es.len() ==> entry_ok(#[trigger] es[i]),
    ensures
        dir_wf(es),
    decreases es.len(),
{
    if es.len() > 0 {
        let init = es.subrange(0, es.len() - 1);
        assert forall|i: int, j: int|
            0 <= i < init.len() && 0 <= j < init.len() && i != j implies #[trigger] init[i].name@
            != #[trigger] init[j].name@ by {
            assert(init[i] == es[i] && init[j] == es[j]);
        }
        assert forall|i: int| 0 <= i < init.len() implies entry_ok(#[trigger] init[i]) by {
            assert(init[i] == es[i]);
        }
        lemma_dir_wf_from_entries(init);
    }
}

/// Whether a name can stand in a directory.
pub fn name_is_valid(n: &[u8]) -> (r: bool)
    ensures
        r == name_wf(n@),
{
    if n.len() == 0 {
        return false;
    }
    let mut i: usize = 0;
    while i < n.len()
        invariant
            0 <= i <= n@.len(),
            forall|k: int| 0 <= k < i ==> #[trigger] n@[k] != 0 && n@[k] != 47,
        decreases n@.len() - i,
    {
        if n[i] == 0u8 || n[i] == 47u8 {
            return false;
        }
        i = i + 1;
    }
    true
}

/// Whether a snapshot is well formed: every name is valid, and no two
/// entries of one directory share a name.
pub fn snapshot_is_valid(entries: &Vec<DirEntry>) -> (r: bool)
    ensures
        r == dir_wf(entries@),
    decreases entries@,
{
    let ghost es = entries@;
    let mut i: usize = 0;
    while i < entries.len()
        invariant
            0 <= i <= es.len(),
            es == entries@,
            forall|k: int| 0 <= k < i ==> entry_ok(#[trigger] es[k]),
            forall|a: int, b: int| 0 <= a < i && 0 <= b < es.len() && a != b ==> #[trigger] es[a].name@ != #[trigger] es[b].name@,
        decreases es.len() - i,
    {
        let e = &entries[i];
        if !name_is_valid(e.name.as_slice()) {
            proof {
                lemma_dir_wf_entries_if(es, i as int);
            }
            return false;
        }
        let ok = match &e.node {
            Node::File(_) => true,
            Node::Dir(children) => {
                assert(decreases_to!(es => children@));
                snapshot_is_valid(children)
            },
        };
        if !ok {
            proof {
                lemma_dir_wf_entries_if(es, i as int);
            }
            return false;
        }
        let mut j: usize = 0;
        while j < entries.len()
            invariant
                0 <= j <= es.len(),
                i < es.len(),
                es == entries@,
                forall|b: int| 0 <= b < j && b != i ==> es[i as int].name@ != #[trigger] es[b].name@,
            decreases es.len() - j,
        {
            if j != i && bytes_equal(entries[i].name.as_slice(), entries[j].name.as_slice()) {
                assert(!names_distinct(es)) by {
                    assert(es[i as int].name@ == es[j as int].name@);
                }
                return false;
            }
            j = j + 1;
        }
        i = i + 1;
    }
    proof {
        lemma_dir_wf_from_entries(es);
    }
    true
}

proof fn lemma_dir_wf_entries_if(es: Seq<DirEntry>, i: int)
    requires
        0 <= i < es.len(),
        !entry_ok(es[i]),
    ensures
        !dir_wf(es),
{
    if dir_wf(es) {
        lemma_dir_wf_entries(es);
    }
}

/// The pattern that one line of an ignore file gives: none for an empty
/// line or a comment (a line starting with `#`); otherwise the line without
/// one leading and one trailing `/`, unless nothing is left.
pub open spec fn line_pattern(line: Seq<u8>) -> Option<Seq<u8>> {
    if line.len() == 0 || line[0] == 35 {
        None
    } else {
        let a = if line[0] == 47 {
            line.drop_first()
        } else {
            line
        };
        let b = if a.len() > 0 && a.last() == 47 {
            a.drop_last()
        } else {
            a
        };
        if b.len() == 0 {
            None
        } else {
            Some(b)
        }
    }
}

pub open spec fn pattern_list(p: Option<Seq<u8>>) -> Seq<Seq<u8>> {
    match p {
        Some(x) => seq![x],
        None => Seq::empty(),
    }
}

/// The patterns of an ignore file, one per line (lines end at a newline),
/// in order.
pub open spec fn ignore_patterns(text: Seq<u8>) -> Seq<Seq<u8>>
    decreases text.len(),
{
    match first_index(text, 10) {
        Some(i) => if 0 <= i < text.len() {
            pattern_list(line_pattern(text.subrange(0, i))) + ignore_patterns(
                text.subrange(i + 1, text.len() as int),
            )
        } else {
            Seq::empty()
        },
        None => pattern_list(line_pattern(text)),
    }
}

/// The pattern of one line.
pub fn line_pattern_of(line: &[u8]) -> (r: Option<Vec<u8>>)
    ensures
        r is Some <==> line_pattern(line@) is Some,
        r matches Some(v) ==> line_pattern(line@) == Some(v@),
{
    if line.len() == 0 || line[0] == 35u8 {
        return None;
    }
    let mut from: usize = 0;
    if line[0] == 47u8 {
        from = 1;
    }
    let mut to: usize = line.len();
    if to > from && line[to - 1] == 47u8 {
        to = to - 1;
    }
    if to == from {
        return None;
    }
    let v = slice_to_vec(slice_subrange(line, from, to));
    proof {
        let a = if line@[0] == 47 {
            line@.drop_first()
        } else {
            line@
        };
        assert(a =~= line@.subrange(from as int, line@.len() as int));
        if a.len() > 0 && a.last() == 47 {
            assert(a.drop_last() =~= v@);
        } else {
            assert(a =~= v@);
        }
    }
    Some(v)
}

/// The path of the child `name` of the directory at `prefix`.
pub fn child_path_of(prefix: &[u8], name: &[u8]) -> (r: Vec<u8>)
    ensures
        r@ == child_path(prefix@, name@),
{
    let mut r: Vec<u8> = Vec::new();
    if prefix.len() > 0 {
        r.extend_from_slice(prefix);
        r.push(47u8);
    }
    r.extend_from_slice(name);
    assert(r@ =~= child_path(prefix@, name@));
    r
}

impl IgnoreRules {
    /// The rules that an ignore file gives.
    pub fn parse(text: &[u8]) -> (r: IgnoreRules)
        ensures
            r@ == ignore_patterns(text@),
    {
        let mut patterns: Vec<Vec<u8>> = Vec::new();
        let mut start: usize = 0;
        let mut i: usize = 0;
        assert(text@.subrange(0, text@.len() as int) =~= text@);
        assert(patterns@.map_values(|p: Vec<u8>| p@) + ignore_patterns(text@) =~= ignore_patterns(text@));
        while i < text.len()
            invariant
                0 <= start <= i <= text@.len(),
                forall|j: int| start <= j < i ==> text@[j] != 10,
                patterns@.map_values(|p: Vec<u8>| p@) + ignore_patterns(
                    text@.subrange(start as int, text@.len() as int),
                ) == ignore_patterns(text@),
            decreases text@.len() - i,
        {
            if text[i] == 10u8 {
                let ghost rest = text@.subrange(start as int, text@.len() as int);
                let ghost k = i - start;
                proof {
                    assert forall|j: int| 0 <= j < k implies rest[j] != 10 by {
                        assert(rest[j] == text@[start + j]);
                    }
                    lemma_first_index(rest, 10, k);
                    assert(rest.subrange(0, k) =~= text@.subrange(start as int, i as int));
                    assert(rest.subrange(k + 1, rest.len() as int) =~= text@.subrange(
                        i + 1,
                        text@.len() as int,
                    ));
                }
                let ghost before = patterns@.map_values(|p: Vec<u8>| p@);
                match line_pattern_of(slice_subrange(text, start, i)) {
                    Some(v) => {
                        patterns.push(v);
                        assert(patterns@.map_values(|p: Vec<u8>| p@) =~= before + pattern_list(
                            line_pattern(text@.subrange(start as int, i as int)),
                        ));
                    },
                    None => {
                        assert(before + pattern_list(line_pattern(text@.subrange(start as int, i as int)))
                            =~= before);
                    },
                }
                start = i + 1;
            }
            i = i + 1;
        }
        let ghost rest = text@.subrange(start as int, text@.len() as int);
        proof {
            assert forall|j: int| 0 <= j < rest.len() implies rest[j] != 10 by {
                assert(rest[j] == text@[start + j]);
            }
            if exists|k: int| is_first(rest, 10, k) {
                let k = choose|k: int| is_first(rest, 10, k);
                assert(rest[k] != 10);
            }
        }
        let ghost before = patterns@.map_values(|p: Vec<u8>| p@);
        match line_pattern_of(slice_subrange(text, start, text.len())) {
            Some(v) => {
                patterns.push(v);
                assert(patterns@.map_values(|p: Vec<u8>| p@) =~= before + pattern_list(line_pattern(rest)));
            },
            None => {
                assert(before + pattern_list(line_pattern(rest)) =~= before);
            },
        }
        IgnoreRules { patterns }
    }

    /// Whether tree building leaves out the given path.
    pub fn is_ignored(&self, path: &[u8]) -> (r: bool)
        ensures
            r == is_ignored(path@, self@),
    {
        let git = vec![46u8, 103u8, 105u8, 116u8];
        assert(git@ =~= storage_dir_name());
        if bytes_equal(path, git.as_slice()) {
            return true;
        }
        let mut i: usize = 0;
        while i < self.patterns.len()
            invariant
                0 <= i <= self.patterns@.len(),
                forall|k: int| 0 <= k < i ==> self@[k] != path@,
            decreases self.patterns@.len() - i,
        {
            if bytes_equal(self.patterns[i].as_slice(), path) {
                assert(self@[i as int] == path@);
                return true;
            }
            i = i + 1;
        }
        assert(!self@.contains(path@));
        false
    }
}

fn build_dir(
    entries: &Vec<DirEntry>,
    prefix: &Vec<u8>,
    rules: &IgnoreRules,
    out: &mut Vec<StoredObject>,
) -> (r: ObjectId)
    requires
        dir_wf(entries@),
    ensures
        r@ == object_id(ObjectKind::Tree, tree_payload(entries@, prefix@, rules@)),
        is_name_sorting(tree_entries(entries@, prefix@, rules@), dir_records(entries@, prefix@, rules@)),
        final(out)@.len() == old(out)@.len() + dir_objects(entries@, prefix@, rules@).len(),
        final(out)@.subrange(0, old(out)@.len() as int) == old(out)@,
        objects_match(
            final(out)@.subrange(old(out)@.len() as int, final(out)@.len() as int),
            dir_objects(entries@, prefix@, rules@),
        ),
    decreases entries@,
{
    let ghost pats = rules@;
    let ghost es = entries@;
    let ghost base = out@;
    proof {
        lemma_dir_wf_entries(es);
    }
    let mut sorted: Vec<TreeEntry> = Vec::new();
    let mut i: usize = 0;
    assert(out@.subrange(base.len() as int, out@.len() as int) =~= Seq::<StoredObject>::empty());
    assert(es.subrange(0, 0) =~= Seq::<DirEntry>::empty());
    while i < entries.len()
        invariant
            0 <= i <= es.len(),
            es == entries@,
            pats == rules@,
            dir_wf(es),
            forall|k: int| 0 <= k < es.len() ==> entry_ok(#[trigger] es[k]),
            names_sorted(entries_view(sorted@)),
            forall|x: EntryView| entries_view(sorted@).contains(x) <==> dir_records(es.subrange(0, i as int), prefix@, pats).contains(x),
            forall|m: int| 0 <= m < sorted@.len() ==> exists|k: int| 0 <= k < i && #[trigger] sorted@[m].name@ == es[k].name@,
            out@.len() == base.len() + entries_objects(es.subrange(0, i as int), prefix@, pats).len(),
            out@.subrange(0, base.len() as int) == base,
            objects_match(out@.subrange(base.len() as int, out@.len() as int), entries_objects(es.subrange(0, i as int), prefix@, pats)),
        decreases es.len() - i,
    {
        let e = &entries[i];
        let ghost sub = es.subrange(0, i + 1);
        assert(sub.subrange(0, i as int) =~= es.subrange(0, i as int));
        assert(sub[i as int] == es[i as int]);
        let path = child_path_of(prefix.as_slice(), e.name.as_slice());
        if !rules.is_ignored(path.as_slice()) {
            let ghost before = out@;
            let rec = match &e.node {
                Node::File(content) => {
                    let so = encode_object(ObjectKind::Blob, content.as_slice());
                    let oid = so.oid;
                    out.push(so);
                    TreeEntry { mode: file_mode_bytes(), name: e.name.clone(), oid }
                },
                Node::Dir(children) => {
                    assert(decreases_to!(es => children@));
                    let oid = build_dir(children, &path, rules, out);
                    TreeEntry { mode: dir_mode_bytes(), name: e.name.clone(), oid }
                },
            };
            assert(rec.name@ =~= e.name@);
            assert(rec@ == entry_record(es[i as int], prefix@, pats));
            assert forall|k: int| 0 <= k < sorted@.len() implies sorted@[k].name@ != rec.name@ by {
                let j = choose|j: int| 0 <= j < i && #[trigger] sorted@[k].name@ == es[j].name@;
                assert(es[j].name@ != es[i as int].name@);
            }
            let ghost prev_sorted = sorted@;
            let ghost rv = rec@;
            insert_by_name(&mut sorted, rec);
            let ghost dr = dir_records(es.subrange(0, i as int), prefix@, pats);
            assert(dir_records(sub, prefix@, pats) == dr.push(rv));
            assert forall|x: EntryView| entries_view(sorted@).contains(x) <==> dr.push(rv).contains(x) by {
                if dr.push(rv).contains(x) {
                    let j = choose|j: int| 0 <= j < dr.len() + 1 && dr.push(rv)[j] == x;
                    if j < dr.len() {
                        assert(dr[j] == x);
                    }
                }
                if dr.contains(x) {
                    let j = choose|j: int| 0 <= j < dr.len() && dr[j] == x;
                    assert(dr.push(rv)[j] == x);
                }
                if x == rv {
                    assert(dr.push(rv)[dr.len() as int] == x);
                }
            }
            assert forall|m: int| 0 <= m < sorted@.len() implies exists|k: int| 0 <= k < i + 1 && #[trigger] sorted@[m].name@ == es[k].name@ by {
                if sorted@[m].name@ == es[i as int].name@ {
                } else {
                    let j = choose|j: int| 0 <= j < prev_sorted.len() && prev_sorted[j].name@ == #[trigger] sorted@[m].name@;
                    let k = choose|k: int| 0 <= k < i && #[trigger] prev_sorted[j].name@ == es[k].name@;
                }
            }
            assert(out@.subrange(0, base.len() as int) =~= base) by {
                assert(out@.subrange(0, before.len() as int).subrange(0, base.len() as int) =~= out@.subrange(0, base.len() as int));
            }
            let ghost added = entry_objects(es[i as int], prefix@, pats);
            assert(out@.subrange(base.len() as int, out@.len() as int) =~= before.subrange(base.len() as int, before.len() as int) + out@.subrange(before.len() as int, out@.len() as int));
            assert(entries_objects(sub, prefix@, pats) == entries_objects(es.subrange(0, i as int), prefix@, pats) + added);
            assert(objects_match(out@.subrange(before.len() as int, out@.len() as int), added));
            assert(objects_match(out@.subrange(base.len() as int, out@.len() as int), entries_objects(sub, prefix@, pats)));
        } else {
            assert(dir_records(sub, prefix@, pats) == dir_records(es.subrange(0, i as int), prefix@, pats));
        }
        i = i + 1;
    }
    assert(es.subrange(0, es.len() as int) =~= es);
    proof {
        lemma_sorted_by_name(entries_view(sorted@), dir_records(es, prefix@, pats));
    }
    let payload = serialize_tree(sorted.as_slice());
    let so = encode_object(ObjectKind::Tree, payload.as_slice());
    let oid = so.oid;
    let ghost before = out@;
    out.push(so);
    assert(out@.subrange(0, base.len() as int) =~= base) by {
        assert(out@.subrange(0, before.len() as int) =~= before);
    }
    assert(out@.subrange(base.len() as int, out@.len() as int) =~= before.subrange(base.len() as int, before.len() as int).push(so));
    oid
}

/// The entries of a directory that are not ignored are exactly those that
/// become tree entries.
pub proof fn lemma_dir_records_members(es: Seq<DirEntry>, prefix: Seq<u8>, pats: Seq<Seq<u8>>)
    ensures
        forall|x: EntryView| #[trigger] dir_records(es, prefix, pats).contains(x) ==> exists|k: int|
            0 <= k < es.len() && !is_ignored(child_path(prefix, es[k].name@), pats) && x
                == entry_record(#[trigger] es[k], prefix, pats),
        forall|k: int|
            0 <= k < es.len() && !is_ignored(child_path(prefix, es[k].name@), pats) ==> dir_records(
                es,
                prefix,
                pats,
            ).contains(entry_record(#[trigger] es[k], prefix, pats)),
    decreases es.len(),
{
    if es.len() > 0 {
        let init = es.subrange(0, es.len() - 1);
        let last = es.len() - 1;
        lemma_dir_records_members(init, prefix, pats);
        let r = dir_records(init, prefix, pats);
        let d = dir_records(es, prefix, pats);
        assert forall|x: EntryView| #[trigger] d.contains(x) implies exists|k: int|
            0 <= k < es.len() && !is_ignored(child_path(prefix, es[k].name@), pats) && x
                == entry_record(#[trigger] es[k], prefix, pats) by {
            let j = choose|j: int| 0 <= j < d.len() && d[j] == x;
            if j < r.len() {
                assert(r[j] == x);
                assert(r.contains(x));
                let k = choose|k: int|
                    0 <= k < init.len() && !is_ignored(child_path(prefix, init[k].name@), pats) && x
                        == entry_record(#[trigger] init[k], prefix, pats);
                assert(es[k] == init[k]);
            } else {
                assert(x == entry_record(es[last], prefix, pats));
            }
        }
        assert forall|k: int|
            0 <= k < es.len() && !is_ignored(child_path(prefix, es[k].name@), pats) implies d.contains(
                entry_record(#[trigger] es[k], prefix, pats),
            ) by {
            if k < last {
                assert(es[k] == init[k]);
                assert(r.contains(entry_record(init[k], prefix, pats)));
                let j = choose|j: int| 0 <= j < r.len() && r[j] == entry_record(init[k], prefix, pats);
                assert(d[j] == r[j]);
            } else {
                assert(d[r.len() as int] == entry_record(es[k], prefix, pats));
            }
        }
    }
}

/// A directory whose entries are all ignored (or that has none) gives a
/// tree with an empty payload, whose identifier is therefore always the same.
pub proof fn lemma_empty_tree(es: Seq<DirEntry>, prefix: Seq<u8>, pats: Seq<Seq<u8>>)
    requires
        forall|k: int| 0 <= k < es.len() ==> is_ignored(child_path(prefix, #[trigger] es[k].name@), pats),
    ensures
        tree_entries(es, prefix, pats).len() == 0,
        tree_payload(es, prefix, pats).len() == 0,
        object_id(ObjectKind::Tree, tree_payload(es, prefix, pats)) == object_id(ObjectKind::Tree, Seq::empty()),
{
    lemma_dir_records_members(es, prefix, pats);
    let d = dir_records(es, prefix, pats);
    if d.len() > 0 {
        assert(d.contains(d[0]));
    }
    let e = Seq::<EntryView>::empty();
    lemma_sorted_by_name(e, d);
    assert(serialize(e) =~= Seq::<u8>::empty());
}

/// What building a tree gives: the identifier of the root tree, and every
/// object to store, each tree after the objects it lists.
pub struct TreeBuild {
    pub root: ObjectId,
    pub objects: Vec<StoredObject>,
}

/// Builds the tree objects of a directory snapshot.
///
/// Entries whose path is ignored are left out (the storage directory
/// always is); files become blobs with mode `100644`, subdirectories become
/// trees with mode `40000`, and each tree lists its entries by byte-wise
/// order of name.
pub fn build_tree(root: &Vec<DirEntry>, rules: &IgnoreRules) -> (r: TreeBuild)
    requires
        dir_wf(root@),
    ensures
        r.root@ == object_id(ObjectKind::Tree, tree_payload(root@, Seq::empty(), rules@)),
        objects_match(r.objects@, dir_objects(root@, Seq::empty(), rules@)),
        names_sorted(tree_entries(root@, Seq::empty(), rules@)),
        forall|k: int|
            0 <= k < root@.len() && is_ignored(#[trigger] root@[k].name@, rules@) ==> forall|m: int|
                0 <= m < tree_entries(root@, Seq::empty(), rules@).len() ==> (#[trigger] tree_entries(
                    root@,
                    Seq::empty(),
                    rules@,
                )[m]).name != root@[k].name@,
        forall|k: int|
            0 <= k < root@.len() && !is_ignored(#[trigger] root@[k].name@, rules@) ==> tree_entries(
                root@,
                Seq::empty(),
                rules@,
            ).contains(entry_record(root@[k], Seq::empty(), rules@)),
{
    let prefix: Vec<u8> = Vec::new();
    let mut objects: Vec<StoredObject> = Vec::new();
    let oid = build_dir(root, &prefix, rules, &mut objects);
    let ghost es = root@;
    let ghost p = Seq::<u8>::empty();
    let ghost pats = rules@;
    proof {
        assert(prefix@ =~= p);
        assert(objects@.subrange(0, objects@.len() as int) =~= objects@);
        lemma_dir_records_members(es, p, pats);
        let t = tree_entries(es, p, pats);
        let d = dir_records(es, p, pats);
        assert forall|k: int|
            0 <= k < es.len() && is_ignored(#[trigger] es[k].name@, pats) implies forall|m: int|
                0 <= m < t.len() ==> (#[trigger] t[m]).name != es[k].name@ by {
            assert forall|m: int| 0 <= m < t.len() implies (#[trigger] t[m]).name != es[k].name@ by {
                assert(t.contains(t[m]));
                assert(d.contains(t[m]));
                let j = choose|j: int|
                    0 <= j < es.len() && !is_ignored(child_path(p, es[j].name@), pats) && t[m]
                        == entry_record(#[trigger] es[j], p, pats);
                assert(j != k);
            }
        }
    }
    TreeBuild { root: oid, objects }
}

} // verus!
