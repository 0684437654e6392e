//! Tree objects: the records `"<mode> <name>\0"` followed by a raw 20-byte
//! identifier, one per entry, and a single-pass parser for them.

use vstd::prelude::*;
use crate::codec::{bytes_equal, is_first, lemma_first_unique, ObjectKind};
use crate::error::StoreError;
use crate::oid::ObjectId;

verus! {

/// One entry of a tree, as a value.
pub struct EntryView {
    pub mode: Seq<u8>,
    pub name: Seq<u8>,
    pub oid: Seq<u8>,
}

/// One entry of a tree: its mode digits, its name, and the child identifier.
#[derive(Clone, Debug, PartialEq, Eq)]
pub struct TreeEntry {
    pub mode: Vec<u8>,
    pub name: Vec<u8>,
    pub oid: ObjectId,
}

impl View for TreeEntry {
    type V = EntryView;

    open spec fn view(&self) -> EntryView {
        EntryView { mode: self.mode@, name: self.name@, oid: self.oid@ }
    }
}

/// The values of a sequence of entries.
pub open spec fn entries_view(es: Seq<TreeEntry>) -> Seq<EntryView> {
    es.map_values(|e: TreeEntry| e@)
}

/// An entry that a tree can hold: no space in its mode, no NUL in its name,
/// and a 20-byte identifier.
pub open spec fn entry_wf(e: EntryView) -> bool {
    &&& forall|i: int| 0 <= i < e.mode.len() ==> #[trigger] e.mode[i] != 32
    &&& forall|i: int| 0 <= i < e.name.len() ==> #[trigger] e.name[i] != 0
    &&& e.oid.len() == 20
}

pub open spec fn entries_wf(es: Seq<EntryView>) -> bool {
    forall|i: int| 0 <= i < es.len() ==> entry_wf(#[trigger] es[i])
}

/// The record of one entry: mode, a space, name, a NUL, raw identifier.
pub open spec fn record(e: EntryView) -> Seq<u8> {
    e.mode + seq![32u8] + e.name + seq![0u8] + e.oid
}

/// The payload of a tree: the records of its entries, in order.
pub open spec fn serialize(es: Seq<EntryView>) -> Seq<u8>
    decreases es.len(),
{
    if es.len() == 0 {
        Seq::empty()
    } else {
        serialize(es.drop_last()) + record(es.last())
    }
}

pub proof fn lemma_serialize_front(es: Seq<EntryView>)
    requires
        es.len() > 0,
    ensures
        serialize(es) == record(es[0]) + serialize(es.drop_first()),
    decreases es.len(),
{
    if es.len() > 1 {
        lemma_serialize_front(es.drop_last());
        assert(es.drop_last().drop_first() =~= es.drop_first().drop_last());
        assert(es.drop_first().last() == es.last());
    } else {
        assert(es.drop_last() =~= Seq::<EntryView>::empty());
        assert(es.drop_first() =~= Seq::<EntryView>::empty());
        assert(serialize(es.drop_first()) =~= Seq::<u8>::empty());
    }
}

/// Where the delimiters of a record stand in any bytes that start with it.
proof fn lemma_record_delims(e: EntryView, t: Seq<u8>)
    requires
        entry_wf(e),
    ensures
        is_first(record(e) + t, 32, e.mode.len() as int),
        is_first(
            (record(e) + t).subrange(e.mode.len() as int + 1, (record(e) + t).len() as int),
            0,
            e.name.len() as int,
        ),
{
    let x = record(e) + t;
    let m = e.mode.len() as int;
    assert forall|j: int| 0 <= j < m implies x[j] != 32 by {
        assert(x[j] == e.mode[j]);
    }
    let y = x.subrange(m + 1, x.len() as int);
    assert forall|j: int| 0 <= j < e.name.len() implies y[j] != 0 by {
        assert(y[j] == e.name[j]);
    }
    assert(y[e.name.len() as int] == 0);
}

/// A well-formed record is read back exactly from any bytes that start with it.
proof fn lemma_record_unique(a: EntryView, b: EntryView, t1: Seq<u8>, t2: Seq<u8>)
    requires
        entry_wf(a),
        entry_wf(b),
        record(a) + t1 == record(b) + t2,
    ensures
        a == b,
        t1 == t2,
{
    let x = record(a) + t1;
    lemma_record_delims(a, t1);
    lemma_record_delims(b, t2);
    lemma_first_unique(x, 32, a.mode.len() as int, b.mode.len() as int);
    let m = a.mode.len() as int;
    let y = x.subrange(m + 1, x.len() as int);
    lemma_first_unique(y, 0, a.name.len() as int, b.name.len() as int);
    let n = a.name.len() as int;
    assert(a.mode =~= x.subrange(0, m));
    assert(b.mode =~= x.subrange(0, m));
    assert(a.name =~= x.subrange(m + 1, m + 1 + n));
    assert(b.name =~= x.subrange(m + 1, m + 1 + n));
    assert(a.oid =~= x.subrange(m + n + 2, m + n + 22));
    assert(b.oid =~= x.subrange(m + n + 2, m + n + 22));
    assert(t1 =~= x.subrange(m + n + 22, x.len() as int));
    assert(t2 =~= x.subrange(m + n + 22, x.len() as int));
}

/// When the payload of well-formed entries starts with the payload of other
/// well-formed entries, those are its first entries.
pub proof fn lemma_serialize_prefix(es: Seq<EntryView>, done: Seq<EntryView>, tail: Seq<u8>)
    requires
        entries_wf(es),
        entries_wf(done),
        serialize(es) == serialize(done) + tail,
    ensures
        done.len() <= es.len(),
        es.subrange(0, done.len() as int) == done,
        serialize(es.subrange(done.len() as int, es.len() as int)) == tail,
    decreases done.len(),
{
    if done.len() == 0 {
        assert(serialize(done) =~= Seq::<u8>::empty());
        assert(es.subrange(0, 0) =~= done);
        assert(es.subrange(0, es.len() as int) =~= es);
        assert(serialize(done) + tail =~= tail);
    } else {
        lemma_serialize_front(done);
        if es.len() == 0 {
            assert(serialize(es).len() == 0);
            assert(false);
        }
        lemma_serialize_front(es);
        assert(record(done[0]) + (serialize(done.drop_first()) + tail) =~= serialize(done) + tail);
        lemma_record_unique(es[0], done[0], serialize(es.drop_first()), serialize(done.drop_first()) + tail);
        lemma_serialize_prefix(es.drop_first(), done.drop_first(), tail);
        assert(es.subrange(0, done.len() as int) =~= seq![es[0]] + es.drop_first().subrange(0, done.len() - 1));
        assert(done =~= seq![done[0]] + done.drop_first());
        assert(es.subrange(done.len() as int, es.len() as int) =~= es.drop_first().subrange(
            done.len() - 1,
            es.len() - 1,
        ));
    }
}

/// Parsing the payload of well-formed entries gives back exactly those
/// entries: two sequences of well-formed entries with the same payload are
/// the same sequence.
pub proof fn lemma_tree_round_trip(a: Seq<EntryView>, b: Seq<EntryView>)
    requires
        entries_wf(a),
        entries_wf(b),
        serialize(a) == serialize(b),
    ensures
        a == b,
{
    assert(serialize(b) =~= serialize(a) + Seq::<u8>::empty());
    lemma_serialize_prefix(b, a, Seq::empty());
    let rest = b.subrange(a.len() as int, b.len() as int);
    if rest.len() > 0 {
        lemma_serialize_front(rest);
    }
    assert(b =~= a);
}

/// Where the parser stands inside the current record.
#[derive(Clone, Copy, Debug, PartialEq, Eq, Structural)]
pub enum ParseState {
    /// Reading mode digits, up to a space.
    Mode,
    /// Reading the name, up to a NUL.
    Name,
    /// Reading identifier bytes; the count read so far.
    Hash(usize),
}

/// What the bytes of the current record read so far say, in each state.
pub open spec fn partial_record(
    state: ParseState,
    mode: Seq<u8>,
    name: Seq<u8>,
    hash: Seq<u8>,
) -> Seq<u8> {
    match state {
        ParseState::Mode => mode,
        ParseState::Name => mode + seq![32u8] + name,
        ParseState::Hash(_) => mode + seq![32u8] + name + seq![0u8] + hash,
    }
}

pub open spec fn partial_wf(state: ParseState, mode: Seq<u8>, name: Seq<u8>, hash: Seq<u8>) -> bool {
    &&& forall|i: int| 0 <= i < mode.len() ==> #[trigger] mode[i] != 32
    &&& forall|i: int| 0 <= i < name.len() ==> #[trigger] name[i] != 0
    &&& match state {
        ParseState::Mode => name.len() == 0 && hash.len() == 0,
        ParseState::Name => hash.len() == 0,
        ParseState::Hash(c) => hash.len() == c && c < 20,
    }
}

/// Bytes that stop inside a record are no payload of well-formed entries.
proof fn lemma_partial_not_tree(
    done: Seq<EntryView>,
    s: Seq<u8>,
    state: ParseState,
    mode: Seq<u8>,
    name: Seq<u8>,
    hash: Seq<u8>,
)
    requires
        entries_wf(done),
        partial_wf(state, mode, name, hash),
        s == serialize(done) + partial_record(state, mode, name, hash),
        partial_record(state, mode, name, hash).len() > 0,
    ensures
        forall|es: Seq<EntryView>| entries_wf(es) ==> #[trigger] serialize(es) != s,
{
    let tail = partial_record(state, mode, name, hash);
    assert forall|es: Seq<EntryView>| entries_wf(es) implies #[trigger] serialize(es) != s by {
        if serialize(es) == s {
            lemma_serialize_prefix(es, done, tail);
            let rest = es.subrange(done.len() as int, es.len() as int);
            if rest.len() == 0 {
                assert(serialize(rest).len() == 0);
            } else {
                lemma_serialize_front(rest);
                let e = rest[0];
                assert(entry_wf(e));
                let t = serialize(rest.drop_first());
                lemma_record_delims(e, t);
                let m = e.mode.len() as int;
                assert(tail[m] == 32);
                if state == ParseState::Mode {
                    assert(mode[m] != 32);
                } else {
                    assert forall|j: int| 0 <= j < mode.len() implies tail[j] != 32 by {
                        assert(tail[j] == mode[j]);
                    }
                    lemma_first_unique(tail, 32, m, mode.len() as int);
                    let y = tail.subrange(m + 1, tail.len() as int);
                    let n = e.name.len() as int;
                    assert(y[n] == 0);
                    if state == ParseState::Name {
                        assert(y[n] == name[n]);
                    } else {
                        assert forall|j: int| 0 <= j < name.len() implies y[j] != 0 by {
                            assert(y[j] == name[j]);
                        }
                        assert(y[name.len() as int] == 0);
                        lemma_first_unique(y, 0, n, name.len() as int);
                        assert(record(e).len() == m + n + 22);
                        assert(tail.len() == m + n + 2 + hash.len());
                    }
                }
            }
        }
    }
}

/// The payload of a tree holding the given entries, in the given order.
pub fn serialize_tree(entries: &[TreeEntry]) -> (r: Vec<u8>)
    ensures
        r@ == serialize(entries_view(entries@)),
{
    let mut r: Vec<u8> = Vec::new();
    let mut i: usize = 0;
    while i < entries.len()
        invariant
            0 <= i <= entries@.len(),
            r@ == serialize(entries_view(entries@.subrange(0, i as int))),
        decreases entries@.len() - i,
    {
        let e = &entries[i];
        r.extend_from_slice(e.mode.as_slice());
        r.push(32u8);
        r.extend_from_slice(e.name.as_slice());
        r.push(0u8);
        r.extend_from_slice(e.oid.bytes.as_slice());
        assert(entries_view(entries@.subrange(0, i + 1)).drop_last() =~= entries_view(
            entries@.subrange(0, i as int),
        ));
        assert(r@ =~= serialize(entries_view(entries@.subrange(0, i + 1))));
        i = i + 1;
    }
    assert(entries@.subrange(0, entries@.len() as int) =~= entries@);
    r
}

/// Reads the payload of a tree into its entries, in stored order.
///
/// A space ends the mode, a NUL ends the name, and 20 bytes make the
/// identifier. Bytes that stop inside a record are `Corrupt`.
pub fn parse_tree(payload: &[u8]) -> (r: Result<Vec<TreeEntry>, StoreError>)
    ensures
        r matches Ok(es) ==> entries_wf(entries_view(es@)) && serialize(entries_view(es@))
            == payload@,
        r is Err ==> r == Err::<Vec<TreeEntry>, StoreError>(StoreError::Corrupt),
        r is Err ==> forall|es: Seq<EntryView>|
            entries_wf(es) ==> #[trigger] serialize(es) != payload@,
{
    let mut entries: Vec<TreeEntry> = Vec::new();
    let mut state = ParseState::Mode;
    let mut mode: Vec<u8> = Vec::new();
    let mut name: Vec<u8> = Vec::new();
    let mut hash: Vec<u8> = Vec::new();
    let mut start: usize = 0;
    let mut i: usize = 0;
    while i < payload.len()
        invariant
            0 <= start <= i <= payload@.len(),
            entries_wf(entries_view(entries@)),
            serialize(entries_view(entries@)) == payload@.subrange(0, start as int),
            partial_wf(state, mode@, name@, hash@),
            partial_record(state, mode@, name@, hash@) == payload@.subrange(start as int, i as int),
        decreases payload@.len() - i,
    {
        let b = payload[i];
        let ghost prev = payload@.subrange(start as int, i as int);
        assert(payload@.subrange(start as int, i + 1) =~= prev.push(b));
        match state {
            ParseState::Mode => {
                if b == 32u8 {
                    state = ParseState::Name;
                } else {
                    mode.push(b);
                }
                assert(partial_record(state, mode@, name@, hash@) =~= prev.push(b));
            },
            ParseState::Name => {
                if b == 0u8 {
                    state = ParseState::Hash(0);
                } else {
                    name.push(b);
                }
                assert(partial_record(state, mode@, name@, hash@) =~= prev.push(b));
            },
            ParseState::Hash(c) => {
                hash.push(b);
                if c + 1 == 20 {
                    let oid = match ObjectId::from_slice(hash.as_slice()) {
                        Some(o) => o,
                        None => return Err(StoreError::Corrupt),
                    };
                    let e = TreeEntry { mode, name, oid };
                    let ghost old_entries = entries@;
                    assert(record(e@) =~= prev.push(b));
                    entries.push(e);
                    assert(entries_view(entries@).drop_last() =~= entries_view(old_entries));
                    assert(entries_wf(entries_view(entries@))) by {
                        assert forall|k: int| 0 <= k < entries@.len() implies entry_wf(
                            #[trigger] entries_view(entries@)[k],
                        ) by {
                            if k < old_entries.len() {
                                assert(entries_view(entries@)[k] == entries_view(old_entries)[k]);
                            }
                        }
                    }
                    assert(payload@.subrange(0, i + 1) =~= payload@.subrange(0, start as int)
                        + payload@.subrange(start as int, i + 1));
                    mode = Vec::new();
                    name = Vec::new();
                    hash = Vec::new();
                    state = ParseState::Mode;
                    start = i + 1;
                    assert(partial_record(state, mode@, name@, hash@) =~= payload@.subrange(
                        start as int,
                        i + 1,
                    ));
                } else {
                    state = ParseState::Hash(c + 1);
                    assert(partial_record(state, mode@, name@, hash@) =~= prev.push(b));
                }
            },
        }
        i = i + 1;
    }
    assert(payload@ =~= payload@.subrange(0, start as int) + payload@.subrange(
        start as int,
        payload@.len() as int,
    ));
    let complete = match state {
        ParseState::Mode => mode.len() == 0,
        _ => false,
    };
    if complete {
        assert(payload@.subrange(0, start as int) =~= payload@);
        Ok(entries)
    } else {
        proof {
            lemma_partial_not_tree(entries_view(entries@), payload@, state, mode@, name@, hash@);
        }
        Err(StoreError::Corrupt)
    }
}

/// The mode written for a directory: `40000`.
pub open spec fn dir_mode() -> Seq<u8> {
    seq![52u8, 48u8, 48u8, 48u8, 48u8]
}

/// The mode written for a regular file: `100644`.
pub open spec fn file_mode() -> Seq<u8> {
    seq![49u8, 48u8, 48u8, 54u8, 52u8, 52u8]
}

pub fn dir_mode_bytes() -> (r: Vec<u8>)
    ensures
        r@ == dir_mode(),
{
    let r = vec![52u8, 48u8, 48u8, 48u8, 48u8];
    assert(r@ =~= dir_mode());
    r
}

pub fn file_mode_bytes() -> (r: Vec<u8>)
    ensures
        r@ == file_mode(),
{
    let r = vec![49u8, 48u8, 48u8, 54u8, 52u8, 52u8];
    assert(r@ =~= file_mode());
    r
}

impl TreeEntry {
    /// The kind of the child: a tree for the directory mode, else a blob.
    pub fn kind(&self) -> (r: ObjectKind)
        ensures
            r == (if self.mode@ == dir_mode() {
                ObjectKind::Tree
            } else {
                ObjectKind::Blob
            }),
    {
        let d = dir_mode_bytes();
        if bytes_equal(self.mode.as_slice(), d.as_slice()) {
            ObjectKind::Tree
        } else {
            ObjectKind::Blob
        }
    }

    /// The mode as listings show it: the directory mode padded to six
    /// digits (`040000`), any other mode as stored.
    pub fn display_mode(&self) -> (r: Vec<u8>)
        ensures
            r@ == (if self.mode@ == dir_mode() {
                seq![48u8] + dir_mode()
            } else {
                self.mode@
            }),
    {
        let d = dir_mode_bytes();
        if bytes_equal(self.mode.as_slice(), d.as_slice()) {
            let mut r = vec![48u8];
            r.extend_from_slice(d.as_slice());
            assert(r@ =~= seq![48u8] + dir_mode());
            r
        } else {
            self.mode.clone()
        }
    }
}

} // verus!
