//! Byte-wise order of names, and entry sequences kept sorted by it.

use vstd::prelude::*;
use crate::tree::{EntryView, TreeEntry, entries_view};

verus! {

/// `a` comes strictly before `b` in byte-wise lexicographic order.
pub open spec fn bytes_lt(a: Seq<u8>, b: Seq<u8>) -> bool
    decreases a.len(),
{
    if a.len() == 0 {
        b.len() > 0
    } else if b.len() == 0 {
        false
    } else if a[0] != b[0] {
        a[0] < b[0]
    } else {
        bytes_lt(a.drop_first(), b.drop_first())
    }
}

pub proof fn lemma_bytes_lt_irreflexive(a: Seq<u8>)
    ensures
        !bytes_lt(a, a),
    decreases a.len(),
{
    if a.len() > 0 {
        lemma_bytes_lt_irreflexive(a.drop_first());
    }
}

pub proof fn lemma_bytes_lt_transitive(a: Seq<u8>, b: Seq<u8>, c: Seq<u8>)
    requires
        bytes_lt(a, b),
        bytes_lt(b, c),
    ensures
        bytes_lt(a, c),
    decreases a.len(),
{
    if a.len() > 0 && b.len() > 0 && c.len() > 0 && a[0] == b[0] && b[0] == c[0] {
        lemma_bytes_lt_transitive(a.drop_first(), b.drop_first(), c.drop_first());
    }
}

pub proof fn lemma_bytes_lt_total(a: Seq<u8>, b: Seq<u8>)
    requires
        a != b,
    ensures
        bytes_lt(a, b) || bytes_lt(b, a),
    decreases a.len(),
{
    if a.len() > 0 && b.len() > 0 && a[0] == b[0] {
        if a.drop_first() == b.drop_first() {
            assert(a =~= seq![a[0]] + a.drop_first());
            assert(b =~= seq![b[0]] + b.drop_first());
        }
        lemma_bytes_lt_total(a.drop_first(), b.drop_first());
    } else if a.len() == 0 && b.len() == 0 {
        assert(a =~= b);
    }
}

pub proof fn lemma_bytes_lt_asymmetric(a: Seq<u8>, b: Seq<u8>)
    requires
        bytes_lt(a, b),
    ensures
        !bytes_lt(b, a),
{
    if bytes_lt(b, a) {
        lemma_bytes_lt_transitive(a, b, a);
        lemma_bytes_lt_irreflexive(a);
    }
}

/// Whether `a` comes strictly before `b`, byte by byte.
pub fn bytes_less(a: &[u8], b: &[u8]) -> (r: bool)
    ensures
        r == bytes_lt(a@, b@),
{
    let mut i: usize = 0;
    assert(a@.subrange(0, a@.len() as int) =~= a@);
    assert(b@.subrange(0, b@.len() as int) =~= b@);
    while i < a.len() && i < b.len()
        invariant
            0 <= i <= a@.len(),
            i <= b@.len(),
            bytes_lt(a@, b@) == bytes_lt(a@.subrange(i as int, a@.len() as int), b@.subrange(i as int, b@.len() as int)),
        decreases a@.len() - i,
    {
        let x = a[i];
        let y = b[i];
        let ghost sa = a@.subrange(i as int, a@.len() as int);
        let ghost sb = b@.subrange(i as int, b@.len() as int);
        if x != y {
            return x < y;
        }
        assert(sa.drop_first() =~= a@.subrange(i + 1, a@.len() as int));
        assert(sb.drop_first() =~= b@.subrange(i + 1, b@.len() as int));
        i = i + 1;
    }
    i < b.len()
}

/// Names strictly increase along the sequence.
pub open spec fn names_sorted(s: Seq<EntryView>) -> bool {
    forall|i: int, j: int| 0 <= i < j < s.len() ==> bytes_lt(#[trigger] s[i].name, #[trigger] s[j].name)
}

/// `s` holds the entries of `rs`, by strictly increasing name.
pub open spec fn is_name_sorting(s: Seq<EntryView>, rs: Seq<EntryView>) -> bool {
    &&& names_sorted(s)
    &&& forall|x: EntryView| s.contains(x) <==> rs.contains(x)
}

/// The entries of `rs` ordered by name.
pub open spec fn sorted_by_name(rs: Seq<EntryView>) -> Seq<EntryView> {
    choose|s: Seq<EntryView>| is_name_sorting(s, rs)
}

/// There is one ordering of a set of entries by strictly increasing name.
pub proof fn lemma_sorting_unique(s: Seq<EntryView>, t: Seq<EntryView>)
    requires
        names_sorted(s),
        names_sorted(t),
        forall|x: EntryView| s.contains(x) <==> t.contains(x),
    ensures
        s == t,
    decreases s.len(),
{
    if s.len() == 0 {
        if t.len() > 0 {
            assert(t.contains(t[0]));
        }
        assert(s =~= t);
    } else {
        assert(s.contains(s[0]));
        assert(t.len() > 0);
        assert(t.contains(t[0]));
        let k = choose|k: int| 0 <= k < t.len() && t[k] == s[0];
        let j = choose|j: int| 0 <= j < s.len() && s[j] == t[0];
        if k > 0 {
            assert(bytes_lt(t[0].name, t[k].name));
            if j > 0 {
                assert(bytes_lt(s[0].name, s[j].name));
                lemma_bytes_lt_asymmetric(s[0].name, s[j].name);
            } else {
                lemma_bytes_lt_irreflexive(s[0].name);
            }
        }
        let s1 = s.drop_first();
        let t1 = t.drop_first();
        assert forall|x: EntryView| s1.contains(x) <==> t1.contains(x) by {
            if s1.contains(x) {
                let i = choose|i: int| 0 <= i < s1.len() && s1[i] == x;
                assert(s[i + 1] == x);
                assert(bytes_lt(s[0].name, x.name));
                lemma_bytes_lt_irreflexive(x.name);
                assert(t.contains(x));
                let m = choose|m: int| 0 <= m < t.len() && t[m] == x;
                assert(m != 0);
                assert(t1[m - 1] == x);
            }
            if t1.contains(x) {
                let i = choose|i: int| 0 <= i < t1.len() && t1[i] == x;
                assert(t[i + 1] == x);
                assert(bytes_lt(t[0].name, x.name));
                lemma_bytes_lt_irreflexive(x.name);
                assert(s.contains(x));
                let m = choose|m: int| 0 <= m < s.len() && s[m] == x;
                assert(m != 0);
                assert(s1[m - 1] == x);
            }
        }
        lemma_sorting_unique(s1, t1);
        assert(s =~= seq![s[0]] + s1);
        assert(t =~= seq![t[0]] + t1);
    }
}

/// A sorting, when one is found, is the one `sorted_by_name` names.
pub proof fn lemma_sorted_by_name(s: Seq<EntryView>, rs: Seq<EntryView>)
    requires
        is_name_sorting(s, rs),
    ensures
        sorted_by_name(rs) == s,
{
    let c = sorted_by_name(rs);
    assert(is_name_sorting(c, rs));
    lemma_sorting_unique(c, s);
}

/// Puts `e` into `sorted` at the place that its name takes; its name must
/// not be there yet.
pub fn insert_by_name(sorted: &mut Vec<TreeEntry>, e: TreeEntry)
    requires
        names_sorted(entries_view(old(sorted)@)),
        forall|k: int| 0 <= k < old(sorted)@.len() ==> old(sorted)@[k].name@ != e.name@,
    ensures
        names_sorted(entries_view(final(sorted)@)),
        forall|x: EntryView| entries_view(final(sorted)@).contains(x) <==> (entries_view(old(sorted)@).contains(x) || x == e@),
        forall|k: int| 0 <= k < final(sorted)@.len() ==> (exists|j: int| 0 <= j < old(sorted)@.len() && old(sorted)@[j].name@ == #[trigger] final(sorted)@[k].name@) || final(sorted)@[k].name@ == e.name@,
{
    let ghost old_v = entries_view(sorted@);
    let mut p: usize = 0;
    while p < sorted.len() && !bytes_less(e.name.as_slice(), sorted[p].name.as_slice())
        invariant
            0 <= p <= sorted@.len(),
            sorted@ == old(sorted)@,
            old_v == entries_view(sorted@),
            forall|k: int| 0 <= k < p ==> bytes_lt(#[trigger] old_v[k].name, e.name@),
            names_sorted(old_v),
            forall|k: int| 0 <= k < old(sorted)@.len() ==> old(sorted)@[k].name@ != e.name@,
        decreases sorted@.len() - p,
    {
        proof {
            assert(old_v[p as int].name == sorted@[p as int].name@);
            lemma_bytes_lt_total(e.name@, old_v[p as int].name);
        }
        p = p + 1;
    }
    assert forall|k: int| p <= k < old_v.len() implies bytes_lt(e.name@, #[trigger] old_v[k].name) by {
        if k > p {
            lemma_bytes_lt_transitive(e.name@, old_v[p as int].name, old_v[k].name);
        }
    }
    let ghost ev = e@;
    sorted.insert(p, e);
    let ghost new_v = entries_view(sorted@);
    assert(new_v =~= old_v.insert(p as int, ev));
    assert forall|i: int, j: int| 0 <= i < j < new_v.len() implies bytes_lt(#[trigger] new_v[i].name, #[trigger] new_v[j].name) by {
        if j < p {
        } else if j == p {
        } else if i < p {
            lemma_bytes_lt_transitive(new_v[i].name, ev.name, new_v[j].name);
        } else if i == p {
        } else {
        }
    }
    assert forall|x: EntryView| new_v.contains(x) <==> (old_v.contains(x) || x == ev) by {
        if new_v.contains(x) {
            let i = choose|i: int| 0 <= i < new_v.len() && new_v[i] == x;
            if i < p {
                assert(old_v[i] == x);
            } else if i > p {
                assert(old_v[i - 1] == x);
            }
        }
        if old_v.contains(x) {
            let i = choose|i: int| 0 <= i < old_v.len() && old_v[i] == x;
            if i < p {
                assert(new_v[i] == x);
            } else {
                assert(new_v[i + 1] == x);
            }
        }
        if x == ev {
            assert(new_v[p as int] == x);
        }
    }
    assert forall|k: int| 0 <= k < sorted@.len() implies (exists|j: int| 0 <= j < old(sorted)@.len() && old(sorted)@[j].name@ == #[trigger] sorted@[k].name@) || sorted@[k].name@ == ev.name by {
        if k < p {
            assert(old(sorted)@[k].name@ == sorted@[k].name@);
        } else if k > p {
            assert(old(sorted)@[k - 1].name@ == sorted@[k].name@);
        }
    }
}

} // verus!
