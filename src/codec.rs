//! The framing shared by every object: a header naming the kind and size, a NUL, then the payload.

use vstd::prelude::*;
use vstd::slice::{slice_subrange, slice_to_vec};
use crate::error::StoreError;

verus! {

/// What the payload of an object holds.
#[derive(Clone, Copy, Debug, PartialEq, Eq, Structural)]
pub enum ObjectKind {
    Blob,
    Tree,
    Commit,
}

/// The word that names a kind in a header: `blob`, `tree` or `commit`.
pub open spec fn kind_name(k: ObjectKind) -> Seq<u8> {
    match k {
        ObjectKind::Blob => seq![98u8, 108u8, 111u8, 98u8],
        ObjectKind::Tree => seq![116u8, 114u8, 101u8, 101u8],
        ObjectKind::Commit => seq![99u8, 111u8, 109u8, 109u8, 105u8, 116u8],
    }
}

/// The kind that a header word names, if any.
pub open spec fn kind_of_name(w: Seq<u8>) -> Option<ObjectKind> {
    if w == kind_name(ObjectKind::Blob) {
        Some(ObjectKind::Blob)
    } else if w == kind_name(ObjectKind::Tree) {
        Some(ObjectKind::Tree)
    } else if w == kind_name(ObjectKind::Commit) {
        Some(ObjectKind::Commit)
    } else {
        None
    }
}

pub open spec fn is_digit(c: u8) -> bool {
    48 <= c <= 57
}

pub open spec fn all_digits(s: Seq<u8>) -> bool {
    forall|i: int| 0 <= i < s.len() ==> is_digit(#[trigger] s[i])
}

/// The decimal digits of `n`, most significant first, without leading zeros.
pub open spec fn decimal(n: nat) -> Seq<u8>
    decreases n,
{
    if n < 10 {
        seq![(n + 48) as u8]
    } else {
        decimal(n / 10).push((n % 10 + 48) as u8)
    }
}

/// The number that a string of decimal digits spells.
pub open spec fn digits_value(s: Seq<u8>) -> nat
    decreases s.len(),
{
    if s.len() == 0 {
        0
    } else {
        digits_value(s.drop_last()) * 10 + (s.last() - 48) as nat
    }
}

/// `i` is the position of the first `b` in `s`.
pub open spec fn is_first(s: Seq<u8>, b: u8, i: int) -> bool {
    &&& 0 <= i < s.len()
    &&& s[i] == b
    &&& forall|j: int| 0 <= j < i ==> s[j] != b
}

/// The position of the first `b` in `s`, if `s` holds one.
pub open spec fn first_index(s: Seq<u8>, b: u8) -> Option<int> {
    if exists|i: int| is_first(s, b, i) {
        Some(choose|i: int| is_first(s, b, i))
    } else {
        None
    }
}

/// The header of an object of kind `k` whose payload is `n` bytes long.
pub open spec fn header_bytes(k: ObjectKind, n: nat) -> Seq<u8> {
    kind_name(k) + seq![32u8] + decimal(n) + seq![0u8]
}

/// The framed form of an object: its header, then its payload.
pub open spec fn framed(k: ObjectKind, payload: Seq<u8>) -> Seq<u8> {
    header_bytes(k, payload.len()) + payload
}

/// What the text of a header (the bytes before its NUL) says, when it reads as
/// `"<kind> <integer>"` with an integer that fits a `usize`.
pub open spec fn header_fields(h: Seq<u8>) -> Option<(ObjectKind, nat)> {
    match first_index(h, 32) {
        Some(i) => {
            let word = h.subrange(0, i);
            let digits = h.subrange(i + 1, h.len() as int);
            if kind_of_name(word) is Some && digits.len() > 0 && all_digits(digits)
                && digits_value(digits) <= usize::MAX {
                Some((kind_of_name(word).unwrap(), digits_value(digits)))
            } else {
                None
            }
        },
        None => None,
    }
}

/// Kind, declared size and payload of framed bytes: the header ends at the
/// first NUL, and everything after it is the payload.
pub open spec fn parse_framed(raw: Seq<u8>) -> Option<(ObjectKind, nat, Seq<u8>)> {
    match first_index(raw, 0) {
        Some(i) => match header_fields(raw.subrange(0, i)) {
            Some((k, n)) => Some((k, n, raw.subrange(i + 1, raw.len() as int))),
            None => None,
        },
        None => None,
    }
}

pub proof fn lemma_first_unique(s: Seq<u8>, b: u8, i: int, j: int)
    requires
        is_first(s, b, i),
        is_first(s, b, j),
    ensures
        i == j,
{
    if i < j {
        assert(s[i] != b);
    } else if j < i {
        assert(s[j] != b);
    }
}

pub proof fn lemma_first_index(s: Seq<u8>, b: u8, i: int)
    requires
        is_first(s, b, i),
    ensures
        first_index(s, b) == Some(i),
{
    let k = choose|k: int| is_first(s, b, k);
    lemma_first_unique(s, b, i, k);
}

/// A string of digits whose prefix already spells more than `usize::MAX`
/// spells more than `usize::MAX` too.
proof fn lemma_digits_value_prefix(s: Seq<u8>, k: int)
    requires
        0 <= k <= s.len(),
        all_digits(s.subrange(0, k)) ==> digits_value(s.subrange(0, k)) > usize::MAX,
    ensures
        all_digits(s) ==> digits_value(s) > usize::MAX,
    decreases s.len() - k,
{
    if k < s.len() && all_digits(s) {
        let t = s.subrange(0, k + 1);
        assert(t.drop_last() =~= s.subrange(0, k));
        assert(all_digits(s.subrange(0, k)));
        assert(all_digits(t));
        lemma_digits_value_prefix(s, k + 1);
    } else if k == s.len() {
        assert(s.subrange(0, k) =~= s);
    }
}

pub proof fn lemma_decimal(n: nat)
    ensures
        decimal(n).len() > 0,
        all_digits(decimal(n)),
        digits_value(decimal(n)) == n,
    decreases n,
{
    let d = decimal(n);
    if n >= 10 {
        lemma_decimal(n / 10);
        assert(d.drop_last() =~= decimal(n / 10));
        assert(d.last() == (n % 10 + 48) as u8);
        assert(d.last() - 48 == n % 10);
        assert((n / 10) * 10 + n % 10 == n) by (nonlinear_arith);
        assert(digits_value(d) == digits_value(decimal(n / 10)) * 10 + (d.last() - 48) as nat);
    } else {
        assert(d.drop_last() =~= Seq::<u8>::empty());
        assert(d.last() - 48 == n);
        assert(digits_value(d.drop_last()) == 0);
        assert(digits_value(d) == digits_value(d.drop_last()) * 10 + (d.last() - 48) as nat);
    }
}

/// The first position of `b` in `s`, if any.
pub fn find_byte(s: &[u8], b: u8) -> (r: Option<usize>)
    ensures
        r matches Some(i) ==> is_first(s@, b, i as int),
        r is None ==> forall|j: int| 0 <= j < s@.len() ==> s@[j] != b,
        r matches Some(i) ==> first_index(s@, b) == Some(i as int),
        r is None ==> first_index(s@, b) is None,
{
    let mut i: usize = 0;
    while i < s.len()
        invariant
            0 <= i <= s@.len(),
            forall|j: int| 0 <= j < i ==> s@[j] != b,
        decreases s@.len() - i,
    {
        if s[i] == b {
            proof {
                lemma_first_index(s@, b, i as int);
            }
            return Some(i);
        }
        i = i + 1;
    }
    assert(!exists|k: int| is_first(s@, b, k));
    None
}

/// Whether two byte strings are equal.
pub fn bytes_equal(a: &[u8], b: &[u8]) -> (r: bool)
    ensures
        r == (a@ == b@),
{
    if a.len() != b.len() {
        return false;
    }
    let mut i: usize = 0;
    while i < a.len()
        invariant
            a@.len() == b@.len(),
            0 <= i <= a@.len(),
            forall|j: int| 0 <= j < i ==> a@[j] == b@[j],
        decreases a@.len() - i,
    {
        if a[i] != b[i] {
            return false;
        }
        i = i + 1;
    }
    assert(a@ =~= b@);
    true
}

/// Appends the decimal digits of `n` to `out`.
pub fn push_decimal(n: usize, out: &mut Vec<u8>)
    ensures
        final(out)@ == old(out)@ + decimal(n as nat),
    decreases n,
{
    if n >= 10 {
        push_decimal(n / 10, out);
    }
    out.push((n % 10) as u8 + 48);
    assert(decimal(n as nat) == if n < 10 {
        seq![(n + 48) as u8]
    } else {
        decimal((n / 10) as nat).push((n % 10 + 48) as u8)
    });
    assert(final(out)@ =~= old(out)@ + decimal(n as nat));
}

impl ObjectKind {
    /// The word that names the kind in a header.
    pub fn name(&self) -> (r: Vec<u8>)
        ensures
            r@ == kind_name(*self),
    {
        let r = match self {
            ObjectKind::Blob => vec![98u8, 108u8, 111u8, 98u8],
            ObjectKind::Tree => vec![116u8, 114u8, 101u8, 101u8],
            ObjectKind::Commit => vec![99u8, 111u8, 109u8, 109u8, 105u8, 116u8],
        };
        assert(r@ =~= kind_name(*self));
        r
    }

    /// The kind that a header word names.
    pub fn from_name(w: &[u8]) -> (r: Option<ObjectKind>)
        ensures
            r == kind_of_name(w@),
    {
        let blob = ObjectKind::Blob.name();
        let tree = ObjectKind::Tree.name();
        let commit = ObjectKind::Commit.name();
        if bytes_equal(w, blob.as_slice()) {
            Some(ObjectKind::Blob)
        } else if bytes_equal(w, tree.as_slice()) {
            Some(ObjectKind::Tree)
        } else if bytes_equal(w, commit.as_slice()) {
            Some(ObjectKind::Commit)
        } else {
            None
        }
    }
}

/// The header (kind word, space, decimal length, NUL) that precedes a payload of `length` bytes.
pub fn encode_header(kind: ObjectKind, length: usize) -> (r: Vec<u8>)
    ensures
        r@ == header_bytes(kind, length as nat),
{
    let mut r = kind.name();
    r.push(32u8);
    push_decimal(length, &mut r);
    r.push(0u8);
    assert(r@ =~= header_bytes(kind, length as nat));
    r
}

/// Reads a string of decimal digits as a `usize`; `None` when it holds a
/// non-digit, is empty, or names a number above `usize::MAX`.
pub fn parse_decimal(s: &[u8]) -> (r: Option<usize>)
    ensures
        r is Some <==> (s@.len() > 0 && all_digits(s@) && digits_value(s@) <= usize::MAX),
        r matches Some(n) ==> n as nat == digits_value(s@),
{
    if s.len() == 0 {
        return None;
    }
    let mut acc: usize = 0;
    let mut i: usize = 0;
    while i < s.len()
        invariant
            0 <= i <= s@.len(),
            all_digits(s@.subrange(0, i as int)),
            acc as nat == digits_value(s@.subrange(0, i as int)),
        decreases s@.len() - i,
    {
        let c = s[i];
        assert(s@.subrange(0, i + 1).drop_last() =~= s@.subrange(0, i as int));
        if c < 48 || c > 57 {
            assert(!all_digits(s@));
            return None;
        }
        let d = (c - 48) as usize;
        if acc > (usize::MAX - d) / 10 {
            proof {
                lemma_digits_value_prefix(s@, i + 1);
            }
            return None;
        }
        acc = acc * 10 + d;
        i = i + 1;
    }
    assert(s@.subrange(0, s@.len() as int) =~= s@);
    Some(acc)
}

/// Kind, declared size and payload of framed bytes: the header is what comes
/// before the first NUL, and must read as a kind word, a space and an integer.
pub fn split_header_payload(data: &[u8]) -> (r: Result<(ObjectKind, usize, Vec<u8>), StoreError>)
    ensures
        match parse_framed(data@) {
            Some((k, n, p)) => r matches Ok((k2, n2, p2)) && k2 == k && n2 as nat == n && p2@ == p,
            None => r == Err::<(ObjectKind, usize, Vec<u8>), StoreError>(StoreError::Corrupt),
        },
{
    let nul = match find_byte(data, 0u8) {
        Some(i) => i,
        None => return Err(StoreError::Corrupt),
    };
    let header = slice_subrange(data, 0, nul);
    let sp = match find_byte(header, 32u8) {
        Some(i) => i,
        None => return Err(StoreError::Corrupt),
    };
    let kind = match ObjectKind::from_name(slice_subrange(header, 0, sp)) {
        Some(k) => k,
        None => return Err(StoreError::Corrupt),
    };
    let size = match parse_decimal(slice_subrange(header, sp + 1, nul)) {
        Some(n) => n,
        None => return Err(StoreError::Corrupt),
    };
    let len = data.len();
    let payload = slice_to_vec(slice_subrange(data, nul + 1, len));
    Ok((kind, size, payload))
}

/// Splitting a header followed by a payload gives back the kind, the size
/// and the payload exactly, whatever bytes (NUL included) the payload holds.
pub proof fn lemma_header_framing(k: ObjectKind, n: usize, p: Seq<u8>)
    ensures
        parse_framed(header_bytes(k, n as nat) + p) == Some((k, n as nat, p)),
{
    let name = kind_name(k);
    let d = decimal(n as nat);
    lemma_decimal(n as nat);
    let h = name + seq![32u8] + d;
    let raw = header_bytes(k, n as nat) + p;
    assert(raw =~= h + seq![0u8] + p);
    let l = h.len() as int;
    assert forall|j: int| 0 <= j < l implies raw[j] != 0 by {
        if j > name.len() {
            assert(raw[j] == d[j - name.len() - 1]);
            assert(is_digit(d[j - name.len() - 1]));
        }
    }
    lemma_first_index(raw, 0, l);
    assert(raw.subrange(0, l) =~= h);
    let sp = name.len() as int;
    lemma_first_index(h, 32, sp);
    assert(h.subrange(0, sp) =~= name);
    assert(h.subrange(sp + 1, l) =~= d);
    assert(raw.subrange(l + 1, raw.len() as int) =~= p);
}

} // verus!
