//! Commit objects: a tree reference, an optional parent, author and
//! committer lines, a blank line, and the message.

use vstd::prelude::*;
use vstd::utf8::is_ascii_chars_encode_utf8;
use crate::codec::ObjectKind;
use crate::oid::{hex_text, lemma_hex_text_ascii, ObjectId};
use crate::store::{encode_object, StoredObject};

verus! {

/// The ASCII bytes of the 40 hexadecimal digits of an identifier.
pub open spec fn hex_ascii(oid: Seq<u8>) -> Seq<u8> {
    hex_text(oid).map_values(|c: char| c as u8)
}

/// `tree `
pub open spec fn tree_word() -> Seq<u8> {
    seq![116u8, 114u8, 101u8, 101u8, 32u8]
}

/// `parent `
pub open spec fn parent_word() -> Seq<u8> {
    seq![112u8, 97u8, 114u8, 101u8, 110u8, 116u8, 32u8]
}

/// `author `
pub open spec fn author_word() -> Seq<u8> {
    seq![97u8, 117u8, 116u8, 104u8, 111u8, 114u8, 32u8]
}

/// `committer `
pub open spec fn committer_word() -> Seq<u8> {
    seq![99u8, 111u8, 109u8, 109u8, 105u8, 116u8, 116u8, 101u8, 114u8, 32u8]
}

/// The text of a commit: `tree <hex>`, then `parent <hex>` when there is a
/// parent, `author <line>`, `committer <line>`, a blank line, and the message,
/// each line ended by a newline.
pub open spec fn commit_text(
    tree: Seq<u8>,
    parent: Option<Seq<u8>>,
    author: Seq<u8>,
    committer: Seq<u8>,
    message: Seq<u8>,
) -> Seq<u8> {
    let parent_line = match parent {
        Some(p) => parent_word() + hex_ascii(p) + seq![10u8],
        None => Seq::empty(),
    };
    tree_word() + hex_ascii(tree) + seq![10u8] + parent_line + author_word() + author + seq![10u8]
        + committer_word() + committer + seq![10u8] + seq![10u8] + message + seq![10u8]
}

/// The digest of the parent, when there is one.
pub open spec fn parent_view(parent: Option<ObjectId>) -> Option<Seq<u8>> {
    match parent {
        Some(p) => Some(p@),
        None => None,
    }
}

/// Appends the hexadecimal digits of `oid` to `out`.
fn push_hex(oid: &ObjectId, out: &mut Vec<u8>)
    ensures
        final(out)@ == old(out)@ + hex_ascii(oid@),
{
    let h = oid.to_hex();
    proof {
        lemma_hex_text_ascii(oid@);
        is_ascii_chars_encode_utf8(h@);
    }
    out.extend_from_slice(h.as_str().as_bytes());
    assert(final(out)@ =~= old(out)@ + hex_ascii(oid@));
}

/// The text of a commit of `tree`, with `parent` when given.
pub fn commit_payload(
    tree: &ObjectId,
    parent: Option<ObjectId>,
    author: &[u8],
    committer: &[u8],
    message: &[u8],
) -> (r: Vec<u8>)
    ensures
        r@ == commit_text(tree@, parent_view(parent), author@, committer@, message@),
{
    let mut r = vec![116u8, 114u8, 101u8, 101u8, 32u8];
    assert(r@ =~= tree_word());
    push_hex(tree, &mut r);
    r.push(10u8);
    let ghost after_tree = r@;
    match parent {
        Some(p) => {
            let word = vec![112u8, 97u8, 114u8, 101u8, 110u8, 116u8, 32u8];
            assert(word@ =~= parent_word());
            r.extend_from_slice(word.as_slice());
            push_hex(&p, &mut r);
            r.push(10u8);
        },
        None => {},
    }
    let ghost parent_line = match parent {
        Some(p) => parent_word() + hex_ascii(p@) + seq![10u8],
        None => Seq::empty(),
    };
    assert(r@ =~= after_tree + parent_line);
    let word = vec![97u8, 117u8, 116u8, 104u8, 111u8, 114u8, 32u8];
    assert(word@ =~= author_word());
    r.extend_from_slice(word.as_slice());
    r.extend_from_slice(author);
    r.push(10u8);
    let word = vec![99u8, 111u8, 109u8, 109u8, 105u8, 116u8, 116u8, 101u8, 114u8, 32u8];
    assert(word@ =~= committer_word());
    r.extend_from_slice(word.as_slice());
    r.extend_from_slice(committer);
    r.push(10u8);
    r.push(10u8);
    r.extend_from_slice(message);
    r.push(10u8);
    assert(r@ =~= commit_text(tree@, parent_view(parent), author@, committer@, message@));
    r
}

/// The commit object of `tree`, with `parent` when given, ready to store.
pub fn build_commit(
    tree: &ObjectId,
    parent: Option<ObjectId>,
    author: &[u8],
    committer: &[u8],
    message: &[u8],
) -> (r: StoredObject)
    ensures
        r.holds(
            ObjectKind::Commit,
            commit_text(tree@, parent_view(parent), author@, committer@, message@),
        ),
{
    let text = commit_payload(tree, parent, author, committer, message);
    encode_object(ObjectKind::Commit, text.as_slice())
}

} // verus!
