//! Objects as the store keeps them: framed, hashed for their identifier, and
//! compressed for storage.

use std::io::{Read, Write};
use vstd::prelude::*;
use sha1::Digest;
use crate::codec::{encode_header, framed, lemma_header_framing, parse_framed, split_header_payload, ObjectKind};
use crate::error::StoreError;
use crate::oid::ObjectId;

verus! {

/// The SHA-1 digest of a byte string.
pub uninterp spec fn sha1_of(data: Seq<u8>) -> Seq<u8>;

/// The zlib stream that the compressor makes of a byte string.
pub uninterp spec fn zlib_deflated(data: Seq<u8>) -> Seq<u8>;

/// What a byte string decompresses to, when it is a zlib stream.
pub uninterp spec fn zlib_inflated(data: Seq<u8>) -> Option<Seq<u8>>;

/// Relies on sha1::Sha1::digest: the 20-byte SHA-1 digest of the input.
#[verifier::external_body]
fn sha1_digest(data: &[u8]) -> (r: [u8; 20])
    ensures
        r@ == sha1_of(data@),
{
    sha1::Sha1::digest(data).into()
}

/// Relies on flate2::write::ZlibEncoder at the default level, writing into
/// memory (which cannot fail): the compressed stream of the input.
#[verifier::external_body]
fn zlib_compress(data: &[u8]) -> (r: Vec<u8>)
    ensures
        r@ == zlib_deflated(data@),
{
    let mut e = flate2::write::ZlibEncoder::new(Vec::new(), flate2::Compression::default());
    e.write_all(data).unwrap();
    e.finish().unwrap()
}

/// Relies on flate2::read::ZlibDecoder, reading to the end: it gives back
/// what the encoder was given, and fails on what is not a zlib stream.
#[verifier::external_body]
fn zlib_decompress(data: &[u8]) -> (r: Option<Vec<u8>>)
    ensures
        r is Some <==> zlib_inflated(data@) is Some,
        r matches Some(v) ==> zlib_inflated(data@) == Some(v@),
        r is None ==> forall|x: Seq<u8>| data@ != #[trigger] zlib_deflated(x),
        r matches Some(v) ==> forall|x: Seq<u8>| data@ == #[trigger] zlib_deflated(x) ==> v@ == x,
{
    let mut out = Vec::new();
    match flate2::read::ZlibDecoder::new(data).read_to_end(&mut out) {
        Ok(_) => Some(out),
        Err(_) => None,
    }
}

/// The identifier of an object: the digest of its framed form.
pub open spec fn object_id(kind: ObjectKind, payload: Seq<u8>) -> Seq<u8> {
    sha1_of(framed(kind, payload))
}

/// The bytes kept for an object: its framed form, compressed.
pub open spec fn stored_form(kind: ObjectKind, payload: Seq<u8>) -> Seq<u8> {
    zlib_deflated(framed(kind, payload))
}

/// Kind and payload of stored bytes, or the error that reading them gives.
pub open spec fn decoded(stored: Seq<u8>) -> Result<(ObjectKind, Seq<u8>), StoreError> {
    match zlib_inflated(stored) {
        Some(raw) => match parse_framed(raw) {
            Some((k, _n, p)) => Ok((k, p)),
            None => Err(StoreError::Corrupt),
        },
        None => Err(StoreError::Corrupt),
    }
}

/// An object ready to be written: its identifier and its stored bytes.
#[derive(Clone, Debug, PartialEq, Eq)]
pub struct StoredObject {
    pub oid: ObjectId,
    pub data: Vec<u8>,
}

impl StoredObject {
    /// This is the stored form of the object of the given kind and payload.
    pub open spec fn holds(&self, kind: ObjectKind, payload: Seq<u8>) -> bool {
        &&& self.oid@ == object_id(kind, payload)
        &&& self.data@ == stored_form(kind, payload)
    }
}

/// The framed form of an object: header, then payload.
pub fn frame(kind: ObjectKind, payload: &[u8]) -> (r: Vec<u8>)
    ensures
        r@ == framed(kind, payload@),
{
    let mut r = encode_header(kind, payload.len());
    r.extend_from_slice(payload);
    assert(r@ =~= framed(kind, payload@));
    r
}

/// Prepares an object for the store: computes its identifier and the bytes
/// to keep under it.
pub fn encode_object(kind: ObjectKind, payload: &[u8]) -> (r: StoredObject)
    ensures
        r.holds(kind, payload@),
{
    let f = frame(kind, payload);
    let digest = sha1_digest(f.as_slice());
    let data = zlib_compress(f.as_slice());
    StoredObject { oid: ObjectId::from_bytes(digest), data }
}

/// Reads stored bytes back into kind and payload: `Corrupt` when they do not
/// decompress or their header does not read as a kind and a size.
pub fn decode_object(stored: &[u8]) -> (r: Result<(ObjectKind, Vec<u8>), StoreError>)
    ensures
        match decoded(stored@) {
            Ok((k, p)) => r matches Ok((k2, p2)) && k2 == k && p2@ == p,
            Err(e) => r matches Err(e2) && e2 == e,
        },
        forall|k: ObjectKind, p: Seq<u8>|
            p.len() <= usize::MAX && stored@ == #[trigger] stored_form(k, p) ==> (r matches Ok((
                k2,
                p2,
            )) && k2 == k && p2@ == p),
{
    let raw = zlib_decompress(stored);
    assert forall|k: ObjectKind, p: Seq<u8>|
        p.len() <= usize::MAX && stored@ == #[trigger] stored_form(k, p) implies decoded(stored@)
        == Ok::<(ObjectKind, Seq<u8>), StoreError>((k, p)) by {
        lemma_header_framing(k, p.len() as usize, p);
    }
    match raw {
        None => Err(StoreError::Corrupt),
        Some(raw) => match split_header_payload(raw.as_slice()) {
            Ok((k, _n, p)) => Ok((k, p)),
            Err(e) => Err(e),
        },
    }
}

/// Storing the same payload twice gives the same identifier and the same
/// bytes both times.
pub proof fn lemma_put_deterministic(kind: ObjectKind, a: Seq<u8>, b: Seq<u8>)
    requires
        a == b,
    ensures
        object_id(kind, a) == object_id(kind, b),
        stored_form(kind, a) == stored_form(kind, b),
{
}

} // verus!
