//! MD5 digests of object bytes, computed as a body streams through.

use vstd::prelude::*;
use md5::Digest;
use crate::digest::hex_lower;

verus! {

/// An MD5 hasher. md-5's `Md5` is an alias of a generic wrapper whose
/// declaration Verus does not take, so it is held here out of view, with a
/// name for the bytes it has absorbed.
#[verifier::external_body]
pub struct Md5Hasher {
    inner: md5::Md5,
}

/// The MD5 digest of `data`.
pub uninterp spec fn md5_of(data: Seq<u8>) -> Seq<u8>;

/// The bytes that a hasher has absorbed.
pub uninterp spec fn md5_absorbed(h: Md5Hasher) -> Seq<u8>;

/// Relies on md-5's `Md5::new`: a hasher that has absorbed nothing.
#[verifier::external_body]
pub fn md5_new() -> (r: Md5Hasher)
    ensures
        md5_absorbed(r) == Seq::<u8>::empty(),
{
    Md5Hasher { inner: md5::Md5::new() }
}

/// Relies on md-5's `Digest::update`: the hasher absorbs `data` after what
/// it held.
#[verifier::external_body]
pub fn md5_update(h: &mut Md5Hasher, data: &[u8])
    ensures
        md5_absorbed(*final(h)) == md5_absorbed(*old(h)) + data@,
{
    h.inner.update(data)
}

/// Relies on md-5's `Digest::finalize`: the 16-byte digest of all that was
/// absorbed.
#[verifier::external_body]
pub fn md5_finalize(h: Md5Hasher) -> (r: Vec<u8>)
    ensures
        r@ == md5_of(md5_absorbed(h)),
        r@.len() == 16,
{
    h.inner.finalize().to_vec()
}

/// The ETag of an object's bytes: the lowercase hex MD5 digest in quotes.
pub open spec fn etag_of_bytes(data: Seq<u8>) -> Seq<char> {
    seq!['"'] + hex_lower(md5_of(data)) + seq!['"']
}

/// Finishes hashing a body: its MD5 digest and its ETag.
pub fn finish_digest(h: Md5Hasher) -> (r: (Vec<u8>, String))
    ensures
        r.0@ == md5_of(md5_absorbed(h)),
        r.1@ == etag_of_bytes(md5_absorbed(h)),
{
    let digest = md5_finalize(h);
    let etag = crate::object::etag_for_digest(digest.as_slice());
    (digest, etag)
}

/// The digest and ETag of a whole body at once.
pub fn digest_bytes(data: &[u8]) -> (r: (Vec<u8>, String))
    ensures
        r.0@ == md5_of(data@),
        r.1@ == etag_of_bytes(data@),
{
    let mut h = md5_new();
    md5_update(&mut h, data);
    proof {
        assert(Seq::<u8>::empty() + data@ =~= data@);
    }
    finish_digest(h)
}

} // verus!
