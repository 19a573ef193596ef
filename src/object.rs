//! Object requests: the ETag of stored bytes, the `Content-MD5` check, the
//! errors that storage failures become, and the `Last-Modified` date.

use vstd::prelude::*;
use vstd::string::*;
use crate::digest::{base64_encode, base64_of, hex_encode, hex_lower};
use crate::error::{S3Error, S3ErrorCode};
use crate::storage::StorageError;

verus! {

/// The ETag of an object whose MD5 digest is `digest`: the lowercase hex
/// digest in double quotes.
pub open spec fn etag_of(digest: Seq<u8>) -> Seq<char> {
    seq!['"'] + hex_lower(digest) + seq!['"']
}

pub fn etag_for_digest(digest: &[u8]) -> (r: String)
    ensures
        r@ == etag_of(digest@),
{
    let mut s = String::from_str("\"");
    let hex = hex_encode(digest);
    s.append(hex.as_str());
    s.append("\"");
    proof {
        reveal_strlit("\"");
    }
    s
}

/// Whether a `Content-MD5` header, if the client sent one, names the digest
/// of the bytes received: base64 of the MD5 digest.
pub fn content_md5_matches(content_md5: Option<&str>, digest: &[u8]) -> (r: bool)
    ensures
        r == match content_md5 {
            Some(m) => m@ == base64_of(digest@),
            None => true,
        },
{
    match content_md5 {
        Some(m) => {
            let computed = base64_encode(digest);
            let expected = String::from_str(m);
            computed == expected
        },
        None => true,
    }
}

/// The content type of a stored object: the one given, or
/// `application/octet-stream`.
pub fn content_type_or_default(content_type: Option<&str>) -> (r: String)
    ensures
        r@ == match content_type {
            Some(c) => c@,
            None => "application/octet-stream"@,
        },
{
    match content_type {
        Some(c) => String::from_str(c),
        None => String::from_str("application/octet-stream"),
    }
}

/// The marker of a streaming upload in `x-amz-content-sha256`.
pub open spec fn streaming_marker() -> Seq<char> {
    "STREAMING-AWS4-HMAC-SHA256-PAYLOAD"@
}

/// Whether the body is framed as `aws-chunked`.
pub fn is_aws_chunked(content_sha256: Option<&str>) -> (r: bool)
    ensures
        r == match content_sha256 {
            Some(v) => v@ == streaming_marker(),
            None => false,
        },
{
    match content_sha256 {
        Some(v) => String::from_str(v) == String::from_str("STREAMING-AWS4-HMAC-SHA256-PAYLOAD"),
        None => false,
    }
}

/// The error a client sees for a storage failure on an object: a missing
/// object is `NoSuchKey`, an invalid key `InvalidArgument`, anything else an
/// internal error.
pub open spec fn object_error_code(e: StorageError) -> S3ErrorCode {
    match e {
        StorageError::NotFound(_) => S3ErrorCode::NoSuchKey,
        StorageError::InvalidKey(_) => S3ErrorCode::InvalidArgument,
        _ => S3ErrorCode::InternalError,
    }
}

pub fn object_error(e: &StorageError, key: &str) -> (r: S3Error)
    ensures
        r.code == object_error_code(*e),
        e matches StorageError::NotFound(_) ==> r.message@ == "The specified key does not exist."@
            && crate::error::resource_is(r.resource, key@),
        e matches StorageError::InvalidKey(m) ==> r.message@ == m@ && r.resource is None,
        !(e is NotFound || e is InvalidKey) ==> r.message@
            == "We encountered an internal error. Please try again."@ && r.resource is None,
{
    match e {
        StorageError::NotFound(_) => S3Error::no_such_key(key),
        StorageError::InvalidKey(m) => S3Error::invalid_argument(m.as_str()),
        _ => S3Error::internal(),
    }
}

/// The RFC 7231 date (`%a, %d %b %Y %H:%M:%S GMT`) of an RFC 3339
/// timestamp, or `None` when it does not parse.
pub uninterp spec fn http_date_of(iso: Seq<char>) -> Option<Seq<char>>;

/// Relies on chrono's `DateTime::parse_from_rfc3339` and `format`.
#[verifier::external_body]
fn format_http_date(iso: &str) -> (r: Option<String>)
    ensures
        match http_date_of(iso@) {
            Some(d) => r is Some && r->0@ == d,
            None => r is None,
        },
{
    chrono::DateTime::parse_from_rfc3339(iso).ok().map(|dt| dt.format("%a, %d %b %Y %H:%M:%S GMT").to_string())
}

/// The `Last-Modified` header of an object: its timestamp as an HTTP date,
/// or the timestamp itself when it does not parse.
pub fn to_http_date(iso: &str) -> (r: String)
    ensures
        r@ == match http_date_of(iso@) {
            Some(d) => d,
            None => iso@,
        },
{
    match format_http_date(iso) {
        Some(d) => d,
        None => String::from_str(iso),
    }
}

} // verus!
