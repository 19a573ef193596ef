//! The error taxonomy of the service: S3 error codes, their HTTP statuses and
//! the XML document that carries an error to the client.

use vstd::prelude::*;
use vstd::string::*;
use crate::text::concat;

verus! {

/// The S3 error codes that the service can report.
#[derive(Debug, Clone, Copy, PartialEq, Eq, Structural)]
pub enum S3ErrorCode {
    AccessDenied,
    BucketAlreadyOwnedByYou,
    BucketNotEmpty,
    InternalError,
    InvalidAccessKeyId,
    InvalidArgument,
    InvalidBucketName,
    MalformedXML,
    NoSuchBucket,
    NoSuchKey,
    NotImplemented,
    SignatureDoesNotMatch,
    BadDigest,
}

/// The wire name of an error code.
pub open spec fn code_name(c: S3ErrorCode) -> Seq<char> {
    match c {
        S3ErrorCode::AccessDenied => "AccessDenied"@,
        S3ErrorCode::BucketAlreadyOwnedByYou => "BucketAlreadyOwnedByYou"@,
        S3ErrorCode::BucketNotEmpty => "BucketNotEmpty"@,
        S3ErrorCode::InternalError => "InternalError"@,
        S3ErrorCode::InvalidAccessKeyId => "InvalidAccessKeyId"@,
        S3ErrorCode::InvalidArgument => "InvalidArgument"@,
        S3ErrorCode::InvalidBucketName => "InvalidBucketName"@,
        S3ErrorCode::MalformedXML => "MalformedXML"@,
        S3ErrorCode::NoSuchBucket => "NoSuchBucket"@,
        S3ErrorCode::NoSuchKey => "NoSuchKey"@,
        S3ErrorCode::NotImplemented => "NotImplemented"@,
        S3ErrorCode::SignatureDoesNotMatch => "SignatureDoesNotMatch"@,
        S3ErrorCode::BadDigest => "BadDigest"@,
    }
}

/// The HTTP status that goes with an error code.
pub open spec fn code_status(c: S3ErrorCode) -> u16 {
    match c {
        S3ErrorCode::AccessDenied => 403,
        S3ErrorCode::InvalidAccessKeyId => 403,
        S3ErrorCode::SignatureDoesNotMatch => 403,
        S3ErrorCode::NoSuchBucket => 404,
        S3ErrorCode::NoSuchKey => 404,
        S3ErrorCode::BucketAlreadyOwnedByYou => 409,
        S3ErrorCode::BucketNotEmpty => 409,
        S3ErrorCode::InternalError => 500,
        S3ErrorCode::NotImplemented => 501,
        _ => 400,
    }
}

impl S3ErrorCode {
    pub fn as_str(&self) -> (r: &'static str)
        ensures
            r@ == code_name(*self),
    {
        match self {
            S3ErrorCode::AccessDenied => "AccessDenied",
            S3ErrorCode::BucketAlreadyOwnedByYou => "BucketAlreadyOwnedByYou",
            S3ErrorCode::BucketNotEmpty => "BucketNotEmpty",
            S3ErrorCode::InternalError => "InternalError",
            S3ErrorCode::InvalidAccessKeyId => "InvalidAccessKeyId",
            S3ErrorCode::InvalidArgument => "InvalidArgument",
            S3ErrorCode::InvalidBucketName => "InvalidBucketName",
            S3ErrorCode::MalformedXML => "MalformedXML",
            S3ErrorCode::NoSuchBucket => "NoSuchBucket",
            S3ErrorCode::NoSuchKey => "NoSuchKey",
            S3ErrorCode::NotImplemented => "NotImplemented",
            S3ErrorCode::SignatureDoesNotMatch => "SignatureDoesNotMatch",
            S3ErrorCode::BadDigest => "BadDigest",
        }
    }

    /// The HTTP status code of the error, as a number.
    pub fn status_code(&self) -> (r: u16)
        ensures
            r == code_status(*self),
    {
        match self {
            S3ErrorCode::AccessDenied => 403,
            S3ErrorCode::InvalidAccessKeyId => 403,
            S3ErrorCode::SignatureDoesNotMatch => 403,
            S3ErrorCode::NoSuchBucket => 404,
            S3ErrorCode::NoSuchKey => 404,
            S3ErrorCode::BucketAlreadyOwnedByYou => 409,
            S3ErrorCode::BucketNotEmpty => 409,
            S3ErrorCode::InternalError => 500,
            S3ErrorCode::NotImplemented => 501,
            _ => 400,
        }
    }
}

/// An error as reported to the client: a code, a message and the resource
/// it concerns.
#[derive(Debug)]
pub struct S3Error {
    pub code: S3ErrorCode,
    pub message: String,
    pub resource: Option<String>,
}

/// The resource path of a bucket.
pub open spec fn bucket_resource(bucket: Seq<char>) -> Seq<char> {
    "/"@ + bucket
}

/// Whether an optional resource is present and reads `s`.
pub open spec fn resource_is(r: Option<String>, s: Seq<char>) -> bool {
    match r {
        Some(v) => v@ == s,
        None => false,
    }
}

fn some_bucket_resource(bucket: &str) -> (r: Option<String>)
    ensures
        resource_is(r, bucket_resource(bucket@)),
{
    Some(concat("/", bucket))
}

impl S3Error {
    /// An internal error: the client sees a generic message, the cause is
    /// logged by the caller.
    pub fn internal() -> (r: Self)
        ensures
            r.code == S3ErrorCode::InternalError,
            r.message@ == "We encountered an internal error. Please try again."@,
            r.resource is None,
    {
        S3Error {
            code: S3ErrorCode::InternalError,
            message: String::from_str("We encountered an internal error. Please try again."),
            resource: None,
        }
    }

    pub fn no_such_bucket(bucket: &str) -> (r: Self)
        ensures
            r.code == S3ErrorCode::NoSuchBucket,
            r.message@ == "The specified bucket does not exist: "@ + bucket@,
            resource_is(r.resource, bucket_resource(bucket@)),
    {
        S3Error {
            code: S3ErrorCode::NoSuchBucket,
            message: concat("The specified bucket does not exist: ", bucket),
            resource: some_bucket_resource(bucket),
        }
    }

    pub fn no_such_key(key: &str) -> (r: Self)
        ensures
            r.code == S3ErrorCode::NoSuchKey,
            r.message@ == "The specified key does not exist."@,
            resource_is(r.resource, key@),
    {
        S3Error {
            code: S3ErrorCode::NoSuchKey,
            message: String::from_str("The specified key does not exist."),
            resource: Some(String::from_str(key)),
        }
    }

    pub fn bucket_already_owned(bucket: &str) -> (r: Self)
        ensures
            r.code == S3ErrorCode::BucketAlreadyOwnedByYou,
            r.message@ == "Your previous request to create the named bucket succeeded and you already own it: "@
                + bucket@,
            resource_is(r.resource, bucket_resource(bucket@)),
    {
        S3Error {
            code: S3ErrorCode::BucketAlreadyOwnedByYou,
            message: concat(
                "Your previous request to create the named bucket succeeded and you already own it: ",
                bucket,
            ),
            resource: some_bucket_resource(bucket),
        }
    }

    pub fn bucket_not_empty(bucket: &str) -> (r: Self)
        ensures
            r.code == S3ErrorCode::BucketNotEmpty,
            r.message@ == "The bucket you tried to delete is not empty."@,
            resource_is(r.resource, bucket_resource(bucket@)),
    {
        S3Error {
            code: S3ErrorCode::BucketNotEmpty,
            message: String::from_str("The bucket you tried to delete is not empty."),
            resource: some_bucket_resource(bucket),
        }
    }

    pub fn invalid_bucket_name(name: &str) -> (r: Self)
        ensures
            r.code == S3ErrorCode::InvalidBucketName,
            r.message@ == "The specified bucket is not valid: "@ + name@,
            resource_is(r.resource, bucket_resource(name@)),
    {
        S3Error {
            code: S3ErrorCode::InvalidBucketName,
            message: concat("The specified bucket is not valid: ", name),
            resource: some_bucket_resource(name),
        }
    }

    pub fn access_denied(msg: &str) -> (r: Self)
        ensures
            r.code == S3ErrorCode::AccessDenied,
            r.message@ == msg@,
            r.resource is None,
    {
        S3Error { code: S3ErrorCode::AccessDenied, message: String::from_str(msg), resource: None }
    }

    pub fn signature_mismatch() -> (r: Self)
        ensures
            r.code == S3ErrorCode::SignatureDoesNotMatch,
            r.message@
                == "The request signature we calculated does not match the signature you provided."@,
            r.resource is None,
    {
        S3Error {
            code: S3ErrorCode::SignatureDoesNotMatch,
            message: String::from_str(
                "The request signature we calculated does not match the signature you provided.",
            ),
            resource: None,
        }
    }

    pub fn invalid_access_key() -> (r: Self)
        ensures
            r.code == S3ErrorCode::InvalidAccessKeyId,
            r.message@ == "The AWS Access Key Id you provided does not exist in our records."@,
            r.resource is None,
    {
        S3Error {
            code: S3ErrorCode::InvalidAccessKeyId,
            message: String::from_str(
                "The AWS Access Key Id you provided does not exist in our records.",
            ),
            resource: None,
        }
    }

    pub fn invalid_argument(msg: &str) -> (r: Self)
        ensures
            r.code == S3ErrorCode::InvalidArgument,
            r.message@ == msg@,
            r.resource is None,
    {
        S3Error { code: S3ErrorCode::InvalidArgument, message: String::from_str(msg), resource: None }
    }

    pub fn malformed_xml() -> (r: Self)
        ensures
            r.code == S3ErrorCode::MalformedXML,
            r.message@
                == "The XML you provided was not well-formed or did not validate against our published schema."@,
            r.resource is None,
    {
        S3Error {
            code: S3ErrorCode::MalformedXML,
            message: String::from_str(
                "The XML you provided was not well-formed or did not validate against our published schema.",
            ),
            resource: None,
        }
    }

    pub fn bad_digest() -> (r: Self)
        ensures
            r.code == S3ErrorCode::BadDigest,
            r.message@ == "The Content-MD5 you specified did not match what we received."@,
            r.resource is None,
    {
        S3Error {
            code: S3ErrorCode::BadDigest,
            message: String::from_str("The Content-MD5 you specified did not match what we received."),
            resource: None,
        }
    }

    pub fn not_implemented(msg: &str) -> (r: Self)
        ensures
            r.code == S3ErrorCode::NotImplemented,
            r.message@ == msg@,
            r.resource is None,
    {
        S3Error { code: S3ErrorCode::NotImplemented, message: String::from_str(msg), resource: None }
    }

    /// The HTTP status of this error.
    pub fn status(&self) -> (r: u16)
        ensures
            r == code_status(self.code),
    {
        self.code.status_code()
    }

    /// The XML error document, with the request id that the caller generated.
    pub fn to_xml(&self, request_id: &str) -> (r: String)
        ensures
            r@ == error_document(code_name(self.code), self.message@, resource_text(self.resource), request_id@),
    {
        let mut s = String::from_str("<?xml version=\"1.0\" encoding=\"UTF-8\"?>\n<Error><Code>");
        s.append(self.code.as_str());
        s.append("</Code><Message>");
        s.append(self.message.as_str());
        s.append("</Message><Resource>");
        match &self.resource {
            Some(res) => s.append(res.as_str()),
            None => {},
        }
        s.append("</Resource><RequestId>");
        s.append(request_id);
        s.append("</RequestId></Error>");
        s
    }
}

/// The text of an optional resource, empty when absent.
pub open spec fn resource_text(r: Option<String>) -> Seq<char> {
    match r {
        Some(v) => v@,
        None => Seq::empty(),
    }
}

/// The XML error document.
pub open spec fn error_document(
    code: Seq<char>,
    message: Seq<char>,
    resource: Seq<char>,
    request_id: Seq<char>,
) -> Seq<char> {
    "<?xml version=\"1.0\" encoding=\"UTF-8\"?>\n<Error><Code>"@ + code + "</Code><Message>"@
        + message + "</Message><Resource>"@ + resource + "</Resource><RequestId>"@ + request_id
        + "</RequestId></Error>"@
}

} // verus!
