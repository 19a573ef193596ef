//! The S3 routing table: which operation a request names, by its method,
//! the shape of its path and the keys of its query.

use vstd::prelude::*;
use vstd::string::*;
use crate::text::{chars_of, copy_range, string_of};

verus! {

/// The S3 operations of the service.
#[derive(Debug, Clone, Copy, PartialEq, Eq, Structural)]
pub enum S3Operation {
    ListBuckets,
    CreateBucket,
    PutBucketVersioning,
    HeadBucket,
    DeleteBucket,
    GetBucketLocation,
    ListMultipartUploads,
    GetBucketVersioning,
    ListObjectsV2,
    ListObjectsV1,
    DeleteObjects,
    UploadPart,
    PutObject,
    CreateMultipartUpload,
    CompleteMultipartUpload,
    ListParts,
    GetObject,
    HeadObject,
    AbortMultipartUpload,
    DeleteObject,
    UnsupportedPost,
}

/// The shape of a request path.
pub enum PathShape {
    /// `/`
    Root,
    /// `/{bucket}` or `/{bucket}/`
    Bucket(String),
    /// `/{bucket}/{key}`, the key holding any further `/`
    Object(String, String),
}

/// The first position of `c` in `s` at or after `from`, or `s.len()`.
pub open spec fn next_index(s: Seq<char>, c: char, from: int) -> int
    decreases s.len() - from,
{
    if from < 0 || from >= s.len() {
        s.len() as int
    } else if s[from] == c {
        from
    } else {
        next_index(s, c, from + 1)
    }
}

/// Where the bucket name of a path (after its leading `/`) ends.
pub open spec fn bucket_end(p: Seq<char>) -> int {
    next_index(p, '/', 1)
}

/// The bucket name of a path.
pub open spec fn path_bucket(p: Seq<char>) -> Seq<char> {
    p.subrange(1, bucket_end(p))
}

/// A path names a resource: it starts with `/`, and is `/` itself or names
/// a bucket.
pub open spec fn path_valid(p: Seq<char>) -> bool {
    p.len() > 0 && p[0] == '/' && (p.len() == 1 || path_bucket(p).len() > 0)
}

/// The path is `/`.
pub open spec fn path_is_root(p: Seq<char>) -> bool {
    p == seq!['/']
}

/// The path names an object: something follows the `/` after the bucket.
pub open spec fn path_has_key(p: Seq<char>) -> bool {
    p.len() > 1 && bucket_end(p) < p.len() - 1
}

/// The object key of a path: what follows the `/` after the bucket.
pub open spec fn path_key(p: Seq<char>) -> Seq<char> {
    p.skip(bucket_end(p) + 1)
}

proof fn lemma_next_index_bounds(s: Seq<char>, c: char, from: int)
    requires
        0 <= from,
    ensures
        from <= next_index(s, c, from) <= s.len() || (from > s.len() && next_index(s, c, from) == s.len()),
        next_index(s, c, from) < s.len() ==> s[next_index(s, c, from)] == c,
    decreases s.len() - from,
{
    if from < s.len() && s[from] != c {
        lemma_next_index_bounds(s, c, from + 1);
    }
}

/// Reads the shape of a request path.
pub fn parse_path(path: &str) -> (r: Option<PathShape>)
    ensures
        !path_valid(path@) ==> r is None,
        path_valid(path@) && path_is_root(path@) ==> r matches Some(PathShape::Root),
        path_valid(path@) && !path_is_root(path@) && !path_has_key(path@) ==> (r matches Some(
            PathShape::Bucket(b),
        ) && b@ == path_bucket(path@)),
        path_valid(path@) && path_has_key(path@) ==> (r matches Some(PathShape::Object(b, k)) && b@
            == path_bucket(path@) && k@ == path_key(path@)),
{
    let p = chars_of(path);
    if p.len() == 0 || p[0] != '/' {
        return None;
    }
    if p.len() == 1 {
        proof {
            assert(p@ =~= seq!['/']);
        }
        return Some(PathShape::Root);
    }
    let mut e: usize = 1;
    proof {
        lemma_next_index_bounds(p@, '/', 1);
    }
    while e < p.len() && p[e] != '/'
        invariant
            1 <= e <= p@.len(),
            p@ == path@,
            next_index(p@, '/', 1) == next_index(p@, '/', e as int),
        decreases p@.len() - e,
    {
        e = e + 1;
    }
    let bucket = copy_range(p.as_slice(), 1, e);
    if bucket.len() == 0 {
        return None;
    }
    if e >= p.len() - 1 {
        return Some(PathShape::Bucket(string_of(bucket.as_slice())));
    }
    let key = copy_range(p.as_slice(), e + 1, p.len());
    proof {
        assert(key@ == p@.skip(e + 1));
    }
    Some(PathShape::Object(string_of(bucket.as_slice()), string_of(key.as_slice())))
}

/// The query has a parameter named `name`.
pub open spec fn has_param(q: Seq<(String, String)>, name: Seq<char>) -> bool {
    exists|i: int| 0 <= i < q.len() && #[trigger] q[i].0@ == name
}

/// Some parameter is named `name` and has the value `value`.
pub open spec fn param_is(q: Seq<(String, String)>, name: Seq<char>, value: Seq<char>) -> bool {
    exists|i: int| 0 <= i < q.len() && #[trigger] q[i].0@ == name && q[i].1@ == value
}

fn find_param(q: &Vec<(String, String)>, name: &str, value: Option<&str>) -> (r: bool)
    ensures
        r == match value {
            Some(v) => param_is(q@, name@, v@),
            None => has_param(q@, name@),
        },
{
    let n = String::from_str(name);
    let mut i: usize = 0;
    while i < q.len()
        invariant
            i <= q@.len(),
            n@ == name@,
            forall|j: int| 0 <= j < i ==> !(#[trigger] q@[j].0@ == name@ && match value {
                Some(v) => q@[j].1@ == v@,
                None => true,
            }),
        decreases q@.len() - i,
    {
        if q[i].0 == n {
            match value {
                Some(v) => {
                    let vs = String::from_str(v);
                    if q[i].1 == vs {
                        return true;
                    }
                },
                None => {
                    return true;
                },
            }
        }
        i = i + 1;
    }
    false
}

/// The operation of a request on the bucket level, by method and query.
pub open spec fn bucket_operation(method: Seq<char>, q: Seq<(String, String)>) -> Option<S3Operation> {
    if method == "PUT"@ {
        Some(if has_param(q, "versioning"@) { S3Operation::PutBucketVersioning } else { S3Operation::CreateBucket })
    } else if method == "HEAD"@ {
        Some(S3Operation::HeadBucket)
    } else if method == "DELETE"@ {
        Some(S3Operation::DeleteBucket)
    } else if method == "POST"@ {
        Some(S3Operation::DeleteObjects)
    } else if method == "GET"@ {
        Some(
            if has_param(q, "uploads"@) {
                S3Operation::ListMultipartUploads
            } else if has_param(q, "location"@) {
                S3Operation::GetBucketLocation
            } else if has_param(q, "versioning"@) {
                S3Operation::GetBucketVersioning
            } else if param_is(q, "list-type"@, "2"@) {
                S3Operation::ListObjectsV2
            } else {
                S3Operation::ListObjectsV1
            },
        )
    } else {
        None
    }
}

/// The operation of a request on an object, by method and query.
pub open spec fn object_operation(method: Seq<char>, q: Seq<(String, String)>) -> Option<S3Operation> {
    if method == "PUT"@ {
        Some(if has_param(q, "uploadId"@) { S3Operation::UploadPart } else { S3Operation::PutObject })
    } else if method == "POST"@ {
        Some(
            if has_param(q, "uploads"@) {
                S3Operation::CreateMultipartUpload
            } else if has_param(q, "uploadId"@) {
                S3Operation::CompleteMultipartUpload
            } else {
                S3Operation::UnsupportedPost
            },
        )
    } else if method == "GET"@ {
        Some(if has_param(q, "uploadId"@) { S3Operation::ListParts } else { S3Operation::GetObject })
    } else if method == "HEAD"@ {
        Some(S3Operation::HeadObject)
    } else if method == "DELETE"@ {
        Some(if has_param(q, "uploadId"@) { S3Operation::AbortMultipartUpload } else { S3Operation::DeleteObject })
    } else {
        None
    }
}

fn is_method(method: &str, m: &str) -> (r: bool)
    ensures
        r == (method@ == m@),
{
    String::from_str(method) == String::from_str(m)
}

/// The operation on the bucket level.
pub fn route_bucket(method: &str, q: &Vec<(String, String)>) -> (r: Option<S3Operation>)
    ensures
        r == bucket_operation(method@, q@),
{
    if is_method(method, "PUT") {
        if find_param(q, "versioning", None) {
            Some(S3Operation::PutBucketVersioning)
        } else {
            Some(S3Operation::CreateBucket)
        }
    } else if is_method(method, "HEAD") {
        Some(S3Operation::HeadBucket)
    } else if is_method(method, "DELETE") {
        Some(S3Operation::DeleteBucket)
    } else if is_method(method, "POST") {
        Some(S3Operation::DeleteObjects)
    } else if is_method(method, "GET") {
        if find_param(q, "uploads", None) {
            Some(S3Operation::ListMultipartUploads)
        } else if find_param(q, "location", None) {
            Some(S3Operation::GetBucketLocation)
        } else if find_param(q, "versioning", None) {
            Some(S3Operation::GetBucketVersioning)
        } else if find_param(q, "list-type", Some("2")) {
            Some(S3Operation::ListObjectsV2)
        } else {
            Some(S3Operation::ListObjectsV1)
        }
    } else {
        None
    }
}

/// The operation on an object.
pub fn route_object(method: &str, q: &Vec<(String, String)>) -> (r: Option<S3Operation>)
    ensures
        r == object_operation(method@, q@),
{
    if is_method(method, "PUT") {
        if find_param(q, "uploadId", None) {
            Some(S3Operation::UploadPart)
        } else {
            Some(S3Operation::PutObject)
        }
    } else if is_method(method, "POST") {
        if find_param(q, "uploads", None) {
            Some(S3Operation::CreateMultipartUpload)
        } else if find_param(q, "uploadId", None) {
            Some(S3Operation::CompleteMultipartUpload)
        } else {
            Some(S3Operation::UnsupportedPost)
        }
    } else if is_method(method, "GET") {
        if find_param(q, "uploadId", None) {
            Some(S3Operation::ListParts)
        } else {
            Some(S3Operation::GetObject)
        }
    } else if is_method(method, "HEAD") {
        Some(S3Operation::HeadObject)
    } else if is_method(method, "DELETE") {
        if find_param(q, "uploadId", None) {
            Some(S3Operation::AbortMultipartUpload)
        } else {
            Some(S3Operation::DeleteObject)
        }
    } else {
        None
    }
}

/// The operation of a request: `GET /` lists buckets; a bucket path and an
/// object path go by method and query. `None` when nothing matches.
pub fn route(method: &str, shape: &PathShape, q: &Vec<(String, String)>) -> (r: Option<S3Operation>)
    ensures
        r == match shape {
            PathShape::Root => if method@ == "GET"@ {
                Some(S3Operation::ListBuckets)
            } else {
                None
            },
            PathShape::Bucket(_) => bucket_operation(method@, q@),
            PathShape::Object(_, _) => object_operation(method@, q@),
        },
{
    match shape {
        PathShape::Root => if is_method(method, "GET") {
            Some(S3Operation::ListBuckets)
        } else {
            None
        },
        PathShape::Bucket(_) => route_bucket(method, q),
        PathShape::Object(_, _) => route_object(method, q),
    }
}

} // verus!
