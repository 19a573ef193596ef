//! The storage engine's logic: its records, key validation, the on-disk
//! layout, which files a listing reports, and when a bucket may be deleted.
//! Reading and writing the files is left to the caller.

use vstd::prelude::*;
use vstd::string::*;
use crate::order::{
    chars_lt, key_le, keys_of, lemma_lt_total, lemma_lt_transitive, sort_by_key, sort_keys, sorted_by_key, Keyed,
    SortKey,
};
use crate::text::{chars_of, chars_view, concat, has_prefix, split, split_chars, starts_with};

verus! {

broadcast use vstd::seq_lib::group_to_multiset_ensures;

/// The outcome of storing an object.
pub struct PutResult {
    pub size: u64,
    pub etag: String,
    pub version_id: Option<String>,
}

/// The outcome of deleting an object.
pub struct DeleteResult {
    pub version_id: Option<String>,
    pub is_delete_marker: bool,
}

/// Whether a flag is off; a flag that is off is left out of a record.
pub fn is_false(v: &bool) -> (r: bool)
    ensures
        r == !*v,
{
    !*v
}

/// The metadata record of a bucket.
pub struct BucketMeta {
    pub name: String,
    pub created_at: String,
    pub region: String,
    pub versioning: bool,
}

/// The metadata record of an object.
pub struct ObjectMeta {
    pub key: String,
    pub size: u64,
    pub etag: String,
    pub content_type: String,
    pub last_modified: String,
    pub version_id: Option<String>,
    pub is_delete_marker: bool,
}

/// The record of a multipart upload in progress.
pub struct MultipartUploadMeta {
    pub upload_id: String,
    pub bucket: String,
    pub key: String,
    pub content_type: String,
    pub initiated: String,
}

/// The record of one uploaded part.
pub struct PartMeta {
    pub part_number: u32,
    pub etag: String,
    pub size: u64,
    pub last_modified: String,
}

/// The errors of the storage engine. `Io` and `Json` carry the text of an
/// underlying failure.
pub enum StorageError {
    Io(String),
    Json(String),
    NotFound(String),
    BucketNotEmpty,
    InvalidKey(String),
    UploadNotFound(String),
    VersionNotFound(String),
}

impl ObjectMeta {
    /// A field-by-field copy.
    pub fn duplicate(&self) -> (r: ObjectMeta)
        ensures
            r == *self,
    {
        ObjectMeta {
            key: self.key.clone(),
            size: self.size,
            etag: self.etag.clone(),
            content_type: self.content_type.clone(),
            last_modified: self.last_modified.clone(),
            version_id: match &self.version_id {
                Some(v) => Some(v.clone()),
                None => None,
            },
            is_delete_marker: self.is_delete_marker,
        }
    }
}

/// The keys strictly increase: a listing as the storage engine returns it.
pub open spec fn strictly_sorted(objs: Seq<ObjectMeta>) -> bool {
    forall|i: int, j: int| 0 <= i < j < objs.len() ==> chars_lt(#[trigger] objs[i].key@, #[trigger] objs[j].key@)
}

impl Keyed for ObjectMeta {
    open spec fn sort_key(&self) -> SortKey {
        (self.key@, Seq::empty())
    }

    fn key_chars(&self) -> (r: (Vec<char>, Vec<char>)) {
        (chars_of(self.key.as_str()), Vec::new())
    }
}

impl Keyed for BucketMeta {
    open spec fn sort_key(&self) -> SortKey {
        (self.name@, Seq::empty())
    }

    fn key_chars(&self) -> (r: (Vec<char>, Vec<char>)) {
        (chars_of(self.name.as_str()), Vec::new())
    }
}

/// A key has a `..` component.
pub open spec fn has_parent_component(key: Seq<char>) -> bool {
    exists|i: int| 0 <= i < split(key, '/').len() && #[trigger] split(key, '/')[i] == seq!['.', '.']
}

/// Why a key is refused, or `None` when it is valid: it must not be empty,
/// absolute, or hold a `..` component.
pub open spec fn key_error(key: Seq<char>) -> Option<Seq<char>> {
    if key.len() == 0 {
        Some("Key must not be empty"@)
    } else if key[0] == '/' {
        Some("Key must not be an absolute path"@)
    } else if has_parent_component(key) {
        Some("Key must not contain '..' path components"@)
    } else {
        None
    }
}

/// Checks that a key cannot leave its bucket's directory.
pub fn validate_key(key: &str) -> (r: Result<(), StorageError>)
    ensures
        r is Ok <==> key_error(key@) is None,
        r matches Err(e) ==> (e matches StorageError::InvalidKey(m) && Some(m@) == key_error(key@)),
{
    let k = chars_of(key);
    if k.len() == 0 {
        return Err(StorageError::InvalidKey(String::from_str("Key must not be empty")));
    }
    if k[0] == '/' {
        return Err(StorageError::InvalidKey(String::from_str("Key must not be an absolute path")));
    }
    let segs = split_chars(k.as_slice(), '/');
    let mut i: usize = 0;
    while i < segs.len()
        invariant
            i <= segs@.len(),
            chars_view(segs@) == split(key@, '/'),
            k@ == key@,
            key@.len() > 0,
            key@[0] != '/',
            forall|j: int| 0 <= j < i ==> #[trigger] split(key@, '/')[j] != seq!['.', '.'],
        decreases segs@.len() - i,
    {
        proof {
            assert(chars_view(segs@)[i as int] == segs@[i as int]@);
        }
        if segs[i].len() == 2 && segs[i][0] == '.' && segs[i][1] == '.' {
            proof {
                assert(segs@[i as int]@ =~= seq!['.', '.']);
                assert(split(key@, '/')[i as int] == seq!['.', '.']);
            }
            return Err(
                StorageError::InvalidKey(
                    String::from_str("Key must not contain '..' path components"),
                ),
            );
        }
        proof {
            if segs@[i as int]@ == seq!['.', '.'] {
                assert(segs@[i as int]@.len() == 2);
            }
        }
        i = i + 1;
    }
    Ok(())
}

/// The bucket name rule: 3 to 63 characters out of `a-z 0-9 . -`,
/// starting and ending with a letter or a digit.
pub open spec fn bucket_name_ok(name: Seq<char>) -> bool {
    &&& 3 <= name.len() <= 63
    &&& forall|i: int|
        0 <= i < name.len() ==> ('a' <= #[trigger] name[i] <= 'z' || '0' <= name[i] <= '9' || name[i]
            == '-' || name[i] == '.')
    &&& ('a' <= name[0] <= 'z' || '0' <= name[0] <= '9')
    &&& ('a' <= name.last() <= 'z' || '0' <= name.last() <= '9')
}

/// Checks a bucket name, failing with `InvalidBucketName`.
pub fn validate_bucket_name(name: &str) -> (r: Result<(), crate::error::S3Error>)
    ensures
        r is Ok <==> bucket_name_ok(name@),
        r matches Err(e) ==> e.code == crate::error::S3ErrorCode::InvalidBucketName
            && e.message@ == "The specified bucket is not valid: "@ + name@
            && crate::error::resource_is(e.resource, crate::error::bucket_resource(name@)),
{
    let n = chars_of(name);
    if n.len() < 3 || n.len() > 63 {
        return Err(crate::error::S3Error::invalid_bucket_name(name));
    }
    let mut i: usize = 0;
    while i < n.len()
        invariant
            i <= n@.len(),
            n@ == name@,
            forall|j: int|
                0 <= j < i ==> ('a' <= #[trigger] n@[j] <= 'z' || '0' <= n@[j] <= '9' || n@[j] == '-'
                    || n@[j] == '.'),
        decreases n@.len() - i,
    {
        let c = n[i];
        if !(('a' <= c && c <= 'z') || ('0' <= c && c <= '9') || c == '-' || c == '.') {
            return Err(crate::error::S3Error::invalid_bucket_name(name));
        }
        i = i + 1;
    }
    let first = n[0];
    let last = n[n.len() - 1];
    if !(('a' <= first && first <= 'z') || ('0' <= first && first <= '9')) || !(('a' <= last && last
        <= 'z') || ('0' <= last && last <= '9')) {
        return Err(crate::error::S3Error::invalid_bucket_name(name));
    }
    Ok(())
}

/// A file name that holds metadata rather than object bytes.
pub open spec fn is_metadata_name(name: Seq<char>) -> bool {
    name == ".bucket.json"@ || (name.len() >= ".meta.json"@.len() && name.skip(
        name.len() - ".meta.json"@.len(),
    ) == ".meta.json"@)
}

/// Whether a file name holds metadata (`.bucket.json`, or a name ending in
/// `.meta.json`); such files are never reported as objects.
pub fn is_metadata_file(name: &str) -> (r: bool)
    ensures
        r == is_metadata_name(name@),
{
    let n = chars_of(name);
    let b = chars_of(".bucket.json");
    let m = chars_of(".meta.json");
    if n.len() == b.len() && has_prefix(n.as_slice(), b.as_slice()) {
        proof {
            assert(n@.subrange(0, b@.len() as int) == n@);
        }
        return true;
    }
    proof {
        if n@ == b@ {
            assert(n@.subrange(0, b@.len() as int) == n@);
        }
    }
    if n.len() < m.len() {
        return false;
    }
    let mut i: usize = 0;
    let nl = n.len();
    let off = nl - m.len();
    while i < m.len()
        invariant
            i <= m@.len(),
            nl == n@.len(),
            n@ != ".bucket.json"@,
            off + m@.len() == n@.len(),
            n@ == name@,
            m@ == ".meta.json"@,
            n@.skip(off as int).subrange(0, i as int) == m@.subrange(0, i as int),
        decreases m@.len() - i,
    {
        if n[off + i] != m[i] {
            proof {
                assert(n@.skip(off as int)[i as int] != m@[i as int]);
            }
            return false;
        }
        proof {
            assert(n@.skip(off as int).subrange(0, i + 1) =~= m@.subrange(0, i + 1));
        }
        i = i + 1;
    }
    proof {
        assert(n@.skip(off as int).subrange(0, m@.len() as int) == n@.skip(off as int));
        assert(m@.subrange(0, m@.len() as int) == m@);
    }
    true
}

/// A file found under a bucket's directory that is not a metadata file: its
/// key (the path relative to the bucket, with `/` separators) and its
/// metadata record, when that could be read.
pub struct StoredFile {
    pub key: String,
    pub meta: Option<ObjectMeta>,
}

/// The records that a listing with `prefix` reports, in the order found:
/// those of files whose key starts with the prefix and whose metadata could
/// be read and names the file's own key (any other record is not the
/// file's).
pub open spec fn listing_of(files: Seq<StoredFile>, prefix: Seq<char>) -> Seq<ObjectMeta>
    decreases files.len(),
{
    if files.len() == 0 {
        Seq::empty()
    } else {
        let prev = listing_of(files.drop_last(), prefix);
        let f = files.last();
        if starts_with(f.key@, prefix) && f.meta is Some && f.meta->0.key@ == f.key@ {
            prev.push(f.meta->0)
        } else {
            prev
        }
    }
}

/// A listing with prefix `p` reports a record exactly when it is the
/// readable record of a stored file whose key starts with `p` and which
/// names that key.
pub proof fn lemma_listing_membership(files: Seq<StoredFile>, p: Seq<char>, m: ObjectMeta)
    ensures
        listing_of(files, p).contains(m) <==> exists|i: int|
            0 <= i < files.len() && #[trigger] files[i].meta == Some(m) && starts_with(files[i].key@, p) && m.key@
                == files[i].key@,
    decreases files.len(),
{
    if files.len() > 0 {
        let d = files.drop_last();
        lemma_listing_membership(d, p, m);
        let f = files.last();
        let prev = listing_of(d, p);
        if listing_of(files, p).contains(m) {
            let k = choose|k: int| 0 <= k < listing_of(files, p).len() && listing_of(files, p)[k] == m;
            if k < prev.len() {
                assert(prev[k] == m);
                assert(prev.contains(m));
                let i = choose|i: int| 0 <= i < d.len() && #[trigger] d[i].meta == Some(m) && starts_with(d[i].key@, p) && m.key@ == d[i].key@;
                assert(files[i] == d[i]);
            } else {
                assert(files[files.len() - 1] == f);
            }
        }
        if exists|i: int| 0 <= i < files.len() && #[trigger] files[i].meta == Some(m) && starts_with(files[i].key@, p) && m.key@ == files[i].key@ {
            let i = choose|i: int| 0 <= i < files.len() && #[trigger] files[i].meta == Some(m) && starts_with(files[i].key@, p) && m.key@ == files[i].key@;
            if i < d.len() {
                assert(d[i] == files[i]);
                assert(prev.contains(m));
                let k = choose|k: int| 0 <= k < prev.len() && prev[k] == m;
                assert(listing_of(files, p)[k] == m);
            } else {
                assert(listing_of(files, p) == prev.push(m));
                assert(listing_of(files, p)[prev.len() as int] == m);
            }
        }
    }
}

/// Whether a key belongs in a listing with `prefix`.
pub fn key_in_listing(key: &str, prefix: &str) -> (r: bool)
    ensures
        r == starts_with(key@, prefix@),
{
    let k = chars_of(key);
    let p = chars_of(prefix);
    has_prefix(k.as_slice(), p.as_slice())
}

/// Keeps the first record of each key of a list sorted by key, so that keys
/// strictly increase.
fn dedup_sorted(s: &Vec<ObjectMeta>) -> (r: Vec<ObjectMeta>)
    requires
        sorted_by_key(s@),
    ensures
        strictly_sorted(r@),
        forall|i: int| 0 <= i < r@.len() ==> s@.contains(#[trigger] r@[i]),
        forall|j: int| 0 <= j < s@.len() ==> exists|i: int| 0 <= i < r@.len() && #[trigger] r@[i].key@ == (#[trigger] s@[j]).key@,
{
    let mut out: Vec<ObjectMeta> = Vec::new();
    let mut i: usize = 0;
    while i < s.len()
        invariant
            i <= s@.len(),
            out@.len() <= i,
            sorted_by_key(s@),
            strictly_sorted(out@),
            i > 0 ==> out@.len() > 0 && out@.last().key@ == s@[i - 1].key@,
            forall|k: int| 0 <= k < out@.len() ==> s@.contains(#[trigger] out@[k]),
            forall|j: int| 0 <= j < i ==> exists|k: int| 0 <= k < out@.len() && #[trigger] out@[k].key@ == (#[trigger] s@[j]).key@,
        decreases s@.len() - i,
    {
        let dup = out.len() > 0 && out[out.len() - 1].key == s[i].key;
        if !dup {
            let ghost old_out = out@;
            let c = s[i].duplicate();
            out.push(c);
            proof {
                assert(out@[out@.len() - 1] == s@[i as int]);
                if old_out.len() > 0 {
                    let last = old_out.last().key@;
                    let cur = s@[i as int].key@;
                    assert(key_le(s@[i - 1].sort_key(), s@[i as int].sort_key()));
                    lemma_lt_total(last, cur);
                    assert(chars_lt(last, cur));
                    assert forall|a: int, b: int| 0 <= a < b < out@.len() implies chars_lt(
                        #[trigger] out@[a].key@,
                        #[trigger] out@[b].key@,
                    ) by {
                        if b == out@.len() - 1 && a < old_out.len() - 1 {
                            lemma_lt_transitive(out@[a].key@, last, cur);
                        }
                    }
                }
                assert forall|k: int| 0 <= k < out@.len() implies s@.contains(#[trigger] out@[k]) by {
                    if k < old_out.len() {
                        assert(out@[k] == old_out[k]);
                    }
                }
                assert forall|j: int| 0 <= j < i + 1 implies exists|k: int| 0 <= k < out@.len() && #[trigger] out@[k].key@ == (#[trigger] s@[j]).key@ by {
                    if j < i {
                        let k = choose|k: int| 0 <= k < old_out.len() && #[trigger] old_out[k].key@ == s@[j].key@;
                        assert(out@[k] == old_out[k]);
                    } else {
                        assert(out@[out@.len() - 1].key@ == s@[j].key@);
                    }
                }
            }
        }
        i = i + 1;
    }
    out
}

/// No two stored files share a key, as in a directory tree.
pub open spec fn distinct_keys(files: Seq<StoredFile>) -> bool {
    forall|a: int, b: int| 0 <= a < b < files.len() ==> (#[trigger] files[a]).key@ != (#[trigger] files[b]).key@
}

/// When stored files have distinct keys, a list that holds only listed
/// records and some record of each listed key holds exactly the listed
/// records.
proof fn lemma_exact_listing(orig: Seq<StoredFile>, p: Seq<char>, r: Seq<ObjectMeta>)
    requires
        distinct_keys(orig),
        forall|i: int| 0 <= i < r.len() ==> listing_of(orig, p).contains(#[trigger] r[i]),
        forall|m: ObjectMeta| #[trigger] listing_of(orig, p).contains(m) ==> exists|i: int|
            0 <= i < r.len() && #[trigger] r[i].key@ == m.key@,
    ensures
        forall|m: ObjectMeta| #[trigger] r.contains(m) <==> listing_of(orig, p).contains(m),
{
    assert forall|m: ObjectMeta| #[trigger] r.contains(m) <==> listing_of(orig, p).contains(m) by {
        if listing_of(orig, p).contains(m) {
            let i = choose|i: int| 0 <= i < r.len() && #[trigger] r[i].key@ == m.key@;
            let x = r[i];
            assert(listing_of(orig, p).contains(x));
            lemma_listing_membership(orig, p, m);
            lemma_listing_membership(orig, p, x);
            let a = choose|a: int| 0 <= a < orig.len() && #[trigger] orig[a].meta == Some(m) && starts_with(orig[a].key@, p) && m.key@ == orig[a].key@;
            let b = choose|b: int| 0 <= b < orig.len() && #[trigger] orig[b].meta == Some(x) && starts_with(orig[b].key@, p) && x.key@ == orig[b].key@;
            if a < b {
                assert(orig[a].key@ != orig[b].key@);
            } else if b < a {
                assert(orig[b].key@ != orig[a].key@);
            }
            assert(x == m);
        }
        if r.contains(m) {
            let i = choose|i: int| 0 <= i < r.len() && r[i] == m;
            assert(listing_of(orig, p).contains(r[i]));
        }
    }
}

/// The objects of a bucket whose key starts with `prefix`, sorted by key:
/// each record that a listing reports, each key once, keys strictly
/// increasing.
pub fn list_objects(files: Vec<StoredFile>, prefix: &str) -> (r: Vec<ObjectMeta>)
    ensures
        strictly_sorted(r@),
        forall|i: int| 0 <= i < r@.len() ==> starts_with((#[trigger] r@[i]).key@, prefix@),
        forall|i: int| 0 <= i < r@.len() ==> listing_of(files@, prefix@).contains(#[trigger] r@[i]),
        forall|m: ObjectMeta| #[trigger] listing_of(files@, prefix@).contains(m) ==> exists|i: int|
            0 <= i < r@.len() && #[trigger] r@[i].key@ == m.key@,
        distinct_keys(files@) ==> forall|m: ObjectMeta| #[trigger] r@.contains(m) <==> listing_of(files@, prefix@).contains(m),
{
    let ghost orig = files@;
    let mut files = files;
    let mut kept: Vec<ObjectMeta> = Vec::new();
    let p = chars_of(prefix);
    let mut rest: Vec<StoredFile> = Vec::new();
    while files.len() > 0
        invariant
            files@.len() <= orig.len(),
            p@ == prefix@,
            rest@ == orig.subrange(files@.len() as int, orig.len() as int).reverse(),
            files@ == orig.subrange(0, files@.len() as int),
        decreases files@.len(),
    {
        let ghost before = files@;
        let f = files.pop().unwrap();
        proof {
            assert(before == files@.push(f));
        }
        rest.push(f);
        proof {
            assert(rest@ =~= orig.subrange(files@.len() as int, orig.len() as int).reverse());
        }
    }
    let n = rest.len();
    while rest.len() > 0
        invariant
            p@ == prefix@,
            rest@.len() <= orig.len(),
            n == orig.len(),
            rest@ == orig.subrange(orig.len() - rest@.len(), orig.len() as int).reverse(),
            kept@ == listing_of(orig.subrange(0, orig.len() - rest@.len()), prefix@),
        decreases rest@.len(),
    {
        let ghost before = rest@;
        let ghost i = orig.len() - rest@.len();
        let f = rest.pop().unwrap();
        proof {
            assert(before == rest@.push(f));
            assert(f == orig[i]);
            assert(orig.subrange(0, i + 1).drop_last() == orig.subrange(0, i));
            assert(rest@ =~= orig.subrange(i + 1, orig.len() as int).reverse());
        }
        let k = chars_of(f.key.as_str());
        if has_prefix(k.as_slice(), p.as_slice()) {
            match f.meta {
                Some(m) => {
                    if m.key == f.key {
                        kept.push(m);
                    }
                },
                None => {},
            }
        }
    }
    proof {
        assert(orig.subrange(0, orig.len() as int) == orig);
    }
    let ghost listed = kept@;
    let sorted = sort_by_key(kept);
    let r = dedup_sorted(&sorted);
    proof {
        assert(listed == listing_of(orig, prefix@));
        assert forall|i: int| 0 <= i < r@.len() implies listing_of(orig, prefix@).contains(#[trigger] r@[i]) by {
            assert(sorted@.contains(r@[i]));
            assert(sorted@.to_multiset().count(r@[i]) > 0);
            assert(listed.to_multiset().count(r@[i]) > 0);
        }
        assert forall|i: int| 0 <= i < r@.len() implies starts_with((#[trigger] r@[i]).key@, prefix@) by {
            assert(listing_of(orig, prefix@).contains(r@[i]));
            lemma_listing_membership(orig, prefix@, r@[i]);
        }
        assert forall|m: ObjectMeta| #[trigger] listing_of(orig, prefix@).contains(m) implies exists|i: int|
            0 <= i < r@.len() && #[trigger] r@[i].key@ == m.key@ by {
            assert(listed.to_multiset().count(m) > 0);
            assert(sorted@.to_multiset().count(m) > 0);
            assert(sorted@.contains(m));
            let j = choose|j: int| 0 <= j < sorted@.len() && sorted@[j] == m;
            assert(sorted@[j].key@ == m.key@);
            assert(exists|i: int| 0 <= i < r@.len() && #[trigger] r@[i].key@ == sorted@[j].key@);
        }
        if distinct_keys(orig) {
            lemma_exact_listing(orig, prefix@, r@);
        }
    }
    r
}

/// Sorts bucket records by name.
pub fn sort_buckets(buckets: Vec<BucketMeta>) -> (r: Vec<BucketMeta>)
    ensures
        r@.to_multiset() == buckets@.to_multiset(),
        sorted_by_key(r@),
        keys_of(r@) == sort_keys(keys_of(buckets@)),
{
    sort_by_key(buckets)
}

/// What deleting a bucket comes to, from whether its metadata record exists
/// and the non-metadata files under its directory: `Ok(false)` for a bucket
/// that does not exist, `BucketNotEmpty` while any file is left, else
/// `Ok(true)` and the directory may be removed.
pub open spec fn delete_outcome_ok(exists: bool, files: Seq<StoredFile>) -> Option<bool> {
    if !exists {
        Some(false)
    } else if files.len() > 0 {
        None
    } else {
        Some(true)
    }
}

/// Decides a bucket deletion; see `delete_outcome_ok`.
pub fn delete_bucket_decision(exists: bool, files: &Vec<StoredFile>) -> (r: Result<bool, StorageError>)
    ensures
        delete_outcome_ok(exists, files@) matches Some(b) ==> r == Ok::<bool, StorageError>(b),
        delete_outcome_ok(exists, files@) is None ==> r matches Err(StorageError::BucketNotEmpty),
{
    if !exists {
        Ok(false)
    } else if files.len() > 0 {
        Err(StorageError::BucketNotEmpty)
    } else {
        Ok(true)
    }
}

/// An existing bucket whose every object has its metadata record is deleted
/// exactly when a listing of it reports no object.
pub proof fn lemma_delete_iff_listing_empty(files: Seq<StoredFile>)
    requires
        forall|i: int| 0 <= i < files.len() ==> (#[trigger] files[i]).meta is Some && files[i].meta->0.key@ == files[i].key@,
    ensures
        (delete_outcome_ok(true, files) == Some(true)) <==> listing_of(files, Seq::empty()).len() == 0,
    decreases files.len(),
{
    if files.len() > 0 {
        let f = files.last();
        assert(files[files.len() - 1] == f);
        assert(starts_with(f.key@, Seq::empty())) by {
            assert(f.key@.subrange(0, 0) =~= Seq::<char>::empty());
        }
        assert(listing_of(files, Seq::empty()).len() == listing_of(files.drop_last(), Seq::empty()).len() + 1);
    }
}

/// The on-disk layout of a data directory.
pub struct FilesystemStorage {
    pub buckets_dir: String,
}

impl FilesystemStorage {
    /// The layout rooted at `data_dir`: buckets live under `buckets/`.
    pub fn new(data_dir: &str) -> (r: Self)
        ensures
            r.buckets_dir@ == data_dir@ + "/buckets"@,
    {
        FilesystemStorage { buckets_dir: concat(data_dir, "/buckets") }
    }

    /// The directory of a bucket.
    pub fn bucket_dir(&self, bucket: &str) -> (r: String)
        ensures
            r@ == self.buckets_dir@ + seq!['/'] + bucket@,
    {
        let mut s = concat(self.buckets_dir.as_str(), "/");
        proof {
            reveal_strlit("/");
        }
        s.append(bucket);
        s
    }

    /// The metadata record of a bucket: `.bucket.json` in its directory.
    pub fn bucket_meta_path(&self, bucket: &str) -> (r: String)
        ensures
            r@ == self.buckets_dir@ + seq!['/'] + bucket@ + "/.bucket.json"@,
    {
        let mut s = self.bucket_dir(bucket);
        s.append("/.bucket.json");
        s
    }

    /// The file of an object's bytes.
    pub fn object_path(&self, bucket: &str, key: &str) -> (r: String)
        ensures
            r@ == self.buckets_dir@ + seq!['/'] + bucket@ + seq!['/'] + key@,
    {
        let mut s = self.bucket_dir(bucket);
        s.append("/");
        proof {
            reveal_strlit("/");
        }
        s.append(key);
        s
    }

    /// The metadata file of an object: its key with `.meta.json` appended.
    pub fn meta_path(&self, bucket: &str, key: &str) -> (r: String)
        ensures
            r@ == self.buckets_dir@ + seq!['/'] + bucket@ + seq!['/'] + key@ + ".meta.json"@,
    {
        let mut s = self.object_path(bucket, key);
        s.append(".meta.json");
        s
    }
}

} // verus!
