//! The XML documents of the S3 protocol: response records, their rendering,
//! and the keys of a multi-object delete request.

use vstd::prelude::*;
use quick_xml::events::Event;
use vstd::string::*;
use crate::error::S3Error;
use crate::text::{append_chars, chars_of, find, occurs_at, string_of};

verus! {

/// The owner reported with a bucket list.
pub struct Owner {
    pub id: String,
    pub display_name: String,
}

/// One bucket of a bucket list.
pub struct BucketEntry {
    pub name: String,
    pub creation_date: String,
}

/// The buckets of a bucket list.
pub struct Buckets {
    pub bucket: Vec<BucketEntry>,
}

/// The `ListAllMyBucketsResult` document.
pub struct ListAllMyBucketsResult {
    pub owner: Owner,
    pub buckets: Buckets,
}

/// One object of a listing.
pub struct ObjectEntry {
    pub key: String,
    pub last_modified: String,
    pub etag: String,
    pub size: u64,
    pub storage_class: String,
}

/// One rolled-up key prefix of a listing.
pub struct CommonPrefix {
    pub prefix: String,
}

/// The `ListBucketResult` document of a version 2 listing.
pub struct ListBucketResult {
    pub name: String,
    pub prefix: String,
    pub key_count: i32,
    pub max_keys: i32,
    pub is_truncated: bool,
    pub contents: Vec<ObjectEntry>,
    pub common_prefixes: Vec<CommonPrefix>,
    pub continuation_token: Option<String>,
    pub next_continuation_token: Option<String>,
    pub delimiter: Option<String>,
    pub start_after: Option<String>,
}

/// The `ListBucketResult` document of a version 1 listing.
pub struct ListBucketResultV1 {
    pub name: String,
    pub prefix: String,
    pub marker: String,
    pub next_marker: Option<String>,
    pub max_keys: i32,
    pub is_truncated: bool,
    pub contents: Vec<ObjectEntry>,
    pub common_prefixes: Vec<CommonPrefix>,
    pub delimiter: Option<String>,
}

/// The `LocationConstraint` document.
pub struct LocationConstraint {
    pub location: String,
}

/// The `InitiateMultipartUploadResult` document.
pub struct InitiateMultipartUploadResult {
    pub bucket: String,
    pub key: String,
    pub upload_id: String,
}

/// The `CompleteMultipartUploadResult` document.
pub struct CompleteMultipartUploadResult {
    pub location: String,
    pub bucket: String,
    pub key: String,
    pub etag: String,
}

/// One part of a `ListPartsResult`.
pub struct PartEntry {
    pub part_number: u32,
    pub last_modified: String,
    pub etag: String,
    pub size: u64,
}

/// The `ListPartsResult` document.
pub struct ListPartsResult {
    pub bucket: String,
    pub key: String,
    pub upload_id: String,
    pub is_truncated: bool,
    pub parts: Vec<PartEntry>,
}

/// One upload of a `ListMultipartUploadsResult`.
pub struct MultipartUploadEntry {
    pub key: String,
    pub upload_id: String,
    pub initiated: String,
}

/// The `ListMultipartUploadsResult` document.
pub struct ListMultipartUploadsResult {
    pub bucket: String,
    pub is_truncated: bool,
    pub uploads: Vec<MultipartUploadEntry>,
}

/// The `CopyObjectResult` document.
pub struct CopyObjectResult {
    pub etag: String,
    pub last_modified: String,
}

/// The `VersioningConfiguration` document.
pub struct VersioningConfiguration {
    pub status: Option<String>,
}

/// One object version of a `ListVersionsResult`.
pub struct VersionEntry {
    pub key: String,
    pub version_id: String,
    pub is_latest: bool,
    pub last_modified: String,
    pub etag: String,
    pub size: u64,
    pub storage_class: String,
}

/// One delete marker of a `ListVersionsResult`.
pub struct DeleteMarkerEntry {
    pub key: String,
    pub version_id: String,
    pub is_latest: bool,
    pub last_modified: String,
}

/// The `ListVersionsResult` document.
pub struct ListVersionsResult {
    pub name: String,
    pub prefix: String,
    pub key_marker: String,
    pub version_id_marker: String,
    pub max_keys: i32,
    pub is_truncated: bool,
    pub versions: Vec<VersionEntry>,
    pub delete_markers: Vec<DeleteMarkerEntry>,
}

/// A character of text as XML escapes it.
pub open spec fn escape_char(c: char) -> Seq<char> {
    if c == '<' {
        "&lt;"@
    } else if c == '>' {
        "&gt;"@
    } else if c == '&' {
        "&amp;"@
    } else if c == '\'' {
        "&apos;"@
    } else if c == '"' {
        "&quot;"@
    } else {
        seq![c]
    }
}

/// Text with `< > & ' "` replaced by their entities.
pub open spec fn xml_escaped(s: Seq<char>) -> Seq<char>
    decreases s.len(),
{
    if s.len() == 0 {
        Seq::empty()
    } else {
        xml_escaped(s.drop_last()) + escape_char(s.last())
    }
}

/// Relies on quick-xml's `escape::escape`: it replaces `<`, `>`, `&`, `'`
/// and `"` by `&lt;`, `&gt;`, `&amp;`, `&apos;` and `&quot;`.
#[verifier::external_body]
pub(crate) fn escape_text(s: &str) -> (r: String)
    ensures
        r@ == xml_escaped(s@),
{
    quick_xml::escape::escape(s).into_owned()
}

/// What the XML reader reports, as far as a delete request needs it.
pub enum XmlEvent {
    /// An opening tag, with its name.
    Start(Vec<u8>),
    /// A closing tag, with its name.
    End(Vec<u8>),
    /// Text, unescaped; empty when an entity could not be unescaped.
    Text(String),
    Eof,
    Other,
    /// The document is not well-formed.
    Malformed,
}

/// The events that quick-xml's reader reports for a document, up to and
/// including the first `Eof` or error.
pub uninterp spec fn xml_events_of(body: Seq<char>) -> Seq<XmlEvent>;

/// Relies on quick-xml's `Reader::from_str` (with `trim_text`) and
/// `read_event`, read until `Eof` or an error, each event mapped one for one.
#[verifier::external_body]
fn xml_events(body: &str) -> (r: Vec<XmlEvent>)
    ensures
        r@ == xml_events_of(body@),
{
    let mut reader = quick_xml::Reader::from_str(body);
    reader.config_mut().trim_text(true);
    let mut events: Vec<XmlEvent> = Vec::new();
    while !matches!(events.last(), Some(XmlEvent::Eof | XmlEvent::Malformed)) {
        events.push(match reader.read_event() {
            Ok(Event::Start(e)) => XmlEvent::Start(e.name().as_ref().to_vec()),
            Ok(Event::End(e)) => XmlEvent::End(e.name().as_ref().to_vec()),
            Ok(Event::Text(e)) => XmlEvent::Text(e.unescape().unwrap_or_default().into_owned()),
            Ok(Event::Eof) => XmlEvent::Eof,
            Ok(_) => XmlEvent::Other,
            Err(_) => XmlEvent::Malformed,
        });
    }
    events
}

/// The tag name `Key`.
pub open spec fn is_key_tag(name: Seq<u8>) -> bool {
    name == seq![75u8, 101u8, 121u8]
}

/// The keys of a delete request from its XML events, from position `i` on,
/// with `in_key` telling whether a `<Key>` is open and `keys` those found so
/// far: the text that follows an opening `<Key>` is a key. `None` when the
/// document is malformed; the events end at `Eof`.
pub open spec fn scan_keys(evs: Seq<XmlEvent>, i: int, in_key: bool, keys: Seq<Seq<char>>) -> Option<Seq<Seq<char>>>
    decreases evs.len() - i,
{
    if i < 0 || i >= evs.len() {
        Some(keys)
    } else {
        match evs[i] {
            XmlEvent::Start(n) => scan_keys(evs, i + 1, if is_key_tag(n@) { true } else { in_key }, keys),
            XmlEvent::End(n) => scan_keys(evs, i + 1, if is_key_tag(n@) { false } else { in_key }, keys),
            XmlEvent::Text(t) => if in_key {
                scan_keys(evs, i + 1, false, keys.push(t@))
            } else {
                scan_keys(evs, i + 1, in_key, keys)
            },
            XmlEvent::Eof => Some(keys),
            XmlEvent::Other => scan_keys(evs, i + 1, in_key, keys),
            XmlEvent::Malformed => None,
        }
    }
}

fn is_key_name(n: &Vec<u8>) -> (r: bool)
    ensures
        r == is_key_tag(n@),
{
    let r = n.len() == 3 && n[0] == 75 && n[1] == 101 && n[2] == 121;
    proof {
        if r {
            assert(n@ =~= seq![75u8, 101u8, 121u8]);
        }
    }
    r
}

/// The keys named by a delete request's XML events, in document order, or
/// `MalformedXML`.
pub fn keys_from_events(evs: &Vec<XmlEvent>) -> (r: Result<Vec<String>, S3Error>)
    ensures
        match scan_keys(evs@, 0, false, Seq::empty()) {
            Some(ks) => r matches Ok(v) && v@.map_values(|s: String| s@) == ks,
            None => r matches Err(e) && e.code == crate::error::S3ErrorCode::MalformedXML,
        },
{
    let mut keys: Vec<String> = Vec::new();
    let mut in_key = false;
    let mut i: usize = 0;
    proof {
        assert(keys@.map_values(|s: String| s@) =~= Seq::<Seq<char>>::empty());
    }
    while i < evs.len()
        invariant
            i <= evs@.len(),
            scan_keys(evs@, 0, false, Seq::empty()) == scan_keys(
                evs@,
                i as int,
                in_key,
                keys@.map_values(|s: String| s@),
            ),
        decreases evs@.len() - i,
    {
        match &evs[i] {
            XmlEvent::Start(n) => {
                if is_key_name(n) {
                    in_key = true;
                }
            },
            XmlEvent::End(n) => {
                if is_key_name(n) {
                    in_key = false;
                }
            },
            XmlEvent::Text(t) => {
                if in_key {
                    let ghost old_k = keys@;
                    keys.push(t.clone());
                    proof {
                        assert(keys@.map_values(|s: String| s@) =~= old_k.map_values(|s: String| s@).push(t@));
                    }
                    in_key = false;
                }
            },
            XmlEvent::Eof => {
                return Ok(keys);
            },
            XmlEvent::Other => {},
            XmlEvent::Malformed => {
                return Err(S3Error::malformed_xml());
            },
        }
        i = i + 1;
    }
    Ok(keys)
}

/// The keys of a multi-object delete request: the text of every `<Key>`
/// element, in document order, or `MalformedXML` when the reader finds the
/// document malformed.
pub fn delete_request_keys(body: &str) -> (r: Result<Vec<String>, S3Error>)
    ensures
        match scan_keys(xml_events_of(body@), 0, false, Seq::empty()) {
            Some(ks) => r matches Ok(v) && v@.map_values(|s: String| s@) == ks,
            None => r matches Err(e) && e.code == crate::error::S3ErrorCode::MalformedXML,
        },
{
    let events = xml_events(body);
    keys_from_events(&events)
}

/// The outcome of deleting one key of a multi-object delete: `None` when it
/// was deleted, else the message of the failure.
pub struct DeleteOutcome {
    pub key: String,
    pub error: Option<String>,
}

/// The `<Deleted>` element of a deleted key.
pub open spec fn deleted_element(key: Seq<char>) -> Seq<char> {
    "<Deleted><Key>"@ + xml_escaped(key) + "</Key></Deleted>"@
}

/// The `<Error>` element of a key that could not be deleted.
pub open spec fn error_element(key: Seq<char>, message: Seq<char>) -> Seq<char> {
    "<Error><Key>"@ + xml_escaped(key) + "</Key><Code>InternalError</Code><Message>"@ + xml_escaped(message)
        + "</Message></Error>"@
}

/// The `<Deleted>` elements of the outcomes, in order.
pub open spec fn deleted_part(outs: Seq<DeleteOutcome>) -> Seq<char>
    decreases outs.len(),
{
    if outs.len() == 0 {
        Seq::empty()
    } else {
        deleted_part(outs.drop_last()) + match outs.last().error {
            None => deleted_element(outs.last().key@),
            Some(_) => Seq::empty(),
        }
    }
}

/// The `<Error>` elements of the outcomes, in order.
pub open spec fn error_part(outs: Seq<DeleteOutcome>) -> Seq<char>
    decreases outs.len(),
{
    if outs.len() == 0 {
        Seq::empty()
    } else {
        error_part(outs.drop_last()) + match outs.last().error {
            None => Seq::empty(),
            Some(m) => error_element(outs.last().key@, m@),
        }
    }
}

/// The `DeleteResult` document: every deleted key, then every failure.
pub open spec fn delete_result_document(outs: Seq<DeleteOutcome>) -> Seq<char> {
    "<?xml version=\"1.0\" encoding=\"UTF-8\"?><DeleteResult xmlns=\"http://s3.amazonaws.com/doc/2006-03-01/\">"@
        + deleted_part(outs) + error_part(outs) + "</DeleteResult>"@
}

/// Renders the response to a multi-object delete.
pub fn render_delete_result(outs: &Vec<DeleteOutcome>) -> (r: String)
    ensures
        r@ == delete_result_document(outs@),
{
    let mut deleted = String::new();
    let mut errors = String::new();
    let mut i: usize = 0;
    while i < outs.len()
        invariant
            i <= outs@.len(),
            deleted@ == deleted_part(outs@.subrange(0, i as int)),
            errors@ == error_part(outs@.subrange(0, i as int)),
        decreases outs@.len() - i,
    {
        proof {
            assert(outs@.subrange(0, i + 1).drop_last() == outs@.subrange(0, i as int));
            assert(outs@.subrange(0, i + 1).last() == outs@[i as int]);
        }
        let o = &outs[i];
        match &o.error {
            None => {
                deleted.append("<Deleted><Key>");
                deleted.append(escape_text(o.key.as_str()).as_str());
                deleted.append("</Key></Deleted>");
            },
            Some(m) => {
                errors.append("<Error><Key>");
                errors.append(escape_text(o.key.as_str()).as_str());
                errors.append("</Key><Code>InternalError</Code><Message>");
                errors.append(escape_text(m.as_str()).as_str());
                errors.append("</Message></Error>");
            },
        }
        proof {
            assert(deleted@ =~= deleted_part(outs@.subrange(0, i + 1)));
            assert(errors@ =~= error_part(outs@.subrange(0, i + 1)));
        }
        i = i + 1;
    }
    proof {
        assert(outs@.subrange(0, outs@.len() as int) == outs@);
    }
    let mut r = String::from_str(
        "<?xml version=\"1.0\" encoding=\"UTF-8\"?><DeleteResult xmlns=\"http://s3.amazonaws.com/doc/2006-03-01/\">",
    );
    r.append(deleted.as_str());
    r.append(errors.as_str());
    r.append("</DeleteResult>");
    r
}

/// The XML declaration that starts every response document.
pub open spec fn xml_decl() -> Seq<char> {
    "<?xml version=\"1.0\" encoding=\"UTF-8\"?>"@
}

/// An element with text content.
pub open spec fn el(tag: Seq<char>, content: Seq<char>) -> Seq<char> {
    seq!['<'] + tag + seq!['>'] + content + "</"@ + tag + seq!['>']
}

/// An element with escaped text, or nothing when the value is absent.
pub open spec fn opt_el(tag: Seq<char>, v: Option<String>) -> Seq<char> {
    match v {
        Some(s) => el(tag, xml_escaped(s@)),
        None => Seq::empty(),
    }
}

/// A decimal digit.
pub open spec fn digit_char(d: nat) -> char {
    (48 + d) as char
}

/// The decimal representation of a number.
pub open spec fn decimal(n: nat) -> Seq<char>
    decreases n,
{
    if n < 10 {
        seq![digit_char(n)]
    } else {
        decimal(n / 10) + seq![digit_char(n % 10)]
    }
}

/// The decimal representation of a number.
pub fn decimal_chars(n: u64) -> (r: Vec<char>)
    ensures
        r@ == decimal(n as nat),
    decreases n,
{
    if n < 10 {
        let mut v: Vec<char> = Vec::new();
        v.push(((48 + n) as u8) as char);
        v
    } else {
        let mut v = decimal_chars(n / 10);
        v.push(((48 + n % 10) as u8) as char);
        v
    }
}

/// `true` or `false`.
pub open spec fn bool_text(b: bool) -> Seq<char> {
    if b {
        "true"@
    } else {
        "false"@
    }
}

/// An `i32` that is not negative, in decimal; a negative one as `-` and its
/// magnitude.
pub open spec fn int_text(n: i32) -> Seq<char> {
    if n >= 0 {
        decimal(n as nat)
    } else {
        seq!['-'] + decimal((-n) as nat)
    }
}

fn push_el(out: &mut String, tag: &str, content: &str)
    ensures
        final(out)@ == old(out)@ + el(tag@, content@),
{
    out.append("<");
    out.append(tag);
    out.append(">");
    out.append(content);
    out.append("</");
    out.append(tag);
    out.append(">");
    proof {
        reveal_strlit("<");
        reveal_strlit(">");
    }
}

fn push_text_el(out: &mut String, tag: &str, content: &str)
    ensures
        final(out)@ == old(out)@ + el(tag@, xml_escaped(content@)),
{
    let e = escape_text(content);
    push_el(out, tag, e.as_str());
}

fn push_opt_el(out: &mut String, tag: &str, v: &Option<String>)
    ensures
        final(out)@ == old(out)@ + opt_el(tag@, *v),
{
    match v {
        Some(s) => push_text_el(out, tag, s.as_str()),
        None => {
            proof {
                assert(old(out)@ + Seq::<char>::empty() == old(out)@);
            }
        },
    }
}

fn push_bool_el(out: &mut String, tag: &str, b: bool)
    ensures
        final(out)@ == old(out)@ + el(tag@, bool_text(b)),
{
    if b {
        push_el(out, tag, "true");
    } else {
        push_el(out, tag, "false");
    }
}

fn push_u64_el(out: &mut String, tag: &str, n: u64)
    ensures
        final(out)@ == old(out)@ + el(tag@, decimal(n as nat)),
{
    let d = decimal_chars(n);
    let s = string_of(d.as_slice());
    push_el(out, tag, s.as_str());
}

fn push_i32_el(out: &mut String, tag: &str, n: i32)
    ensures
        final(out)@ == old(out)@ + el(tag@, int_text(n)),
{
    if n >= 0 {
        push_u64_el(out, tag, n as u64);
    } else {
        let mut d: Vec<char> = Vec::new();
        d.push('-');
        let m = decimal_chars((-(n as i64)) as u64);
        append_chars(&mut d, m.as_slice());
        let s = string_of(d.as_slice());
        push_el(out, tag, s.as_str());
    }
}

/// The `<Contents>` element of a listed object.
pub open spec fn contents_el(e: ObjectEntry) -> Seq<char> {
    el(
        "Contents"@,
        el("Key"@, xml_escaped(e.key@)) + el("LastModified"@, xml_escaped(e.last_modified@)) + el(
            "ETag"@,
            xml_escaped(e.etag@),
        ) + el("Size"@, decimal(e.size as nat)) + el("StorageClass"@, xml_escaped(e.storage_class@)),
    )
}

/// The `<Contents>` elements, in order.
pub open spec fn contents_els(es: Seq<ObjectEntry>) -> Seq<char>
    decreases es.len(),
{
    if es.len() == 0 {
        Seq::empty()
    } else {
        contents_els(es.drop_last()) + contents_el(es.last())
    }
}

/// The `<CommonPrefixes>` elements, in order.
pub open spec fn prefix_els(ps: Seq<CommonPrefix>) -> Seq<char>
    decreases ps.len(),
{
    if ps.len() == 0 {
        Seq::empty()
    } else {
        prefix_els(ps.drop_last()) + el("CommonPrefixes"@, el("Prefix"@, xml_escaped(ps.last().prefix@)))
    }
}

fn push_contents(out: &mut String, es: &Vec<ObjectEntry>)
    ensures
        final(out)@ == old(out)@ + contents_els(es@),
{
    let ghost base = out@;
    let mut i: usize = 0;
    while i < es.len()
        invariant
            i <= es@.len(),
            out@ == base + contents_els(es@.subrange(0, i as int)),
        decreases es@.len() - i,
    {
        proof {
            assert(es@.subrange(0, i + 1).drop_last() == es@.subrange(0, i as int));
        }
        let e = &es[i];
        let mut inner = String::new();
        push_text_el(&mut inner, "Key", e.key.as_str());
        push_text_el(&mut inner, "LastModified", e.last_modified.as_str());
        push_text_el(&mut inner, "ETag", e.etag.as_str());
        push_u64_el(&mut inner, "Size", e.size);
        push_text_el(&mut inner, "StorageClass", e.storage_class.as_str());
        push_el(out, "Contents", inner.as_str());
        proof {
            assert(out@ =~= base + contents_els(es@.subrange(0, i + 1)));
        }
        i = i + 1;
    }
    proof {
        assert(es@.subrange(0, es@.len() as int) == es@);
    }
}

fn push_prefixes(out: &mut String, ps: &Vec<CommonPrefix>)
    ensures
        final(out)@ == old(out)@ + prefix_els(ps@),
{
    let ghost base = out@;
    let mut i: usize = 0;
    while i < ps.len()
        invariant
            i <= ps@.len(),
            out@ == base + prefix_els(ps@.subrange(0, i as int)),
        decreases ps@.len() - i,
    {
        proof {
            assert(ps@.subrange(0, i + 1).drop_last() == ps@.subrange(0, i as int));
        }
        let mut inner = String::new();
        push_text_el(&mut inner, "Prefix", ps[i].prefix.as_str());
        push_el(out, "CommonPrefixes", inner.as_str());
        proof {
            assert(out@ =~= base + prefix_els(ps@.subrange(0, i + 1)));
        }
        i = i + 1;
    }
    proof {
        assert(ps@.subrange(0, ps@.len() as int) == ps@);
    }
}

/// The version 2 `ListBucketResult` document.
pub open spec fn list_v2_document(r: ListBucketResult) -> Seq<char> {
    xml_decl() + el(
        "ListBucketResult"@,
        el("Name"@, xml_escaped(r.name@)) + el("Prefix"@, xml_escaped(r.prefix@)) + el(
            "KeyCount"@,
            int_text(r.key_count),
        ) + el("MaxKeys"@, int_text(r.max_keys)) + el("IsTruncated"@, bool_text(r.is_truncated))
            + contents_els(r.contents@) + prefix_els(r.common_prefixes@) + opt_el(
            "ContinuationToken"@,
            r.continuation_token,
        ) + opt_el("NextContinuationToken"@, r.next_continuation_token) + opt_el(
            "Delimiter"@,
            r.delimiter,
        ) + opt_el("StartAfter"@, r.start_after),
    )
}

/// Renders a version 2 listing.
pub fn render_list_v2(r: &ListBucketResult) -> (s: String)
    ensures
        s@ == list_v2_document(*r),
{
    let mut inner = String::new();
    push_text_el(&mut inner, "Name", r.name.as_str());
    push_text_el(&mut inner, "Prefix", r.prefix.as_str());
    push_i32_el(&mut inner, "KeyCount", r.key_count);
    push_i32_el(&mut inner, "MaxKeys", r.max_keys);
    push_bool_el(&mut inner, "IsTruncated", r.is_truncated);
    push_contents(&mut inner, &r.contents);
    push_prefixes(&mut inner, &r.common_prefixes);
    push_opt_el(&mut inner, "ContinuationToken", &r.continuation_token);
    push_opt_el(&mut inner, "NextContinuationToken", &r.next_continuation_token);
    push_opt_el(&mut inner, "Delimiter", &r.delimiter);
    push_opt_el(&mut inner, "StartAfter", &r.start_after);
    let mut s = String::from_str("<?xml version=\"1.0\" encoding=\"UTF-8\"?>");
    push_el(&mut s, "ListBucketResult", inner.as_str());
    proof {
        assert(s@ =~= list_v2_document(*r));
    }
    s
}

/// The version 1 `ListBucketResult` document.
pub open spec fn list_v1_document(r: ListBucketResultV1) -> Seq<char> {
    xml_decl() + el(
        "ListBucketResult"@,
        el("Name"@, xml_escaped(r.name@)) + el("Prefix"@, xml_escaped(r.prefix@)) + el(
            "Marker"@,
            xml_escaped(r.marker@),
        ) + opt_el("NextMarker"@, r.next_marker) + el("MaxKeys"@, int_text(r.max_keys)) + el(
            "IsTruncated"@,
            bool_text(r.is_truncated),
        ) + contents_els(r.contents@) + prefix_els(r.common_prefixes@) + opt_el(
            "Delimiter"@,
            r.delimiter,
        ),
    )
}

/// Renders a version 1 listing.
pub fn render_list_v1(r: &ListBucketResultV1) -> (s: String)
    ensures
        s@ == list_v1_document(*r),
{
    let mut inner = String::new();
    push_text_el(&mut inner, "Name", r.name.as_str());
    push_text_el(&mut inner, "Prefix", r.prefix.as_str());
    push_text_el(&mut inner, "Marker", r.marker.as_str());
    push_opt_el(&mut inner, "NextMarker", &r.next_marker);
    push_i32_el(&mut inner, "MaxKeys", r.max_keys);
    push_bool_el(&mut inner, "IsTruncated", r.is_truncated);
    push_contents(&mut inner, &r.contents);
    push_prefixes(&mut inner, &r.common_prefixes);
    push_opt_el(&mut inner, "Delimiter", &r.delimiter);
    let mut s = String::from_str("<?xml version=\"1.0\" encoding=\"UTF-8\"?>");
    push_el(&mut s, "ListBucketResult", inner.as_str());
    proof {
        assert(s@ =~= list_v1_document(*r));
    }
    s
}

/// The `<Bucket>` elements of a bucket list, in order.
pub open spec fn bucket_els(bs: Seq<BucketEntry>) -> Seq<char>
    decreases bs.len(),
{
    if bs.len() == 0 {
        Seq::empty()
    } else {
        bucket_els(bs.drop_last()) + el(
            "Bucket"@,
            el("Name"@, xml_escaped(bs.last().name@)) + el("CreationDate"@, xml_escaped(bs.last().creation_date@)),
        )
    }
}

/// The `ListAllMyBucketsResult` document.
pub open spec fn list_buckets_document(r: ListAllMyBucketsResult) -> Seq<char> {
    xml_decl() + el(
        "ListAllMyBucketsResult"@,
        el(
            "Owner"@,
            el("ID"@, xml_escaped(r.owner.id@)) + el("DisplayName"@, xml_escaped(r.owner.display_name@)),
        ) + el("Buckets"@, bucket_els(r.buckets.bucket@)),
    )
}

/// Renders a bucket list.
pub fn render_list_buckets(r: &ListAllMyBucketsResult) -> (s: String)
    ensures
        s@ == list_buckets_document(*r),
{
    let mut owner = String::new();
    push_text_el(&mut owner, "ID", r.owner.id.as_str());
    push_text_el(&mut owner, "DisplayName", r.owner.display_name.as_str());
    let bs = &r.buckets.bucket;
    let mut buckets = String::new();
    let mut i: usize = 0;
    while i < bs.len()
        invariant
            i <= bs@.len(),
            buckets@ == bucket_els(bs@.subrange(0, i as int)),
        decreases bs@.len() - i,
    {
        proof {
            assert(bs@.subrange(0, i + 1).drop_last() == bs@.subrange(0, i as int));
        }
        let mut one = String::new();
        push_text_el(&mut one, "Name", bs[i].name.as_str());
        push_text_el(&mut one, "CreationDate", bs[i].creation_date.as_str());
        push_el(&mut buckets, "Bucket", one.as_str());
        proof {
            assert(buckets@ =~= bucket_els(bs@.subrange(0, i + 1)));
        }
        i = i + 1;
    }
    proof {
        assert(bs@.subrange(0, bs@.len() as int) == bs@);
    }
    let mut inner = String::new();
    push_el(&mut inner, "Owner", owner.as_str());
    push_el(&mut inner, "Buckets", buckets.as_str());
    let mut s = String::from_str("<?xml version=\"1.0\" encoding=\"UTF-8\"?>");
    push_el(&mut s, "ListAllMyBucketsResult", inner.as_str());
    proof {
        assert(s@ =~= list_buckets_document(*r));
    }
    s
}

/// The `LocationConstraint` document of a region.
pub fn render_location(region: &str) -> (s: String)
    ensures
        s@ == xml_decl() + el("LocationConstraint"@, region@),
{
    let mut s = String::from_str("<?xml version=\"1.0\" encoding=\"UTF-8\"?>");
    push_el(&mut s, "LocationConstraint", region);
    s
}

/// The `VersioningConfiguration` document: a `Status` of `Enabled` only
/// when versioning is on.
pub fn render_versioning(enabled: bool) -> (s: String)
    ensures
        s@ == xml_decl() + el(
            "VersioningConfiguration"@,
            if enabled {
                el("Status"@, "Enabled"@)
            } else {
                Seq::empty()
            },
        ),
{
    let mut inner = String::new();
    if enabled {
        push_el(&mut inner, "Status", "Enabled");
    }
    let mut s = String::from_str("<?xml version=\"1.0\" encoding=\"UTF-8\"?>");
    push_el(&mut s, "VersioningConfiguration", inner.as_str());
    proof {
        assert(s@ =~= xml_decl() + el(
            "VersioningConfiguration"@,
            if enabled {
                el("Status"@, "Enabled"@)
            } else {
                Seq::empty()
            },
        ));
    }
    s
}

/// Whether a `VersioningConfiguration` request body turns versioning on:
/// it holds `<Status>Enabled</Status>`. Any other body, `Suspended`
/// included, turns it off.
pub fn versioning_enabled(body: &str) -> (r: bool)
    ensures
        r == exists|i: int| occurs_at(body@, "<Status>Enabled</Status>"@, i),
{
    let b = chars_of(body);
    let pat = chars_of("<Status>Enabled</Status>");
    match find(b.as_slice(), pat.as_slice()) {
        Some(_) => true,
        None => false,
    }
}

} // verus!
