use maxio::body::decode_aws_chunked;
use maxio::dispatch::{parse_path, route, PathShape, S3Operation};
use maxio::error::{S3Error, S3ErrorCode};
use maxio::listing::{
    decode_token, list_objects_v1, list_objects_v2, paginate, parse_max_keys, split_by_delimiter,
    token_for, ListRequest,
};
use maxio::object::{content_md5_matches, content_type_or_default, etag_for_digest, is_aws_chunked, object_error, to_http_date};
use maxio::storage::{ObjectMeta, StorageError};
use maxio::xml::{
    delete_request_keys, render_delete_result, render_list_v1, render_list_v2, render_location,
    render_versioning, versioning_enabled, DeleteOutcome,
};
use maxio::md5sum::{digest_bytes, finish_digest, md5_new, md5_update};

fn meta(key: &str) -> ObjectMeta {
    ObjectMeta {
        key: key.to_string(),
        size: 5,
        etag: "\"e\"".to_string(),
        content_type: "text/plain".to_string(),
        last_modified: "2024-01-01T00:00:00.000Z".to_string(),
        version_id: None,
        is_delete_marker: false,
    }
}

fn request() -> ListRequest {
    ListRequest { prefix: None, delimiter: None, max_keys: None, marker: None, start_after: None, continuation_token: None }
}

fn keys(objs: &[ObjectMeta]) -> Vec<String> {
    objs.iter().map(|o| o.key.clone()).collect()
}

#[test]
fn put_object_etag_and_content_md5() {
    let (digest, etag) = digest_bytes(b"hello");
    assert_eq!(etag, "\"5d41402abc4b2a76b9719d911017c592\"");
    assert_eq!(etag_for_digest(&digest), etag);
    let mut h = md5_new();
    md5_update(&mut h, b"he");
    md5_update(&mut h, b"llo");
    assert_eq!(finish_digest(h).1, etag);
    assert!(content_md5_matches(Some("XUFAKrxLKna5cZ2REBfFkg=="), &digest));
    assert!(!content_md5_matches(Some("AAAAAAAAAAAAAAAAAAAAAA=="), &digest));
    assert!(content_md5_matches(None, &digest));
}

#[test]
fn delimiter_rolls_up_common_prefixes() {
    let all = vec![meta("a/1"), meta("a/2"), meta("b/1")];
    let mut req = request();
    req.prefix = Some(String::new());
    req.delimiter = Some("/".to_string());
    req.max_keys = None;
    let r = list_objects_v2("b", &req, &all);
    assert!(r.contents.is_empty());
    let prefixes: Vec<String> = r.common_prefixes.iter().map(|c| c.prefix.clone()).collect();
    assert_eq!(prefixes, vec!["a/", "b/"]);
    assert_eq!(r.key_count, 2);
    assert!(!r.is_truncated);
    let xml = render_list_v2(&r);
    assert!(xml.contains("<CommonPrefixes><Prefix>a/</Prefix></CommonPrefixes><CommonPrefixes><Prefix>b/</Prefix></CommonPrefixes>"));
    assert!(xml.contains("<KeyCount>2</KeyCount>"));
}

#[test]
fn split_without_delimiter_keeps_every_object() {
    let page = vec![meta("x/1"), meta("y")];
    let (contents, prefixes) = split_by_delimiter(&page, "", None);
    assert_eq!(contents.len(), 2);
    assert_eq!(contents[0].key, "x/1");
    assert_eq!(contents[0].storage_class, "STANDARD");
    assert_eq!(contents[0].size, 5);
    assert!(prefixes.is_empty());
}

#[test]
fn split_with_prefix_and_multichar_delimiter() {
    let page = vec![meta("p/a--1"), meta("p/a--2"), meta("p/b")];
    let (contents, prefixes) = split_by_delimiter(&page, "p/", Some("--"));
    assert_eq!(contents.len(), 1);
    assert_eq!(contents[0].key, "p/b");
    assert_eq!(prefixes.len(), 1);
    assert_eq!(prefixes[0].prefix, "p/a--");
}

#[test]
fn max_keys_parsing() {
    assert_eq!(parse_max_keys(None), 1000);
    assert_eq!(parse_max_keys(Some("2")), 2);
    assert_eq!(parse_max_keys(Some("+7")), 7);
    assert_eq!(parse_max_keys(Some("5000")), 1000);
    assert_eq!(parse_max_keys(Some("abc")), 1000);
    assert_eq!(parse_max_keys(Some("")), 1000);
    assert_eq!(parse_max_keys(Some("0")), 0);
    assert_eq!(parse_max_keys(Some("99999999999999999999999")), 1000);
}

#[test]
fn pagination_with_markers_partitions_the_listing() {
    let all: Vec<ObjectMeta> = ["a", "b", "c", "d", "e"].iter().map(|k| meta(k)).collect();
    let mut seen = Vec::new();
    let mut req = request();
    req.max_keys = Some("2".to_string());
    loop {
        let r = list_objects_v1("bkt", &req, &all);
        seen.extend(r.contents.iter().map(|c| c.key.clone()));
        if !r.is_truncated {
            assert!(r.next_marker.is_none());
            break;
        }
        req.marker = r.next_marker.clone();
    }
    assert_eq!(seen, vec!["a", "b", "c", "d", "e"]);
}

#[test]
fn pagination_with_tokens_partitions_the_listing() {
    let all: Vec<ObjectMeta> = ["k1", "k2", "k3", "k4"].iter().map(|k| meta(k)).collect();
    let mut seen = Vec::new();
    let mut req = request();
    req.max_keys = Some("3".to_string());
    loop {
        let r = list_objects_v2("bkt", &req, &all);
        seen.extend(r.contents.iter().map(|c| c.key.clone()));
        assert_eq!(r.max_keys, 3);
        if !r.is_truncated {
            assert!(r.next_continuation_token.is_none());
            break;
        }
        req.continuation_token = r.next_continuation_token.clone();
    }
    assert_eq!(seen, vec!["k1", "k2", "k3", "k4"]);
}

#[test]
fn paginate_after_cursor() {
    let all: Vec<ObjectMeta> = ["a", "b", "c"].iter().map(|k| meta(k)).collect();
    let (page, truncated) = paginate(&all, Some("a"), 1);
    assert_eq!(keys(&page), vec!["b"]);
    assert!(truncated);
    let (page, truncated) = paginate(&all, None, 10);
    assert_eq!(keys(&page), vec!["a", "b", "c"]);
    assert!(!truncated);
}

#[test]
fn continuation_tokens_round_trip() {
    let t = token_for("photos/2024/a.jpg");
    assert_eq!(t, "cGhvdG9zLzIwMjQvYS5qcGc=");
    assert_eq!(decode_token(&t).unwrap(), "photos/2024/a.jpg");
    assert!(decode_token("%%%").is_none());
}

#[test]
fn v1_listing_document() {
    let mut req = request();
    req.marker = Some("a".to_string());
    let r = list_objects_v1("bkt", &req, &vec![meta("a"), meta("b&c")]);
    let xml = render_list_v1(&r);
    assert_eq!(
        xml,
        "<?xml version=\"1.0\" encoding=\"UTF-8\"?><ListBucketResult><Name>bkt</Name><Prefix></Prefix><Marker>a</Marker><MaxKeys>1000</MaxKeys><IsTruncated>false</IsTruncated><Contents><Key>b&amp;c</Key><LastModified>2024-01-01T00:00:00.000Z</LastModified><ETag>&quot;e&quot;</ETag><Size>5</Size><StorageClass>STANDARD</StorageClass></Contents></ListBucketResult>"
    );
}

#[test]
fn aws_chunked_bodies_decode() {
    let body = b"5;chunk-signature=abc\r\nhello\r\n6;chunk-signature=def\r\n world\r\n0;chunk-signature=0\r\n\r\n";
    assert_eq!(decode_aws_chunked(body).unwrap(), b"hello world".to_vec());
    assert_eq!(decode_aws_chunked(b"").unwrap(), Vec::<u8>::new());
    assert_eq!(decode_aws_chunked(b"A\r\n0123456789\r\n0\r\n").unwrap(), b"0123456789".to_vec());
    assert!(decode_aws_chunked(b"zz;x\r\nabc\r\n").is_none());
    assert!(decode_aws_chunked(b"10\r\nshort\r\n").is_none());
    assert!(is_aws_chunked(Some("STREAMING-AWS4-HMAC-SHA256-PAYLOAD")));
    assert!(!is_aws_chunked(Some("UNSIGNED-PAYLOAD")));
    assert!(!is_aws_chunked(None));
}

#[test]
fn multi_delete_keys_and_response() {
    let body = "<Delete><Object><Key>a</Key></Object><Object><Key>missing</Key></Object></Delete>";
    let keys = delete_request_keys(body).ok().unwrap();
    assert_eq!(keys, vec!["a", "missing"]);
    let outs: Vec<DeleteOutcome> = keys.into_iter().map(|k| DeleteOutcome { key: k, error: None }).collect();
    let xml = render_delete_result(&outs);
    assert!(xml.contains("<Deleted><Key>a</Key></Deleted>"));
    assert!(xml.contains("<Deleted><Key>missing</Key></Deleted>"));
    assert!(xml.starts_with("<?xml version=\"1.0\" encoding=\"UTF-8\"?><DeleteResult"));
}

#[test]
fn multi_delete_escapes_and_reports_errors() {
    let keys = delete_request_keys("<Delete><Object><Key>a&amp;b</Key></Object></Delete>").ok().unwrap();
    assert_eq!(keys, vec!["a&b"]);
    let outs = vec![DeleteOutcome { key: "x<y".to_string(), error: Some("boom".to_string()) }];
    assert!(render_delete_result(&outs).contains(
        "<Error><Key>x&lt;y</Key><Code>InternalError</Code><Message>boom</Message></Error>"
    ));
}

#[test]
fn delete_request_without_keys() {
    assert_eq!(delete_request_keys("<Delete></Delete>").ok().unwrap(), Vec::<String>::new());
    assert_eq!(delete_request_keys("").ok().unwrap(), Vec::<String>::new());
}

#[test]
fn empty_body_digest() {
    assert_eq!(digest_bytes(b"").1, "\"d41d8cd98f00b204e9800998ecf8427e\"");
}

#[test]
fn malformed_delete_request() {
    let e = delete_request_keys("<Delete><Object><Key>a</Object></Delete>").err().unwrap();
    assert_eq!(e.code, S3ErrorCode::MalformedXML);
    assert_eq!(e.status(), 400);
}

#[test]
fn routing_table() {
    let q = |pairs: &[(&str, &str)]| -> Vec<(String, String)> {
        pairs.iter().map(|(k, v)| (k.to_string(), v.to_string())).collect()
    };
    let shape = |p: &str| parse_path(p).unwrap();
    assert_eq!(route("GET", &shape("/"), &q(&[])), Some(S3Operation::ListBuckets));
    assert_eq!(route("PUT", &shape("/b"), &q(&[])), Some(S3Operation::CreateBucket));
    assert_eq!(route("PUT", &shape("/b/"), &q(&[("versioning", "")])), Some(S3Operation::PutBucketVersioning));
    assert_eq!(route("GET", &shape("/b"), &q(&[("list-type", "2")])), Some(S3Operation::ListObjectsV2));
    assert_eq!(route("GET", &shape("/b"), &q(&[])), Some(S3Operation::ListObjectsV1));
    assert_eq!(route("GET", &shape("/b"), &q(&[("location", "")])), Some(S3Operation::GetBucketLocation));
    assert_eq!(route("POST", &shape("/b"), &q(&[("delete", "")])), Some(S3Operation::DeleteObjects));
    assert_eq!(route("PUT", &shape("/b/k"), &q(&[("uploadId", "u"), ("partNumber", "1")])), Some(S3Operation::UploadPart));
    assert_eq!(route("DELETE", &shape("/b/a/b/c"), &q(&[])), Some(S3Operation::DeleteObject));
    assert_eq!(route("PATCH", &shape("/b"), &q(&[])), None);
    match shape("/b/a/b/c") {
        PathShape::Object(b, k) => {
            assert_eq!(b, "b");
            assert_eq!(k, "a/b/c");
        }
        _ => panic!("object path"),
    }
    assert!(parse_path("nopath").is_none());
    assert!(parse_path("//k").is_none());
}

#[test]
fn error_documents_and_statuses() {
    let e = S3Error::no_such_bucket("b");
    assert_eq!(e.status(), 404);
    assert_eq!(e.resource.as_deref(), Some("/b"));
    assert_eq!(
        e.to_xml("rid"),
        "<?xml version=\"1.0\" encoding=\"UTF-8\"?>\n<Error><Code>NoSuchBucket</Code><Message>The specified bucket does not exist: b</Message><Resource>/b</Resource><RequestId>rid</RequestId></Error>"
    );
    assert_eq!(S3Error::bucket_already_owned("b").status(), 409);
    assert_eq!(S3Error::bucket_not_empty("b").status(), 409);
    assert_eq!(S3Error::internal().status(), 500);
    assert_eq!(S3Error::bad_digest().code.as_str(), "BadDigest");
    assert_eq!(S3Error::not_implemented("x").status(), 501);
    assert_eq!(S3Error::invalid_argument("m").status(), 400);
    assert_eq!(S3Error::no_such_key("k").status(), 404);
    assert_eq!(S3ErrorCode::SignatureDoesNotMatch.as_str(), "SignatureDoesNotMatch");
}

#[test]
fn storage_errors_map_to_client_errors() {
    let nf = object_error(&StorageError::NotFound("k".to_string()), "k");
    assert_eq!(nf.code, S3ErrorCode::NoSuchKey);
    assert_eq!(nf.resource.as_deref(), Some("k"));
    let e = object_error(&StorageError::InvalidKey("bad".to_string()), "k");
    assert_eq!(e.code, S3ErrorCode::InvalidArgument);
    assert_eq!(e.message, "bad");
    assert_eq!(object_error(&StorageError::Io("disk".to_string()), "k").code, S3ErrorCode::InternalError);
}

#[test]
fn small_documents_and_headers() {
    assert_eq!(
        render_location("us-east-1"),
        "<?xml version=\"1.0\" encoding=\"UTF-8\"?><LocationConstraint>us-east-1</LocationConstraint>"
    );
    assert!(render_versioning(true).contains("<Status>Enabled</Status>"));
    assert!(!render_versioning(false).contains("Status"));
    assert_eq!(to_http_date("2024-01-02T03:04:05.000Z"), "Tue, 02 Jan 2024 03:04:05 GMT");
    assert_eq!(to_http_date("garbage"), "garbage");
    assert_eq!(content_type_or_default(None), "application/octet-stream");
    assert_eq!(content_type_or_default(Some("text/plain")), "text/plain");
}

#[test]
fn versioning_request_bodies() {
    assert!(versioning_enabled("<VersioningConfiguration><Status>Enabled</Status></VersioningConfiguration>"));
    assert!(!versioning_enabled("<VersioningConfiguration><Status>Suspended</Status></VersioningConfiguration>"));
    assert!(!versioning_enabled(""));
}

#[test]
fn create_bucket_scenario_rules() {
    let none: Vec<(String, String)> = vec![];
    let shape = parse_path("/b").unwrap();
    assert_eq!(route("PUT", &shape, &none), Some(S3Operation::CreateBucket));
    assert_eq!(route("HEAD", &shape, &none), Some(S3Operation::HeadBucket));
    let again = S3Error::bucket_already_owned("b");
    assert_eq!(again.code, S3ErrorCode::BucketAlreadyOwnedByYou);
    assert_eq!(again.status(), 409);
    assert_eq!(S3Error::bucket_not_empty("b").code.as_str(), "BucketNotEmpty");
}
