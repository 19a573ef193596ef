use maxio::auth::{
    authenticate, canonical_query_string, canonical_uri, constant_time_eq, derive_signing_key,
    parse_authorization_header, verify_signature, Credentials,
};
use maxio::error::S3ErrorCode;

const EXAMPLE_SECRET: &str = "wJalrXUtnFEMI/K7MDENG/bPxRfiCYEXAMPLEKEY";

fn example_headers() -> Vec<(String, String)> {
    vec![
        ("host".to_string(), "examplebucket.s3.amazonaws.com".to_string()),
        ("range".to_string(), "bytes=0-9".to_string()),
        (
            "x-amz-content-sha256".to_string(),
            "e3b0c44298fc1c149afbf4c8996fb92427ae41e4649b934ca495991b7852b855".to_string(),
        ),
        ("x-amz-date".to_string(), "20130524T000000Z".to_string()),
    ]
}

fn example_authorization(signature: &str) -> String {
    format!(
        "AWS4-HMAC-SHA256 Credential=SECRET-REDACTED/20130524/us-east-1/s3/aws4_request,SignedHeaders=host;range;x-amz-content-sha256;x-amz-date,Signature={}",
        signature
    )
}

const EXAMPLE_SIGNATURE: &str = "f0e8bdb87c964420e857bd35b5d6ed310bd44f0170aba48dd91039c6036bdb41";

fn creds(access: &str, secret: &str) -> Credentials {
    Credentials {
        access_key: access.to_string(),
        secret_key: secret.to_string(),
        region: "us-east-1".to_string(),
    }
}

#[test]
fn parses_authorization_header() {
    let p = parse_authorization_header(&example_authorization("abc")).ok().unwrap();
    assert_eq!(p.access_key, "SECRET-REDACTED");
    assert_eq!(p.date, "20130524");
    assert_eq!(p.region, "us-east-1");
    assert_eq!(p.signed_headers, vec!["host", "range", "x-amz-content-sha256", "x-amz-date"]);
    assert_eq!(p.signature, "abc");
}

#[test]
fn parses_header_with_spaces_after_commas() {
    let h = "AWS4-HMAC-SHA256 Credential=AK/20240101/us-east-1/s3/aws4_request, SignedHeaders=host, Signature=ff";
    let p = parse_authorization_header(h).ok().unwrap();
    assert_eq!(p.access_key, "AK");
    assert_eq!(p.signed_headers, vec!["host"]);
    assert_eq!(p.signature, "ff");
}

#[test]
fn rejects_malformed_authorization_headers() {
    assert_eq!(parse_authorization_header("AWS4-HMAC-SHA1 Credential=a").err(), Some("Invalid auth algorithm"));
    assert_eq!(
        parse_authorization_header("AWS4-HMAC-SHA256 SignedHeaders=host,Signature=x").err(),
        Some("Missing Credential")
    );
    assert_eq!(
        parse_authorization_header("AWS4-HMAC-SHA256 Credential=a/b/c/d/e,Signature=x").err(),
        Some("Missing SignedHeaders")
    );
    assert_eq!(
        parse_authorization_header("AWS4-HMAC-SHA256 Credential=a/b/c/d/e,SignedHeaders=host").err(),
        Some("Missing Signature")
    );
    assert_eq!(
        parse_authorization_header("AWS4-HMAC-SHA256 Credential=a/b/c,SignedHeaders=host,Signature=x").err(),
        Some("Invalid Credential format")
    );
    assert_eq!(
        parse_authorization_header("AWS4-HMAC-SHA256 Credential=AK/d/r/s3/aws4_request/x,SignedHeaders=host,Signature=x")
            .err(),
        Some("Invalid Credential format")
    );
}

#[test]
fn canonical_uri_encodes_segments() {
    assert_eq!(canonical_uri(""), "/");
    assert_eq!(canonical_uri("/"), "/");
    assert_eq!(canonical_uri("/b/my file.txt"), "/b/my%20file.txt");
    assert_eq!(canonical_uri("/b/a~b_c-d.e"), "/b/a~b_c-d.e");
    assert_eq!(canonical_uri("/b/k?x=1"), "/b/k");
    assert_eq!(canonical_uri("/b/\u{e9}"), "/b/%C3%A9");
}

#[test]
fn canonical_query_sorts_and_reencodes() {
    assert_eq!(canonical_query_string(""), "");
    assert_eq!(canonical_query_string("b=2&a=1&a=0"), "a=0&a=1&b=2");
    assert_eq!(canonical_query_string("list-type=2&prefix=a%2Fb&delimiter=/"), "delimiter=%2F&list-type=2&prefix=a%2Fb");
    assert_eq!(canonical_query_string("uploads"), "uploads=");
    assert_eq!(canonical_query_string("&&x=1&"), "x=1");
    assert_eq!(canonical_query_string("k=a%20b"), "k=a%20b");
}

#[test]
fn canonical_query_is_idempotent() {
    for q in ["b=2&a=1&a=0", "prefix=a b&delimiter=/", "x=%7e&y", "z=%41%42"] {
        let once = canonical_query_string(q);
        assert_eq!(canonical_query_string(&once), once);
    }
}

#[test]
fn verifies_documented_example_signature() {
    let p = parse_authorization_header(&example_authorization(EXAMPLE_SIGNATURE)).ok().unwrap();
    assert!(verify_signature("GET", "/test.txt", "", &example_headers(), &p, EXAMPLE_SECRET));
}

#[test]
fn signature_is_deterministic() {
    let p = parse_authorization_header(&example_authorization(EXAMPLE_SIGNATURE)).ok().unwrap();
    let a = verify_signature("GET", "/test.txt", "", &example_headers(), &p, EXAMPLE_SECRET);
    let b = verify_signature("GET", "/test.txt", "", &example_headers(), &p, EXAMPLE_SECRET);
    assert_eq!(a, b);
    let k1 = derive_signing_key(EXAMPLE_SECRET, "20130524", "us-east-1");
    let k2 = derive_signing_key(EXAMPLE_SECRET, "20130524", "us-east-1");
    assert_eq!(k1, k2);
    assert_eq!(k1.len(), 32);
    assert_ne!(k1, derive_signing_key(EXAMPLE_SECRET, "20130525", "us-east-1"));
}

#[test]
fn authenticate_accepts_valid_request() {
    let h = example_authorization(EXAMPLE_SIGNATURE);
    let r = authenticate(Some(&h), &creds("SECRET-REDACTED", EXAMPLE_SECRET), "GET", "/test.txt", "", &example_headers());
    assert!(r.is_ok());
}

#[test]
fn wrong_secret_is_signature_mismatch() {
    let h = example_authorization(EXAMPLE_SIGNATURE);
    let e = authenticate(Some(&h), &creds("SECRET-REDACTED", "WRONG"), "GET", "/test.txt", "", &example_headers())
        .err()
        .unwrap();
    assert_eq!(e.code, S3ErrorCode::SignatureDoesNotMatch);
    assert_eq!(e.status(), 403);
}

#[test]
fn unknown_access_key_is_invalid_access_key_id() {
    let h = example_authorization(EXAMPLE_SIGNATURE);
    let e = authenticate(Some(&h), &creds("AKIA", EXAMPLE_SECRET), "GET", "/test.txt", "", &example_headers())
        .err()
        .unwrap();
    assert_eq!(e.code, S3ErrorCode::InvalidAccessKeyId);
    assert_eq!(e.status(), 403);
}

#[test]
fn missing_header_or_wrong_region_is_access_denied() {
    let e = authenticate(None, &creds("SECRET-REDACTED", EXAMPLE_SECRET), "GET", "/", "", &vec![]).err().unwrap();
    assert_eq!(e.code, S3ErrorCode::AccessDenied);
    assert_eq!(e.message, "Missing Authorization header");
    let h = example_authorization(EXAMPLE_SIGNATURE).replace("us-east-1", "eu-west-1");
    let e = authenticate(Some(&h), &creds("SECRET-REDACTED", EXAMPLE_SECRET), "GET", "/test.txt", "", &example_headers())
        .err()
        .unwrap();
    assert_eq!(e.code, S3ErrorCode::AccessDenied);
    assert_eq!(e.message, "Invalid region in credential scope");
    let e = authenticate(Some("Basic abc"), &creds("SECRET-REDACTED", EXAMPLE_SECRET), "GET", "/", "", &vec![])
        .err()
        .unwrap();
    assert_eq!(e.code, S3ErrorCode::AccessDenied);
}

#[test]
fn constant_time_comparison() {
    assert!(constant_time_eq(b"abc", b"abc"));
    assert!(!constant_time_eq(b"abc", b"abd"));
    assert!(!constant_time_eq(b"abc", b"ab"));
    assert!(constant_time_eq(b"", b""));
}
