use maxio::error::S3ErrorCode;
use maxio::storage::{
    delete_bucket_decision, is_false, is_metadata_file, key_in_listing, list_objects, sort_buckets,
    validate_bucket_name, validate_key, BucketMeta, FilesystemStorage, ObjectMeta, StorageError,
    StoredFile,
};

fn meta(key: &str) -> ObjectMeta {
    ObjectMeta {
        key: key.to_string(),
        size: 1,
        etag: "\"e\"".to_string(),
        content_type: "text/plain".to_string(),
        last_modified: "2024-01-01T00:00:00.000Z".to_string(),
        version_id: None,
        is_delete_marker: false,
    }
}

fn file(key: &str) -> StoredFile {
    StoredFile { key: key.to_string(), meta: Some(meta(key)) }
}

fn invalid_key_message(key: &str) -> Option<String> {
    match validate_key(key) {
        Err(StorageError::InvalidKey(m)) => Some(m),
        _ => None,
    }
}

#[test]
fn key_validation() {
    assert!(validate_key("a/b/c.txt").is_ok());
    assert!(validate_key("./a").is_ok());
    assert!(validate_key("a..b").is_ok());
    assert_eq!(invalid_key_message("").unwrap(), "Key must not be empty");
    assert_eq!(invalid_key_message("/etc/passwd").unwrap(), "Key must not be an absolute path");
    assert_eq!(invalid_key_message("a/../b").unwrap(), "Key must not contain '..' path components");
    assert_eq!(invalid_key_message("..").unwrap(), "Key must not contain '..' path components");
}

#[test]
fn bucket_name_validation() {
    assert!(validate_bucket_name("my-bucket.1").is_ok());
    assert!(validate_bucket_name("abc").is_ok());
    for bad in ["b", "ab", "-abc", "abc-", "ABC", "a_bc", &"a".repeat(64)] {
        let e = validate_bucket_name(bad).err().unwrap();
        assert_eq!(e.code, S3ErrorCode::InvalidBucketName);
        assert_eq!(e.status(), 400);
        assert_eq!(e.resource, Some(format!("/{}", bad)));
    }
    assert!(validate_bucket_name(&"a".repeat(63)).is_ok());
}

#[test]
fn metadata_files_are_recognised() {
    assert!(is_metadata_file(".bucket.json"));
    assert!(is_metadata_file("k.meta.json"));
    assert!(is_metadata_file(".meta.json"));
    assert!(!is_metadata_file("k.json"));
    assert!(!is_metadata_file("bucket.json"));
}

#[test]
fn listing_filters_by_prefix_and_sorts() {
    let files = vec![file("b/1"), file("a/2"), file("c"), file("a/1"), StoredFile { key: "a/3".to_string(), meta: None }];
    let keys: Vec<String> = list_objects(files, "a/").into_iter().map(|m| m.key).collect();
    assert_eq!(keys, vec!["a/1", "a/2"]);
    assert!(key_in_listing("a/1", "a/"));
    assert!(!key_in_listing("b/1", "a/"));
}

#[test]
fn listing_skips_records_of_other_keys_and_repeats() {
    let stray = StoredFile { key: "a/9".to_string(), meta: Some(meta("zzz")) };
    let files = vec![file("a/2"), stray, file("a/1"), file("a/2")];
    let keys: Vec<String> = list_objects(files, "a/").into_iter().map(|m| m.key).collect();
    assert_eq!(keys, vec!["a/1", "a/2"]);
}

#[test]
fn listing_with_empty_prefix_lists_everything_sorted() {
    let files = vec![file("z"), file("a"), file("m")];
    let keys: Vec<String> = list_objects(files, "").into_iter().map(|m| m.key).collect();
    assert_eq!(keys, vec!["a", "m", "z"]);
}

#[test]
fn delete_bucket_requires_empty_bucket() {
    let files = vec![file("a")];
    assert!(matches!(delete_bucket_decision(true, &files), Err(StorageError::BucketNotEmpty)));
    assert!(matches!(delete_bucket_decision(true, &vec![]), Ok(true)));
    assert!(matches!(delete_bucket_decision(false, &vec![]), Ok(false)));
    assert_eq!(list_objects(vec![], "").len(), 0);
    assert_eq!(list_objects(vec![file("a")], "").len(), 1);
}

#[test]
fn layout_paths() {
    let s = FilesystemStorage::new("/data");
    assert_eq!(s.buckets_dir, "/data/buckets");
    assert_eq!(s.bucket_dir("b"), "/data/buckets/b");
    assert_eq!(s.bucket_meta_path("b"), "/data/buckets/b/.bucket.json");
    assert_eq!(s.object_path("b", "a/k.txt"), "/data/buckets/b/a/k.txt");
    assert_eq!(s.meta_path("b", "a/k.txt"), "/data/buckets/b/a/k.txt.meta.json");
}

#[test]
fn buckets_sort_by_name() {
    let b = |n: &str| BucketMeta {
        name: n.to_string(),
        created_at: "2024-01-01T00:00:00.000Z".to_string(),
        region: "us-east-1".to_string(),
        versioning: false,
    };
    let names: Vec<String> = sort_buckets(vec![b("zeta"), b("alpha"), b("mid")]).into_iter().map(|x| x.name).collect();
    assert_eq!(names, vec!["alpha", "mid", "zeta"]);
    assert!(is_false(&false));
    assert!(!is_false(&true));
}
