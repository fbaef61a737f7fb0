use obstore::backend::{backend_of_url, Backend};
use obstore::error::Error;
use obstore::memory::MemoryStore;
use obstore::path::Path;
use obstore::types::{GetOptions, PutMode, UpdateVersion};

fn path(s: &str) -> Path {
    Path::parse(s).unwrap()
}

#[test]
fn put_then_get() {
    let mut store = MemoryStore::new();
    let p = path("dir/file.txt");
    let data: Vec<u8> = vec![1, 2, 3, 4];
    let res = store.put(&p, &data).unwrap();
    assert_eq!(res.e_tag, Some("\"0\"".to_string()));
    assert_eq!(res.version, None);
    let got = store.get(&p).unwrap();
    assert_eq!(got.data, data);
    assert_eq!(got.meta.size, 4);
    assert_eq!(got.meta.location, p);
    assert_eq!(got.meta.e_tag, Some("\"0\"".to_string()));
}

#[test]
fn get_missing_is_not_found() {
    let store = MemoryStore::new();
    match store.get(&path("nope")) {
        Err(Error::NotFound { path }) => assert_eq!(path, "nope"),
        _ => panic!("expected a not-found error"),
    }
}

#[test]
fn conditional_put_create_twice_fails() {
    // first create succeeds; a second create on the same path fails
    let mut store = MemoryStore::new();
    let p = path("obj");
    let first = store.put_opts(&p, &vec![1], &PutMode::Create);
    assert!(first.is_ok());
    match store.put_opts(&p, &vec![2], &PutMode::Create) {
        Err(Error::AlreadyExists { path }) => assert_eq!(path, "obj"),
        _ => panic!("expected an already-exists error"),
    }
    // the object kept the first write's content
    assert_eq!(store.get(&p).unwrap().data, vec![1]);
}

#[test]
fn conditional_update_with_stale_version_fails() {
    // an update carrying the e_tag of an overwritten version is rejected
    let mut store = MemoryStore::new();
    let p = path("obj");
    let first = store.put(&p, &vec![1]).unwrap();
    let stale = UpdateVersion { e_tag: first.e_tag.clone(), version: None };
    // a concurrent overwrite bumps the entity tag
    store.put(&p, &vec![2]).unwrap();
    match store.put_opts(&p, &vec![3], &PutMode::Update(stale)) {
        Err(Error::Precondition { path }) => assert_eq!(path, "obj"),
        _ => panic!("expected a precondition error"),
    }
    assert_eq!(store.get(&p).unwrap().data, vec![2]);
}

#[test]
fn conditional_update_with_current_version_succeeds() {
    let mut store = MemoryStore::new();
    let p = path("obj");
    let first = store.put(&p, &vec![1]).unwrap();
    let current = UpdateVersion { e_tag: first.e_tag.clone(), version: None };
    assert!(store.put_opts(&p, &vec![9], &PutMode::Update(current)).is_ok());
    assert_eq!(store.get(&p).unwrap().data, vec![9]);
}

#[test]
fn conditional_update_missing_object_fails() {
    let mut store = MemoryStore::new();
    let stale = UpdateVersion { e_tag: Some("\"0\"".to_string()), version: None };
    match store.put_opts(&path("gone"), &vec![1], &PutMode::Update(stale)) {
        Err(Error::Precondition { .. }) => {}
        _ => panic!("expected a precondition error"),
    }
}

#[test]
fn get_opts_if_none_match_short_circuits() {
    let mut store = MemoryStore::new();
    let p = path("obj");
    let res = store.put(&p, &vec![1]).unwrap();
    let mut o = GetOptions::plain();
    o.if_none_match = res.e_tag.clone();
    match store.get_opts(&p, &o) {
        Err(Error::NotModified { .. }) => {}
        _ => panic!("expected a not-modified error"),
    }
    let mut star = GetOptions::plain();
    star.if_none_match = Some("*".to_string());
    assert!(matches!(store.get_opts(&p, &star), Err(Error::NotModified { .. })));
}

#[test]
fn get_opts_if_match_guards() {
    let mut store = MemoryStore::new();
    let p = path("obj");
    let res = store.put(&p, &vec![1]).unwrap();
    let mut ok = GetOptions::plain();
    ok.if_match = res.e_tag.clone();
    assert!(store.get_opts(&p, &ok).is_ok());
    let mut bad = GetOptions::plain();
    bad.if_match = Some("\"999\"".to_string());
    assert!(matches!(store.get_opts(&p, &bad), Err(Error::Precondition { .. })));
}

#[test]
fn get_opts_timestamp_conditions() {
    let mut store = MemoryStore::new();
    let p = path("obj");
    store.put(&p, &vec![1]).unwrap();
    let written_at = store.head(&p).unwrap().last_modified;

    // unmodified since a later instant: proceed
    let mut o = GetOptions::plain();
    o.if_unmodified_since = Some(written_at);
    assert!(store.get_opts(&p, &o).is_ok());
    // modified after the write: it was not
    let mut o2 = GetOptions::plain();
    o2.if_unmodified_since = Some(if written_at == 0 { 0 } else { written_at - 1 });
    if written_at > 0 {
        assert!(matches!(store.get_opts(&p, &o2), Err(Error::Precondition { .. })));
    }
    // not modified since the write itself: short-circuit
    let mut o3 = GetOptions::plain();
    o3.if_modified_since = Some(written_at);
    assert!(matches!(store.get_opts(&p, &o3), Err(Error::NotModified { .. })));
}

#[test]
fn get_opts_head_returns_no_body() {
    let mut store = MemoryStore::new();
    let p = path("obj");
    store.put(&p, &vec![1, 2, 3]).unwrap();
    let mut o = GetOptions::plain();
    o.head = true;
    let got = store.get_opts(&p, &o).unwrap();
    assert_eq!(got.meta.size, 3);
    assert!(got.data.is_empty());
    let head = store.head(&p).unwrap();
    assert_eq!(head.size, 3);
}

#[test]
fn get_range_and_ranges() {
    let mut store = MemoryStore::new();
    let p = path("obj");
    store.put(&p, &vec![10, 11, 12, 13, 14]).unwrap();
    assert_eq!(store.get_range(&p, 1, 3).unwrap(), vec![11, 12, 13]);
    match store.get_range(&p, 4, 2) {
        Err(Error::Generic { .. }) => {}
        _ => panic!("expected a range error"),
    }
    let parts = store
        .get_ranges(&p, &vec![0, 3], &vec![2, 2])
        .unwrap();
    assert_eq!(parts, vec![vec![10, 11], vec![13, 14]]);
}

#[test]
fn delete_is_idempotent() {
    let mut store = MemoryStore::new();
    let p = path("obj");
    store.put(&p, &vec![1]).unwrap();
    assert!(store.delete(&p).is_ok());
    assert!(matches!(store.get(&p), Err(Error::NotFound { .. })));
    // deleting a missing object is a no-op on this backend
    assert!(store.delete(&p).is_ok());
}

#[test]
fn copy_and_rename() {
    let mut store = MemoryStore::new();
    let a = path("a");
    let b = path("b");
    store.put(&a, &vec![7]).unwrap();
    store.copy(&a, &b).unwrap();
    assert_eq!(store.get(&a).unwrap().data, vec![7]);
    assert_eq!(store.get(&b).unwrap().data, vec![7]);

    let c = path("c");
    store.rename(&a, &c).unwrap();
    assert!(matches!(store.get(&a), Err(Error::NotFound { .. })));
    assert_eq!(store.get(&c).unwrap().data, vec![7]);
}

#[test]
fn copy_if_not_exists_guards_destination() {
    let mut store = MemoryStore::new();
    let a = path("a");
    let b = path("b");
    store.put(&a, &vec![1]).unwrap();
    store.put(&b, &vec![2]).unwrap();
    assert!(matches!(
        store.copy_if_not_exists(&a, &b),
        Err(Error::AlreadyExists { .. })
    ));
    assert!(matches!(
        store.rename_if_not_exists(&a, &b),
        Err(Error::AlreadyExists { .. })
    ));
    assert!(matches!(
        store.copy_if_not_exists(&path("missing"), &path("new")),
        Err(Error::NotFound { .. })
    ));
}

#[test]
fn list_flat() {
    let mut store = MemoryStore::new();
    store.put(&path("a/b"), &vec![1]).unwrap();
    store.put(&path("a/c/d"), &vec![2]).unwrap();
    store.put(&path("x"), &vec![3]).unwrap();
    let under_a = store.list(Some(&path("a")));
    assert_eq!(under_a.len(), 2);
    assert_eq!(under_a[0].location, path("a/b"));
    assert_eq!(under_a[1].location, path("a/c/d"));
    let all = store.list(None);
    assert_eq!(all.len(), 3);
    // an exact match of the prefix itself is not listed
    let under_ab = store.list(Some(&path("a/b")));
    assert!(under_ab.is_empty());
}

#[test]
fn list_with_offset_skips_up_to_offset() {
    let mut store = MemoryStore::new();
    store.put(&path("k/a"), &vec![1]).unwrap();
    store.put(&path("k/b"), &vec![2]).unwrap();
    store.put(&path("k/c"), &vec![3]).unwrap();
    let after_b = store.list_with_offset(Some(&path("k")), &path("k/b"));
    assert_eq!(after_b.len(), 1);
    assert_eq!(after_b[0].location, path("k/c"));
}

#[test]
fn delimiter_listing() {
    // objects at a/b and a/c/d under prefix a: one object, one common prefix
    let mut store = MemoryStore::new();
    store.put(&path("a/b"), &vec![1]).unwrap();
    store.put(&path("a/c/d"), &vec![2]).unwrap();
    let page = store.list_with_delimiter(Some(&path("a")));
    assert_eq!(page.common_prefixes.len(), 1);
    assert_eq!(page.common_prefixes[0], path("a/c"));
    assert_eq!(page.objects.len(), 1);
    assert_eq!(page.objects[0].location, path("a/b"));
}

#[test]
fn delimiter_listing_deduplicates_prefixes() {
    let mut store = MemoryStore::new();
    store.put(&path("a/c/d"), &vec![1]).unwrap();
    store.put(&path("a/c/e"), &vec![2]).unwrap();
    store.put(&path("a/f/g"), &vec![3]).unwrap();
    let page = store.list_with_delimiter(Some(&path("a")));
    assert_eq!(page.common_prefixes.len(), 2);
    assert_eq!(page.common_prefixes[0], path("a/c"));
    assert_eq!(page.common_prefixes[1], path("a/f"));
    assert!(page.objects.is_empty());
}

#[test]
fn error_labels() {
    assert_eq!(Error::NotFound { path: "p".to_string() }.label(), "not_found");
    assert_eq!(
        Error::AlreadyExists { path: "p".to_string() }.label(),
        "already_exists"
    );
    assert_eq!(Error::InvalidPath { raw: "r".to_string() }.label(), "invalid_path");
    assert_eq!(
        Error::Precondition { path: "p".to_string() }.label(),
        "precondition"
    );
    assert_eq!(
        Error::NotModified { path: "p".to_string() }.label(),
        "not_modified"
    );
    assert_eq!(Error::NotSupported.label(), "not_supported");
    assert_eq!(
        Error::PermissionDenied { path: "p".to_string() }.label(),
        "permission_denied"
    );
    assert_eq!(
        Error::Unauthenticated { path: "p".to_string() }.label(),
        "unauthenticated"
    );
    assert_eq!(
        Error::UnknownConfigurationKey { key: "k".to_string() }.label(),
        "unknown_configuration_key"
    );
    assert_eq!(Error::Generic { message: "m".to_string() }.label(), "generic");
    assert_eq!(Error::JoinError.label(), "join_error");
    assert_eq!(Error::AlreadyConsumed.label(), "already_consumed");
}

#[test]
fn decimal_rendering() {
    assert_eq!(obstore::text::u64_to_decimal(0), "0");
    assert_eq!(obstore::text::u64_to_decimal(7), "7");
    assert_eq!(obstore::text::u64_to_decimal(1234), "1234");
    assert_eq!(
        obstore::text::u64_to_decimal(18446744073709551615),
        "18446744073709551615"
    );
}

#[test]
fn backend_pagination_support() {
    assert!(Backend::S3.supports_pagination());
    assert!(Backend::Azure.supports_pagination());
    assert!(Backend::Gcs.supports_pagination());
    assert!(!Backend::Http.supports_pagination());
    assert!(!Backend::Local.supports_pagination());
    assert!(!Backend::Memory.supports_pagination());
}

#[test]
fn backend_from_url_scheme() {
    assert_eq!(backend_of_url("s3://bucket/key").unwrap(), Backend::S3);
    assert_eq!(backend_of_url("gs://bucket/key").unwrap(), Backend::Gcs);
    assert_eq!(backend_of_url("az://container/blob").unwrap(), Backend::Azure);
    assert_eq!(backend_of_url("http://host/p").unwrap(), Backend::Http);
    assert_eq!(backend_of_url("https://host/p").unwrap(), Backend::Http);
    assert_eq!(backend_of_url("file:///tmp/dir").unwrap(), Backend::Local);
    assert_eq!(backend_of_url("memory:///").unwrap(), Backend::Memory);
    let err = backend_of_url("ftp://host/p").unwrap_err();
    assert_eq!(err.label(), "generic");
}

#[test]
fn backend_config_acceptance() {
    // configuration keys are for the cloud builders only
    assert!(Backend::S3.accepts_config());
    assert!(Backend::Azure.accepts_config());
    assert!(Backend::Gcs.accepts_config());
    assert!(!Backend::Http.accepts_config());
    assert!(!Backend::Local.accepts_config());
    assert!(!Backend::Memory.accepts_config());
}
