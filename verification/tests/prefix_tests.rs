use obstore::memory::MemoryStore;
use obstore::path::Path;
use obstore::prefix::{combine_paginated_prefix, full_path, strip_prefix, MaybePrefixedStore};
use obstore::types::ObjectMeta;

fn path(s: &str) -> Path {
    Path::parse(s).unwrap()
}

#[test]
fn prefix_roundtrip() {
    // stripping the prefix from a rewritten path yields the original
    let prefix = Some(path("base/dir"));
    for r in ["", "x", "a/b/c", "%2E"] {
        let rel = path(r);
        let full = full_path(&prefix, &rel);
        let back = strip_prefix(&prefix, full);
        assert_eq!(back, rel);
    }
}

#[test]
fn no_prefix_is_passthrough() {
    let rel = path("a/b");
    assert_eq!(full_path(&None, &rel), rel);
    assert_eq!(strip_prefix(&None, rel.clone()), rel);
}

#[test]
fn strip_leaves_unrelated_paths_alone() {
    let prefix = Some(path("base"));
    let other = path("elsewhere/x");
    assert_eq!(strip_prefix(&prefix, other.clone()), other);
}

#[test]
fn strip_meta_clears_version() {
    let prefix = Some(path("base"));
    let meta = ObjectMeta {
        location: path("base/x"),
        last_modified: 5,
        size: 3,
        e_tag: Some("\"1\"".to_string()),
        version: Some("v1".to_string()),
    };
    let stripped = obstore::prefix::strip_meta(&prefix, meta);
    assert_eq!(stripped.location, path("x"));
    assert_eq!(stripped.e_tag, Some("\"1\"".to_string()));
    assert_eq!(stripped.version, None);
    assert_eq!(stripped.size, 3);
    assert_eq!(stripped.last_modified, 5);
}

#[test]
fn prefixed_store_reads_and_writes_under_prefix() {
    let inner = MemoryStore::new();
    let mut store = MaybePrefixedStore::new(inner, Some(path("tenant")));
    let rel = path("docs/a.txt");
    store.put(&rel, &vec![1, 2]).unwrap();
    // visible through the wrapper under the relative path
    assert_eq!(store.get(&rel).unwrap().data, vec![1, 2]);
    // head strips the prefix back off
    let head = store.head(&rel).unwrap();
    assert_eq!(head.location, rel);
    // the inner store holds it under the full path
    let inner = store.into_inner();
    assert_eq!(inner.get(&path("tenant/docs/a.txt")).unwrap().data, vec![1, 2]);
}

#[test]
fn prefixed_store_lists_relative_paths() {
    let inner = MemoryStore::new();
    let mut store = MaybePrefixedStore::new(inner, Some(path("p")));
    store.put(&path("a/b"), &vec![1]).unwrap();
    store.put(&path("a/c/d"), &vec![2]).unwrap();
    let listed = store.list(Some(&path("a")));
    assert_eq!(listed.len(), 2);
    assert_eq!(listed[0].location, path("a/b"));
    assert_eq!(listed[1].location, path("a/c/d"));
    assert_eq!(listed[0].version, None);

    let page = store.list_with_delimiter(Some(&path("a")));
    assert_eq!(page.objects.len(), 1);
    assert_eq!(page.objects[0].location, path("a/b"));
    assert_eq!(page.common_prefixes.len(), 1);
    assert_eq!(page.common_prefixes[0], path("a/c"));
}

#[test]
fn prefixed_store_delete_and_copy() {
    let inner = MemoryStore::new();
    let mut store = MaybePrefixedStore::new(inner, Some(path("p")));
    store.put(&path("a"), &vec![1]).unwrap();
    store.copy(&path("a"), &path("b")).unwrap();
    assert_eq!(store.get(&path("b")).unwrap().data, vec![1]);
    store.rename(&path("b"), &path("c")).unwrap();
    assert!(store.get(&path("b")).is_err());
    store.delete(&path("a")).unwrap();
    assert!(store.get(&path("a")).is_err());
    assert_eq!(store.get(&path("c")).unwrap().data, vec![1]);
}

#[test]
fn prefixed_store_list_with_offset() {
    let inner = MemoryStore::new();
    let mut store = MaybePrefixedStore::new(inner, Some(path("p")));
    store.put(&path("k/a"), &vec![1]).unwrap();
    store.put(&path("k/b"), &vec![2]).unwrap();
    store.put(&path("k/c"), &vec![3]).unwrap();
    let after = store.list_with_offset(Some(&path("k")), &path("k/b"));
    assert_eq!(after.len(), 1);
    assert_eq!(after[0].location, path("k/c"));
}

#[test]
fn paginated_prefix_combination() {
    let sp = Some(path("base/dir"));
    let lp = "abc".to_string();
    let pipe = "|".to_string();
    assert_eq!(combine_paginated_prefix(&None, None, None), None);
    assert_eq!(
        combine_paginated_prefix(&sp, None, None),
        Some("base/dir".to_string())
    );
    assert_eq!(
        combine_paginated_prefix(&None, Some(&lp), None),
        Some("abc".to_string())
    );
    assert_eq!(
        combine_paginated_prefix(&sp, Some(&lp), None),
        Some("base/dir/abc".to_string())
    );
    assert_eq!(
        combine_paginated_prefix(&sp, Some(&lp), Some(&pipe)),
        Some("base/dir|abc".to_string())
    );
}

#[test]
fn prefixed_store_without_prefix() {
    let inner = MemoryStore::new();
    let mut store = MaybePrefixedStore::new(inner, None);
    store.put(&path("a"), &vec![9]).unwrap();
    assert_eq!(store.get(&path("a")).unwrap().data, vec![9]);
    let inner = store.into_inner();
    assert_eq!(inner.get(&path("a")).unwrap().data, vec![9]);
}
