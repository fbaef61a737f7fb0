use obstore::instrument::{InstrumentedObjectStore, OpKind};
use obstore::memory::MemoryStore;
use obstore::path::Path;
use obstore::types::{GetOptions, PutMode};

fn path(s: &str) -> Path {
    Path::parse(s).unwrap()
}

#[test]
fn records_one_metric_per_operation() {
    let mut store = InstrumentedObjectStore::new(MemoryStore::new());
    let p = path("a/b");
    store.put_opts(&p, &vec![1, 2], &PutMode::Overwrite).unwrap();
    let o = GetOptions::plain();
    store.get_opts(&p, &o).unwrap();
    store.head(&p).unwrap();
    let _ = store.list(Some(&path("a")));
    store.delete(&p).unwrap();

    let requests = store.requests();
    assert_eq!(requests.len(), 5);
    assert_eq!(requests[0].op, OpKind::Put);
    assert_eq!(requests[0].path, p);
    assert_eq!(requests[1].op, OpKind::Get);
    assert_eq!(requests[2].op, OpKind::Head);
    assert_eq!(requests[3].op, OpKind::List);
    assert_eq!(requests[3].path, path("a"));
    assert_eq!(requests[4].op, OpKind::Delete);
}

#[test]
fn passes_results_and_errors_through_unchanged() {
    let mut store = InstrumentedObjectStore::new(MemoryStore::new());
    let p = path("x");
    // error path: still recorded, error kind unchanged
    let o = GetOptions::plain();
    let err = store.get_opts(&p, &o).unwrap_err();
    assert_eq!(err.label(), "not_found");
    store.put_opts(&p, &vec![9], &PutMode::Create).unwrap();
    let got = store.get_opts(&p, &o).unwrap();
    assert_eq!(got.data, vec![9]);
    assert_eq!(store.requests().len(), 3);

    // the wrapped store is unchanged by instrumentation
    let inner = store.into_inner();
    assert_eq!(inner.get(&p).unwrap().data, vec![9]);
}

#[test]
fn copy_and_rename_record_source_paths() {
    let mut store = InstrumentedObjectStore::new(MemoryStore::new());
    store.put_opts(&path("a"), &vec![1], &PutMode::Overwrite).unwrap();
    store.copy(&path("a"), &path("b")).unwrap();
    store.rename(&path("b"), &path("c")).unwrap();
    let _ = store.list_with_delimiter(None);
    let requests = store.requests();
    assert_eq!(requests[1].op, OpKind::Copy);
    assert_eq!(requests[1].path, path("a"));
    assert_eq!(requests[2].op, OpKind::Rename);
    assert_eq!(requests[2].path, path("b"));
    assert_eq!(requests[3].op, OpKind::ListWithDelimiter);
    assert_eq!(requests[3].path, Path::root());
}
