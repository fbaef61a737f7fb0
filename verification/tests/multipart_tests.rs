use obstore::memory::MemoryStore;
use obstore::multipart::{put_multipart_to_store, use_multipart, WriteMultipart};
use obstore::path::Path;
use obstore::types::{PutMode, UpdateVersion};

fn path(s: &str) -> Path {
    Path::parse(s).unwrap()
}

/// Drive a full multipart upload of `payload` against the store, with the
/// given chunk size and concurrency bound, completing each job at once.
fn upload_multipart(
    store: &mut MemoryStore,
    location: &Path,
    payload: &[u8],
    chunk_size: usize,
    max_concurrency: usize,
) {
    let id = store.create_multipart(location).unwrap();
    let mut engine = WriteMultipart::new(chunk_size, max_concurrency);
    engine.write(&payload.to_vec());
    loop {
        match engine.next_job() {
            Some(job) => {
                store.put_part(id, job.index, &job.data).unwrap();
                engine.part_done();
            }
            None => break,
        }
    }
    if let Some(job) = engine.finish_job() {
        store.put_part(id, job.index, &job.data).unwrap();
        engine.part_done();
    }
    assert!(engine.ready_to_complete());
    store.complete_multipart(id).unwrap();
}

#[test]
fn multipart_store_roundtrip() {
    let mut store = MemoryStore::new();
    let p = path("big");
    let id = store.create_multipart(&p).unwrap();
    store.put_part(id, 1, &vec![4, 5, 6]).unwrap();
    store.put_part(id, 0, &vec![1, 2, 3]).unwrap();
    // nothing visible until completion
    assert!(store.get(&p).is_err());
    store.complete_multipart(id).unwrap();
    // assembly follows part-index order, not arrival order
    assert_eq!(store.get(&p).unwrap().data, vec![1, 2, 3, 4, 5, 6]);
}

#[test]
fn multipart_missing_part_fails() {
    let mut store = MemoryStore::new();
    let p = path("big");
    let id = store.create_multipart(&p).unwrap();
    store.put_part(id, 1, &vec![4, 5, 6]).unwrap();
    assert!(store.complete_multipart(id).is_err());
    assert!(store.get(&p).is_err());
}

#[test]
fn multipart_abort_discards_upload() {
    let mut store = MemoryStore::new();
    let p = path("big");
    let id = store.create_multipart(&p).unwrap();
    store.put_part(id, 0, &vec![1]).unwrap();
    store.abort_multipart(id).unwrap();
    assert!(store.put_part(id, 1, &vec![2]).is_err());
    assert!(store.get(&p).is_err());
}

#[test]
fn multipart_equivalence() {
    // an 11-byte payload stored single-shot and via forced multipart with a
    // small chunk size is byte-identical on retrieval
    let payload: Vec<u8> = vec![10, 20, 30, 40, 50, 60, 70, 80, 90, 100, 110];
    let p = path("obj");

    let mut single = MemoryStore::new();
    single.put(&p, &payload).unwrap();

    let mut multi = MemoryStore::new();
    upload_multipart(&mut multi, &p, &payload, 4, 2);

    assert_eq!(single.get(&p).unwrap().data, multi.get(&p).unwrap().data);
    assert_eq!(multi.get(&p).unwrap().data, payload);
}

#[test]
fn multipart_equivalence_exact_chunk_boundary() {
    let payload: Vec<u8> = (0..8).collect();
    let p = path("obj");
    let mut single = MemoryStore::new();
    single.put(&p, &payload).unwrap();
    let mut multi = MemoryStore::new();
    upload_multipart(&mut multi, &p, &payload, 4, 2);
    assert_eq!(single.get(&p).unwrap().data, multi.get(&p).unwrap().data);
}

#[test]
fn concurrency_bound_is_respected() {
    // with max_concurrency = 2 the engine never has more than 2 part
    // uploads pending: the third job is withheld until one completes
    let mut engine = WriteMultipart::new(2, 2);
    engine.write(&vec![0; 10]);

    let first = engine.next_job();
    assert!(first.is_some());
    let second = engine.next_job();
    assert!(second.is_some());
    assert!(!engine.has_capacity());
    // two in flight: no further job is released
    assert!(engine.next_job().is_none());
    engine.part_done();
    assert!(engine.has_capacity());
    let third = engine.next_job();
    assert!(third.is_some());
    assert!(engine.next_job().is_none());
}

#[test]
fn parts_carry_indexes_and_bytes_in_order() {
    let mut engine = WriteMultipart::new(3, 8);
    engine.write(&vec![1, 2, 3, 4, 5, 6, 7]);
    let a = engine.next_job().unwrap();
    assert_eq!(a.index, 0);
    assert_eq!(a.data, vec![1, 2, 3]);
    let b = engine.next_job().unwrap();
    assert_eq!(b.index, 1);
    assert_eq!(b.data, vec![4, 5, 6]);
    assert!(engine.next_job().is_none());
    let tail = engine.finish_job().unwrap();
    assert_eq!(tail.index, 2);
    assert_eq!(tail.data, vec![7]);
}

#[test]
fn abort_happens_before_error_surfaces() {
    // a simulated part failure forces the abort before the error is handed
    // to the caller
    let mut engine = WriteMultipart::new(2, 2);
    engine.write(&vec![1, 2, 3, 4]);
    let _job = engine.next_job().unwrap();
    engine.part_failed();
    assert!(engine.must_abort());
    assert!(!engine.ready_to_complete());
    // the driver issues the server-side abort, records it, and only then
    // surfaces the error
    engine.abort_recorded();
    assert!(!engine.must_abort());
    let err = engine.into_error();
    assert_eq!(err.label(), "generic");
}

#[test]
fn end_to_end_multipart_put() {
    // the fully verified driver: staged through the engine, assembled by
    // the store, identical to the payload
    let payload: Vec<u8> = (0..23).collect();
    let p = path("driven");
    let mut store = MemoryStore::new();
    let res = put_multipart_to_store(&mut store, &p, &payload, 5, 3).unwrap();
    assert!(res.e_tag.is_some());
    assert_eq!(store.get(&p).unwrap().data, payload);

    // empty payload: a single empty final part, still an object
    let mut store2 = MemoryStore::new();
    put_multipart_to_store(&mut store2, &path("empty"), &Vec::new(), 5, 3).unwrap();
    assert_eq!(store2.get(&path("empty")).unwrap().data, Vec::<u8>::new());
}

#[test]
fn put_mode_forces_single_shot() {
    // conditional modes are not composable with multipart: they force a
    // single-shot put even for large payloads
    assert!(use_multipart(None, 100, 10, &None));
    assert!(!use_multipart(None, 5, 10, &None));
    assert!(use_multipart(Some(true), 1, 10, &None));
    assert!(!use_multipart(Some(false), 100, 10, &None));
    assert!(use_multipart(None, 100, 10, &Some(PutMode::Overwrite)));
    assert!(!use_multipart(None, 100, 10, &Some(PutMode::Create)));
    let v = UpdateVersion { e_tag: None, version: None };
    assert!(!use_multipart(Some(true), 100, 10, &Some(PutMode::Update(v))));
}
