use obstore::list::{
    contains_sub_chars, filter_metas, split_list_prefix, ListStream, PaginatedLister,
};
use obstore::memory::MemoryStore;
use obstore::path::Path;
use obstore::types::OneShotResult;

fn path(s: &str) -> Path {
    Path::parse(s).unwrap()
}

fn stock(n: u64) -> MemoryStore {
    let mut store = MemoryStore::new();
    for i in 0..n {
        let name = format!("data/item{:04}", i);
        store.put(&Path::parse(name.as_str()).unwrap(), &vec![i as u8]).unwrap();
    }
    store
}

#[test]
fn chunking_one_hundred_twenty_five_by_fifty() {
    // 125 objects with chunk_size 50 yield chunks of 50, 50, 25, then the
    // exhaustion signal, which repeats deterministically
    let store = stock(125);
    let items = store.list(Some(&path("data")));
    assert_eq!(items.len(), 125);
    let mut stream = ListStream::new(items, 50);
    assert_eq!(stream.next_chunk().unwrap().len(), 50);
    assert_eq!(stream.next_chunk().unwrap().len(), 50);
    assert_eq!(stream.next_chunk().unwrap().len(), 25);
    assert!(stream.next_chunk().is_none());
    // fused: polling after exhaustion keeps reporting closed
    assert!(stream.next_chunk().is_none());
    assert!(stream.next_chunk().is_none());
}

#[test]
fn chunking_empty_listing() {
    // 0 objects: the exhaustion signal comes at once, with zero chunks
    let store = MemoryStore::new();
    let items = store.list(None);
    assert!(items.is_empty());
    let mut stream = ListStream::new(items, 50);
    assert!(stream.next_chunk().is_none());
    assert!(stream.next_chunk().is_none());
}

#[test]
fn collect_ignores_chunking() {
    let store = stock(7);
    let mut stream = ListStream::new(store.list(None), 3);
    let all = stream.collect();
    assert_eq!(all.len(), 7);
    assert!(stream.next_chunk().is_none());
}

#[test]
fn chunks_preserve_order_and_content() {
    let store = stock(5);
    let mut stream = ListStream::new(store.list(None), 2);
    let first = stream.next_chunk().unwrap();
    assert_eq!(first[0].location, path("data/item0000"));
    assert_eq!(first[1].location, path("data/item0001"));
    let second = stream.next_chunk().unwrap();
    assert_eq!(second[0].location, path("data/item0002"));
}

#[test]
fn split_prefix_at_last_delimiter() {
    let p = "some/dir/abc".to_string();
    let (dir, sub) = split_list_prefix(Some(&p));
    assert_eq!(dir, Some("some/dir".to_string()));
    assert_eq!(sub, Some("abc".to_string()));

    let q = "abc".to_string();
    let (dir, sub) = split_list_prefix(Some(&q));
    assert_eq!(dir, None);
    assert_eq!(sub, Some("abc".to_string()));

    let (dir, sub) = split_list_prefix(None);
    assert_eq!(dir, None);
    assert_eq!(sub, None);

    let r = "dir/".to_string();
    let (dir, sub) = split_list_prefix(Some(&r));
    assert_eq!(dir, Some("dir".to_string()));
    assert_eq!(sub, Some("".to_string()));
}

#[test]
fn substring_search() {
    let hay: Vec<char> = "abcdef".chars().collect();
    let yes: Vec<char> = "cde".chars().collect();
    let no: Vec<char> = "cdf".chars().collect();
    let empty: Vec<char> = Vec::new();
    assert!(contains_sub_chars(&hay, &yes));
    assert!(!contains_sub_chars(&hay, &no));
    assert!(contains_sub_chars(&hay, &empty));
    assert!(!contains_sub_chars(&empty, &yes));
}

#[test]
fn filename_filter_keeps_matching_entries() {
    let mut store = MemoryStore::new();
    store.put(&path("dir/report-jan.txt"), &vec![1]).unwrap();
    store.put(&path("dir/report-feb.txt"), &vec![2]).unwrap();
    store.put(&path("dir/summary.txt"), &vec![3]).unwrap();
    let metas = store.list(Some(&path("dir")));
    let needle = "report".to_string();
    let kept = filter_metas(metas, Some(&needle));
    assert_eq!(kept.len(), 2);
    assert_eq!(kept[0].location, path("dir/report-jan.txt"));
    assert_eq!(kept[1].location, path("dir/report-feb.txt"));
}

#[test]
fn filename_filter_without_needle_keeps_all() {
    let mut store = MemoryStore::new();
    store.put(&path("dir/a"), &vec![1]).unwrap();
    store.put(&path("dir/b"), &vec![2]).unwrap();
    let metas = store.list(Some(&path("dir")));
    let kept = filter_metas(metas, None);
    assert_eq!(kept.len(), 2);
}

#[test]
fn paginated_lister_walks_tokens() {
    let mut lister = PaginatedLister::new(Some("pre".to_string()), None, 50);
    let first = lister.next_request().unwrap();
    assert_eq!(first.prefix, Some("pre".to_string()));
    assert_eq!(first.max_keys, 50);
    assert_eq!(first.page_token, None);

    lister.on_page(Some("token-1".to_string()));
    let second = lister.next_request().unwrap();
    assert_eq!(second.page_token, Some("token-1".to_string()));

    // no continuation token: the traversal is complete
    lister.on_page(None);
    assert!(lister.next_request().is_none());
}

#[test]
fn page_filter_by_raw_prefix() {
    let mut store = MemoryStore::new();
    store.put(&path("dir/abc"), &vec![1]).unwrap();
    store.put(&path("dir/abd"), &vec![2]).unwrap();
    store.put(&path("dir/xyz"), &vec![3]).unwrap();
    store.put(&path("dir/abe/deep"), &vec![4]).unwrap();
    let page = store.list_with_delimiter(Some(&path("dir")));
    let filtered = obstore::list::filter_page(page, &"dir/ab".to_string());
    assert_eq!(filtered.objects.len(), 2);
    assert_eq!(filtered.objects[0].location, path("dir/abc"));
    assert_eq!(filtered.objects[1].location, path("dir/abd"));
    assert_eq!(filtered.common_prefixes.len(), 1);
    assert_eq!(filtered.common_prefixes[0], path("dir/abe"));
}

#[test]
fn one_shot_result_is_consumed_once() {
    let mut store = MemoryStore::new();
    store.put(&path("obj"), &vec![1, 2]).unwrap();
    let got = store.get(&path("obj")).unwrap();
    let mut one_shot = OneShotResult::new(got);
    let first = one_shot.take().unwrap();
    assert_eq!(first.data, vec![1, 2]);
    match one_shot.take() {
        Err(e) => assert_eq!(e.label(), "already_consumed"),
        Ok(_) => panic!("a one-shot result must not be taken twice"),
    }
}

#[test]
fn paginated_lister_stops_on_error() {
    let mut lister = PaginatedLister::new(None, Some("after".to_string()), 10);
    let req = lister.next_request().unwrap();
    assert_eq!(req.offset, Some("after".to_string()));
    lister.on_error();
    // the stream is closed; the driver propagates the error to its caller
    assert!(lister.next_request().is_none());
}
