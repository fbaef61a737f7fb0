//! The in-memory storage backend.
//!
//! A [`MemoryStore`] keeps whole objects in memory, keyed by [`Path`].
//! Writes support the three conditional modes of [`PutMode`]; reads support
//! the conditional retrieval options of [`GetOptions`]; listings are flat
//! or delimiter-bounded. The store also implements the multipart upload
//! protocol: parts are staged by index and assembled in index order on
//! completion.

use vstd::prelude::*;

use crate::error::Error;
use crate::path::{is_path_prefix, lex_lt, lex_lt_chars, segs_wf, spec_render, Path};
use crate::text::{chars_to_string, dec_digits, push_decimal};
use crate::types::{GetOptions, GetResult, ListResult, ObjectMeta, PutMode, PutResult};

verus! {

/// The mathematical content of one stored object.
pub struct ObjRecord {
    /// The object's bytes.
    pub data: Seq<u8>,
    /// The logical time of the last write.
    pub last_modified: u64,
    /// The entity tag of this version.
    pub e_tag: Seq<char>,
}

/// The view of a store: an association list from path views to records,
/// in storage order.
pub type StoreView = Seq<(Seq<Seq<char>>, ObjRecord)>;

/// Whether a key is present.
pub open spec fn dom_has(s: StoreView, k: Seq<Seq<char>>) -> bool {
    exists|i: int| 0 <= i < s.len() && s[i].0 == k
}

/// The index of a key, where it is present.
pub open spec fn idx_of(s: StoreView, k: Seq<Seq<char>>) -> int {
    choose|i: int| 0 <= i < s.len() && s[i].0 == k
}

/// The record stored under a key, where it is present.
pub open spec fn lookup(s: StoreView, k: Seq<Seq<char>>) -> ObjRecord {
    s[idx_of(s, k)].1
}

/// Replace the record under an existing key, or append a new entry.
pub open spec fn upsert(s: StoreView, k: Seq<Seq<char>>, r: ObjRecord) -> StoreView {
    if dom_has(s, k) {
        s.update(idx_of(s, k), (k, r))
    } else {
        s.push((k, r))
    }
}

/// Drop the entry under a key, if present.
pub open spec fn remove_key(s: StoreView, k: Seq<Seq<char>>) -> StoreView {
    if dom_has(s, k) {
        s.remove(idx_of(s, k))
    } else {
        s
    }
}

/// No two entries share a key.
pub open spec fn keys_unique(s: StoreView) -> bool {
    forall|i: int, j: int| 0 <= i < j < s.len() ==> (#[trigger] s[i]).0 != (#[trigger] s[j]).0
}

/// The entity tag minted for the `n`-th write: the decimal counter in
/// double quotes.
pub open spec fn etag_str(n: u64) -> Seq<char> {
    seq!['"'] + dec_digits(n as nat) + seq!['"']
}

/// The record a write at logical time `tag` produces.
pub open spec fn new_record(tag: u64, data: Seq<u8>) -> ObjRecord {
    ObjRecord { data, last_modified: tag, e_tag: etag_str(tag) }
}

/// The write counter after one more write.
pub open spec fn sat_inc(n: u64) -> u64 {
    if n < u64::MAX {
        (n + 1) as u64
    } else {
        n
    }
}

/// Whether the `if_match` / `if_unmodified_since` conditions reject the
/// current record.
pub open spec fn precond_fails(o: GetOptions, rec: ObjRecord) -> bool {
    if o.if_match is Some {
        !(o.if_match->0@ == "*"@ || o.if_match->0@ == rec.e_tag)
    } else if o.if_unmodified_since is Some {
        rec.last_modified > o.if_unmodified_since->0
    } else {
        false
    }
}

/// Whether the `if_none_match` / `if_modified_since` conditions
/// short-circuit with `NotModified` on the current record.
pub open spec fn notmod_hits(o: GetOptions, rec: ObjRecord) -> bool {
    if o.if_none_match is Some {
        o.if_none_match->0@ == "*"@ || o.if_none_match->0@ == rec.e_tag
    } else if o.if_modified_since is Some {
        rec.last_modified <= o.if_modified_since->0
    } else {
        false
    }
}

struct StoreEntry {
    key: Path,
    data: Vec<u8>,
    last_modified: u64,
    e_tag: String,
}

struct Upload {
    id: u64,
    location: Path,
    parts: Vec<Option<Vec<u8>>>,
}

/// An in-memory object store.
pub struct MemoryStore {
    entries: Vec<StoreEntry>,
    next_tag: u64,
    uploads: Vec<Upload>,
    next_upload: u64,
}

impl MemoryStore {
    /// The stored objects, as an association list in storage order.
    pub closed spec fn view(&self) -> StoreView {
        Seq::new(
            self.entries@.len(),
            |i: int|
                (
                    self.entries@[i].key@,
                    ObjRecord {
                        data: self.entries@[i].data@,
                        last_modified: self.entries@[i].last_modified,
                        e_tag: self.entries@[i].e_tag@,
                    },
                ),
        )
    }

    /// The logical write counter.
    pub closed spec fn spec_tag(&self) -> u64 {
        self.next_tag
    }

    /// The staged multipart uploads: identifier, target path, parts by
    /// index.
    pub closed spec fn uploads_view(&self) -> Seq<(u64, Seq<Seq<char>>, Seq<Option<Seq<u8>>>)> {
        Seq::new(
            self.uploads@.len(),
            |i: int|
                (
                    self.uploads@[i].id,
                    self.uploads@[i].location@,
                    Seq::new(
                        self.uploads@[i].parts@.len(),
                        |j: int|
                            match self.uploads@[i].parts@[j] {
                                Some(p) => Some(p@),
                                None => None,
                            },
                    ),
                ),
        )
    }

    /// Every key is unique and well-formed, and upload identifiers are
    /// unique and below the upload counter.
    pub open spec fn wf(&self) -> bool {
        &&& keys_unique(self@)
        &&& forall|i: int| 0 <= i < self@.len() ==> segs_wf((#[trigger] self@[i]).0)
        &&& forall|i: int, j: int|
            0 <= i < j < self.uploads_view().len() ==> (#[trigger] self.uploads_view()[i]).0 != (
            #[trigger] self.uploads_view()[j]).0
        &&& forall|i: int|
            0 <= i < self.uploads_view().len() ==> (#[trigger] self.uploads_view()[i]).0
                < self.spec_upload_counter()
        &&& forall|i: int|
            0 <= i < self.uploads_view().len() ==> segs_wf(
                (#[trigger] self.uploads_view()[i]).1,
            )
    }

    /// The upload identifier counter.
    pub closed spec fn spec_upload_counter(&self) -> u64 {
        self.next_upload
    }

    /// A fresh, empty store.
    pub fn new() -> (r: MemoryStore)
        ensures
            r@ == Seq::<(Seq<Seq<char>>, ObjRecord)>::empty(),
            r.uploads_view() == Seq::<(u64, Seq<Seq<char>>, Seq<Option<Seq<u8>>>)>::empty(),
            r.spec_tag() == 0,
            r.wf(),
    {
        let r = MemoryStore { entries: Vec::new(), next_tag: 0, uploads: Vec::new(), next_upload: 0 };
        proof {
            assert(r@ =~= Seq::<(Seq<Seq<char>>, ObjRecord)>::empty());
            assert(r.uploads_view() =~= Seq::<(u64, Seq<Seq<char>>, Seq<Option<Seq<u8>>>)>::empty());
        }
        r
    }

    /// Find the entry index of a key, if present.
    fn find_idx(&self, key: &Path) -> (r: Option<usize>)
        requires
            self.wf(),
        ensures
            match r {
                Some(i) => dom_has(self@, key@) && 0 <= i < self@.len() && self@[i as int].0
                    == key@ && idx_of(self@, key@) == i,
                None => !dom_has(self@, key@),
            },
    {
        let mut i: usize = 0;
        while i < self.entries.len()
            invariant
                self.wf(),
                i <= self.entries@.len(),
                self@.len() == self.entries@.len(),
                forall|j: int| 0 <= j < i ==> (#[trigger] self@[j]).0 != key@,
            decreases self.entries@.len() - i,
        {
            if &self.entries[i].key == key {
                proof {
                    assert(self@[i as int].0 == key@);
                    let w = idx_of(self@, key@);
                    assert(0 <= w < self@.len() && self@[w].0 == key@);
                    if w != i {
                        if w < i {
                            assert(self@[w].0 != self@[i as int].0);
                        } else {
                            assert(self@[i as int].0 != self@[w].0);
                        }
                    }
                }
                return Some(i);
            }
            proof {
                assert(self@[i as int].0 == self.entries@[i as int].key@);
            }
            i = i + 1;
        }
        proof {
            if dom_has(self@, key@) {
                let w = idx_of(self@, key@);
            }
        }
        None
    }
}

impl MemoryStore {
    /// Write an object, honouring the conditional mode: `Create` fails on
    /// an existing object, `Update` fails unless the current entity tag
    /// matches, `Overwrite` is unconditional. A successful write fully
    /// replaces prior content and mints a fresh entity tag.
    pub fn put_opts(&mut self, location: &Path, payload: &Vec<u8>, mode: &PutMode) -> (r: Result<
        PutResult,
        Error,
    >)
        requires
            old(self).wf(),
            location.wf(),
        ensures
            final(self).wf(),
            final(self).uploads_view() == old(self).uploads_view(),
            final(self).spec_upload_counter() == old(self).spec_upload_counter(),
            match r {
                Ok(p) => {
                    &&& match mode {
                        PutMode::Create => !dom_has(old(self)@, location@),
                        PutMode::Overwrite => true,
                        PutMode::Update(v) => dom_has(old(self)@, location@) && v.e_tag is Some
                            && v.e_tag->0@ == lookup(old(self)@, location@).e_tag,
                    }
                    &&& final(self)@ == upsert(
                        old(self)@,
                        location@,
                        new_record(old(self).spec_tag(), payload@),
                    )
                    &&& final(self).spec_tag() == sat_inc(old(self).spec_tag())
                    &&& p.e_tag is Some && p.e_tag->0@ == etag_str(old(self).spec_tag())
                    &&& p.version is None
                },
                Err(e) => {
                    &&& *final(self) == *old(self)
                    &&& match e {
                        Error::AlreadyExists { path } => mode is Create && dom_has(
                            old(self)@,
                            location@,
                        ) && path@ == spec_render(location@),
                        Error::Precondition { path } => mode matches PutMode::Update(v) && (
                        !dom_has(old(self)@, location@) || (v.e_tag is Some && v.e_tag->0@
                            != lookup(old(self)@, location@).e_tag)) && path@ == spec_render(
                            location@,
                        ),
                        Error::Generic { .. } => mode matches PutMode::Update(v) && dom_has(
                            old(self)@,
                            location@,
                        ) && v.e_tag is None,
                        _ => false,
                    }
                },
            },
    {
        let idx = self.find_idx(location);
        match mode {
            PutMode::Create => {
                if idx.is_some() {
                    return Err(Error::AlreadyExists { path: location.as_str() });
                }
            },
            PutMode::Update(v) => {
                match idx {
                    None => {
                        return Err(Error::Precondition { path: location.as_str() });
                    },
                    Some(i) => {
                        match &v.e_tag {
                            None => {
                                return Err(
                                    Error::Generic {
                                        message: String::from_str(
                                            "update mode requires an expected e_tag",
                                        ),
                                    },
                                );
                            },
                            Some(expected) => {
                                proof {
                                    assert(lookup(self@, location@) == self@[i as int].1);
                                    assert(self@[i as int].1.e_tag == self.entries@[i as int].e_tag@);
                                }
                                if !(*expected == self.entries[i].e_tag) {
                                    return Err(
                                        Error::Precondition { path: location.as_str() },
                                    );
                                }
                            },
                        }
                    },
                }
            },
            PutMode::Overwrite => {},
        }
        let tag = self.next_tag;
        let e_tag = quoted_decimal(tag);
        let result_tag = e_tag.clone();
        let entry = StoreEntry {
            key: location.clone(),
            data: copy_bytes(payload),
            last_modified: tag,
            e_tag,
        };
        let ghost old_view = self@;
        match idx {
            Some(i) => {
                let _ = self.entries.remove(i);
                self.entries.insert(i, entry);
                proof {
                    assert(idx_of(old_view, location@) == i);
                    assert(self@ =~= old_view.update(
                        i as int,
                        (location@, new_record(tag, payload@)),
                    ));
                }
            },
            None => {
                self.entries.push(entry);
                proof {
                    assert(self@ =~= old_view.push((location@, new_record(tag, payload@))));
                }
            },
        }
        self.next_tag = if tag < u64::MAX {
            tag + 1
        } else {
            tag
        };
        proof {
            assert(self.uploads_view() =~~= old(self).uploads_view());
            assert forall|i: int, j: int| 0 <= i < j < self@.len() implies (
            #[trigger] self@[i]).0 != (#[trigger] self@[j]).0 by {
                if j < old_view.len() {
                    assert(old_view[i].0 != old_view[j].0);
                } else {
                    // the pushed entry's key was absent from the old view
                    assert(self@[j].0 == location@);
                    assert(self@[i].0 == old_view[i].0);
                    if old_view[i].0 == location@ {
                        assert(dom_has(old_view, location@));
                    }
                }
            }
        }
        Ok(PutResult { e_tag: Some(result_tag), version: None })
    }

    /// Write an object unconditionally.
    pub fn put(&mut self, location: &Path, payload: &Vec<u8>) -> (r: Result<PutResult, Error>)
        requires
            old(self).wf(),
            location.wf(),
        ensures
            final(self).wf(),
            final(self).uploads_view() == old(self).uploads_view(),
            final(self).spec_upload_counter() == old(self).spec_upload_counter(),
            r is Ok,
            final(self)@ == upsert(
                old(self)@,
                location@,
                new_record(old(self).spec_tag(), payload@),
            ),
            final(self).spec_tag() == sat_inc(old(self).spec_tag()),
            r->Ok_0.e_tag is Some && r->Ok_0.e_tag->0@ == etag_str(old(self).spec_tag()),
            r->Ok_0.version is None,
    {
        let mode = PutMode::Overwrite;
        let r = self.put_opts(location, payload, &mode);
        match r {
            Ok(p) => Ok(p),
            Err(_) => {
                proof {
                    assert(false);
                }
                Err(Error::JoinError)
            },
        }
    }

    /// Retrieve an object under the given conditions. Fails with
    /// `NotFound` on a missing object, `Precondition` when a match
    /// condition rejects the current version, and `NotModified` when a
    /// none-match condition short-circuits. A head request returns the
    /// metadata with an empty body.
    pub fn get_opts(&self, location: &Path, options: &GetOptions) -> (r: Result<GetResult, Error>)
        requires
            self.wf(),
            location.wf(),
        ensures
            match r {
                Ok(g) => {
                    &&& dom_has(self@, location@)
                    &&& !precond_fails(*options, lookup(self@, location@))
                    &&& !notmod_hits(*options, lookup(self@, location@))
                    &&& g.meta.location@ == location@
                    &&& g.meta.size == lookup(self@, location@).data.len()
                    &&& g.meta.last_modified == lookup(self@, location@).last_modified
                    &&& g.meta.e_tag is Some && g.meta.e_tag->0@ == lookup(
                        self@,
                        location@,
                    ).e_tag
                    &&& g.meta.version is None
                    &&& g.data@ == if options.head {
                        Seq::<u8>::empty()
                    } else {
                        lookup(self@, location@).data
                    }
                },
                Err(e) => match e {
                    Error::NotFound { path } => !dom_has(self@, location@) && path@
                        == spec_render(location@),
                    Error::Precondition { path } => dom_has(self@, location@) && precond_fails(
                        *options,
                        lookup(self@, location@),
                    ) && path@ == spec_render(location@),
                    Error::NotModified { path } => dom_has(self@, location@) && !precond_fails(
                        *options,
                        lookup(self@, location@),
                    ) && notmod_hits(*options, lookup(self@, location@)) && path@ == spec_render(
                        location@,
                    ),
                    _ => false,
                },
            },
    {
        let idx = match self.find_idx(location) {
            Some(i) => i,
            None => {
                return Err(Error::NotFound { path: location.as_str() });
            },
        };
        proof {
            assert(lookup(self@, location@) == self@[idx as int].1);
            assert(self@[idx as int].1.e_tag == self.entries@[idx as int].e_tag@);
            assert(self@[idx as int].1.last_modified == self.entries@[idx as int].last_modified);
            assert(self@[idx as int].1.data == self.entries@[idx as int].data@);
        }
        let entry = &self.entries[idx];
        // if_match / if_unmodified_since
        match &options.if_match {
            Some(m) => {
                if !is_star(m) && !(*m == entry.e_tag) {
                    return Err(Error::Precondition { path: location.as_str() });
                }
            },
            None => {
                match &options.if_unmodified_since {
                    Some(d) => {
                        if entry.last_modified > *d {
                            return Err(Error::Precondition { path: location.as_str() });
                        }
                    },
                    None => {},
                }
            },
        }
        // if_none_match / if_modified_since
        match &options.if_none_match {
            Some(m) => {
                if is_star(m) || *m == entry.e_tag {
                    return Err(Error::NotModified { path: location.as_str() });
                }
            },
            None => {
                match &options.if_modified_since {
                    Some(d) => {
                        if entry.last_modified <= *d {
                            return Err(Error::NotModified { path: location.as_str() });
                        }
                    },
                    None => {},
                }
            },
        }
        let data = if options.head {
            Vec::new()
        } else {
            copy_bytes(&entry.data)
        };
        proof {
            if options.head {
                assert(data@ =~= Seq::<u8>::empty());
            }
        }
        Ok(
            GetResult {
                meta: ObjectMeta {
                    location: location.clone(),
                    last_modified: entry.last_modified,
                    size: entry.data.len() as u64,
                    e_tag: Some(entry.e_tag.clone()),
                    version: None,
                },
                data,
            },
        )
    }

    /// Retrieve an object unconditionally.
    pub fn get(&self, location: &Path) -> (r: Result<GetResult, Error>)
        requires
            self.wf(),
            location.wf(),
        ensures
            match r {
                Ok(g) => {
                    &&& dom_has(self@, location@)
                    &&& g.meta.location@ == location@
                    &&& g.meta.size == lookup(self@, location@).data.len()
                    &&& g.meta.last_modified == lookup(self@, location@).last_modified
                    &&& g.meta.e_tag is Some && g.meta.e_tag->0@ == lookup(
                        self@,
                        location@,
                    ).e_tag
                    &&& g.meta.version is None
                    &&& g.data@ == lookup(self@, location@).data
                },
                Err(e) => e matches Error::NotFound { path } && !dom_has(self@, location@)
                    && path@ == spec_render(location@),
            },
    {
        let options = GetOptions::plain();
        self.get_opts(location, &options)
    }

    /// Retrieve an object's metadata without its body.
    pub fn head(&self, location: &Path) -> (r: Result<ObjectMeta, Error>)
        requires
            self.wf(),
            location.wf(),
        ensures
            match r {
                Ok(m) => {
                    &&& dom_has(self@, location@)
                    &&& m.location@ == location@
                    &&& m.size == lookup(self@, location@).data.len()
                    &&& m.last_modified == lookup(self@, location@).last_modified
                    &&& m.e_tag is Some && m.e_tag->0@ == lookup(self@, location@).e_tag
                    &&& m.version is None
                },
                Err(e) => e matches Error::NotFound { path } && !dom_has(self@, location@)
                    && path@ == spec_render(location@),
            },
    {
        let mut options = GetOptions::plain();
        options.head = true;
        match self.get_opts(location, &options) {
            Ok(g) => Ok(g.meta),
            Err(e) => Err(e),
        }
    }

    /// Retrieve `length` bytes starting at `start`. Fails with `NotFound`
    /// on a missing object and with a generic error on a range beyond the
    /// object's size.
    pub fn get_range(&self, location: &Path, start: u64, length: u64) -> (r: Result<
        Vec<u8>,
        Error,
    >)
        requires
            self.wf(),
            location.wf(),
        ensures
            match r {
                Ok(d) => {
                    &&& dom_has(self@, location@)
                    &&& start + length <= lookup(self@, location@).data.len()
                    &&& d@ == lookup(self@, location@).data.subrange(
                        start as int,
                        (start + length) as int,
                    )
                },
                Err(e) => match e {
                    Error::NotFound { path } => !dom_has(self@, location@) && path@
                        == spec_render(location@),
                    Error::Generic { .. } => dom_has(self@, location@) && start + length
                        > lookup(self@, location@).data.len(),
                    _ => false,
                },
            },
    {
        let idx = match self.find_idx(location) {
            Some(i) => i,
            None => {
                return Err(Error::NotFound { path: location.as_str() });
            },
        };
        proof {
            assert(lookup(self@, location@) == self@[idx as int].1);
            assert(self@[idx as int].1.data == self.entries@[idx as int].data@);
        }
        let entry = &self.entries[idx];
        let dlen = entry.data.len();
        let size = dlen as u64;
        if start > size || length > size - start {
            return Err(
                Error::Generic { message: String::from_str("range beyond the object size") },
            );
        }
        let s = start as usize;
        let l = length as usize;
        let mut d: Vec<u8> = Vec::new();
        let mut i: usize = 0;
        while i < l
            invariant
                i <= l,
                s + l <= dlen == entry.data@.len(),
                d@ == entry.data@.subrange(s as int, s + i),
            decreases l - i,
        {
            d.push(entry.data[s + i]);
            proof {
                assert(entry.data@.subrange(s as int, s + i + 1) =~= entry.data@.subrange(
                    s as int,
                    s + i,
                ).push(entry.data@[s + i]));
            }
            i = i + 1;
        }
        Ok(d)
    }

    /// Retrieve several byte ranges, each fetched independently; no
    /// cross-range consistency is implied beyond this store being local.
    pub fn get_ranges(&self, location: &Path, starts: &Vec<u64>, lengths: &Vec<u64>) -> (r: Result<
        Vec<Vec<u8>>,
        Error,
    >)
        requires
            self.wf(),
            location.wf(),
            starts@.len() == lengths@.len(),
        ensures
            match r {
                Ok(ds) => {
                    &&& dom_has(self@, location@)
                    &&& ds@.len() == starts@.len()
                    &&& forall|i: int|
                        0 <= i < ds@.len() ==> starts@[i] + lengths@[i] <= lookup(
                            self@,
                            location@,
                        ).data.len() && (#[trigger] ds@[i])@ == lookup(
                            self@,
                            location@,
                        ).data.subrange(
                            starts@[i] as int,
                            starts@[i] + lengths@[i],
                        )
                },
                Err(e) => match e {
                    Error::NotFound { path } => !dom_has(self@, location@) && path@
                        == spec_render(location@),
                    Error::Generic { .. } => dom_has(self@, location@) && exists|i: int|
                        0 <= i < starts@.len() && starts@[i] + lengths@[i] > lookup(
                            self@,
                            location@,
                        ).data.len(),
                    _ => false,
                },
            },
    {
        if self.find_idx(location).is_none() {
            return Err(Error::NotFound { path: location.as_str() });
        }
        let mut ds: Vec<Vec<u8>> = Vec::new();
        let mut i: usize = 0;
        while i < starts.len()
            invariant
                self.wf(),
                location.wf(),
                i <= starts@.len(),
                starts@.len() == lengths@.len(),
                ds@.len() == i,
                dom_has(self@, location@),
                forall|j: int|
                    0 <= j < i ==> #[trigger] starts@[j] + lengths@[j] <= lookup(
                        self@,
                        location@,
                    ).data.len(),
                forall|j: int|
                    0 <= j < i ==> (#[trigger] ds@[j])@ == lookup(self@, location@).data.subrange(
                        starts@[j] as int,
                        starts@[j] + lengths@[j],
                    ),
            decreases starts@.len() - i,
        {
            match self.get_range(location, starts[i], lengths[i]) {
                Ok(d) => {
                    let ghost old_ds = ds@;
                    let ghost dv = d@;
                    ds.push(d);
                    proof {
                        assert forall|j: int|
                            0 <= j < i + 1 implies #[trigger] starts@[j] + lengths@[j] <= lookup(
                            self@,
                            location@,
                        ).data.len() by {
                        }
                        assert forall|j: int|
                            0 <= j < i + 1 implies (#[trigger] ds@[j])@ == lookup(
                            self@,
                            location@,
                        ).data.subrange(
                            starts@[j] as int,
                            starts@[j] + lengths@[j],
                        ) by {
                            if j < i {
                                assert(ds@[j] == old_ds[j]);
                            } else {
                                assert(ds@[j]@ == dv);
                            }
                        }
                    }
                },
                Err(e) => {
                    return Err(e);
                },
            }
            i = i + 1;
        }
        Ok(ds)
    }

    /// Remove the object at a location. Removing a missing object is a
    /// no-op: this backend does not report it as an error.
    pub fn delete(&mut self, location: &Path) -> (r: Result<(), Error>)
        requires
            old(self).wf(),
            location.wf(),
        ensures
            r is Ok,
            final(self).wf(),
            final(self)@ == remove_key(old(self)@, location@),
            final(self).spec_tag() == old(self).spec_tag(),
            final(self).uploads_view() == old(self).uploads_view(),
            final(self).spec_upload_counter() == old(self).spec_upload_counter(),
    {
        let ghost old_view = self@;
        match self.find_idx(location) {
            Some(i) => {
                let _ = self.entries.remove(i);
                proof {
                    assert(self@ =~= old_view.remove(i as int));
                    assert(idx_of(old_view, location@) == i);
                    assert forall|a: int, b: int| 0 <= a < b < self@.len() implies (
                    #[trigger] self@[a]).0 != (#[trigger] self@[b]).0 by {
                        let oa = if a < i {
                            a
                        } else {
                            a + 1
                        };
                        let ob = if b < i {
                            b
                        } else {
                            b + 1
                        };
                        assert(self@[a].0 == old_view[oa].0);
                        assert(self@[b].0 == old_view[ob].0);
                    }
                    assert(self.uploads_view() =~= old(self).uploads_view());
                }
                Ok(())
            },
            None => {
                Ok(())
            },
        }
    }
}

/// A key strictly below a prefix: the prefix's segments come first, and at
/// least one more segment follows. An object at the prefix itself is not
/// "under" it.
pub open spec fn strict_under(p: Seq<Seq<char>>, k: Seq<Seq<char>>) -> bool {
    is_path_prefix(p, k) && k.len() > p.len()
}

/// Whether a flat listing keeps an entry: strictly under the prefix, and
/// past the offset where one is given.
pub open spec fn list_keeps(
    p: Seq<Seq<char>>,
    off: Option<Seq<char>>,
    k: Seq<Seq<char>>,
) -> bool {
    strict_under(p, k) && match off {
        Some(o) => lex_lt(o, spec_render(k)),
        None => true,
    }
}

/// The entries a flat listing yields, in storage order.
pub open spec fn list_sel(s: StoreView, p: Seq<Seq<char>>, off: Option<Seq<char>>) -> StoreView
    decreases s.len(),
{
    if s.len() == 0 {
        Seq::empty()
    } else if list_keeps(p, off, s[0].0) {
        seq![s[0]] + list_sel(s.drop_first(), p, off)
    } else {
        list_sel(s.drop_first(), p, off)
    }
}

/// Whether a metadata value reports exactly one stored entry.
pub open spec fn meta_matches(m: ObjectMeta, k: Seq<Seq<char>>, rec: ObjRecord) -> bool {
    &&& m.location@ == k
    &&& m.size == rec.data.len()
    &&& m.last_modified == rec.last_modified
    &&& m.e_tag is Some && m.e_tag->0@ == rec.e_tag
    &&& m.version is None
}

/// Whether a metadata sequence reports exactly the given entries, in order.
pub open spec fn metas_match(ms: Seq<ObjectMeta>, s: StoreView) -> bool {
    ms.len() == s.len() && forall|i: int|
        0 <= i < s.len() ==> meta_matches(#[trigger] ms[i], s[i].0, s[i].1)
}

/// The prefix view of an optional path: the root where none is given.
pub open spec fn opt_prefix_view(prefix: Option<&Path>) -> Seq<Seq<char>> {
    match prefix {
        Some(p) => p@,
        None => Seq::empty(),
    }
}

/// What a delimiter-bounded listing accumulates: the distinct common
/// prefixes in first-appearance order, and the direct child objects in
/// storage order.
pub struct DelimAcc {
    /// The distinct "directories" seen so far.
    pub prefixes: Seq<Seq<Seq<char>>>,
    /// The direct child objects seen so far.
    pub objects: StoreView,
}

/// Fold one entry into a delimiter-bounded listing.
pub open spec fn delim_step(
    acc: DelimAcc,
    p: Seq<Seq<char>>,
    k: Seq<Seq<char>>,
    rec: ObjRecord,
) -> DelimAcc {
    if !strict_under(p, k) {
        acc
    } else if k.len() == p.len() + 1 {
        DelimAcc { prefixes: acc.prefixes, objects: acc.objects.push((k, rec)) }
    } else {
        let cp = k.take(p.len() as int + 1);
        if acc.prefixes.contains(cp) {
            acc
        } else {
            DelimAcc { prefixes: acc.prefixes.push(cp), objects: acc.objects }
        }
    }
}

/// Fold a store into a delimiter-bounded listing.
pub open spec fn delim_fold(s: StoreView, p: Seq<Seq<char>>, acc: DelimAcc) -> DelimAcc
    decreases s.len(),
{
    if s.len() == 0 {
        acc
    } else {
        delim_fold(s.drop_first(), p, delim_step(acc, p, s[0].0, s[0].1))
    }
}

/// What one delimiter-bounded listing page holds.
pub open spec fn spec_list_delim(s: StoreView, p: Seq<Seq<char>>) -> DelimAcc {
    delim_fold(s, p, DelimAcc { prefixes: Seq::empty(), objects: Seq::empty() })
}

impl MemoryStore {
    /// One metadata value for entry `i`.
    fn meta_at(&self, i: usize) -> (m: ObjectMeta)
        requires
            i < self@.len(),
        ensures
            meta_matches(m, self@[i as int].0, self@[i as int].1),
    {
        let entry = &self.entries[i];
        proof {
            assert(self@[i as int].0 == self.entries@[i as int].key@);
            assert(self@[i as int].1.e_tag == self.entries@[i as int].e_tag@);
            assert(self@[i as int].1.last_modified == self.entries@[i as int].last_modified);
            assert(self@[i as int].1.data == self.entries@[i as int].data@);
        }
        ObjectMeta {
            location: entry.key.clone(),
            last_modified: entry.last_modified,
            size: entry.data.len() as u64,
            e_tag: Some(entry.e_tag.clone()),
            version: None,
        }
    }

    /// The flat listing under a prefix, past an optional offset.
    fn list_impl(&self, prefix: &Path, offset: Option<&Vec<char>>) -> (r: Vec<ObjectMeta>)
        requires
            self.wf(),
        ensures
            metas_match(
                r@,
                list_sel(
                    self@,
                    prefix@,
                    match offset {
                        Some(o) => Some(o@),
                        None => None,
                    },
                ),
            ),
    {
        let ghost p = prefix@;
        let ghost off: Option<Seq<char>> = match offset {
            Some(o) => Some(o@),
            None => None,
        };
        let mut out: Vec<ObjectMeta> = Vec::new();
        let ghost mut done: StoreView = Seq::empty();
        let mut i: usize = 0;
        proof {
            assert(self@.skip(0) =~= self@);
            assert(Seq::empty() + list_sel(self@, p, off) =~= list_sel(self@, p, off));
        }
        while i < self.entries.len()
            invariant
                self.wf(),
                i <= self.entries@.len(),
                self@.len() == self.entries@.len(),
                list_sel(self@, p, off) == done + list_sel(self@.skip(i as int), p, off),
                metas_match(out@, done),
                p == prefix@,
                off == match offset {
                    Some(o) => Some(o@),
                    None => None::<Seq<char>>,
                },
            decreases self.entries@.len() - i,
        {
            let ghost rem = self@.skip(i as int);
            proof {
                assert(rem[0] == self@[i as int]);
                assert(rem.drop_first() =~= self@.skip(i + 1));
            }
            let entry = &self.entries[i];
            proof {
                assert(self@[i as int].0 == self.entries@[i as int].key@);
                assert(segs_wf(self@[i as int].0));
            }
            let mut keep = entry.key.has_prefix(prefix) && entry.key.depth() > prefix.depth();
            if keep {
                match offset {
                    Some(o) => {
                        let rendered = entry.key.as_str();
                        let kv = crate::text::str_to_chars(rendered.as_str());
                        keep = lex_lt_chars(o, &kv);
                    },
                    None => {},
                }
            }
            proof {
                assert(keep == list_keeps(p, off, self@[i as int].0));
            }
            if keep {
                let m = self.meta_at(i);
                let ghost old_done = done;
                let ghost old_out = out@;
                out.push(m);
                proof {
                    done = old_done.push(self@[i as int]);
                    assert(list_sel(rem, p, off) == seq![self@[i as int]] + list_sel(
                        rem.drop_first(),
                        p,
                        off,
                    ));
                    assert(old_done + (seq![self@[i as int]] + list_sel(
                        self@.skip(i + 1),
                        p,
                        off,
                    )) =~= done + list_sel(self@.skip(i + 1), p, off));
                    assert forall|j: int| 0 <= j < done.len() implies meta_matches(
                        #[trigger] out@[j],
                        done[j].0,
                        done[j].1,
                    ) by {
                        if j < old_done.len() {
                            assert(out@[j] == old_out[j]);
                            assert(done[j] == old_done[j]);
                        }
                    }
                }
            } else {
                proof {
                    assert(list_sel(rem, p, off) == list_sel(rem.drop_first(), p, off));
                }
            }
            i = i + 1;
        }
        proof {
            assert(self@.skip(self.entries@.len() as int).len() == 0);
            assert(done + Seq::<(Seq<Seq<char>>, ObjRecord)>::empty() =~= done);
        }
        out
    }

    /// List every object strictly under a prefix, in storage order. The
    /// listing is a snapshot, not a live cursor.
    pub fn list(&self, prefix: Option<&Path>) -> (r: Vec<ObjectMeta>)
        requires
            self.wf(),
        ensures
            metas_match(r@, list_sel(self@, opt_prefix_view(prefix), None)),
    {
        let root = Path::root();
        match prefix {
            Some(p) => self.list_impl(p, None),
            None => self.list_impl(&root, None),
        }
    }

    /// List every object strictly under a prefix whose canonical form is
    /// lexicographically greater than the offset's.
    pub fn list_with_offset(&self, prefix: Option<&Path>, offset: &Path) -> (r: Vec<ObjectMeta>)
        requires
            self.wf(),
            offset.wf(),
        ensures
            metas_match(
                r@,
                list_sel(self@, opt_prefix_view(prefix), Some(spec_render(offset@))),
            ),
    {
        let rendered = offset.as_str();
        let ov = crate::text::str_to_chars(rendered.as_str());
        let root = Path::root();
        match prefix {
            Some(p) => self.list_impl(p, Some(&ov)),
            None => self.list_impl(&root, Some(&ov)),
        }
    }

    /// One non-recursive "directory" page: the objects directly under the
    /// prefix, and the distinct common prefixes one level down.
    pub fn list_with_delimiter(&self, prefix: Option<&Path>) -> (r: ListResult)
        requires
            self.wf(),
        ensures
            ({
                let acc = spec_list_delim(self@, opt_prefix_view(prefix));
                &&& r.common_prefixes@.len() == acc.prefixes.len()
                &&& forall|i: int|
                    0 <= i < acc.prefixes.len() ==> (#[trigger] r.common_prefixes@[i])@
                        == acc.prefixes[i]
                &&& metas_match(r.objects@, acc.objects)
            }),
    {
        let root = Path::root();
        let p: &Path = match prefix {
            Some(q) => q,
            None => &root,
        };
        let ghost pv = opt_prefix_view(prefix);
        let plen = p.depth();
        let mut prefixes: Vec<Path> = Vec::new();
        let mut objects: Vec<ObjectMeta> = Vec::new();
        let ghost mut acc = DelimAcc { prefixes: Seq::empty(), objects: Seq::empty() };
        let mut i: usize = 0;
        proof {
            assert(self@.skip(0) =~= self@);
        }
        while i < self.entries.len()
            invariant
                self.wf(),
                i <= self.entries@.len(),
                self@.len() == self.entries@.len(),
                pv == p@,
                plen == p@.len(),
                spec_list_delim(self@, pv) == delim_fold(self@.skip(i as int), pv, acc),
                prefixes@.len() == acc.prefixes.len(),
                forall|j: int|
                    0 <= j < acc.prefixes.len() ==> (#[trigger] prefixes@[j])@
                        == acc.prefixes[j],
                metas_match(objects@, acc.objects),
            decreases self.entries@.len() - i,
        {
            let ghost rem = self@.skip(i as int);
            proof {
                assert(rem[0] == self@[i as int]);
                assert(rem.drop_first() =~= self@.skip(i + 1));
            }
            let entry = &self.entries[i];
            proof {
                assert(self@[i as int].0 == self.entries@[i as int].key@);
            }
            let ghost k = self@[i as int].0;
            let ghost rec = self@[i as int].1;
            let ghost acc0 = acc;
            if entry.key.has_prefix(p) && entry.key.depth() > plen {
                if entry.key.depth() == plen + 1 {
                    // a direct child: one more object on this page
                    let m = self.meta_at(i);
                    let ghost old_objects = objects@;
                    objects.push(m);
                    proof {
                        acc = delim_step(acc0, pv, k, rec);
                        assert(acc.objects == acc0.objects.push((k, rec)));
                        assert(acc.prefixes == acc0.prefixes);
                        assert forall|j: int| 0 <= j < acc.objects.len() implies meta_matches(
                            #[trigger] objects@[j],
                            acc.objects[j].0,
                            acc.objects[j].1,
                        ) by {
                            if j < old_objects.len() {
                                assert(objects@[j] == old_objects[j]);
                                assert(acc.objects[j] == acc0.objects[j]);
                            }
                        }
                    }
                } else {
                    // deeper: contribute one common prefix, once
                    let cp = entry.key.prefix_to(plen + 1);
                    let mut seen = false;
                    let mut t: usize = 0;
                    while t < prefixes.len()
                        invariant
                            t <= prefixes@.len(),
                            acc == acc0,
                            prefixes@.len() == acc.prefixes.len(),
                            forall|j: int|
                                0 <= j < acc.prefixes.len() ==> (#[trigger] prefixes@[j])@
                                    == acc.prefixes[j],
                            cp@ == k.take(pv.len() as int + 1),
                            seen ==> acc.prefixes.contains(cp@),
                            !seen ==> forall|j: int|
                                0 <= j < t ==> (#[trigger] acc.prefixes[j]) != cp@,
                        decreases prefixes@.len() - t,
                    {
                        if &prefixes[t] == &cp {
                            proof {
                                assert(prefixes@[t as int]@ == acc.prefixes[t as int]);
                                assert(acc.prefixes[t as int] == cp@);
                            }
                            seen = true;
                        }
                        t = t + 1;
                    }
                    if !seen {
                        let ghost old_prefixes = prefixes@;
                        prefixes.push(cp);
                        proof {
                            assert(!acc0.prefixes.contains(k.take(pv.len() as int + 1)));
                            acc = delim_step(acc0, pv, k, rec);
                            assert(acc.prefixes == acc0.prefixes.push(k.take(pv.len() as int + 1)));
                            assert forall|j: int|
                                0 <= j < acc.prefixes.len() implies (
                            #[trigger] prefixes@[j])@ == acc.prefixes[j] by {
                                if j < old_prefixes.len() {
                                    assert(prefixes@[j] == old_prefixes[j]);
                                    assert(acc.prefixes[j] == acc0.prefixes[j]);
                                }
                            }
                        }
                    } else {
                        proof {
                            assert(acc0.prefixes.contains(k.take(pv.len() as int + 1)));
                            acc = delim_step(acc0, pv, k, rec);
                            assert(acc == acc0);
                        }
                    }
                }
            } else {
                proof {
                    assert(!strict_under(pv, k));
                    acc = delim_step(acc0, pv, k, rec);
                    assert(acc == acc0);
                }
            }
            proof {
                assert(acc == delim_step(acc0, pv, k, rec));
                assert(delim_fold(rem, pv, acc0) == delim_fold(rem.drop_first(), pv, acc));
                assert(spec_list_delim(self@, pv) == delim_fold(self@.skip(i + 1), pv, acc));
            }
            i = i + 1;
        }
        proof {
            assert(self@.skip(self.entries@.len() as int).len() == 0);
        }
        ListResult { common_prefixes: prefixes, objects }
    }
}

impl MemoryStore {
    /// Copy the object at `from` to `to`, overwriting. The copy is a new
    /// write: it gets a fresh entity tag and timestamp.
    pub fn copy(&mut self, from: &Path, to: &Path) -> (r: Result<(), Error>)
        requires
            old(self).wf(),
            from.wf(),
            to.wf(),
        ensures
            final(self).wf(),
            final(self).uploads_view() == old(self).uploads_view(),
            final(self).spec_upload_counter() == old(self).spec_upload_counter(),
            match r {
                Ok(_) => {
                    &&& dom_has(old(self)@, from@)
                    &&& final(self)@ == upsert(
                        old(self)@,
                        to@,
                        new_record(old(self).spec_tag(), lookup(old(self)@, from@).data),
                    )
                    &&& final(self).spec_tag() == sat_inc(old(self).spec_tag())
                },
                Err(e) => {
                    &&& *final(self) == *old(self)
                    &&& e matches Error::NotFound { path } && !dom_has(old(self)@, from@)
                        && path@ == spec_render(from@)
                },
            },
    {
        let idx = match self.find_idx(from) {
            Some(i) => i,
            None => {
                return Err(Error::NotFound { path: from.as_str() });
            },
        };
        proof {
            assert(lookup(self@, from@) == self@[idx as int].1);
            assert(self@[idx as int].1.data == self.entries@[idx as int].data@);
        }
        let data = copy_bytes(&self.entries[idx].data);
        let mode = PutMode::Overwrite;
        match self.put_opts(to, &data, &mode) {
            Ok(_) => Ok(()),
            Err(_) => {
                proof {
                    assert(false);
                }
                Err(Error::JoinError)
            },
        }
    }

    /// Copy the object at `from` to `to`, failing with `AlreadyExists` if
    /// an object is already at `to`.
    pub fn copy_if_not_exists(&mut self, from: &Path, to: &Path) -> (r: Result<(), Error>)
        requires
            old(self).wf(),
            from.wf(),
            to.wf(),
        ensures
            final(self).wf(),
            final(self).uploads_view() == old(self).uploads_view(),
            final(self).spec_upload_counter() == old(self).spec_upload_counter(),
            match r {
                Ok(_) => {
                    &&& dom_has(old(self)@, from@)
                    &&& !dom_has(old(self)@, to@)
                    &&& final(self)@ == upsert(
                        old(self)@,
                        to@,
                        new_record(old(self).spec_tag(), lookup(old(self)@, from@).data),
                    )
                    &&& final(self).spec_tag() == sat_inc(old(self).spec_tag())
                },
                Err(e) => {
                    &&& *final(self) == *old(self)
                    &&& match e {
                        Error::NotFound { path } => !dom_has(old(self)@, from@) && path@
                            == spec_render(from@),
                        Error::AlreadyExists { path } => dom_has(old(self)@, from@) && dom_has(
                            old(self)@,
                            to@,
                        ) && path@ == spec_render(to@),
                        _ => false,
                    }
                },
            },
    {
        if self.find_idx(from).is_none() {
            return Err(Error::NotFound { path: from.as_str() });
        }
        if self.find_idx(to).is_some() {
            return Err(Error::AlreadyExists { path: to.as_str() });
        }
        self.copy(from, to)
    }

    /// Move the object at `from` to `to`: a copy followed by a delete of
    /// the source. Not failure-atomic: the two steps are separate writes.
    pub fn rename(&mut self, from: &Path, to: &Path) -> (r: Result<(), Error>)
        requires
            old(self).wf(),
            from.wf(),
            to.wf(),
        ensures
            final(self).wf(),
            final(self).uploads_view() == old(self).uploads_view(),
            final(self).spec_upload_counter() == old(self).spec_upload_counter(),
            match r {
                Ok(_) => {
                    &&& dom_has(old(self)@, from@)
                    &&& final(self)@ == remove_key(
                        upsert(
                            old(self)@,
                            to@,
                            new_record(old(self).spec_tag(), lookup(old(self)@, from@).data),
                        ),
                        from@,
                    )
                    &&& final(self).spec_tag() == sat_inc(old(self).spec_tag())
                },
                Err(e) => {
                    &&& *final(self) == *old(self)
                    &&& e matches Error::NotFound { path } && !dom_has(old(self)@, from@)
                        && path@ == spec_render(from@)
                },
            },
    {
        match self.copy(from, to) {
            Ok(_) => {},
            Err(e) => {
                return Err(e);
            },
        }
        match self.delete(from) {
            Ok(_) => Ok(()),
            Err(_) => {
                proof {
                    assert(false);
                }
                Err(Error::JoinError)
            },
        }
    }

    /// Move the object at `from` to `to`, failing with `AlreadyExists` if
    /// an object is already at `to`.
    pub fn rename_if_not_exists(&mut self, from: &Path, to: &Path) -> (r: Result<(), Error>)
        requires
            old(self).wf(),
            from.wf(),
            to.wf(),
        ensures
            final(self).wf(),
            final(self).uploads_view() == old(self).uploads_view(),
            final(self).spec_upload_counter() == old(self).spec_upload_counter(),
            match r {
                Ok(_) => {
                    &&& dom_has(old(self)@, from@)
                    &&& !dom_has(old(self)@, to@)
                    &&& final(self)@ == remove_key(
                        upsert(
                            old(self)@,
                            to@,
                            new_record(old(self).spec_tag(), lookup(old(self)@, from@).data),
                        ),
                        from@,
                    )
                    &&& final(self).spec_tag() == sat_inc(old(self).spec_tag())
                },
                Err(e) => {
                    &&& *final(self) == *old(self)
                    &&& match e {
                        Error::NotFound { path } => !dom_has(old(self)@, from@) && path@
                            == spec_render(from@),
                        Error::AlreadyExists { path } => dom_has(old(self)@, from@) && dom_has(
                            old(self)@,
                            to@,
                        ) && path@ == spec_render(to@),
                        _ => false,
                    }
                },
            },
    {
        if self.find_idx(from).is_none() {
            return Err(Error::NotFound { path: from.as_str() });
        }
        if self.find_idx(to).is_some() {
            return Err(Error::AlreadyExists { path: to.as_str() });
        }
        self.rename(from, to)
    }
}

/// The view of the staged uploads.
pub type UploadsView = Seq<(u64, Seq<Seq<char>>, Seq<Option<Seq<u8>>>)>;

/// Whether an upload with this identifier is staged.
pub open spec fn up_has(u: UploadsView, id: u64) -> bool {
    exists|i: int| 0 <= i < u.len() && u[i].0 == id
}

/// The index of a staged upload.
pub open spec fn up_idx(u: UploadsView, id: u64) -> int {
    choose|i: int| 0 <= i < u.len() && u[i].0 == id
}

/// Grow a part list to hold an index, then set that part.
pub open spec fn set_part(parts: Seq<Option<Seq<u8>>>, idx: int, d: Seq<u8>) -> Seq<
    Option<Seq<u8>>,
> {
    let grown = if idx < parts.len() {
        parts
    } else {
        parts + Seq::new((idx + 1 - parts.len()) as nat, |_j: int| None::<Seq<u8>>)
    };
    grown.update(idx, Some(d))
}

/// Every staged part has been uploaded.
pub open spec fn all_parts(parts: Seq<Option<Seq<u8>>>) -> bool {
    forall|i: int| 0 <= i < parts.len() ==> (#[trigger] parts[i]) is Some
}

/// The bytes of the parts concatenated in index order.
pub open spec fn concat_parts(parts: Seq<Option<Seq<u8>>>) -> Seq<u8>
    decreases parts.len(),
{
    if parts.len() == 0 {
        Seq::empty()
    } else {
        (match parts[0] {
            Some(d) => d,
            None => Seq::empty(),
        }) + concat_parts(parts.drop_first())
    }
}

impl MemoryStore {
    /// Find the index of a staged upload.
    fn find_upload(&self, id: u64) -> (r: Option<usize>)
        requires
            self.wf(),
        ensures
            match r {
                Some(i) => up_has(self.uploads_view(), id) && 0 <= i
                    < self.uploads_view().len() && self.uploads_view()[i as int].0 == id
                    && up_idx(self.uploads_view(), id) == i,
                None => !up_has(self.uploads_view(), id),
            },
    {
        let ghost u = self.uploads_view();
        let mut i: usize = 0;
        while i < self.uploads.len()
            invariant
                self.wf(),
                u == self.uploads_view(),
                i <= self.uploads@.len(),
                u.len() == self.uploads@.len(),
                forall|j: int| 0 <= j < i ==> (#[trigger] u[j]).0 != id,
            decreases self.uploads@.len() - i,
        {
            proof {
                assert(u[i as int].0 == self.uploads@[i as int].id);
            }
            if self.uploads[i].id == id {
                proof {
                    let w = up_idx(u, id);
                    assert(0 <= w < u.len() && u[w].0 == id);
                    if w != i {
                        if w < i {
                            assert(u[w].0 != id);
                        } else {
                            assert(u[i as int].0 != u[w].0);
                        }
                    }
                }
                return Some(i);
            }
            i = i + 1;
        }
        proof {
            if up_has(u, id) {
                let w = up_idx(u, id);
            }
        }
        None
    }

    /// Begin a multipart upload to a location, returning its identifier.
    /// No object becomes visible until the upload completes.
    pub fn create_multipart(&mut self, location: &Path) -> (r: Result<u64, Error>)
        requires
            old(self).wf(),
            location.wf(),
        ensures
            final(self).wf(),
            final(self)@ == old(self)@,
            final(self).spec_tag() == old(self).spec_tag(),
            match r {
                Ok(id) => {
                    &&& old(self).spec_upload_counter() < u64::MAX
                    &&& id == old(self).spec_upload_counter()
                    &&& final(self).uploads_view() == old(self).uploads_view().push(
                        (id, location@, Seq::empty()),
                    )
                    &&& final(self).spec_upload_counter() == old(self).spec_upload_counter() + 1
                },
                Err(e) => {
                    &&& *final(self) == *old(self)
                    &&& e matches Error::Generic { .. }
                    &&& old(self).spec_upload_counter() == u64::MAX
                },
            },
    {
        if self.next_upload == u64::MAX {
            return Err(
                Error::Generic { message: String::from_str("upload identifiers exhausted") },
            );
        }
        let id = self.next_upload;
        let ghost old_u = self.uploads_view();
        self.uploads.push(Upload { id, location: location.clone(), parts: Vec::new() });
        self.next_upload = id + 1;
        proof {
            assert(self.uploads_view() =~~= old_u.push((id, location@, Seq::empty())));
            assert(self@ =~~= old(self)@);
            assert forall|a: int, b: int|
                0 <= a < b < self.uploads_view().len() implies (
            #[trigger] self.uploads_view()[a]).0 != (#[trigger] self.uploads_view()[b]).0 by {
                if b < old_u.len() {
                    assert(old_u[a].0 != old_u[b].0);
                } else {
                    assert(self.uploads_view()[b].0 == id);
                    assert(self.uploads_view()[a].0 == old_u[a].0);
                    assert(old_u[a].0 < id);
                }
            }
        }
        Ok(id)
    }

    /// Stage the bytes of one part, by part index. Parts may arrive in any
    /// order; staging the same index twice keeps the newer bytes.
    pub fn put_part(&mut self, id: u64, part_idx: usize, data: &Vec<u8>) -> (r: Result<(), Error>)
        requires
            old(self).wf(),
        ensures
            final(self).wf(),
            final(self)@ == old(self)@,
            final(self).spec_tag() == old(self).spec_tag(),
            final(self).spec_upload_counter() == old(self).spec_upload_counter(),
            match r {
                Ok(_) => {
                    &&& up_has(old(self).uploads_view(), id)
                    &&& final(self).uploads_view() == old(self).uploads_view().update(
                        up_idx(old(self).uploads_view(), id),
                        (
                            id,
                            old(self).uploads_view()[up_idx(old(self).uploads_view(), id)].1,
                            set_part(
                                old(self).uploads_view()[up_idx(
                                    old(self).uploads_view(),
                                    id,
                                )].2,
                                part_idx as int,
                                data@,
                            ),
                        ),
                    )
                },
                Err(e) => {
                    &&& *final(self) == *old(self)
                    &&& e matches Error::Generic { .. }
                    &&& !up_has(old(self).uploads_view(), id)
                },
            },
    {
        let i = match self.find_upload(id) {
            Some(i) => i,
            None => {
                return Err(Error::Generic { message: String::from_str("no such upload") });
            },
        };
        let ghost old_u = self.uploads_view();
        let ghost old_parts = old_u[i as int].2;
        let mut upload = self.uploads.remove(i);
        let ghost old_exec_parts = upload.parts@;
        proof {
            assert(old_parts.len() == old_exec_parts.len());
            assert forall|j: int| 0 <= j < old_parts.len() implies old_parts[j] == (
            match old_exec_parts[j] {
                Some(p) => Some(p@),
                None => None::<Seq<u8>>,
            }) by {
            }
        }
        proof {
            assert(upload.parts@ =~= old_exec_parts + Seq::new(
                (upload.parts@.len() - old_exec_parts.len()) as nat,
                |_j: int| None::<Vec<u8>>,
            ));
        }
        let ghost uid = upload.id;
        let ghost uloc = upload.location;
        while upload.parts.len() <= part_idx
            invariant
                upload.id == uid,
                upload.location == uloc,
                old_exec_parts.len() <= upload.parts@.len(),
                upload.parts@.len() <= part_idx + 1 || upload.parts@.len()
                    == old_exec_parts.len(),
                upload.parts@ == old_exec_parts + Seq::new(
                    (upload.parts@.len() - old_exec_parts.len()) as nat,
                    |_j: int| None::<Vec<u8>>,
                ),
            decreases part_idx + 1 - upload.parts@.len(),
        {
            upload.parts.push(None);
            proof {
                assert(upload.parts@ =~= old_exec_parts + Seq::new(
                    (upload.parts@.len() - old_exec_parts.len()) as nat,
                    |_j: int| None::<Vec<u8>>,
                ));
            }
        }
        let ghost grown_exec = upload.parts@;
        proof {
            let gview = Seq::new(
                grown_exec.len(),
                |j: int|
                    match grown_exec[j] {
                        Some(p) => Some(p@),
                        None => None::<Seq<u8>>,
                    },
            );
            let sgrown = if part_idx < old_parts.len() {
                old_parts
            } else {
                old_parts + Seq::new(
                    (part_idx + 1 - old_parts.len()) as nat,
                    |_j: int| None::<Seq<u8>>,
                )
            };
            assert(gview =~= sgrown);
        }
        let copied = copy_bytes(data);
        let slot = Some(copied);
        let ghost gslot = slot;
        let _ = upload.parts.remove(part_idx);
        upload.parts.insert(part_idx, slot);
        proof {
            assert(upload.parts@ =~= grown_exec.update(part_idx as int, gslot));
            assert(gslot is Some && gslot->0@ == data@);
        }
        let ghost gupload = upload;
        self.uploads.insert(i, upload);
        proof {
            let target = old_u.update(
                i as int,
                (id, old_u[i as int].1, set_part(old_parts, part_idx as int, data@)),
            );
            assert(self.uploads@ =~= old(self).uploads@.update(i as int, gupload));
            assert forall|a: int|
                0 <= a < target.len() implies self.uploads_view()[a] == target[a] by {
                if a != i {
                    assert(self.uploads@[a] == old(self).uploads@[a]);
                    assert(self.uploads_view()[a].0 == old_u[a].0);
                    assert(self.uploads_view()[a].1 == old_u[a].1);
                    assert(self.uploads_view()[a].2 =~= old_u[a].2);
                } else {
                    assert(self.uploads@[a] == gupload);
                    assert(gupload.id == uid && gupload.location == uloc);
                    assert(gupload.id == old(self).uploads@[i as int].id);
                    assert(gupload.location == old(self).uploads@[i as int].location);
                    assert(old_u[i as int].0 == old(self).uploads@[i as int].id);
                    assert(old_u[i as int].1 == old(self).uploads@[i as int].location@);
                    assert(old_u[i as int].0 == id);
                    assert(self.uploads_view()[a].0 == id);
                    assert(self.uploads_view()[a].1 == old_u[i as int].1);
                    assert(self.uploads_view()[a].2 =~= set_part(
                        old_parts,
                        part_idx as int,
                        data@,
                    ));
                }
            }
            assert(self.uploads_view() =~= target);
            assert(self@ =~~= old(self)@);
            assert forall|a: int, b: int|
                0 <= a < b < self.uploads_view().len() implies (
            #[trigger] self.uploads_view()[a]).0 != (#[trigger] self.uploads_view()[b]).0 by {
                assert(old_u[a].0 != old_u[b].0);
                assert(self.uploads_view()[a].0 == old_u[a].0);
                assert(self.uploads_view()[b].0 == old_u[b].0);
            }
        }
        Ok(())
    }
}

impl MemoryStore {
    /// Drop the staged upload at index `i`, keeping the store well-formed.
    fn drop_upload(&mut self, i: usize)
        requires
            old(self).wf(),
            i < old(self).uploads_view().len(),
        ensures
            final(self).wf(),
            final(self)@ == old(self)@,
            final(self).spec_tag() == old(self).spec_tag(),
            final(self).spec_upload_counter() == old(self).spec_upload_counter(),
            final(self).uploads_view() == old(self).uploads_view().remove(i as int),
    {
        let ghost old_u = self.uploads_view();
        let _ = self.uploads.remove(i);
        proof {
            assert(self@ =~~= old(self)@);
            assert(self.uploads_view() =~~= old_u.remove(i as int));
            assert forall|a: int, b: int|
                0 <= a < b < self.uploads_view().len() implies (
            #[trigger] self.uploads_view()[a]).0 != (#[trigger] self.uploads_view()[b]).0 by {
                let oa = if a < i {
                    a
                } else {
                    a + 1
                };
                let ob = if b < i {
                    b
                } else {
                    b + 1
                };
                assert(self.uploads_view()[a] == old_u[oa]);
                assert(self.uploads_view()[b] == old_u[ob]);
                assert(old_u[oa].0 != old_u[ob].0);
            }
            assert forall|a: int|
                0 <= a < self.uploads_view().len() implies (
            #[trigger] self.uploads_view()[a]).0 < self.spec_upload_counter() && segs_wf(
                self.uploads_view()[a].1,
            ) by {
                let oa = if a < i {
                    a
                } else {
                    a + 1
                };
                assert(self.uploads_view()[a] == old_u[oa]);
                assert(old_u[oa].0 < old(self).spec_upload_counter());
                assert(segs_wf(old_u[oa].1));
            }
        }
    }

    /// Assemble a staged upload into one object, in part-index order, and
    /// make it visible. Fails if the upload is unknown or a part is
    /// missing; either way the staged upload is consumed.
    pub fn complete_multipart(&mut self, id: u64) -> (r: Result<PutResult, Error>)
        requires
            old(self).wf(),
        ensures
            final(self).wf(),
            final(self).spec_upload_counter() == old(self).spec_upload_counter(),
            match r {
                Ok(p) => {
                    &&& up_has(old(self).uploads_view(), id)
                    &&& all_parts(
                        old(self).uploads_view()[up_idx(old(self).uploads_view(), id)].2,
                    )
                    &&& final(self).uploads_view() == old(self).uploads_view().remove(
                        up_idx(old(self).uploads_view(), id),
                    )
                    &&& final(self)@ == upsert(
                        old(self)@,
                        old(self).uploads_view()[up_idx(old(self).uploads_view(), id)].1,
                        new_record(
                            old(self).spec_tag(),
                            concat_parts(
                                old(self).uploads_view()[up_idx(
                                    old(self).uploads_view(),
                                    id,
                                )].2,
                            ),
                        ),
                    )
                    &&& final(self).spec_tag() == sat_inc(old(self).spec_tag())
                    &&& p.e_tag is Some && p.e_tag->0@ == etag_str(old(self).spec_tag())
                    &&& p.version is None
                },
                Err(e) => {
                    &&& e matches Error::Generic { .. }
                    &&& final(self)@ == old(self)@
                    &&& final(self).spec_tag() == old(self).spec_tag()
                    &&& if up_has(old(self).uploads_view(), id) {
                        !all_parts(
                            old(self).uploads_view()[up_idx(old(self).uploads_view(), id)].2,
                        ) && final(self).uploads_view() == old(self).uploads_view().remove(
                            up_idx(old(self).uploads_view(), id),
                        )
                    } else {
                        *final(self) == *old(self)
                    }
                },
            },
    {
        let i = match self.find_upload(id) {
            Some(i) => i,
            None => {
                return Err(Error::Generic { message: String::from_str("no such upload") });
            },
        };
        let ghost old_u = self.uploads_view();
        let ghost pview = old_u[i as int].2;
        let ghost loc_view = old_u[i as int].1;
        // take the upload out before inspecting it: completion consumes it
        let upload = self.uploads.remove(i);
        let location = upload.location;
        let parts = upload.parts;
        proof {
            assert(location@ == loc_view);
            assert(segs_wf(loc_view));
            assert(pview.len() == parts@.len());
            assert forall|j: int| 0 <= j < pview.len() implies pview[j] == (
            match parts@[j] {
                Some(p) => Some(p@),
                None => None::<Seq<u8>>,
            }) by {
            }
            assert(self@ =~~= old(self)@);
            assert(self.uploads_view() =~~= old_u.remove(i as int));
            assert forall|a: int, b: int|
                0 <= a < b < self.uploads_view().len() implies (
            #[trigger] self.uploads_view()[a]).0 != (#[trigger] self.uploads_view()[b]).0 by {
                let oa = if a < i {
                    a
                } else {
                    a + 1
                };
                let ob = if b < i {
                    b
                } else {
                    b + 1
                };
                assert(self.uploads_view()[a] == old_u[oa]);
                assert(self.uploads_view()[b] == old_u[ob]);
                assert(old_u[oa].0 != old_u[ob].0);
            }
            assert forall|a: int|
                0 <= a < self.uploads_view().len() implies (
            #[trigger] self.uploads_view()[a]).0 < self.spec_upload_counter() && segs_wf(
                self.uploads_view()[a].1,
            ) by {
                let oa = if a < i {
                    a
                } else {
                    a + 1
                };
                assert(self.uploads_view()[a] == old_u[oa]);
                assert(old_u[oa].0 < old(self).spec_upload_counter());
                assert(segs_wf(old_u[oa].1));
            }
        }
        let mut data: Vec<u8> = Vec::new();
        let mut t: usize = 0;
        proof {
            assert(pview.skip(0) =~= pview);
            assert(Seq::<u8>::empty() + concat_parts(pview) =~= concat_parts(pview));
        }
        while t < parts.len()
            invariant
                self.wf(),
                self@ == old(self)@,
                self.spec_tag() == old(self).spec_tag(),
                self.spec_upload_counter() == old(self).spec_upload_counter(),
                up_has(old(self).uploads_view(), id),
                up_idx(old(self).uploads_view(), id) == i,
                i < old(self).uploads_view().len(),
                self.uploads_view() == old(self).uploads_view().remove(i as int),
                pview == old(self).uploads_view()[i as int].2,
                t <= parts@.len() == pview.len(),
                forall|j: int| 0 <= j < pview.len() ==> #[trigger] pview[j] == (match parts@[j] {
                    Some(p) => Some(p@),
                    None => None::<Seq<u8>>,
                }),
                forall|j: int| 0 <= j < t ==> (#[trigger] pview[j]) is Some,
                concat_parts(pview) == data@ + concat_parts(pview.skip(t as int)),
            decreases parts@.len() - t,
        {
            let ghost rem = pview.skip(t as int);
            proof {
                assert(rem[0] == pview[t as int]);
                assert(rem.drop_first() =~= pview.skip(t + 1));
            }
            match &parts[t] {
                Some(d) => {
                    let mut c = copy_bytes(d);
                    let ghost before = data@;
                    data.append(&mut c);
                    proof {
                        assert(pview[t as int] == Some(parts@[t as int]->0@));
                        assert(concat_parts(rem) == parts@[t as int]->0@ + concat_parts(
                            rem.drop_first(),
                        ));
                        assert(before + (parts@[t as int]->0@ + concat_parts(
                            pview.skip(t + 1),
                        )) =~= data@ + concat_parts(pview.skip(t + 1)));
                    }
                },
                None => {
                    proof {
                        assert(pview[t as int] is None);
                        assert(!all_parts(pview));
                    }
                    return Err(
                        Error::Generic { message: String::from_str("missing multipart part") },
                    );
                },
            }
            t = t + 1;
        }
        proof {
            assert(pview.skip(pview.len() as int).len() == 0);
            assert(data@ + Seq::<u8>::empty() =~= data@);
            assert(all_parts(pview));
        }
        let mode = PutMode::Overwrite;
        match self.put_opts(&location, &data, &mode) {
            Ok(p) => Ok(p),
            Err(_) => {
                proof {
                    assert(false);
                }
                Err(Error::JoinError)
            },
        }
    }

    /// Abandon a staged upload, releasing its parts. Fails if the upload
    /// is unknown.
    pub fn abort_multipart(&mut self, id: u64) -> (r: Result<(), Error>)
        requires
            old(self).wf(),
        ensures
            final(self).wf(),
            final(self)@ == old(self)@,
            final(self).spec_tag() == old(self).spec_tag(),
            final(self).spec_upload_counter() == old(self).spec_upload_counter(),
            match r {
                Ok(_) => up_has(old(self).uploads_view(), id) && final(self).uploads_view()
                    == old(self).uploads_view().remove(up_idx(old(self).uploads_view(), id)),
                Err(e) => e matches Error::Generic { .. } && !up_has(
                    old(self).uploads_view(),
                    id,
                ) && *final(self) == *old(self),
            },
    {
        match self.find_upload(id) {
            Some(i) => {
                self.drop_upload(i);
                Ok(())
            },
            None => Err(Error::Generic { message: String::from_str("no such upload") }),
        }
    }
}

/// After an upsert the key holds exactly the new record, and every other
/// key is untouched.
pub proof fn lemma_upsert_lookup(s: StoreView, k: Seq<Seq<char>>, r: ObjRecord)
    requires
        keys_unique(s),
    ensures
        dom_has(upsert(s, k, r), k),
        lookup(upsert(s, k, r), k) == r,
        forall|k2: Seq<Seq<char>>|
            k2 != k ==> #[trigger] dom_has(upsert(s, k, r), k2) == dom_has(s, k2),
        forall|k2: Seq<Seq<char>>|
            k2 != k && dom_has(s, k2) ==> #[trigger] lookup(upsert(s, k, r), k2) == lookup(
                s,
                k2,
            ),
{
    let u = upsert(s, k, r);
    let kidx: int = if dom_has(s, k) {
        idx_of(s, k)
    } else {
        s.len() as int
    };
    if dom_has(s, k) {
        assert(0 <= kidx < s.len() && s[kidx].0 == k);
        assert(u == s.update(kidx, (k, r)));
    } else {
        assert(u == s.push((k, r)));
    }
    assert(u.len() == if dom_has(s, k) { s.len() as int } else { s.len() as int + 1 });
    assert(u[kidx] == (k, r));
    assert forall|j: int| 0 <= j < u.len() && j != kidx implies #[trigger] u[j] == s[j] by {}
    assert forall|j: int| 0 <= j < u.len() && j != kidx implies (#[trigger] u[j]).0 != k by {
        if s[j].0 == k {
            if dom_has(s, k) {
                if j < kidx {
                    assert(s[j].0 != s[kidx].0);
                } else {
                    assert(s[kidx].0 != s[j].0);
                }
            } else {
                assert(dom_has(s, k));
            }
        }
    }
    assert(dom_has(u, k));
    let w = idx_of(u, k);
    assert(0 <= w < u.len() && u[w].0 == k);
    assert(w == kidx);
    assert(lookup(u, k) == r);
    assert forall|k2: Seq<Seq<char>>|
        k2 != k && dom_has(s, k2) implies #[trigger] lookup(upsert(s, k, r), k2) == lookup(
        s,
        k2,
    ) by {
        assert(upsert(s, k, r) == u);
        let j = idx_of(s, k2);
        assert(0 <= j < s.len() && s[j].0 == k2);
        assert(j != kidx);
        assert(u[j] == s[j]);
        assert(dom_has(u, k2));
        let w2 = idx_of(u, k2);
        assert(0 <= w2 < u.len() && u[w2].0 == k2);
        assert(w2 != kidx);
        assert(u[w2] == s[w2]);
        if w2 != j {
            if w2 < j {
                assert(s[w2].0 != s[j].0);
            } else {
                assert(s[j].0 != s[w2].0);
            }
        }
        assert(lookup(u, k2) == lookup(s, k2));
    }
    assert forall|k2: Seq<Seq<char>>|
        k2 != k implies #[trigger] dom_has(upsert(s, k, r), k2) == dom_has(s, k2) && (dom_has(
            s,
            k2,
        ) ==> lookup(upsert(s, k, r), k2) == lookup(s, k2)) by {
        assert(upsert(s, k, r) == u);
        if dom_has(s, k2) {
            let j = idx_of(s, k2);
            assert(0 <= j < s.len() && s[j].0 == k2);
            assert(j != kidx);
            assert(u[j] == s[j]);
            assert(dom_has(u, k2));
            let w2 = idx_of(u, k2);
            assert(0 <= w2 < u.len() && u[w2].0 == k2);
            assert(w2 != kidx);
            assert(u[w2] == s[w2]);
            if w2 != j {
                if w2 < j {
                    assert(s[w2].0 != s[j].0);
                } else {
                    assert(s[j].0 != s[w2].0);
                }
            }
            assert(lookup(u, k2) == lookup(s, k2));
        } else {
            if dom_has(u, k2) {
                let w2 = idx_of(u, k2);
                assert(0 <= w2 < u.len() && u[w2].0 == k2);
                assert(w2 != kidx);
                assert(u[w2] == s[w2]);
                assert(dom_has(s, k2));
            }
        }
    }
}

/// Copy a byte vector.
pub fn copy_bytes(v: &Vec<u8>) -> (r: Vec<u8>)
    ensures
        r@ == v@,
{
    let mut r: Vec<u8> = Vec::new();
    let mut i: usize = 0;
    while i < v.len()
        invariant
            i <= v@.len(),
            r@ == v@.take(i as int),
        decreases v@.len() - i,
    {
        r.push(v[i]);
        proof {
            assert(v@.take(i + 1) =~= v@.take(i as int).push(v@[i as int]));
        }
        i = i + 1;
    }
    proof {
        assert(v@.take(v@.len() as int) =~= v@);
    }
    r
}

/// The entity tag string of write counter `n`.
fn quoted_decimal(n: u64) -> (r: String)
    ensures
        r@ == etag_str(n),
{
    let mut out: Vec<char> = Vec::new();
    out.push('"');
    push_decimal(n, &mut out);
    out.push('"');
    proof {
        assert(out@ =~= etag_str(n));
    }
    chars_to_string(&out)
}

/// Whether a string is the match-anything entity tag.
fn is_star(s: &String) -> (r: bool)
    ensures
        r == (s@ == "*"@),
{
    proof {
        reveal_strlit("*");
    }
    let st = s.as_str();
    if st.unicode_len() == 1 && st.get_char(0) == '*' {
        proof {
            assert(s@ =~= "*"@);
        }
        true
    } else {
        proof {
            if s@ == "*"@ {
                assert(s@.len() == 1 && s@[0] == '*');
            }
        }
        false
    }
}

} // verus!
