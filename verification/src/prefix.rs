//! A store decorator that keeps everything under a constant path prefix.
//!
//! Inbound paths are rewritten to `prefix ++ path` before reaching the
//! inner store; outbound listing and head results have the prefix stripped
//! back off. Stripping a result also clears its `version` field: a version
//! is tied to the full underlying path and is not meaningful after the
//! translation. With no prefix the decorator is a passthrough.

use vstd::prelude::*;

use crate::error::Error;
use crate::memory::{
    dom_has, list_sel, lookup, meta_matches, new_record, remove_key, sat_inc, spec_list_delim,
    upsert, MemoryStore, ObjRecord, StoreView,
};
use crate::path::{is_path_prefix, segs_wf, Path};
use crate::types::{GetOptions, GetResult, ListResult, ObjectMeta, PutMode, PutResult};

verus! {

/// The view of an optional prefix.
pub open spec fn opt_path_view(o: Option<Path>) -> Option<Seq<Seq<char>>> {
    match o {
        Some(p) => Some(p@),
        None => None,
    }
}

/// Rewrite an inbound path: prepend the prefix, if any.
pub open spec fn spec_rewrite(
    prefix: Option<Seq<Seq<char>>>,
    loc: Seq<Seq<char>>,
) -> Seq<Seq<char>> {
    match prefix {
        Some(p) => p + loc,
        None => loc,
    }
}

/// Strip an outbound path: drop the prefix where it is present, and leave
/// the path unchanged where it is not.
pub open spec fn spec_strip(
    prefix: Option<Seq<Seq<char>>>,
    k: Seq<Seq<char>>,
) -> Seq<Seq<char>> {
    match prefix {
        Some(p) => if is_path_prefix(p, k) {
            k.skip(p.len() as int)
        } else {
            k
        },
        None => k,
    }
}

/// Round-trip law: stripping a prefix from a rewritten path yields the
/// original relative path, for every prefix and every relative path.
pub proof fn lemma_prefix_roundtrip(prefix: Option<Seq<Seq<char>>>, r: Seq<Seq<char>>)
    ensures
        spec_strip(prefix, spec_rewrite(prefix, r)) == r,
{
    match prefix {
        Some(p) => {
            assert((p + r).take(p.len() as int) =~= p);
            assert((p + r).skip(p.len() as int) =~= r);
        },
        None => {},
    }
}

/// Rewrite an inbound path under an optional prefix.
pub fn full_path(prefix: &Option<Path>, location: &Path) -> (r: Path)
    ensures
        r@ == spec_rewrite(opt_path_view(*prefix), location@),
{
    match prefix {
        Some(p) => p.join(location),
        None => location.clone(),
    }
}

/// Strip the constant prefix from an outbound path.
pub fn strip_prefix(prefix: &Option<Path>, path: Path) -> (r: Path)
    ensures
        r@ == spec_strip(opt_path_view(*prefix), path@),
{
    match prefix {
        Some(p) => {
            if path.has_prefix(p) {
                path.suffix_from(p.depth())
            } else {
                path
            }
        },
        None => path,
    }
}

/// Strip the constant prefix from an outbound metadata value. The
/// `version` field is cleared deliberately: it belongs to the full path.
pub fn strip_meta(prefix: &Option<Path>, meta: ObjectMeta) -> (r: ObjectMeta)
    ensures
        r.location@ == spec_strip(opt_path_view(*prefix), meta.location@),
        r.last_modified == meta.last_modified,
        r.size == meta.size,
        r.e_tag == meta.e_tag,
        r.version is None,
{
    ObjectMeta {
        location: strip_prefix(prefix, meta.location),
        last_modified: meta.last_modified,
        size: meta.size,
        e_tag: meta.e_tag,
        version: None,
    }
}

/// Strip the constant prefix from every path of one listing page.
pub fn strip_list_result(prefix: &Option<Path>, lst: ListResult) -> (r: ListResult)
    ensures
        r.common_prefixes@.len() == lst.common_prefixes@.len(),
        forall|i: int|
            0 <= i < lst.common_prefixes@.len() ==> (#[trigger] r.common_prefixes@[i])@
                == spec_strip(opt_path_view(*prefix), lst.common_prefixes@[i]@),
        r.objects@.len() == lst.objects@.len(),
        forall|i: int|
            0 <= i < lst.objects@.len() ==> {
                let m = #[trigger] r.objects@[i];
                let o = lst.objects@[i];
                m.location@ == spec_strip(opt_path_view(*prefix), o.location@)
                    && m.last_modified == o.last_modified && m.size == o.size && m.e_tag
                    == o.e_tag && m.version is None
            },
{
    let mut common_prefixes: Vec<Path> = Vec::new();
    let mut objects: Vec<ObjectMeta> = Vec::new();
    let mut i: usize = 0;
    while i < lst.common_prefixes.len()
        invariant
            i <= lst.common_prefixes@.len(),
            common_prefixes@.len() == i,
            forall|j: int|
                0 <= j < i ==> (#[trigger] common_prefixes@[j])@ == spec_strip(
                    opt_path_view(*prefix),
                    lst.common_prefixes@[j]@,
                ),
        decreases lst.common_prefixes@.len() - i,
    {
        common_prefixes.push(strip_prefix(prefix, lst.common_prefixes[i].clone()));
        i = i + 1;
    }
    let mut t: usize = 0;
    while t < lst.objects.len()
        invariant
            t <= lst.objects@.len(),
            objects@.len() == t,
            forall|j: int|
                0 <= j < t ==> {
                    let m = #[trigger] objects@[j];
                    let o = lst.objects@[j];
                    m.location@ == spec_strip(opt_path_view(*prefix), o.location@)
                        && m.last_modified == o.last_modified && m.size == o.size && m.e_tag
                        == o.e_tag && m.version is None
                },
        decreases lst.objects@.len() - t,
    {
        objects.push(strip_meta(prefix, clone_meta(&lst.objects[t])));
        t = t + 1;
    }
    ListResult { common_prefixes, objects }
}

/// A store wrapper that applies a constant prefix to every path handled by
/// the inner store. With no prefix it is a passthrough.
pub struct MaybePrefixedStore {
    prefix: Option<Path>,
    inner: MemoryStore,
}

impl MaybePrefixedStore {
    /// The constant prefix, if any.
    pub closed spec fn prefix_view(&self) -> Option<Seq<Seq<char>>> {
        opt_path_view(self.prefix)
    }

    /// The inner store's contents, under full (rewritten) keys.
    pub closed spec fn inner_view(&self) -> StoreView {
        self.inner@
    }

    /// The inner store's write counter.
    pub closed spec fn spec_tag(&self) -> u64 {
        self.inner.spec_tag()
    }

    /// The inner store is well-formed and so is the prefix.
    pub closed spec fn wf(&self) -> bool {
        &&& self.inner.wf()
        &&& match self.prefix_view() {
            Some(p) => segs_wf(p),
            None => true,
        }
    }

    /// Wrap a store under an optional constant prefix.
    pub fn new(store: MemoryStore, prefix: Option<Path>) -> (r: MaybePrefixedStore)
        requires
            store.wf(),
            match prefix {
                Some(p) => p.wf(),
                None => true,
            },
        ensures
            r.wf(),
            r.inner_view() == store@,
            r.spec_tag() == store.spec_tag(),
            r.prefix_view() == opt_path_view(prefix),
    {
        MaybePrefixedStore { prefix, inner: store }
    }

    /// Borrow the inner store.
    pub fn inner(&self) -> (r: &MemoryStore)
        ensures
            r@ == self.inner_view(),
    {
        &self.inner
    }

    /// Unwrap the inner store.
    pub fn into_inner(self) -> (r: MemoryStore)
        ensures
            r@ == self.inner_view(),
    {
        self.inner
    }

    /// The full path an inbound path is rewritten to.
    fn rewrite(&self, location: &Path) -> (r: Path)
        requires
            self.wf(),
            location.wf(),
        ensures
            r@ == spec_rewrite(self.prefix_view(), location@),
            r.wf(),
    {
        let r = full_path(&self.prefix, location);
        proof {
            assert(segs_wf(r@)) by {
                match opt_path_view(self.prefix) {
                    Some(p) => {
                        assert forall|i: int| 0 <= i < r@.len() implies crate::path::seg_wf(
                            #[trigger] r@[i],
                        ) by {
                            if i < p.len() {
                                assert(r@[i] == p[i]);
                            } else {
                                assert(r@[i] == location@[i - p.len()]);
                            }
                        }
                    },
                    None => {},
                }
            }
        }
        r
    }

    /// Write under the rewritten path, honouring the conditional mode.
    pub fn put_opts(&mut self, location: &Path, payload: &Vec<u8>, mode: &PutMode) -> (r: Result<
        PutResult,
        Error,
    >)
        requires
            old(self).wf(),
            location.wf(),
        ensures
            final(self).wf(),
            final(self).prefix_view() == old(self).prefix_view(),
            ({
                let full = spec_rewrite(old(self).prefix_view(), location@);
                match r {
                    Ok(p) => {
                        &&& match mode {
                            PutMode::Create => !dom_has(old(self).inner_view(), full),
                            PutMode::Overwrite => true,
                            PutMode::Update(v) => dom_has(old(self).inner_view(), full)
                                && v.e_tag is Some && v.e_tag->0@ == lookup(
                                old(self).inner_view(),
                                full,
                            ).e_tag,
                        }
                        &&& final(self).inner_view() == upsert(
                            old(self).inner_view(),
                            full,
                            new_record(old(self).spec_tag(), payload@),
                        )
                        &&& final(self).spec_tag() == sat_inc(old(self).spec_tag())
                        &&& p.e_tag is Some && p.e_tag->0@ == crate::memory::etag_str(
                            old(self).spec_tag(),
                        )
                        &&& p.version is None
                    },
                    Err(e) => {
                        &&& *final(self) == *old(self)
                        &&& match e {
                            Error::AlreadyExists { .. } => mode is Create && dom_has(
                                old(self).inner_view(),
                                full,
                            ),
                            Error::Precondition { .. } => mode matches PutMode::Update(v) && (
                            !dom_has(old(self).inner_view(), full) || (v.e_tag is Some
                                && v.e_tag->0@ != lookup(old(self).inner_view(), full).e_tag)),
                            Error::Generic { .. } => mode matches PutMode::Update(v) && dom_has(
                                old(self).inner_view(),
                                full,
                            ) && v.e_tag is None,
                            _ => false,
                        }
                    },
                }
            }),
    {
        let full = self.rewrite(location);
        self.inner.put_opts(&full, payload, mode)
    }

    /// Write unconditionally under the rewritten path.
    pub fn put(&mut self, location: &Path, payload: &Vec<u8>) -> (r: Result<PutResult, Error>)
        requires
            old(self).wf(),
            location.wf(),
        ensures
            final(self).wf(),
            final(self).prefix_view() == old(self).prefix_view(),
            r is Ok,
            final(self).inner_view() == upsert(
                old(self).inner_view(),
                spec_rewrite(old(self).prefix_view(), location@),
                new_record(old(self).spec_tag(), payload@),
            ),
            final(self).spec_tag() == sat_inc(old(self).spec_tag()),
    {
        let full = self.rewrite(location);
        self.inner.put(&full, payload)
    }

    /// Read under the rewritten path. The returned metadata carries the
    /// full underlying path, as the inner store reported it.
    pub fn get(&self, location: &Path) -> (r: Result<GetResult, Error>)
        requires
            self.wf(),
            location.wf(),
        ensures
            ({
                let full = spec_rewrite(self.prefix_view(), location@);
                match r {
                    Ok(g) => {
                        &&& dom_has(self.inner_view(), full)
                        &&& g.meta.location@ == full
                        &&& g.data@ == lookup(self.inner_view(), full).data
                        &&& g.meta.size == lookup(self.inner_view(), full).data.len()
                    },
                    Err(e) => e matches Error::NotFound { .. } && !dom_has(
                        self.inner_view(),
                        full,
                    ),
                }
            }),
    {
        let full = self.rewrite(location);
        self.inner.get(&full)
    }

    /// Conditional read under the rewritten path.
    pub fn get_opts(&self, location: &Path, options: &GetOptions) -> (r: Result<GetResult, Error>)
        requires
            self.wf(),
            location.wf(),
        ensures
            ({
                let full = spec_rewrite(self.prefix_view(), location@);
                match r {
                    Ok(g) => {
                        &&& dom_has(self.inner_view(), full)
                        &&& !crate::memory::precond_fails(
                            *options,
                            lookup(self.inner_view(), full),
                        )
                        &&& !crate::memory::notmod_hits(
                            *options,
                            lookup(self.inner_view(), full),
                        )
                        &&& g.meta.location@ == full
                        &&& g.data@ == if options.head {
                            Seq::<u8>::empty()
                        } else {
                            lookup(self.inner_view(), full).data
                        }
                    },
                    Err(e) => match e {
                        Error::NotFound { .. } => !dom_has(self.inner_view(), full),
                        Error::Precondition { .. } => dom_has(self.inner_view(), full)
                            && crate::memory::precond_fails(
                            *options,
                            lookup(self.inner_view(), full),
                        ),
                        Error::NotModified { .. } => dom_has(self.inner_view(), full)
                            && crate::memory::notmod_hits(
                            *options,
                            lookup(self.inner_view(), full),
                        ),
                        _ => false,
                    },
                }
            }),
    {
        let full = self.rewrite(location);
        self.inner.get_opts(&full, options)
    }

    /// Read a byte range under the rewritten path.
    pub fn get_range(&self, location: &Path, start: u64, length: u64) -> (r: Result<
        Vec<u8>,
        Error,
    >)
        requires
            self.wf(),
            location.wf(),
        ensures
            ({
                let full = spec_rewrite(self.prefix_view(), location@);
                match r {
                    Ok(d) => dom_has(self.inner_view(), full) && start + length <= lookup(
                        self.inner_view(),
                        full,
                    ).data.len() && d@ == lookup(self.inner_view(), full).data.subrange(
                        start as int,
                        (start + length) as int,
                    ),
                    Err(e) => match e {
                        Error::NotFound { .. } => !dom_has(self.inner_view(), full),
                        Error::Generic { .. } => dom_has(self.inner_view(), full) && start
                            + length > lookup(self.inner_view(), full).data.len(),
                        _ => false,
                    },
                }
            }),
    {
        let full = self.rewrite(location);
        self.inner.get_range(&full, start, length)
    }

    /// Head under the rewritten path. The returned metadata has the prefix
    /// stripped back off, so its location is the caller's relative path.
    pub fn head(&self, location: &Path) -> (r: Result<ObjectMeta, Error>)
        requires
            self.wf(),
            location.wf(),
        ensures
            ({
                let full = spec_rewrite(self.prefix_view(), location@);
                match r {
                    Ok(m) => {
                        &&& dom_has(self.inner_view(), full)
                        &&& m.location@ == location@
                        &&& m.size == lookup(self.inner_view(), full).data.len()
                        &&& m.last_modified == lookup(self.inner_view(), full).last_modified
                        &&& m.e_tag is Some && m.e_tag->0@ == lookup(
                            self.inner_view(),
                            full,
                        ).e_tag
                        &&& m.version is None
                    },
                    Err(e) => e matches Error::NotFound { .. } && !dom_has(
                        self.inner_view(),
                        full,
                    ),
                }
            }),
    {
        let full = self.rewrite(location);
        match self.inner.head(&full) {
            Ok(m) => {
                let stripped = strip_meta(&self.prefix, m);
                proof {
                    lemma_prefix_roundtrip(self.prefix_view(), location@);
                }
                Ok(stripped)
            },
            Err(e) => Err(e),
        }
    }

    /// Delete under the rewritten path; removing a missing object is a
    /// no-op.
    pub fn delete(&mut self, location: &Path) -> (r: Result<(), Error>)
        requires
            old(self).wf(),
            location.wf(),
        ensures
            r is Ok,
            final(self).wf(),
            final(self).prefix_view() == old(self).prefix_view(),
            final(self).inner_view() == remove_key(
                old(self).inner_view(),
                spec_rewrite(old(self).prefix_view(), location@),
            ),
            final(self).spec_tag() == old(self).spec_tag(),
    {
        let full = self.rewrite(location);
        self.inner.delete(&full)
    }

    /// Copy between rewritten paths, overwriting.
    pub fn copy(&mut self, from: &Path, to: &Path) -> (r: Result<(), Error>)
        requires
            old(self).wf(),
            from.wf(),
            to.wf(),
        ensures
            final(self).wf(),
            final(self).prefix_view() == old(self).prefix_view(),
            ({
                let f = spec_rewrite(old(self).prefix_view(), from@);
                let t = spec_rewrite(old(self).prefix_view(), to@);
                match r {
                    Ok(_) => dom_has(old(self).inner_view(), f) && final(self).inner_view()
                        == upsert(
                        old(self).inner_view(),
                        t,
                        new_record(old(self).spec_tag(), lookup(old(self).inner_view(), f).data),
                    ),
                    Err(e) => e matches Error::NotFound { .. } && !dom_has(
                        old(self).inner_view(),
                        f,
                    ) && *final(self) == *old(self),
                }
            }),
    {
        let f = self.rewrite(from);
        let t = self.rewrite(to);
        self.inner.copy(&f, &t)
    }

    /// Copy between rewritten paths, failing if the destination exists.
    pub fn copy_if_not_exists(&mut self, from: &Path, to: &Path) -> (r: Result<(), Error>)
        requires
            old(self).wf(),
            from.wf(),
            to.wf(),
        ensures
            final(self).wf(),
            final(self).prefix_view() == old(self).prefix_view(),
            ({
                let f = spec_rewrite(old(self).prefix_view(), from@);
                let t = spec_rewrite(old(self).prefix_view(), to@);
                match r {
                    Ok(_) => dom_has(old(self).inner_view(), f) && !dom_has(
                        old(self).inner_view(),
                        t,
                    ) && final(self).inner_view() == upsert(
                        old(self).inner_view(),
                        t,
                        new_record(old(self).spec_tag(), lookup(old(self).inner_view(), f).data),
                    ),
                    Err(e) => *final(self) == *old(self) && match e {
                        Error::NotFound { .. } => !dom_has(old(self).inner_view(), f),
                        Error::AlreadyExists { .. } => dom_has(old(self).inner_view(), f)
                            && dom_has(old(self).inner_view(), t),
                        _ => false,
                    },
                }
            }),
    {
        let f = self.rewrite(from);
        let t = self.rewrite(to);
        self.inner.copy_if_not_exists(&f, &t)
    }

    /// Move between rewritten paths: copy, then delete the source.
    pub fn rename(&mut self, from: &Path, to: &Path) -> (r: Result<(), Error>)
        requires
            old(self).wf(),
            from.wf(),
            to.wf(),
        ensures
            final(self).wf(),
            final(self).prefix_view() == old(self).prefix_view(),
            ({
                let f = spec_rewrite(old(self).prefix_view(), from@);
                let t = spec_rewrite(old(self).prefix_view(), to@);
                match r {
                    Ok(_) => dom_has(old(self).inner_view(), f) && final(self).inner_view()
                        == remove_key(
                        upsert(
                            old(self).inner_view(),
                            t,
                            new_record(
                                old(self).spec_tag(),
                                lookup(old(self).inner_view(), f).data,
                            ),
                        ),
                        f,
                    ),
                    Err(e) => e matches Error::NotFound { .. } && !dom_has(
                        old(self).inner_view(),
                        f,
                    ) && *final(self) == *old(self),
                }
            }),
    {
        let f = self.rewrite(from);
        let t = self.rewrite(to);
        self.inner.rename(&f, &t)
    }

    /// Move between rewritten paths, failing if the destination exists.
    pub fn rename_if_not_exists(&mut self, from: &Path, to: &Path) -> (r: Result<(), Error>)
        requires
            old(self).wf(),
            from.wf(),
            to.wf(),
        ensures
            final(self).wf(),
            final(self).prefix_view() == old(self).prefix_view(),
            ({
                let f = spec_rewrite(old(self).prefix_view(), from@);
                let t = spec_rewrite(old(self).prefix_view(), to@);
                match r {
                    Ok(_) => dom_has(old(self).inner_view(), f) && !dom_has(
                        old(self).inner_view(),
                        t,
                    ) && final(self).inner_view() == remove_key(
                        upsert(
                            old(self).inner_view(),
                            t,
                            new_record(
                                old(self).spec_tag(),
                                lookup(old(self).inner_view(), f).data,
                            ),
                        ),
                        f,
                    ),
                    Err(e) => *final(self) == *old(self) && match e {
                        Error::NotFound { .. } => !dom_has(old(self).inner_view(), f),
                        Error::AlreadyExists { .. } => dom_has(old(self).inner_view(), f)
                            && dom_has(old(self).inner_view(), t),
                        _ => false,
                    },
                }
            }),
    {
        let f = self.rewrite(from);
        let t = self.rewrite(to);
        self.inner.rename_if_not_exists(&f, &t)
    }

    /// List under the rewritten prefix, stripping the constant prefix from
    /// every returned location.
    pub fn list(&self, prefix: Option<&Path>) -> (r: Vec<ObjectMeta>)
        requires
            self.wf(),
            match prefix {
                Some(p) => p.wf(),
                None => true,
            },
        ensures
            ({
                let full = spec_rewrite(
                    self.prefix_view(),
                    crate::memory::opt_prefix_view(prefix),
                );
                let sel = list_sel(self.inner_view(), full, None);
                &&& r@.len() == sel.len()
                &&& forall|i: int|
                    0 <= i < sel.len() ==> {
                        let m = #[trigger] r@[i];
                        m.location@ == spec_strip(self.prefix_view(), sel[i].0)
                            && m.last_modified == sel[i].1.last_modified && m.size
                            == sel[i].1.data.len() && m.e_tag is Some && m.e_tag->0@
                            == sel[i].1.e_tag && m.version is None
                    }
            }),
    {
        let root = Path::root();
        let p: &Path = match prefix {
            Some(q) => q,
            None => &root,
        };
        let full = self.rewrite(p);
        let metas = self.inner.list(Some(&full));
        let mut out: Vec<ObjectMeta> = Vec::new();
        let mut i: usize = 0;
        let ghost sel = list_sel(self.inner_view(), full@, None);
        while i < metas.len()
            invariant
                i <= metas@.len(),
                out@.len() == i,
                metas@.len() == sel.len(),
                forall|j: int|
                    0 <= j < sel.len() ==> meta_matches(#[trigger] metas@[j], sel[j].0, sel[j].1),
                forall|j: int|
                    0 <= j < i ==> {
                        let m = #[trigger] out@[j];
                        m.location@ == spec_strip(self.prefix_view(), sel[j].0)
                            && m.last_modified == sel[j].1.last_modified && m.size
                            == sel[j].1.data.len() && m.e_tag is Some && m.e_tag->0@
                            == sel[j].1.e_tag && m.version is None
                    },
            decreases metas@.len() - i,
        {
            out.push(strip_meta(&self.prefix, clone_meta(&metas[i])));
            i = i + 1;
        }
        out
    }

    /// List under the rewritten prefix, resuming after the rewritten
    /// offset, with the constant prefix stripped from every location.
    pub fn list_with_offset(&self, prefix: Option<&Path>, offset: &Path) -> (r: Vec<ObjectMeta>)
        requires
            self.wf(),
            offset.wf(),
            match prefix {
                Some(p) => p.wf(),
                None => true,
            },
        ensures
            ({
                let full = spec_rewrite(
                    self.prefix_view(),
                    crate::memory::opt_prefix_view(prefix),
                );
                let off = spec_rewrite(self.prefix_view(), offset@);
                let sel = list_sel(
                    self.inner_view(),
                    full,
                    Some(crate::path::spec_render(off)),
                );
                &&& r@.len() == sel.len()
                &&& forall|i: int|
                    0 <= i < sel.len() ==> {
                        let m = #[trigger] r@[i];
                        m.location@ == spec_strip(self.prefix_view(), sel[i].0)
                            && m.last_modified == sel[i].1.last_modified && m.size
                            == sel[i].1.data.len() && m.e_tag is Some && m.e_tag->0@
                            == sel[i].1.e_tag && m.version is None
                    }
            }),
    {
        let root = Path::root();
        let p: &Path = match prefix {
            Some(q) => q,
            None => &root,
        };
        let full = self.rewrite(p);
        let full_offset = self.rewrite(offset);
        let metas = self.inner.list_with_offset(Some(&full), &full_offset);
        let mut out: Vec<ObjectMeta> = Vec::new();
        let mut i: usize = 0;
        let ghost sel = list_sel(
            self.inner_view(),
            full@,
            Some(crate::path::spec_render(full_offset@)),
        );
        while i < metas.len()
            invariant
                i <= metas@.len(),
                out@.len() == i,
                metas@.len() == sel.len(),
                forall|j: int|
                    0 <= j < sel.len() ==> meta_matches(#[trigger] metas@[j], sel[j].0, sel[j].1),
                forall|j: int|
                    0 <= j < i ==> {
                        let m = #[trigger] out@[j];
                        m.location@ == spec_strip(self.prefix_view(), sel[j].0)
                            && m.last_modified == sel[j].1.last_modified && m.size
                            == sel[j].1.data.len() && m.e_tag is Some && m.e_tag->0@
                            == sel[j].1.e_tag && m.version is None
                    },
            decreases metas@.len() - i,
        {
            out.push(strip_meta(&self.prefix, clone_meta(&metas[i])));
            i = i + 1;
        }
        out
    }

    /// One delimiter-bounded page under the rewritten prefix, stripped.
    pub fn list_with_delimiter(&self, prefix: Option<&Path>) -> (r: ListResult)
        requires
            self.wf(),
            match prefix {
                Some(p) => p.wf(),
                None => true,
            },
        ensures
            ({
                let full = spec_rewrite(
                    self.prefix_view(),
                    crate::memory::opt_prefix_view(prefix),
                );
                let acc = spec_list_delim(self.inner_view(), full);
                &&& r.common_prefixes@.len() == acc.prefixes.len()
                &&& forall|i: int|
                    0 <= i < acc.prefixes.len() ==> (#[trigger] r.common_prefixes@[i])@
                        == spec_strip(self.prefix_view(), acc.prefixes[i])
                &&& r.objects@.len() == acc.objects.len()
                &&& forall|i: int|
                    0 <= i < acc.objects.len() ==> {
                        let m = #[trigger] r.objects@[i];
                        m.location@ == spec_strip(self.prefix_view(), acc.objects[i].0)
                            && m.last_modified == acc.objects[i].1.last_modified && m.size
                            == acc.objects[i].1.data.len() && m.e_tag is Some && m.e_tag->0@
                            == acc.objects[i].1.e_tag && m.version is None
                    }
            }),
    {
        let root = Path::root();
        let p: &Path = match prefix {
            Some(q) => q,
            None => &root,
        };
        let full = self.rewrite(p);
        let lst = self.inner.list_with_delimiter(Some(&full));
        strip_list_result(&self.prefix, lst)
    }
}

/// The prefix string a paginated page request carries: the store's
/// constant prefix and the caller's raw listing prefix, joined by the
/// delimiter where both are present.
pub fn combine_paginated_prefix(
    store_prefix: &Option<Path>,
    list_prefix: Option<&String>,
    delimiter: Option<&String>,
) -> (r: Option<String>)
    requires
        match store_prefix {
            Some(p) => p.wf(),
            None => true,
        },
    ensures
        ({
            let delim: Seq<char> = match delimiter {
                Some(d) => d@,
                None => seq!['/'],
            };
            match store_prefix {
                None => match list_prefix {
                    None => r is None,
                    Some(lp) => r is Some && r->0@ == lp@,
                },
                Some(sp) => match list_prefix {
                    None => r is Some && r->0@ == crate::path::spec_render(sp@),
                    Some(lp) => r is Some && r->0@ == crate::path::spec_render(sp@) + delim
                        + lp@,
                },
            }
        }),
{
    match store_prefix {
        None => match list_prefix {
            None => None,
            Some(lp) => Some(lp.clone()),
        },
        Some(sp) => {
            let rendered = sp.as_str();
            match list_prefix {
                None => Some(rendered),
                Some(lp) => {
                    let mut out = crate::text::str_to_chars(rendered.as_str());
                    let ghost sp_chars = out@;
                    let mut d: Vec<char> = match delimiter {
                        Some(d) => crate::text::str_to_chars(d.as_str()),
                        None => {
                            let mut v: Vec<char> = Vec::new();
                            v.push('/');
                            proof {
                                assert(v@ =~= seq!['/']);
                            }
                            v
                        },
                    };
                    let ghost d_chars = d@;
                    out.append(&mut d);
                    let mut l = crate::text::str_to_chars(lp.as_str());
                    out.append(&mut l);
                    proof {
                        assert(out@ =~= (sp_chars + d_chars) + lp@);
                        assert((sp_chars + d_chars) + lp@ =~= sp_chars + d_chars + lp@);
                    }
                    Some(crate::text::chars_to_string(&out))
                },
            }
        },
    }
}

/// Copy an optional string.
pub fn clone_opt_string(o: &Option<String>) -> (r: Option<String>)
    ensures
        r == *o,
{
    match o {
        Some(s) => Some(s.clone()),
        None => None,
    }
}

/// Copy a metadata value field by field.
pub fn clone_meta(m: &ObjectMeta) -> (r: ObjectMeta)
    ensures
        r.location@ == m.location@,
        r.last_modified == m.last_modified,
        r.size == m.size,
        r.e_tag == m.e_tag,
        r.version == m.version,
{
    ObjectMeta {
        location: m.location.clone(),
        last_modified: m.last_modified,
        size: m.size,
        e_tag: clone_opt_string(&m.e_tag),
        version: clone_opt_string(&m.version),
    }
}

} // verus!
