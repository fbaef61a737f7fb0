//! A store decorator that records one request metric per operation.
//!
//! The wrapper is a pass-through: results and errors reach the caller
//! exactly as the inner store produced them; only the request log grows,
//! by one entry per operation, successful or not.

use vstd::prelude::*;

use crate::error::Error;
use crate::memory::{
    dom_has, list_sel, lookup, meta_matches, metas_match, new_record, opt_prefix_view,
    precond_fails, notmod_hits, remove_key, sat_inc, spec_list_delim, upsert, MemoryStore,
    StoreView,
};
use crate::path::{spec_render, Path};
use crate::types::{GetOptions, GetResult, ListResult, ObjectMeta, PutMode, PutResult};

verus! {

/// The operation one request metric records.
#[derive(Debug, Copy, Clone, PartialEq, Eq, Structural)]
pub enum OpKind {
    /// A write.
    Put,
    /// A read.
    Get,
    /// A metadata read.
    Head,
    /// A delete.
    Delete,
    /// A flat listing.
    List,
    /// A delimiter-bounded listing page.
    ListWithDelimiter,
    /// A copy.
    Copy,
    /// A move.
    Rename,
}

/// One recorded request: which operation ran, and on which path.
#[derive(Debug)]
pub struct RequestMetric {
    /// The operation.
    pub op: OpKind,
    /// The path the operation addressed; the target prefix for listings.
    pub path: Path,
}

/// A store wrapper that records every request it forwards.
pub struct InstrumentedObjectStore {
    inner: MemoryStore,
    requests: Vec<RequestMetric>,
}

impl InstrumentedObjectStore {
    /// The inner store's contents.
    pub closed spec fn inner_view(&self) -> StoreView {
        self.inner@
    }

    /// The inner store's write counter.
    pub closed spec fn spec_tag(&self) -> u64 {
        self.inner.spec_tag()
    }

    /// The recorded requests, in order: operation and path view.
    pub closed spec fn requests_view(&self) -> Seq<(OpKind, Seq<Seq<char>>)> {
        Seq::new(self.requests@.len(), |i: int| (self.requests@[i].op, self.requests@[i].path@))
    }

    /// The inner store is well-formed.
    pub closed spec fn wf(&self) -> bool {
        self.inner.wf()
    }

    /// Wrap a store, with an empty request log.
    pub fn new(store: MemoryStore) -> (r: InstrumentedObjectStore)
        requires
            store.wf(),
        ensures
            r.wf(),
            r.inner_view() == store@,
            r.spec_tag() == store.spec_tag(),
            r.requests_view() == Seq::<(OpKind, Seq<Seq<char>>)>::empty(),
    {
        let r = InstrumentedObjectStore { inner: store, requests: Vec::new() };
        proof {
            assert(r.requests_view() =~= Seq::<(OpKind, Seq<Seq<char>>)>::empty());
        }
        r
    }

    /// Borrow the inner store.
    pub fn inner(&self) -> (r: &MemoryStore)
        ensures
            r@ == self.inner_view(),
    {
        &self.inner
    }

    /// Unwrap the inner store, dropping the log.
    pub fn into_inner(self) -> (r: MemoryStore)
        ensures
            r@ == self.inner_view(),
    {
        self.inner
    }

    /// The recorded requests.
    pub fn requests(&self) -> (r: &Vec<RequestMetric>)
        ensures
            r@.len() == self.requests_view().len(),
            forall|i: int|
                0 <= i < r@.len() ==> ((#[trigger] r@[i]).op, r@[i].path@)
                    == self.requests_view()[i],
    {
        &self.requests
    }

    /// Record one request.
    fn record(&mut self, op: OpKind, path: &Path)
        ensures
            final(self).inner == old(self).inner,
            final(self).requests_view() == old(self).requests_view().push((op, path@)),
    {
        self.requests.push(RequestMetric { op, path: path.clone() });
        proof {
            assert(self.requests_view() =~= old(self).requests_view().push((op, path@)));
        }
    }

    /// Forward a conditional write, recording one put request.
    pub fn put_opts(&mut self, location: &Path, payload: &Vec<u8>, mode: &PutMode) -> (r: Result<
        PutResult,
        Error,
    >)
        requires
            old(self).wf(),
            location.wf(),
        ensures
            final(self).wf(),
            final(self).requests_view() == old(self).requests_view().push(
                (OpKind::Put, location@),
            ),
            match r {
                Ok(p) => {
                    &&& match mode {
                        PutMode::Create => !dom_has(old(self).inner_view(), location@),
                        PutMode::Overwrite => true,
                        PutMode::Update(v) => dom_has(old(self).inner_view(), location@)
                            && v.e_tag is Some && v.e_tag->0@ == lookup(
                            old(self).inner_view(),
                            location@,
                        ).e_tag,
                    }
                    &&& final(self).inner_view() == upsert(
                        old(self).inner_view(),
                        location@,
                        new_record(old(self).spec_tag(), payload@),
                    )
                    &&& final(self).spec_tag() == sat_inc(old(self).spec_tag())
                    &&& p.e_tag is Some && p.e_tag->0@ == crate::memory::etag_str(
                        old(self).spec_tag(),
                    )
                    &&& p.version is None
                },
                Err(e) => {
                    &&& final(self).inner_view() == old(self).inner_view()
                    &&& final(self).spec_tag() == old(self).spec_tag()
                    &&& match e {
                        Error::AlreadyExists { path } => mode is Create && dom_has(
                            old(self).inner_view(),
                            location@,
                        ) && path@ == spec_render(location@),
                        Error::Precondition { path } => mode matches PutMode::Update(v) && (
                        !dom_has(old(self).inner_view(), location@) || (v.e_tag is Some
                            && v.e_tag->0@ != lookup(
                            old(self).inner_view(),
                            location@,
                        ).e_tag)) && path@ == spec_render(location@),
                        Error::Generic { .. } => mode matches PutMode::Update(v) && dom_has(
                            old(self).inner_view(),
                            location@,
                        ) && v.e_tag is None,
                        _ => false,
                    }
                },
            },
    {
        self.record(OpKind::Put, location);
        self.inner.put_opts(location, payload, mode)
    }

    /// Forward a conditional read, recording one get request. The result
    /// reaches the caller exactly as the inner store produced it.
    pub fn get_opts(&mut self, location: &Path, options: &GetOptions) -> (r: Result<
        GetResult,
        Error,
    >)
        requires
            old(self).wf(),
            location.wf(),
        ensures
            final(self).wf(),
            final(self).inner_view() == old(self).inner_view(),
            final(self).spec_tag() == old(self).spec_tag(),
            final(self).requests_view() == old(self).requests_view().push(
                (OpKind::Get, location@),
            ),
            match r {
                Ok(g) => {
                    &&& dom_has(old(self).inner_view(), location@)
                    &&& !precond_fails(*options, lookup(old(self).inner_view(), location@))
                    &&& !notmod_hits(*options, lookup(old(self).inner_view(), location@))
                    &&& g.meta.location@ == location@
                    &&& g.data@ == if options.head {
                        Seq::<u8>::empty()
                    } else {
                        lookup(old(self).inner_view(), location@).data
                    }
                },
                Err(e) => match e {
                    Error::NotFound { path } => !dom_has(old(self).inner_view(), location@)
                        && path@ == spec_render(location@),
                    Error::Precondition { .. } => dom_has(old(self).inner_view(), location@)
                        && precond_fails(*options, lookup(old(self).inner_view(), location@)),
                    Error::NotModified { .. } => dom_has(old(self).inner_view(), location@)
                        && notmod_hits(*options, lookup(old(self).inner_view(), location@)),
                    _ => false,
                },
            },
    {
        self.record(OpKind::Get, location);
        self.inner.get_opts(location, options)
    }

    /// Forward a metadata read, recording one head request.
    pub fn head(&mut self, location: &Path) -> (r: Result<ObjectMeta, Error>)
        requires
            old(self).wf(),
            location.wf(),
        ensures
            final(self).wf(),
            final(self).inner_view() == old(self).inner_view(),
            final(self).spec_tag() == old(self).spec_tag(),
            final(self).requests_view() == old(self).requests_view().push(
                (OpKind::Head, location@),
            ),
            match r {
                Ok(m) => dom_has(old(self).inner_view(), location@) && m.location@ == location@
                    && m.size == lookup(old(self).inner_view(), location@).data.len(),
                Err(e) => e matches Error::NotFound { .. } && !dom_has(
                    old(self).inner_view(),
                    location@,
                ),
            },
    {
        self.record(OpKind::Head, location);
        self.inner.head(location)
    }

    /// Forward a delete, recording one delete request.
    pub fn delete(&mut self, location: &Path) -> (r: Result<(), Error>)
        requires
            old(self).wf(),
            location.wf(),
        ensures
            r is Ok,
            final(self).wf(),
            final(self).inner_view() == remove_key(old(self).inner_view(), location@),
            final(self).spec_tag() == old(self).spec_tag(),
            final(self).requests_view() == old(self).requests_view().push(
                (OpKind::Delete, location@),
            ),
    {
        self.record(OpKind::Delete, location);
        self.inner.delete(location)
    }

    /// Forward a copy, recording one copy request on the source.
    pub fn copy(&mut self, from: &Path, to: &Path) -> (r: Result<(), Error>)
        requires
            old(self).wf(),
            from.wf(),
            to.wf(),
        ensures
            final(self).wf(),
            final(self).requests_view() == old(self).requests_view().push(
                (OpKind::Copy, from@),
            ),
            match r {
                Ok(_) => dom_has(old(self).inner_view(), from@) && final(self).inner_view()
                    == upsert(
                    old(self).inner_view(),
                    to@,
                    new_record(old(self).spec_tag(), lookup(old(self).inner_view(), from@).data),
                ),
                Err(e) => e matches Error::NotFound { .. } && !dom_has(
                    old(self).inner_view(),
                    from@,
                ) && final(self).inner_view() == old(self).inner_view(),
            },
    {
        self.record(OpKind::Copy, from);
        self.inner.copy(from, to)
    }

    /// Forward a move, recording one rename request on the source.
    pub fn rename(&mut self, from: &Path, to: &Path) -> (r: Result<(), Error>)
        requires
            old(self).wf(),
            from.wf(),
            to.wf(),
        ensures
            final(self).wf(),
            final(self).requests_view() == old(self).requests_view().push(
                (OpKind::Rename, from@),
            ),
            match r {
                Ok(_) => dom_has(old(self).inner_view(), from@) && final(self).inner_view()
                    == remove_key(
                    upsert(
                        old(self).inner_view(),
                        to@,
                        new_record(
                            old(self).spec_tag(),
                            lookup(old(self).inner_view(), from@).data,
                        ),
                    ),
                    from@,
                ),
                Err(e) => e matches Error::NotFound { .. } && !dom_has(
                    old(self).inner_view(),
                    from@,
                ) && final(self).inner_view() == old(self).inner_view(),
            },
    {
        self.record(OpKind::Rename, from);
        self.inner.rename(from, to)
    }

    /// Forward a flat listing, recording one list request on the prefix.
    pub fn list(&mut self, prefix: Option<&Path>) -> (r: Vec<ObjectMeta>)
        requires
            old(self).wf(),
        ensures
            final(self).wf(),
            final(self).inner_view() == old(self).inner_view(),
            final(self).spec_tag() == old(self).spec_tag(),
            final(self).requests_view() == old(self).requests_view().push(
                (OpKind::List, opt_prefix_view(prefix)),
            ),
            metas_match(r@, list_sel(old(self).inner_view(), opt_prefix_view(prefix), None)),
    {
        let root = Path::root();
        let p: &Path = match prefix {
            Some(q) => q,
            None => &root,
        };
        proof {
            assert(p@ == opt_prefix_view(prefix));
        }
        self.record(OpKind::List, p);
        match prefix {
            Some(q) => self.inner.list(Some(q)),
            None => self.inner.list(None),
        }
    }

    /// Forward one delimiter-bounded page, recording one request on the
    /// prefix.
    pub fn list_with_delimiter(&mut self, prefix: Option<&Path>) -> (r: ListResult)
        requires
            old(self).wf(),
        ensures
            final(self).wf(),
            final(self).inner_view() == old(self).inner_view(),
            final(self).spec_tag() == old(self).spec_tag(),
            final(self).requests_view() == old(self).requests_view().push(
                (OpKind::ListWithDelimiter, opt_prefix_view(prefix)),
            ),
            ({
                let acc = spec_list_delim(old(self).inner_view(), opt_prefix_view(prefix));
                &&& r.common_prefixes@.len() == acc.prefixes.len()
                &&& forall|i: int|
                    0 <= i < acc.prefixes.len() ==> (#[trigger] r.common_prefixes@[i])@
                        == acc.prefixes[i]
                &&& metas_match(r.objects@, acc.objects)
            }),
    {
        let root = Path::root();
        let p: &Path = match prefix {
            Some(q) => q,
            None => &root,
        };
        proof {
            assert(p@ == opt_prefix_view(prefix));
        }
        self.record(OpKind::ListWithDelimiter, p);
        match prefix {
            Some(q) => self.inner.list_with_delimiter(Some(q)),
            None => self.inner.list_with_delimiter(None),
        }
    }
}

} // verus!
