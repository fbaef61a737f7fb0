//! The chunked multipart upload engine.
//!
//! [`WriteMultipart`] cuts an incoming byte stream into fixed-size parts
//! and hands out one part-upload job at a time, never exceeding the
//! configured concurrency bound: a job is only released while fewer than
//! `max_concurrency` parts are in flight. Completion order does not matter
//! — parts carry their index, and assembly in index order reproduces the
//! input byte stream exactly. On a part failure the engine demands an
//! abort before it surfaces the error.

use vstd::prelude::*;

use crate::error::Error;
use crate::memory::{
    all_parts, concat_parts, new_record, sat_inc, set_part, up_has, up_idx, upsert, MemoryStore,
};
use crate::path::Path;
use crate::types::{PutMode, PutResult};

verus! {

/// The bytes of a part sequence, concatenated in index order.
pub open spec fn concat_seq(parts: Seq<Seq<u8>>) -> Seq<u8>
    decreases parts.len(),
{
    if parts.len() == 0 {
        Seq::empty()
    } else {
        parts[0] + concat_seq(parts.drop_first())
    }
}

/// Appending one part appends its bytes.
pub proof fn lemma_concat_seq_push(parts: Seq<Seq<u8>>, p: Seq<u8>)
    ensures
        concat_seq(parts.push(p)) == concat_seq(parts) + p,
    decreases parts.len(),
{
    if parts.len() == 0 {
        assert(parts.push(p)[0] == p);
        assert(parts.push(p).drop_first() =~= Seq::<Seq<u8>>::empty());
        assert(concat_seq(parts.push(p)) == p + concat_seq(Seq::<Seq<u8>>::empty()));
        assert(p + Seq::<u8>::empty() =~= p);
        assert(Seq::<u8>::empty() + p =~= p);
    } else {
        lemma_concat_seq_push(parts.drop_first(), p);
        assert(parts.push(p)[0] == parts[0]);
        assert(parts.push(p).drop_first() =~= parts.drop_first().push(p));
        assert(parts[0] + (concat_seq(parts.drop_first()) + p) =~= (parts[0] + concat_seq(
            parts.drop_first(),
        )) + p);
    }
}

/// Equivalence law: a payload written single-shot and the same payload
/// assembled from multipart parts are stored byte-identically, whatever
/// state either store was in and whatever write counters were current.
pub proof fn lemma_multipart_equals_single_shot(
    single: crate::memory::StoreView,
    multi: crate::memory::StoreView,
    k: Seq<Seq<char>>,
    payload: Seq<u8>,
    t1: u64,
    t2: u64,
)
    requires
        crate::memory::keys_unique(single),
        crate::memory::keys_unique(multi),
    ensures
        crate::memory::lookup(
            crate::memory::upsert(single, k, crate::memory::new_record(t1, payload)),
            k,
        ).data == crate::memory::lookup(
            crate::memory::upsert(multi, k, crate::memory::new_record(t2, payload)),
            k,
        ).data,
{
    crate::memory::lemma_upsert_lookup(single, k, crate::memory::new_record(t1, payload));
    crate::memory::lemma_upsert_lookup(multi, k, crate::memory::new_record(t2, payload));
}

/// The parts wrapped as staged slots, in order.
pub open spec fn staged_of(parts: Seq<Seq<u8>>) -> Seq<Option<Seq<u8>>> {
    Seq::new(parts.len(), |i: int| Some(parts[i]))
}

/// Staging every part in order and assembling them back yields their
/// plain concatenation.
pub proof fn lemma_staged_concat(parts: Seq<Seq<u8>>)
    ensures
        all_parts(staged_of(parts)),
        concat_parts(staged_of(parts)) == concat_seq(parts),
    decreases parts.len(),
{
    if parts.len() == 0 {
        assert(staged_of(parts).len() == 0);
        assert(concat_parts(staged_of(parts)) =~= concat_seq(parts));
    } else {
        lemma_staged_concat(parts.drop_first());
        assert(staged_of(parts)[0] == Some(parts[0]));
        assert(staged_of(parts).drop_first() =~= staged_of(parts.drop_first()));
        assert(concat_parts(staged_of(parts)) == parts[0] + concat_parts(
            staged_of(parts.drop_first()),
        ));
    }
}

/// One part-upload job: the part's index and its bytes.
pub struct PartJob {
    /// The zero-based part index; assembly follows this order.
    pub index: usize,
    /// The part's bytes.
    pub data: Vec<u8>,
}

/// The multipart upload engine: buffers written bytes, releases part jobs
/// under a concurrency bound, and tracks failure and completion.
pub struct WriteMultipart {
    chunk_size: usize,
    max_concurrency: usize,
    buffer: Vec<u8>,
    next_part: usize,
    in_flight: usize,
    failed: bool,
    flushed: bool,
    aborted: bool,
    parts: Ghost<Seq<Seq<u8>>>,
    written: Ghost<Seq<u8>>,
}

impl WriteMultipart {
    /// The configured part size.
    pub closed spec fn spec_chunk_size(&self) -> usize {
        self.chunk_size
    }

    /// The configured concurrency bound.
    pub closed spec fn spec_max_concurrency(&self) -> usize {
        self.max_concurrency
    }

    /// How many part uploads are in flight right now.
    pub closed spec fn spec_in_flight(&self) -> int {
        self.in_flight as int
    }

    /// Every byte accepted so far, in order.
    pub closed spec fn spec_written(&self) -> Seq<u8> {
        self.written@
    }

    /// The parts released so far, in index order.
    pub closed spec fn spec_parts(&self) -> Seq<Seq<u8>> {
        self.parts@
    }

    /// The bytes buffered but not yet released as a part.
    pub closed spec fn spec_buffered(&self) -> Seq<u8> {
        self.buffer@
    }

    /// Whether a part upload has failed.
    pub closed spec fn spec_failed(&self) -> bool {
        self.failed
    }

    /// Whether the final, possibly short, part has been released.
    pub closed spec fn spec_flushed(&self) -> bool {
        self.flushed
    }

    /// Whether the server-side abort has been issued after a failure.
    pub closed spec fn spec_aborted(&self) -> bool {
        self.aborted
    }

    /// The engine invariant. In particular the concurrency bound: at most
    /// `max_concurrency` part uploads are ever pending at once; and
    /// conservation: the released parts plus the buffer spell exactly the
    /// accepted bytes.
    pub closed spec fn wf(&self) -> bool {
        &&& self.chunk_size > 0
        &&& self.max_concurrency > 0
        &&& self.in_flight <= self.max_concurrency
        &&& self.in_flight <= self.next_part
        &&& self.parts@.len() == self.next_part
        &&& concat_seq(self.parts@) + self.buffer@ == self.written@
        &&& self.flushed ==> self.buffer@.len() == 0
    }

    /// The concurrency bound, as a law: a well-formed engine never has
    /// more part uploads pending than its configured bound.
    pub proof fn lemma_concurrency_bound(&self)
        requires
            self.wf(),
        ensures
            self.spec_in_flight() <= self.spec_max_concurrency(),
    {
    }

    /// Assembly law: once the input is exhausted and flushed, the released
    /// parts concatenated in index order are exactly the accepted bytes —
    /// multipart upload stores the same content as a single-shot write of
    /// the same stream.
    pub proof fn lemma_assembles_exactly(&self)
        requires
            self.wf(),
            self.spec_flushed(),
        ensures
            concat_seq(self.spec_parts()) == self.spec_written(),
    {
        assert(self.spec_buffered().len() == 0);
        assert(concat_seq(self.spec_parts()) + self.spec_buffered() =~= concat_seq(
            self.spec_parts(),
        ));
    }

    /// A fresh engine for one upload.
    pub fn new(chunk_size: usize, max_concurrency: usize) -> (r: WriteMultipart)
        requires
            chunk_size > 0,
            max_concurrency > 0,
        ensures
            r.wf(),
            r.spec_chunk_size() == chunk_size,
            r.spec_max_concurrency() == max_concurrency,
            r.spec_written() == Seq::<u8>::empty(),
            r.spec_parts() == Seq::<Seq<u8>>::empty(),
            r.spec_in_flight() == 0,
            !r.spec_failed(),
            !r.spec_flushed(),
            !r.spec_aborted(),
    {
        let r = WriteMultipart {
            chunk_size,
            max_concurrency,
            buffer: Vec::new(),
            next_part: 0,
            in_flight: 0,
            failed: false,
            flushed: false,
            aborted: false,
            parts: Ghost(Seq::empty()),
            written: Ghost(Seq::empty()),
        };
        proof {
            assert(concat_seq(r.parts@) + r.buffer@ =~= r.written@);
        }
        r
    }

    /// Accept more input bytes. They are buffered; parts are released
    /// separately, through [`WriteMultipart::next_job`].
    pub fn write(&mut self, data: &Vec<u8>)
        requires
            old(self).wf(),
            !old(self).spec_flushed(),
            !old(self).spec_failed(),
            old(self).spec_buffered().len() + data@.len() <= usize::MAX,
        ensures
            final(self).wf(),
            final(self).spec_written() == old(self).spec_written() + data@,
            final(self).spec_parts() == old(self).spec_parts(),
            final(self).spec_in_flight() == old(self).spec_in_flight(),
            final(self).spec_chunk_size() == old(self).spec_chunk_size(),
            final(self).spec_max_concurrency() == old(self).spec_max_concurrency(),
            !final(self).spec_flushed(),
            !final(self).spec_failed(),
            final(self).spec_aborted() == old(self).spec_aborted(),
    {
        let mut i: usize = 0;
        let ghost old_buf = self.buffer@;
        while i < data.len()
            invariant
                i <= data@.len(),
                old_buf.len() + data@.len() <= usize::MAX,
                self.buffer@ == old_buf + data@.take(i as int),
                self.chunk_size == old(self).chunk_size,
                self.max_concurrency == old(self).max_concurrency,
                self.next_part == old(self).next_part,
                self.in_flight == old(self).in_flight,
                self.failed == old(self).failed,
                self.flushed == old(self).flushed,
                self.aborted == old(self).aborted,
                self.parts@ == old(self).parts@,
                self.written@ == old(self).written@,
            decreases data@.len() - i,
        {
            self.buffer.push(data[i]);
            proof {
                assert(old_buf + data@.take(i + 1) =~= (old_buf + data@.take(i as int)).push(
                    data@[i as int],
                ));
            }
            i = i + 1;
        }
        proof {
            assert(data@.take(data@.len() as int) =~= data@);
            self.written@ = self.written@ + data@;
            assert(concat_seq(self.parts@) + self.buffer@ =~= self.written@);
        }
    }

    /// Whether another part upload may start right now.
    pub fn has_capacity(&self) -> (r: bool)
        ensures
            r == (self.spec_in_flight() < self.spec_max_concurrency()),
    {
        self.in_flight < self.max_concurrency
    }

    /// Release the next full-size part job, if a full chunk is buffered
    /// and the concurrency bound allows another pending upload. This is
    /// the backpressure gate: with `max_concurrency` parts in flight it
    /// hands out nothing.
    pub fn next_job(&mut self) -> (r: Option<PartJob>)
        requires
            old(self).wf(),
            !old(self).spec_failed(),
            !old(self).spec_flushed(),
            old(self).spec_parts().len() < usize::MAX,
        ensures
            final(self).wf(),
            final(self).spec_chunk_size() == old(self).spec_chunk_size(),
            final(self).spec_max_concurrency() == old(self).spec_max_concurrency(),
            final(self).spec_written() == old(self).spec_written(),
            !final(self).spec_failed(),
            !final(self).spec_flushed(),
            final(self).spec_aborted() == old(self).spec_aborted(),
            match r {
                Some(job) => {
                    &&& old(self).spec_buffered().len() >= old(self).spec_chunk_size()
                    &&& old(self).spec_in_flight() < old(self).spec_max_concurrency()
                    &&& job.index == old(self).spec_parts().len()
                    &&& job.data@ == old(self).spec_buffered().take(
                        old(self).spec_chunk_size() as int,
                    )
                    &&& final(self).spec_parts() == old(self).spec_parts().push(job.data@)
                    &&& final(self).spec_buffered() == old(self).spec_buffered().skip(
                        old(self).spec_chunk_size() as int,
                    )
                    &&& final(self).spec_in_flight() == old(self).spec_in_flight() + 1
                },
                None => {
                    &&& *final(self) == *old(self)
                    &&& (old(self).spec_buffered().len() < old(self).spec_chunk_size() || old(
                        self,
                    ).spec_in_flight() >= old(self).spec_max_concurrency())
                },
            },
    {
        if self.buffer.len() < self.chunk_size || self.in_flight >= self.max_concurrency {
            return None;
        }
        let mut data: Vec<u8> = Vec::new();
        let mut rest: Vec<u8> = Vec::new();
        let n = self.buffer.len();
        let mut i: usize = 0;
        while i < self.chunk_size
            invariant
                i <= self.chunk_size <= n == self.buffer@.len(),
                data@ == self.buffer@.take(i as int),
                self.buffer@ == old(self).buffer@,
                self.chunk_size == old(self).chunk_size,
            decreases self.chunk_size - i,
        {
            data.push(self.buffer[i]);
            proof {
                assert(self.buffer@.take(i + 1) =~= self.buffer@.take(i as int).push(
                    self.buffer@[i as int],
                ));
            }
            i = i + 1;
        }
        let mut t: usize = self.chunk_size;
        while t < n
            invariant
                self.chunk_size <= t <= n == self.buffer@.len(),
                rest@ == self.buffer@.subrange(self.chunk_size as int, t as int),
                self.buffer@ == old(self).buffer@,
                self.chunk_size == old(self).chunk_size,
            decreases n - t,
        {
            rest.push(self.buffer[t]);
            proof {
                assert(self.buffer@.subrange(self.chunk_size as int, t + 1) =~= self.buffer@
                    .subrange(self.chunk_size as int, t as int).push(self.buffer@[t as int]));
            }
            t = t + 1;
        }
        let index = self.next_part;
        self.buffer = rest;
        self.next_part = self.next_part + 1;
        self.in_flight = self.in_flight + 1;
        proof {
            self.parts@ = self.parts@.push(data@);
            lemma_concat_seq_push(old(self).parts@, data@);
            assert(self.buffer@ =~= old(self).buffer@.skip(self.chunk_size as int));
            assert(data@ =~= old(self).buffer@.take(self.chunk_size as int));
            assert((concat_seq(old(self).parts@) + data@) + self.buffer@ =~= concat_seq(
                old(self).parts@,
            ) + (data@ + self.buffer@));
            assert(data@ + self.buffer@ =~= old(self).buffer@);
            assert(concat_seq(self.parts@) + self.buffer@ =~= self.written@);
        }
        Some(PartJob { index, data })
    }

    /// Release the final part: whatever remains in the buffer, short or
    /// empty. After this no more input is accepted.
    pub fn finish_job(&mut self) -> (r: Option<PartJob>)
        requires
            old(self).wf(),
            !old(self).spec_failed(),
            !old(self).spec_flushed(),
            old(self).spec_buffered().len() < old(self).spec_chunk_size(),
            old(self).spec_in_flight() < old(self).spec_max_concurrency(),
            old(self).spec_parts().len() < usize::MAX,
        ensures
            final(self).wf(),
            final(self).spec_chunk_size() == old(self).spec_chunk_size(),
            final(self).spec_max_concurrency() == old(self).spec_max_concurrency(),
            final(self).spec_written() == old(self).spec_written(),
            final(self).spec_flushed(),
            !final(self).spec_failed(),
            final(self).spec_aborted() == old(self).spec_aborted(),
            match r {
                Some(job) => {
                    &&& old(self).spec_buffered().len() > 0
                    &&& job.index == old(self).spec_parts().len()
                    &&& job.data@ == old(self).spec_buffered()
                    &&& final(self).spec_parts() == old(self).spec_parts().push(job.data@)
                    &&& final(self).spec_in_flight() == old(self).spec_in_flight() + 1
                },
                None => {
                    &&& old(self).spec_buffered().len() == 0
                    &&& final(self).spec_parts() == old(self).spec_parts()
                    &&& final(self).spec_in_flight() == old(self).spec_in_flight()
                },
            },
    {
        self.flushed = true;
        if self.buffer.len() == 0 {
            proof {
                assert(concat_seq(self.parts@) + self.buffer@ =~= self.written@);
            }
            return None;
        }
        let data = crate::memory::copy_bytes(&self.buffer);
        self.buffer = Vec::new();
        let index = self.next_part;
        self.next_part = self.next_part + 1;
        self.in_flight = self.in_flight + 1;
        proof {
            self.parts@ = self.parts@.push(data@);
            lemma_concat_seq_push(old(self).parts@, data@);
            assert(data@ == old(self).buffer@);
            assert(self.buffer@.len() == 0);
            assert((concat_seq(old(self).parts@) + data@) + self.buffer@ =~= concat_seq(
                old(self).parts@,
            ) + data@);
            assert(concat_seq(self.parts@) + self.buffer@ =~= self.written@);
        }
        Some(PartJob { index, data })
    }

    /// Record that one pending part upload finished successfully.
    pub fn part_done(&mut self)
        requires
            old(self).wf(),
            old(self).spec_in_flight() > 0,
        ensures
            final(self).wf(),
            final(self).spec_in_flight() == old(self).spec_in_flight() - 1,
            final(self).spec_buffered() == old(self).spec_buffered(),
            final(self).spec_chunk_size() == old(self).spec_chunk_size(),
            final(self).spec_max_concurrency() == old(self).spec_max_concurrency(),
            final(self).spec_written() == old(self).spec_written(),
            final(self).spec_parts() == old(self).spec_parts(),
            final(self).spec_failed() == old(self).spec_failed(),
            final(self).spec_flushed() == old(self).spec_flushed(),
            final(self).spec_aborted() == old(self).spec_aborted(),
    {
        self.in_flight = self.in_flight - 1;
    }

    /// Record that one pending part upload failed. The engine is now
    /// failed: no further parts are released, and the error may only
    /// surface after the abort is recorded.
    pub fn part_failed(&mut self)
        requires
            old(self).wf(),
            old(self).spec_in_flight() > 0,
        ensures
            final(self).wf(),
            final(self).spec_in_flight() == old(self).spec_in_flight() - 1,
            final(self).spec_failed(),
            final(self).spec_chunk_size() == old(self).spec_chunk_size(),
            final(self).spec_max_concurrency() == old(self).spec_max_concurrency(),
            final(self).spec_written() == old(self).spec_written(),
            final(self).spec_parts() == old(self).spec_parts(),
            final(self).spec_flushed() == old(self).spec_flushed(),
            final(self).spec_aborted() == old(self).spec_aborted(),
    {
        self.in_flight = self.in_flight - 1;
        self.failed = true;
    }

    /// Whether the upload must be aborted server-side.
    pub fn must_abort(&self) -> (r: bool)
        ensures
            r == (self.spec_failed() && !self.spec_aborted()),
    {
        self.failed && !self.aborted
    }

    /// Record that the server-side abort was issued.
    pub fn abort_recorded(&mut self)
        requires
            old(self).wf(),
            old(self).spec_failed(),
        ensures
            final(self).wf(),
            final(self).spec_aborted(),
            final(self).spec_failed(),
            final(self).spec_written() == old(self).spec_written(),
            final(self).spec_parts() == old(self).spec_parts(),
            final(self).spec_in_flight() == old(self).spec_in_flight(),
    {
        self.aborted = true;
    }

    /// Surface the failure to the caller. An error can only be produced
    /// after the abort was recorded: abort happens before the error
    /// surfaces.
    pub fn into_error(&self) -> (r: Error)
        requires
            self.spec_failed(),
            self.spec_aborted(),
        ensures
            r matches Error::Generic { .. },
    {
        Error::Generic { message: String::from_str("a part upload failed; upload aborted") }
    }

    /// Whether the upload is ready to complete: flushed, nothing pending,
    /// nothing failed.
    pub fn ready_to_complete(&self) -> (r: bool)
        ensures
            r == (self.spec_flushed() && self.spec_in_flight() == 0 && !self.spec_failed()),
    {
        self.flushed && self.in_flight == 0 && !self.failed
    }
}

/// Upload a payload through the multipart protocol, end to end: stage
/// fixed-size parts under the engine's control, then assemble them. The
/// stored object is byte-identical to a single-shot put of the payload.
/// Parts here complete as soon as they are staged; a concurrent driver
/// differs only in launching several staged parts at once.
pub fn put_multipart_to_store(
    store: &mut MemoryStore,
    location: &Path,
    payload: &Vec<u8>,
    chunk_size: usize,
    max_concurrency: usize,
) -> (r: Result<PutResult, Error>)
    requires
        old(store).wf(),
        location.wf(),
        chunk_size > 0,
        max_concurrency > 0,
        payload@.len() < usize::MAX,
    ensures
        final(store).wf(),
        match r {
            Ok(p) => {
                &&& old(store).spec_upload_counter() < u64::MAX
                &&& final(store)@ == upsert(
                    old(store)@,
                    location@,
                    new_record(old(store).spec_tag(), payload@),
                )
                &&& final(store).spec_tag() == sat_inc(old(store).spec_tag())
                &&& final(store).uploads_view() == old(store).uploads_view()
                &&& final(store).spec_upload_counter() == old(store).spec_upload_counter()
                    + 1
                &&& p.e_tag is Some && p.e_tag->0@ == crate::memory::etag_str(
                    old(store).spec_tag(),
                )
                &&& p.version is None
            },
            Err(e) => {
                &&& e matches Error::Generic { .. }
                &&& *final(store) == *old(store)
                &&& old(store).spec_upload_counter() == u64::MAX
            },
        },
{
    let id = match store.create_multipart(location) {
        Ok(id) => id,
        Err(e) => {
            return Err(e);
        },
    };
    let ghost old_uploads = old(store).uploads_view();
    let ghost upos = old_uploads.len() as int;
    proof {
        assert(store.uploads_view()[upos] == (id, location@, Seq::<Option<Seq<u8>>>::empty()));
        assert(up_has(store.uploads_view(), id));
        let w = up_idx(store.uploads_view(), id);
        assert(0 <= w < store.uploads_view().len() && store.uploads_view()[w].0 == id);
        if w != upos {
            assert(store.uploads_view()[w].0 != store.uploads_view()[upos].0);
        }
        assert(up_idx(store.uploads_view(), id) == upos);
    }
    let mut engine = WriteMultipart::new(chunk_size, max_concurrency);
    engine.write(payload);
    let mut done = false;
    proof {
        assert(staged_of(engine.spec_parts()) =~= Seq::<Option<Seq<u8>>>::empty());
        assert(concat_seq(engine.spec_parts()) + engine.spec_buffered() =~= engine.spec_written());
    }
    while !done
        invariant
            engine.wf(),
            !engine.spec_failed(),
            !engine.spec_flushed(),
            engine.spec_chunk_size() == chunk_size,
            engine.spec_max_concurrency() == max_concurrency,
            chunk_size > 0,
            max_concurrency > 0,
            engine.spec_in_flight() == 0,
            engine.spec_written() == payload@,
            payload@.len() < usize::MAX,
            engine.spec_parts().len() <= concat_seq(engine.spec_parts()).len(),
            concat_seq(engine.spec_parts()).len() + engine.spec_buffered().len()
                == payload@.len(),
            store.wf(),
            location.wf(),
            store@ == old(store)@,
            store.spec_tag() == old(store).spec_tag(),
            old(store).spec_upload_counter() < u64::MAX,
            store.spec_upload_counter() == old(store).spec_upload_counter() + 1,
            store.uploads_view() == old_uploads.push(
                (id, location@, staged_of(engine.spec_parts())),
            ),
            upos == old_uploads.len() as int,
            up_idx(store.uploads_view(), id) == upos,
            up_has(store.uploads_view(), id),
            done ==> engine.spec_buffered().len() < chunk_size,
        decreases engine.spec_buffered().len() + (if done {
            0int
        } else {
            1int
        }),
    {
        let ghost parts0 = engine.spec_parts();
        let ghost buf0 = engine.spec_buffered();
        match engine.next_job() {
            Some(job) => {
                proof {
                    lemma_concat_seq_push(parts0, job.data@);
                    assert(concat_seq(engine.spec_parts()).len() == concat_seq(parts0).len()
                        + chunk_size);
                }
                let ghost staged0 = staged_of(parts0);
                match store.put_part(id, job.index, &job.data) {
                    Ok(_) => {},
                    Err(_) => {
                        proof {
                            assert(false);
                        }
                        return Err(Error::JoinError);
                    },
                }
                proof {
                    let uv = store.uploads_view();
                    assert(uv == old_uploads.push(
                        (id, location@, staged0),
                    ).update(upos, (id, location@, set_part(staged0, job.index as int, job.data@))));
                    assert(set_part(staged0, job.index as int, job.data@) =~= staged_of(
                        engine.spec_parts(),
                    ));
                    assert(uv =~= old_uploads.push(
                        (id, location@, staged_of(engine.spec_parts())),
                    ));
                    assert(uv[upos].0 == id);
                    assert(up_has(uv, id));
                    let w = up_idx(uv, id);
                    assert(0 <= w < uv.len() && uv[w].0 == id);
                    if w != upos {
                        assert(uv[w].0 != uv[upos].0);
                    }
                }
                engine.part_done();
            },
            None => {
                done = true;
            },
        }
    }
    let ghost parts_before_flush = engine.spec_parts();
    let flush = engine.finish_job();
    match flush {
        Some(job) => {
            proof {
                lemma_concat_seq_push(parts_before_flush, job.data@);
            }
            let ghost staged0 = staged_of(parts_before_flush);
            match store.put_part(id, job.index, &job.data) {
                Ok(_) => {},
                Err(_) => {
                    proof {
                        assert(false);
                    }
                    return Err(Error::JoinError);
                },
            }
            proof {
                let uv = store.uploads_view();
                assert(uv == old_uploads.push(
                    (id, location@, staged0),
                ).update(upos, (id, location@, set_part(staged0, job.index as int, job.data@))));
                assert(set_part(staged0, job.index as int, job.data@) =~= staged_of(
                    engine.spec_parts(),
                ));
                assert(uv =~= old_uploads.push(
                    (id, location@, staged_of(engine.spec_parts())),
                ));
                assert(uv[upos].0 == id);
                assert(up_has(uv, id));
                let w = up_idx(uv, id);
                assert(0 <= w < uv.len() && uv[w].0 == id);
                if w != upos {
                    assert(uv[w].0 != uv[upos].0);
                }
            }
            engine.part_done();
        },
        None => {},
    }
    proof {
        engine.lemma_assembles_exactly();
        lemma_staged_concat(engine.spec_parts());
        assert(store.uploads_view()[upos].2 == staged_of(engine.spec_parts()));
        assert(all_parts(store.uploads_view()[upos].2));
        assert(concat_parts(store.uploads_view()[upos].2) == payload@);
        assert(store.uploads_view()[upos].1 == location@);
    }
    let result = store.complete_multipart(id);
    proof {
        assert(store.uploads_view() =~= old_uploads);
    }
    match result {
        Ok(p) => Ok(p),
        Err(_) => {
            proof {
                assert(false);
            }
            Err(Error::JoinError)
        },
    }
}

/// Whether a put of `size` bytes goes through the multipart engine: an
/// explicit choice wins, otherwise any payload larger than one chunk; but
/// a conditional mode always forces single-shot, because conditional
/// semantics do not compose with a multi-request protocol.
pub open spec fn spec_use_multipart(
    explicit: Option<bool>,
    size: u64,
    chunk_size: u64,
    mode: Option<PutMode>,
) -> bool {
    if (match mode {
        Some(m) => !(m is Overwrite),
        None => false,
    }) {
        false
    } else {
        match explicit {
            Some(b) => b,
            None => size > chunk_size,
        }
    }
}

/// Decide single-shot versus multipart for one put.
pub fn use_multipart(
    explicit: Option<bool>,
    size: u64,
    chunk_size: u64,
    mode: &Option<PutMode>,
) -> (r: bool)
    ensures
        r == spec_use_multipart(
            explicit,
            size,
            chunk_size,
            match mode {
                Some(m) => Some(*m),
                None => None,
            },
        ),
{
    match mode {
        Some(m) => {
            match m {
                PutMode::Overwrite => {},
                _ => {
                    return false;
                },
            }
        },
        None => {},
    }
    match explicit {
        Some(b) => b,
        None => size > chunk_size,
    }
}

} // verus!
