//! The chunked, lazy listing engine.
//!
//! A [`ListStream`] yields the entries of a listing in chunks of at most
//! `chunk_size` items, and is fused: once exhausted, every further poll
//! deterministically reports the stream closed, so "empty chunk, more to
//! come" and "stream closed" are never confused. Backends without
//! server-side pagination are served by splitting a raw prefix at its last
//! delimiter into a directory prefix (listed natively) and a trailing
//! substring filter applied client-side to file names. Backends with true
//! pagination are driven by a [`PaginatedLister`], which issues one page
//! request at a time and stops when no continuation token comes back.

use vstd::prelude::*;

use crate::prefix::clone_opt_string;
use crate::types::ObjectMeta;

verus! {

/// The index of the last delimiter in `s`, or `-1` if there is none.
pub open spec fn last_slash(s: Seq<char>) -> int
    decreases s.len(),
{
    if s.len() == 0 {
        -1
    } else if s.last() == '/' {
        s.len() - 1
    } else {
        last_slash(s.drop_last())
    }
}

/// `last_slash` is pinned down by its characterisation.
pub proof fn lemma_last_slash_at(s: Seq<char>, k: int)
    requires
        -1 <= k < s.len(),
        k >= 0 ==> s[k] == '/',
        forall|j: int| k < j < s.len() ==> s[j] != '/',
    ensures
        last_slash(s) == k,
    decreases s.len(),
{
    if s.len() == 0 {
    } else if s.last() == '/' {
        assert(k == s.len() - 1);
    } else {
        assert(k < s.len() - 1);
        lemma_last_slash_at(s.drop_last(), k);
    }
}

/// The file name of a rendered path: everything after the last delimiter.
pub open spec fn filename_of(s: Seq<char>) -> Seq<char> {
    s.skip(last_slash(s) + 1)
}

/// Whether `needle` occurs contiguously in `hay`.
pub open spec fn contains_sub(hay: Seq<char>, needle: Seq<char>) -> bool {
    exists|i: int|
        0 <= i && i + needle.len() <= hay.len() && #[trigger] hay.subrange(i, i + needle.len())
            == needle
}

/// Substring search over character vectors.
pub fn contains_sub_chars(hay: &Vec<char>, needle: &Vec<char>) -> (r: bool)
    ensures
        r == contains_sub(hay@, needle@),
{
    let m = needle.len();
    let n = hay.len();
    if m == 0 {
        proof {
            assert(hay@.subrange(0, 0 + needle@.len() as int) =~= needle@);
        }
        return true;
    }
    if m > n {
        proof {
            if contains_sub(hay@, needle@) {
                let i = choose|i: int|
                    0 <= i && i + needle@.len() <= hay@.len() && #[trigger] hay@.subrange(
                        i,
                        i + needle@.len(),
                    ) == needle@;
            }
        }
        return false;
    }
    let mut i: usize = 0;
    while i <= n - m
        invariant
            1 <= m <= n == hay@.len(),
            m == needle@.len(),
            i <= n - m + 1,
            forall|k: int|
                0 <= k < i ==> #[trigger] hay@.subrange(k, k + needle@.len()) != needle@,
        decreases n - m - i + 1,
    {
        let mut ok = true;
        proof {
            assert(hay@.subrange(i as int, i as int) =~= needle@.subrange(0, 0));
        }
        let mut j: usize = 0;
        while j < m
            invariant
                i + m <= n == hay@.len(),
                m == needle@.len(),
                j <= m,
                ok == (hay@.subrange(i as int, i + j) == needle@.subrange(0, j as int)),
            decreases m - j,
        {
            let ghost pre = hay@.subrange(i as int, i + j);
            if hay[i + j] != needle[j] {
                proof {
                    if hay@.subrange(i as int, i + j + 1) == needle@.subrange(0, j + 1) {
                        assert(hay@.subrange(i as int, i + j + 1)[j as int] == hay@[i + j]);
                        assert(needle@.subrange(0, j + 1)[j as int] == needle@[j as int]);
                    }
                    assert(hay@.subrange(i as int, i + j + 1) != needle@.subrange(0, j + 1));
                }
                ok = false;
                proof {
                    assert(hay@.subrange(i as int, i + (j + 1)) != needle@.subrange(
                        0,
                        (j + 1) as int,
                    ));
                }
            } else {
                proof {
                    if ok {
                        assert(hay@.subrange(i as int, i + j + 1) =~= pre.push(hay@[i + j]));
                        assert(needle@.subrange(0, j + 1) =~= needle@.subrange(0, j as int).push(
                            needle@[j as int],
                        ));
                    } else {
                        if hay@.subrange(i as int, i + j + 1) == needle@.subrange(0, j + 1) {
                            assert forall|t: int| 0 <= t < j implies pre[t] == needle@.subrange(
                                0,
                                j as int,
                            )[t] by {
                                assert(hay@.subrange(i as int, i + j + 1)[t] == needle@.subrange(
                                    0,
                                    j + 1,
                                )[t]);
                            }
                            assert(pre =~= needle@.subrange(0, j as int));
                        }
                    }
                }
            }
            j = j + 1;
        }
        if ok {
            proof {
                assert(hay@.subrange(i as int, i + m) == needle@.subrange(0, m as int));
                assert(needle@.subrange(0, m as int) =~= needle@);
            }
            return true;
        }
        proof {
            assert(needle@.subrange(0, m as int) =~= needle@);
        }
        i = i + 1;
    }
    proof {
        if contains_sub(hay@, needle@) {
            let w = choose|w: int|
                0 <= w && w + needle@.len() <= hay@.len() && #[trigger] hay@.subrange(
                    w,
                    w + needle@.len(),
                ) == needle@;
            assert(hay@.subrange(w, w + needle@.len()) != needle@);
        }
    }
    false
}

/// A chunked, fused stream over the entries of one listing.
///
/// Pulling the next chunk yields up to `chunk_size` entries while any
/// remain, then `None`; after that every further pull deterministically
/// yields `None` again, so exhaustion is never confused with an empty
/// batch.
pub struct ListStream {
    items: Vec<ObjectMeta>,
    chunk_size: usize,
    closed: bool,
}

impl ListStream {
    /// The entries not yet handed out.
    pub closed spec fn remaining(&self) -> Seq<ObjectMeta> {
        self.items@
    }

    /// The configured chunk size.
    pub closed spec fn spec_chunk_size(&self) -> usize {
        self.chunk_size
    }

    /// Whether the stream has reported exhaustion.
    pub closed spec fn is_closed(&self) -> bool {
        self.closed
    }

    /// A stream over a materialized listing.
    pub fn new(items: Vec<ObjectMeta>, chunk_size: usize) -> (r: ListStream)
        requires
            chunk_size > 0,
        ensures
            r.remaining() == items@,
            r.spec_chunk_size() == chunk_size,
            !r.is_closed(),
    {
        ListStream { items, chunk_size, closed: false }
    }

    /// Pull the next chunk: up to `chunk_size` entries in order, `None`
    /// once the stream is exhausted, and `None` forever after.
    pub fn next_chunk(&mut self) -> (r: Option<Vec<ObjectMeta>>)
        ensures
            final(self).spec_chunk_size() == old(self).spec_chunk_size(),
            ({
                if old(self).is_closed() || old(self).remaining().len() == 0 {
                    &&& r is None
                    &&& final(self).is_closed()
                    &&& final(self).remaining() == old(self).remaining()
                } else {
                    let take: int = if old(self).remaining().len()
                        >= old(self).spec_chunk_size() {
                        old(self).spec_chunk_size() as int
                    } else {
                        old(self).remaining().len() as int
                    };
                    &&& r is Some
                    &&& r->0@ == old(self).remaining().take(take)
                    &&& final(self).remaining() == old(self).remaining().skip(take)
                    &&& final(self).is_closed() == old(self).is_closed()
                }
            }),
    {
        if self.closed || self.items.len() == 0 {
            self.closed = true;
            return None;
        }
        let take: usize = if self.items.len() >= self.chunk_size {
            self.chunk_size
        } else {
            self.items.len()
        };
        let ghost orig = self.items@;
        let mut chunk: Vec<ObjectMeta> = Vec::new();
        let mut i: usize = 0;
        while i < take
            invariant
                i <= take <= orig.len(),
                chunk@ == orig.take(i as int),
                self.items@ == orig.skip(i as int),
                self.chunk_size == old(self).chunk_size,
                self.closed == old(self).closed,
            decreases take - i,
        {
            let ghost rem = self.items@;
            let m = self.items.remove(0);
            proof {
                assert(m == rem[0]);
                assert(rem[0] == orig[i as int]);
                assert(self.items@ =~= orig.skip(i + 1));
            }
            chunk.push(m);
            proof {
                assert(orig.take(i + 1) =~= orig.take(i as int).push(orig[i as int]));
            }
            i = i + 1;
        }
        Some(chunk)
    }

    /// Drain the whole stream into one result, ignoring chunking. The
    /// caller accepts unbounded memory use.
    pub fn collect(&mut self) -> (r: Vec<ObjectMeta>)
        ensures
            r@ == old(self).remaining(),
            final(self).remaining().len() == 0,
            final(self).spec_chunk_size() == old(self).spec_chunk_size(),
    {
        let ghost orig = self.items@;
        let mut out: Vec<ObjectMeta> = Vec::new();
        while self.items.len() > 0
            invariant
                out@.len() <= orig.len(),
                out@ == orig.take(out@.len() as int),
                self.items@ == orig.skip(out@.len() as int),
                self.chunk_size == old(self).chunk_size,
            decreases self.items@.len(),
        {
            let ghost rem = self.items@;
            let ghost k = out@.len() as int;
            let m = self.items.remove(0);
            proof {
                assert(m == rem[0]);
                assert(rem[0] == orig[k]);
                assert(self.items@ =~= orig.skip(k + 1));
            }
            out.push(m);
            proof {
                assert(orig.take(k + 1) =~= orig.take(k).push(orig[k]));
            }
        }
        proof {
            assert(out@ =~= orig);
        }
        out
    }
}

/// One page request for a backend with server-side pagination.
pub struct PageRequest {
    /// The raw listing prefix, passed through.
    pub prefix: Option<String>,
    /// The offset to resume after, passed through.
    pub offset: Option<String>,
    /// The page size: the stream's chunk size.
    pub max_keys: usize,
    /// The continuation token returned by the previous page, if any.
    pub page_token: Option<String>,
}

/// The paginated listing state machine: issues one page request at a
/// time and stops when the backend returns no continuation token. A page
/// fetch error closes the stream; the caller propagates the error rather
/// than swallowing it.
pub struct PaginatedLister {
    prefix: Option<String>,
    offset: Option<String>,
    chunk_size: usize,
    page_token: Option<String>,
    done: bool,
}

impl PaginatedLister {
    /// The raw listing prefix.
    pub closed spec fn spec_prefix(&self) -> Option<Seq<char>> {
        match self.prefix {
            Some(p) => Some(p@),
            None => None,
        }
    }

    /// The resume offset.
    pub closed spec fn spec_offset(&self) -> Option<Seq<char>> {
        match self.offset {
            Some(o) => Some(o@),
            None => None,
        }
    }

    /// The page size.
    pub closed spec fn spec_chunk_size(&self) -> usize {
        self.chunk_size
    }

    /// The continuation token for the next request.
    pub closed spec fn spec_token(&self) -> Option<Seq<char>> {
        match self.page_token {
            Some(t) => Some(t@),
            None => None,
        }
    }

    /// Whether the traversal has ended.
    pub closed spec fn spec_done(&self) -> bool {
        self.done
    }

    /// Begin a paginated traversal.
    pub fn new(prefix: Option<String>, offset: Option<String>, chunk_size: usize) -> (r:
        PaginatedLister)
        requires
            chunk_size > 0,
        ensures
            r.spec_prefix() == match prefix {
                Some(p) => Some(p@),
                None => None::<Seq<char>>,
            },
            r.spec_offset() == match offset {
                Some(o) => Some(o@),
                None => None::<Seq<char>>,
            },
            r.spec_chunk_size() == chunk_size,
            r.spec_token() is None,
            !r.spec_done(),
    {
        PaginatedLister { prefix, offset, chunk_size, page_token: None, done: false }
    }

    /// The next page request, or `None` once the traversal has ended.
    pub fn next_request(&self) -> (r: Option<PageRequest>)
        ensures
            match r {
                Some(q) => {
                    &&& !self.spec_done()
                    &&& (match q.prefix {
                        Some(p) => Some(p@),
                        None => None::<Seq<char>>,
                    }) == self.spec_prefix()
                    &&& (match q.offset {
                        Some(o) => Some(o@),
                        None => None::<Seq<char>>,
                    }) == self.spec_offset()
                    &&& q.max_keys == self.spec_chunk_size()
                    &&& (match q.page_token {
                        Some(t) => Some(t@),
                        None => None::<Seq<char>>,
                    }) == self.spec_token()
                },
                None => self.spec_done(),
            },
    {
        if self.done {
            return None;
        }
        Some(
            PageRequest {
                prefix: clone_opt_string(&self.prefix),
                offset: clone_opt_string(&self.offset),
                max_keys: self.chunk_size,
                page_token: clone_opt_string(&self.page_token),
            },
        )
    }

    /// Record one fetched page's continuation token. No token means the
    /// traversal is complete.
    pub fn on_page(&mut self, next_token: Option<String>)
        requires
            !old(self).spec_done(),
        ensures
            final(self).spec_prefix() == old(self).spec_prefix(),
            final(self).spec_offset() == old(self).spec_offset(),
            final(self).spec_chunk_size() == old(self).spec_chunk_size(),
            final(self).spec_token() == (match next_token {
                Some(t) => Some(t@),
                None => None::<Seq<char>>,
            }),
            final(self).spec_done() == (next_token is None),
    {
        self.done = next_token.is_none();
        self.page_token = next_token;
    }

    /// Record a page fetch failure: the traversal ends, and the caller
    /// surfaces the error to its consumer.
    pub fn on_error(&mut self)
        ensures
            final(self).spec_done(),
            final(self).spec_prefix() == old(self).spec_prefix(),
            final(self).spec_offset() == old(self).spec_offset(),
            final(self).spec_chunk_size() == old(self).spec_chunk_size(),
    {
        self.done = true;
    }
}

/// Split a raw listing prefix at its last delimiter: the part before it
/// is a directory prefix a backend can list natively; the part after it
/// is a substring filter applied client-side.
pub fn split_list_prefix(prefix: Option<&String>) -> (r: (Option<String>, Option<String>))
    ensures
        match prefix {
            None => r.0 is None && r.1 is None,
            Some(p) => {
                let ls = last_slash(p@);
                if ls >= 0 {
                    &&& r.0 is Some && r.0->0@ == p@.take(ls)
                    &&& r.1 is Some && r.1->0@ == p@.skip(ls + 1)
                } else {
                    &&& r.0 is None
                    &&& r.1 is Some && r.1->0@ == p@
                }
            },
        },
{
    let p = match prefix {
        None => {
            return (None, None);
        },
        Some(p) => p,
    };
    let chars = crate::text::str_to_chars(p.as_str());
    let n = chars.len();
    let mut t: usize = n;
    while t > 0
        invariant
            prefix == Some(p),
            t <= n == chars@.len(),
            chars@ == p@,
            forall|j: int| t <= j < n ==> chars@[j] != '/',
        decreases t,
    {
        if chars[t - 1] == '/' {
            proof {
                lemma_last_slash_at(p@, t - 1);
            }
            let mut dir: Vec<char> = Vec::new();
            let mut i: usize = 0;
            while i < t - 1
                invariant
                    i <= t - 1 < n == chars@.len(),
                    dir@ == chars@.take(i as int),
                decreases t - 1 - i,
            {
                dir.push(chars[i]);
                proof {
                    assert(chars@.take(i + 1) =~= chars@.take(i as int).push(chars@[i as int]));
                }
                i = i + 1;
            }
            let mut sub: Vec<char> = Vec::new();
            let mut k: usize = t;
            while k < n
                invariant
                    t <= k <= n == chars@.len(),
                    sub@ == chars@.subrange(t as int, k as int),
                decreases n - k,
            {
                sub.push(chars[k]);
                proof {
                    assert(chars@.subrange(t as int, k + 1) =~= chars@.subrange(
                        t as int,
                        k as int,
                    ).push(chars@[k as int]));
                }
                k = k + 1;
            }
            proof {
                assert(dir@ =~= p@.take(t - 1));
                assert(sub@ =~= p@.skip(t as int));
            }
            return (
                Some(crate::text::chars_to_string(&dir)),
                Some(crate::text::chars_to_string(&sub)),
            );
        }
        t = t - 1;
    }
    proof {
        lemma_last_slash_at(p@, -1);
    }
    (None, Some(p.clone()))
}

/// Whether a listed entry passes the client-side file-name filter.
pub open spec fn passes_filter(rendered: Seq<char>, filter: Option<Seq<char>>) -> bool {
    match filter {
        Some(needle) => contains_sub(filename_of(rendered), needle),
        None => true,
    }
}

/// The metadata entries whose rendered location passes the filter, in
/// order.
pub open spec fn filter_sel(ms: Seq<ObjectMeta>, filter: Option<Seq<char>>) -> Seq<ObjectMeta>
    decreases ms.len(),
{
    if ms.len() == 0 {
        Seq::empty()
    } else if passes_filter(crate::path::spec_render(ms[0].location@), filter) {
        seq![ms[0]] + filter_sel(ms.drop_first(), filter)
    } else {
        filter_sel(ms.drop_first(), filter)
    }
}

/// Keep only the entries whose file name contains the substring. This is
/// the client-side half of a listing on a backend without server-side
/// pagination.
pub fn filter_metas(metas: Vec<ObjectMeta>, substring: Option<&String>) -> (r: Vec<ObjectMeta>)
    requires
        forall|i: int| 0 <= i < metas@.len() ==> (#[trigger] metas@[i]).location.wf(),
    ensures
        r@ == filter_sel(
            metas@,
            match substring {
                Some(s) => Some(s@),
                None => None,
            },
        ),
{
    let ghost f: Option<Seq<char>> = match substring {
        Some(s) => Some(s@),
        None => None,
    };
    let needle: Option<Vec<char>> = match substring {
        Some(s) => Some(crate::text::str_to_chars(s.as_str())),
        None => None,
    };
    let ghost orig = metas@;
    let mut metas = metas;
    let mut out: Vec<ObjectMeta> = Vec::new();
    proof {
        assert(orig.skip(0) =~= orig);
        assert(Seq::<ObjectMeta>::empty() + filter_sel(orig, f) =~= filter_sel(orig, f));
    }
    while metas.len() > 0
        invariant
            metas@.len() <= orig.len(),
            metas@ == orig.skip(orig.len() - metas@.len()),
            forall|j: int| 0 <= j < metas@.len() ==> (#[trigger] metas@[j]).location.wf(),
            match needle {
                Some(v) => f is Some && v@ == f->0,
                None => f is None,
            },
            filter_sel(orig, f) == out@ + filter_sel(metas@, f),
        decreases metas@.len(),
    {
        let ghost rem = metas@;
        let m = metas.remove(0);
        proof {
            assert(m == rem[0]);
            assert(metas@ =~= rem.drop_first());
            assert(metas@ =~= orig.skip(orig.len() - metas@.len()));
        }
        let keep: bool = match &needle {
            Some(nv) => {
                let rendered = m.location.as_str();
                let hay = crate::text::str_to_chars(rendered.as_str());
                let n = hay.len();
                let mut t: usize = n;
                while t > 0 && hay[t - 1] != '/'
                    invariant
                        t <= n == hay@.len(),
                        forall|j: int| t <= j < n ==> hay@[j] != '/',
                    decreases t,
                {
                    t = t - 1;
                }
                let ls = t;
                let mut name: Vec<char> = Vec::new();
                let mut k: usize = ls;
                while k < n
                    invariant
                        ls <= k <= n == hay@.len(),
                        name@ == hay@.subrange(ls as int, k as int),
                    decreases n - k,
                {
                    name.push(hay[k]);
                    proof {
                        assert(hay@.subrange(ls as int, k + 1) =~= hay@.subrange(
                            ls as int,
                            k as int,
                        ).push(hay@[k as int]));
                    }
                    k = k + 1;
                }
                proof {
                    if ls > 0 {
                        lemma_last_slash_at(hay@, ls - 1);
                    } else {
                        lemma_last_slash_at(hay@, -1);
                    }
                    assert(name@ =~= filename_of(hay@));
                }
                contains_sub_chars(&name, nv)
            },
            None => true,
        };
        proof {
            assert(keep == passes_filter(crate::path::spec_render(rem[0].location@), f));
        }
        if keep {
            let ghost old_out = out@;
            out.push(m);
            proof {
                assert(filter_sel(rem, f) == seq![rem[0]] + filter_sel(rem.drop_first(), f));
                assert(old_out + (seq![rem[0]] + filter_sel(rem.drop_first(), f)) =~= old_out
                    .push(rem[0]) + filter_sel(rem.drop_first(), f));
                assert(out@ =~= old_out.push(rem[0]));
            }
        } else {
            proof {
                assert(filter_sel(rem, f) == filter_sel(rem.drop_first(), f));
            }
        }
    }
    proof {
        assert(filter_sel(metas@, f) =~= Seq::<ObjectMeta>::empty());
        assert(out@ + Seq::<ObjectMeta>::empty() =~= out@);
    }
    out
}

/// `pre` is a prefix of `s`, character for character.
pub open spec fn starts_with_seq(s: Seq<char>, pre: Seq<char>) -> bool {
    pre.len() <= s.len() && s.take(pre.len() as int) == pre
}

/// Prefix test over character vectors.
pub fn chars_starts_with(s: &Vec<char>, pre: &Vec<char>) -> (r: bool)
    ensures
        r == starts_with_seq(s@, pre@),
{
    if pre.len() > s.len() {
        return false;
    }
    let mut i: usize = 0;
    while i < pre.len()
        invariant
            i <= pre@.len() <= s@.len(),
            forall|j: int| 0 <= j < i ==> s@[j] == pre@[j],
        decreases pre@.len() - i,
    {
        if s[i] != pre[i] {
            proof {
                if s@.take(pre@.len() as int) == pre@ {
                    assert(s@.take(pre@.len() as int)[i as int] == s@[i as int]);
                }
            }
            return false;
        }
        i = i + 1;
    }
    proof {
        assert(s@.take(pre@.len() as int) =~= pre@);
    }
    true
}

/// The paths whose rendered form starts with the raw needle, in order.
pub open spec fn paths_sel(ps: Seq<crate::path::Path>, needle: Seq<char>) -> Seq<
    crate::path::Path,
>
    decreases ps.len(),
{
    if ps.len() == 0 {
        Seq::empty()
    } else if starts_with_seq(crate::path::spec_render(ps[0]@), needle) {
        seq![ps[0]] + paths_sel(ps.drop_first(), needle)
    } else {
        paths_sel(ps.drop_first(), needle)
    }
}

/// The metadata entries whose rendered location starts with the raw
/// needle, in order.
pub open spec fn metas_sel_by_prefix(ms: Seq<ObjectMeta>, needle: Seq<char>) -> Seq<ObjectMeta>
    decreases ms.len(),
{
    if ms.len() == 0 {
        Seq::empty()
    } else if starts_with_seq(crate::path::spec_render(ms[0].location@), needle) {
        seq![ms[0]] + metas_sel_by_prefix(ms.drop_first(), needle)
    } else {
        metas_sel_by_prefix(ms.drop_first(), needle)
    }
}

/// Filter one delimiter-bounded listing page down to the entries whose
/// rendered path starts with the given raw prefix. This serves backends
/// whose native listing has no substring support: the page is fetched
/// whole, then narrowed client-side.
pub fn filter_page(lst: crate::types::ListResult, name_prefix: &String) -> (r:
    crate::types::ListResult)
    requires
        forall|i: int|
            0 <= i < lst.common_prefixes@.len() ==> (#[trigger] lst.common_prefixes@[i]).wf(),
        forall|i: int| 0 <= i < lst.objects@.len() ==> (#[trigger] lst.objects@[i]).location.wf(),
    ensures
        r.common_prefixes@ == paths_sel(lst.common_prefixes@, name_prefix@),
        r.objects@ == metas_sel_by_prefix(lst.objects@, name_prefix@),
{
    let needle = crate::text::str_to_chars(name_prefix.as_str());
    let ghost nv = name_prefix@;
    let ghost orig_ps = lst.common_prefixes@;
    let ghost orig_ms = lst.objects@;
    let mut lst = lst;
    let mut common_prefixes: Vec<crate::path::Path> = Vec::new();
    let mut objects: Vec<ObjectMeta> = Vec::new();
    proof {
        assert(Seq::<crate::path::Path>::empty() + paths_sel(orig_ps, nv) =~= paths_sel(
            orig_ps,
            nv,
        ));
    }
    while lst.common_prefixes.len() > 0
        invariant
            needle@ == nv,
            lst.common_prefixes@.len() <= orig_ps.len(),
            lst.common_prefixes@ == orig_ps.skip(orig_ps.len() - lst.common_prefixes@.len()),
            forall|j: int|
                0 <= j < lst.common_prefixes@.len() ==> (
                #[trigger] lst.common_prefixes@[j]).wf(),
            paths_sel(orig_ps, nv) == common_prefixes@ + paths_sel(lst.common_prefixes@, nv),
            lst.objects@ == orig_ms,
            forall|j: int|
                0 <= j < lst.objects@.len() ==> (#[trigger] lst.objects@[j]).location.wf(),
        decreases lst.common_prefixes@.len(),
    {
        let ghost rem = lst.common_prefixes@;
        let p = lst.common_prefixes.remove(0);
        proof {
            assert(p == rem[0]);
            assert(lst.common_prefixes@ =~= rem.drop_first());
            assert(lst.common_prefixes@ =~= orig_ps.skip(
                orig_ps.len() - lst.common_prefixes@.len(),
            ));
        }
        let rendered = p.as_str();
        let chars = crate::text::str_to_chars(rendered.as_str());
        let keep = chars_starts_with(&chars, &needle);
        proof {
            assert(keep == starts_with_seq(crate::path::spec_render(rem[0]@), nv));
        }
        if keep {
            let ghost old_out = common_prefixes@;
            common_prefixes.push(p);
            proof {
                assert(paths_sel(rem, nv) == seq![rem[0]] + paths_sel(rem.drop_first(), nv));
                assert(old_out + (seq![rem[0]] + paths_sel(rem.drop_first(), nv)) =~= old_out
                    .push(rem[0]) + paths_sel(rem.drop_first(), nv));
                assert(common_prefixes@ =~= old_out.push(rem[0]));
            }
        } else {
            proof {
                assert(paths_sel(rem, nv) == paths_sel(rem.drop_first(), nv));
            }
        }
    }
    proof {
        assert(paths_sel(lst.common_prefixes@, nv) =~= Seq::<crate::path::Path>::empty());
        assert(common_prefixes@ + Seq::<crate::path::Path>::empty() =~= common_prefixes@);
        assert(Seq::<ObjectMeta>::empty() + metas_sel_by_prefix(orig_ms, nv)
            =~= metas_sel_by_prefix(orig_ms, nv));
        assert(lst.objects@ =~= orig_ms.skip(orig_ms.len() - lst.objects@.len()));
    }
    while lst.objects.len() > 0
        invariant
            needle@ == nv,
            lst.objects@.len() <= orig_ms.len(),
            lst.objects@ == orig_ms.skip(orig_ms.len() - lst.objects@.len()),
            forall|j: int| 0 <= j < lst.objects@.len() ==> (#[trigger] lst.objects@[j]).location.wf(),
            metas_sel_by_prefix(orig_ms, nv) == objects@ + metas_sel_by_prefix(lst.objects@, nv),
        decreases lst.objects@.len(),
    {
        let ghost rem = lst.objects@;
        let m = lst.objects.remove(0);
        proof {
            assert(m == rem[0]);
            assert(lst.objects@ =~= rem.drop_first());
            assert(lst.objects@ =~= orig_ms.skip(orig_ms.len() - lst.objects@.len()));
        }
        let rendered = m.location.as_str();
        let chars = crate::text::str_to_chars(rendered.as_str());
        let keep = chars_starts_with(&chars, &needle);
        proof {
            assert(keep == starts_with_seq(crate::path::spec_render(rem[0].location@), nv));
        }
        if keep {
            let ghost old_out = objects@;
            objects.push(m);
            proof {
                assert(metas_sel_by_prefix(rem, nv) == seq![rem[0]] + metas_sel_by_prefix(
                    rem.drop_first(),
                    nv,
                ));
                assert(old_out + (seq![rem[0]] + metas_sel_by_prefix(rem.drop_first(), nv))
                    =~= old_out.push(rem[0]) + metas_sel_by_prefix(rem.drop_first(), nv));
                assert(objects@ =~= old_out.push(rem[0]));
            }
        } else {
            proof {
                assert(metas_sel_by_prefix(rem, nv) == metas_sel_by_prefix(rem.drop_first(), nv));
            }
        }
    }
    proof {
        assert(metas_sel_by_prefix(lst.objects@, nv) =~= Seq::<ObjectMeta>::empty());
        assert(objects@ + Seq::<ObjectMeta>::empty() =~= objects@);
    }
    crate::types::ListResult { common_prefixes, objects }
}

} // verus!
