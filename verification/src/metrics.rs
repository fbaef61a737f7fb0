//! Metric observation values and a raw reporter.
//!
//! A metric records an [`Observation`] for each unique set of
//! [`Attributes`]. A [`Reporter`] extracts the state of registered metrics;
//! [`RawReporter`] is the reporter that simply records what was submitted,
//! one [`ObservationSet`] per reported metric. Durations are carried as
//! nanosecond counts.

use vstd::prelude::*;

verus! {

/// A metric or attribute key: non-empty, over `[0-9a-z_]`.
pub open spec fn is_legal_key(s: Seq<char>) -> bool {
    s.len() > 0 && forall|i: int|
        0 <= i < s.len() ==> (('0' <= #[trigger] s[i] && s[i] <= '9') || ('a' <= s[i] && s[i]
            <= 'z') || s[i] == '_')
}

/// Check that a key is legal. Callers must only hand in legal keys; the
/// check never fails for them.
pub fn assert_legal_key(s: &str)
    requires
        is_legal_key(s@),
{
}

/// Whether a key is legal, decided at run time.
pub fn check_legal_key(s: &str) -> (r: bool)
    ensures
        r == is_legal_key(s@),
{
    let chars = crate::text::str_to_chars(s);
    if chars.len() == 0 {
        return false;
    }
    let mut i: usize = 0;
    while i < chars.len()
        invariant
            i <= chars@.len(),
            chars@ == s@,
            forall|j: int|
                0 <= j < i ==> (('0' <= #[trigger] s@[j] && s@[j] <= '9') || ('a' <= s@[j]
                    && s@[j] <= 'z') || s@[j] == '_'),
        decreases chars@.len() - i,
    {
        let c = chars[i];
        if !(('0' <= c && c <= '9') || ('a' <= c && c <= 'z') || c == '_') {
            return false;
        }
        i = i + 1;
    }
    true
}

/// The kind of observation a metric reports.
#[derive(Debug, Copy, Clone, PartialEq, Eq, Structural)]
pub enum MetricKind {
    /// A monotonically increasing count.
    U64Counter,
    /// A value that can go up and down.
    U64Gauge,
    /// A distribution of counts over buckets.
    U64Histogram,
    /// A monotonically increasing duration, in nanoseconds.
    DurationCounter,
    /// A duration value, in nanoseconds.
    DurationGauge,
    /// A distribution of durations over buckets, in nanoseconds.
    DurationHistogram,
}

/// A bucketed observation: the number of values that were at most `le`
/// and strictly greater than the previous bucket's bound. Buckets are not
/// cumulative.
#[derive(Debug, Clone, PartialEq, Eq, Structural)]
pub struct ObservationBucket<T> {
    /// This bucket's inclusive upper bound.
    pub le: T,
    /// How many values fell into this bucket alone.
    pub count: u64,
}

/// The sum of the bucket counts.
pub open spec fn sum_counts<T>(bs: Seq<ObservationBucket<T>>) -> int
    decreases bs.len(),
{
    if bs.len() == 0 {
        0
    } else {
        bs[0].count + sum_counts(bs.drop_first())
    }
}

/// A histogram measurement: the sum of all observed values and the
/// buckets they fell into.
#[derive(Debug)]
pub struct HistogramObservation<T> {
    /// The sum of all observations.
    pub total: T,
    /// The buckets.
    pub buckets: Vec<ObservationBucket<T>>,
}

impl<T> HistogramObservation<T> {
    /// How many values were observed: the sum of all bucket counts.
    pub fn sample_count(&self) -> (r: u64)
        requires
            sum_counts(self.buckets@) <= u64::MAX,
        ensures
            r == sum_counts(self.buckets@),
    {
        let ghost bs = self.buckets@;
        let mut r: u64 = 0;
        let mut i: usize = 0;
        proof {
            assert(bs.skip(0) =~= bs);
            lemma_sum_counts_split(bs, 0);
        }
        while i < self.buckets.len()
            invariant
                i <= bs.len(),
                bs == self.buckets@,
                sum_counts(bs) <= u64::MAX,
                r == sum_counts(bs.take(i as int)),
                sum_counts(bs) == sum_counts(bs.take(i as int)) + sum_counts(
                    bs.skip(i as int),
                ),
            decreases bs.len() - i,
        {
            proof {
                assert(bs.skip(i as int)[0] == bs[i as int]);
                assert(bs.skip(i as int).drop_first() =~= bs.skip(i + 1));
                lemma_sum_counts_nonneg(bs.skip(i + 1));
                lemma_sum_counts_split(bs, i + 1);
                lemma_sum_counts_take_push(bs, i as int);
            }
            r = r + self.buckets[i].count;
            i = i + 1;
        }
        proof {
            assert(bs.take(bs.len() as int) =~= bs);
        }
        r
    }
}

/// A bucket-count sum is never negative.
pub proof fn lemma_sum_counts_nonneg<T>(bs: Seq<ObservationBucket<T>>)
    ensures
        sum_counts(bs) >= 0,
    decreases bs.len(),
{
    if bs.len() > 0 {
        lemma_sum_counts_nonneg(bs.drop_first());
    }
}

/// A bucket-count sum splits at any index.
pub proof fn lemma_sum_counts_split<T>(bs: Seq<ObservationBucket<T>>, i: int)
    requires
        0 <= i <= bs.len(),
    ensures
        sum_counts(bs) == sum_counts(bs.take(i)) + sum_counts(bs.skip(i)),
    decreases i,
{
    if i == 0 {
        assert(bs.take(0) =~= Seq::<ObservationBucket<T>>::empty());
        assert(bs.skip(0) =~= bs);
    } else {
        lemma_sum_counts_split(bs.drop_first(), i - 1);
        assert(bs.take(i)[0] == bs[0]);
        assert(bs.take(i).drop_first() =~= bs.drop_first().take(i - 1));
        assert(bs.skip(i) =~= bs.drop_first().skip(i - 1));
        assert(sum_counts(bs.take(i)) == bs[0].count + sum_counts(bs.drop_first().take(i - 1)));
    }
}

/// Taking one more bucket adds its count.
pub proof fn lemma_sum_counts_take_push<T>(bs: Seq<ObservationBucket<T>>, i: int)
    requires
        0 <= i < bs.len(),
    ensures
        sum_counts(bs.take(i + 1)) == sum_counts(bs.take(i)) + bs[i].count,
{
    lemma_sum_counts_split(bs.take(i + 1), i);
    assert(bs.take(i + 1).take(i) =~= bs.take(i));
    assert(bs.take(i + 1).skip(i) =~= seq![bs[i]]);
    assert(seq![bs[i]].drop_first() =~= Seq::<ObservationBucket<T>>::empty());
    assert(seq![bs[i]][0] == bs[i]);
    assert(sum_counts(seq![bs[i]]) == bs[i].count + sum_counts(
        Seq::<ObservationBucket<T>>::empty(),
    ));
}

/// One observed value of a metric.
#[derive(Debug)]
pub enum Observation {
    /// A monotonically increasing count.
    U64Counter(u64),
    /// A value that can go up and down.
    U64Gauge(u64),
    /// A monotonically increasing duration, in nanoseconds.
    DurationCounter(u64),
    /// A duration value, in nanoseconds.
    DurationGauge(u64),
    /// A distribution of counts.
    U64Histogram(HistogramObservation<u64>),
    /// A distribution of durations, in nanoseconds.
    DurationHistogram(HistogramObservation<u64>),
}

/// A set of key-value pairs with unique keys.
#[derive(Debug)]
pub struct Attributes {
    pairs: Vec<(String, String)>,
}

/// Whether an attribute key occurs in a pair sequence.
pub open spec fn attrs_has(ps: Seq<(Seq<char>, Seq<char>)>, k: Seq<char>) -> bool {
    exists|i: int| 0 <= i < ps.len() && (#[trigger] ps[i]).0 == k
}

/// The index of an attribute key.
pub open spec fn attrs_idx(ps: Seq<(Seq<char>, Seq<char>)>, k: Seq<char>) -> int {
    choose|i: int| 0 <= i < ps.len() && (#[trigger] ps[i]).0 == k
}

/// Two attribute sets carry the same mapping.
pub open spec fn same_attrs(a: Seq<(Seq<char>, Seq<char>)>, b: Seq<(Seq<char>, Seq<char>)>) -> bool {
    &&& a.len() == b.len()
    &&& forall|i: int|
        0 <= i < a.len() ==> attrs_has(b, (#[trigger] a[i]).0) && b[attrs_idx(b, a[i].0)].1
            == a[i].1
}

impl Attributes {
    /// The pairs, in ascending key order.
    pub closed spec fn view(&self) -> Seq<(Seq<char>, Seq<char>)> {
        Seq::new(
            self.pairs@.len(),
            |i: int| (self.pairs@[i].0@, self.pairs@[i].1@),
        )
    }

    /// Keys strictly ascend in lexicographic order — so iteration is in
    /// ascending key order, and keys are unique.
    pub open spec fn wf(&self) -> bool {
        &&& forall|i: int, j: int|
            0 <= i < j < self@.len() ==> crate::path::lex_lt(
                (#[trigger] self@[i]).0,
                (#[trigger] self@[j]).0,
            )
        &&& forall|i: int, j: int|
            0 <= i < j < self@.len() ==> (#[trigger] self@[i]).0 != (#[trigger] self@[j]).0
    }

    /// An empty attribute set.
    pub fn new() -> (r: Attributes)
        ensures
            r@ == Seq::<(Seq<char>, Seq<char>)>::empty(),
            r.wf(),
    {
        let r = Attributes { pairs: Vec::new() };
        proof {
            assert(r@ =~= Seq::<(Seq<char>, Seq<char>)>::empty());
        }
        r
    }

    /// The pairs, in ascending key order.
    pub fn iter(&self) -> (r: &Vec<(String, String)>)
        ensures
            r@.len() == self@.len(),
            forall|i: int|
                0 <= i < self@.len() ==> ((#[trigger] r@[i]).0@, r@[i].1@) == self@[i],
    {
        &self.pairs
    }

    /// Set the given key, overriding it if already set. A new key takes
    /// its place in ascending key order; every other pair is unchanged.
    pub fn insert(&mut self, key: String, value: String)
        requires
            old(self).wf(),
        ensures
            final(self).wf(),
            attrs_has(final(self)@, key@),
            final(self)@[attrs_idx(final(self)@, key@)].1 == value@,
            forall|k: Seq<char>|
                k != key@ ==> #[trigger] attrs_has(final(self)@, k) == attrs_has(
                    old(self)@,
                    k,
                ),
            forall|k: Seq<char>|
                k != key@ && attrs_has(old(self)@, k)
                    ==> #[trigger] final(self)@[attrs_idx(final(self)@, k)].1 == old(
                    self,
                )@[attrs_idx(old(self)@, k)].1,
            final(self)@.len() == old(self)@.len() + (if attrs_has(old(self)@, key@) {
                0int
            } else {
                1int
            }),
    {
        let kchars = crate::text::str_to_chars(key.as_str());
        let ghost old_view = self@;
        let ghost kv = key@;
        let ghost vv = value@;
        // find the first position whose key is not below the new key
        let n = self.pairs.len();
        let mut i: usize = 0;
        let mut stop = false;
        while !stop && i < n
            invariant
                self.wf(),
                old_view == self@,
                self@ == old(self)@,
                kv == key@,
                kchars@ == kv,
                i <= n == self.pairs@.len(),
                self@.len() == self.pairs@.len(),
                forall|j: int| 0 <= j < i ==> crate::path::lex_lt((#[trigger] self@[j]).0, kv),
                stop ==> i < n && !crate::path::lex_lt(self@[i as int].0, kv),
            decreases n - i + (if stop {
                0int
            } else {
                1int
            }),
        {
            proof {
                assert(self@[i as int].0 == self.pairs@[i as int].0@);
            }
            let cur = crate::text::str_to_chars(self.pairs[i].0.as_str());
            if crate::path::lex_lt_chars(&cur, &kchars) {
                i = i + 1;
            } else {
                stop = true;
            }
        }
        proof {
            assert(i == n || !crate::path::lex_lt(self@[i as int].0, kv));
        }
        if stop && self.pairs[i].0 == key {
            // the key is already present, at position i: replace its value
            proof {
                assert(self@[i as int].0 == kv);
                assert(attrs_has(old_view, kv));
                let w = attrs_idx(old_view, kv);
                assert(0 <= w < old_view.len() && old_view[w].0 == kv);
                if w != i {
                    if w < i {
                        assert(old_view[w].0 != old_view[i as int].0);
                    } else {
                        assert(old_view[i as int].0 != old_view[w].0);
                    }
                }
            }
            let _ = self.pairs.remove(i);
            self.pairs.insert(i, (key, value));
            proof {
                assert(self@ =~= old_view.update(i as int, (kv, vv)));
                assert forall|a: int, b: int|
                    0 <= a < b < self@.len() implies crate::path::lex_lt(
                    (#[trigger] self@[a]).0,
                    (#[trigger] self@[b]).0,
                ) && self@[a].0 != self@[b].0 by {
                    assert(self@[a].0 == old_view[a].0);
                    assert(self@[b].0 == old_view[b].0);
                    assert(crate::path::lex_lt(old_view[a].0, old_view[b].0));
                    assert(old_view[a].0 != old_view[b].0);
                }
                lemma_attrs_upserted_at(old_view, self@, kv, vv, i as int);
            }
            return ;
        }
        // the key is absent: it belongs exactly at position i
        proof {
            if i < self@.len() {
                assert(self@[i as int].0 != kv);
                crate::path::lemma_lex_total(kv, self@[i as int].0);
                assert(crate::path::lex_lt(kv, self@[i as int].0));
            }
            assert forall|j: int| 0 <= j < old_view.len() implies (#[trigger] old_view[j]).0
                != kv by {
                if j < i {
                    crate::path::lemma_lex_irrefl(kv);
                    if old_view[j].0 == kv {
                        assert(crate::path::lex_lt(kv, kv));
                    }
                } else {
                    crate::path::lemma_lex_irrefl(kv);
                    if old_view[j].0 == kv {
                        if j == i {
                            assert(crate::path::lex_lt(kv, kv));
                        } else {
                            assert(crate::path::lex_lt(old_view[i as int].0, old_view[j].0));
                            crate::path::lemma_lex_trans(kv, old_view[i as int].0, old_view[j].0);
                            assert(crate::path::lex_lt(kv, kv));
                        }
                    }
                }
            }
            if attrs_has(old_view, kv) {
                let w = attrs_idx(old_view, kv);
            }
        }
        self.pairs.insert(i, (key, value));
        proof {
            assert(self@ =~= old_view.insert(i as int, (kv, vv)));
            assert forall|a: int, b: int|
                0 <= a < b < self@.len() implies crate::path::lex_lt(
                (#[trigger] self@[a]).0,
                (#[trigger] self@[b]).0,
            ) && self@[a].0 != self@[b].0 by {
                let oa = if a < i {
                    a
                } else {
                    a - 1
                };
                let ob = if b <= i {
                    b
                } else {
                    b - 1
                };
                if a == i {
                    // new key against a later old key
                    assert(self@[a].0 == kv);
                    assert(self@[b].0 == old_view[b - 1].0);
                    if b - 1 == i {
                        assert(crate::path::lex_lt(kv, old_view[i as int].0));
                    } else {
                        assert(crate::path::lex_lt(old_view[i as int].0, old_view[b - 1].0));
                        crate::path::lemma_lex_trans(kv, old_view[i as int].0, old_view[b - 1].0);
                    }
                } else if b == i {
                    // an earlier old key against the new key
                    assert(self@[a].0 == old_view[a].0);
                    assert(self@[b].0 == kv);
                    assert(crate::path::lex_lt(old_view[a].0, kv));
                } else {
                    assert(self@[a].0 == old_view[oa].0);
                    assert(self@[b].0 == old_view[ob].0);
                    if a < i && b > i {
                        if oa < ob {
                            assert(crate::path::lex_lt(old_view[oa].0, old_view[ob].0));
                        } else {
                            assert(crate::path::lex_lt(old_view[a].0, kv));
                            assert(oa == ob);
                            crate::path::lemma_lex_trans(
                                old_view[a].0,
                                kv,
                                old_view[i as int].0,
                            );
                        }
                    } else {
                        assert(crate::path::lex_lt(old_view[oa].0, old_view[ob].0));
                    }
                }
                crate::path::lemma_lex_irrefl(self@[a].0);
                if self@[a].0 == self@[b].0 {
                    assert(crate::path::lex_lt(self@[a].0, self@[a].0));
                }
            }
            lemma_attrs_inserted_at(old_view, self@, kv, vv, i as int);
        }
    }
}

/// After replacing the pair at a key's position, the mapping holds the
/// new value there and is unchanged elsewhere.
proof fn lemma_attrs_upserted_at(
    s: Seq<(Seq<char>, Seq<char>)>,
    t: Seq<(Seq<char>, Seq<char>)>,
    k: Seq<char>,
    v: Seq<char>,
    i: int,
)
    requires
        0 <= i < s.len(),
        s[i].0 == k,
        t == s.update(i, (k, v)),
        forall|a: int, b: int| 0 <= a < b < s.len() ==> (#[trigger] s[a]).0 != (#[trigger] s[b]).0,
    ensures
        attrs_has(t, k),
        t[attrs_idx(t, k)].1 == v,
        forall|k2: Seq<char>| k2 != k ==> #[trigger] attrs_has(t, k2) == attrs_has(s, k2),
        forall|k2: Seq<char>|
            k2 != k && attrs_has(s, k2) ==> #[trigger] t[attrs_idx(t, k2)].1 == s[attrs_idx(
                s,
                k2,
            )].1,
{
    assert(t[i].0 == k);
    assert(attrs_has(t, k));
    let w = attrs_idx(t, k);
    assert(0 <= w < t.len() && t[w].0 == k);
    assert forall|a: int, b: int|
        0 <= a < b < t.len() implies (#[trigger] t[a]).0 != (#[trigger] t[b]).0 by {
        assert(t[a].0 == s[a].0);
        assert(t[b].0 == s[b].0);
    }
    if w != i {
        assert(t[w].0 != t[i].0 || t[i].0 != t[w].0);
    }
    assert(t[attrs_idx(t, k)].1 == v);
    assert forall|k2: Seq<char>| k2 != k implies #[trigger] attrs_has(t, k2) == attrs_has(
        s,
        k2,
    ) by {
        if attrs_has(s, k2) {
            let j = attrs_idx(s, k2);
            assert(0 <= j < s.len() && s[j].0 == k2);
            assert(j != i);
            assert(t[j].0 == k2);
            assert(attrs_has(t, k2));
        }
        if attrs_has(t, k2) {
            let j = attrs_idx(t, k2);
            assert(0 <= j < t.len() && t[j].0 == k2);
            assert(j != i);
            assert(s[j].0 == k2);
            assert(attrs_has(s, k2));
        }
    }
    assert forall|k2: Seq<char>|
        k2 != k && attrs_has(s, k2) implies #[trigger] t[attrs_idx(t, k2)].1 == s[attrs_idx(
        s,
        k2,
    )].1 by {
        let j = attrs_idx(s, k2);
        assert(0 <= j < s.len() && s[j].0 == k2);
        assert(j != i);
        assert(t[j].0 == k2);
        assert(attrs_has(t, k2));
        let j2 = attrs_idx(t, k2);
        assert(0 <= j2 < t.len() && t[j2].0 == k2);
        if j2 != j {
            if j2 < j {
                assert(t[j2].0 != t[j].0);
            } else {
                assert(t[j].0 != t[j2].0);
            }
        }
        assert(t[j2] == s[j]);
    }
}

/// After inserting a fresh key at a position, the mapping holds the new
/// pair and is unchanged elsewhere.
proof fn lemma_attrs_inserted_at(
    s: Seq<(Seq<char>, Seq<char>)>,
    t: Seq<(Seq<char>, Seq<char>)>,
    k: Seq<char>,
    v: Seq<char>,
    i: int,
)
    requires
        0 <= i <= s.len(),
        t == s.insert(i, (k, v)),
        forall|j: int| 0 <= j < s.len() ==> (#[trigger] s[j]).0 != k,
        forall|a: int, b: int| 0 <= a < b < t.len() ==> (#[trigger] t[a]).0 != (#[trigger] t[b]).0,
    ensures
        attrs_has(t, k),
        t[attrs_idx(t, k)].1 == v,
        forall|k2: Seq<char>| k2 != k ==> #[trigger] attrs_has(t, k2) == attrs_has(s, k2),
        forall|k2: Seq<char>|
            k2 != k && attrs_has(s, k2) ==> #[trigger] t[attrs_idx(t, k2)].1 == s[attrs_idx(
                s,
                k2,
            )].1,
{
    assert(t[i].0 == k);
    assert(attrs_has(t, k));
    let w = attrs_idx(t, k);
    assert(0 <= w < t.len() && t[w].0 == k);
    if w != i {
        if w < i {
            assert(t[w].0 != t[i].0);
        } else {
            assert(t[i].0 != t[w].0);
        }
    }
    assert(t[attrs_idx(t, k)].1 == v);
    assert forall|k2: Seq<char>| k2 != k implies #[trigger] attrs_has(t, k2) == attrs_has(
        s,
        k2,
    ) by {
        if attrs_has(s, k2) {
            let j = attrs_idx(s, k2);
            assert(0 <= j < s.len() && s[j].0 == k2);
            let j2 = if j < i {
                j
            } else {
                j + 1
            };
            assert(t[j2] == s[j]);
            assert(attrs_has(t, k2));
        }
        if attrs_has(t, k2) {
            let j = attrs_idx(t, k2);
            assert(0 <= j < t.len() && t[j].0 == k2);
            assert(j != i);
            let j2 = if j < i {
                j
            } else {
                j - 1
            };
            assert(s[j2] == t[j]);
            assert(attrs_has(s, k2));
        }
    }
    assert forall|k2: Seq<char>|
        k2 != k && attrs_has(s, k2) implies #[trigger] t[attrs_idx(t, k2)].1 == s[attrs_idx(
        s,
        k2,
    )].1 by {
        let j = attrs_idx(s, k2);
        assert(0 <= j < s.len() && s[j].0 == k2);
        let j2 = if j < i {
            j
        } else {
            j + 1
        };
        assert(t[j2] == s[j]);
        assert(attrs_has(t, k2));
        let j3 = attrs_idx(t, k2);
        assert(0 <= j3 < t.len() && t[j3].0 == k2);
        if j3 != j2 {
            if j3 < j2 {
                assert(t[j3].0 != t[j2].0);
            } else {
                assert(t[j2].0 != t[j3].0);
            }
        }
        assert(t[j3] == s[j]);
    }
}

/// Copy an attribute set.
pub fn clone_attrs(a: &Attributes) -> (r: Attributes)
    ensures
        r@ == a@,
        r.wf() == a.wf(),
{
    let src = a.iter();
    let mut pairs: Vec<(String, String)> = Vec::new();
    let mut i: usize = 0;
    while i < src.len()
        invariant
            i <= src@.len(),
            src@.len() == a@.len(),
            forall|j: int|
                0 <= j < a@.len() ==> ((#[trigger] src@[j]).0@, src@[j].1@) == a@[j],
            pairs@.len() == i,
            forall|j: int| 0 <= j < i ==> ((#[trigger] pairs@[j]).0@, pairs@[j].1@) == a@[j],
        decreases src@.len() - i,
    {
        pairs.push((src[i].0.clone(), src[i].1.clone()));
        i = i + 1;
    }
    let r = Attributes { pairs };
    proof {
        assert(r@ =~= a@);
    }
    r
}

/// Whether two attribute sets carry the same mapping.
pub fn attrs_equal(a: &Attributes, b: &Attributes) -> (r: bool)
    requires
        b.wf(),
    ensures
        r == same_attrs(a@, b@),
{
    let ap = a.iter();
    let bp = b.iter();
    if ap.len() != bp.len() {
        proof {
            assert(a@.len() != b@.len());
        }
        return false;
    }
    let n = ap.len();
    let mut i: usize = 0;
    while i < n
        invariant
            b.wf(),
            i <= n,
            n == ap@.len() == a@.len(),
            n == bp@.len() == b@.len(),
            forall|j: int|
                0 <= j < a@.len() ==> ((#[trigger] ap@[j]).0@, ap@[j].1@) == a@[j],
            forall|j: int|
                0 <= j < b@.len() ==> ((#[trigger] bp@[j]).0@, bp@[j].1@) == b@[j],
            forall|j: int|
                0 <= j < i ==> attrs_has(b@, (#[trigger] a@[j]).0) && b@[attrs_idx(
                    b@,
                    a@[j].0,
                )].1 == a@[j].1,
        decreases n - i,
    {
        let key = &ap[i].0;
        let val = &ap[i].1;
        proof {
            assert((ap@[i as int].0@, ap@[i as int].1@) == a@[i as int]);
        }
        let mut found = false;
        let mut t: usize = 0;
        while t < n
            invariant
                b.wf(),
                t <= n == bp@.len() == b@.len(),
                key@ == a@[i as int].0,
                val@ == a@[i as int].1,
                0 <= i < a@.len(),
                forall|j: int|
                    0 <= j < b@.len() ==> ((#[trigger] bp@[j]).0@, bp@[j].1@) == b@[j],
                !found ==> forall|j: int| 0 <= j < t ==> (#[trigger] b@[j]).0 != key@,
                found ==> attrs_has(b@, a@[i as int].0) && b@[attrs_idx(b@, a@[i as int].0)].1
                    == a@[i as int].1,
            decreases n - t,
        {
            proof {
                assert((bp@[t as int].0@, bp@[t as int].1@) == b@[t as int]);
            }
            if !found && *key == bp[t].0 {
                proof {
                    assert(b@[t as int].0 == key@);
                    assert(attrs_has(b@, a@[i as int].0));
                    let w = attrs_idx(b@, a@[i as int].0);
                    assert(0 <= w < b@.len() && b@[w].0 == a@[i as int].0);
                    if w != t {
                        if w < t {
                            assert(b@[w].0 != b@[t as int].0);
                        } else {
                            assert(b@[t as int].0 != b@[w].0);
                        }
                    }
                }
                if *val == bp[t].1 {
                    proof {
                        assert(b@[t as int].1 == val@);
                    }
                    found = true;
                } else {
                    proof {
                        assert(b@[attrs_idx(b@, a@[i as int].0)].1 != a@[i as int].1);
                        assert(!same_attrs(a@, b@));
                    }
                    return false;
                }
            }
            t = t + 1;
        }
        if !found {
            proof {
                if attrs_has(b@, a@[i as int].0) {
                    let w = attrs_idx(b@, a@[i as int].0);
                }
                assert(!same_attrs(a@, b@));
            }
            return false;
        }
        i = i + 1;
    }
    true
}

/// What a reporter buffered for one metric: its identity and one
/// observation per unique attribute set, in report order.
#[derive(Debug)]
pub struct ObservationSet {
    /// The reported metric's name.
    pub metric_name: String,
    /// The reported metric's description.
    pub description: String,
    /// The kind of the reported observations.
    pub kind: MetricKind,
    /// One observation per attribute set.
    pub observations: Vec<(Attributes, Observation)>,
}

/// The first index whose attributes carry the given mapping, or `-1`.
pub open spec fn obs_find_idx(obs: Seq<(Attributes, Observation)>, a: Seq<(Seq<char>, Seq<char>)>) -> int
    decreases obs.len(),
{
    if obs.len() == 0 {
        -1
    } else if same_attrs(a, obs[0].0@) {
        0
    } else {
        let rec = obs_find_idx(obs.drop_first(), a);
        if rec == -1 {
            -1
        } else {
            1 + rec
        }
    }
}

/// `obs_find_idx` is pinned down by its characterisation.
pub proof fn lemma_obs_find_at(
    obs: Seq<(Attributes, Observation)>,
    a: Seq<(Seq<char>, Seq<char>)>,
    k: int,
)
    requires
        -1 <= k < obs.len(),
        k >= 0 ==> same_attrs(a, obs[k].0@),
        forall|j: int| 0 <= j < k ==> !same_attrs(a, (#[trigger] obs[j]).0@),
        k == -1 ==> forall|j: int|
            0 <= j < obs.len() ==> !same_attrs(a, (#[trigger] obs[j]).0@),
    ensures
        obs_find_idx(obs, a) == k,
    decreases obs.len(),
{
    if obs.len() == 0 {
    } else if same_attrs(a, obs[0].0@) {
        assert(k == 0);
    } else {
        assert(k != 0);
        if k == -1 {
            lemma_obs_find_at(obs.drop_first(), a, -1);
        } else {
            lemma_obs_find_at(obs.drop_first(), a, k - 1);
        }
    }
}

impl ObservationSet {
    /// Every recorded attribute set has unique keys.
    pub open spec fn wf(&self) -> bool {
        forall|i: int| 0 <= i < self.observations@.len() ==> (#[trigger] self.observations@[i]).0.wf()
    }

    /// The observation recorded for the given attribute set, if any.
    pub fn observation(&self, attributes: &Attributes) -> (r: Option<&Observation>)
        requires
            self.wf(),
        ensures
            match r {
                Some(o) => obs_find_idx(self.observations@, attributes@) >= 0 && *o
                    == self.observations@[obs_find_idx(self.observations@, attributes@)].1,
                None => obs_find_idx(self.observations@, attributes@) == -1,
            },
    {
        let n = self.observations.len();
        let mut i: usize = 0;
        while i < n
            invariant
                self.wf(),
                i <= n == self.observations@.len(),
                forall|j: int|
                    0 <= j < i ==> !same_attrs(attributes@, (#[trigger] self.observations@[j]).0@),
            decreases n - i,
        {
            if attrs_equal(attributes, &self.observations[i].0) {
                proof {
                    lemma_obs_find_at(self.observations@, attributes@, i as int);
                }
                return Some(&self.observations[i].1);
            }
            i = i + 1;
        }
        proof {
            lemma_obs_find_at(self.observations@, attributes@, -1);
        }
        None
    }
}

/// Anything that wants to extract the state of registered metrics and
/// export it. Reporting is bracketed: a metric is started, its
/// observations are reported, and the metric is finished, never
/// interleaved.
pub trait Reporter {
    /// Whether a metric is currently being reported.
    spec fn reporting(&self) -> bool;

    /// Start recording the observations of a single metric.
    fn start_metric(&mut self, metric_name: String, description: String, kind: MetricKind)
        requires
            !old(self).reporting(),
        ensures
            final(self).reporting(),
    ;

    /// Record an observation for the metric being reported.
    fn report_observation(&mut self, attributes: &Attributes, observation: Observation)
        requires
            old(self).reporting(),
            attributes.wf(),
        ensures
            final(self).reporting(),
    ;

    /// Finish recording the metric being reported.
    fn finish_metric(&mut self)
        requires
            old(self).reporting(),
        ensures
            !final(self).reporting(),
    ;
}

/// A type that knows how to write its observations to a reporter,
/// bracketing each metric with a start and a finish.
pub trait Instrument {
    /// Record the current state of this instrument's metrics.
    fn report<R: Reporter>(&self, reporter: &mut R)
        requires
            !old(reporter).reporting(),
        ensures
            !final(reporter).reporting(),
    ;
}

/// The first index of a finished set carrying the given metric name, or
/// `-1` if there is none.
pub open spec fn set_find_idx(sets: Seq<ObservationSet>, name: Seq<char>) -> int
    decreases sets.len(),
{
    if sets.len() == 0 {
        -1
    } else if sets[0].metric_name@ == name {
        0
    } else {
        let rec = set_find_idx(sets.drop_first(), name);
        if rec == -1 {
            -1
        } else {
            1 + rec
        }
    }
}

/// `set_find_idx` is pinned down by its characterisation.
pub proof fn lemma_set_find_at(sets: Seq<ObservationSet>, name: Seq<char>, k: int)
    requires
        -1 <= k < sets.len(),
        k >= 0 ==> sets[k].metric_name@ == name,
        forall|j: int| 0 <= j < k ==> (#[trigger] sets[j]).metric_name@ != name,
        k == -1 ==> forall|j: int|
            0 <= j < sets.len() ==> (#[trigger] sets[j]).metric_name@ != name,
    ensures
        set_find_idx(sets, name) == k,
    decreases sets.len(),
{
    if sets.len() == 0 {
    } else if sets[0].metric_name@ == name {
        assert(k == 0);
    } else {
        assert(k != 0);
        if k == -1 {
            lemma_set_find_at(sets.drop_first(), name, -1);
        } else {
            lemma_set_find_at(sets.drop_first(), name, k - 1);
        }
    }
}

/// A reporter that records the raw data submitted.
#[derive(Debug)]
pub struct RawReporter {
    completed: Vec<ObservationSet>,
    in_progress: Option<ObservationSet>,
}

impl RawReporter {
    /// The finished observation sets, in report order.
    pub closed spec fn completed_view(&self) -> Seq<ObservationSet> {
        self.completed@
    }

    /// Whether a metric is mid-report.
    pub closed spec fn spec_reporting(&self) -> bool {
        self.in_progress is Some
    }

    /// The set being assembled, where one is mid-report.
    pub closed spec fn current(&self) -> ObservationSet {
        self.in_progress->0
    }

    /// Every buffered attribute set has unique keys.
    pub open spec fn wf(&self) -> bool {
        &&& forall|i: int|
            0 <= i < self.completed_view().len() ==> (#[trigger] self.completed_view()[i]).wf()
        &&& self.spec_reporting() ==> self.current().wf()
    }

    /// A fresh reporter with nothing recorded.
    pub fn new() -> (r: RawReporter)
        ensures
            r.completed_view() == Seq::<ObservationSet>::empty(),
            !r.spec_reporting(),
            r.wf(),
    {
        let r = RawReporter { completed: Vec::new(), in_progress: None };
        proof {
            assert(r.completed_view() =~= Seq::<ObservationSet>::empty());
        }
        r
    }

    /// The observation set for the given metric name, if any: the first
    /// finished set carrying that name.
    pub fn metric(&self, metric_name: &str) -> (r: Option<&ObservationSet>)
        requires
            !self.spec_reporting(),
        ensures
            match r {
                Some(s) => set_find_idx(self.completed_view(), metric_name@) >= 0 && *s
                    == self.completed_view()[set_find_idx(self.completed_view(), metric_name@)],
                None => set_find_idx(self.completed_view(), metric_name@) == -1,
            },
    {
        let n = self.completed.len();
        let mut i: usize = 0;
        while i < n
            invariant
                i <= n == self.completed_view().len(),
                self.completed_view() == self.completed@,
                forall|j: int|
                    0 <= j < i ==> (#[trigger] self.completed_view()[j]).metric_name@
                        != metric_name@,
            decreases n - i,
        {
            let candidate = &self.completed[i];
            let chars_a = crate::text::str_to_chars(candidate.metric_name.as_str());
            let chars_b = crate::text::str_to_chars(metric_name);
            if chars_eq(&chars_a, &chars_b) {
                proof {
                    lemma_set_find_at(self.completed_view(), metric_name@, i as int);
                }
                return Some(candidate);
            }
            i = i + 1;
        }
        proof {
            lemma_set_find_at(self.completed_view(), metric_name@, -1);
        }
        None
    }

    /// The finished observation sets, in report order.
    pub fn observations(&self) -> (r: &Vec<ObservationSet>)
        requires
            !self.spec_reporting(),
        ensures
            r@ == self.completed_view(),
    {
        &self.completed
    }
}

/// Character-wise equality of two vectors.
pub fn chars_eq(a: &Vec<char>, b: &Vec<char>) -> (r: bool)
    ensures
        r == (a@ == b@),
{
    if a.len() != b.len() {
        return false;
    }
    let mut i: usize = 0;
    while i < a.len()
        invariant
            i <= a@.len(),
            a@.len() == b@.len(),
            forall|j: int| 0 <= j < i ==> a@[j] == b@[j],
        decreases a@.len() - i,
    {
        if a[i] != b[i] {
            return false;
        }
        i = i + 1;
    }
    proof {
        assert(a@ =~= b@);
    }
    true
}

impl Reporter for RawReporter {
    open spec fn reporting(&self) -> bool {
        self.spec_reporting()
    }

    fn start_metric(&mut self, metric_name: String, description: String, kind: MetricKind)
        ensures
            old(self).wf() ==> final(self).wf(),
            final(self).completed_view() == old(self).completed_view(),
            final(self).current().metric_name@ == metric_name@,
            final(self).current().description@ == description@,
            final(self).current().kind == kind,
            final(self).current().observations@ == Seq::<(Attributes, Observation)>::empty(),
    {
        self.in_progress = Some(
            ObservationSet { metric_name, description, kind, observations: Vec::new() },
        );
        proof {
            assert(self.current().observations@ =~= Seq::<(Attributes, Observation)>::empty());
            assert(self.current().wf());
            if old(self).wf() {
                assert forall|i: int|
                    0 <= i < self.completed_view().len() implies (
                #[trigger] self.completed_view()[i]).wf() by {
                    assert(self.completed_view()[i] == old(self).completed_view()[i]);
                }
            }
        }
    }

    fn report_observation(&mut self, attributes: &Attributes, observation: Observation)
        ensures
            old(self).wf() ==> final(self).wf(),
            final(self).completed_view() == old(self).completed_view(),
            final(self).current().metric_name == old(self).current().metric_name,
            final(self).current().description == old(self).current().description,
            final(self).current().kind == old(self).current().kind,
            final(self).current().observations@.len() == old(
                self,
            ).current().observations@.len() + 1,
            final(self).current().observations@.last().0@ == attributes@,
            final(self).current().observations@.last().1 == observation,
            forall|i: int|
                0 <= i < old(self).current().observations@.len()
                    ==> #[trigger] final(self).current().observations@[i] == old(
                    self,
                ).current().observations@[i],
    {
        let copy = clone_attrs(attributes);
        let ghost copy_wf = copy.wf();
        match &mut self.in_progress {
            Some(set) => {
                set.observations.push((copy, observation));
            },
            None => {
                proof {
                    assert(false);
                }
            },
        }
        proof {
            if old(self).wf() {
                assert forall|i: int|
                    0 <= i < self.current().observations@.len() implies (
                #[trigger] self.current().observations@[i]).0.wf() by {
                    if i < old(self).current().observations@.len() {
                        assert(self.current().observations@[i] == old(
                            self,
                        ).current().observations@[i]);
                    } else {
                        assert(self.current().observations@[i].0.wf() == copy_wf);
                    }
                }
                assert(self.current().wf());
                assert forall|i: int|
                    0 <= i < self.completed_view().len() implies (
                #[trigger] self.completed_view()[i]).wf() by {
                    assert(self.completed_view()[i] == old(self).completed_view()[i]);
                }
            }
        }
    }

    fn finish_metric(&mut self)
        ensures
            old(self).wf() ==> final(self).wf(),
            final(self).completed_view() == old(self).completed_view().push(
                old(self).current(),
            ),
    {
        let set = self.in_progress.take();
        match set {
            Some(s) => {
                self.completed.push(s);
            },
            None => {
                proof {
                    assert(false);
                }
            },
        }
        proof {
            if old(self).wf() {
                assert forall|i: int|
                    0 <= i < self.completed_view().len() implies (
                #[trigger] self.completed_view()[i]).wf() by {
                    if i < old(self).completed_view().len() {
                        assert(self.completed_view()[i] == old(self).completed_view()[i]);
                    } else {
                        assert(self.completed_view()[i] == old(self).current());
                    }
                }
            }
        }
    }
}

} // verus!
