//! Builder configuration maps.
//!
//! A backend builder takes its settings as a key-value map, possibly given
//! twice: once as an explicit map and once as keyword arguments. The two
//! are merged; a key given in both is a caller error, reported rather than
//! silently resolved.

use vstd::prelude::*;

use crate::error::Error;
use crate::metrics::attrs_has;

verus! {

/// Merge explicit configuration with keyword arguments. Fails on the
/// first key that is given twice, between the maps or within `extra`.
pub fn merge_configs(base: Vec<(String, String)>, extra: Vec<(String, String)>) -> (r: Result<
    Vec<(String, String)>,
    Error,
>)
    ensures
        match r {
            Ok(m) => {
                &&& m@.len() == base@.len() + extra@.len()
                &&& forall|i: int| 0 <= i < base@.len() ==> #[trigger] m@[i] == base@[i]
                &&& forall|i: int|
                    0 <= i < extra@.len() ==> #[trigger] m@[base@.len() + i] == extra@[i]
                &&& forall|i: int|
                    0 <= i < extra@.len() ==> !attrs_has(
                        pairs_view(base@),
                        (#[trigger] extra@[i]).0@,
                    )
                &&& forall|i: int, j: int|
                    0 <= i < j < extra@.len() ==> (#[trigger] extra@[i]).0@ != (
                    #[trigger] extra@[j]).0@
            },
            Err(e) => {
                &&& e matches Error::Generic { .. }
                &&& exists|i: int|
                    0 <= i < extra@.len() && (attrs_has(
                        pairs_view(base@),
                        (#[trigger] extra@[i]).0@,
                    ) || exists|j: int| 0 <= j < i && (#[trigger] extra@[j]).0@ == extra@[i].0@)
            },
        },
{
    let ghost base_view = pairs_view(base@);
    let ghost base_seq = base@;
    let mut merged = base;
    let ghost base_len = merged@.len();
    let ghost orig_extra = extra@;
    let e_len = extra.len();
    let mut rest = extra;
    let mut taken: usize = 0;
    proof {
        assert(orig_extra.len() == e_len);
    }
    while rest.len() > 0
        invariant
            orig_extra == extra@,
            base_seq == base@,
            orig_extra.len() == e_len,
            taken + rest@.len() == orig_extra.len(),
            rest@ == orig_extra.skip(taken as int),
            base_len == base_seq.len(),
            base_view == pairs_view(base_seq),
            merged@.len() == base_len + taken,
            forall|i: int| 0 <= i < base_len ==> #[trigger] merged@[i] == base_seq[i],
            forall|i: int| 0 <= i < taken ==> #[trigger] merged@[base_len + i] == orig_extra[i],
            forall|i: int|
                0 <= i < taken ==> !attrs_has(base_view, (#[trigger] orig_extra[i]).0@),
            forall|i: int, j: int|
                0 <= i < j < taken ==> (#[trigger] orig_extra[i]).0@ != (
                #[trigger] orig_extra[j]).0@,
        decreases rest@.len(),
    {
        let ghost rem = rest@;
        let (key, value) = rest.remove(0);
        proof {
            assert((key, value) == rem[0]);
            assert(rest@ =~= rem.drop_first());
            assert(rest@ =~= orig_extra.skip(taken + 1));
            assert(rem[0] == orig_extra[taken as int]);
        }
        // scan everything merged so far for the same key
        let mut t: usize = 0;
        let n = merged.len();
        while t < n
            invariant
                t <= n == merged@.len(),
                orig_extra == extra@,
                base_seq == base@,
                key@ == orig_extra[taken as int].0@,
                taken < orig_extra.len(),
                orig_extra.len() == e_len,
                base_len == base_seq.len(),
                base_view == pairs_view(base_seq),
                merged@.len() == base_len + taken,
                forall|i: int| 0 <= i < base_len ==> #[trigger] merged@[i] == base_seq[i],
                forall|i: int|
                    0 <= i < taken ==> #[trigger] merged@[base_len + i] == orig_extra[i],
                forall|j: int| 0 <= j < t ==> (#[trigger] merged@[j]).0@ != key@,
            decreases n - t,
        {
            if merged[t].0 == key {
                proof {
                    let wi = taken as int;
                    assert(0 <= wi < orig_extra.len());
                    if t < base_len {
                        assert(merged@[t as int] == base_seq[t as int]);
                        assert(pairs_view(base_seq)[t as int] == (base_seq[t as int].0@,
                        base_seq[t as int].1@));
                        assert(base_view[t as int].0 == key@);
                        assert(attrs_has(base_view, orig_extra[wi].0@));
                    } else {
                        let d = t - base_len;
                        assert(merged@[base_len + d] == orig_extra[d]);
                        assert(0 <= d < wi);
                        assert(orig_extra[d].0@ == orig_extra[wi].0@);
                    }
                }
                return Err(
                    Error::Generic {
                        message: String::from_str(
                            "duplicate key between configuration and keyword arguments",
                        ),
                    },
                );
            }
            t = t + 1;
        }
        proof {
            if attrs_has(base_view, orig_extra[taken as int].0@) {
                let w = crate::metrics::attrs_idx(base_view, orig_extra[taken as int].0@);
                assert(0 <= w < base_view.len() && base_view[w].0 == orig_extra[taken as int].0@);
                assert(base_view[w] == (base_seq[w].0@, base_seq[w].1@));
                assert(merged@[w] == base_seq[w]);
                assert(merged@[w].0@ == key@);
            }
            assert forall|i: int|
                0 <= i < taken implies (#[trigger] orig_extra[i]).0@ != orig_extra[taken as int].0@ by {
                assert(merged@[base_len + i] == orig_extra[i]);
            }
        }
        merged.push((key, value));
        taken = taken + 1;
    }
    Ok(merged)
}

/// The character-level view of a pair list.
pub open spec fn pairs_view(ps: Seq<(String, String)>) -> Seq<(Seq<char>, Seq<char>)> {
    Seq::new(ps.len(), |i: int| (ps[i].0@, ps[i].1@))
}

} // verus!
