//! Symmetric nearest-neighbour correlation of the two streams.
//!
//! Each record of the RGB catalog is paired with its nearest NIR record, and
//! each record of the NIR catalog with its nearest RGB record; the union of
//! the two passes, with exact duplicates removed (first occurrence kept), is
//! the candidate pair set. A pair names its records by catalog position and
//! carries the absolute difference of their instants.

use vstd::prelude::*;

use crate::catalog::Record;
use crate::order::delta;
use crate::order::lemma_nearest_pos;
use crate::order::lemma_sorted_ts_covers;
use crate::order::lemma_sorted_ts_elems;
use crate::order::lemma_sorted_ts_sorted;
use crate::order::nearest_in;
use crate::order::nearest_pos;
use crate::order::sorted_ts;
use crate::order::sorted_view;

verus! {

/// A candidate pairing of one RGB record and one NIR record: their positions
/// in their catalogs and the absolute difference of their capture instants.
/// Produced only by the correlator.
#[derive(Clone, Copy, Debug, PartialEq, Eq, Structural)]
pub struct CorrelatedPair {
    pub rgb: usize,
    pub nir: usize,
    pub delta_ms: u64,
}

/// The pair the forward pass emits for position `i` of the sorted RGB view.
pub open spec fn forward_pair(rgb: Seq<Record>, nir: Seq<Record>, i: int) -> CorrelatedPair {
    let rs = sorted_ts(rgb);
    let ns = sorted_ts(nir);
    let j = nearest_pos(ns, rs[i].0);
    CorrelatedPair { rgb: rs[i].1, nir: ns[j].1, delta_ms: delta(ns[j].0, rs[i].0) as u64 }
}

/// The forward pass: every RGB record, in sorted order, with its nearest NIR
/// record.
pub open spec fn forward_pairs(rgb: Seq<Record>, nir: Seq<Record>) -> Seq<CorrelatedPair> {
    Seq::new(sorted_ts(rgb).len(), |i: int| forward_pair(rgb, nir, i))
}

/// The pair the backward pass emits for position `i` of the sorted NIR view.
pub open spec fn backward_pair(rgb: Seq<Record>, nir: Seq<Record>, i: int) -> CorrelatedPair {
    let rs = sorted_ts(rgb);
    let ns = sorted_ts(nir);
    let j = nearest_pos(rs, ns[i].0);
    CorrelatedPair { rgb: rs[j].1, nir: ns[i].1, delta_ms: delta(rs[j].0, ns[i].0) as u64 }
}

/// The backward pass: every NIR record, in sorted order, with its nearest RGB
/// record.
pub open spec fn backward_pairs(rgb: Seq<Record>, nir: Seq<Record>) -> Seq<CorrelatedPair> {
    Seq::new(sorted_ts(nir).len(), |i: int| backward_pair(rgb, nir, i))
}

/// Whether `s` holds a pair of the records at RGB position `r` and NIR
/// position `n`.
pub open spec fn has_pair_key(s: Seq<CorrelatedPair>, r: usize, n: usize) -> bool {
    exists|k: int| 0 <= k < s.len() && (#[trigger] s[k]).rgb == r && s[k].nir == n
}

/// `s` with every pair removed whose records were already paired earlier in
/// `s`: the first occurrence of each `(rgb, nir)` key stays.
pub open spec fn dedup_pairs(s: Seq<CorrelatedPair>) -> Seq<CorrelatedPair>
    decreases s.len(),
{
    if s.len() == 0 {
        s
    } else {
        let pre = dedup_pairs(s.drop_last());
        if has_pair_key(pre, s.last().rgb, s.last().nir) {
            pre
        } else {
            pre.push(s.last())
        }
    }
}

/// The candidate pair set of the two catalogs: the union of the two passes,
/// exact duplicates removed. Empty when either catalog is empty: a record
/// with no opposite stream has no candidate partner.
pub open spec fn candidate_pairs(rgb: Seq<Record>, nir: Seq<Record>) -> Seq<CorrelatedPair> {
    if rgb.len() == 0 || nir.len() == 0 {
        Seq::empty()
    } else {
        dedup_pairs(forward_pairs(rgb, nir) + backward_pairs(rgb, nir))
    }
}

/// Every pair of `dedup_pairs(s)` is a pair of `s`.
pub proof fn lemma_dedup_contains(s: Seq<CorrelatedPair>, x: CorrelatedPair)
    requires
        dedup_pairs(s).contains(x),
    ensures
        s.contains(x),
    decreases s.len(),
{
    if s.len() > 0 {
        let pre = dedup_pairs(s.drop_last());
        if dedup_pairs(s) == pre.push(s.last()) && x == s.last() {
            assert(s[s.len() - 1] == x);
        } else {
            assert(pre.contains(x));
            lemma_dedup_contains(s.drop_last(), x);
            let k = choose|k: int| 0 <= k < s.drop_last().len() && s.drop_last()[k] == x;
            assert(s[k] == x);
        }
    }
}

/// Removing duplicates keeps every `(rgb, nir)` key.
pub proof fn lemma_dedup_keeps_keys(s: Seq<CorrelatedPair>, r: usize, n: usize)
    ensures
        has_pair_key(dedup_pairs(s), r, n) <==> has_pair_key(s, r, n),
    decreases s.len(),
{
    if s.len() == 0 {
    } else {
        let d = s.drop_last();
        lemma_dedup_keeps_keys(d, r, n);
        let pre = dedup_pairs(d);
        if has_pair_key(s, r, n) {
            let k = choose|k: int|
                0 <= k < s.len() && (#[trigger] s[k]).rgb == r && s[k].nir == n;
            if k < s.len() - 1 {
                assert(d[k] == s[k]);
                assert(has_pair_key(d, r, n));
                let k2 = choose|k2: int|
                    0 <= k2 < pre.len() && (#[trigger] pre[k2]).rgb == r && pre[k2].nir == n;
                if !has_pair_key(pre, s.last().rgb, s.last().nir) {
                    assert(dedup_pairs(s)[k2] == pre[k2]);
                }
                assert(has_pair_key(dedup_pairs(s), r, n));
            } else {
                assert(s[k] == s.last());
                if has_pair_key(pre, s.last().rgb, s.last().nir) {
                    assert(has_pair_key(dedup_pairs(s), r, n));
                } else {
                    let m = dedup_pairs(s).len() - 1;
                    assert(dedup_pairs(s)[m] == s.last());
                    assert(has_pair_key(dedup_pairs(s), r, n));
                }
            }
        }
        if has_pair_key(dedup_pairs(s), r, n) {
            let k = choose|k: int|
                0 <= k < dedup_pairs(s).len() && (#[trigger] dedup_pairs(s)[k]).rgb == r
                    && dedup_pairs(s)[k].nir == n;
            assert(dedup_pairs(s).contains(dedup_pairs(s)[k]));
            lemma_dedup_contains(s, dedup_pairs(s)[k]);
            let m = choose|m: int| 0 <= m < s.len() && s[m] == dedup_pairs(s)[k];
            assert(has_pair_key(s, r, n));
        }
    }
}

/// Every candidate pair names positions inside the catalogs and carries the
/// absolute difference of the instants at those positions.
pub open spec fn pair_wf(rgb: Seq<Record>, nir: Seq<Record>, p: CorrelatedPair) -> bool {
    &&& p.rgb < rgb.len()
    &&& p.nir < nir.len()
    &&& p.delta_ms == delta(rgb[p.rgb as int].captured_at, nir[p.nir as int].captured_at)
}

/// The pairs of both passes are well-formed.
proof fn lemma_passes_wf(rgb: Seq<Record>, nir: Seq<Record>)
    requires
        rgb.len() <= usize::MAX,
        nir.len() <= usize::MAX,
        rgb.len() > 0,
        nir.len() > 0,
    ensures
        forall|k: int|
            0 <= k < forward_pairs(rgb, nir).len() ==> pair_wf(
                rgb,
                nir,
                #[trigger] forward_pairs(rgb, nir)[k],
            ),
        forall|k: int|
            0 <= k < backward_pairs(rgb, nir).len() ==> pair_wf(
                rgb,
                nir,
                #[trigger] backward_pairs(rgb, nir)[k],
            ),
{
    let rs = sorted_ts(rgb);
    let ns = sorted_ts(nir);
    lemma_sorted_ts_elems(rgb);
    lemma_sorted_ts_elems(nir);
    assert forall|k: int| 0 <= k < forward_pairs(rgb, nir).len() implies pair_wf(
        rgb,
        nir,
        #[trigger] forward_pairs(rgb, nir)[k],
    ) by {
        lemma_nearest_pos(ns, rs[k].0);
    }
    assert forall|k: int| 0 <= k < backward_pairs(rgb, nir).len() implies pair_wf(
        rgb,
        nir,
        #[trigger] backward_pairs(rgb, nir)[k],
    ) by {
        lemma_nearest_pos(rs, ns[k].0);
    }
}

/// Every candidate pair is well-formed: it names positions inside the
/// catalogs and carries the absolute difference of their instants. So a
/// pair's difference is a function of its key alone.
pub proof fn lemma_candidates_wf(rgb: Seq<Record>, nir: Seq<Record>)
    requires
        rgb.len() <= usize::MAX,
        nir.len() <= usize::MAX,
    ensures
        forall|k: int|
            0 <= k < candidate_pairs(rgb, nir).len() ==> pair_wf(
                rgb,
                nir,
                #[trigger] candidate_pairs(rgb, nir)[k],
            ),
{
    if rgb.len() > 0 && nir.len() > 0 {
        lemma_passes_wf(rgb, nir);
        let all = forward_pairs(rgb, nir) + backward_pairs(rgb, nir);
        let cands = candidate_pairs(rgb, nir);
        assert forall|k: int| 0 <= k < cands.len() implies pair_wf(
            rgb,
            nir,
            #[trigger] cands[k],
        ) by {
            assert(cands.contains(cands[k]));
            lemma_dedup_contains(all, cands[k]);
            let m = choose|m: int| 0 <= m < all.len() && all[m] == cands[k];
            if m < forward_pairs(rgb, nir).len() {
                assert(all[m] == forward_pairs(rgb, nir)[m]);
            } else {
                assert(all[m] == backward_pairs(rgb, nir)[m - forward_pairs(
                    rgb,
                    nir,
                ).len()]);
            }
        }
    }
}

/// When neither catalog is empty, the RGB record at position `m` is the RGB
/// side of some candidate pair.
pub proof fn lemma_candidates_cover_rgb(rgb: Seq<Record>, nir: Seq<Record>, m: int)
    requires
        rgb.len() <= usize::MAX,
        nir.len() <= usize::MAX,
        0 <= m < rgb.len(),
        nir.len() > 0,
    ensures
        exists|n: usize| #[trigger] has_pair_key(candidate_pairs(rgb, nir), m as usize, n),
{
    let rs = sorted_ts(rgb);
    let fwd = forward_pairs(rgb, nir);
    let bwd = backward_pairs(rgb, nir);
    let all = fwd + bwd;
    lemma_sorted_ts_elems(rgb);
    lemma_sorted_ts_elems(nir);
    lemma_sorted_ts_covers(rgb, m);
    let i = choose|i: int|
        0 <= i < rs.len() && #[trigger] rs[i] == (rgb[m].captured_at, m as usize);
    let p = forward_pair(rgb, nir, i);
    assert(all[i] == fwd[i]);
    assert(p.rgb == m as usize);
    assert(has_pair_key(all, m as usize, p.nir));
    lemma_dedup_keeps_keys(all, m as usize, p.nir);
    assert(has_pair_key(candidate_pairs(rgb, nir), m as usize, p.nir));
}

/// When neither catalog is empty, the NIR record at position `m` is the NIR
/// side of some candidate pair.
pub proof fn lemma_candidates_cover_nir(rgb: Seq<Record>, nir: Seq<Record>, m: int)
    requires
        rgb.len() <= usize::MAX,
        nir.len() <= usize::MAX,
        0 <= m < nir.len(),
        rgb.len() > 0,
    ensures
        exists|r: usize| #[trigger] has_pair_key(candidate_pairs(rgb, nir), r, m as usize),
{
    let ns = sorted_ts(nir);
    let fwd = forward_pairs(rgb, nir);
    let bwd = backward_pairs(rgb, nir);
    let all = fwd + bwd;
    lemma_sorted_ts_elems(rgb);
    lemma_sorted_ts_elems(nir);
    lemma_sorted_ts_covers(nir, m);
    let i = choose|i: int|
        0 <= i < ns.len() && #[trigger] ns[i] == (nir[m].captured_at, m as usize);
    let p = backward_pair(rgb, nir, i);
    assert(all[fwd.len() + i] == bwd[i]);
    assert(p.nir == m as usize);
    assert(has_pair_key(all, p.rgb, m as usize));
    lemma_dedup_keeps_keys(all, p.rgb, m as usize);
    assert(has_pair_key(candidate_pairs(rgb, nir), p.rgb, m as usize));
}

/// The candidate partner of the RGB record at position `m` is at least as
/// near to it as any given NIR record: the forward pass pairs `m` with a
/// nearest NIR record, and deduplication keeps the key.
pub proof fn lemma_near_partner_rgb(rgb: Seq<Record>, nir: Seq<Record>, m: int, j: int)
    requires
        rgb.len() <= usize::MAX,
        nir.len() <= usize::MAX,
        0 <= m < rgb.len(),
        0 <= j < nir.len(),
    ensures
        exists|n: usize|
            #[trigger] has_pair_key(candidate_pairs(rgb, nir), m as usize, n) && n < nir.len()
                && delta(rgb[m].captured_at, nir[n as int].captured_at) <= delta(
                rgb[m].captured_at,
                nir[j].captured_at,
            ),
{
    let rs = sorted_ts(rgb);
    let ns = sorted_ts(nir);
    let fwd = forward_pairs(rgb, nir);
    let bwd = backward_pairs(rgb, nir);
    let all = fwd + bwd;
    lemma_sorted_ts_elems(rgb);
    lemma_sorted_ts_elems(nir);
    lemma_sorted_ts_covers(rgb, m);
    let i = choose|i: int|
        0 <= i < rs.len() && #[trigger] rs[i] == (rgb[m].captured_at, m as usize);
    let t = rs[i].0;
    lemma_nearest_pos(ns, t);
    let np = nearest_pos(ns, t);
    let p = forward_pair(rgb, nir, i);
    assert(all[i] == fwd[i]);
    assert(p.rgb == m as usize);
    assert(has_pair_key(all, m as usize, p.nir));
    lemma_dedup_keeps_keys(all, m as usize, p.nir);
    lemma_sorted_ts_covers(nir, j);
    let pj = choose|pj: int|
        0 <= pj < ns.len() && #[trigger] ns[pj] == (nir[j].captured_at, j as usize);
    assert(delta(ns[np].0, t) <= delta(ns[pj].0, t));
    assert(ns[np].0 == nir[p.nir as int].captured_at);
    assert(has_pair_key(candidate_pairs(rgb, nir), m as usize, p.nir) && p.nir < nir.len()
        && delta(rgb[m].captured_at, nir[p.nir as int].captured_at) <= delta(
        rgb[m].captured_at,
        nir[j].captured_at,
    ));
}

/// The candidate partner of the NIR record at position `m` is at least as
/// near to it as any given RGB record.
pub proof fn lemma_near_partner_nir(rgb: Seq<Record>, nir: Seq<Record>, m: int, j: int)
    requires
        rgb.len() <= usize::MAX,
        nir.len() <= usize::MAX,
        0 <= m < nir.len(),
        0 <= j < rgb.len(),
    ensures
        exists|r: usize|
            #[trigger] has_pair_key(candidate_pairs(rgb, nir), r, m as usize) && r < rgb.len()
                && delta(nir[m].captured_at, rgb[r as int].captured_at) <= delta(
                nir[m].captured_at,
                rgb[j].captured_at,
            ),
{
    let rs = sorted_ts(rgb);
    let ns = sorted_ts(nir);
    let fwd = forward_pairs(rgb, nir);
    let bwd = backward_pairs(rgb, nir);
    let all = fwd + bwd;
    lemma_sorted_ts_elems(rgb);
    lemma_sorted_ts_elems(nir);
    lemma_sorted_ts_covers(nir, m);
    let i = choose|i: int|
        0 <= i < ns.len() && #[trigger] ns[i] == (nir[m].captured_at, m as usize);
    let t = ns[i].0;
    lemma_nearest_pos(rs, t);
    let np = nearest_pos(rs, t);
    let p = backward_pair(rgb, nir, i);
    assert(all[fwd.len() + i] == bwd[i]);
    assert(p.nir == m as usize);
    assert(has_pair_key(all, p.rgb, m as usize));
    lemma_dedup_keeps_keys(all, p.rgb, m as usize);
    lemma_sorted_ts_covers(rgb, j);
    let pj = choose|pj: int|
        0 <= pj < rs.len() && #[trigger] rs[pj] == (rgb[j].captured_at, j as usize);
    assert(delta(rs[np].0, t) <= delta(rs[pj].0, t));
    assert(rs[np].0 == rgb[p.rgb as int].captured_at);
    assert(has_pair_key(candidate_pairs(rgb, nir), p.rgb, m as usize) && p.rgb < rgb.len()
        && delta(nir[m].captured_at, rgb[p.rgb as int].captured_at) <= delta(
        nir[m].captured_at,
        rgb[j].captured_at,
    ));
}

/// The correlator is deterministic: two candidate pair sets of the same
/// catalogs are the same sequence. Together with the contract of
/// `correlate`, whose result is exactly `candidate_pairs` of its inputs,
/// repeated runs on identical inputs yield identical candidate sets.
pub proof fn lemma_correlate_deterministic(
    rgb: Seq<Record>,
    nir: Seq<Record>,
    c1: Seq<CorrelatedPair>,
    c2: Seq<CorrelatedPair>,
)
    requires
        c1 == candidate_pairs(rgb, nir),
        c2 == candidate_pairs(rgb, nir),
    ensures
        c1 == c2,
{
}

/// Whether `v` holds a pair of RGB position `r` and NIR position `n`.
fn holds_pair_key(v: &Vec<CorrelatedPair>, r: usize, n: usize) -> (b: bool)
    ensures
        b == has_pair_key(v@, r, n),
{
    let mut k: usize = 0;
    while k < v.len()
        invariant
            k <= v@.len(),
            forall|m: int| 0 <= m < k ==> !((#[trigger] v@[m]).rgb == r && v@[m].nir == n),
        decreases v@.len() - k,
    {
        if v[k].rgb == r && v[k].nir == n {
            return true;
        }
        k = k + 1;
    }
    false
}

/// The absolute difference of two instants.
fn abs_delta(a: u64, b: u64) -> (d: u64)
    ensures
        d == delta(a, b),
{
    if a >= b {
        a - b
    } else {
        b - a
    }
}

/// Computes the candidate pair set of the two catalogs: for every record of
/// either stream its nearest partner in the other stream (two binary searches
/// over the sorted views per record), both passes unioned and exact
/// duplicates removed.
pub fn correlate(rgb: &Vec<Record>, nir: &Vec<Record>) -> (pairs: Vec<CorrelatedPair>)
    ensures
        pairs@ == candidate_pairs(rgb@, nir@),
{
    if rgb.len() == 0 || nir.len() == 0 {
        let pairs: Vec<CorrelatedPair> = Vec::new();
        proof {
            assert(pairs@ =~= candidate_pairs(rgb@, nir@));
        }
        return pairs;
    }
    let rs = sorted_view(rgb);
    let ns = sorted_view(nir);
    proof {
        lemma_sorted_ts_elems(rgb@);
        lemma_sorted_ts_elems(nir@);
    }
    let ghost fwd = forward_pairs(rgb@, nir@);
    let ghost bwd = backward_pairs(rgb@, nir@);
    let mut all: Vec<CorrelatedPair> = Vec::new();
    let mut i: usize = 0;
    while i < rs.len()
        invariant
            i <= rs@.len(),
            rs@ == sorted_ts(rgb@),
            ns@ == sorted_ts(nir@),
            ns@.len() > 0,
            fwd == forward_pairs(rgb@, nir@),
            all@ == fwd.take(i as int),
        decreases rs@.len() - i,
    {
        proof {
            lemma_sorted_ts_sorted(nir@);
        }
        let j = nearest_in(&ns, rs[i].0);
        proof {
            lemma_nearest_pos(ns@, rs@[i as int].0);
        }
        let d = abs_delta(ns[j].0, rs[i].0);
        all.push(CorrelatedPair { rgb: rs[i].1, nir: ns[j].1, delta_ms: d });
        proof {
            assert(all@.last() == forward_pair(rgb@, nir@, i as int));
            assert(fwd.take(i as int + 1) =~= fwd.take(i as int).push(fwd[i as int]));
        }
        i = i + 1;
    }
    proof {
        assert(fwd.take(rs@.len() as int) =~= fwd);
    }
    let mut i2: usize = 0;
    while i2 < ns.len()
        invariant
            i2 <= ns@.len(),
            rs@ == sorted_ts(rgb@),
            ns@ == sorted_ts(nir@),
            rs@.len() > 0,
            fwd == forward_pairs(rgb@, nir@),
            bwd == backward_pairs(rgb@, nir@),
            all@ == fwd + bwd.take(i2 as int),
        decreases ns@.len() - i2,
    {
        proof {
            lemma_sorted_ts_sorted(rgb@);
        }
        let j = nearest_in(&rs, ns[i2].0);
        proof {
            lemma_nearest_pos(rs@, ns@[i2 as int].0);
        }
        let d = abs_delta(rs[j].0, ns[i2].0);
        all.push(CorrelatedPair { rgb: rs[j].1, nir: ns[i2].1, delta_ms: d });
        proof {
            assert(all@.last() == backward_pair(rgb@, nir@, i2 as int));
            assert(bwd.take(i2 as int + 1) =~= bwd.take(i2 as int).push(bwd[i2 as int]));
            assert(all@ =~= fwd + bwd.take(i2 as int + 1));
        }
        i2 = i2 + 1;
    }
    proof {
        assert(bwd.take(ns@.len() as int) =~= bwd);
        assert(all@ == fwd + bwd);
    }
    let mut out: Vec<CorrelatedPair> = Vec::new();
    let mut k: usize = 0;
    while k < all.len()
        invariant
            k <= all@.len(),
            out@ == dedup_pairs(all@.take(k as int)),
        decreases all@.len() - k,
    {
        let p = all[k];
        let dup = holds_pair_key(&out, p.rgb, p.nir);
        proof {
            assert(all@.take(k as int + 1).drop_last() =~= all@.take(k as int));
            assert(all@.take(k as int + 1).last() == p);
        }
        if !dup {
            out.push(p);
        }
        k = k + 1;
    }
    proof {
        assert(all@.take(all@.len() as int) =~= all@);
        assert(out@ == candidate_pairs(rgb@, nir@));
    }
    out
}

} // verus!
