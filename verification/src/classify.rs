//! Threshold classification and the report of a whole run.
//!
//! The candidate pairs of the correlator are split by a tolerance: a pair
//! whose instants differ by at most the threshold is matched. A record whose
//! path never sits on its stream's side of a matched pair is unmatched.
//! Zero-byte records are set aside before correlation unless the caller asks
//! to keep them. Every step is a function of the inputs alone, so a whole run
//! is too.

use vstd::prelude::*;

use crate::catalog::Record;
use crate::catalog::paths_distinct;
use crate::correlate::CorrelatedPair;
use crate::correlate::candidate_pairs;
use crate::correlate::correlate;
use crate::correlate::has_pair_key;
use crate::correlate::lemma_candidates_wf;
use crate::correlate::lemma_near_partner_nir;
use crate::correlate::lemma_near_partner_rgb;
use crate::correlate::pair_wf;
use crate::files::lemma_filter_all;
use crate::files::lemma_filter_no_dup;
use crate::files::lemma_filter_none;
use crate::files::lemma_filter_push;
use crate::order::delta;

verus! {

/// Whether a record has a positive size.
pub open spec fn positive_size() -> spec_fn(Record) -> bool {
    |r: Record| r.size_bytes > 0
}

/// Whether a record is degenerate: zero bytes long.
pub open spec fn zero_size() -> spec_fn(Record) -> bool {
    |r: Record| r.size_bytes == 0
}

/// The path of a record.
pub open spec fn record_path() -> spec_fn(Record) -> Seq<char> {
    |r: Record| r.path@
}

/// The records of `cat` that take part in correlation: all of them when
/// `keep_empty` is set, otherwise those with a positive size.
pub open spec fn kept_records(cat: Seq<Record>, keep_empty: bool) -> Seq<Record> {
    if keep_empty {
        cat
    } else {
        cat.filter(positive_size())
    }
}

/// The paths set aside as degenerate: none when `keep_empty` is set,
/// otherwise the paths of the zero-byte records, in catalog order.
pub open spec fn empty_paths(cat: Seq<Record>, keep_empty: bool) -> Seq<Seq<char>> {
    if keep_empty {
        Seq::empty()
    } else {
        cat.filter(zero_size()).map_values(record_path())
    }
}

/// Whether a pair's instants differ by at most `thr` milliseconds.
pub open spec fn within(thr: u64) -> spec_fn(CorrelatedPair) -> bool {
    |p: CorrelatedPair| p.delta_ms <= thr
}

/// The candidate pairs classified as matched: difference at most `thr`,
/// inclusively.
pub open spec fn matched_pairs(cands: Seq<CorrelatedPair>, thr: u64) -> Seq<CorrelatedPair> {
    cands.filter(within(thr))
}

/// Whether the kept RGB record at position `i` sits on the RGB side of some
/// matched candidate pair.
pub open spec fn rgb_matched(cands: Seq<CorrelatedPair>, thr: u64, i: usize) -> bool {
    exists|k: int|
        0 <= k < cands.len() && (#[trigger] cands[k]).rgb == i && cands[k].delta_ms <= thr
}

/// Whether the kept NIR record at position `i` sits on the NIR side of some
/// matched candidate pair.
pub open spec fn nir_matched(cands: Seq<CorrelatedPair>, thr: u64, i: usize) -> bool {
    exists|k: int|
        0 <= k < cands.len() && (#[trigger] cands[k]).nir == i && cands[k].delta_ms <= thr
}

/// The sequence `0, 1, .., n - 1`.
pub open spec fn index_seq(n: int) -> Seq<int> {
    Seq::new(n as nat, |i: int| i)
}

/// Whether the kept RGB record at a position is unmatched.
pub open spec fn rgb_unmatched_at(cands: Seq<CorrelatedPair>, thr: u64) -> spec_fn(int) -> bool {
    |i: int| !rgb_matched(cands, thr, i as usize)
}

/// Whether the kept NIR record at a position is unmatched.
pub open spec fn nir_unmatched_at(cands: Seq<CorrelatedPair>, thr: u64) -> spec_fn(int) -> bool {
    |i: int| !nir_matched(cands, thr, i as usize)
}

/// The path of the record of `cat` at a position.
pub open spec fn path_at(cat: Seq<Record>) -> spec_fn(int) -> Seq<char> {
    |i: int| cat[i].path@
}

/// The RGB path of a pair, read in the kept RGB catalog.
pub open spec fn rgb_path_of(rk: Seq<Record>) -> spec_fn(CorrelatedPair) -> Seq<char> {
    |p: CorrelatedPair| rk[p.rgb as int].path@
}

/// The NIR path of a pair, read in the kept NIR catalog.
pub open spec fn nir_path_of(nk: Seq<Record>) -> spec_fn(CorrelatedPair) -> Seq<char> {
    |p: CorrelatedPair| nk[p.nir as int].path@
}

/// The matched RGB paths of a run, one per matched pair, in pair order.
pub open spec fn spec_matched_rgb(rgb: Seq<Record>, nir: Seq<Record>, thr: u64, keep: bool) -> Seq<
    Seq<char>,
> {
    let rk = kept_records(rgb, keep);
    let nk = kept_records(nir, keep);
    matched_pairs(candidate_pairs(rk, nk), thr).map_values(rgb_path_of(rk))
}

/// The matched NIR paths of a run, one per matched pair, in pair order.
pub open spec fn spec_matched_nir(rgb: Seq<Record>, nir: Seq<Record>, thr: u64, keep: bool) -> Seq<
    Seq<char>,
> {
    let rk = kept_records(rgb, keep);
    let nk = kept_records(nir, keep);
    matched_pairs(candidate_pairs(rk, nk), thr).map_values(nir_path_of(nk))
}

/// The unmatched RGB paths of a run: the paths of the kept RGB records on no
/// matched pair, in catalog order.
pub open spec fn spec_unmatched_rgb(
    rgb: Seq<Record>,
    nir: Seq<Record>,
    thr: u64,
    keep: bool,
) -> Seq<Seq<char>> {
    let rk = kept_records(rgb, keep);
    let nk = kept_records(nir, keep);
    let cands = candidate_pairs(rk, nk);
    index_seq(rk.len() as int).filter(rgb_unmatched_at(cands, thr)).map_values(path_at(rk))
}

/// The unmatched NIR paths of a run: the paths of the kept NIR records on no
/// matched pair, in catalog order.
pub open spec fn spec_unmatched_nir(
    rgb: Seq<Record>,
    nir: Seq<Record>,
    thr: u64,
    keep: bool,
) -> Seq<Seq<char>> {
    let rk = kept_records(rgb, keep);
    let nk = kept_records(nir, keep);
    let cands = candidate_pairs(rk, nk);
    index_seq(nk.len() as int).filter(nir_unmatched_at(cands, thr)).map_values(path_at(nk))
}

/// The classification of a whole run: the matched path lists (parallel, one
/// entry per matched pair), the unmatched path lists, the degenerate path
/// lists, and the scalar counts.
#[derive(Debug)]
pub struct Report {
    pub matched_rgb: Vec<String>,
    pub matched_nir: Vec<String>,
    pub unmatched_rgb: Vec<String>,
    pub unmatched_nir: Vec<String>,
    pub empty_rgb: Vec<String>,
    pub empty_nir: Vec<String>,
    pub rgb_total: usize,
    pub nir_total: usize,
    pub matched_count: usize,
    pub empty_rgb_count: usize,
    pub empty_nir_count: usize,
}

/// Splits one stream's catalog for correlation: the kept records, and the
/// paths of the records set aside as degenerate.
fn split_stream(cat: Vec<Record>, keep_empty: bool) -> (r: (Vec<Record>, Vec<String>))
    ensures
        r.0@ == kept_records(cat@, keep_empty),
        r.1@.map_values(|s: String| s@) == empty_paths(cat@, keep_empty),
{
    let ghost cat0 = cat@;
    let mut rest = cat;
    let total = rest.len();
    proof {
        assert(cat0.len() == total);
    }
    let mut stack: Vec<Record> = Vec::new();
    while rest.len() > 0
        invariant
            cat0.len() <= usize::MAX,
            rest@.len() + stack@.len() == cat0.len(),
            rest@ == cat0.take(rest@.len() as int),
            forall|k: int| 0 <= k < stack@.len() ==> #[trigger] stack@[k] == cat0[cat0.len() - 1
                - k],
        decreases rest@.len(),
    {
        let ghost m = rest@.len() as int;
        match rest.pop() {
            Some(rec) => {
                proof {
                    assert(rec == cat0.take(m)[m - 1]);
                    assert(rest@ =~= cat0.take(m - 1));
                }
                stack.push(rec);
            },
            None => {
                proof {
                    assert(false);
                }
            },
        }
    }
    let mut kept: Vec<Record> = Vec::new();
    let mut emp: Vec<String> = Vec::new();
    let mut j: usize = 0;
    while stack.len() > 0
        invariant
            cat0.len() <= usize::MAX,
            j + stack@.len() == cat0.len(),
            forall|k: int| 0 <= k < stack@.len() ==> #[trigger] stack@[k] == cat0[cat0.len() - 1
                - k],
            kept@ == kept_records(cat0.take(j as int), keep_empty),
            emp@.map_values(|s: String| s@) == empty_paths(cat0.take(j as int), keep_empty),
        decreases stack@.len(),
    {
        let ghost pre = cat0.take(j as int);
        proof {
            assert(cat0.take(j as int + 1) =~= pre.push(cat0[j as int]));
            lemma_filter_push(pre, cat0[j as int], positive_size());
            lemma_filter_push(pre, cat0[j as int], zero_size());
        }
        match stack.pop() {
            Some(rec) => {
                proof {
                    assert(rec == cat0[j as int]);
                }
                if keep_empty {
                    kept.push(rec);
                } else if rec.size_bytes > 0 {
                    kept.push(rec);
                    proof {
                        assert(kept@ =~= kept_records(cat0.take(j as int + 1), keep_empty));
                    }
                } else {
                    emp.push(rec.path);
                    proof {
                        assert(emp@.map_values(|s: String| s@) =~= pre.filter(
                            zero_size(),
                        ).map_values(record_path()).push(cat0[j as int].path@));
                        assert(empty_paths(cat0.take(j as int + 1), keep_empty) =~= pre.filter(
                            zero_size(),
                        ).map_values(record_path()).push(cat0[j as int].path@));
                    }
                }
            },
            None => {
                proof {
                    assert(false);
                }
            },
        }
        j = j + 1;
    }
    proof {
        assert(cat0.take(cat0.len() as int) =~= cat0);
    }
    (kept, emp)
}

/// The candidate pairs within the threshold, in candidate order.
fn keep_within(cands: &Vec<CorrelatedPair>, thr: u64) -> (r: Vec<CorrelatedPair>)
    ensures
        r@ == matched_pairs(cands@, thr),
{
    let mut out: Vec<CorrelatedPair> = Vec::new();
    let mut k: usize = 0;
    while k < cands.len()
        invariant
            k <= cands@.len(),
            out@ == cands@.take(k as int).filter(within(thr)),
        decreases cands@.len() - k,
    {
        proof {
            assert(cands@.take(k as int + 1) =~= cands@.take(k as int).push(cands@[k as int]));
            lemma_filter_push(cands@.take(k as int), cands@[k as int], within(thr));
        }
        if cands[k].delta_ms <= thr {
            out.push(cands[k]);
        }
        k = k + 1;
    }
    proof {
        assert(cands@.take(cands@.len() as int) =~= cands@);
    }
    out
}

/// Whether some pair of `mat` has `i` on its RGB side.
fn scan_rgb(mat: &Vec<CorrelatedPair>, i: usize) -> (b: bool)
    ensures
        b == exists|k: int| 0 <= k < mat@.len() && (#[trigger] mat@[k]).rgb == i,
{
    let mut k: usize = 0;
    while k < mat.len()
        invariant
            k <= mat@.len(),
            forall|m: int| 0 <= m < k ==> (#[trigger] mat@[m]).rgb != i,
        decreases mat@.len() - k,
    {
        if mat[k].rgb == i {
            return true;
        }
        k = k + 1;
    }
    false
}

/// Whether some pair of `mat` has `i` on its NIR side.
fn scan_nir(mat: &Vec<CorrelatedPair>, i: usize) -> (b: bool)
    ensures
        b == exists|k: int| 0 <= k < mat@.len() && (#[trigger] mat@[k]).nir == i,
{
    let mut k: usize = 0;
    while k < mat.len()
        invariant
            k <= mat@.len(),
            forall|m: int| 0 <= m < k ==> (#[trigger] mat@[m]).nir != i,
        decreases mat@.len() - k,
    {
        if mat[k].nir == i {
            return true;
        }
        k = k + 1;
    }
    false
}

/// A pair of `matched_pairs(cands, thr)` with `i` on its RGB side exists
/// exactly when a matched candidate with `i` on its RGB side does.
proof fn lemma_rgb_scan(cands: Seq<CorrelatedPair>, thr: u64, i: usize)
    ensures
        (exists|k: int|
            0 <= k < matched_pairs(cands, thr).len() && (#[trigger] matched_pairs(cands, thr)[k]).rgb
                == i) <==> rgb_matched(cands, thr, i),
{
    broadcast use vstd::seq_lib::group_filter_ensures;

    let mat = matched_pairs(cands, thr);
    if exists|k: int| 0 <= k < mat.len() && (#[trigger] mat[k]).rgb == i {
        let k = choose|k: int| 0 <= k < mat.len() && (#[trigger] mat[k]).rgb == i;
        assert(within(thr)(mat[k]));
        cands.lemma_filter_contains_rev(within(thr), mat[k]);
        assert(cands.contains(mat[k]));
        let m = choose|m: int| 0 <= m < cands.len() && cands[m] == mat[k];
        assert(rgb_matched(cands, thr, i));
    }
    if rgb_matched(cands, thr, i) {
        let m = choose|m: int|
            0 <= m < cands.len() && (#[trigger] cands[m]).rgb == i && cands[m].delta_ms <= thr;
        assert(within(thr)(cands[m]));
        assert(mat.contains(cands[m]));
        let k = choose|k: int| 0 <= k < mat.len() && mat[k] == cands[m];
    }
}

/// A pair of `matched_pairs(cands, thr)` with `i` on its NIR side exists
/// exactly when a matched candidate with `i` on its NIR side does.
proof fn lemma_nir_scan(cands: Seq<CorrelatedPair>, thr: u64, i: usize)
    ensures
        (exists|k: int|
            0 <= k < matched_pairs(cands, thr).len() && (#[trigger] matched_pairs(cands, thr)[k]).nir
                == i) <==> nir_matched(cands, thr, i),
{
    broadcast use vstd::seq_lib::group_filter_ensures;

    let mat = matched_pairs(cands, thr);
    if exists|k: int| 0 <= k < mat.len() && (#[trigger] mat[k]).nir == i {
        let k = choose|k: int| 0 <= k < mat.len() && (#[trigger] mat[k]).nir == i;
        assert(within(thr)(mat[k]));
        cands.lemma_filter_contains_rev(within(thr), mat[k]);
        assert(cands.contains(mat[k]));
        let m = choose|m: int| 0 <= m < cands.len() && cands[m] == mat[k];
        assert(nir_matched(cands, thr, i));
    }
    if nir_matched(cands, thr, i) {
        let m = choose|m: int|
            0 <= m < cands.len() && (#[trigger] cands[m]).nir == i && cands[m].delta_ms <= thr;
        assert(within(thr)(cands[m]));
        assert(mat.contains(cands[m]));
        let k = choose|k: int| 0 <= k < mat.len() && mat[k] == cands[m];
    }
}

/// Every matched pair is a well-formed candidate pair.
proof fn lemma_matched_wf(rk: Seq<Record>, nk: Seq<Record>, thr: u64)
    requires
        rk.len() <= usize::MAX,
        nk.len() <= usize::MAX,
    ensures
        forall|k: int|
            0 <= k < matched_pairs(candidate_pairs(rk, nk), thr).len() ==> pair_wf(
                rk,
                nk,
                #[trigger] matched_pairs(candidate_pairs(rk, nk), thr)[k],
            ),
{
    broadcast use vstd::seq_lib::group_filter_ensures;

    lemma_candidates_wf(rk, nk);
    let cands = candidate_pairs(rk, nk);
    let mat = matched_pairs(cands, thr);
    assert forall|k: int| 0 <= k < mat.len() implies pair_wf(rk, nk, #[trigger] mat[k]) by {
        cands.lemma_filter_contains_rev(within(thr), mat[k]);
        let m = choose|m: int| 0 <= m < cands.len() && cands[m] == mat[k];
    }
}

/// Classifies the two streams: splits off the degenerate records, correlates
/// the kept ones, and partitions them into matched and unmatched by the
/// threshold (inclusive, in milliseconds). Pure: the report is a function of
/// the inputs alone.
pub fn classify_streams(
    rgb: Vec<Record>,
    nir: Vec<Record>,
    threshold_ms: u64,
    keep_empty: bool,
) -> (r: Report)
    ensures
        r.rgb_total == rgb@.len(),
        r.nir_total == nir@.len(),
        r.matched_rgb@.map_values(|s: String| s@) == spec_matched_rgb(
            rgb@,
            nir@,
            threshold_ms,
            keep_empty,
        ),
        r.matched_nir@.map_values(|s: String| s@) == spec_matched_nir(
            rgb@,
            nir@,
            threshold_ms,
            keep_empty,
        ),
        r.unmatched_rgb@.map_values(|s: String| s@) == spec_unmatched_rgb(
            rgb@,
            nir@,
            threshold_ms,
            keep_empty,
        ),
        r.unmatched_nir@.map_values(|s: String| s@) == spec_unmatched_nir(
            rgb@,
            nir@,
            threshold_ms,
            keep_empty,
        ),
        r.empty_rgb@.map_values(|s: String| s@) == empty_paths(rgb@, keep_empty),
        r.empty_nir@.map_values(|s: String| s@) == empty_paths(nir@, keep_empty),
        r.matched_count == r.matched_rgb@.len(),
        r.matched_rgb@.len() == r.matched_nir@.len(),
        r.empty_rgb_count == r.empty_rgb@.len(),
        r.empty_nir_count == r.empty_nir@.len(),
{
    let rgb_total = rgb.len();
    let nir_total = nir.len();
    let (rk, empty_rgb) = split_stream(rgb, keep_empty);
    let (nk, empty_nir) = split_stream(nir, keep_empty);
    let cands = correlate(&rk, &nk);
    let mat = keep_within(&cands, threshold_ms);
    proof {
        lemma_matched_wf(rk@, nk@, threshold_ms);
    }
    let mut matched_rgb: Vec<String> = Vec::new();
    let mut matched_nir: Vec<String> = Vec::new();
    let mut k: usize = 0;
    while k < mat.len()
        invariant
            k <= mat@.len(),
            mat@ == matched_pairs(candidate_pairs(rk@, nk@), threshold_ms),
            forall|m: int| 0 <= m < mat@.len() ==> pair_wf(rk@, nk@, #[trigger] mat@[m]),
            matched_rgb@.map_values(|s: String| s@) == mat@.take(k as int).map_values(
                rgb_path_of(rk@),
            ),
            matched_nir@.map_values(|s: String| s@) == mat@.take(k as int).map_values(
                nir_path_of(nk@),
            ),
        decreases mat@.len() - k,
    {
        let p = mat[k];
        matched_rgb.push(rk[p.rgb].path.clone());
        matched_nir.push(nk[p.nir].path.clone());
        proof {
            assert(mat@.take(k as int + 1) =~= mat@.take(k as int).push(p));
            assert(matched_rgb@.map_values(|s: String| s@) =~= mat@.take(k as int).map_values(
                rgb_path_of(rk@),
            ).push(rk@[p.rgb as int].path@));
            assert(mat@.take(k as int + 1).map_values(rgb_path_of(rk@)) =~= mat@.take(
                k as int,
            ).map_values(rgb_path_of(rk@)).push(rk@[p.rgb as int].path@));
            assert(matched_nir@.map_values(|s: String| s@) =~= mat@.take(k as int).map_values(
                nir_path_of(nk@),
            ).push(nk@[p.nir as int].path@));
            assert(mat@.take(k as int + 1).map_values(nir_path_of(nk@)) =~= mat@.take(
                k as int,
            ).map_values(nir_path_of(nk@)).push(nk@[p.nir as int].path@));
        }
        k = k + 1;
    }
    proof {
        assert(mat@.take(mat@.len() as int) =~= mat@);
    }
    let mut unmatched_rgb: Vec<String> = Vec::new();
    let mut i: usize = 0;
    while i < rk.len()
        invariant
            i <= rk@.len(),
            cands@ == candidate_pairs(rk@, nk@),
            mat@ == matched_pairs(cands@, threshold_ms),
            unmatched_rgb@.map_values(|s: String| s@) == index_seq(i as int).filter(
                rgb_unmatched_at(cands@, threshold_ms),
            ).map_values(path_at(rk@)),
        decreases rk@.len() - i,
    {
        let hit = scan_rgb(&mat, i);
        proof {
            lemma_rgb_scan(cands@, threshold_ms, i);
            assert(index_seq(i as int + 1) =~= index_seq(i as int).push(i as int));
            lemma_filter_push(
                index_seq(i as int),
                i as int,
                rgb_unmatched_at(cands@, threshold_ms),
            );
        }
        if !hit {
            unmatched_rgb.push(rk[i].path.clone());
            proof {
                assert(unmatched_rgb@.map_values(|s: String| s@) =~= index_seq(
                    i as int,
                ).filter(rgb_unmatched_at(cands@, threshold_ms)).map_values(path_at(rk@)).push(
                    rk@[i as int].path@,
                ));
                assert(index_seq(i as int + 1).filter(
                    rgb_unmatched_at(cands@, threshold_ms),
                ).map_values(path_at(rk@)) =~= index_seq(i as int).filter(
                    rgb_unmatched_at(cands@, threshold_ms),
                ).map_values(path_at(rk@)).push(rk@[i as int].path@));
            }
        } else {
            proof {
                assert(index_seq(i as int + 1).filter(rgb_unmatched_at(cands@, threshold_ms))
                    =~= index_seq(i as int).filter(rgb_unmatched_at(cands@, threshold_ms)));
            }
        }
        i = i + 1;
    }
    let mut unmatched_nir: Vec<String> = Vec::new();
    let mut i2: usize = 0;
    while i2 < nk.len()
        invariant
            i2 <= nk@.len(),
            cands@ == candidate_pairs(rk@, nk@),
            mat@ == matched_pairs(cands@, threshold_ms),
            unmatched_nir@.map_values(|s: String| s@) == index_seq(i2 as int).filter(
                nir_unmatched_at(cands@, threshold_ms),
            ).map_values(path_at(nk@)),
        decreases nk@.len() - i2,
    {
        let hit = scan_nir(&mat, i2);
        proof {
            lemma_nir_scan(cands@, threshold_ms, i2);
            assert(index_seq(i2 as int + 1) =~= index_seq(i2 as int).push(i2 as int));
            lemma_filter_push(
                index_seq(i2 as int),
                i2 as int,
                nir_unmatched_at(cands@, threshold_ms),
            );
        }
        if !hit {
            unmatched_nir.push(nk[i2].path.clone());
            proof {
                assert(unmatched_nir@.map_values(|s: String| s@) =~= index_seq(
                    i2 as int,
                ).filter(nir_unmatched_at(cands@, threshold_ms)).map_values(path_at(nk@)).push(
                    nk@[i2 as int].path@,
                ));
                assert(index_seq(i2 as int + 1).filter(
                    nir_unmatched_at(cands@, threshold_ms),
                ).map_values(path_at(nk@)) =~= index_seq(i2 as int).filter(
                    nir_unmatched_at(cands@, threshold_ms),
                ).map_values(path_at(nk@)).push(nk@[i2 as int].path@));
            }
        } else {
            proof {
                assert(index_seq(i2 as int + 1).filter(nir_unmatched_at(cands@, threshold_ms))
                    =~= index_seq(i2 as int).filter(nir_unmatched_at(cands@, threshold_ms)));
            }
        }
        i2 = i2 + 1;
    }
    let matched_count = mat.len();
    let empty_rgb_count = empty_rgb.len();
    let empty_nir_count = empty_nir.len();
    Report {
        matched_rgb,
        matched_nir,
        unmatched_rgb,
        unmatched_nir,
        empty_rgb,
        empty_nir,
        rgb_total,
        nir_total,
        matched_count,
        empty_rgb_count,
        empty_nir_count,
    }
}

/// Whether exactly one of the three holds.
pub open spec fn in_one_bucket(m: bool, u: bool, e: bool) -> bool {
    &&& (m || u || e)
    &&& !(m && u)
    &&& !(m && e)
    &&& !(u && e)
}

/// Filtering a catalog of pairwise distinct paths keeps them distinct.
proof fn lemma_filter_keeps_distinct(cat: Seq<Record>, pred: spec_fn(Record) -> bool)
    requires
        paths_distinct(cat),
    ensures
        paths_distinct(cat.filter(pred)),
    decreases cat.len(),
{
    broadcast use vstd::seq_lib::group_filter_ensures;

    reveal_with_fuel(Seq::filter, 2);
    if cat.len() > 0 {
        let d = cat.drop_last();
        assert(forall|i: int| 0 <= i < d.len() ==> #[trigger] d[i] == cat[i]);
        lemma_filter_keeps_distinct(d, pred);
        let fd = d.filter(pred);
        let f = cat.filter(pred);
        if pred(cat.last()) {
            assert(f == fd.push(cat.last()));
            assert forall|a: int, b: int|
                0 <= a < b < f.len() implies #[trigger] f[a].path@ != #[trigger] f[b].path@ by {
                if b < fd.len() {
                    assert(fd[a].path@ != fd[b].path@);
                } else {
                    assert(f[b] == cat.last());
                    assert(fd.contains(fd[a]));
                    d.lemma_filter_contains_rev(pred, fd[a]);
                    let m = choose|m: int| 0 <= m < d.len() && d[m] == fd[a];
                    assert(cat[m] == fd[a]);
                    assert(cat[m].path@ != cat[cat.len() - 1].path@);
                }
            }
        } else {
            assert(f == fd);
        }
    }
}

/// A path of the matched RGB list belongs to a kept RGB record that sits on
/// a matched candidate pair.
proof fn lemma_matched_member_rgb(rgb: Seq<Record>, nir: Seq<Record>, thr: u64, keep: bool, q: Seq<char>)
    requires
        rgb.len() <= usize::MAX,
        nir.len() <= usize::MAX,
        spec_matched_rgb(rgb, nir, thr, keep).contains(q),
    ensures
        exists|m: int|
            0 <= m < kept_records(rgb, keep).len() && (#[trigger] kept_records(rgb, keep)[m]).path@
                == q && rgb_matched(
                candidate_pairs(kept_records(rgb, keep), kept_records(nir, keep)),
                thr,
                m as usize,
            ),
{
    broadcast use vstd::seq_lib::group_filter_ensures;

    let rk = kept_records(rgb, keep);
    let nk = kept_records(nir, keep);
    let cands = candidate_pairs(rk, nk);
    let mat = matched_pairs(cands, thr);
    lemma_matched_wf(rk, nk, thr);
    let mseq = spec_matched_rgb(rgb, nir, thr, keep);
    let k = choose|k: int| 0 <= k < mseq.len() && mseq[k] == q;
    let pr = mat[k];
    assert(mseq[k] == rgb_path_of(rk)(pr));
    assert(pair_wf(rk, nk, pr));
    cands.lemma_filter_contains_rev(within(thr), pr);
    assert(cands.contains(pr));
    let c = choose|c: int| 0 <= c < cands.len() && cands[c] == pr;
    assert(within(thr)(pr));
    assert(rgb_matched(cands, thr, pr.rgb));
    assert(0 <= pr.rgb < rk.len() && rk[pr.rgb as int].path@ == q && rgb_matched(
        cands,
        thr,
        pr.rgb as int as usize,
    ));
}

/// A kept RGB record on a matched candidate pair puts its path on the
/// matched RGB list.
proof fn lemma_matched_at_rgb(rgb: Seq<Record>, nir: Seq<Record>, thr: u64, keep: bool, m: int)
    requires
        rgb.len() <= usize::MAX,
        nir.len() <= usize::MAX,
        0 <= m < kept_records(rgb, keep).len(),
        rgb_matched(
            candidate_pairs(kept_records(rgb, keep), kept_records(nir, keep)),
            thr,
            m as usize,
        ),
    ensures
        spec_matched_rgb(rgb, nir, thr, keep).contains(kept_records(rgb, keep)[m].path@),
{
    let rk = kept_records(rgb, keep);
    let nk = kept_records(nir, keep);
    let cands = candidate_pairs(rk, nk);
    let mat = matched_pairs(cands, thr);
    let mseq = spec_matched_rgb(rgb, nir, thr, keep);
    lemma_rgb_scan(cands, thr, m as usize);
    let k = choose|k: int| 0 <= k < mat.len() && (#[trigger] mat[k]).rgb == m as usize;
    assert(mseq[k] == rgb_path_of(rk)(mat[k]));
    assert(mseq[k] == rk[m].path@);
    assert(mseq.contains(mseq[k]));
}

/// A path of the unmatched RGB list belongs to a kept RGB record on no
/// matched candidate pair.
proof fn lemma_unmatched_member_rgb(
    rgb: Seq<Record>,
    nir: Seq<Record>,
    thr: u64,
    keep: bool,
    q: Seq<char>,
)
    requires
        rgb.len() <= usize::MAX,
        nir.len() <= usize::MAX,
        spec_unmatched_rgb(rgb, nir, thr, keep).contains(q),
    ensures
        exists|m: int|
            0 <= m < kept_records(rgb, keep).len() && (#[trigger] kept_records(rgb, keep)[m]).path@
                == q && !rgb_matched(
                candidate_pairs(kept_records(rgb, keep), kept_records(nir, keep)),
                thr,
                m as usize,
            ),
{
    broadcast use vstd::seq_lib::group_filter_ensures;

    let rk = kept_records(rgb, keep);
    let nk = kept_records(nir, keep);
    let cands = candidate_pairs(rk, nk);
    let iseq = index_seq(rk.len() as int);
    let fidx = iseq.filter(rgb_unmatched_at(cands, thr));
    let useq = spec_unmatched_rgb(rgb, nir, thr, keep);
    let k = choose|k: int| 0 <= k < useq.len() && useq[k] == q;
    let m = fidx[k];
    assert(useq[k] == path_at(rk)(m));
    assert(rgb_unmatched_at(cands, thr)(m));
    assert(fidx.contains(fidx[k]));
    iseq.lemma_filter_contains_rev(rgb_unmatched_at(cands, thr), m);
    assert(iseq.contains(m));
    let a = choose|a: int| 0 <= a < iseq.len() && iseq[a] == m;
    assert(0 <= m < rk.len() && rk[m].path@ == q && !rgb_matched(cands, thr, m as usize));
}

/// A kept RGB record on no matched candidate pair puts its path on the
/// unmatched RGB list.
proof fn lemma_unmatched_at_rgb(rgb: Seq<Record>, nir: Seq<Record>, thr: u64, keep: bool, m: int)
    requires
        rgb.len() <= usize::MAX,
        nir.len() <= usize::MAX,
        0 <= m < kept_records(rgb, keep).len(),
        !rgb_matched(
            candidate_pairs(kept_records(rgb, keep), kept_records(nir, keep)),
            thr,
            m as usize,
        ),
    ensures
        spec_unmatched_rgb(rgb, nir, thr, keep).contains(kept_records(rgb, keep)[m].path@),
{
    broadcast use vstd::seq_lib::group_filter_ensures;

    let rk = kept_records(rgb, keep);
    let nk = kept_records(nir, keep);
    let cands = candidate_pairs(rk, nk);
    let iseq = index_seq(rk.len() as int);
    let fidx = iseq.filter(rgb_unmatched_at(cands, thr));
    let useq = spec_unmatched_rgb(rgb, nir, thr, keep);
    assert(iseq[m] == m);
    assert(rgb_unmatched_at(cands, thr)(iseq[m]));
    assert(fidx.contains(m));
    let k = choose|k: int| 0 <= k < fidx.len() && fidx[k] == m;
    assert(useq[k] == path_at(rk)(m));
    assert(useq.contains(useq[k]));
}

/// A path of the degenerate RGB list belongs to a zero-byte record of the
/// catalog, and such lists exist only when degenerate records are split off.
proof fn lemma_empty_member(cat: Seq<Record>, keep: bool, q: Seq<char>)
    requires
        empty_paths(cat, keep).contains(q),
    ensures
        !keep,
        exists|m: int|
            0 <= m < cat.len() && (#[trigger] cat[m]).path@ == q && cat[m].size_bytes == 0,
{
    broadcast use vstd::seq_lib::group_filter_ensures;

    let eseq = empty_paths(cat, keep);
    let k = choose|k: int| 0 <= k < eseq.len() && eseq[k] == q;
    let f = cat.filter(zero_size());
    assert(eseq[k] == record_path()(f[k]));
    assert(zero_size()(f[k]));
    assert(f.contains(f[k]));
    cat.lemma_filter_contains_rev(zero_size(), f[k]);
    let m = choose|m: int| 0 <= m < cat.len() && cat[m] == f[k];
    assert(0 <= m < cat.len() && cat[m].path@ == q && cat[m].size_bytes == 0);
}

/// A zero-byte record's path lands on the degenerate list when degenerate
/// records are split off.
proof fn lemma_empty_at(cat: Seq<Record>, i: int)
    requires
        0 <= i < cat.len(),
        cat[i].size_bytes == 0,
    ensures
        empty_paths(cat, false).contains(cat[i].path@),
{
    broadcast use vstd::seq_lib::group_filter_ensures;

    let f = cat.filter(zero_size());
    assert(zero_size()(cat[i]));
    assert(f.contains(cat[i]));
    let k = choose|k: int| 0 <= k < f.len() && f[k] == cat[i];
    let eseq = empty_paths(cat, false);
    assert(eseq[k] == record_path()(f[k]));
    assert(eseq.contains(eseq[k]));
}

/// Two catalog positions with the same path are the same position.
proof fn lemma_distinct_at(cat: Seq<Record>, a: int, b: int)
    requires
        paths_distinct(cat),
        0 <= a < cat.len(),
        0 <= b < cat.len(),
        cat[a].path@ == cat[b].path@,
    ensures
        a == b,
{
    if a < b {
        assert(cat[a].path@ != cat[b].path@);
    } else if b < a {
        assert(cat[b].path@ != cat[a].path@);
    }
}

/// A path of the matched NIR list belongs to a kept NIR record that sits on
/// a matched candidate pair.
proof fn lemma_matched_member_nir(rgb: Seq<Record>, nir: Seq<Record>, thr: u64, keep: bool, q: Seq<char>)
    requires
        rgb.len() <= usize::MAX,
        nir.len() <= usize::MAX,
        spec_matched_nir(rgb, nir, thr, keep).contains(q),
    ensures
        exists|m: int|
            0 <= m < kept_records(nir, keep).len() && (#[trigger] kept_records(nir, keep)[m]).path@
                == q && nir_matched(
                candidate_pairs(kept_records(rgb, keep), kept_records(nir, keep)),
                thr,
                m as usize,
            ),
{
    broadcast use vstd::seq_lib::group_filter_ensures;

    let rk = kept_records(rgb, keep);
    let nk = kept_records(nir, keep);
    let cands = candidate_pairs(rk, nk);
    let mat = matched_pairs(cands, thr);
    lemma_matched_wf(rk, nk, thr);
    let mseq = spec_matched_nir(rgb, nir, thr, keep);
    let k = choose|k: int| 0 <= k < mseq.len() && mseq[k] == q;
    let pr = mat[k];
    assert(mseq[k] == nir_path_of(nk)(pr));
    assert(pair_wf(rk, nk, pr));
    cands.lemma_filter_contains_rev(within(thr), pr);
    assert(cands.contains(pr));
    let c = choose|c: int| 0 <= c < cands.len() && cands[c] == pr;
    assert(within(thr)(pr));
    assert(nir_matched(cands, thr, pr.nir));
    assert(0 <= pr.nir < nk.len() && nk[pr.nir as int].path@ == q && nir_matched(
        cands,
        thr,
        pr.nir as int as usize,
    ));
}

/// A kept NIR record on a matched candidate pair puts its path on the
/// matched NIR list.
proof fn lemma_matched_at_nir(rgb: Seq<Record>, nir: Seq<Record>, thr: u64, keep: bool, m: int)
    requires
        rgb.len() <= usize::MAX,
        nir.len() <= usize::MAX,
        0 <= m < kept_records(nir, keep).len(),
        nir_matched(
            candidate_pairs(kept_records(rgb, keep), kept_records(nir, keep)),
            thr,
            m as usize,
        ),
    ensures
        spec_matched_nir(rgb, nir, thr, keep).contains(kept_records(nir, keep)[m].path@),
{
    let rk = kept_records(rgb, keep);
    let nk = kept_records(nir, keep);
    let cands = candidate_pairs(rk, nk);
    let mat = matched_pairs(cands, thr);
    let mseq = spec_matched_nir(rgb, nir, thr, keep);
    lemma_nir_scan(cands, thr, m as usize);
    let k = choose|k: int| 0 <= k < mat.len() && (#[trigger] mat[k]).nir == m as usize;
    assert(mseq[k] == nir_path_of(nk)(mat[k]));
    assert(mseq[k] == nk[m].path@);
    assert(mseq.contains(mseq[k]));
}

/// A path of the unmatched NIR list belongs to a kept NIR record on no
/// matched candidate pair.
proof fn lemma_unmatched_member_nir(
    rgb: Seq<Record>,
    nir: Seq<Record>,
    thr: u64,
    keep: bool,
    q: Seq<char>,
)
    requires
        rgb.len() <= usize::MAX,
        nir.len() <= usize::MAX,
        spec_unmatched_nir(rgb, nir, thr, keep).contains(q),
    ensures
        exists|m: int|
            0 <= m < kept_records(nir, keep).len() && (#[trigger] kept_records(nir, keep)[m]).path@
                == q && !nir_matched(
                candidate_pairs(kept_records(rgb, keep), kept_records(nir, keep)),
                thr,
                m as usize,
            ),
{
    broadcast use vstd::seq_lib::group_filter_ensures;

    let rk = kept_records(rgb, keep);
    let nk = kept_records(nir, keep);
    let cands = candidate_pairs(rk, nk);
    let iseq = index_seq(nk.len() as int);
    let fidx = iseq.filter(nir_unmatched_at(cands, thr));
    let useq = spec_unmatched_nir(rgb, nir, thr, keep);
    let k = choose|k: int| 0 <= k < useq.len() && useq[k] == q;
    let m = fidx[k];
    assert(useq[k] == path_at(nk)(m));
    assert(nir_unmatched_at(cands, thr)(m));
    assert(fidx.contains(fidx[k]));
    iseq.lemma_filter_contains_rev(nir_unmatched_at(cands, thr), m);
    assert(iseq.contains(m));
    let a = choose|a: int| 0 <= a < iseq.len() && iseq[a] == m;
    assert(0 <= m < nk.len() && nk[m].path@ == q && !nir_matched(cands, thr, m as usize));
}

/// A kept NIR record on no matched candidate pair puts its path on the
/// unmatched NIR list.
proof fn lemma_unmatched_at_nir(rgb: Seq<Record>, nir: Seq<Record>, thr: u64, keep: bool, m: int)
    requires
        rgb.len() <= usize::MAX,
        nir.len() <= usize::MAX,
        0 <= m < kept_records(nir, keep).len(),
        !nir_matched(
            candidate_pairs(kept_records(rgb, keep), kept_records(nir, keep)),
            thr,
            m as usize,
        ),
    ensures
        spec_unmatched_nir(rgb, nir, thr, keep).contains(kept_records(nir, keep)[m].path@),
{
    broadcast use vstd::seq_lib::group_filter_ensures;

    let rk = kept_records(rgb, keep);
    let nk = kept_records(nir, keep);
    let cands = candidate_pairs(rk, nk);
    let iseq = index_seq(nk.len() as int);
    let fidx = iseq.filter(nir_unmatched_at(cands, thr));
    let useq = spec_unmatched_nir(rgb, nir, thr, keep);
    assert(iseq[m] == m);
    assert(nir_unmatched_at(cands, thr)(iseq[m]));
    assert(fidx.contains(m));
    let k = choose|k: int| 0 <= k < fidx.len() && fidx[k] == m;
    assert(useq[k] == path_at(nk)(m));
    assert(useq.contains(useq[k]));
}

/// The NIR record at position `i` lands in exactly one of the three buckets.
proof fn lemma_nir_bucket(rgb: Seq<Record>, nir: Seq<Record>, thr: u64, keep: bool, i: int)
    requires
        rgb.len() <= usize::MAX,
        nir.len() <= usize::MAX,
        paths_distinct(nir),
        0 <= i < nir.len(),
    ensures
        in_one_bucket(
            spec_matched_nir(rgb, nir, thr, keep).contains(nir[i].path@),
            spec_unmatched_nir(rgb, nir, thr, keep).contains(nir[i].path@),
            empty_paths(nir, keep).contains(nir[i].path@),
        ),
{
    broadcast use vstd::seq_lib::group_filter_ensures;

    let p = nir[i].path@;
    let rk = kept_records(rgb, keep);
    let nk = kept_records(nir, keep);
    let cands = candidate_pairs(rk, nk);
    let mseq = spec_matched_nir(rgb, nir, thr, keep);
    let useq = spec_unmatched_nir(rgb, nir, thr, keep);
    let eseq = empty_paths(nir, keep);
    if !keep {
        lemma_filter_keeps_distinct(nir, positive_size());
    }
    if !keep && nir[i].size_bytes == 0 {
        lemma_empty_at(nir, i);
        if mseq.contains(p) {
            lemma_matched_member_nir(rgb, nir, thr, keep, p);
            let m = choose|m: int|
                0 <= m < nk.len() && (#[trigger] nk[m]).path@ == p && nir_matched(
                    cands,
                    thr,
                    m as usize,
                );
            assert(positive_size()(nk[m]));
            assert(nk.contains(nk[m]));
            nir.lemma_filter_contains_rev(positive_size(), nk[m]);
            let a = choose|a: int| 0 <= a < nir.len() && nir[a] == nk[m];
            lemma_distinct_at(nir, a, i);
            assert(false);
        }
        if useq.contains(p) {
            lemma_unmatched_member_nir(rgb, nir, thr, keep, p);
            let m = choose|m: int|
                0 <= m < nk.len() && (#[trigger] nk[m]).path@ == p && !nir_matched(
                    cands,
                    thr,
                    m as usize,
                );
            assert(positive_size()(nk[m]));
            assert(nk.contains(nk[m]));
            nir.lemma_filter_contains_rev(positive_size(), nk[m]);
            let a = choose|a: int| 0 <= a < nir.len() && nir[a] == nk[m];
            lemma_distinct_at(nir, a, i);
            assert(false);
        }
    } else {
        let ki: int;
        if keep {
            ki = i;
        } else {
            assert(positive_size()(nir[i]));
            assert(nk.contains(nir[i]));
            ki = choose|k: int| 0 <= k < nk.len() && nk[k] == nir[i];
        }
        assert(nk[ki] == nir[i]);
        if eseq.contains(p) {
            lemma_empty_member(nir, keep, p);
            let m = choose|m: int|
                0 <= m < nir.len() && (#[trigger] nir[m]).path@ == p && nir[m].size_bytes == 0;
            lemma_distinct_at(nir, m, i);
            assert(false);
        }
        if nir_matched(cands, thr, ki as usize) {
            lemma_matched_at_nir(rgb, nir, thr, keep, ki);
            assert(mseq.contains(p));
            if useq.contains(p) {
                lemma_unmatched_member_nir(rgb, nir, thr, keep, p);
                let m = choose|m: int|
                    0 <= m < nk.len() && (#[trigger] nk[m]).path@ == p && !nir_matched(
                        cands,
                        thr,
                        m as usize,
                    );
                lemma_distinct_at(nk, m, ki);
                assert(false);
            }
        } else {
            lemma_unmatched_at_nir(rgb, nir, thr, keep, ki);
            assert(useq.contains(p));
            if mseq.contains(p) {
                lemma_matched_member_nir(rgb, nir, thr, keep, p);
                let m = choose|m: int|
                    0 <= m < nk.len() && (#[trigger] nk[m]).path@ == p && nir_matched(
                        cands,
                        thr,
                        m as usize,
                    );
                lemma_distinct_at(nk, m, ki);
                assert(false);
            }
        }
    }
}

/// The RGB record at position `i` lands in exactly one of the three buckets.
proof fn lemma_rgb_bucket(rgb: Seq<Record>, nir: Seq<Record>, thr: u64, keep: bool, i: int)
    requires
        rgb.len() <= usize::MAX,
        nir.len() <= usize::MAX,
        paths_distinct(rgb),
        0 <= i < rgb.len(),
    ensures
        in_one_bucket(
            spec_matched_rgb(rgb, nir, thr, keep).contains(rgb[i].path@),
            spec_unmatched_rgb(rgb, nir, thr, keep).contains(rgb[i].path@),
            empty_paths(rgb, keep).contains(rgb[i].path@),
        ),
{
    broadcast use vstd::seq_lib::group_filter_ensures;

    let p = rgb[i].path@;
    let rk = kept_records(rgb, keep);
    let nk = kept_records(nir, keep);
    let cands = candidate_pairs(rk, nk);
    let mseq = spec_matched_rgb(rgb, nir, thr, keep);
    let useq = spec_unmatched_rgb(rgb, nir, thr, keep);
    let eseq = empty_paths(rgb, keep);
    if !keep {
        lemma_filter_keeps_distinct(rgb, positive_size());
    }
    if !keep && rgb[i].size_bytes == 0 {
        lemma_empty_at(rgb, i);
        if mseq.contains(p) {
            lemma_matched_member_rgb(rgb, nir, thr, keep, p);
            let m = choose|m: int|
                0 <= m < rk.len() && (#[trigger] rk[m]).path@ == p && rgb_matched(
                    cands,
                    thr,
                    m as usize,
                );
            assert(positive_size()(rk[m]));
            assert(rk.contains(rk[m]));
            rgb.lemma_filter_contains_rev(positive_size(), rk[m]);
            let a = choose|a: int| 0 <= a < rgb.len() && rgb[a] == rk[m];
            lemma_distinct_at(rgb, a, i);
            assert(false);
        }
        if useq.contains(p) {
            lemma_unmatched_member_rgb(rgb, nir, thr, keep, p);
            let m = choose|m: int|
                0 <= m < rk.len() && (#[trigger] rk[m]).path@ == p && !rgb_matched(
                    cands,
                    thr,
                    m as usize,
                );
            assert(positive_size()(rk[m]));
            assert(rk.contains(rk[m]));
            rgb.lemma_filter_contains_rev(positive_size(), rk[m]);
            let a = choose|a: int| 0 <= a < rgb.len() && rgb[a] == rk[m];
            lemma_distinct_at(rgb, a, i);
            assert(false);
        }
    } else {
        let ki: int;
        if keep {
            ki = i;
        } else {
            assert(positive_size()(rgb[i]));
            assert(rk.contains(rgb[i]));
            ki = choose|k: int| 0 <= k < rk.len() && rk[k] == rgb[i];
        }
        assert(rk[ki] == rgb[i]);
        if eseq.contains(p) {
            lemma_empty_member(rgb, keep, p);
            let m = choose|m: int|
                0 <= m < rgb.len() && (#[trigger] rgb[m]).path@ == p && rgb[m].size_bytes == 0;
            lemma_distinct_at(rgb, m, i);
            assert(false);
        }
        if rgb_matched(cands, thr, ki as usize) {
            lemma_matched_at_rgb(rgb, nir, thr, keep, ki);
            assert(mseq.contains(p));
            if useq.contains(p) {
                lemma_unmatched_member_rgb(rgb, nir, thr, keep, p);
                let m = choose|m: int|
                    0 <= m < rk.len() && (#[trigger] rk[m]).path@ == p && !rgb_matched(
                        cands,
                        thr,
                        m as usize,
                    );
                lemma_distinct_at(rk, m, ki);
                assert(false);
            }
        } else {
            lemma_unmatched_at_rgb(rgb, nir, thr, keep, ki);
            assert(useq.contains(p));
            if mseq.contains(p) {
                lemma_matched_member_rgb(rgb, nir, thr, keep, p);
                let m = choose|m: int|
                    0 <= m < rk.len() && (#[trigger] rk[m]).path@ == p && rgb_matched(
                        cands,
                        thr,
                        m as usize,
                    );
                lemma_distinct_at(rk, m, ki);
                assert(false);
            }
        }
    }
}


/// The unmatched RGB list repeats no path.
proof fn lemma_unmatched_rgb_no_dup(rgb: Seq<Record>, nir: Seq<Record>, thr: u64, keep: bool)
    requires
        rgb.len() <= usize::MAX,
        nir.len() <= usize::MAX,
        paths_distinct(rgb),
    ensures
        spec_unmatched_rgb(rgb, nir, thr, keep).no_duplicates(),
{
    broadcast use vstd::seq_lib::group_filter_ensures;

    let rk = kept_records(rgb, keep);
    let nk = kept_records(nir, keep);
    let cands = candidate_pairs(rk, nk);
    let iseq = index_seq(rk.len() as int);
    let pred = rgb_unmatched_at(cands, thr);
    let fidx = iseq.filter(pred);
    let useq = spec_unmatched_rgb(rgb, nir, thr, keep);
    if !keep {
        lemma_filter_keeps_distinct(rgb, positive_size());
    }
    assert(iseq.no_duplicates());
    lemma_filter_no_dup(iseq, pred);
    assert forall|k1: int, k2: int|
        0 <= k1 < k2 < useq.len() implies useq[k1] != useq[k2] by {
        let m1 = fidx[k1];
        let m2 = fidx[k2];
        assert(useq[k1] == path_at(rk)(m1));
        assert(useq[k2] == path_at(rk)(m2));
        assert(m1 != m2);
        assert(fidx.contains(fidx[k1]));
        iseq.lemma_filter_contains_rev(pred, m1);
        let a1 = choose|a: int| 0 <= a < iseq.len() && iseq[a] == m1;
        assert(fidx.contains(fidx[k2]));
        iseq.lemma_filter_contains_rev(pred, m2);
        let a2 = choose|a: int| 0 <= a < iseq.len() && iseq[a] == m2;
        lemma_distinct_pair(rk, m1, m2);
    }
}

/// The unmatched NIR list repeats no path.
proof fn lemma_unmatched_nir_no_dup(rgb: Seq<Record>, nir: Seq<Record>, thr: u64, keep: bool)
    requires
        rgb.len() <= usize::MAX,
        nir.len() <= usize::MAX,
        paths_distinct(nir),
    ensures
        spec_unmatched_nir(rgb, nir, thr, keep).no_duplicates(),
{
    broadcast use vstd::seq_lib::group_filter_ensures;

    let rk = kept_records(rgb, keep);
    let nk = kept_records(nir, keep);
    let cands = candidate_pairs(rk, nk);
    let iseq = index_seq(nk.len() as int);
    let pred = nir_unmatched_at(cands, thr);
    let fidx = iseq.filter(pred);
    let useq = spec_unmatched_nir(rgb, nir, thr, keep);
    if !keep {
        lemma_filter_keeps_distinct(nir, positive_size());
    }
    assert(iseq.no_duplicates());
    lemma_filter_no_dup(iseq, pred);
    assert forall|k1: int, k2: int|
        0 <= k1 < k2 < useq.len() implies useq[k1] != useq[k2] by {
        let m1 = fidx[k1];
        let m2 = fidx[k2];
        assert(useq[k1] == path_at(nk)(m1));
        assert(useq[k2] == path_at(nk)(m2));
        assert(m1 != m2);
        assert(fidx.contains(fidx[k1]));
        iseq.lemma_filter_contains_rev(pred, m1);
        let a1 = choose|a: int| 0 <= a < iseq.len() && iseq[a] == m1;
        assert(fidx.contains(fidx[k2]));
        iseq.lemma_filter_contains_rev(pred, m2);
        let a2 = choose|a: int| 0 <= a < iseq.len() && iseq[a] == m2;
        lemma_distinct_pair(nk, m1, m2);
    }
}

/// Records at two distinct positions of a distinct-path catalog have
/// distinct paths.
proof fn lemma_distinct_pair(cat: Seq<Record>, a: int, b: int)
    requires
        paths_distinct(cat),
        0 <= a < cat.len(),
        0 <= b < cat.len(),
        a != b,
    ensures
        cat[a].path@ != cat[b].path@,
{
    if a < b {
        assert(cat[a].path@ != cat[b].path@);
    } else {
        assert(cat[b].path@ != cat[a].path@);
    }
}

/// The degenerate list repeats no path.
proof fn lemma_empty_no_dup(cat: Seq<Record>, keep: bool)
    requires
        paths_distinct(cat),
    ensures
        empty_paths(cat, keep).no_duplicates(),
{
    broadcast use vstd::seq_lib::group_filter_ensures;

    if !keep {
        lemma_filter_keeps_distinct(cat, zero_size());
        let f = cat.filter(zero_size());
        let eseq = empty_paths(cat, keep);
        assert forall|k1: int, k2: int|
            (0 <= k1 < eseq.len() && 0 <= k2 < eseq.len() && k1 != k2) implies eseq[k1]
            != eseq[k2] by {
            assert(eseq[k1] == record_path()(f[k1]));
            assert(eseq[k2] == record_path()(f[k2]));
            if k1 < k2 {
                assert(f[k1].path@ != f[k2].path@);
            } else {
                assert(f[k2].path@ != f[k1].path@);
            }
        }
    }
}

/// Law: for every stream, each record's path appears in exactly one of the
/// matched, unmatched and degenerate path lists of the report, the unmatched
/// and degenerate lists repeat no path, and nothing is silently dropped.
/// Holds for any catalogs whose paths are unique within their stream. (A
/// path may sit on several matched pairs at once; the matched lists name it
/// once per pair.)
pub proof fn lemma_stream_partition(rgb: Seq<Record>, nir: Seq<Record>, thr: u64, keep: bool)
    requires
        rgb.len() <= usize::MAX,
        nir.len() <= usize::MAX,
        paths_distinct(rgb),
        paths_distinct(nir),
    ensures
        forall|i: int|
            0 <= i < rgb.len() ==> in_one_bucket(
                spec_matched_rgb(rgb, nir, thr, keep).contains((#[trigger] rgb[i]).path@),
                spec_unmatched_rgb(rgb, nir, thr, keep).contains(rgb[i].path@),
                empty_paths(rgb, keep).contains(rgb[i].path@),
            ),
        forall|i: int|
            0 <= i < nir.len() ==> in_one_bucket(
                spec_matched_nir(rgb, nir, thr, keep).contains((#[trigger] nir[i]).path@),
                spec_unmatched_nir(rgb, nir, thr, keep).contains(nir[i].path@),
                empty_paths(nir, keep).contains(nir[i].path@),
            ),
        spec_unmatched_rgb(rgb, nir, thr, keep).no_duplicates(),
        spec_unmatched_nir(rgb, nir, thr, keep).no_duplicates(),
        empty_paths(rgb, keep).no_duplicates(),
        empty_paths(nir, keep).no_duplicates(),
{
    lemma_unmatched_rgb_no_dup(rgb, nir, thr, keep);
    lemma_unmatched_nir_no_dup(rgb, nir, thr, keep);
    lemma_empty_no_dup(rgb, keep);
    lemma_empty_no_dup(nir, keep);
    assert forall|i: int| 0 <= i < rgb.len() implies in_one_bucket(
        spec_matched_rgb(rgb, nir, thr, keep).contains((#[trigger] rgb[i]).path@),
        spec_unmatched_rgb(rgb, nir, thr, keep).contains(rgb[i].path@),
        empty_paths(rgb, keep).contains(rgb[i].path@),
    ) by {
        lemma_rgb_bucket(rgb, nir, thr, keep, i);
    }
    assert forall|i: int| 0 <= i < nir.len() implies in_one_bucket(
        spec_matched_nir(rgb, nir, thr, keep).contains((#[trigger] nir[i]).path@),
        spec_unmatched_nir(rgb, nir, thr, keep).contains(nir[i].path@),
        empty_paths(nir, keep).contains(nir[i].path@),
    ) by {
        lemma_nir_bucket(rgb, nir, thr, keep, i);
    }
}

/// Law: with a zero threshold, if every kept record of either stream has a
/// record with the very same instant in the other stream, nothing is left
/// unmatched.
pub proof fn lemma_zero_threshold_all_matched(rgb: Seq<Record>, nir: Seq<Record>, keep: bool)
    requires
        rgb.len() <= usize::MAX,
        nir.len() <= usize::MAX,
        forall|i: int|
            0 <= i < kept_records(rgb, keep).len() ==> exists|j: int|
                0 <= j < kept_records(nir, keep).len() && (#[trigger] kept_records(
                    rgb,
                    keep,
                )[i]).captured_at == kept_records(nir, keep)[j].captured_at,
        forall|i: int|
            0 <= i < kept_records(nir, keep).len() ==> exists|j: int|
                0 <= j < kept_records(rgb, keep).len() && (#[trigger] kept_records(
                    nir,
                    keep,
                )[i]).captured_at == kept_records(rgb, keep)[j].captured_at,
    ensures
        spec_unmatched_rgb(rgb, nir, 0, keep).len() == 0,
        spec_unmatched_nir(rgb, nir, 0, keep).len() == 0,
{
    broadcast use vstd::seq_lib::group_filter_ensures;

    let rk = kept_records(rgb, keep);
    let nk = kept_records(nir, keep);
    let cands = candidate_pairs(rk, nk);
    lemma_candidates_wf(rk, nk);
    let riseq = index_seq(rk.len() as int);
    assert forall|i: int|
        0 <= i < riseq.len() implies !(rgb_unmatched_at(cands, 0)(#[trigger] riseq[i])) by {
        assert(rk[i].captured_at == rk[i].captured_at);
        let j = choose|j: int| 0 <= j < nk.len() && rk[i].captured_at == nk[j].captured_at;
        lemma_near_partner_rgb(rk, nk, i, j);
        let n = choose|n: usize|
            #[trigger] has_pair_key(candidate_pairs(rk, nk), i as usize, n) && n < nk.len()
                && delta(rk[i].captured_at, nk[n as int].captured_at) <= delta(
                rk[i].captured_at,
                nk[j].captured_at,
            );
        let k = choose|k: int|
            0 <= k < cands.len() && (#[trigger] cands[k]).rgb == i as usize && cands[k].nir == n;
        assert(pair_wf(rk, nk, cands[k]));
        assert(cands[k].delta_ms == 0);
        assert(rgb_matched(cands, 0, i as usize));
    }
    lemma_filter_none(riseq, rgb_unmatched_at(cands, 0));
    let niseq = index_seq(nk.len() as int);
    assert forall|i: int|
        0 <= i < niseq.len() implies !(nir_unmatched_at(cands, 0)(#[trigger] niseq[i])) by {
        assert(nk[i].captured_at == nk[i].captured_at);
        let j = choose|j: int| 0 <= j < rk.len() && nk[i].captured_at == rk[j].captured_at;
        lemma_near_partner_nir(rk, nk, i, j);
        let r = choose|r: usize|
            #[trigger] has_pair_key(candidate_pairs(rk, nk), r, i as usize) && r < rk.len()
                && delta(nk[i].captured_at, rk[r as int].captured_at) <= delta(
                nk[i].captured_at,
                rk[j].captured_at,
            );
        let k = choose|k: int|
            0 <= k < cands.len() && (#[trigger] cands[k]).nir == i as usize && cands[k].rgb == r;
        assert(pair_wf(rk, nk, cands[k]));
        assert(cands[k].delta_ms == 0);
        assert(nir_matched(cands, 0, i as usize));
    }
    lemma_filter_none(niseq, nir_unmatched_at(cands, 0));
}

/// Law: when the NIR stream is empty after size filtering, there are no
/// matched pairs and every kept RGB record classifies as unmatched.
pub proof fn lemma_empty_nir_all_unmatched(rgb: Seq<Record>, nir: Seq<Record>, thr: u64, keep: bool)
    requires
        rgb.len() <= usize::MAX,
        nir.len() <= usize::MAX,
        kept_records(nir, keep).len() == 0,
    ensures
        spec_matched_rgb(rgb, nir, thr, keep).len() == 0,
        spec_matched_nir(rgb, nir, thr, keep).len() == 0,
        spec_unmatched_nir(rgb, nir, thr, keep).len() == 0,
        spec_unmatched_rgb(rgb, nir, thr, keep) == kept_records(rgb, keep).map_values(
            record_path(),
        ),
{
    let rk = kept_records(rgb, keep);
    let nk = kept_records(nir, keep);
    let cands = candidate_pairs(rk, nk);
    assert(cands.len() == 0);
    lemma_filter_none(cands, within(thr));
    let riseq = index_seq(rk.len() as int);
    assert forall|i: int|
        0 <= i < riseq.len() implies rgb_unmatched_at(cands, thr)(#[trigger] riseq[i]) by {
        assert(!rgb_matched(cands, thr, i as usize));
    }
    lemma_filter_all(riseq, rgb_unmatched_at(cands, thr));
    assert(spec_unmatched_rgb(rgb, nir, thr, keep) =~= rk.map_values(record_path()));
}

/// Law: when the RGB stream is empty after size filtering, there are no
/// matched pairs and every kept NIR record classifies as unmatched.
pub proof fn lemma_empty_rgb_all_unmatched(rgb: Seq<Record>, nir: Seq<Record>, thr: u64, keep: bool)
    requires
        rgb.len() <= usize::MAX,
        nir.len() <= usize::MAX,
        kept_records(rgb, keep).len() == 0,
    ensures
        spec_matched_rgb(rgb, nir, thr, keep).len() == 0,
        spec_matched_nir(rgb, nir, thr, keep).len() == 0,
        spec_unmatched_rgb(rgb, nir, thr, keep).len() == 0,
        spec_unmatched_nir(rgb, nir, thr, keep) == kept_records(nir, keep).map_values(
            record_path(),
        ),
{
    let rk = kept_records(rgb, keep);
    let nk = kept_records(nir, keep);
    let cands = candidate_pairs(rk, nk);
    assert(cands.len() == 0);
    lemma_filter_none(cands, within(thr));
    let niseq = index_seq(nk.len() as int);
    assert forall|i: int|
        0 <= i < niseq.len() implies nir_unmatched_at(cands, thr)(#[trigger] niseq[i]) by {
        assert(!nir_matched(cands, thr, i as usize));
    }
    lemma_filter_all(niseq, nir_unmatched_at(cands, thr));
    assert(spec_unmatched_nir(rgb, nir, thr, keep) =~= nk.map_values(record_path()));
}

} // verus!
