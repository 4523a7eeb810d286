//! Sorted views of a catalog and nearest-neighbour search.
//!
//! A catalog is viewed as the sequence of its `(captured_at, position)`
//! pairs, sorted by instant with the catalog position as tie-breaker. The
//! positions are pairwise distinct, so exactly one sorted arrangement exists
//! and the sorted view is a function of the catalog alone. The
//! nearest-neighbour search returns, for a probe instant, the first position
//! of the sorted view whose instant is nearest to the probe.

use vstd::prelude::*;

use vstd::relations::antisymmetric;
use vstd::relations::reflexive;
use vstd::relations::sorted_by;
use vstd::relations::strongly_connected;
use vstd::relations::total_ordering;
use vstd::relations::transitive;

use crate::catalog::Record;

verus! {

/// Order on `(instant, position)` pairs: by instant, then by position.
pub open spec fn lex_leq(a: (u64, usize), b: (u64, usize)) -> bool {
    a.0 < b.0 || (a.0 == b.0 && a.1 <= b.1)
}

/// `lex_leq` as a function value, for `sort_by`.
pub open spec fn lex_leq_fn() -> spec_fn((u64, usize), (u64, usize)) -> bool {
    |a: (u64, usize), b: (u64, usize)| lex_leq(a, b)
}

/// The `(captured_at, position)` pairs of a catalog, in catalog order.
pub open spec fn ts_pairs(cat: Seq<Record>) -> Seq<(u64, usize)> {
    Seq::new(cat.len(), |i: int| (cat[i].captured_at, i as usize))
}

/// The `(captured_at, position)` pairs of a catalog, sorted by instant with
/// the catalog position as tie-breaker.
pub open spec fn sorted_ts(cat: Seq<Record>) -> Seq<(u64, usize)> {
    ts_pairs(cat).sort_by(lex_leq_fn())
}

/// `lex_leq` is a total order.
pub proof fn lemma_lex_total()
    ensures
        total_ordering(lex_leq_fn()),
{
    assert(reflexive(lex_leq_fn()));
    assert(antisymmetric(lex_leq_fn()));
    assert(transitive(lex_leq_fn()));
    assert(strongly_connected(lex_leq_fn()));
}

/// Two sequences with the same elements, both sorted by `lex_leq`, are the
/// same sequence: `lex_leq` never ties two distinct pairs.
pub proof fn lemma_lex_sorted_unique(a: Seq<(u64, usize)>, b: Seq<(u64, usize)>)
    requires
        a.to_multiset() == b.to_multiset(),
        forall|i: int, j: int| 0 <= i < j < a.len() ==> lex_leq(#[trigger] a[i], #[trigger] a[j]),
        forall|i: int, j: int| 0 <= i < j < b.len() ==> lex_leq(#[trigger] b[i], #[trigger] b[j]),
    ensures
        a == b,
    decreases a.len(),
{
    broadcast use vstd::seq_lib::group_seq_lib_default;

    a.to_multiset_ensures();
    b.to_multiset_ensures();
    if a.len() == 0 {
        assert(b.len() == 0);
        assert(a =~= b);
    } else {
        assert(b.len() == a.len());
        assert(a.contains(a[0]));
        assert(b.to_multiset().count(a[0]) > 0);
        assert(b.contains(a[0]));
        let ka = choose|k: int| 0 <= k < b.len() && b[k] == a[0];
        assert(lex_leq(b[0], a[0]));
        assert(a.to_multiset().count(b[0]) > 0);
        assert(a.contains(b[0]));
        let kb = choose|k: int| 0 <= k < a.len() && a[k] == b[0];
        assert(lex_leq(a[0], b[0]));
        assert(a[0] == b[0]);
        let at = a.drop_first();
        let bt = b.drop_first();
        assert(a.remove(0) =~= at);
        assert(b.remove(0) =~= bt);
        assert(at.to_multiset() =~= a.to_multiset().remove(a[0]));
        assert(bt.to_multiset() =~= b.to_multiset().remove(b[0]));
        assert(at.to_multiset() == bt.to_multiset());
        assert forall|i: int, j: int| 0 <= i < j < at.len() implies lex_leq(
            #[trigger] at[i],
            #[trigger] at[j],
        ) by {
            assert(at[i] == a[i + 1]);
            assert(at[j] == a[j + 1]);
        }
        assert forall|i: int, j: int| 0 <= i < j < bt.len() implies lex_leq(
            #[trigger] bt[i],
            #[trigger] bt[j],
        ) by {
            assert(bt[i] == b[i + 1]);
            assert(bt[j] == b[j + 1]);
        }
        lemma_lex_sorted_unique(at, bt);
        assert forall|i: int| 0 <= i < a.len() implies a[i] == b[i] by {
            if i > 0 {
                assert(at[i - 1] == a[i]);
                assert(bt[i - 1] == b[i]);
            }
        }
        assert(a =~= b);
    }
}

/// Every element of the sorted view names a catalog position and carries that
/// record's instant; and every catalog position appears in the sorted view.
pub proof fn lemma_sorted_ts_elems(cat: Seq<Record>)
    requires
        cat.len() <= usize::MAX,
    ensures
        sorted_ts(cat).len() == cat.len(),
        forall|i: int|
            0 <= i < sorted_ts(cat).len() ==> (#[trigger] sorted_ts(cat)[i]).1 < cat.len()
                && sorted_ts(cat)[i].0 == cat[sorted_ts(cat)[i].1 as int].captured_at,
{
    lemma_lex_total();
    let tp = ts_pairs(cat);
    let st = sorted_ts(cat);
    tp.lemma_sort_by_ensures(lex_leq_fn());
    tp.to_multiset_ensures();
    st.to_multiset_ensures();
    assert(st.len() == tp.len());
    assert forall|i: int|
        0 <= i < st.len() implies (#[trigger] st[i]).1 < cat.len() && st[i].0 == cat[st[i].1 as int].captured_at by {
        assert(st.contains(st[i]));
        assert(st.to_multiset().count(st[i]) > 0);
        assert(tp.contains(st[i]));
        let m = choose|m: int| 0 <= m < tp.len() && tp[m] == st[i];
        assert(tp[m] == (cat[m].captured_at, m as usize));
    }
}

/// Every catalog position appears in the sorted view, with its instant.
pub proof fn lemma_sorted_ts_covers(cat: Seq<Record>, m: int)
    requires
        cat.len() <= usize::MAX,
        0 <= m < cat.len(),
    ensures
        exists|i: int|
            0 <= i < sorted_ts(cat).len() && #[trigger] sorted_ts(cat)[i] == (
            cat[m].captured_at,
            m as usize,
            ),
{
    lemma_lex_total();
    let tp = ts_pairs(cat);
    let st = sorted_ts(cat);
    tp.lemma_sort_by_ensures(lex_leq_fn());
    tp.to_multiset_ensures();
    st.to_multiset_ensures();
    assert(tp[m] == (cat[m].captured_at, m as usize));
    assert(tp.contains(tp[m]));
    assert(tp.to_multiset().count(tp[m]) > 0);
    assert(st.contains(tp[m]));
    let i = choose|i: int| 0 <= i < st.len() && st[i] == tp[m];
    assert(0 <= i < st.len() && st[i] == (cat[m].captured_at, m as usize));
}

/// The sorted view is sorted by `lex_leq`.
pub proof fn lemma_sorted_ts_sorted(cat: Seq<Record>)
    ensures
        forall|i: int, j: int|
            0 <= i < j < sorted_ts(cat).len() ==> lex_leq(
                #[trigger] sorted_ts(cat)[i],
                #[trigger] sorted_ts(cat)[j],
            ),
{
    lemma_lex_total();
    ts_pairs(cat).lemma_sort_by_ensures(lex_leq_fn());
    assert forall|i: int, j: int|
        0 <= i < j < sorted_ts(cat).len() implies lex_leq(
        #[trigger] sorted_ts(cat)[i],
        #[trigger] sorted_ts(cat)[j],
    ) by {
        assert(sorted_by(sorted_ts(cat), lex_leq_fn()));
        assert(lex_leq_fn()(sorted_ts(cat)[i], sorted_ts(cat)[j]));
    }
}

/// Whether `x` comes no later than `y` in the `lex_leq` order.
fn lex_le(x: (u64, usize), y: (u64, usize)) -> (b: bool)
    ensures
        b == lex_leq(x, y),
{
    x.0 < y.0 || (x.0 == y.0 && x.1 <= y.1)
}

/// Merges two vectors sorted by `lex_leq` into one sorted vector holding the
/// elements of both.
fn merge_pairs(a: Vec<(u64, usize)>, b: Vec<(u64, usize)>) -> (r: Vec<(u64, usize)>)
    requires
        forall|i: int, j: int| 0 <= i < j < a@.len() ==> lex_leq(#[trigger] a@[i], #[trigger] a@[j]),
        forall|i: int, j: int| 0 <= i < j < b@.len() ==> lex_leq(#[trigger] b@[i], #[trigger] b@[j]),
    ensures
        r@.to_multiset() == a@.to_multiset().add(b@.to_multiset()),
        forall|i: int, j: int| 0 <= i < j < r@.len() ==> lex_leq(#[trigger] r@[i], #[trigger] r@[j]),
{
    broadcast use vstd::multiset::group_multiset_axioms;

    let mut out: Vec<(u64, usize)> = Vec::new();
    let mut i: usize = 0;
    let mut j: usize = 0;
    proof {
        out@.to_multiset_ensures();
        a@.take(0).to_multiset_ensures();
        b@.take(0).to_multiset_ensures();
        assert forall|x: (u64, usize)|
            out@.to_multiset().count(x) == a@.take(0).to_multiset().add(
                b@.take(0).to_multiset(),
            ).count(x) by {
            assert(!out@.contains(x));
            assert(!a@.take(0).contains(x));
            assert(!b@.take(0).contains(x));
        }
        assert(out@.to_multiset() =~= a@.take(0).to_multiset().add(b@.take(0).to_multiset()));
    }
    while i < a.len() || j < b.len()
        invariant
            i <= a@.len(),
            j <= b@.len(),
            out@.len() == i + j,
            out@.to_multiset() == a@.take(i as int).to_multiset().add(
                b@.take(j as int).to_multiset(),
            ),
            forall|p: int, q: int| 0 <= p < q < a@.len() ==> lex_leq(
                #[trigger] a@[p],
                #[trigger] a@[q],
            ),
            forall|p: int, q: int| 0 <= p < q < b@.len() ==> lex_leq(
                #[trigger] b@[p],
                #[trigger] b@[q],
            ),
            forall|p: int, q: int| 0 <= p < q < out@.len() ==> lex_leq(
                #[trigger] out@[p],
                #[trigger] out@[q],
            ),
            forall|p: int, k: int|
                0 <= p < out@.len() && i <= k < a@.len() ==> lex_leq(
                    #[trigger] out@[p],
                    #[trigger] a@[k],
                ),
            forall|p: int, k: int|
                0 <= p < out@.len() && j <= k < b@.len() ==> lex_leq(
                    #[trigger] out@[p],
                    #[trigger] b@[k],
                ),
        decreases a@.len() - i + b@.len() - j,
    {
        let take_a: bool;
        if i < a.len() && j < b.len() {
            take_a = lex_le(a[i], b[j]);
        } else {
            take_a = i < a.len();
        }
        if take_a {
            let x = a[i];
            proof {
                out@.to_multiset_ensures();
                assert(a@.take(i as int + 1) =~= a@.take(i as int).push(x));
                a@.take(i as int).to_multiset_ensures();
                assert(a@.take(i as int + 1).to_multiset() =~= a@.take(
                    i as int,
                ).to_multiset().insert(x));
                if !(j < b@.len()) {
                } else {
                    assert(lex_leq(x, b@[j as int]));
                }
            }
            out.push(x);
            proof {
                assert(out@.to_multiset() =~= a@.take(i as int + 1).to_multiset().add(
                    b@.take(j as int).to_multiset(),
                ));
            }
            i = i + 1;
        } else {
            let x = b[j];
            proof {
                out@.to_multiset_ensures();
                assert(b@.take(j as int + 1) =~= b@.take(j as int).push(x));
                b@.take(j as int).to_multiset_ensures();
                assert(b@.take(j as int + 1).to_multiset() =~= b@.take(
                    j as int,
                ).to_multiset().insert(x));
                assert(j < b@.len());
                if i < a@.len() {
                    assert(!lex_leq(a@[i as int], x));
                    assert(lex_leq(x, a@[i as int]));
                }
            }
            out.push(x);
            proof {
                assert(out@.to_multiset() =~= a@.take(i as int).to_multiset().add(
                    b@.take(j as int + 1).to_multiset(),
                ));
            }
            j = j + 1;
        }
    }
    proof {
        assert(a@.take(a@.len() as int) =~= a@);
        assert(b@.take(b@.len() as int) =~= b@);
    }
    out
}

/// Sorts the pairs by `lex_leq`, merge-sort fashion.
fn merge_sort_pairs(v: Vec<(u64, usize)>) -> (r: Vec<(u64, usize)>)
    ensures
        r@.to_multiset() == v@.to_multiset(),
        forall|i: int, j: int| 0 <= i < j < r@.len() ==> lex_leq(#[trigger] r@[i], #[trigger] r@[j]),
    decreases v@.len(),
{
    let ghost v0 = v@;
    if v.len() <= 1 {
        proof {
            v@.to_multiset_ensures();
        }
        return v;
    }
    let mut left = v;
    let mid = left.len() / 2;
    let right = left.split_off(mid);
    proof {
        assert(v0 =~= left@ + right@);
        vstd::seq_lib::lemma_multiset_commutative(left@, right@);
    }
    let ls = merge_sort_pairs(left);
    let rs = merge_sort_pairs(right);
    merge_pairs(ls, rs)
}

/// The sorted view of `cat`, as a vector.
pub fn sorted_view(cat: &Vec<Record>) -> (r: Vec<(u64, usize)>)
    ensures
        r@ == sorted_ts(cat@),
{
    let mut v: Vec<(u64, usize)> = Vec::new();
    let mut i: usize = 0;
    while i < cat.len()
        invariant
            i <= cat@.len(),
            v@.len() == i,
            forall|j: int| 0 <= j < i ==> #[trigger] v@[j] == (cat@[j].captured_at, j as usize),
        decreases cat@.len() - i,
    {
        v.push((cat[i].captured_at, i));
        i = i + 1;
    }
    proof {
        assert(v@ =~= ts_pairs(cat@));
    }
    let v = merge_sort_pairs(v);
    proof {
        lemma_lex_total();
        ts_pairs(cat@).lemma_sort_by_ensures(lex_leq_fn());
        lemma_sorted_ts_sorted(cat@);
        lemma_lex_sorted_unique(v@, sorted_ts(cat@));
    }
    v
}

/// The absolute difference of two instants.
pub open spec fn delta(a: u64, b: u64) -> int {
    if a >= b {
        a - b
    } else {
        b - a
    }
}

/// The first position of `s` whose instant is nearest to `t`.
pub open spec fn nearest_pos(s: Seq<(u64, usize)>, t: u64) -> int
    recommends
        s.len() > 0,
    decreases s.len(),
{
    if s.len() <= 1 {
        0
    } else {
        let r = nearest_pos(s.drop_last(), t);
        if delta(s.last().0, t) < delta(s[r].0, t) {
            s.len() - 1
        } else {
            r
        }
    }
}

/// `nearest_pos` is in range, attains the least distance to `t`, and is the
/// first position to attain it.
pub proof fn lemma_nearest_pos(s: Seq<(u64, usize)>, t: u64)
    requires
        s.len() > 0,
    ensures
        0 <= nearest_pos(s, t) < s.len(),
        forall|k: int|
            0 <= k < s.len() ==> delta(s[nearest_pos(s, t)].0, t) <= delta(#[trigger] s[k].0, t),
        forall|k: int|
            0 <= k < nearest_pos(s, t) ==> delta(#[trigger] s[k].0, t) > delta(
                s[nearest_pos(s, t)].0,
                t,
            ),
    decreases s.len(),
{
    if s.len() == 1 {
    } else {
        let d = s.drop_last();
        lemma_nearest_pos(d, t);
        let r = nearest_pos(d, t);
        let np = nearest_pos(s, t);
        assert(forall|k: int| 0 <= k < d.len() ==> #[trigger] d[k] == s[k]);
        if delta(s.last().0, t) < delta(s[r].0, t) {
            assert(np == s.len() - 1);
            assert forall|k: int| 0 <= k < s.len() implies delta(s[np].0, t) <= delta(
                #[trigger] s[k].0,
                t,
            ) by {
                if k < s.len() - 1 {
                    assert(delta(d[r].0, t) <= delta(d[k].0, t));
                }
            }
            assert forall|k: int| 0 <= k < np implies delta(#[trigger] s[k].0, t) > delta(
                s[np].0,
                t,
            ) by {
                assert(delta(d[r].0, t) <= delta(d[k].0, t));
            }
        } else {
            assert(np == r);
            assert forall|k: int| 0 <= k < s.len() implies delta(s[np].0, t) <= delta(
                #[trigger] s[k].0,
                t,
            ) by {
                if k < s.len() - 1 {
                    assert(delta(d[r].0, t) <= delta(d[k].0, t));
                }
            }
            assert forall|k: int| 0 <= k < np implies delta(#[trigger] s[k].0, t) > delta(
                s[np].0,
                t,
            ) by {
                assert(delta(d[k].0, t) > delta(d[r].0, t));
            }
        }
    }
}

/// A position that attains the least distance to `t` and is preceded only by
/// strictly farther positions is `nearest_pos`.
proof fn lemma_nearest_pos_unique(s: Seq<(u64, usize)>, t: u64, p: int)
    requires
        s.len() > 0,
        0 <= p < s.len(),
        forall|k: int| 0 <= k < s.len() ==> delta(s[p].0, t) <= delta(#[trigger] s[k].0, t),
        forall|k: int| 0 <= k < p ==> delta(#[trigger] s[k].0, t) > delta(s[p].0, t),
    ensures
        p == nearest_pos(s, t),
{
    lemma_nearest_pos(s, t);
    let np = nearest_pos(s, t);
    assert(delta(s[np].0, t) <= delta(s[p].0, t));
    assert(delta(s[p].0, t) <= delta(s[np].0, t));
}

/// The first position of `s` whose instant is at least `t`, by binary search.
fn lower_bound(s: &Vec<(u64, usize)>, t: u64) -> (r: usize)
    requires
        forall|i: int, j: int| 0 <= i < j < s@.len() ==> lex_leq(#[trigger] s@[i], #[trigger] s@[j]),
    ensures
        r <= s@.len(),
        forall|k: int| 0 <= k < r ==> (#[trigger] s@[k]).0 < t,
        forall|k: int| r <= k < s@.len() ==> (#[trigger] s@[k]).0 >= t,
{
    let mut lo: usize = 0;
    let mut hi: usize = s.len();
    while lo < hi
        invariant
            lo <= hi <= s@.len(),
            forall|i: int, j: int| 0 <= i < j < s@.len() ==> lex_leq(
                #[trigger] s@[i],
                #[trigger] s@[j],
            ),
            forall|k: int| 0 <= k < lo ==> (#[trigger] s@[k]).0 < t,
            forall|k: int| hi <= k < s@.len() ==> (#[trigger] s@[k]).0 >= t,
        decreases hi - lo,
    {
        let mid = lo + (hi - lo) / 2;
        if s[mid].0 < t {
            assert forall|k: int| 0 <= k < mid + 1 implies (#[trigger] s@[k]).0 < t by {
                if k < mid {
                    assert(lex_leq(s@[k], s@[mid as int]));
                }
            }
            lo = mid + 1;
        } else {
            assert forall|k: int| mid <= k < s@.len() implies (#[trigger] s@[k]).0 >= t by {
                if k > mid {
                    assert(lex_leq(s@[mid as int], s@[k]));
                }
            }
            hi = mid;
        }
    }
    lo
}

/// The first position of `s` whose instant is nearest to `t`: binary search
/// for the insertion point of `t`, then a comparison of its two neighbours,
/// a tie going to the earlier one.
pub fn nearest_in(s: &Vec<(u64, usize)>, t: u64) -> (r: usize)
    requires
        s@.len() > 0,
        forall|i: int, j: int| 0 <= i < j < s@.len() ==> lex_leq(#[trigger] s@[i], #[trigger] s@[j]),
    ensures
        r as int == nearest_pos(s@, t),
{
    let lo = lower_bound(s, t);
    let pick: usize;
    if lo == s.len() {
        let v = s[s.len() - 1].0;
        pick = lower_bound(s, v);
        proof {
            assert forall|k: int| 0 <= k < s@.len() implies (#[trigger] s@[k]).0 <= v by {
                if k < s@.len() - 1 {
                    assert(lex_leq(s@[k], s@[s@.len() - 1]));
                }
            }
            assert(pick as int <= s@.len() - 1);
            assert(s@[pick as int].0 == v);
            assert(v < t);
            assert forall|k: int| 0 <= k < s@.len() implies delta(s@[pick as int].0, t) <= delta(
                (#[trigger] s@[k]).0,
                t,
            ) by {
                assert(s@[k].0 <= v);
                assert(s@[k].0 < t);
            }
            assert forall|k: int| 0 <= k < pick implies delta((#[trigger] s@[k]).0, t) > delta(
                s@[pick as int].0,
                t,
            ) by {
                assert(s@[k].0 < v);
            }
        }
    } else if lo == 0 {
        pick = 0;
        proof {
            assert forall|k: int| 0 <= k < s@.len() implies delta(s@[0].0, t) <= delta(
                (#[trigger] s@[k]).0,
                t,
            ) by {
                if k > 0 {
                    assert(lex_leq(s@[0], s@[k]));
                }
            }
        }
    } else {
        let dl = t - s[lo - 1].0;
        let dr = s[lo].0 - t;
        if dl <= dr {
            let v = s[lo - 1].0;
            pick = lower_bound(s, v);
            proof {
                assert(pick <= lo - 1);
                assert(lex_leq(s@[pick as int], s@[lo - 1]) || pick as int == lo - 1);
                assert(s@[pick as int].0 == v);
                assert forall|k: int| 0 <= k < s@.len() implies delta(s@[pick as int].0, t)
                    <= delta((#[trigger] s@[k]).0, t) by {
                    if k < lo {
                        if k < lo - 1 {
                            assert(lex_leq(s@[k], s@[lo - 1]));
                        }
                        assert(s@[k].0 <= v);
                    } else {
                        if k > lo {
                            assert(lex_leq(s@[lo as int], s@[k]));
                        }
                        assert(s@[k].0 >= s@[lo as int].0);
                    }
                }
                assert forall|k: int| 0 <= k < pick implies delta((#[trigger] s@[k]).0, t) > delta(
                    s@[pick as int].0,
                    t,
                ) by {
                    assert(s@[k].0 < v);
                    assert(s@[k].0 < t);
                }
            }
        } else {
            pick = lo;
            proof {
                assert forall|k: int| 0 <= k < s@.len() implies delta(s@[lo as int].0, t) <= delta(
                    (#[trigger] s@[k]).0,
                    t,
                ) by {
                    if k < lo {
                        if k < lo - 1 {
                            assert(lex_leq(s@[k], s@[lo - 1]));
                        }
                        assert(s@[k].0 <= s@[lo - 1].0);
                    } else if k > lo {
                        assert(lex_leq(s@[lo as int], s@[k]));
                    }
                }
                assert forall|k: int| 0 <= k < lo implies delta((#[trigger] s@[k]).0, t) > delta(
                    s@[lo as int].0,
                    t,
                ) by {
                    if k < lo - 1 {
                        assert(lex_leq(s@[k], s@[lo - 1]));
                    }
                    assert(s@[k].0 <= s@[lo - 1].0);
                }
            }
        }
    }
    proof {
        lemma_nearest_pos_unique(s@, t, pick as int);
    }
    pick
}

} // verus!
