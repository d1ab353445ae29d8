//! Length-weighted order statistic over depth runs.
use vstd::prelude::*;
use rand::Rng;
use rayon::slice::ParallelSliceMut;
use crate::run::{
    lemma_total_len_bound, lemma_sum_of_concat, lemma_sum_of_nonneg, lemma_sum_of_permutation, lemma_sum_of_push, len_ge,
    len_of, sum_of, total_len, weight_ge, Range,
};

verus! {

/// `r` is the depth met, in descending order of depth, where the number of
/// positions seen first reaches `k`: the largest depth present in `s` such
/// that at least `k` positions have that depth or more.
pub open spec fn is_selected(s: Seq<Range>, k: int, r: u16) -> bool {
    &&& exists|i: int| 0 <= i < s.len() && s[i].value == r
    &&& weight_ge(s, r as int) >= k
    &&& forall|i: int| 0 <= i < s.len() && s[i].value > r ==> weight_ge(s, s[i].value as int) < k
}

/// The sort-based and the partition-based selections agree: each returns a
/// selected depth, and for given runs and rank at most one depth is selected.
pub proof fn lemma_selection_unique(s: Seq<Range>, k: int, a: u16, b: u16)
    requires
        is_selected(s, k, a),
        is_selected(s, k, b),
    ensures
        a == b,
{
    if a < b {
        let i = choose|i: int| 0 <= i < s.len() && s[i].value == b;
        assert(weight_ge(s, s[i].value as int) < k);
    } else if b < a {
        let i = choose|i: int| 0 <= i < s.len() && s[i].value == a;
        assert(weight_ge(s, s[i].value as int) < k);
    }
}

/// The selected depth depends only on the runs, not on their order.
pub proof fn lemma_selection_permutation(s: Seq<Range>, t: Seq<Range>, k: int, r: u16)
    requires
        s.to_multiset() =~= t.to_multiset(),
        is_selected(s, k, r),
    ensures
        is_selected(t, k, r),
{
    broadcast use vstd::seq_lib::group_to_multiset_ensures;
    let i = choose|i: int| 0 <= i < s.len() && s[i].value == r;
    assert(s.to_multiset().count(s[i]) > 0);
    assert(t.to_multiset().contains(s[i]));
    lemma_sum_of_permutation(s, t, len_ge(r as int));
    assert forall|j: int| 0 <= j < t.len() && t[j].value > r implies weight_ge(t, t[j].value as int) < k by {
        assert(t.to_multiset().count(t[j]) > 0);
        assert(s.to_multiset().contains(t[j]));
        let m = choose|m: int| 0 <= m < s.len() && s[m] == t[j];
        lemma_sum_of_permutation(s, t, len_ge(t[j].value as int));
    }
}

pub open spec fn value_gt(p: u16) -> spec_fn(Range) -> bool {
    |r: Range| r.value > p
}

pub open spec fn value_lt(p: u16) -> spec_fn(Range) -> bool {
    |r: Range| r.value < p
}

pub open spec fn len_eq(p: u16) -> spec_fn(Range) -> int {
    |r: Range| if r.value == p { r.length as int } else { 0 }
}

proof fn lemma_weight_ge_zero(s: Seq<Range>)
    ensures
        weight_ge(s, 0) == total_len(s),
    decreases s.len(),
{
    if s.len() > 0 {
        lemma_weight_ge_zero(s.drop_last());
    }
}

proof fn lemma_split_above(s: Seq<Range>, p: u16, v: int)
    requires
        v > p,
    ensures
        weight_ge(s, v) == weight_ge(s.filter(value_gt(p)), v),
    decreases s.len(),
{
    if s.len() > 0 {
        let d = s.drop_last();
        assert(s =~= d.push(s.last()));
        d.lemma_filter_push(s.last(), value_gt(p));
        lemma_split_above(d, p, v);
        lemma_sum_of_push(d.filter(value_gt(p)), s.last(), len_ge(v));
    }
}

proof fn lemma_split_below(s: Seq<Range>, p: u16, v: int)
    requires
        v <= p,
    ensures
        weight_ge(s, v) == total_len(s.filter(value_gt(p))) + sum_of(s, len_eq(p))
            + weight_ge(s.filter(value_lt(p)), v),
    decreases s.len(),
{
    if s.len() > 0 {
        let d = s.drop_last();
        let x = s.last();
        assert(s =~= d.push(x));
        d.lemma_filter_push(x, value_gt(p));
        d.lemma_filter_push(x, value_lt(p));
        lemma_split_below(d, p, v);
        lemma_sum_of_push(d.filter(value_gt(p)), x, len_of());
        lemma_sum_of_push(d.filter(value_lt(p)), x, len_ge(v));
    }
}

proof fn lemma_prefix_len(s: Seq<Range>, i: int)
    requires
        0 <= i <= s.len(),
    ensures
        total_len(s.take(i)) <= total_len(s),
{
    assert(s =~= s.take(i) + s.skip(i));
    lemma_sum_of_concat(s.take(i), s.skip(i), len_of());
    lemma_sum_of_nonneg(s.skip(i), 0);
}

proof fn lemma_filter_members(s: Seq<Range>, pred: spec_fn(Range) -> bool)
    ensures
        forall|i: int| 0 <= i < s.filter(pred).len() ==> s.contains(#[trigger] s.filter(pred)[i]),
        forall|i: int| 0 <= i < s.len() && pred(s[i]) ==> s.filter(pred).contains(#[trigger] s[i]),
{
    broadcast use vstd::seq_lib::group_filter_ensures;

    assert forall|i: int| 0 <= i < s.filter(pred).len() implies s.contains(
        #[trigger] s.filter(pred)[i],
    ) by {
        assert(s.filter(pred).contains(s.filter(pred)[i]));
        s.lemma_filter_contains_rev(pred, s.filter(pred)[i]);
    }
}

proof fn lemma_below_pivot(s: Seq<Range>, p: u16)
    ensures
        weight_ge(s.filter(value_lt(p)), p as int) == 0,
    decreases s.len(),
{
    if s.len() > 0 {
        let d = s.drop_last();
        assert(s =~= d.push(s.last()));
        d.lemma_filter_push(s.last(), value_lt(p));
        lemma_below_pivot(d, p);
        lemma_sum_of_push(d.filter(value_lt(p)), s.last(), len_ge(p as int));
    }
}

proof fn lemma_filter_shorter(s: Seq<Range>, pred: spec_fn(Range) -> bool, i: int)
    requires
        0 <= i < s.len(),
        !pred(s[i]),
    ensures
        s.filter(pred).len() < s.len(),
    decreases s.len(),
{
    let d = s.drop_last();
    assert(s =~= d.push(s.last()));
    d.lemma_filter_push(s.last(), pred);
    d.lemma_filter_len(pred);
    if i < s.len() - 1 {
        lemma_filter_shorter(d, pred, i);
    }
}

/// Relies on rand's `Rng::gen_range`: a uniformly drawn index below `n`.
#[verifier::external_body]
fn random_index(n: usize) -> (r: usize)
    requires
        n > 0,
    ensures
        r < n,
{
    rand::thread_rng().gen_range(0..n)
}

/// Weighted selection: partitions the runs around a randomly drawn pivot
/// depth and descends into the side that holds the rank `k`.
pub fn quick_select(runs: &Vec<Range>, k: u64) -> (r: u16)
    requires
        runs.len() > 0,
        k <= total_len(runs@) || runs.len() == 1,
    ensures
        runs.len() == 1 ==> r == runs[0].value,
        k <= total_len(runs@) ==> is_selected(runs@, k as int, r),
    decreases runs.len(),
{
    if runs.len() == 1 {
        proof {
            let s = runs@;
            assert(s.drop_last() =~= Seq::<Range>::empty());
            assert(weight_ge(s, s[0].value as int) == weight_ge(s.drop_last(), s[0].value as int)
                + s[0].length);
            assert(total_len(s) == total_len(s.drop_last()) + s[0].length);
        }
        return runs[0].value;
    }
    let pi = random_index(runs.len());
    let pivot = runs[pi].value;
    let mut greater: Vec<Range> = Vec::new();
    let mut less: Vec<Range> = Vec::new();
    let mut g_sum: u128 = 0;
    let mut e_sum: u128 = 0;
    proof {
        lemma_total_len_bound(runs@);
        assert(runs@.len() * 0xffff_ffff <= 0xffff_ffff_ffff_ffff * 0xffff_ffff) by (nonlinear_arith)
            requires runs@.len() <= 0xffff_ffff_ffff_ffff;
    }
    let mut i: usize = 0;
    while i < runs.len()
        invariant
            i <= runs.len(),
            total_len(runs@) <= 0xffff_ffff_ffff_ffff * 0xffff_ffff,
            greater@ == runs@.take(i as int).filter(value_gt(pivot)),
            less@ == runs@.take(i as int).filter(value_lt(pivot)),
            g_sum == total_len(greater@),
            e_sum == sum_of(runs@.take(i as int), len_eq(pivot)),
            g_sum + e_sum <= total_len(runs@.take(i as int)),
        decreases runs.len() - i,
    {
        let x = runs[i];
        proof {
            let t = runs@.take(i as int);
            assert(runs@.take(i + 1) =~= t.push(x));
            t.lemma_filter_push(x, value_gt(pivot));
            t.lemma_filter_push(x, value_lt(pivot));
            lemma_sum_of_push(t, x, len_eq(pivot));
            lemma_sum_of_push(t, x, len_of());
            lemma_sum_of_push(greater@, x, len_of());
            lemma_prefix_len(runs@, i + 1);
            lemma_split_below(runs@.take(i + 1), pivot, 0);
            lemma_weight_ge_zero(runs@.take(i + 1));
            lemma_weight_ge_zero(runs@.take(i + 1).filter(value_lt(pivot)));
            lemma_sum_of_nonneg(runs@.take(i + 1).filter(value_lt(pivot)), 0);
        }
        if x.value > pivot {
            greater.push(x);
            g_sum = g_sum + x.length as u128;
        } else if x.value < pivot {
            less.push(x);
        } else {
            e_sum = e_sum + x.length as u128;
        }
        i = i + 1;
    }
    let ghost s = runs@;
    proof {
        assert(s.take(s.len() as int) =~= s);
        lemma_filter_members(s, value_gt(pivot));
        lemma_filter_members(s, value_lt(pivot));
        lemma_split_below(s, pivot, pivot as int);
        lemma_split_below(s, pivot, 0);
        lemma_weight_ge_zero(s);
        lemma_weight_ge_zero(s.filter(value_lt(pivot)));
        lemma_sum_of_nonneg(s.filter(value_lt(pivot)), pivot as int);
        lemma_sum_of_nonneg(s.filter(value_gt(pivot)), 0);
        lemma_below_pivot(s, pivot);
    }
    if greater.len() > 0 && k as u128 <= g_sum {
        proof {
            lemma_filter_shorter(s, value_gt(pivot), pi as int);
            lemma_sum_of_nonneg(s.filter(value_lt(pivot)), 0);
        }
        let r = quick_select(&greater, k);
        proof {
            if k <= total_len(s) {
                let j = choose|j: int| 0 <= j < greater@.len() && greater@[j].value == r;
                assert(s.contains(greater@[j]));
                lemma_split_above(s, pivot, r as int);
                assert forall|m: int| 0 <= m < s.len() && s[m].value > r implies weight_ge(
                    s,
                    s[m].value as int,
                ) < k by {
                    assert(greater@.contains(s[m]));
                    lemma_split_above(s, pivot, s[m].value as int);
                }
            }
        }
        r
    } else if k as u128 <= g_sum + e_sum {
        proof {
            if k <= total_len(s) {
                assert forall|m: int| 0 <= m < s.len() && s[m].value > pivot implies weight_ge(
                    s,
                    s[m].value as int,
                ) < k by {
                    assert(greater@.contains(s[m]));
                    lemma_split_above(s, pivot, s[m].value as int);
                    lemma_sum_of_nonneg(greater@, s[m].value as int);
                }
            }
        }
        pivot
    } else {
        proof {
            lemma_filter_shorter(s, value_lt(pivot), pi as int);
        }
        let r = quick_select(&less, (k as u128 - g_sum - e_sum) as u64);
        proof {
            let j = choose|j: int| 0 <= j < less@.len() && less@[j].value == r;
            assert(s.contains(less@[j]));
            lemma_split_below(s, pivot, r as int);
            assert forall|m: int| 0 <= m < s.len() && s[m].value > r implies weight_ge(
                s,
                s[m].value as int,
            ) < k by {
                if s[m].value < pivot {
                    assert(less@.contains(s[m]));
                    lemma_split_below(s, pivot, s[m].value as int);
                } else if s[m].value == pivot {
                    lemma_split_below(s, pivot, pivot as int);
                } else {
                    lemma_split_above(s, pivot, s[m].value as int);
                    lemma_sum_of_nonneg(greater@, s[m].value as int);
                }
            }
        }
        r
    }
}

/// Runs ordered by descending depth.
pub open spec fn sorted_desc(s: Seq<Range>) -> bool {
    forall|i: int, j: int| 0 <= i < j < s.len() ==> s[i].value >= s[j].value
}

/// Relies on rayon's `par_sort_unstable_by`: the runs are reordered, none
/// added or lost, into descending order of depth.
#[verifier::external_body]
fn sort_by_depth_desc(runs: &mut Vec<Range>)
    ensures
        final(runs)@.to_multiset() =~= old(runs)@.to_multiset(),
        sorted_desc(final(runs)@),
{
    runs.par_sort_unstable_by(|a, b| b.value.cmp(&a.value))
}

proof fn lemma_all_at_least(s: Seq<Range>, v: int)
    requires
        forall|i: int| 0 <= i < s.len() ==> s[i].value >= v,
    ensures
        weight_ge(s, v) == total_len(s),
    decreases s.len(),
{
    if s.len() > 0 {
        lemma_all_at_least(s.drop_last(), v);
    }
}

proof fn lemma_all_below(s: Seq<Range>, v: int)
    requires
        forall|i: int| 0 <= i < s.len() ==> s[i].value < v,
    ensures
        weight_ge(s, v) == 0,
    decreases s.len(),
{
    if s.len() > 0 {
        lemma_all_below(s.drop_last(), v);
    }
}

/// Selection by full ordering: sorts the runs by descending depth, then
/// walks them until the positions seen reach `k`.
pub fn sort_select(runs: &mut Vec<Range>, k: u64) -> (r: u16)
    requires
        old(runs).len() > 0,
        k <= total_len(old(runs)@) || old(runs).len() == 1,
    ensures
        final(runs)@.to_multiset() =~= old(runs)@.to_multiset(),
        sorted_desc(final(runs)@),
        old(runs).len() == 1 ==> r == old(runs)[0].value,
        k <= total_len(old(runs)@) ==> is_selected(old(runs)@, k as int, r),
{
    sort_by_depth_desc(runs);
    let ghost s = runs@;
    proof {
        broadcast use vstd::seq_lib::group_to_multiset_ensures;

        lemma_sum_of_permutation(old(runs)@, s, len_of());
        vstd::seq_lib::to_multiset_len(s);
        vstd::seq_lib::to_multiset_len(old(runs)@);
        assert(s.len() == old(runs)@.len());
    }
    if runs.len() == 1 {
        proof {
            assert(s.drop_last() =~= Seq::<Range>::empty());
            assert(weight_ge(s, s[0].value as int) == weight_ge(s.drop_last(), s[0].value as int)
                + s[0].length);
            assert(total_len(s) == total_len(s.drop_last()) + s[0].length);
            broadcast use vstd::seq_lib::group_to_multiset_ensures;

            assert(old(runs)@.to_multiset().contains(s[0]));
            if k <= total_len(old(runs)@) {
                lemma_selection_permutation(s, old(runs)@, k as int, s[0].value);
            }
        }
        return runs[0].value;
    }
    let mut cum: u128 = 0;
    let mut i: usize = 0;
    proof {
        lemma_total_len_bound(s);
        assert(s.len() * 0xffff_ffff <= 0xffff_ffff_ffff_ffff * 0xffff_ffff) by (nonlinear_arith)
            requires s.len() <= 0xffff_ffff_ffff_ffff;
    }
    while i < runs.len()
        invariant
            runs@ == s,
            i <= s.len(),
            sorted_desc(s),
            total_len(s) <= 0xffff_ffff_ffff_ffff * 0xffff_ffff,
            cum == total_len(s.take(i as int)),
            cum < k || i == 0,
            i == 0 ==> cum == 0,
            s.to_multiset() =~= old(runs)@.to_multiset(),
        decreases s.len() - i,
    {
        let x = runs[i];
        proof {
            assert(s.take(i + 1) =~= s.take(i as int).push(x));
            lemma_sum_of_push(s.take(i as int), x, len_of());
            lemma_prefix_len(s, i + 1);
        }
        cum = cum + x.length as u128;
        if cum >= k as u128 {
            proof {
                let t = s.take(i + 1);
                lemma_all_at_least(t, x.value as int);
                assert(s =~= t + s.skip(i + 1));
                lemma_sum_of_concat(t, s.skip(i + 1), len_ge(x.value as int));
                lemma_sum_of_nonneg(s.skip(i + 1), x.value as int);
                assert forall|m: int| 0 <= m < s.len() && s[m].value > x.value implies weight_ge(
                    s,
                    s[m].value as int,
                ) < k by {
                    let v = s[m].value as int;
                    let h = s.take(i as int);
                    assert(s =~= h + s.skip(i as int));
                    lemma_sum_of_concat(h, s.skip(i as int), len_ge(v));
                    lemma_all_below(s.skip(i as int), v);
                    lemma_sum_of_nonneg(h, v);
                }
                lemma_selection_permutation(s, old(runs)@, k as int, x.value);
            }
            return x.value;
        }
        i = i + 1;
    }
    proof {
        assert(s.take(s.len() as int) =~= s);
        lemma_sum_of_permutation(old(runs)@, s, len_of());
    }
    0
}

} // verus!
