//! Reduction of the runs into the reported statistics, as exact integers.
use vstd::prelude::*;
use vstd::string::StringSliceAdditionalSpecFns;
use crate::bytes::{
    all_digits, digits_value, find_byte, first_index, is_digit, is_digits, lemma_first_index_range,
    parse_u32, trim_range, trimmed, COMMA,
};
use crate::run::{
    len_ge, len_of, depth_of, sq_depth_of, lemma_sum_of_nonneg, lemma_sum_of_permutation,
    lemma_sum_of_push, lemma_weight_ge_antitone, sum_of, total_depth_of, total_len, weight_ge,
    Coverage, Range,
};
use crate::select::{is_selected, lemma_selection_permutation, quick_select, sort_select};

verus! {

/// Squared depth summed over all positions.
pub open spec fn sq_sum(s: Seq<Range>) -> int {
    sum_of(s, sq_depth_of())
}

/// Positions of a run whose depth is above a fifth of the mean depth
/// `d / n`, that is `5 * n * value > d`.
pub open spec fn len_above_fifth(n: int, d: int) -> spec_fn(Range) -> int {
    |r: Range| if 5 * n * r.value > d { r.length as int } else { 0 }
}

/// Number of positions whose depth is above a fifth of the mean depth.
pub open spec fn above_fifth(s: Seq<Range>) -> int {
    sum_of(s, len_above_fifth(total_len(s), total_depth_of(s)))
}

/// The rank, counted from the deepest position, of the percentile depth:
/// a fifth of the covered positions.
pub open spec fn q20_rank(s: Seq<Range>) -> int {
    weight_ge(s, 1) / 5
}

/// How the percentile depth is found.
#[derive(Clone, Copy, Debug, PartialEq, Eq, Structural)]
pub enum Selection {
    /// Full ordering of the runs by depth.
    Sort,
    /// Weighted selection around random pivots.
    QuickSelect,
}

#[derive(Clone, Copy, Debug, PartialEq, Eq, Structural)]
pub enum StatsError {
    /// No position was scanned, so no mean exists.
    DivisionByZero,
}

/// The statistics of a set of runs. The ratios derive from these: mean
/// depth `total_depth / total_bases`, coverage at a threshold
/// `100 * threshold_bases[i] / total_bases`, variance
/// `sum_sq / total_bases - mean * mean`, Fold80 `q20 / mean`, and the share
/// above a fifth of the mean `100 * above_fifth_mean / total_bases`.
#[derive(Debug)]
pub struct Report {
    pub total_bases: u64,
    pub cov_bases: u64,
    pub total_depth: u64,
    pub threshold_bases: Vec<u64>,
    pub sum_sq: u128,
    pub q20: u16,
    pub above_fifth_mean: u64,
}

/// The depth thresholds reported when none are given: 1, 10, 20, 30 and 50.
pub fn default_thresholds() -> (r: Vec<u16>)
    ensures
        r@ == seq![1u16, 10, 20, 30, 50],
{
    let r: Vec<u16> = vec![1, 10, 20, 30, 50];
    proof {
        assert(r@ =~= seq![1u16, 10, 20, 30, 50]);
    }
    r
}

/// `rep` holds the statistics of the runs `s` at the thresholds `th`.
pub open spec fn report_matches(rep: Report, s: Seq<Range>, th: Seq<u16>) -> bool {
    &&& rep.total_bases == total_len(s)
    &&& rep.cov_bases == weight_ge(s, 1)
    &&& rep.total_depth == total_depth_of(s)
    &&& rep.threshold_bases@.len() == th.len()
    &&& forall|i: int| 0 <= i < th.len() ==> #[trigger] rep.threshold_bases@[i] == weight_ge(s, th[i] as int)
    &&& rep.sum_sq == sq_sum(s)
    &&& rep.above_fifth_mean == above_fifth(s)
    &&& is_selected(s, q20_rank(s), rep.q20)
}

fn count_at_least(runs: &Vec<Range>, t: u16) -> (r: u64)
    requires
        total_len(runs@) <= u64::MAX,
    ensures
        r == weight_ge(runs@, t as int),
{
    let mut acc: u64 = 0;
    let mut i: usize = 0;
    while i < runs.len()
        invariant
            i <= runs@.len(),
            total_len(runs@) <= u64::MAX,
            acc == weight_ge(runs@.take(i as int), t as int),
        decreases runs@.len() - i,
    {
        proof {
            let p = runs@.take(i as int);
            assert(runs@.take(i + 1) =~= p.push(runs@[i as int]));
            lemma_sum_of_push(p, runs@[i as int], len_ge(t as int));
            lemma_prefix_fits(runs@, i + 1);
            lemma_sum_of_nonneg(runs@.take(i + 1), t as int);
        }
        if runs[i].value >= t {
            acc = acc + runs[i].length as u64;
        }
        i = i + 1;
    }
    proof {
        assert(runs@.take(runs@.len() as int) =~= runs@);
    }
    acc
}

proof fn lemma_prefix_fits(s: Seq<Range>, i: int)
    requires
        0 <= i <= s.len(),
    ensures
        total_len(s.take(i)) <= total_len(s),
        sq_sum(s.take(i)) <= sq_sum(s),
{
    assert(s =~= s.take(i) + s.skip(i));
    crate::run::lemma_sum_of_concat(s.take(i), s.skip(i), len_of());
    crate::run::lemma_sum_of_concat(s.take(i), s.skip(i), sq_depth_of());
    lemma_sum_of_nonneg(s.skip(i), 0);
    lemma_sq_sum_bounds(s.skip(i));
}

proof fn lemma_sq_sum_bounds(s: Seq<Range>)
    ensures
        0 <= sq_sum(s) <= total_len(s) * (0xffff * 0xffff),
    decreases s.len(),
{
    if s.len() > 0 {
        lemma_sq_sum_bounds(s.drop_last());
        let r = s.last();
        let v = r.value as int;
        let l = r.length as int;
        assert(0 <= v * v <= 0xffff * 0xffff) by (nonlinear_arith)
            requires 0 <= v <= 0xffff;
        assert(0 <= l * (v * v) <= l * (0xffff * 0xffff)) by (nonlinear_arith)
            requires 0 <= v * v <= 0xffff * 0xffff, 0 <= l;
        assert(total_len(s) * (0xffff * 0xffff) == total_len(s.drop_last()) * (0xffff * 0xffff) + l
            * (0xffff * 0xffff)) by (nonlinear_arith)
            requires total_len(s) == total_len(s.drop_last()) + l;
    }
}

fn square_sum(runs: &Vec<Range>) -> (r: u128)
    requires
        total_len(runs@) <= u64::MAX,
    ensures
        r == sq_sum(runs@),
{
    let mut acc: u128 = 0;
    let mut i: usize = 0;
    proof {
        lemma_sq_sum_bounds(runs@);
        assert(total_len(runs@) * (0xffff * 0xffff) <= u64::MAX * (0xffff * 0xffff)) by (nonlinear_arith)
            requires total_len(runs@) <= u64::MAX;
    }
    while i < runs.len()
        invariant
            i <= runs@.len(),
            total_len(runs@) <= u64::MAX,
            sq_sum(runs@) <= u64::MAX * (0xffff * 0xffff),
            acc == sq_sum(runs@.take(i as int)),
        decreases runs@.len() - i,
    {
        let x = runs[i];
        proof {
            let p = runs@.take(i as int);
            assert(runs@.take(i + 1) =~= p.push(x));
            lemma_sum_of_push(p, x, sq_depth_of());
            lemma_prefix_fits(runs@, i + 1);
            lemma_sq_sum_bounds(runs@.take(i + 1));
            assert(x.length as int * (x.value as int * x.value as int) >= 0) by (nonlinear_arith);
            assert(x.value as u128 * x.value as u128 <= 0xffff * 0xffff) by (nonlinear_arith);
            assert(x.length as u128 * (x.value as u128 * x.value as u128) <= 0xffff_ffff * (0xffff
                * 0xffff)) by (nonlinear_arith)
                requires x.value as u128 * x.value as u128 <= 0xffff * 0xffff;
        }
        acc = acc + x.length as u128 * (x.value as u128 * x.value as u128);
        i = i + 1;
    }
    proof {
        assert(runs@.take(runs@.len() as int) =~= runs@);
    }
    acc
}

fn count_above_fifth(runs: &Vec<Range>, n: u64, d: u64) -> (r: u64)
    requires
        total_len(runs@) <= u64::MAX,
    ensures
        r == sum_of(runs@, len_above_fifth(n as int, d as int)),
{
    let mut acc: u64 = 0;
    let mut i: usize = 0;
    while i < runs.len()
        invariant
            i <= runs@.len(),
            total_len(runs@) <= u64::MAX,
            acc == sum_of(runs@.take(i as int), len_above_fifth(n as int, d as int)),
            acc <= total_len(runs@.take(i as int)),
        decreases runs@.len() - i,
    {
        let x = runs[i];
        proof {
            let p = runs@.take(i as int);
            assert(runs@.take(i + 1) =~= p.push(x));
            lemma_sum_of_push(p, x, len_above_fifth(n as int, d as int));
            lemma_sum_of_push(p, x, len_of());
            lemma_prefix_fits(runs@, i + 1);
            assert(5 * (n as u128) * (x.value as u128) <= 5 * 0xffff_ffff_ffff_ffff * 0xffff) by (nonlinear_arith);
        }
        if 5 * (n as u128) * (x.value as u128) > d as u128 {
            acc = acc + x.length as u64;
        }
        i = i + 1;
    }
    proof {
        assert(runs@.take(runs@.len() as int) =~= runs@);
    }
    acc
}

/// The statistics of the collected runs at the given depth thresholds;
/// fails when no position was scanned.
pub fn cov_stat(cov: &Coverage, thresholds: &Vec<u16>, how: Selection) -> (r: Result<
    Report,
    StatsError,
>)
    requires
        cov.wf(),
    ensures
        r is Err <==> total_len(cov@) == 0,
        r is Err ==> r == Err::<Report, StatsError>(StatsError::DivisionByZero),
        r matches Ok(rep) ==> report_matches(rep, cov@, thresholds@),
{
    let n = cov.all_length();
    if n == 0 {
        return Err(StatsError::DivisionByZero);
    }
    let runs = cov.runs();
    proof {
        cov.lemma_fits();
        lemma_sum_of_nonneg(runs@, 1);
    }
    let d = cov.total_depth();
    let x1 = cov.depth_x1();
    // One count per threshold, in the order given: a `Vec` beside the
    // thresholds instead of a map keyed by threshold, so that the contract
    // can name each count by its position.
    let mut threshold_bases: Vec<u64> = Vec::new();
    let mut i: usize = 0;
    while i < thresholds.len()
        invariant
            i <= thresholds@.len(),
            total_len(runs@) <= u64::MAX,
            threshold_bases@.len() == i,
            forall|j: int| 0 <= j < i ==> #[trigger] threshold_bases@[j] == weight_ge(runs@, thresholds@[j] as int),
        decreases thresholds@.len() - i,
    {
        threshold_bases.push(count_at_least(runs, thresholds[i]));
        i = i + 1;
    }
    let sum_sq = square_sum(runs);
    let above = count_above_fifth(runs, n, d);
    let rank = x1 / 5;
    let mut work: Vec<Range> = Vec::new();
    let mut j: usize = 0;
    while j < runs.len()
        invariant
            j <= runs@.len(),
            work@ == runs@.take(j as int),
        decreases runs@.len() - j,
    {
        work.push(runs[j]);
        proof {
            assert(work@ =~= runs@.take(j + 1));
        }
        j = j + 1;
    }
    proof {
        assert(work@ =~= runs@);
        // some run has positions, so there is one
        if runs@.len() == 0 {
            assert(total_len(runs@) == 0);
        }
    }
    let q20 = match how {
        Selection::Sort => sort_select(&mut work, rank),
        Selection::QuickSelect => quick_select(&work, rank),
    };
    Ok(Report { total_bases: n, cov_bases: x1, total_depth: d, threshold_bases, sum_sq, q20, above_fifth_mean: above })
}

/// The statistics depend only on which runs were collected, not on their
/// order: runs merged from partial scans in any order report exactly what
/// one sequential scan reports.
pub proof fn lemma_report_permutation(rep: Report, a: Seq<Range>, b: Seq<Range>, th: Seq<u16>)
    requires
        a.to_multiset() =~= b.to_multiset(),
        report_matches(rep, a, th),
    ensures
        report_matches(rep, b, th),
{
    lemma_sum_of_permutation(a, b, len_of());
    lemma_sum_of_permutation(a, b, len_ge(1));
    lemma_sum_of_permutation(a, b, depth_of());
    lemma_sum_of_permutation(a, b, sq_depth_of());
    lemma_sum_of_permutation(a, b, len_above_fifth(total_len(a), total_depth_of(a)));
    assert forall|i: int| 0 <= i < th.len() implies #[trigger] rep.threshold_bases@[i] == weight_ge(
        b,
        th[i] as int,
    ) by {
        lemma_sum_of_permutation(a, b, len_ge(th[i] as int));
    }
    lemma_selection_permutation(a, b, q20_rank(a), rep.q20);
}

proof fn lemma_above_bounded(s: Seq<Range>, n: int, d: int)
    ensures
        0 <= sum_of(s, len_above_fifth(n, d)) <= total_len(s),
    decreases s.len(),
{
    if s.len() > 0 {
        lemma_above_bounded(s.drop_last(), n, d);
    }
}

/// Every coverage share lies between 0 and 100 percent: no more positions
/// are covered, reach a threshold, or lie above a fifth of the mean than
/// were scanned.
pub proof fn lemma_coverage_in_range(s: Seq<Range>, t: int)
    ensures
        0 <= weight_ge(s, 1) <= total_len(s),
        0 <= 100 * weight_ge(s, t) <= 100 * total_len(s),
        0 <= above_fifth(s) <= total_len(s),
{
    lemma_sum_of_nonneg(s, 1);
    lemma_sum_of_nonneg(s, t);
    lemma_above_bounded(s, total_len(s), total_depth_of(s));
}

/// Coverage never grows with the threshold: fewer positions reach `t2`
/// than reach `t1` when `t1 < t2`.
pub proof fn lemma_coverage_monotone(s: Seq<Range>, t1: int, t2: int)
    requires
        t1 < t2,
    ensures
        weight_ge(s, t2) <= weight_ge(s, t1),
{
    lemma_weight_ge_antitone(s, t1, t2);
}

/// The depth threshold an item of a threshold list writes: a decimal
/// number below 65536, with optional white space around it.
pub open spec fn threshold_item(item: Seq<u8>) -> Option<u16> {
    let t = trimmed(item);
    if is_digits(t) && digits_value(t) <= 0xffff {
        Some(digits_value(t) as u16)
    } else {
        None
    }
}

/// The thresholds of a comma-separated list, or `None` when an item is not
/// a threshold.
pub open spec fn threshold_list(b: Seq<u8>) -> Option<Seq<u16>>
    decreases b.len(),
{
    let i = first_index(b, COMMA);
    if i == -1 {
        match threshold_item(b) {
            Some(v) => Some(seq![v]),
            None => None,
        }
    } else if 0 <= i < b.len() {
        match (threshold_item(b.take(i)), threshold_list(b.skip(i + 1))) {
            (Some(v), Some(rest)) => Some(seq![v] + rest),
            _ => None,
        }
    } else {
        None
    }
}

/// Parses a comma-separated list of depth thresholds, such as `10,20,30`.
pub fn parse_thresholds(text: &str) -> (r: Option<Vec<u16>>)
    ensures
        r is Some <==> threshold_list(text.spec_bytes()) is Some,
        r matches Some(v) ==> threshold_list(text.spec_bytes()) == Some(v@),
{
    let b = text.as_bytes();
    let ghost bs = b@;
    let n = b.len();
    let mut out: Vec<u16> = Vec::new();
    let mut lo: usize = 0;
    proof {
        assert(bs.subrange(0, n as int) =~= bs);
    }
    loop
        invariant
            lo <= n == bs.len(),
            bs == b@,
            bs == text.spec_bytes(),
            threshold_list(bs) == (match threshold_list(bs.subrange(lo as int, n as int)) {
                Some(rest) => Some(out@ + rest),
                None => None::<Seq<u16>>,
            }),
        decreases n - lo,
    {
        let ghost w = bs.subrange(lo as int, n as int);
        let c = find_byte(b, lo, n, COMMA);
        let (l, h) = trim_range(b, lo, c);
        proof {
            lemma_first_index_range(w, COMMA);
            if c < n {
                assert(w.take(c - lo) =~= bs.subrange(lo as int, c as int));
                assert(w.skip(c - lo + 1) =~= bs.subrange(c + 1, n as int));
            } else {
                assert(w =~= bs.subrange(lo as int, c as int));
            }
        }
        if h == l || !all_digits(b, l, h) {
            proof {
                if h > l {
                    let k = choose|k: int| l <= k < h && !is_digit(bs[k]);
                    assert(!is_digit(bs.subrange(l as int, h as int)[k - l]));
                }
                assert(threshold_item(bs.subrange(lo as int, c as int)) is None);
                assert(threshold_list(w) is None);
            }
            return None;
        }
        let v = match parse_u32(b, l, h) {
            Some(v) => v,
            None => {
                proof {
                    assert(threshold_item(bs.subrange(lo as int, c as int)) is None);
                    assert(threshold_list(w) is None);
                }
                return None;
            },
        };
        if v > 0xffff {
            proof {
                assert(threshold_item(bs.subrange(lo as int, c as int)) is None);
                assert(threshold_list(w) is None);
            }
            return None;
        }
        proof {
            assert(threshold_item(bs.subrange(lo as int, c as int)) == Some(v as u16));
        }
        let ghost before = out@;
        out.push(v as u16);
        proof {
            assert(out@ =~= before + seq![v as u16]);
        }
        if c == n {
            proof {
                assert(before + seq![v as u16] =~= out@);
            }
            return Some(out);
        }
        proof {
            let rest = threshold_list(bs.subrange(c + 1, n as int));
            if rest is Some {
                assert(before + (seq![v as u16] + rest->0) =~= out@ + rest->0);
            }
        }
        lo = c + 1;
    }
}

} // verus!
