//! Static partition of the region list across workers.
use vstd::prelude::*;
use crate::run::Range;
use crate::stats::{lemma_report_permutation, report_matches, Report};

verus! {

/// Regions per worker: `n / workers`, rounded up.
pub open spec fn chunk_size(n: int, workers: int) -> int {
    if n % workers == 0 {
        n / workers
    } else {
        n / workers + 1
    }
}

pub open spec fn min_int(a: int, b: int) -> int {
    if a < b {
        a
    } else {
        b
    }
}

/// The bounds `[start, end)` of the part of worker `i`.
pub open spec fn chunk_of(n: int, workers: int, i: int) -> (usize, usize) {
    let c = chunk_size(n, workers);
    (min_int(i * c, n) as usize, min_int((i + 1) * c, n) as usize)
}

/// Splits `n` regions into `workers` contiguous parts of at most
/// `chunk_size(n, workers)` regions each; the parts cover every region once,
/// in order, and the last ones may be empty.
pub fn chunk_bounds(n: usize, workers: usize) -> (r: Vec<(usize, usize)>)
    requires
        workers > 0,
    ensures
        r@.len() == workers,
        forall|i: int| 0 <= i < workers ==> #[trigger] r@[i] == chunk_of(n as int, workers as int, i),
        r@[0].0 == 0,
        forall|i: int| 0 <= i < workers - 1 ==> #[trigger] r@[i].1 == r@[i + 1].0,
        r@[workers - 1].1 == n,
        forall|i: int| 0 <= i < workers ==> #[trigger] r@[i].0 <= r@[i].1 <= n,
        contiguous_cover(r@, n as int),
{
    proof {
        let q = n as int / workers as int;
        let m = n as int % workers as int;
        vstd::arithmetic::div_mod::lemma_fundamental_div_mod(n as int, workers as int);
        if m != 0 {
            assert(q + 1 <= n) by (nonlinear_arith)
                requires n == workers * q + m, 1 <= m < workers, q >= 0;
        }
    }
    let c: usize = if n % workers == 0 {
        n / workers
    } else {
        n / workers + 1
    };
    proof {
        let q = n as int / workers as int;
        let m = n as int % workers as int;
        vstd::arithmetic::div_mod::lemma_fundamental_div_mod(n as int, workers as int);
        assert(n == workers * q + m);
        assert(0 <= m < workers);
        assert(workers * c >= n) by (nonlinear_arith)
            requires n == workers * q + m, 0 <= m < workers, c == (if m == 0 { q } else { q + 1 });
    }
    let mut r: Vec<(usize, usize)> = Vec::new();
    let mut i: usize = 0;
    while i < workers
        invariant
            i <= workers,
            c == chunk_size(n as int, workers as int),
            workers * c >= n,
            r@.len() == i,
            forall|j: int| 0 <= j < i ==> #[trigger] r@[j] == chunk_of(n as int, workers as int, j),
        decreases workers - i,
    {
        assert(i as u128 * c as u128 <= 0xffff_ffff_ffff_ffff * 0xffff_ffff_ffff_ffffu128) by (nonlinear_arith)
            requires i <= 0xffff_ffff_ffff_ffff, c <= 0xffff_ffff_ffff_ffff;
        let a: u128 = i as u128 * c as u128;
        let b: u128 = a + c as u128;
        let start: usize = if a < n as u128 {
            a as usize
        } else {
            n
        };
        let end: usize = if b < n as u128 {
            b as usize
        } else {
            n
        };
        proof {
            assert((i + 1) * c == i * c + c) by (nonlinear_arith);
        }
        r.push((start, end));
        i = i + 1;
    }
    proof {
        assert forall|j: int| 0 <= j < workers implies #[trigger] r@[j].0 <= r@[j].1 <= n by {
            assert(j * c <= (j + 1) * c) by (nonlinear_arith)
                requires c >= 0, j >= 0;
        }
        assert((workers - 1 + 1) * c == workers * c);
    }
    r
}

/// Run lists laid end to end.
pub open spec fn flatten(parts: Seq<Seq<Range>>) -> Seq<Range>
    decreases parts.len(),
{
    if parts.len() == 0 {
        Seq::empty()
    } else {
        flatten(parts.drop_last()) + parts.last()
    }
}

proof fn lemma_flatten_concat(a: Seq<Seq<Range>>, b: Seq<Seq<Range>>)
    ensures
        flatten(a + b) =~= flatten(a) + flatten(b),
    decreases b.len(),
{
    if b.len() == 0 {
        assert(a + b =~= a);
    } else {
        assert((a + b).drop_last() =~= a + b.drop_last());
        lemma_flatten_concat(a, b.drop_last());
    }
}

proof fn lemma_flatten_one(x: Seq<Range>)
    ensures
        flatten(seq![x]) =~= x,
{
    assert(seq![x].drop_last() =~= Seq::<Seq<Range>>::empty());
    assert(flatten(Seq::<Seq<Range>>::empty()) =~= Seq::<Range>::empty());
    assert(flatten(seq![x]) == flatten(seq![x].drop_last()) + seq![x].last());
}

/// Laying the same run lists end to end in another order reorders the runs.
pub proof fn lemma_flatten_permutation(parts: Seq<Seq<Range>>, other: Seq<Seq<Range>>)
    requires
        parts.to_multiset() =~= other.to_multiset(),
    ensures
        flatten(parts).to_multiset() =~= flatten(other).to_multiset(),
    decreases parts.len(),
{
    broadcast use vstd::seq_lib::group_to_multiset_ensures;
    broadcast use vstd::seq_lib::lemma_multiset_commutative;

    if parts.len() == 0 {
        assert(other.to_multiset().len() == 0);
        assert(other.len() == 0);
        assert(flatten(other) =~= Seq::<Range>::empty());
    } else {
        let x = parts.last();
        assert(parts =~= parts.drop_last().push(x));
        assert(parts.to_multiset().count(x) > 0);
        assert(other.to_multiset().contains(x));
        let j = choose|j: int| 0 <= j < other.len() && other[j] == x;
        vstd::seq_lib::to_multiset_remove(other, j);
        assert(parts.drop_last().to_multiset() =~= other.remove(j).to_multiset());
        lemma_flatten_permutation(parts.drop_last(), other.remove(j));
        let pre = other.take(j);
        let post = other.skip(j + 1);
        assert(other =~= pre + seq![x] + post);
        assert(other.remove(j) =~= pre + post);
        lemma_flatten_concat(pre + seq![x], post);
        lemma_flatten_concat(pre, seq![x]);
        lemma_flatten_concat(pre, post);
        lemma_flatten_one(x);
        vstd::seq_lib::lemma_multiset_commutative(flatten(pre) + x, flatten(post));
        vstd::seq_lib::lemma_multiset_commutative(flatten(pre), x);
        vstd::seq_lib::lemma_multiset_commutative(flatten(pre), flatten(post));
        vstd::seq_lib::lemma_multiset_commutative(flatten(parts.drop_last()), x);
        assert(flatten(parts) =~= flatten(parts.drop_last()) + x);
    }
}

/// `bounds` splits `0..n` into contiguous parts, in order.
pub open spec fn contiguous_cover(bounds: Seq<(usize, usize)>, n: int) -> bool {
    &&& bounds.len() > 0
    &&& bounds[0].0 == 0
    &&& bounds[bounds.len() - 1].1 == n
    &&& forall|i: int| 0 <= i < bounds.len() - 1 ==> #[trigger] bounds[i].1 == bounds[i + 1].0
    &&& forall|i: int| 0 <= i < bounds.len() ==> #[trigger] bounds[i].0 <= bounds[i].1 <= n
}

/// The runs each worker collects: those of the regions of its part, in order.
pub open spec fn chunk_runs(per_region: Seq<Seq<Range>>, bounds: Seq<(usize, usize)>) -> Seq<
    Seq<Range>,
> {
    Seq::new(
        bounds.len(),
        |i: int| flatten(per_region.subrange(bounds[i].0 as int, bounds[i].1 as int)),
    )
}

proof fn lemma_chunks_prefix(per_region: Seq<Seq<Range>>, bounds: Seq<(usize, usize)>, k: int)
    requires
        contiguous_cover(bounds, per_region.len() as int),
        0 <= k < bounds.len(),
    ensures
        flatten(chunk_runs(per_region, bounds).take(k + 1)) =~= flatten(
            per_region.subrange(0, bounds[k].1 as int),
        ),
    decreases k,
{
    let c = chunk_runs(per_region, bounds);
    if k == 0 {
        assert(c.take(1) =~= seq![c[0]]);
        lemma_flatten_one(c[0]);
    } else {
        lemma_chunks_prefix(per_region, bounds, k - 1);
        assert(bounds[k - 1].1 == bounds[k].0);
        assert(c.take(k + 1) =~= c.take(k).push(c[k]));
        assert(c.take(k).push(c[k]).drop_last() =~= c.take(k));
        assert(flatten(c.take(k + 1)) == flatten(c.take(k)) + c[k]);
        let a = per_region.subrange(0, bounds[k].0 as int);
        let b = per_region.subrange(bounds[k].0 as int, bounds[k].1 as int);
        assert(per_region.subrange(0, bounds[k].1 as int) =~= a + b);
        lemma_flatten_concat(a, b);
    }
}

/// Splitting the regions into parts, scanning each part on its own and
/// merging the parts' runs in any order yields the runs of one sequential
/// scan, reordered; so the statistics are exactly those of the sequential
/// scan.
pub proof fn lemma_partitioned_matches_sequential(
    per_region: Seq<Seq<Range>>,
    bounds: Seq<(usize, usize)>,
    merged_parts: Seq<Seq<Range>>,
    rep: Report,
    th: Seq<u16>,
)
    requires
        contiguous_cover(bounds, per_region.len() as int),
        merged_parts.to_multiset() =~= chunk_runs(per_region, bounds).to_multiset(),
        report_matches(rep, flatten(per_region), th),
    ensures
        flatten(merged_parts).to_multiset() =~= flatten(per_region).to_multiset(),
        report_matches(rep, flatten(merged_parts), th),
{
    let c = chunk_runs(per_region, bounds);
    lemma_chunks_prefix(per_region, bounds, bounds.len() - 1);
    assert(c.take(bounds.len() as int) =~= c);
    assert(per_region.subrange(0, per_region.len() as int) =~= per_region);
    lemma_flatten_permutation(c, merged_parts);
    lemma_report_permutation(rep, flatten(per_region), flatten(merged_parts), th);
}

} // verus!
