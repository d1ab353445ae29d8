//! Depth runs, their sums, and the accumulator that collects them.
use vstd::prelude::*;

verus! {

/// Every total over `s` fits in 64 bits.
pub open spec fn fits(s: Seq<Range>) -> bool {
    total_len(s) <= u64::MAX && total_depth_of(s) <= u64::MAX
}

/// One run of `length` positions for each depth of `values`, in track order.
pub open spec fn segment_runs(length: u32, values: Seq<u16>) -> Seq<Range> {
    Seq::new(values.len(), |i: int| Range { length, value: values[i] })
}

/// A run of `length` consecutive positions that share the depth `value`.
#[derive(Clone, Copy, Debug, PartialEq, Eq, Structural)]
pub struct Range {
    pub length: u32,
    pub value: u16,
}

/// Sum of `f` over the runs of `s`.
pub open spec fn sum_of(s: Seq<Range>, f: spec_fn(Range) -> int) -> int
    decreases s.len(),
{
    if s.len() == 0 {
        0
    } else {
        sum_of(s.drop_last(), f) + f(s.last())
    }
}

/// Number of positions covered by a run.
pub open spec fn len_of() -> spec_fn(Range) -> int {
    |r: Range| r.length as int
}

/// Positions of a run whose depth is at least `t`.
pub open spec fn len_ge(t: int) -> spec_fn(Range) -> int {
    |r: Range| if r.value as int >= t { r.length as int } else { 0 }
}

/// Depth summed over the positions of a run.
pub open spec fn depth_of() -> spec_fn(Range) -> int {
    |r: Range| r.length as int * r.value as int
}

/// Squared depth summed over the positions of a run.
pub open spec fn sq_depth_of() -> spec_fn(Range) -> int {
    |r: Range| r.length as int * (r.value as int * r.value as int)
}

/// Total number of positions in `s`.
pub open spec fn total_len(s: Seq<Range>) -> int {
    sum_of(s, len_of())
}

/// Number of positions in `s` whose depth is at least `t`.
pub open spec fn weight_ge(s: Seq<Range>, t: int) -> int {
    sum_of(s, len_ge(t))
}

/// Total depth over the positions of `s`.
pub open spec fn total_depth_of(s: Seq<Range>) -> int {
    sum_of(s, depth_of())
}

pub proof fn lemma_sum_of_push(s: Seq<Range>, r: Range, f: spec_fn(Range) -> int)
    ensures
        sum_of(s.push(r), f) == sum_of(s, f) + f(r),
{
    assert(s.push(r).drop_last() =~= s);
}

pub proof fn lemma_sum_of_concat(a: Seq<Range>, b: Seq<Range>, f: spec_fn(Range) -> int)
    ensures
        sum_of(a + b, f) == sum_of(a, f) + sum_of(b, f),
    decreases b.len(),
{
    if b.len() == 0 {
        assert(a + b =~= a);
    } else {
        assert((a + b).drop_last() =~= a + b.drop_last());
        lemma_sum_of_concat(a, b.drop_last(), f);
    }
}

pub proof fn lemma_sum_of_remove(s: Seq<Range>, i: int, f: spec_fn(Range) -> int)
    requires
        0 <= i < s.len(),
    ensures
        sum_of(s, f) == sum_of(s.remove(i), f) + f(s[i]),
{
    let pre = s.take(i);
    let post = s.skip(i + 1);
    let one = seq![s[i]];
    assert(s =~= pre + one + post);
    assert(s.remove(i) =~= pre + post);
    lemma_sum_of_concat(pre + one, post, f);
    lemma_sum_of_concat(pre, one, f);
    lemma_sum_of_concat(pre, post, f);
    assert(one.drop_last() =~= Seq::<Range>::empty());
    assert(sum_of(one, f) == sum_of(one.drop_last(), f) + f(one.last()));
}

/// A sum over runs does not depend on their order.
pub proof fn lemma_sum_of_permutation(a: Seq<Range>, b: Seq<Range>, f: spec_fn(Range) -> int)
    requires
        a.to_multiset() =~= b.to_multiset(),
    ensures
        sum_of(a, f) == sum_of(b, f),
    decreases a.len(),
{
    broadcast use vstd::seq_lib::group_to_multiset_ensures;
    if a.len() == 0 {
        assert(b.to_multiset().len() == 0);
        assert(b.len() == 0);
    } else {
        let x = a.last();
        assert(a =~= a.drop_last().push(x));
        assert(a.to_multiset().count(x) > 0);
        assert(b.to_multiset().contains(x));
        let j = choose|j: int| 0 <= j < b.len() && b[j] == x;
        vstd::seq_lib::to_multiset_remove(b, j);
        lemma_sum_of_remove(b, j, f);
        assert(a.drop_last().to_multiset() =~= b.remove(j).to_multiset());
        lemma_sum_of_permutation(a.drop_last(), b.remove(j), f);
    }
}

pub proof fn lemma_sum_of_nonneg(s: Seq<Range>, t: int)
    ensures
        0 <= weight_ge(s, t) <= total_len(s),
        0 <= total_len(s),
        0 <= total_depth_of(s),
    decreases s.len(),
{
    if s.len() > 0 {
        lemma_sum_of_nonneg(s.drop_last(), t);
        let r = s.last();
        assert(r.length as int * r.value as int >= 0) by (nonlinear_arith);
    }
}

pub proof fn lemma_total_len_bound(s: Seq<Range>)
    ensures
        total_len(s) <= s.len() * 0xffff_ffff,
    decreases s.len(),
{
    if s.len() > 0 {
        lemma_total_len_bound(s.drop_last());
    }
}

/// Positions of depth at least `t2` are among those of depth at least `t1` when `t1 <= t2`.
pub proof fn lemma_weight_ge_antitone(s: Seq<Range>, t1: int, t2: int)
    requires
        t1 <= t2,
    ensures
        weight_ge(s, t2) <= weight_ge(s, t1),
    decreases s.len(),
{
    if s.len() > 0 {
        lemma_weight_ge_antitone(s.drop_last(), t1, t2);
    }
}

/// Appending the run of one position stretch of a single track, `length`
/// positions at depth `value`, adds `length` positions and `length * value`
/// depth to the totals, so the totals keep `mean * positions == depth` with
/// `mean = depth / positions`.
pub proof fn lemma_single_track_append(s: Seq<Range>, length: u32, value: u16)
    ensures
        total_len(s + segment_runs(length, seq![value])) == total_len(s) + length,
        total_depth_of(s + segment_runs(length, seq![value])) == total_depth_of(s) + length * value,
        weight_ge(s + segment_runs(length, seq![value]), 1) == weight_ge(s, 1) + (if value >= 1 {
            length as int
        } else {
            0
        }),
{
    let r = Range { length, value };
    assert(s + segment_runs(length, seq![value]) =~= s.push(r));
    lemma_sum_of_push(s, r, len_of());
    lemma_sum_of_push(s, r, depth_of());
    lemma_sum_of_push(s, r, len_ge(1));
}

/// Scans chain: scanning some regions and then others into one coverage
/// gives the runs of scanning each from empty, laid end to end, and the
/// totals add up; so per-part results merged give the sequential totals.
pub proof fn lemma_scans_compose(base: Seq<Range>, x: Seq<Range>, y: Seq<Range>)
    ensures
        (base + x) + y == base + (Seq::<Range>::empty() + x) + (Seq::<Range>::empty() + y),
        total_len(x + y) == total_len(x) + total_len(y),
        total_depth_of(x + y) == total_depth_of(x) + total_depth_of(y),
        weight_ge(x + y, 1) == weight_ge(x, 1) + weight_ge(y, 1),
{
    assert(Seq::<Range>::empty() + x =~= x);
    assert(Seq::<Range>::empty() + y =~= y);
    assert((base + x) + y =~= base + x + y);
    lemma_sum_of_concat(x, y, len_of());
    lemma_sum_of_concat(x, y, depth_of());
    lemma_sum_of_concat(x, y, len_ge(1));
}

/// Runs collected so far, with their running totals: positions scanned,
/// total depth, and positions of depth at least one.
pub struct Coverage {
    runs: Vec<Range>,
    all_length: u64,
    total_depth: u64,
    depth_x1: u64,
}

impl View for Coverage {
    type V = Seq<Range>;

    closed spec fn view(&self) -> Seq<Range> {
        self.runs@
    }
}

impl Coverage {
    /// The running totals are the sums over the runs.
    pub closed spec fn wf(&self) -> bool {
        &&& self.all_length as int == total_len(self.runs@)
        &&& self.total_depth as int == total_depth_of(self.runs@)
        &&& self.depth_x1 as int == weight_ge(self.runs@, 1)
    }

    /// The totals of a well-formed coverage fit in 64 bits.
    pub proof fn lemma_fits(&self)
        requires
            self.wf(),
        ensures
            fits(self@),
    {
    }

    pub fn new() -> (r: Coverage)
        ensures
            r.wf(),
            r@ == Seq::<Range>::empty(),
    {
        Coverage { runs: Vec::new(), all_length: 0, total_depth: 0, depth_x1: 0 }
    }

    pub fn runs(&self) -> (r: &Vec<Range>)
        ensures
            r@ == self@,
    {
        &self.runs
    }

    /// Positions scanned.
    pub fn all_length(&self) -> (r: u64)
        requires
            self.wf(),
        ensures
            r as int == total_len(self@),
    {
        self.all_length
    }

    /// Depth summed over all positions.
    pub fn total_depth(&self) -> (r: u64)
        requires
            self.wf(),
        ensures
            r as int == total_depth_of(self@),
    {
        self.total_depth
    }

    /// Positions of depth at least one.
    pub fn depth_x1(&self) -> (r: u64)
        requires
            self.wf(),
        ensures
            r as int == weight_ge(self@, 1),
    {
        self.depth_x1
    }

    /// Appends one run, unless a total would no longer fit in 64 bits, in
    /// which case nothing changes.
    pub fn add_run(&mut self, length: u32, value: u16) -> (ok: bool)
        requires
            old(self).wf(),
        ensures
            final(self).wf(),
            ok == (total_len(old(self)@) + length <= u64::MAX && total_depth_of(old(self)@)
                + length * value <= u64::MAX),
            ok ==> final(self)@ == old(self)@.push(Range { length, value }),
            !ok ==> final(self)@ == old(self)@,
    {
        let r = Range { length, value };
        assert(length as u64 * value as u64 <= 0xffff_ffff * 0xffff) by (nonlinear_arith);
        let depth: u64 = length as u64 * value as u64;
        proof {
            lemma_sum_of_nonneg(self.runs@, 1);
            lemma_sum_of_push(self.runs@, r, len_of());
            lemma_sum_of_push(self.runs@, r, depth_of());
            lemma_sum_of_push(self.runs@, r, len_ge(1));
        }
        if self.all_length > u64::MAX - length as u64 || self.total_depth > u64::MAX - depth {
            return false;
        }
        self.all_length = self.all_length + length as u64;
        self.total_depth = self.total_depth + depth;
        if value >= 1 {
            self.depth_x1 = self.depth_x1 + length as u64;
        }
        self.runs.push(r);
        true
    }

    /// Appends one run of `length` positions for each depth of `values`,
    /// unless a total would no longer fit in 64 bits, in which case nothing
    /// changes.
    pub fn add_segment(&mut self, length: u32, values: &Vec<u16>) -> (ok: bool)
        requires
            old(self).wf(),
        ensures
            final(self).wf(),
            ok == fits(old(self)@ + segment_runs(length, values@)),
            ok ==> final(self)@ == old(self)@ + segment_runs(length, values@),
            !ok ==> final(self)@ == old(self)@,
    {
        let ghost seg = segment_runs(length, values@);
        let mut add_len: u128 = 0;
        let mut add_depth: u128 = 0;
        let mut i: usize = 0;
        while i < values.len()
            invariant
                i <= values.len(),
                seg == segment_runs(length, values@),
                add_len as int == total_len(seg.take(i as int)),
                add_depth as int == total_depth_of(seg.take(i as int)),
                add_len <= i * 0xffff_ffff,
                add_depth <= i * (0xffff_ffff * 0xffff),
                i <= usize::MAX,
                add_len <= 0x1_0000_0000_0000_0000 * 0x1_0000_0000,
                add_depth <= 0x1_0000_0000_0000_0000 * 0x1_0000_0000_0000,
            decreases values.len() - i,
        {
            proof {
                assert(seg.take(i + 1) =~= seg.take(i as int).push(seg[i as int]));
                lemma_sum_of_push(seg.take(i as int), seg[i as int], len_of());
                lemma_sum_of_push(seg.take(i as int), seg[i as int], depth_of());
                assert(length as u64 * values[i as int] as u64 <= 0xffff_ffff * 0xffff) by (nonlinear_arith);
                assert(add_len + length <= (i + 1) * 0xffff_ffff) by (nonlinear_arith)
                    requires add_len <= i * 0xffff_ffff, length <= 0xffff_ffff;
                assert(add_depth + length * values[i as int] <= (i + 1) * (0xffff_ffff * 0xffff)) by (nonlinear_arith)
                    requires add_depth <= i * (0xffff_ffff * 0xffff), length * values[i as int] <= 0xffff_ffff * 0xffff;
                assert((i + 1) * 0xffff_ffff <= 0x1_0000_0000_0000_0000 * 0x1_0000_0000) by (nonlinear_arith)
                    requires i + 1 <= 0x1_0000_0000_0000_0000;
                assert((i + 1) * (0xffff_ffff * 0xffff) <= 0x1_0000_0000_0000_0000 * 0x1_0000_0000_0000) by (nonlinear_arith)
                    requires i + 1 <= 0x1_0000_0000_0000_0000;
            }
            add_len = add_len + length as u128;
            add_depth = add_depth + length as u128 * values[i] as u128;
            i = i + 1;
        }
        proof {
            assert(seg.take(seg.len() as int) =~= seg);
            lemma_sum_of_concat(self.runs@, seg, len_of());
            lemma_sum_of_concat(self.runs@, seg, depth_of());
        }
        if self.all_length as u128 + add_len > u64::MAX as u128 || self.total_depth as u128
            + add_depth > u64::MAX as u128 {
            return false;
        }
        let mut j: usize = 0;
        while j < values.len()
            invariant
                j <= values.len(),
                seg == segment_runs(length, values@),
                self.wf(),
                self@ == old(self)@ + seg.take(j as int),
                fits(old(self)@ + seg),
            decreases values.len() - j,
        {
            proof {
                assert(seg.take(j + 1) =~= seg.take(j as int).push(seg[j as int]));
                assert(old(self)@ + seg =~= (old(self)@ + seg.take(j + 1)) + seg.skip(j + 1));
                assert(old(self)@ + seg.take(j + 1) =~= (old(self)@ + seg.take(j as int)).push(seg[j as int]));
                lemma_sum_of_concat(old(self)@ + seg.take(j + 1), seg.skip(j + 1), len_of());
                lemma_sum_of_concat(old(self)@ + seg.take(j + 1), seg.skip(j + 1), depth_of());
                lemma_sum_of_nonneg(seg.skip(j + 1), 0);
                lemma_sum_of_push(old(self)@ + seg.take(j as int), seg[j as int], len_of());
                lemma_sum_of_push(old(self)@ + seg.take(j as int), seg[j as int], depth_of());
            }
            let ok = self.add_run(length, values[j]);
            assert(ok);
            j = j + 1;
        }
        proof {
            assert(seg.take(seg.len() as int) =~= seg);
        }
        true
    }

    /// Appends the runs of `other`, unless a total would no longer fit in
    /// 64 bits, in which case nothing changes.
    pub fn merge(&mut self, other: Coverage) -> (ok: bool)
        requires
            old(self).wf(),
            other.wf(),
        ensures
            final(self).wf(),
            ok == (total_len(old(self)@) + total_len(other@) <= u64::MAX && total_depth_of(
                old(self)@,
            ) + total_depth_of(other@) <= u64::MAX),
            ok ==> final(self)@ == old(self)@ + other@,
            !ok ==> final(self)@ == old(self)@,
    {
        proof {
            lemma_sum_of_nonneg(self.runs@, 1);
            lemma_sum_of_nonneg(other.runs@, 1);
            lemma_sum_of_concat(self.runs@, other.runs@, len_of());
            lemma_sum_of_concat(self.runs@, other.runs@, depth_of());
            lemma_sum_of_concat(self.runs@, other.runs@, len_ge(1));
        }
        if self.all_length > u64::MAX - other.all_length || self.total_depth > u64::MAX
            - other.total_depth {
            return false;
        }
        let mut more = other.runs;
        self.runs.append(&mut more);
        self.all_length = self.all_length + other.all_length;
        self.total_depth = self.total_depth + other.total_depth;
        self.depth_x1 = self.depth_x1 + other.depth_x1;
        true
    }
}

} // verus!
