//! Change-point scan of per-position depth vectors into runs.
use vstd::prelude::*;
use crate::run::{
    fits, lemma_sum_of_concat, lemma_sum_of_push, segment_runs, depth_of, len_of, total_depth_of,
    total_len, Coverage, Range,
};

verus! {

/// Depth reported by a track reader, narrowed to 16 bits: a negative depth
/// counts as 0 and a depth above 65535 as 65535.
pub open spec fn clamp_depth(v: i32) -> u16 {
    if v < 0 {
        0
    } else if v > 0xffff {
        0xffff
    } else {
        v as u16
    }
}

pub fn narrow_depth(v: i32) -> (r: u16)
    ensures
        r == clamp_depth(v),
{
    if v < 0 {
        0
    } else if v > 0xffff {
        0xffff
    } else {
        v as u16
    }
}

/// The narrowed depths of one position, one per track.
pub open spec fn reported_depths(rep: Seq<(u32, i32)>) -> Seq<u16> {
    Seq::new(rep.len(), |i: int| clamp_depth(rep[i].1))
}

/// Maximal stretches of equal depth vectors, as (length, vector), in order.
pub open spec fn segments(s: Seq<Seq<u16>>) -> Seq<(nat, Seq<u16>)>
    decreases s.len(),
{
    if s.len() == 0 {
        Seq::empty()
    } else {
        let p = segments(s.drop_last());
        if s.len() > 1 && s.last() == s[s.len() - 2] {
            p.update(p.len() - 1, (p.last().0 + 1, s.last()))
        } else {
            p.push((1nat, s.last()))
        }
    }
}

/// The runs emitted for a list of segments: one per track for each segment.
pub open spec fn expand(segs: Seq<(nat, Seq<u16>)>) -> Seq<Range>
    decreases segs.len(),
{
    if segs.len() == 0 {
        Seq::empty()
    } else {
        expand(segs.drop_last()) + segment_runs(segs.last().0 as u32, segs.last().1)
    }
}

/// The segments of `s` that a later position can no longer extend.
pub open spec fn closed_segments(s: Seq<Seq<u16>>) -> Seq<(nat, Seq<u16>)> {
    if s.len() == 0 {
        Seq::empty()
    } else {
        segments(s).drop_last()
    }
}

proof fn lemma_segments_push(s: Seq<Seq<u16>>, v: Seq<u16>)
    ensures
        segments(s.push(v)) == (if s.len() > 0 && v == s.last() {
            segments(s).update(segments(s).len() - 1, (segments(s).last().0 + 1, v))
        } else {
            segments(s).push((1nat, v))
        }),
{
    assert(s.push(v).drop_last() =~= s);
}

proof fn lemma_segments_last(s: Seq<Seq<u16>>)
    requires
        s.len() > 0,
    ensures
        segments(s).len() > 0,
        segments(s).last().1 == s.last(),
        segments(s).last().0 >= 1,
        segments(s).last().0 <= s.len(),
    decreases s.len(),
{
    if s.len() > 1 {
        lemma_segments_last(s.drop_last());
    }
}

proof fn lemma_expand_push(segs: Seq<(nat, Seq<u16>)>, x: (nat, Seq<u16>))
    ensures
        expand(segs.push(x)) == expand(segs) + segment_runs(x.0 as u32, x.1),
{
    assert(segs.push(x).drop_last() =~= segs);
}

#[derive(Clone, Copy, Debug, PartialEq, Eq, Structural)]
pub enum ScanError {
    /// No depth track was given: a scan needs at least one.
    NoTracks,
    /// A position did not carry one depth per track.
    TrackCount,
    /// A track reported another position than the one expected.
    Desync,
    /// A running total no longer fits in 64 bits.
    Overflow,
}

/// Scan of one region `[begin, end)` over one or more tracks, fed one
/// position at a time. Runs are closed when any track's depth changes and
/// appended to the coverage that the scan was started with.
pub struct RegionScan {
    begin: u32,
    end: u32,
    pos: u32,
    run_start: u32,
    tracks: usize,
    current: Vec<u16>,
    out: Coverage,
    seen: Ghost<Seq<Seq<u16>>>,
    base: Ghost<Seq<Range>>,
}

impl RegionScan {
    pub closed spec fn begin(&self) -> u32 {
        self.begin
    }

    pub closed spec fn end(&self) -> u32 {
        self.end
    }

    /// The next position expected.
    pub closed spec fn pos(&self) -> u32 {
        self.pos
    }

    pub closed spec fn tracks(&self) -> usize {
        self.tracks
    }

    /// Depth vectors of the positions scanned so far.
    pub closed spec fn seen(&self) -> Seq<Seq<u16>> {
        self.seen@
    }

    /// Runs of the coverage the scan was started with.
    pub closed spec fn base(&self) -> Seq<Range> {
        self.base@
    }

    pub closed spec fn wf(&self) -> bool {
        &&& self.begin <= self.pos
        &&& self.seen@.len() == self.pos - self.begin
        &&& self.seen@.len() > 0 ==> self.pos <= self.end
        &&& self.current.len() == self.tracks
        &&& forall|p: int| 0 <= p < self.seen@.len() ==> #[trigger] self.seen@[p].len() == self.tracks
        &&& self.seen@.len() > 0 ==> {
            &&& self.begin <= self.run_start < self.pos
            &&& segments(self.seen@).last() == ((self.pos - self.run_start) as nat, self.current@)
        }
        &&& self.out.wf()
        &&& self.out@ == self.base@ + expand(closed_segments(self.seen@))
    }

    /// Starts a scan of `[begin, end)` over `tracks` tracks; runs go after
    /// those of `acc`.
    pub fn new(begin: u32, end: u32, tracks: usize, acc: Coverage) -> (r: RegionScan)
        requires
            acc.wf(),
            tracks >= 1,
        ensures
            r.wf(),
            r.begin() == begin,
            r.end() == end,
            r.pos() == begin,
            r.tracks() == tracks,
            r.seen() == Seq::<Seq<u16>>::empty(),
            r.base() == acc@,
    {
        let mut current: Vec<u16> = Vec::new();
        let mut i: usize = 0;
        while i < tracks
            invariant
                i <= tracks,
                current.len() == i,
            decreases tracks - i,
        {
            current.push(0);
            i = i + 1;
        }
        let ghost base = acc@;
        proof {
            assert(base + expand(Seq::empty()) =~= base);
        }
        RegionScan {
            begin,
            end,
            pos: begin,
            run_start: begin,
            tracks,
            current,
            out: acc,
            seen: Ghost(Seq::empty()),
            base: Ghost(base),
        }
    }

    /// Takes the `(position, depth)` pairs that the tracks report for the
    /// next position, in track order.
    pub fn step(&mut self, reported: &Vec<(u32, i32)>) -> (r: Result<(), ScanError>)
        requires
            old(self).wf(),
            old(self).pos() < old(self).end(),
        ensures
            final(self).wf(),
            final(self).begin() == old(self).begin(),
            final(self).end() == old(self).end(),
            final(self).tracks() == old(self).tracks(),
            final(self).base() == old(self).base(),
            r != Err::<(), ScanError>(ScanError::NoTracks),
            (r == Err::<(), ScanError>(ScanError::TrackCount)) <==> reported.len() != old(
                self,
            ).tracks(),
            reported.len() == old(self).tracks() ==> ((r == Err::<(), ScanError>(
                ScanError::Desync,
            )) <==> exists|i: int| 0 <= i < reported.len() && reported[i].0 != old(self).pos()),
            (r == Err::<(), ScanError>(ScanError::Overflow)) <==> (reported.len() == old(
                self,
            ).tracks() && (forall|i: int| 0 <= i < reported.len() ==> reported[i].0 == old(self).pos())
                && !fits(
                old(self).base() + expand(
                    closed_segments(old(self).seen().push(reported_depths(reported@))),
                ),
            )),
            r is Ok ==> final(self).seen() == old(self).seen().push(reported_depths(reported@))
                && final(self).pos() == old(self).pos() + 1,
            r is Err ==> final(self).seen() == old(self).seen() && final(self).pos() == old(
                self,
            ).pos(),
    {
        if reported.len() != self.current.len() {
            return Err(ScanError::TrackCount);
        }
        let mut vals: Vec<u16> = Vec::new();
        let mut changed = false;
        let mut i: usize = 0;
        while i < reported.len()
            invariant
                i <= reported.len(),
                reported.len() == self.current.len(),
                self.wf(),
                self.pos < self.end,
                vals@ == reported_depths(reported@).take(i as int),
                forall|j: int| 0 <= j < i ==> reported[j].0 == self.pos,
                changed ==> exists|j: int| 0 <= j < i && vals@[j] != self.current@[j],
                !changed ==> forall|j: int| 0 <= j < i ==> vals@[j] == self.current@[j],
            decreases reported.len() - i,
        {
            if reported[i].0 != self.pos {
                return Err(ScanError::Desync);
            }
            let v = narrow_depth(reported[i].1);
            if v != self.current[i] {
                changed = true;
            }
            vals.push(v);
            proof {
                assert(vals@[i as int] == v);
                assert(vals@ =~= reported_depths(reported@).take(i + 1));
            }
            i = i + 1;
        }
        let ghost old_seen = self.seen@;
        let ghost new_v = reported_depths(reported@);
        proof {
            assert(vals@ =~= new_v);
            if !changed {
                assert(vals@ =~= self.current@);
            }
            if changed {
                let j = choose|j: int| 0 <= j < vals@.len() && vals@[j] != self.current@[j];
                assert(vals@[j] != self.current@[j]);
                assert(vals@ != self.current@);
            }
            lemma_segments_push(old_seen, new_v);
            if old_seen.len() > 0 {
                lemma_segments_last(old_seen);
            }
            lemma_segments_last(old_seen.push(new_v));
            self.out.lemma_fits();
        }
        if self.pos > self.begin && changed {
            let length = self.pos - self.run_start;
            proof {
                let segs = segments(old_seen);
                assert(segments(old_seen.push(new_v)) == segs.push((1nat, new_v)));
                assert(closed_segments(old_seen.push(new_v)) =~= segs);
                assert(segs =~= closed_segments(old_seen).push(segs.last()));
                lemma_expand_push(closed_segments(old_seen), segs.last());
                assert(self.base@ + expand(closed_segments(old_seen.push(new_v))) =~= self.out@
                    + segment_runs(length, self.current@));
            }
            if !self.out.add_segment(length, &self.current) {
                return Err(ScanError::Overflow);
            }
            self.run_start = self.pos;
        } else {
            proof {
                if old_seen.len() > 0 {
                    let segs = segments(old_seen);
                    assert(closed_segments(old_seen.push(new_v)) =~= segs.drop_last());
                } else {
                    assert(closed_segments(old_seen.push(new_v)) =~= Seq::<(nat, Seq<u16>)>::empty());
                    assert(closed_segments(old_seen) =~= Seq::<(nat, Seq<u16>)>::empty());
                }
            }
        }
        if self.pos == self.begin {
            self.run_start = self.pos;
        }
        self.current = vals;
        self.pos = self.pos + 1;
        self.seen = Ghost(old_seen.push(new_v));
        Ok(())
    }

    /// Ends the scan: closes the last run and hands back the coverage.
    pub fn finish(self) -> (r: Result<Coverage, ScanError>)
        requires
            self.wf(),
            self.pos() >= self.end(),
        ensures
            r is Ok <==> fits(self.base() + expand(segments(self.seen()))),
            r is Err ==> r == Err::<Coverage, ScanError>(ScanError::Overflow),
            r matches Ok(c) ==> c.wf() && c@ == self.base() + expand(segments(self.seen())),
    {
        let ghost seen = self.seen@;
        let mut out = self.out;
        proof {
            out.lemma_fits();
        }
        if self.pos > self.begin {
            let length = self.pos - self.run_start;
            proof {
                lemma_segments_last(seen);
                let segs = segments(seen);
                assert(segs =~= closed_segments(seen).push(segs.last()));
                lemma_expand_push(closed_segments(seen), segs.last());
                assert(self.base@ + expand(segs) =~= out@ + segment_runs(length, self.current@));
            }
            if !out.add_segment(length, &self.current) {
                return Err(ScanError::Overflow);
            }
        } else {
            proof {
                assert(segments(seen) =~= closed_segments(seen));
            }
        }
        Ok(out)
    }
}

/// Depth vectors of the positions `0..n`: track `i` reports `depths[i][p]`
/// at offset `p`.
pub open spec fn columns(depths: Seq<Vec<i32>>, n: int) -> Seq<Seq<u16>> {
    Seq::new(n as nat, |p: int| Seq::new(depths.len(), |i: int| clamp_depth(depths[i]@[p])))
}

/// Scans `[begin, end)` where `depths[i]` holds, position by position, the
/// depths of track `i`; the runs go after those of `acc`.
pub fn scan_values(begin: u32, end: u32, depths: &Vec<Vec<i32>>, acc: Coverage) -> (r: Result<
    Coverage,
    ScanError,
>)
    requires
        acc.wf(),
        begin <= end,
        forall|i: int| 0 <= i < depths.len() ==> #[trigger] depths[i].len() == end - begin,
    ensures
        depths.len() == 0 ==> r == Err::<Coverage, ScanError>(ScanError::NoTracks),
        r is Ok <==> depths.len() > 0 && fits(acc@ + expand(segments(columns(depths@, end - begin)))),
        r is Err && depths.len() > 0 ==> r == Err::<Coverage, ScanError>(ScanError::Overflow),
        r matches Ok(c) ==> c.wf() && c@ == acc@ + expand(segments(columns(depths@, end - begin))),
{
    if depths.len() == 0 {
        return Err(ScanError::NoTracks);
    }
    let ghost cols = columns(depths@, end - begin);
    let mut scan = RegionScan::new(begin, end, depths.len(), acc);
    let mut pos: u32 = begin;
    while pos < end
        invariant
            begin <= pos <= end,
            scan.wf(),
            scan.begin() == begin,
            scan.end() == end,
            scan.pos() == pos,
            scan.tracks() == depths.len(),
            depths.len() > 0,
            scan.base() == acc@,
            scan.seen() == cols.take(pos - begin),
            cols == columns(depths@, end - begin),
            forall|i: int| 0 <= i < depths.len() ==> #[trigger] depths[i].len() == end - begin,
        decreases end - pos,
    {
        let mut reported: Vec<(u32, i32)> = Vec::new();
        let mut i: usize = 0;
        while i < depths.len()
            invariant
                i <= depths.len(),
                begin <= pos < end,
                reported.len() == i,
                forall|j: int| 0 <= j < i ==> #[trigger] reported[j] == (pos, depths[j]@[pos - begin]),
                forall|j: int| 0 <= j < depths.len() ==> #[trigger] depths[j].len() == end - begin,
            decreases depths.len() - i,
        {
            assert(depths[i as int].len() == end - begin);
            reported.push((pos, depths[i][(pos - begin) as usize]));
            i = i + 1;
        }
        proof {
            assert(reported_depths(reported@) =~= cols[pos - begin]);
            assert(cols.take(pos - begin + 1) =~= cols.take(pos - begin).push(cols[pos - begin]));
        }
        match scan.step(&reported) {
            Ok(()) => {},
            Err(e) => {
                proof {
                    assert(cols.take(pos - begin).push(cols[pos - begin]) == cols.take(pos - begin + 1));
                    lemma_closed_prefix_fits(acc@, cols, (pos - begin) as int);
                }
                return Err(e);
            },
        }
        pos = pos + 1;
    }
    proof {
        assert(cols.take(end - begin) =~= cols);
    }
    scan.finish()
}

proof fn lemma_fits_prefix(a: Seq<Range>, b: Seq<Range>)
    requires
        fits(a + b),
    ensures
        fits(a),
{
    lemma_sum_of_concat(a, b, len_of());
    lemma_sum_of_concat(a, b, depth_of());
    crate::run::lemma_sum_of_nonneg(b, 0);
}

proof fn lemma_expand_concat(a: Seq<(nat, Seq<u16>)>, b: Seq<(nat, Seq<u16>)>)
    ensures
        expand(a + b) =~= expand(a) + expand(b),
    decreases b.len(),
{
    if b.len() == 0 {
        assert(a + b =~= a);
    } else {
        assert((a + b).drop_last() =~= a + b.drop_last());
        lemma_expand_concat(a, b.drop_last());
    }
}

/// The segments of a prefix are, but for the last, segments of the whole.
proof fn lemma_segments_prefix(s: Seq<Seq<u16>>, n: int)
    requires
        0 < n <= s.len(),
    ensures
        exists|rest: Seq<(nat, Seq<u16>)>| segments(s) =~= closed_segments(s.take(n)) + rest && rest.len() > 0,
    decreases s.len(),
{
    if n == s.len() {
        lemma_segments_last(s);
        assert(s.take(n) =~= s);
        let rest = seq![segments(s).last()];
        assert(segments(s) =~= closed_segments(s.take(n)) + rest);
    } else {
        lemma_segments_prefix(s.drop_last(), n);
        assert(s.drop_last().take(n) =~= s.take(n));
        let rest0 = choose|rest: Seq<(nat, Seq<u16>)>| segments(s.drop_last()) =~= closed_segments(s.take(n)) + rest && rest.len() > 0;
        lemma_segments_push(s.drop_last(), s.last());
        assert(s =~= s.drop_last().push(s.last()));
        lemma_segments_last(s.drop_last());
        if s.len() > 1 && s.last() == s.drop_last().last() {
            let rest = rest0.update(rest0.len() - 1, (rest0.last().0 + 1, s.last()));
            assert(segments(s) =~= closed_segments(s.take(n)) + rest);
        } else {
            let rest = rest0.push((1nat, s.last()));
            assert(segments(s) =~= closed_segments(s.take(n)) + rest);
        }
    }
}

proof fn lemma_closed_prefix_fits(base: Seq<Range>, cols: Seq<Seq<u16>>, n: int)
    requires
        0 <= n < cols.len(),
        !fits(base + expand(closed_segments(cols.take(n + 1)))),
    ensures
        !fits(base + expand(segments(cols))),
{
    lemma_segments_prefix(cols, n + 1);
    let rest = choose|rest: Seq<(nat, Seq<u16>)>| segments(cols) =~= closed_segments(cols.take(n + 1)) + rest && rest.len() > 0;
    lemma_expand_concat(closed_segments(cols.take(n + 1)), rest);
    assert(base + expand(segments(cols)) =~= (base + expand(closed_segments(cols.take(n + 1))))
        + expand(rest));
    if fits(base + expand(segments(cols))) {
        lemma_fits_prefix(base + expand(closed_segments(cols.take(n + 1))), expand(rest));
    }
}

/// Depth summed over the tracks of one position.
pub open spec fn depth_sum(v: Seq<u16>) -> int
    decreases v.len(),
{
    if v.len() == 0 {
        0
    } else {
        depth_sum(v.drop_last()) + v.last()
    }
}

/// Depth summed over all positions and tracks.
pub open spec fn positions_depth(s: Seq<Seq<u16>>) -> int
    decreases s.len(),
{
    if s.len() == 0 {
        0
    } else {
        positions_depth(s.drop_last()) + depth_sum(s.last())
    }
}

proof fn lemma_segment_runs_totals(n: u32, v: Seq<u16>)
    ensures
        total_len(segment_runs(n, v)) == n * v.len(),
        total_depth_of(segment_runs(n, v)) == n * depth_sum(v),
    decreases v.len(),
{
    if v.len() > 0 {
        let r = Range { length: n, value: v.last() };
        assert(segment_runs(n, v) =~= segment_runs(n, v.drop_last()).push(r));
        lemma_segment_runs_totals(n, v.drop_last());
        lemma_sum_of_push(segment_runs(n, v.drop_last()), r, len_of());
        lemma_sum_of_push(segment_runs(n, v.drop_last()), r, depth_of());
        assert(n * v.len() == n * (v.len() - 1) + n) by (nonlinear_arith);
        assert(n * depth_sum(v) == n * depth_sum(v.drop_last()) + n * v.last()) by (nonlinear_arith)
            requires depth_sum(v) == depth_sum(v.drop_last()) + v.last();
    } else {
        assert(segment_runs(n, v).len() == 0);
    }
}

/// The runs of a scanned region account for every position once per track:
/// with `k` tracks their lengths sum to `k` times the region length (the
/// region length itself for one track), and their depths sum to the depth
/// summed over every position and track.
pub proof fn lemma_scan_totals(s: Seq<Seq<u16>>, k: nat)
    requires
        s.len() <= u32::MAX,
        forall|p: int| 0 <= p < s.len() ==> #[trigger] s[p].len() == k,
    ensures
        total_len(expand(segments(s))) == k * s.len(),
        total_depth_of(expand(segments(s))) == positions_depth(s),
    decreases s.len(),
{
    if s.len() > 0 {
        let t = s.drop_last();
        let v = s.last();
        assert(s =~= t.push(v));
        lemma_scan_totals(t, k);
        lemma_segments_push(t, v);
        lemma_segments_last(s);
        let st = segments(t);
        if t.len() > 0 && v == t.last() {
            lemma_segments_last(t);
            let m = st.last().0;
            let pre = st.drop_last();
            assert(st =~= pre.push(st.last()));
            assert(segments(s) =~= pre.push((m + 1, v)));
            lemma_expand_push(pre, st.last());
            lemma_expand_push(pre, (m + 1, v));
            lemma_sum_of_concat(expand(pre), segment_runs(m as u32, v), len_of());
            lemma_sum_of_concat(expand(pre), segment_runs(m as u32, v), depth_of());
            lemma_sum_of_concat(expand(pre), segment_runs((m + 1) as u32, v), len_of());
            lemma_sum_of_concat(expand(pre), segment_runs((m + 1) as u32, v), depth_of());
            lemma_segment_runs_totals(m as u32, v);
            lemma_segment_runs_totals((m + 1) as u32, v);
            lemma_segment_runs_totals(1, v);
            assert((m + 1) * k == m * k + k) by (nonlinear_arith);
            assert(k * s.len() == k * t.len() + k) by (nonlinear_arith)
                requires s.len() == t.len() + 1;
            assert((m + 1) * depth_sum(v) == m * depth_sum(v) + depth_sum(v)) by (nonlinear_arith);
        } else {
            lemma_expand_push(st, (1nat, v));
            lemma_sum_of_concat(expand(st), segment_runs(1, v), len_of());
            lemma_sum_of_concat(expand(st), segment_runs(1, v), depth_of());
            lemma_segment_runs_totals(1, v);
            assert(k * s.len() == k * t.len() + k) by (nonlinear_arith)
                requires s.len() == t.len() + 1;
        }
    }
}

/// The runs of track `i`: the `i`-th run of each segment's block in
/// `expand(segs)`, one per segment.
pub open spec fn track_runs(segs: Seq<(nat, Seq<u16>)>, i: int) -> Seq<Range> {
    segs.map_values(|x: (nat, Seq<u16>)| Range { length: x.0 as u32, value: x.1[i] })
}

/// With `k` tracks, `expand(segs)` lays out one block of `k` runs per
/// segment: run `i` of block `j` is run `j` of track `i`.
pub proof fn lemma_expand_blocks(segs: Seq<(nat, Seq<u16>)>, k: nat)
    requires
        forall|j: int| 0 <= j < segs.len() ==> (#[trigger] segs[j]).1.len() == k,
    ensures
        expand(segs).len() == segs.len() * k,
        forall|j: int, i: int|
            0 <= j < segs.len() && 0 <= i < k ==> expand(segs)[j * k + i] == #[trigger] track_runs(
                segs,
                i,
            )[j],
    decreases segs.len(),
{
    if segs.len() > 0 {
        let pre = segs.drop_last();
        let x = segs.last();
        lemma_expand_blocks(pre, k);
        assert(expand(segs) == expand(pre) + segment_runs(x.0 as u32, x.1));
        assert(segs.len() * k == pre.len() * k + k) by (nonlinear_arith)
            requires segs.len() == pre.len() + 1;
        assert forall|j: int, i: int| 0 <= j < segs.len() && 0 <= i < k implies expand(segs)[j * k
            + i] == #[trigger] track_runs(segs, i)[j] by {
            if j < pre.len() {
                assert(j * k + i < pre.len() * k) by (nonlinear_arith)
                    requires j < pre.len(), 0 <= i < k, j >= 0;
                assert(expand(pre)[j * k + i] == track_runs(pre, i)[j]);
                assert(track_runs(pre, i)[j] == track_runs(segs, i)[j]);
            } else {
                assert(j * k == pre.len() * k);
                assert(expand(segs)[j * k + i] == segment_runs(x.0 as u32, x.1)[i]);
            }
        }
    }
}

/// Within a scanned region, the runs of each single track cover the region
/// exactly: their lengths sum to the region length.
pub proof fn lemma_track_lengths(s: Seq<Seq<u16>>, i: int)
    requires
        s.len() <= u32::MAX,
    ensures
        total_len(track_runs(segments(s), i)) == s.len(),
    decreases s.len(),
{
    if s.len() > 0 {
        let t = s.drop_last();
        let v = s.last();
        assert(s =~= t.push(v));
        lemma_track_lengths(t, i);
        lemma_segments_push(t, v);
        lemma_segments_last(s);
        let st = segments(t);
        if t.len() > 0 && v == t.last() {
            lemma_segments_last(t);
            let m = st.last().0;
            let pre = st.drop_last();
            assert(st =~= pre.push(st.last()));
            assert(segments(s) =~= pre.push((m + 1, v)));
            assert(track_runs(st, i) =~= track_runs(pre, i).push(
                Range { length: m as u32, value: v[i] },
            ));
            assert(track_runs(segments(s), i) =~= track_runs(pre, i).push(
                Range { length: (m + 1) as u32, value: v[i] },
            ));
            lemma_sum_of_push(track_runs(pre, i), Range { length: m as u32, value: v[i] }, len_of());
            lemma_sum_of_push(
                track_runs(pre, i),
                Range { length: (m + 1) as u32, value: v[i] },
                len_of(),
            );
        } else {
            assert(track_runs(segments(s), i) =~= track_runs(st, i).push(
                Range { length: 1, value: v[i] },
            ));
            lemma_sum_of_push(track_runs(st, i), Range { length: 1, value: v[i] }, len_of());
        }
    } else {
        assert(track_runs(segments(s), i).len() == 0);
    }
}

} // verus!
