//! Region specifiers: `CHR`, `CHR:TO` or `CHR:FROM-TO`, and their
//! resolution against a chromosome table.
use vstd::prelude::*;
use vstd::string::StringSliceAdditionalSpecFns;
use crate::bytes::{
    all_digits, copy_bytes, digits_value, find_byte, first_index, is_digit, is_digits, parse_u32,
    COLON, DASH,
};

verus! {

/// A region specifier, parsed: the chromosome name as bytes, and the
/// bounds it gives, if any.
#[derive(Debug)]
pub struct RegionSpec {
    pub chr: Vec<u8>,
    pub from: Option<u32>,
    pub to: Option<u32>,
}

#[derive(Clone, Copy, Debug, PartialEq, Eq, Structural)]
pub enum RegionError {
    /// The specifier does not follow `CHR[:[FROM-]TO]`.
    InvalidRegionSpec,
}

/// A decimal number that fits in 32 bits.
pub open spec fn is_number(d: Seq<u8>) -> bool {
    is_digits(d) && digits_value(d) <= u32::MAX
}

/// What follows the colon: `FROM-TO` or `TO`.
pub open spec fn tail_valid(t: Seq<u8>) -> bool {
    let d = first_index(t, DASH);
    if d == -1 {
        is_number(t)
    } else {
        is_number(t.take(d)) && is_number(t.skip(d + 1))
    }
}

/// `b` follows `CHR[:[FROM-]TO]`, where `CHR` is a non-empty run of bytes
/// other than `:`.
pub open spec fn spec_valid(b: Seq<u8>) -> bool {
    let c = first_index(b, COLON);
    if c == -1 {
        b.len() > 0
    } else {
        c > 0 && tail_valid(b.skip(c + 1))
    }
}

pub open spec fn spec_chr(b: Seq<u8>) -> Seq<u8> {
    let c = first_index(b, COLON);
    if c == -1 {
        b
    } else {
        b.take(c)
    }
}

/// `FROM`, where given.
pub open spec fn spec_from(b: Seq<u8>) -> Option<u32> {
    let c = first_index(b, COLON);
    let t = b.skip(c + 1);
    let d = first_index(t, DASH);
    if c == -1 || d == -1 {
        None
    } else {
        Some(digits_value(t.take(d)) as u32)
    }
}

/// `TO`, where given.
pub open spec fn spec_to(b: Seq<u8>) -> Option<u32> {
    let c = first_index(b, COLON);
    let t = b.skip(c + 1);
    let d = first_index(t, DASH);
    if c == -1 {
        None
    } else if d == -1 {
        Some(digits_value(t) as u32)
    } else {
        Some(digits_value(t.skip(d + 1)) as u32)
    }
}

/// Parses one region specifier.
pub fn parse_region_text(s: &str) -> (r: Result<RegionSpec, RegionError>)
    ensures
        r is Ok <==> spec_valid(s.spec_bytes()),
        r is Err ==> r == Err::<RegionSpec, RegionError>(RegionError::InvalidRegionSpec),
        r matches Ok(p) ==> p.chr@ == spec_chr(s.spec_bytes()) && p.from == spec_from(
            s.spec_bytes(),
        ) && p.to == spec_to(s.spec_bytes()),
{
    let b = s.as_bytes();
    let ghost bs = b@;
    let n = b.len();
    let c = find_byte(b, 0, n, COLON);
    proof {
        assert(bs.subrange(0, n as int) =~= bs);
    }
    if c == n {
        if n == 0 {
            return Err(RegionError::InvalidRegionSpec);
        }
        let chr = copy_bytes(b, 0, n);
        proof {
            assert(chr@ =~= bs);
        }
        return Ok(RegionSpec { chr, from: None, to: None });
    }
    if c == 0 {
        return Err(RegionError::InvalidRegionSpec);
    }
    let ghost t = bs.skip(c + 1);
    let d = find_byte(b, c + 1, n, DASH);
    proof {
        assert(t =~= bs.subrange(c + 1, n as int));
    }
    let chr = copy_bytes(b, 0, c);
    proof {
        assert(chr@ =~= bs.take(c as int));
    }
    if d == n {
        // `CHR:TO`
        proof {
            assert(t =~= bs.subrange(c + 1, n as int));
        }
        if c + 1 == n || !all_digits(b, c + 1, n) {
            proof {
                if c + 1 < n {
                    let k = choose|k: int| c + 1 <= k < n && !is_digit(bs[k]);
                    assert(!is_digit(t[k - c - 1]));
                }
            }
            return Err(RegionError::InvalidRegionSpec);
        }
        return match parse_u32(b, c + 1, n) {
            Some(to) => Ok(RegionSpec { chr, from: None, to: Some(to) }),
            None => Err(RegionError::InvalidRegionSpec),
        };
    }
    // `CHR:FROM-TO`
    proof {
        assert(t.take(d - c - 1) =~= bs.subrange(c + 1, d as int));
        assert(t.skip(d - c) =~= bs.subrange(d + 1, n as int));
    }
    if d == c + 1 || !all_digits(b, c + 1, d) {
        proof {
            if d > c + 1 {
                let k = choose|k: int| c + 1 <= k < d && !is_digit(bs[k]);
                assert(!is_digit(t.take(d - c - 1)[k - c - 1]));
            }
        }
        return Err(RegionError::InvalidRegionSpec);
    }
    let from = match parse_u32(b, c + 1, d) {
        Some(v) => v,
        None => {
            return Err(RegionError::InvalidRegionSpec);
        },
    };
    if d + 1 == n || !all_digits(b, d + 1, n) {
        proof {
            if d + 1 < n {
                let k = choose|k: int| d + 1 <= k < n && !is_digit(bs[k]);
                assert(!is_digit(t.skip(d - c)[k - d - 1]));
            }
        }
        return Err(RegionError::InvalidRegionSpec);
    }
    match parse_u32(b, d + 1, n) {
        Some(to) => Ok(RegionSpec { chr, from: Some(from), to: Some(to) }),
        None => Err(RegionError::InvalidRegionSpec),
    }
}

impl View for RegionSpec {
    type V = (Seq<u8>, Option<u32>, Option<u32>);

    open spec fn view(&self) -> (Seq<u8>, Option<u32>, Option<u32>) {
        (self.chr@, self.from, self.to)
    }
}

/// The parsed form of the specifier `b`.
pub open spec fn spec_of_text(b: Seq<u8>) -> (Seq<u8>, Option<u32>, Option<u32>) {
    (spec_chr(b), spec_from(b), spec_to(b))
}

/// One entry of the chromosome table.
#[derive(Debug)]
pub struct ChromInfo {
    pub name: String,
    pub size: u64,
}

/// A region `[start, end)` of the chromosome at `chrom` in the table.
pub type Region = (usize, u32, u32);

pub open spec fn name_bytes(c: ChromInfo) -> Seq<u8> {
    vstd::utf8::encode_utf8(c.name@)
}

/// Index of the first chromosome named `chr`, or -1.
pub open spec fn chrom_index(chroms: Seq<ChromInfo>, chr: Seq<u8>) -> int {
    if exists|i: int| 0 <= i < chroms.len() && name_bytes(chroms[i]) == chr && forall|j: int|
        0 <= j < i ==> name_bytes(chroms[j]) != chr {
        choose|i: int| 0 <= i < chroms.len() && name_bytes(chroms[i]) == chr && forall|j: int|
            0 <= j < i ==> name_bytes(chroms[j]) != chr
    } else {
        -1
    }
}

/// The end of a whole chromosome, capped at the largest `u32`.
pub open spec fn chrom_end(size: u64) -> u32 {
    if size > u32::MAX {
        u32::MAX
    } else {
        size as u32
    }
}

/// The region a parsed specifier names, or `None` for an unknown
/// chromosome. `TO` defaults to the chromosome's end and is capped there;
/// `FROM` defaults to 0 and is capped at the end, so `start <= end`.
pub open spec fn resolve_one(
    p: (Seq<u8>, Option<u32>, Option<u32>),
    chroms: Seq<ChromInfo>,
) -> Option<Region> {
    let i = chrom_index(chroms, p.0);
    if i == -1 {
        None
    } else {
        let limit = chrom_end(chroms[i].size);
        let end = match p.2 {
            Some(t) => if t < limit {
                t
            } else {
                limit
            },
            None => limit,
        };
        let from = match p.1 {
            Some(f) => f,
            None => 0,
        };
        Some((i as usize, if from < end {
            from
        } else {
            end
        }, end))
    }
}

/// Every region lies within its chromosome: a valid index, and
/// `start <= end <=` the chromosome's end.
pub open spec fn regions_within(regions: Seq<Region>, chroms: Seq<ChromInfo>) -> bool {
    forall|i: int|
        0 <= i < regions.len() ==> {
            &&& (#[trigger] regions[i]).0 < chroms.len()
            &&& regions[i].1 <= regions[i].2 <= chrom_end(chroms[regions[i].0 as int].size)
        }
}

/// The regions that the specifiers name, in the order given.
pub open spec fn resolved_seq(
    specs: Seq<(Seq<u8>, Option<u32>, Option<u32>)>,
    chroms: Seq<ChromInfo>,
) -> Seq<Region>
    decreases specs.len(),
{
    if specs.len() == 0 {
        Seq::empty()
    } else {
        let rest = resolved_seq(specs.drop_last(), chroms);
        match resolve_one(specs.last(), chroms) {
            Some(r) => rest.push(r),
            None => rest,
        }
    }
}

/// Positions, among `specs`, of those whose chromosome is not in the table.
pub open spec fn unknown_seq(
    specs: Seq<(Seq<u8>, Option<u32>, Option<u32>)>,
    chroms: Seq<ChromInfo>,
) -> Seq<usize>
    decreases specs.len(),
{
    if specs.len() == 0 {
        Seq::empty()
    } else {
        let rest = unknown_seq(specs.drop_last(), chroms);
        if chrom_index(chroms, specs.last().0) == -1 {
            rest.push((specs.len() - 1) as usize)
        } else {
            rest
        }
    }
}

/// A specifier whose chromosome is not in the table is dropped without
/// changing anything else: removing it leaves the resolved regions as they
/// were.
pub proof fn lemma_unknown_dropped(
    specs: Seq<(Seq<u8>, Option<u32>, Option<u32>)>,
    chroms: Seq<ChromInfo>,
    i: int,
)
    requires
        0 <= i < specs.len(),
        chrom_index(chroms, specs[i].0) == -1,
    ensures
        resolved_seq(specs.remove(i), chroms) == resolved_seq(specs, chroms),
    decreases specs.len(),
{
    if i == specs.len() - 1 {
        assert(specs.remove(i) =~= specs.drop_last());
    } else {
        lemma_unknown_dropped(specs.drop_last(), chroms, i);
        assert(specs.remove(i).drop_last() =~= specs.drop_last().remove(i));
        assert(specs.remove(i).last() == specs.last());
    }
}

/// Two sorted region lists that hold the same regions are equal.
pub proof fn lemma_sorted_unique(a: Seq<Region>, b: Seq<Region>)
    requires
        regions_sorted(a),
        regions_sorted(b),
        a.to_multiset() =~= b.to_multiset(),
    ensures
        a == b,
    decreases a.len(),
{
    broadcast use vstd::seq_lib::group_to_multiset_ensures;

    vstd::seq_lib::to_multiset_len(a);
    vstd::seq_lib::to_multiset_len(b);
    if a.len() == 0 {
        assert(a =~= b);
    } else {
        assert(a.to_multiset().count(a[0]) > 0);
        assert(b.to_multiset().contains(a[0]));
        let j = choose|j: int| 0 <= j < b.len() && b[j] == a[0];
        assert(b.to_multiset().count(b[0]) > 0);
        assert(a.to_multiset().contains(b[0]));
        let m = choose|m: int| 0 <= m < a.len() && a[m] == b[0];
        if j > 0 {
            assert(region_le(b[0], b[j]));
        }
        if m > 0 {
            assert(region_le(a[0], a[m]));
        }
        assert(a[0] == b[0]);
        vstd::seq_lib::to_multiset_remove(a, 0);
        vstd::seq_lib::to_multiset_remove(b, 0);
        assert(a.remove(0) =~= a.drop_first());
        assert(b.remove(0) =~= b.drop_first());
        lemma_sorted_unique(a.drop_first(), b.drop_first());
        assert(a =~= seq![a[0]] + a.drop_first());
        assert(b =~= seq![b[0]] + b.drop_first());
    }
}

/// A specifier whose chromosome is not in the table is dropped and changes
/// nothing: resolving the specifiers with it and without it gives the same
/// sorted region list.
pub proof fn lemma_unknown_dropped_sorted(
    specs: Seq<(Seq<u8>, Option<u32>, Option<u32>)>,
    chroms: Seq<ChromInfo>,
    i: int,
    with_it: Seq<Region>,
    without: Seq<Region>,
)
    requires
        0 <= i < specs.len(),
        chrom_index(chroms, specs[i].0) == -1,
        regions_sorted(with_it),
        regions_sorted(without),
        with_it.to_multiset() =~= resolved_seq(specs, chroms).to_multiset(),
        without.to_multiset() =~= resolved_seq(specs.remove(i), chroms).to_multiset(),
    ensures
        with_it == without,
{
    lemma_unknown_dropped(specs, chroms, i);
    lemma_sorted_unique(with_it, without);
}

/// Whole chromosomes, in table order.
pub open spec fn genome_seq(chroms: Seq<ChromInfo>) -> Seq<Region> {
    Seq::new(chroms.len(), |i: int| (i as usize, 0u32, chrom_end(chroms[i].size)))
}

pub open spec fn region_le(a: Region, b: Region) -> bool {
    a.0 < b.0 || (a.0 == b.0 && (a.1 < b.1 || (a.1 == b.1 && a.2 <= b.2)))
}

pub open spec fn regions_sorted(s: Seq<Region>) -> bool {
    forall|i: int, j: int| 0 <= i < j < s.len() ==> region_le(s[i], s[j])
}

/// Relies on `slice::sort_unstable`: the regions are reordered, none added
/// or lost, into ascending order, tuples comparing field by field.
#[verifier::external_body]
fn sort_regions(v: &mut Vec<Region>)
    ensures
        final(v)@.to_multiset() =~= old(v)@.to_multiset(),
        regions_sorted(final(v)@),
{
    v.sort_unstable()
}

/// Resolved regions, sorted, and the positions of the specifiers whose
/// chromosome is not in the table (dropped, to be warned about).
#[derive(Debug)]
pub struct Resolved {
    pub regions: Vec<Region>,
    pub unknown: Vec<usize>,
}

fn bytes_eq(a: &[u8], b: &[u8]) -> (r: bool)
    ensures
        r == (a@ == b@),
{
    if a.len() != b.len() {
        return false;
    }
    let mut i: usize = 0;
    while i < a.len()
        invariant
            i <= a@.len(),
            a@.len() == b@.len(),
            forall|k: int| 0 <= k < i ==> a@[k] == b@[k],
        decreases a@.len() - i,
    {
        if a[i] != b[i] {
            return false;
        }
        i = i + 1;
    }
    proof {
        assert(a@ =~= b@);
    }
    true
}

/// Index of the first chromosome named `chr`. A linear search over the
/// table rather than a map keyed by name: with `String` keys Verus proves
/// nothing of a map's lookups, and a chromosome table is short.
pub fn find_chrom(chroms: &Vec<ChromInfo>, chr: &Vec<u8>) -> (r: Option<usize>)
    ensures
        r is None <==> chrom_index(chroms@, chr@) == -1,
        r matches Some(i) ==> i == chrom_index(chroms@, chr@),
{
    let mut i: usize = 0;
    while i < chroms.len()
        invariant
            i <= chroms@.len(),
            forall|j: int| 0 <= j < i ==> name_bytes(chroms@[j]) != chr@,
        decreases chroms@.len() - i,
    {
        let name = chroms[i].name.as_str().as_bytes();
        if bytes_eq(name, chr.as_slice()) {
            proof {
                let s = chroms@;
                let c = choose|c: int| 0 <= c < s.len() && name_bytes(s[c]) == chr@ && forall|j: int|
                    0 <= j < c ==> name_bytes(s[j]) != chr@;
                if c > i {
                    assert(name_bytes(s[i as int]) != chr@);
                }
            }
            return Some(i);
        }
        i = i + 1;
    }
    None
}

/// Whole chromosomes, in table order.
pub fn whole_genome(chroms: &Vec<ChromInfo>) -> (r: Vec<Region>)
    ensures
        r@ == genome_seq(chroms@),
        regions_sorted(r@),
        regions_within(r@, chroms@),
{
    let mut r: Vec<Region> = Vec::new();
    let mut i: usize = 0;
    while i < chroms.len()
        invariant
            i <= chroms@.len(),
            r@ == genome_seq(chroms@).take(i as int),
        decreases chroms@.len() - i,
    {
        let size = chroms[i].size;
        let end: u32 = if size > u32::MAX as u64 {
            u32::MAX
        } else {
            size as u32
        };
        r.push((i, 0, end));
        proof {
            assert(r@ =~= genome_seq(chroms@).take(i + 1));
        }
        i = i + 1;
    }
    proof {
        assert(r@ =~= genome_seq(chroms@));
        assert forall|k: int| 0 <= k < r@.len() implies {
            &&& (#[trigger] r@[k]).0 < chroms@.len()
            &&& r@[k].1 <= r@[k].2 <= chrom_end(chroms@[r@[k].0 as int].size)
        } by {
            assert(k < i);
            assert(r@[k].0 as int == k);
        }
    }
    r
}

/// Resolves parsed specifiers: each one whose chromosome is in the table
/// gives a region (start 0 when `FROM` is absent, the chromosome's end when
/// `TO` is); the regions come sorted, duplicates kept. Bounds past the
/// chromosome are capped rather than refused, so that every region keeps
/// `start <= end <= size` and a BED file whose intervals overrun the
/// chromosome still yields its covered part: `TO` is cut to the chromosome's
/// end and `FROM` to `TO` (an empty region).
pub fn resolve_specs(specs: &Vec<RegionSpec>, chroms: &Vec<ChromInfo>) -> (r: Resolved)
    ensures
        r.regions@.to_multiset() =~= resolved_seq(specs@.map_values(|p: RegionSpec| p@), chroms@).to_multiset(),
        regions_sorted(r.regions@),
        r.unknown@ == unknown_seq(specs@.map_values(|p: RegionSpec| p@), chroms@),
        regions_within(r.regions@, chroms@),
{
    let ghost views = specs@.map_values(|p: RegionSpec| p@);
    let mut regions: Vec<Region> = Vec::new();
    let mut unknown: Vec<usize> = Vec::new();
    let mut i: usize = 0;
    while i < specs.len()
        invariant
            i <= specs@.len(),
            views == specs@.map_values(|p: RegionSpec| p@),
            regions@ == resolved_seq(views.take(i as int), chroms@),
            unknown@ == unknown_seq(views.take(i as int), chroms@),
            regions_within(regions@, chroms@),
        decreases specs@.len() - i,
    {
        let p = &specs[i];
        proof {
            assert(views.take(i + 1).drop_last() =~= views.take(i as int));
            assert(views.take(i + 1).last() == p@);
        }
        match find_chrom(chroms, &p.chr) {
            Some(c) => {
                let size = chroms[c].size;
                let limit: u32 = if size > u32::MAX as u64 {
                    u32::MAX
                } else {
                    size as u32
                };
                let end: u32 = match p.to {
                    Some(t) => if t < limit {
                        t
                    } else {
                        limit
                    },
                    None => limit,
                };
                let from: u32 = match p.from {
                    Some(f) => f,
                    None => 0,
                };
                let start: u32 = if from < end {
                    from
                } else {
                    end
                };
                let ghost before = regions@;
                regions.push((c, start, end));
                proof {
                    assert forall|k: int| 0 <= k < regions@.len() implies {
                        &&& (#[trigger] regions@[k]).0 < chroms@.len()
                        &&& regions@[k].1 <= regions@[k].2 <= chrom_end(chroms@[regions@[k].0 as int].size)
                    } by {
                        if k < before.len() {
                            assert(regions@[k] == before[k]);
                        }
                    }
                }
            },
            None => {
                unknown.push(i);
            },
        }
        i = i + 1;
    }
    proof {
        assert(views.take(specs@.len() as int) =~= views);
    }
    let ghost unsorted = regions@;
    sort_regions(&mut regions);
    proof {
        broadcast use vstd::seq_lib::group_to_multiset_ensures;

        assert forall|k: int| 0 <= k < regions@.len() implies {
            &&& (#[trigger] regions@[k]).0 < chroms@.len()
            &&& regions@[k].1 <= regions@[k].2 <= chrom_end(chroms@[regions@[k].0 as int].size)
        } by {
            assert(regions@.to_multiset().count(regions@[k]) > 0);
            assert(unsorted.to_multiset().contains(regions@[k]));
            let m = choose|m: int| 0 <= m < unsorted.len() && unsorted[m] == regions@[k];
            assert(unsorted[m] == regions@[k]);
        }
    }
    Resolved { regions, unknown }
}

/// Every text follows the grammar of region specifiers.
pub open spec fn all_valid(texts: Seq<String>) -> bool {
    forall|i: int| 0 <= i < texts.len() ==> spec_valid(vstd::utf8::encode_utf8(#[trigger] texts[i]@))
}

/// Parses and resolves region specifiers; with none, every chromosome is
/// taken whole. Fails when a specifier does not follow the grammar.
pub fn parse_region_spec(regions: Option<&Vec<String>>, chroms: &Vec<ChromInfo>) -> (r: Result<
    Resolved,
    RegionError,
>)
    ensures
        regions is None ==> (r matches Ok(v) && v.regions@ == genome_seq(chroms@) && v.unknown@.len()
            == 0),
        regions matches Some(texts) ==> (r is Ok <==> all_valid(texts@)),
        regions matches Some(texts) ==> (r matches Ok(v) ==> {
            &&& v.regions@.to_multiset() =~= resolved_seq(
                texts@.map_values(|t: String| spec_of_text(vstd::utf8::encode_utf8(t@))),
                chroms@,
            ).to_multiset()
            &&& regions_sorted(v.regions@)
            &&& v.unknown@ == unknown_seq(
                texts@.map_values(|t: String| spec_of_text(vstd::utf8::encode_utf8(t@))),
                chroms@,
            )
        }),
        r is Err ==> r == Err::<Resolved, RegionError>(RegionError::InvalidRegionSpec),
        r matches Ok(v) ==> regions_within(v.regions@, chroms@),
{
    match regions {
        None => {
            let whole = whole_genome(chroms);
            Ok(Resolved { regions: whole, unknown: Vec::new() })
        },
        Some(texts) => {
            let mut specs: Vec<RegionSpec> = Vec::new();
            let mut i: usize = 0;
            while i < texts.len()
                invariant
                    i <= texts@.len(),
                    regions == Some(texts),
                    specs@.len() == i,
                    forall|j: int| 0 <= j < i ==> spec_valid(vstd::utf8::encode_utf8(#[trigger] texts@[j]@)),
                    forall|j: int| 0 <= j < i ==> #[trigger] specs@[j]@ == spec_of_text(
                        vstd::utf8::encode_utf8(texts@[j]@),
                    ),
                decreases texts@.len() - i,
            {
                let text = texts[i].as_str();
                proof {
                    assert(text.spec_bytes() == vstd::utf8::encode_utf8(texts@[i as int]@));
                }
                match parse_region_text(text) {
                    Ok(p) => {
                        specs.push(p);
                    },
                    Err(e) => {
                        proof {
                            assert(!spec_valid(vstd::utf8::encode_utf8(texts@[i as int]@)));
                            assert(!all_valid(texts@));
                        }
                        return Err(e);
                    },
                }
                i = i + 1;
            }
            proof {
                assert(specs@.map_values(|p: RegionSpec| p@) =~= texts@.map_values(
                    |t: String| spec_of_text(vstd::utf8::encode_utf8(t@)),
                ));
            }
            Ok(resolve_specs(&specs, chroms))
        },
    }
}

} // verus!
