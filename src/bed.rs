//! BED input: lines of `chrom<TAB>begin<TAB>end`, `#` starting a comment.
use vstd::prelude::*;
use vstd::string::StringSliceAdditionalSpecFns;
use crate::bytes::{
    all_digits, copy_bytes, digits_value, find_byte, first_index, is_digit, is_digits, parse_u32,
    trim_range, trimmed, COLON, HASH, TAB,
};
use crate::region::RegionSpec;

verus! {

/// The field of `t` that ends at the first tab, or all of `t`.
pub open spec fn field(t: Seq<u8>) -> Seq<u8> {
    let i = first_index(t, TAB);
    if i == -1 {
        t
    } else {
        t.take(i)
    }
}

/// What follows the first tab of `t`.
pub open spec fn after_tab(t: Seq<u8>) -> Seq<u8> {
    t.skip(first_index(t, TAB) + 1)
}

/// The record of a data line: chromosome, begin and end, when the trimmed
/// line has at least three tab-separated fields, the first one non-empty
/// and without `:`, the next two decimal numbers that fit in 32 bits.
#[verifier::opaque]
pub open spec fn bed_record(line: Seq<u8>) -> Option<(Seq<u8>, u32, u32)> {
    let t = trimmed(line);
    let r1 = after_tab(t);
    let r2 = after_tab(r1);
    let f0 = field(t);
    let f1 = field(r1);
    let f2 = field(r2);
    if first_index(t, TAB) != -1 && first_index(r1, TAB) != -1 && f0.len() > 0 && first_index(
        f0,
        COLON,
    ) == -1 && is_digits(f1) && is_digits(f2) && digits_value(f1) <= u32::MAX && digits_value(f2)
        <= u32::MAX {
        Some((f0, digits_value(f1) as u32, digits_value(f2) as u32))
    } else {
        None
    }
}

/// A comment line starts with `#`.
pub open spec fn is_comment(line: Seq<u8>) -> bool {
    line.len() > 0 && line[0] == HASH
}

#[derive(Clone, Copy, Debug, PartialEq, Eq, Structural)]
pub enum BedError {
    /// A data line is not `chrom<TAB>begin<TAB>end`.
    InvalidBedRecord,
}

/// Parses one line of a BED file: `None` for a comment, else the region
/// `chrom:begin-end` of its record.
#[verifier::rlimit(50)]
pub fn parse_bed_line(line: &str) -> (r: Result<Option<RegionSpec>, BedError>)
    ensures
        is_comment(line.spec_bytes()) ==> r == Ok::<Option<RegionSpec>, BedError>(None),
        !is_comment(line.spec_bytes()) ==> (r is Ok <==> bed_record(line.spec_bytes()) is Some),
        r is Err ==> r == Err::<Option<RegionSpec>, BedError>(BedError::InvalidBedRecord),
        r matches Ok(Some(p)) ==> (p.from is Some && p.to is Some && bed_record(line.spec_bytes())
            == Some((p.chr@, p.from->0, p.to->0))),
        !is_comment(line.spec_bytes()) && r is Ok ==> r matches Ok(Some(_)),
{
    proof {
        reveal(bed_record);
    }
    let b = line.as_bytes();
    let ghost bs = b@;
    if b.len() > 0 && b[0] == HASH {
        return Ok(None);
    }
    let (lo, hi) = trim_range(b, 0, b.len());
    let ghost t = bs.subrange(lo as int, hi as int);
    proof {
        assert(bs.subrange(0, bs.len() as int) =~= bs);
    }
    let tab1 = find_byte(b, lo, hi, TAB);
    if tab1 == hi {
        return Err(BedError::InvalidBedRecord);
    }
    let ghost r1 = bs.subrange(tab1 + 1, hi as int);
    proof {
        assert(after_tab(t) =~= r1);
        assert(field(t) =~= bs.subrange(lo as int, tab1 as int));
    }
    let tab2 = find_byte(b, tab1 + 1, hi, TAB);
    if tab2 == hi {
        return Err(BedError::InvalidBedRecord);
    }
    let ghost r2 = bs.subrange(tab2 + 1, hi as int);
    let tab3 = find_byte(b, tab2 + 1, hi, TAB);
    proof {
        assert(after_tab(r1) =~= r2);
        assert(field(r1) =~= bs.subrange(tab1 + 1, tab2 as int));
        assert(field(r2) =~= bs.subrange(tab2 + 1, tab3 as int));
    }
    let c = find_byte(b, lo, tab1, COLON);
    if tab1 == lo || c != tab1 {
        return Err(BedError::InvalidBedRecord);
    }
    if tab2 == tab1 + 1 || !all_digits(b, tab1 + 1, tab2) {
        proof {
            if tab2 > tab1 + 1 {
                let k = choose|k: int| tab1 + 1 <= k < tab2 && !is_digit(bs[k]);
                assert(!is_digit(field(r1)[k - tab1 - 1]));
            }
        }
        return Err(BedError::InvalidBedRecord);
    }
    if tab3 == tab2 + 1 || !all_digits(b, tab2 + 1, tab3) {
        proof {
            if tab3 > tab2 + 1 {
                let k = choose|k: int| tab2 + 1 <= k < tab3 && !is_digit(bs[k]);
                assert(!is_digit(field(r2)[k - tab2 - 1]));
            }
        }
        return Err(BedError::InvalidBedRecord);
    }
    let begin = match parse_u32(b, tab1 + 1, tab2) {
        Some(v) => v,
        None => {
            return Err(BedError::InvalidBedRecord);
        },
    };
    let end = match parse_u32(b, tab2 + 1, tab3) {
        Some(v) => v,
        None => {
            return Err(BedError::InvalidBedRecord);
        },
    };
    let chr = copy_bytes(b, lo, tab1);
    Ok(Some(RegionSpec { chr, from: Some(begin), to: Some(end) }))
}

pub open spec fn line_bytes(l: String) -> Seq<u8> {
    vstd::utf8::encode_utf8(l@)
}

/// Every data line of `lines` holds a record.
pub open spec fn bed_lines_valid(lines: Seq<String>) -> bool {
    forall|i: int|
        0 <= i < lines.len() && !is_comment(line_bytes(#[trigger] lines[i])) ==> bed_record(
            line_bytes(lines[i]),
        ) is Some
}

/// The region specifiers of the data lines of `lines`, in order.
pub open spec fn bed_specs(lines: Seq<String>) -> Seq<(Seq<u8>, Option<u32>, Option<u32>)>
    decreases lines.len(),
{
    if lines.len() == 0 {
        Seq::empty()
    } else {
        let rest = bed_specs(lines.drop_last());
        let l = line_bytes(lines.last());
        if is_comment(l) {
            rest
        } else {
            match bed_record(l) {
                Some(x) => rest.push((x.0, Some(x.1), Some(x.2))),
                None => rest,
            }
        }
    }
}

/// Parses the lines of a BED file into region specifiers; any data line
/// without a record fails the whole file.
pub fn parse_bed_lines(lines: &Vec<String>) -> (r: Result<Vec<RegionSpec>, BedError>)
    ensures
        r is Ok <==> bed_lines_valid(lines@),
        r is Err ==> r == Err::<Vec<RegionSpec>, BedError>(BedError::InvalidBedRecord),
        r matches Ok(v) ==> v@.map_values(|p: RegionSpec| p@) == bed_specs(lines@),
{
    let mut specs: Vec<RegionSpec> = Vec::new();
    let mut i: usize = 0;
    while i < lines.len()
        invariant
            i <= lines@.len(),
            forall|j: int|
                0 <= j < i && !is_comment(line_bytes(#[trigger] lines@[j])) ==> bed_record(
                    line_bytes(lines@[j]),
                ) is Some,
            specs@.map_values(|p: RegionSpec| p@) == bed_specs(lines@.take(i as int)),
        decreases lines@.len() - i,
    {
        let text = lines[i].as_str();
        proof {
            assert(text.spec_bytes() == line_bytes(lines@[i as int]));
            assert(lines@.take(i + 1).drop_last() =~= lines@.take(i as int));
            assert(lines@.take(i + 1).last() == lines@[i as int]);
        }
        match parse_bed_line(text) {
            Ok(Some(p)) => {
                let ghost before = specs@;
                specs.push(p);
                proof {
                    assert(specs@.map_values(|p: RegionSpec| p@) =~= before.map_values(
                        |p: RegionSpec| p@,
                    ).push(p@));
                }
            },
            Ok(None) => {},
            Err(e) => {
                proof {
                    assert(!bed_lines_valid(lines@)) by {
                        assert(!is_comment(line_bytes(lines@[i as int])));
                    }
                }
                return Err(e);
            },
        }
        i = i + 1;
    }
    proof {
        assert(lines@.take(lines@.len() as int) =~= lines@);
    }
    Ok(specs)
}

} // verus!
