//! Byte-level reading: searching, decimal digits and white space.
use vstd::prelude::*;

verus! {

pub const COLON: u8 = 58;

pub const DASH: u8 = 45;

pub const TAB: u8 = 9;

pub const HASH: u8 = 35;

/// Index of the first `x` in `b`, or -1 when there is none.
pub open spec fn first_index(b: Seq<u8>, x: u8) -> int {
    if exists|i: int| 0 <= i < b.len() && b[i] == x && forall|j: int| 0 <= j < i ==> b[j] != x {
        choose|i: int| 0 <= i < b.len() && b[i] == x && forall|j: int| 0 <= j < i ==> b[j] != x
    } else {
        -1
    }
}

pub open spec fn is_digit(c: u8) -> bool {
    48 <= c <= 57
}

/// A non-empty run of ASCII digits.
pub open spec fn is_digits(d: Seq<u8>) -> bool {
    d.len() > 0 && forall|i: int| 0 <= i < d.len() ==> is_digit(#[trigger] d[i])
}

/// The number that decimal digits `d` write.
pub open spec fn digits_value(d: Seq<u8>) -> nat
    decreases d.len(),
{
    if d.len() == 0 {
        0
    } else {
        digits_value(d.drop_last()) * 10 + (d.last() - 48) as nat
    }
}

/// First index `i` in `lo..hi` with `b[i] == x`, or `hi`.
pub(crate) fn find_byte(b: &[u8], lo: usize, hi: usize, x: u8) -> (r: usize)
    requires
        lo <= hi <= b@.len(),
    ensures
        lo <= r <= hi,
        r < hi ==> first_index(b@.subrange(lo as int, hi as int), x) == r - lo,
        r == hi ==> first_index(b@.subrange(lo as int, hi as int), x) == -1,
{
    let ghost t = b@.subrange(lo as int, hi as int);
    let mut i: usize = lo;
    while i < hi
        invariant
            lo <= i <= hi <= b@.len(),
            t == b@.subrange(lo as int, hi as int),
            forall|j: int| lo <= j < i ==> b@[j] != x,
        decreases b@.len() - i,
    {
        if b[i] == x {
            proof {
                let w = i - lo;
                assert(0 <= w < t.len() && t[w] == x && forall|j: int| 0 <= j < w ==> t[j] != x);
                let c = choose|c: int| 0 <= c < t.len() && t[c] == x && forall|j: int| 0 <= j < c ==> t[j] != x;
                if c < w {
                    assert(b@[lo + c] != x);
                } else if c > w {
                    assert(t[w] != x);
                }
            }
            return i;
        }
        i = i + 1;
    }
    proof {
        assert forall|w: int| 0 <= w < t.len() && t[w] == x implies false by {
            assert(b@[lo + w] != x);
        }
    }
    i
}

pub(crate) proof fn lemma_digits_value_grows(d: Seq<u8>, n: int)
    requires
        0 <= n <= d.len(),
    ensures
        digits_value(d.take(n)) <= digits_value(d),
    decreases d.len() - n,
{
    if n < d.len() {
        lemma_digits_value_grows(d, n + 1);
        let t = d.take(n + 1);
        assert(t.drop_last() =~= d.take(n));
    } else {
        assert(d.take(n) =~= d);
    }
}

/// Reads the decimal digits `b[lo..hi]`; `None` when the number does not
/// fit in 32 bits.
pub(crate) fn parse_u32(b: &[u8], lo: usize, hi: usize) -> (r: Option<u32>)
    requires
        lo <= hi <= b@.len(),
        forall|i: int| lo <= i < hi ==> is_digit(b@[i]),
    ensures
        r == (if digits_value(b@.subrange(lo as int, hi as int)) <= u32::MAX {
            Some(digits_value(b@.subrange(lo as int, hi as int)) as u32)
        } else {
            None::<u32>
        }),
{
    let ghost d = b@.subrange(lo as int, hi as int);
    let mut acc: u64 = 0;
    let mut i: usize = lo;
    while i < hi
        invariant
            lo <= i <= hi <= b@.len(),
            d == b@.subrange(lo as int, hi as int),
            forall|k: int| lo <= k < hi ==> is_digit(b@[k]),
            acc == digits_value(d.take(i - lo)),
            acc <= u32::MAX,
        decreases hi - i,
    {
        proof {
            assert(d.take(i - lo + 1).drop_last() =~= d.take(i - lo));
            assert(d.take(i - lo + 1).last() == b@[i as int]);
        }
        let next: u64 = acc * 10 + (b[i] - 48) as u64;
        if next > u32::MAX as u64 {
            proof {
                lemma_digits_value_grows(d, i - lo + 1);
            }
            return None;
        }
        acc = next;
        i = i + 1;
    }
    proof {
        assert(d.take(hi - lo) =~= d);
    }
    Some(acc as u32)
}

pub(crate) fn all_digits(b: &[u8], lo: usize, hi: usize) -> (r: bool)
    requires
        lo <= hi <= b@.len(),
    ensures
        r == forall|i: int| lo <= i < hi ==> is_digit(b@[i]),
{
    let mut i: usize = lo;
    while i < hi
        invariant
            lo <= i <= hi <= b@.len(),
            forall|k: int| lo <= k < i ==> is_digit(b@[k]),
        decreases hi - i,
    {
        if !(48 <= b[i] && b[i] <= 57) {
            return false;
        }
        i = i + 1;
    }
    true
}

/// A copy of `b[lo..hi]`.
pub(crate) fn copy_bytes(b: &[u8], lo: usize, hi: usize) -> (r: Vec<u8>)
    requires
        lo <= hi <= b@.len(),
    ensures
        r@ == b@.subrange(lo as int, hi as int),
{
    let mut r: Vec<u8> = Vec::new();
    let mut i: usize = lo;
    while i < hi
        invariant
            lo <= i <= hi <= b@.len(),
            r@ == b@.subrange(lo as int, i as int),
        decreases hi - i,
    {
        r.push(b[i]);
        proof {
            assert(r@ =~= b@.subrange(lo as int, i + 1));
        }
        i = i + 1;
    }
    r
}

pub open spec fn is_space(c: u8) -> bool {
    c == 32 || (9 <= c <= 13)
}

pub open spec fn trim_front(s: Seq<u8>) -> Seq<u8>
    decreases s.len(),
{
    if s.len() > 0 && is_space(s[0]) {
        trim_front(s.drop_first())
    } else {
        s
    }
}

pub open spec fn trim_back(s: Seq<u8>) -> Seq<u8>
    decreases s.len(),
{
    if s.len() > 0 && is_space(s.last()) {
        trim_back(s.drop_last())
    } else {
        s
    }
}

/// `s` without ASCII white space at either end.
pub open spec fn trimmed(s: Seq<u8>) -> Seq<u8> {
    trim_back(trim_front(s))
}

/// Bounds of `b[from..to]` trimmed.
pub(crate) fn trim_range(b: &[u8], from: usize, to: usize) -> (r: (usize, usize))
    requires
        from <= to <= b@.len(),
    ensures
        from <= r.0 <= r.1 <= to,
        b@.subrange(r.0 as int, r.1 as int) == trimmed(b@.subrange(from as int, to as int)),
{
    let ghost w = b@.subrange(from as int, to as int);
    let mut lo: usize = from;
    proof {
        assert(w.skip(0) =~= w);
    }
    while lo < to && (b[lo] == 32 || (9 <= b[lo] && b[lo] <= 13))
        invariant
            from <= lo <= to <= b@.len(),
            w == b@.subrange(from as int, to as int),
            trim_front(w) == trim_front(b@.subrange(lo as int, to as int)),
        decreases to - lo,
    {
        proof {
            assert(b@.subrange(lo as int, to as int).drop_first() =~= b@.subrange(lo + 1, to as int));
        }
        lo = lo + 1;
    }
    let mut hi: usize = to;
    proof {
        if lo == to {
            assert(b@.subrange(lo as int, to as int).len() == 0);
        }
    }
    while hi > lo && (b[hi - 1] == 32 || (9 <= b[hi - 1] && b[hi - 1] <= 13))
        invariant
            from <= lo <= hi <= to <= b@.len(),
            w == b@.subrange(from as int, to as int),
            trimmed(w) == trim_back(b@.subrange(lo as int, hi as int)),
        decreases hi - lo,
    {
        proof {
            assert(b@.subrange(lo as int, hi as int).drop_last() =~= b@.subrange(lo as int, hi - 1));
        }
        hi = hi - 1;
    }
    (lo, hi)
}

pub const COMMA: u8 = 44;

pub proof fn lemma_first_index_range(b: Seq<u8>, x: u8)
    ensures
        first_index(b, x) == -1 || (0 <= first_index(b, x) < b.len() && b[first_index(b, x)] == x),
{
}

} // verus!
