use vstd::prelude::*;
use vstd::string::*;
use vstd::utf8::encode_utf8;

use std::marker::PhantomData;
use std::path::PathBuf;

use crate::dimension::{Chunk, RCoord};

verus! {

#[verifier::external_type_specification]
#[verifier::external_body]
pub struct ExPathBuf(PathBuf);

/// Finds region files in a directory. Its file-system work is done by the
/// caller; this type holds the directory and the naming rules.
pub struct RegionFileLoader<C: Chunk> {
    region_dir: PathBuf,
    p: PhantomData<C>,
}

impl<C: Chunk> RegionFileLoader<C> {
    /// A loader over the region files in `region_dir`.
    pub fn new(region_dir: PathBuf) -> (r: RegionFileLoader<C>)
        ensures
            r.dir() == region_dir,
    {
        RegionFileLoader { region_dir, p: PhantomData }
    }

    pub closed spec fn dir(&self) -> PathBuf {
        self.region_dir
    }

    /// The directory the region files are in.
    pub fn region_dir(&self) -> (r: &PathBuf)
        ensures
            *r == self.dir(),
    {
        &self.region_dir
    }
}

/// What a directory listing says of one entry.
pub struct RegionFileEntry {
    /// The entry's file name.
    pub name: String,
    /// Whether the entry is a regular file.
    pub is_file: bool,
    /// The file's size in bytes.
    pub len: u64,
}

/// The decimal digits of `n`, most significant first.
pub open spec fn digits_of(n: nat) -> Seq<char>
    decreases n,
{
    if n < 10 {
        seq![(n + 48) as char]
    } else {
        digits_of(n / 10) + seq![((n % 10) + 48) as char]
    }
}

/// `n` written in decimal, with a leading `-` when negative.
pub open spec fn decimal_of(n: int) -> Seq<char> {
    if n < 0 {
        seq!['-'] + digits_of((-n) as nat)
    } else {
        digits_of(n as nat)
    }
}

/// Relies on the `Display` of `isize` (through `to_string`): decimal digits,
/// with a leading `-` for negative values.
#[verifier::external_body]
fn isize_text(v: isize) -> (r: String)
    ensures
        r@ == decimal_of(v as int),
{
    v.to_string()
}

/// The file name of the region at `(x, z)`.
pub open spec fn region_file_name_of(x: int, z: int) -> Seq<char> {
    seq!['r', '.'] + decimal_of(x) + seq!['.'] + decimal_of(z) + seq!['.', 'm', 'c', 'a']
}

/// The file name under which the region at `(x, z)` is stored: `r.<x>.<z>.mca`.
pub fn region_file_name(x: RCoord, z: RCoord) -> (r: String)
    ensures
        r@ == region_file_name_of(x.0 as int, z.0 as int),
{
    let xs = isize_text(x.0);
    let zs = isize_text(z.0);
    let r = String::from_str("r.");
    let r = r.concat(xs.as_str());
    let r = r.concat(".");
    let r = r.concat(zs.as_str());
    let r = r.concat(".mca");
    proof {
        reveal_strlit("r.");
        reveal_strlit(".");
        reveal_strlit(".mca");
    }
    r
}

/// The value of the decimal digit string `s`.
pub open spec fn digits_value(s: Seq<u8>) -> int
    decreases s.len(),
{
    if s.len() == 0 {
        0
    } else {
        digits_value(s.drop_last()) * 10 + (s.last() - 48)
    }
}

/// Every byte of `s` is an ASCII digit.
pub open spec fn all_digits(s: Seq<u8>) -> bool {
    forall|i: int| 0 <= i < s.len() ==> 48 <= #[trigger] s[i] <= 57
}

/// The `isize` that `s` spells in decimal: an optional `+` or `-`, then at
/// least one digit; `None` where `s` is not of that form or the value does
/// not fit.
pub open spec fn parse_isize(s: Seq<u8>) -> Option<int> {
    let neg = s.len() > 0 && s[0] == 45;
    let signed = s.len() > 0 && (s[0] == 45 || s[0] == 43);
    let digits = if signed {
        s.subrange(1, s.len() as int)
    } else {
        s
    };
    let v = if neg {
        -digits_value(digits)
    } else {
        digits_value(digits)
    };
    if digits.len() > 0 && all_digits(digits) && isize::MIN <= v <= isize::MAX {
        Some(v)
    } else {
        None
    }
}

/// The index of the first `.` in `b` at or after `from`, or `b.len()`.
pub open spec fn dot_from(b: Seq<u8>, from: int) -> int
    decreases b.len() - from,
{
    if from < 0 || from >= b.len() {
        b.len() as int
    } else if b[from] == 46 {
        from
    } else {
        dot_from(b, from + 1)
    }
}

/// The region coordinates that a region file's name spells: the name is
/// `r.<x>.<z>.mca` with `<x>` and `<z>` decimal integers that fit `isize`.
pub open spec fn coords_of_name(b: Seq<u8>) -> Option<(RCoord, RCoord)> {
    let d2 = dot_from(b, 2);
    let d3 = dot_from(b, d2 + 1);
    if b.len() < 2 || b[0] != 114 || b[1] != 46 || !has_region_ext(b) || d2 >= b.len() || d3
        != b.len() - 4 {
        None
    } else {
        match (parse_isize(b.subrange(2, d2)), parse_isize(b.subrange(d2 + 1, d3))) {
            (Some(x), Some(z)) => Some((RCoord(x as isize), RCoord(z as isize))),
            _ => None,
        }
    }
}

proof fn lemma_digits_value_grows(s: Seq<u8>, i: int)
    requires
        0 <= i <= s.len(),
        all_digits(s),
    ensures
        digits_value(s.subrange(0, i)) <= digits_value(s),
    decreases s.len() - i,
{
    if i < s.len() {
        lemma_digits_value_grows(s, i + 1);
        let t = s.subrange(0, i + 1);
        assert(t.drop_last() =~= s.subrange(0, i));
        assert(0 <= digits_value(s.subrange(0, i))) by {
            lemma_digits_value_nonneg(s.subrange(0, i));
        }
    } else {
        assert(s.subrange(0, i) =~= s);
    }
}

proof fn lemma_digits_value_nonneg(s: Seq<u8>)
    requires
        all_digits(s),
    ensures
        digits_value(s) >= 0,
    decreases s.len(),
{
    if s.len() > 0 {
        lemma_digits_value_nonneg(s.drop_last());
    }
}

/// The index of the first `.` in `b` at or after `from`, or `b.len()`.
fn find_dot(b: &[u8], from: usize) -> (r: usize)
    requires
        from <= b@.len(),
    ensures
        r == dot_from(b@, from as int),
        from <= r <= b@.len(),
{
    let mut i = from;
    while i < b.len()
        invariant
            from <= i <= b@.len(),
            dot_from(b@, from as int) == dot_from(b@, i as int),
        decreases b@.len() - i,
    {
        if b[i] == 46 {
            return i;
        }
        i = i + 1;
    }
    i
}

/// Parses `b[start..end]` as an `isize` in decimal.
fn parse_isize_at(b: &[u8], start: usize, end: usize) -> (r: Option<isize>)
    requires
        start <= end <= b@.len(),
    ensures
        match parse_isize(b@.subrange(start as int, end as int)) {
            Some(v) => r == Some(v as isize),
            None => r is None,
        },
{
    let ghost s = b@.subrange(start as int, end as int);
    if start == end {
        return None;
    }
    let neg = b[start] == 45;
    let first: usize = if b[start] == 45 || b[start] == 43 {
        start + 1
    } else {
        start
    };
    let ghost digits = b@.subrange(first as int, end as int);
    assert(digits =~= if s.len() > 0 && (s[0] == 45 || s[0] == 43) {
        s.subrange(1, s.len() as int)
    } else {
        s
    });
    if first == end {
        return None;
    }
    let limit: i128 = isize::MAX as i128 + 1;
    let mut acc: i128 = 0;
    let mut i = first;
    while i < end
        invariant
            start <= first <= i <= end <= b@.len(),
            digits == b@.subrange(first as int, end as int),
            all_digits(b@.subrange(first as int, i as int)),
            acc == digits_value(b@.subrange(first as int, i as int)),
            0 <= acc <= limit,
            limit == isize::MAX + 1,
            s == b@.subrange(start as int, end as int),
            s.len() > 0,
            neg == (s[0] == 45),
            s[0] == 45 || s[0] == 43 ==> digits == s.subrange(1, s.len() as int),
            !(s[0] == 45 || s[0] == 43) ==> digits == s,
        decreases end - i,
    {
        let c = b[i];
        if c < 48 || c > 57 {
            assert(digits[i - first] == c);
            assert(!all_digits(digits));
            return None;
        }
        let ghost prev = b@.subrange(first as int, i as int);
        acc = acc * 10 + (c - 48) as i128;
        proof {
            let next = b@.subrange(first as int, i + 1);
            assert(next.drop_last() =~= prev);
            assert(next.last() == c);
            assert(digits_value(next) == digits_value(prev) * 10 + (c - 48));
            assert(all_digits(next));
        }
        if acc > limit {
            proof {
                let full = b@.subrange(first as int, end as int);
                if all_digits(full) {
                    assert(full.subrange(0, i + 1 - first) =~= b@.subrange(first as int, i + 1));
                    lemma_digits_value_grows(full, i + 1 - first);
                    assert(digits_value(full) > limit);
                }
            }
            return None;
        }
        i = i + 1;
    }
    assert(b@.subrange(first as int, end as int) == digits);
    if neg {
        let v: i128 = -acc;
        if v < isize::MIN as i128 {
            return None;
        }
        Some(v as isize)
    } else {
        if acc > isize::MAX as i128 {
            return None;
        }
        Some(acc as isize)
    }
}

/// The region coordinates in a region file's name, `r.<x>.<z>.mca` with
/// `<x>` and `<z>` decimal `isize` values. `None` for any other name.
pub fn coords_from_region(file_name: &str) -> (r: Option<(RCoord, RCoord)>)
    ensures
        r == coords_of_name(file_name.spec_bytes()),
{
    let b = file_name.as_bytes();
    let n = b.len();
    if n < 5 || b[0] != 114 || b[1] != 46 {
        return None;
    }
    if !(b[n - 4] == 46 && b[n - 3] == 109 && b[n - 2] == 99 && b[n - 1] == 97) {
        return None;
    }
    let d2 = find_dot(b, 2);
    if d2 >= n {
        return None;
    }
    let d3 = find_dot(b, d2 + 1);
    if d3 != n - 4 {
        return None;
    }
    let x = match parse_isize_at(b, 2, d2) {
        Some(v) => v,
        None => return None,
    };
    let z = match parse_isize_at(b, d2 + 1, d3) {
        Some(v) => v,
        None => return None,
    };
    Some((RCoord(x), RCoord(z)))
}

/// The name ends in the region file extension, `.mca`, after a non-empty stem.
pub open spec fn has_region_ext(b: Seq<u8>) -> bool {
    b.len() >= 5 && b[b.len() - 4] == 46 && b[b.len() - 3] == 109 && b[b.len() - 2] == 99
        && b[b.len() - 1] == 97
}

/// The coordinates a directory entry stands for, where it is a non-empty
/// regular region file with a well-formed name.
pub open spec fn entry_coords(e: RegionFileEntry) -> Option<(RCoord, RCoord)> {
    let b = encode_utf8(e.name@);
    if e.is_file && e.len > 0 && has_region_ext(b) {
        coords_of_name(b)
    } else {
        None
    }
}

/// The coordinates of the region files among `entries`, in their order.
pub open spec fn listed_coords(entries: Seq<RegionFileEntry>) -> Seq<(RCoord, RCoord)>
    decreases entries.len(),
{
    if entries.len() == 0 {
        Seq::empty()
    } else {
        let rest = listed_coords(entries.drop_last());
        match entry_coords(entries.last()) {
            Some(c) => rest.push(c),
            None => rest,
        }
    }
}

/// The coordinates of the region files among the entries of a directory
/// listing: regular files of non-zero size named `r.<x>.<z>.mca`. Other
/// entries are passed over.
pub fn regions_in(entries: &Vec<RegionFileEntry>) -> (r: Vec<(RCoord, RCoord)>)
    ensures
        r@ == listed_coords(entries@),
{
    let mut out: Vec<(RCoord, RCoord)> = Vec::new();
    let mut i: usize = 0;
    while i < entries.len()
        invariant
            0 <= i <= entries@.len(),
            out@ == listed_coords(entries@.subrange(0, i as int)),
        decreases entries@.len() - i,
    {
        let e = &entries[i];
        let b = e.name.as_str().as_bytes();
        let n = b.len();
        let ext = n >= 5 && b[n - 4] == 46 && b[n - 3] == 109 && b[n - 2] == 99 && b[n - 1] == 97;
        let c = if e.is_file && e.len > 0 && ext {
            coords_from_region(e.name.as_str())
        } else {
            None
        };
        proof {
            assert(entries@.subrange(0, i + 1).drop_last() =~= entries@.subrange(0, i as int));
        }
        match c {
            Some(c) => out.push(c),
            None => {},
        }
        i = i + 1;
    }
    assert(entries@.subrange(0, entries@.len() as int) =~= entries@);
    out
}

} // verus!
