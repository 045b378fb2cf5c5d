//! Pairs of section ranges: which assignments contain or overlap each other.
//!
//! Each input line holds four numbers, two inclusive ranges, separated by
//! single non-digit bytes (`2-4,6-8`).

use vstd::prelude::*;
use vstd::string::StringSliceAdditionalSpecFns;

verus! {

/// An inclusive range of section numbers.
pub type ClearRange = (usize, usize);

/// The first range wholly contains the second.
pub open spec fn contains_spec(r1: ClearRange, r2: ClearRange) -> bool {
    r1.0 <= r2.0 && r1.1 >= r2.1
}

/// The ranges overlap, tested on their upper endpoints.
pub open spec fn overlap_spec(r1: ClearRange, r2: ClearRange) -> bool {
    (r1.0 <= r2.1 && r2.1 <= r1.1) || (r2.0 <= r1.1 && r1.1 <= r2.1)
}

/// Whether the first range wholly contains the second.
pub fn contains(r1: ClearRange, r2: ClearRange) -> (r: bool)
    ensures
        r == contains_spec(r1, r2),
{
    let (s1, e1) = r1;
    let (s2, e2) = r2;
    s1 <= s2 && e1 >= e2
}

/// Whether the two ranges overlap.
pub fn overlap(r1: ClearRange, r2: ClearRange) -> (r: bool)
    ensures
        r == overlap_spec(r1, r2),
{
    (r1.0 <= r2.1 && r2.1 <= r1.1) || (r2.0 <= r1.1 && r1.1 <= r2.1)
}

/// The four numbers of a well-formed line: four non-empty digit runs, each
/// pair separated by exactly one non-digit byte, with nothing after the
/// fourth, and each number fitting in `usize`.
pub open spec fn parse_line_spec(s: Seq<u8>) -> Option<(ClearRange, ClearRange)> {
    let e1 = crate::text::digit_run_end(s, 0);
    let e2 = crate::text::digit_run_end(s, e1 + 1);
    let e3 = crate::text::digit_run_end(s, e2 + 1);
    let e4 = crate::text::digit_run_end(s, e3 + 1);
    if e1 == 0 || e1 >= s.len() || e2 == e1 + 1 || e2 >= s.len() || e3 == e2 + 1 || e3 >= s.len()
        || e4 == e3 + 1 || e4 != s.len() {
        None
    } else {
        let v1 = crate::text::dec_val(s.subrange(0, e1));
        let v2 = crate::text::dec_val(s.subrange(e1 + 1, e2));
        let v3 = crate::text::dec_val(s.subrange(e2 + 1, e3));
        let v4 = crate::text::dec_val(s.subrange(e3 + 1, e4));
        if v1 > usize::MAX || v2 > usize::MAX || v3 > usize::MAX || v4 > usize::MAX {
            None
        } else {
            Some((((v1 as usize), (v2 as usize)), ((v3 as usize), (v4 as usize))))
        }
    }
}

/// Reads the two ranges of one line; `None` exactly when the line is not
/// four `usize` numbers separated by single non-digit bytes.
pub fn parse_line(line: &str) -> (r: Option<(ClearRange, ClearRange)>)
    ensures
        r == parse_line_spec(line.spec_bytes()),
{
    let bytes = line.as_bytes_vec();
    let (v1, e1) = match crate::text::take_number(&bytes, 0) {
        Some(x) => x,
        None => {
            return None;
        },
    };
    if e1 >= bytes.len() {
        return None;
    }
    let (v2, e2) = match crate::text::take_number(&bytes, e1 + 1) {
        Some(x) => x,
        None => {
            return None;
        },
    };
    if e2 >= bytes.len() {
        return None;
    }
    let (v3, e3) = match crate::text::take_number(&bytes, e2 + 1) {
        Some(x) => x,
        None => {
            return None;
        },
    };
    if e3 >= bytes.len() {
        return None;
    }
    let (v4, e4) = match crate::text::take_number(&bytes, e3 + 1) {
        Some(x) => x,
        None => {
            return None;
        },
    };
    if e4 != bytes.len() {
        return None;
    }
    Some(((v1, v2), (v3, v4)))
}

} // verus!
