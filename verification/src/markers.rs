//! Start-of-packet and start-of-message detection in a datastream: the
//! position of the first window of distinct bytes.

use vstd::prelude::*;
use vstd::string::StringSliceAdditionalSpecFns;

verus! {

/// All bytes in the window of `n` starting at `i` differ from one another.
pub open spec fn window_distinct(s: Seq<u8>, i: int, n: int) -> bool {
    forall|j1: int, j2: int| i <= j1 < j2 < i + n ==> s[j1] != s[j2]
}

/// The first position `p` at or after `i` with `p + n` strictly inside the
/// data and a distinct window of `n` bytes at `p`, if any.
pub open spec fn first_marker(s: Seq<u8>, n: int, i: int) -> Option<int>
    decreases s.len() - i,
{
    if i < 0 || i + n >= s.len() {
        None
    } else if window_distinct(s, i, n) {
        Some(i)
    } else {
        first_marker(s, n, i + 1)
    }
}

/// Whether the window of `n` bytes at `i` holds no repeated byte.
fn window_is_distinct(v: &Vec<u8>, i: usize, n: usize) -> (r: bool)
    requires
        i + n <= v@.len(),
    ensures
        r == window_distinct(v@, i as int, n as int),
{
    let len = v.len();
    let mut a: usize = 0;
    while a < n
        invariant
            a <= n,
            len == v@.len(),
            i + n <= len,
            forall|j1: int, j2: int| i <= j1 < j2 < i + a ==> v@[j1] != v@[j2],
        decreases n - a,
    {
        let mut b: usize = 0;
        while b < a
            invariant
                b <= a < n,
                len == v@.len(),
                i + n <= len,
                forall|j1: int, j2: int| i <= j1 < j2 < i + a ==> v@[j1] != v@[j2],
                forall|j: int| i <= j < i + b ==> #[trigger] v@[j] != v@[i + a],
            decreases a - b,
        {
            if v[i + b] == v[i + a] {
                return false;
            }
            b += 1;
        }
        a += 1;
    }
    true
}

/// Scans for the first distinct window of `n` bytes.
fn find_marker(v: &Vec<u8>, n: usize) -> (r: Option<usize>)
    ensures
        match r {
            Some(p) => first_marker(v@, n as int, 0) == Some(p as int),
            None => first_marker(v@, n as int, 0) is None,
        },
{
    let mut ptr: usize = 0;
    while ptr < v.len() && n < v.len() - ptr
        invariant
            ptr <= v@.len(),
            first_marker(v@, n as int, 0) == first_marker(v@, n as int, ptr as int),
        decreases v@.len() - ptr,
    {
        if window_is_distinct(v, ptr, n) {
            return Some(ptr);
        }
        ptr += 1;
    }
    None
}

/// The index of the first window of four distinct bytes, scanning windows
/// that end strictly inside the data.
pub fn find_start_of_packet(data: &str) -> (r: Option<usize>)
    ensures
        match r {
            Some(p) => first_marker(data.spec_bytes(), 4, 0) == Some(p as int),
            None => first_marker(data.spec_bytes(), 4, 0) is None,
        },
{
    let v = data.as_bytes_vec();
    find_marker(&v, 4)
}

/// The index of the first window of fourteen distinct bytes, scanning
/// windows that end strictly inside the data.
pub fn find_start_of_message(data: &str) -> (r: Option<usize>)
    ensures
        match r {
            Some(p) => first_marker(data.spec_bytes(), 14, 0) == Some(p as int),
            None => first_marker(data.spec_bytes(), 14, 0) is None,
        },
{
    let v = data.as_bytes_vec();
    find_marker(&v, 14)
}

} // verus!
