//! Verified helpers for the small text formats the puzzles read: splitting
//! input into lines, locating bytes, and reading unsigned decimal numbers.
//!
//! All contracts are stated over the byte content of the input
//! (`str::spec_bytes`), so they are exact for every input.

use vstd::prelude::*;
use vstd::string::StringSliceAdditionalSpecFns;
use vstd::string::StrSliceExecFns;

verus! {

/// One step of line splitting: `acc` is the current unfinished line, `rest`
/// the bytes still to scan.  A newline ends a line, dropping one carriage
/// return just before it; a final unfinished line counts only if non-empty.
pub open spec fn lines_rec(acc: Seq<u8>, rest: Seq<u8>) -> Seq<Seq<u8>>
    decreases rest.len(),
{
    if rest.len() == 0 {
        if acc.len() == 0 {
            Seq::empty()
        } else {
            seq![acc]
        }
    } else if rest[0] == 10 {
        seq![chomp_cr(acc)] + lines_rec(Seq::empty(), rest.skip(1))
    } else {
        lines_rec(acc.push(rest[0]), rest.skip(1))
    }
}

/// A line's content with one trailing carriage return removed, as `str::lines` does.
pub open spec fn chomp_cr(line: Seq<u8>) -> Seq<u8> {
    if line.len() > 0 && line.last() == 13 {
        line.drop_last()
    } else {
        line
    }
}

/// The lines of a byte string, split as `str::lines` splits text.
pub open spec fn split_lines_spec(b: Seq<u8>) -> Seq<Seq<u8>> {
    lines_rec(Seq::empty(), b)
}

/// The index of the first occurrence of `b` in `s`, if any.
pub open spec fn find_first(s: Seq<u8>, b: u8) -> Option<int>
    decreases s.len(),
{
    if s.len() == 0 {
        None
    } else if s[0] == b {
        Some(0)
    } else {
        match find_first(s.skip(1), b) {
            Some(i) => Some(i + 1),
            None => None,
        }
    }
}

/// What `find_first` finds is sound and complete.
pub proof fn lemma_find_first(s: Seq<u8>, b: u8)
    ensures
        match find_first(s, b) {
            Some(i) => 0 <= i < s.len() && s[i] == b && forall|j: int| 0 <= j < i ==> s[j] != b,
            None => forall|j: int| 0 <= j < s.len() ==> s[j] != b,
        },
    decreases s.len(),
{
    if s.len() > 0 && s[0] != b {
        lemma_find_first(s.skip(1), b);
        assert forall|j: int| 1 <= j < s.len() implies s[j] == s.skip(1)[j - 1] by {}
    }
}

/// Splits a string into its lines, as byte vectors.
pub fn split_lines(s: &str) -> (r: Vec<Vec<u8>>)
    ensures
        r@.map(|i: int, l: Vec<u8>| l@) == split_lines_spec(s.spec_bytes()),
        s.spec_bytes().len() <= usize::MAX,
{
    let bytes = s.as_bytes_vec();
    // pins the byte count to the machine range
    let _ = bytes.len();
    let ghost whole = bytes@;
    let mut done: Vec<Vec<u8>> = Vec::new();
    let mut cur: Vec<u8> = Vec::new();
    let mut i: usize = 0;
    proof {
        assert(whole.skip(0) =~= whole);
        assert(done@.map(|k: int, l: Vec<u8>| l@) + lines_rec(cur@, whole) =~= lines_rec(
            cur@,
            whole,
        ));
    }
    while i < bytes.len()
        invariant
            i <= bytes@.len(),
            whole == bytes@,
            split_lines_spec(whole) == done@.map(|k: int, l: Vec<u8>| l@) + lines_rec(
                cur@,
                whole.skip(i as int),
            ),
        decreases bytes@.len() - i,
    {
        let ghost dv0 = done@.map(|k: int, l: Vec<u8>| l@);
        let b = bytes[i];
        proof {
            assert(whole.skip(i as int)[0] == b);
            assert(whole.skip(i as int).skip(1) =~= whole.skip(i + 1));
        }
        if b == 10 {
            let mut line = cur;
            if line.len() > 0 && line[line.len() - 1] == 13 {
                let _ = line.pop();
            }
            proof {
                assert(line@ == chomp_cr(cur@));
            }
            done.push(line);
            cur = Vec::new();
            proof {
                assert(done@.map(|k: int, l: Vec<u8>| l@) =~= dv0 + seq![line@]);
                assert((dv0 + seq![line@]) + lines_rec(Seq::empty(), whole.skip(i + 1)) =~= dv0 + (
                seq![line@] + lines_rec(Seq::empty(), whole.skip(i + 1))));
            }
        } else {
            cur.push(b);
        }
        i += 1;
    }
    proof {
        assert(whole.skip(i as int) =~= Seq::<u8>::empty());
    }
    if cur.len() > 0 {
        let ghost dv0 = done@.map(|k: int, l: Vec<u8>| l@);
        done.push(cur);
        proof {
            assert(done@.map(|k: int, l: Vec<u8>| l@) =~= dv0 + seq![done@.last()@]);
        }
    } else {
        proof {
            assert(done@.map(|k: int, l: Vec<u8>| l@) + lines_rec(cur@, Seq::<u8>::empty())
                =~= done@.map(|k: int, l: Vec<u8>| l@));
        }
    }
    done
}

/// Returns the index of the first occurrence of `b` in `v`, if any.
pub fn find_byte(v: &Vec<u8>, b: u8) -> (r: Option<usize>)
    ensures
        match r {
            Some(i) => find_first(v@, b) == Some(i as int),
            None => find_first(v@, b) is None,
        },
{
    proof {
        lemma_find_first(v@, b);
    }
    let mut i: usize = 0;
    while i < v.len()
        invariant
            i <= v@.len(),
            forall|j: int| 0 <= j < i ==> v@[j] != b,
        decreases v@.len() - i,
    {
        if v[i] == b {
            proof {
                lemma_find_first(v@, b);
                match find_first(v@, b) {
                    Some(k) => {
                        assert(!(k < i) && !(i < k));
                    },
                    None => {
                        assert(v@[i as int] != b);
                    },
                }
            }
            return Some(i);
        }
        i += 1;
    }
    proof {
        lemma_find_first(v@, b);
        if find_first(v@, b) is Some {
            let k = find_first(v@, b).unwrap();
            assert(v@[k] != b);
        }
    }
    None
}

/// Returns the index of the first occurrence of `b` in `v` at or after
/// `from`, if any.
pub fn find_byte_from(v: &Vec<u8>, from: usize, b: u8) -> (r: Option<usize>)
    requires
        from <= v@.len(),
    ensures
        match r {
            Some(i) => from <= i && i < v@.len() && find_first(v@.skip(from as int), b) == Some(
                i - from,
            ),
            None => find_first(v@.skip(from as int), b) is None,
        },
{
    proof {
        lemma_find_first(v@.skip(from as int), b);
    }
    let mut i: usize = from;
    while i < v.len()
        invariant
            from <= i <= v@.len(),
            forall|j: int| from <= j < i ==> v@[j] != b,
        decreases v@.len() - i,
    {
        if v[i] == b {
            proof {
                lemma_find_first(v@.skip(from as int), b);
                assert(v@.skip(from as int)[i - from] == v@[i as int]);
                match find_first(v@.skip(from as int), b) {
                    Some(k) => {
                        assert(v@.skip(from as int)[k] == b);
                        assert forall|jj: int| 0 <= jj < i - from implies #[trigger] v@.skip(
                            from as int,
                        )[jj] != b by {
                            assert(v@.skip(from as int)[jj] == v@[from + jj]);
                        }
                        assert(!(k < i - from) && !(i - from < k));
                    },
                    None => {
                        assert(false);
                    },
                }
            }
            return Some(i);
        }
        i += 1;
    }
    proof {
        lemma_find_first(v@.skip(from as int), b);
        if find_first(v@.skip(from as int), b) is Some {
            let k = find_first(v@.skip(from as int), b).unwrap();
            assert(v@.skip(from as int)[k] == v@[from + k]);
        }
    }
    None
}

/// Whether a byte is ASCII whitespace.
pub open spec fn is_ws(b: u8) -> bool {
    b == 9 || b == 10 || b == 11 || b == 12 || b == 13 || b == 32
}

/// The end of the run of whitespace beginning at `i`.
pub open spec fn ws_run_end(s: Seq<u8>, i: int) -> int
    decreases s.len() - i,
{
    if i < 0 || i >= s.len() || !is_ws(s[i]) {
        i
    } else {
        ws_run_end(s, i + 1)
    }
}

/// The start of the run of whitespace that ends the string.
pub open spec fn ws_suffix_start(s: Seq<u8>) -> int
    decreases s.len(),
{
    if s.len() > 0 && is_ws(s.last()) {
        ws_suffix_start(s.drop_last())
    } else {
        s.len() as int
    }
}

/// The string with leading and trailing ASCII whitespace removed.
pub open spec fn trim_spec(s: Seq<u8>) -> Seq<u8> {
    if ws_run_end(s, 0) >= ws_suffix_start(s) {
        Seq::empty()
    } else {
        s.subrange(ws_run_end(s, 0), ws_suffix_start(s))
    }
}

/// Facts about where a whitespace run ends.
pub proof fn lemma_ws_run_end(s: Seq<u8>, i: int)
    requires
        0 <= i <= s.len(),
    ensures
        i <= ws_run_end(s, i) <= s.len(),
        forall|k: int| i <= k < ws_run_end(s, i) ==> is_ws(#[trigger] s[k]),
        ws_run_end(s, i) == s.len() || !is_ws(s[ws_run_end(s, i)]),
    decreases s.len() - i,
{
    if i < s.len() && is_ws(s[i]) {
        lemma_ws_run_end(s, i + 1);
    }
}

/// Facts about where the trailing whitespace starts.
pub proof fn lemma_ws_suffix_start(s: Seq<u8>)
    ensures
        0 <= ws_suffix_start(s) <= s.len(),
        forall|k: int| ws_suffix_start(s) <= k < s.len() ==> is_ws(#[trigger] s[k]),
        ws_suffix_start(s) == 0 || !is_ws(s[ws_suffix_start(s) - 1]),
    decreases s.len(),
{
    if s.len() > 0 && is_ws(s.last()) {
        lemma_ws_suffix_start(s.drop_last());
        assert forall|k: int| 0 <= k < s.len() - 1 implies s.drop_last()[k] == s[k] by {}
    }
}

/// Whitespace test on one byte.
pub fn is_ws_byte(b: u8) -> (r: bool)
    ensures
        r == is_ws(b),
{
    b == 9 || b == 10 || b == 11 || b == 12 || b == 13 || b == 32
}

/// Removes leading and trailing ASCII whitespace.
pub fn trim(v: &Vec<u8>) -> (r: Vec<u8>)
    ensures
        r@ == trim_spec(v@),
{
    proof {
        lemma_ws_run_end(v@, 0);
        lemma_ws_suffix_start(v@);
    }
    let mut a: usize = 0;
    while a < v.len() && is_ws_byte(v[a])
        invariant
            a <= v@.len(),
            forall|k: int| 0 <= k < a ==> is_ws(#[trigger] v@[k]),
            a <= ws_run_end(v@, 0),
        decreases v@.len() - a,
    {
        proof {
            lemma_ws_run_end(v@, 0);
            if a + 1 > ws_run_end(v@, 0) {
                assert(!is_ws(v@[ws_run_end(v@, 0)]));
            }
        }
        a += 1;
    }
    proof {
        lemma_ws_run_end(v@, 0);
        assert(a == ws_run_end(v@, 0)) by {
            if a < ws_run_end(v@, 0) {
                assert(is_ws(v@[a as int]));
            }
        }
    }
    let mut e: usize = v.len();
    while e > a && is_ws_byte(v[e - 1])
        invariant
            a <= e <= v@.len(),
            a == ws_run_end(v@, 0),
            forall|k: int| e <= k < v@.len() ==> is_ws(#[trigger] v@[k]),
            ws_suffix_start(v@) <= e || e == a,
            e == a ==> ws_run_end(v@, 0) >= ws_suffix_start(v@),
        decreases e,
    {
        proof {
            lemma_ws_suffix_start_step(v@, e as int);
        }
        e -= 1;
    }
    let mut r: Vec<u8> = Vec::new();
    let mut i: usize = a;
    while i < e
        invariant
            a <= i <= e <= v@.len(),
            r@ =~= v@.subrange(a as int, i as int),
        decreases e - i,
    {
        r.push(v[i]);
        proof {
            assert(v@.subrange(a as int, i + 1) =~= v@.subrange(a as int, i as int).push(
                v@[i as int],
            ));
        }
        i += 1;
    }
    proof {
        lemma_ws_suffix_start(v@);
        if e == a {
            assert(trim_spec(v@) =~= Seq::<u8>::empty());
        } else {
            assert(!is_ws(v@[e - 1]));
            assert(e == ws_suffix_start(v@)) by {
                if e > ws_suffix_start(v@) {
                    assert(is_ws(v@[e - 1]));
                }
            }
        }
    }
    r
}

/// Stepping the trailing-whitespace scan one byte left keeps the suffix
/// bound: a whitespace byte at `e - 1` with whitespace from `e` on means
/// whitespace from `e - 1` on, so the suffix starts at or before `e - 1`.
pub proof fn lemma_ws_suffix_start_step(s: Seq<u8>, e: int)
    requires
        0 < e <= s.len(),
        is_ws(s[e - 1]),
        forall|k: int| e <= k < s.len() ==> is_ws(#[trigger] s[k]),
    ensures
        ws_suffix_start(s) <= e - 1,
    decreases s.len(),
{
    if s.len() > 0 && is_ws(s.last()) {
        if e == s.len() {
            lemma_ws_suffix_start(s.drop_last());
            if ws_suffix_start(s.drop_last()) > e - 1 {
                assert(!is_ws(s.drop_last()[ws_suffix_start(s.drop_last()) - 1]));
                assert(s.drop_last()[ws_suffix_start(s.drop_last()) - 1] == s[ws_suffix_start(
                    s.drop_last(),
                ) - 1]);
            }
        } else {
            assert forall|k: int| e <= k < s.len() - 1 implies is_ws(
                #[trigger] s.drop_last()[k],
            ) by {
                assert(s.drop_last()[k] == s[k]);
            }
            assert(s.drop_last()[e - 1] == s[e - 1]);
            lemma_ws_suffix_start_step(s.drop_last(), e);
        }
    } else {
        assert(ws_suffix_start(s) == s.len());
        assert(is_ws(s[s.len() - 1]));
    }
}

/// A line with nothing but whitespace at its end.
pub open spec fn trim_end_spec(l: Seq<u8>) -> Seq<u8> {
    l.take(ws_suffix_start(l))
}

/// A line with its trailing whitespace removed.
pub fn trim_end_line(line: &Vec<u8>) -> (r: Vec<u8>)
    ensures
        r@ == trim_end_spec(line@),
{
    proof {
        lemma_ws_suffix_start(line@);
    }
    let mut e: usize = line.len();
    while e > 0 && is_ws_byte(line[e - 1])
        invariant
            e <= line@.len(),
            forall|k: int| e <= k < line@.len() ==> is_ws(#[trigger] line@[k]),
            ws_suffix_start(line@) <= e,
        decreases e,
    {
        proof {
            lemma_ws_suffix_start_step(line@, e as int);
        }
        e -= 1;
    }
    proof {
        lemma_ws_suffix_start(line@);
        if e > 0 && ws_suffix_start(line@) < e {
            assert(is_ws(line@[e - 1]));
        }
        assert(e == ws_suffix_start(line@));
    }
    let mut r: Vec<u8> = Vec::new();
    let mut b: usize = 0;
    while b < e
        invariant
            b <= e <= line@.len(),
            r@ =~= line@.take(b as int),
        decreases e - b,
    {
        r.push(line[b]);
        proof {
            assert(line@.take(b + 1) =~= line@.take(b as int).push(line@[b as int]));
        }
        b += 1;
    }
    r
}

/// Whether a byte is an ASCII decimal digit.
pub open spec fn is_digit(b: u8) -> bool {
    48 <= b <= 57
}

/// The number an ASCII digit string denotes, most significant digit first.
pub open spec fn dec_val(s: Seq<u8>) -> int
    decreases s.len(),
{
    if s.len() == 0 {
        0
    } else {
        dec_val(s.drop_last()) * 10 + (s.last() - 48)
    }
}

/// The end of the run of digits beginning at `i`.
pub open spec fn digit_run_end(s: Seq<u8>, i: int) -> int
    decreases s.len() - i,
{
    if i < 0 || i >= s.len() || !is_digit(s[i]) {
        i
    } else {
        digit_run_end(s, i + 1)
    }
}

/// Extending a digit string cannot shrink its value.
proof fn lemma_dec_val_extend(s: Seq<u8>, i: int, j1: int, j2: int)
    requires
        0 <= i <= j1 <= j2 <= s.len(),
        forall|k: int| i <= k < j2 ==> is_digit(#[trigger] s[k]),
    ensures
        dec_val(s.subrange(i, j1)) <= dec_val(s.subrange(i, j2)),
        dec_val(s.subrange(i, j1)) >= 0,
    decreases j2 - j1,
{
    if j1 == j2 {
        assert forall|k: int| 0 <= k < j1 - i implies is_digit(
            #[trigger] s.subrange(i, j1)[k],
        ) by {
            assert(s.subrange(i, j1)[k] == s[i + k]);
        }
        lemma_dec_val_nonneg(s.subrange(i, j1));
    } else {
        lemma_dec_val_extend(s, i, j1, j2 - 1);
        let a = s.subrange(i, j2 - 1);
        let b = s.subrange(i, j2);
        assert(b.drop_last() =~= a);
        assert(b.last() == s[j2 - 1]);
        assert forall|k: int| 0 <= k < a.len() implies is_digit(#[trigger] a[k]) by {
            assert(a[k] == s[i + k]);
        }
        lemma_dec_val_nonneg(a);
    }
}

/// A digit string's value is non-negative.
proof fn lemma_dec_val_nonneg(s: Seq<u8>)
    requires
        forall|k: int| 0 <= k < s.len() ==> is_digit(#[trigger] s[k]),
    ensures
        dec_val(s) >= 0,
    decreases s.len(),
{
    if s.len() > 0 {
        assert forall|k: int| 0 <= k < s.len() - 1 implies is_digit(#[trigger] s.drop_last()[k]) by {
            assert(s.drop_last()[k] == s[k]);
        }
        lemma_dec_val_nonneg(s.drop_last());
    }
}

/// Reads the run of digits beginning at `i`: returns its value and the index
/// just past it.  `None` exactly when no digit stands at `i` or the value
/// does not fit in `usize`.
pub fn take_number(v: &Vec<u8>, i: usize) -> (r: Option<(usize, usize)>)
    requires
        i <= v@.len(),
    ensures
        ({
            let e = digit_run_end(v@, i as int);
            match r {
                Some((val, j)) => j == e && i < j && val == dec_val(v@.subrange(i as int, e)),
                None => i == e || dec_val(v@.subrange(i as int, e)) > usize::MAX,
            }
        }),
{
    let ghost e = digit_run_end(v@, i as int);
    proof {
        lemma_digit_run_end(v@, i as int);
    }
    if i == v.len() || !(48 <= v[i] && v[i] <= 57) {
        return None;
    }
    let mut j: usize = i;
    let mut val: usize = 0;
    while j < v.len() && 48 <= v[j] && v[j] <= 57
        invariant
            i <= j <= v@.len(),
            j <= e,
            val == dec_val(v@.subrange(i as int, j as int)),
            forall|k: int| i <= k < j ==> is_digit(#[trigger] v@[k]),
            e == digit_run_end(v@, i as int),
            e <= v@.len(),
            forall|k: int| i <= k < e ==> is_digit(#[trigger] v@[k]),
            e == v@.len() || !is_digit(v@[e]),
        decreases v@.len() - j,
    {
        let d = v[j] - 48;
        let val10 = match val.checked_mul(10) {
            Some(x) => x,
            None => {
                proof {
                    lemma_dec_val_overflow(v@, i as int, j as int, e, val as int, d as int);
                }
                return None;
            },
        };
        let newval = match val10.checked_add(d as usize) {
            Some(x) => x,
            None => {
                proof {
                    lemma_dec_val_overflow(v@, i as int, j as int, e, val as int, d as int);
                }
                return None;
            },
        };
        proof {
            assert(v@.subrange(i as int, j + 1).drop_last() =~= v@.subrange(i as int, j as int));
            assert(v@.subrange(i as int, j + 1).last() == v@[j as int]);
            assert(j + 1 <= e) by {
                if j == e {
                    assert(is_digit(v@[e]));
                }
            }
        }
        val = newval;
        j += 1;
    }
    proof {
        assert(j == e) by {
            if j < e {
                assert(is_digit(v@[j as int]));
            }
        }
    }
    Some((val, j))
}

/// Scans to the end of the digit run beginning at `i`.
pub fn digits_end(v: &Vec<u8>, i: usize) -> (r: usize)
    requires
        i <= v@.len(),
    ensures
        r == digit_run_end(v@, i as int),
        i <= r <= v@.len(),
{
    proof {
        lemma_digit_run_end(v@, i as int);
    }
    let mut j: usize = i;
    while j < v.len() && 48 <= v[j] && v[j] <= 57
        invariant
            i <= j <= v@.len(),
            forall|k: int| i <= k < j ==> is_digit(#[trigger] v@[k]),
            j <= digit_run_end(v@, i as int),
        decreases v@.len() - j,
    {
        proof {
            lemma_digit_run_end(v@, i as int);
            if j + 1 > digit_run_end(v@, i as int) {
                assert(!is_digit(v@[digit_run_end(v@, i as int)]));
            }
        }
        j += 1;
    }
    proof {
        lemma_digit_run_end(v@, i as int);
        if j < digit_run_end(v@, i as int) {
            assert(is_digit(v@[j as int]));
        }
    }
    j
}

/// Facts about where a digit run ends.
pub proof fn lemma_digit_run_end(s: Seq<u8>, i: int)
    requires
        0 <= i <= s.len(),
    ensures
        i <= digit_run_end(s, i) <= s.len(),
        forall|k: int| i <= k < digit_run_end(s, i) ==> is_digit(#[trigger] s[k]),
        digit_run_end(s, i) == s.len() || !is_digit(s[digit_run_end(s, i)]),
    decreases s.len() - i,
{
    if i < s.len() && is_digit(s[i]) {
        lemma_digit_run_end(s, i + 1);
    }
}

/// If a prefix of a digit run already overflows, the whole run's value does.
proof fn lemma_dec_val_overflow(s: Seq<u8>, i: int, j: int, e: int, val: int, d: int)
    requires
        0 <= i <= j < e <= s.len(),
        forall|k: int| i <= k < e ==> is_digit(#[trigger] s[k]),
        val == dec_val(s.subrange(i, j)),
        d == s[j] - 48,
        val * 10 + d > usize::MAX,
    ensures
        dec_val(s.subrange(i, e)) > usize::MAX,
{
    let b = s.subrange(i, j + 1);
    assert(b.drop_last() =~= s.subrange(i, j));
    assert(b.last() == s[j]);
    assert(dec_val(b) == val * 10 + d);
    lemma_dec_val_extend(s, i, j + 1, e);
}

/// The end of the run of non-whitespace beginning at `i`: where the token
/// starting there stops.
pub open spec fn token_end(s: Seq<u8>, i: int) -> int
    decreases s.len() - i,
{
    if i < 0 || i >= s.len() || is_ws(s[i]) {
        i
    } else {
        token_end(s, i + 1)
    }
}

/// Facts about where a token ends.
pub proof fn lemma_token_end(s: Seq<u8>, i: int)
    requires
        0 <= i <= s.len(),
    ensures
        i <= token_end(s, i) <= s.len(),
        forall|k: int| i <= k < token_end(s, i) ==> !is_ws(#[trigger] s[k]),
        token_end(s, i) == s.len() || is_ws(s[token_end(s, i)]),
    decreases s.len() - i,
{
    if i < s.len() && !is_ws(s[i]) {
        lemma_token_end(s, i + 1);
    }
}

/// Scans to the end of the token beginning at `i`.
pub fn find_token_end(v: &Vec<u8>, i: usize) -> (r: usize)
    requires
        i <= v@.len(),
    ensures
        r == token_end(v@, i as int),
{
    proof {
        lemma_token_end(v@, i as int);
    }
    let mut j: usize = i;
    while j < v.len() && !is_ws_byte(v[j])
        invariant
            i <= j <= v@.len(),
            forall|k: int| i <= k < j ==> !is_ws(#[trigger] v@[k]),
            j <= token_end(v@, i as int),
        decreases v@.len() - j,
    {
        proof {
            lemma_token_end(v@, i as int);
            if j + 1 > token_end(v@, i as int) {
                assert(is_ws(v@[token_end(v@, i as int)]));
            }
        }
        j += 1;
    }
    proof {
        lemma_token_end(v@, i as int);
        if j < token_end(v@, i as int) {
            assert(!is_ws(v@[j as int]));
        }
    }
    j
}

/// Scans past the run of whitespace beginning at `i`.
pub fn skip_ws(v: &Vec<u8>, i: usize) -> (r: usize)
    requires
        i <= v@.len(),
    ensures
        r == ws_run_end(v@, i as int),
{
    proof {
        lemma_ws_run_end(v@, i as int);
    }
    let mut j: usize = i;
    while j < v.len() && is_ws_byte(v[j])
        invariant
            i <= j <= v@.len(),
            forall|k: int| i <= k < j ==> is_ws(#[trigger] v@[k]),
            j <= ws_run_end(v@, i as int),
        decreases v@.len() - j,
    {
        proof {
            lemma_ws_run_end(v@, i as int);
            if j + 1 > ws_run_end(v@, i as int) {
                assert(!is_ws(v@[ws_run_end(v@, i as int)]));
            }
        }
        j += 1;
    }
    proof {
        lemma_ws_run_end(v@, i as int);
        if j < ws_run_end(v@, i as int) {
            assert(is_ws(v@[j as int]));
        }
    }
    j
}

/// The integer a signed decimal string denotes: an optional sign followed by
/// at least one digit and nothing else.
pub open spec fn signed_val(s: Seq<u8>) -> Option<int> {
    if s.len() == 0 {
        None
    } else {
        let neg = s[0] == 45;
        let ds = if s[0] == 45 || s[0] == 43 {
            s.skip(1)
        } else {
            s
        };
        if ds.len() == 0 || digit_run_end(ds, 0) != ds.len() {
            None
        } else if neg {
            Some(-dec_val(ds))
        } else {
            Some(dec_val(ds))
        }
    }
}

/// Reads the bytes `from .. to` of `v` as a signed number.  `None` exactly
/// when they are not an optionally signed digit string, or the value does
/// not fit in `isize`.
pub fn parse_isize(v: &Vec<u8>, from: usize, to: usize) -> (r: Option<isize>)
    requires
        from <= to <= v@.len(),
    ensures
        ({
            let s = v@.subrange(from as int, to as int);
            match r {
                Some(n) => signed_val(s) == Some(n as int),
                None => signed_val(s) is None || signed_val(s).unwrap() < isize::MIN || signed_val(
                    s,
                ).unwrap() > isize::MAX,
            }
        }),
{
    let ghost s = v@.subrange(from as int, to as int);
    if from == to {
        return None;
    }
    let b0 = v[from];
    let neg = b0 == 45;
    let dstart = if b0 == 45 || b0 == 43 {
        from + 1
    } else {
        from
    };
    proof {
        assert(s[0] == v@[from as int]);
        if b0 == 45 || b0 == 43 {
            assert(s.skip(1) =~= v@.subrange(dstart as int, to as int));
        } else {
            assert(s =~= v@.subrange(dstart as int, to as int));
        }
    }
    let ghost ds = v@.subrange(dstart as int, to as int);
    if dstart == to {
        return None;
    }
    let mut j: usize = dstart;
    let mut mag: u128 = 0;
    proof {
        assert(ds.subrange(0, 0) =~= Seq::<u8>::empty());
        lemma_digit_run_end(ds, 0);
    }
    while j < to
        invariant
            dstart <= j <= to <= v@.len(),
            ds == v@.subrange(dstart as int, to as int),
            forall|k: int| 0 <= k < j - dstart ==> is_digit(#[trigger] ds[k]),
            mag == dec_val(ds.subrange(0, j - dstart)),
            mag <= 0x8000_0000_0000_0000u128,
            digit_run_end(ds, 0) == ds.len() ==> signed_val(v@.subrange(from as int, to as int))
                == Some(
                if neg {
                    -dec_val(ds)
                } else {
                    dec_val(ds)
                },
            ),
            digit_run_end(ds, 0) != ds.len() ==> signed_val(
                v@.subrange(from as int, to as int),
            ) is None,
        decreases to - j,
    {
        let b = v[j];
        proof {
            assert(ds[j - dstart] == v@[j as int]);
        }
        if !(48 <= b && b <= 57) {
            proof {
                lemma_digit_run_end(ds, 0);
                if digit_run_end(ds, 0) == ds.len() {
                    assert(is_digit(ds[j - dstart]));
                }
            }
            return None;
        }
        let d = (b - 48) as u128;
        let newmag = mag * 10 + d;
        proof {
            assert(ds.subrange(0, j - dstart + 1).drop_last() =~= ds.subrange(0, j - dstart));
            assert(ds.subrange(0, j - dstart + 1).last() == ds[j - dstart]);
        }
        if newmag > 0x8000_0000_0000_0000u128 {
            proof {
                lemma_signed_overflow(ds, j - dstart + 1, newmag as int);
            }
            return None;
        }
        mag = newmag;
        j += 1;
    }
    proof {
        assert(ds.subrange(0, ds.len() as int) =~= ds);
        lemma_digit_run_end_full(ds);
    }
    if neg {
        if mag == 0 {
            Some(0)
        } else {
            let m1 = mag - 1;
            if m1 <= isize::MAX as u128 {
                Some((-(m1 as isize)) - 1)
            } else {
                None
            }
        }
    } else {
        if mag <= isize::MAX as u128 {
            Some(mag as isize)
        } else {
            None
        }
    }
}

/// A digit string whose value passes the magnitude limit in a prefix is out
/// of the `isize` range in full, whichever sign stands before it.
proof fn lemma_signed_overflow(ds: Seq<u8>, j: int, mag: int)
    requires
        0 <= j <= ds.len(),
        forall|k: int| 0 <= k < j ==> is_digit(#[trigger] ds[k]),
        mag == dec_val(ds.subrange(0, j)),
        mag > 0x8000_0000_0000_0000,
    ensures
        digit_run_end(ds, 0) == ds.len() ==> dec_val(ds) > isize::MAX && -dec_val(ds)
            < isize::MIN,
{
    if digit_run_end(ds, 0) == ds.len() {
        lemma_digit_run_end(ds, 0);
        lemma_dec_val_extend(ds, 0, j, ds.len() as int);
        assert(ds.subrange(0, ds.len() as int) =~= ds);
    }
}

/// The digit run seen in a tail of the string mirrors the run in the whole.
pub proof fn lemma_digit_run_end_sub(s: Seq<u8>, a: int)
    requires
        0 <= a <= s.len(),
    ensures
        digit_run_end(s.subrange(a, s.len() as int), 0) == digit_run_end(s, a) - a,
{
    lemma_digit_run_end_sub_rec(s, a, 0);
}

proof fn lemma_digit_run_end_sub_rec(s: Seq<u8>, a: int, j: int)
    requires
        0 <= a <= s.len(),
        0 <= j <= s.len() - a,
    ensures
        digit_run_end(s.subrange(a, s.len() as int), j) == digit_run_end(s, a + j) - a,
    decreases s.len() - a - j,
{
    let sub = s.subrange(a, s.len() as int);
    if j < sub.len() {
        assert(sub[j] == s[a + j]);
        if is_digit(sub[j]) {
            lemma_digit_run_end_sub_rec(s, a, j + 1);
        }
    }
}

/// Within a span that ends at a non-digit (or at the end of the string),
/// the digit run of the span mirrors the digit run of the whole.
pub proof fn lemma_digit_run_end_sub2(s: Seq<u8>, a: int, e: int)
    requires
        0 <= a <= e <= s.len(),
        e == s.len() || !is_digit(s[e]),
    ensures
        a <= digit_run_end(s, a) <= e,
        digit_run_end(s.subrange(a, e), 0) == digit_run_end(s, a) - a,
{
    lemma_digit_run_end(s, a);
    lemma_digit_run_end_sub2_rec(s, a, e, 0);
    if digit_run_end(s, a) > e {
        assert(is_digit(s[e]));
    }
}

proof fn lemma_digit_run_end_sub2_rec(s: Seq<u8>, a: int, e: int, j: int)
    requires
        0 <= a <= e <= s.len(),
        e == s.len() || !is_digit(s[e]),
        0 <= j <= e - a,
    ensures
        digit_run_end(s.subrange(a, e), j) == (if digit_run_end(s, a + j) <= e {
            digit_run_end(s, a + j) - a
        } else {
            e - a
        }),
    decreases e - a - j,
{
    let sub = s.subrange(a, e);
    if j < sub.len() {
        assert(sub[j] == s[a + j]);
        if is_digit(sub[j]) {
            lemma_digit_run_end_sub2_rec(s, a, e, j + 1);
        }
    }
}

/// A run of digits covering a whole string means the scan of it ends at the end.
proof fn lemma_digit_run_end_full(ds: Seq<u8>)
    requires
        forall|k: int| 0 <= k < ds.len() ==> is_digit(#[trigger] ds[k]),
    ensures
        digit_run_end(ds, 0) == ds.len(),
{
    lemma_digit_run_end(ds, 0);
    if digit_run_end(ds, 0) < ds.len() {
        assert(is_digit(ds[digit_run_end(ds, 0)]));
    }
}

} // verus!
