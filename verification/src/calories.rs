//! Calorie counting: numbers grouped by blank lines, summed per group, and
//! the largest group totals reported.

use vstd::prelude::*;
use vstd::string::StringSliceAdditionalSpecFns;

verus! {

/// The number a trimmed line denotes for a group entry: an optional plus
/// sign followed by digits, fitting in `usize`.
pub open spec fn entry_val(t: Seq<u8>) -> Option<int> {
    match crate::text::signed_val(t) {
        Some(n) => if 0 <= n <= usize::MAX && (t.len() == 0 || t[0] != 45) {
            Some(n)
        } else {
            None
        },
        None => None,
    }
}

/// The per-group sums of the input lines: a blank line closes the current
/// group; lines after the last blank line are not counted.  `None` when a
/// non-blank line is not a number, or a sum leaves `usize`.
pub open spec fn totals_rec(lines: Seq<Seq<u8>>, i: int, acc: int, done: Seq<usize>) -> Option<
    Seq<usize>,
>
    decreases lines.len() - i,
{
    if i < 0 || i >= lines.len() {
        Some(done)
    } else {
        let t = crate::text::trim_spec(lines[i]);
        if t.len() == 0 {
            totals_rec(lines, i + 1, 0, done.push(acc as usize))
        } else {
            match entry_val(t) {
                Some(n) => if acc + n <= usize::MAX {
                    totals_rec(lines, i + 1, acc + n, done)
                } else {
                    None
                },
                None => None,
            }
        }
    }
}

/// The group totals of a whole input text.
pub open spec fn totals_spec(lines: Seq<Seq<u8>>) -> Option<Seq<usize>> {
    totals_rec(lines, 0, 0, Seq::empty())
}

/// Sums each blank-line-separated group of numbers.
pub fn group_totals(s: &str) -> (r: Option<Vec<usize>>)
    ensures
        ({
            let lines = crate::text::split_lines_spec(s.spec_bytes());
            match r {
                Some(v) => totals_spec(lines) == Some(v@),
                None => totals_spec(lines) is None,
            }
        }),
{
    let lines = crate::text::split_lines(s);
    let ghost lv = lines@.map(|i: int, l: Vec<u8>| l@);
    let mut done: Vec<usize> = Vec::new();
    let mut acc: usize = 0;
    let mut i: usize = 0;
    while i < lines.len()
        invariant
            i <= lv.len(),
            lv == lines@.map(|k: int, l: Vec<u8>| l@),
            lv == crate::text::split_lines_spec(s.spec_bytes()),
            totals_spec(lv) == totals_rec(lv, i as int, acc as int, done@),
        decreases lv.len() - i,
    {
        let t = crate::text::trim(&lines[i]);
        if t.len() == 0 {
            done.push(acc);
            acc = 0;
        } else {
            if t[0] == 45 {
                return None;
            }
            let start: usize = if t[0] == 43 {
                1
            } else {
                0
            };
            proof {
                crate::text::lemma_digit_run_end(t@, start as int);
            }
            let (val, end) = match crate::text::take_number(&t, start) {
                Some(x) => x,
                None => {
                    proof {
                        entry_none(t@, start as int);
                    }
                    return None;
                },
            };
            if end != t.len() {
                proof {
                    entry_none_tail(t@, start as int, end as int);
                }
                return None;
            }
            proof {
                entry_some(t@, start as int, val as int);
            }
            let newacc = match acc.checked_add(val) {
                Some(x) => x,
                None => {
                    return None;
                },
            };
            acc = newacc;
        }
        i += 1;
    }
    Some(done)
}

/// A failed number read means the line is no entry.
proof fn entry_none(t: Seq<u8>, start: int)
    requires
        t.len() > 0,
        t[0] != 45,
        start == (if t[0] == 43 {
            1int
        } else {
            0int
        }),
        start <= t.len(),
        start == crate::text::digit_run_end(t, start) || crate::text::dec_val(
            t.subrange(start, crate::text::digit_run_end(t, start)),
        ) > usize::MAX,
    ensures
        entry_val(t) is None,
{
    crate::text::lemma_digit_run_end(t, start);
    let ds = if t[0] == 43 {
        t.skip(1)
    } else {
        t
    };
    assert(ds =~= t.subrange(start, t.len() as int));
    crate::text::lemma_digit_run_end_sub(t, start);
}

/// Digits that stop before the line's end mean the line is no entry.
proof fn entry_none_tail(t: Seq<u8>, start: int, end: int)
    requires
        t.len() > 0,
        t[0] != 45,
        start == (if t[0] == 43 {
            1int
        } else {
            0int
        }),
        start < end,
        end == crate::text::digit_run_end(t, start),
        end != t.len(),
    ensures
        entry_val(t) is None,
{
    let ds = if t[0] == 43 {
        t.skip(1)
    } else {
        t
    };
    assert(ds =~= t.subrange(start, t.len() as int));
    crate::text::lemma_digit_run_end_sub(t, start);
    crate::text::lemma_digit_run_end(t, start);
}

/// A full-line digit run read without overflow is the line's entry value.
proof fn entry_some(t: Seq<u8>, start: int, val: int)
    requires
        t.len() > 0,
        t[0] != 45,
        start == (if t[0] == 43 {
            1int
        } else {
            0int
        }),
        start < t.len(),
        crate::text::digit_run_end(t, start) == t.len(),
        val == crate::text::dec_val(t.subrange(start, t.len() as int)),
        0 <= val <= usize::MAX,
    ensures
        entry_val(t) == Some(val),
{
    let ds = if t[0] == 43 {
        t.skip(1)
    } else {
        t
    };
    assert(ds =~= t.subrange(start, t.len() as int));
    crate::text::lemma_digit_run_end_sub(t, start);
}

/// The largest value of a non-empty sequence.
pub open spec fn max_val(s: Seq<usize>) -> int
    decreases s.len(),
{
    if s.len() <= 1 {
        s[0] as int
    } else if s[0] >= max_val(s.skip(1)) {
        s[0] as int
    } else {
        max_val(s.skip(1))
    }
}

/// The largest value is a value and bounds all others.
pub proof fn lemma_max_val(s: Seq<usize>)
    requires
        s.len() > 0,
    ensures
        exists|i: int| 0 <= i < s.len() && s[i] == max_val(s),
        forall|i: int| 0 <= i < s.len() ==> #[trigger] s[i] <= max_val(s),
    decreases s.len(),
{
    if s.len() == 1 {
        assert(s[0] == max_val(s));
    } else {
        lemma_max_val(s.skip(1));
        let m = max_val(s.skip(1));
        let j = choose|j: int| 0 <= j < s.skip(1).len() && s.skip(1)[j] == m;
        assert(s[j + 1] == m);
        assert forall|i: int| 0 <= i < s.len() implies #[trigger] s[i] <= max_val(s) by {
            if i > 0 {
                assert(s.skip(1)[i - 1] == s[i]);
            }
        }
    }
}

/// The largest group total, or `None` for no groups at all.
pub fn max_total(totals: &Vec<usize>) -> (r: Option<usize>)
    ensures
        totals@.len() == 0 ==> r is None,
        totals@.len() > 0 ==> r == Some((max_val(totals@) as usize)),
{
    if totals.len() == 0 {
        return None;
    }
    proof {
        lemma_max_val(totals@);
    }
    let mut best: usize = totals[0];
    let mut i: usize = 1;
    while i < totals.len()
        invariant
            1 <= i <= totals@.len(),
            forall|k: int| 0 <= k < i ==> #[trigger] totals@[k] <= best,
            exists|k: int| 0 <= k < i && totals@[k] == best,
        decreases totals@.len() - i,
    {
        if totals[i] > best {
            best = totals[i];
        }
        i += 1;
    }
    proof {
        lemma_max_val(totals@);
        let k = choose|k: int| 0 <= k < totals@.len() && totals@[k] == best;
        let j = choose|j: int| 0 <= j < totals@.len() && totals@[j] == max_val(totals@);
    }
    Some(best)
}

/// The sum of the `k` largest values: the largest plus the sum of the `k-1`
/// largest among the rest.
pub open spec fn top_sum(s: Seq<usize>, k: int) -> int
    decreases k,
{
    if k <= 0 || s.len() == 0 {
        0
    } else {
        let m = max_val(s);
        let j = choose|j: int| 0 <= j < s.len() && s[j] == m;
        m + top_sum(s.remove(j), k - 1)
    }
}

/// The summed three largest group totals, or `None` when there are fewer
/// than three groups.
pub fn top_three_sum(totals: &Vec<usize>) -> (r: Option<usize>)
    requires
        top_sum(totals@, 3) <= usize::MAX,
    ensures
        totals@.len() < 3 ==> r is None,
        totals@.len() >= 3 ==> r == Some((top_sum(totals@, 3) as usize)),
{
    if totals.len() < 3 {
        return None;
    }
    let mut work: Vec<usize> = Vec::new();
    let mut i: usize = 0;
    while i < totals.len()
        invariant
            i <= totals@.len(),
            work@ =~= totals@.take(i as int),
        decreases totals@.len() - i,
    {
        work.push(totals[i]);
        proof {
            assert(totals@.take(i + 1) =~= totals@.take(i as int).push(totals@[i as int]));
        }
        i += 1;
    }
    proof {
        assert(totals@.take(totals@.len() as int) =~= totals@);
    }
    let mut sum: usize = 0;
    let mut k: usize = 0;
    proof {
        lemma_top_sum_bounds(totals@, 3);
    }
    while k < 3
        invariant
            k <= 3,
            work@.len() == totals@.len() - k,
            totals@.len() >= 3,
            sum + top_sum(work@, 3 - k) == top_sum(totals@, 3),
            0 <= sum <= top_sum(totals@, 3),
            top_sum(totals@, 3) <= usize::MAX,
            top_sum(work@, 3 - k) >= 0,
        decreases 3 - k,
    {
        proof {
            lemma_max_val(work@);
        }
        let mut bi: usize = 0;
        let mut j: usize = 1;
        while j < work.len()
            invariant
                work@.len() > 0,
                bi < j <= work@.len(),
                forall|q: int| 0 <= q < j ==> #[trigger] work@[q] <= work@[bi as int],
            decreases work@.len() - j,
        {
            if work[j] > work[bi] {
                bi = j;
            }
            j += 1;
        }
        let m = work[bi];
        proof {
            lemma_max_val(work@);
            let q = choose|q: int| 0 <= q < work@.len() && work@[q] == max_val(work@);
            assert(work@[q] <= m);
            assert(m == max_val(work@));
            let jj = choose|jj: int| 0 <= jj < work@.len() && work@[jj] == max_val(work@);
            lemma_top_sum_choice(work@, 3 - k, bi as int);
            lemma_top_sum_bounds(work@.remove(bi as int), 3 - k - 1);
        }
        sum = sum + m;
        let _ = work.remove(bi);
        k += 1;
    }
    proof {
        assert(top_sum(work@, 0) == 0);
    }
    Some(sum)
}

/// Top sums are non-negative and no more than the whole.
proof fn lemma_top_sum_bounds(s: Seq<usize>, k: int)
    ensures
        top_sum(s, k) >= 0,
    decreases k,
{
    if k > 0 && s.len() > 0 {
        lemma_max_val(s);
        let j = choose|j: int| 0 <= j < s.len() && s[j] == max_val(s);
        lemma_top_sum_bounds(s.remove(j), k - 1);
    }
}

/// Removing any occurrence of the maximum gives the same top sum.
proof fn lemma_top_sum_choice(s: Seq<usize>, k: int, b: int)
    requires
        k > 0,
        s.len() > 0,
        0 <= b < s.len(),
        s[b] == max_val(s),
    ensures
        top_sum(s, k) == max_val(s) + top_sum(s.remove(b), k - 1),
    decreases k,
{
    lemma_max_val(s);
    let m = max_val(s);
    let j = choose|j: int| 0 <= j < s.len() && s[j] == m;
    if j == b {
    } else {
        lemma_remove_same_multiset(s, j, b);
        lemma_top_sum_multiset(s.remove(j), s.remove(b), k - 1);
    }
}

/// Sequences with equal multisets of values have equal top sums.
proof fn lemma_top_sum_multiset(s1: Seq<usize>, s2: Seq<usize>, k: int)
    requires
        s1.to_multiset() == s2.to_multiset(),
    ensures
        top_sum(s1, k) == top_sum(s2, k),
    decreases k,
{
    s1.to_multiset_ensures();
    s2.to_multiset_ensures();
    if k > 0 && s1.len() > 0 {
        assert(s1.to_multiset().len() == s2.to_multiset().len());
        assert(s2.len() > 0);
        lemma_max_val_multiset(s1, s2);
        lemma_max_val(s1);
        lemma_max_val(s2);
        let m = max_val(s1);
        let j1 = choose|j: int| 0 <= j < s1.len() && s1[j] == m;
        let j2 = choose|j: int| 0 <= j < s2.len() && s2[j] == m;
        assert(s1.remove(j1).to_multiset() =~= s1.to_multiset().remove(s1[j1]));
        assert(s2.remove(j2).to_multiset() =~= s2.to_multiset().remove(s2[j2]));
        assert(s1[j1] == s2[j2]);
        lemma_top_sum_multiset(s1.remove(j1), s2.remove(j2), k - 1);
    } else if k > 0 {
        assert(s1.to_multiset().len() == s2.to_multiset().len());
        assert(s2.len() == 0);
    }
}

/// Sequences with equal multisets of values have the same maximum.
proof fn lemma_max_val_multiset(s1: Seq<usize>, s2: Seq<usize>)
    requires
        s1.to_multiset() == s2.to_multiset(),
        s1.len() > 0,
        s2.len() > 0,
    ensures
        max_val(s1) == max_val(s2),
{
    s1.to_multiset_ensures();
    s2.to_multiset_ensures();
    lemma_max_val(s1);
    lemma_max_val(s2);
    let j1 = choose|j: int| 0 <= j < s1.len() && s1[j] == max_val(s1);
    let j2 = choose|j: int| 0 <= j < s2.len() && s2[j] == max_val(s2);
    assert(s1.to_multiset().contains(s1[j1]));
    assert(s2.to_multiset().contains(s2[j2]));
    assert(s2.contains(s1[j1]));
    assert(s1.contains(s2[j2]));
    let k1 = choose|k: int| 0 <= k < s1.len() && s1[k] == s2[j2];
    let k2 = choose|k: int| 0 <= k < s2.len() && s2[k] == s1[j1];
}

/// Removing either of two positions holding the same value leaves the same
/// maximum among the rest.
pub proof fn lemma_remove_same_max(s: Seq<usize>, j: int, b: int)
    requires
        0 <= j < s.len(),
        0 <= b < s.len(),
        s[j] == s[b],
        s.len() >= 2,
    ensures
        max_val(s.remove(j)) == max_val(s.remove(b)),
{
    lemma_remove_same_multiset(s, j, b);
    lemma_max_val_multiset(s.remove(j), s.remove(b));
}

/// Removing two different positions commutes on the multiset of values.
proof fn lemma_remove_same_multiset(s: Seq<usize>, j: int, b: int)
    requires
        0 <= j < s.len(),
        0 <= b < s.len(),
        s[j] == s[b],
    ensures
        s.remove(j).to_multiset() == s.remove(b).to_multiset(),
{
    s.to_multiset_ensures();
    assert(s.remove(j).to_multiset() =~= s.to_multiset().remove(s[j]));
    assert(s.remove(b).to_multiset() =~= s.to_multiset().remove(s[b]));
}

} // verus!
