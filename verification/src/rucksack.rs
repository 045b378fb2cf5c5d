//! Rucksack priorities: items shared between compartments or across a group.
//!
//! Items are letters; `a` through `z` are worth one to twenty-six and `A`
//! through `Z` twenty-seven to fifty-two.

use vstd::prelude::*;
use vstd::string::StringSliceAdditionalSpecFns;

verus! {

/// The priority of an item character.
pub open spec fn char_value(c: char) -> int {
    if 97 <= c as u32 <= 122 {
        c as u32 - 96
    } else if 65 <= c as u32 <= 90 {
        c as u32 - 38
    } else {
        0
    }
}

/// The priority of an item byte.
pub open spec fn byte_value(b: u8) -> int {
    if 97 <= b <= 122 {
        b - 96
    } else if 65 <= b <= 90 {
        b - 38
    } else {
        0
    }
}

/// The priority of one item.
pub fn value(chr: char) -> (r: u32)
    ensures
        r == char_value(chr),
{
    let ord = chr as u32;
    if 97 <= ord && ord <= 122 {
        ord - 96
    } else if 65 <= ord && ord <= 90 {
        ord - 38
    } else {
        0
    }
}

/// Splits a rucksack's line into its two equally large compartments.
pub fn parse_line(line: &str) -> (r: (&str, &str))
    requires
        line.spec_bytes().len() <= usize::MAX,
        vstd::utf8::is_char_boundary(
            line.spec_bytes(),
            (line.spec_bytes().len() / 2) as int,
        ),
    ensures
        r.0.spec_bytes() == line.spec_bytes().subrange(0, (line.spec_bytes().len() / 2) as int),
        r.1.spec_bytes() == line.spec_bytes().subrange(
            (line.spec_bytes().len() / 2) as int,
            line.spec_bytes().len() as int,
        ),
{
    let compartment_items = line.len() / 2;
    line.split_at(compartment_items)
}

/// Whether `v` holds the byte `b`.
fn has_byte(v: &Vec<u8>, b: u8) -> (r: bool)
    ensures
        r == v@.contains(b),
{
    let mut i: usize = 0;
    while i < v.len()
        invariant
            i <= v@.len(),
            forall|j: int| 0 <= j < i ==> v@[j] != b,
        decreases v@.len() - i,
    {
        if v[i] == b {
            return true;
        }
        i += 1;
    }
    false
}

/// The summed priority of byte codes below `n` that occur in both sequences.
pub open spec fn shared_sum_upto(l: Seq<u8>, r: Seq<u8>, n: int) -> int
    decreases n,
{
    if n <= 0 {
        0
    } else {
        shared_sum_upto(l, r, n - 1) + if l.contains((n - 1) as u8) && r.contains((n - 1) as u8) {
            byte_value((n - 1) as u8)
        } else {
            0
        }
    }
}

/// The summed priority of the distinct items occurring in both compartments.
pub open spec fn shared_sum(l: Seq<u8>, r: Seq<u8>) -> int {
    shared_sum_upto(l, r, 256)
}

/// Partial shared sums stay small.
proof fn lemma_shared_sum_bound(l: Seq<u8>, r: Seq<u8>, n: int)
    requires
        0 <= n <= 256,
    ensures
        0 <= shared_sum_upto(l, r, n) <= 52 * n,
    decreases n,
{
    if n > 0 {
        lemma_shared_sum_bound(l, r, n - 1);
    }
}

/// The summed priority of the distinct items in both compartments.
pub fn prioritize(left: &str, right: &str) -> (res: u32)
    ensures
        res == shared_sum(left.spec_bytes(), right.spec_bytes()),
{
    let lv = left.as_bytes_vec();
    let rv = right.as_bytes_vec();
    let mut sum: u32 = 0;
    let mut code: usize = 0;
    while code < 256
        invariant
            code <= 256,
            lv@ == left.spec_bytes(),
            rv@ == right.spec_bytes(),
            sum == shared_sum_upto(lv@, rv@, code as int),
            sum <= 52 * code,
        decreases 256 - code,
    {
        let b = code as u8;
        if has_byte(&lv, b) && has_byte(&rv, b) {
            sum += value(b as char);
            proof {
                assert(char_value(b as char) == byte_value(b));
            }
        }
        code += 1;
    }
    sum
}

/// Whether every rucksack of the group carries the item byte `b`.
pub open spec fn common_item(group: Seq<Seq<u8>>, b: u8) -> bool {
    forall|i: int| 0 <= i < group.len() ==> #[trigger] group[i].contains(b)
}

/// The byte contents of a group of rucksack lines.
pub open spec fn group_bytes(group: Seq<String>) -> Seq<Seq<u8>> {
    group.map(|i: int, s: String| vstd::utf8::encode_utf8(s@))
}

/// Whether the item byte `b` is carried by every rucksack of the group.
fn all_carry(group: &[String], b: u8) -> (r: bool)
    ensures
        r == common_item(group_bytes(group@), b),
{
    let mut k: usize = 0;
    while k < group.len()
        invariant
            k <= group@.len(),
            forall|j: int| 0 <= j < k ==> #[trigger] group_bytes(group@)[j].contains(b),
        decreases group@.len() - k,
    {
        let s = slice_index_string(group, k);
        let sv = s.as_str().as_bytes_vec();
        proof {
            assert(sv@ == group_bytes(group@)[k as int]);
        }
        if !has_byte(&sv, b) {
            return false;
        }
        k += 1;
    }
    true
}

/// Whether the group's rucksacks share exactly one item: the condition
/// `group_value` asks of its callers.
pub fn has_unique_common_item(group: &[String]) -> (r: bool)
    ensures
        r == ((exists|b: u8| common_item(group_bytes(group@), b)) && (forall|b1: u8, b2: u8|
            common_item(group_bytes(group@), b1) && common_item(group_bytes(group@), b2)
                ==> b1 == b2)),
{
    let mut first: Option<u8> = None;
    let mut code: usize = 0;
    while code < 256
        invariant
            code <= 256,
            match first {
                Some(b) => common_item(group_bytes(group@), b) && (b as int) < code,
                None => true,
            },
            forall|b: u8|
                (b as int) < code && #[trigger] common_item(group_bytes(group@), b) ==> first
                    == Some(b),
        decreases 256 - code,
    {
        let b = code as u8;
        if all_carry(group, b) {
            match first {
                None => {
                    first = Some(b);
                },
                Some(prev) => {
                    proof {
                        assert(common_item(group_bytes(group@), prev));
                        assert(prev != b);
                    }
                    return false;
                },
            }
        }
        code += 1;
    }
    proof {
        assert forall|b: u8| #[trigger] common_item(group_bytes(group@), b) implies first
            == Some(b) by {
            assert((b as int) < 256);
        }
    }
    match first {
        Some(_) => true,
        None => false,
    }
}

/// The priority of the one item carried by every rucksack of the group.
/// The group must be non-empty and share exactly one item.
pub fn group_value(group: &[String]) -> (r: usize)
    requires
        group@.len() > 0,
        exists|b: u8| common_item(group_bytes(group@), b),
        forall|b1: u8, b2: u8|
            common_item(group_bytes(group@), b1) && common_item(group_bytes(group@), b2) ==> b1
                == b2,
    ensures
        forall|b: u8| common_item(group_bytes(group@), b) ==> r == byte_value(b),
{
    let first = slice_index_string(group, 0);
    let fv = first.as_str().as_bytes_vec();
    let mut i: usize = 0;
    while i < fv.len()
        invariant
            i <= fv@.len(),
            fv@ == group_bytes(group@)[0],
            group@.len() > 0,
            exists|b: u8| common_item(group_bytes(group@), b),
            forall|b1: u8, b2: u8|
                common_item(group_bytes(group@), b1) && common_item(group_bytes(group@), b2)
                    ==> b1 == b2,
            forall|j: int| 0 <= j < i ==> !common_item(group_bytes(group@), #[trigger] fv@[j]),
        decreases fv@.len() - i,
    {
        let b = fv[i];
        let mut all: bool = true;
        let mut k: usize = 0;
        while k < group.len() && all
            invariant
                k <= group@.len(),
                fv@ == group_bytes(group@)[0],
                all ==> forall|j: int| 0 <= j < k ==> #[trigger] group_bytes(group@)[j].contains(
                    b,
                ),
                !all ==> !common_item(group_bytes(group@), b),
            decreases group@.len() - k,
        {
            let s = slice_index_string(group, k);
            let sv = s.as_str().as_bytes_vec();
            proof {
                assert(sv@ == group_bytes(group@)[k as int]);
            }
            if !has_byte(&sv, b) {
                all = false;
            }
            k += 1;
        }
        if all {
            proof {
                assert(common_item(group_bytes(group@), b));
            }
            let v = value(b as char);
            proof {
                assert(char_value(b as char) == byte_value(b));
            }
            return v as usize;
        }
        i += 1;
    }
    proof {
        let b = choose|b: u8| common_item(group_bytes(group@), b);
        assert(group_bytes(group@)[0].contains(b));
        let j = choose|j: int| 0 <= j < fv@.len() && fv@[j] == b;
        assert(!common_item(group_bytes(group@), fv@[j]));
        assert(false);
    }
    0
}

/// Reads one string of a group.
fn slice_index_string(group: &[String], i: usize) -> (r: &String)
    requires
        i < group@.len(),
    ensures
        r == group@[i as int],
        vstd::utf8::encode_utf8(r@) == group_bytes(group@)[i as int],
{
    &group[i]
}

} // verus!
