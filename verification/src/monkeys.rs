//! Monkeys tossing worry items: each monkey inspects its items with a small
//! arithmetic rule, tests divisibility, and throws to another monkey; the
//! notes describing the monkeys are parsed from their fixed text form.

use vstd::prelude::*;
use vstd::string::StringSliceAdditionalSpecFns;
use vstd::string::StrSliceExecFns;

verus! {

/// A name greeted in a `Hello, name!` line.
#[derive(Debug)]
pub struct Name(pub String);

/// Where a parse gave up.
#[derive(Copy, Debug, Clone, PartialEq, Eq, Structural)]
pub enum ParseError {
    /// The input does not fit the expected form.
    BadShape,
}

/// Whether the byte sequence `t` is written at `i` in `s`.
pub open spec fn tag_at(s: Seq<u8>, i: int, t: Seq<u8>) -> bool {
    0 <= i && i + t.len() <= s.len() && s.subrange(i, i + t.len()) == t
}

/// Whether a byte is an ASCII letter.
pub open spec fn is_alpha(b: u8) -> bool {
    (65 <= b <= 90) || (97 <= b <= 122)
}

/// The end of the run of ASCII letters beginning at `i`.
pub open spec fn alpha_run_end(s: Seq<u8>, i: int) -> int
    decreases s.len() - i,
{
    if i < 0 || i >= s.len() || !is_alpha(s[i]) {
        i
    } else {
        alpha_run_end(s, i + 1)
    }
}

/// The name written as `Hello, name!` at the start of the input: the
/// letters between the greeting and the bang, and where the rest begins.
pub open spec fn parse_name_spec(s: Seq<u8>) -> Option<(Seq<u8>, int)> {
    let t = "Hello, ".spec_bytes();
    if !tag_at(s, 0, t) {
        None
    } else {
        let a = t.len() as int;
        let e = alpha_run_end(s, a);
        if e < s.len() && s[e] == 33 {
            Some((s.subrange(a, e), e + 1))
        } else {
            None
        }
    }
}

/// Checks whether the pattern is written at `i`.
fn match_seq(v: &Vec<u8>, i: usize, pat: &Vec<u8>) -> (r: bool)
    ensures
        r == tag_at(v@, i as int, pat@),
{
    if i >= v.len() && pat.len() > 0 {
        return false;
    }
    if i > v.len() {
        return false;
    }
    if v.len() - i < pat.len() {
        return false;
    }
    // pins the byte count to the machine range
    let _ = v.len();
    let mut k: usize = 0;
    while k < pat.len()
        invariant
            k <= pat@.len(),
            i + pat@.len() <= v@.len(),
            v@.len() <= usize::MAX,
            forall|j: int| 0 <= j < k ==> v@[i + j] == pat@[j],
        decreases pat@.len() - k,
    {
        let idx = i + k;
        if v[idx] != pat[k] {
            proof {
                assert(v@.subrange(i as int, i + pat@.len())[k as int] == v@[i + k]);
            }
            return false;
        }
        k += 1;
    }
    proof {
        assert(v@.subrange(i as int, i + pat@.len()) =~= pat@);
    }
    true
}

/// The bytes of a piece of text.
fn str_bytes(s: &str) -> (r: Vec<u8>)
    ensures
        r@ == s.spec_bytes(),
{
    s.as_bytes_vec()
}

/// Scans to the end of the letter run beginning at `i`.
fn alpha_end(v: &Vec<u8>, i: usize) -> (r: usize)
    requires
        i <= v@.len(),
    ensures
        r == alpha_run_end(v@, i as int),
        i <= r <= v@.len(),
{
    proof {
        lemma_alpha_run_end(v@, i as int);
    }
    let mut j: usize = i;
    while j < v.len() && ((65 <= v[j] && v[j] <= 90) || (97 <= v[j] && v[j] <= 122))
        invariant
            i <= j <= v@.len(),
            forall|k: int| i <= k < j ==> is_alpha(#[trigger] v@[k]),
            j <= alpha_run_end(v@, i as int),
        decreases v@.len() - j,
    {
        proof {
            lemma_alpha_run_end(v@, i as int);
            if j + 1 > alpha_run_end(v@, i as int) {
                assert(!is_alpha(v@[alpha_run_end(v@, i as int)]));
            }
        }
        j += 1;
    }
    proof {
        lemma_alpha_run_end(v@, i as int);
        if j < alpha_run_end(v@, i as int) {
            assert(is_alpha(v@[j as int]));
        }
    }
    j
}

/// Facts about where a letter run ends.
proof fn lemma_alpha_run_end(s: Seq<u8>, i: int)
    requires
        0 <= i <= s.len(),
    ensures
        i <= alpha_run_end(s, i) <= s.len(),
        forall|k: int| i <= k < alpha_run_end(s, i) ==> is_alpha(#[trigger] s[k]),
        alpha_run_end(s, i) == s.len() || !is_alpha(s[alpha_run_end(s, i)]),
    decreases s.len() - i,
{
    if i < s.len() && is_alpha(s[i]) {
        lemma_alpha_run_end(s, i + 1);
    }
}

/// Reads the name of a `Hello, name!` greeting; the name and the rest of
/// the input follow, as text.  The input must be ASCII.
pub fn parse_name(input: &str) -> (r: Option<(String, String)>)
    requires
        vstd::string::is_ascii(input),
    ensures
        match r {
            Some((name, rest)) => match parse_name_spec(input.spec_bytes()) {
                Some((n, e)) => vstd::utf8::encode_utf8(name@) == n && vstd::utf8::encode_utf8(
                    rest@,
                ) == input.spec_bytes().subrange(e, input.spec_bytes().len() as int),
                None => false,
            },
            None => parse_name_spec(input.spec_bytes()) is None,
        },
{
    broadcast use vstd::string::is_ascii_spec_bytes;

    let v = input.as_bytes_vec();
    // pins the byte count to the machine range
    let _ = v.len();
    let tag = str_bytes("Hello, ");
    if !match_seq(&v, 0, &tag) {
        return None;
    }
    let a = tag.len();
    let e = alpha_end(&v, a);
    if !(e < v.len() && v[e] == 33) {
        return None;
    }
    let name = input.substring_ascii(a, e).to_owned();
    let rest = input.substring_ascii(e + 1, input.len()).to_owned();
    proof {
        lemma_ascii_bytes(input, a as int, e as int);
        lemma_ascii_bytes(input, e + 1, input.spec_bytes().len() as int);
    }
    Some((name, rest))
}

/// For ASCII text, the bytes of a span of characters are that span of the
/// byte view.
pub proof fn lemma_ascii_bytes(s: &str, a: int, e: int)
    requires
        vstd::string::is_ascii(s),
        0 <= a <= e <= s@.len(),
    ensures
        vstd::utf8::encode_utf8(s@.subrange(a, e)) == s.spec_bytes().subrange(a, e),
        s.spec_bytes().len() == s@.len(),
{
    broadcast use vstd::string::is_ascii_spec_bytes;

    let sub = s@.subrange(a, e);
    assert(vstd::utf8::is_ascii_chars(s@));
    assert forall|k: int| 0 <= k < sub.len() implies '\0' <= #[trigger] sub[k] <= '\u{7f}' by {
        assert(sub[k] == s@[a + k]);
    }
    assert(vstd::utf8::is_ascii_chars(sub));
    vstd::utf8::is_ascii_chars_encode_utf8(sub);
    assert(vstd::utf8::encode_utf8(sub) =~= s.spec_bytes().subrange(a, e));
}

impl Name {
    /// Reads the whole greeting line into a name.
    pub fn from_str(s: &str) -> (r: Result<Name, ParseError>)
        requires
            vstd::string::is_ascii(s),
        ensures
            match r {
                Ok(n) => match parse_name_spec(s.spec_bytes()) {
                    Some((bytes, _)) => vstd::utf8::encode_utf8(n.0@) == bytes,
                    None => false,
                },
                Err(_) => parse_name_spec(s.spec_bytes()) is None,
            },
    {
        match parse_name(s) {
            Some((name, _rest)) => Ok(Name(name)),
            None => Err(ParseError::BadShape),
        }
    }
}

/// One operand of a monkey's inspection rule.
#[derive(Debug, Clone, Copy, PartialEq, Eq, Structural)]
pub enum Expr {
    Num(usize),
    Old,
}

/// A monkey's inspection rule: a sum or a product of two operands.
#[derive(Debug, Clone, Copy, PartialEq, Eq, Structural)]
pub enum Operation {
    Add(Expr, Expr),
    Mul(Expr, Expr),
}

/// The value of one operand, given the item's old worry level.
pub open spec fn resolve_spec(e: Expr, old_val: usize) -> usize {
    match e {
        Expr::Old => old_val,
        Expr::Num(n) => n,
    }
}

impl Expr {
    /// The value of this operand, given the item's old worry level.
    pub fn resolve(&self, old_val: usize) -> (r: usize)
        ensures
            r == resolve_spec(*self, old_val),
    {
        match self {
            Self::Old => old_val,
            Self::Num(i) => *i,
        }
    }
}

/// One monkey: its number, the items it holds, its rule, its divisibility
/// test, where items go on either outcome, and how many inspections it has
/// made.
#[derive(Debug, Clone)]
pub struct Monkey {
    pub index: usize,
    pub items: Vec<usize>,
    pub operation: Operation,
    pub test_divisible: usize,
    pub true_throw_index: usize,
    pub false_throw_index: usize,
    pub inspections: usize,
}

/// The mathematical image of a monkey: the same fields, with the items as
/// a sequence.
pub struct MonkeyV {
    pub index: usize,
    pub items: Seq<usize>,
    pub operation: Operation,
    pub test_divisible: usize,
    pub true_throw_index: usize,
    pub false_throw_index: usize,
    pub inspections: usize,
}

impl View for Monkey {
    type V = MonkeyV;

    open spec fn view(&self) -> MonkeyV {
        MonkeyV {
            index: self.index,
            items: self.items@,
            operation: self.operation,
            test_divisible: self.test_divisible,
            true_throw_index: self.true_throw_index,
            false_throw_index: self.false_throw_index,
            inspections: self.inspections,
        }
    }
}

/// The fields of a parsed monkey, with its items as a sequence.
pub open spec fn monkey_view(m: Monkey) -> (usize, Seq<usize>, Operation, usize, usize, usize) {
    (
        m.index,
        m.items@,
        m.operation,
        m.test_divisible,
        m.true_throw_index,
        m.false_throw_index,
    )
}

/// A number token at `i`: a non-empty digit run whose value fits `usize`.
pub open spec fn num_at(s: Seq<u8>, i: int) -> Option<(usize, int)> {
    let e = crate::text::digit_run_end(s, i);
    if e == i || crate::text::dec_val(s.subrange(i, e)) > usize::MAX {
        None
    } else {
        Some(((crate::text::dec_val(s.subrange(i, e)) as usize), e))
    }
}

/// The comma-separated worry items beginning at `i`: numbers with optional
/// whitespace around each comma.
pub open spec fn items_at(s: Seq<u8>, i: int) -> Option<(Seq<usize>, int)>
    decreases s.len() - i,
{
    match num_at(s, i) {
        Some((n, e)) => {
            let w = crate::text::ws_run_end(s, e);
            if w < s.len() && s[w] == 44 {
                let next = crate::text::ws_run_end(s, w + 1);
                if next <= i || next > s.len() {
                    None
                } else {
                    match items_at(s, next) {
                        Some((rest, e2)) => Some((seq![n] + rest, e2)),
                        None => None,
                    }
                }
            } else {
                Some((seq![n], e))
            }
        },
        None => None,
    }
}

/// An operand at `i`: the word `old`, or a number.
pub open spec fn expr_at(s: Seq<u8>, i: int) -> Option<(Expr, int)> {
    if tag_at(s, i, "old".spec_bytes()) {
        Some((Expr::Old, i + "old".spec_bytes().len()))
    } else {
        match num_at(s, i) {
            Some((n, e)) => Some((Expr::Num(n), e)),
            None => None,
        }
    }
}

/// The inspection rule at `i`: an operand, a `*` or `+`, and an operand,
/// each wrapped in optional whitespace.
pub open spec fn operation_at(s: Seq<u8>, i: int) -> Option<(Operation, int)> {
    let a = crate::text::ws_run_end(s, i);
    match expr_at(s, a) {
        Some((left, e1)) => {
            let b = crate::text::ws_run_end(s, e1);
            if b < s.len() && (s[b] == 42 || s[b] == 43) {
                let c = crate::text::ws_run_end(s, b + 1);
                match expr_at(s, c) {
                    Some((right, e2)) => {
                        let d = crate::text::ws_run_end(s, e2);
                        if s[b] == 42 {
                            Some((Operation::Mul(left, right), d))
                        } else {
                            Some((Operation::Add(left, right), d))
                        }
                    },
                    None => None,
                }
            } else {
                None
            }
        },
        None => None,
    }
}

/// The monkey written at `i`: its heading, starting items, rule, test and
/// throw targets, each introduced by its fixed label, with the notes'
/// exact spacing.
pub open spec fn monkey_at(s: Seq<u8>, i0: int) -> Option<
    ((usize, Seq<usize>, Operation, usize, usize, usize), int),
> {
    let i = crate::text::ws_run_end(s, i0);
    if !tag_at(s, i, "Monkey ".spec_bytes()) {
        None
    } else {
        let a1 = i + "Monkey ".spec_bytes().len();
        match num_at(s, a1) {
            Some((index, e1)) => {
                if !(e1 < s.len() && s[e1] == 58) {
                    None
                } else {
                    let w1 = crate::text::ws_run_end(s, e1 + 1);
                    if w1 == e1 + 1 || !tag_at(s, w1, "Starting items: ".spec_bytes()) {
                        None
                    } else {
                        let a2 = w1 + "Starting items: ".spec_bytes().len();
                        match items_at(s, a2) {
                            Some((items, e2)) => {
                                let w2 = crate::text::ws_run_end(s, e2);
                                if w2 == e2 || !tag_at(
                                    s,
                                    w2,
                                    "Operation: new = ".spec_bytes(),
                                ) {
                                    None
                                } else {
                                    let a3 = w2 + "Operation: new = ".spec_bytes().len();
                                    match operation_at(s, a3) {
                                        Some((op, e3)) => monkey_tail(
                                            s,
                                            e3,
                                            index,
                                            items,
                                            op,
                                        ),
                                        None => None,
                                    }
                                }
                            },
                            None => None,
                        }
                    }
                }
            },
            None => None,
        }
    }
}

/// The test and throw lines of a monkey's notes, beginning at `i` (just
/// after the rule, whose trailing whitespace is already consumed).
pub open spec fn monkey_tail(
    s: Seq<u8>,
    i: int,
    index: usize,
    items: Seq<usize>,
    op: Operation,
) -> Option<((usize, Seq<usize>, Operation, usize, usize, usize), int)> {
    if !tag_at(s, i, "Test: divisible by ".spec_bytes()) {
        None
    } else {
        let a4 = i + "Test: divisible by ".spec_bytes().len();
        match num_at(s, a4) {
            Some((test, e4)) => {
                let w4 = crate::text::ws_run_end(s, e4);
                if w4 == e4 || !tag_at(s, w4, "If true: throw to monkey ".spec_bytes()) {
                    None
                } else {
                    let a5 = w4 + "If true: throw to monkey ".spec_bytes().len();
                    match num_at(s, a5) {
                        Some((tt, e5)) => {
                            let w5 = crate::text::ws_run_end(s, e5);
                            if w5 == e5 || !tag_at(
                                s,
                                w5,
                                "If false: throw to monkey ".spec_bytes(),
                            ) {
                                None
                            } else {
                                let a6 = w5 + "If false: throw to monkey ".spec_bytes().len();
                                match num_at(s, a6) {
                                    Some((ft, e6)) => {
                                        let e7 = crate::text::ws_run_end(s, e6);
                                        Some(((index, items, op, test, tt, ft), e7))
                                    },
                                    None => None,
                                }
                            }
                        },
                        None => None,
                    }
                }
            },
            None => None,
        }
    }
}

/// Reads one number token.
fn take_num(v: &Vec<u8>, i: usize) -> (r: Option<(usize, usize)>)
    requires
        i <= v@.len(),
    ensures
        match r {
            Some((n, e)) => num_at(v@, i as int) == Some((n, e as int)) && i < e <= v@.len(),
            None => num_at(v@, i as int) is None,
        },
{
    proof {
        crate::text::lemma_digit_run_end(v@, i as int);
    }
    crate::text::take_number(v, i)
}

impl Monkey {
    /// Reads one monkey's notes from the bytes at `i`; the monkey and the
    /// position after its notes (trailing whitespace consumed) follow.
    pub fn parse_at(v: &Vec<u8>, i0: usize) -> (r: Option<(Monkey, usize)>)
        requires
            i0 <= v@.len(),
        ensures
            match r {
                Some((m, e)) => monkey_at(v@, i0 as int) == Some((monkey_view(m), e as int)) && i0
                    <= e <= v@.len() && m.inspections == 0,
                None => monkey_at(v@, i0 as int) is None,
            },
    {
        // pins the byte count to the machine range
        let _ = v.len();
        let i = crate::text::skip_ws(v, i0);
        proof {
            crate::text::lemma_ws_run_end(v@, i0 as int);
        }
        let t_monkey = str_bytes("Monkey ");
        if !match_seq(v, i, &t_monkey) {
            return None;
        }
        let a1 = i + t_monkey.len();
        proof {
            assert(a1 <= v@.len());
        }
        let (index, e1) = match take_num(v, a1) {
            Some(x) => x,
            None => {
                return None;
            },
        };
        if !(e1 < v.len() && v[e1] == 58) {
            return None;
        }
        let w1 = crate::text::skip_ws(v, e1 + 1);
        proof {
            crate::text::lemma_ws_run_end(v@, e1 + 1);
        }
        let t_items = str_bytes("Starting items: ");
        if w1 == e1 + 1 || !match_seq(v, w1, &t_items) {
            return None;
        }
        let a2 = w1 + t_items.len();
        let (items, e2) = match Self::take_items(v, a2) {
            Some(x) => x,
            None => {
                return None;
            },
        };
        let w2 = crate::text::skip_ws(v, e2);
        proof {
            crate::text::lemma_ws_run_end(v@, e2 as int);
        }
        let t_op = str_bytes("Operation: new = ");
        if w2 == e2 || !match_seq(v, w2, &t_op) {
            return None;
        }
        let a3 = w2 + t_op.len();
        let (op, e3) = match Self::take_operation(v, a3) {
            Some(x) => x,
            None => {
                return None;
            },
        };
        let t_test = str_bytes("Test: divisible by ");
        if !match_seq(v, e3, &t_test) {
            return None;
        }
        let a4 = e3 + t_test.len();
        let (test, e4) = match take_num(v, a4) {
            Some(x) => x,
            None => {
                return None;
            },
        };
        let w4 = crate::text::skip_ws(v, e4);
        proof {
            crate::text::lemma_ws_run_end(v@, e4 as int);
        }
        let t_true = str_bytes("If true: throw to monkey ");
        if w4 == e4 || !match_seq(v, w4, &t_true) {
            return None;
        }
        let a5 = w4 + t_true.len();
        let (tt, e5) = match take_num(v, a5) {
            Some(x) => x,
            None => {
                return None;
            },
        };
        let w5 = crate::text::skip_ws(v, e5);
        proof {
            crate::text::lemma_ws_run_end(v@, e5 as int);
        }
        let t_false = str_bytes("If false: throw to monkey ");
        if w5 == e5 || !match_seq(v, w5, &t_false) {
            return None;
        }
        let a6 = w5 + t_false.len();
        let (ft, e6) = match take_num(v, a6) {
            Some(x) => x,
            None => {
                return None;
            },
        };
        let e7 = crate::text::skip_ws(v, e6);
        proof {
            crate::text::lemma_ws_run_end(v@, e6 as int);
        }
        let m = Monkey {
            index,
            items,
            operation: op,
            test_divisible: test,
            true_throw_index: tt,
            false_throw_index: ft,
            inspections: 0,
        };
        Some((m, e7))
    }

    /// Reads the comma-separated starting items.
    fn take_items(v: &Vec<u8>, i: usize) -> (r: Option<(Vec<usize>, usize)>)
        requires
            i <= v@.len(),
        ensures
            match r {
                Some((items, e)) => items_at(v@, i as int) == Some((items@, e as int)) && i < e
                    <= v@.len(),
                None => items_at(v@, i as int) is None,
            },
        decreases v@.len() - i,
    {
        let (n, e) = match take_num(v, i) {
            Some(x) => x,
            None => {
                return None;
            },
        };
        let w = crate::text::skip_ws(v, e);
        proof {
            crate::text::lemma_ws_run_end(v@, e as int);
        }
        if w < v.len() && v[w] == 44 {
            let next = crate::text::skip_ws(v, w + 1);
            proof {
                crate::text::lemma_ws_run_end(v@, w + 1);
            }
            if next <= i {
                return None;
            }
            let (rest, e2) = match Self::take_items(v, next) {
                Some(x) => x,
                None => {
                    return None;
                },
            };
            let mut items: Vec<usize> = Vec::new();
            items.push(n);
            let mut k: usize = 0;
            while k < rest.len()
                invariant
                    k <= rest@.len(),
                    items@ =~= seq![n] + rest@.take(k as int),
                decreases rest@.len() - k,
            {
                items.push(rest[k]);
                proof {
                    assert(seq![n] + rest@.take(k + 1) =~= (seq![n] + rest@.take(k as int)).push(
                        rest@[k as int],
                    ));
                }
                k += 1;
            }
            proof {
                assert(rest@.take(rest@.len() as int) =~= rest@);
                assert(items@ =~= seq![n] + rest@);
            }
            Some((items, e2))
        } else {
            let mut items: Vec<usize> = Vec::new();
            items.push(n);
            proof {
                assert(items@ =~= seq![n]);
            }
            Some((items, e))
        }
    }

    /// Reads one operand.
    fn take_expr(v: &Vec<u8>, i: usize) -> (r: Option<(Expr, usize)>)
        requires
            i <= v@.len(),
        ensures
            match r {
                Some((e, p)) => expr_at(v@, i as int) == Some((e, p as int)) && i <= p <= v@.len(),
                None => expr_at(v@, i as int) is None,
            },
    {
        // pins the byte count to the machine range
        let _ = v.len();
        let t_old = str_bytes("old");
        if match_seq(v, i, &t_old) {
            return Some((Expr::Old, i + t_old.len()));
        }
        match take_num(v, i) {
            Some((n, e)) => Some((Expr::Num(n), e)),
            None => None,
        }
    }

    /// Reads the inspection rule with its surrounding whitespace.
    fn take_operation(v: &Vec<u8>, i: usize) -> (r: Option<(Operation, usize)>)
        requires
            i <= v@.len(),
        ensures
            match r {
                Some((op, p)) => operation_at(v@, i as int) == Some((op, p as int)) && i <= p
                    <= v@.len(),
                None => operation_at(v@, i as int) is None,
            },
    {
        let a = crate::text::skip_ws(v, i);
        proof {
            crate::text::lemma_ws_run_end(v@, i as int);
        }
        let (left, e1) = match Self::take_expr(v, a) {
            Some(x) => x,
            None => {
                return None;
            },
        };
        let b = crate::text::skip_ws(v, e1);
        proof {
            crate::text::lemma_ws_run_end(v@, e1 as int);
        }
        if !(b < v.len() && (v[b] == 42 || v[b] == 43)) {
            return None;
        }
        let sym = v[b];
        let c = crate::text::skip_ws(v, b + 1);
        proof {
            crate::text::lemma_ws_run_end(v@, b + 1);
        }
        let (right, e2) = match Self::take_expr(v, c) {
            Some(x) => x,
            None => {
                return None;
            },
        };
        let d = crate::text::skip_ws(v, e2);
        proof {
            crate::text::lemma_ws_run_end(v@, e2 as int);
        }
        if sym == 42 {
            Some((Operation::Mul(left, right), d))
        } else {
            Some((Operation::Add(left, right), d))
        }
    }

    /// Reads one monkey from the front of a text; the monkey and the rest
    /// of the text follow.  The input must be ASCII.
    pub fn parse(input: &str) -> (r: Option<(Monkey, String)>)
        requires
            vstd::string::is_ascii(input),
        ensures
            match r {
                Some((m, rest)) => match monkey_at(input.spec_bytes(), 0) {
                    Some((mv, e)) => mv == monkey_view(m) && vstd::utf8::encode_utf8(rest@)
                        == input.spec_bytes().subrange(e, input.spec_bytes().len() as int),
                    None => false,
                },
                None => monkey_at(input.spec_bytes(), 0) is None,
            },
    {
        broadcast use vstd::string::is_ascii_spec_bytes;

        let v = input.as_bytes_vec();
        // pins the byte count to the machine range
        let _ = v.len();
        match Self::parse_at(&v, 0) {
            Some((m, e)) => {
                let rest = input.substring_ascii(e, input.len()).to_owned();
                proof {
                    lemma_ascii_bytes(input, e as int, input.spec_bytes().len() as int);
                }
                Some((m, rest))
            },
            None => None,
        }
    }

    /// Reads every monkey of a text, in order; `None` when the text does
    /// not parse completely.
    pub fn parse_all(input: &str) -> (r: Option<Vec<Monkey>>)
        requires
            vstd::string::is_ascii(input),
        ensures
            match r {
                Some(ms) => monkeys_at(input.spec_bytes(), 0) == Some(
                    ms@.map(|k: int, m: Monkey| monkey_view(m)),
                ),
                None => monkeys_at(input.spec_bytes(), 0) is None,
            },
    {
        broadcast use vstd::string::is_ascii_spec_bytes;

        let v = input.as_bytes_vec();
        // pins the byte count to the machine range
        let _ = v.len();
        let mut ms: Vec<Monkey> = Vec::new();
        let mut i: usize = 0;
        proof {
            assert(ms@.map(|k: int, m: Monkey| monkey_view(m)) =~= Seq::<
                (usize, Seq<usize>, Operation, usize, usize, usize),
            >::empty());
        }
        while i < v.len()
            invariant
                i <= v@.len(),
                v@ == input.spec_bytes(),
                monkeys_at(v@, 0) == (match monkeys_at(v@, i as int) {
                    Some(rest) => Some(ms@.map(|k: int, m: Monkey| monkey_view(m)) + rest),
                    None => None::<Seq<(usize, Seq<usize>, Operation, usize, usize, usize)>>,
                }),
            decreases v@.len() - i,
        {
            let ghost m0 = ms@.map(|k: int, m: Monkey| monkey_view(m));
            let (m, e) = match Self::parse_at(&v, i) {
                Some(x) => x,
                None => {
                    return None;
                },
            };
            if e <= i {
                proof {
                    assert(monkeys_at(v@, i as int) is None);
                }
                return None;
            }
            ms.push(m);
            proof {
                assert(ms@.map(|k: int, m2: Monkey| monkey_view(m2)) =~= m0.push(monkey_view(m)));
                match monkeys_at(v@, e as int) {
                    Some(rest) => {
                        assert(m0.push(monkey_view(m)) + rest =~= m0 + (seq![monkey_view(m)]
                            + rest));
                    },
                    None => {},
                }
            }
            i = e;
        }
        proof {
            assert(monkeys_at(v@, i as int) == Some(Seq::<
                (usize, Seq<usize>, Operation, usize, usize, usize),
            >::empty()));
            assert(ms@.map(|k: int, m: Monkey| monkey_view(m)) + Seq::<
                (usize, Seq<usize>, Operation, usize, usize, usize),
            >::empty() =~= ms@.map(|k: int, m: Monkey| monkey_view(m)));
        }
        Some(ms)
    }
}

/// All monkeys written from `i` to the end of the text, each note read in
/// turn; nothing when a note fails to parse or fails to advance.
pub open spec fn monkeys_at(s: Seq<u8>, i: int) -> Option<
    Seq<(usize, Seq<usize>, Operation, usize, usize, usize)>,
>
    decreases s.len() - i,
{
    if i >= s.len() {
        Some(Seq::empty())
    } else {
        match monkey_at(s, i) {
            Some((mv, e)) => if e <= i || e > s.len() {
                None
            } else {
                match monkeys_at(s, e) {
                    Some(rest) => Some(seq![mv] + rest),
                    None => None,
                }
            },
            None => None,
        }
    }
}

/// The raised worry level after one inspection, as an unbounded number.
pub open spec fn operate_spec(op: Operation, item: usize) -> int {
    match op {
        Operation::Add(l, r) => resolve_spec(l, item) + resolve_spec(r, item),
        Operation::Mul(l, r) => resolve_spec(l, item) * resolve_spec(r, item),
    }
}

impl Monkey {
    /// Whether an item's worry level passes this monkey's divisibility test.
    pub fn test(&self, item: usize) -> (r: bool)
        requires
            self.test_divisible != 0,
        ensures
            r == (item as int % (self.test_divisible as int) == 0),
    {
        item % self.test_divisible == 0
    }

    /// The raised worry level of an item after this monkey inspects it.
    pub fn operate(&self, item: usize) -> (r: usize)
        requires
            operate_spec(self.operation, item) <= usize::MAX,
        ensures
            r == operate_spec(self.operation, item),
    {
        match self.operation {
            Operation::Add(left, right) => left.resolve(item) + right.resolve(item),
            Operation::Mul(left, right) => left.resolve(item) * right.resolve(item),
        }
    }

    /// Takes a thrown item.
    pub fn catch(&mut self, item: usize)
        ensures
            final(self).items@ == old(self).items@.push(item),
            final(self).index == old(self).index,
            final(self).operation == old(self).operation,
            final(self).test_divisible == old(self).test_divisible,
            final(self).true_throw_index == old(self).true_throw_index,
            final(self).false_throw_index == old(self).false_throw_index,
            final(self).inspections == old(self).inspections,
    {
        self.items.push(item);
    }

    /// Inspects every held item: raises its worry level, decides whom to
    /// throw it to, counts the inspections, and empties the hands.
    pub fn inspect(&mut self) -> (throws: Vec<(usize, usize)>)
        requires
            monkey_round_ok(old(self)@),
        ensures
            throws@ == inspect_throws(old(self)@),
            final(self).items@ == Seq::<usize>::empty(),
            final(self).inspections == old(self).inspections + old(self).items@.len(),
            final(self).index == old(self).index,
            final(self).operation == old(self).operation,
            final(self).test_divisible == old(self).test_divisible,
            final(self).true_throw_index == old(self).true_throw_index,
            final(self).false_throw_index == old(self).false_throw_index,
    {
        let mut throws: Vec<(usize, usize)> = Vec::new();
        let n = self.items.len();
        let mut k: usize = 0;
        while k < n
            invariant
                k <= n,
                n == self.items@.len(),
                *self == *old(self),
                self.test_divisible != 0,
                forall|j: int|
                    0 <= j < self.items@.len() ==> operate_spec(
                        self.operation,
                        #[trigger] self.items@[j],
                    ) <= usize::MAX,
                throws@ =~= inspect_throws(old(self)@).take(k as int),
            decreases n - k,
        {
            let item0 = self.items[k];
            let item = self.operate(item0);
            let to_monkey = if self.test(item) {
                self.true_throw_index
            } else {
                self.false_throw_index
            };
            throws.push((item, to_monkey));
            proof {
                assert(inspect_throws(old(self)@).take(k + 1) =~= inspect_throws(
                    old(self)@,
                ).take(k as int).push(inspect_throws(old(self)@)[k as int]));
            }
            k += 1;
        }
        proof {
            assert(inspect_throws(old(self)@).take(n as int) =~= inspect_throws(old(self)@));
        }
        self.inspections = self.inspections + n;
        self.items.clear();
        throws
    }

    /// Reduces every held worry level modulo the product of all tests.
    pub fn reduce(&mut self, divisor_product: usize)
        requires
            divisor_product != 0,
        ensures
            final(self).items@ == old(self).items@.map(
                |k: int, it: usize| (it as int % (divisor_product as int)) as usize,
            ),
            final(self).index == old(self).index,
            final(self).operation == old(self).operation,
            final(self).test_divisible == old(self).test_divisible,
            final(self).true_throw_index == old(self).true_throw_index,
            final(self).false_throw_index == old(self).false_throw_index,
            final(self).inspections == old(self).inspections,
    {
        let mut items: Vec<usize> = Vec::new();
        let n = self.items.len();
        let mut k: usize = 0;
        while k < n
            invariant
                k <= n,
                n == self.items@.len(),
                *self == *old(self),
                divisor_product != 0,
                items@ =~= old(self).items@.take(k as int).map(
                    |j: int, it: usize| (it as int % (divisor_product as int)) as usize,
                ),
            decreases n - k,
        {
            items.push(self.items[k] % divisor_product);
            proof {
                assert(old(self).items@.take(k + 1).map(
                    |j: int, it: usize| (it as int % (divisor_product as int)) as usize,
                ) =~= old(self).items@.take(k as int).map(
                    |j: int, it: usize| (it as int % (divisor_product as int)) as usize,
                ).push((old(self).items@[k as int] as int % (divisor_product as int)) as usize));
            }
            k += 1;
        }
        proof {
            assert(old(self).items@.take(n as int) =~= old(self).items@);
        }
        self.items = items;
    }
}

/// The throws one monkey makes when it inspects everything it holds: the
/// raised worry level of each item, paired with the target its test picks.
pub open spec fn inspect_throws(m: MonkeyV) -> Seq<(usize, usize)> {
    m.items.map(
        |k: int, it: usize|
            {
                let raised = operate_spec(m.operation, it);
                (
                    (raised as usize),
                    if raised % (m.test_divisible as int) == 0 {
                        m.true_throw_index
                    } else {
                        m.false_throw_index
                    },
                )
            },
    )
}

/// Why a round of monkey business cannot be played.
#[derive(Copy, Debug, Clone, PartialEq, Eq, Structural)]
pub enum SimError {
    /// A worry level left the machine range, a divisor was zero, or a
    /// throw named no monkey.
    BadRound,
}

/// Whether every monkey of the troop can inspect its items within bounds.
pub open spec fn monkey_round_ok(m: MonkeyV) -> bool {
    &&& m.test_divisible != 0
    &&& forall|k: int|
        0 <= k < m.items.len() ==> operate_spec(m.operation, #[trigger] m.items[k]) <= usize::MAX
    &&& m.inspections + m.items.len() <= usize::MAX
}

/// Hands each throw to its target monkey, in order.
pub open spec fn toss_items(ms: Seq<MonkeyV>, throws: Seq<(usize, usize)>) -> Option<
    Seq<MonkeyV>,
>
    decreases throws.len(),
{
    if throws.len() == 0 {
        Some(ms)
    } else {
        let (item, to) = throws[0];
        if to >= ms.len() {
            None
        } else {
            let caught = MonkeyV { items: ms[to as int].items.push(item), ..ms[to as int] };
            toss_items(ms.update(to as int, caught), throws.skip(1))
        }
    }
}

/// One monkey's turn: it inspects and throws everything it holds.
pub open spec fn turn_spec(ms: Seq<MonkeyV>, i: int) -> Option<Seq<MonkeyV>> {
    if !monkey_round_ok(ms[i]) {
        None
    } else {
        let throws = inspect_throws(ms[i]);
        let emptied = MonkeyV {
            items: Seq::empty(),
            inspections: ((ms[i].inspections + ms[i].items.len()) as usize),
            ..ms[i]
        };
        toss_items(ms.update(i, emptied), throws)
    }
}

/// The turns of monkeys `i` onward, in order.
pub open spec fn turns_spec(ms: Seq<MonkeyV>, i: int) -> Option<Seq<MonkeyV>>
    decreases ms.len() - i,
{
    if i < 0 || i >= ms.len() {
        Some(ms)
    } else {
        match turn_spec(ms, i) {
            Some(ms2) => if ms2.len() == ms.len() {
                turns_spec(ms2, i + 1)
            } else {
                None
            },
            None => None,
        }
    }
}

/// The troop after one full round at the given divisor product: every
/// monkey takes its turn in order, and then every worry level is reduced.
pub open spec fn round_spec(ms: Seq<MonkeyV>, dp: usize) -> Option<Seq<MonkeyV>> {
    if dp == 0 {
        None
    } else {
        match turns_spec(ms, 0) {
            Some(ms2) => Some(reduce_all(ms2, dp)),
            None => None,
        }
    }
}

/// Every monkey's worry levels reduced modulo the divisor product.
pub open spec fn reduce_all(ms: Seq<MonkeyV>, dp: usize) -> Seq<MonkeyV> {
    ms.map(
        |i: int, m: MonkeyV|
            MonkeyV { items: m.items.map(|k: int, it: usize| ((it as int % (dp as int)) as usize)), ..m },
    )
}

/// The troop after `n` full rounds.
pub open spec fn rounds_spec(ms: Seq<MonkeyV>, dp: usize, n: int) -> Option<Seq<MonkeyV>>
    decreases n,
{
    if n <= 0 {
        Some(ms)
    } else {
        match rounds_spec(ms, dp, n - 1) {
            Some(ms2) => round_spec(ms2, dp),
            None => None,
        }
    }
}

/// The product of every monkey's divisibility test, folded left with an
/// overflow check, as the runner computes it.
pub open spec fn divisor_product_fold(ms: Seq<MonkeyV>, i: int, acc: usize) -> Option<usize>
    decreases ms.len() - i,
{
    if i < 0 || i >= ms.len() {
        Some(acc)
    } else {
        let p = (acc as int) * (ms[i].test_divisible as int);
        if p > usize::MAX {
            None
        } else {
            divisor_product_fold(ms, i + 1, (p as usize))
        }
    }
}

impl Monkey {
    /// Whether this monkey can take a turn without leaving machine bounds.
    fn can_inspect(&self) -> (r: bool)
        ensures
            r == monkey_round_ok(self@),
    {
        if self.test_divisible == 0 {
            return false;
        }
        if usize::MAX - self.inspections < self.items.len() {
            return false;
        }
        let mut k: usize = 0;
        while k < self.items.len()
            invariant
                k <= self.items@.len(),
                forall|j: int|
                    0 <= j < k ==> operate_spec(self.operation, #[trigger] self.items@[j])
                        <= usize::MAX,
            decreases self.items@.len() - k,
        {
            let it = self.items[k];
            let ok = match self.operation {
                Operation::Add(l, r2) => l.resolve(it).checked_add(r2.resolve(it)).is_some(),
                Operation::Mul(l, r2) => l.resolve(it).checked_mul(r2.resolve(it)).is_some(),
            };
            if !ok {
                return false;
            }
            k += 1;
        }
        true
    }
}

/// Plays one round: each monkey in order inspects and throws everything it
/// holds, and afterwards every worry level is reduced modulo the divisor
/// product.  Fails exactly when the round is not playable: a zero divisor,
/// a worry level leaving the machine range, or a throw naming no monkey.
pub fn run_round(monkeys: &mut Vec<Monkey>, divisor_product: usize) -> (r: Result<(), SimError>)
    ensures
        final(monkeys)@.len() == old(monkeys)@.len(),
        match round_spec(old(monkeys)@.map(|i: int, m: Monkey| m@), divisor_product) {
            Some(ms2) => r is Ok && final(monkeys)@.map(|i: int, m: Monkey| m@) == ms2,
            None => r is Err,
        },
{
    if divisor_product == 0 {
        return Err(SimError::BadRound);
    }
    let ghost ms0 = monkeys@.map(|i: int, m: Monkey| m@);
    let n = monkeys.len();
    let mut idx: usize = 0;
    while idx < n
        invariant
            idx <= n,
            monkeys@.len() == n,
            divisor_product != 0,
            ms0 == old(monkeys)@.map(|i: int, m: Monkey| m@),
            turns_spec(ms0, 0) == turns_spec(monkeys@.map(|i: int, m: Monkey| m@), idx as int),
            ms0.len() == n,
        decreases n - idx,
    {
        let ghost pre = monkeys@.map(|i: int, m: Monkey| m@);
        if !monkeys[idx].can_inspect() {
            proof {
                assert(pre[idx as int] == monkeys@[idx as int]@);
                assert(turn_spec(pre, idx as int) is None);
                assert(turns_spec(pre, idx as int) is None);
                assert(round_spec(ms0, divisor_product) is None);
            }
            return Err(SimError::BadRound);
        }
        let m = &mut monkeys[idx];
        proof {
            assert((*m)@ == pre[idx as int]);
        }
        let throws = m.inspect();
        proof {
            assert(monkeys@.map(|i: int, m2: Monkey| m2@) =~= pre.update(idx as int, MonkeyV {
                items: Seq::empty(),
                inspections: ((pre[idx as int].inspections + pre[idx as int].items.len()) as usize),
                ..pre[idx as int]
            }));
            assert(throws@ == inspect_throws(pre[idx as int]));
        }
        let ghost after_inspect = monkeys@.map(|i: int, m2: Monkey| m2@);
        proof {
            assert(throws@.skip(0) =~= throws@);
            assert(turn_spec(pre, idx as int) == toss_items(after_inspect, throws@));
        }
        let mut j: usize = 0;
        while j < throws.len()
            invariant
                j <= throws@.len(),
                monkeys@.len() == n,
                ms0.len() == n,
                pre.len() == n,
                idx < n,
                divisor_product != 0,
                ms0 == old(monkeys)@.map(|i: int, m: Monkey| m@),
                turns_spec(ms0, 0) == turns_spec(pre, idx as int),
                turn_spec(pre, idx as int) == toss_items(after_inspect, throws@),
                toss_items(after_inspect, throws@) == toss_items(
                    monkeys@.map(|i: int, m2: Monkey| m2@),
                    throws@.skip(j as int),
                ),
            decreases throws@.len() - j,
        {
            let ghost cur = monkeys@.map(|i: int, m2: Monkey| m2@);
            let (item, to) = throws[j];
            proof {
                assert(throws@.skip(j as int)[0] == (item, to));
                assert(throws@.skip(j as int).skip(1) =~= throws@.skip(j + 1));
            }
            if to >= monkeys.len() {
                proof {
                    assert(toss_items(cur, throws@.skip(j as int)) is None);
                    assert(toss_items(after_inspect, throws@) is None);
                    assert(turn_spec(pre, idx as int) is None);
                    assert(turns_spec(pre, idx as int) is None);
                    assert(round_spec(ms0, divisor_product) is None);
                }
                return Err(SimError::BadRound);
            }
            let catcher = &mut monkeys[to];
            proof {
                assert((*catcher)@ == cur[to as int]);
            }
            catcher.catch(item);
            proof {
                assert(monkeys@.map(|i: int, m2: Monkey| m2@) =~= cur.update(to as int, MonkeyV {
                    items: cur[to as int].items.push(item),
                    ..cur[to as int]
                }));
            }
            j += 1;
        }
        proof {
            assert(throws@.skip(throws@.len() as int) =~= Seq::<(usize, usize)>::empty());
            let nowv = monkeys@.map(|i: int, m2: Monkey| m2@);
            assert(toss_items(after_inspect, throws@) == Some(nowv));
            assert(turn_spec(pre, idx as int) == Some(nowv));
            lemma_toss_len(after_inspect, throws@);
            assert(nowv.len() == n);
            assert(turns_spec(pre, idx as int) == turns_spec(nowv, idx + 1));
        }
        idx += 1;
    }
    let ghost turned = monkeys@.map(|i: int, m: Monkey| m@);
    proof {
        assert(turns_spec(turned, n as int) == Some(turned));
        assert(turns_spec(ms0, 0) == Some(turned));
    }
    let mut idx2: usize = 0;
    while idx2 < n
        invariant
            idx2 <= n,
            monkeys@.len() == n,
            turned.len() == n,
            divisor_product != 0,
            ms0 == old(monkeys)@.map(|i: int, m: Monkey| m@),
            turns_spec(ms0, 0) == Some(turned),
            forall|i: int|
                0 <= i < idx2 ==> monkeys@.map(|q: int, m: Monkey| m@)[i] == #[trigger] reduce_all(
                    turned,
                    divisor_product,
                )[i],
            forall|i: int|
                idx2 <= i < n ==> monkeys@.map(|q: int, m: Monkey| m@)[i] == #[trigger] turned[i],
        decreases n - idx2,
    {
        let ghost cur = monkeys@.map(|q: int, m: Monkey| m@);
        let m = &mut monkeys[idx2];
        proof {
            assert((*m)@ == cur[idx2 as int]);
        }
        m.reduce(divisor_product);
        proof {
            assert(monkeys@.map(|q: int, m2: Monkey| m2@) =~= cur.update(idx2 as int, MonkeyV {
                items: turned[idx2 as int].items.map(
                    |k: int, it: usize| ((it as int % (divisor_product as int)) as usize),
                ),
                ..turned[idx2 as int]
            }));
            assert(monkeys@.map(|q: int, m2: Monkey| m2@)[idx2 as int] == reduce_all(
                turned,
                divisor_product,
            )[idx2 as int]);
        }
        idx2 += 1;
    }
    proof {
        assert(monkeys@.map(|q: int, m: Monkey| m@) =~= reduce_all(turned, divisor_product));
    }
    Ok(())
}

/// Plays the given number of rounds, reducing by the product of every
/// monkey's divisibility test.  Fails exactly when that product leaves the
/// machine range or some round is not playable.
pub fn run_rounds(monkeys: &mut Vec<Monkey>, rounds: usize) -> (r: Result<(), SimError>)
    ensures
        ({
            let ms0 = old(monkeys)@.map(|i: int, m: Monkey| m@);
            match divisor_product_fold(ms0, 0, 1) {
                None => r is Err,
                Some(dp) => match rounds_spec(ms0, dp, rounds as int) {
                    Some(ms2) => r is Ok && final(monkeys)@.map(|i: int, m: Monkey| m@) == ms2,
                    None => r is Err,
                },
            }
        }),
{
    let ghost ms0 = monkeys@.map(|i: int, m: Monkey| m@);
    let mut dp: usize = 1;
    let n = monkeys.len();
    let mut i: usize = 0;
    while i < n
        invariant
            i <= n,
            n == monkeys@.len(),
            ms0 == monkeys@.map(|q: int, m: Monkey| m@),
            ms0 == old(monkeys)@.map(|q: int, m: Monkey| m@),
            ms0.len() == n,
            divisor_product_fold(ms0, 0, 1) == divisor_product_fold(ms0, i as int, dp),
        decreases n - i,
    {
        let d = monkeys[i].test_divisible;
        proof {
            assert(ms0[i as int] == monkeys@[i as int]@);
        }
        let newdp = match dp.checked_mul(d) {
            Some(x) => x,
            None => {
                return Err(SimError::BadRound);
            },
        };
        dp = newdp;
        i += 1;
    }
    let mut round: usize = 0;
    while round < rounds
        invariant
            round <= rounds,
            ms0 == old(monkeys)@.map(|q: int, m: Monkey| m@),
            divisor_product_fold(ms0, 0, 1) == Some(dp),
            rounds_spec(ms0, dp, round as int) == Some(monkeys@.map(|q: int, m: Monkey| m@)),
        decreases rounds - round,
    {
        let ghost cur = monkeys@.map(|q: int, m: Monkey| m@);
        match run_round(monkeys, dp) {
            Ok(_) => {},
            Err(e) => {
                proof {
                    assert(round_spec(cur, dp) is None);
                    assert(rounds_spec(ms0, dp, round + 1) is None);
                    lemma_rounds_none(ms0, dp, round + 1, rounds as int);
                }
                return Err(e);
            },
        }
        proof {
            assert(rounds_spec(ms0, dp, round + 1) == round_spec(cur, dp));
        }
        round += 1;
    }
    Ok(())
}

/// A failed round never becomes playable by playing more rounds.
proof fn lemma_rounds_none(ms: Seq<MonkeyV>, dp: usize, k: int, n: int)
    requires
        0 <= k <= n,
        rounds_spec(ms, dp, k) is None,
    ensures
        rounds_spec(ms, dp, n) is None,
    decreases n - k,
{
    if k < n {
        lemma_rounds_none(ms, dp, k + 1, n);
    }
}

/// Handing out throws keeps the number of monkeys.
proof fn lemma_toss_len(ms: Seq<MonkeyV>, throws: Seq<(usize, usize)>)
    ensures
        match toss_items(ms, throws) {
            Some(ms2) => ms2.len() == ms.len(),
            None => true,
        },
    decreases throws.len(),
{
    if throws.len() > 0 {
        let (item, to) = throws[0];
        if to < ms.len() {
            let caught = MonkeyV { items: ms[to as int].items.push(item), ..ms[to as int] };
            lemma_toss_len(ms.update(to as int, caught), throws.skip(1));
        }
    }
}

/// The product of the two largest inspection counts.
pub open spec fn monkey_business_spec(ms: Seq<MonkeyV>) -> int {
    let s = ms.map(|i: int, m: MonkeyV| m.inspections);
    let m1 = crate::calories::max_val(s);
    let j = choose|j: int| 0 <= j < s.len() && s[j] == m1;
    m1 * crate::calories::max_val(s.remove(j))
}

/// The level of monkey business, when it can be computed: at least two
/// monkeys, and a product that fits the machine.
pub fn monkey_business_checked(monkeys: &Vec<Monkey>) -> (r: Option<usize>)
    ensures
        r == ({
            let mb = monkey_business_spec(monkeys@.map(|i: int, m: Monkey| m@));
            if monkeys@.len() >= 2 && 0 <= mb <= usize::MAX {
                Some((mb as usize))
            } else {
                None::<usize>
            }
        }),
{
    let ghost s = monkeys@.map(|i: int, m: Monkey| m@).map(|i: int, m: MonkeyV| m.inspections);
    let n = monkeys.len();
    if n < 2 {
        return None;
    }
    let mut bi: usize = 0;
    let mut i: usize = 1;
    proof {
        assert(s.len() == n);
        assert forall|k: int| 0 <= k < n implies #[trigger] s[k] == monkeys@[k]@.inspections by {}
    }
    while i < n
        invariant
            bi < i <= n,
            n == monkeys@.len(),
            s == monkeys@.map(|q: int, m: Monkey| m@).map(|q: int, m: MonkeyV| m.inspections),
            s.len() == n,
            forall|k: int| 0 <= k < i ==> #[trigger] s[k] <= s[bi as int],
        decreases n - i,
    {
        proof {
            assert(s[i as int] == monkeys@[i as int]@.inspections);
            assert(s[bi as int] == monkeys@[bi as int]@.inspections);
        }
        if monkeys[i].inspections > monkeys[bi].inspections {
            bi = i;
        }
        i += 1;
    }
    let m1 = monkeys[bi].inspections;
    proof {
        crate::calories::lemma_max_val(s);
        assert(s[bi as int] == m1);
        let q = choose|q: int| 0 <= q < s.len() && s[q] == crate::calories::max_val(s);
        assert(s[q] <= s[bi as int]);
        assert(m1 == crate::calories::max_val(s));
    }
    let mut best2: usize = 0;
    let mut started: bool = false;
    let mut k: usize = 0;
    let ghost s2 = s.remove(bi as int);
    while k < n
        invariant
            k <= n,
            bi < n,
            n == monkeys@.len(),
            s == monkeys@.map(|q: int, m: Monkey| m@).map(|q: int, m: MonkeyV| m.inspections),
            s.len() == n,
            s2 == s.remove(bi as int),
            n >= 2,
            started == (k > 1 || (k == 1 && bi != 0)),
            started ==> exists|j: int| 0 <= j < s2.len() && #[trigger] s2[j] == best2,
            forall|j: int|
                0 <= j < s2.len() && (j < k - 1 || (j < k && k <= bi)) ==> #[trigger] s2[j]
                    <= best2,
            !started ==> best2 == 0,
        decreases n - k,
    {
        proof {
            assert(s[k as int] == monkeys@[k as int]@.inspections);
        }
        if k != bi {
            let v = monkeys[k].inspections;
            proof {
                if (k as int) < bi {
                    assert(s2[k as int] == s[k as int]);
                } else {
                    assert(s2[k as int - 1] == s[k as int]);
                }
            }
            if !started || v > best2 {
                best2 = v;
            }
            started = true;
        }
        k += 1;
    }
    proof {
        crate::calories::lemma_max_val(s2);
        let q = choose|q: int| 0 <= q < s2.len() && s2[q] == crate::calories::max_val(s2);
        assert(s2.len() == n - 1);
        assert(q < k - 1 || (q < k && k <= bi));
        assert(s2[q] <= best2);
        let w = choose|j: int| 0 <= j < s2.len() && s2[j] == best2;
        assert(s2[w] <= crate::calories::max_val(s2));
        assert(best2 == crate::calories::max_val(s2));
        let j0 = choose|j: int| 0 <= j < s.len() && s[j] == crate::calories::max_val(s);
        crate::calories::lemma_remove_same_max(s, j0, bi as int);
    }
    m1.checked_mul(best2)
}

/// The level of monkey business after some rounds: the inspection counts
/// of the two most active monkeys, multiplied.
pub fn calculate_monkey_business(monkeys: &Vec<Monkey>) -> (r: usize)
    requires
        monkeys@.len() >= 2,
        monkey_business_spec(monkeys@.map(|i: int, m: Monkey| m@)) <= usize::MAX,
    ensures
        r == monkey_business_spec(monkeys@.map(|i: int, m: Monkey| m@)),
{
    proof {
        lemma_monkey_business_nonneg(monkeys@.map(|i: int, m: Monkey| m@));
    }
    match monkey_business_checked(monkeys) {
        Some(v) => v,
        None => {
            proof {
                assert(false);
            }
            0
        },
    }
}

/// The product of two inspection counts is never negative.
proof fn lemma_monkey_business_nonneg(ms: Seq<MonkeyV>)
    requires
        ms.len() >= 2,
    ensures
        monkey_business_spec(ms) >= 0,
{
    let s = ms.map(|i: int, m: MonkeyV| m.inspections);
    crate::calories::lemma_max_val(s);
    let j = choose|j: int| 0 <= j < s.len() && s[j] == crate::calories::max_val(s);
    crate::calories::lemma_max_val(s.remove(j));
    let m1 = crate::calories::max_val(s);
    let m2 = crate::calories::max_val(s.remove(j));
    let q = choose|q: int| 0 <= q < s.remove(j).len() && s.remove(j)[q] == m2;
    assert(m1 >= 0 && m2 >= 0);
    assert(m1 * m2 >= 0) by (nonlinear_arith)
        requires
            m1 >= 0,
            m2 >= 0,
    ;
}

} // verus!
