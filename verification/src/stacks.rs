//! Stacks of crates rearranged by `move N from A to B` instructions, with
//! the crate picture parsed from its column drawing.

use vstd::prelude::*;
use vstd::string::StringSliceAdditionalSpecFns;

verus! {

/// Why a stack operation or a parse failed.
#[derive(Copy, Debug, Clone, PartialEq, Eq, Structural)]
pub enum StackError {
    /// A column number names no column.
    InvalidColumn,
    /// A column ran out of crates.
    NotEnoughCrates,
    /// A line is not a move instruction.
    BadInstruction,
    /// The drawing has no lines before the blank separator.
    NoPuzzleLines,
}

/// The crate stacks, bottom first in each column.
#[derive(Debug)]
pub struct Stacks {
    pub columns: Vec<Vec<char>>,
}

impl Stacks {
    /// The columns as sequences of crate letters.
    pub open spec fn cols(&self) -> Seq<Seq<char>> {
        self.columns@.map(|i: int, c: Vec<char>| c@)
    }

    /// `cols` empty columns.
    pub fn new(cols: usize) -> (r: Self)
        ensures
            r.cols().len() == cols,
            forall|i: int| 0 <= i < cols ==> #[trigger] r.cols()[i].len() == 0,
    {
        let mut columns: Vec<Vec<char>> = Vec::new();
        let mut i: usize = 0;
        while i < cols
            invariant
                i <= cols,
                columns@.len() == i,
                forall|k: int| 0 <= k < i ==> #[trigger] columns@[k]@.len() == 0,
            decreases cols - i,
        {
            columns.push(Vec::new());
            i += 1;
        }
        let r = Stacks { columns };
        proof {
            assert forall|i: int| 0 <= i < cols implies #[trigger] r.cols()[i].len() == 0 by {
                assert(r.cols()[i] == r.columns@[i]@);
            }
        }
        r
    }

    /// Puts a crate on top of column `col` (columns are numbered from one).
    pub fn push(&mut self, col: usize, value: char) -> (r: Result<(), StackError>)
        ensures
            1 <= col <= old(self).cols().len() ==> r is Ok && final(self).cols() == old(self).cols().update(
                col - 1,
                old(self).cols()[col - 1].push(value),
            ),
            !(1 <= col <= old(self).cols().len()) ==> r == Err::<(), StackError>(
                StackError::InvalidColumn,
            ) && *final(self) == *old(self),
    {
        if col >= 1 && col - 1 < self.columns.len() {
            let ghost c0 = self.cols();
            let column = &mut self.columns[col - 1];
            column.push(value);
            proof {
                assert(self.cols() =~= c0.update(col - 1, c0[col - 1].push(value)));
            }
            Ok(())
        } else {
            Err(StackError::InvalidColumn)
        }
    }

    /// Takes the top crate off column `col`, if the column exists and has one.
    pub fn pop(&mut self, col: usize) -> (r: Option<char>)
        requires
            col >= 1,
        ensures
            ({
                let c = old(self).cols();
                if col <= c.len() && c[col - 1].len() > 0 {
                    r == Some(c[col - 1].last()) && final(self).cols() == c.update(
                        col - 1,
                        c[col - 1].drop_last(),
                    )
                } else {
                    r is None && final(self).cols() == old(self).cols()
                }
            }),
    {
        if col - 1 < self.columns.len() {
            let ghost c0 = self.cols();
            let column = &mut self.columns[col - 1];
            if column.len() > 0 {
                let v = column.pop();
                proof {
                    assert(self.cols() =~= c0.update(col - 1, c0[col - 1].drop_last()));
                }
                v
            } else {
                proof {
                    assert(self.cols() =~= c0.update(col - 1, c0[col - 1]));
                    assert(c0.update(col - 1, c0[col - 1]) =~= c0);
                }
                None
            }
        } else {
            None
        }
    }

    /// Takes the top `n` crates off column `col`, returning them in their
    /// original bottom-to-top order.  On failure the column keeps what was
    /// not yet popped: a missing column changes nothing, and a short column
    /// is emptied.
    pub fn popn(&mut self, col: usize, n: usize) -> (r: Result<Vec<char>, StackError>)
        requires
            col >= 1,
        ensures
            ({
                let c = old(self).cols();
                if col <= c.len() && n <= c[col - 1].len() {
                    match r {
                        Ok(v) => v@ == c[col - 1].skip(c[col - 1].len() - n) && final(self).cols()
                            == c.update(col - 1, c[col - 1].take(c[col - 1].len() - n)),
                        Err(_) => false,
                    }
                } else if col <= c.len() {
                    r == Err::<Vec<char>, StackError>(StackError::NotEnoughCrates)
                        && final(self).cols() == c.update(col - 1, Seq::empty())
                } else {
                    r == Err::<Vec<char>, StackError>(StackError::NotEnoughCrates)
                        && final(self).cols() == c
                }
            }),
    {
        let ghost c0 = self.cols();
        let mut out: Vec<char> = Vec::new();
        let mut k: usize = 0;
        proof {
            if col <= c0.len() {
                assert(c0[col - 1].take(c0[col - 1].len() as int) =~= c0[col - 1]);
                assert(c0.update(col - 1, c0[col - 1].take(c0[col - 1].len() as int)) =~= c0);
                assert(c0[col - 1].skip(c0[col - 1].len() as int) =~= Seq::<char>::empty());
                assert(c0[col - 1].skip(c0[col - 1].len() as int).reverse() =~= Seq::<
                    char,
                >::empty());
            }
        }
        while k < n
            invariant
                col >= 1,
                k <= n,
                c0 == old(self).cols(),
                col <= c0.len() ==> k <= c0[col - 1].len() && self.cols() == c0.update(
                    col - 1,
                    c0[col - 1].take(c0[col - 1].len() - k),
                ) && out@ =~= c0[col - 1].skip(c0[col - 1].len() - k).reverse(),
                col > c0.len() ==> k == 0 && self.cols() == c0,
            decreases n - k,
        {
            let ghost pre = self.cols();
            let v = match self.pop(col) {
                Some(v) => v,
                None => {
                    proof {
                        if col <= c0.len() {
                            let base = c0[col - 1];
                            assert(pre == c0.update(col - 1, base.take(base.len() - k)));
                            assert(pre[col - 1] == base.take(base.len() - k));
                            assert(pre[col - 1].len() == 0);
                            assert(base.len() == k);
                            assert(n > base.len());
                            assert(base.take(0) =~= Seq::<char>::empty());
                            assert(self.cols() == pre);
                            assert(pre =~= c0.update(col - 1, Seq::empty()));
                        }
                    }
                    return Err(StackError::NotEnoughCrates);
                },
            };
            out.push(v);
            proof {
                if col <= c0.len() {
                    let base = c0[col - 1];
                    assert(pre == c0.update(col - 1, base.take(base.len() - k)));
                    assert(pre[col - 1] == base.take(base.len() - k));
                    assert(pre[col - 1].len() > 0);
                    assert(k < base.len());
                    assert(base.take(base.len() - k).drop_last() =~= base.take(
                        base.len() - (k + 1),
                    ));
                    assert(self.cols() == pre.update(col - 1, pre[col - 1].drop_last()));
                    assert(self.cols() =~= c0.update(col - 1, base.take(base.len() - (k + 1))));
                    assert(base.take(base.len() - k).last() == base[base.len() - k - 1]);
                    assert(out@ =~= base.skip(base.len() - (k + 1)).reverse());
                }
            }
            k += 1;
        }
        if self.columns.len() < col {
            return Err(StackError::NotEnoughCrates);
        }
        let mut rev: Vec<char> = Vec::new();
        let m = out.len();
        let mut j: usize = 0;
        while j < m
            invariant
                j <= m,
                m == out@.len(),
                rev@.len() == j,
                forall|i: int| 0 <= i < j ==> #[trigger] rev@[i] == out@[m - 1 - i],
            decreases m - j,
        {
            rev.push(out[m - 1 - j]);
            j += 1;
        }
        proof {
            let base = c0[col - 1];
            assert(rev@ =~= base.skip(base.len() - n));
        }
        Ok(rev)
    }

    /// Puts the given crates on top of column `col`, in order.
    pub fn pushn(&mut self, col: usize, vals: &Vec<char>) -> (r: Result<(), StackError>)
        requires
            col >= 1,
        ensures
            ({
                let c = old(self).cols();
                if col <= c.len() {
                    r is Ok && final(self).cols() == c.update(col - 1, c[col - 1] + vals@)
                } else {
                    r == Err::<(), StackError>(StackError::InvalidColumn)
                        && final(self).cols() == c
                }
            }),
    {
        if col - 1 < self.columns.len() {
            let ghost c0 = self.cols();
            proof {
                assert(c0[col - 1] + vals@.take(0) =~= c0[col - 1]);
                assert(c0.update(col - 1, c0[col - 1] + vals@.take(0)) =~= c0);
            }
            let mut k: usize = 0;
            while k < vals.len()
                invariant
                    k <= vals@.len(),
                    col >= 1,
                    col <= c0.len(),
                    c0 == old(self).cols(),
                    self.cols().len() == c0.len(),
                    self.cols() == c0.update(col - 1, c0[col - 1] + vals@.take(k as int)),
                decreases vals@.len() - k,
            {
                let v = vals[k];
                let ghost pre = self.cols();
                let column = &mut self.columns[col - 1];
                column.push(v);
                proof {
                    assert(self.cols() =~= pre.update(col - 1, pre[col - 1].push(v)));
                    assert(c0[col - 1] + vals@.take(k + 1) =~= (c0[col - 1] + vals@.take(
                        k as int,
                    )).push(v));
                    assert(self.cols() =~= c0.update(col - 1, c0[col - 1] + vals@.take(k + 1)));
                }
                k += 1;
            }
            proof {
                assert(vals@.take(vals@.len() as int) =~= vals@);
            }
            Ok(())
        } else {
            Err(StackError::InvalidColumn)
        }
    }

    /// Moves `count` crates from one column to another, keeping their order.
    pub fn mv(&mut self, count: usize, from_col: usize, to_col: usize) -> (r: Result<
        (),
        StackError,
    >)
        requires
            from_col >= 1,
            to_col >= 1,
        ensures
            ({
                let c = old(self).cols();
                if from_col <= c.len() && count <= c[from_col - 1].len() {
                    let lifted = c[from_col - 1].skip(c[from_col - 1].len() - count);
                    let mid = c.update(from_col - 1, c[from_col - 1].take(
                        c[from_col - 1].len() - count,
                    ));
                    if to_col <= c.len() {
                        r is Ok && final(self).cols() == mid.update(
                            to_col - 1,
                            mid[to_col - 1] + lifted,
                        )
                    } else {
                        r is Err && final(self).cols() == mid
                    }
                } else {
                    r is Err
                }
            }),
    {
        let vals = match self.popn(from_col, count) {
            Ok(v) => v,
            Err(e) => {
                return Err(e);
            },
        };
        match self.pushn(to_col, &vals) {
            Ok(_) => Ok(()),
            Err(e) => Err(e),
        }
    }

    /// The top crate of each column, in column order.
    pub fn list_tops(&self) -> (r: Vec<Option<char>>)
        ensures
            r@.len() == self.cols().len(),
            forall|i: int|
                0 <= i < r@.len() ==> #[trigger] r@[i] == if self.cols()[i].len() > 0 {
                    Some(self.cols()[i].last())
                } else {
                    None::<char>
                },
    {
        let mut r: Vec<Option<char>> = Vec::new();
        let mut i: usize = 0;
        while i < self.columns.len()
            invariant
                i <= self.cols().len(),
                r@.len() == i,
                forall|k: int|
                    0 <= k < i ==> #[trigger] r@[k] == if self.cols()[k].len() > 0 {
                        Some(self.cols()[k].last())
                    } else {
                        None::<char>
                    },
            decreases self.cols().len() - i,
        {
            let column = &self.columns[i];
            if column.len() > 0 {
                r.push(Some(column[column.len() - 1]));
            } else {
                r.push(None);
            }
            i += 1;
        }
        r
    }

    /// The top crate of the column at index `col` (zero-based here).
    pub fn top(&self, col: usize) -> (r: Option<char>)
        ensures
            r == if col < self.cols().len() && self.cols()[col as int].len() > 0 {
                Some(self.cols()[col as int].last())
            } else {
                None::<char>
            },
    {
        if col < self.columns.len() {
            let column = &self.columns[col];
            if column.len() > 0 {
                Some(column[column.len() - 1])
            } else {
                None
            }
        } else {
            None
        }
    }
}

/// The starting byte positions of the maximal digit runs in `s` from `i`
/// on; `prev_digit` says whether a digit stands just before `i`.
pub open spec fn run_starts(s: Seq<u8>, i: int, prev_digit: bool) -> Seq<int>
    decreases s.len() - i,
{
    if i < 0 || i >= s.len() {
        Seq::empty()
    } else if crate::text::is_digit(s[i]) && !prev_digit {
        seq![i] + run_starts(s, i + 1, true)
    } else {
        run_starts(s, i + 1, crate::text::is_digit(s[i]))
    }
}

/// Where the column labels of the drawing sit: the byte position of each
/// digit run in the label line.
pub struct InputColumns {
    pub positions: Vec<usize>,
}

impl InputColumns {
    /// The number of columns.
    pub fn len(&self) -> (r: usize)
        ensures
            r == self.positions@.len(),
    {
        self.positions.len()
    }

    /// Reads the label line: one column per digit run.
    pub fn from_str(s: &Vec<u8>) -> (r: InputColumns)
        ensures
            r.positions@.map(|i: int, p: usize| p as int) == run_starts(s@, 0, false),
    {
        let mut positions: Vec<usize> = Vec::new();
        let mut i: usize = 0;
        let mut prev: bool = false;
        while i < s.len()
            invariant
                i <= s@.len(),
                run_starts(s@, 0, false) == positions@.map(|k: int, p: usize| p as int)
                    + run_starts(s@, i as int, prev),
            decreases s@.len() - i,
        {
            let ghost p0 = positions@.map(|k: int, p: usize| p as int);
            let b = s[i];
            let d = 48 <= b && b <= 57;
            if d && !prev {
                positions.push(i);
                proof {
                    assert(positions@.map(|k: int, p: usize| p as int) =~= p0 + seq![i as int]);
                    assert((p0 + seq![i as int]) + run_starts(s@, i + 1, true) =~= p0 + (seq![
                        i as int,
                    ] + run_starts(s@, i + 1, true)));
                }
            }
            prev = d;
            i += 1;
        }
        proof {
            assert(positions@.map(|k: int, p: usize| p as int) + run_starts(s@, i as int, prev)
                =~= positions@.map(|k: int, p: usize| p as int));
        }
        InputColumns { positions }
    }

    /// The crates one drawing line places: for each column whose label
    /// position holds a letter in the line, that column number and letter.
    pub fn parse_stack_line(&self, line: &Vec<u8>) -> (r: Vec<(usize, char)>)
        ensures
            r@ == stack_line_spec(self.positions@, line@, self.positions@.len() as int),
    {
        let mut r: Vec<(usize, char)> = Vec::new();
        let mut i: usize = 0;
        proof {
            assert(stack_line_spec(self.positions@, line@, 0) =~= Seq::<(usize, char)>::empty());
        }
        while i < self.positions.len()
            invariant
                i <= self.positions@.len(),
                r@ == stack_line_spec(self.positions@, line@, i as int),
            decreases self.positions@.len() - i,
        {
            let ghost r0 = r@;
            let start = self.positions[i];
            if start < line.len() {
                let b = line[start];
                if (65 <= b && b <= 90) || (97 <= b && b <= 122) {
                    r.push((i + 1, b as char));
                    proof {
                        assert(r@ =~= r0.push((((i + 1) as usize), (line@[start as int] as char))));
                    }
                }
            }
            proof {
                assert(stack_line_spec(self.positions@, line@, i + 1) =~= r@);
            }
            i += 1;
        }
        r
    }
}

/// The crates placed by one line, considering the first `n` columns.
pub open spec fn stack_line_spec(pos: Seq<usize>, line: Seq<u8>, n: int) -> Seq<(usize, char)>
    decreases n,
{
    if n <= 0 {
        Seq::empty()
    } else {
        let prev = stack_line_spec(pos, line, n - 1);
        let p = pos[n - 1] as int;
        if p < line.len() && ((65 <= line[p] <= 90) || (97 <= line[p] <= 122)) {
            prev.push(((n as usize), (line[p] as char)))
        } else {
            prev
        }
    }
}

/// One rearrangement instruction.
#[derive(Debug, Clone, Copy, PartialEq, Eq, Structural)]
pub struct Move {
    pub count: usize,
    pub from_col: usize,
    pub to_col: usize,
}

/// The three numbers of a move instruction written at position `i`:
/// `move `, a number, ` from `, a number, ` to `, a number.
pub open spec fn match_move(s: Seq<u8>, i: int) -> Option<(int, int, int)> {
    if i + 5 <= s.len() && s[i] == 109 && s[i + 1] == 111 && s[i + 2] == 118 && s[i + 3] == 101
        && s[i + 4] == 32 {
        let a1 = i + 5;
        let e1 = crate::text::digit_run_end(s, a1);
        if e1 > a1 && e1 + 6 <= s.len() && s[e1] == 32 && s[e1 + 1] == 102 && s[e1 + 2] == 114
            && s[e1 + 3] == 111 && s[e1 + 4] == 109 && s[e1 + 5] == 32 {
            let a2 = e1 + 6;
            let e2 = crate::text::digit_run_end(s, a2);
            if e2 > a2 && e2 + 4 <= s.len() && s[e2] == 32 && s[e2 + 1] == 116 && s[e2 + 2] == 111
                && s[e2 + 3] == 32 {
                let a3 = e2 + 4;
                let e3 = crate::text::digit_run_end(s, a3);
                if e3 > a3 {
                    Some(
                        (
                            crate::text::dec_val(s.subrange(a1, e1)),
                            crate::text::dec_val(s.subrange(a2, e2)),
                            crate::text::dec_val(s.subrange(a3, e3)),
                        ),
                    )
                } else {
                    None
                }
            } else {
                None
            }
        } else {
            None
        }
    } else {
        None
    }
}

/// The first position at or after `i` where a move instruction is written,
/// with its numbers.
pub open spec fn first_move(s: Seq<u8>, i: int) -> Option<(int, int, int)>
    decreases s.len() - i,
{
    if i < 0 || i >= s.len() {
        None
    } else {
        match match_move(s, i) {
            Some(v) => Some(v),
            None => first_move(s, i + 1),
        }
    }
}

impl Move {
    /// Reads the first move instruction written anywhere in the line;
    /// `BadInstruction` when the line holds none.
    pub fn from_str(line: &str) -> (r: Result<Move, StackError>)
        ensures
            ({
                let s = line.spec_bytes();
                match first_move(s, 0) {
                    Some((c, f, t)) => if c <= usize::MAX && f <= usize::MAX && t <= usize::MAX {
                        r == Ok::<Move, StackError>(
                            Move {
                                count: c as usize,
                                from_col: f as usize,
                                to_col: t as usize,
                            },
                        )
                    } else {
                        r == Err::<Move, StackError>(StackError::BadInstruction)
                    },
                    None => r == Err::<Move, StackError>(StackError::BadInstruction),
                }
            }),
    {
        let v = line.as_bytes_vec();
        match move_from_bytes(&v) {
            Some(m) => Ok(m),
            None => Err(StackError::BadInstruction),
        }
    }
}

/// The stacks drawn by the puzzle lines before the blank separator: the
/// last such line labels the columns, and each line above it places at most
/// one crate per column.
pub open spec fn column_content(p: int, rows: Seq<Seq<u8>>) -> Seq<char>
    decreases rows.len(),
{
    if rows.len() == 0 {
        Seq::empty()
    } else {
        let prev = column_content(p, rows.drop_last());
        let row = rows.last();
        if 0 <= p < row.len() && ((65 <= row[p] <= 90) || (97 <= row[p] <= 122)) {
            prev.push((row[p] as char))
        } else {
            prev
        }
    }
}

/// Builds the stacks from the drawing: `lines` are the trimmed lines before
/// the blank separator, the last being the column labels.
pub fn parse_stacks(lines: &Vec<Vec<u8>>) -> (r: Result<Stacks, StackError>)
    ensures
        ({
            let lv = lines@.map(|i: int, l: Vec<u8>| l@);
            if lv.len() == 0 {
                r == Err::<Stacks, StackError>(StackError::NoPuzzleLines)
            } else {
                let pos = run_starts(lv.last(), 0, false);
                match r {
                    Ok(st) => {
                        &&& st.cols().len() == pos.len()
                        &&& forall|j: int|
                            0 <= j < pos.len() ==> #[trigger] st.cols()[j] == column_content(
                                pos[j],
                                lv.drop_last().reverse(),
                            )
                    },
                    Err(_) => false,
                }
            }
        }),
{
    let ghost lv = lines@.map(|i: int, l: Vec<u8>| l@);
    if lines.len() == 0 {
        return Err(StackError::NoPuzzleLines);
    }
    let column_line = &lines[lines.len() - 1];
    let input_columns = InputColumns::from_str(column_line);
    let ghost pos = run_starts(lv.last(), 0, false);
    proof {
        assert(column_line@ == lv.last());
    }
    let ncols = input_columns.len();
    let mut stacks = Stacks::new(ncols);
    let ghost rows = lv.drop_last().reverse();
    proof {
        assert forall|j: int| 0 <= j < pos.len() implies #[trigger] stacks.cols()[j]
            == column_content(pos[j], rows.take(0)) by {
            assert(rows.take(0) =~= Seq::<Seq<u8>>::empty());
        }
    }
    let mut t: usize = 0;
    let nrows = lines.len() - 1;
    while t < nrows
        invariant
            t <= nrows,
            nrows == lv.len() - 1,
            lv == lines@.map(|i: int, l: Vec<u8>| l@),
            rows == lv.drop_last().reverse(),
            rows.len() == nrows,
            pos == run_starts(lv.last(), 0, false),
            input_columns.positions@.len() == pos.len(),
            forall|j: int|
                0 <= j < pos.len() ==> #[trigger] input_columns.positions@[j] as int == pos[j],
            stacks.cols().len() == pos.len(),
            forall|j: int|
                0 <= j < pos.len() ==> #[trigger] stacks.cols()[j] == column_content(
                    pos[j],
                    rows.take(t as int),
                ),
        decreases nrows - t,
    {
        let line = &lines[nrows - 1 - t];
        proof {
            assert(rows[t as int] == lv.drop_last()[lv.drop_last().len() - 1 - t]);
            assert(lv.drop_last()[nrows - 1 - t] == lv[nrows - 1 - t]);
            assert(rows.take(t + 1).drop_last() =~= rows.take(t as int));
            assert(rows.take(t + 1).last() == rows[t as int]);
        }
        let mut j: usize = 0;
        while j < input_columns.positions.len()
            invariant
                j <= pos.len(),
                line@ == rows[t as int],
                t < rows.len(),
                rows.take(t + 1).drop_last() =~= rows.take(t as int),
                rows.take(t + 1).last() == rows[t as int],
                input_columns.positions@.len() == pos.len(),
                forall|jj: int|
                    0 <= jj < pos.len() ==> #[trigger] input_columns.positions@[jj] as int
                        == pos[jj],
                stacks.cols().len() == pos.len(),
                forall|jj: int|
                    0 <= jj < j ==> #[trigger] stacks.cols()[jj] == column_content(
                        pos[jj],
                        rows.take(t + 1),
                    ),
                forall|jj: int|
                    j <= jj < pos.len() ==> #[trigger] stacks.cols()[jj] == column_content(
                        pos[jj],
                        rows.take(t as int),
                    ),
            decreases pos.len() - j,
        {
            let p = input_columns.positions[j];
            let ghost pre = stacks.cols();
            if p < line.len() {
                let b = line[p];
                if (65 <= b && b <= 90) || (97 <= b && b <= 122) {
                    let res = stacks.push(j + 1, b as char);
                    proof {
                        assert(res is Ok);
                        assert(stacks.cols() == pre.update(j as int, pre[j as int].push(
                            (b as char),
                        )));
                    }
                }
            }
            proof {
                assert(stacks.cols()[j as int] == column_content(pos[j as int], rows.take(t + 1)));
                assert forall|jj: int| 0 <= jj < pos.len() && jj != j implies #[trigger] stacks.cols()[jj]
                    == pre[jj] by {}
            }
            j += 1;
        }
        t += 1;
    }
    proof {
        assert(rows.take(rows.len() as int) =~= rows);
    }
    Ok(stacks)
}

/// The moves of the instruction lines, one per line.
pub open spec fn parse_moves_spec(lines: Seq<Seq<u8>>) -> Option<Seq<Move>>
    decreases lines.len(),
{
    if lines.len() == 0 {
        Some(Seq::empty())
    } else {
        match parse_moves_spec(lines.drop_last()) {
            Some(ms) => match first_move(lines.last(), 0) {
                Some((c, f, t)) => if c <= usize::MAX && f <= usize::MAX && t <= usize::MAX {
                    Some(
                        ms.push(
                            Move {
                                count: c as usize,
                                from_col: f as usize,
                                to_col: t as usize,
                            },
                        ),
                    )
                } else {
                    None
                },
                None => None,
            },
            None => None,
        }
    }
}

/// Reads one move per line; `None` exactly when some line holds no move
/// instruction that fits.
pub fn parse_move_instructions(lines: &Vec<Vec<u8>>) -> (r: Option<Vec<Move>>)
    ensures
        ({
            let lv = lines@.map(|i: int, l: Vec<u8>| l@);
            match r {
                Some(ms) => parse_moves_spec(lv) == Some(ms@),
                None => parse_moves_spec(lv) is None,
            }
        }),
{
    let ghost lv = lines@.map(|i: int, l: Vec<u8>| l@);
    let mut ms: Vec<Move> = Vec::new();
    let mut i: usize = 0;
    proof {
        assert(lv.take(0) =~= Seq::<Seq<u8>>::empty());
    }
    while i < lines.len()
        invariant
            i <= lv.len(),
            lv == lines@.map(|k: int, l: Vec<u8>| l@),
            parse_moves_spec(lv.take(i as int)) == Some(ms@),
        decreases lv.len() - i,
    {
        let line = &lines[i];
        let m = match move_from_bytes(line) {
            Some(m) => m,
            None => {
                proof {
                    lemma_parse_moves_none(lv, i as int);
                    assert(lv.take(lv.len() as int) =~= lv);
                }
                return None;
            },
        };
        ms.push(m);
        proof {
            assert(lv.take(i + 1).drop_last() =~= lv.take(i as int));
            assert(lv.take(i + 1).last() == lv[i as int]);
        }
        i += 1;
    }
    proof {
        assert(lv.take(lv.len() as int) =~= lv);
    }
    Some(ms)
}

/// A line with no move instruction spoils the whole list.
proof fn lemma_parse_moves_none(lines: Seq<Seq<u8>>, i: int)
    requires
        0 <= i < lines.len(),
        match first_move(lines[i], 0) {
            Some((c, f, t)) => c > usize::MAX || f > usize::MAX || t > usize::MAX,
            None => true,
        },
    ensures
        parse_moves_spec(lines.take(lines.len() as int)) is None,
    decreases lines.len(),
{
    assert(lines.take(lines.len() as int) =~= lines);
    if i < lines.len() - 1 {
        lemma_parse_moves_none(lines.drop_last(), i);
        assert(lines.drop_last().take(lines.drop_last().len() as int) =~= lines.drop_last());
        assert(lines.drop_last()[i] == lines[i]);
    }
}

/// Reads the first move instruction of a line of bytes.
fn move_from_bytes(line: &Vec<u8>) -> (r: Option<Move>)
    ensures
        ({
            match first_move(line@, 0) {
                Some((c, f, t)) => if c <= usize::MAX && f <= usize::MAX && t <= usize::MAX {
                    r == Some(
                        Move { count: c as usize, from_col: f as usize, to_col: t as usize },
                    )
                } else {
                    r is None
                },
                None => r is None,
            }
        }),
{
    let n = line.len();
    let v = line;
    let mut i: usize = 0;
    while i < n
        invariant
            i <= n,
            n == v@.len(),
            v@ == line@,
            first_move(v@, 0) == first_move(v@, i as int),
        decreases n - i,
    {
        if i < n && n - i >= 5 && v[i] == 109 && v[i + 1] == 111 && v[i + 2] == 118 && v[i + 3] == 101
            && v[i + 4] == 32 {
            let a1 = i + 5;
            let e1 = crate::text::digits_end(v, a1);
            if e1 > a1 && n - e1 >= 6 && v[e1] == 32 && v[e1 + 1] == 102 && v[e1 + 2] == 114
                && v[e1 + 3] == 111 && v[e1 + 4] == 109 && v[e1 + 5] == 32 {
                let a2 = e1 + 6;
                let e2 = crate::text::digits_end(v, a2);
                if e2 > a2 && n - e2 >= 4 && v[e2] == 32 && v[e2 + 1] == 116 && v[e2 + 2] == 111
                    && v[e2 + 3] == 32 {
                    let a3 = e2 + 4;
                    let e3 = crate::text::digits_end(v, a3);
                    if e3 > a3 {
                        proof {
                            assert(match_move(v@, i as int) == Some((
                                crate::text::dec_val(v@.subrange(a1 as int, e1 as int)),
                                crate::text::dec_val(v@.subrange(a2 as int, e2 as int)),
                                crate::text::dec_val(v@.subrange(a3 as int, e3 as int)),
                            )));
                            assert(first_move(v@, i as int) == match_move(v@, i as int));
                        }
                        let c = match crate::text::take_number(v, a1) {
                            Some((val, _)) => val,
                            None => {
                                proof {
                                    assert(crate::text::dec_val(
                                        v@.subrange(a1 as int, e1 as int),
                                    ) > usize::MAX);
                                }
                                return None;
                            },
                        };
                        let f = match crate::text::take_number(v, a2) {
                            Some((val, _)) => val,
                            None => {
                                proof {
                                    assert(crate::text::dec_val(
                                        v@.subrange(a2 as int, e2 as int),
                                    ) > usize::MAX);
                                }
                                return None;
                            },
                        };
                        let t = match crate::text::take_number(v, a3) {
                            Some((val, _)) => val,
                            None => {
                                proof {
                                    assert(crate::text::dec_val(
                                        v@.subrange(a3 as int, e3 as int),
                                    ) > usize::MAX);
                                }
                                return None;
                            },
                        };
                        return Some(Move { count: c, from_col: f, to_col: t });
                    }
                }
            }
        }
        proof {
            assert(match_move(v@, i as int) is None);
        }
        i += 1;
    }
    None
}

/// The drawing part and instruction part of the whole input: the drawing's
/// trimmed lines run up to the first blank line, the instructions follow it.
pub fn parse_input(s: &str) -> (r: Result<(Stacks, Vec<Move>), StackError>)
    ensures
        ({
            let lines = crate::text::split_lines_spec(s.spec_bytes());
            let cut = blank_cut(lines, 0);
            let drawing = lines.take(cut).map(|i: int, l: Seq<u8>| crate::text::trim_end_spec(l));
            let rest = if cut < lines.len() {
                lines.skip(cut + 1)
            } else {
                lines.skip(cut)
            };
            match r {
                Ok((st, ms)) => {
                    &&& drawing.len() > 0
                    &&& st.cols().len() == run_starts(drawing.last(), 0, false).len()
                    &&& forall|j: int|
                        0 <= j < st.cols().len() ==> #[trigger] st.cols()[j] == column_content(
                            run_starts(drawing.last(), 0, false)[j],
                            drawing.drop_last().reverse(),
                        )
                    &&& parse_moves_spec(rest) == Some(ms@)
                },
                Err(e) => if drawing.len() == 0 {
                    e == StackError::NoPuzzleLines
                } else {
                    e == StackError::BadInstruction && parse_moves_spec(rest) is None
                },
            }
        }),
{
    let lines = crate::text::split_lines(s);
    let ghost lv = lines@.map(|i: int, l: Vec<u8>| l@);
    let mut drawing: Vec<Vec<u8>> = Vec::new();
    let mut i: usize = 0;
    proof {
        assert(lv.take(0).map(|k: int, l: Seq<u8>| crate::text::trim_end_spec(l)) =~= Seq::<Seq<u8>>::empty());
        assert(drawing@.map(|k: int, l: Vec<u8>| l@) =~= Seq::<Seq<u8>>::empty());
    }
    proof {
        lemma_blank_cut_lb(lv, 0);
    }
    while i < lines.len() && !is_blank(&lines[i])
        invariant
            i <= lv.len(),
            lv == lines@.map(|k: int, l: Vec<u8>| l@),
            lv == crate::text::split_lines_spec(s.spec_bytes()),
            forall|k: int| 0 <= k < i ==> crate::text::trim_end_spec(#[trigger] lv[k]).len() > 0,
            blank_cut(lv, 0) >= i,
            drawing@.map(|k: int, l: Vec<u8>| l@) =~= lv.take(i as int).map(
                |k: int, l: Seq<u8>| crate::text::trim_end_spec(l),
            ),
        decreases lv.len() - i,
    {
        let ghost d0 = drawing@.map(|k: int, l: Vec<u8>| l@);
        let t = crate::text::trim_end_line(&lines[i]);
        drawing.push(t);
        proof {
            assert(drawing@.map(|k: int, l: Vec<u8>| l@) =~= d0.push(crate::text::trim_end_spec(lv[i as int])));
            assert(lv.take(i + 1).map(|k: int, l: Seq<u8>| crate::text::trim_end_spec(l)) =~= lv.take(
                i as int,
            ).map(|k: int, l: Seq<u8>| crate::text::trim_end_spec(l)).push(crate::text::trim_end_spec(lv[i as int])));
            lemma_blank_cut_step(lv, i as int);
        }
        i += 1;
    }
    proof {
        lemma_blank_cut_exact(lv, i as int);
        assert(lv.take(blank_cut(lv, 0)) =~= lv.take(i as int));
    }
    let st = match parse_stacks(&drawing) {
        Ok(st) => st,
        Err(e) => {
            return Err(e);
        },
    };
    let mut rest: Vec<Vec<u8>> = Vec::new();
    let start = if i < lines.len() {
        i + 1
    } else {
        i
    };
    let mut k: usize = start;
    proof {
        assert(rest@.map(|q: int, l: Vec<u8>| l@) =~= lv.skip(start as int).take(0));
    }
    while k < lines.len()
        invariant
            start <= k <= lv.len(),
            lv == lines@.map(|q: int, l: Vec<u8>| l@),
            rest@.map(|q: int, l: Vec<u8>| l@) =~= lv.skip(start as int).take(k - start),
        decreases lv.len() - k,
    {
        let ghost r0 = rest@.map(|q: int, l: Vec<u8>| l@);
        let mut one: Vec<u8> = Vec::new();
        let line = &lines[k];
        let mut b: usize = 0;
        while b < line.len()
            invariant
                b <= line@.len(),
                one@ =~= line@.take(b as int),
            decreases line@.len() - b,
        {
            one.push(line[b]);
            proof {
                assert(line@.take(b + 1) =~= line@.take(b as int).push(line@[b as int]));
            }
            b += 1;
        }
        proof {
            assert(line@.take(line@.len() as int) =~= line@);
        }
        rest.push(one);
        proof {
            assert(rest@.map(|q: int, l: Vec<u8>| l@) =~= r0.push(lv[k as int]));
            assert(lv.skip(start as int).take(k + 1 - start) =~= lv.skip(start as int).take(
                k - start,
            ).push(lv[k as int]));
        }
        k += 1;
    }
    proof {
        assert(lv.skip(start as int).take(lv.len() - start) =~= lv.skip(start as int));
    }
    let ms = match parse_move_instructions(&rest) {
        Some(ms) => ms,
        None => {
            return Err(StackError::BadInstruction);
        },
    };
    Ok((st, ms))
}


/// The index of the first line that is blank once trimmed, or the line count.
pub open spec fn blank_cut(lines: Seq<Seq<u8>>, i: int) -> int
    decreases lines.len() - i,
{
    if i < 0 || i >= lines.len() {
        i
    } else if crate::text::trim_end_spec(lines[i]).len() == 0 {
        i
    } else {
        blank_cut(lines, i + 1)
    }
}

/// The cut never lies before its starting point.
proof fn lemma_blank_cut_lb(lines: Seq<Seq<u8>>, i: int)
    requires
        0 <= i <= lines.len(),
    ensures
        i <= blank_cut(lines, i) <= lines.len(),
    decreases lines.len() - i,
{
    if i < lines.len() && crate::text::trim_end_spec(lines[i]).len() > 0 {
        lemma_blank_cut_lb(lines, i + 1);
    }
}

/// A non-blank line moves the cut past it.
proof fn lemma_blank_cut_step(lines: Seq<Seq<u8>>, i: int)
    requires
        0 <= i < lines.len(),
        blank_cut(lines, 0) >= i,
        crate::text::trim_end_spec(lines[i]).len() > 0,
    ensures
        blank_cut(lines, 0) >= i + 1,
{
    lemma_blank_cut_pass(lines, 0, i);
}

/// When the cut has reached a non-blank line, it moves past it.
proof fn lemma_blank_cut_pass(lines: Seq<Seq<u8>>, j: int, i: int)
    requires
        0 <= j <= i < lines.len(),
        blank_cut(lines, j) >= i,
        crate::text::trim_end_spec(lines[i]).len() > 0,
    ensures
        blank_cut(lines, j) >= i + 1,
    decreases i - j,
{
    lemma_blank_cut_lb(lines, j);
    if j < lines.len() && crate::text::trim_end_spec(lines[j]).len() > 0 {
        if j < i {
            lemma_blank_cut_pass(lines, j + 1, i);
        } else {
            lemma_blank_cut_lb(lines, j + 1);
        }
    }
}

/// When the scan stops, the cut is exactly there.
proof fn lemma_blank_cut_exact(lines: Seq<Seq<u8>>, i: int)
    requires
        0 <= i <= lines.len(),
        forall|k: int| 0 <= k < i ==> crate::text::trim_end_spec(#[trigger] lines[k]).len() > 0,
        i < lines.len() ==> crate::text::trim_end_spec(lines[i]).len() == 0,
    ensures
        blank_cut(lines, 0) == i,
{
    lemma_blank_cut_ge(lines, 0, i);
    lemma_blank_cut_ub(lines, 0, i);
}

/// The cut is at least `j` when no line before `j` is blank.
proof fn lemma_blank_cut_ge(lines: Seq<Seq<u8>>, i: int, j: int)
    requires
        0 <= i <= j <= lines.len(),
        forall|k: int| i <= k < j ==> crate::text::trim_end_spec(#[trigger] lines[k]).len() > 0,
    ensures
        blank_cut(lines, i) >= j,
    decreases j - i,
{
    if i < j {
        lemma_blank_cut_ge(lines, i + 1, j);
    } else {
        lemma_blank_cut_lb(lines, i);
    }
}

/// The cut never passes a blank line.
proof fn lemma_blank_cut_ub(lines: Seq<Seq<u8>>, j: int, i: int)
    requires
        0 <= j <= i <= lines.len(),
        i < lines.len() ==> crate::text::trim_end_spec(lines[i]).len() == 0,
    ensures
        blank_cut(lines, j) <= i,
    decreases i - j,
{
    if j < i {
        lemma_blank_cut_ub(lines, j + 1, i);
    }
}

/// Whether a line is blank once its trailing whitespace is removed.
fn is_blank(line: &Vec<u8>) -> (r: bool)
    ensures
        r == (crate::text::trim_end_spec(line@).len() == 0),
{
    proof {
        crate::text::lemma_ws_suffix_start(line@);
    }
    let mut e: usize = line.len();
    while e > 0 && crate::text::is_ws_byte(line[e - 1])
        invariant
            e <= line@.len(),
            forall|k: int| e <= k < line@.len() ==> crate::text::is_ws(#[trigger] line@[k]),
            crate::text::ws_suffix_start(line@) <= e,
        decreases e,
    {
        proof {
            crate::text::lemma_ws_suffix_start_step(line@, e as int);
        }
        e -= 1;
    }
    proof {
        crate::text::lemma_ws_suffix_start(line@);
        if e > 0 && crate::text::ws_suffix_start(line@) < e {
            assert(crate::text::is_ws(line@[e - 1]));
        }
    }
    e == 0
}

/// The top crates of all columns, one glyph each: the crate letter, or a
/// question mark for an empty column.
pub fn format_tops(tops: &[Option<char>]) -> (r: Vec<char>)
    ensures
        r@.len() == tops@.len(),
        forall|i: int|
            0 <= i < tops@.len() ==> #[trigger] r@[i] == match tops@[i] {
                Some(c) => c,
                None => '?',
            },
{
    let mut r: Vec<char> = Vec::new();
    let mut i: usize = 0;
    while i < tops.len()
        invariant
            i <= tops@.len(),
            r@.len() == i,
            forall|k: int|
                0 <= k < i ==> #[trigger] r@[k] == match tops@[k] {
                    Some(c) => c,
                    None => '?',
                },
        decreases tops@.len() - i,
    {
        match tops[i] {
            Some(c) => r.push(c),
            None => r.push('?'),
        }
        i += 1;
    }
    r
}

} // verus!
