//! A two-instruction register machine with a cycle-stamped state history,
//! and the signal strength it yields at chosen cycles.

use vstd::prelude::*;
use vstd::string::StringSliceAdditionalSpecFns;

verus! {

/// The machine: one register.
#[derive(PartialEq, Eq, Clone, Copy, Structural, Debug)]
pub struct Machine {
    pub x: isize,
}

/// One instruction: do nothing for a cycle, or add to the register over two.
#[derive(PartialEq, Eq, Clone, Copy, Structural, Debug)]
pub enum Op {
    Noop,
    Addx(isize),
}

/// The register value after applying one instruction.
pub open spec fn apply_op(x: int, op: Op) -> int {
    match op {
        Op::Noop => x,
        Op::Addx(n) => x + n,
    }
}

/// The register value after the first `i` instructions, starting from `x0`.
pub open spec fn x_trace(x0: int, ops: Seq<Op>, i: int) -> int
    decreases i,
{
    if i <= 0 {
        x0
    } else {
        apply_op(x_trace(x0, ops, i - 1), ops[i - 1])
    }
}

/// The number of cycles an instruction takes.
pub open spec fn op_cycles(op: Op) -> int {
    match op {
        Op::Noop => 1,
        Op::Addx(_) => 2,
    }
}

/// The number of cycles the first `i` instructions take together.
pub open spec fn cycle_trace(ops: Seq<Op>, i: int) -> int
    decreases i,
{
    if i <= 0 {
        0
    } else {
        cycle_trace(ops, i - 1) + op_cycles(ops[i - 1])
    }
}

impl Machine {
    /// A fresh machine with the register at one.
    pub fn new() -> (r: Self)
        ensures
            r.x == 1,
    {
        Self { x: 1 }
    }

    /// Applies one instruction to the register.
    pub fn execute(&mut self, op: &Op)
        requires
            isize::MIN <= apply_op(old(self).x as int, *op) <= isize::MAX,
        ensures
            final(self).x == apply_op(old(self).x as int, *op),
    {
        match op {
            Op::Noop => (),
            Op::Addx(n) => {
                self.x = self.x + *n;
            },
        }
    }
}

/// Why a program text was rejected.
#[derive(Debug, Clone, Copy, PartialEq, Eq, Structural)]
pub enum OpError {
    /// The line at this position (counting from zero) is no instruction.
    BadInstruction(usize),
}

/// One history entry: the state before an instruction ran, the instruction,
/// and how many cycles had elapsed when it started.
#[derive(Debug, Clone, Copy, PartialEq, Eq, Structural)]
pub struct ProgramHistory {
    pub initial_state: Machine,
    pub op: Op,
    pub elapsed_cycles: usize,
}

/// A machine together with the history of every instruction it ran.
pub struct Program {
    pub machine: Machine,
    pub history: Vec<ProgramHistory>,
}

impl Op {
    /// The number of cycles this instruction takes.
    pub fn cycles(&self) -> (r: usize)
        ensures
            r == op_cycles(*self),
    {
        match self {
            Self::Noop => 1,
            Self::Addx(_) => 2,
        }
    }
}

/// The instruction one trimmed line denotes: `noop`, or `addx` and a signed
/// number, as whitespace-separated tokens.
pub open spec fn parse_op_spec(t: Seq<u8>) -> Option<Op> {
    let e0 = crate::text::token_end(t, 0);
    let tok0 = t.subrange(0, e0);
    let a1 = crate::text::ws_run_end(t, e0);
    if a1 == t.len() {
        if tok0 == seq![110u8, 111u8, 111u8, 112u8] {
            Some(Op::Noop)
        } else {
            None
        }
    } else {
        let e1 = crate::text::token_end(t, a1);
        let tok1 = t.subrange(a1, e1);
        if crate::text::ws_run_end(t, e1) != t.len() {
            None
        } else if tok0 == seq![97u8, 100u8, 100u8, 120u8] {
            match crate::text::signed_val(tok1) {
                Some(n) => if isize::MIN <= n <= isize::MAX {
                    Some(Op::Addx(n as isize))
                } else {
                    None
                },
                None => None,
            }
        } else {
            None
        }
    }
}

/// The instructions of a program text: one per line, each line trimmed.
/// `None` exactly when some line parses to no instruction.
pub open spec fn parse_all_spec(lines: Seq<Seq<u8>>) -> Option<Seq<Op>>
    decreases lines.len(),
{
    if lines.len() == 0 {
        Some(Seq::empty())
    } else {
        match parse_all_spec(lines.drop_last()) {
            Some(ops) => match parse_op_spec(crate::text::trim_spec(lines.last())) {
                Some(op) => Some(ops.push(op)),
                None => None,
            },
            None => None,
        }
    }
}

impl Op {
    /// Parses one trimmed instruction line.
    pub fn parse(line: &Vec<u8>) -> (r: Option<Op>)
        ensures
            r == parse_op_spec(crate::text::trim_spec(line@)),
    {
        let t = crate::text::trim(line);
        let e0 = crate::text::find_token_end(&t, 0);
        proof {
            crate::text::lemma_token_end(t@, 0);
        }
        let a1 = crate::text::skip_ws(&t, e0);
        proof {
            crate::text::lemma_ws_run_end(t@, e0 as int);
        }
        let ghost tok0 = t@.subrange(0, e0 as int);
        if a1 == t.len() {
            if e0 == 4 && t[0] == 110 && t[1] == 111 && t[2] == 111 && t[3] == 112 {
                proof {
                    assert(tok0 =~= seq![110u8, 111u8, 111u8, 112u8]);
                }
                Some(Op::Noop)
            } else {
                proof {
                    if tok0 == seq![110u8, 111u8, 111u8, 112u8] {
                        assert(tok0.len() == 4);
                        assert(e0 == 4);
                        assert(tok0[0] == 110 && tok0[1] == 111 && tok0[2] == 111 && tok0[3]
                            == 112);
                        assert(tok0[0] == t@[0] && tok0[1] == t@[1] && tok0[2] == t@[2] && tok0[3]
                            == t@[3]);
                    }
                }
                None
            }
        } else {
            let e1 = crate::text::find_token_end(&t, a1);
            proof {
                crate::text::lemma_token_end(t@, a1 as int);
            }
            let after = crate::text::skip_ws(&t, e1);
            if after != t.len() {
                return None;
            }
            if !(e0 == 4 && t[0] == 97 && t[1] == 100 && t[2] == 100 && t[3] == 120) {
                proof {
                    if tok0 == seq![97u8, 100u8, 100u8, 120u8] {
                        assert(tok0.len() == 4);
                        assert(e0 == 4);
                        assert(tok0[0] == 97 && tok0[1] == 100 && tok0[2] == 100 && tok0[3]
                            == 120);
                        assert(tok0[0] == t@[0] && tok0[1] == t@[1] && tok0[2] == t@[2] && tok0[3]
                            == t@[3]);
                    }
                }
                return None;
            }
            proof {
                assert(tok0 =~= seq![97u8, 100u8, 100u8, 120u8]);
            }
            match crate::text::parse_isize(&t, a1, e1) {
                Some(n) => Some(Op::Addx(n)),
                None => None,
            }
        }
    }

    /// Parses a whole program text, one instruction per line; an error
    /// names the first line that is no instruction.
    pub fn parse_all(s: &str) -> (r: Result<Vec<Op>, OpError>)
        ensures
            ({
                let lines = crate::text::split_lines_spec(s.spec_bytes());
                match r {
                    Ok(ops) => parse_all_spec(lines) == Some(ops@),
                    Err(OpError::BadInstruction(i)) => {
                        &&& parse_all_spec(lines) is None
                        &&& i < lines.len()
                        &&& parse_op_spec(crate::text::trim_spec(lines[i as int])) is None
                        &&& forall|j: int|
                            0 <= j < i ==> parse_op_spec(
                                crate::text::trim_spec(#[trigger] lines[j]),
                            ) is Some
                    },
                }
            }),
    {
        let lines = crate::text::split_lines(s);
        let ghost lv = lines@.map(|i: int, l: Vec<u8>| l@);
        let mut ops: Vec<Op> = Vec::new();
        let mut i: usize = 0;
        proof {
            assert(lv.take(0) =~= Seq::<Seq<u8>>::empty());
        }
        while i < lines.len()
            invariant
                i <= lv.len(),
                lv == lines@.map(|k: int, l: Vec<u8>| l@),
                lv == crate::text::split_lines_spec(s.spec_bytes()),
                parse_all_spec(lv.take(i as int)) == Some(ops@),
            decreases lv.len() - i,
        {
            let op = match Op::parse(&lines[i]) {
                Some(op) => op,
                None => {
                    proof {
                        lemma_parse_all_prefix_none(lv, i as int);
                        assert(lv.take(lv.len() as int) =~= lv);
                        lemma_parse_all_each(lv.take(i as int));
                        assert forall|j: int|
                            0 <= j < i implies parse_op_spec(
                            crate::text::trim_spec(#[trigger] lv[j]),
                        ) is Some by {
                            assert(lv.take(i as int)[j] == lv[j]);
                        }
                    }
                    return Err(OpError::BadInstruction(i));
                },
            };
            ops.push(op);
            proof {
                assert(lv.take(i + 1).drop_last() =~= lv.take(i as int));
                assert(lv.take(i + 1).last() == lv[i as int]);
            }
            i += 1;
        }
        proof {
            assert(lv.take(lv.len() as int) =~= lv);
        }
        Ok(ops)
    }
}

/// A list that parses as a whole has every line parse.
proof fn lemma_parse_all_each(lines: Seq<Seq<u8>>)
    requires
        parse_all_spec(lines) is Some,
    ensures
        forall|j: int|
            0 <= j < lines.len() ==> parse_op_spec(
                crate::text::trim_spec(#[trigger] lines[j]),
            ) is Some,
    decreases lines.len(),
{
    if lines.len() > 0 {
        lemma_parse_all_each(lines.drop_last());
        assert forall|j: int|
            0 <= j < lines.len() implies parse_op_spec(
            crate::text::trim_spec(#[trigger] lines[j]),
        ) is Some by {
            if j < lines.len() - 1 {
                assert(lines.drop_last()[j] == lines[j]);
            }
        }
    }
}

/// A line that parses to no instruction spoils the whole program.
proof fn lemma_parse_all_prefix_none(lines: Seq<Seq<u8>>, i: int)
    requires
        0 <= i < lines.len(),
        parse_op_spec(crate::text::trim_spec(lines[i])) is None,
    ensures
        parse_all_spec(lines.take(lines.len() as int)) is None,
    decreases lines.len(),
{
    let whole = lines.take(lines.len() as int);
    assert(whole =~= lines);
    if i == lines.len() - 1 {
        assert(parse_all_spec(lines) is None);
    } else {
        lemma_parse_all_prefix_none(lines.drop_last(), i);
        assert(lines.drop_last().take(lines.drop_last().len() as int) =~= lines.drop_last());
        assert(lines.drop_last()[i] == lines[i]);
    }
}

/// The scan of the history that yields the state at a cycle: the state
/// recorded at an exact match, else the last state recorded before it, and
/// nothing once the scan passes the final entry.
pub open spec fn state_scan(h: Seq<ProgramHistory>, cycle: int, prev: Option<Machine>) -> Option<
    Machine,
>
    decreases h.len(),
{
    if h.len() == 0 {
        None
    } else if cycle < h[0].elapsed_cycles {
        prev
    } else if cycle == h[0].elapsed_cycles {
        Some(h[0].initial_state)
    } else {
        state_scan(h.skip(1), cycle, Some(h[0].initial_state))
    }
}

impl Program {
    /// A fresh program: machine at its start state, empty history.
    pub fn new() -> (r: Self)
        ensures
            r.machine.x == 1,
            r.history@ == Seq::<ProgramHistory>::empty(),
    {
        Self { machine: Machine::new(), history: Vec::new() }
    }

    /// The machine state in force at the given cycle, read from the history.
    pub fn state_at_cycle(&self, cycle: usize) -> (r: Option<Machine>)
        ensures
            r == state_scan(self.history@, cycle as int, None),
    {
        let mut prev: Option<Machine> = None;
        let mut i: usize = 0;
        proof {
            assert(self.history@.skip(0) =~= self.history@);
        }
        while i < self.history.len()
            invariant
                i <= self.history@.len(),
                state_scan(self.history@, cycle as int, None) == state_scan(
                    self.history@.skip(i as int),
                    cycle as int,
                    prev,
                ),
            decreases self.history@.len() - i,
        {
            let entry = self.history[i];
            proof {
                assert(self.history@.skip(i as int)[0] == entry);
                assert(self.history@.skip(i as int).skip(1) =~= self.history@.skip(i + 1));
            }
            if cycle < entry.elapsed_cycles {
                return prev;
            } else if cycle == entry.elapsed_cycles {
                return Some(entry.initial_state);
            }
            prev = Some(entry.initial_state);
            i += 1;
        }
        proof {
            assert(self.history@.skip(i as int) =~= Seq::<ProgramHistory>::empty());
        }
        None
    }

    /// The register at the cycle before `cycle`, times `cycle`.
    pub fn signal_strength(&self, cycle: usize) -> (r: Option<isize>)
        requires
            1 <= cycle <= isize::MAX,
            match state_scan(self.history@, cycle - 1, None) {
                Some(m) => isize::MIN <= m.x * cycle <= isize::MAX,
                None => true,
            },
        ensures
            r == match state_scan(self.history@, cycle - 1, None) {
                Some(m) => Some((m.x * cycle) as isize),
                None => None::<isize>,
            },
    {
        match self.state_at_cycle(cycle - 1) {
            Some(state) => Some(state.x * (cycle as isize)),
            None => None,
        }
    }

    /// Runs the instructions in order, appending one history entry per
    /// instruction: the state it started from and the cycles elapsed before
    /// it, counted from the start of this run.  Earlier entries are kept.
    pub fn run(&mut self, ops: &[Op])
        requires
            forall|i: int|
                0 <= i <= ops@.len() ==> isize::MIN <= #[trigger] x_trace(
                    old(self).machine.x as int,
                    ops@,
                    i,
                ) <= isize::MAX,
            2 * ops@.len() <= usize::MAX,
        ensures
            final(self).history@.len() == old(self).history@.len() + ops@.len(),
            forall|i: int|
                0 <= i < old(self).history@.len() ==> #[trigger] final(self).history@[i] == old(
                    self,
                ).history@[i],
            forall|i: int|
                0 <= i < ops@.len() ==> #[trigger] final(self).history@[old(self).history@.len()
                    + i] == (ProgramHistory {
                    initial_state: Machine { x: x_trace(old(self).machine.x as int, ops@, i) as isize },
                    op: ops@[i],
                    elapsed_cycles: cycle_trace(ops@, i) as usize,
                }),
            final(self).machine.x == x_trace(old(self).machine.x as int, ops@, ops@.len() as int),
    {
        let ghost x0 = self.machine.x as int;
        let mut elapsed_cycles: usize = 0;
        let mut i: usize = 0;
        while i < ops.len()
            invariant
                i <= ops@.len(),
                forall|k: int|
                    0 <= k <= ops@.len() ==> isize::MIN <= #[trigger] x_trace(x0, ops@, k)
                        <= isize::MAX,
                2 * ops@.len() <= usize::MAX,
                self.machine.x == x_trace(x0, ops@, i as int),
                elapsed_cycles == cycle_trace(ops@, i as int),
                elapsed_cycles <= 2 * i,
                self.history@.len() == old(self).history@.len() + i,
                forall|k: int|
                    0 <= k < old(self).history@.len() ==> #[trigger] self.history@[k] == old(
                        self,
                    ).history@[k],
                forall|k: int|
                    0 <= k < i ==> #[trigger] self.history@[old(self).history@.len() + k] == (
                    ProgramHistory {
                        initial_state: Machine { x: x_trace(x0, ops@, k) as isize },
                        op: ops@[k],
                        elapsed_cycles: cycle_trace(ops@, k) as usize,
                    }),
            decreases ops@.len() - i,
        {
            let op = ops[i];
            self.history.push(
                ProgramHistory { initial_state: self.machine, op, elapsed_cycles },
            );
            proof {
                assert(apply_op(x_trace(x0, ops@, i as int), ops@[i as int]) == x_trace(
                    x0,
                    ops@,
                    i + 1,
                ));
            }
            self.machine.execute(&op);
            proof {
                lemma_cycle_trace_bound(ops@, i + 1);
            }
            elapsed_cycles += op.cycles();
            i += 1;
        }
    }
}

/// Whether running the instructions from register value `x0` stays within
/// the machine range at every step.
pub fn ops_in_range(x0: isize, ops: &[Op]) -> (r: bool)
    ensures
        r == (forall|i: int|
            0 <= i <= ops@.len() ==> isize::MIN <= #[trigger] x_trace(x0 as int, ops@, i)
                <= isize::MAX),
{
    let mut cur: isize = x0;
    let mut i: usize = 0;
    while i < ops.len()
        invariant
            i <= ops@.len(),
            cur == x_trace(x0 as int, ops@, i as int),
            forall|k: int|
                0 <= k <= i ==> isize::MIN <= #[trigger] x_trace(x0 as int, ops@, k)
                    <= isize::MAX,
        decreases ops@.len() - i,
    {
        match ops[i] {
            Op::Noop => {},
            Op::Addx(n) => {
                cur = match cur.checked_add(n) {
                    Some(x) => x,
                    None => {
                        proof {
                            assert(x_trace(x0 as int, ops@, i + 1) == cur + n);
                        }
                        return false;
                    },
                };
            },
        }
        proof {
            assert(cur == x_trace(x0 as int, ops@, i + 1));
        }
        i += 1;
    }
    true
}

impl Program {
    /// The signal strength at a cycle, when it can be computed: the cycle
    /// must be positive and in range, a state must be recorded for the
    /// cycle before it, and the product must fit the machine.
    pub fn signal_strength_checked(&self, cycle: usize) -> (r: Option<isize>)
        ensures
            r == ({
                if 1 <= cycle <= isize::MAX {
                    match state_scan(self.history@, cycle - 1, None) {
                        Some(m) => if isize::MIN <= m.x * cycle <= isize::MAX {
                            Some(((m.x * cycle) as isize))
                        } else {
                            None::<isize>
                        },
                        None => None::<isize>,
                    }
                } else {
                    None::<isize>
                }
            }),
    {
        if cycle == 0 {
            return None;
        }
        if cycle > (isize::MAX as usize) {
            return None;
        }
        match self.state_at_cycle(cycle - 1) {
            Some(state) => state.x.checked_mul(cycle as isize),
            None => None,
        }
    }
}

/// Cycle counts grow by at most two per instruction.
proof fn lemma_cycle_trace_bound(ops: Seq<Op>, i: int)
    requires
        0 <= i <= ops.len(),
    ensures
        0 <= cycle_trace(ops, i) <= 2 * i,
    decreases i,
{
    if i > 0 {
        lemma_cycle_trace_bound(ops, i - 1);
    }
}

} // verus!
