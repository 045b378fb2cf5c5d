//! The register machine driving a forty-column screen: each cycle draws one
//! pixel, lit when the three-pixel sprite centred on the register covers the
//! column being drawn.

use vstd::prelude::*;

use crate::signal::apply_op;
use crate::signal::op_cycles;
use crate::signal::Op;

verus! {

/// The width of the screen in pixels.
pub const SCREEN_WIDTH: usize = 40;

/// The machine: the sprite register and the number of cycles ticked so far.
#[derive(PartialEq, Eq, Clone, Copy, Structural, Debug)]
pub struct Machine {
    pub x: isize,
    pub cycle: usize,
}

/// Whether the pixel drawn at cycle `cycle` is lit when the register is `x`.
pub open spec fn lit(x: int, cycle: int) -> bool {
    let column = cycle % (SCREEN_WIDTH as int);
    x - 1 == column || x == column || x + 1 == column
}


impl Machine {
    /// A fresh machine: register at one, no cycles ticked.
    pub fn new() -> (r: Self)
        ensures
            r.x == 1,
            r.cycle == 0,
    {
        Self { x: 1, cycle: 0 }
    }

    /// Draws one pixel for the current cycle and advances the cycle count.
    pub fn tick(&mut self) -> (r: bool)
        requires
            old(self).cycle < usize::MAX,
        ensures
            r == lit(old(self).x as int, old(self).cycle as int),
            final(self).cycle == old(self).cycle + 1,
            final(self).x == old(self).x,
    {
        let drawing = (self.cycle % SCREEN_WIDTH) as isize;
        self.cycle = self.cycle + 1;
        self.x == drawing || self.x == drawing - 1 || self.x == drawing + 1
    }

    /// Runs one instruction: draws its pixels, then applies its effect.
    pub fn execute(&mut self, op: &Op) -> (pixels: Vec<bool>)
        requires
            old(self).cycle + 2 <= usize::MAX,
            isize::MIN <= apply_op(old(self).x as int, *op) <= isize::MAX,
        ensures
            pixels@.len() == op_cycles(*op),
            forall|k: int|
                0 <= k < pixels@.len() ==> pixels@[k] == lit(
                    old(self).x as int,
                    old(self).cycle + k,
                ),
            final(self).cycle == old(self).cycle + op_cycles(*op),
            final(self).x == apply_op(old(self).x as int, *op),
    {
        let mut pixels: Vec<bool> = Vec::new();
        let n = op.cycles();
        let mut k: usize = 0;
        while k < n
            invariant
                k <= n <= 2,
                old(self).cycle + 2 <= usize::MAX,
                self.cycle == old(self).cycle + k,
                self.x == old(self).x,
                pixels@.len() == k,
                forall|j: int|
                    0 <= j < k ==> pixels@[j] == lit(old(self).x as int, old(self).cycle + j),
            decreases n - k,
        {
            let p = self.tick();
            pixels.push(p);
            k += 1;
        }
        match op {
            Op::Noop => (),
            Op::Addx(n) => {
                self.x = self.x + *n;
            },
        }
        pixels
    }
}

/// The pixels drawn while running `ops` with register `x` from cycle `cycle` on.
pub open spec fn screen_trace(x: int, cycle: int, ops: Seq<Op>) -> Seq<bool>
    decreases ops.len(),
{
    if ops.len() == 0 {
        Seq::empty()
    } else {
        Seq::new(op_cycles(ops[0]) as nat, |k: int| lit(x, cycle + k)) + screen_trace(
            apply_op(x, ops[0]),
            cycle + op_cycles(ops[0]),
            ops.skip(1),
        )
    }
}

/// A machine together with the pixels it has drawn.
pub struct Program {
    pub machine: Machine,
    pub screen: Vec<bool>,
}

impl Program {
    /// A fresh program: machine at its start state, blank screen.
    pub fn new() -> (r: Self)
        ensures
            r.machine.x == 1,
            r.machine.cycle == 0,
            r.screen@ == Seq::<bool>::empty(),
    {
        Self { machine: Machine::new(), screen: Vec::new() }
    }

    /// Runs the instructions in order, appending each one's pixels.
    pub fn run(&mut self, ops: &[Op])
        requires
            old(self).machine.cycle + 2 * ops@.len() <= usize::MAX,
            forall|i: int|
                0 <= i <= ops@.len() ==> isize::MIN <= #[trigger] crate::signal::x_trace(
                    old(self).machine.x as int,
                    ops@,
                    i,
                ) <= isize::MAX,
        ensures
            final(self).screen@ == old(self).screen@ + screen_trace(
                old(self).machine.x as int,
                old(self).machine.cycle as int,
                ops@,
            ),
    {
        let ghost sops = ops@;
        let ghost x0 = self.machine.x as int;
        let ghost c0 = self.machine.cycle as int;
        let ghost s0 = self.screen@;
        let mut i: usize = 0;
        proof {
            assert(ops@.skip(0) =~= ops@);
        }
        while i < ops.len()
            invariant
                i <= ops@.len(),
                sops == ops@,
                forall|k: int|
                    0 <= k <= ops@.len() ==> isize::MIN <= #[trigger] crate::signal::x_trace(
                        x0,
                        sops,
                        k,
                    ) <= isize::MAX,
                self.machine.x == crate::signal::x_trace(x0, sops, i as int),
                self.machine.cycle == c0 + crate::signal::cycle_trace(sops, i as int),
                self.machine.cycle + 2 * (ops@.len() - i) <= usize::MAX,
                s0 + screen_trace(x0, c0, ops@) == self.screen@ + screen_trace(
                    self.machine.x as int,
                    self.machine.cycle as int,
                    ops@.skip(i as int),
                ),
            decreases ops@.len() - i,
        {
            let op = ops[i];
            let ghost pre = *self;
            proof {
                assert(ops@.skip(i as int)[0] == op);
                assert(crate::signal::x_trace(x0, sops, i + 1) == apply_op(
                    crate::signal::x_trace(x0, sops, i as int),
                    sops[i as int],
                ));
            }
            let pixels = self.machine.execute(&op);
            let ghost old_screen = self.screen@;
            self.append_pixels(pixels);
            proof {
                let tail = ops@.skip(i as int);
                assert(tail.skip(1) =~= ops@.skip(i + 1));
                assert(screen_trace(pre.machine.x as int, pre.machine.cycle as int, tail)
                    =~= Seq::new(op_cycles(op) as nat, |k: int| lit(
                    pre.machine.x as int,
                    pre.machine.cycle + k,
                )) + screen_trace(
                    self.machine.x as int,
                    self.machine.cycle as int,
                    ops@.skip(i + 1),
                ));
                assert(self.screen@ =~= pre.screen@ + Seq::new(op_cycles(op) as nat, |k: int| lit(
                    pre.machine.x as int,
                    pre.machine.cycle + k,
                )));
                assert(self.screen@ + screen_trace(
                    self.machine.x as int,
                    self.machine.cycle as int,
                    ops@.skip(i + 1),
                ) =~= pre.screen@ + screen_trace(
                    pre.machine.x as int,
                    pre.machine.cycle as int,
                    tail,
                ));
            }
            i += 1;
        }
        proof {
            assert(ops@.skip(ops@.len() as int) =~= Seq::<Op>::empty());
            assert(self.screen@ =~= s0 + screen_trace(x0, c0, ops@));
        }
    }

    /// Appends freshly drawn pixels to the screen.
    fn append_pixels(&mut self, pixels: Vec<bool>)
        ensures
            final(self).screen@ == old(self).screen@ + pixels@,
            final(self).machine == old(self).machine,
    {
        let mut pixels = pixels;
        let ghost p0 = pixels@;
        let mut k: usize = 0;
        while k < pixels.len()
            invariant
                k <= p0.len(),
                pixels@ == p0,
                self.screen@ == old(self).screen@ + p0.take(k as int),
                self.machine == old(self).machine,
            decreases p0.len() - k,
        {
            let b = pixels[k];
            self.screen.push(b);
            proof {
                assert(old(self).screen@ + p0.take(k + 1) =~= (old(self).screen@ + p0.take(
                    k as int,
                )).push(p0[k as int]));
            }
            k += 1;
        }
        proof {
            assert(p0.take(p0.len() as int) =~= p0);
            assert(self.screen@ =~= old(self).screen@ + p0);
        }
    }

    /// The screen as text: `#` for a lit pixel, space for a dark one, with a
    /// line break after every full row except at the very end.
    pub fn render(&self) -> (r: Vec<char>)
        ensures
            r@ == render_spec(self.screen@),
    {
        let mut out: Vec<char> = Vec::new();
        let mut i: usize = 0;
        proof {
            assert(render_rec(self.screen@, 0) =~= render_spec(self.screen@));
        }
        while i < self.screen.len()
            invariant
                i <= self.screen@.len(),
                render_spec(self.screen@) == out@ + render_rec(self.screen@, i as int),
            decreases self.screen@.len() - i,
        {
            let ghost o0 = out@;
            if self.screen[i] {
                out.push('#');
            } else {
                out.push(' ');
            }
            let ghost mid = out@;
            if i + 1 < self.screen.len() && (i + 1) % SCREEN_WIDTH == 0 {
                out.push('\n');
            }
            proof {
                let c = if self.screen@[i as int] {
                    '#'
                } else {
                    ' '
                };
                if i + 1 < self.screen@.len() && (i + 1) % (SCREEN_WIDTH as int) == 0 {
                    assert(out@ =~= o0 + seq![c, '\n']);
                    assert(o0 + (seq![c, '\n'] + render_rec(self.screen@, i + 1)) =~= (o0 + seq![
                        c,
                        '\n',
                    ]) + render_rec(self.screen@, i + 1));
                } else {
                    assert(out@ =~= o0 + seq![c]);
                    assert(o0 + (seq![c] + render_rec(self.screen@, i + 1)) =~= (o0 + seq![c])
                        + render_rec(self.screen@, i + 1));
                }
            }
            i += 1;
        }
        proof {
            assert(render_spec(self.screen@) =~= out@);
        }
        out
    }
}

/// The rendering of the screen from pixel `i` on.
pub open spec fn render_rec(screen: Seq<bool>, i: int) -> Seq<char>
    decreases screen.len() - i,
{
    if i < 0 || i >= screen.len() {
        Seq::empty()
    } else {
        let c = if screen[i] {
            '#'
        } else {
            ' '
        };
        if i + 1 < screen.len() && (i + 1) % (SCREEN_WIDTH as int) == 0 {
            seq![c, '\n'] + render_rec(screen, i + 1)
        } else {
            seq![c] + render_rec(screen, i + 1)
        }
    }
}

/// The textual rendering of a whole screen.
pub open spec fn render_spec(screen: Seq<bool>) -> Seq<char> {
    render_rec(screen, 0)
}

} // verus!
