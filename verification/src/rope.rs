//! A rope of knots on a grid: the head moves by commands and each knot
//! follows the one before it, moving at most one step per axis; the set of
//! cells the tail visits is collected.

use vstd::prelude::*;
use vstd::string::StringSliceAdditionalSpecFns;

verus! {

/// One knot's position.
#[derive(Clone, Copy, PartialEq, Eq, Structural, Debug)]
pub struct Coord(pub isize, pub isize);

/// A head move direction.
#[derive(Debug, Copy, Clone, PartialEq, Eq, Structural)]
pub enum Dir {
    U,
    D,
    L,
    R,
}

/// The unit offset of a direction.
pub open spec fn delta_spec(d: Dir) -> (int, int) {
    match d {
        Dir::U => (0, 1),
        Dir::D => (0, -1),
        Dir::L => (-1, 0),
        Dir::R => (1, 0),
    }
}

impl Dir {
    /// The unit offset of this direction.
    pub fn delta(&self) -> (r: (isize, isize))
        ensures
            (r.0 as int, r.1 as int) == delta_spec(*self),
    {
        match self {
            Self::U => (0, 1),
            Self::D => (0, -1),
            Self::L => (-1, 0),
            Self::R => (1, 0),
        }
    }

    /// Reads a direction from its one-letter name.
    pub fn from_str(s: &Vec<u8>) -> (r: Option<Dir>)
        ensures
            r == dir_spec(s@),
    {
        if s.len() == 1 && s[0] == 85 {
            Some(Self::U)
        } else if s.len() == 1 && s[0] == 68 {
            Some(Self::D)
        } else if s.len() == 1 && s[0] == 82 {
            Some(Self::R)
        } else if s.len() == 1 && s[0] == 76 {
            Some(Self::L)
        } else {
            None
        }
    }
}

/// The direction a one-letter token names.
pub open spec fn dir_spec(s: Seq<u8>) -> Option<Dir> {
    if s.len() == 1 && s[0] == 85 {
        Some(Dir::U)
    } else if s.len() == 1 && s[0] == 68 {
        Some(Dir::D)
    } else if s.len() == 1 && s[0] == 82 {
        Some(Dir::R)
    } else if s.len() == 1 && s[0] == 76 {
        Some(Dir::L)
    } else {
        None
    }
}

/// The absolute difference of two coordinates.
pub open spec fn dist_1d(a: int, b: int) -> int {
    if a >= b {
        a - b
    } else {
        b - a
    }
}

/// The Chebyshev distance of two knots: the larger axis difference.
pub open spec fn cheb(a: Coord, b: Coord) -> int {
    let dx = dist_1d(a.0 as int, b.0 as int);
    let dy = dist_1d(a.1 as int, b.1 as int);
    if dx >= dy {
        dx
    } else {
        dy
    }
}

/// `a` moved toward `b` by at most `max`.
pub open spec fn toward(a: int, b: int, max: int) -> int {
    let d = dist_1d(a, b);
    let step = if d <= max {
        d
    } else {
        max
    };
    if a > b {
        a - step
    } else if a < b {
        a + step
    } else {
        a
    }
}

impl Coord {
    /// Moves this knot by the given offset.
    pub fn translate(&mut self, x: isize, y: isize)
        requires
            isize::MIN <= old(self).0 + x <= isize::MAX,
            isize::MIN <= old(self).1 + y <= isize::MAX,
        ensures
            final(self).0 == old(self).0 + x,
            final(self).1 == old(self).1 + y,
    {
        self.0 = self.0 + x;
        self.1 = self.1 + y;
    }

    /// The Chebyshev distance to another knot.
    pub fn distance(&self, other: &Self) -> (r: usize)
        ensures
            r == cheb(*self, *other),
    {
        let dx = abs_diff(self.0, other.0);
        let dy = abs_diff(self.1, other.1);
        if dx >= dy {
            dx
        } else {
            dy
        }
    }

    /// Moves this knot onto another's position.
    pub fn move_to(&mut self, other: &Self)
        ensures
            *final(self) == *other,
    {
        self.0 = other.0;
        self.1 = other.1;
    }

    /// One follow step: if the leader is two or more away, move one step
    /// toward it on each axis that differs.
    pub fn follow(&mut self, other: &Self)
        ensures
            *final(self) == follow_spec(*old(self), *other),
    {
        if self.distance(other) < 2 {
            return ;
        }
        self.0 = max_diff(self.0, other.0, 1);
        self.1 = max_diff(self.1, other.1, 1);
    }
}

/// Where a knot ends up after one follow step behind `prev`.
pub open spec fn follow_spec(seg: Coord, prev: Coord) -> Coord {
    if cheb(seg, prev) < 2 {
        seg
    } else {
        Coord((toward(seg.0 as int, prev.0 as int, 1)) as isize, (toward(
            seg.1 as int,
            prev.1 as int,
            1,
        )) as isize)
    }
}

/// The absolute difference of two machine integers.
fn abs_diff(a: isize, b: isize) -> (r: usize)
    ensures
        r == dist_1d(a as int, b as int),
{
    let d: i128 = (a as i128) - (b as i128);
    if d < 0 {
        (-d) as usize
    } else {
        d as usize
    }
}

/// `a` moved toward `b` by at most `max`.
pub fn max_diff(a: isize, b: isize, max: usize) -> (r: isize)
    requires
        max <= isize::MAX,
    ensures
        r == toward(a as int, b as int, max as int),
{
    let d = abs_diff(a, b);
    let step: isize = if d <= max {
        proof {
            assert(dist_1d(a as int, b as int) <= max <= isize::MAX);
        }
        d as isize
    } else {
        max as isize
    };
    if a > b {
        a - step
    } else if a < b {
        a + step
    } else {
        a
    }
}

/// A rope: its knots from head to tail.
#[derive(Debug, Clone)]
pub struct Rope {
    pub segments: Vec<Coord>,
}

/// The rope after the head moves one step in `d` and every knot follows.
pub open spec fn move_head_spec(segs: Seq<Coord>, d: Dir) -> Seq<Coord> {
    let dd = delta_spec(d);
    let head = Coord((segs[0].0 + dd.0) as isize, (segs[0].1 + dd.1) as isize);
    seq![head] + chain_follow(head, segs.skip(1))
}

/// Each knot of `rest` follows the (already moved) knot before it.
pub open spec fn chain_follow(prev: Coord, rest: Seq<Coord>) -> Seq<Coord>
    decreases rest.len(),
{
    if rest.len() == 0 {
        Seq::empty()
    } else {
        let s = follow_spec(rest[0], prev);
        seq![s] + chain_follow(s, rest.skip(1))
    }
}

/// Whether the head can take one step in `d` without leaving the coordinate range.
pub open spec fn head_step_ok(segs: Seq<Coord>, d: Dir) -> bool {
    let dd = delta_spec(d);
    &&& isize::MIN <= segs[0].0 + dd.0 <= isize::MAX
    &&& isize::MIN <= segs[0].1 + dd.1 <= isize::MAX
}

/// The rope after `n` unit steps in direction `d`.
pub open spec fn run_units(segs: Seq<Coord>, d: Dir, n: int) -> Seq<Coord>
    decreases n,
{
    if n <= 0 {
        segs
    } else {
        move_head_spec(run_units(segs, d, n - 1), d)
    }
}

/// All `n` unit steps in direction `d` stay in range.
pub open spec fn units_ok(segs: Seq<Coord>, d: Dir, n: int) -> bool
    decreases n,
{
    n > 0 ==> units_ok(segs, d, n - 1) && head_step_ok(run_units(segs, d, n - 1), d)
}

/// One parsed command: a direction and how many unit steps to take.
#[derive(Debug, Clone, Copy, PartialEq, Eq, Structural)]
pub struct Command {
    pub direction: Dir,
    pub distance: usize,
}

/// The rope after running all commands.
pub open spec fn run_cmds(segs: Seq<Coord>, cmds: Seq<Command>) -> Seq<Coord>
    decreases cmds.len(),
{
    if cmds.len() == 0 {
        segs
    } else {
        run_cmds(run_units(segs, cmds[0].direction, cmds[0].distance as int), cmds.skip(1))
    }
}

/// Every unit step of every command stays in range.
pub open spec fn cmds_ok(segs: Seq<Coord>, cmds: Seq<Command>) -> bool
    decreases cmds.len(),
{
    cmds.len() > 0 ==> units_ok(segs, cmds[0].direction, cmds[0].distance as int) && cmds_ok(
        run_units(segs, cmds[0].direction, cmds[0].distance as int),
        cmds.skip(1),
    )
}

/// `c` is the tail cell of the rope after some positive number of unit steps
/// in `d`, up to `n`.
pub open spec fn tail_seen_units(segs: Seq<Coord>, d: Dir, n: int, c: Coord) -> bool {
    exists|j: int| 1 <= j <= n && #[trigger] run_units(segs, d, j).last() == c
}

/// `c` is a tail cell reached at some point while running the commands.
pub open spec fn tail_seen_cmds(segs: Seq<Coord>, cmds: Seq<Command>, c: Coord) -> bool
    decreases cmds.len(),
{
    cmds.len() > 0 && (tail_seen_units(segs, cmds[0].direction, cmds[0].distance as int, c)
        || tail_seen_cmds(
        run_units(segs, cmds[0].direction, cmds[0].distance as int),
        cmds.skip(1),
        c,
    ))
}

impl Rope {
    /// A rope of `length` knots, all at the origin.
    pub fn new(length: usize) -> (r: Self)
        ensures
            r.segments@.len() == length,
            forall|i: int| 0 <= i < length ==> #[trigger] r.segments@[i] == Coord(0, 0),
    {
        let mut segments: Vec<Coord> = Vec::new();
        let mut i: usize = 0;
        while i < length
            invariant
                i <= length,
                segments@.len() == i,
                forall|k: int| 0 <= k < i ==> #[trigger] segments@[k] == Coord(0, 0),
            decreases length - i,
        {
            segments.push(Coord(0, 0));
            i += 1;
        }
        Rope { segments }
    }

    /// Overwrites the first knots with the given positions.
    pub fn set(&mut self, positions: &[Coord])
        requires
            positions@.len() <= old(self).segments@.len(),
        ensures
            final(self).segments@.len() == old(self).segments@.len(),
            forall|i: int|
                0 <= i < positions@.len() ==> #[trigger] final(self).segments@[i] == positions@[i],
            forall|i: int|
                positions@.len() <= i < old(self).segments@.len()
                    ==> #[trigger] final(self).segments@[i] == old(self).segments@[i],
    {
        let mut i: usize = 0;
        while i < positions.len()
            invariant
                i <= positions@.len() <= self.segments@.len(),
                self.segments@.len() == old(self).segments@.len(),
                forall|k: int|
                    0 <= k < i ==> #[trigger] self.segments@[k] == positions@[k],
                forall|k: int|
                    i <= k < self.segments@.len() ==> #[trigger] self.segments@[k] == old(
                        self,
                    ).segments@[k],
            decreases positions@.len() - i,
        {
            let c = positions[i];
            self.segments[i] = c;
            i += 1;
        }
    }

    /// Moves the head one step and lets every knot follow in turn.
    pub fn move_head(&mut self, direction: Dir)
        requires
            old(self).segments@.len() >= 1,
            head_step_ok(old(self).segments@, direction),
        ensures
            final(self).segments@ == move_head_spec(old(self).segments@, direction),
    {
        let ghost segs0 = self.segments@;
        let ghost target = move_head_spec(segs0, direction);
        let (dx, dy) = direction.delta();
        let head = &mut self.segments[0];
        head.translate(dx, dy);
        let mut prev_segment = self.segments[0];
        proof {
            lemma_chain_len(target[0], segs0.skip(1));
            assert(self.segments@ =~= segs0.update(0, prev_segment));
            assert(target[0] == prev_segment);
            assert(target.skip(1) =~= chain_follow(target[0], segs0.skip(1)));
        }
        let mut i: usize = 1;
        while i < self.segments.len()
            invariant
                1 <= i <= self.segments@.len(),
                self.segments@.len() == segs0.len(),
                target == move_head_spec(segs0, direction),
                target.len() == segs0.len(),
                forall|k: int| 0 <= k < i ==> #[trigger] self.segments@[k] == target[k],
                forall|k: int| i <= k < segs0.len() ==> #[trigger] self.segments@[k] == segs0[k],
                prev_segment == target[i - 1],
                chain_follow(prev_segment, segs0.skip(i as int)) == target.skip(i as int),
            decreases self.segments@.len() - i,
        {
            let ghost pre = self.segments@;
            let seg = &mut self.segments[i];
            proof {
                assert(segs0.skip(i as int)[0] == pre[i as int]);
                assert(segs0.skip(i as int).skip(1) =~= segs0.skip(i + 1));
                assert(target.skip(i as int)[0] == target[i as int]);
                assert(target.skip(i as int).skip(1) =~= target.skip(i + 1));
            }
            seg.follow(&prev_segment);
            prev_segment = self.segments[i];
            i += 1;
        }
        proof {
            assert(segs0.skip(self.segments@.len() as int) =~= Seq::<Coord>::empty());
            assert(self.segments@ =~= target);
        }
    }

    /// Runs one command: `distance` unit steps in its direction.  Returns
    /// the tail cell after each step, in order.
    pub fn run(&mut self, direction: Dir, distance: usize) -> (tails: Vec<Coord>)
        requires
            old(self).segments@.len() >= 1,
            units_ok(old(self).segments@, direction, distance as int),
        ensures
            final(self).segments@ == run_units(old(self).segments@, direction, distance as int),
            tails@.len() == distance,
            forall|j: int|
                0 <= j < distance ==> #[trigger] tails@[j] == run_units(
                    old(self).segments@,
                    direction,
                    j + 1,
                ).last(),
    {
        let ghost segs0 = self.segments@;
        let mut tails: Vec<Coord> = Vec::new();
        let mut k: usize = 0;
        while k < distance
            invariant
                k <= distance,
                segs0.len() >= 1,
                units_ok(segs0, direction, distance as int),
                self.segments@ == run_units(segs0, direction, k as int),
                tails@.len() == k,
                forall|j: int|
                    0 <= j < k ==> #[trigger] tails@[j] == run_units(segs0, direction, j + 1).last(),
            decreases distance - k,
        {
            proof {
                lemma_units_ok_prefix(segs0, direction, k + 1, distance as int);
                lemma_run_units_len(segs0, direction, k as int);
            }
            self.move_head(direction);
            let t = self.tail().unwrap();
            tails.push(t);
            k += 1;
        }
        tails
    }

    /// The tail knot's position, if the rope has any knots.
    pub fn tail(&self) -> (r: Option<Coord>)
        ensures
            self.segments@.len() == 0 ==> r is None,
            self.segments@.len() > 0 ==> r == Some(self.segments@.last()),
    {
        if self.segments.len() == 0 {
            None
        } else {
            Some(self.segments[self.segments.len() - 1])
        }
    }

    /// Runs all commands and collects every cell the tail stands on: its
    /// starting cell and the cell after each unit step, without repetition,
    /// in order of first visit.
    #[verifier::rlimit(50)]
    pub fn tail_positions(&mut self, commands: &[Command]) -> (r: Vec<Coord>)
        requires
            old(self).segments@.len() >= 1,
            cmds_ok(old(self).segments@, commands@),
        ensures
            final(self).segments@ == run_cmds(old(self).segments@, commands@),
            forall|c: Coord|
                r@.contains(c) <==> (c == old(self).segments@.last() || tail_seen_cmds(
                    old(self).segments@,
                    commands@,
                    c,
                )),
            forall|i: int, j: int| 0 <= i < j < r@.len() ==> r@[i] != r@[j],
    {
        let ghost segs0 = self.segments@;
        let mut r: Vec<Coord> = Vec::new();
        let first = self.tail().unwrap();
        r.push(first);
        let mut ci: usize = 0;
        proof {
            assert(r@[0] == first);
            assert(commands@.skip(0) =~= commands@);
            assert(commands@.take(0) =~= Seq::<Command>::empty());
            assert forall|c: Coord|
                r@.contains(c) <==> (c == segs0.last() || tail_seen_cmds(
                    segs0,
                    commands@.take(0),
                    c,
                )) by {
                if r@.contains(c) {
                    let k = choose|k: int| 0 <= k < r@.len() && r@[k] == c;
                    assert(k == 0);
                }
                if c == segs0.last() {
                    assert(r@[0] == c);
                }
            }
        }
        while ci < commands.len()
            invariant
                ci <= commands@.len(),
                segs0.len() >= 1,
                self.segments@.len() >= 1,
                cmds_ok(self.segments@, commands@.skip(ci as int)),
                self.segments@ == run_cmds(segs0, commands@.take(ci as int)),
                run_cmds(segs0, commands@) == run_cmds(
                    self.segments@,
                    commands@.skip(ci as int),
                ),
                forall|c: Coord|
                    r@.contains(c) <==> (c == segs0.last() || tail_seen_cmds(
                        segs0,
                        commands@.take(ci as int),
                        c,
                    )),
                forall|c: Coord|
                    (tail_seen_cmds(segs0, commands@, c) <==> tail_seen_cmds(
                        segs0,
                        commands@.take(ci as int),
                        c,
                    ) || tail_seen_cmds(self.segments@, commands@.skip(ci as int), c)),
                forall|i: int, j: int| 0 <= i < j < r@.len() ==> r@[i] != r@[j],
            decreases commands@.len() - ci,
        {
            let cmd = commands[ci];
            let ghost pre = self.segments@;
            proof {
                assert(commands@.skip(ci as int)[0] == cmd);
                assert(commands@.skip(ci as int).skip(1) =~= commands@.skip(ci + 1));
            }
            let tails = self.run(cmd.direction, cmd.distance);
            let mut j: usize = 0;
            while j < tails.len()
                invariant
                    j <= tails@.len(),
                    tails@.len() == cmd.distance,
                    forall|k: int|
                        0 <= k < tails@.len() ==> #[trigger] tails@[k] == run_units(
                            pre,
                            cmd.direction,
                            k + 1,
                        ).last(),
                    forall|c: Coord|
                        r@.contains(c) <==> (c == segs0.last() || tail_seen_cmds(
                            segs0,
                            commands@.take(ci as int),
                            c,
                        ) || (exists|k: int|
                            1 <= k <= j && #[trigger] run_units(pre, cmd.direction, k).last()
                                == c)),
                    forall|i1: int, j1: int| 0 <= i1 < j1 < r@.len() ==> r@[i1] != r@[j1],
                decreases tails@.len() - j,
            {
                let t = tails[j];
                let found = has_coord(&r, t);
                let ghost r0 = r@;
                if !found {
                    r.push(t);
                }
                proof {
                    assert(run_units(pre, cmd.direction, j + 1).last() == t);
                    if !found {
                        lemma_push_contains(r0, t);
                    }
                    assert forall|c: Coord| r@.contains(c) <==> (r0.contains(c) || c == t) by {}
                    assert forall|c: Coord|
                        r@.contains(c) <==> (c == segs0.last() || tail_seen_cmds(
                            segs0,
                            commands@.take(ci as int),
                            c,
                        ) || (exists|k: int|
                            1 <= k <= j + 1 && #[trigger] run_units(pre, cmd.direction, k).last()
                                == c)) by {
                        assert(r@.contains(c) <==> (r0.contains(c) || c == t));
                        if r@.contains(c) {
                            if r0.contains(c) {
                                if !(c == segs0.last() || tail_seen_cmds(
                                    segs0,
                                    commands@.take(ci as int),
                                    c,
                                )) {
                                    let k = choose|k: int|
                                        1 <= k <= j && #[trigger] run_units(
                                            pre,
                                            cmd.direction,
                                            k,
                                        ).last() == c;
                                    assert(1 <= k <= j + 1 && run_units(
                                        pre,
                                        cmd.direction,
                                        k,
                                    ).last() == c);
                                }
                            } else {
                                assert(c == t);
                                assert(1 <= j + 1 <= j + 1 && run_units(
                                    pre,
                                    cmd.direction,
                                    j + 1,
                                ).last() == c);
                            }
                        }
                        if (c == segs0.last() || tail_seen_cmds(
                            segs0,
                            commands@.take(ci as int),
                            c,
                        )) {
                            assert(r0.contains(c));
                            assert(r@.contains(c));
                        } else if (exists|k: int|
                            1 <= k <= j + 1 && #[trigger] run_units(pre, cmd.direction, k).last()
                                == c) {
                            let k = choose|k: int|
                                1 <= k <= j + 1 && #[trigger] run_units(
                                    pre,
                                    cmd.direction,
                                    k,
                                ).last() == c;
                            if k <= j {
                                assert(r0.contains(c));
                                assert(r@.contains(c));
                            } else {
                                assert(c == t);
                                assert(r@.contains(c));
                            }
                        }
                    }
                }
                j += 1;
            }
            proof {
                assert(self.segments@ == run_units(pre, cmd.direction, cmd.distance as int));
                assert(commands@.take(ci + 1).drop_last() =~= commands@.take(ci as int));
                assert(commands@.take(ci + 1).last() == cmd);
                lemma_tail_seen_take_step(segs0, commands@, ci as int);
                lemma_run_cmds_take_step(segs0, commands@, ci as int);
            }
            ci += 1;
        }
        proof {
            assert(commands@.take(commands@.len() as int) =~= commands@);
            assert(commands@.skip(commands@.len() as int) =~= Seq::<Command>::empty());
        }
        r
    }
}

/// Whether the collected cells already hold `t`.
fn has_coord(r: &Vec<Coord>, t: Coord) -> (b: bool)
    ensures
        b == r@.contains(t),
{
    let mut s: usize = 0;
    while s < r.len()
        invariant
            s <= r@.len(),
            forall|k: int| 0 <= k < s ==> r@[k] != t,
        decreases r@.len() - s,
    {
        if r[s].0 == t.0 && r[s].1 == t.1 {
            proof {
                assert(r@[s as int] == t);
            }
            return true;
        }
        s += 1;
    }
    proof {
        if r@.contains(t) {
            let k = choose|k: int| 0 <= k < r@.len() && r@[k] == t;
            assert(r@[k] != t);
        }
    }
    false
}

/// Membership in a sequence with one cell appended.
proof fn lemma_push_contains(s: Seq<Coord>, x: Coord)
    ensures
        forall|c: Coord| s.push(x).contains(c) <==> (s.contains(c) || c == x),
{
    assert forall|c: Coord| s.push(x).contains(c) <==> (s.contains(c) || c == x) by {
        if s.push(x).contains(c) {
            let k = choose|k: int| 0 <= k < s.push(x).len() && s.push(x)[k] == c;
            if k < s.len() {
                assert(s[k] == c);
            }
        }
        if s.contains(c) {
            let k = choose|k: int| 0 <= k < s.len() && s[k] == c;
            assert(s.push(x)[k] == c);
        }
        if c == x {
            assert(s.push(x)[s.len() as int] == c);
        }
    }
}

impl Rope {
    /// Whether running all commands from the rope's current state keeps
    /// every head step in the coordinate range: the condition
    /// `tail_positions` asks of its callers, decided on a working copy.
    pub fn commands_ok(&self, commands: &[Command]) -> (r: bool)
        ensures
            r == (self.segments@.len() >= 1 && cmds_ok(self.segments@, commands@)),
    {
        if self.segments.len() == 0 {
            return false;
        }
        let ghost segs0 = self.segments@;
        let mut probe_segments: Vec<Coord> = Vec::new();
        let mut c: usize = 0;
        while c < self.segments.len()
            invariant
                c <= self.segments@.len(),
                probe_segments@ =~= self.segments@.take(c as int),
            decreases self.segments@.len() - c,
        {
            probe_segments.push(self.segments[c]);
            proof {
                assert(self.segments@.take(c + 1) =~= self.segments@.take(c as int).push(
                    self.segments@[c as int],
                ));
            }
            c += 1;
        }
        proof {
            assert(self.segments@.take(self.segments@.len() as int) =~= self.segments@);
        }
        let mut probe = Rope { segments: probe_segments };
        let mut ci: usize = 0;
        proof {
            assert(commands@.skip(0) =~= commands@);
        }
        while ci < commands.len()
            invariant
                ci <= commands@.len(),
                segs0.len() >= 1,
                segs0 == self.segments@,
                probe.segments@.len() == segs0.len(),
                cmds_ok(segs0, commands@) == cmds_ok(
                    probe.segments@,
                    commands@.skip(ci as int),
                ),
            decreases commands@.len() - ci,
        {
            let cmd = commands[ci];
            let ghost entry = probe.segments@;
            proof {
                assert(commands@.skip(ci as int)[0] == cmd);
                assert(commands@.skip(ci as int).skip(1) =~= commands@.skip(ci + 1));
            }
            let (dx, dy) = cmd.direction.delta();
            let mut k: usize = 0;
            while k < cmd.distance
                invariant
                    k <= cmd.distance,
                    entry.len() >= 1,
                    ci < commands@.len(),
                    segs0 == self.segments@,
                    commands@.skip(ci as int)[0] == cmd,
                    commands@.skip(ci as int).len() == commands@.len() - ci,
                    cmds_ok(segs0, commands@) == cmds_ok(entry, commands@.skip(ci as int)),
                    probe.segments@.len() == entry.len(),
                    probe.segments@ == run_units(entry, cmd.direction, k as int),
                    units_ok(entry, cmd.direction, k as int),
                    (dx as int, dy as int) == delta_spec(cmd.direction),
                decreases cmd.distance - k,
            {
                let head = probe.segments[0];
                let step_ok = head.0.checked_add(dx).is_some() && head.1.checked_add(
                    dy,
                ).is_some();
                if !step_ok {
                    proof {
                        assert(!head_step_ok(probe.segments@, cmd.direction));
                        assert(!units_ok(entry, cmd.direction, k + 1));
                        if units_ok(entry, cmd.direction, cmd.distance as int) {
                            lemma_units_ok_mono(entry, cmd.direction, k + 1, cmd.distance as int);
                        }
                    }
                    return false;
                }
                probe.move_head(cmd.direction);
                proof {
                    lemma_run_units_len(entry, cmd.direction, k + 1);
                }
                k += 1;
            }
            ci += 1;
        }
        proof {
            assert(commands@.skip(commands@.len() as int) =~= Seq::<Command>::empty());
        }
        true
    }
}

/// An in-range run stays in range over any shorter run.
proof fn lemma_units_ok_mono(segs: Seq<Coord>, d: Dir, k: int, n: int)
    requires
        0 <= k <= n,
        units_ok(segs, d, n),
    ensures
        units_ok(segs, d, k),
    decreases n - k,
{
    if k < n {
        lemma_units_ok_mono(segs, d, k, n - 1);
    }
}

/// A prefix of an in-range unit run is in range, step by step.
proof fn lemma_units_ok_prefix(segs: Seq<Coord>, d: Dir, k: int, n: int)
    requires
        0 < k <= n,
        units_ok(segs, d, n),
    ensures
        head_step_ok(run_units(segs, d, k - 1), d),
    decreases n,
{
    if k < n {
        lemma_units_ok_prefix(segs, d, k, n - 1);
    }
}

/// Moving a rope keeps its number of knots.
proof fn lemma_run_units_len(segs: Seq<Coord>, d: Dir, k: int)
    requires
        segs.len() >= 1,
    ensures
        run_units(segs, d, k).len() == segs.len(),
    decreases k,
{
    if k > 0 {
        lemma_run_units_len(segs, d, k - 1);
        let prior = run_units(segs, d, k - 1);
        let dd = delta_spec(d);
        let head = Coord((prior[0].0 + dd.0) as isize, (prior[0].1 + dd.1) as isize);
        lemma_chain_len(head, prior.skip(1));
    }
}

/// The followers of a chain keep their count.
proof fn lemma_chain_len(p: Coord, rest: Seq<Coord>)
    ensures
        chain_follow(p, rest).len() == rest.len(),
    decreases rest.len(),
{
    if rest.len() > 0 {
        lemma_chain_len(follow_spec(rest[0], p), rest.skip(1));
    }
}

/// Running one more command extends the set of seen tail cells by that
/// command's own.
proof fn lemma_tail_seen_take_step(segs: Seq<Coord>, cmds: Seq<Command>, ci: int)
    requires
        0 <= ci < cmds.len(),
    ensures
        forall|c: Coord|
            #[trigger] tail_seen_cmds(segs, cmds.take(ci + 1), c) <==> (tail_seen_cmds(
                segs,
                cmds.take(ci),
                c,
            ) || tail_seen_units(
                run_cmds(segs, cmds.take(ci)),
                cmds[ci].direction,
                cmds[ci].distance as int,
                c,
            )),
    decreases ci,
{
    if ci == 0 {
        assert(cmds.take(0) =~= Seq::<Command>::empty());
        assert forall|c: Coord|
            #[trigger] tail_seen_cmds(segs, cmds.take(1), c) <==> (tail_seen_cmds(
                segs,
                cmds.take(0),
                c,
            ) || tail_seen_units(
                run_cmds(segs, cmds.take(0)),
                cmds[0].direction,
                cmds[0].distance as int,
                c,
            )) by {
            let t1 = cmds.take(1);
            assert(t1[0] == cmds[0]);
            assert(t1.skip(1) =~= Seq::<Command>::empty());
            assert(run_cmds(segs, cmds.take(0)) == segs);
            assert(!tail_seen_cmds(
                run_units(segs, cmds[0].direction, cmds[0].distance as int),
                t1.skip(1),
                c,
            ));
            assert(!tail_seen_cmds(segs, cmds.take(0), c));
        }
    } else {
        lemma_tail_seen_take_step(
            run_units(segs, cmds[0].direction, cmds[0].distance as int),
            cmds.skip(1),
            ci - 1,
        );
        assert forall|c: Coord|
            #[trigger] tail_seen_cmds(segs, cmds.take(ci + 1), c) <==> (tail_seen_cmds(
                segs,
                cmds.take(ci),
                c,
            ) || tail_seen_units(
                run_cmds(segs, cmds.take(ci)),
                cmds[ci].direction,
                cmds[ci].distance as int,
                c,
            )) by {
            let next = run_units(segs, cmds[0].direction, cmds[0].distance as int);
            let rest = cmds.skip(1);
            assert(cmds.take(ci + 1)[0] == cmds[0]);
            assert(cmds.take(ci)[0] == cmds[0]);
            assert(cmds.take(ci + 1).skip(1) =~= rest.take(ci));
            assert(cmds.take(ci).skip(1) =~= rest.take(ci - 1));
            assert(rest[ci - 1] == cmds[ci]);
            assert(tail_seen_cmds(segs, cmds.take(ci + 1), c) == (tail_seen_units(
                segs,
                cmds[0].direction,
                cmds[0].distance as int,
                c,
            ) || tail_seen_cmds(next, rest.take(ci), c)));
            assert(tail_seen_cmds(segs, cmds.take(ci), c) == (tail_seen_units(
                segs,
                cmds[0].direction,
                cmds[0].distance as int,
                c,
            ) || tail_seen_cmds(next, rest.take(ci - 1), c)));
            lemma_run_cmds_cons(segs, cmds, ci);
            assert(run_cmds(segs, cmds.take(ci)) == run_cmds(next, rest.take(ci - 1)));
        }
    }
}

/// Running a prefix of commands, one command at a time.
proof fn lemma_run_cmds_take_step(segs: Seq<Coord>, cmds: Seq<Command>, ci: int)
    requires
        0 <= ci < cmds.len(),
    ensures
        run_cmds(segs, cmds.take(ci + 1)) == run_units(
            run_cmds(segs, cmds.take(ci)),
            cmds[ci].direction,
            cmds[ci].distance as int,
        ),
    decreases ci,
{
    if ci == 0 {
        assert(cmds.take(0) =~= Seq::<Command>::empty());
        let t1 = cmds.take(1);
        assert(t1[0] == cmds[0]);
        assert(t1.skip(1) =~= Seq::<Command>::empty());
        assert(run_cmds(
            run_units(segs, cmds[0].direction, cmds[0].distance as int),
            t1.skip(1),
        ) == run_units(segs, cmds[0].direction, cmds[0].distance as int));
        assert(run_cmds(segs, cmds.take(0)) == segs);
    } else {
        lemma_run_cmds_take_step(
            run_units(segs, cmds[0].direction, cmds[0].distance as int),
            cmds.skip(1),
            ci - 1,
        );
        let next = run_units(segs, cmds[0].direction, cmds[0].distance as int);
        let rest = cmds.skip(1);
        assert(cmds.take(ci + 1)[0] == cmds[0]);
        assert(cmds.take(ci)[0] == cmds[0]);
        assert(cmds.take(ci + 1).skip(1) =~= rest.take(ci));
        assert(cmds.take(ci).skip(1) =~= rest.take(ci - 1));
        assert(rest[ci - 1] == cmds[ci]);
        assert(run_cmds(segs, cmds.take(ci + 1)) == run_cmds(next, rest.take(ci)));
        assert(run_cmds(segs, cmds.take(ci)) == run_cmds(next, rest.take(ci - 1)));
    }
}

/// Unfolding the run of commands from the front.
proof fn lemma_run_cmds_cons(segs: Seq<Coord>, cmds: Seq<Command>, ci: int)
    requires
        0 <= ci <= cmds.len(),
    ensures
        run_cmds(segs, cmds.take(ci)) == if ci == 0 {
            segs
        } else {
            run_cmds(
                run_units(segs, cmds[0].direction, cmds[0].distance as int),
                cmds.skip(1).take(ci - 1),
            )
        },
{
    if ci == 0 {
        assert(cmds.take(0) =~= Seq::<Command>::empty());
    } else {
        assert(cmds.take(ci)[0] == cmds[0]);
        assert(cmds.take(ci).skip(1) =~= cmds.skip(1).take(ci - 1));
    }
}

impl Command {
    /// Reads one command line: a one-letter direction, whitespace, and a
    /// step count.
    pub fn from_str(s: &Vec<u8>) -> (r: Option<Command>)
        ensures
            r == parse_command_spec(crate::text::trim_spec(s@)),
    {
        let t = crate::text::trim(s);
        let e0 = crate::text::find_token_end(&t, 0);
        proof {
            crate::text::lemma_token_end(t@, 0);
        }
        let a1 = crate::text::skip_ws(&t, e0);
        proof {
            crate::text::lemma_ws_run_end(t@, e0 as int);
        }
        if a1 == t.len() {
            return None;
        }
        let e1 = crate::text::find_token_end(&t, a1);
        proof {
            crate::text::lemma_token_end(t@, a1 as int);
        }
        let after = crate::text::skip_ws(&t, e1);
        if after != t.len() {
            return None;
        }
        let dir = if e0 == 1 && t[0] == 85 {
            Dir::U
        } else if e0 == 1 && t[0] == 68 {
            Dir::D
        } else if e0 == 1 && t[0] == 82 {
            Dir::R
        } else if e0 == 1 && t[0] == 76 {
            Dir::L
        } else {
            proof {
                let tok0 = t@.subrange(0, e0 as int);
                if e0 == 1 {
                    assert(tok0[0] == t@[0]);
                }
            }
            return None;
        };
        proof {
            let tok0 = t@.subrange(0, e0 as int);
            assert(tok0.len() == 1 && tok0[0] == t@[0]);
        }
        let (val, vend) = match crate::text::take_number(&t, a1) {
            Some(x) => x,
            None => {
                proof {
                    crate::text::lemma_digit_run_end(t@, a1 as int);
                }
                return None;
            },
        };
        if vend != e1 {
            return None;
        }
        Some(Command { direction: dir, distance: val })
    }

    /// Parses a whole list of command lines.
    pub fn parse_all(s: &str) -> (r: Option<Vec<Command>>)
        ensures
            ({
                let lines = crate::text::split_lines_spec(s.spec_bytes());
                match r {
                    Some(cmds) => parse_commands_spec(lines) == Some(cmds@),
                    None => parse_commands_spec(lines) is None,
                }
            }),
    {
        let lines = crate::text::split_lines(s);
        let ghost lv = lines@.map(|i: int, l: Vec<u8>| l@);
        let mut cmds: Vec<Command> = Vec::new();
        let mut i: usize = 0;
        proof {
            assert(lv.take(0) =~= Seq::<Seq<u8>>::empty());
        }
        while i < lines.len()
            invariant
                i <= lv.len(),
                lv == lines@.map(|k: int, l: Vec<u8>| l@),
                lv == crate::text::split_lines_spec(s.spec_bytes()),
                parse_commands_spec(lv.take(i as int)) == Some(cmds@),
            decreases lv.len() - i,
        {
            let cmd = match Command::from_str(&lines[i]) {
                Some(cmd) => cmd,
                None => {
                    proof {
                        lemma_parse_commands_none(lv, i as int);
                        assert(lv.take(lv.len() as int) =~= lv);
                    }
                    return None;
                },
            };
            cmds.push(cmd);
            proof {
                assert(lv.take(i + 1).drop_last() =~= lv.take(i as int));
                assert(lv.take(i + 1).last() == lv[i as int]);
            }
            i += 1;
        }
        proof {
            assert(lv.take(lv.len() as int) =~= lv);
        }
        Some(cmds)
    }
}

/// The command a trimmed line denotes: a one-letter direction token and a
/// `usize` step count, and nothing else.
pub open spec fn parse_command_spec(t: Seq<u8>) -> Option<Command> {
    let e0 = crate::text::token_end(t, 0);
    let tok0 = t.subrange(0, e0);
    let a1 = crate::text::ws_run_end(t, e0);
    if a1 == t.len() {
        None
    } else {
        let e1 = crate::text::token_end(t, a1);
        if crate::text::ws_run_end(t, e1) != t.len() {
            None
        } else {
            match dir_spec(tok0) {
                Some(d) => {
                    let de = crate::text::digit_run_end(t, a1);
                    if de != e1 || de == a1 {
                        None
                    } else {
                        let v = crate::text::dec_val(t.subrange(a1, de));
                        if v > usize::MAX {
                            None
                        } else {
                            Some(Command { direction: d, distance: v as usize })
                        }
                    }
                },
                None => None,
            }
        }
    }
}

/// The commands of a whole text, one per trimmed line.
pub open spec fn parse_commands_spec(lines: Seq<Seq<u8>>) -> Option<Seq<Command>>
    decreases lines.len(),
{
    if lines.len() == 0 {
        Some(Seq::empty())
    } else {
        match parse_commands_spec(lines.drop_last()) {
            Some(cmds) => match parse_command_spec(crate::text::trim_spec(lines.last())) {
                Some(cmd) => Some(cmds.push(cmd)),
                None => None,
            },
            None => None,
        }
    }
}

/// A line that parses to no command spoils the whole list.
proof fn lemma_parse_commands_none(lines: Seq<Seq<u8>>, i: int)
    requires
        0 <= i < lines.len(),
        parse_command_spec(crate::text::trim_spec(lines[i])) is None,
    ensures
        parse_commands_spec(lines.take(lines.len() as int)) is None,
    decreases lines.len(),
{
    assert(lines.take(lines.len() as int) =~= lines);
    if i == lines.len() - 1 {
    } else {
        lemma_parse_commands_none(lines.drop_last(), i);
        assert(lines.drop_last().take(lines.drop_last().len() as int) =~= lines.drop_last());
        assert(lines.drop_last()[i] == lines[i]);
    }
}

} // verus!
