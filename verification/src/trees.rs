//! Tree visibility in a grid of digit heights: a tree is visible from a
//! side when every tree between it and that side is strictly lower.

use vstd::prelude::*;
use vstd::string::StringSliceAdditionalSpecFns;

verus! {

/// A cell position: `(x, y)` where `x` indexes within a row and `y` picks the row.
pub type Coord = (usize, usize);

/// A side of the grid.
#[derive(Clone, Copy, PartialEq, Eq, Structural, Debug)]
pub enum Direction {
    N,
    S,
    E,
    W,
}

/// The offset of one walking step toward a side.
pub open spec fn walk_from_spec(d: Direction) -> (int, int) {
    match d {
        Direction::N => (0, 1),
        Direction::S => (0, -1),
        Direction::E => (-1, 0),
        Direction::W => (1, 0),
    }
}

/// The offset of one walking step away from a side.
pub open spec fn walk_to_spec(d: Direction) -> (int, int) {
    match d {
        Direction::N => (0, -1),
        Direction::S => (0, 1),
        Direction::E => (1, 0),
        Direction::W => (-1, 0),
    }
}

/// The opposite side.
pub open spec fn opposite_spec(d: Direction) -> Direction {
    match d {
        Direction::N => Direction::S,
        Direction::S => Direction::N,
        Direction::E => Direction::W,
        Direction::W => Direction::E,
    }
}

impl Direction {
    /// The offset of one walking step toward this side.
    pub fn walk_from(&self) -> (r: (isize, isize))
        ensures
            (r.0 as int, r.1 as int) == walk_from_spec(*self),
    {
        match self {
            Direction::N => (0, 1),
            Direction::S => (0, -1),
            Direction::E => (-1, 0),
            Direction::W => (1, 0),
        }
    }

    /// The offset of one walking step away from this side.
    pub fn walk_to(&self) -> (r: (isize, isize))
        ensures
            (r.0 as int, r.1 as int) == walk_to_spec(*self),
    {
        match self {
            Direction::N => (0, -1),
            Direction::S => (0, 1),
            Direction::E => (1, 0),
            Direction::W => (-1, 0),
        }
    }

    /// The opposite side.
    pub fn opposite(&self) -> (r: Self)
        ensures
            r == opposite_spec(*self),
    {
        match self {
            Direction::N => Direction::S,
            Direction::S => Direction::N,
            Direction::E => Direction::W,
            Direction::W => Direction::E,
        }
    }
}

/// The grid of tree heights; the top left cell is the origin.
pub struct Grid {
    pub trees: Vec<Vec<u8>>,
}

impl Grid {
    /// The grid contents, row by row.
    pub open spec fn rows(&self) -> Seq<Seq<u8>> {
        self.trees@.map(|i: int, r: Vec<u8>| r@)
    }

    /// Whether an integer position denotes a cell of the grid.
    pub open spec fn valid(&self, x: int, y: int) -> bool {
        0 <= y < self.rows().len() && 0 <= x < self.rows()[y].len()
    }

    /// The height at an integer position, when it denotes a cell.
    pub open spec fn at(&self, x: int, y: int) -> u8 {
        self.rows()[y][x]
    }

    /// An empty grid.
    pub fn new() -> (r: Self)
        ensures
            r.rows().len() == 0,
    {
        Self { trees: Vec::new() }
    }

    /// The height of a cell, or `None` outside the grid.
    pub fn get(&self, coord: Coord) -> (r: Option<u8>)
        ensures
            r == if self.valid(coord.0 as int, coord.1 as int) {
                Some(self.at(coord.0 as int, coord.1 as int))
            } else {
                None::<u8>
            },
    {
        match self.trees.get(coord.1) {
            Some(row) => match row.get(coord.0) {
                Some(h) => Some(*h),
                None => None,
            },
            None => None,
        }
    }

    /// The number of rows.
    pub fn height(&self) -> (r: usize)
        ensures
            r == self.rows().len(),
    {
        self.trees.len()
    }

    /// The length of the first row, or zero for an empty grid.
    pub fn width(&self) -> (r: usize)
        ensures
            self.rows().len() == 0 ==> r == 0,
            self.rows().len() > 0 ==> r == self.rows()[0].len(),
    {
        if self.trees.len() == 0 {
            0
        } else {
            self.trees[0].len()
        }
    }

    /// Builds a grid from its text: one row per line, one digit per tree.
    /// `None` exactly when a line holds a non-digit before its trailing
    /// whitespace.
    pub fn try_from(value: &str) -> (r: Option<Grid>)
        ensures
            ({
                let lines = crate::text::split_lines_spec(value.spec_bytes()).map(
                    |i: int, l: Seq<u8>| crate::text::trim_end_spec(l),
                );
                match r {
                    Some(g) => g.rows().len() == lines.len() && forall|i: int|
                        0 <= i < lines.len() ==> all_digits(lines[i]) && #[trigger] g.rows()[i]
                            == lines[i].map(|j: int, b: u8| (b - 48) as u8),
                    None => exists|i: int|
                        0 <= i < lines.len() && !all_digits(#[trigger] lines[i]),
                }
            }),
    {
        let raw = crate::text::split_lines(value);
        let ghost lv = raw@.map(|i: int, l: Vec<u8>| l@).map(
            |i: int, l: Seq<u8>| crate::text::trim_end_spec(l),
        );
        let mut trees: Vec<Vec<u8>> = Vec::new();
        let mut i: usize = 0;
        while i < raw.len()
            invariant
                i <= lv.len(),
                lv == raw@.map(|k: int, l: Vec<u8>| l@).map(
                    |k: int, l: Seq<u8>| crate::text::trim_end_spec(l),
                ),
                lv == crate::text::split_lines_spec(value.spec_bytes()).map(
                    |k: int, l: Seq<u8>| crate::text::trim_end_spec(l),
                ),
                trees@.map(|k: int, r: Vec<u8>| r@).len() == i,
                forall|k: int|
                    0 <= k < i ==> all_digits(#[trigger] lv[k]) && trees@.map(
                        |q: int, r: Vec<u8>| r@,
                    )[k] == lv[k].map(|j: int, b: u8| (b - 48) as u8),
            decreases lv.len() - i,
        {
            let ghost t0 = trees@.map(|q: int, r: Vec<u8>| r@);
            let line = crate::text::trim_end_line(&raw[i]);
            proof {
                assert(line@ == lv[i as int]);
            }
            let mut row: Vec<u8> = Vec::new();
            let mut x: usize = 0;
            while x < line.len()
                invariant
                    x <= line@.len(),
                    i < lv.len(),
                    line@ == lv[i as int],
                    lv == crate::text::split_lines_spec(value.spec_bytes()).map(
                        |k: int, l: Seq<u8>| crate::text::trim_end_spec(l),
                    ),
                    forall|k: int| 0 <= k < x ==> crate::text::is_digit(#[trigger] line@[k]),
                    row@ =~= line@.take(x as int).map(|j: int, b: u8| (b - 48) as u8),
                decreases line@.len() - x,
            {
                let b = line[x];
                if !(48 <= b && b <= 57) {
                    proof {
                        assert(!crate::text::is_digit(lv[i as int][x as int]));
                        assert(!all_digits(lv[i as int]));
                    }
                    return None;
                }
                row.push(b - 48);
                proof {
                    assert(line@.take(x + 1).map(|j: int, b: u8| (b - 48) as u8) =~= line@.take(
                        x as int,
                    ).map(|j: int, b: u8| (b - 48) as u8).push((line@[x as int] - 48) as u8));
                }
                x += 1;
            }
            proof {
                assert(line@.take(line@.len() as int) =~= line@);
            }
            trees.push(row);
            proof {
                assert(trees@.map(|q: int, r: Vec<u8>| r@) =~= t0.push(
                    lv[i as int].map(|j: int, b: u8| (b - 48) as u8),
                ));
            }
            i += 1;
        }
        Some(Grid { trees })
    }
}

/// Every byte of the line is a digit.
pub open spec fn all_digits(l: Seq<u8>) -> bool {
    forall|k: int| 0 <= k < l.len() ==> crate::text::is_digit(#[trigger] l[k])
}

/// Adds a signed offset to an unsigned coordinate, when the result stays
/// representable.
pub fn signed_add(a: usize, b: isize) -> (r: Option<usize>)
    requires
        a <= isize::MAX,
    ensures
        a + b >= 0 ==> r == Some(((a + b) as usize)),
        a + b < 0 ==> r is None,
{
    if b >= 0 {
        Some(a + (b as usize))
    } else {
        let nb = ((-(b + 1)) as usize) + 1;
        if nb > a {
            None
        } else {
            Some(a - nb)
        }
    }
}

/// Whether every position on the contiguous in-grid ray from `c` (exclusive)
/// along `delta`, up to `k` steps, exists and which heights it shows: the
/// ray is read until its first step outside the grid.
pub open spec fn ray_valid(g: &Grid, c: Coord, delta: (int, int), k: int) -> bool {
    forall|j: int|
        1 <= j <= k ==> g.valid(c.0 + j * delta.0, #[trigger] (c.1 + j * delta.1))
}

/// Every tree strictly between `c` and the grid edge along `delta` is lower
/// than `c`'s own height.
pub open spec fn ray_clear(g: &Grid, c: Coord, delta: (int, int)) -> bool {
    forall|k: int|
        #![trigger (c.1 + k * delta.1)]
        k >= 1 && ray_valid(g, c, delta, k) ==> g.at(c.0 + k * delta.0, c.1 + k * delta.1) < g.at(
            c.0 as int,
            c.1 as int,
        )
}

/// Whether `c` is visible from the given side: the walk leaving `c` in the
/// side's scanning direction meets only strictly lower trees.
pub open spec fn visible_from_spec(g: &Grid, c: Coord, from: Direction) -> bool {
    &&& g.valid(c.0 as int, c.1 as int)
    &&& ray_clear(g, c, walk_to_spec(opposite_spec(from)))
}

/// Whether `c` is visible from any side.
pub open spec fn visible_spec(g: &Grid, c: Coord) -> bool {
    ||| visible_from_spec(g, c, Direction::N)
    ||| visible_from_spec(g, c, Direction::S)
    ||| visible_from_spec(g, c, Direction::E)
    ||| visible_from_spec(g, c, Direction::W)
}

impl Grid {
    /// Visibility of `c` from the given side.
    pub fn visible_from(&self, coord: Coord, from_direction: Direction) -> (r: bool)
        requires
            self.rows().len() <= isize::MAX,
            forall|y: int| 0 <= y < self.rows().len() ==> #[trigger] self.rows()[y].len()
                <= isize::MAX,
        ensures
            r == visible_from_spec(self, coord, from_direction),
    {
        let (dx, dy) = from_direction.opposite().walk_to();
        let ghost delta = (dx as int, dy as int);
        let start_height = match self.get(coord) {
            Some(h) => h,
            None => {
                return false;
            },
        };
        let mut x = coord.0;
        let mut y = coord.1;
        let ghost mut k: int = 0;
        loop
            invariant
                self.rows().len() <= isize::MAX,
                forall|yy: int| 0 <= yy < self.rows().len() ==> #[trigger] self.rows()[yy].len()
                    <= isize::MAX,
                (dx as int, dy as int) == delta,
                delta == walk_to_spec(opposite_spec(from_direction)),
                self.valid(coord.0 as int, coord.1 as int),
                start_height == self.at(coord.0 as int, coord.1 as int),
                k >= 0,
                x == coord.0 + k * delta.0,
                y == coord.1 + k * delta.1,
                self.valid(x as int, y as int),
                ray_valid(self, coord, delta, k),
                forall|j: int|
                    #![trigger (coord.1 + j * delta.1)]
                    1 <= j <= k ==> self.at(coord.0 + j * delta.0, coord.1 + j * delta.1)
                        < start_height,
            decreases walk_measure(self, x as int, y as int, delta),
        {
            let nx = match signed_add(x, dx) {
                Some(v) => v,
                None => {
                    proof {
                        lemma_step(coord, delta, k);
                        lemma_ray_blocked(self, coord, delta, k, start_height);
                    }
                    return true;
                },
            };
            let ny = match signed_add(y, dy) {
                Some(v) => v,
                None => {
                    proof {
                        lemma_step(coord, delta, k);
                        lemma_ray_blocked(self, coord, delta, k, start_height);
                    }
                    return true;
                },
            };
            let h = match self.get((nx, ny)) {
                Some(h) => h,
                None => {
                    proof {
                        lemma_step(coord, delta, k);
                        assert(!self.valid(nx as int, ny as int));
                        lemma_ray_blocked(self, coord, delta, k, start_height);
                    }
                    return true;
                },
            };
            proof {
                lemma_step(coord, delta, k);
                assert(nx as int == coord.0 + (k + 1) * delta.0);
                assert(ny as int == coord.1 + (k + 1) * delta.1);
                lemma_ray_valid_extend(self, coord, delta, k);
            }
            if h >= start_height {
                proof {
                    assert(self.at(coord.0 + (k + 1) * delta.0, coord.1 + (k + 1) * delta.1)
                        >= start_height);
                }
                return false;
            }
            x = nx;
            y = ny;
            proof {
                k = k + 1;
            }
        }
    }

    /// Visibility of `c` from some side.
    pub fn visible(&self, coord: Coord) -> (r: bool)
        requires
            self.rows().len() <= isize::MAX,
            forall|y: int| 0 <= y < self.rows().len() ==> #[trigger] self.rows()[y].len()
                <= isize::MAX,
        ensures
            r == visible_spec(self, coord),
    {
        self.visible_from(coord, Direction::N) || self.visible_from(coord, Direction::S)
            || self.visible_from(coord, Direction::E) || self.visible_from(
            coord,
            Direction::W,
        )
    }
}

/// One step along the ray adds one offset to the position.
proof fn lemma_step(c: Coord, delta: (int, int), k: int)
    ensures
        c.0 + (k + 1) * delta.0 == (c.0 + k * delta.0) + delta.0,
        c.1 + (k + 1) * delta.1 == (c.1 + k * delta.1) + delta.1,
{
    assert((k + 1) * delta.0 == k * delta.0 + delta.0) by (nonlinear_arith);
    assert((k + 1) * delta.1 == k * delta.1 + delta.1) by (nonlinear_arith);
}

/// When the ray leaves the grid right after step `k` and every tree on it so
/// far was lower, the whole contiguous ray is clear.
proof fn lemma_ray_blocked(g: &Grid, c: Coord, delta: (int, int), k: int, h0: u8)
    requires
        k >= 0,
        h0 == g.at(c.0 as int, c.1 as int),
        ray_valid(g, c, delta, k),
        !g.valid(c.0 + (k + 1) * delta.0, c.1 + (k + 1) * delta.1),
        forall|j: int|
            #![trigger (c.1 + j * delta.1)]
            1 <= j <= k ==> g.at(c.0 + j * delta.0, c.1 + j * delta.1) < h0,
    ensures
        ray_clear(g, c, delta),
{
    assert forall|m: int|
        #![trigger (c.1 + m * delta.1)]
        m >= 1 && ray_valid(g, c, delta, m) implies g.at(c.0 + m * delta.0, c.1 + m * delta.1)
        < h0 by {
        if m > k {
            assert(g.valid(c.0 + (k + 1) * delta.0, #[trigger] (c.1 + (k + 1) * delta.1)));
        }
    }
}

/// One more in-grid step extends the valid ray.
proof fn lemma_ray_valid_extend(g: &Grid, c: Coord, delta: (int, int), k: int)
    requires
        k >= 0,
        ray_valid(g, c, delta, k),
        g.valid(c.0 + (k + 1) * delta.0, c.1 + (k + 1) * delta.1),
    ensures
        ray_valid(g, c, delta, k + 1),
{
    assert forall|j: int|
        1 <= j <= k + 1 implies g.valid(c.0 + j * delta.0, #[trigger] (c.1 + j * delta.1)) by {
        if j <= k {
            assert(g.valid(c.0 + j * delta.0, #[trigger] (c.1 + j * delta.1)));
        }
    }
}

/// The distance to the grid edge in the walking direction.
pub open spec fn walk_measure(g: &Grid, x: int, y: int, delta: (int, int)) -> int {
    if delta.0 > 0 {
        g.rows()[y].len() + 1 - x
    } else if delta.0 < 0 {
        x + 1
    } else if delta.1 > 0 {
        g.rows().len() + 1 - y
    } else {
        y + 1
    }
}

/// A step-by-step walk across the grid from a starting cell in a fixed
/// direction; finished once it steps outside the grid.
pub struct WalkIterator<'a> {
    pub start: Coord,
    pub last: Option<Coord>,
    pub delta: (isize, isize),
    pub grid: &'a Grid,
}

impl<'a> WalkIterator<'a> {
    /// A walk from `start` stepping by `delta`.
    pub fn new(start: Coord, delta: (isize, isize), grid: &'a Grid) -> (r: Self)
        ensures
            r.start == start,
            r.delta == delta,
            r.last is None,
            r.grid == grid,
    {
        WalkIterator { grid, start, delta, last: None }
    }

    /// The next cell and height of the walk: the start first, then each
    /// following cell until one lies outside the grid.
    pub fn next(&mut self) -> (r: Option<(Coord, u8)>)
        requires
            old(self).start.0 <= isize::MAX,
            old(self).start.1 <= isize::MAX,
            match old(self).last {
                Some(c) => c.0 <= isize::MAX && c.1 <= isize::MAX,
                None => true,
            },
        ensures
            final(self).start == old(self).start,
            final(self).delta == old(self).delta,
            final(self).grid == old(self).grid,
            ({
                let g = old(self).grid;
                let p = match old(self).last {
                    Some(c) => (c.0 + old(self).delta.0, c.1 + old(self).delta.1),
                    None => (old(self).start.0 as int, old(self).start.1 as int),
                };
                if 0 <= p.0 && 0 <= p.1 && g.valid(p.0, p.1) {
                    r == Some((((p.0 as usize), (p.1 as usize)), g.at(p.0, p.1)))
                        && final(self).last == Some(((p.0 as usize), (p.1 as usize)))
                } else {
                    r is None && final(self).last == old(self).last
                }
            }),
    {
        let coord: Coord = match self.last {
            Some(last_coord) => {
                let nx = match signed_add(last_coord.0, self.delta.0) {
                    Some(v) => v,
                    None => {
                        return None;
                    },
                };
                let ny = match signed_add(last_coord.1, self.delta.1) {
                    Some(v) => v,
                    None => {
                        return None;
                    },
                };
                (nx, ny)
            },
            None => self.start,
        };
        let height = match self.grid.get(coord) {
            Some(h) => h,
            None => {
                return None;
            },
        };
        self.last = Some(coord);
        Some((coord, height))
    }
}

impl Grid {
    /// A walk from `start` stepping away from the given side.
    pub fn walk<'a>(&'a self, start: Coord, to_direction: Direction) -> (r: WalkIterator<'a>)
        ensures
            r.start == start,
            (r.delta.0 as int, r.delta.1 as int) == walk_to_spec(to_direction),
            r.last is None,
            r.grid == self,
    {
        WalkIterator::new(start, to_direction.walk_to(), self)
    }
}

/// The trees picked up by the edge scan from `(x, y)` along `delta` with the
/// tallest height seen so far: a tree is picked when it is the scan's start
/// or stands taller than everything before it, and the scan ends past a
/// tree of height nine or more, or at the grid edge.
pub open spec fn scan_rec(
    g: &Grid,
    x: int,
    y: int,
    delta: (int, int),
    tallest: int,
    sx: int,
    sy: int,
) -> Seq<(Coord, u8)>
    decreases
            (if 0 <= y < g.rows().len() {
                walk_measure(g, x, y, delta)
            } else {
                0
            }),
{
    if !g.valid(x, y) {
        Seq::empty()
    } else {
        let h = g.at(x, y);
        let taken = h > tallest || (x == sx && y == sy);
        let entry: Seq<(Coord, u8)> = if taken {
            seq![(((x as usize), (y as usize)), h)]
        } else {
            Seq::empty()
        };
        let t2 = if taken {
            h as int
        } else {
            tallest
        };
        if h >= 9 {
            entry
        } else if 0 <= y + delta.1 < g.rows().len() && 0 <= walk_measure(
            g,
            x + delta.0,
            y + delta.1,
            delta,
        ) < walk_measure(g, x, y, delta) {
            entry + scan_rec(g, x + delta.0, y + delta.1, delta, t2, sx, sy)
        } else {
            entry
        }
    }
}

/// The entry the scan picks at an in-grid cell.
pub open spec fn scan_entry(g: &Grid, x: int, y: int, taken: bool) -> Seq<(Coord, u8)> {
    if taken {
        seq![(((x as usize), (y as usize)), g.at(x, y))]
    } else {
        Seq::empty()
    }
}

/// One unfolding of the scan at an in-grid cell whose height is below nine:
/// its entry, followed by whatever the scan of the next cell yields, or by
/// nothing when the next cell lies outside the grid.
proof fn lemma_scan_unfold(
    g: &Grid,
    x: int,
    y: int,
    delta: (int, int),
    tallest: int,
    sx: int,
    sy: int,
    taken: bool,
)
    requires
        g.valid(x, y),
        g.at(x, y) < 9,
        taken == (g.at(x, y) > tallest || (x == sx && y == sy)),
        delta.0 == 0 || delta.1 == 0,
        -1 <= delta.0 <= 1,
        -1 <= delta.1 <= 1,
        !(delta.0 == 0 && delta.1 == 0),
    ensures
        g.valid(x + delta.0, y + delta.1) ==> scan_rec(g, x, y, delta, tallest, sx, sy)
            == scan_entry(g, x, y, taken) + scan_rec(
            g,
            x + delta.0,
            y + delta.1,
            delta,
            (if taken {
                g.at(x, y) as int
            } else {
                tallest
            }),
            sx,
            sy,
        ),
        !g.valid(x + delta.0, y + delta.1) ==> scan_rec(g, x, y, delta, tallest, sx, sy)
            == scan_entry(g, x, y, taken),
        g.valid(x + delta.0, y + delta.1) ==> walk_measure(g, x + delta.0, y + delta.1, delta)
            < walk_measure(g, x, y, delta),
    decreases 0int,
{
    let t2 = if taken {
        g.at(x, y) as int
    } else {
        tallest
    };
    if g.valid(x + delta.0, y + delta.1) {
        assert(walk_measure(g, x + delta.0, y + delta.1, delta) < walk_measure(g, x, y, delta))
            by {
            if delta.0 > 0 {
                assert(y + delta.1 == y);
            } else if delta.0 < 0 {
            } else if delta.1 > 0 {
            } else {
            }
        }
        assert(scan_rec(g, x, y, delta, tallest, sx, sy) =~= scan_entry(g, x, y, taken)
            + scan_rec(g, x + delta.0, y + delta.1, delta, t2, sx, sy));
    } else {
        if 0 <= y + delta.1 < g.rows().len() && 0 <= walk_measure(
            g,
            x + delta.0,
            y + delta.1,
            delta,
        ) < walk_measure(g, x, y, delta) {
            assert(scan_rec(g, x + delta.0, y + delta.1, delta, t2, sx, sy)
                =~= Seq::<(Coord, u8)>::empty());
            assert(scan_rec(g, x, y, delta, tallest, sx, sy) =~= scan_entry(g, x, y, taken)
                + scan_rec(g, x + delta.0, y + delta.1, delta, t2, sx, sy));
            assert(scan_entry(g, x, y, taken) + Seq::<(Coord, u8)>::empty() =~= scan_entry(
                g,
                x,
                y,
                taken,
            ));
        } else {
            assert(scan_rec(g, x, y, delta, tallest, sx, sy) =~= scan_entry(g, x, y, taken));
        }
    }
}

impl Grid {
    /// The trees visible from the given side, in one row or column: scans
    /// from the edge inward, picking each tree taller than all before it.
    pub fn all_visible_from(&self, col_or_row: usize, direction: Direction) -> (r: Vec<
        (Coord, u8),
    >)
        requires
            self.rows().len() <= isize::MAX,
            forall|y: int| 0 <= y < self.rows().len() ==> #[trigger] self.rows()[y].len()
                <= isize::MAX,
            col_or_row <= isize::MAX,
            match direction {
                Direction::N => true,
                Direction::S => self.rows().len() > 0,
                Direction::E => self.rows().len() > 0 && self.rows()[0].len() > 0,
                Direction::W => true,
            },
        ensures
            ({
                let start = scan_start(self, col_or_row as int, direction);
                r@ == scan_rec(
                    self,
                    start.0,
                    start.1,
                    walk_from_spec(direction),
                    0,
                    start.0,
                    start.1,
                )
            }),
    {
        let start: Coord = match direction {
            Direction::N => (col_or_row, 0),
            Direction::S => (col_or_row, self.height() - 1),
            Direction::E => (self.width() - 1, col_or_row),
            Direction::W => (0, col_or_row),
        };
        let (dx, dy) = direction.opposite().walk_to();
        let ghost delta = walk_from_spec(direction);
        proof {
            assert((dx as int, dy as int) == delta);
        }
        let ghost target = scan_rec(
            self,
            start.0 as int,
            start.1 as int,
            delta,
            0,
            start.0 as int,
            start.1 as int,
        );
        let mut out: Vec<(Coord, u8)> = Vec::new();
        let mut x = start.0;
        let mut y = start.1;
        let mut tallest: u8 = 0;
        let mut live: bool = true;
        while live
            invariant
                self.rows().len() <= isize::MAX,
                forall|yy: int| 0 <= yy < self.rows().len() ==> #[trigger] self.rows()[yy].len()
                    <= isize::MAX,
                delta == walk_from_spec(direction),
                (dx as int, dy as int) == delta,
                x <= isize::MAX && y <= isize::MAX,
                live ==> out@ + scan_rec(
                    self,
                    x as int,
                    y as int,
                    delta,
                    tallest as int,
                    start.0 as int,
                    start.1 as int,
                ) == target,
                live ==> (delta.0 > 0 ==> x >= start.0) && (delta.0 < 0 ==> x <= start.0) && (
                delta.1 > 0 ==> y >= start.1) && (delta.1 < 0 ==> y <= start.1),
                live ==> ((x == start.0 && y == start.1) ==> tallest == 0),
                !live ==> out@ == target,
            decreases
                    (if live {
                        1int
                    } else {
                        0int
                    }),
                    (if 0 <= (y as int) < self.rows().len() {
                        walk_measure(self, x as int, y as int, delta)
                    } else {
                        0int
                    }),
        {
            let h = match self.get((x, y)) {
                Some(h) => h,
                None => {
                    live = false;
                    continue ;
                },
            };
            let ghost t0 = tallest as int;
            let taken = h > tallest || (x == start.0 && y == start.1);
            if taken {
                out.push(((x, y), h));
                tallest = h;
            }
            if h >= 9 {
                live = false;
                continue ;
            }
            proof {
                lemma_scan_unfold(
                    self,
                    x as int,
                    y as int,
                    delta,
                    t0,
                    start.0 as int,
                    start.1 as int,
                    taken,
                );
            }
            let nx = match signed_add(x, dx) {
                Some(v) => v,
                None => {
                    live = false;
                    continue ;
                },
            };
            let ny = match signed_add(y, dy) {
                Some(v) => v,
                None => {
                    live = false;
                    continue ;
                },
            };
            if nx == start.0 && ny == start.1 {
                proof {
                    assert(false);
                }
            }
            x = nx;
            y = ny;
        }
        out
    }
}

/// The trees one whole edge scan picks up.
pub open spec fn scan_of(g: &Grid, col_or_row: int, d: Direction) -> Seq<(Coord, u8)> {
    let start = scan_start(g, col_or_row, d);
    scan_rec(g, start.0, start.1, walk_from_spec(d), 0, start.0, start.1)
}

/// Whether some edge scan of the grid picks up `p`.
pub open spec fn in_some_scan(g: &Grid, p: (Coord, u8)) -> bool {
    let w = if g.rows().len() == 0 {
        0int
    } else {
        g.rows()[0].len() as int
    };
    let h = g.rows().len() as int;
    ||| exists|c: int| 0 <= c < w && #[trigger] scan_of(g, c, Direction::N).contains(p)
    ||| exists|c: int| 0 <= c < w && #[trigger] scan_of(g, c, Direction::S).contains(p)
    ||| exists|c: int| 0 <= c < h && #[trigger] scan_of(g, c, Direction::E).contains(p)
    ||| exists|c: int| 0 <= c < h && #[trigger] scan_of(g, c, Direction::W).contains(p)
}

/// Appends the entries of one scan, skipping those already collected.
fn merge_dedup(out: &mut Vec<(Coord, u8)>, items: &Vec<(Coord, u8)>)
    requires
        forall|i: int, j: int| 0 <= i < j < old(out)@.len() ==> old(out)@[i] != old(out)@[j],
    ensures
        forall|i: int, j: int|
            0 <= i < j < final(out)@.len() ==> final(out)@[i] != final(out)@[j],
        forall|p: (Coord, u8)|
            #![trigger final(out)@.contains(p)]
            #![trigger old(out)@.contains(p)]
            #![trigger items@.contains(p)]
            final(out)@.contains(p) <==> (old(out)@.contains(p) || items@.contains(p)),
{
    let mut k: usize = 0;
    proof {
        assert(forall|p: (Coord, u8)|
            #[trigger] items@.take(0).contains(p) ==> false);
    }
    while k < items.len()
        invariant
            k <= items@.len(),
            forall|i: int, j: int| 0 <= i < j < out@.len() ==> out@[i] != out@[j],
            forall|p: (Coord, u8)|
                out@.contains(p) <==> (old(out)@.contains(p) || items@.take(k as int).contains(
                    p,
                )),
        decreases items@.len() - k,
    {
        let it = items[k];
        let mut found: bool = false;
        let mut s: usize = 0;
        while s < out.len()
            invariant
                s <= out@.len(),
                forall|q: int| 0 <= q < s ==> out@[q] != it || found,
                found ==> out@.contains(it),
            decreases out@.len() - s,
        {
            let e = out[s];
            if e.0.0 == it.0.0 && e.0.1 == it.0.1 && e.1 == it.1 {
                proof {
                    assert(out@[s as int] == it);
                }
                found = true;
            }
            s += 1;
        }
        let ghost o0 = out@;
        if !found {
            out.push(it);
        }
        proof {
            assert(items@.take(k + 1).drop_last() =~= items@.take(k as int));
            assert(items@.take(k + 1).last() == items@[k as int]);
            if !found {
                assert forall|q: int| 0 <= q < o0.len() implies o0[q] != it by {}
            }
            assert forall|p: (Coord, u8)|
                out@.contains(p) <==> (o0.contains(p) || p == it) by {
                if found {
                    assert(out@ == o0);
                } else {
                    assert(out@ == o0.push(it));
                    if out@.contains(p) {
                        let q = choose|q: int| 0 <= q < out@.len() && out@[q] == p;
                        if q < o0.len() {
                            assert(o0[q] == p);
                        }
                    }
                    if o0.contains(p) {
                        let q = choose|q: int| 0 <= q < o0.len() && o0[q] == p;
                        assert(out@[q] == p);
                    }
                    if p == it {
                        assert(out@[out@.len() - 1] == p);
                    }
                }
            }
            assert forall|p: (Coord, u8)|
                items@.take(k + 1).contains(p) <==> (items@.take(k as int).contains(p) || p
                    == it) by {
                if items@.take(k + 1).contains(p) {
                    let q = choose|q: int| 0 <= q < k + 1 && #[trigger] items@.take(k + 1)[q]
                        == p;
                    if q < k {
                        assert(items@.take(k as int)[q] == p);
                    }
                }
                if items@.take(k as int).contains(p) {
                    let q = choose|q: int| 0 <= q < k && #[trigger] items@.take(k as int)[q]
                        == p;
                    assert(items@.take(k + 1)[q] == p);
                }
                if p == it {
                    assert(items@.take(k + 1)[k as int] == p);
                }
            }
            assert forall|p: (Coord, u8)|
                out@.contains(p) <==> (old(out)@.contains(p) || items@.take(k + 1).contains(
                    p,
                )) by {
                assert(out@.contains(p) <==> (o0.contains(p) || p == it));
                assert(o0.contains(p) <==> (old(out)@.contains(p) || items@.take(
                    k as int,
                ).contains(p)));
                assert(items@.take(k + 1).contains(p) <==> (items@.take(k as int).contains(p)
                    || p == it));
            }
        }
        k += 1;
    }
    proof {
        assert(items@.take(items@.len() as int) =~= items@);
    }
}

impl Grid {
    /// Every tree some edge scan picks up, each once, with its height.
    pub fn all_visible(&self) -> (r: Vec<(Coord, u8)>)
        requires
            self.rows().len() <= isize::MAX,
            forall|y: int| 0 <= y < self.rows().len() ==> #[trigger] self.rows()[y].len()
                <= isize::MAX,
            self.rows().len() > 0 ==> self.rows()[0].len() > 0,
        ensures
            forall|i: int, j: int| 0 <= i < j < r@.len() ==> r@[i] != r@[j],
            forall|p: (Coord, u8)| r@.contains(p) <==> in_some_scan(self, p),
    {
        let w = self.width();
        let h = self.height();
        let mut out: Vec<(Coord, u8)> = Vec::new();
        let mut c: usize = 0;
        while c < w
            invariant
                self.rows().len() <= isize::MAX,
                forall|yy: int| 0 <= yy < self.rows().len() ==> #[trigger] self.rows()[yy].len()
                    <= isize::MAX,
                self.rows().len() > 0 ==> w == self.rows()[0].len(),
                self.rows().len() == 0 ==> w == 0,
                c <= w,
                forall|i: int, j: int| 0 <= i < j < out@.len() ==> out@[i] != out@[j],
                forall|p: (Coord, u8)|
                    out@.contains(p) <==> exists|cc: int|
                        0 <= cc < c && #[trigger] scan_of(self, cc, Direction::N).contains(p),
            decreases w - c,
        {
            let items = self.all_visible_from(c, Direction::N);
            let ghost o0 = out@;
            merge_dedup(&mut out, &items);
            proof {
                assert(items@ == scan_of(self, c as int, Direction::N));
                assert forall|p: (Coord, u8)|
                    out@.contains(p) <==> exists|cc: int|
                        0 <= cc < c + 1 && #[trigger] scan_of(self, cc, Direction::N).contains(
                            p,
                        ) by {
                    assert(out@.contains(p) <==> (o0.contains(p) || items@.contains(p)));
                    if out@.contains(p) {
                        if o0.contains(p) {
                            let cc = choose|cc: int|
                                0 <= cc < c && #[trigger] scan_of(self, cc, Direction::N).contains(
                                    p,
                                );
                            assert(scan_of(self, cc, Direction::N).contains(p));
                        } else {
                            assert(scan_of(self, c as int, Direction::N).contains(p));
                        }
                    }
                    if exists|cc: int|
                        0 <= cc < c + 1 && #[trigger] scan_of(self, cc, Direction::N).contains(
                            p,
                        ) {
                        let cc = choose|cc: int|
                            0 <= cc < c + 1 && #[trigger] scan_of(self, cc, Direction::N).contains(
                                p,
                            );
                        if cc < c {
                            assert(o0.contains(p));
                        } else {
                            assert(items@.contains(p));
                        }
                        assert(out@.contains(p));
                    }
                }
            }
            c += 1;
        }
        let mut c2: usize = 0;
        while c2 < w
            invariant
                self.rows().len() <= isize::MAX,
                forall|yy: int| 0 <= yy < self.rows().len() ==> #[trigger] self.rows()[yy].len()
                    <= isize::MAX,
                self.rows().len() > 0 ==> w == self.rows()[0].len(),
                self.rows().len() == 0 ==> w == 0,
                c2 <= w,
                forall|i: int, j: int| 0 <= i < j < out@.len() ==> out@[i] != out@[j],
                forall|p: (Coord, u8)|
                    out@.contains(p) <==> ((exists|cc: int|
                        0 <= cc < w && #[trigger] scan_of(self, cc, Direction::N).contains(p))
                        || (exists|cc: int|
                        0 <= cc < c2 && #[trigger] scan_of(self, cc, Direction::S).contains(
                            p,
                        ))),
            decreases w - c2,
        {
            let items = self.all_visible_from(c2, Direction::S);
            let ghost o0 = out@;
            merge_dedup(&mut out, &items);
            proof {
                assert(items@ == scan_of(self, c2 as int, Direction::S));
                assert forall|p: (Coord, u8)| out@.contains(p) <==> ((exists|cc: int|
                    0 <= cc < w && #[trigger] scan_of(self, cc, Direction::N).contains(p)) || (
                exists|cc: int|
                    0 <= cc < c2 + 1 && #[trigger] scan_of(self, cc, Direction::S).contains(
                        p,
                    ))) by {
                    assert(out@.contains(p) <==> (o0.contains(p) || items@.contains(p)));
                    if out@.contains(p) {
                        if !o0.contains(p) {
                            assert(scan_of(self, c2 as int, Direction::S).contains(p));
                        }
                    }
                    if exists|cc: int|
                        0 <= cc < c2 + 1 && #[trigger] scan_of(self, cc, Direction::S).contains(
                            p,
                        ) {
                        let cc = choose|cc: int|
                            0 <= cc < c2 + 1 && #[trigger] scan_of(self, cc, Direction::S).contains(
                                p,
                            );
                        if cc < c2 {
                            assert(o0.contains(p));
                        } else {
                            assert(items@.contains(p));
                        }
                        assert(out@.contains(p));
                    }
                    if exists|cc: int|
                        0 <= cc < w && #[trigger] scan_of(self, cc, Direction::N).contains(p) {
                        assert(o0.contains(p));
                        assert(out@.contains(p));
                    }
                }
            }
            c2 += 1;
        }
        let mut r1: usize = 0;
        while r1 < h
            invariant
                self.rows().len() <= isize::MAX,
                forall|yy: int| 0 <= yy < self.rows().len() ==> #[trigger] self.rows()[yy].len()
                    <= isize::MAX,
                self.rows().len() > 0 ==> w == self.rows()[0].len() && self.rows()[0].len() > 0,
                self.rows().len() == 0 ==> w == 0,
                h == self.rows().len(),
                r1 <= h,
                forall|i: int, j: int| 0 <= i < j < out@.len() ==> out@[i] != out@[j],
                forall|p: (Coord, u8)|
                    out@.contains(p) <==> ((exists|cc: int|
                        0 <= cc < w && #[trigger] scan_of(self, cc, Direction::N).contains(p))
                        || (exists|cc: int|
                        0 <= cc < w && #[trigger] scan_of(self, cc, Direction::S).contains(p))
                        || (exists|cc: int|
                        0 <= cc < r1 && #[trigger] scan_of(self, cc, Direction::E).contains(
                            p,
                        ))),
            decreases h - r1,
        {
            let items = self.all_visible_from(r1, Direction::E);
            let ghost o0 = out@;
            merge_dedup(&mut out, &items);
            proof {
                assert(items@ == scan_of(self, r1 as int, Direction::E));
                assert forall|p: (Coord, u8)| out@.contains(p) <==> ((exists|cc: int|
                    0 <= cc < w && #[trigger] scan_of(self, cc, Direction::N).contains(p)) || (
                exists|cc: int|
                    0 <= cc < w && #[trigger] scan_of(self, cc, Direction::S).contains(p)) || (
                exists|cc: int|
                    0 <= cc < r1 + 1 && #[trigger] scan_of(self, cc, Direction::E).contains(
                        p,
                    ))) by {
                    assert(out@.contains(p) <==> (o0.contains(p) || items@.contains(p)));
                    if out@.contains(p) {
                        if !o0.contains(p) {
                            assert(scan_of(self, r1 as int, Direction::E).contains(p));
                        }
                    }
                    if exists|cc: int|
                        0 <= cc < r1 + 1 && #[trigger] scan_of(self, cc, Direction::E).contains(
                            p,
                        ) {
                        let cc = choose|cc: int|
                            0 <= cc < r1 + 1 && #[trigger] scan_of(self, cc, Direction::E).contains(
                                p,
                            );
                        if cc < r1 {
                            assert(o0.contains(p));
                        } else {
                            assert(items@.contains(p));
                        }
                        assert(out@.contains(p));
                    }
                    if (exists|cc: int|
                        0 <= cc < w && #[trigger] scan_of(self, cc, Direction::N).contains(p)) || (
                    exists|cc: int|
                        0 <= cc < w && #[trigger] scan_of(self, cc, Direction::S).contains(p)) {
                        assert(o0.contains(p));
                        assert(out@.contains(p));
                    }
                }
            }
            r1 += 1;
        }
        let mut r2: usize = 0;
        while r2 < h
            invariant
                self.rows().len() <= isize::MAX,
                forall|yy: int| 0 <= yy < self.rows().len() ==> #[trigger] self.rows()[yy].len()
                    <= isize::MAX,
                self.rows().len() > 0 ==> w == self.rows()[0].len(),
                self.rows().len() == 0 ==> w == 0,
                h == self.rows().len(),
                r2 <= h,
                forall|i: int, j: int| 0 <= i < j < out@.len() ==> out@[i] != out@[j],
                forall|p: (Coord, u8)|
                    out@.contains(p) <==> ((exists|cc: int|
                        0 <= cc < w && #[trigger] scan_of(self, cc, Direction::N).contains(p))
                        || (exists|cc: int|
                        0 <= cc < w && #[trigger] scan_of(self, cc, Direction::S).contains(p))
                        || (exists|cc: int|
                        0 <= cc < h && #[trigger] scan_of(self, cc, Direction::E).contains(p))
                        || (exists|cc: int|
                        0 <= cc < r2 && #[trigger] scan_of(self, cc, Direction::W).contains(
                            p,
                        ))),
            decreases h - r2,
        {
            let items = self.all_visible_from(r2, Direction::W);
            let ghost o0 = out@;
            merge_dedup(&mut out, &items);
            proof {
                assert(items@ == scan_of(self, r2 as int, Direction::W));
                assert forall|p: (Coord, u8)| out@.contains(p) <==> ((exists|cc: int|
                    0 <= cc < w && #[trigger] scan_of(self, cc, Direction::N).contains(p)) || (
                exists|cc: int|
                    0 <= cc < w && #[trigger] scan_of(self, cc, Direction::S).contains(p)) || (
                exists|cc: int|
                    0 <= cc < h && #[trigger] scan_of(self, cc, Direction::E).contains(p)) || (
                exists|cc: int|
                    0 <= cc < r2 + 1 && #[trigger] scan_of(self, cc, Direction::W).contains(
                        p,
                    ))) by {
                    assert(out@.contains(p) <==> (o0.contains(p) || items@.contains(p)));
                    if out@.contains(p) {
                        if !o0.contains(p) {
                            assert(scan_of(self, r2 as int, Direction::W).contains(p));
                        }
                    }
                    if exists|cc: int|
                        0 <= cc < r2 + 1 && #[trigger] scan_of(self, cc, Direction::W).contains(
                            p,
                        ) {
                        let cc = choose|cc: int|
                            0 <= cc < r2 + 1 && #[trigger] scan_of(self, cc, Direction::W).contains(
                                p,
                            );
                        if cc < r2 {
                            assert(o0.contains(p));
                        } else {
                            assert(items@.contains(p));
                        }
                        assert(out@.contains(p));
                    }
                    if (exists|cc: int|
                        0 <= cc < w && #[trigger] scan_of(self, cc, Direction::N).contains(p)) || (
                    exists|cc: int|
                        0 <= cc < w && #[trigger] scan_of(self, cc, Direction::S).contains(p)) || (
                    exists|cc: int|
                        0 <= cc < h && #[trigger] scan_of(self, cc, Direction::E).contains(p)) {
                        assert(o0.contains(p));
                        assert(out@.contains(p));
                    }
                }
            }
            r2 += 1;
        }
        out
    }
}

/// Where the edge scan for a side begins.
pub open spec fn scan_start(g: &Grid, col_or_row: int, direction: Direction) -> (int, int) {
    match direction {
        Direction::N => (col_or_row, 0),
        Direction::S => (col_or_row, g.rows().len() - 1),
        Direction::E => (g.rows()[0].len() - 1, col_or_row),
        Direction::W => (0, col_or_row),
    }
}

} // verus!