//! Shortest paths over an elevation grid.
//!
//! A `HeightMap` is a rectangle of elevations with a marked start and end cell.
//! `climb` finds a shortest path from start to end where each step may rise
//! by at most one unit; `descend` finds a shortest path from the end down to
//! a cell of minimum elevation, where each step may drop by at most one unit.
//! The search engine `_bfs` is proved to return a path of minimum length
//! among all legal paths, or to report that no such path exists.

use vstd::prelude::*;
use vstd::string::StringSliceAdditionalSpecFns;

verus! {

/// A cell position: `(x, y)` where `x` indexes within a row and `y` picks the row.
pub type Coord = (usize, usize);

/// An elevation grid with its two marked cells.
#[derive(Debug)]
pub struct HeightMap {
    elevations: Vec<Vec<u8>>,
    start: Coord,
    end: Coord,
}

impl HeightMap {
    /// The grid contents, as a sequence of rows of elevations.
    pub closed spec fn rows(&self) -> Seq<Seq<u8>> {
        self.elevations@.map(|i: int, r: Vec<u8>| r@)
    }

    /// The marked start cell.
    pub closed spec fn start_spec(&self) -> Coord {
        self.start
    }

    /// The marked end cell.
    pub closed spec fn end_spec(&self) -> Coord {
        self.end
    }

    /// Whether `c` denotes a cell that actually exists in the grid.
    pub open spec fn in_shape(&self, c: Coord) -> bool {
        c.1 < self.rows().len() && c.0 < self.rows()[c.1 as int].len()
    }

    /// The elevation at `c`, if `c` is a cell of the grid.
    pub open spec fn elev(&self, c: Coord) -> Option<u8> {
        if self.in_shape(c) {
            Some(self.rows()[c.1 as int][c.0 as int])
        } else {
            None
        }
    }

    /// Returns the elevation for a coordinate inside the grid, else `None`.
    pub fn get(&self, coord: Coord) -> (r: Option<u8>)
        ensures
            r == self.elev(coord),
    {
        match self.elevations.get(coord.1) {
            Some(row) => match row.get(coord.0) {
                Some(h) => Some(*h),
                None => None,
            },
            None => None,
        }
    }

    /// The number of rows.
    pub fn height(&self) -> (r: usize)
        ensures
            r == self.rows().len(),
    {
        self.elevations.len()
    }

    /// The length of the first row, or zero for an empty grid.
    pub fn width(&self) -> (r: usize)
        ensures
            self.rows().len() == 0 ==> r == 0,
            self.rows().len() > 0 ==> r == self.rows()[0].len(),
    {
        if self.elevations.len() == 0 {
            0
        } else {
            self.elevations[0].len()
        }
    }

    /// Whether a climbing step from `from` to `to` is legal: both cells exist
    /// and the destination is at most one unit higher than the source.
    pub open spec fn climb_ok(&self, from: Coord, to: Coord) -> bool {
        match (self.elev(from), self.elev(to)) {
            (Some(f), Some(t)) => t <= f + 1,
            _ => false,
        }
    }

    /// Whether a descending step from `from` to `to` is legal: both cells exist
    /// and the destination is at most one unit lower than the source.
    pub open spec fn descend_ok(&self, from: Coord, to: Coord) -> bool {
        match (self.elev(from), self.elev(to)) {
            (Some(f), Some(t)) => f <= t + 1,
            _ => false,
        }
    }

    /// Climb-rule legality test.
    pub fn can_climb(&self, from: Coord, to: Coord) -> (r: bool)
        ensures
            r == self.climb_ok(from, to),
    {
        match (self.get(from), self.get(to)) {
            (Some(from_height), Some(to_height)) => to_height.saturating_sub(from_height) <= 1,
            _ => false,
        }
    }

    /// Descend-rule legality test.
    pub fn can_descend(&self, from: Coord, to: Coord) -> (r: bool)
        ensures
            r == self.descend_ok(from, to),
    {
        match (self.get(from), self.get(to)) {
            (Some(from_height), Some(to_height)) => from_height.saturating_sub(to_height) <= 1,
            _ => false,
        }
    }
}

/// Whether two cells are one orthogonal step apart.
pub open spec fn adjacent(a: Coord, b: Coord) -> bool {
    ||| (b.1 == a.1 && (b.0 + 1 == a.0 || a.0 + 1 == b.0))
    ||| (b.0 == a.0 && (b.1 + 1 == a.1 || a.1 + 1 == b.1))
}

impl HeightMap {
    /// The orthogonal neighbours of `node` that are cells of the grid, in
    /// the fixed order left, up, down, right; empty if `node` itself is not
    /// a cell of the grid.
    pub fn candidates(&self, node: Coord) -> (r: Vec<Coord>)
        ensures
            r@ == candidates_spec(self, node),
            forall|b: Coord|
                r@.contains(b) <==> (self.in_shape(node) && adjacent(node, b) && self.in_shape(
                    b,
                )),
            forall|i: int, j: int| 0 <= i < j < r@.len() ==> r@[i] != r@[j],
    {
        let mut r: Vec<Coord> = Vec::new();
        if node.1 >= self.elevations.len() {
            proof {
                assert(r@ =~= candidates_spec(self, node));
            }
            return r;
        }
        if node.0 >= self.elevations[node.1].len() {
            proof {
                assert(r@ =~= candidates_spec(self, node));
            }
            return r;
        }
        if node.0 > 0 {
            r.push((node.0 - 1, node.1));
        }
        if node.1 > 0 && node.0 < self.elevations[node.1 - 1].len() {
            r.push((node.0, node.1 - 1));
        }
        let down = (node.0, node.1 + 1);
        if down.1 < self.elevations.len() && down.0 < self.elevations[down.1].len() {
            r.push(down);
        }
        let right = (node.0 + 1, node.1);
        if right.0 < self.elevations[right.1].len() {
            r.push(right);
        }
        proof {
            assert(r@ =~= candidates_spec(self, node));
            let n = r@.len();
            assert forall|b: Coord|
                r@.contains(b) <==> (self.in_shape(node) && adjacent(node, b) && self.in_shape(
                    b,
                )) by {
                if r@.contains(b) {
                    let i = choose|i: int| 0 <= i < n && r@[i] == b;
                    assert(adjacent(node, r@[i]) && self.in_shape(r@[i]));
                }
                if self.in_shape(node) && adjacent(node, b) && self.in_shape(b) {
                    if b.1 == node.1 && b.0 + 1 == node.0 {
                        assert(b.0 < self.rows()[b.1 as int].len());
                        assert(r@[0] == b);
                    } else if b.0 == node.0 && b.1 + 1 == node.1 {
                        if node.0 > 0 {
                            assert(r@[1] == b);
                        } else {
                            assert(r@[0] == b);
                        }
                    } else if b.0 == node.0 && b.1 == node.1 + 1 {
                        assert(self.in_shape((node.0, ((node.1 + 1) as usize))));
                        assert(r@[candidates_spec(self, node).len() - (if self.in_shape(
                            ((node.0 + 1) as usize, node.1),
                        ) {
                            2int
                        } else {
                            1int
                        })] == b);
                    } else {
                        assert(r@[n - 1] == b);
                    }
                }
            }
        }
        r
    }
}

/// The candidate list of a cell: its in-grid orthogonal neighbours, in the
/// fixed order left, up, down, right, with out-of-range positions omitted.
pub open spec fn candidates_spec(m: &HeightMap, node: Coord) -> Seq<Coord> {
    if !m.in_shape(node) {
        Seq::empty()
    } else {
        let left: Seq<Coord> = if node.0 > 0 && m.in_shape((((node.0 - 1) as usize), node.1)) {
            seq![(((node.0 - 1) as usize), node.1)]
        } else {
            Seq::empty()
        };
        let up: Seq<Coord> = if node.1 > 0 && m.in_shape((node.0, ((node.1 - 1) as usize))) {
            seq![(node.0, ((node.1 - 1) as usize))]
        } else {
            Seq::empty()
        };
        let down: Seq<Coord> = if m.in_shape((node.0, ((node.1 + 1) as usize))) {
            seq![(node.0, ((node.1 + 1) as usize))]
        } else {
            Seq::empty()
        };
        let right: Seq<Coord> = if m.in_shape((((node.0 + 1) as usize), node.1)) {
            seq![((((node.0 + 1) as usize)), node.1)]
        } else {
            Seq::empty()
        };
        left + up + down + right
    }
}

/// The two search variants are given to the engine as a pair of predicates:
/// a step-legality rule and a completion rule.  The spec functions say what
/// the two executable tests decide.
pub trait SearchRule: Sized {
    /// Well-formedness of the rule value with respect to the map it is used on.
    spec fn wf(&self, m: &HeightMap) -> bool;

    /// Whether a step from `from` to `to` obeys the rule.
    spec fn legal(&self, m: &HeightMap, from: Coord, to: Coord) -> bool;

    /// Whether the search is complete upon reaching `c`.
    spec fn complete(&self, m: &HeightMap, c: Coord) -> bool;

    /// Executable legality test.
    fn is_legal_step(&self, m: &HeightMap, from: Coord, to: Coord) -> (r: bool)
        requires
            self.wf(m),
        ensures
            r == self.legal(m, from, to),
    ;

    /// Executable completion test.
    fn is_complete(&self, m: &HeightMap, c: Coord) -> (r: bool)
        requires
            self.wf(m),
        ensures
            r == self.complete(m, c),
    ;
}

/// A non-empty sequence of cells in which each consecutive pair is an
/// orthogonally adjacent, rule-legal step.
pub open spec fn is_path<R: SearchRule>(m: &HeightMap, rule: &R, p: Seq<Coord>) -> bool {
    &&& p.len() >= 1
    &&& forall|i: int|
        0 <= i < p.len() - 1 ==> adjacent(p[i], #[trigger] p[i + 1]) && rule.legal(m, p[i], p[i + 1])
}

/// A path that starts at `from` and ends at a cell the rule accepts as complete.
pub open spec fn is_route<R: SearchRule>(m: &HeightMap, rule: &R, from: Coord, p: Seq<Coord>) -> bool {
    &&& is_path(m, rule, p)
    &&& p[0] == from
    &&& rule.complete(m, p.last())
}

/// `c` can be reached from `from` by a rule-legal path with exactly `k` edges.
pub open spec fn reach<R: SearchRule>(m: &HeightMap, rule: &R, from: Coord, c: Coord, k: int) -> bool {
    exists|p: Seq<Coord>|
        #[trigger] is_path(m, rule, p) && p[0] == from && p.last() == c && p.len() == k + 1
}

/// A prefix of a path is a path.
proof fn lemma_path_prefix<R: SearchRule>(m: &HeightMap, rule: &R, p: Seq<Coord>, n: int)
    requires
        is_path(m, rule, p),
        1 <= n <= p.len(),
    ensures
        is_path(m, rule, p.take(n)),
{
    let q = p.take(n);
    assert forall|i: int| 0 <= i < q.len() - 1 implies adjacent(q[i], #[trigger] q[i + 1])
        && rule.legal(m, q[i], q[i + 1]) by {
        assert(q[i] == p[i] && q[i + 1] == p[i + 1]);
    }
}

/// The climbing rule: a step may rise by at most one unit, and the search is
/// complete at the marked end cell.
pub struct ClimbRule;

impl SearchRule for ClimbRule {
    open spec fn wf(&self, m: &HeightMap) -> bool {
        true
    }

    open spec fn legal(&self, m: &HeightMap, from: Coord, to: Coord) -> bool {
        m.climb_ok(from, to)
    }

    open spec fn complete(&self, m: &HeightMap, c: Coord) -> bool {
        c == m.end_spec()
    }

    fn is_legal_step(&self, m: &HeightMap, from: Coord, to: Coord) -> (r: bool)
        ensures
            r == self.legal(m, from, to),
    {
        m.can_climb(from, to)
    }

    fn is_complete(&self, m: &HeightMap, c: Coord) -> (r: bool)
        ensures
            r == self.complete(m, c),
    {
        let e = m.end;
        c.0 == e.0 && c.1 == e.1
    }
}

/// `c` is a cell of the grid and no cell has a lower elevation.
pub open spec fn lowest_cell(m: &HeightMap, c: Coord) -> bool {
    &&& m.elev(c) is Some
    &&& forall|d: Coord| #[trigger] m.elev(d) is Some ==> m.elev(c).unwrap() <= m.elev(d).unwrap()
}

/// The descending rule: a step may drop by at most one unit, and the search is
/// complete at any cell of minimum elevation.  `lowest` caches that minimum.
pub struct DescendRule {
    lowest: u8,
}

impl SearchRule for DescendRule {
    closed spec fn wf(&self, m: &HeightMap) -> bool {
        &&& exists|c: Coord| m.elev(c) == Some(self.lowest)
        &&& forall|c: Coord| #[trigger] m.elev(c) is Some ==> self.lowest <= m.elev(c).unwrap()
    }

    open spec fn legal(&self, m: &HeightMap, from: Coord, to: Coord) -> bool {
        m.descend_ok(from, to)
    }

    open spec fn complete(&self, m: &HeightMap, c: Coord) -> bool {
        lowest_cell(m, c)
    }

    fn is_legal_step(&self, m: &HeightMap, from: Coord, to: Coord) -> (r: bool)
        ensures
            r == self.legal(m, from, to),
    {
        m.can_descend(from, to)
    }

    fn is_complete(&self, m: &HeightMap, c: Coord) -> (r: bool)
        ensures
            r == self.complete(m, c),
    {
        match m.get(c) {
            Some(h) => {
                proof {
                    if h == self.lowest {
                        assert(lowest_cell(m, c));
                    } else {
                        let w = choose|w: Coord| m.elev(w) == Some(self.lowest);
                        assert(m.elev(w) is Some);
                    }
                }
                h == self.lowest
            },
            None => false,
        }
    }
}

/// View of a per-cell working table as a sequence of rows.
pub open spec fn table_view<T>(t: &Vec<Vec<T>>) -> Seq<Seq<T>> {
    t@.map(|i: int, r: Vec<T>| r@)
}

/// The table has exactly one entry per grid cell.
pub open spec fn table_shaped<T>(m: &HeightMap, t: Seq<Seq<T>>) -> bool {
    &&& t.len() == m.rows().len()
    &&& forall|y: int| 0 <= y < t.len() ==> #[trigger] t[y].len() == m.rows()[y].len()
}

/// The entry of a table at a cell, or `None` if the cell is outside the table.
pub open spec fn tab_at<T>(t: Seq<Seq<Option<T>>>, c: Coord) -> Option<T> {
    if c.1 < t.len() && c.0 < t[c.1 as int].len() {
        t[c.1 as int][c.0 as int]
    } else {
        None
    }
}

/// Number of `None` entries in one row.
pub open spec fn row_nones<T>(r: Seq<Option<T>>) -> nat
    decreases r.len(),
{
    if r.len() == 0 {
        0
    } else {
        row_nones(r.drop_last()) + if r.last() is None {
            1nat
        } else {
            0nat
        }
    }
}

/// Number of `None` entries in a table.
pub open spec fn tab_nones<T>(t: Seq<Seq<Option<T>>>) -> nat
    decreases t.len(),
{
    if t.len() == 0 {
        0
    } else {
        tab_nones(t.drop_last()) + row_nones(t.last())
    }
}

/// The number of cells in the grid.
pub open spec fn rows_total(rows: Seq<Seq<u8>>) -> nat
    decreases rows.len(),
{
    if rows.len() == 0 {
        0
    } else {
        rows_total(rows.drop_last()) + rows.last().len()
    }
}

impl HeightMap {
    /// The number of cells in the grid.
    pub open spec fn cell_count(&self) -> nat {
        rows_total(self.rows())
    }
}

proof fn lemma_row_nones_update<T>(r: Seq<Option<T>>, x: int, v: T)
    requires
        0 <= x < r.len(),
        r[x] is None,
    ensures
        row_nones(r.update(x, Some(v))) + 1 == row_nones(r),
    decreases r.len(),
{
    let r2 = r.update(x, Some(v));
    if x == r.len() - 1 {
        assert(r2.drop_last() =~= r.drop_last());
    } else {
        assert(r2.drop_last() =~= r.drop_last().update(x, Some(v)));
        lemma_row_nones_update(r.drop_last(), x, v);
    }
}

proof fn lemma_tab_nones_update<T>(t: Seq<Seq<Option<T>>>, y: int, r2: Seq<Option<T>>)
    requires
        0 <= y < t.len(),
    ensures
        tab_nones(t.update(y, r2)) + row_nones(t[y]) == tab_nones(t) + row_nones(r2),
    decreases t.len(),
{
    let t2 = t.update(y, r2);
    if y == t.len() - 1 {
        assert(t2.drop_last() =~= t.drop_last());
    } else {
        assert(t2.drop_last() =~= t.drop_last().update(y, r2));
        lemma_tab_nones_update(t.drop_last(), y, r2);
    }
}

proof fn lemma_row_nones_all_none<T>(r: Seq<Option<T>>)
    requires
        forall|i: int| 0 <= i < r.len() ==> r[i] is None,
    ensures
        row_nones(r) == r.len(),
    decreases r.len(),
{
    if r.len() > 0 {
        lemma_row_nones_all_none(r.drop_last());
    }
}

proof fn lemma_tab_nones_all_none<T>(m: &HeightMap, t: Seq<Seq<Option<T>>>)
    requires
        t.len() <= m.rows().len(),
        forall|y: int| 0 <= y < t.len() ==> #[trigger] t[y].len() == m.rows()[y].len(),
        forall|y: int, x: int| 0 <= y < t.len() && 0 <= x < t[y].len() ==> t[y][x] is None,
    ensures
        tab_nones(t) == rows_total(m.rows().subrange(0, t.len() as int)),
    decreases t.len(),
{
    if t.len() == 0 {
        assert(m.rows().subrange(0, 0) =~= Seq::<Seq<u8>>::empty());
    } else {
        lemma_tab_nones_all_none(m, t.drop_last());
        lemma_row_nones_all_none(t.last());
        let s = m.rows().subrange(0, t.len() as int);
        assert(s.drop_last() =~= m.rows().subrange(0, t.len() - 1));
        assert(rows_total(s) == rows_total(s.drop_last()) + s.last().len());
    }
}

impl HeightMap {
    /// A fresh working table with one copy of `v` per grid cell.
    fn table_like<T: Copy>(&self, v: T) -> (t: Vec<Vec<T>>)
        ensures
            table_shaped(self, table_view(&t)),
            forall|y: int, x: int|
                0 <= y < table_view(&t).len() && 0 <= x < table_view(&t)[y].len()
                    ==> table_view(&t)[y][x] == v,
    {
        let mut t: Vec<Vec<T>> = Vec::new();
        let mut y: usize = 0;
        while y < self.elevations.len()
            invariant
                y <= self.elevations.len(),
                table_view(&t).len() == y,
                forall|i: int| 0 <= i < y ==> #[trigger] table_view(&t)[i].len() == self.rows()[i].len(),
                forall|i: int, x: int|
                    0 <= i < y && 0 <= x < table_view(&t)[i].len() ==> table_view(&t)[i][x] == v,
            decreases self.elevations.len() - y,
        {
            let ghost tv0 = table_view(&t);
            let n = self.elevations[y].len();
            let mut row: Vec<T> = Vec::new();
            let mut x: usize = 0;
            while x < n
                invariant
                    x <= n,
                    row@.len() == x,
                    forall|i: int| 0 <= i < x ==> row@[i] == v,
                decreases n - x,
            {
                row.push(v);
                x += 1;
            }
            t.push(row);
            proof {
                assert(table_view(&t) =~= tv0.push(row@));
            }
            y += 1;
        }
        t
    }
}

/// Writes `Some(v)` at cell `c` of a working table.
fn tab_set<T>(t: &mut Vec<Vec<Option<T>>>, c: Coord, v: T)
    requires
        c.1 < old(t)@.len(),
        c.0 < old(t)@[c.1 as int]@.len(),
    ensures
        table_view(final(t)) == table_view(old(t)).update(
            c.1 as int,
            table_view(old(t))[c.1 as int].update(c.0 as int, Some(v)),
        ),
{
    let ghost t0 = table_view(old(t));
    t[c.1][c.0] = Some(v);
    proof {
        assert(table_view(t) =~= t0.update(c.1 as int, t0[c.1 as int].update(c.0 as int, Some(v))));
    }
}

/// What holds of every cell that the search has expanded: it was discovered,
/// it is not a completing cell, and each of its legal neighbours has been
/// discovered at most one layer deeper.
pub open spec fn expanded_ok<R: SearchRule>(
    m: &HeightMap,
    rule: &R,
    dist: Seq<Seq<Option<usize>>>,
    c: Coord,
    d: int,
) -> bool {
    &&& tab_at(dist, c) is Some
    &&& tab_at(dist, c).unwrap() <= d
    &&& !rule.complete(m, c)
    &&& forall|n: Coord|
        adjacent(c, n) && #[trigger] rule.legal(m, c, n)
            ==> tab_at(dist, n) is Some && tab_at(dist, n).unwrap() <= tab_at(dist, c).unwrap() + 1
}

/// The predecessor entry of each discovered cell (other than the source)
/// points one layer up along a legal step.
pub open spec fn pred_ok<R: SearchRule>(
    m: &HeightMap,
    rule: &R,
    dist: Seq<Seq<Option<usize>>>,
    pred: Seq<Seq<Option<Coord>>>,
    c: Coord,
) -> bool {
    match tab_at(dist, c) {
        Some(e) => e >= 1 ==> match tab_at(pred, c) {
            Some(p) => tab_at(dist, p) == Some((e - 1) as usize) && adjacent(p, c) && rule.legal(
                m,
                p,
                c,
            ),
            None => false,
        },
        None => true,
    }
}

/// The invariant of the search as a whole, between layers and within them.
pub open spec fn bfs_inv<R: SearchRule>(
    m: &HeightMap,
    rule: &R,
    from: Coord,
    dist: Seq<Seq<Option<usize>>>,
    pred: Seq<Seq<Option<Coord>>>,
    expanded: Set<Coord>,
    d: int,
) -> bool {
    &&& table_shaped(m, dist)
    &&& table_shaped(m, pred)
    &&& tab_at(dist, from) == Some(0usize)
    &&& forall|c: Coord| #[trigger] tab_at(dist, c) == Some(0usize) ==> c == from
    &&& forall|c: Coord| #[trigger] tab_at(dist, c) is Some ==> tab_at(dist, c).unwrap() <= d + 1
    &&& forall|c: Coord| pred_ok(m, rule, dist, pred, c)
    &&& forall|c: Coord| expanded.contains(c) ==> expanded_ok(m, rule, dist, c, d)
    &&& forall|c: Coord, k: int|
        0 <= k <= d && #[trigger] reach(m, rule, from, c, k) ==> tab_at(dist, c) is Some
            && tab_at(dist, c).unwrap() <= k
}

/// Once the frontier is empty the discovered set is closed under legal steps,
/// so every path from the source stays inside it.
proof fn lemma_closed_path<R: SearchRule>(
    m: &HeightMap,
    rule: &R,
    from: Coord,
    dist: Seq<Seq<Option<usize>>>,
    expanded: Set<Coord>,
    d: int,
    q: Seq<Coord>,
)
    requires
        tab_at(dist, from) is Some,
        forall|c: Coord| #[trigger] tab_at(dist, c) is Some ==> expanded.contains(c),
        forall|c: Coord| expanded.contains(c) ==> expanded_ok(m, rule, dist, c, d),
        is_path(m, rule, q),
        q[0] == from,
    ensures
        expanded.contains(q.last()),
    decreases q.len(),
{
    if q.len() == 1 {
        assert(q.last() == from);
    } else {
        let qq = q.take(q.len() - 1);
        lemma_path_prefix(m, rule, q, q.len() - 1);
        lemma_closed_path(m, rule, from, dist, expanded, d, qq);
        let prev = q[q.len() - 2];
        assert(qq.last() == prev);
        let i = q.len() - 2;
        assert(adjacent(q[i], q[i + 1]) && rule.legal(m, q[i], q[i + 1]));
        assert(q[i + 1] == q.last());
        assert(expanded_ok(m, rule, dist, prev, d));
    }
}

impl HeightMap {
    /// Walks predecessor entries backwards from `c` and returns the recorded
    /// path from the source to `c`.
    fn reconstruct<R: SearchRule>(
        &self,
        rule: &R,
        dist: &Vec<Vec<Option<usize>>>,
        pred: &Vec<Vec<Option<Coord>>>,
        from: Coord,
        c: Coord,
        dc: usize,
    ) -> (p: Vec<Coord>)
        requires
            table_shaped(self, table_view(dist)),
            tab_at(table_view(dist), c) == Some(dc),
            tab_at(table_view(dist), from) == Some(0usize),
            forall|cc: Coord| #[trigger] tab_at(table_view(dist), cc) == Some(0usize) ==> cc == from,
            forall|cc: Coord| pred_ok(self, rule, table_view(dist), table_view(pred), cc),
        ensures
            is_path(self, rule, p@),
            p@.len() == dc + 1,
            p@[0] == from,
            p@.last() == c,
    {
        let ghost dv = table_view(dist);
        let ghost pv = table_view(pred);
        let mut back: Vec<Coord> = Vec::new();
        back.push(c);
        let mut cursor: Coord = c;
        let mut e: usize = dc;
        while e > 0
            invariant
                table_shaped(self, dv),
                dv == table_view(dist),
                pv == table_view(pred),
                tab_at(dv, cursor) == Some(e),
                e <= dc,
                forall|cc: Coord| #[trigger] tab_at(dv, cc) == Some(0usize) ==> cc == from,
                forall|cc: Coord| pred_ok(self, rule, dv, pv, cc),
                back@.len() == dc - e + 1,
                back@[0] == c,
                back@.last() == cursor,
                forall|i: int|
                    0 <= i < back@.len() - 1 ==> adjacent(#[trigger] back@[i + 1], back@[i])
                        && rule.legal(self, back@[i + 1], back@[i]),
            decreases e,
        {
            assert(pred_ok(self, rule, dv, pv, cursor));
            let prev = pred[cursor.1][cursor.0].unwrap();
            back.push(prev);
            cursor = prev;
            e -= 1;
        }
        assert(cursor == from);
        let mut p: Vec<Coord> = Vec::new();
        let n = back.len();
        let mut j: usize = 0;
        while j < n
            invariant
                n == back@.len(),
                j <= n,
                p@.len() == j,
                forall|i: int| 0 <= i < j ==> #[trigger] p@[i] == back@[n - 1 - i],
            decreases n - j,
        {
            p.push(back[n - 1 - j]);
            j += 1;
        }
        proof {
            assert(p@[0] == back@[n - 1]);
            assert(p@.last() == back@[0]);
            assert forall|i: int| 0 <= i < p@.len() - 1 implies adjacent(p@[i], #[trigger] p@[i + 1])
                && rule.legal(self, p@[i], p@[i + 1]) by {
                assert(p@[i] == back@[n - 1 - i]);
                assert(p@[i + 1] == back@[n - 1 - (i + 1)]);
                assert(adjacent(back@[n - 2 - i + 1], back@[n - 2 - i]) && rule.legal(
                    self,
                    back@[n - 2 - i + 1],
                    back@[n - 2 - i],
                ));
            }
        }
        p
    }
}

/// With an empty frontier, no route exists at all: every path from the source
/// ends in an expanded cell, and no expanded cell completes the search.
proof fn lemma_no_route<R: SearchRule>(
    m: &HeightMap,
    rule: &R,
    from: Coord,
    dist: Seq<Seq<Option<usize>>>,
    expanded: Set<Coord>,
    d: int,
)
    requires
        tab_at(dist, from) is Some,
        forall|c: Coord| #[trigger] tab_at(dist, c) is Some ==> expanded.contains(c),
        forall|c: Coord| expanded.contains(c) ==> expanded_ok(m, rule, dist, c, d),
    ensures
        forall|q: Seq<Coord>| !#[trigger] is_route(m, rule, from, q),
{
    assert forall|q: Seq<Coord>| !#[trigger] is_route(m, rule, from, q) by {
        if is_route(m, rule, from, q) {
            lemma_closed_path(m, rule, from, dist, expanded, d, q);
            assert(expanded_ok(m, rule, dist, q.last(), d));
        }
    }
}

impl HeightMap {
    /// Breadth-first search from `from` under the given rule.  Returns a path
    /// of minimum length among all routes (paths from `from` whose last cell
    /// completes the search), or `None` exactly when no route exists.
    #[verifier::loop_isolation(false)]
    #[verifier::rlimit(100)]
    pub fn _bfs<R: SearchRule>(&self, rule: &R, from: Coord) -> (r: Option<Vec<Coord>>)
        requires
            rule.wf(self),
            self.in_shape(from),
            self.cell_count() <= usize::MAX,
            forall|a: Coord, b: Coord|
                #[trigger] rule.legal(self, a, b) ==> self.in_shape(a) && self.in_shape(b),
        ensures
            match r {
                Some(p) => is_route(self, rule, from, p@) && forall|q: Seq<Coord>|
                    #[trigger] is_route(self, rule, from, q) ==> p@.len() <= q.len(),
                None => forall|q: Seq<Coord>| !#[trigger] is_route(self, rule, from, q),
            },
    {
        let mut dist: Vec<Vec<Option<usize>>> = self.table_like(None);
        let mut pred: Vec<Vec<Option<Coord>>> = self.table_like(None);
        proof {
            lemma_tab_nones_all_none(self, table_view(&dist));
            assert(self.rows().subrange(0, table_view(&dist).len() as int) =~= self.rows());
            let dv = table_view(&dist);
            lemma_row_nones_update(dv[from.1 as int], from.0 as int, 0usize);
            lemma_tab_nones_update(dv, from.1 as int, dv[from.1 as int].update(from.0 as int, Some(0usize)));
        }
        tab_set(&mut dist, from, 0usize);
        let ghost n0 = tab_nones(table_view(&dist));
        proof {
            assert(n0 + 1 == self.cell_count());
        }
        let mut cur: Vec<Coord> = Vec::new();
        cur.push(from);
        let mut d: usize = 0;
        let ghost mut expanded: Set<Coord> = Set::<Coord>::empty();
        proof {
            assert forall|c: Coord| #[trigger] tab_at(table_view(&dist), c) is Some
                implies expanded.contains(c) || cur@.contains(c) by {
                if tab_at(table_view(&dist), c) is Some {
                    assert(c == from);
                    assert(cur@[0] == from);
                }
            }
            assert forall|c: Coord, k: int|
                0 <= k <= 0 && #[trigger] reach(self, rule, from, c, k) implies tab_at(
                table_view(&dist),
                c,
            ) is Some && tab_at(table_view(&dist), c).unwrap() <= k by {
                let p = choose|p: Seq<Coord>|
                    #[trigger] is_path(self, rule, p) && p[0] == from && p.last() == c && p.len()
                        == k + 1;
                assert(p.last() == p[0]);
            }
        }
        while cur.len() > 0
            invariant
                bfs_inv(self, rule, from, table_view(&dist), table_view(&pred), expanded, d as int),
                forall|j: int|
                    0 <= j < cur@.len() ==> tab_at(table_view(&dist), #[trigger] cur@[j]) == Some(d)
                        && !expanded.contains(cur@[j]),
                forall|j1: int, j2: int| 0 <= j1 < j2 < cur@.len() ==> cur@[j1] != cur@[j2],
                forall|c: Coord|
                    #[trigger] tab_at(table_view(&dist), c) is Some ==> expanded.contains(c)
                        || cur@.contains(c),
                d + tab_nones(table_view(&dist)) <= n0,
                n0 + 1 == self.cell_count(),
            decreases tab_nones(table_view(&dist)) + cur@.len(),
        {
            let ghost g0 = tab_nones(table_view(&dist));
            let mut nxt: Vec<Coord> = Vec::new();
            let mut i: usize = 0;
            while i < cur.len()
                invariant
                    i <= cur@.len(),
                    bfs_inv(self, rule, from, table_view(&dist), table_view(&pred), expanded, d as int),
                    forall|j: int|
                        0 <= j < cur@.len() ==> tab_at(table_view(&dist), #[trigger] cur@[j])
                            == Some(d),
                    forall|j: int| i <= j < cur@.len() ==> !expanded.contains(#[trigger] cur@[j]),
                    forall|j1: int, j2: int| 0 <= j1 < j2 < cur@.len() ==> cur@[j1] != cur@[j2],
                    forall|j: int|
                        0 <= j < nxt@.len() ==> tab_at(table_view(&dist), #[trigger] nxt@[j])
                            == Some((d + 1) as usize) && !expanded.contains(nxt@[j]),
                    forall|j1: int, j2: int| 0 <= j1 < j2 < nxt@.len() ==> nxt@[j1] != nxt@[j2],
                    forall|j: int| 0 <= j < i ==> expanded.contains(#[trigger] cur@[j]),
                    forall|c: Coord|
                        #[trigger] tab_at(table_view(&dist), c) is Some ==> expanded.contains(c)
                            || cur@.contains(c) || nxt@.contains(c),
                    tab_nones(table_view(&dist)) + nxt@.len() == g0,
                    d + tab_nones(table_view(&dist)) <= n0,
                decreases cur@.len() - i,
            {
                let cell = cur[i];
                if rule.is_complete(self, cell) {
                    proof {
                        let dv = table_view(&dist);
                        assert forall|q: Seq<Coord>|
                            #[trigger] is_route(self, rule, from, q) implies d + 1 <= q.len() by {
                            let k = q.len() - 1;
                            let z = q.last();
                            if k < d {
                                assert(is_path(self, rule, q) && q[0] == from && q.last() == z
                                    && q.len() == k + 1);
                                assert(reach(self, rule, from, z, k));
                                assert(tab_at(dv, z) is Some && tab_at(dv, z).unwrap() <= k);
                                if expanded.contains(z) {
                                    assert(expanded_ok(self, rule, dv, z, d as int));
                                } else if cur@.contains(z) {
                                    let j = choose|j: int| 0 <= j < cur@.len() && cur@[j] == z;
                                    assert(tab_at(dv, cur@[j]) == Some(d));
                                } else {
                                    assert(nxt@.contains(z));
                                    let j = choose|j: int| 0 <= j < nxt@.len() && nxt@[j] == z;
                                    assert(tab_at(dv, nxt@[j]) == Some((d + 1) as usize));
                                }
                            }
                        }
                    }
                    let p = self.reconstruct(rule, &dist, &pred, from, cell, d);
                    return Some(p);
                }
                let cands = self.candidates(cell);
                proof {
                    assert(tab_at(table_view(&dist), cell) is Some);
                    assert(self.in_shape(cell));
                }
                let mut j: usize = 0;
                while j < cands.len()
                    invariant
                        j <= cands@.len(),
                        bfs_inv(self, rule, from, table_view(&dist), table_view(&pred), expanded, d as int),
                        forall|b: Coord|
                            cands@.contains(b) <==> (self.in_shape(cell) && adjacent(cell, b)
                                && self.in_shape(b)),
                        tab_at(table_view(&dist), cell) == Some(d),
                        forall|jj: int|
                            0 <= jj < j && rule.legal(self, cell, #[trigger] cands@[jj])
                                ==> tab_at(table_view(&dist), cands@[jj]) is Some && tab_at(
                                table_view(&dist),
                                cands@[jj],
                            ).unwrap() <= d + 1,
                        forall|jx: int|
                            0 <= jx < cur@.len() ==> tab_at(table_view(&dist), #[trigger] cur@[jx])
                                == Some(d),
                        forall|jx: int| i <= jx < cur@.len() ==> !expanded.contains(#[trigger] cur@[jx]),
                        forall|j1: int, j2: int| 0 <= j1 < j2 < cur@.len() ==> cur@[j1] != cur@[j2],
                        forall|jx: int|
                            0 <= jx < nxt@.len() ==> tab_at(table_view(&dist), #[trigger] nxt@[jx])
                                == Some((d + 1) as usize) && !expanded.contains(nxt@[jx]),
                        forall|j1: int, j2: int| 0 <= j1 < j2 < nxt@.len() ==> nxt@[j1] != nxt@[j2],
                        forall|jx: int| 0 <= jx < i ==> expanded.contains(#[trigger] cur@[jx]),
                        forall|c: Coord|
                            #[trigger] tab_at(table_view(&dist), c) is Some ==> expanded.contains(c)
                                || cur@.contains(c) || nxt@.contains(c),
                        tab_nones(table_view(&dist)) + nxt@.len() == g0,
                        d + tab_nones(table_view(&dist)) <= n0,
                    decreases cands@.len() - j,
                {
                    let n = cands[j];
                    if rule.is_legal_step(self, cell, n) {
                        assert(self.in_shape(n));
                        if dist[n.1][n.0].is_none() {
                            let ghost dv0 = table_view(&dist);
                            let ghost pv0 = table_view(&pred);
                            let ghost nv0 = nxt@;
                            proof {
                                lemma_row_nones_update(
                                    dv0[n.1 as int],
                                    n.0 as int,
                                    ((d + 1) as usize),
                                );
                                lemma_tab_nones_update(
                                    dv0,
                                    n.1 as int,
                                    dv0[n.1 as int].update(n.0 as int, Some(((d + 1) as usize))),
                                );
                                assert(table_view(&pred)[n.1 as int] == pred@[n.1 as int]@);
                            }
                            let dd = d + 1;
                            tab_set(&mut dist, n, dd);
                            tab_set(&mut pred, n, cell);
                            nxt.push(n);
                            proof {
                                let dv = table_view(&dist);
                                let pv = table_view(&pred);
                                assert(tab_at(dv, n) == Some(dd));
                                assert(tab_at(pv, n) == Some(cell));
                                assert forall|cc: Coord| cc != n implies tab_at(dv, cc) == tab_at(
                                    dv0,
                                    cc,
                                ) && tab_at(pv, cc) == tab_at(pv0, cc) by {}
                                assert forall|cc: Coord|
                                    pred_ok(self, rule, dv, pv, cc) by {
                                    if cc == n {
                                        assert(cell != n);
                                        assert(tab_at(dv, cell) == Some(d));
                                    } else {
                                        assert(pred_ok(self, rule, dv0, pv0, cc));
                                        if tab_at(dv0, cc) is Some
                                            && tab_at(dv0, cc).unwrap() >= 1 {
                                            let p = tab_at(pv0, cc).unwrap();
                                            assert(tab_at(dv0, p) is Some);
                                            assert(p != n);
                                        }
                                    }
                                }
                                assert forall|c: Coord, k: int|
                                    0 <= k <= d && #[trigger] reach(self, rule, from, c, k)
                                    implies tab_at(dv, c) is Some
                                        && tab_at(dv, c).unwrap() <= k by {
                                    assert(tab_at(dv0, c) is Some && tab_at(dv0, c).unwrap() <= k);
                                    assert(c != n);
                                }
                                assert forall|c: Coord| #[trigger] tab_at(dv, c) is Some
                                    implies expanded.contains(c) || cur@.contains(c)
                                        || nxt@.contains(c) by {
                                    if c == n {
                                        assert(nxt@[nxt@.len() - 1] == n);
                                    } else {
                                        assert(tab_at(dv0, c) is Some);
                                        if nv0.contains(c) {
                                            let jx = choose|jx: int|
                                                0 <= jx < nv0.len() && nv0[jx] == c;
                                            assert(nxt@[jx] == c);
                                        }
                                    }
                                }
                                assert forall|c: Coord| expanded.contains(c)
                                    implies expanded_ok(self, rule, dv, c, d as int) by {
                                    assert(expanded_ok(self, rule, dv0, c, d as int));
                                    assert(c != n);
                                    assert forall|nb: Coord|
                                        adjacent(c, nb) && #[trigger] rule.legal(self, c, nb)
                                        implies tab_at(dv, nb) is Some && tab_at(dv, nb).unwrap()
                                            <= tab_at(dv, c).unwrap() + 1 by {
                                        assert(tab_at(dv0, nb) is Some);
                                        assert(nb != n);
                                    }
                                }
                            }
                        }
                    }
                    j += 1;
                }
                proof {
                    expanded = expanded.insert(cell);
                    let dv = table_view(&dist);
                    assert forall|nb: Coord|
                        adjacent(cell, nb) && #[trigger] rule.legal(self, cell, nb) implies tab_at(
                        dv,
                        nb,
                    ) is Some && tab_at(dv, nb).unwrap() <= tab_at(dv, cell).unwrap() + 1 by {
                        assert(cands@.contains(nb));
                        let jj = choose|jj: int| 0 <= jj < cands@.len() && cands@[jj] == nb;
                        assert(rule.legal(self, cell, cands@[jj]));
                    }
                    assert(expanded_ok(self, rule, dv, cell, d as int));
                }
                i += 1;
            }
            if nxt.len() == 0 {
                proof {
                    assert forall|c: Coord| #[trigger] tab_at(table_view(&dist), c) is Some
                        implies expanded.contains(c) by {
                        if cur@.contains(c) {
                            let jj = choose|jj: int| 0 <= jj < cur@.len() && cur@[jj] == c;
                            assert(expanded.contains(cur@[jj]));
                        }
                    }
                    lemma_no_route(
                        self,
                        rule,
                        from,
                        table_view(&dist),
                        expanded,
                        d as int,
                    );
                }
                return None;
            }
            proof {
                let dv = table_view(&dist);
                assert forall|c: Coord, k: int|
                    0 <= k <= d + 1 && #[trigger] reach(self, rule, from, c, k) implies tab_at(
                    dv,
                    c,
                ) is Some && tab_at(dv, c).unwrap() <= k by {
                    if k == d + 1 {
                        let p = choose|p: Seq<Coord>|
                            #[trigger] is_path(self, rule, p) && p[0] == from && p.last() == c
                                && p.len() == k + 1;
                        let pp = p.take(p.len() - 1);
                        lemma_path_prefix(self, rule, p, p.len() - 1);
                        let m2 = pp.last();
                        assert(pp[0] == from && pp.len() == k);
                        assert(reach(self, rule, from, m2, k - 1));
                        assert(tab_at(dv, m2) is Some && tab_at(dv, m2).unwrap() <= d);
                        assert(expanded.contains(m2)) by {
                            if !expanded.contains(m2) {
                                if cur@.contains(m2) {
                                    let jj = choose|jj: int| 0 <= jj < cur@.len() && cur@[jj] == m2;
                                    assert(expanded.contains(cur@[jj]));
                                } else {
                                    let jj = choose|jj: int| 0 <= jj < nxt@.len() && nxt@[jj] == m2;
                                    assert(tab_at(dv, nxt@[jj]) == Some((d + 1) as usize));
                                }
                            }
                        }
                        assert(expanded_ok(self, rule, dv, m2, d as int));
                        let ii = p.len() - 2;
                        assert(adjacent(p[ii], p[ii + 1]) && rule.legal(self, p[ii], p[ii + 1]));
                        assert(p[ii] == m2 && p[ii + 1] == c);
                    }
                }
            }
            cur = nxt;
            d += 1;
        }
        proof {
            lemma_no_route(self, rule, from, table_view(&dist), expanded, d as int);
        }
        None
    }
}

/// A non-empty cell sequence whose consecutive steps are adjacent and obey
/// the climbing rule.
pub open spec fn climb_path(m: &HeightMap, p: Seq<Coord>) -> bool {
    is_path(m, &ClimbRule, p)
}

/// A climbing path from the marked start to the marked end.
pub open spec fn climb_route(m: &HeightMap, p: Seq<Coord>) -> bool {
    is_route(m, &ClimbRule, m.start_spec(), p)
}

/// A non-empty cell sequence whose consecutive steps are adjacent and obey
/// the descending rule.
pub open spec fn descend_path(m: &HeightMap, p: Seq<Coord>) -> bool {
    &&& p.len() >= 1
    &&& forall|i: int|
        0 <= i < p.len() - 1 ==> adjacent(p[i], #[trigger] p[i + 1]) && m.descend_ok(p[i], p[i + 1])
}

/// A descending path from the marked end to some cell of minimum elevation.
pub open spec fn descend_route(m: &HeightMap, p: Seq<Coord>) -> bool {
    &&& descend_path(m, p)
    &&& p[0] == m.end_spec()
    &&& lowest_cell(m, p.last())
}

impl HeightMap {
    /// The marked cells denote cells of the grid.
    pub open spec fn wf(&self) -> bool {
        &&& self.in_shape(self.start_spec())
        &&& self.in_shape(self.end_spec())
    }

    /// Finds a shortest climbing path from the marked start to the marked end:
    /// the returned path is a climbing route of minimum length, and `None` is
    /// returned exactly when no climbing route exists.
    pub fn climb(&self) -> (r: Option<Vec<Coord>>)
        requires
            self.wf(),
            self.cell_count() <= usize::MAX,
        ensures
            match r {
                Some(p) => climb_route(self, p@) && forall|q: Seq<Coord>|
                    #[trigger] climb_route(self, q) ==> p@.len() <= q.len(),
                None => forall|q: Seq<Coord>| !#[trigger] climb_route(self, q),
            },
    {
        let rule = ClimbRule;
        self._bfs(&rule, self.start)
    }

    /// Finds a shortest descending path from the marked end to the nearest
    /// cell of minimum elevation: the returned path is a descending route of
    /// minimum length, and `None` is returned exactly when no descending
    /// route exists.
    pub fn descend(&self) -> (r: Option<Vec<Coord>>)
        requires
            self.wf(),
            self.cell_count() <= usize::MAX,
        ensures
            match r {
                Some(p) => descend_route(self, p@) && forall|q: Seq<Coord>|
                    #[trigger] descend_route(self, q) ==> p@.len() <= q.len(),
                None => forall|q: Seq<Coord>| !#[trigger] descend_route(self, q),
            },
    {
        let e = self.end;
        let mut lowest: u8 = self.elevations[e.1][e.0];
        proof {
            assert(self.elev(e) == Some(lowest));
        }
        let mut y: usize = 0;
        while y < self.elevations.len()
            invariant
                y <= self.rows().len(),
                exists|c: Coord| #[trigger] self.elev(c) == Some(lowest),
                forall|c: Coord|
                    c.1 < y && #[trigger] self.elev(c) is Some ==> lowest <= self.elev(c).unwrap(),
            decreases self.elevations.len() - y,
        {
            let row_len = self.elevations[y].len();
            let mut x: usize = 0;
            while x < row_len
                invariant
                    y < self.rows().len(),
                    x <= row_len,
                    row_len == self.rows()[y as int].len(),
                    exists|c: Coord| #[trigger] self.elev(c) == Some(lowest),
                    forall|c: Coord|
                        (c.1 < y || (c.1 == y && c.0 < x)) && #[trigger] self.elev(c) is Some
                            ==> lowest <= self.elev(c).unwrap(),
                decreases row_len - x,
            {
                let h = self.elevations[y][x];
                if h < lowest {
                    lowest = h;
                    proof {
                        assert(self.elev((x, y)) == Some(lowest));
                    }
                }
                x += 1;
            }
            y += 1;
        }
        let rule = DescendRule { lowest };
        proof {
            assert(rule.wf(self));
        }
        let r = self._bfs(&rule, self.end);
        proof {
            assert forall|q: Seq<Coord>|
                #[trigger] descend_route(self, q) == is_route(self, &rule, self.end_spec(), q) by {
                assert(descend_path(self, q) == is_path(self, &rule, q));
            }
        }
        r
    }
}

/// Two searches under the same rule succeed or fail together and report the
/// same path length: the length of a shortest route is unique, so any two
/// results that meet the search contract agree on it.
pub proof fn lemma_search_deterministic<R: SearchRule>(
    m: &HeightMap,
    rule: &R,
    from: Coord,
    r1: Option<Seq<Coord>>,
    r2: Option<Seq<Coord>>,
)
    requires
        match r1 {
            Some(p) => is_route(m, rule, from, p) && forall|q: Seq<Coord>|
                #[trigger] is_route(m, rule, from, q) ==> p.len() <= q.len(),
            None => forall|q: Seq<Coord>| !#[trigger] is_route(m, rule, from, q),
        },
        match r2 {
            Some(p) => is_route(m, rule, from, p) && forall|q: Seq<Coord>|
                #[trigger] is_route(m, rule, from, q) ==> p.len() <= q.len(),
            None => forall|q: Seq<Coord>| !#[trigger] is_route(m, rule, from, q),
        },
    ensures
        r1 is Some <==> r2 is Some,
        r1 is Some ==> r1.unwrap().len() == r2.unwrap().len(),
{
}

/// Tightening the step rule while keeping the goal never shortens the
/// reported path: every route under the tighter rule is a route under the
/// looser one, so the looser shortest length is a lower bound, and a grid
/// with no route under the looser rule has none under the tighter rule.
pub proof fn lemma_tightening_monotone<R1: SearchRule, R2: SearchRule>(
    m: &HeightMap,
    loose: &R1,
    tight: &R2,
    from: Coord,
    r1: Option<Seq<Coord>>,
    r2: Option<Seq<Coord>>,
)
    requires
        forall|a: Coord, b: Coord|
            #[trigger] tight.legal(m, a, b) ==> loose.legal(m, a, b),
        forall|c: Coord| #[trigger] tight.complete(m, c) == loose.complete(m, c),
        match r1 {
            Some(p) => is_route(m, loose, from, p) && forall|q: Seq<Coord>|
                #[trigger] is_route(m, loose, from, q) ==> p.len() <= q.len(),
            None => forall|q: Seq<Coord>| !#[trigger] is_route(m, loose, from, q),
        },
        match r2 {
            Some(p) => is_route(m, tight, from, p) && forall|q: Seq<Coord>|
                #[trigger] is_route(m, tight, from, q) ==> p.len() <= q.len(),
            None => forall|q: Seq<Coord>| !#[trigger] is_route(m, tight, from, q),
        },
    ensures
        match (r1, r2) {
            (Some(p1), Some(p2)) => p1.len() <= p2.len(),
            (None, Some(p2)) => false,
            _ => true,
        },
{
    if r2 is Some {
        let p2 = r2.unwrap();
        assert(is_route(m, loose, from, p2));
    }
}

/// A map built from its text has its start cell at elevation zero: the
/// start marker itself is read as elevation zero.
pub proof fn lemma_parsed_start_elevation(m: &HeightMap, lines: Seq<Seq<u8>>)
    requires
        m.rows() == grid_of(lines),
        marker_pos(lines, 83) == Some(m.start_spec()),
        m.cell_count() <= usize::MAX,
        lines.len() <= usize::MAX,
    ensures
        m.elev(m.start_spec()) == Some(0u8),
{
    assert(lines.len() == m.rows().len());
    lemma_grid_of_total(lines);
    assert forall|i: int| 0 <= i < lines.len() implies #[trigger] lines[i].len()
        <= usize::MAX by {
        lemma_row_le_total(lines, i);
    }
    lemma_marker_in_shape(lines, 83);
    let c = m.start_spec();
    assert(m.rows()[c.1 as int] == lines[c.1 as int].map(|j: int, b: u8| height_of(b)));
    assert(m.rows()[c.1 as int][c.0 as int] == height_of(lines[c.1 as int][c.0 as int]));
}

/// The descending search never reports a longer path than the climbing
/// search: when the start cell lies at elevation zero, reversing a climbing
/// route gives a descending route of the same length, ending at the start
/// cell, which no cell undercuts.
pub proof fn lemma_descend_no_longer(
    m: &HeightMap,
    climbed: Seq<Coord>,
    descended: Option<Seq<Coord>>,
)
    requires
        m.elev(m.start_spec()) == Some(0u8),
        climb_route(m, climbed),
        match descended {
            Some(p) => descend_route(m, p) && forall|q: Seq<Coord>|
                #[trigger] descend_route(m, q) ==> p.len() <= q.len(),
            None => forall|q: Seq<Coord>| !#[trigger] descend_route(m, q),
        },
    ensures
        descended is Some,
        descended.unwrap().len() <= climbed.len(),
{
    let rule = ClimbRule;
    let n = climbed.len();
    let back = climbed.reverse();
    assert(back.len() == n);
    assert(back[0] == climbed[n - 1]);
    assert(back.last() == climbed[0]);
    assert(lowest_cell(m, m.start_spec()));
    assert forall|i: int| 0 <= i < n - 1 implies adjacent(back[i], #[trigger] back[i + 1])
        && m.descend_ok(back[i], back[i + 1]) by {
        let j = n - 2 - i;
        assert(back[i] == climbed[n - 1 - i]);
        assert(back[i + 1] == climbed[n - 2 - i]);
        assert(adjacent(climbed[j], #[trigger] climbed[j + 1]) && rule.legal(
            m,
            climbed[j],
            climbed[j + 1],
        ));
    }
    assert(descend_route(m, back));
}

/// When the start is also the end, the climbing search returns the trivial
/// single-cell path: zero steps.
pub proof fn lemma_start_is_end(m: &HeightMap, r: Option<Seq<Coord>>)
    requires
        m.wf(),
        m.start_spec() == m.end_spec(),
        match r {
            Some(p) => climb_route(m, p) && forall|q: Seq<Coord>|
                #[trigger] climb_route(m, q) ==> p.len() <= q.len(),
            None => forall|q: Seq<Coord>| !#[trigger] climb_route(m, q),
        },
    ensures
        r is Some,
        r.unwrap().len() == 1,
        r.unwrap() == seq![m.start_spec()],
{
    let trivial = seq![m.start_spec()];
    assert(climb_route(m, trivial));
    let p = r.unwrap();
    assert(p.len() == 1);
    assert(p[0] == m.start_spec());
    assert(p =~= trivial);
}

/// Why a map could not be built from its text.
#[derive(Debug, Clone, Copy, PartialEq, Eq, Structural)]
pub enum MapError {
    /// No line of the input contains the start marker `S`.
    MissingStart,
    /// No line of the input contains the end marker `E`.
    MissingEnd,
}

/// The elevation denoted by an input byte: `a` through `z` give zero through
/// twenty-five, the end marker `E` the distinguished maximum of twenty-six
/// (one above `z`, so a climb from `z` onto `E` is still legal), and
/// anything else (the start marker `S` included) zero.
pub open spec fn height_of(b: u8) -> u8 {
    if 97 <= b <= 122 {
        (b - 97) as u8
    } else if b == 69 {
        26
    } else {
        0
    }
}

/// `height_of`, stated over a character's code point.
pub open spec fn char_height(c: char) -> u8 {
    if 97 <= c as u32 <= 122 {
        (c as u32 - 97) as u8
    } else if c as u32 == 69 {
        26
    } else {
        0
    }
}

/// The elevation denoted by an input character.
pub fn height(c: char) -> (r: u8)
    ensures
        r == char_height(c),
{
    let n = c as u32;
    if 97 <= n && n <= 122 {
        (n - 97) as u8
    } else if n == 69 {
        26
    } else {
        0
    }
}

/// The position of marker byte `b`: its first occurrence within the last
/// line that contains it, or `None` if no line does.
pub open spec fn marker_pos(lines: Seq<Seq<u8>>, b: u8) -> Option<Coord>
    decreases lines.len(),
{
    if lines.len() == 0 {
        None
    } else {
        match crate::text::find_first(lines.last(), b) {
            Some(x) => Some((x as usize, (lines.len() - 1) as usize)),
            None => marker_pos(lines.drop_last(), b),
        }
    }
}

/// The grid a well-formed input denotes: each line is one row of elevations.
pub open spec fn grid_of(lines: Seq<Seq<u8>>) -> Seq<Seq<u8>> {
    lines.map(|i: int, l: Seq<u8>| l.map(|j: int, b: u8| height_of(b)))
}

/// The total byte count of split lines never exceeds that of the input.
proof fn lemma_lines_total(acc: Seq<u8>, rest: Seq<u8>)
    ensures
        rows_total(crate::text::lines_rec(acc, rest)) <= acc.len() + rest.len(),
    decreases rest.len(),
{
    if rest.len() == 0 {
        if acc.len() > 0 {
            assert(seq![acc] =~= seq![acc] + Seq::<Seq<u8>>::empty());
            lemma_rows_total_cons(acc, Seq::empty());
        }
    } else if rest[0] == 10 {
        lemma_lines_total(Seq::empty(), rest.skip(1));
        let tail = crate::text::lines_rec(Seq::empty(), rest.skip(1));
        lemma_rows_total_cons(crate::text::chomp_cr(acc), tail);
        assert(crate::text::lines_rec(acc, rest) == seq![crate::text::chomp_cr(acc)] + tail);
        assert(crate::text::chomp_cr(acc).len() <= acc.len());
        assert(rest.skip(1).len() == rest.len() - 1);
    } else {
        lemma_lines_total(acc.push(rest[0]), rest.skip(1));
        assert(crate::text::lines_rec(acc, rest) == crate::text::lines_rec(
            acc.push(rest[0]),
            rest.skip(1),
        ));
        assert(acc.push(rest[0]).len() == acc.len() + 1);
    }
}

/// `rows_total` of a row prepended to a table.
proof fn lemma_rows_total_cons(r: Seq<u8>, t: Seq<Seq<u8>>)
    ensures
        rows_total(seq![r] + t) == r.len() + rows_total(t),
    decreases t.len(),
{
    let all = seq![r] + t;
    if t.len() == 0 {
        assert(all.drop_last() =~= Seq::<Seq<u8>>::empty());
        assert(all.last() == r);
        assert(rows_total(all) == rows_total(all.drop_last()) + all.last().len());
        assert(rows_total(all.drop_last()) == 0);
    } else {
        assert(all.drop_last() =~= seq![r] + t.drop_last());
        assert(all.last() == t.last());
        lemma_rows_total_cons(r, t.drop_last());
        assert(rows_total(all) == rows_total(all.drop_last()) + all.last().len());
        assert(rows_total(t) == rows_total(t.drop_last()) + t.last().len());
    }
}

impl HeightMap {
    /// Every elevation in the grid is at most the distinguished maximum.
    pub open spec fn heights_ok(&self) -> bool {
        forall|c: Coord| #[trigger] self.elev(c) is Some ==> self.elev(c).unwrap() <= 26
    }

    /// Builds a map from its textual form: one row per line, trailing
    /// whitespace ignored, with exactly one `S` and one `E` expected.  If a
    /// marker occurs on several lines, the last such line wins, with the
    /// first occurrence within it.
    pub fn from_str(s: &str) -> (r: Result<HeightMap, MapError>)
        ensures
            ({
                let lines = crate::text::split_lines_spec(s.spec_bytes()).map(
                    |i: int, l: Seq<u8>| crate::text::trim_end_spec(l),
                );
                match r {
                    Ok(m) => {
                        &&& marker_pos(lines, 83) is Some
                        &&& marker_pos(lines, 69) is Some
                        &&& m.start_spec() == marker_pos(lines, 83).unwrap()
                        &&& m.end_spec() == marker_pos(lines, 69).unwrap()
                        &&& m.rows() == grid_of(lines)
                        &&& m.wf()
                        &&& m.heights_ok()
                        &&& m.cell_count() <= usize::MAX
                        &&& m.rows().len() <= usize::MAX
                    },
                    Err(MapError::MissingStart) => marker_pos(lines, 83) is None,
                    Err(MapError::MissingEnd) => marker_pos(lines, 83) is Some && marker_pos(
                        lines,
                        69,
                    ) is None,
                }
            }),
    {
        let lines = crate::text::split_lines(s);
        let ghost lv = lines@.map(|i: int, l: Vec<u8>| l@).map(
            |i: int, l: Seq<u8>| crate::text::trim_end_spec(l),
        );
        let mut elevations: Vec<Vec<u8>> = Vec::new();
        let mut start: Option<Coord> = None;
        let mut end: Option<Coord> = None;
        let mut y: usize = 0;
        while y < lines.len()
            invariant
                y <= lv.len(),
                lv == lines@.map(|i: int, l: Vec<u8>| l@).map(
                    |i: int, l: Seq<u8>| crate::text::trim_end_spec(l),
                ),
                lv == crate::text::split_lines_spec(s.spec_bytes()).map(
                    |i: int, l: Seq<u8>| crate::text::trim_end_spec(l),
                ),
                elevations@.map(|i: int, r: Vec<u8>| r@) =~= grid_of(lv.take(y as int)),
                start == marker_pos(lv.take(y as int), 83),
                end == marker_pos(lv.take(y as int), 69),
            decreases lv.len() - y,
        {
            let ghost ev0 = elevations@.map(|i: int, r: Vec<u8>| r@);
            let line = crate::text::trim_end_line(&lines[y]);
            let line = &line;
            proof {
                assert(line@ == lv[y as int]);
            }
            let mut heights: Vec<u8> = Vec::new();
            let mut x: usize = 0;
            while x < line.len()
                invariant
                    x <= line@.len(),
                    heights@ =~= line@.take(x as int).map(|j: int, b: u8| height_of(b)),
                decreases line@.len() - x,
            {
                let b = line[x];
                let h = if 97 <= b && b <= 122 {
                    b - 97
                } else if b == 69 {
                    26
                } else {
                    0
                };
                heights.push(h);
                proof {
                    assert(line@.take(x + 1).map(|j: int, b: u8| height_of(b)) =~= line@.take(
                        x as int,
                    ).map(|j: int, b: u8| height_of(b)).push(height_of(line@[x as int])));
                }
                x += 1;
            }
            proof {
                assert(line@.take(line@.len() as int) =~= line@);
            }
            elevations.push(heights);
            match crate::text::find_byte(line, 83) {
                Some(sx) => {
                    start = Some((sx, y));
                },
                None => {},
            }
            match crate::text::find_byte(line, 69) {
                Some(ex) => {
                    end = Some((ex, y));
                },
                None => {},
            }
            proof {
                assert(lv.take(y + 1).drop_last() =~= lv.take(y as int));
                assert(lv.take(y + 1).last() == lv[y as int]);
                assert(elevations@.map(|i: int, r: Vec<u8>| r@) =~= ev0.push(heights@));
                assert(grid_of(lv.take(y + 1)) =~= grid_of(lv.take(y as int)).push(
                    lv[y as int].map(|j: int, b: u8| height_of(b)),
                ));
            }
            y += 1;
        }
        proof {
            assert(lv.take(lv.len() as int) =~= lv);
        }
        let start = match start {
            Some(c) => c,
            None => {
                return Err(MapError::MissingStart);
            },
        };
        let end = match end {
            Some(c) => c,
            None => {
                return Err(MapError::MissingEnd);
            },
        };
        let m = HeightMap { elevations, start, end };
        proof {
            let bl = s.spec_bytes().len();
            let raw = crate::text::split_lines_spec(s.spec_bytes());
            lemma_lines_total(Seq::empty(), s.spec_bytes());
            lemma_trim_rows_total(raw);
            lemma_grid_of_total(lv);
            assert(m.cell_count() <= bl);
            assert(rows_total(lv) <= usize::MAX);
            assert forall|i: int| 0 <= i < lv.len() implies #[trigger] lv[i].len()
                <= usize::MAX by {
                lemma_row_le_total(lv, i);
            }
            lemma_marker_in_shape(lv, 83);
            lemma_marker_in_shape(lv, 69);
        }
        Ok(m)
    }
}

/// Trimming the lines cannot grow the cell count.
proof fn lemma_trim_rows_total(lines: Seq<Seq<u8>>)
    ensures
        rows_total(lines.map(|i: int, l: Seq<u8>| crate::text::trim_end_spec(l))) <= rows_total(
            lines,
        ),
    decreases lines.len(),
{
    let t = lines.map(|i: int, l: Seq<u8>| crate::text::trim_end_spec(l));
    if lines.len() > 0 {
        lemma_trim_rows_total(lines.drop_last());
        assert(t.drop_last() =~= lines.drop_last().map(
            |i: int, l: Seq<u8>| crate::text::trim_end_spec(l),
        ));
        assert(t.last() == crate::text::trim_end_spec(lines.last()));
        crate::text::lemma_ws_suffix_start(lines.last());
        assert(t.last().len() <= lines.last().len());
    }
}

/// Mapping bytes to elevations keeps each row's length, so the grid has as
/// many cells as its lines have bytes.
proof fn lemma_grid_of_total(lines: Seq<Seq<u8>>)
    ensures
        rows_total(grid_of(lines)) == rows_total(lines),
    decreases lines.len(),
{
    if lines.len() > 0 {
        lemma_grid_of_total(lines.drop_last());
        assert(grid_of(lines).drop_last() =~= grid_of(lines.drop_last()));
        assert(grid_of(lines).last() == lines.last().map(|j: int, b: u8| height_of(b)));
    }
}

/// Each row is at most the whole table in size.
proof fn lemma_row_le_total(t: Seq<Seq<u8>>, i: int)
    requires
        0 <= i < t.len(),
    ensures
        t[i].len() <= rows_total(t),
    decreases t.len(),
{
    if i < t.len() - 1 {
        lemma_row_le_total(t.drop_last(), i);
        assert(t.drop_last()[i] == t[i]);
    }
}

/// A found marker denotes a cell of the grid the lines describe, and that
/// cell holds the marker byte.
proof fn lemma_marker_in_shape(lines: Seq<Seq<u8>>, b: u8)
    requires
        lines.len() <= usize::MAX,
        forall|i: int| 0 <= i < lines.len() ==> #[trigger] lines[i].len() <= usize::MAX,
    ensures
        match marker_pos(lines, b) {
            Some(c) => c.1 < lines.len() && c.0 < lines[c.1 as int].len() && lines[c.1 as int][c.0 as int]
                == b,
            None => true,
        },
    decreases lines.len(),
{
    if lines.len() > 0 {
        crate::text::lemma_find_first(lines.last(), b);
        assert(lines.last() == lines[lines.len() - 1]);
        assert forall|i: int| 0 <= i < lines.len() - 1
            implies #[trigger] lines.drop_last()[i].len() <= usize::MAX by {
            assert(lines.drop_last()[i] == lines[i]);
        }
        lemma_marker_in_shape(lines.drop_last(), b);
        if crate::text::find_first(lines.last(), b) is None {
            match marker_pos(lines.drop_last(), b) {
                Some(c) => {
                    assert(lines.drop_last()[c.1 as int] == lines[c.1 as int]);
                },
                None => {},
            }
        }
    }
}

/// The display glyph of a cell: the markers show as `S` and `E`, and every
/// other cell as the letter its elevation was read from.
pub open spec fn glyph(m: &HeightMap, c: Coord) -> Option<char> {
    if c == m.start_spec() {
        Some('S')
    } else if c == m.end_spec() {
        Some('E')
    } else {
        match m.elev(c) {
            Some(h) => Some((((h + 97) as u8) as char)),
            None => None,
        }
    }
}

impl HeightMap {
    /// The display glyph of a cell, if the cell exists or is a marker.
    pub fn get_char(&self, coord: Coord) -> (r: Option<char>)
        requires
            self.heights_ok(),
        ensures
            r == glyph(self, coord),
    {
        if coord.0 == self.start.0 && coord.1 == self.start.1 {
            return Some('S');
        } else if coord.0 == self.end.0 && coord.1 == self.end.1 {
            return Some('E');
        }
        match self.get(coord) {
            Some(h) => Some((h + 97) as char),
            None => None,
        }
    }

    /// One flag per grid cell: whether the cell lies on the given path.
    pub fn path_mask(&self, path: &[Coord]) -> (r: Vec<Vec<bool>>)
        ensures
            table_shaped(self, table_view(&r)),
            forall|c: Coord|
                self.in_shape(c) ==> table_view(&r)[c.1 as int][c.0 as int] == path@.contains(c),
    {
        let mut mask: Vec<Vec<bool>> = self.table_like(false);
        let mut i: usize = 0;
        while i < path.len()
            invariant
                i <= path@.len(),
                table_shaped(self, table_view(&mask)),
                forall|c: Coord|
                    self.in_shape(c) ==> table_view(&mask)[c.1 as int][c.0 as int] == path@.take(
                        i as int,
                    ).contains(c),
            decreases path@.len() - i,
        {
            let c = path[i];
            let ghost mv0 = table_view(&mask);
            if c.1 < self.elevations.len() {
                if c.0 < self.elevations[c.1].len() {
                    proof {
                        assert(table_view(&mask)[c.1 as int] == mask@[c.1 as int]@);
                    }
                    mask_set(&mut mask, c, true);
                }
            }
            proof {
                assert forall|cc: Coord| self.in_shape(cc) implies table_view(&mask)[cc.1 as int][cc.0 as int]
                    == path@.take(i + 1).contains(cc) by {
                    assert(path@.take(i + 1).drop_last() =~= path@.take(i as int));
                    assert(path@.take(i + 1).last() == path@[i as int]);
                    if path@.take(i + 1).contains(cc) {
                        let j = choose|j: int| 0 <= j < i + 1 && #[trigger] path@.take(i + 1)[j] == cc;
                        if j < i {
                            assert(path@.take(i as int)[j] == cc);
                        }
                    }
                    if path@.take(i as int).contains(cc) {
                        let j = choose|j: int| 0 <= j < i && #[trigger] path@.take(i as int)[j] == cc;
                        assert(path@.take(i + 1)[j] == cc);
                    }
                }
            }
            i += 1;
        }
        proof {
            assert(path@.take(path@.len() as int) =~= path@);
        }
        mask
    }
}

/// Writes `v` at cell `c` of a mask.
fn mask_set(t: &mut Vec<Vec<bool>>, c: Coord, v: bool)
    requires
        c.1 < old(t)@.len(),
        c.0 < old(t)@[c.1 as int]@.len(),
    ensures
        table_view(final(t)) == table_view(old(t)).update(
            c.1 as int,
            table_view(old(t))[c.1 as int].update(c.0 as int, v),
        ),
{
    let ghost t0 = table_view(old(t));
    t[c.1][c.0] = v;
    proof {
        assert(table_view(t) =~= t0.update(c.1 as int, t0[c.1 as int].update(c.0 as int, v)));
    }
}

/// The fewest orthogonal steps between two cells, ignoring elevation.
pub open spec fn manhattan(a: Coord, b: Coord) -> int {
    let dx = if a.0 >= b.0 {
        a.0 - b.0
    } else {
        b.0 - a.0
    };
    let dy = if a.1 >= b.1 {
        a.1 - b.1
    } else {
        b.1 - a.1
    };
    dx + dy
}

/// Minimum number of orthogonal steps between two cells, ignoring elevation.
pub fn distance(a: Coord, b: Coord) -> (r: usize)
    requires
        manhattan(a, b) <= usize::MAX,
    ensures
        r == manhattan(a, b),
{
    let dx = if a.0 >= b.0 {
        a.0 - b.0
    } else {
        b.0 - a.0
    };
    let dy = if a.1 >= b.1 {
        a.1 - b.1
    } else {
        b.1 - a.1
    };
    dx + dy
}

} // verus!
