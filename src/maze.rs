//! Randomised depth-first maze generation over a grid of cells.
//!
//! `walls_h[y][x]` is the wall above cell `(x, y)` (row `height` is the bottom
//! border); `walls_v[y][x]` is the wall left of cell `(x, y)` (column `width` is
//! the right border). `true` means the wall stands.

use vstd::prelude::*;
use rand::rngs::StdRng;
use crate::rng::{gen_index, gen_flag};

verus! {

/// A cell of the maze, by column and row.
#[derive(Clone, Copy, PartialEq, Eq, Structural, Debug)]
pub struct Cell {
    pub col: usize,
    pub row: usize,
}

impl Cell {
    pub fn from(col: usize, row: usize) -> (c: Cell)
        ensures
            c.col == col,
            c.row == row,
    {
        Cell { col, row }
    }

    pub open spec fn pos(self) -> (int, int) {
        (self.col as int, self.row as int)
    }
}

impl Default for Cell {
    fn default() -> (c: Cell)
        ensures
            c.col == 0,
            c.row == 0,
    {
        Cell::from(0, 0)
    }
}

/// The wall between two adjacent cells, as `(horizontal, x, y)`: `walls_h[y][x]`
/// or `walls_v[y][x]`.
pub open spec fn wall_between(a: (int, int), b: (int, int)) -> (bool, int, int) {
    if a.1 == b.1 {
        (false, if a.0 > b.0 { a.0 } else { b.0 }, a.1)
    } else {
        (true, a.0, if a.1 > b.1 { a.1 } else { b.1 })
    }
}

/// Two grid positions share a side.
pub open spec fn adjacent(a: (int, int), b: (int, int)) -> bool {
    (a.1 == b.1 && (b.0 == a.0 + 1 || a.0 == b.0 + 1)) || (a.0 == b.0 && (b.1 == a.1 + 1
        || a.1 == b.1 + 1))
}

/// `g` has `rows` rows of `cols` entries each.
pub open spec fn grid_shape(g: Seq<Vec<bool>>, rows: int, cols: int) -> bool {
    &&& g.len() == rows
    &&& forall|i: int| 0 <= i < rows ==> (#[trigger] g[i])@.len() == cols
}

/// Entry `x` of row `y` of a wall grid.
pub open spec fn wall_at(g: Seq<Vec<bool>>, x: int, y: int) -> bool {
    g[y]@[x]
}

/// Every entry of `g` is `v`.
pub open spec fn grid_filled(g: Seq<Vec<bool>>, v: bool) -> bool {
    forall|i: int, j: int| 0 <= i < g.len() && 0 <= j < g[i]@.len() ==> #[trigger] g[i]@[j] == v
}


/// Cell `c` of the visit grid `g` (indexed by column, then row) is still unvisited.
pub open spec fn fresh_at(g: Seq<Vec<bool>>, c: (int, int)) -> bool {
    g[c.0]@[c.1]
}

/// Number of `true` entries of a row.
pub open spec fn count_row(s: Seq<bool>) -> nat
    decreases s.len(),
{
    if s.len() == 0 {
        0
    } else {
        count_row(s.drop_last()) + if s.last() {
            1nat
        } else {
            0nat
        }
    }
}

/// Number of `true` entries of a grid.
pub open spec fn count_grid(g: Seq<Vec<bool>>) -> nat
    decreases g.len(),
{
    if g.len() == 0 {
        0
    } else {
        count_grid(g.drop_last()) + count_row(g.last()@)
    }
}

proof fn lemma_count_row_clear(s: Seq<bool>, i: int)
    requires
        0 <= i < s.len(),
        s[i],
    ensures
        count_row(s.update(i, false)) + 1 == count_row(s),
    decreases s.len(),
{
    let t = s.update(i, false);
    if i == s.len() - 1 {
        assert(t.drop_last() =~= s.drop_last());
    } else {
        assert(t.drop_last() =~= s.drop_last().update(i, false));
        lemma_count_row_clear(s.drop_last(), i);
    }
}

proof fn lemma_count_grid_same_views(g: Seq<Vec<bool>>, g2: Seq<Vec<bool>>)
    requires
        g2.len() == g.len(),
        forall|i: int| 0 <= i < g.len() ==> (#[trigger] g2[i])@ == g[i]@,
    ensures
        count_grid(g2) == count_grid(g),
    decreases g.len(),
{
    if g.len() > 0 {
        lemma_count_grid_same_views(g.drop_last(), g2.drop_last());
        assert(g2.last()@ == g.last()@);
    }
}

/// Number of `true` entries in columns `lo .. hi` of the rows of `g`.
pub open spec fn count_window(g: Seq<Vec<bool>>, lo: int, hi: int) -> nat
    decreases g.len(),
{
    if g.len() == 0 {
        0
    } else {
        count_window(g.drop_last(), lo, hi) + count_row(g.last()@.subrange(lo, hi))
    }
}

proof fn lemma_count_window_same_views(g: Seq<Vec<bool>>, g2: Seq<Vec<bool>>, lo: int, hi: int)
    requires
        g2.len() == g.len(),
        forall|i: int| 0 <= i < g.len() ==> (#[trigger] g2[i])@ == g[i]@,
    ensures
        count_window(g2, lo, hi) == count_window(g, lo, hi),
    decreases g.len(),
{
    if g.len() > 0 {
        lemma_count_window_same_views(g.drop_last(), g2.drop_last(), lo, hi);
        assert(g2.last()@ == g.last()@);
    }
}

proof fn lemma_count_window_clear(g: Seq<Vec<bool>>, g2: Seq<Vec<bool>>, c: int, r: int, lo: int, hi: int)
    requires
        0 <= c < g.len(),
        g2.len() == g.len(),
        0 <= lo <= r < hi <= g[c]@.len(),
        g[c]@[r],
        g2[c]@ == g[c]@.update(r, false),
        forall|i: int| 0 <= i < g.len() && i != c ==> (#[trigger] g2[i])@ == g[i]@,
    ensures
        count_window(g2, lo, hi) + 1 == count_window(g, lo, hi),
    decreases g.len(),
{
    if c == g.len() - 1 {
        lemma_count_window_same_views(g.drop_last(), g2.drop_last(), lo, hi);
        assert(g2[c]@.subrange(lo, hi) =~= g[c]@.subrange(lo, hi).update(r - lo, false));
        lemma_count_row_clear(g[c]@.subrange(lo, hi), r - lo);
    } else {
        lemma_count_window_clear(g.drop_last(), g2.drop_last(), c, r, lo, hi);
        assert(g2.last()@ == g.last()@);
    }
}

/// Adding the next entry of a row to a prefix count.
proof fn lemma_count_row_prefix(s: Seq<bool>, lo: int, x: int)
    requires
        0 <= lo <= x < s.len(),
    ensures
        count_row(s.subrange(lo, x + 1)) == count_row(s.subrange(lo, x)) + if s[x] {
            1nat
        } else {
            0nat
        },
{
    assert(s.subrange(lo, x + 1).drop_last() =~= s.subrange(lo, x));
}

/// Adding the next row to a window count over a run of rows.
proof fn lemma_count_window_prefix(g: Seq<Vec<bool>>, a: int, y: int, lo: int, hi: int)
    requires
        0 <= a <= y < g.len(),
    ensures
        count_window(g.subrange(a, y + 1), lo, hi) == count_window(g.subrange(a, y), lo, hi) + count_row(
            g[y]@.subrange(lo, hi),
        ),
{
    assert(g.subrange(a, y + 1).drop_last() =~= g.subrange(a, y));
}

/// `(x, y)` names an interior wall: of `walls_h` when `hz`, else of `walls_v`.
pub open spec fn interior_pos(w: int, h: int, hz: bool, x: int, y: int) -> bool {
    if hz {
        0 <= x < w && 1 <= y < h
    } else {
        1 <= x < w && 0 <= y < h
    }
}

/// The cell above a horizontal wall, or left of a vertical one.
pub open spec fn side_a(hz: bool, x: int, y: int) -> (int, int) {
    if hz {
        (x, y - 1)
    } else {
        (x - 1, y)
    }
}

proof fn lemma_count_row_filled(s: Seq<bool>, v: bool)
    requires
        forall|j: int| 0 <= j < s.len() ==> s[j] == v,
    ensures
        count_row(s) == if v {
            s.len()
        } else {
            0
        },
    decreases s.len(),
{
    if s.len() > 0 {
        lemma_count_row_filled(s.drop_last(), v);
    }
}

proof fn lemma_count_grid_filled(g: Seq<Vec<bool>>, cols: int, v: bool)
    requires
        grid_shape(g, g.len() as int, cols),
        forall|i: int, j: int| 0 <= i < g.len() && 0 <= j < cols ==> #[trigger] g[i]@[j] == v,
    ensures
        count_grid(g) == if v {
            g.len() * cols
        } else {
            0
        },
    decreases g.len(),
{
    if g.len() > 0 {
        let n = g.len() - 1;
        assert(grid_shape(g.drop_last(), n as int, cols));
        lemma_count_grid_filled(g.drop_last(), cols, v);
        assert(g.last() == g[n as int]);
        lemma_count_row_filled(g.last()@, v);
        assert(n * cols + cols == g.len() * cols) by (nonlinear_arith)
            requires
                n == g.len() - 1,
        ;
    }
}

proof fn lemma_count_grid_clear(g: Seq<Vec<bool>>, g2: Seq<Vec<bool>>, c: int, r: int)
    requires
        0 <= c < g.len(),
        g2.len() == g.len(),
        0 <= r < g[c]@.len(),
        g[c]@[r],
        g2[c]@ == g[c]@.update(r, false),
        forall|i: int| 0 <= i < g.len() && i != c ==> (#[trigger] g2[i])@ == g[i]@,
    ensures
        count_grid(g2) + 1 == count_grid(g),
    decreases g.len(),
{
    if c == g.len() - 1 {
        lemma_count_grid_same_views(g.drop_last(), g2.drop_last());
        lemma_count_row_clear(g[c]@, r);
    } else {
        lemma_count_grid_clear(g.drop_last(), g2.drop_last(), c, r);
        assert(g2.last()@ == g.last()@);
    }
}

/// If one cell of the grid is visited and another is not, some visited cell has
/// an unvisited cell beside it.
proof fn lemma_frontier(g: Seq<Vec<bool>>, w: int, h: int, a: (int, int), b: (int, int)) -> (r: (
    (int, int),
    (int, int),
))
    requires
        grid_shape(g, w, h),
        0 <= a.0 < w && 0 <= a.1 < h,
        0 <= b.0 < w && 0 <= b.1 < h,
        !fresh_at(g, a),
        fresh_at(g, b),
    ensures
        0 <= r.0.0 < w && 0 <= r.0.1 < h,
        0 <= r.1.0 < w && 0 <= r.1.1 < h,
        adjacent(r.0, r.1),
        !fresh_at(g, r.0),
        fresh_at(g, r.1),
    decreases (if a.0 < b.0 { b.0 - a.0 } else { a.0 - b.0 }) + (if a.1 < b.1 { b.1 - a.1 } else { a.1 - b.1 }),
{
    let n = if a.0 < b.0 {
        (a.0 + 1, a.1)
    } else if a.0 > b.0 {
        (a.0 - 1, a.1)
    } else if a.1 < b.1 {
        (a.0, a.1 + 1)
    } else {
        (a.0, a.1 - 1)
    };
    if fresh_at(g, n) {
        (a, n)
    } else {
        lemma_frontier(g, w, h, n, b)
    }
}

/// Floor of the square root of `n`.
pub fn isqrt(n: usize) -> (s: usize)
    ensures
        s * s <= n,
        n < (s + 1) * (s + 1),
{
    let mut s: usize = 0;
    while s + 1 <= n / (s + 1)
        invariant
            s * s <= n,
            s <= n,
            s < usize::MAX,
        decreases n - s,
    {
        proof {
            let t = (s + 1) as int;
            let q = n as int / t;
            vstd::arithmetic::div_mod::lemma_fundamental_div_mod(n as int, t);
            assert(t * t <= n) by (nonlinear_arith)
                requires
                    t <= q,
                    n == t * q + n as int % t,
                    0 <= n as int % t,
                    t >= 1,
            ;
            assert(t <= n) by (nonlinear_arith)
                requires
                    t * t <= n,
                    t >= 1,
            ;
            if t >= 2 {
                assert(t < t * t) by (nonlinear_arith)
                    requires
                        t >= 2,
                ;
            }
        }
        s = s + 1;
    }
    proof {
        let t = (s + 1) as int;
        let q = n as int / t;
        vstd::arithmetic::div_mod::lemma_fundamental_div_mod(n as int, t);
        assert(n < t * t) by (nonlinear_arith)
            requires
                q < t,
                n == t * q + n as int % t,
                n as int % t < t,
                t >= 1,
        ;
    }
    s
}

/// Collection order of walls named `(horizontal, x, y)`: horizontal walls first,
/// each kind by row, then by column.
pub open spec fn wall_order(a: (bool, usize, usize), b: (bool, usize, usize)) -> bool {
    (a.0 && !b.0) || (a.0 == b.0 && (a.2 < b.2 || (a.2 == b.2 && a.1 < b.1)))
}

/// An interior wall: `(horizontal, x, y)` names `walls_h[y][x]` or `walls_v[y][x]`.
pub open spec fn interior_wall(w: int, h: int, c: (bool, usize, usize)) -> bool {
    if c.0 {
        0 <= c.1 < w && 1 <= c.2 < h
    } else {
        1 <= c.1 < w && 0 <= c.2 < h
    }
}

/// The drawing of one wall: a horizontal one as a `+` and a dash run, a
/// vertical one as a `|` and spaces; an open wall leaves blanks.
pub open spec fn wall_text(horizontal: bool, active: bool) -> Seq<char> {
    if horizontal {
        if active {
            seq!['+', '-', '-', '-']
        } else {
            seq!['+', ' ', ' ', ' ']
        }
    } else {
        if active {
            seq!['|', ' ', ' ', ' ']
        } else {
            seq![' ', ' ', ' ', ' ']
        }
    }
}

/// The drawings of the walls of `ws`, one after another.
pub open spec fn walls_text(ws: Seq<bool>, horizontal: bool) -> Seq<char>
    decreases ws.len(),
{
    if ws.len() == 0 {
        Seq::empty()
    } else {
        walls_text(ws.drop_last(), horizontal) + wall_text(horizontal, ws.last())
    }
}

/// A whole line of the drawing: the walls, then the closing `+` of a
/// horizontal line, then a line break.
pub open spec fn row_text(ws: Seq<bool>, horizontal: bool) -> Seq<char> {
    walls_text(ws, horizontal) + if horizontal {
        seq!['+', '\n']
    } else {
        seq!['\n']
    }
}

/// The drawing of the rows `0 .. n` of a maze: each horizontal line above
/// the vertical line of the same row.
pub open spec fn rows_text(wh: Seq<Vec<bool>>, wv: Seq<Vec<bool>>, n: int) -> Seq<char>
    decreases n,
{
    if n <= 0 {
        Seq::empty()
    } else {
        rows_text(wh, wv, n - 1) + row_text(wh[n - 1]@, true) + row_text(wv[n - 1]@, false)
    }
}

pub struct Maze {
    pub width: usize,
    pub height: usize,
    pub walls_h: Vec<Vec<bool>>,
    pub walls_v: Vec<Vec<bool>>,
    pub start_cell: Cell,
    pub end_cell: Cell,
}

/// A row of `n` entries, all `v`.
fn filled_row(n: usize, v: bool) -> (r: Vec<bool>)
    ensures
        r@.len() == n,
        forall|j: int| 0 <= j < n ==> #[trigger] r@[j] == v,
{
    let mut r: Vec<bool> = Vec::new();
    let mut j: usize = 0;
    while j < n
        invariant
            j <= n,
            r@.len() == j,
            forall|k: int| 0 <= k < j ==> #[trigger] r@[k] == v,
        decreases n - j,
    {
        r.push(v);
        j = j + 1;
    }
    r
}

/// A grid of `rows` rows of `cols` entries, all `v`.
fn filled_grid(rows: usize, cols: usize, v: bool) -> (g: Vec<Vec<bool>>)
    ensures
        grid_shape(g@, rows as int, cols as int),
        grid_filled(g@, v),
{
    let mut g: Vec<Vec<bool>> = Vec::new();
    let mut i: usize = 0;
    while i < rows
        invariant
            i <= rows,
            grid_shape(g@, i as int, cols as int),
            grid_filled(g@, v),
        decreases rows - i,
    {
        let row = filled_row(cols, v);
        g.push(row);
        i = i + 1;
    }
    g
}

impl Maze {
    /// The grids have the sizes that `width` and `height` give.
    pub open spec fn wf(&self) -> bool {
        &&& self.width < usize::MAX
        &&& self.height < usize::MAX
        &&& grid_shape(self.walls_h@, self.height + 1, self.width as int)
        &&& grid_shape(self.walls_v@, self.height as int, self.width + 1)
    }

    /// The wall above cell `(x, y)`.
    pub open spec fn h_wall(&self, x: int, y: int) -> bool {
        wall_at(self.walls_h@, x, y)
    }

    /// The wall left of cell `(x, y)`.
    pub open spec fn v_wall(&self, x: int, y: int) -> bool {
        wall_at(self.walls_v@, x, y)
    }


    pub open spec fn in_grid(&self, c: (int, int)) -> bool {
        0 <= c.0 < self.width && 0 <= c.1 < self.height
    }

    /// The wall named `(horizontal, x, y)` stands.
    pub open spec fn wall_standing(&self, c: (bool, usize, usize)) -> bool {
        if c.0 {
            wall_at(self.walls_h@, c.1 as int, c.2 as int)
        } else {
            wall_at(self.walls_v@, c.1 as int, c.2 as int)
        }
    }

    /// The wall `(x, y)` of `walls_h` (when `hz`) or of `walls_v` stands.
    pub open spec fn wall_on(&self, hz: bool, x: int, y: int) -> bool {
        if hz {
            wall_at(self.walls_h@, x, y)
        } else {
            wall_at(self.walls_v@, x, y)
        }
    }

    /// Number of interior walls standing.
    pub open spec fn interior_count(&self) -> nat {
        count_window(self.walls_h@.subrange(1, self.height as int), 0, self.width as int) + count_window(
            self.walls_v@,
            1,
            self.width as int,
        )
    }

    /// Number of walls standing, border included.
    pub open spec fn standing(&self) -> nat {
        count_grid(self.walls_h@) + count_grid(self.walls_v@)
    }

    /// Every wall stands.
    pub open spec fn all_closed(&self) -> bool {
        &&& grid_filled(self.walls_h@, true)
        &&& grid_filled(self.walls_v@, true)
    }

    /// Cells `a` and `b` are adjacent and no wall stands between them.
    pub open spec fn passage(&self, a: (int, int), b: (int, int)) -> bool {
        &&& self.in_grid(a)
        &&& self.in_grid(b)
        &&& {
            ||| (a.1 == b.1 && b.0 == a.0 + 1 && !self.v_wall(b.0, a.1))
            ||| (a.1 == b.1 && a.0 == b.0 + 1 && !self.v_wall(a.0, a.1))
            ||| (a.0 == b.0 && b.1 == a.1 + 1 && !self.h_wall(a.0, b.1))
            ||| (a.0 == b.0 && a.1 == b.1 + 1 && !self.h_wall(a.0, a.1))
        }
    }

    /// `p` is a walk through the maze from `p[0]` to `p.last()`.
    pub open spec fn is_path(&self, p: Seq<(int, int)>) -> bool {
        &&& p.len() >= 1
        &&& self.in_grid(p[0])
        &&& forall|i: int| 0 <= i < p.len() - 1 ==> #[trigger] self.passage(p[i], p[i + 1])
    }

    pub open spec fn reachable(&self, a: (int, int), b: (int, int)) -> bool {
        exists|p: Seq<(int, int)>| #[trigger] self.is_path(p) && p[0] == a && p.last() == b
    }

    /// Every cell can be reached from `s`.
    pub open spec fn connected_from(&self, s: (int, int)) -> bool {
        forall|c: (int, int)| self.in_grid(c) ==> #[trigger] self.reachable(s, c)
    }

    /// `next` has the same size as `self` and keeps open every wall open in `self`.
    pub open spec fn only_opened(&self, next: &Maze) -> bool {
        &&& next.width == self.width
        &&& next.height == self.height
        &&& forall|x: int, y: int|
            0 <= x < self.width && 0 <= y <= self.height && !#[trigger] wall_at(self.walls_h@, x, y)
                ==> !wall_at(next.walls_h@, x, y)
        &&& forall|x: int, y: int|
            0 <= x <= self.width && 0 <= y < self.height && !#[trigger] wall_at(self.walls_v@, x, y)
                ==> !wall_at(next.walls_v@, x, y)
    }

    /// The border walls of `next` are those of `self`.
    pub open spec fn borders_kept(&self, next: &Maze) -> bool {
        &&& forall|x: int|
            0 <= x < self.width ==> #[trigger] wall_at(next.walls_h@, x, 0) == wall_at(self.walls_h@, x, 0)
        &&& forall|x: int|
            0 <= x < self.width ==> #[trigger] wall_at(next.walls_h@, x, self.height as int) == wall_at(
                self.walls_h@,
                x,
                self.height as int,
            )
        &&& forall|y: int|
            0 <= y < self.height ==> #[trigger] wall_at(next.walls_v@, 0, y) == wall_at(self.walls_v@, 0, y)
        &&& forall|y: int|
            0 <= y < self.height ==> #[trigger] wall_at(next.walls_v@, self.width as int, y) == wall_at(
                self.walls_v@,
                self.width as int,
                y,
            )
    }

    /// `next` is `self` with exactly the walls `(x1, y1)` and `(x2, y2)` of the
    /// horizontal grid (when `horizontal`) or of the vertical grid opened.
    pub open spec fn opened_two(&self, next: &Maze, horizontal: bool, x1: int, y1: int, x2: int, y2: int) -> bool {
        &&& next.width == self.width
        &&& next.height == self.height
        &&& forall|x: int, y: int|
            0 <= x < self.width && 0 <= y <= self.height ==> #[trigger] wall_at(next.walls_h@, x, y) == (wall_at(self.walls_h@, x, y)
                && !(horizontal && ((x == x1 && y == y1) || (x == x2 && y == y2))))
        &&& forall|x: int, y: int|
            0 <= x <= self.width && 0 <= y < self.height ==> #[trigger] wall_at(next.walls_v@, x, y) == (wall_at(self.walls_v@, x, y)
                && !(!horizontal && ((x == x1 && y == y1) || (x == x2 && y == y2))))
    }

    /// Initializes the maze with all the walls active.
    pub fn new(width: usize, height: usize) -> (m: Maze)
        requires
            width < usize::MAX,
            height < usize::MAX,
        ensures
            m.wf(),
            m.width == width,
            m.height == height,
            m.all_closed(),
            m.start_cell == (Cell { col: 0, row: 0 }),
            m.end_cell == (Cell { col: 0, row: 0 }),
    {
        Maze {
            width,
            height,
            walls_h: filled_grid(height + 1, width, true),
            walls_v: filled_grid(height, width + 1, true),
            start_cell: Cell::default(),
            end_cell: Cell::default(),
        }
    }

    /// Randomly chooses the cell where generation starts.
    fn first(&self, rng: &mut StdRng) -> (c: Cell)
        requires
            self.width >= 1,
            self.height >= 1,
        ensures
            self.in_grid(c.pos()),
    {
        let col = gen_index(rng, 0, self.width);
        let row = gen_index(rng, 0, self.height);
        Cell::from(col, row)
    }

    /// Removes the wall between the two adjacent cells.
    fn remove_wall(&mut self, cell1: &Cell, cell2: &Cell)
        requires
            old(self).wf(),
            old(self).in_grid(cell1.pos()),
            old(self).in_grid(cell2.pos()),
            adjacent(cell1.pos(), cell2.pos()),
        ensures
            final(self).wf(),
            final(self).width == old(self).width,
            final(self).height == old(self).height,
            final(self).start_cell == old(self).start_cell,
            final(self).end_cell == old(self).end_cell,
            old(self).only_opened(final(self)),
            old(self).borders_kept(final(self)),
            final(self).passage(cell1.pos(), cell2.pos()),
            ({
                let w = wall_between(cell1.pos(), cell2.pos());
                old(self).opened_two(final(self), w.0, w.1, w.2, w.1, w.2)
            }),
    {
        if cell1.row == cell2.row {
            let col = if cell1.col > cell2.col { cell1.col } else { cell2.col };
            self.walls_v[cell1.row][col] = false;
        } else {
            let row = if cell1.row > cell2.row { cell1.row } else { cell2.row };
            self.walls_h[row][cell1.col] = false;
        }
    }

    /// Picks at random an unvisited neighbour of `cell`, removes the wall between
    /// them and marks the neighbour visited in `fresh` (indexed by column, then row;
    /// `true` while unvisited). Returns `None`, changing nothing, when every
    /// neighbour has been visited.
    fn neighbor(&mut self, fresh: &mut Vec<Vec<bool>>, cell: &Cell, rng: &mut StdRng) -> (r: Option<Cell>)
        requires
            old(self).wf(),
            grid_shape(old(fresh)@, old(self).width as int, old(self).height as int),
            old(self).in_grid(cell.pos()),
        ensures
            final(self).wf(),
            final(self).width == old(self).width,
            final(self).height == old(self).height,
            final(self).start_cell == old(self).start_cell,
            final(self).end_cell == old(self).end_cell,
            old(self).only_opened(final(self)),
            old(self).borders_kept(final(self)),
            grid_shape(final(fresh)@, old(self).width as int, old(self).height as int),
            r is None ==> *final(self) == *old(self) && final(fresh)@ == old(fresh)@,
            r is None ==> forall|n: (int, int)|
                old(self).in_grid(n) && adjacent(cell.pos(), n) ==> !#[trigger] fresh_at(old(fresh)@, n),
            r matches Some(n) ==> {
                &&& old(self).in_grid(n.pos())
                &&& adjacent(cell.pos(), n.pos())
                &&& fresh_at(old(fresh)@, n.pos())
                &&& final(self).passage(cell.pos(), n.pos())
                &&& ({
                    let w = wall_between(cell.pos(), n.pos());
                    old(self).opened_two(final(self), w.0, w.1, w.2, w.1, w.2)
                })
                &&& final(fresh)@[n.col as int]@ == old(fresh)@[n.col as int]@.update(n.row as int, false)
                &&& forall|i: int| 0 <= i < old(fresh)@.len() && i != n.col ==> (#[trigger] final(fresh)@[i])@ == old(fresh)@[i]@
            },
    {
        let ghost g = fresh@;
        let mut neighbors: Vec<Cell> = Vec::new();
        if cell.col > 0 && fresh[cell.col - 1][cell.row] {
            neighbors.push(Cell::from(cell.col - 1, cell.row));
        }
        if cell.row > 0 && fresh[cell.col][cell.row - 1] {
            neighbors.push(Cell::from(cell.col, cell.row - 1));
        }
        if cell.col + 1 < self.width && fresh[cell.col + 1][cell.row] {
            neighbors.push(Cell::from(cell.col + 1, cell.row));
        }
        if cell.row + 1 < self.height && fresh[cell.col][cell.row + 1] {
            neighbors.push(Cell::from(cell.col, cell.row + 1));
        }
        assert forall|j: int| 0 <= j < neighbors@.len() implies {
            &&& self.in_grid((#[trigger] neighbors@[j]).pos())
            &&& adjacent(cell.pos(), neighbors@[j].pos())
            &&& fresh_at(g, neighbors@[j].pos())
        } by {}
        if neighbors.len() == 0 {
            assert forall|n: (int, int)| self.in_grid(n) && adjacent(cell.pos(), n) implies !#[trigger] fresh_at(g, n) by {
                if n.1 == cell.row && n.0 + 1 == cell.col {
                } else if n.0 == cell.col && n.1 + 1 == cell.row {
                } else if n.1 == cell.row && n.0 == cell.col + 1 {
                } else {
                }
            }
            None
        } else {
            let k = gen_index(rng, 0, neighbors.len());
            let next = neighbors[k];
            self.remove_wall(cell, &next);
            fresh[next.col][next.row] = false;
            Some(next)
        }
    }

    /// The interior walls that still stand, as `(horizontal, x, y)`, in
    /// collection order.
    fn closed_interior_walls(&self) -> (r: Vec<(bool, usize, usize)>)
        requires
            self.wf(),
            self.width >= 1,
            self.height >= 1,
        ensures
            forall|j: int|
                0 <= j < r@.len() ==> interior_wall(self.width as int, self.height as int, #[trigger] r@[j])
                    && self.wall_standing(r@[j]),
            forall|j: int, k: int| 0 <= j < k < r@.len() ==> wall_order(r@[j], r@[k]),
            r@.len() == self.interior_count(),
    {
        let ghost wh = self.walls_h@;
        let ghost wv = self.walls_v@;
        let ghost w = self.width as int;
        let mut r: Vec<(bool, usize, usize)> = Vec::new();
        let mut y: usize = 1;
        while y < self.height
            invariant
                self.wf(),
                self.height >= 1,
                self.width >= 1,
                1 <= y <= self.height,
                wh == self.walls_h@,
                w == self.width,
                forall|j: int|
                    0 <= j < r@.len() ==> interior_wall(self.width as int, self.height as int, #[trigger] r@[j])
                        && self.wall_standing(r@[j]) && r@[j].0 && r@[j].2 < y,
                forall|j: int, k: int| 0 <= j < k < r@.len() ==> wall_order(r@[j], r@[k]),
                r@.len() == count_window(wh.subrange(1, y as int), 0, w),
            decreases self.height - y,
        {
            let mut x: usize = 0;
            while x < self.width
                invariant
                    self.wf(),
                    1 <= y < self.height,
                    x <= self.width,
                    wh == self.walls_h@,
                    w == self.width,
                    forall|j: int|
                        0 <= j < r@.len() ==> interior_wall(self.width as int, self.height as int, #[trigger] r@[j])
                            && self.wall_standing(r@[j]) && r@[j].0 && (r@[j].2 < y || (r@[j].2 == y && r@[j].1 < x)),
                    forall|j: int, k: int| 0 <= j < k < r@.len() ==> wall_order(r@[j], r@[k]),
                    r@.len() == count_window(wh.subrange(1, y as int), 0, w) + count_row(wh[y as int]@.subrange(0, x as int)),
                decreases self.width - x,
            {
                proof {
                    lemma_count_row_prefix(wh[y as int]@, 0, x as int);
                }
                if self.walls_h[y][x] {
                    r.push((true, x, y));
                }
                x = x + 1;
            }
            proof {
                lemma_count_window_prefix(wh, 1, y as int, 0, w);
            }
            y = y + 1;
        }
        let ghost hcount = r@.len();
        let mut y: usize = 0;
        while y < self.height
            invariant
                self.wf(),
                self.width >= 1,
                y <= self.height,
                wv == self.walls_v@,
                w == self.width,
                forall|j: int|
                    0 <= j < r@.len() ==> interior_wall(self.width as int, self.height as int, #[trigger] r@[j])
                        && self.wall_standing(r@[j]) && (r@[j].0 || r@[j].2 < y),
                forall|j: int, k: int| 0 <= j < k < r@.len() ==> wall_order(r@[j], r@[k]),
                r@.len() == hcount + count_window(wv.subrange(0, y as int), 1, w),
            decreases self.height - y,
        {
            let mut x: usize = 1;
            while x < self.width
                invariant
                    self.wf(),
                    1 <= x <= self.width,
                    y < self.height,
                    wv == self.walls_v@,
                    w == self.width,
                    forall|j: int|
                        0 <= j < r@.len() ==> interior_wall(self.width as int, self.height as int, #[trigger] r@[j])
                            && self.wall_standing(r@[j]) && (r@[j].0 || r@[j].2 < y || (r@[j].2 == y && r@[j].1 < x)),
                    forall|j: int, k: int| 0 <= j < k < r@.len() ==> wall_order(r@[j], r@[k]),
                    r@.len() == hcount + count_window(wv.subrange(0, y as int), 1, w) + count_row(
                        wv[y as int]@.subrange(1, x as int),
                    ),
                decreases self.width - x,
            {
                proof {
                    lemma_count_row_prefix(wv[y as int]@, 1, x as int);
                }
                if self.walls_v[y][x] {
                    r.push((false, x, y));
                }
                x = x + 1;
            }
            proof {
                lemma_count_window_prefix(wv, 0, y as int, 1, w);
            }
            y = y + 1;
        }
        proof {
            assert(wv.subrange(0, self.height as int) =~= wv);
        }
        r
    }

    /// Removes `amount` interior walls, or every interior wall still standing
    /// when fewer stand, each picked at random among those still standing.
    /// Border walls are never touched.
    pub fn open_walls(&mut self, amount: usize, rng: &mut StdRng)
        requires
            old(self).wf(),
            old(self).width >= 1,
            old(self).height >= 1,
        ensures
            final(self).wf(),
            final(self).width == old(self).width,
            final(self).height == old(self).height,
            final(self).start_cell == old(self).start_cell,
            final(self).end_cell == old(self).end_cell,
            old(self).only_opened(final(self)),
            old(self).borders_kept(final(self)),
            final(self).standing() <= old(self).standing(),
            old(self).standing() - final(self).standing() == if amount <= old(self).interior_count() {
                amount as int
            } else {
                old(self).interior_count() as int
            },
            final(self).interior_count() + (old(self).standing() - final(self).standing()) == old(self).interior_count(),
    {
        let ghost m0 = *self;
        let mut amount = amount;
        let ghost amount0 = amount;
        let ghost mut opened: nat = 0;
        let mut candidates = self.closed_interior_walls();
        assert forall|j: int, k: int| 0 <= j < candidates@.len() && 0 <= k < candidates@.len() && j != k
            implies candidates@[j] != candidates@[k] by {
            if j < k {
                assert(wall_order(candidates@[j], candidates@[k]));
            } else {
                assert(wall_order(candidates@[k], candidates@[j]));
            }
        }
        while amount > 0 && candidates.len() > 0
            invariant
                self.wf(),
                self.width == m0.width,
                self.height == m0.height,
                self.width >= 1,
                self.height >= 1,
                self.start_cell == m0.start_cell,
                self.end_cell == m0.end_cell,
                m0.only_opened(self),
                m0.borders_kept(self),
                opened + amount == amount0,
                m0.standing() == self.standing() + opened,
                m0.interior_count() == self.interior_count() + opened,
                candidates@.len() == self.interior_count(),
                forall|j: int| 0 <= j < candidates@.len() ==> interior_wall(self.width as int, self.height as int, #[trigger] candidates@[j]),
                forall|j: int| 0 <= j < candidates@.len() ==> self.wall_standing(#[trigger] candidates@[j]),
                forall|j: int, k: int| 0 <= j < candidates@.len() && 0 <= k < candidates@.len() && j != k
                    ==> candidates@[j] != candidates@[k],
            decreases amount,
        {
            let k = gen_index(rng, 0, candidates.len());
            let ghost before = candidates@;
            let (horizontal, x, y) = candidates.swap_remove(k);
            assert(interior_wall(self.width as int, self.height as int, before[k as int]));
            assert forall|j: int| 0 <= j < candidates@.len() implies interior_wall(self.width as int, self.height as int, #[trigger] candidates@[j]) by {
                if j == k {
                    assert(candidates@[j] == before[before.len() - 1]);
                } else {
                    assert(candidates@[j] == before[j]);
                }
            }
            let ghost w = before[k as int];
            assert forall|j: int| 0 <= j < candidates@.len() implies #[trigger] candidates@[j] != w by {
                if j == k {
                    assert(candidates@[j] == before[before.len() - 1]);
                } else {
                    assert(candidates@[j] == before[j]);
                }
            }
            assert forall|j: int, l: int| 0 <= j < candidates@.len() && 0 <= l < candidates@.len() && j != l
                implies candidates@[j] != candidates@[l] by {
                let fj = if j == k { before.len() - 1 } else { j };
                let fl = if l == k { before.len() - 1 } else { l };
                assert(candidates@[j] == before[fj]);
                assert(candidates@[l] == before[fl]);
            }
            let ghost prev = *self;
            if horizontal {
                self.walls_h[y][x] = false;
                proof {
                    lemma_count_grid_clear(prev.walls_h@, self.walls_h@, y as int, x as int);
                    let h = self.height as int;
                    lemma_count_window_clear(
                        prev.walls_h@.subrange(1, h),
                        self.walls_h@.subrange(1, h),
                        y - 1,
                        x as int,
                        0,
                        self.width as int,
                    );
                }
            } else {
                self.walls_v[y][x] = false;
                proof {
                    lemma_count_grid_clear(prev.walls_v@, self.walls_v@, y as int, x as int);
                    lemma_count_window_clear(prev.walls_v@, self.walls_v@, y as int, x as int, 1, self.width as int);
                }
            }
            assert(prev.borders_kept(self));
            assert(prev.only_opened(self));
            assert forall|j: int| 0 <= j < candidates@.len() implies self.wall_standing(#[trigger] candidates@[j]) by {
                assert(candidates@[j] != w);
                assert(prev.wall_standing(candidates@[j])) by {
                    if j == k {
                        assert(candidates@[j] == before[before.len() - 1]);
                    } else {
                        assert(candidates@[j] == before[j]);
                    }
                }
            }
            proof {
                opened = opened + 1;
            }
            amount = amount - 1;
        }
    }

    /// Removes a few interior walls at random: draws how many, fewer than the
    /// square root of the number of cells, and opens that many (or all that
    /// still stand). Returns the number drawn.
    pub fn open_random(&mut self, rng: &mut StdRng) -> (amount: usize)
        requires
            old(self).wf(),
            old(self).width >= 1,
            old(self).height >= 1,
            old(self).width * old(self).height <= usize::MAX,
        ensures
            final(self).wf(),
            final(self).width == old(self).width,
            final(self).height == old(self).height,
            final(self).start_cell == old(self).start_cell,
            final(self).end_cell == old(self).end_cell,
            old(self).only_opened(final(self)),
            old(self).borders_kept(final(self)),
            (amount + 1) * (amount + 1) <= old(self).width * old(self).height,
            final(self).standing() <= old(self).standing(),
            old(self).standing() - final(self).standing() == if amount <= old(self).interior_count() {
                amount as int
            } else {
                old(self).interior_count() as int
            },
            final(self).interior_count() + (old(self).standing() - final(self).standing()) == old(self).interior_count(),
    {
        let root = isqrt(self.width * self.height);
        proof {
            assert(root >= 1) by (nonlinear_arith)
                requires
                    self.width * self.height < (root + 1) * (root + 1),
                    self.width >= 1,
                    self.height >= 1,
                    root >= 0,
            ;
        }
        let amount = gen_index(rng, 0, root);
        proof {
            assert((amount + 1) * (amount + 1) <= root * root) by (nonlinear_arith)
                requires
                    0 <= amount < root,
            ;
        }
        self.open_walls(amount, rng);
        amount
    }

    /// Builds the maze. A randomised depth-first search from a random cell carves
    /// a spanning tree of passages; a few more interior walls are then opened at
    /// random; the start and end cells are set to opposite corners.
    pub fn build(&mut self, rng: &mut StdRng)
        requires
            old(self).wf(),
            old(self).width >= 1,
            old(self).height >= 1,
            old(self).width * old(self).height <= usize::MAX,
        ensures
            final(self).wf(),
            final(self).width == old(self).width,
            final(self).height == old(self).height,
            old(self).only_opened(final(self)),
            old(self).borders_kept(final(self)),
            final(self).start_cell == (Cell { col: 0, row: 0 }),
            final(self).end_cell == (Cell {
                col: (old(self).width - 1) as usize,
                row: (old(self).height - 1) as usize,
            }),
            final(self).connected_from(final(self).start_cell.pos()),
            old(self).all_closed() ==> {
                let n = old(self).width * old(self).height;
                let k = old(self).interior_count() - final(self).interior_count();
                &&& k >= n - 1
                &&& (k - (n - 1) + 1) * (k - (n - 1) + 1) <= n
            },
    {
        let ghost m0 = *self;
        let w = self.width;
        let h = self.height;
        let mut fresh = filled_grid(w, h, true);
        let mut cell_stack: Vec<Cell> = Vec::new();
        let mut next = self.first(rng);
        let ghost f = next.pos();
        let ghost g0 = fresh@;
        fresh[next.col][next.row] = false;
        proof {
            lemma_count_grid_filled(g0, h as int, true);
            lemma_count_grid_clear(g0, fresh@, f.0, f.1);
            lemma_reach_self(self, f);
            assert forall|c: (int, int)| self.in_grid(c) && !fresh_at(fresh@, c) implies #[trigger] self.reachable(f, c) by {
                if c != f {
                    if c.0 != f.0 {
                        assert(fresh@[c.0]@ == g0[c.0]@);
                    }
                }
            }
        }
        loop
            invariant
                self.wf(),
                self.width == w,
                self.height == h,
                self.start_cell == m0.start_cell,
                self.end_cell == m0.end_cell,
                m0.width == w,
                m0.height == h,
                m0.only_opened(self),
                m0.borders_kept(self),
                grid_shape(fresh@, w as int, h as int),
                self.in_grid(f),
                !fresh_at(fresh@, f),
                self.in_grid(next.pos()),
                !fresh_at(fresh@, next.pos()),
                forall|k: int|
                    0 <= k < cell_stack@.len() ==> self.in_grid((#[trigger] cell_stack@[k]).pos())
                        && !fresh_at(fresh@, cell_stack@[k].pos()),
                forall|c: (int, int)| self.in_grid(c) && !fresh_at(fresh@, c) ==> #[trigger] self.reachable(f, c),
                forall|x: (int, int), y: (int, int)|
                    self.in_grid(x) && self.in_grid(y) && adjacent(x, y) && !#[trigger] fresh_at(fresh@, x)
                        && #[trigger] fresh_at(fresh@, y) ==> x == next.pos() || exists|k: int|
                        0 <= k < cell_stack@.len() && (#[trigger] cell_stack@[k]).pos() == x,
                m0.all_closed() ==> m0.interior_count() + count_grid(fresh@) + 1 == self.interior_count() + w * h,
                m0.all_closed() ==> forall|hz: bool, x: int, y: int|
                    interior_pos(w as int, h as int, hz, x, y) && !#[trigger] self.wall_on(hz, x, y) ==> !fresh_at(
                        fresh@,
                        side_a(hz, x, y),
                    ) && !fresh_at(fresh@, (x, y)),
            ensures
                self.wf(),
                self.width == w,
                self.height == h,
                self.start_cell == m0.start_cell,
                self.end_cell == m0.end_cell,
                m0.only_opened(self),
                m0.borders_kept(self),
                self.in_grid(f),
                self.connected_from(f),
                m0.all_closed() ==> m0.interior_count() + 1 == self.interior_count() + w * h,
            decreases 2 * count_grid(fresh@) + cell_stack@.len(),
        {
            let ghost m1 = *self;
            let ghost g1 = fresh@;
            let ghost s1 = cell_stack@;
            let ghost cur = next.pos();
            match self.neighbor(&mut fresh, &next, rng) {
                Some(cell) => {
                    let ghost n = cell.pos();
                    proof {
                        lemma_count_grid_clear(g1, fresh@, n.0, n.1);
                        if m0.all_closed() {
                            let wb = wall_between(cur, n);
                            assert(interior_pos(w as int, h as int, wb.0, wb.1, wb.2));
                            assert((side_a(wb.0, wb.1, wb.2) == cur && (wb.1, wb.2) == n) || (side_a(wb.0, wb.1, wb.2) == n
                                && (wb.1, wb.2) == cur));
                            if !m1.wall_on(wb.0, wb.1, wb.2) {
                                assert(!fresh_at(g1, n));
                            }
                            lemma_open_one(&m1, self, wb.0, wb.1, wb.2);
                            assert forall|hz: bool, x: int, y: int|
                                interior_pos(w as int, h as int, hz, x, y) && !#[trigger] self.wall_on(hz, x, y) implies !fresh_at(
                                    fresh@,
                                    side_a(hz, x, y),
                                ) && !fresh_at(fresh@, (x, y)) by {
                                let pa = side_a(hz, x, y);
                                let pb = (x, y);
                                if pa.0 != n.0 {
                                    assert(fresh@[pa.0]@ == g1[pa.0]@);
                                }
                                if pb.0 != n.0 {
                                    assert(fresh@[pb.0]@ == g1[pb.0]@);
                                }
                                if cur.0 != n.0 {
                                    assert(fresh@[cur.0]@ == g1[cur.0]@);
                                }
                                if !(hz == wb.0 && x == wb.1 && y == wb.2) {
                                    assert(self.wall_on(hz, x, y) == m1.wall_on(hz, x, y));
                                    assert(!fresh_at(g1, pa) && !fresh_at(g1, pb));
                                }
                            }
                        }
                        if f.0 != n.0 {
                            assert(fresh@[f.0]@ == g1[f.0]@);
                        }
                        assert forall|c: (int, int)| self.in_grid(c) && !fresh_at(fresh@, c) implies #[trigger] self.reachable(f, c) by {
                            if c == n {
                                assert(m1.reachable(f, cur));
                                lemma_reach_kept(&m1, self, f, cur);
                                lemma_reach_step(self, f, cur, n);
                            } else {
                                if c.0 != n.0 {
                                    assert(fresh@[c.0]@ == g1[c.0]@);
                                }
                                assert(m1.reachable(f, c));
                                lemma_reach_kept(&m1, self, f, c);
                            }
                        }
                    }
                    cell_stack.push(next);
                    next = cell;
                    proof {
                        assert forall|k: int| 0 <= k < cell_stack@.len() implies self.in_grid((#[trigger] cell_stack@[k]).pos())
                            && !fresh_at(fresh@, cell_stack@[k].pos()) by {
                            if k < s1.len() {
                                assert(cell_stack@[k] == s1[k]);
                                let p = s1[k].pos();
                                if p.0 != n.0 {
                                    assert(fresh@[p.0]@ == g1[p.0]@);
                                }
                            } else {
                                if cur.0 != n.0 {
                                    assert(fresh@[cur.0]@ == g1[cur.0]@);
                                }
                            }
                        }
                        assert forall|x: (int, int), y: (int, int)|
                            self.in_grid(x) && self.in_grid(y) && adjacent(x, y) && !#[trigger] fresh_at(fresh@, x)
                                && #[trigger] fresh_at(fresh@, y) implies x == next.pos() || exists|k: int|
                                0 <= k < cell_stack@.len() && (#[trigger] cell_stack@[k]).pos() == x by {
                            if x != n {
                                if x.0 != n.0 {
                                    assert(fresh@[x.0]@ == g1[x.0]@);
                                }
                                if y.0 != n.0 {
                                    assert(fresh@[y.0]@ == g1[y.0]@);
                                }
                                assert(!fresh_at(g1, x));
                                assert(fresh_at(g1, y));
                                if x == cur {
                                    assert(cell_stack@[s1.len() as int].pos() == cur);
                                } else {
                                    let k = choose|k: int| 0 <= k < s1.len() && (#[trigger] s1[k]).pos() == x;
                                    assert(cell_stack@[k] == s1[k]);
                                }
                            }
                        }
                    }
                },
                None => {
                    match cell_stack.pop() {
                        Some(cell) => {
                            next = cell;
                            proof {
                                let last = s1.len() - 1;
                                assert(s1[last] == cell);
                                assert forall|k: int| 0 <= k < cell_stack@.len() implies self.in_grid((#[trigger] cell_stack@[k]).pos())
                                    && !fresh_at(fresh@, cell_stack@[k].pos()) by {
                                    assert(cell_stack@[k] == s1[k]);
                                }
                                assert forall|x: (int, int), y: (int, int)|
                                    self.in_grid(x) && self.in_grid(y) && adjacent(x, y) && !#[trigger] fresh_at(fresh@, x)
                                        && #[trigger] fresh_at(fresh@, y) implies x == next.pos() || exists|k: int|
                                        0 <= k < cell_stack@.len() && (#[trigger] cell_stack@[k]).pos() == x by {
                                    if x != cur {
                                        let k = choose|k: int| 0 <= k < s1.len() && (#[trigger] s1[k]).pos() == x;
                                        if k < last {
                                            assert(cell_stack@[k] == s1[k]);
                                        }
                                    }
                                }
                            }
                        },
                        None => {
                            proof {
                                assert forall|c: (int, int)| self.in_grid(c) implies !fresh_at(fresh@, c) by {
                                    if fresh_at(fresh@, c) {
                                        let r = lemma_frontier(fresh@, w as int, h as int, f, c);
                                        assert(r.0 != cur);
                                        let k = choose|k: int| 0 <= k < s1.len() && (#[trigger] s1[k]).pos() == r.0;
                                        assert(false);
                                    }
                                }
                                assert forall|i: int, j: int| 0 <= i < fresh@.len() && 0 <= j < h implies #[trigger] fresh@[i]@[j] == false by {
                                    assert(!fresh_at(fresh@, (i, j)));
                                }
                                lemma_count_grid_filled(fresh@, h as int, false);
                                assert forall|c: (int, int)| self.in_grid(c) implies #[trigger] self.reachable(f, c) by {
                                    if fresh_at(fresh@, c) {
                                        let r = lemma_frontier(fresh@, w as int, h as int, f, c);
                                        assert(r.0 != cur);
                                        let k = choose|k: int| 0 <= k < s1.len() && (#[trigger] s1[k]).pos() == r.0;
                                        assert(false);
                                    }
                                }
                            }
                            break;
                        },
                    }
                },
            }
        }
        let ghost m2 = *self;
        let amount = self.open_random(rng);
        let ghost m3 = *self;
        self.start_cell = Cell::from(0, 0);
        self.end_cell = Cell::from(w - 1, h - 1);
        proof {
            assert(m2.only_opened(self));
            assert forall|c: (int, int)| self.in_grid(c) implies #[trigger] self.reachable(f, c) by {
                assert(m2.reachable(f, c));
                lemma_reach_kept(&m2, self, f, c);
            }
            lemma_connected_any(self, f, (0, 0));
            if m0.all_closed() {
                let n = (w * h) as int;
                let r = m2.standing() - self.standing();
                assert(0 <= r <= amount);
                assert(m0.interior_count() - self.interior_count() == (n - 1) + r);
                assert((r + 1) * (r + 1) <= (amount + 1) * (amount + 1)) by (nonlinear_arith)
                    requires
                        0 <= r <= amount,
                ;
            }
        }
    }

    /// Draws one row of walls as text.
    fn paint_row(&self, h_walls: bool, index: usize) -> (r: String)
        requires
            self.wf(),
            h_walls ==> index <= self.height,
            !h_walls ==> index < self.height,
        ensures
            r@ == row_text(
                if h_walls {
                    self.walls_h@[index as int]@
                } else {
                    self.walls_v@[index as int]@
                },
                h_walls,
            ),
    {
        let row: &Vec<bool> = if h_walls { &self.walls_h[index] } else { &self.walls_v[index] };
        let mut out = String::new();
        let mut i: usize = 0;
        while i < row.len()
            invariant
                i <= row@.len(),
                out@ == walls_text(row@.subrange(0, i as int), h_walls),
            decreases row@.len() - i,
        {
            proof {
                reveal_strlit("+---");
                reveal_strlit("+   ");
                reveal_strlit("|   ");
                reveal_strlit("    ");
                assert(row@.subrange(0, i + 1).drop_last() =~= row@.subrange(0, i as int));
            }
            let token = if h_walls {
                if row[i] { "+---" } else { "+   " }
            } else {
                if row[i] { "|   " } else { "    " }
            };
            out.append(token);
            i = i + 1;
        }
        proof {
            reveal_strlit("+\n");
            reveal_strlit("\n");
            assert(row@.subrange(0, row@.len() as int) =~= row@);
        }
        if h_walls {
            out.append("+\n");
        } else {
            out.append("\n");
        }
        out
    }

    /// Draws the whole maze as text, one line per row of walls.
    pub fn paint(&self) -> (r: String)
        requires
            self.wf(),
        ensures
            r@ == rows_text(self.walls_h@, self.walls_v@, self.height as int) + row_text(
                self.walls_h@[self.height as int]@,
                true,
            ),
    {
        let mut out = String::new();
        let mut i: usize = 0;
        while i < self.height
            invariant
                self.wf(),
                i <= self.height,
                out@ == rows_text(self.walls_h@, self.walls_v@, i as int),
            decreases self.height - i,
        {
            let top = self.paint_row(true, i);
            let side = self.paint_row(false, i);
            out.append(top.as_str());
            out.append(side.as_str());
            i = i + 1;
        }
        let bottom = self.paint_row(true, self.height);
        out.append(bottom.as_str());
        out
    }

    /// Opens an entrance and an exit in the border: one in the top wall and one
    /// in the bottom wall, or one in the left wall and one in the right wall,
    /// at random.
    pub fn open_doors(&mut self, rng: &mut StdRng)
        requires
            old(self).wf(),
            old(self).width >= 1,
            old(self).height >= 1,
        ensures
            final(self).wf(),
            final(self).start_cell == old(self).start_cell,
            final(self).end_cell == old(self).end_cell,
            (exists|door: int, exit: int|
                0 <= door < old(self).width && 0 <= exit < old(self).width && old(self).opened_two(
                    final(self),
                    true,
                    door,
                    0,
                    exit,
                    old(self).height as int,
                )) || (exists|door: int, exit: int|
                0 <= door < old(self).height && 0 <= exit < old(self).height && old(self).opened_two(
                    final(self),
                    false,
                    0,
                    door,
                    old(self).width as int,
                    exit,
                )),
    {
        let from_top = gen_flag(rng);
        let limit = if from_top { self.width } else { self.height };
        let door = gen_index(rng, 0, limit);
        let exit = gen_index(rng, 0, limit);
        let ghost m0 = *self;
        if from_top {
            self.walls_h[0][door] = false;
            let h = self.height;
            self.walls_h[h][exit] = false;
            assert(m0.opened_two(self, true, door as int, 0, exit as int, m0.height as int));
        } else {
            self.walls_v[door][0] = false;
            let w = self.width;
            self.walls_v[exit][w] = false;
            assert(m0.opened_two(self, false, 0, door as int, m0.width as int, exit as int));
        }
    }

    /// Restores every wall.
    pub fn reset(&mut self)
        requires
            old(self).wf(),
        ensures
            final(self).wf(),
            final(self).width == old(self).width,
            final(self).height == old(self).height,
            final(self).all_closed(),
            final(self).start_cell == (Cell { col: 0, row: 0 }),
            final(self).end_cell == (Cell { col: 0, row: 0 }),
    {
        self.walls_h = filled_grid(self.height + 1, self.width, true);
        self.walls_v = filled_grid(self.height, self.width + 1, true);
        self.start_cell = Cell::default();
        self.end_cell = Cell::default();
    }
}

/// Opening one standing interior wall leaves one fewer standing.
proof fn lemma_open_one(m1: &Maze, m2: &Maze, hz: bool, x: int, y: int)
    requires
        m1.wf(),
        m2.wf(),
        interior_pos(m1.width as int, m1.height as int, hz, x, y),
        m1.wall_on(hz, x, y),
        m1.opened_two(m2, hz, x, y, x, y),
    ensures
        m2.interior_count() + 1 == m1.interior_count(),
{
    let w = m1.width as int;
    let h = m1.height as int;
    let gh = m1.walls_h@.subrange(1, h);
    let gh2 = m2.walls_h@.subrange(1, h);
    if hz {
        assert forall|i: int| 0 <= i < gh.len() && i != y - 1 implies (#[trigger] gh2[i])@ == gh[i]@ by {
            assert(gh2[i]@ =~= gh[i]@) by {
                assert forall|j: int| 0 <= j < gh[i]@.len() implies gh2[i]@[j] == gh[i]@[j] by {
                    assert(wall_at(m2.walls_h@, j, i + 1) == wall_at(m1.walls_h@, j, i + 1));
                }
            }
        }
        assert(gh2[y - 1]@ =~= gh[y - 1]@.update(x, false)) by {
            assert forall|j: int| 0 <= j < gh[y - 1]@.len() implies #[trigger] gh2[y - 1]@[j] == gh[y - 1]@.update(x, false)[j] by {
                assert(wall_at(m2.walls_h@, j, y) == (wall_at(m1.walls_h@, j, y) && j != x));
            }
        }
        lemma_count_window_clear(gh, gh2, y - 1, x, 0, w);
        assert forall|i: int| 0 <= i < m1.walls_v@.len() implies (#[trigger] m2.walls_v@[i])@ == m1.walls_v@[i]@ by {
            assert(m2.walls_v@[i]@ =~= m1.walls_v@[i]@) by {
                assert forall|j: int| 0 <= j < m1.walls_v@[i]@.len() implies m2.walls_v@[i]@[j] == m1.walls_v@[i]@[j] by {
                    assert(wall_at(m2.walls_v@, j, i) == wall_at(m1.walls_v@, j, i));
                }
            }
        }
        lemma_count_window_same_views(m1.walls_v@, m2.walls_v@, 1, w);
    } else {
        assert forall|i: int| 0 <= i < gh.len() implies (#[trigger] gh2[i])@ == gh[i]@ by {
            assert(gh2[i]@ =~= gh[i]@) by {
                assert forall|j: int| 0 <= j < gh[i]@.len() implies gh2[i]@[j] == gh[i]@[j] by {
                    assert(wall_at(m2.walls_h@, j, i + 1) == wall_at(m1.walls_h@, j, i + 1));
                }
            }
        }
        lemma_count_window_same_views(gh, gh2, 0, w);
        assert forall|i: int| 0 <= i < m1.walls_v@.len() && i != y implies (#[trigger] m2.walls_v@[i])@ == m1.walls_v@[i]@ by {
            assert(m2.walls_v@[i]@ =~= m1.walls_v@[i]@) by {
                assert forall|j: int| 0 <= j < m1.walls_v@[i]@.len() implies m2.walls_v@[i]@[j] == m1.walls_v@[i]@[j] by {
                    assert(wall_at(m2.walls_v@, j, i) == wall_at(m1.walls_v@, j, i));
                }
            }
        }
        assert(m2.walls_v@[y]@ =~= m1.walls_v@[y]@.update(x, false)) by {
            assert forall|j: int| 0 <= j < m1.walls_v@[y]@.len() implies #[trigger] m2.walls_v@[y]@[j] == m1.walls_v@[y]@.update(x, false)[j] by {
                assert(wall_at(m2.walls_v@, j, y) == (wall_at(m1.walls_v@, j, y) && j != x));
            }
        }
        lemma_count_window_clear(m1.walls_v@, m2.walls_v@, y, x, 1, w);
    }
}

proof fn lemma_path_kept(m1: &Maze, m2: &Maze, p: Seq<(int, int)>)
    requires
        m1.only_opened(m2),
        m1.is_path(p),
    ensures
        m2.is_path(p),
{
    assert forall|i: int| 0 <= i < p.len() - 1 implies #[trigger] m2.passage(p[i], p[i + 1]) by {
        assert(m1.passage(p[i], p[i + 1]));
    }
}

/// Opening walls never cuts a route.
pub proof fn lemma_reach_kept(m1: &Maze, m2: &Maze, a: (int, int), b: (int, int))
    requires
        m1.only_opened(m2),
        m1.reachable(a, b),
    ensures
        m2.reachable(a, b),
{
    let p = choose|p: Seq<(int, int)>| #[trigger] m1.is_path(p) && p[0] == a && p.last() == b;
    lemma_path_kept(m1, m2, p);
}

proof fn lemma_reach_step(m: &Maze, a: (int, int), b: (int, int), c: (int, int))
    requires
        m.reachable(a, b),
        m.passage(b, c),
    ensures
        m.reachable(a, c),
{
    let p = choose|p: Seq<(int, int)>| #[trigger] m.is_path(p) && p[0] == a && p.last() == b;
    let q = p.push(c);
    assert forall|i: int| 0 <= i < q.len() - 1 implies #[trigger] m.passage(q[i], q[i + 1]) by {
        if i < p.len() - 1 {
            assert(m.passage(p[i], p[i + 1]));
        }
    }
    assert(m.is_path(q));
}

proof fn lemma_reach_self(m: &Maze, a: (int, int))
    requires
        m.in_grid(a),
    ensures
        m.reachable(a, a),
{
    let p = seq![a];
    assert(m.is_path(p));
}

proof fn lemma_reach_reverse(m: &Maze, a: (int, int), b: (int, int))
    requires
        m.reachable(a, b),
    ensures
        m.reachable(b, a),
{
    let p = choose|p: Seq<(int, int)>| #[trigger] m.is_path(p) && p[0] == a && p.last() == b;
    let n = p.len();
    let q = Seq::new(n, |i: int| p[n - 1 - i]);
    assert forall|i: int| 0 <= i < q.len() - 1 implies #[trigger] m.passage(q[i], q[i + 1]) by {
        let j = n - 2 - i;
        assert(m.passage(p[j], p[j + 1]));
    }
    if n > 1 {
        let k = n - 2;
        assert(m.passage(p[k], p[k + 1]));
    }
    assert(m.is_path(q));
}

proof fn lemma_reach_trans(m: &Maze, a: (int, int), b: (int, int), p: Seq<(int, int)>)
    requires
        m.reachable(a, b),
        m.is_path(p),
        p[0] == b,
    ensures
        m.reachable(a, p.last()),
    decreases p.len(),
{
    if p.len() > 1 {
        let q = p.drop_last();
        assert forall|i: int| 0 <= i < q.len() - 1 implies #[trigger] m.passage(q[i], q[i + 1]) by {
            assert(m.passage(p[i], p[i + 1]));
        }
        lemma_reach_trans(m, a, b, q);
        let k = p.len() - 2;
        assert(m.passage(p[k], p[k + 1]));
        lemma_reach_step(m, a, q.last(), p.last());
    }
}

/// Every cell reaches every other one when all cells are reached from one of them.
pub proof fn lemma_connected_any(m: &Maze, s: (int, int), t: (int, int))
    requires
        m.connected_from(s),
        m.in_grid(s),
        m.in_grid(t),
    ensures
        m.connected_from(t),
{
    assert forall|c: (int, int)| m.in_grid(c) implies #[trigger] m.reachable(t, c) by {
        assert(m.reachable(s, t));
        lemma_reach_reverse(m, s, t);
        assert(m.reachable(s, c));
        let p = choose|p: Seq<(int, int)>| #[trigger] m.is_path(p) && p[0] == s && p.last() == c;
        lemma_reach_trans(m, t, s, p);
    }
}

} // verus!
