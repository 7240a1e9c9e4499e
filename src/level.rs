//! The arena: a maze, the wall pieces laid out from it, the two spawn cells,
//! and the countdown to the next round.

use vstd::prelude::*;
use rand::rngs::StdRng;
use crate::maze::{Maze, Cell, wall_at};

verus! {

/// Why a level cannot be made.
#[derive(Clone, Copy, PartialEq, Eq, Structural, Debug)]
pub enum LevelError {
    /// Width or height under two cells.
    TooSmall,
    /// More cells than memory can index.
    TooLarge,
}

/// One standing wall, as a rigid rectangle: `walls_h[y][x]` when `horizontal`,
/// else `walls_v[y][x]`. Border walls are always static; interior walls are
/// dynamic (can be pushed) when dynamic walls are enabled.
#[derive(Clone, Copy, PartialEq, Eq, Structural, Debug)]
pub struct WallPiece {
    pub horizontal: bool,
    pub x: usize,
    pub y: usize,
    pub border: bool,
    pub dynamic: bool,
}

/// A spawn: the cell a tank starts in and its heading in degrees.
#[derive(Clone, Copy, PartialEq, Eq, Structural, Debug)]
pub struct SpawnPoint {
    pub cell: Cell,
    pub angle_degrees: u16,
}

pub struct MazeLevel {
    pub maze: Maze,
    /// Time left before the next round starts, in microseconds.
    pub reset_timer: Option<u64>,
}

/// The sizes a level accepts.
pub open spec fn level_size_ok(width: usize, height: usize) -> bool {
    width >= 2 && height >= 2 && width * height <= usize::MAX
}

/// `p` is a standing wall of `m`, described as `WallPiece` describes it.
pub open spec fn piece_of(m: Maze, p: WallPiece, dynamic_walls: bool) -> bool {
    &&& if p.horizontal {
        &&& p.x < m.width && p.y <= m.height
        &&& wall_at(m.walls_h@, p.x as int, p.y as int)
        &&& p.border == (p.y == 0 || p.y == m.height)
    } else {
        &&& p.x <= m.width && p.y < m.height
        &&& wall_at(m.walls_v@, p.x as int, p.y as int)
        &&& p.border == (p.x == 0 || p.x == m.width)
    }
    &&& p.dynamic == (dynamic_walls && !p.border)
}

/// Layout order: horizontal walls first, each kind by row, then by column.
pub open spec fn piece_before(a: WallPiece, b: WallPiece) -> bool {
    (a.horizontal && !b.horizontal) || (a.horizontal == b.horizontal && (a.y < b.y || (a.y == b.y && a.x < b.x)))
}

/// A freshly built level: a well-formed maze of the given size with every
/// cell reachable, the border closed, spawns in opposite corners.
pub open spec fn fresh_level(m: Maze, width: usize, height: usize) -> bool {
    &&& m.wf()
    &&& m.width == width
    &&& m.height == height
    &&& m.connected_from(m.start_cell.pos())
    &&& m.start_cell == (Cell { col: 0, row: 0 })
    &&& m.end_cell == (Cell { col: (width - 1) as usize, row: (height - 1) as usize })
    &&& forall|x: int| 0 <= x < width ==> #[trigger] wall_at(m.walls_h@, x, 0) && wall_at(m.walls_h@, x, height as int)
    &&& forall|y: int| 0 <= y < height ==> #[trigger] wall_at(m.walls_v@, 0, y) && wall_at(m.walls_v@, width as int, y)
}

impl MazeLevel {
    /// Builds a level with a new maze of `width` by `height` cells.
    pub fn new(width: usize, height: usize, rng: &mut StdRng) -> (r: Result<MazeLevel, LevelError>)
        ensures
            (width < 2 || height < 2) <==> r == Err::<MazeLevel, LevelError>(LevelError::TooSmall),
            (width >= 2 && height >= 2 && width * height > usize::MAX) <==> r == Err::<MazeLevel, LevelError>(
                LevelError::TooLarge,
            ),
            level_size_ok(width, height) <==> r is Ok,
            r matches Ok(l) ==> fresh_level(l.maze, width, height) && l.reset_timer is None,
    {
        if width < 2 || height < 2 {
            return Err(LevelError::TooSmall);
        }
        if width > usize::MAX / height {
            proof {
                vstd::arithmetic::div_mod::lemma_fundamental_div_mod(usize::MAX as int, height as int);
                assert(width * height > usize::MAX) by (nonlinear_arith)
                    requires
                        width >= usize::MAX as int / height as int + 1,
                        usize::MAX as int == height * (usize::MAX as int / height as int) + usize::MAX as int % height as int,
                        (usize::MAX as int % height as int) < height,
                        height >= 2,
                ;
            }
            return Err(LevelError::TooLarge);
        }
        proof {
            vstd::arithmetic::div_mod::lemma_fundamental_div_mod(usize::MAX as int, height as int);
            assert(width * height <= usize::MAX) by (nonlinear_arith)
                requires
                    width <= usize::MAX as int / height as int,
                    usize::MAX as int == height * (usize::MAX as int / height as int) + usize::MAX as int % height as int,
                    (usize::MAX as int % height as int) >= 0,
                    height >= 2,
            ;
        }
        assert(width < usize::MAX && height < usize::MAX) by (nonlinear_arith)
            requires
                width * height <= usize::MAX,
                width >= 2,
                height >= 2,
        ;
        let mut maze = Maze::new(width, height);
        maze.build(rng);
        Ok(MazeLevel { maze, reset_timer: None })
    }

    /// Rebuilds the maze from scratch: every wall is restored, then a new maze
    /// is generated. Returns the wall pieces of the new maze, as `wall_layout`
    /// gives them. The reset countdown is left as it is.
    pub fn rebuild(&mut self, rng: &mut StdRng, dynamic_walls: bool) -> (r: Vec<WallPiece>)
        requires
            old(self).maze.wf(),
            level_size_ok(old(self).maze.width, old(self).maze.height),
        ensures
            fresh_level(final(self).maze, old(self).maze.width, old(self).maze.height),
            final(self).reset_timer == old(self).reset_timer,
            forall|k: int| 0 <= k < r@.len() ==> piece_of(final(self).maze, #[trigger] r@[k], dynamic_walls),
            forall|k: int, l: int| 0 <= k < l < r@.len() ==> piece_before(r@[k], r@[l]),
            forall|x: int, y: int|
                0 <= x < final(self).maze.width && 0 <= y <= final(self).maze.height && #[trigger] wall_at(
                    final(self).maze.walls_h@,
                    x,
                    y,
                ) ==> exists|k: int| 0 <= k < r@.len() && r@[k].horizontal && r@[k].x == x && r@[k].y == y,
            forall|x: int, y: int|
                0 <= x <= final(self).maze.width && 0 <= y < final(self).maze.height && #[trigger] wall_at(
                    final(self).maze.walls_v@,
                    x,
                    y,
                ) ==> exists|k: int| 0 <= k < r@.len() && !r@[k].horizontal && r@[k].x == x && r@[k].y == y,
    {
        self.maze.reset();
        self.maze.build(rng);
        self.wall_layout(dynamic_walls)
    }

    /// The two spawns: the start cell facing 0 degrees and the end cell facing
    /// 180 degrees.
    pub fn starting_positions(&self) -> (r: [SpawnPoint; 2])
        ensures
            r[0] == (SpawnPoint { cell: self.maze.start_cell, angle_degrees: 0 }),
            r[1] == (SpawnPoint { cell: self.maze.end_cell, angle_degrees: 180 }),
    {
        [
            SpawnPoint { cell: self.maze.start_cell, angle_degrees: 0 },
            SpawnPoint { cell: self.maze.end_cell, angle_degrees: 180 },
        ]
    }

    /// The standing walls of the maze, one piece each, horizontal walls first,
    /// row by row.
    pub fn wall_layout(&self, dynamic_walls: bool) -> (r: Vec<WallPiece>)
        requires
            self.maze.wf(),
        ensures
            forall|k: int| 0 <= k < r@.len() ==> piece_of(self.maze, #[trigger] r@[k], dynamic_walls),
            forall|k: int, l: int| 0 <= k < l < r@.len() ==> piece_before(r@[k], r@[l]),
            forall|x: int, y: int|
                0 <= x < self.maze.width && 0 <= y <= self.maze.height && #[trigger] wall_at(self.maze.walls_h@, x, y)
                    ==> exists|k: int| 0 <= k < r@.len() && r@[k].horizontal && r@[k].x == x && r@[k].y == y,
            forall|x: int, y: int|
                0 <= x <= self.maze.width && 0 <= y < self.maze.height && #[trigger] wall_at(self.maze.walls_v@, x, y)
                    ==> exists|k: int| 0 <= k < r@.len() && !r@[k].horizontal && r@[k].x == x && r@[k].y == y,
    {
        let m = &self.maze;
        let mut r: Vec<WallPiece> = Vec::new();
        let mut y: usize = 0;
        while y <= m.height
            invariant
                m.wf(),
                y <= m.height + 1,
                forall|k: int| 0 <= k < r@.len() ==> piece_of(*m, #[trigger] r@[k], dynamic_walls),
                forall|k: int| 0 <= k < r@.len() ==> (#[trigger] r@[k]).horizontal && r@[k].y < y,
                forall|k: int, l: int| 0 <= k < l < r@.len() ==> piece_before(r@[k], r@[l]),
                forall|x: int, yy: int|
                    0 <= x < m.width && 0 <= yy < y && #[trigger] wall_at(m.walls_h@, x, yy)
                        ==> exists|k: int| 0 <= k < r@.len() && r@[k].horizontal && r@[k].x == x && r@[k].y == yy,
            decreases m.height + 1 - y,
        {
            let mut x: usize = 0;
            while x < m.width
                invariant
                    m.wf(),
                    y <= m.height,
                    x <= m.width,
                    forall|k: int| 0 <= k < r@.len() ==> piece_of(*m, #[trigger] r@[k], dynamic_walls),
                    forall|k: int| 0 <= k < r@.len() ==> (#[trigger] r@[k]).horizontal && (r@[k].y < y || (r@[k].y == y && r@[k].x < x)),
                    forall|k: int, l: int| 0 <= k < l < r@.len() ==> piece_before(r@[k], r@[l]),
                    forall|xx: int, yy: int|
                        0 <= xx < m.width && 0 <= yy < y && #[trigger] wall_at(m.walls_h@, xx, yy)
                            ==> exists|k: int| 0 <= k < r@.len() && r@[k].horizontal && r@[k].x == xx && r@[k].y == yy,
                    forall|xx: int|
                        0 <= xx < x && #[trigger] wall_at(m.walls_h@, xx, y as int)
                            ==> exists|k: int| 0 <= k < r@.len() && r@[k].horizontal && r@[k].x == xx && r@[k].y == y,
                decreases m.width - x,
            {
                if m.walls_h[y][x] {
                    let border = y == 0 || y == m.height;
                    let ghost r0 = r@;
                    r.push(WallPiece { horizontal: true, x, y, border, dynamic: dynamic_walls && !border });
                    proof {
                        assert(wall_at(m.walls_h@, x as int, y as int));
                        assert forall|xx: int, yy: int|
                            0 <= xx < m.width && 0 <= yy < y && #[trigger] wall_at(m.walls_h@, xx, yy)
                                implies exists|k: int| 0 <= k < r@.len() && r@[k].horizontal && r@[k].x == xx && r@[k].y == yy by {
                            let k = choose|k: int| 0 <= k < r0.len() && r0[k].horizontal && r0[k].x == xx && r0[k].y == yy;
                            assert(r@[k] == r0[k]);
                        }
                        assert forall|xx: int| 0 <= xx < x + 1 && #[trigger] wall_at(m.walls_h@, xx, y as int)
                                implies exists|k: int| 0 <= k < r@.len() && r@[k].horizontal && r@[k].x == xx && r@[k].y == y by {
                            if xx < x {
                                let k = choose|k: int| 0 <= k < r0.len() && r0[k].horizontal && r0[k].x == xx && r0[k].y == y;
                                assert(r@[k] == r0[k]);
                            } else {
                                assert(r@[r0.len() as int].x == xx);
                            }
                        }
                    }
                }
                x = x + 1;
            }
            y = y + 1;
        }
        let mut y: usize = 0;
        while y < m.height
            invariant
                m.wf(),
                y <= m.height,
                forall|k: int| 0 <= k < r@.len() ==> piece_of(*m, #[trigger] r@[k], dynamic_walls),
                forall|k: int| 0 <= k < r@.len() ==> (#[trigger] r@[k]).horizontal || r@[k].y < y,
                forall|k: int, l: int| 0 <= k < l < r@.len() ==> piece_before(r@[k], r@[l]),
                forall|x: int, yy: int|
                    0 <= x < m.width && 0 <= yy <= m.height && #[trigger] wall_at(m.walls_h@, x, yy)
                        ==> exists|k: int| 0 <= k < r@.len() && r@[k].horizontal && r@[k].x == x && r@[k].y == yy,
                forall|x: int, yy: int|
                    0 <= x <= m.width && 0 <= yy < y && #[trigger] wall_at(m.walls_v@, x, yy)
                        ==> exists|k: int| 0 <= k < r@.len() && !r@[k].horizontal && r@[k].x == x && r@[k].y == yy,
            decreases m.height - y,
        {
            let mut x: usize = 0;
            while x <= m.width
                invariant
                    m.wf(),
                    y < m.height,
                    x <= m.width + 1,
                    forall|k: int| 0 <= k < r@.len() ==> piece_of(*m, #[trigger] r@[k], dynamic_walls),
                    forall|k: int| 0 <= k < r@.len() ==> (#[trigger] r@[k]).horizontal || r@[k].y < y || (r@[k].y == y && r@[k].x < x),
                    forall|k: int, l: int| 0 <= k < l < r@.len() ==> piece_before(r@[k], r@[l]),
                    forall|xx: int, yy: int|
                        0 <= xx < m.width && 0 <= yy <= m.height && #[trigger] wall_at(m.walls_h@, xx, yy)
                            ==> exists|k: int| 0 <= k < r@.len() && r@[k].horizontal && r@[k].x == xx && r@[k].y == yy,
                    forall|xx: int, yy: int|
                        0 <= xx <= m.width && 0 <= yy < y && #[trigger] wall_at(m.walls_v@, xx, yy)
                            ==> exists|k: int| 0 <= k < r@.len() && !r@[k].horizontal && r@[k].x == xx && r@[k].y == yy,
                    forall|xx: int|
                        0 <= xx < x && #[trigger] wall_at(m.walls_v@, xx, y as int)
                            ==> exists|k: int| 0 <= k < r@.len() && !r@[k].horizontal && r@[k].x == xx && r@[k].y == y,
                decreases m.width + 1 - x,
            {
                if m.walls_v[y][x] {
                    let border = x == 0 || x == m.width;
                    let ghost r0 = r@;
                    r.push(WallPiece { horizontal: false, x, y, border, dynamic: dynamic_walls && !border });
                    proof {
                        assert(wall_at(m.walls_v@, x as int, y as int));
                        assert forall|xx: int, yy: int|
                            0 <= xx < m.width && 0 <= yy <= m.height && #[trigger] wall_at(m.walls_h@, xx, yy)
                                implies exists|k: int| 0 <= k < r@.len() && r@[k].horizontal && r@[k].x == xx && r@[k].y == yy by {
                            let k = choose|k: int| 0 <= k < r0.len() && r0[k].horizontal && r0[k].x == xx && r0[k].y == yy;
                            assert(r@[k] == r0[k]);
                        }
                        assert forall|xx: int, yy: int|
                            0 <= xx <= m.width && 0 <= yy < y && #[trigger] wall_at(m.walls_v@, xx, yy)
                                implies exists|k: int| 0 <= k < r@.len() && !r@[k].horizontal && r@[k].x == xx && r@[k].y == yy by {
                            let k = choose|k: int| 0 <= k < r0.len() && !r0[k].horizontal && r0[k].x == xx && r0[k].y == yy;
                            assert(r@[k] == r0[k]);
                        }
                        assert forall|xx: int| 0 <= xx < x + 1 && #[trigger] wall_at(m.walls_v@, xx, y as int)
                                implies exists|k: int| 0 <= k < r@.len() && !r@[k].horizontal && r@[k].x == xx && r@[k].y == y by {
                            if xx < x {
                                let k = choose|k: int| 0 <= k < r0.len() && !r0[k].horizontal && r0[k].x == xx && r0[k].y == y;
                                assert(r@[k] == r0[k]);
                            } else {
                                assert(r@[r0.len() as int].x == xx);
                            }
                        }
                    }
                }
                x = x + 1;
            }
            y = y + 1;
        }
        r
    }
}

} // verus!
