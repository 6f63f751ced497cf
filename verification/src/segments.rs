//! Wall segments of a maze, with integer end points.
//!
//! Grid mazes are laid out in cell units: cell `(r, c)` covers the square
//! from `(c, r)` to `(c + 1, r + 1)` (x grows to the right, y downwards).
use vstd::prelude::*;
use crate::eller::MazeGrid;
use crate::grid::well_formed;

verus! {

/// A straight wall from `(ax, ay)` to `(bx, by)`.
#[derive(Clone, Copy, Debug, PartialEq, Eq)]
pub struct Segment {
    pub ax: i64,
    pub ay: i64,
    pub bx: i64,
    pub by: i64,
}

pub open spec fn seg(ax: int, ay: int, bx: int, by: int) -> Segment {
    Segment { ax: ax as i64, ay: ay as i64, bx: bx as i64, by: by as i64 }
}

/// The four sides of the rectangle `(0, 0)`–`(w, h)`: top, right, bottom,
/// left, each running clockwise.
pub open spec fn spec_boundary(w: int, h: int) -> Seq<Segment> {
    seq![seg(0, 0, w, 0), seg(w, 0, w, h), seg(w, h, 0, h), seg(0, h, 0, 0)]
}

/// Segments of the standing interior walls of row `r`, columns `0..n`:
/// per cell its right wall (not in the last column), then its bottom wall
/// (not in the last row).
pub open spec fn row_walls(right: Seq<Seq<bool>>, bottom: Seq<Seq<bool>>, rows: int, cols: int, r: int, n: int) -> Seq<Segment>
    decreases n,
{
    if n <= 0 {
        Seq::empty()
    } else {
        let c = n - 1;
        let before = row_walls(right, bottom, rows, cols, r, n - 1);
        let with_right = if c < cols - 1 && right[r][c] {
            before.push(seg(c + 1, r, c + 1, r + 1))
        } else {
            before
        };
        if r < rows - 1 && bottom[r][c] {
            with_right.push(seg(c, r + 1, c + 1, r + 1))
        } else {
            with_right
        }
    }
}

/// Segments of the standing interior walls of rows `0..m`, row after row.
pub open spec fn interior_walls(right: Seq<Seq<bool>>, bottom: Seq<Seq<bool>>, rows: int, cols: int, m: int) -> Seq<Segment>
    decreases m,
{
    if m <= 0 {
        Seq::empty()
    } else {
        interior_walls(right, bottom, rows, cols, m - 1) + row_walls(right, bottom, rows, cols, m - 1, cols)
    }
}

/// Every wall of a grid maze in cell units: the boundary, then the standing
/// interior walls in row-major order.
pub open spec fn spec_grid_walls(right: Seq<Seq<bool>>, bottom: Seq<Seq<bool>>, rows: int, cols: int) -> Seq<Segment> {
    spec_boundary(cols, rows) + interior_walls(right, bottom, rows, cols, rows)
}

/// The four boundary walls of a `w` by `h` rectangle.
pub fn boundary_segments(w: i64, h: i64) -> (walls: Vec<Segment>)
    ensures
        walls@ == spec_boundary(w as int, h as int),
{
    let walls = vec![
        Segment { ax: 0, ay: 0, bx: w, by: 0 },
        Segment { ax: w, ay: 0, bx: w, by: h },
        Segment { ax: w, ay: h, bx: 0, by: h },
        Segment { ax: 0, ay: h, bx: 0, by: 0 },
    ];
    assert(walls@ =~= spec_boundary(w as int, h as int));
    walls
}

/// All wall segments of a grid maze, in cell units: the boundary, then for
/// each cell in row-major order its standing right wall (except in the last
/// column) and its standing bottom wall (except in the last row).
pub fn grid_segments(grid: &MazeGrid) -> (walls: Vec<Segment>)
    requires
        well_formed(grid@),
        grid.rows < i64::MAX,
        grid.cols < i64::MAX,
    ensures
        walls@ == spec_grid_walls(grid@.right, grid@.bottom, grid.rows as int, grid.cols as int),
{
    let ghost right = grid@.right;
    let ghost bottom = grid@.bottom;
    let ghost rows = grid.rows as int;
    let ghost cols = grid.cols as int;
    let h = grid.rows as i64;
    let w = grid.cols as i64;
    let mut walls = boundary_segments(w, h);
    let mut row: usize = 0;
    while row < grid.rows
        invariant
            well_formed(grid@),
            right == grid@.right,
            bottom == grid@.bottom,
            rows == grid.rows,
            cols == grid.cols,
            grid.rows < i64::MAX,
            grid.cols < i64::MAX,
            row <= grid.rows,
            walls@ == spec_boundary(cols, rows) + interior_walls(right, bottom, rows, cols, row as int),
        decreases grid.rows - row,
    {
        let ghost before = walls@;
        let mut col: usize = 0;
        while col < grid.cols
            invariant
                well_formed(grid@),
                right == grid@.right,
                bottom == grid@.bottom,
                rows == grid.rows,
                cols == grid.cols,
                grid.rows < i64::MAX,
                grid.cols < i64::MAX,
                row < grid.rows,
                col <= grid.cols,
                walls@ == before + row_walls(right, bottom, rows, cols, row as int, col as int),
            decreases grid.cols - col,
        {
            let x = col as i64;
            let y = row as i64;
            assert(grid.right_walls.deep_view()[row as int] =~= grid.right_walls@[row as int]@);
            assert(grid.bottom_walls.deep_view()[row as int] =~= grid.bottom_walls@[row as int]@);
            if col + 1 < grid.cols && grid.right_walls[row][col] {
                walls.push(Segment { ax: x + 1, ay: y, bx: x + 1, by: y + 1 });
            }
            if row + 1 < grid.rows && grid.bottom_walls[row][col] {
                walls.push(Segment { ax: x, ay: y + 1, bx: x + 1, by: y + 1 });
            }
            proof {
                let c = col as int;
                let r = row as int;
                let prev = row_walls(right, bottom, rows, cols, r, c);
                let with_right = if c < cols - 1 && right[r][c] {
                    prev.push(seg(c + 1, r, c + 1, r + 1))
                } else {
                    prev
                };
                let full = if r < rows - 1 && bottom[r][c] {
                    with_right.push(seg(c, r + 1, c + 1, r + 1))
                } else {
                    with_right
                };
                assert(row_walls(right, bottom, rows, cols, r, c + 1) == full);
                assert(walls@ =~= before + full);
            }
            col += 1;
        }
        assert(walls@ =~= spec_boundary(cols, rows) + interior_walls(right, bottom, rows, cols, row + 1));
        row += 1;
    }
    walls
}

/// A maze drawn with integer coordinates: its walls, where the robot
/// starts, where the goal is, and the width and height of the area.
pub struct MazeLayout {
    pub walls: Vec<Segment>,
    pub start: (i64, i64),
    pub goal: (i64, i64),
    pub bounds: (i64, i64),
}

/// Walls of the medium maze: the 200 by 200 boundary, a wall from the left
/// side at height 66 leaving a passage on the right, and a wall from the
/// right side at height 133 leaving a passage on the left.
pub open spec fn spec_medium_walls() -> Seq<Segment> {
    spec_boundary(200, 200) + seq![seg(0, 66, 140, 66), seg(60, 133, 200, 133)]
}

/// Walls of the hard maze: the 300 by 200 boundary and three horizontal
/// walls, each with one gap, at heights 170 (gap 230..260), 110 (gap
/// 40..70) and 50 (gap 230..260).
pub open spec fn spec_hard_walls() -> Seq<Segment> {
    spec_boundary(300, 200) + seq![
        seg(0, 170, 230, 170),
        seg(260, 170, 300, 170),
        seg(0, 110, 40, 110),
        seg(70, 110, 300, 110),
        seg(0, 50, 230, 50),
        seg(260, 50, 300, 50),
    ]
}

impl MazeLayout {
    /// The medium maze: a path with one main turn, from the bottom-left
    /// area to the top-right area.
    pub fn medium() -> (m: Self)
        ensures
            m.walls@ == spec_medium_walls(),
            m.start == (30i64, 180i64),
            m.goal == (170i64, 33i64),
            m.bounds == (200i64, 200i64),
    {
        let mut walls = boundary_segments(200, 200);
        walls.push(Segment { ax: 0, ay: 66, bx: 140, by: 66 });
        walls.push(Segment { ax: 60, ay: 133, bx: 200, by: 133 });
        assert(walls@ =~= spec_medium_walls());
        MazeLayout { walls, start: (30, 180), goal: (170, 33), bounds: (200, 200) }
    }

    /// The hard maze: an S-shaped path from the bottom-left corner to the
    /// goal in the top-right corner (right, up, left, up, right, up), which
    /// misleads a search that rewards closeness to the goal.
    pub fn hard() -> (m: Self)
        ensures
            m.walls@ == spec_hard_walls(),
            m.start == (30i64, 185i64),
            m.goal == (270i64, 25i64),
            m.bounds == (300i64, 200i64),
    {
        let mut walls = boundary_segments(300, 200);
        walls.push(Segment { ax: 0, ay: 170, bx: 230, by: 170 });
        walls.push(Segment { ax: 260, ay: 170, bx: 300, by: 170 });
        walls.push(Segment { ax: 0, ay: 110, bx: 40, by: 110 });
        walls.push(Segment { ax: 70, ay: 110, bx: 300, by: 110 });
        walls.push(Segment { ax: 0, ay: 50, bx: 230, by: 50 });
        walls.push(Segment { ax: 260, ay: 50, bx: 300, by: 50 });
        assert(walls@ =~= spec_hard_walls());
        MazeLayout { walls, start: (30, 185), goal: (270, 25), bounds: (300, 200) }
    }
}

} // verus!
