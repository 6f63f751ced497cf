use novelty_search::eller::{eller_grid, MazeGrid};
use novelty_search::segments::{boundary_segments, grid_segments, MazeLayout, Segment};
use std::collections::VecDeque;

/// Number of passages and number of cells reachable from (0, 0).
fn passages_and_reach(g: &MazeGrid) -> (usize, usize) {
    let (rows, cols) = (g.rows, g.cols);
    let mut passages = 0;
    for r in 0..rows {
        for c in 0..cols {
            if c + 1 < cols && !g.right_walls[r][c] {
                passages += 1;
            }
            if r + 1 < rows && !g.bottom_walls[r][c] {
                passages += 1;
            }
        }
    }
    let mut seen = vec![vec![false; cols]; rows];
    let mut queue = VecDeque::new();
    seen[0][0] = true;
    queue.push_back((0usize, 0usize));
    let mut count = 0;
    while let Some((r, c)) = queue.pop_front() {
        count += 1;
        let mut next = Vec::new();
        if c + 1 < cols && !g.right_walls[r][c] {
            next.push((r, c + 1));
        }
        if c > 0 && !g.right_walls[r][c - 1] {
            next.push((r, c - 1));
        }
        if r + 1 < rows && !g.bottom_walls[r][c] {
            next.push((r + 1, c));
        }
        if r > 0 && !g.bottom_walls[r - 1][c] {
            next.push((r - 1, c));
        }
        for (nr, nc) in next {
            if !seen[nr][nc] {
                seen[nr][nc] = true;
                queue.push_back((nr, nc));
            }
        }
    }
    (passages, count)
}

fn assert_perfect(g: &MazeGrid) {
    let (passages, reached) = passages_and_reach(g);
    assert_eq!(reached, g.rows * g.cols, "every cell is reachable");
    assert_eq!(passages + 1, g.rows * g.cols, "a spanning tree has cells - 1 passages");
    for r in 0..g.rows {
        assert!(g.right_walls[r][g.cols - 1]);
    }
    for c in 0..g.cols {
        assert!(g.bottom_walls[g.rows - 1][c]);
    }
}

#[test]
fn eller_eight_by_eight_is_perfect() {
    for _ in 0..50 {
        let g = eller_grid(8, 8);
        assert_eq!(g.rows, 8);
        assert_eq!(g.cols, 8);
        assert_eq!(g.right_walls.len(), 8);
        assert_eq!(g.bottom_walls.len(), 8);
        assert_perfect(&g);
    }
}

#[test]
fn eller_other_sizes_are_perfect() {
    for &(rows, cols) in &[(1, 1), (1, 5), (5, 1), (2, 2), (3, 7), (10, 4)] {
        for _ in 0..10 {
            let g = eller_grid(rows, cols);
            assert_perfect(&g);
        }
    }
}

#[test]
fn eller_single_row_is_a_corridor() {
    let g = eller_grid(1, 6);
    for c in 0..5 {
        assert!(!g.right_walls[0][c]);
    }
}

#[test]
fn eller_no_rows_has_no_walls_to_open() {
    let g = eller_grid(0, 3);
    assert!(g.right_walls.is_empty());
    assert!(g.bottom_walls.is_empty());
}

#[test]
fn boundary_of_rectangle() {
    let b = boundary_segments(200, 100);
    assert_eq!(
        b,
        vec![
            Segment { ax: 0, ay: 0, bx: 200, by: 0 },
            Segment { ax: 200, ay: 0, bx: 200, by: 100 },
            Segment { ax: 200, ay: 100, bx: 0, by: 100 },
            Segment { ax: 0, ay: 100, bx: 0, by: 0 },
        ]
    );
}

#[test]
fn grid_segments_of_a_fixed_grid() {
    // 2 by 2 cells: right wall of (0, 0) removed, bottom wall of (0, 1) removed.
    let g = MazeGrid {
        rows: 2,
        cols: 2,
        right_walls: vec![vec![false, true], vec![true, true]],
        bottom_walls: vec![vec![true, false], vec![true, true]],
    };
    let s = grid_segments(&g);
    assert_eq!(
        s,
        vec![
            Segment { ax: 0, ay: 0, bx: 2, by: 0 },
            Segment { ax: 2, ay: 0, bx: 2, by: 2 },
            Segment { ax: 2, ay: 2, bx: 0, by: 2 },
            Segment { ax: 0, ay: 2, bx: 0, by: 0 },
            // row 0: cell (0,0) bottom wall
            Segment { ax: 0, ay: 1, bx: 1, by: 1 },
            // row 1: cell (1,0) right wall
            Segment { ax: 1, ay: 1, bx: 1, by: 2 },
        ]
    );
}

#[test]
fn eller_segments_count_matches_walls() {
    let g = eller_grid(8, 8);
    let s = grid_segments(&g);
    // 4 boundary walls, 112 interior wall places, 63 of them opened.
    assert_eq!(s.len(), 4 + 112 - 63);
    for seg in &s {
        assert!(seg.ax >= 0 && seg.ax <= 8 && seg.bx >= 0 && seg.bx <= 8);
        assert!(seg.ay >= 0 && seg.ay <= 8 && seg.by >= 0 && seg.by <= 8);
    }
}

#[test]
fn medium_layout() {
    let m = MazeLayout::medium();
    assert_eq!(m.bounds, (200, 200));
    assert_eq!(m.start, (30, 180));
    assert_eq!(m.goal, (170, 33));
    let mut expected = boundary_segments(200, 200);
    expected.push(Segment { ax: 0, ay: 66, bx: 140, by: 66 });
    expected.push(Segment { ax: 60, ay: 133, bx: 200, by: 133 });
    assert_eq!(m.walls, expected);
}

#[test]
fn hard_layout_has_one_gap_per_inner_wall() {
    let m = MazeLayout::hard();
    assert_eq!(m.bounds, (300, 200));
    assert_eq!(m.start, (30, 185));
    assert_eq!(m.goal, (270, 25));
    assert_eq!(m.walls.len(), 10);
    assert_eq!(&m.walls[..4], &boundary_segments(300, 200)[..]);
    // For each inner height, the walls cover the width except one gap.
    for &(y, gap) in &[(170, (230, 260)), (110, (40, 70)), (50, (230, 260))] {
        let mut pieces: Vec<(i64, i64)> = m.walls[4..]
            .iter()
            .filter(|s| s.ay == y && s.by == y)
            .map(|s| (s.ax, s.bx))
            .collect();
        pieces.sort();
        assert_eq!(pieces, vec![(0, gap.0), (gap.1, 300)]);
    }
    // Start below the lowest wall, goal above the highest.
    assert!(m.start.1 > 170 && m.goal.1 < 50);
}

/// Number of walks from `from` to `to` that visit no cell twice.
fn simple_paths(g: &MazeGrid, from: (usize, usize), to: (usize, usize), seen: &mut Vec<Vec<bool>>) -> usize {
    if from == to {
        return 1;
    }
    let (r, c) = from;
    seen[r][c] = true;
    let mut next = Vec::new();
    if c + 1 < g.cols && !g.right_walls[r][c] {
        next.push((r, c + 1));
    }
    if c > 0 && !g.right_walls[r][c - 1] {
        next.push((r, c - 1));
    }
    if r + 1 < g.rows && !g.bottom_walls[r][c] {
        next.push((r + 1, c));
    }
    if r > 0 && !g.bottom_walls[r - 1][c] {
        next.push((r - 1, c));
    }
    let mut total = 0;
    for (nr, nc) in next {
        if !seen[nr][nc] {
            total += simple_paths(g, (nr, nc), to, seen);
        }
    }
    seen[r][c] = false;
    total
}

#[test]
fn eller_maze_has_exactly_one_path_between_any_two_cells() {
    for _ in 0..5 {
        let g = eller_grid(4, 5);
        for a in 0..20 {
            for b in 0..20 {
                let from = (a / 5, a % 5);
                let to = (b / 5, b % 5);
                let mut seen = vec![vec![false; 5]; 4];
                assert_eq!(simple_paths(&g, from, to, &mut seen), 1);
            }
        }
    }
}
