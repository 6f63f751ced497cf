//! A rectangular maze of square cells, seen as a graph.
//!
//! Cell `(r, c)` sits in row `r` and column `c`. Between horizontally
//! neighbouring cells `(r, c)` and `(r, c + 1)` stands the right wall of
//! `(r, c)`; between vertically neighbouring cells `(r, c)` and `(r + 1, c)`
//! stands its bottom wall. Two neighbours are joined by a passage when the
//! wall between them is gone.
use vstd::prelude::*;

verus! {

/// Mathematical view of a maze: its size and, per cell, whether its right
/// and its bottom wall stand.
pub struct WallGrid {
    pub rows: int,
    pub cols: int,
    pub right: Seq<Seq<bool>>,
    pub bottom: Seq<Seq<bool>>,
}

/// A cell of the grid, as (row, column).
pub type Cell = (int, int);

/// Every row of both wall tables has one entry per column.
pub open spec fn well_formed(g: WallGrid) -> bool {
    &&& g.rows >= 0
    &&& g.cols >= 0
    &&& g.right.len() == g.rows
    &&& g.bottom.len() == g.rows
    &&& forall|r: int| 0 <= r < g.rows ==> (#[trigger] g.right[r]).len() == g.cols
    &&& forall|r: int| 0 <= r < g.rows ==> (#[trigger] g.bottom[r]).len() == g.cols
}

pub open spec fn in_grid(g: WallGrid, x: Cell) -> bool {
    0 <= x.0 < g.rows && 0 <= x.1 < g.cols
}

/// `a` and `b` are neighbours with no wall between them.
pub open spec fn open_between(g: WallGrid, a: Cell, b: Cell) -> bool {
    ||| a.0 == b.0 && b.1 == a.1 + 1 && !g.right[a.0][a.1]
    ||| a.0 == b.0 && a.1 == b.1 + 1 && !g.right[b.0][b.1]
    ||| a.1 == b.1 && b.0 == a.0 + 1 && !g.bottom[a.0][a.1]
    ||| a.1 == b.1 && a.0 == b.0 + 1 && !g.bottom[b.0][b.1]
}

/// A walk through the maze: cells of the grid, each joined to the next by a
/// passage.
pub open spec fn is_path(g: WallGrid, p: Seq<Cell>) -> bool {
    &&& p.len() > 0
    &&& forall|i: int| 0 <= i < p.len() ==> in_grid(g, #[trigger] p[i])
    &&& forall|i: int| 0 <= i < p.len() - 1 ==> #[trigger] open_between(g, p[i], p[i + 1])
}

/// Some walk leads from `a` to `b`.
pub open spec fn connected(g: WallGrid, a: Cell, b: Cell) -> bool {
    exists|p: Seq<Cell>| #[trigger] is_path(g, p) && p[0] == a && p[p.len() - 1] == b
}

/// Every cell can be reached from every other.
pub open spec fn spans(g: WallGrid) -> bool {
    forall|a: Cell, b: Cell| in_grid(g, a) && in_grid(g, b) ==> #[trigger] connected(g, a, b)
}

/// Number of removed walls among the first `n` entries of a row.
pub open spec fn row_openings(row: Seq<bool>, n: int) -> nat
    decreases n,
{
    if n <= 0 {
        0
    } else {
        row_openings(row, n - 1) + if row[n - 1] { 0nat } else { 1nat }
    }
}

/// Number of removed walls in the first `nrows` rows and `ncols` columns.
pub open spec fn openings(walls: Seq<Seq<bool>>, nrows: int, ncols: int) -> nat
    decreases nrows,
{
    if nrows <= 0 {
        0
    } else {
        openings(walls, nrows - 1, ncols) + row_openings(walls[nrows - 1], ncols)
    }
}

/// Number of passages of the maze: removed right walls that separate two
/// cells of the grid, plus removed bottom walls that do.
pub open spec fn passage_count(g: WallGrid) -> nat {
    openings(g.right, g.rows, g.cols - 1) + openings(g.bottom, g.rows - 1, g.cols)
}


/// `g2` has the size of `g1` and keeps no wall that `g1` lacks.
pub open spec fn fewer_walls(g1: WallGrid, g2: WallGrid) -> bool {
    &&& g1.rows == g2.rows
    &&& g1.cols == g2.cols
    &&& forall|r: int, c: int|
        #![trigger g2.right[r][c]] 0 <= r < g1.rows && 0 <= c < g1.cols && !g1.right[r][c] ==> !g2.right[r][c]
    &&& forall|r: int, c: int|
        #![trigger g2.bottom[r][c]] 0 <= r < g1.rows && 0 <= c < g1.cols && !g1.bottom[r][c] ==> !g2.bottom[r][c]
}

pub proof fn lemma_connected_refl(g: WallGrid, a: Cell)
    requires
        in_grid(g, a),
    ensures
        connected(g, a, a),
{
    let p = seq![a];
    assert(is_path(g, p));
}

pub proof fn lemma_connected_step(g: WallGrid, a: Cell, b: Cell)
    requires
        in_grid(g, a),
        in_grid(g, b),
        open_between(g, a, b),
    ensures
        connected(g, a, b),
{
    let p = seq![a, b];
    assert(open_between(g, p[0], p[1]));
    assert(is_path(g, p));
}

pub proof fn lemma_connected_sym(g: WallGrid, a: Cell, b: Cell)
    requires
        connected(g, a, b),
    ensures
        connected(g, b, a),
{
    let p = choose|p: Seq<Cell>| #[trigger] is_path(g, p) && p[0] == a && p[p.len() - 1] == b;
    let n = p.len() as int;
    let q = Seq::new(p.len(), |i: int| p[n - 1 - i]);
    assert forall|i: int| 0 <= i < q.len() implies in_grid(g, #[trigger] q[i]) by {
        assert(in_grid(g, p[n - 1 - i]));
    }
    assert forall|i: int| 0 <= i < q.len() - 1 implies #[trigger] open_between(g, q[i], q[i + 1]) by {
        let j = n - 2 - i;
        assert(open_between(g, p[j], p[j + 1]));
    }
    assert(is_path(g, q));
}

pub proof fn lemma_connected_trans(g: WallGrid, a: Cell, b: Cell, c: Cell)
    requires
        connected(g, a, b),
        connected(g, b, c),
    ensures
        connected(g, a, c),
{
    let p1 = choose|p: Seq<Cell>| #[trigger] is_path(g, p) && p[0] == a && p[p.len() - 1] == b;
    let p2 = choose|p: Seq<Cell>| #[trigger] is_path(g, p) && p[0] == b && p[p.len() - 1] == c;
    let q = p1 + p2.drop_first();
    let n1 = p1.len() as int;
    assert forall|i: int| 0 <= i < q.len() implies in_grid(g, #[trigger] q[i]) by {
        if i < n1 {
            assert(in_grid(g, p1[i]));
        } else {
            assert(in_grid(g, p2[i - n1 + 1]));
        }
    }
    assert forall|i: int| 0 <= i < q.len() - 1 implies #[trigger] open_between(g, q[i], q[i + 1]) by {
        if i < n1 - 1 {
            assert(open_between(g, p1[i], p1[i + 1]));
        } else {
            let j = i - n1 + 1;
            assert(q[i] == p2[j]);
            assert(open_between(g, p2[j], p2[j + 1]));
        }
    }
    assert(is_path(g, q));
}

/// Removing walls keeps every walk a walk.
pub proof fn lemma_connected_mono(g1: WallGrid, g2: WallGrid)
    requires
        fewer_walls(g1, g2),
    ensures
        forall|a: Cell, b: Cell| #[trigger] connected(g1, a, b) ==> connected(g2, a, b),
{
    assert forall|a: Cell, b: Cell| #[trigger] connected(g1, a, b) implies connected(g2, a, b) by {
        let p = choose|p: Seq<Cell>| #[trigger] is_path(g1, p) && p[0] == a && p[p.len() - 1] == b;
        assert forall|i: int| 0 <= i < p.len() implies in_grid(g2, #[trigger] p[i]) by {
            assert(in_grid(g1, p[i]));
        }
        assert forall|i: int| 0 <= i < p.len() - 1 implies #[trigger] open_between(
            g2,
            p[i],
            p[i + 1],
        ) by {
            assert(open_between(g1, p[i], p[i + 1]));
            assert(in_grid(g1, p[i]));
            assert(in_grid(g1, p[i + 1]));
        }
        assert(is_path(g2, p));
    }
}

/// Clearing one standing wall inside the counted block raises the count of
/// removed walls in a row by one.
pub proof fn lemma_row_openings_clear(row: Seq<bool>, n: int, c: int)
    requires
        0 <= c < n <= row.len(),
        row[c],
    ensures
        row_openings(row.update(c, false), n) == row_openings(row, n) + 1,
    decreases n,
{
    let row2 = row.update(c, false);
    if n - 1 == c {
        lemma_row_openings_same(row, row2, n - 1);
    } else {
        lemma_row_openings_clear(row, n - 1, c);
    }
}

/// Rows that agree on their first `n` entries have the same count.
pub proof fn lemma_row_openings_same(r1: Seq<bool>, r2: Seq<bool>, n: int)
    requires
        n <= r1.len(),
        n <= r2.len(),
        forall|j: int| 0 <= j < n ==> r1[j] == r2[j],
    ensures
        row_openings(r1, n) == row_openings(r2, n),
    decreases n,
{
    if n > 0 {
        lemma_row_openings_same(r1, r2, n - 1);
    }
}

/// Tables that agree on their first `nrows` rows have the same count.
pub proof fn lemma_openings_same(w1: Seq<Seq<bool>>, w2: Seq<Seq<bool>>, nrows: int, ncols: int)
    requires
        nrows <= w1.len(),
        nrows <= w2.len(),
        forall|r: int| 0 <= r < nrows ==> w1[r] == w2[r],
    ensures
        openings(w1, nrows, ncols) == openings(w2, nrows, ncols),
    decreases nrows,
{
    if nrows > 0 {
        lemma_openings_same(w1, w2, nrows - 1, ncols);
    }
}

/// Clearing one standing wall inside the counted block raises the count of
/// removed walls by one.
pub proof fn lemma_openings_clear(walls: Seq<Seq<bool>>, nrows: int, ncols: int, r: int, c: int)
    requires
        0 <= r < nrows <= walls.len(),
        0 <= c < ncols <= walls[r].len(),
        walls[r][c],
    ensures
        openings(walls.update(r, walls[r].update(c, false)), nrows, ncols) == openings(
            walls,
            nrows,
            ncols,
        ) + 1,
    decreases nrows,
{
    let w2 = walls.update(r, walls[r].update(c, false));
    if nrows - 1 == r {
        lemma_openings_same(walls, w2, nrows - 1, ncols);
        lemma_row_openings_clear(walls[r], ncols, c);
    } else {
        lemma_openings_clear(walls, nrows - 1, ncols, r, c);
    }
}

/// `a` and `b` are neighbouring cells.
pub open spec fn neighbours(a: Cell, b: Cell) -> bool {
    ||| a.0 == b.0 && (b.1 == a.1 + 1 || a.1 == b.1 + 1)
    ||| a.1 == b.1 && (b.0 == a.0 + 1 || a.0 == b.0 + 1)
}

/// `{x, y}` and `{a, b}` are the same pair of cells.
pub open spec fn same_pair(x: Cell, y: Cell, a: Cell, b: Cell) -> bool {
    (x == a && y == b) || (x == b && y == a)
}

/// The maze with the wall between the neighbours `a` and `b` standing.
pub open spec fn with_wall(g: WallGrid, a: Cell, b: Cell) -> WallGrid {
    if a.0 == b.0 {
        let c = if a.1 < b.1 { a.1 } else { b.1 };
        WallGrid { rows: g.rows, cols: g.cols, right: g.right.update(a.0, g.right[a.0].update(c, true)), bottom: g.bottom }
    } else {
        let r = if a.0 < b.0 { a.0 } else { b.0 };
        WallGrid { rows: g.rows, cols: g.cols, right: g.right, bottom: g.bottom.update(r, g.bottom[r].update(a.1, true)) }
    }
}

/// The maze has no loop: putting back the wall of any passage separates
/// its two cells.
pub open spec fn acyclic(g: WallGrid) -> bool {
    forall|a: Cell, b: Cell|
        #![trigger open_between(g, a, b)]
        in_grid(g, a) && in_grid(g, b) && open_between(g, a, b) ==> !connected(with_wall(g, a, b), a, b)
}

/// A perfect maze: every cell can be reached from every other, and there is
/// no loop, so between any two cells there is exactly one path that visits
/// no cell twice.
pub open spec fn is_perfect(g: WallGrid) -> bool {
    &&& spans(g)
    &&& acyclic(g)
}

/// `g2` has the size of `g`, the passage `a`–`b`, and otherwise only
/// passages of `g`.
pub open spec fn one_more_passage(g: WallGrid, g2: WallGrid, a: Cell, b: Cell) -> bool {
    &&& g.rows == g2.rows
    &&& g.cols == g2.cols
    &&& in_grid(g, a)
    &&& in_grid(g, b)
    &&& open_between(g2, a, b)
    &&& forall|x: Cell, y: Cell|
        #![trigger open_between(g2, x, y)]
        in_grid(g2, x) && in_grid(g2, y) && open_between(g2, x, y) ==> open_between(g, x, y) || same_pair(x, y, a, b)
}

/// Cell `x` has no passage.
pub open spec fn closed_in(g: WallGrid, x: Cell) -> bool {
    forall|y: Cell| #![trigger open_between(g, x, y)] in_grid(g, y) ==> !open_between(g, x, y)
}

/// A cell without passages reaches only itself.
pub proof fn lemma_isolated(g: WallGrid, x: Cell, y: Cell)
    requires
        closed_in(g, x),
    ensures
        connected(g, x, y) ==> y == x,
        connected(g, y, x) ==> y == x,
{
    if connected(g, y, x) {
        lemma_connected_sym(g, y, x);
    }
    if connected(g, x, y) {
        let p = choose|p: Seq<Cell>| #[trigger] is_path(g, p) && p[0] == x && p[p.len() - 1] == y;
        if p.len() > 1 {
            let z: int = 0;
            assert(open_between(g, p[z], p[z + 1]));
            assert(in_grid(g, p[z + 1]));
        }
    }
}

/// A walk in `g2`, where `g2` has one passage `a`–`b` more than `g`, either
/// is a walk in `g` or crosses that passage: its ends are connected in `g`,
/// or through `a` and `b`.
proof fn lemma_split_path(g: WallGrid, g2: WallGrid, a: Cell, b: Cell, p: Seq<Cell>)
    requires
        one_more_passage(g, g2, a, b),
        is_path(g2, p),
    ensures
        ({
            let c = p[0];
            let d = p[p.len() - 1];
            ||| connected(g, c, d)
            ||| connected(g, c, a) && connected(g, b, d)
            ||| connected(g, c, b) && connected(g, a, d)
        }),
    decreases p.len(),
{
    let c = p[0];
    assert(in_grid(g2, p[0]));
    if p.len() == 1 {
        lemma_connected_refl(g, c);
    } else {
        let q = p.drop_last();
        assert forall|i: int| 0 <= i < q.len() implies in_grid(g2, #[trigger] q[i]) by {
            assert(in_grid(g2, p[i]));
        }
        assert forall|i: int| 0 <= i < q.len() - 1 implies #[trigger] open_between(g2, q[i], q[i + 1]) by {
            assert(open_between(g2, p[i], p[i + 1]));
        }
        assert(is_path(g2, q));
        lemma_split_path(g, g2, a, b, q);
        let m = p.len() - 2;
        let x = p[m];
        let y = p[m + 1];
        assert(x == q[q.len() - 1]);
        assert(open_between(g2, p[m], p[m + 1]));
        assert(in_grid(g2, x));
        assert(in_grid(g2, y));
        lemma_connected_refl(g, a);
        lemma_connected_refl(g, b);
        if open_between(g, x, y) {
            lemma_connected_step(g, x, y);
            if connected(g, c, x) {
                lemma_connected_trans(g, c, x, y);
            } else if connected(g, c, a) && connected(g, b, x) {
                lemma_connected_trans(g, b, x, y);
            } else {
                lemma_connected_trans(g, a, x, y);
            }
        }
    }
}

/// Connections in `g2`, where `g2` has one passage `a`–`b` more than `g`.
pub proof fn lemma_split(g: WallGrid, g2: WallGrid, a: Cell, b: Cell, c: Cell, d: Cell)
    requires
        one_more_passage(g, g2, a, b),
        connected(g2, c, d),
    ensures
        ({
            ||| connected(g, c, d)
            ||| connected(g, c, a) && connected(g, b, d)
            ||| connected(g, c, b) && connected(g, a, d)
        }),
{
    let p = choose|p: Seq<Cell>| #[trigger] is_path(g2, p) && p[0] == c && p[p.len() - 1] == d;
    lemma_split_path(g, g2, a, b, p);
}

/// `h` has the size of `g`, and every passage of `h` is one of `g`.
pub open spec fn passages_within(h: WallGrid, g: WallGrid) -> bool {
    &&& h.rows == g.rows
    &&& h.cols == g.cols
    &&& forall|x: Cell, y: Cell|
        #![trigger open_between(h, x, y)]
        in_grid(h, x) && in_grid(h, y) && open_between(h, x, y) ==> open_between(g, x, y)
}

/// A walk of `h` is a walk of `g` when `g` has every passage of `h`.
pub proof fn lemma_connected_within(h: WallGrid, g: WallGrid, a: Cell, b: Cell)
    requires
        passages_within(h, g),
        connected(h, a, b),
    ensures
        connected(g, a, b),
{
    let p = choose|p: Seq<Cell>| #[trigger] is_path(h, p) && p[0] == a && p[p.len() - 1] == b;
    assert forall|i: int| 0 <= i < p.len() implies in_grid(g, #[trigger] p[i]) by {
        assert(in_grid(h, p[i]));
    }
    assert forall|i: int| 0 <= i < p.len() - 1 implies #[trigger] open_between(g, p[i], p[i + 1]) by {
        assert(open_between(h, p[i], p[i + 1]));
        assert(in_grid(h, p[i]));
        assert(in_grid(h, p[i + 1]));
    }
    assert(is_path(g, p));
}

/// Putting back the wall between the neighbours `a` and `b` closes that
/// passage and no other.
pub proof fn lemma_with_wall_open(g: WallGrid, a: Cell, b: Cell, x: Cell, y: Cell)
    requires
        well_formed(g),
        in_grid(g, a),
        in_grid(g, b),
        neighbours(a, b),
        in_grid(g, x),
        in_grid(g, y),
    ensures
        well_formed(with_wall(g, a, b)),
        open_between(with_wall(g, a, b), x, y) <==> open_between(g, x, y) && !same_pair(x, y, a, b),
{
    let h = with_wall(g, a, b);
    assert forall|r: int| 0 <= r < h.rows implies (#[trigger] h.right[r]).len() == h.cols by {
        assert(g.right[r].len() == g.cols);
    }
    assert forall|r: int| 0 <= r < h.rows implies (#[trigger] h.bottom[r]).len() == h.cols by {
        assert(g.bottom[r].len() == g.cols);
    }
}

/// A maze with the right wall of `(r, c)` cleared has exactly one passage
/// more, between `(r, c)` and `(r, c + 1)`.
pub proof fn lemma_clear_right(g: WallGrid, g2: WallGrid, r: int, c: int)
    requires
        well_formed(g),
        0 <= r < g.rows,
        0 <= c,
        c + 1 < g.cols,
        g2 == (WallGrid { right: g.right.update(r, g.right[r].update(c, false)), ..g }),
    ensures
        well_formed(g2),
        one_more_passage(g, g2, (r, c), (r, c + 1)),
{
    assert forall|k: int| 0 <= k < g2.rows implies (#[trigger] g2.right[k]).len() == g2.cols by {
        assert(g.right[k].len() == g.cols);
    }
    assert(open_between(g2, (r, c), (r, c + 1)));
}

/// A maze with the bottom wall of `(r, c)` cleared has exactly one passage
/// more, between `(r, c)` and `(r + 1, c)`.
pub proof fn lemma_clear_bottom(g: WallGrid, g2: WallGrid, r: int, c: int)
    requires
        well_formed(g),
        0 <= r,
        r + 1 < g.rows,
        0 <= c < g.cols,
        g2 == (WallGrid { bottom: g.bottom.update(r, g.bottom[r].update(c, false)), ..g }),
    ensures
        well_formed(g2),
        one_more_passage(g, g2, (r, c), (r + 1, c)),
{
    assert forall|k: int| 0 <= k < g2.rows implies (#[trigger] g2.bottom[k]).len() == g2.cols by {
        assert(g.bottom[k].len() == g.cols);
    }
    assert(open_between(g2, (r, c), (r + 1, c)));
}

/// A cell whose four walls stand has no passage.
pub proof fn lemma_closed_cell(g: WallGrid, x: Cell)
    requires
        well_formed(g),
        in_grid(g, x),
        g.right[x.0][x.1],
        x.1 > 0 ==> g.right[x.0][x.1 - 1],
        g.bottom[x.0][x.1],
        x.0 > 0 ==> g.bottom[x.0 - 1][x.1],
    ensures
        closed_in(g, x),
{
}

/// Joining two cells that were apart keeps a maze free of loops.
pub proof fn lemma_add_bridge(g: WallGrid, g2: WallGrid, a: Cell, b: Cell)
    requires
        well_formed(g),
        well_formed(g2),
        acyclic(g),
        !connected(g, a, b),
        one_more_passage(g, g2, a, b),
    ensures
        acyclic(g2),
{
    assert forall|x: Cell, y: Cell|
        in_grid(g2, x) && in_grid(g2, y) && open_between(g2, x, y) implies !connected(
        with_wall(g2, x, y),
        x,
        y,
    ) by {
        let h2 = with_wall(g2, x, y);
        lemma_with_wall_open(g2, x, y, x, y);
        if connected(h2, x, y) {
            if same_pair(x, y, a, b) {
                assert forall|u: Cell, v: Cell|
                    in_grid(h2, u) && in_grid(h2, v) && open_between(h2, u, v) implies open_between(g, u, v) by {
                    lemma_with_wall_open(g2, x, y, u, v);
                    assert(!same_pair(u, v, a, b));
                }
                assert(passages_within(h2, g));
                lemma_connected_within(h2, g, x, y);
                if x != a {
                    lemma_connected_sym(g, x, y);
                }
            } else {
                let h = with_wall(g, x, y);
                assert(open_between(g, x, y));
                assert(!connected(h, x, y));
                lemma_with_wall_open(g2, x, y, a, b);
                assert forall|u: Cell, v: Cell|
                    #![trigger open_between(h2, u, v)]
                    in_grid(h2, u) && in_grid(h2, v) && open_between(h2, u, v) implies open_between(h, u, v)
                        || same_pair(u, v, a, b) by {
                    lemma_with_wall_open(g2, x, y, u, v);
                    lemma_with_wall_open(g, x, y, u, v);
                }
                assert(one_more_passage(h, h2, a, b));
                lemma_split(h, h2, a, b, x, y);
                assert forall|u: Cell, v: Cell|
                    in_grid(h, u) && in_grid(h, v) && open_between(h, u, v) implies open_between(g, u, v) by {
                    lemma_with_wall_open(g, x, y, u, v);
                }
                assert(passages_within(h, g));
                lemma_connected_step(g, x, y);
                if connected(h, x, a) && connected(h, b, y) {
                    lemma_connected_within(h, g, x, a);
                    lemma_connected_within(h, g, b, y);
                    lemma_connected_sym(g, x, a);
                    lemma_connected_trans(g, a, x, y);
                    lemma_connected_sym(g, b, y);
                    lemma_connected_trans(g, a, y, b);
                } else {
                    assert(connected(h, x, b) && connected(h, a, y));
                    lemma_connected_within(h, g, x, b);
                    lemma_connected_within(h, g, a, y);
                    lemma_connected_sym(g, x, y);
                    lemma_connected_trans(g, a, y, x);
                    lemma_connected_trans(g, a, x, b);
                }
            }
        }
    }
}

/// A walk that visits no cell twice.
pub open spec fn is_simple_path(g: WallGrid, p: Seq<Cell>) -> bool {
    is_path(g, p) && p.no_duplicates()
}

/// A walk that never crosses the passage between `x` and `y` is a walk of
/// the maze with that wall put back.
proof fn lemma_path_avoiding(g: WallGrid, x: Cell, y: Cell, p: Seq<Cell>)
    requires
        well_formed(g),
        in_grid(g, x),
        in_grid(g, y),
        neighbours(x, y),
        is_path(g, p),
        forall|i: int| 0 <= i < p.len() - 1 ==> !same_pair(#[trigger] p[i], p[i + 1], x, y),
    ensures
        is_path(with_wall(g, x, y), p),
{
    let h = with_wall(g, x, y);
    assert forall|i: int| 0 <= i < p.len() implies in_grid(h, #[trigger] p[i]) by {
        assert(in_grid(g, p[i]));
    }
    assert forall|i: int| 0 <= i < p.len() - 1 implies #[trigger] open_between(h, p[i], p[i + 1]) by {
        assert(open_between(g, p[i], p[i + 1]));
        assert(in_grid(g, p[i]));
        assert(in_grid(g, p[i + 1]));
        assert(!same_pair(p[i], p[i + 1], x, y));
        lemma_with_wall_open(g, x, y, p[i], p[i + 1]);
    }
}

/// Two walks without repeated cells, with the same ends, in a maze without
/// loops, are the same walk.
proof fn lemma_unique_simple(g: WallGrid, p: Seq<Cell>, q: Seq<Cell>)
    requires
        well_formed(g),
        acyclic(g),
        is_simple_path(g, p),
        is_simple_path(g, q),
        p[0] == q[0],
        p[p.len() - 1] == q[q.len() - 1],
    ensures
        p == q,
    decreases p.len() + q.len(),
{
    if p.len() == 1 {
        if q.len() > 1 {
            assert(q[0] == q[q.len() - 1]);
        }
        assert(p =~= q);
    } else if q.len() == 1 {
        assert(p[0] == p[p.len() - 1]);
    } else {
        let z: int = 0;
        assert(open_between(g, p[z], p[z + 1]));
        assert(open_between(g, q[z], q[z + 1]));
        assert(in_grid(g, p[z]) && in_grid(g, p[z + 1]) && in_grid(g, q[z + 1]));
        if p[1] == q[1] {
            let p1 = p.drop_first();
            let q1 = q.drop_first();
            assert forall|i: int| 0 <= i < p1.len() - 1 implies #[trigger] open_between(g, p1[i], p1[i + 1]) by {
                assert(open_between(g, p[i + 1], p[i + 1 + 1]));
            }
            assert forall|i: int| 0 <= i < q1.len() - 1 implies #[trigger] open_between(g, q1[i], q1[i + 1]) by {
                assert(open_between(g, q[i + 1], q[i + 1 + 1]));
            }
            assert forall|i: int| 0 <= i < p1.len() implies in_grid(g, #[trigger] p1[i]) by {
                assert(in_grid(g, p[i + 1]));
            }
            assert forall|i: int| 0 <= i < q1.len() implies in_grid(g, #[trigger] q1[i]) by {
                assert(in_grid(g, q[i + 1]));
            }
            lemma_unique_simple(g, p1, q1);
            assert(p =~= seq![p[0]] + p1);
            assert(q =~= seq![q[0]] + q1);
        } else {
            let a = p[0];
            let y = p[1];
            let b = p[p.len() - 1];
            let h = with_wall(g, a, y);
            assert(!connected(h, a, y));
            assert forall|i: int| 0 <= i < q.len() - 1 implies !same_pair(#[trigger] q[i], q[i + 1], a, y) by {
                if q[i] == a {
                    assert(i == 0);
                }
                if q[i + 1] == a {
                    assert(i + 1 == 0);
                }
            }
            lemma_path_avoiding(g, a, y, q);
            let r = p.drop_first();
            assert forall|i: int| 0 <= i < r.len() - 1 implies #[trigger] open_between(g, r[i], r[i + 1]) by {
                assert(open_between(g, p[i + 1], p[i + 1 + 1]));
            }
            assert forall|i: int| 0 <= i < r.len() implies in_grid(g, #[trigger] r[i]) by {
                assert(in_grid(g, p[i + 1]));
            }
            assert forall|i: int| 0 <= i < r.len() - 1 implies !same_pair(#[trigger] r[i], r[i + 1], a, y) by {
                assert(r[i] == p[i + 1]);
                assert(r[i + 1] == p[i + 2]);
            }
            lemma_path_avoiding(g, a, y, r);
            assert(is_path(h, q) && q[0] == a && q[q.len() - 1] == b);
            assert(connected(h, a, b));
            assert(is_path(h, r) && r[0] == y && r[r.len() - 1] == b);
            assert(connected(h, y, b));
            lemma_connected_sym(h, y, b);
            lemma_connected_trans(h, a, b, y);
        }
    }
}

/// Every walk can be shortened to one with the same ends that visits no
/// cell twice.
proof fn lemma_simple_walk(g: WallGrid, p: Seq<Cell>)
    requires
        is_path(g, p),
    ensures
        exists|q: Seq<Cell>| #[trigger] is_simple_path(g, q) && q[0] == p[0] && q[q.len() - 1] == p[p.len() - 1],
    decreases p.len(),
{
    if p.no_duplicates() {
        assert(is_simple_path(g, p));
    } else {
        let (i, j) = choose|i: int, j: int| 0 <= i < p.len() && 0 <= j < p.len() && i != j && p[i] == p[j];
        let (i, j) = if i < j { (i, j) } else { (j, i) };
        let r = p.take(i + 1) + p.skip(j + 1);
        assert forall|k: int| 0 <= k < r.len() implies in_grid(g, #[trigger] r[k]) by {
            if k <= i {
                assert(in_grid(g, p[k]));
            } else {
                assert(r[k] == p[k - i + j]);
                assert(in_grid(g, p[k - i + j]));
            }
        }
        assert forall|k: int| 0 <= k < r.len() - 1 implies #[trigger] open_between(g, r[k], r[k + 1]) by {
            if k < i {
                assert(open_between(g, p[k], p[k + 1]));
            } else {
                let m = k - i + j;
                assert(r[k] == p[m]);
                assert(r[k + 1] == p[m + 1]);
                assert(open_between(g, p[m], p[m + 1]));
            }
        }
        assert(is_path(g, r));
        assert(r[r.len() - 1] == p[p.len() - 1]);
        lemma_simple_walk(g, r);
    }
}

/// In a perfect maze there is exactly one path between any two cells:
/// some walk from `a` to `b` visits no cell twice, and any two such walks
/// are the same.
pub proof fn perfect_maze_unique_paths(g: WallGrid, a: Cell, b: Cell)
    requires
        well_formed(g),
        is_perfect(g),
        in_grid(g, a),
        in_grid(g, b),
    ensures
        exists|p: Seq<Cell>| #[trigger] is_simple_path(g, p) && p[0] == a && p[p.len() - 1] == b,
        forall|p: Seq<Cell>, q: Seq<Cell>|
            #![trigger is_simple_path(g, p), is_simple_path(g, q)]
            is_simple_path(g, p) && is_simple_path(g, q) && p[0] == a && p[p.len() - 1] == b && q[0] == a
                && q[q.len() - 1] == b ==> p == q,
{
    assert(connected(g, a, b));
    let p = choose|p: Seq<Cell>| #[trigger] is_path(g, p) && p[0] == a && p[p.len() - 1] == b;
    lemma_simple_walk(g, p);
    assert forall|p: Seq<Cell>, q: Seq<Cell>|
        is_simple_path(g, p) && is_simple_path(g, q) && p[0] == a && p[p.len() - 1] == b && q[0] == a
            && q[q.len() - 1] == b implies p == q by {
        lemma_unique_simple(g, p, q);
    }
}

} // verus!
