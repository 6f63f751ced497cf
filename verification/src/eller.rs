//! Random perfect mazes by Eller's algorithm.
//!
//! The maze is built row by row. Every cell of the current row carries the
//! number of the set it belongs to; cells of one set are joined by passages
//! made so far. In each row, neighbours of different sets are merged at
//! random (the wall between them is removed); every set then opens at least
//! one bottom wall into the next row, and cells of the next row that nobody
//! opened into get sets of their own. In the last row every pair of
//! neighbours in different sets is merged.
use vstd::prelude::*;
use crate::grid::{
    acyclic, connected, fewer_walls, in_grid, is_perfect, lemma_add_bridge,
    lemma_clear_bottom, lemma_clear_right, lemma_closed_cell, lemma_connected_mono,
    lemma_connected_refl, lemma_connected_step, lemma_connected_sym, lemma_connected_trans,
    lemma_isolated, lemma_openings_clear, lemma_openings_same, lemma_split, open_between, openings,
    passage_count, row_openings, well_formed, Cell, WallGrid,
};
use crate::rng::{random_ratio, thread_rng};
use rand::rngs::ThreadRng;

verus! {

broadcast use vstd::seq_lib::seq_to_set_is_finite, vstd::set::group_set_axioms;

/// The wall tables of a maze of `rows` by `cols` cells. `right_walls[r][c]`
/// separates `(r, c)` from `(r, c + 1)`; `bottom_walls[r][c]` separates
/// `(r, c)` from `(r + 1, c)`. `true` means the wall stands.
pub struct MazeGrid {
    pub rows: usize,
    pub cols: usize,
    pub right_walls: Vec<Vec<bool>>,
    pub bottom_walls: Vec<Vec<bool>>,
}

/// The view of wall tables of the given size.
pub open spec fn grid_of(rows: int, cols: int, right: Seq<Seq<bool>>, bottom: Seq<Seq<bool>>) -> WallGrid {
    WallGrid { rows, cols, right, bottom }
}

impl View for MazeGrid {
    type V = WallGrid;

    open spec fn view(&self) -> WallGrid {
        grid_of(
            self.rows as int,
            self.cols as int,
            self.right_walls.deep_view(),
            self.bottom_walls.deep_view(),
        )
    }
}

/// Cells of the current row `r` that share a set number are connected.
pub open spec fn classes_connected(g: WallGrid, r: int, sets: Seq<usize>) -> bool {
    forall|c1: int, c2: int|
        0 <= c1 < sets.len() && 0 <= c2 < sets.len() && sets[c1] == sets[c2] ==> #[trigger] connected(
            g,
            (r, c1),
            (r, c2),
        )
}

/// Cells of the current row `r` with different set numbers are not
/// connected.
pub open spec fn separated(g: WallGrid, r: int, sets: Seq<usize>) -> bool {
    forall|c1: int, c2: int|
        0 <= c1 < sets.len() && 0 <= c2 < sets.len() && sets[c1] != sets[c2] ==> !#[trigger] connected(
            g,
            (r, c1),
            (r, c2),
        )
}

/// Cell `x` seen from row `r`: a cell of row `r + 1` is taken to the cell
/// above it.
pub open spec fn lifted(x: Cell, r: int) -> Cell {
    if x.0 == r + 1 {
        (r, x.1)
    } else {
        x
    }
}

/// Cell `x` is connected to some cell of row `r`.
pub open spec fn reaches_row(g: WallGrid, x: Cell, r: int) -> bool {
    exists|c: int| 0 <= c < g.cols && #[trigger] connected(g, x, (r, c))
}

/// Every cell in rows `0..=r` is connected to row `r`.
pub open spec fn all_reach_row(g: WallGrid, r: int) -> bool {
    forall|x: Cell| in_grid(g, x) && x.0 <= r ==> #[trigger] reaches_row(g, x, r)
}

/// Number of distinct set numbers.
pub open spec fn label_count(sets: Seq<usize>) -> nat {
    sets.to_set().len()
}

/// Column `j` is the leftmost one of its set.
pub open spec fn is_first(s: Seq<usize>, j: int) -> bool {
    forall|k: int| 0 <= k < j ==> s[k] != s[j]
}

/// Number of `true` entries.
pub open spec fn count_true(s: Seq<bool>) -> nat
    decreases s.len(),
{
    if s.len() == 0 {
        0
    } else {
        count_true(s.drop_last()) + if s.last() { 1nat } else { 0nat }
    }
}

/// Every set number of `s` replaced by `to` where it was `from`.
pub open spec fn merged(s: Seq<usize>, from: usize, to: usize) -> Seq<usize> {
    s.map_values(|v: usize| if v == from { to } else { v })
}

pub proof fn lemma_count_true_push(s: Seq<bool>, b: bool)
    ensures
        count_true(s.push(b)) == count_true(s) + if b { 1nat } else { 0nat },
{
    assert(s.push(b).drop_last() =~= s);
}

proof fn lemma_count_true_bound(s: Seq<bool>)
    ensures
        count_true(s) <= s.len(),
    decreases s.len(),
{
    if s.len() > 0 {
        lemma_count_true_bound(s.drop_last());
    }
}

/// The leftmost column of the set of column `c`.
proof fn lemma_leader(s: Seq<usize>, c: int) -> (j: int)
    requires
        0 <= c < s.len(),
    ensures
        0 <= j <= c,
        s[j] == s[c],
        is_first(s, j),
    decreases c,
{
    if is_first(s, c) {
        c
    } else {
        let k = choose|k: int| 0 <= k < c && s[k] == s[c];
        lemma_leader(s, k)
    }
}

/// Merging two different sets that both occur leaves one set number fewer.
proof fn lemma_merge_labels(s: Seq<usize>, from: usize, to: usize)
    requires
        s.contains(from),
        s.contains(to),
        from != to,
    ensures
        merged(s, from, to).to_set() == s.to_set().remove(from),
        label_count(merged(s, from, to)) + 1 == label_count(s),
{
    let m = merged(s, from, to);
    assert forall|v: usize| m.to_set().contains(v) <==> s.to_set().remove(from).contains(v) by {
        if m.contains(v) {
            let i = choose|i: int| 0 <= i < m.len() && m[i] == v;
            assert(s.contains(s[i]));
        }
        if v != from && s.contains(v) {
            let i = choose|i: int| 0 <= i < s.len() && s[i] == v;
            assert(m[i] == v);
        }
        if v == to {
            let i = choose|i: int| 0 <= i < s.len() && s[i] == to;
            assert(m[i] == to);
        }
    }
    assert(m.to_set() =~= s.to_set().remove(from));
}

/// Giving column `col` a new set number, while its old number lives on in
/// column `f`, adds one set number.
proof fn lemma_fresh_label(s: Seq<usize>, col: int, v: usize, f: int)
    requires
        0 <= col < s.len(),
        0 <= f < s.len(),
        f != col,
        s[f] == s[col],
        !s.contains(v),
    ensures
        label_count(s.update(col, v)) == label_count(s) + 1,
{
    let t = s.update(col, v);
    assert forall|x: usize| t.to_set().contains(x) <==> s.to_set().insert(v).contains(x) by {
        if t.contains(x) {
            let i = choose|i: int| 0 <= i < t.len() && t[i] == x;
            if i != col {
                assert(s[i] == x);
            }
        }
        if s.contains(x) {
            let i = choose|i: int| 0 <= i < s.len() && s[i] == x;
            if i == col {
                assert(t[f] == x);
            } else {
                assert(t[i] == x);
            }
        }
        if x == v {
            assert(t[col] == v);
        }
    }
    assert(t.to_set() =~= s.to_set().insert(v));
}

/// A row whose cells all share one set has one set number.
proof fn lemma_single_label(s: Seq<usize>)
    requires
        s.len() > 0,
        forall|c: int| 0 <= c < s.len() ==> #[trigger] s[c] == s[0],
    ensures
        label_count(s) == 1,
{
    assert(s.to_set() =~= Set::empty().insert(s[0]));
}

/// Removing walls keeps every cell connected to the row it reached.
proof fn lemma_reach_mono(g1: WallGrid, g2: WallGrid, r: int)
    requires
        fewer_walls(g1, g2),
        all_reach_row(g1, r),
    ensures
        all_reach_row(g2, r),
{
    lemma_connected_mono(g1, g2);
    assert forall|x: Cell| in_grid(g2, x) && x.0 <= r implies #[trigger] reaches_row(g2, x, r) by {
        assert(reaches_row(g1, x, r));
        let c = choose|c: int| 0 <= c < g1.cols && #[trigger] connected(g1, x, (r, c));
        assert(connected(g2, x, (r, c)));
    }
}

/// If every cell of row `r` reaches row `r + 1`, every cell that reached
/// row `r` reaches row `r + 1`.
proof fn lemma_reach_next_row(g1: WallGrid, g2: WallGrid, r: int)
    requires
        fewer_walls(g1, g2),
        all_reach_row(g1, r),
        0 <= r,
        r + 1 < g2.rows,
        forall|c: int| 0 <= c < g2.cols ==> #[trigger] reaches_row(g2, (r, c), r + 1),
    ensures
        all_reach_row(g2, r + 1),
{
    lemma_connected_mono(g1, g2);
    assert forall|x: Cell| in_grid(g2, x) && x.0 <= r + 1 implies #[trigger] reaches_row(g2, x, r + 1) by {
        if x.0 == r + 1 {
            lemma_connected_refl(g2, x);
            assert(connected(g2, x, (r + 1, x.1)));
        } else {
            assert(reaches_row(g1, x, r));
            let c = choose|c: int| 0 <= c < g1.cols && #[trigger] connected(g1, x, (r, c));
            assert(connected(g2, x, (r, c)));
            assert(reaches_row(g2, (r, c), r + 1));
            let d = choose|d: int| 0 <= d < g2.cols && #[trigger] connected(g2, (r, c), (r + 1, d));
            lemma_connected_trans(g2, x, (r, c), (r + 1, d));
        }
    }
}

proof fn lemma_fewer_walls_trans(g1: WallGrid, g2: WallGrid, g3: WallGrid)
    requires
        fewer_walls(g1, g2),
        fewer_walls(g2, g3),
    ensures
        fewer_walls(g1, g3),
{
    assert forall|r: int, c: int|
        #![trigger g3.right[r][c]] 0 <= r < g1.rows && 0 <= c < g1.cols && !g1.right[r][c] implies !g3.right[r][c] by {
        assert(!g2.right[r][c]);
    }
    assert forall|r: int, c: int|
        #![trigger g3.bottom[r][c]] 0 <= r < g1.rows && 0 <= c < g1.cols && !g1.bottom[r][c] implies !g3.bottom[r][c] by {
        assert(!g2.bottom[r][c]);
    }
}

/// A `rows` by `cols` table with every wall standing.
fn all_walls(rows: usize, cols: usize) -> (w: Vec<Vec<bool>>)
    ensures
        w.deep_view().len() == rows,
        forall|r: int| 0 <= r < rows ==> (#[trigger] w.deep_view()[r]).len() == cols,
        forall|r: int, c: int| 0 <= r < rows && 0 <= c < cols ==> #[trigger] w.deep_view()[r][c],
{
    let mut w: Vec<Vec<bool>> = Vec::new();
    let mut r: usize = 0;
    while r < rows
        invariant
            r <= rows,
            w.deep_view().len() == r,
            forall|k: int| 0 <= k < r ==> (#[trigger] w.deep_view()[k]).len() == cols,
            forall|k: int, c: int| 0 <= k < r && 0 <= c < cols ==> #[trigger] w.deep_view()[k][c],
        decreases rows - r,
    {
        let mut line: Vec<bool> = Vec::new();
        let mut c: usize = 0;
        while c < cols
            invariant
                c <= cols,
                line@.len() == c,
                forall|j: int| 0 <= j < c ==> #[trigger] line@[j],
            decreases cols - c,
        {
            line.push(true);
            c += 1;
        }
        let ghost before = w.deep_view();
        assert(line.deep_view() =~= line@);
        w.push(line);
        assert(w.deep_view() =~= before.push(line@));
        r += 1;
    }
    w
}

/// Knocks down the wall `walls[r][c]`.
fn clear_wall(walls: &mut Vec<Vec<bool>>, r: usize, c: usize)
    requires
        r < old(walls).deep_view().len(),
        c < old(walls).deep_view()[r as int].len(),
    ensures
        final(walls).deep_view() == old(walls).deep_view().update(
            r as int,
            old(walls).deep_view()[r as int].update(c as int, false),
        ),
{
    assert(old(walls)@[r as int].deep_view() =~= old(walls)@[r as int]@);
    walls[r].set(c, false);
    assert(walls.deep_view() =~~= old(walls).deep_view().update(
        r as int,
        old(walls).deep_view()[r as int].update(c as int, false),
    ));
}

/// Moves every cell of set `from` into set `to`.
fn merge_sets(sets: &mut Vec<usize>, from: usize, to: usize)
    ensures
        final(sets)@ == merged(old(sets)@, from, to),
{
    let ghost s0 = sets@;
    let mut i: usize = 0;
    while i < sets.len()
        invariant
            sets@.len() == s0.len(),
            i <= s0.len(),
            forall|j: int| 0 <= j < i ==> sets@[j] == (if s0[j] == from { to } else { s0[j] }),
            forall|j: int| i <= j < s0.len() ==> sets@[j] == s0[j],
        decreases s0.len() - i,
    {
        if sets[i] == from {
            sets.set(i, to);
        }
        i += 1;
    }
    assert(sets@ =~= merged(s0, from, to));
}

/// Whether column `col` is the leftmost one of its set.
fn first_in_set(sets: &Vec<usize>, col: usize) -> (b: bool)
    requires
        col < sets@.len(),
    ensures
        b == is_first(sets@, col as int),
{
    let mut k: usize = 0;
    while k < col
        invariant
            k <= col < sets@.len(),
            forall|j: int| 0 <= j < k ==> sets@[j] != sets@[col as int],
        decreases col - k,
    {
        if sets[k] == sets[col] {
            return false;
        }
        k += 1;
    }
    true
}

/// `n` fair coin flips.
fn coin_flips(n: usize, rng: &mut ThreadRng) -> (flips: Vec<bool>)
    ensures
        flips@.len() == n,
{
    let mut flips: Vec<bool> = Vec::new();
    while flips.len() < n
        invariant
            flips@.len() <= n,
        decreases n - flips@.len(),
    {
        flips.push(random_ratio(rng, 1, 2));
    }
    flips
}

/// Step 1 of a row: walks along row `row`, and between neighbours of
/// different sets removes the wall when the draw `merge[col]` for that
/// place says so (always, in the last row), merging the two sets.
fn join_row(
    right_walls: &mut Vec<Vec<bool>>,
    bottom_walls: &Vec<Vec<bool>>,
    sets: &mut Vec<usize>,
    rows: usize,
    cols: usize,
    row: usize,
    merge: &Vec<bool>,
)
    requires
        merge@.len() + 1 == cols,
        well_formed(grid_of(rows as int, cols as int, old(right_walls).deep_view(), bottom_walls.deep_view())),
        row < rows,
        1 <= cols,
        old(sets)@.len() == cols,
        forall|c: int| 0 <= c < cols ==> #[trigger] old(right_walls).deep_view()[row as int][c],
        classes_connected(
            grid_of(rows as int, cols as int, old(right_walls).deep_view(), bottom_walls.deep_view()),
            row as int,
            old(sets)@,
        ),
        separated(
            grid_of(rows as int, cols as int, old(right_walls).deep_view(), bottom_walls.deep_view()),
            row as int,
            old(sets)@,
        ),
        acyclic(grid_of(rows as int, cols as int, old(right_walls).deep_view(), bottom_walls.deep_view())),
    ensures
        well_formed(grid_of(rows as int, cols as int, final(right_walls).deep_view(), bottom_walls.deep_view())),
        separated(
            grid_of(rows as int, cols as int, final(right_walls).deep_view(), bottom_walls.deep_view()),
            row as int,
            final(sets)@,
        ),
        acyclic(grid_of(rows as int, cols as int, final(right_walls).deep_view(), bottom_walls.deep_view())),
        fewer_walls(
            grid_of(rows as int, cols as int, old(right_walls).deep_view(), bottom_walls.deep_view()),
            grid_of(rows as int, cols as int, final(right_walls).deep_view(), bottom_walls.deep_view()),
        ),
        forall|k: int| 0 <= k < rows && k != row ==> #[trigger] final(right_walls).deep_view()[k] == old(right_walls).deep_view()[k],
        final(sets)@.len() == cols,
        classes_connected(
            grid_of(rows as int, cols as int, final(right_walls).deep_view(), bottom_walls.deep_view()),
            row as int,
            final(sets)@,
        ),
        passage_count(grid_of(rows as int, cols as int, final(right_walls).deep_view(), bottom_walls.deep_view()))
            + label_count(final(sets)@) == passage_count(
            grid_of(rows as int, cols as int, old(right_walls).deep_view(), bottom_walls.deep_view()),
        ) + label_count(old(sets)@),
        forall|v: usize| final(sets)@.contains(v) ==> old(sets)@.contains(v),
        row + 1 == rows ==> forall|c: int| 0 <= c < cols ==> #[trigger] final(sets)@[c] == final(sets)@[0],
        final(right_walls).deep_view()[row as int][cols - 1],
        // Outside the last row, a wall is removed only where its draw says so.
        forall|c: int|
            0 <= c < cols - 1 && row + 1 < rows && !merge@[c] ==> #[trigger] final(right_walls).deep_view()[row as int][c],
        // Where the draw says so (everywhere, in the last row), the two
        // neighbours end up in one set.
        forall|c: int|
            0 <= c < cols - 1 && (row + 1 == rows || merge@[c]) ==> #[trigger] final(sets)@[c] == final(sets)@[c + 1],
{
    let ghost g0 = grid_of(rows as int, cols as int, right_walls.deep_view(), bottom_walls.deep_view());
    let ghost s0 = sets@;
    let mut col: usize = 0;
    while col + 1 < cols
        invariant
            merge@.len() + 1 == cols,
            forall|c: int|
                0 <= c < col && row + 1 < rows && !merge@[c] ==> #[trigger] right_walls.deep_view()[row as int][c],
            forall|c: int|
                0 <= c < col && (row + 1 == rows || merge@[c]) ==> #[trigger] sets@[c] == sets@[c + 1],
            row < rows,
            1 <= cols,
            col < cols,
            well_formed(grid_of(rows as int, cols as int, right_walls.deep_view(), bottom_walls.deep_view())),
            fewer_walls(g0, grid_of(rows as int, cols as int, right_walls.deep_view(), bottom_walls.deep_view())),
            forall|k: int| 0 <= k < rows && k != row ==> #[trigger] right_walls.deep_view()[k] == g0.right[k],
            forall|c: int| col <= c < cols ==> #[trigger] right_walls.deep_view()[row as int][c],
            sets@.len() == cols,
            classes_connected(
                grid_of(rows as int, cols as int, right_walls.deep_view(), bottom_walls.deep_view()),
                row as int,
                sets@,
            ),
            separated(
                grid_of(rows as int, cols as int, right_walls.deep_view(), bottom_walls.deep_view()),
                row as int,
                sets@,
            ),
            acyclic(grid_of(rows as int, cols as int, right_walls.deep_view(), bottom_walls.deep_view())),
            passage_count(grid_of(rows as int, cols as int, right_walls.deep_view(), bottom_walls.deep_view()))
                + label_count(sets@) == passage_count(g0) + label_count(s0),
            forall|v: usize| sets@.contains(v) ==> s0.contains(v),
            row + 1 == rows ==> forall|c: int| 0 <= c <= col ==> #[trigger] sets@[c] == sets@[0],
        decreases cols - col,
    {
        if sets[col] != sets[col + 1] && (row + 1 == rows || merge[col]) {
            let ghost gb = grid_of(rows as int, cols as int, right_walls.deep_view(), bottom_walls.deep_view());
            let ghost sb = sets@;
            clear_wall(right_walls, row, col);
            let ghost ga = grid_of(rows as int, cols as int, right_walls.deep_view(), bottom_walls.deep_view());
            proof {
                lemma_openings_clear(gb.right, rows as int, cols - 1, row as int, col as int);
                lemma_openings_same(gb.bottom, ga.bottom, rows - 1, cols as int);
                lemma_fewer_walls_trans(g0, gb, ga);
                lemma_clear_right(gb, ga, row as int, col as int);
                assert(!connected(gb, (row as int, col as int), (row as int, col + 1)));
                lemma_add_bridge(gb, ga, (row as int, col as int), (row as int, col + 1));
            }
            let from = sets[col + 1];
            let to = sets[col];
            merge_sets(sets, from, to);
            proof {
                assert(sb.contains(sb[col as int]));
                assert(sb.contains(sb[col + 1]));
                lemma_merge_labels(sb, from, to);
                lemma_connected_mono(gb, ga);
                let a = (row as int, col as int);
                let b = (row as int, col + 1);
                assert(open_between(ga, a, b));
                lemma_connected_step(ga, a, b);
                let s = sets@;
                assert forall|c1: int, c2: int|
                    0 <= c1 < s.len() && 0 <= c2 < s.len() && s[c1] == s[c2] implies #[trigger] connected(
                    ga,
                    (row as int, c1),
                    (row as int, c2),
                ) by {
                    let x = (row as int, c1);
                    let y = (row as int, c2);
                    if sb[c1] == sb[c2] {
                        assert(connected(gb, x, y));
                    } else if sb[c1] == to {
                        assert(connected(gb, x, a));
                        assert(connected(gb, b, y));
                        lemma_connected_trans(ga, x, a, b);
                        lemma_connected_trans(ga, x, b, y);
                    } else {
                        assert(connected(gb, y, a));
                        assert(connected(gb, b, x));
                        lemma_connected_trans(ga, y, a, b);
                        lemma_connected_trans(ga, y, b, x);
                        lemma_connected_sym(ga, y, x);
                    }
                }
                assert forall|v: usize| s.contains(v) implies s0.contains(v) by {
                    assert(merged(sb, from, to).to_set().contains(v));
                    assert(sb.contains(v));
                }
                assert forall|c1: int, c2: int|
                    0 <= c1 < s.len() && 0 <= c2 < s.len() && s[c1] != s[c2] implies !#[trigger] connected(
                    ga,
                    (row as int, c1),
                    (row as int, c2),
                ) by {
                    let x = (row as int, c1);
                    let y = (row as int, c2);
                    if connected(ga, x, y) {
                        lemma_split(gb, ga, a, b, x, y);
                        if connected(gb, x, y) {
                            assert(sb[c1] == sb[c2]);
                        } else if connected(gb, x, a) && connected(gb, b, y) {
                            assert(sb[c1] == to);
                            assert(sb[c2] == from);
                        } else {
                            assert(sb[c1] == from);
                            assert(sb[c2] == to);
                        }
                    }
                }
            }
        }
        col += 1;
    }
}


/// Steps 2 and 3 of a row that is not the last: every set opens the bottom
/// wall of its leftmost cell, every other cell opens its bottom wall at
/// random; cells of the next row below an opened wall keep the set above,
/// the others get fresh set numbers.
fn descend_row(
    bottom_walls: &mut Vec<Vec<bool>>,
    right_walls: &Vec<Vec<bool>>,
    sets: &mut Vec<usize>,
    next_set_id: &mut usize,
    rows: usize,
    cols: usize,
    row: usize,
    rng: &mut ThreadRng,
)
    requires
        well_formed(grid_of(rows as int, cols as int, right_walls.deep_view(), old(bottom_walls).deep_view())),
        row + 1 < rows,
        1 <= cols,
        old(sets)@.len() == cols,
        forall|c: int| 0 <= c < cols ==> #[trigger] old(bottom_walls).deep_view()[row as int][c],
        classes_connected(
            grid_of(rows as int, cols as int, right_walls.deep_view(), old(bottom_walls).deep_view()),
            row as int,
            old(sets)@,
        ),
        forall|v: usize| old(sets)@.contains(v) ==> v < *old(next_set_id),
        *old(next_set_id) + cols <= usize::MAX,
        separated(
            grid_of(rows as int, cols as int, right_walls.deep_view(), old(bottom_walls).deep_view()),
            row as int,
            old(sets)@,
        ),
        acyclic(grid_of(rows as int, cols as int, right_walls.deep_view(), old(bottom_walls).deep_view())),
        forall|c: int| 0 <= c < cols ==> #[trigger] right_walls.deep_view()[row + 1][c],
        forall|c: int| 0 <= c < cols ==> #[trigger] old(bottom_walls).deep_view()[row + 1][c],
    ensures
        separated(
            grid_of(rows as int, cols as int, right_walls.deep_view(), final(bottom_walls).deep_view()),
            row + 1,
            final(sets)@,
        ),
        acyclic(grid_of(rows as int, cols as int, right_walls.deep_view(), final(bottom_walls).deep_view())),
        well_formed(grid_of(rows as int, cols as int, right_walls.deep_view(), final(bottom_walls).deep_view())),
        fewer_walls(
            grid_of(rows as int, cols as int, right_walls.deep_view(), old(bottom_walls).deep_view()),
            grid_of(rows as int, cols as int, right_walls.deep_view(), final(bottom_walls).deep_view()),
        ),
        forall|k: int| 0 <= k < rows && k != row ==> #[trigger] final(bottom_walls).deep_view()[k] == old(bottom_walls).deep_view()[k],
        final(sets)@.len() == cols,
        classes_connected(
            grid_of(rows as int, cols as int, right_walls.deep_view(), final(bottom_walls).deep_view()),
            row + 1,
            final(sets)@,
        ),
        forall|c: int| 0 <= c < cols ==> #[trigger] reaches_row(
            grid_of(rows as int, cols as int, right_walls.deep_view(), final(bottom_walls).deep_view()),
            (row as int, c),
            row + 1,
        ),
        passage_count(grid_of(rows as int, cols as int, right_walls.deep_view(), final(bottom_walls).deep_view()))
            + label_count(final(sets)@) == passage_count(
            grid_of(rows as int, cols as int, right_walls.deep_view(), old(bottom_walls).deep_view()),
        ) + label_count(old(sets)@) + cols,
        forall|v: usize| final(sets)@.contains(v) ==> v < *final(next_set_id),
        *final(next_set_id) <= *old(next_set_id) + cols,
{
    let ghost g0 = grid_of(rows as int, cols as int, right_walls.deep_view(), bottom_walls.deep_view());
    let ghost s0 = sets@;
    let ghost next0 = *next_set_id;
    let mut connected_down: Vec<bool> = Vec::new();
    let mut c: usize = 0;
    while c < cols
        invariant
            c <= cols,
            connected_down@.len() == c,
            forall|j: int| #![trigger connected_down@[j]] 0 <= j < c ==> !connected_down@[j],
        decreases cols - c,
    {
        connected_down.push(false);
        c += 1;
    }
    proof {
        assert forall|x: Cell, y: Cell|
            in_grid(g0, x) && in_grid(g0, y) && #[trigger] connected(g0, x, y) implies connected(
            g0,
            lifted(x, row as int),
            lifted(y, row as int),
        ) by {
            if x.0 == row + 1 {
                lemma_closed_cell(g0, x);
                lemma_isolated(g0, x, y);
                lemma_connected_refl(g0, lifted(x, row as int));
            } else if y.0 == row + 1 {
                lemma_closed_cell(g0, y);
                lemma_isolated(g0, y, x);
                lemma_connected_refl(g0, lifted(y, row as int));
            }
        }
    }
    // Step 2: openings into the next row.
    let mut col: usize = 0;
    while col < cols
        invariant
            row + 1 < rows,
            1 <= cols,
            col <= cols,
            s0.len() == cols,
            sets@ == s0,
            well_formed(grid_of(rows as int, cols as int, right_walls.deep_view(), bottom_walls.deep_view())),
            fewer_walls(g0, grid_of(rows as int, cols as int, right_walls.deep_view(), bottom_walls.deep_view())),
            forall|k: int| 0 <= k < rows && k != row ==> #[trigger] bottom_walls.deep_view()[k] == g0.bottom[k],
            connected_down@.len() == cols,
            forall|j: int| #![trigger connected_down@[j]] 0 <= j < col ==> (connected_down@[j] <==> !bottom_walls.deep_view()[row as int][j]),
            forall|j: int| #![trigger connected_down@[j]] col <= j < cols ==> !connected_down@[j],
            forall|j: int| col <= j < cols ==> #[trigger] bottom_walls.deep_view()[row as int][j],
            forall|j: int| 0 <= j < col && is_first(s0, j) ==> #[trigger] connected_down@[j],
            passage_count(grid_of(rows as int, cols as int, right_walls.deep_view(), bottom_walls.deep_view()))
                == passage_count(g0) + count_true(connected_down@.take(col as int)),
            forall|c: int| 0 <= c < cols ==> #[trigger] right_walls.deep_view()[row + 1][c],
            forall|c: int| 0 <= c < cols ==> #[trigger] g0.bottom[row + 1][c],
            acyclic(grid_of(rows as int, cols as int, right_walls.deep_view(), bottom_walls.deep_view())),
            forall|x: Cell, y: Cell|
                in_grid(g0, x) && in_grid(g0, y) && #[trigger] connected(
                    grid_of(rows as int, cols as int, right_walls.deep_view(), bottom_walls.deep_view()),
                    x,
                    y,
                ) ==> connected(g0, lifted(x, row as int), lifted(y, row as int)),
        decreases cols - col,
    {
        let open = random_ratio(rng, 2, 5);
        let ghost gb = grid_of(rows as int, cols as int, right_walls.deep_view(), bottom_walls.deep_view());
        let ghost db = connected_down@;
        proof {
            assert(!connected_down@[col as int]);
            assert(bottom_walls.deep_view()[row as int][col as int]);
        }
        if open || first_in_set(sets, col) {
            clear_wall(bottom_walls, row, col);
            connected_down.set(col, true);
            proof {
                let ga = grid_of(rows as int, cols as int, right_walls.deep_view(), bottom_walls.deep_view());
                lemma_openings_clear(gb.bottom, rows - 1, cols as int, row as int, col as int);
                lemma_openings_same(gb.right, ga.right, rows as int, cols - 1);
                lemma_fewer_walls_trans(g0, gb, ga);
                let a = (row as int, col as int);
                let b = (row + 1, col as int);
                lemma_clear_bottom(gb, ga, row as int, col as int);
                assert(gb.bottom[row + 1][col as int]);
                lemma_closed_cell(gb, b);
                lemma_isolated(gb, b, a);
                lemma_add_bridge(gb, ga, a, b);
                assert forall|x: Cell, y: Cell|
                    in_grid(g0, x) && in_grid(g0, y) && #[trigger] connected(ga, x, y) implies connected(
                    g0,
                    lifted(x, row as int),
                    lifted(y, row as int),
                ) by {
                    lemma_split(gb, ga, a, b, x, y);
                    if connected(gb, x, y) {
                    } else if connected(gb, x, a) && connected(gb, b, y) {
                        assert(connected(g0, lifted(x, row as int), lifted(a, row as int)));
                        assert(connected(g0, lifted(b, row as int), lifted(y, row as int)));
                        lemma_connected_trans(g0, lifted(x, row as int), a, lifted(y, row as int));
                    } else {
                        assert(connected(g0, lifted(x, row as int), lifted(b, row as int)));
                        assert(connected(g0, lifted(a, row as int), lifted(y, row as int)));
                        lemma_connected_trans(g0, lifted(x, row as int), a, lifted(y, row as int));
                    }
                }
                assert(connected_down@.take(col + 1) =~= db.take(col as int).push(true));
                lemma_count_true_push(db.take(col as int), true);
                assert forall|j: int| col < j < cols implies #[trigger] bottom_walls.deep_view()[row as int][j] by {
                    assert(!db[j]);
                    assert(gb.bottom[row as int][j]);
                }
                assert forall|j: int| #![trigger connected_down@[j]] 0 <= j <= col implies (connected_down@[j]
                    <==> !bottom_walls.deep_view()[row as int][j]) by {
                    if j < col {
                        assert(db[j] <==> !gb.bottom[row as int][j]);
                    }
                }
            }
        } else {
            proof {
                assert(connected_down@.take(col + 1) =~= db.take(col as int).push(false));
                lemma_count_true_push(db.take(col as int), false);
                assert forall|j: int| col < j < cols implies #[trigger] bottom_walls.deep_view()[row as int][j] by {
                    assert(!db[j]);
                    assert(gb.bottom[row as int][j]);
                }
            }
        }
        col += 1;
    }
    let ghost g1 = grid_of(rows as int, cols as int, right_walls.deep_view(), bottom_walls.deep_view());
    let ghost downs = count_true(connected_down@);
    proof {
        assert(connected_down@.take(cols as int) =~= connected_down@);
        lemma_connected_mono(g0, g1);
        lemma_count_true_bound(connected_down@);
    }
    // Step 3: the next row's sets.
    let mut col: usize = 0;
    while col < cols
        invariant
            col <= cols,
            1 <= cols,
            s0.len() == cols,
            sets@.len() == cols,
            connected_down@.len() == cols,
            bottom_walls.deep_view() == g1.bottom,
            forall|j: int| #![trigger connected_down@[j]] 0 <= j < cols ==> (connected_down@[j] <==> !g1.bottom[row as int][j]),
            downs == count_true(connected_down@),
            downs <= cols,
            next0 + cols <= usize::MAX,
            forall|v: usize| s0.contains(v) ==> v < next0,
            forall|j: int| 0 <= j < cols && is_first(s0, j) ==> #[trigger] connected_down@[j],
            forall|j: int| col <= j < cols ==> #[trigger] sets@[j] == s0[j],
            forall|j: int| #![trigger connected_down@[j]] 0 <= j < col && connected_down@[j] ==> sets@[j] == s0[j],
            forall|j: int| #![trigger connected_down@[j]] 0 <= j < col && !connected_down@[j] ==> next0 <= sets@[j] < *next_set_id,
            forall|j1: int, j2: int|
                #![trigger connected_down@[j1], connected_down@[j2]] 0 <= j1 < j2 < col && !connected_down@[j1] && !connected_down@[j2]
                    ==> sets@[j1] < sets@[j2],
            *next_set_id == next0 + (col - count_true(connected_down@.take(col as int))),
            label_count(sets@) == label_count(s0) + (col - count_true(connected_down@.take(col as int))),
            count_true(connected_down@.take(col as int)) <= col,
            forall|v: usize| sets@.contains(v) ==> v < *next_set_id,
        decreases cols - col,
    {
        let ghost sb = sets@;
        let ghost d = connected_down@;
        proof {
            assert(d.take(col + 1) =~= d.take(col as int).push(d[col as int]));
            lemma_count_true_push(d.take(col as int), d[col as int]);
        }
        if !connected_down[col] {
            proof {
                let f = lemma_leader(s0, col as int);
                assert(connected_down@[f]);
                assert(f != col);
                assert(sb[f] == s0[f]);
                assert(sb[f] == sb[col as int]);
                assert(!sb.contains(*next_set_id));
                lemma_fresh_label(sb, col as int, *next_set_id, f);
            }
            let fresh = *next_set_id;
            sets.set(col, fresh);
            *next_set_id = fresh + 1;
            proof {
                assert forall|v: usize| sets@.contains(v) implies v < *next_set_id by {
                    let i = choose|i: int| 0 <= i < sets@.len() && sets@[i] == v;
                    if i != col {
                        assert(sb.contains(v));
                    }
                }
            }
        }
        col += 1;
    }
    proof {
        assert(connected_down@.take(cols as int) =~= connected_down@);
        let g = g1;
        let s = sets@;
        assert forall|c1: int, c2: int|
            0 <= c1 < s.len() && 0 <= c2 < s.len() && s[c1] == s[c2] implies #[trigger] connected(
            g,
            (row + 1, c1),
            (row + 1, c2),
        ) by {
            if c1 == c2 {
                lemma_connected_refl(g, (row + 1, c1));
            } else if connected_down@[c1] && connected_down@[c2] {
                assert(connected(g0, (row as int, c1), (row as int, c2)));
                assert(open_between(g, (row + 1, c1), (row as int, c1)));
                assert(open_between(g, (row as int, c2), (row + 1, c2)));
                lemma_connected_step(g, (row + 1, c1), (row as int, c1));
                lemma_connected_step(g, (row as int, c2), (row + 1, c2));
                lemma_connected_trans(g, (row + 1, c1), (row as int, c1), (row as int, c2));
                lemma_connected_trans(g, (row + 1, c1), (row as int, c2), (row + 1, c2));
            } else if connected_down@[c1] {
                assert(s0.contains(s0[c1]));
            } else if connected_down@[c2] {
                assert(s0.contains(s0[c2]));
            } else if c1 < c2 {
            } else {
            }
        }
        assert forall|c1: int, c2: int|
            0 <= c1 < s.len() && 0 <= c2 < s.len() && s[c1] != s[c2] implies !#[trigger] connected(
            g,
            (row + 1, c1),
            (row + 1, c2),
        ) by {
            let x = (row + 1, c1);
            let y = (row + 1, c2);
            if connected(g, x, y) {
                if !connected_down@[c1] {
                    lemma_closed_cell(g, x);
                    lemma_isolated(g, x, y);
                } else if !connected_down@[c2] {
                    lemma_closed_cell(g, y);
                    lemma_isolated(g, y, x);
                } else {
                    assert(connected(g0, (row as int, c1), (row as int, c2)));
                    assert(s0[c1] == s[c1]);
                    assert(s0[c2] == s[c2]);
                }
            }
        }
        assert forall|c: int| 0 <= c < cols implies #[trigger] reaches_row(g, (row as int, c), row + 1) by {
            let f = lemma_leader(s0, c);
            assert(connected_down@[f]);
            assert(connected(g0, (row as int, c), (row as int, f)));
            assert(open_between(g, (row as int, f), (row + 1, f)));
            lemma_connected_step(g, (row as int, f), (row + 1, f));
            lemma_connected_trans(g, (row as int, c), (row as int, f), (row + 1, f));
        }
    }
}

/// Builds a random perfect maze of `rows` by `cols` cells with Eller's
/// algorithm: starting from a maze with every wall standing, each row
/// first merges neighbouring sets at random, then every set opens at least
/// one cell into the next row; the last row merges all remaining sets.
/// The result is a perfect maze (`is_perfect`): all cells are connected and
/// there is no loop, so it has `rows * cols - 1` passages. Right walls of
/// the last column and bottom walls of the last row always stand.
pub fn eller_grid(rows: usize, cols: usize) -> (grid: MazeGrid)
    requires
        1 <= cols,
        rows * cols <= usize::MAX,
    ensures
        grid.rows == rows,
        grid.cols == cols,
        well_formed(grid@),
        rows >= 1 ==> is_perfect(grid@),
        rows >= 1 ==> passage_count(grid@) + 1 == rows * cols,
        forall|r: int| 0 <= r < rows ==> #[trigger] grid@.right[r][cols - 1],
        forall|c: int| 0 <= c < cols && rows >= 1 ==> #[trigger] grid@.bottom[rows - 1][c],
{
    let mut rng = thread_rng();
    let mut right_walls = all_walls(rows, cols);
    let mut bottom_walls = all_walls(rows, cols);
    // The first row: every cell in a set of its own.
    let mut sets: Vec<usize> = Vec::new();
    let mut next_set_id: usize = 0;
    while next_set_id < cols
        invariant
            next_set_id <= cols,
            sets@.len() == next_set_id,
            forall|j: int| 0 <= j < next_set_id ==> #[trigger] sets@[j] == j,
        decreases cols - next_set_id,
    {
        sets.push(next_set_id);
        next_set_id += 1;
    }
    if rows >= 1 {
        proof {
            let g = grid_of(rows as int, cols as int, right_walls.deep_view(), bottom_walls.deep_view());
            assert(sets@.no_duplicates());
            sets@.unique_seq_to_set();
            assert(passage_count(g) == 0) by {
                lemma_no_openings(g.right, rows as int, cols - 1);
                lemma_no_openings(g.bottom, rows - 1, cols as int);
            }
            assert forall|c1: int, c2: int|
                0 <= c1 < sets@.len() && 0 <= c2 < sets@.len() && sets@[c1] == sets@[c2] implies #[trigger] connected(
                g,
                (0, c1),
                (0, c2),
            ) by {
                lemma_connected_refl(g, (0, c1));
            }
            assert forall|x: Cell| in_grid(g, x) && x.0 <= 0 implies #[trigger] reaches_row(g, x, 0) by {
                lemma_connected_refl(g, x);
                assert(connected(g, x, (0, x.1)));
            }
            assert forall|c1: int, c2: int|
                0 <= c1 < sets@.len() && 0 <= c2 < sets@.len() && sets@[c1] != sets@[c2] implies !#[trigger] connected(
                g,
                (0, c1),
                (0, c2),
            ) by {
                lemma_closed_cell(g, (0, c1));
                lemma_isolated(g, (0, c1), (0, c2));
            }
            assert forall|a: Cell, b: Cell|
                in_grid(g, a) && in_grid(g, b) implies !#[trigger] open_between(g, a, b) by {
                assert(g.right[a.0][a.1]);
                assert(g.bottom[a.0][a.1]);
                assert(g.right[b.0][b.1]);
                assert(g.bottom[b.0][b.1]);
            }
            assert(acyclic(g));
            assert(1 * cols <= rows * cols) by (nonlinear_arith)
                requires
                    rows >= 1,
            ;
        }
        let mut row: usize = 0;
        while row + 1 < rows
            invariant
                row < rows,
                1 <= cols,
                rows * cols <= usize::MAX,
                well_formed(grid_of(rows as int, cols as int, right_walls.deep_view(), bottom_walls.deep_view())),
                forall|k: int, c: int|
                    row <= k < rows && 0 <= c < cols ==> #[trigger] right_walls.deep_view()[k][c],
                forall|k: int| 0 <= k < row ==> #[trigger] right_walls.deep_view()[k][cols - 1],
                forall|k: int, c: int|
                    row <= k < rows && 0 <= c < cols ==> #[trigger] bottom_walls.deep_view()[k][c],
                sets@.len() == cols,
                classes_connected(
                    grid_of(rows as int, cols as int, right_walls.deep_view(), bottom_walls.deep_view()),
                    row as int,
                    sets@,
                ),
                all_reach_row(
                    grid_of(rows as int, cols as int, right_walls.deep_view(), bottom_walls.deep_view()),
                    row as int,
                ),
                separated(
                    grid_of(rows as int, cols as int, right_walls.deep_view(), bottom_walls.deep_view()),
                    row as int,
                    sets@,
                ),
                acyclic(grid_of(rows as int, cols as int, right_walls.deep_view(), bottom_walls.deep_view())),
                passage_count(grid_of(rows as int, cols as int, right_walls.deep_view(), bottom_walls.deep_view()))
                    + label_count(sets@) == (row + 1) * cols,
                forall|v: usize| sets@.contains(v) ==> v < next_set_id,
                next_set_id <= (row + 1) * cols,
                (row + 1) * cols <= rows * cols,
            decreases rows - row,
        {
            let ghost ga = grid_of(rows as int, cols as int, right_walls.deep_view(), bottom_walls.deep_view());
            let merge = coin_flips(cols - 1, &mut rng);
            join_row(&mut right_walls, &bottom_walls, &mut sets, rows, cols, row, &merge);
            let ghost gb = grid_of(rows as int, cols as int, right_walls.deep_view(), bottom_walls.deep_view());
            proof {
                lemma_reach_mono(ga, gb, row as int);
                assert((row + 1) * cols + cols == (row + 2) * cols) by (nonlinear_arith);
                assert((row + 2) * cols <= rows * cols) by (nonlinear_arith)
                    requires
                        row + 2 <= rows,
                ;
            }
            descend_row(&mut bottom_walls, &right_walls, &mut sets, &mut next_set_id, rows, cols, row, &mut rng);
            let ghost gc = grid_of(rows as int, cols as int, right_walls.deep_view(), bottom_walls.deep_view());
            proof {
                lemma_reach_next_row(gb, gc, row as int);
            }
            row += 1;
        }
        // The last row joins everything that is still apart.
        let ghost ga = grid_of(rows as int, cols as int, right_walls.deep_view(), bottom_walls.deep_view());
        let merge = coin_flips(cols - 1, &mut rng);
        join_row(&mut right_walls, &bottom_walls, &mut sets, rows, cols, row, &merge);
        proof {
            let g = grid_of(rows as int, cols as int, right_walls.deep_view(), bottom_walls.deep_view());
            lemma_reach_mono(ga, g, row as int);
            lemma_single_label(sets@);
            assert((row + 1) * cols == rows * cols);
            assert forall|a: Cell, b: Cell| in_grid(g, a) && in_grid(g, b) implies #[trigger] connected(g, a, b) by {
                assert(reaches_row(g, a, row as int));
                assert(reaches_row(g, b, row as int));
                let ca = choose|c: int| 0 <= c < g.cols && #[trigger] connected(g, a, (row as int, c));
                let cb = choose|c: int| 0 <= c < g.cols && #[trigger] connected(g, b, (row as int, c));
                assert(sets@[ca] == sets@[0]);
                assert(sets@[cb] == sets@[0]);
                assert(connected(g, (row as int, ca), (row as int, cb)));
                lemma_connected_trans(g, a, (row as int, ca), (row as int, cb));
                lemma_connected_sym(g, b, (row as int, cb));
                lemma_connected_trans(g, a, (row as int, cb), b);
            }
        }
    }
    MazeGrid { rows, cols, right_walls, bottom_walls }
}

/// A table with every wall standing has no openings.
proof fn lemma_no_openings(walls: Seq<Seq<bool>>, nrows: int, ncols: int)
    requires
        nrows <= walls.len(),
        forall|r: int| 0 <= r < nrows ==> ncols <= (#[trigger] walls[r]).len(),
        forall|r: int, c: int| 0 <= r < nrows && 0 <= c < ncols ==> #[trigger] walls[r][c],
    ensures
        openings(walls, nrows, ncols) == 0,
    decreases nrows,
{
    if nrows > 0 {
        lemma_no_openings(walls, nrows - 1, ncols);
        lemma_no_row_openings(walls[nrows - 1], ncols);
    }
}

proof fn lemma_no_row_openings(row: Seq<bool>, n: int)
    requires
        n <= row.len(),
        forall|c: int| 0 <= c < n ==> #[trigger] row[c],
    ensures
        row_openings(row, n) == 0,
    decreases n,
{
    if n > 0 {
        lemma_no_row_openings(row, n - 1);
    }
}

} // verus!
