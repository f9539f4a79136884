use vstd::prelude::*;

verus! {

use crate::tile::Tile;

/// Abstract value of a game grid: rows of tiles, row-major, indexed by
/// (row `y`, column `x`).
pub type GridView = Seq<Seq<Tile>>;

/// A grid is well formed when it is a non-empty rectangle whose cell count
/// fits the score counter.
pub open spec fn grid_wf(g: GridView) -> bool {
    &&& g.len() >= 1
    &&& g[0].len() >= 1
    &&& forall|y: int| 0 <= y < g.len() ==> (#[trigger] g[y]).len() == g[0].len()
    &&& g.len() * g[0].len() <= u32::MAX as int
}

pub open spec fn in_grid(g: GridView, x: int, y: int) -> bool {
    0 <= y < g.len() && 0 <= x < g[y].len()
}

pub open spec fn tile_at(g: GridView, x: int, y: int) -> Tile {
    g[y][x]
}

/// The neighbor count a safe tile carries; 0 for a mine, which carries none.
pub open spec fn tile_count(t: Tile) -> u8 {
    match t {
        Tile::Mine => 0,
        Tile::Hidden(v) => v,
        Tile::Visible(v) => v,
    }
}

pub open spec fn mine_at(g: GridView, x: int, y: int) -> bool {
    in_grid(g, x, y) && tile_at(g, x, y) is Mine
}

/// A safe tile with its carried count raised by one; a mine is unchanged.
pub open spec fn bump_tile(t: Tile) -> Tile {
    match t {
        Tile::Mine => Tile::Mine,
        Tile::Hidden(v) => Tile::Hidden((v + 1) as u8),
        Tile::Visible(v) => Tile::Visible((v + 1) as u8),
    }
}

// ------------------------------------------------------------------
// Counting tiles that satisfy a predicate
// ------------------------------------------------------------------

pub open spec fn row_count(row: Seq<Tile>, p: spec_fn(Tile) -> bool) -> int
    decreases row.len(),
{
    if row.len() == 0 {
        0
    } else {
        row_count(row.drop_last(), p) + if p(row.last()) {
            1int
        } else {
            0int
        }
    }
}

pub open spec fn grid_count(g: GridView, p: spec_fn(Tile) -> bool) -> int
    decreases g.len(),
{
    if g.len() == 0 {
        0
    } else {
        grid_count(g.drop_last(), p) + row_count(g.last(), p)
    }
}

pub open spec fn is_mine_pred() -> spec_fn(Tile) -> bool {
    |t: Tile| t is Mine
}

pub open spec fn is_visible_pred() -> spec_fn(Tile) -> bool {
    |t: Tile| t is Visible
}

pub open spec fn is_hidden_pred() -> spec_fn(Tile) -> bool {
    |t: Tile| t is Hidden
}

pub open spec fn mine_count(g: GridView) -> int {
    grid_count(g, is_mine_pred())
}

pub open spec fn visible_count(g: GridView) -> int {
    grid_count(g, is_visible_pred())
}

pub open spec fn hidden_count(g: GridView) -> int {
    grid_count(g, is_hidden_pred())
}

/// The abstract grid behind a vector of rows.
pub open spec fn grid_of(v: Seq<Vec<Tile>>) -> GridView {
    v.map_values(|row: Vec<Tile>| row@)
}

pub proof fn lemma_row_count_le(row: Seq<Tile>, p: spec_fn(Tile) -> bool)
    ensures
        0 <= row_count(row, p) <= row.len(),
    decreases row.len(),
{
    if row.len() > 0 {
        lemma_row_count_le(row.drop_last(), p);
    }
}

pub proof fn lemma_grid_count_le(g: GridView, p: spec_fn(Tile) -> bool, w: int)
    requires
        forall|y: int| 0 <= y < g.len() ==> (#[trigger] g[y]).len() <= w,
        0 <= w,
    ensures
        0 <= grid_count(g, p) <= g.len() * w,
    decreases g.len(),
{
    if g.len() > 0 {
        lemma_grid_count_le(g.drop_last(), p, w);
        lemma_row_count_le(g.last(), p);
        assert((g.len() - 1) * w + w == g.len() * w) by (nonlinear_arith);
    }
}

pub proof fn lemma_row_count_disjoint(row: Seq<Tile>, p: spec_fn(Tile) -> bool, q: spec_fn(Tile) -> bool)
    requires
        forall|t: Tile| !(#[trigger] p(t) && #[trigger] q(t)),
    ensures
        row_count(row, p) + row_count(row, q) <= row.len(),
    decreases row.len(),
{
    if row.len() > 0 {
        lemma_row_count_disjoint(row.drop_last(), p, q);
    }
}

/// Two predicates no tile satisfies at once fill at most the whole grid.
pub proof fn lemma_grid_count_disjoint(
    g: GridView,
    p: spec_fn(Tile) -> bool,
    q: spec_fn(Tile) -> bool,
    w: int,
)
    requires
        forall|t: Tile| !(#[trigger] p(t) && #[trigger] q(t)),
        forall|y: int| 0 <= y < g.len() ==> (#[trigger] g[y]).len() <= w,
        0 <= w,
    ensures
        grid_count(g, p) + grid_count(g, q) <= g.len() * w,
    decreases g.len(),
{
    if g.len() > 0 {
        lemma_grid_count_disjoint(g.drop_last(), p, q, w);
        lemma_row_count_disjoint(g.last(), p, q);
        assert((g.len() - 1) * w + w == g.len() * w) by (nonlinear_arith);
    }
}

pub proof fn lemma_row_count_pos(row: Seq<Tile>, p: spec_fn(Tile) -> bool, i: int)
    requires
        0 <= i < row.len(),
        p(row[i]),
    ensures
        row_count(row, p) >= 1,
    decreases row.len(),
{
    lemma_row_count_le(row.drop_last(), p);
    if i < row.len() - 1 {
        assert(row.drop_last()[i] == row[i]);
        lemma_row_count_pos(row.drop_last(), p, i);
    }
}

pub proof fn lemma_grid_count_nonneg(g: GridView, p: spec_fn(Tile) -> bool)
    ensures
        grid_count(g, p) >= 0,
    decreases g.len(),
{
    if g.len() > 0 {
        lemma_grid_count_nonneg(g.drop_last(), p);
        lemma_row_count_le(g.last(), p);
    }
}

/// A grid with a cell that satisfies a predicate counts at least one.
pub proof fn lemma_grid_count_pos(g: GridView, p: spec_fn(Tile) -> bool, x: int, y: int)
    requires
        in_grid(g, x, y),
        p(tile_at(g, x, y)),
    ensures
        grid_count(g, p) >= 1,
    decreases g.len(),
{
    lemma_grid_count_nonneg(g.drop_last(), p);
    lemma_row_count_le(g.last(), p);
    if y < g.len() - 1 {
        assert(g.drop_last()[y] == g[y]);
        lemma_grid_count_pos(g.drop_last(), p, x, y);
    } else {
        assert(g.last() == g[y]);
        lemma_row_count_pos(g.last(), p, x);
    }
}

pub proof fn lemma_row_count_update(row: Seq<Tile>, p: spec_fn(Tile) -> bool, i: int, t: Tile)
    requires
        0 <= i < row.len(),
    ensures
        row_count(row.update(i, t), p) == row_count(row, p) + (if p(t) {
            1int
        } else {
            0int
        }) - (if p(row[i]) {
            1int
        } else {
            0int
        }),
    decreases row.len(),
{
    let row2 = row.update(i, t);
    if i == row.len() - 1 {
        assert(row2.drop_last() =~= row.drop_last());
        assert(row2.last() == t);
    } else {
        assert(row2.drop_last() =~= row.drop_last().update(i, t));
        assert(row2.last() == row.last());
        lemma_row_count_update(row.drop_last(), p, i, t);
    }
}

pub proof fn lemma_grid_count_row_update(g: GridView, p: spec_fn(Tile) -> bool, y: int, row: Seq<Tile>)
    requires
        0 <= y < g.len(),
    ensures
        grid_count(g.update(y, row), p) == grid_count(g, p) + row_count(row, p) - row_count(g[y], p),
    decreases g.len(),
{
    let g2 = g.update(y, row);
    if y == g.len() - 1 {
        assert(g2.drop_last() =~= g.drop_last());
        assert(g2.last() == row);
    } else {
        assert(g2.drop_last() =~= g.drop_last().update(y, row));
        assert(g2.last() == g.last());
        lemma_grid_count_row_update(g.drop_last(), p, y, row);
    }
}

/// Changing one cell changes a count by the difference at that cell.
pub proof fn lemma_grid_count_cell_update(
    g: GridView,
    p: spec_fn(Tile) -> bool,
    x: int,
    y: int,
    t: Tile,
)
    requires
        in_grid(g, x, y),
    ensures
        grid_count(g.update(y, g[y].update(x, t)), p) == grid_count(g, p) + (if p(t) {
            1int
        } else {
            0int
        }) - (if p(g[y][x]) {
            1int
        } else {
            0int
        }),
{
    lemma_grid_count_row_update(g, p, y, g[y].update(x, t));
    lemma_row_count_update(g[y], p, x, t);
}

/// The counting form of a single-cell change described cell by cell.
pub proof fn lemma_grid_count_one_cell_change(
    g1: GridView,
    g2: GridView,
    p: spec_fn(Tile) -> bool,
    x: int,
    y: int,
)
    requires
        in_grid(g1, x, y),
        g2.len() == g1.len(),
        forall|yy: int| 0 <= yy < g1.len() ==> (#[trigger] g2[yy]).len() == g1[yy].len(),
        forall|cx: int, cy: int|
            in_grid(g1, cx, cy) && !(cx == x && cy == y) ==> tile_at(g2, cx, cy) == tile_at(
                g1,
                cx,
                cy,
            ),
    ensures
        grid_count(g2, p) == grid_count(g1, p) + (if p(tile_at(g2, x, y)) {
            1int
        } else {
            0int
        }) - (if p(tile_at(g1, x, y)) {
            1int
        } else {
            0int
        }),
{
    let g3 = g1.update(y, g1[y].update(x, tile_at(g2, x, y)));
    assert forall|yy: int| 0 <= yy < g1.len() implies g2[yy] =~= g3[yy] by {
        assert forall|i: int| 0 <= i < g1[yy].len() implies g2[yy][i] == g3[yy][i] by {
            if i == x && yy == y {
                assert(g3[yy][i] == tile_at(g2, x, y));
            } else {
                assert(tile_at(g2, i, yy) == tile_at(g1, i, yy));
            }
        }
    }
    assert(g2 =~~= g3);
    lemma_grid_count_cell_update(g1, p, x, y, tile_at(g2, x, y));
}

/// A predicate that holds nowhere counts nothing.
pub proof fn lemma_row_count_zero(row: Seq<Tile>, p: spec_fn(Tile) -> bool)
    requires
        forall|i: int| 0 <= i < row.len() ==> !p(#[trigger] row[i]),
    ensures
        row_count(row, p) == 0,
    decreases row.len(),
{
    if row.len() > 0 {
        lemma_row_count_zero(row.drop_last(), p);
    }
}

pub proof fn lemma_grid_count_zero(g: GridView, p: spec_fn(Tile) -> bool)
    requires
        forall|x: int, y: int| in_grid(g, x, y) ==> !p(tile_at(g, x, y)),
    ensures
        grid_count(g, p) == 0,
    decreases g.len(),
{
    if g.len() > 0 {
        assert forall|x: int, y: int| in_grid(g.drop_last(), x, y) implies !p(
            tile_at(g.drop_last(), x, y),
        ) by {
            assert(in_grid(g, x, y) && tile_at(g, x, y) == tile_at(g.drop_last(), x, y));
        }
        lemma_grid_count_zero(g.drop_last(), p);
        assert forall|i: int| 0 <= i < g.last().len() implies !p(#[trigger] g.last()[i]) by {
            assert(in_grid(g, i, g.len() - 1) && tile_at(g, i, g.len() - 1) == g.last()[i]);
        }
        lemma_row_count_zero(g.last(), p);
    }
}

/// Two same-shaped grids on which a predicate agrees cell by cell have the
/// same count for it.
pub proof fn lemma_row_count_same_pred(r1: Seq<Tile>, r2: Seq<Tile>, p: spec_fn(Tile) -> bool)
    requires
        r1.len() == r2.len(),
        forall|i: int| 0 <= i < r1.len() ==> p(#[trigger] r1[i]) == p(r2[i]),
    ensures
        row_count(r1, p) == row_count(r2, p),
    decreases r1.len(),
{
    if r1.len() > 0 {
        lemma_row_count_same_pred(r1.drop_last(), r2.drop_last(), p);
    }
}

pub proof fn lemma_grid_count_same_pred(g1: GridView, g2: GridView, p: spec_fn(Tile) -> bool)
    requires
        g1.len() == g2.len(),
        forall|y: int| 0 <= y < g1.len() ==> (#[trigger] g1[y]).len() == g2[y].len(),
        forall|x: int, y: int| in_grid(g1, x, y) ==> p(tile_at(g1, x, y)) == p(tile_at(g2, x, y)),
    ensures
        grid_count(g1, p) == grid_count(g2, p),
    decreases g1.len(),
{
    if g1.len() > 0 {
        assert forall|x: int, y: int| in_grid(g1.drop_last(), x, y) implies p(
            tile_at(g1.drop_last(), x, y),
        ) == p(tile_at(g2.drop_last(), x, y)) by {
            assert(in_grid(g1, x, y));
            assert(tile_at(g1, x, y) == tile_at(g1.drop_last(), x, y));
            assert(tile_at(g2, x, y) == tile_at(g2.drop_last(), x, y));
        }
        lemma_grid_count_same_pred(g1.drop_last(), g2.drop_last(), p);
        assert forall|i: int| 0 <= i < g1.last().len() implies p(#[trigger] g1.last()[i]) == p(
            g2.last()[i],
        ) by {
            assert(in_grid(g1, i, g1.len() - 1));
            assert(tile_at(g1, i, g1.len() - 1) == g1.last()[i]);
            assert(tile_at(g2, i, g1.len() - 1) == g2.last()[i]);
        }
        lemma_row_count_same_pred(g1.last(), g2.last(), p);
    }
}

// ------------------------------------------------------------------
// 8-directional adjacency, for mine counts
// ------------------------------------------------------------------

/// The 8 neighbor offsets, as (row delta, column delta).
pub open spec fn dir8(k: int) -> (int, int) {
    if k == 0 {
        (-1, 0)
    } else if k == 1 {
        (-1, 1)
    } else if k == 2 {
        (0, 1)
    } else if k == 3 {
        (1, 1)
    } else if k == 4 {
        (1, 0)
    } else if k == 5 {
        (1, -1)
    } else if k == 6 {
        (0, -1)
    } else {
        (-1, -1)
    }
}

/// True when (x2, y2) is one of the up-to-8 neighbors of (x1, y1).
pub open spec fn adj8(x1: int, y1: int, x2: int, y2: int) -> bool {
    &&& -1 <= x2 - x1 <= 1
    &&& -1 <= y2 - y1 <= 1
    &&& !(x2 == x1 && y2 == y1)
}

pub open spec fn adj_mines_upto(g: GridView, x: int, y: int, k: int) -> int
    decreases k,
{
    if k <= 0 {
        0
    } else {
        adj_mines_upto(g, x, y, k - 1) + if mine_at(g, x + dir8(k - 1).1, y + dir8(k - 1).0) {
            1int
        } else {
            0int
        }
    }
}

/// The true number of mines among the up-to-8 neighbors of (x, y).
pub open spec fn adjacent_mines(g: GridView, x: int, y: int) -> int {
    adj_mines_upto(g, x, y, 8)
}

pub proof fn lemma_adjacent_mines_bound(g: GridView, x: int, y: int)
    ensures
        0 <= adjacent_mines(g, x, y) <= 8,
{
    reveal_with_fuel(adj_mines_upto, 9);
}

pub proof fn lemma_adjacent_mines_no_mines(g: GridView, x: int, y: int)
    requires
        forall|cx: int, cy: int| !mine_at(g, cx, cy),
    ensures
        adjacent_mines(g, x, y) == 0,
{
    reveal_with_fuel(adj_mines_upto, 9);
}

/// The 8 neighbor offsets are exactly the cells adjacent to a position.
pub proof fn lemma_adj8_dirs(x: int, y: int, cx: int, cy: int)
    ensures
        adj8(x, y, cx, cy) <==> exists|j: int|
            0 <= j < 8 && cx == x + (#[trigger] dir8(j)).1 && cy == y + dir8(j).0,
{
    if adj8(x, y, cx, cy) {
        let dy = cy - y;
        let dx = cx - x;
        if dy == -1 && dx == 0 {
            assert(cx == x + dir8(0).1 && cy == y + dir8(0).0);
        } else if dy == -1 && dx == 1 {
            assert(cx == x + dir8(1).1 && cy == y + dir8(1).0);
        } else if dy == 0 && dx == 1 {
            assert(cx == x + dir8(2).1 && cy == y + dir8(2).0);
        } else if dy == 1 && dx == 1 {
            assert(cx == x + dir8(3).1 && cy == y + dir8(3).0);
        } else if dy == 1 && dx == 0 {
            assert(cx == x + dir8(4).1 && cy == y + dir8(4).0);
        } else if dy == 1 && dx == -1 {
            assert(cx == x + dir8(5).1 && cy == y + dir8(5).0);
        } else if dy == 0 && dx == -1 {
            assert(cx == x + dir8(6).1 && cy == y + dir8(6).0);
        } else {
            assert(cx == x + dir8(7).1 && cy == y + dir8(7).0);
        }
    }
}

/// For a rectangular grid, each neighbor offset lands on a distinct cell, so
/// changing a single non-neighbor cell leaves a cell's adjacent-mine count
/// unchanged, and turning one neighbor cell into a mine raises it by one.
pub proof fn lemma_adjacent_mines_one_change(g1: GridView, g2: GridView, px: int, py: int, x: int, y: int)
    requires
        g1.len() == g2.len(),
        forall|yy: int| 0 <= yy < g1.len() ==> (#[trigger] g1[yy]).len() == g2[yy].len(),
        forall|xx: int, yy: int|
            in_grid(g1, xx, yy) && !(xx == px && yy == py) ==> tile_at(g1, xx, yy) == tile_at(
                g2,
                xx,
                yy,
            ),
        in_grid(g1, px, py),
        !(tile_at(g1, px, py) is Mine),
        tile_at(g2, px, py) is Mine,
    ensures
        adjacent_mines(g2, x, y) == adjacent_mines(g1, x, y) + (if adj8(px, py, x, y) {
            1int
        } else {
            0int
        }),
{
    assert forall|xx: int, yy: int| !(xx == px && yy == py) implies mine_at(g2, xx, yy) == mine_at(
        g1,
        xx,
        yy,
    ) by {
        if in_grid(g1, xx, yy) {
        } else {
            assert(!in_grid(g2, xx, yy));
        }
    }
    assert(mine_at(g2, px, py));
    assert(!mine_at(g1, px, py));
    reveal_with_fuel(adj_mines_upto, 9);
    assert(adjacent_mines(g2, x, y) == adjacent_mines(g1, x, y) + (if adj8(px, py, x, y) {
        1int
    } else {
        0int
    }));
}

/// A change that touches no mine tag anywhere leaves every adjacent-mine
/// count unchanged.
pub proof fn lemma_adjacent_mines_same_mines(g1: GridView, g2: GridView, x: int, y: int)
    requires
        forall|xx: int, yy: int| mine_at(g1, xx, yy) == mine_at(g2, xx, yy),
    ensures
        adjacent_mines(g2, x, y) == adjacent_mines(g1, x, y),
{
    reveal_with_fuel(adj_mines_upto, 9);
}

// ------------------------------------------------------------------
// What a reveal may change
// ------------------------------------------------------------------

/// The second grid is the first with some hidden safe cells flipped to
/// visible: shape, mine placement and carried counts are untouched.
pub open spec fn reveal_mono(a: GridView, b: GridView) -> bool {
    &&& b.len() == a.len()
    &&& forall|y: int| 0 <= y < a.len() ==> (#[trigger] b[y]).len() == a[y].len()
    &&& forall|x: int, y: int|
        in_grid(a, x, y) ==> (#[trigger] tile_at(b, x, y)) == tile_at(a, x, y) || (tile_at(
            a,
            x,
            y,
        ) is Hidden && tile_at(b, x, y) == Tile::Visible(tile_at(a, x, y)->Hidden_0))
}

/// The cell was concealed before the reveal and is exposed after it.
pub open spec fn newly_revealed(a: GridView, b: GridView, x: int, y: int) -> bool {
    &&& in_grid(a, x, y)
    &&& tile_at(a, x, y) is Hidden
    &&& tile_at(b, x, y) is Visible
}

// ------------------------------------------------------------------
// Flood-fill reachability
// ------------------------------------------------------------------

/// True when (x2, y2) is one of the 4 orthogonal neighbors of (x1, y1).
pub open spec fn orth_adjacent(x1: int, y1: int, x2: int, y2: int) -> bool {
    ||| (x2 == x1 && (y2 == y1 - 1 || y2 == y1 + 1))
    ||| (y2 == y1 && (x2 == x1 - 1 || x2 == x1 + 1))
}

/// A path the flood fill can follow over the grid as it stood when the
/// reveal began.  Every cell on it is still hidden; consecutive cells are
/// orthogonal neighbors; interior cells must carry count 0 (a non-zero cell
/// is revealed but stops the flood); and a path may leave the entry cell
/// only when the entry carries count 0 or the entry rule (`init`) applies.
pub open spec fn flood_path(
    a: GridView,
    ex: int,
    ey: int,
    init: bool,
    p: Seq<(int, int)>,
) -> bool {
    &&& p.len() >= 1
    &&& p[0] == (ex, ey)
    &&& forall|i: int|
        0 <= i < p.len() ==> in_grid(a, (#[trigger] p[i]).0, p[i].1) && tile_at(
            a,
            p[i].0,
            p[i].1,
        ) is Hidden
    &&& forall|i: int|
        0 <= i < p.len() - 1 ==> orth_adjacent((#[trigger] p[i]).0, p[i].1, p[i + 1].0, p[i + 1].1)
    &&& forall|i: int|
        1 <= i < p.len() - 1 ==> tile_count(tile_at(a, (#[trigger] p[i]).0, p[i].1)) == 0
    &&& p.len() > 1 ==> (init || tile_count(tile_at(a, ex, ey)) == 0)
}

/// The flood fill started at (ex, ey) reaches (x, y).
pub open spec fn flood_reaches(
    a: GridView,
    ex: int,
    ey: int,
    init: bool,
    x: int,
    y: int,
) -> bool {
    exists|p: Seq<(int, int)>| flood_path(a, ex, ey, init, p) && p.last() == (x, y)
}

/// The entry cell reaches itself, as long as it is still hidden.
pub proof fn lemma_reach_entry(a: GridView, ex: int, ey: int, init: bool)
    requires
        in_grid(a, ex, ey),
        tile_at(a, ex, ey) is Hidden,
    ensures
        flood_reaches(a, ex, ey, init, ex, ey),
{
    let p: Seq<(int, int)> = seq![(ex, ey)];
    assert(flood_path(a, ex, ey, init, p));
    assert(p.last() == (ex, ey));
}

/// A reached, still-hidden cell that propagates (zero count, or the entry
/// cell under the entry rule) extends the flood to each hidden orthogonal
/// neighbor.
pub proof fn lemma_reach_extend(
    a: GridView,
    ex: int,
    ey: int,
    init: bool,
    qx: int,
    qy: int,
    nx: int,
    ny: int,
)
    requires
        flood_reaches(a, ex, ey, init, qx, qy),
        tile_count(tile_at(a, qx, qy)) == 0 || (qx == ex && qy == ey && (init || tile_count(
            tile_at(a, ex, ey),
        ) == 0)),
        orth_adjacent(qx, qy, nx, ny),
        in_grid(a, nx, ny),
        tile_at(a, nx, ny) is Hidden,
    ensures
        flood_reaches(a, ex, ey, init, nx, ny),
{
    if qx == ex && qy == ey {
        let p0 = choose|p: Seq<(int, int)>|
            flood_path(a, ex, ey, init, p) && p.last() == (qx, qy);
        let p: Seq<(int, int)> = seq![(ex, ey), (nx, ny)];
        assert(flood_path(a, ex, ey, init, p));
        assert(p.last() == (nx, ny));
    } else {
        let p0 = choose|p: Seq<(int, int)>|
            flood_path(a, ex, ey, init, p) && p.last() == (qx, qy);
        let p = p0.push((nx, ny));
        assert(p0.len() >= 2);
        assert forall|i: int| 0 <= i < p.len() implies in_grid(a, (#[trigger] p[i]).0, p[i].1)
            && tile_at(a, p[i].0, p[i].1) is Hidden by {
            if i < p0.len() {
                assert(p[i] == p0[i]);
            }
        }
        assert forall|i: int| 0 <= i < p.len() - 1 implies orth_adjacent(
            (#[trigger] p[i]).0,
            p[i].1,
            p[i + 1].0,
            p[i + 1].1,
        ) by {
            if i < p0.len() - 1 {
                assert(p[i] == p0[i] && p[i + 1] == p0[i + 1]);
            } else {
                assert(p[i] == p0.last() && p[i + 1] == (nx, ny));
            }
        }
        assert forall|i: int| 1 <= i < p.len() - 1 implies tile_count(
            tile_at(a, (#[trigger] p[i]).0, p[i].1),
        ) == 0 by {
            if i < p0.len() - 1 {
                assert(p[i] == p0[i]);
            } else {
                assert(p[i] == p0.last());
            }
        }
        assert(flood_path(a, ex, ey, init, p));
        assert(p.last() == (nx, ny));
    }
}

/// Once the flood has finished its work — the entry cell is exposed and
/// every newly exposed propagating cell has no hidden orthogonal neighbor
/// left — every reachable cell is exposed.
pub proof fn lemma_path_all_revealed(
    a: GridView,
    g: GridView,
    ex: int,
    ey: int,
    init: bool,
    p: Seq<(int, int)>,
)
    requires
        reveal_mono(a, g),
        in_grid(a, ex, ey),
        tile_at(a, ex, ey) is Hidden,
        tile_at(g, ex, ey) is Visible,
        forall|x: int, y: int|
            newly_revealed(a, g, x, y) && (tile_count(tile_at(a, x, y)) == 0 || (x == ex && y == ey
                && init)) ==> forall|nx: int, ny: int|
                orth_adjacent(x, y, nx, ny) && in_grid(a, nx, ny) ==> !(tile_at(
                    g,
                    nx,
                    ny,
                ) is Hidden),
        flood_path(a, ex, ey, init, p),
    ensures
        tile_at(g, p.last().0, p.last().1) is Visible,
    decreases p.len(),
{
    if p.len() == 1 {
        assert(p.last() == (ex, ey));
    } else {
        let p0 = p.drop_last();
        assert forall|i: int| 0 <= i < p0.len() implies in_grid(a, (#[trigger] p0[i]).0, p0[i].1)
            && tile_at(a, p0[i].0, p0[i].1) is Hidden by {
            assert(p0[i] == p[i]);
        }
        assert forall|i: int| 0 <= i < p0.len() - 1 implies orth_adjacent(
            (#[trigger] p0[i]).0,
            p0[i].1,
            p0[i + 1].0,
            p0[i + 1].1,
        ) by {
            assert(p0[i] == p[i] && p0[i + 1] == p[i + 1]);
        }
        assert forall|i: int| 1 <= i < p0.len() - 1 implies tile_count(
            tile_at(a, (#[trigger] p0[i]).0, p0[i].1),
        ) == 0 by {
            assert(p0[i] == p[i]);
        }
        assert(flood_path(a, ex, ey, init, p0));
        lemma_path_all_revealed(a, g, ex, ey, init, p0);
        let q = p0.last();
        let c = p.last();
        assert(q == p[p.len() - 2] && c == p[p.len() - 1]);
        assert(orth_adjacent(q.0, q.1, c.0, c.1));
        assert(tile_at(g, q.0, q.1) is Visible);
        assert(tile_at(a, q.0, q.1) is Hidden);
        assert(newly_revealed(a, g, q.0, q.1));
        if p.len() == 2 {
            assert(q == (ex, ey));
            assert(init || tile_count(tile_at(a, ex, ey)) == 0);
        } else {
            assert(tile_count(tile_at(a, q.0, q.1)) == 0);
        }
        assert(!(tile_at(g, c.0, c.1) is Hidden));
        assert(tile_at(a, c.0, c.1) is Hidden);
        assert(tile_at(g, c.0, c.1) == tile_at(a, c.0, c.1) || tile_at(g, c.0, c.1)
            == Tile::Visible(tile_at(a, c.0, c.1)->Hidden_0));
    }
}

} // verus!
