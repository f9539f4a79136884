use vstd::prelude::*;

verus! {

use crate::board::GameError;
use crate::grid::{
    GridView, adj8, adjacent_mines, bump_tile, flood_path, flood_reaches, grid_of, grid_wf,
    hidden_count, in_grid, is_hidden_pred, is_mine_pred, is_visible_pred, lemma_adj8_dirs,
    lemma_adjacent_mines_bound, lemma_adjacent_mines_no_mines, lemma_adjacent_mines_one_change,
    lemma_adjacent_mines_same_mines, lemma_grid_count_le, lemma_grid_count_one_cell_change,
    lemma_grid_count_disjoint, lemma_grid_count_pos, lemma_grid_count_same_pred, lemma_grid_count_zero, lemma_path_all_revealed, lemma_reach_entry,
    lemma_reach_extend, mine_at, mine_count, newly_revealed, orth_adjacent, reveal_mono, tile_at,
    tile_count, visible_count,
};
use crate::tile::Tile;
use vstd::arithmetic::div_mod::{lemma_fundamental_div_mod, lemma_fundamental_div_mod_converse};

/// A game grid: a rectangle of tiles, stored as rows.
#[derive(Debug)]
pub struct GameBoard(pub Vec<Vec<Tile>>);

impl View for GameBoard {
    type V = GridView;

    open spec fn view(&self) -> GridView {
        grid_of(self.0@)
    }
}

/// A generation request the core accepts: positive dimensions, a cell count
/// the score counter can hold, and fewer mines than cells.
pub open spec fn valid_config(level: int, x_size: int, y_size: int) -> bool {
    &&& 1 <= x_size
    &&& 1 <= y_size
    &&& x_size * y_size <= u32::MAX as int
    &&& level < x_size * y_size
}

impl GameBoard {
    /// Writes one tile, leaving the rest of the grid unchanged.
    fn set_tile(&mut self, x: usize, y: usize, t: Tile)
        requires
            in_grid(old(self)@, x as int, y as int),
        ensures
            final(self)@.len() == old(self)@.len(),
            forall|yy: int|
                0 <= yy < old(self)@.len() ==> (#[trigger] final(self)@[yy]).len()
                    == old(self)@[yy].len(),
            forall|cx: int, cy: int|
                in_grid(old(self)@, cx, cy) ==> tile_at(final(self)@, cx, cy) == (if cx == x && cy
                    == y {
                    t
                } else {
                    tile_at(old(self)@, cx, cy)
                }),
    {
        self.0[y][x] = t;
    }

    fn get_tile(&self, x_cord: usize, y_cord: usize) -> (t: &Tile)
        requires
            in_grid(self@, x_cord as int, y_cord as int),
        ensures
            *t == tile_at(self@, x_cord as int, y_cord as int),
    {
        &self.0[y_cord][x_cord]
    }

    /// Raises the carried count of one safe cell by one; a mine is left as
    /// it is.
    fn bump(&mut self, x: usize, y: usize)
        requires
            in_grid(old(self)@, x as int, y as int),
            !(tile_at(old(self)@, x as int, y as int) is Mine) ==> tile_count(
                tile_at(old(self)@, x as int, y as int),
            ) < 255,
        ensures
            final(self)@.len() == old(self)@.len(),
            forall|yy: int|
                0 <= yy < old(self)@.len() ==> (#[trigger] final(self)@[yy]).len()
                    == old(self)@[yy].len(),
            forall|cx: int, cy: int|
                in_grid(old(self)@, cx, cy) ==> tile_at(final(self)@, cx, cy) == (if cx == x && cy
                    == y && !(tile_at(old(self)@, cx, cy) is Mine) {
                    bump_tile(tile_at(old(self)@, cx, cy))
                } else {
                    tile_at(old(self)@, cx, cy)
                }),
    {
        let t = *self.get_tile(x, y);
        match t {
            Tile::Mine => {},
            Tile::Hidden(val) => self.set_tile(x, y, Tile::Hidden(val + 1)),
            Tile::Visible(val) => self.set_tile(x, y, Tile::Visible(val + 1)),
        }
    }

    /// After a mine lands at (x, y), raises the stored count of each of its
    /// up-to-8 in-bounds neighbors that is not itself a mine.
    fn set_neighbor(&mut self, y: usize, x: usize)
        requires
            grid_wf(old(self)@),
            in_grid(old(self)@, x as int, y as int),
            forall|cx: int, cy: int|
                in_grid(old(self)@, cx, cy) && adj8(x as int, y as int, cx, cy) && !(tile_at(
                    old(self)@,
                    cx,
                    cy,
                ) is Mine) ==> tile_count(tile_at(old(self)@, cx, cy)) < 255,
        ensures
            final(self)@.len() == old(self)@.len(),
            forall|yy: int|
                0 <= yy < old(self)@.len() ==> (#[trigger] final(self)@[yy]).len()
                    == old(self)@[yy].len(),
            forall|cx: int, cy: int|
                in_grid(old(self)@, cx, cy) ==> tile_at(final(self)@, cx, cy) == (if adj8(
                    x as int,
                    y as int,
                    cx,
                    cy,
                ) && !(tile_at(old(self)@, cx, cy) is Mine) {
                    bump_tile(tile_at(old(self)@, cx, cy))
                } else {
                    tile_at(old(self)@, cx, cy)
                }),
    {
        let ghost a = self@;
        let xu = x;
        let yu = y;
        let height = self.0.len();
        let width = self.0[yu].len();
        let mut k: usize = 0;
        while k < 8
            invariant
                0 <= k <= 8,
                grid_wf(a),
                in_grid(a, xu as int, yu as int),
                xu == x as int && yu == y as int,
                height == a.len(),
                width == a[yu as int].len(),
                forall|cx: int, cy: int|
                    in_grid(a, cx, cy) && adj8(xu as int, yu as int, cx, cy) && !(tile_at(
                        a,
                        cx,
                        cy,
                    ) is Mine) ==> tile_count(tile_at(a, cx, cy)) < 255,
                self@.len() == a.len(),
                forall|yy: int|
                    0 <= yy < a.len() ==> (#[trigger] self@[yy]).len() == a[yy].len(),
                forall|cx: int, cy: int|
                    in_grid(a, cx, cy) ==> tile_at(self@, cx, cy) == (if (exists|j: int|
                        0 <= j < k && cx == xu + (#[trigger] crate::grid::dir8(j)).1 && cy == yu
                            + crate::grid::dir8(j).0) && !(tile_at(a, cx, cy) is Mine) {
                        bump_tile(tile_at(a, cx, cy))
                    } else {
                        tile_at(a, cx, cy)
                    }),
            decreases 8 - k,
        {
            let (dy, dx) = dir_step(k);
            let ghost prev = self@;
            // The neighbor position, if it lies inside the grid.
            let in_row = (dy >= 0 || yu > 0) && (dy <= 0 || yu + 1 < height);
            let in_col = (dx >= 0 || xu > 0) && (dx <= 0 || xu + 1 < width);
            if in_row && in_col {
                let ny = if dy < 0 { yu - 1 } else if dy > 0 { yu + 1 } else { yu };
                let nx = if dx < 0 { xu - 1 } else if dx > 0 { xu + 1 } else { xu };
                assert(ny as int == yu + crate::grid::dir8(k as int).0);
                assert(nx as int == xu + crate::grid::dir8(k as int).1);
                assert(in_grid(a, nx as int, ny as int));
                proof {
                    // This offset's cell was not touched by earlier offsets.
                    assert forall|j: int| 0 <= j < k implies !(nx as int == xu
                        + (#[trigger] crate::grid::dir8(j)).1 && ny as int == yu
                        + crate::grid::dir8(j).0) by {
                        assert(crate::grid::dir8(j) != crate::grid::dir8(k as int));
                    }
                    assert(tile_at(prev, nx as int, ny as int) == tile_at(a, nx as int, ny as int));
                }
                self.bump(nx, ny);
                proof {
                    assert forall|cx: int, cy: int| in_grid(a, cx, cy) implies tile_at(
                        self@,
                        cx,
                        cy,
                    ) == (if (exists|j: int|
                        0 <= j < k + 1 && cx == xu + (#[trigger] crate::grid::dir8(j)).1 && cy == yu
                            + crate::grid::dir8(j).0) && !(tile_at(a, cx, cy) is Mine) {
                        bump_tile(tile_at(a, cx, cy))
                    } else {
                        tile_at(a, cx, cy)
                    }) by {
                        if cx == nx as int && cy == ny as int {
                            assert(cx == xu + (crate::grid::dir8(k as int)).1 && cy == yu
                                + crate::grid::dir8(k as int).0);
                        } else {
                            assert(tile_at(self@, cx, cy) == tile_at(prev, cx, cy));
                            assert forall|j: int|
                                0 <= j < k + 1 && cx == xu + (#[trigger] crate::grid::dir8(j)).1
                                    && cy == yu + crate::grid::dir8(j).0 implies j < k by {
                                if j == k {
                                    assert(cx == nx as int && cy == ny as int);
                                }
                            }
                        }
                    }
                }
            } else {
                proof {
                    assert forall|cx: int, cy: int|
                        in_grid(a, cx, cy) && cx == xu + (crate::grid::dir8(k as int)).1 && cy == yu
                            + crate::grid::dir8(k as int).0 implies false by {}
                    assert forall|cx: int, cy: int| in_grid(a, cx, cy) implies ((exists|j: int|
                        0 <= j < k + 1 && cx == xu + (#[trigger] crate::grid::dir8(j)).1 && cy == yu
                            + crate::grid::dir8(j).0) <==> (exists|j: int|
                        0 <= j < k && cx == xu + (#[trigger] crate::grid::dir8(j)).1 && cy == yu
                            + crate::grid::dir8(j).0)) by {
                        if exists|j: int|
                            0 <= j < k + 1 && cx == xu + (#[trigger] crate::grid::dir8(j)).1 && cy
                                == yu + crate::grid::dir8(j).0 {
                            let j = choose|j: int|
                                0 <= j < k + 1 && cx == xu + (#[trigger] crate::grid::dir8(j)).1
                                    && cy == yu + crate::grid::dir8(j).0;
                            assert(j != k);
                        }
                    }
                }
            }
            k = k + 1;
        }
        proof {
            assert forall|cx: int, cy: int| in_grid(a, cx, cy) implies ((exists|j: int|
                0 <= j < 8 && cx == xu + (#[trigger] crate::grid::dir8(j)).1 && cy == yu
                    + crate::grid::dir8(j).0) <==> adj8(xu as int, yu as int, cx, cy)) by {
                lemma_adj8_dirs(xu as int, yu as int, cx, cy);
            }
        }
    }
}

/// Draws an index below `n`.  Relies on rand's `thread_rng` and
/// `Rng::gen_range`: on a non-empty range it returns a value inside the
/// range, and it panics only on an empty one, which `1 <= n` rules out.
#[verifier::external_body]
fn rand_below(n: usize) -> (r: usize)
    requires
        1 <= n,
    ensures
        r < n,
{
    rand::Rng::gen_range(&mut rand::thread_rng(), 0..n)
}

/// Every coordinate of an `n`-row, `m`-column grid, as (row, column) pairs
/// in row-major order.
fn all_coords(n: usize, m: usize) -> (v: Vec<(usize, usize)>)
    requires
        1 <= n,
        1 <= m,
        (n as int) * (m as int) <= u32::MAX as int,
    ensures
        v@.len() == (n as int) * (m as int),
        forall|k: int|
            0 <= k < v@.len() ==> (#[trigger] v@[k]).0 < n && v@[k].1 < m,
        forall|k1: int, k2: int|
            0 <= k1 < k2 < v@.len() ==> !((#[trigger] v@[k1]).0 == (#[trigger] v@[k2]).0
                && v@[k1].1 == v@[k2].1),
{
    let mut v: Vec<(usize, usize)> = Vec::new();
    let mut r: usize = 0;
    while r < n
        invariant
            0 <= r <= n,
            1 <= m,
            (n as int) * (m as int) <= u32::MAX as int,
            v@.len() == (r as int) * (m as int),
            forall|k: int|
                0 <= k < v@.len() ==> (#[trigger] v@[k]).0 as int == k / (m as int) && v@[k].1
                    as int == k % (m as int) && v@[k].0 < n && v@[k].1 < m,
        decreases n - r,
    {
        let mut c: usize = 0;
        while c < m
            invariant
                0 <= c <= m,
                0 <= r < n,
                (n as int) * (m as int) <= u32::MAX as int,
                v@.len() == (r as int) * (m as int) + (c as int),
                forall|k: int|
                    0 <= k < v@.len() ==> (#[trigger] v@[k]).0 as int == k / (m as int) && v@[k].1
                        as int == k % (m as int) && v@[k].0 < n && v@[k].1 < m,
            decreases m - c,
        {
            proof {
                assert((r as int) * (m as int) + (c as int) < (n as int) * (m as int))
                    by (nonlinear_arith)
                    requires
                        0 <= (r as int) < (n as int),
                        0 <= (c as int) < (m as int),
                ;
                lemma_fundamental_div_mod_converse(
                    (r as int) * (m as int) + (c as int),
                    m as int,
                    r as int,
                    c as int,
                );
            }
            v.push((r, c));
            c = c + 1;
        }
        proof {
            assert(((r as int) + 1) * (m as int) == (r as int) * (m as int) + (m as int))
                by (nonlinear_arith);
        }
        r = r + 1;
    }
    proof {
        assert forall|k1: int, k2: int| 0 <= k1 < k2 < v@.len() implies !((#[trigger] v@[k1]).0
            == (#[trigger] v@[k2]).0 && v@[k1].1 == v@[k2].1) by {
            lemma_fundamental_div_mod(k1, m as int);
            lemma_fundamental_div_mod(k2, m as int);
        }
    }
    v
}

/// Draws `number` distinct (row, column) coordinates over an `n`-row,
/// `m`-column grid, by a partial shuffle of the full coordinate list.
fn gen_mine_coords(number: usize, n: usize, m: usize) -> (r: Vec<(usize, usize)>)
    requires
        1 <= n,
        1 <= m,
        (n as int) * (m as int) <= u32::MAX as int,
        number as int <= (n as int) * (m as int),
    ensures
        r@.len() == number,
        forall|k: int|
            0 <= k < r@.len() ==> (#[trigger] r@[k]).0 < n && r@[k].1 < m,
        forall|k1: int, k2: int|
            0 <= k1 < k2 < r@.len() ==> !((#[trigger] r@[k1]).0 == (#[trigger] r@[k2]).0
                && r@[k1].1 == r@[k2].1),
{
    let mut coords = all_coords(n, m);
    let total = coords.len();
    let mut i: usize = 0;
    while i < number
        invariant
            0 <= i <= number,
            number <= total,
            coords@.len() == total,
            forall|k: int|
                0 <= k < coords@.len() ==> (#[trigger] coords@[k]).0 < n && coords@[k].1 < m,
            forall|k1: int, k2: int|
                0 <= k1 < k2 < coords@.len() ==> !((#[trigger] coords@[k1]).0
                    == (#[trigger] coords@[k2]).0 && coords@[k1].1 == coords@[k2].1),
        decreases number - i,
    {
        let d = rand_below(total - i);
        let j = i + d;
        let ghost prev = coords@;
        let a = coords[i];
        let b = coords[j];
        coords[i] = b;
        coords[j] = a;
        proof {
            assert forall|k: int| 0 <= k < coords@.len() implies coords@[k] == prev[swap_index(
                i as int,
                j as int,
                k,
            )] by {}
            assert forall|k1: int, k2: int| 0 <= k1 < k2 < coords@.len() implies !((
            #[trigger] coords@[k1]).0 == (#[trigger] coords@[k2]).0 && coords@[k1].1
                == coords@[k2].1) by {
                let s1 = swap_index(i as int, j as int, k1);
                let s2 = swap_index(i as int, j as int, k2);
                assert(s1 != s2);
                assert(coords@[k1] == prev[s1] && coords@[k2] == prev[s2]);
            }
        }
        i = i + 1;
    }
    coords.truncate(number);
    coords
}

/// A fresh grid of the given size, every cell concealed with count 0.
pub(crate) fn blank_rows(x_size: usize, y_size: usize) -> (v: Vec<Vec<Tile>>)
    requires
        1 <= x_size,
        1 <= y_size,
    ensures
        grid_of(v@).len() == y_size as int,
        forall|yy: int|
            0 <= yy < grid_of(v@).len() ==> (#[trigger] grid_of(v@)[yy]).len() == x_size as int,
        forall|cx: int, cy: int|
            in_grid(grid_of(v@), cx, cy) ==> tile_at(grid_of(v@), cx, cy) == Tile::Hidden(0u8),
{
    let mut v: Vec<Vec<Tile>> = Vec::new();
    let mut y: usize = 0;
    while y < y_size
        invariant
            0 <= y <= y_size,
            v@.len() == y,
            forall|yy: int| 0 <= yy < y ==> (#[trigger] v@[yy])@.len() == x_size as int,
            forall|yy: int, xx: int|
                0 <= yy < y && 0 <= xx < x_size ==> #[trigger] (v@[yy])@[xx] == Tile::Hidden(0u8),
        decreases y_size - y,
    {
        let mut row: Vec<Tile> = Vec::new();
        let mut x: usize = 0;
        while x < x_size
            invariant
                0 <= x <= x_size,
                row@.len() == x,
                forall|xx: int| 0 <= xx < x ==> (#[trigger] row@[xx]) == Tile::Hidden(0u8),
            decreases x_size - x,
        {
            row.push(Tile::Hidden(0));
            x = x + 1;
        }
        v.push(row);
        y = y + 1;
    }
    v
}

impl GameBoard {
    /// Builds a playing grid: a blank board of the requested size, `level`
    /// mines at distinct random coordinates, and, when `set_proxy` is set,
    /// every safe cell carrying the true count of its adjacent mines.
    #[verifier::rlimit(60)]
    pub fn new(level: usize, x_size: usize, y_size: usize, set_proxy: bool) -> (r: Result<
        GameBoard,
        GameError,
    >)
        ensures
            r is Ok <==> valid_config(level as int, x_size as int, y_size as int),
            r is Err ==> r->Err_0 == GameError::InvalidConfiguration,
            r is Ok ==> ({
                let b = r->Ok_0;
                &&& grid_wf(b@)
                &&& b@.len() == y_size as int
                &&& forall|yy: int|
                    0 <= yy < b@.len() ==> (#[trigger] b@[yy]).len() == x_size as int
                &&& mine_count(b@) == level as int
                &&& forall|cx: int, cy: int|
                    in_grid(b@, cx, cy) && !(tile_at(b@, cx, cy) is Mine) ==> tile_at(b@, cx, cy)
                        == Tile::Hidden(
                        (if set_proxy {
                            adjacent_mines(b@, cx, cy)
                        } else {
                            0int
                        }) as u8,
                    )
            }),
    {
        if x_size == 0 || y_size == 0 {
            return Err(GameError::InvalidConfiguration);
        }
        let prod = match x_size.checked_mul(y_size) {
            Some(p) => p,
            None => {
                proof {
                    assert((x_size as int) * (y_size as int) > u32::MAX as int);
                }
                return Err(GameError::InvalidConfiguration);
            },
        };
        if prod > u32::MAX as usize {
            return Err(GameError::InvalidConfiguration);
        }
        if level >= prod {
            return Err(GameError::InvalidConfiguration);
        }
        let mut board = GameBoard(blank_rows(x_size, y_size));
        proof {
            assert(prod as int == (x_size as int) * (y_size as int));
            assert(board@.len() == y_size as int);
            assert(board@[0].len() == x_size as int);
            assert((y_size as int) * (x_size as int) <= u32::MAX as int) by (nonlinear_arith)
                requires
                    (x_size as int) * (y_size as int) <= u32::MAX as int,
            ;
            assert(grid_wf(board@));
            assert forall|cx: int, cy: int| !mine_at(board@, cx, cy) by {}
            lemma_grid_count_zero(board@, is_mine_pred());
            assert forall|cx: int, cy: int|
                in_grid(board@, cx, cy) && !(tile_at(board@, cx, cy) is Mine) implies tile_at(
                board@,
                cx,
                cy,
            ) == Tile::Hidden(
                (if set_proxy {
                    adjacent_mines(board@, cx, cy)
                } else {
                    0int
                }) as u8,
            ) by {
                lemma_adjacent_mines_no_mines(board@, cx, cy);
            }
        }
        proof {
            assert((y_size as int) * (x_size as int) == (x_size as int) * (y_size as int))
                by (nonlinear_arith);
        }
        let coords = gen_mine_coords(level, y_size, x_size);
        let ghost ms = coords@;
        let mut idx: usize = 0;
        while idx < coords.len()
            invariant
                coords@ == ms,
                ms.len() == level,
                x_size >= 1 && y_size >= 1,
                forall|k: int|
                    0 <= k < ms.len() ==> (#[trigger] ms[k]).0 < y_size && ms[k].1 < x_size,
                forall|k1: int, k2: int|
                    0 <= k1 < k2 < ms.len() ==> !((#[trigger] ms[k1]).0 == (#[trigger] ms[k2]).0
                        && ms[k1].1 == ms[k2].1),
                0 <= idx <= level,
                grid_wf(board@),
                board@.len() == y_size as int,
                forall|yy: int|
                    0 <= yy < board@.len() ==> (#[trigger] board@[yy]).len() == x_size as int,
                mine_count(board@) == idx as int,
                forall|cx: int, cy: int|
                    in_grid(board@, cx, cy) ==> ((tile_at(board@, cx, cy) is Mine) <==> exists|
                        j: int,
                    |
                        0 <= j < idx && (#[trigger] ms[j]).0 == cy && ms[j].1 == cx),
                forall|cx: int, cy: int|
                    in_grid(board@, cx, cy) && !(tile_at(board@, cx, cy) is Mine) ==> tile_at(
                        board@,
                        cx,
                        cy,
                    ) == Tile::Hidden(
                        (if set_proxy {
                            adjacent_mines(board@, cx, cy)
                        } else {
                            0int
                        }) as u8,
                    ),
            decreases coords@.len() - idx,
        {
            let c = coords[idx];
            let row = c.0;
            let col = c.1;
            let ghost g = board@;
            proof {
                assert(ms[idx as int].0 == row && ms[idx as int].1 == col);
                assert(ms[idx as int].0 < y_size && ms[idx as int].1 < x_size);
                assert(g[row as int].len() == x_size as int);
                assert(in_grid(g, col as int, row as int));
                // The drawn coordinates are distinct, so this cell is still safe.
                if tile_at(g, col as int, row as int) is Mine {
                    let j = choose|j: int|
                        0 <= j < idx && (#[trigger] ms[j]).0 == row as int && ms[j].1 == col as int;
                    assert(!(ms[j].0 == ms[idx as int].0 && ms[j].1 == ms[idx as int].1));
                    assert(false);
                }
            }
            board.set_tile(col, row, Tile::Mine);
            let ghost g1 = board@;
            proof {
                lemma_grid_count_one_cell_change(g, g1, is_mine_pred(), col as int, row as int);
                assert forall|cx: int, cy: int|
                    in_grid(g1, cx, cy) && adj8(col as int, row as int, cx, cy) && !(tile_at(
                        g1,
                        cx,
                        cy,
                    ) is Mine) implies tile_count(tile_at(g1, cx, cy)) < 255 by {
                    assert(tile_at(g1, cx, cy) == tile_at(g, cx, cy));
                    lemma_adjacent_mines_bound(g, cx, cy);
                }
            }
            if set_proxy {
                board.set_neighbor(row, col);
            }
            let ghost g2 = board@;
            proof {
                // How each cell of g2 relates to g1: either the bump from
                // set_neighbor, or no change at all.
                assert forall|cx: int, cy: int| in_grid(g1, cx, cy) implies tile_at(g2, cx, cy)
                    == (if set_proxy && adj8(col as int, row as int, cx, cy) && !(tile_at(
                    g1,
                    cx,
                    cy,
                ) is Mine) {
                    bump_tile(tile_at(g1, cx, cy))
                } else {
                    tile_at(g1, cx, cy)
                }) by {
                    assert(in_grid(g1, cx, cy));
                    if set_proxy {
                        assert(tile_at(g2, cx, cy) == (if adj8(col as int, row as int, cx, cy)
                            && !(tile_at(g1, cx, cy) is Mine) {
                            bump_tile(tile_at(g1, cx, cy))
                        } else {
                            tile_at(g1, cx, cy)
                        }));
                    } else {
                        assert(g2 == g1);
                    }
                }
                assert forall|cx: int, cy: int| mine_at(g2, cx, cy) == mine_at(g1, cx, cy) by {
                    if in_grid(g1, cx, cy) {
                        assert(in_grid(g2, cx, cy));
                        assert(tile_at(g2, cx, cy) is Mine <==> tile_at(g1, cx, cy) is Mine);
                    } else {
                        assert(!in_grid(g2, cx, cy));
                    }
                }
                lemma_grid_count_same_pred(g1, g2, is_mine_pred());
                assert(mine_count(g2) == idx + 1);
                // Mines stand exactly at the coordinates placed so far.
                assert forall|cx: int, cy: int| in_grid(g2, cx, cy) implies ((tile_at(
                    g2,
                    cx,
                    cy,
                ) is Mine) <==> exists|j: int|
                    0 <= j < idx + 1 && (#[trigger] ms[j]).0 == cy && ms[j].1 == cx) by {
                    assert(in_grid(g1, cx, cy));
                    if cx == col as int && cy == row as int {
                        assert(tile_at(g1, cx, cy) == Tile::Mine);
                        assert(tile_at(g2, cx, cy) is Mine);
                        assert(0 <= idx < idx + 1 && ms[idx as int].0 == cy && ms[idx as int].1
                            == cx);
                    } else {
                        assert(in_grid(g, cx, cy));
                        assert(tile_at(g1, cx, cy) == tile_at(g, cx, cy));
                        assert((tile_at(g2, cx, cy) is Mine) == (tile_at(g, cx, cy) is Mine));
                        if tile_at(g, cx, cy) is Mine {
                            let j0 = choose|j: int|
                                0 <= j < idx && (#[trigger] ms[j]).0 == cy && ms[j].1 == cx;
                            assert(0 <= j0 < idx + 1 && ms[j0].0 == cy && ms[j0].1 == cx);
                        }
                        if exists|j: int|
                            0 <= j < idx + 1 && (#[trigger] ms[j]).0 == cy && ms[j].1 == cx {
                            let j = choose|j: int|
                                0 <= j < idx + 1 && (#[trigger] ms[j]).0 == cy && ms[j].1 == cx;
                            assert(j != idx);
                            assert(0 <= j < idx && ms[j].0 == cy && ms[j].1 == cx);
                        }
                    }
                }
                // Every safe cell keeps a count equal to its adjacent mines.
                assert forall|cx: int, cy: int|
                    in_grid(g2, cx, cy) && !(tile_at(g2, cx, cy) is Mine) implies tile_at(
                    g2,
                    cx,
                    cy,
                ) == Tile::Hidden(
                    (if set_proxy {
                        adjacent_mines(g2, cx, cy)
                    } else {
                        0int
                    }) as u8,
                ) by {
                    assert(!(cx == col as int && cy == row as int));
                    assert(tile_at(g1, cx, cy) == tile_at(g, cx, cy));
                    assert(!(tile_at(g, cx, cy) is Mine));
                    if set_proxy {
                        lemma_adjacent_mines_same_mines(g1, g2, cx, cy);
                        lemma_adjacent_mines_one_change(
                            g,
                            g1,
                            col as int,
                            row as int,
                            cx,
                            cy,
                        );
                        lemma_adjacent_mines_bound(g, cx, cy);
                        if adj8(col as int, row as int, cx, cy) {
                            assert(tile_at(g2, cx, cy) == bump_tile(tile_at(g, cx, cy)));
                        } else {
                            assert(tile_at(g2, cx, cy) == tile_at(g, cx, cy));
                        }
                    }
                }
            }
            idx = idx + 1;
        }
        Ok(board)
    }
}

/// True when some entry of the worklist names the cell (cx, cy).
pub open spec fn stack_has(st: Seq<(usize, usize)>, cx: int, cy: int) -> bool {
    exists|i: int| 0 <= i < st.len() && (#[trigger] st[i]).0 == cx && st[i].1 == cy
}

/// The worklist entries all lie on the grid, and every still-hidden one is
/// reachable by the running flood.
pub open spec fn stack_ok(
    st: Seq<(usize, usize)>,
    a: GridView,
    ex: int,
    ey: int,
    init: bool,
) -> bool {
    forall|i: int|
        0 <= i < st.len() ==> in_grid(a, (#[trigger] st[i]).0 as int, st[i].1 as int) && (tile_at(
            a,
            st[i].0 as int,
            st[i].1 as int,
        ) is Hidden ==> flood_reaches(a, ex, ey, init, st[i].0 as int, st[i].1 as int))
}

/// Puts the in-bounds orthogonal neighbors of a propagating cell onto the
/// worklist.
fn push_neighbors(
    st: &mut Vec<(usize, usize)>,
    qx: usize,
    qy: usize,
    height: usize,
    width: usize,
    Ghost(a): Ghost<GridView>,
    Ghost(ex): Ghost<int>,
    Ghost(ey): Ghost<int>,
    Ghost(init): Ghost<bool>,
)
    requires
        grid_wf(a),
        height == a.len(),
        width == a[0].len(),
        in_grid(a, qx as int, qy as int),
        tile_at(a, qx as int, qy as int) is Hidden,
        flood_reaches(a, ex, ey, init, qx as int, qy as int),
        tile_count(tile_at(a, qx as int, qy as int)) == 0 || (qx as int == ex && qy as int == ey
            && (init || tile_count(tile_at(a, ex, ey)) == 0)),
        stack_ok(old(st)@, a, ex, ey, init),
    ensures
        stack_ok(final(st)@, a, ex, ey, init),
        forall|nx: int, ny: int|
            orth_adjacent(qx as int, qy as int, nx, ny) && in_grid(a, nx, ny) ==> stack_has(
                final(st)@,
                nx,
                ny,
            ),
        forall|cx: int, cy: int| stack_has(old(st)@, cx, cy) ==> stack_has(final(st)@, cx, cy),
{
    let ghost st0 = st@;
    proof {
        assert forall|nx: int, ny: int|
            orth_adjacent(qx as int, qy as int, nx, ny) && in_grid(a, nx, ny) && tile_at(
                a,
                nx,
                ny,
            ) is Hidden implies flood_reaches(a, ex, ey, init, nx, ny) by {
            lemma_reach_extend(a, ex, ey, init, qx as int, qy as int, nx, ny);
        }
    }
    if qy > 0 {
        st.push((qx, qy - 1));
    }
    let ghost len1 = st@.len() as int;
    if qy + 1 < height {
        st.push((qx, qy + 1));
    }
    let ghost len2 = st@.len() as int;
    if qx + 1 < width {
        st.push((qx + 1, qy));
    }
    let ghost len3 = st@.len() as int;
    if qx > 0 {
        st.push((qx - 1, qy));
    }
    proof {
        assert forall|i: int|
            0 <= i < st@.len() implies in_grid(a, (#[trigger] st@[i]).0 as int, st@[i].1 as int)
            && (tile_at(a, st@[i].0 as int, st@[i].1 as int) is Hidden ==> flood_reaches(
            a,
            ex,
            ey,
            init,
            st@[i].0 as int,
            st@[i].1 as int,
        )) by {
            if i < st0.len() {
                assert(st@[i] == st0[i]);
                assert(in_grid(a, (st0[i]).0 as int, st0[i].1 as int) && (tile_at(
                    a,
                    st0[i].0 as int,
                    st0[i].1 as int,
                ) is Hidden ==> flood_reaches(a, ex, ey, init, st0[i].0 as int, st0[i].1 as int)));
            } else {
                assert(orth_adjacent(qx as int, qy as int, st@[i].0 as int, st@[i].1 as int));
                assert(a[st@[i].1 as int].len() == width);
                assert(in_grid(a, st@[i].0 as int, st@[i].1 as int));
            }
        }
        assert forall|cx: int, cy: int| stack_has(st0, cx, cy) implies stack_has(st@, cx, cy) by {
            let i = choose|i: int|
                0 <= i < st0.len() && (#[trigger] st0[i]).0 == cx && st0[i].1 == cy;
            assert(st@[i] == st0[i]);
            assert(st@[i].0 == cx && st@[i].1 == cy);
        }
        assert forall|nx: int, ny: int|
            orth_adjacent(qx as int, qy as int, nx, ny) && in_grid(a, nx, ny) implies stack_has(
            st@,
            nx,
            ny,
        ) by {
            assert(a[ny].len() == width);
            if ny == qy as int - 1 && nx == qx as int {
                assert(st@[len1 - 1].0 == qx as int && st@[len1 - 1].1 == qy as int - 1);
            } else if ny == qy as int + 1 && nx == qx as int {
                assert(st@[len2 - 1].0 == qx as int && st@[len2 - 1].1 == qy as int + 1);
            } else if nx == qx as int + 1 && ny == qy as int {
                assert(st@[len3 - 1].0 == qx as int + 1 && st@[len3 - 1].1 == qy as int);
            } else {
                assert(nx == qx as int - 1 && ny == qy as int);
                assert(st@[st@.len() - 1].0 == qx as int - 1 && st@[st@.len() - 1].1 == qy as int);
            }
        }
    }
}

/// Where the element at `k` of a list stands after the elements at `i` and

/// Where the element at `k` of a list stands after the elements at `i` and
/// `j` trade places.
pub open spec fn swap_index(i: int, j: int, k: int) -> int {
    if k == i {
        j
    } else if k == j {
        i
    } else {
        k
    }
}

/// The (row delta, column delta) of the k-th neighbor offset.
fn dir_step(k: usize) -> (d: (isize, isize))
    requires
        k < 8,
    ensures
        d.0 as int == crate::grid::dir8(k as int).0,
        d.1 as int == crate::grid::dir8(k as int).1,
{
    match k {
        0 => (-1, 0),
        1 => (-1, 1),
        2 => (0, 1),
        3 => (1, 1),
        4 => (1, 0),
        5 => (1, -1),
        6 => (0, -1),
        _ => (-1, -1),
    }
}


impl GameBoard {
    /// Flips one hidden cell to visible, leaving every other cell unchanged.
    fn reveal_at(&mut self, x: usize, y: usize)
        requires
            in_grid(old(self)@, x as int, y as int),
            tile_at(old(self)@, x as int, y as int) is Hidden,
        ensures
            final(self)@.len() == old(self)@.len(),
            forall|yy: int|
                0 <= yy < old(self)@.len() ==> (#[trigger] final(self)@[yy]).len()
                    == old(self)@[yy].len(),
            forall|cx: int, cy: int|
                in_grid(old(self)@, cx, cy) ==> tile_at(final(self)@, cx, cy) == (if cx == x && cy
                    == y {
                    Tile::Visible(tile_at(old(self)@, cx, cy)->Hidden_0)
                } else {
                    tile_at(old(self)@, cx, cy)
                }),
    {
        let v = self.get_tile(x, y).unwrap();
        self.set_tile(x, y, Tile::Visible(v));
    }

    /// Reveals the entry cell and floods outward through zero-count cells,
    /// 4-directionally: a non-zero cell discovered by the flood is revealed
    /// but stops it, while the entry cell propagates whenever it carries
    /// count 0 or the entry rule (`is_init`) applies.  Exposes exactly the
    /// cells the flood reaches and returns how many were newly exposed.
    #[verifier::rlimit(80)]
    pub fn dfs(&mut self, x: usize, y: usize, is_init: bool) -> (score: u32)
        requires
            grid_wf(old(self)@),
            in_grid(old(self)@, x as int, y as int),
        ensures
            reveal_mono(old(self)@, final(self)@),
            forall|cx: int, cy: int|
                in_grid(old(self)@, cx, cy) ==> (newly_revealed(old(self)@, final(self)@, cx, cy)
                    <==> flood_reaches(old(self)@, x as int, y as int, is_init, cx, cy)),
            score as int == visible_count(final(self)@) - visible_count(old(self)@),
    {
        let ghost a = self@;
        let ghost ex = x as int;
        let ghost ey = y as int;
        let t0 = *self.get_tile(x, y);
        if !t0.dfs_valid() {
            proof {
                assert forall|cx: int, cy: int| in_grid(a, cx, cy) implies !flood_reaches(
                    a,
                    ex,
                    ey,
                    is_init,
                    cx,
                    cy,
                ) by {
                    if flood_reaches(a, ex, ey, is_init, cx, cy) {
                        let p = choose|p: Seq<(int, int)>|
                            flood_path(a, ex, ey, is_init, p) && p.last() == (cx, cy);
                        assert(tile_at(a, p[0].0, p[0].1) is Hidden);
                    }
                }
                assert(reveal_mono(a, a));
                assert(visible_count(self@) == visible_count(a));
            }
            return 0;
        }
        let v0 = t0.unwrap();
        let height = self.0.len();
        let width = self.0[0].len();
        self.reveal_at(x, y);
        let ghost g1 = self@;
        let mut score: u32 = 1;
        proof {
            lemma_grid_count_one_cell_change(a, g1, is_visible_pred(), ex, ey);
            lemma_grid_count_le(a, is_visible_pred(), width as int);
            lemma_grid_count_le(g1, is_visible_pred(), width as int);
            assert(reveal_mono(a, g1));
            assert(newly_revealed(a, g1, ex, ey));
            lemma_reach_entry(a, ex, ey, is_init);
            assert(tile_count(tile_at(a, ex, ey)) == v0 as int);
        }
        if v0 > 0 && !is_init {
            proof {
                assert forall|cx: int, cy: int| in_grid(a, cx, cy) implies (newly_revealed(
                    a,
                    g1,
                    cx,
                    cy,
                ) <==> flood_reaches(a, ex, ey, is_init, cx, cy)) by {
                    if newly_revealed(a, g1, cx, cy) && !(cx == ex && cy == ey) {
                        assert(tile_at(g1, cx, cy) == tile_at(a, cx, cy));
                        assert(false);
                    }
                    if flood_reaches(a, ex, ey, is_init, cx, cy) {
                        let p = choose|p: Seq<(int, int)>|
                            flood_path(a, ex, ey, is_init, p) && p.last() == (cx, cy);
                        if p.len() > 1 {
                            assert(is_init || tile_count(tile_at(a, ex, ey)) == 0);
                            assert(false);
                        }
                        assert(p.last() == p[0]);
                        assert(cx == ex && cy == ey);
                        assert(newly_revealed(a, g1, cx, cy));
                    }
                }
            }
            return score;
        }
        // The entry cell propagates: flood the zero region outward from it.
        let mut stack: Vec<(usize, usize)> = Vec::new();
        proof {
            assert(stack_ok(stack@, a, ex, ey, is_init));
        }
        push_neighbors(
            &mut stack,
            x,
            y,
            height,
            width,
            Ghost(a),
            Ghost(ex),
            Ghost(ey),
            Ghost(is_init),
        );
        proof {
            assert forall|cx: int, cy: int, nx: int, ny: int|
                #![trigger newly_revealed(a, g1, cx, cy), orth_adjacent(cx, cy, nx, ny)]
                newly_revealed(a, g1, cx, cy) && (tile_count(tile_at(a, cx, cy)) == 0 || (cx == ex
                    && cy == ey && is_init)) && orth_adjacent(cx, cy, nx, ny) && in_grid(
                    a,
                    nx,
                    ny,
                ) implies (!(tile_at(g1, nx, ny) is Hidden) || stack_has(stack@, nx, ny)) by {
                if !(cx == ex && cy == ey) {
                    assert(tile_at(g1, cx, cy) == tile_at(a, cx, cy));
                    assert(false);
                }
            }
            lemma_grid_count_le(g1, is_hidden_pred(), width as int);
        }
        while stack.len() > 0
            invariant
                grid_wf(a),
                height == a.len(),
                width == a[0].len(),
                in_grid(a, ex, ey),
                ex == x as int && ey == y as int,
                tile_at(a, ex, ey) is Hidden,
                is_init || tile_count(tile_at(a, ex, ey)) == 0,
                self@.len() == a.len(),
                forall|yy: int| 0 <= yy < a.len() ==> (#[trigger] self@[yy]).len() == a[yy].len(),
                reveal_mono(a, self@),
                newly_revealed(a, self@, ex, ey),
                stack_ok(stack@, a, ex, ey, is_init),
                forall|cx: int, cy: int|
                    newly_revealed(a, self@, cx, cy) ==> flood_reaches(a, ex, ey, is_init, cx, cy),
                forall|cx: int, cy: int, nx: int, ny: int|
                    #![trigger newly_revealed(a, self@, cx, cy), orth_adjacent(cx, cy, nx, ny)]
                    newly_revealed(a, self@, cx, cy) && (tile_count(tile_at(a, cx, cy)) == 0 || (cx
                        == ex && cy == ey && is_init)) && orth_adjacent(cx, cy, nx, ny) && in_grid(
                        a,
                        nx,
                        ny,
                    ) ==> (!(tile_at(self@, nx, ny) is Hidden) || stack_has(stack@, nx, ny)),
                score as int == visible_count(self@) - visible_count(a),
                0 <= visible_count(a),
                visible_count(self@) <= a.len() * a[0].len(),
                a.len() * a[0].len() <= u32::MAX as int,
                0 <= hidden_count(self@),
            decreases hidden_count(self@), stack@.len(),
        {
            let ghost st_before = stack@;
            let ghost g_before = self@;
            let c = stack.pop().unwrap();
            let cx = c.0;
            let cy = c.1;
            proof {
                assert(st_before[st_before.len() - 1] == c);
                assert(in_grid(a, cx as int, cy as int));
            }
            let t = *self.get_tile(cx, cy);
            if t.dfs_valid() {
                let tv = t.unwrap();
                proof {
                    assert(tile_at(g_before, cx as int, cy as int) is Hidden);
                    assert(tile_at(a, cx as int, cy as int) is Hidden);
                    assert(flood_reaches(a, ex, ey, is_init, cx as int, cy as int));
                    assert(tile_count(tile_at(a, cx as int, cy as int)) == tv as int);
                    // the entry is already visible, so this cell is not it
                    assert(!(cx as int == ex && cy as int == ey));
                    assert forall|yy: int|
                        0 <= yy < g_before.len() implies (#[trigger] g_before[yy]).len()
                        <= width as int by {
                        assert(g_before[yy].len() == a[yy].len());
                    }
                    lemma_grid_count_disjoint(
                        g_before,
                        is_visible_pred(),
                        is_hidden_pred(),
                        width as int,
                    );
                    lemma_grid_count_pos(g_before, is_hidden_pred(), cx as int, cy as int);
                }
                self.reveal_at(cx, cy);
                score = score + 1;
                proof {
                    lemma_grid_count_one_cell_change(
                        g_before,
                        self@,
                        is_visible_pred(),
                        cx as int,
                        cy as int,
                    );
                    lemma_grid_count_one_cell_change(
                        g_before,
                        self@,
                        is_hidden_pred(),
                        cx as int,
                        cy as int,
                    );
                    lemma_grid_count_le(self@, is_hidden_pred(), width as int);
                    assert forall|px: int, py: int| in_grid(a, px, py) implies (
                    #[trigger] tile_at(self@, px, py)) == tile_at(a, px, py) || (tile_at(
                        a,
                        px,
                        py,
                    ) is Hidden && tile_at(self@, px, py) == Tile::Visible(
                        tile_at(a, px, py)->Hidden_0,
                    )) by {
                        if px == cx as int && py == cy as int {
                            assert(tile_at(g_before, px, py) == tile_at(a, px, py));
                        } else {
                            assert(tile_at(self@, px, py) == tile_at(g_before, px, py));
                        }
                    }
                    assert(reveal_mono(a, self@));
                    assert forall|px: int, py: int|
                        newly_revealed(a, self@, px, py) implies flood_reaches(
                        a,
                        ex,
                        ey,
                        is_init,
                        px,
                        py,
                    ) by {
                        if !(px == cx as int && py == cy as int) {
                            assert(tile_at(self@, px, py) == tile_at(g_before, px, py));
                        }
                    }
                }
                if tv == 0 {
                    let ghost st_mid = stack@;
                    push_neighbors(
                        &mut stack,
                        cx,
                        cy,
                        height,
                        width,
                        Ghost(a),
                        Ghost(ex),
                        Ghost(ey),
                        Ghost(is_init),
                    );
                    proof {
                        assert forall|px: int, py: int, nx: int, ny: int|
                            #![trigger newly_revealed(a, self@, px, py), orth_adjacent(px, py, nx, ny)]
                            newly_revealed(a, self@, px, py) && (tile_count(tile_at(a, px, py))
                                == 0 || (px == ex && py == ey && is_init)) && orth_adjacent(
                                px,
                                py,
                                nx,
                                ny,
                            ) && in_grid(a, nx, ny) implies (!(tile_at(self@, nx, ny) is Hidden)
                            || stack_has(stack@, nx, ny)) by {
                            if px == cx as int && py == cy as int {
                                assert(stack_has(stack@, nx, ny));
                            } else {
                                assert(newly_revealed(a, g_before, px, py));
                                assert(!(tile_at(g_before, nx, ny) is Hidden) || stack_has(
                                    st_before,
                                    nx,
                                    ny,
                                ));
                                if tile_at(g_before, nx, ny) is Hidden {
                                    let i = choose|i: int|
                                        0 <= i < st_before.len() && (#[trigger] st_before[i]).0
                                            == nx && st_before[i].1 == ny;
                                    if i < st_before.len() - 1 {
                                        assert(st_mid[i] == st_before[i]);
                                        assert(stack_has(st_mid, nx, ny));
                                        assert(stack_has(stack@, nx, ny));
                                    } else {
                                        assert(nx == cx as int && ny == cy as int);
                                        assert(!(tile_at(self@, nx, ny) is Hidden));
                                    }
                                } else {
                                    if nx == cx as int && ny == cy as int {
                                        assert(!(tile_at(self@, nx, ny) is Hidden));
                                    } else {
                                        assert(tile_at(self@, nx, ny) == tile_at(
                                            g_before,
                                            nx,
                                            ny,
                                        ));
                                    }
                                }
                            }
                        }
                    }
                } else {
                    proof {
                        assert forall|px: int, py: int, nx: int, ny: int|
                            #![trigger newly_revealed(a, self@, px, py), orth_adjacent(px, py, nx, ny)]
                            newly_revealed(a, self@, px, py) && (tile_count(tile_at(a, px, py))
                                == 0 || (px == ex && py == ey && is_init)) && orth_adjacent(
                                px,
                                py,
                                nx,
                                ny,
                            ) && in_grid(a, nx, ny) implies (!(tile_at(self@, nx, ny) is Hidden)
                            || stack_has(stack@, nx, ny)) by {
                            // a boundary cell propagates nothing, so every
                            // obligation comes from an earlier reveal
                            assert(!(px == cx as int && py == cy as int));
                            assert(newly_revealed(a, g_before, px, py));
                            assert(!(tile_at(g_before, nx, ny) is Hidden) || stack_has(
                                st_before,
                                nx,
                                ny,
                            ));
                            if tile_at(g_before, nx, ny) is Hidden {
                                let i = choose|i: int|
                                    0 <= i < st_before.len() && (#[trigger] st_before[i]).0 == nx
                                        && st_before[i].1 == ny;
                                if i < st_before.len() - 1 {
                                    assert(stack@[i] == st_before[i]);
                                    assert(stack_has(stack@, nx, ny));
                                } else {
                                    assert(nx == cx as int && ny == cy as int);
                                    assert(!(tile_at(self@, nx, ny) is Hidden));
                                }
                            } else {
                                if nx == cx as int && ny == cy as int {
                                    assert(!(tile_at(self@, nx, ny) is Hidden));
                                } else {
                                    assert(tile_at(self@, nx, ny) == tile_at(g_before, nx, ny));
                                }
                            }
                        }
                    }
                }
            } else {
                proof {
                    assert(!(tile_at(self@, cx as int, cy as int) is Hidden));
                    assert forall|px: int, py: int, nx: int, ny: int|
                        #![trigger newly_revealed(a, self@, px, py), orth_adjacent(px, py, nx, ny)]
                        newly_revealed(a, self@, px, py) && (tile_count(tile_at(a, px, py)) == 0
                            || (px == ex && py == ey && is_init)) && orth_adjacent(px, py, nx, ny)
                            && in_grid(a, nx, ny) implies (!(tile_at(self@, nx, ny) is Hidden)
                        || stack_has(stack@, nx, ny)) by {
                        assert(!(tile_at(g_before, nx, ny) is Hidden) || stack_has(
                            st_before,
                            nx,
                            ny,
                        ));
                        if tile_at(g_before, nx, ny) is Hidden {
                            let i = choose|i: int|
                                0 <= i < st_before.len() && (#[trigger] st_before[i]).0 == nx
                                    && st_before[i].1 == ny;
                            if i < st_before.len() - 1 {
                                assert(stack@[i] == st_before[i]);
                                assert(stack_has(stack@, nx, ny));
                            } else {
                                assert(nx == cx as int && ny == cy as int);
                            }
                        }
                    }
                }
            }
        }
        proof {
            // The worklist is empty: no propagating cell has a hidden
            // neighbor left, so everything reachable is exposed.
            assert forall|cx: int, cy: int| in_grid(a, cx, cy) implies (newly_revealed(
                a,
                self@,
                cx,
                cy,
            ) <==> flood_reaches(a, ex, ey, is_init, cx, cy)) by {
                if flood_reaches(a, ex, ey, is_init, cx, cy) {
                    let p = choose|p: Seq<(int, int)>|
                        flood_path(a, ex, ey, is_init, p) && p.last() == (cx, cy);
                    assert forall|px: int, py: int|
                        newly_revealed(a, self@, px, py) && (tile_count(tile_at(a, px, py)) == 0
                            || (px == ex && py == ey && is_init)) implies forall|nx: int, ny: int|
                        orth_adjacent(px, py, nx, ny) && in_grid(a, nx, ny) ==> !(tile_at(
                            self@,
                            nx,
                            ny,
                        ) is Hidden) by {
                        assert forall|nx: int, ny: int|
                            orth_adjacent(px, py, nx, ny) && in_grid(a, nx, ny) implies !(tile_at(
                            self@,
                            nx,
                            ny,
                        ) is Hidden) by {
                            assert(!(tile_at(self@, nx, ny) is Hidden) || stack_has(
                                stack@,
                                nx,
                                ny,
                            ));
                        }
                    }
                    lemma_path_all_revealed(a, self@, ex, ey, is_init, p);
                    assert(tile_at(a, cx, cy) is Hidden);
                    assert(newly_revealed(a, self@, cx, cy));
                }
            }
        }
        score
    }
}

} // verus!
