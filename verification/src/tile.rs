use vstd::prelude::*;

verus! {

use crate::board::{Board, GameError};
use crate::gameboard::{GameBoard, blank_rows, valid_config};
use crate::grid::{adjacent_mines, grid_of, grid_wf, in_grid, mine_count, tile_at};
use crate::parse::{
    chars_of, parse_ok, parsed_grid, row_tiles, split_comma, split_comma_exec, split_ws,
    split_ws_exec, tile_of_token, token_tile, views_of,
};

/// A cell of the game grid: a mine, a concealed safe cell, or a revealed
/// safe cell.  Safe cells carry the count of mines among their up-to-8
/// neighbors; that count is fixed at grid construction, and only the
/// concealment tag ever changes, from `Hidden` to `Visible`.
#[derive(Clone, Copy, Debug, PartialEq, Eq, Structural)]
pub enum Tile {
    Mine,
    Hidden(u8),
    Visible(u8),
}

impl Tile {
    /// A tile can be entered by the flood fill only while it is still hidden.
    pub fn dfs_valid(&self) -> (r: bool)
        ensures
            r == (self is Hidden),
    {
        match self {
            Tile::Visible(_) => false,
            Tile::Mine => false,
            _ => true,
        }
    }

    /// The neighbor count carried by a hidden tile; 0 for any other tile.
    pub fn unwrap(&self) -> (r: u8)
        ensures
            r == (if self is Hidden { self->Hidden_0 } else { 0u8 }),
    {
        if let Tile::Hidden(val) = self {
            return *val;
        }
        return 0;
    }

    pub fn is_mine(&self) -> (r: bool)
        ensures
            r == (self is Mine),
    {
        if let Tile::Mine = self {
            return true;
        }
        false
    }

    /// Flips a hidden tile to visible, keeping its count; any other tile is
    /// left unchanged.
    pub fn set_visible(&mut self)
        ensures
            *final(self) == (if (*old(self)) is Hidden {
                Tile::Visible((*old(self))->Hidden_0)
            } else {
                *old(self)
            }),
    {
        if let Tile::Hidden(val) = self {
            *self = Tile::Visible(*val);
        }
    }
}


impl Tile {
    /// A fresh grid with every cell concealed and carrying count 0.  The
    /// request is refused when a dimension is zero or the cell count would
    /// not fit the score counter.
    pub fn blank_board(x_size: usize, y_size: usize) -> (r: Result<Vec<Vec<Tile>>, GameError>)
        ensures
            r is Ok <==> (1 <= x_size && 1 <= y_size && (x_size as int) * (y_size as int)
                <= u32::MAX as int),
            r is Err ==> r->Err_0 == GameError::InvalidConfiguration,
            r is Ok ==> ({
                let g = grid_of(r->Ok_0@);
                &&& grid_wf(g)
                &&& g.len() == y_size as int
                &&& forall|yy: int| 0 <= yy < g.len() ==> (#[trigger] g[yy]).len() == x_size as int
                &&& forall|cx: int, cy: int|
                    in_grid(g, cx, cy) ==> tile_at(g, cx, cy) == Tile::Hidden(0u8)
            }),
    {
        if x_size == 0 || y_size == 0 {
            return Err(GameError::InvalidConfiguration);
        }
        match x_size.checked_mul(y_size) {
            None => Err(GameError::InvalidConfiguration),
            Some(p) => {
                if p > u32::MAX as usize {
                    Err(GameError::InvalidConfiguration)
                } else {
                    let v = blank_rows(x_size, y_size);
                    proof {
                        assert((y_size as int) * (x_size as int) <= u32::MAX as int)
                            by (nonlinear_arith)
                            requires
                                (x_size as int) * (y_size as int) <= u32::MAX as int,
                        ;
                        assert(grid_of(v@)[0].len() == x_size as int);
                        assert(grid_wf(grid_of(v@)));
                    }
                    Ok(v)
                }
            },
        }
    }

    /// A fresh grid with `level` mines at distinct random coordinates and
    /// every safe cell concealed, carrying the true count of its adjacent
    /// mines.
    pub fn new_board(level: usize, x_size: usize, y_size: usize) -> (r: Result<
        Vec<Vec<Tile>>,
        GameError,
    >)
        ensures
            r is Ok <==> valid_config(level as int, x_size as int, y_size as int),
            r is Err ==> r->Err_0 == GameError::InvalidConfiguration,
            r is Ok ==> ({
                let g = grid_of(r->Ok_0@);
                &&& grid_wf(g)
                &&& g.len() == y_size as int
                &&& forall|yy: int| 0 <= yy < g.len() ==> (#[trigger] g[yy]).len() == x_size as int
                &&& mine_count(g) == level as int
                &&& forall|cx: int, cy: int|
                    in_grid(g, cx, cy) && !(tile_at(g, cx, cy) is Mine) ==> tile_at(g, cx, cy)
                        == Tile::Hidden(adjacent_mines(g, cx, cy) as u8)
            }),
    {
        match GameBoard::new(level, x_size, y_size, true) {
            Ok(b) => Ok(b.0),
            Err(e) => Err(e),
        }
    }

    /// Builds a grid from a textual description: rows separated by
    /// whitespace, cells within a row separated by commas.  A token of
    /// digits is a safe cell carrying that literal count — nothing is
    /// recomputed — concealed when `hidden` is set; any other token is a
    /// mine.  An empty or non-rectangular description is refused.
    pub fn from_string(input: &str, hidden: bool) -> (r: Result<Vec<Vec<Tile>>, GameError>)
        ensures
            r is Ok <==> parse_ok(input@),
            r is Err ==> r->Err_0 == GameError::ParseError,
            r is Ok ==> grid_of(r->Ok_0@) == parsed_grid(input@, hidden),
    {
        let chars = chars_of(input);
        let row_toks = split_ws_exec(&chars);
        if row_toks.len() == 0 {
            return Err(GameError::ParseError);
        }
        let mut grid: Vec<Vec<Tile>> = Vec::new();
        let mut width: usize = 0;
        let mut y: usize = 0;
        while y < row_toks.len()
            invariant
                views_of(row_toks@) == split_ws(input@),
                row_toks@.len() >= 1,
                0 <= y <= row_toks@.len(),
                y > 0 ==> width as int == split_comma(split_ws(input@)[0]).len(),
                forall|i: int|
                    0 <= i < y ==> split_comma(#[trigger] split_ws(input@)[i]).len()
                        == split_comma(split_ws(input@)[0]).len(),
                grid@.len() == y,
                forall|i: int|
                    0 <= i < y ==> (#[trigger] grid@[i])@ == row_tiles(
                        split_comma(split_ws(input@)[i]),
                        hidden,
                    ),
            decreases row_toks@.len() - y,
        {
            let fields = split_comma_exec(&row_toks[y]);
            proof {
                assert(row_toks@[y as int]@ == split_ws(input@)[y as int]);
            }
            if y == 0 {
                width = fields.len();
            } else if fields.len() != width {
                proof {
                    assert(split_comma(split_ws(input@)[y as int]).len() != split_comma(
                        split_ws(input@)[0],
                    ).len());
                }
                return Err(GameError::ParseError);
            }
            let mut row: Vec<Tile> = Vec::new();
            let mut x: usize = 0;
            while x < fields.len()
                invariant
                    0 <= x <= fields@.len(),
                    views_of(fields@) == split_comma(split_ws(input@)[y as int]),
                    0 <= y < row_toks@.len(),
                    views_of(row_toks@) == split_ws(input@),
                    row@.len() == x,
                    forall|j: int|
                        0 <= j < x ==> row@[j] == token_tile(
                            #[trigger] views_of(fields@)[j],
                            hidden,
                        ),
                decreases fields@.len() - x,
            {
                let tcell = tile_of_token(&fields[x], hidden);
                row.push(tcell);
                x = x + 1;
            }
            proof {
                assert(row@ =~= row_tiles(split_comma(split_ws(input@)[y as int]), hidden));
            }
            grid.push(row);
            y = y + 1;
        }
        proof {
            assert(parse_ok(input@));
            assert(grid_of(grid@) =~~= parsed_grid(input@, hidden));
        }
        Ok(grid)
    }
}

impl Board for Tile {
    type Item = Result<Vec<Vec<Tile>>, GameError>;

    fn new_board(level: usize, x_size: usize, y_size: usize) -> Self::Item {
        Tile::new_board(level, x_size, y_size)
    }

    fn blank_board(x_size: usize, y_size: usize) -> Self::Item {
        Tile::blank_board(x_size, y_size)
    }

    fn from_string(input: &str, hidden: bool) -> Self::Item {
        Tile::from_string(input, hidden)
    }
}

} // verus!
