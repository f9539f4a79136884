use vstd::prelude::*;

verus! {

use crate::board::GameError;
use crate::gameboard::{GameBoard, valid_config};
use crate::grid::{
    adjacent_mines, flood_reaches, grid_of, grid_wf, in_grid, is_visible_pred,
    lemma_grid_count_le, lemma_grid_count_nonneg, lemma_grid_count_zero, mine_count,
    newly_revealed, reveal_mono, tile_at, visible_count,
};
use crate::render::{render_board, render_grid, tile_answer_fn, tile_session_fn};
use crate::tile::Tile;

/// Whether a game is still being played, has been won, or has been lost.
#[derive(Clone, Copy, Debug, PartialEq, Eq, Structural)]
pub enum State {
    Active,
    Win,
    Lose,
}

/// One live game: a grid, the running score, and the terminal flag.
#[derive(Debug)]
pub struct Session {
    pub state: State,
    pub board: GameBoard,
    pub score: u32,
}

impl Session {
    /// A session is sound when its grid is a well-formed rectangle and the
    /// score never exceeds the number of exposed cells.
    pub open spec fn wf(&self) -> bool {
        &&& grid_wf(self.board@)
        &&& self.score as int <= visible_count(self.board@)
    }

    /// Starts a session on a freshly generated board: `level` mines at
    /// distinct random coordinates, every safe cell concealed and carrying
    /// the true count of its adjacent mines, score zero, play active.
    pub fn new(level: usize, x_size: usize, y_size: usize) -> (r: Result<Session, GameError>)
        ensures
            r is Ok <==> valid_config(level as int, x_size as int, y_size as int),
            r is Err ==> r->Err_0 == GameError::InvalidConfiguration,
            r is Ok ==> ({
                let s = r->Ok_0;
                &&& s.wf()
                &&& s.score == 0
                &&& s.state == State::Active
                &&& s.board@.len() == y_size as int
                &&& forall|yy: int|
                    0 <= yy < s.board@.len() ==> (#[trigger] s.board@[yy]).len() == x_size as int
                &&& mine_count(s.board@) == level as int
                &&& visible_count(s.board@) == 0
                &&& forall|cx: int, cy: int|
                    in_grid(s.board@, cx, cy) && !(tile_at(s.board@, cx, cy) is Mine) ==> tile_at(
                        s.board@,
                        cx,
                        cy,
                    ) == Tile::Hidden(adjacent_mines(s.board@, cx, cy) as u8)
            }),
    {
        match GameBoard::new(level, x_size, y_size, true) {
            Ok(b) => {
                proof {
                    lemma_grid_count_zero(b@, is_visible_pred());
                }
                Ok(Self { state: State::Active, score: 0, board: b })
            },
            Err(e) => Err(e),
        }
    }

    /// Restores a session around an already-built rectangular grid.
    pub fn from(board: Vec<Vec<Tile>>) -> (s: Self)
        requires
            grid_wf(grid_of(board@)),
        ensures
            s.wf(),
            s.board@ == grid_of(board@),
            s.score == 0,
            s.state == State::Active,
    {
        proof {
            lemma_grid_count_nonneg(grid_of(board@), is_visible_pred());
        }
        Self { state: State::Active, score: 0, board: GameBoard(board) }
    }

    /// Dispatches one player move at (x, y): a mine loses the game, an
    /// already-exposed cell is a no-op, and a concealed cell starts the
    /// flood fill, whose cell count is added to the score and returned.
    /// A coordinate off the grid is refused.
    pub fn reveal_cell(&mut self, x: usize, y: usize) -> (r: Result<u32, GameError>)
        requires
            old(self).wf(),
        ensures
            final(self).wf(),
            !in_grid(old(self).board@, x as int, y as int) ==> r == Err::<u32, GameError>(
                GameError::OutOfBounds,
            ) && *final(self) == *old(self),
            in_grid(old(self).board@, x as int, y as int) ==> match tile_at(
                old(self).board@,
                x as int,
                y as int,
            ) {
                Tile::Mine => r == Ok::<u32, GameError>(0u32) && final(self).board@ == old(
                    self,
                ).board@ && final(self).score == old(self).score && final(self).state
                    == State::Lose,
                Tile::Visible(_) => r == Ok::<u32, GameError>(0u32) && *final(self) == *old(self),
                Tile::Hidden(_) => {
                    &&& r is Ok
                    &&& reveal_mono(old(self).board@, final(self).board@)
                    &&& forall|cx: int, cy: int|
                        in_grid(old(self).board@, cx, cy) ==> (newly_revealed(
                            old(self).board@,
                            final(self).board@,
                            cx,
                            cy,
                        ) <==> flood_reaches(old(self).board@, x as int, y as int, true, cx, cy))
                    &&& r->Ok_0 as int == visible_count(final(self).board@) - visible_count(
                        old(self).board@,
                    )
                    &&& final(self).score as int == old(self).score as int + r->Ok_0 as int
                    &&& final(self).state == old(self).state
                },
            },
    {
        if y >= self.board.0.len() {
            return Err(GameError::OutOfBounds);
        }
        if x >= self.board.0[y].len() {
            return Err(GameError::OutOfBounds);
        }
        let t = self.board.0[y][x];
        proof {
            assert(t == tile_at(self.board@, x as int, y as int));
        }
        match t {
            Tile::Mine => {
                self.state = State::Lose;
                Ok(0)
            },
            Tile::Visible(_) => Ok(0),
            Tile::Hidden(_) => {
                let ghost a = self.board@;
                let d = self.board.dfs(x, y, true);
                proof {
                    assert(grid_wf(self.board@));
                    assert forall|yy: int|
                        0 <= yy < self.board@.len() implies (#[trigger] self.board@[yy]).len()
                        <= a[0].len() by {
                        assert(self.board@[yy].len() == a[yy].len());
                    }
                    lemma_grid_count_le(self.board@, is_visible_pred(), a[0].len() as int);
                }
                self.score = self.score + d;
                Ok(d)
            },
        }
    }

    /// Reports whether the chosen cell is safe: `false` for a mine, with no
    /// other effect; `true` otherwise, revealing the cell as a side effect.
    /// A coordinate off the grid is refused.
    pub fn check_cord(&mut self, x: usize, y: usize) -> (r: Result<bool, GameError>)
        requires
            old(self).wf(),
        ensures
            final(self).wf(),
            !in_grid(old(self).board@, x as int, y as int) ==> r == Err::<bool, GameError>(
                GameError::OutOfBounds,
            ) && *final(self) == *old(self),
            in_grid(old(self).board@, x as int, y as int) ==> match tile_at(
                old(self).board@,
                x as int,
                y as int,
            ) {
                Tile::Mine => r == Ok::<bool, GameError>(false) && *final(self) == *old(self),
                Tile::Visible(_) => r == Ok::<bool, GameError>(true) && *final(self) == *old(self),
                Tile::Hidden(_) => {
                    &&& r == Ok::<bool, GameError>(true)
                    &&& reveal_mono(old(self).board@, final(self).board@)
                    &&& forall|cx: int, cy: int|
                        in_grid(old(self).board@, cx, cy) ==> (newly_revealed(
                            old(self).board@,
                            final(self).board@,
                            cx,
                            cy,
                        ) <==> flood_reaches(old(self).board@, x as int, y as int, true, cx, cy))
                    &&& final(self).score as int == old(self).score as int + visible_count(
                        final(self).board@,
                    ) - visible_count(old(self).board@)
                    &&& final(self).state == old(self).state
                },
            },
    {
        if y >= self.board.0.len() {
            return Err(GameError::OutOfBounds);
        }
        if x >= self.board.0[y].len() {
            return Err(GameError::OutOfBounds);
        }
        let t = self.board.0[y][x];
        match t {
            Tile::Mine => Ok(false),
            _ => {
                let res = self.reveal_cell(x, y);
                proof {
                    assert(res is Ok);
                }
                Ok(true)
            },
        }
    }

    /// A copy of the grid, for rendering.
    pub fn get_board(&self) -> (b: Vec<Vec<Tile>>)
        ensures
            grid_of(b@) == self.board@,
    {
        let mut out: Vec<Vec<Tile>> = Vec::new();
        let mut y: usize = 0;
        while y < self.board.0.len()
            invariant
                0 <= y <= self.board.0.len(),
                out@.len() == y,
                forall|i: int| 0 <= i < y ==> (#[trigger] out@[i])@ == self.board.0@[i]@,
            decreases self.board.0.len() - y,
        {
            let src = &self.board.0[y];
            let mut row: Vec<Tile> = Vec::new();
            let mut x: usize = 0;
            while x < src.len()
                invariant
                    0 <= x <= src.len(),
                    row@.len() == x,
                    forall|i: int| 0 <= i < x ==> row@[i] == src@[i],
                decreases src.len() - x,
            {
                row.push(src[x]);
                x = x + 1;
            }
            assert(row@ =~= src@);
            out.push(row);
            y = y + 1;
        }
        proof {
            assert(grid_of(out@) =~~= self.board@);
        }
        out
    }

    /// The rendering the player sees during play: every concealed cell,
    /// mine or not, shows as a blank bracket.
    pub fn print_session(&self) -> (out: String)
        ensures
            out@ == render_grid(self.board@, tile_session_fn()),
    {
        render_board(&self.board.0, false)
    }

    /// The full rendering: mines marked, every safe cell's count shown.
    pub fn print_answer(&self) -> (out: String)
        ensures
            out@ == render_grid(self.board@, tile_answer_fn()),
    {
        render_board(&self.board.0, true)
    }

    /// A mutable borrow of the raw grid rows.
    pub fn mut_board(&mut self) -> (b: &mut Vec<Vec<Tile>>)
        ensures
            *b == old(self).board.0,
            final(self).board.0 == *final(b),
            final(self).score == old(self).score,
            final(self).state == old(self).state,
    {
        &mut self.board.0
    }
}

} // verus!
