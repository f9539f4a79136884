use minesweeper::Board;
use minesweeper::GameBoard;
use minesweeper::GameError;
use minesweeper::MineSweeper;
use minesweeper::Session;
use minesweeper::State;
use minesweeper::Tile;

fn count_mines(board: &Vec<Vec<Tile>>) -> usize {
    let mut n = 0;
    for row in board {
        for t in row {
            if t.is_mine() {
                n += 1;
            }
        }
    }
    n
}

fn adjacent_mines(board: &Vec<Vec<Tile>>, x: usize, y: usize) -> u8 {
    let mut n = 0u8;
    for dy in -1i64..=1 {
        for dx in -1i64..=1 {
            if dy == 0 && dx == 0 {
                continue;
            }
            let ny = y as i64 + dy;
            let nx = x as i64 + dx;
            if ny >= 0
                && (ny as usize) < board.len()
                && nx >= 0
                && (nx as usize) < board[ny as usize].len()
                && board[ny as usize][nx as usize].is_mine()
            {
                n += 1;
            }
        }
    }
    n
}

#[test]
fn generated_board_is_consistent() {
    let sess = Session::new(10, 8, 6).unwrap();
    let board = sess.get_board();
    assert_eq!(board.len(), 6);
    for row in &board {
        assert_eq!(row.len(), 8);
    }
    assert_eq!(count_mines(&board), 10);
    for y in 0..board.len() {
        for x in 0..board[y].len() {
            match board[y][x] {
                Tile::Mine => {}
                Tile::Hidden(v) => assert_eq!(v, adjacent_mines(&board, x, y)),
                Tile::Visible(_) => panic!("a fresh board must be fully concealed"),
            }
        }
    }
}

#[test]
fn dense_board_draws_distinct_mines() {
    // With only one safe cell left, a bad draw would repeat a coordinate
    // or run off the board.
    let sess = Session::new(15, 4, 4).unwrap();
    assert_eq!(count_mines(&sess.get_board()), 15);
}

#[test]
fn reveal_revealed_cell_changes_nothing() {
    let m = "
    1,1,1,1
    1,0,0,1
    1,0,0,1
    1,1,1,1
    ";
    let mut sess = Session::from(Tile::from_string(m, true).unwrap());
    let first = sess.reveal_cell(1, 1).unwrap();
    assert!(first > 0);
    let before_board = sess.get_board();
    let before_score = sess.score;
    let delta = sess.reveal_cell(1, 1).unwrap();
    assert_eq!(delta, 0);
    assert_eq!(sess.score, before_score);
    assert_eq!(
        format!("{:?}", sess.get_board()),
        format!("{:?}", before_board)
    );
    assert!(matches!(sess.state, State::Active));
}

#[test]
fn flood_fill_reveals_zero_region_and_border() {
    let m = "
    1,1,1,1
    1,0,0,1
    1,0,0,1
    1,1,1,1
    ";
    let mut sess = Session::from(Tile::from_string(m, true).unwrap());
    let score = sess.reveal_cell(1, 1).unwrap();
    // The four zero cells and the eight edge-adjacent border cells are
    // exposed, one point each; the corners touch the zero region only
    // diagonally and stay concealed.
    assert_eq!(score, 12);
    assert_eq!(sess.score, 12);
    let board = sess.get_board();
    for y in 0..4 {
        for x in 0..4 {
            let corner = (y == 0 || y == 3) && (x == 0 || x == 3);
            if corner {
                assert_eq!(board[y][x], Tile::Hidden(1));
            } else if (1..=2).contains(&y) && (1..=2).contains(&x) {
                assert_eq!(board[y][x], Tile::Visible(0));
            } else {
                assert_eq!(board[y][x], Tile::Visible(1));
            }
        }
    }
}

#[test]
fn flood_fill_stops_at_mine() {
    let m = "
    1,1,1,1
    1,0,X,1
    1,0,0,1
    1,1,1,1
    ";
    let mut sess = Session::from(Tile::from_string(m, true).unwrap());
    let score = sess.reveal_cell(1, 1).unwrap();
    assert_eq!(score, 9);
    let board = sess.get_board();
    // The mine keeps its place and stays unrevealed.
    assert_eq!(board[1][2], Tile::Mine);
    // Its safe neighbors on the zero region's border are exposed but did
    // not propagate past themselves.
    assert_eq!(board[0][2], Tile::Hidden(1));
    assert_eq!(board[1][3], Tile::Hidden(1));
    assert_eq!(board[2][2], Tile::Visible(0));
    assert!(matches!(sess.state, State::Active));
}

#[test]
fn flood_fill_does_not_cross_mine_ring() {
    let m = "
1,1,1,1,1,1,1
1,0,0,0,0,0,1
1,0,X,X,X,0,1
1,0,X,2,X,0,1
1,0,X,X,X,0,1
1,0,0,0,0,0,1
1,1,1,1,1,1,1
";
    let mut sess = Session::from(Tile::from_string(m, true).unwrap());
    let _ = sess.reveal_cell(1, 1);
    let board = sess.get_board();
    assert_eq!(board[3][3], Tile::Hidden(2));
    for y in 2..=4 {
        for x in 2..=4 {
            if y == 3 && x == 3 {
                continue;
            }
            assert_eq!(board[y][x], Tile::Mine);
        }
    }
}

#[test]
fn revealing_a_mine_loses_without_scoring() {
    let m = "
    1,1,1,1
    1,0,X,1
    1,0,0,1
    1,1,1,1
    ";
    let mut sess = Session::from(Tile::from_string(m, true).unwrap());
    let delta = sess.reveal_cell(2, 1).unwrap();
    assert_eq!(delta, 0);
    assert_eq!(sess.score, 0);
    assert!(matches!(sess.state, State::Lose));
    // The grid itself is untouched: the mine is still concealed.
    assert_eq!(sess.get_board()[1][2], Tile::Mine);
}

#[test]
fn check_cord_reports_mines_and_reveals_safe_cells() {
    let m = "
    1,1,1,1
    1,0,X,1
    1,0,0,1
    1,1,1,1
    ";
    let mut sess = Session::from(Tile::from_string(m, true).unwrap());
    assert_eq!(sess.check_cord(2, 1), Ok(false));
    assert!(matches!(sess.state, State::Active));
    assert_eq!(sess.check_cord(0, 0), Ok(true));
    assert_eq!(sess.get_board()[0][0], Tile::Visible(1));
    assert_eq!(sess.check_cord(0, 0), Ok(true));
}

#[test]
fn out_of_bounds_coordinates_are_refused() {
    let m = "
    1,1
    1,1
    ";
    let mut sess = Session::from(Tile::from_string(m, true).unwrap());
    assert_eq!(sess.reveal_cell(2, 0), Err(GameError::OutOfBounds));
    assert_eq!(sess.reveal_cell(0, 2), Err(GameError::OutOfBounds));
    assert_eq!(sess.check_cord(9, 9), Err(GameError::OutOfBounds));
    assert_eq!(sess.score, 0);
    assert!(matches!(sess.state, State::Active));
}

#[test]
fn invalid_configurations_are_refused() {
    // As many mines as cells.
    assert!(matches!(
        Session::new(144, 12, 12),
        Err(GameError::InvalidConfiguration)
    ));
    // A zero dimension.
    assert!(matches!(
        Session::new(1, 0, 5),
        Err(GameError::InvalidConfiguration)
    ));
    assert!(matches!(
        Session::new(1, 5, 0),
        Err(GameError::InvalidConfiguration)
    ));
    // One mine fewer than cells is accepted.
    assert!(Session::new(143, 12, 12).is_ok());
}

#[test]
fn malformed_board_text_is_refused() {
    assert!(matches!(
        Tile::from_string("", true),
        Err(GameError::ParseError)
    ));
    assert!(matches!(
        Tile::from_string("   \n  ", true),
        Err(GameError::ParseError)
    ));
    assert!(matches!(
        Tile::from_string("1,1 2", true),
        Err(GameError::ParseError)
    ));
    assert!(matches!(
        Tile::from_string("1,1\n2,2,2", true),
        Err(GameError::ParseError)
    ));
}

#[test]
fn token_parsing_is_literal() {
    let board = Tile::from_string("007,256 12,x", false).unwrap();
    assert_eq!(board[0][0], Tile::Visible(7));
    assert_eq!(board[0][1], Tile::Mine);
    assert_eq!(board[1][0], Tile::Visible(12));
    assert_eq!(board[1][1], Tile::Mine);
}

#[test]
fn blank_board_is_all_zero_and_concealed() {
    let board = <Tile as Board>::blank_board(3, 2).unwrap();
    assert_eq!(board.len(), 2);
    for row in &board {
        assert_eq!(row.len(), 3);
        for t in row {
            assert_eq!(*t, Tile::Hidden(0));
        }
    }
    assert!(matches!(
        <Tile as Board>::blank_board(0, 2),
        Err(GameError::InvalidConfiguration)
    ));
}

#[test]
fn new_board_places_mines_and_counts() {
    let board = <Tile as Board>::new_board(3, 4, 5).unwrap();
    assert_eq!(board.len(), 5);
    assert_eq!(count_mines(&board), 3);
    for y in 0..board.len() {
        for x in 0..board[y].len() {
            if let Tile::Hidden(v) = board[y][x] {
                assert_eq!(v, adjacent_mines(&board, x, y));
            }
        }
    }
}

#[test]
fn oversized_boards_are_refused() {
    // The cell count must fit the score counter.
    assert!(matches!(
        Session::new(1, 65536, 65537),
        Err(GameError::InvalidConfiguration)
    ));
    assert!(matches!(
        <Tile as Board>::blank_board(usize::MAX, 2),
        Err(GameError::InvalidConfiguration)
    ));
}

#[test]
fn fresh_handle_has_no_session() {
    let mut ms = MineSweeper::new();
    assert!(ms.session.is_none());
    ms.start_session(3);
    assert!(ms.session.is_none());
}

#[test]
fn dfs_entry_rule() {
    let m = "1,1,1,1 1,0,0,1 1,0,0,1 1,1,1,1";
    // A non-zero cell entered mid-flood is revealed but spreads no further.
    let mut b = GameBoard(Tile::from_string(m, true).unwrap());
    let s = b.dfs(0, 0, false);
    assert_eq!(s, 1);
    assert_eq!(b.0[0][0], Tile::Visible(1));
    assert_eq!(b.0[0][1], Tile::Hidden(1));
    // The same cell as the player's entry cascades into its neighbors.
    let mut b2 = GameBoard(Tile::from_string(m, true).unwrap());
    let s2 = b2.dfs(0, 0, true);
    assert_eq!(s2, 3);
    assert_eq!(b2.0[0][0], Tile::Visible(1));
    assert_eq!(b2.0[0][1], Tile::Visible(1));
    assert_eq!(b2.0[1][0], Tile::Visible(1));
    assert_eq!(b2.0[1][1], Tile::Hidden(0));
}

#[test]
fn gameboard_new_can_skip_counts() {
    let b = GameBoard::new(2, 3, 3, false).unwrap();
    let mut mines = 0;
    for row in &b.0 {
        for t in row {
            match t {
                Tile::Mine => mines += 1,
                Tile::Hidden(0) => {}
                other => panic!("unexpected tile {:?}", other),
            }
        }
    }
    assert_eq!(mines, 2);
}
