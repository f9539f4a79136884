use minesweeper::Session;
use minesweeper::Tile;

#[test]
fn rendering_shows_counts_in_decimal() {
    let sess = Session::from(Tile::from_string("5", false).unwrap());
    assert_eq!(sess.print_session(), "\n[5]\n");
    assert_eq!(sess.print_answer(), "\n[5]\n");

    let wide = Session::from(Tile::from_string("12,0 255,199", false).unwrap());
    assert_eq!(wide.print_answer(), "\n[12][0]\n[255][199]\n");
}

#[test]
fn concealed_rendering_hides_cells() {
    let sess = Session::from(Tile::from_string("1,2 3,x", false).unwrap());
    assert_eq!(sess.print_session(), "\n[1][2]\n[3][ ]\n");
    assert_eq!(sess.print_answer(), "\n[1][2]\n[3][B]\n");

    let hidden = Session::from(Tile::from_string("12", true).unwrap());
    assert_eq!(hidden.print_session(), "\n[ ]\n");
    assert_eq!(hidden.print_answer(), "\n[12]\n");
}

#[test]
fn renderings_differ_while_anything_is_concealed() {
    let m = "
    1,1,1,1
    1,0,0,1
    1,0,0,1
    1,1,1,1
    ";
    let mut sess = Session::from(Tile::from_string(m, true).unwrap());
    assert_ne!(sess.print_session(), sess.print_answer());
    let _ = sess.reveal_cell(1, 1);
    // The corners are still concealed after the flood.
    assert_ne!(sess.print_session(), sess.print_answer());
    let _ = sess.reveal_cell(0, 0);
    let _ = sess.reveal_cell(3, 0);
    let _ = sess.reveal_cell(0, 3);
    let _ = sess.reveal_cell(3, 3);
    // Nothing concealed is left, and the two renderings agree.
    assert_eq!(sess.print_session(), sess.print_answer());
}
