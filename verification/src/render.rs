use vstd::prelude::*;

verus! {

use crate::grid::{GridView, in_grid, tile_at};
use crate::tile::Tile;
use vstd::arithmetic::div_mod::lemma_div_denominator;
use vstd::string::StringExecFns;

// ------------------------------------------------------------------
// What a rendered board looks like, character by character
// ------------------------------------------------------------------

pub open spec fn digit_char(d: int) -> char {
    if d == 0 {
        '0'
    } else if d == 1 {
        '1'
    } else if d == 2 {
        '2'
    } else if d == 3 {
        '3'
    } else if d == 4 {
        '4'
    } else if d == 5 {
        '5'
    } else if d == 6 {
        '6'
    } else if d == 7 {
        '7'
    } else if d == 8 {
        '8'
    } else {
        '9'
    }
}

/// The decimal digits of a count, most significant first.
pub open spec fn dec_digits(v: int) -> Seq<char>
    decreases v,
{
    if v < 10 {
        seq![digit_char(v)]
    } else {
        dec_digits(v / 10).push(digit_char(v % 10))
    }
}

/// How one cell shows to the player during play: a safe exposed cell shows
/// its count, everything concealed shows a blank.
pub open spec fn render_tile_session(t: Tile) -> Seq<char> {
    match t {
        Tile::Mine => seq!['[', ' ', ']'],
        Tile::Hidden(_) => seq!['[', ' ', ']'],
        Tile::Visible(v) => seq!['['] + dec_digits(v as int) + seq![']'],
    }
}

/// How one cell shows with everything uncovered: mines as B, safe cells by
/// their count whether or not they were exposed.
pub open spec fn render_tile_answer(t: Tile) -> Seq<char> {
    match t {
        Tile::Mine => seq!['[', 'B', ']'],
        Tile::Hidden(v) => seq!['['] + dec_digits(v as int) + seq![']'],
        Tile::Visible(v) => seq!['['] + dec_digits(v as int) + seq![']'],
    }
}

pub open spec fn tile_session_fn() -> spec_fn(Tile) -> Seq<char> {
    |t: Tile| render_tile_session(t)
}

pub open spec fn tile_answer_fn() -> spec_fn(Tile) -> Seq<char> {
    |t: Tile| render_tile_answer(t)
}

pub open spec fn render_row(row: Seq<Tile>, f: spec_fn(Tile) -> Seq<char>) -> Seq<char>
    decreases row.len(),
{
    if row.len() == 0 {
        Seq::empty()
    } else {
        render_row(row.drop_last(), f) + f(row.last())
    }
}

pub open spec fn render_rows(g: GridView, f: spec_fn(Tile) -> Seq<char>) -> Seq<char>
    decreases g.len(),
{
    if g.len() == 0 {
        Seq::empty()
    } else {
        render_rows(g.drop_last(), f) + render_row(g.last(), f) + seq!['\n']
    }
}

/// A rendered board: a leading newline, then each row's cells followed by a
/// newline.
pub open spec fn render_grid(g: GridView, f: spec_fn(Tile) -> Seq<char>) -> Seq<char> {
    seq!['\n'] + render_rows(g, f)
}

// ------------------------------------------------------------------
// Splitting a rendering around one cell
// ------------------------------------------------------------------

pub proof fn lemma_render_row_concat(r1: Seq<Tile>, r2: Seq<Tile>, f: spec_fn(Tile) -> Seq<char>)
    ensures
        render_row(r1 + r2, f) == render_row(r1, f) + render_row(r2, f),
    decreases r2.len(),
{
    if r2.len() == 0 {
        assert(r1 + r2 =~= r1);
        assert(render_row(r1, f) + render_row(r2, f) =~= render_row(r1, f));
    } else {
        lemma_render_row_concat(r1, r2.drop_last(), f);
        assert((r1 + r2).drop_last() =~= r1 + r2.drop_last());
        assert((r1 + r2).last() == r2.last());
        assert(render_row(r1, f) + (render_row(r2.drop_last(), f) + f(r2.last())) =~= (render_row(
            r1,
            f,
        ) + render_row(r2.drop_last(), f)) + f(r2.last()));
    }
}

pub proof fn lemma_render_rows_concat(g1: GridView, g2: GridView, f: spec_fn(Tile) -> Seq<char>)
    ensures
        render_rows(g1 + g2, f) == render_rows(g1, f) + render_rows(g2, f),
    decreases g2.len(),
{
    if g2.len() == 0 {
        assert(g1 + g2 =~= g1);
        assert(render_rows(g1, f) + render_rows(g2, f) =~= render_rows(g1, f));
    } else {
        lemma_render_rows_concat(g1, g2.drop_last(), f);
        assert((g1 + g2).drop_last() =~= g1 + g2.drop_last());
        assert((g1 + g2).last() == g2.last());
        assert(render_rows(g1, f) + (render_rows(g2.drop_last(), f) + render_row(g2.last(), f)
            + seq!['\n']) =~= ((render_rows(g1, f) + render_rows(g2.drop_last(), f)) + render_row(
            g2.last(),
            f,
        )) + seq!['\n']);
    }
}

/// One step of a row rendering: the cells up to x, then cell x itself.
pub proof fn lemma_render_row_step(row: Seq<Tile>, f: spec_fn(Tile) -> Seq<char>, x: int)
    requires
        0 <= x < row.len(),
    ensures
        render_row(row.take(x + 1), f) == render_row(row.take(x), f) + f(row[x]),
{
    assert(row.take(x + 1).drop_last() =~= row.take(x));
    assert(row.take(x + 1).last() == row[x]);
}

/// One step of a grid rendering: the rows up to y, then row y and a newline.
pub proof fn lemma_render_rows_step(g: GridView, f: spec_fn(Tile) -> Seq<char>, y: int)
    requires
        0 <= y < g.len(),
    ensures
        render_rows(g.take(y + 1), f) == render_rows(g.take(y), f) + render_row(g[y], f)
            + seq!['\n'],
{
    assert(g.take(y + 1).drop_last() =~= g.take(y));
    assert(g.take(y + 1).last() == g[y]);
}


// ------------------------------------------------------------------
// Building the rendering at run time
// ------------------------------------------------------------------

fn append_digit(s: &mut String, d: u8)
    requires
        d < 10,
    ensures
        final(s)@ == old(s)@ + seq![digit_char(d as int)],
{
    match d {
        0 => {
            s.append("0");
            proof {
                reveal_strlit("0");
                assert("0"@ =~= seq![digit_char(0)]);
            }
        },
        1 => {
            s.append("1");
            proof {
                reveal_strlit("1");
                assert("1"@ =~= seq![digit_char(1)]);
            }
        },
        2 => {
            s.append("2");
            proof {
                reveal_strlit("2");
                assert("2"@ =~= seq![digit_char(2)]);
            }
        },
        3 => {
            s.append("3");
            proof {
                reveal_strlit("3");
                assert("3"@ =~= seq![digit_char(3)]);
            }
        },
        4 => {
            s.append("4");
            proof {
                reveal_strlit("4");
                assert("4"@ =~= seq![digit_char(4)]);
            }
        },
        5 => {
            s.append("5");
            proof {
                reveal_strlit("5");
                assert("5"@ =~= seq![digit_char(5)]);
            }
        },
        6 => {
            s.append("6");
            proof {
                reveal_strlit("6");
                assert("6"@ =~= seq![digit_char(6)]);
            }
        },
        7 => {
            s.append("7");
            proof {
                reveal_strlit("7");
                assert("7"@ =~= seq![digit_char(7)]);
            }
        },
        8 => {
            s.append("8");
            proof {
                reveal_strlit("8");
                assert("8"@ =~= seq![digit_char(8)]);
            }
        },
        _ => {
            s.append("9");
            proof {
                reveal_strlit("9");
                assert("9"@ =~= seq![digit_char(9)]);
            }
        },
    }
}

/// Writes a count in decimal, most significant digit first.
fn append_count(s: &mut String, v: u8)
    ensures
        final(s)@ == old(s)@ + dec_digits(v as int),
{
    let ghost start = s@;
    if v >= 100 {
        append_digit(s, v / 100);
    }
    if v >= 10 {
        append_digit(s, (v / 10) % 10);
    }
    append_digit(s, v % 10);
    proof {
        let vi = v as int;
        if vi < 10 {
            assert(vi % 10 == vi);
            assert(s@ =~= start + dec_digits(vi));
        } else if vi < 100 {
            assert(vi / 10 < 10);
            assert((vi / 10) % 10 == vi / 10);
            assert(dec_digits(vi / 10) =~= seq![digit_char(vi / 10)]);
            assert(dec_digits(vi) =~= seq![digit_char(vi / 10), digit_char(vi % 10)]);
            assert(s@ =~= start + dec_digits(vi));
        } else {
            lemma_div_denominator(vi, 10, 10);
            assert((vi / 10) / 10 == vi / 100);
            assert(vi / 100 < 10 && vi / 10 >= 10);
            assert(dec_digits(vi / 100) =~= seq![digit_char(vi / 100)]);
            assert(dec_digits(vi / 10) =~= seq![
                digit_char(vi / 100),
                digit_char((vi / 10) % 10),
            ]);
            assert(dec_digits(vi) =~= seq![
                digit_char(vi / 100),
                digit_char((vi / 10) % 10),
                digit_char(vi % 10),
            ]);
            assert(s@ =~= start + dec_digits(vi));
        }
    }
}

/// Writes one bracketed count cell.
fn append_cell_count(s: &mut String, v: u8)
    ensures
        final(s)@ == old(s)@ + (seq!['['] + dec_digits(v as int) + seq![']']),
{
    let ghost start = s@;
    s.append("[");
    append_count(s, v);
    s.append("]");
    proof {
        reveal_strlit("[");
        reveal_strlit("]");
        assert("["@ =~= seq!['[']);
        assert("]"@ =~= seq![']']);
        assert(s@ =~= start + (seq!['['] + dec_digits(v as int) + seq![']']));
    }
}

/// Renders a whole board, concealed (`answer` unset) or uncovered.
pub(crate) fn render_board(rows: &Vec<Vec<Tile>>, answer: bool) -> (out: String)
    ensures
        out@ == render_grid(
            crate::grid::grid_of(rows@),
            if answer {
                tile_answer_fn()
            } else {
                tile_session_fn()
            },
        ),
{
    let ghost g = crate::grid::grid_of(rows@);
    let ghost f = if answer {
        tile_answer_fn()
    } else {
        tile_session_fn()
    };
    let mut out = String::new();
    out.append("\n");
    proof {
        reveal_strlit("\n");
        assert(g.take(0) =~= Seq::<Seq<Tile>>::empty());
        assert(out@ =~= seq!['\n'] + render_rows(g.take(0), f));
    }
    let mut y: usize = 0;
    while y < rows.len()
        invariant
            g == crate::grid::grid_of(rows@),
            f == (if answer {
                tile_answer_fn()
            } else {
                tile_session_fn()
            }),
            0 <= y <= rows@.len(),
            g.len() == rows@.len(),
            out@ == seq!['\n'] + render_rows(g.take(y as int), f),
        decreases rows@.len() - y,
    {
        let row = &rows[y];
        let ghost r = row@;
        proof {
            assert(g[y as int] == r);
        }
        let ghost row_start = out@;
        let mut x: usize = 0;
        while x < row.len()
            invariant
                f == (if answer {
                    tile_answer_fn()
                } else {
                    tile_session_fn()
                }),
                r == row@,
                0 <= x <= r.len(),
                out@ == row_start + render_row(r.take(x as int), f),
            decreases r.len() - x,
        {
            let t = row[x];
            proof {
                assert(t == r[x as int]);
            }
            if answer {
                match t {
                    Tile::Mine => {
                        out.append("[B]");
                        proof {
                            reveal_strlit("[B]");
                            assert("[B]"@ =~= seq!['[', 'B', ']']);
                        }
                    },
                    Tile::Hidden(v) => append_cell_count(&mut out, v),
                    Tile::Visible(v) => append_cell_count(&mut out, v),
                }
            } else {
                match t {
                    Tile::Visible(v) => append_cell_count(&mut out, v),
                    _ => {
                        out.append("[ ]");
                        proof {
                            reveal_strlit("[ ]");
                            assert("[ ]"@ =~= seq!['[', ' ', ']']);
                        }
                    },
                }
            }
            proof {
                lemma_render_row_step(r, f, x as int);
                assert(out@ =~= row_start + render_row(r.take(x as int + 1), f));
            }
            x = x + 1;
        }
        out.append("\n");
        proof {
            reveal_strlit("\n");
            assert(r.take(r.len() as int) =~= r);
            lemma_render_rows_step(g, f, y as int);
            assert(out@ =~= seq!['\n'] + render_rows(g.take(y as int + 1), f));
        }
        y = y + 1;
    }
    proof {
        assert(g.take(g.len() as int) =~= g);
    }
    out
}


// ------------------------------------------------------------------
// The concealed rendering differs from the full one while anything
// stays concealed
// ------------------------------------------------------------------

pub open spec fn row_all_visible(row: Seq<Tile>) -> bool {
    forall|j: int| 0 <= j < row.len() ==> (#[trigger] row[j]) is Visible
}

proof fn lemma_dec_first(v: int)
    requires
        0 <= v,
    ensures
        dec_digits(v).len() >= 1,
        dec_digits(v)[0] != ' ',
    decreases v,
{
    if v >= 10 {
        lemma_dec_first(v / 10);
        assert(dec_digits(v)[0] == dec_digits(v / 10)[0]);
    }
}

proof fn lemma_row_render_eq(row: Seq<Tile>)
    requires
        row_all_visible(row),
    ensures
        render_row(row, tile_session_fn()) == render_row(row, tile_answer_fn()),
    decreases row.len(),
{
    let fs = tile_session_fn();
    let fa = tile_answer_fn();
    if row.len() > 0 {
        assert forall|j: int| 0 <= j < row.drop_last().len() implies (
        #[trigger] row.drop_last()[j]) is Visible by {
            assert(row.drop_last()[j] == row[j]);
        }
        lemma_row_render_eq(row.drop_last());
        assert(row.last() is Visible);
        assert(fs(row.last()) == fa(row.last()));
    }
}

proof fn lemma_rows_render_eq(g: GridView)
    requires
        forall|y: int| 0 <= y < g.len() ==> row_all_visible(#[trigger] g[y]),
    ensures
        render_rows(g, tile_session_fn()) == render_rows(g, tile_answer_fn()),
    decreases g.len(),
{
    if g.len() > 0 {
        assert forall|y: int| 0 <= y < g.drop_last().len() implies row_all_visible(
            #[trigger] g.drop_last()[y],
        ) by {
            assert(g.drop_last()[y] == g[y]);
        }
        lemma_rows_render_eq(g.drop_last());
        lemma_row_render_eq(g.last());
    }
}

proof fn first_bad_cell(row: Seq<Tile>, i: int) -> (r: int)
    requires
        0 <= i <= row.len(),
        exists|j: int| i <= j < row.len() && !((#[trigger] row[j]) is Visible),
    ensures
        i <= r < row.len(),
        !(row[r] is Visible),
        forall|j: int| i <= j < r ==> (#[trigger] row[j]) is Visible,
    decreases row.len() - i,
{
    if row[i] is Visible {
        let j0 = choose|j: int| i <= j < row.len() && !((#[trigger] row[j]) is Visible);
        assert(j0 >= i + 1);
        first_bad_cell(row, i + 1)
    } else {
        i
    }
}

proof fn first_bad_row(g: GridView, i: int) -> (r: int)
    requires
        0 <= i <= g.len(),
        exists|y: int| i <= y < g.len() && !row_all_visible(#[trigger] g[y]),
    ensures
        i <= r < g.len(),
        !row_all_visible(g[r]),
        forall|y: int| i <= y < r ==> row_all_visible(#[trigger] g[y]),
    decreases g.len() - i,
{
    if row_all_visible(g[i]) {
        let y0 = choose|y: int| i <= y < g.len() && !row_all_visible(#[trigger] g[y]);
        assert(y0 >= i + 1);
        first_bad_row(g, i + 1)
    } else {
        i
    }
}

proof fn lemma_render_rows_single(row: Seq<Tile>, f: spec_fn(Tile) -> Seq<char>)
    ensures
        render_rows(seq![row], f) == render_row(row, f) + seq!['\n'],
{
    reveal_with_fuel(render_rows, 2);
    assert(seq![row].drop_last() =~= Seq::<Seq<Tile>>::empty());
    assert(seq![row].last() == row);
    assert(render_rows(seq![row], f) =~= render_row(row, f) + seq!['\n']);
}

proof fn lemma_render_row_single(t: Tile, f: spec_fn(Tile) -> Seq<char>)
    ensures
        render_row(seq![t], f) == f(t),
{
    reveal_with_fuel(render_row, 2);
    assert(seq![t].drop_last() =~= Seq::<Tile>::empty());
    assert(seq![t].last() == t);
    assert(render_row(seq![t], f) =~= f(t));
}

/// A rendering, split around one cell: what comes before it, the cell
/// itself, and what comes after.
proof fn lemma_render_split(g: GridView, f: spec_fn(Tile) -> Seq<char>, bx: int, by: int)
    requires
        in_grid(g, bx, by),
    ensures
        render_grid(g, f) == (seq!['\n'] + render_rows(g.take(by), f) + render_row(
            g[by].take(bx),
            f,
        )) + f(g[by][bx]) + (render_row(g[by].skip(bx + 1), f) + seq!['\n'] + render_rows(
            g.skip(by).skip(1),
            f,
        )),
{
    let row = g[by];
    assert(g =~= g.take(by) + g.skip(by));
    lemma_render_rows_concat(g.take(by), g.skip(by), f);
    let tail = g.skip(by);
    assert(tail =~= seq![row] + tail.skip(1));
    lemma_render_rows_concat(seq![row], tail.skip(1), f);
    lemma_render_rows_single(row, f);
    assert(row =~= row.take(bx) + row.skip(bx));
    lemma_render_row_concat(row.take(bx), row.skip(bx), f);
    assert(row.skip(bx) =~= seq![row[bx]] + row.skip(bx + 1));
    lemma_render_row_concat(seq![row[bx]], row.skip(bx + 1), f);
    lemma_render_row_single(row[bx], f);
    assert(render_grid(g, f) =~= (seq!['\n'] + render_rows(g.take(by), f) + render_row(
        row.take(bx),
        f,
    )) + f(row[bx]) + (render_row(row.skip(bx + 1), f) + seq!['\n'] + render_rows(
        tail.skip(1),
        f,
    )));
}

/// While at least one cell stays concealed, the rendering the player sees
/// differs from the full rendering: at the first concealed cell the player
/// sees a blank where the full rendering shows a mine mark or a count.
#[verifier::rlimit(100)]
#[verifier::spinoff_prover]
pub proof fn lemma_concealed_renderings_differ(g: GridView)
    requires
        exists|cx: int, cy: int|
            in_grid(g, cx, cy) && !((#[trigger] tile_at(g, cx, cy)) is Visible),
    ensures
        render_grid(g, tile_session_fn()) != render_grid(g, tile_answer_fn()),
{
    let fs = tile_session_fn();
    let fa = tile_answer_fn();
    let (cx0, cy0) = choose|cx: int, cy: int|
        in_grid(g, cx, cy) && !((#[trigger] tile_at(g, cx, cy)) is Visible);
    assert(!row_all_visible(g[cy0]));
    let by = first_bad_row(g, 0);
    let row = g[by];
    assert(exists|j: int| 0 <= j < row.len() && !((#[trigger] row[j]) is Visible));
    let bx = first_bad_cell(row, 0);
    let t = row[bx];

    lemma_render_split(g, fs, bx, by);
    lemma_render_split(g, fa, bx, by);

    // Everything before that cell renders the same both ways.
    assert forall|y: int| 0 <= y < g.take(by).len() implies row_all_visible(
        #[trigger] g.take(by)[y],
    ) by {
        assert(g.take(by)[y] == g[y]);
    }
    lemma_rows_render_eq(g.take(by));
    assert forall|j: int| 0 <= j < row.take(bx).len() implies (
    #[trigger] row.take(bx)[j]) is Visible by {
        assert(row.take(bx)[j] == row[j]);
    }
    lemma_row_render_eq(row.take(bx));

    let p = seq!['\n'] + render_rows(g.take(by), fs) + render_row(row.take(bx), fs);
    assert(render_grid(g, fa) == p + fa(t) + (render_row(row.skip(bx + 1), fa) + seq!['\n']
        + render_rows(g.skip(by).skip(1), fa)));

    // At the cell itself the two renderings disagree.
    let k = p.len() as int + 1;
    assert(fs(t) =~= seq!['[', ' ', ']']);
    assert(render_grid(g, fs)[k] == ' ');
    match t {
        Tile::Mine => {
            assert(fa(t) =~= seq!['[', 'B', ']']);
            assert(render_grid(g, fa)[k] == 'B');
        },
        Tile::Hidden(v) => {
            lemma_dec_first(v as int);
            assert(fa(t) == seq!['['] + dec_digits(v as int) + seq![']']);
            assert(fa(t)[1] == dec_digits(v as int)[0]);
            assert(render_grid(g, fa)[k] == dec_digits(v as int)[0]);
        },
        Tile::Visible(_) => {
            assert(false);
        },
    }
    assert(render_grid(g, fs)[k] != render_grid(g, fa)[k]);
}

} // verus!
