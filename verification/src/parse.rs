use vstd::prelude::*;

verus! {

use crate::grid::GridView;
use crate::tile::Tile;

// ------------------------------------------------------------------
// The board text format: whitespace-separated rows of comma-separated
// cell tokens; a token of digits is a safe cell's count, anything else
// is a mine
// ------------------------------------------------------------------

pub open spec fn is_ws(c: char) -> bool {
    c == ' ' || c == '\n' || c == '\t' || c == '\r'
}

/// The maximal runs of non-whitespace characters, in order.
pub open spec fn split_ws(s: Seq<char>) -> Seq<Seq<char>>
    decreases s.len(),
{
    if s.len() == 0 {
        Seq::empty()
    } else {
        let rest = split_ws(s.drop_last());
        let c = s.last();
        if is_ws(c) {
            rest
        } else if s.len() == 1 || is_ws(s[s.len() - 2]) {
            rest.push(seq![c])
        } else {
            rest.update(rest.len() - 1, rest.last().push(c))
        }
    }
}

/// The fields between commas; empty fields are kept, and the empty text
/// has one empty field.
pub open spec fn split_comma(s: Seq<char>) -> Seq<Seq<char>>
    decreases s.len(),
{
    if s.len() == 0 {
        seq![Seq::empty()]
    } else {
        let rest = split_comma(s.drop_last());
        if s.last() == ',' {
            rest.push(Seq::empty())
        } else {
            rest.update(rest.len() - 1, rest.last().push(s.last()))
        }
    }
}

pub open spec fn is_digit_char(c: char) -> bool {
    48 <= c as int <= 57
}

pub open spec fn digit_val(c: char) -> int {
    c as int - 48
}

pub open spec fn all_digits(t: Seq<char>) -> bool {
    forall|i: int| 0 <= i < t.len() ==> is_digit_char(#[trigger] t[i])
}

/// The number a run of digits denotes.
pub open spec fn digits_val(t: Seq<char>) -> int
    decreases t.len(),
{
    if t.len() == 0 {
        0
    } else {
        digits_val(t.drop_last()) * 10 + digit_val(t.last())
    }
}

/// The cell one token denotes: a count that fits a cell becomes a safe
/// cell, concealed or exposed as asked; any other token is a mine.
pub open spec fn token_tile(t: Seq<char>, hidden: bool) -> Tile {
    if t.len() >= 1 && all_digits(t) && digits_val(t) <= 255 {
        if hidden {
            Tile::Hidden(digits_val(t) as u8)
        } else {
            Tile::Visible(digits_val(t) as u8)
        }
    } else {
        Tile::Mine
    }
}

pub open spec fn row_tiles(fields: Seq<Seq<char>>, hidden: bool) -> Seq<Tile> {
    fields.map_values(|t: Seq<char>| token_tile(t, hidden))
}

/// The grid a board description denotes.
pub open spec fn parsed_grid(s: Seq<char>, hidden: bool) -> GridView {
    split_ws(s).map_values(|r: Seq<char>| row_tiles(split_comma(r), hidden))
}

/// A description is accepted when it has at least one row and all rows
/// carry the same number of fields.
pub open spec fn parse_ok(s: Seq<char>) -> bool {
    &&& split_ws(s).len() >= 1
    &&& forall|i: int|
        0 <= i < split_ws(s).len() ==> split_comma(#[trigger] split_ws(s)[i]).len()
            == split_comma(split_ws(s)[0]).len()
}

pub open spec fn views_of(vs: Seq<Vec<char>>) -> Seq<Seq<char>> {
    vs.map_values(|v: Vec<char>| v@)
}

// ------------------------------------------------------------------
// Running the splits
// ------------------------------------------------------------------

/// The characters of a text, in order.
pub(crate) fn chars_of(s: &str) -> (out: Vec<char>)
    ensures
        out@ == s@,
{
    broadcast use vstd::string::axiom_spec_iter, vstd::string::next_postcondition;

    let mut out: Vec<char> = Vec::new();
    let mut it = s.chars();
    loop
        invariant_except_break
            out@.len() <= s@.len(),
            out@ == s@.take(out@.len() as int),
            vstd::std_specs::iter::IteratorSpec::remaining(&it) == s@.skip(out@.len() as int),
        ensures
            out@ == s@,
        decreases s@.len() - out@.len(),
    {
        let ghost rem0 = vstd::std_specs::iter::IteratorSpec::remaining(&it);
        match it.next() {
            Some(c) => {
                proof {
                    assert(rem0.len() > 0);
                    assert(c == rem0[0]);
                    assert(rem0[0] == s@[out@.len() as int]);
                    assert(rem0.drop_first() =~= s@.skip(out@.len() as int + 1));
                    assert(s@.take(out@.len() as int).push(c) =~= s@.take(out@.len() as int + 1));
                }
                out.push(c);
            },
            None => {
                proof {
                    assert(rem0.len() == 0);
                    assert(out@.len() == s@.len());
                    assert(s@.take(s@.len() as int) =~= s@);
                }
                break;
            },
        }
    }
    out
}

/// Splits a text into its whitespace-separated tokens.
pub(crate) fn split_ws_exec(chars: &Vec<char>) -> (out: Vec<Vec<char>>)
    ensures
        views_of(out@) == split_ws(chars@),
{
    let mut out: Vec<Vec<char>> = Vec::new();
    let mut cur: Vec<char> = Vec::new();
    let mut i: usize = 0;
    proof {
        assert(chars@.take(0) =~= Seq::<char>::empty());
        assert(views_of(out@) =~= split_ws(chars@.take(0)));
    }
    while i < chars.len()
        invariant
            0 <= i <= chars@.len(),
            cur@.len() == 0 ==> (i == 0 || is_ws(chars@[i as int - 1])) && views_of(out@)
                == split_ws(chars@.take(i as int)),
            cur@.len() > 0 ==> i > 0 && !is_ws(chars@[i as int - 1]) && views_of(out@).push(cur@)
                == split_ws(chars@.take(i as int)),
        decreases chars@.len() - i,
    {
        let c = chars[i];
        let ghost pre = chars@.take(i as int);
        let ghost post = chars@.take(i as int + 1);
        proof {
            assert(post.drop_last() =~= pre);
            assert(post.last() == c);
        }
        if c == ' ' || c == '\n' || c == '\t' || c == '\r' {
            if cur.len() > 0 {
                let ghost o0 = out@;
                let ghost c0 = cur@;
                out.push(cur);
                cur = Vec::new();
                proof {
                    assert(views_of(out@) =~= views_of(o0).push(c0));
                }
            }
            proof {
                assert(views_of(out@) == split_ws(post));
            }
        } else {
            if cur.len() == 0 {
                cur.push(c);
                proof {
                    assert(cur@ =~= seq![c]);
                    assert(split_ws(post) =~= split_ws(pre).push(seq![c]));
                    assert(views_of(out@).push(cur@) == split_ws(post));
                }
            } else {
                let ghost cur0 = cur@;
                cur.push(c);
                proof {
                    let rest = split_ws(pre);
                    assert(rest == views_of(out@).push(cur0));
                    assert(rest.len() >= 1);
                    assert(rest.last() == cur0);
                    assert(split_ws(post) == rest.update(rest.len() - 1, cur0.push(c)));
                    assert(rest.update(rest.len() - 1, cur0.push(c)) =~= views_of(out@).push(
                        cur0.push(c),
                    ));
                    assert(views_of(out@).push(cur@) == split_ws(post));
                }
            }
        }
        i = i + 1;
    }
    proof {
        assert(chars@.take(chars@.len() as int) =~= chars@);
    }
    if cur.len() > 0 {
        let ghost o0 = out@;
        let ghost c0 = cur@;
        out.push(cur);
        proof {
            assert(views_of(out@) =~= views_of(o0).push(c0));
        }
    }
    out
}

/// Splits a row token into its comma-separated fields.
pub(crate) fn split_comma_exec(tok: &Vec<char>) -> (out: Vec<Vec<char>>)
    ensures
        views_of(out@) == split_comma(tok@),
{
    let mut out: Vec<Vec<char>> = Vec::new();
    let mut cur: Vec<char> = Vec::new();
    let mut i: usize = 0;
    proof {
        assert(tok@.take(0) =~= Seq::<char>::empty());
        assert(views_of(out@).push(cur@) =~= split_comma(tok@.take(0)));
    }
    while i < tok.len()
        invariant
            0 <= i <= tok@.len(),
            views_of(out@).push(cur@) == split_comma(tok@.take(i as int)),
        decreases tok@.len() - i,
    {
        let c = tok[i];
        let ghost pre = tok@.take(i as int);
        let ghost post = tok@.take(i as int + 1);
        proof {
            assert(post.drop_last() =~= pre);
            assert(post.last() == c);
        }
        if c == ',' {
            let ghost o0 = out@;
            let ghost c0 = cur@;
            out.push(cur);
            cur = Vec::new();
            proof {
                assert(views_of(out@) =~= views_of(o0).push(c0));
                assert(split_comma(post) == split_comma(pre).push(Seq::empty()));
                assert(views_of(out@).push(cur@) =~= split_comma(pre).push(Seq::empty()));
            }
        } else {
            let ghost c0 = cur@;
            cur.push(c);
            proof {
                let rest = split_comma(pre);
                assert(rest == views_of(out@).push(c0));
                assert(rest.len() >= 1);
                assert(rest.last() == c0);
                assert(split_comma(post) == rest.update(rest.len() - 1, c0.push(c)));
                assert(rest.update(rest.len() - 1, c0.push(c)) =~= views_of(out@).push(
                    c0.push(c),
                ));
            }
        }
        i = i + 1;
    }
    proof {
        assert(tok@.take(tok@.len() as int) =~= tok@);
    }
    let ghost o0 = out@;
    let ghost c0 = cur@;
    out.push(cur);
    proof {
        assert(views_of(out@) =~= views_of(o0).push(c0));
    }
    out
}

/// The digit a character denotes, if any.
fn digit_of(c: char) -> (r: Option<u32>)
    ensures
        r is Some <==> is_digit_char(c),
        r is Some ==> r->0 as int == digit_val(c),
{
    match c {
        '0' => Some(0),
        '1' => Some(1),
        '2' => Some(2),
        '3' => Some(3),
        '4' => Some(4),
        '5' => Some(5),
        '6' => Some(6),
        '7' => Some(7),
        '8' => Some(8),
        '9' => Some(9),
        _ => None,
    }
}

/// The cell a single token denotes.
pub(crate) fn tile_of_token(t: &Vec<char>, hidden: bool) -> (r: Tile)
    ensures
        r == token_tile(t@, hidden),
{
    if t.len() == 0 {
        return Tile::Mine;
    }
    let mut val: u32 = 0;
    let mut big = false;
    let mut i: usize = 0;
    while i < t.len()
        invariant
            0 <= i <= t@.len(),
            all_digits(t@.take(i as int)),
            !big ==> val <= 255 && val as int == digits_val(t@.take(i as int)),
            big ==> digits_val(t@.take(i as int)) > 255,
        decreases t@.len() - i,
    {
        let c = t[i];
        let ghost pre = t@.take(i as int);
        let ghost post = t@.take(i as int + 1);
        proof {
            assert(post.drop_last() =~= pre);
            assert(post.last() == c);
        }
        let d = match digit_of(c) {
            Some(d) => d,
            None => {
                proof {
                    assert(t@[i as int] == c);
                    assert(!is_digit_char(t@[i as int]));
                }
                return Tile::Mine;
            },
        };
        proof {
            assert(t@[i as int] == c);
            assert(is_digit_char(t@[i as int]));
            assert forall|j: int| 0 <= j < post.len() implies is_digit_char(
                #[trigger] post[j],
            ) by {
                if j < i as int {
                    assert(post[j] == pre[j]);
                } else {
                    assert(post[j] == c);
                }
            }
            assert(digits_val(post) == digits_val(pre) * 10 + digit_val(c));
        }
        if big {
            proof {
                assert(digits_val(pre) * 10 + digit_val(c) > 255);
            }
        } else {
            let nv = val * 10 + d;
            if nv > 255 {
                big = true;
            } else {
                val = nv;
            }
        }
        i = i + 1;
    }
    proof {
        assert(t@.take(t@.len() as int) =~= t@);
    }
    if big {
        Tile::Mine
    } else {
        if hidden {
            Tile::Hidden(val as u8)
        } else {
            Tile::Visible(val as u8)
        }
    }
}

} // verus!
