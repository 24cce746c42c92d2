//! Encoding moves and move sequences into the packed board word.

use vstd::prelude::*;
use vstd::string::StringSliceAdditionalSpecFns;
use crate::board::{
    cell_index, landing_row, landing_row_from, move_bit, nth, occupied, occupied_at,
};
use crate::moves::{column_mask, lemma_column_mask_bits};
use crate::color::PlayerColor;

verus! {

/// Turns a column (counted 1..7 from the left), an encoded gamestate and the
/// color who is to play into the encoded move word: the single bit of the
/// lowest free cell of that column. Also returns the row the token lands in,
/// counted 1..6 from the bottom. Returns `None` when the column is out of
/// range or full.
pub fn turn_column_to_encoded_gamestate(gamestate: u128, column: u32, color: &PlayerColor) -> (res:
    Option<(u128, u8)>)
    ensures
        (column < 1 || column > 7) ==> res is None,
        1 <= column <= 7 ==> {
            let lr = landing_row(gamestate, column as int - 1);
            if lr == -1 {
                res is None
            } else {
                res == Some((move_bit(*color, lr, column as int - 1), (6 - lr) as u8))
            }
        },
{
    // Check if column is a valid entry
    if column < 1 || column > 7 {
        return None;
    }
    let c0: i32 = (column as i32) - 1;
    let ghost c = c0 as int;
    let mut r: i32 = 5;
    loop
        invariant
            -1 <= r <= 5,
            0 <= c0 < 7,
            1 <= column <= 7,
            c == c0 as int,
            c == column as int - 1,
            forall|rr: int| r < rr <= 5 ==> occupied(gamestate, rr, c),
            landing_row(gamestate, c) == landing_row_from(gamestate, c, r as int),
        decreases r + 1,
    {
        if r < 0 {
            proof {
                assert(landing_row_from(gamestate, c, -1) == -1);
            }
            return None;
        }
        if !occupied_at(gamestate, r, c0) {
            let off: u32 = (14 * r + 2 * c0) as u32;
            let row_number: u8 = (6 - r) as u8;
            proof {
                assert(landing_row(gamestate, c) == r as int);
                let rr = r as u128;
                let cc = c0 as u128;
                assert(off as u128 == cell_index(r as int, c) as u128);
                assert((off + 1) as u128 == (cell_index(r as int, c) + 1) as u128);
                assert(1u128 << (off as u128) == move_bit(PlayerColor::Blue, r as int, c));
                assert(1u128 << ((off + 1) as u128) == move_bit(PlayerColor::Red, r as int, c));
            }
            return match color {
                PlayerColor::Blue => Some((1u128 << (off as u128), row_number)),
                PlayerColor::Red => Some((1u128 << ((off + 1) as u128), row_number)),
            };
        }
        r = r - 1;
    }
}

/// The board reached by dropping the digit-named columns of `s` one after
/// the other, `color` first; `None` as soon as a byte is no digit `1..7`
/// or its column is full.
pub open spec fn play_from(g: u128, s: Seq<u8>, color: PlayerColor) -> Option<u128>
    decreases s.len(),
{
    if s.len() == 0 {
        Some(g)
    } else if s[0] < 49 || s[0] > 55 {
        None
    } else {
        let col = s[0] - 49;
        if landing_row(g, col) == -1 {
            None
        } else {
            play_from(
                (g | move_bit(color, landing_row(g, col), col)),
                s.drop_first(),
                color.other(),
            )
        }
    }
}

/// The board a digit string encodes, played from the empty board with blue
/// first.
pub open spec fn play_columns(s: Seq<u8>) -> Option<u128> {
    play_from(0, s, PlayerColor::Blue)
}

/// Turns a series of columns, written as the digits `1..7` oldest move
/// first, into the encoded gamestate it reaches from the empty board.
pub fn turn_series_of_columns_to_encoded_gamestate(series_of_columns: &str) -> (res: u128)
    requires
        play_columns(series_of_columns.spec_bytes()) is Some,
    ensures
        Some(res) == play_columns(series_of_columns.spec_bytes()),
{
    let bytes = series_of_columns.as_bytes();
    let ghost s = series_of_columns.spec_bytes();
    let mut current_gamestate: u128 = 0;
    let mut current_player = PlayerColor::Blue;
    let mut i: usize = 0;
    proof {
        assert(s.skip(0) =~= s);
    }
    while i < bytes.len()
        invariant
            bytes@ == s,
            i <= s.len(),
            play_from(current_gamestate, s.skip(i as int), current_player) == play_columns(s),
            play_columns(s) is Some,
        decreases s.len() - i,
    {
        let b = bytes[i];
        proof {
            assert(s.skip(i as int)[0] == s[i as int]);
            assert(s.skip(i as int).drop_first() =~= s.skip(i as int + 1));
        }
        if b < 49 || b > 55 {
            proof {
                assert(false);
            }
            return 0;
        }
        let column = (b - 48) as u32;
        let next_move = turn_column_to_encoded_gamestate(
            current_gamestate,
            column,
            &current_player,
        );
        match next_move {
            Some((m, _)) => {
                proof {
                    crate::board::lemma_or_comm(m, current_gamestate);
                }
                current_gamestate = m | current_gamestate;
            },
            None => {
                proof {
                    assert(false);
                }
                return 0;
            },
        }
        current_player = match current_player {
            PlayerColor::Blue => PlayerColor::Red,
            PlayerColor::Red => PlayerColor::Blue,
        };
        i = i + 1;
    }
    proof {
        assert(s.skip(i as int) =~= Seq::<u8>::empty());
    }
    current_gamestate
}

/// Given an encoded gamestate, returns the first column, counted 1..7 from
/// the left, that holds a token of any color; `None` on an empty board.
pub fn encoded_gamestate_to_column(gamestate: u128) -> (res: Option<u32>)
    ensures
        match res {
            Some(col) => 1 <= col <= 7 && (exists|j: u128|
                j < 84 && (j % 14) / 2 == col - 1 && #[trigger] nth(gamestate, j)) && (forall|
                j: u128,
            |
                j < 84 && (j % 14) / 2 < col - 1 ==> !(#[trigger] nth(gamestate, j))),
            None => forall|j: u128| j < 84 ==> !(#[trigger] nth(gamestate, j)),
        },
{
    let m = gamestate;
    let mut column_encoded: u128 = 3541991048129292582915;
    let mut column: u32 = 0;
    proof {
        crate::board::lemma_column_mask_shift(0);
        assert((2 * 0) as u128 == 0u128);
    }
    while column < 7
        invariant
            0 <= column <= 7,
            column_encoded == column_mask(column as int),
            forall|j: u128| j < 84 && (j % 14) / 2 < column ==> !(#[trigger] nth(m, j)),
            m == gamestate,
        decreases 7 - column,
    {
        proof {
            lemma_column_mask_bits(column as u128);
            assert((2 * (column as u128)) as u128 == (2 * (column as int)) as u128);
            crate::board::lemma_nth_and(m, column_encoded);
            crate::moves::lemma_nth_zero();
        }
        if m & column_encoded > 0 {
            proof {
                let k = crate::board::lemma_some_bit(m & column_encoded);
                assert(nth(m, k) && nth(column_encoded, k));
            }
            return Some(column + 1);
        }
        proof {
            assert forall|j: u128|
                j < 84 && (j % 14) / 2 < column + 1 implies !(#[trigger] nth(m, j)) by {
                if (j % 14) / 2 == column as u128 {
                    assert(nth(m & column_encoded, j) == (nth(m, j) && nth(column_encoded, j)));
                    assert(nth(column_encoded, j));
                }
            }
            crate::board::lemma_column_mask_shift(column as u128);
            assert((2 * ((column as u128) + 1)) as u128 == (2 * (column as int + 1)) as u128);
        }
        column_encoded = column_encoded << 2;
        column = column + 1;
    }
    None
}

/// How one cell of the board renders: a blue, red or brown square and a
/// space.
pub open spec fn cell_text(g: u128, i: int) -> Seq<char> {
    if nth(g, (2 * i) as u128) {
        "🟦 "@
    } else if nth(g, (2 * i + 1) as u128) {
        "🟥 "@
    } else {
        "🟫 "@
    }
}

/// How one cell of the board renders for the web: a div of the cell's
/// color.
pub open spec fn cell_web_text(g: u128, i: int) -> Seq<char> {
    if nth(g, (2 * i) as u128) {
        "<div class=\"box_blue\"></div>"@
    } else if nth(g, (2 * i + 1) as u128) {
        "<div class=\"box_red\"></div>"@
    } else {
        "<div class=\"box_white\"></div>"@
    }
}

/// The label closing a printed row.
pub open spec fn row_label(row: int) -> Seq<char> {
    if row == 1 {
        " 1 "@
    } else if row == 2 {
        " 2 "@
    } else if row == 3 {
        " 3 "@
    } else if row == 4 {
        " 4 "@
    } else if row == 5 {
        " 5 "@
    } else {
        " 6 "@
    }
}

/// The printable body of a board: the cells from `i` on in bit order, a
/// row label and line break after every seventh.
pub open spec fn console_body(g: u128, lb: Seq<char>, i: int) -> Seq<char>
    decreases 42 - i,
{
    if i < 0 || i >= 42 {
        Seq::empty()
    } else {
        cell_text(g, i) + (if (i + 1) % 7 == 0 {
            row_label((i + 1) / 7) + lb
        } else {
            Seq::empty()
        }) + console_body(g, lb, i + 1)
    }
}

/// The web body of a board: the div of every cell from `i` on, in bit
/// order.
pub open spec fn web_body(g: u128, i: int) -> Seq<char>
    decreases 42 - i,
{
    if i < 0 || i >= 42 {
        Seq::empty()
    } else {
        cell_web_text(g, i) + web_body(g, i + 1)
    }
}

/// Turns an encoded gamestate into a string: for the line break `"\n"` a
/// square-per-cell picture with row labels and a column footer, for
/// `"<br>"` a row of html divs, and for anything else only the two closing
/// line breaks that every format ends with.
pub fn encoded_gamestate_to_str(gamestate: u128, line_break_str: &str) -> (res: String)
    ensures
        line_break_str@ == "\n"@ ==> res@ == console_body(gamestate, line_break_str@, 0)
            + line_break_str@ + "1  2  3  4  5  6  7  "@ + line_break_str@ + line_break_str@,
        line_break_str@ == "<br>"@ ==> res@ == web_body(gamestate, 0) + line_break_str@
            + line_break_str@,
        line_break_str@ != "\n"@ && line_break_str@ != "<br>"@ ==> res@ == line_break_str@
            + line_break_str@,
{
    let mut playing_field: String = String::new();
    proof {
        reveal_strlit("\n");
        reveal_strlit("<br>");
    }
    let newline = str_eq(line_break_str, "\n");
    let web = str_eq(line_break_str, "<br>");

    if newline {
        let mut g = gamestate;
        let mut i: usize = 0;
        let mut row: u8 = 1;
        while i < 42
            invariant
                0 <= i <= 42,
                row == i / 7 + 1,
                line_break_str@ == "\n"@,
                playing_field@ + console_body(gamestate, line_break_str@, i as int)
                    == console_body(gamestate, line_break_str@, 0),
                forall|j: u128| j < 128 - 2 * i ==> nth(g, j) == nth(gamestate, (j + 2 * i) as u128),
            decreases 42 - i,
        {
            proof {
                assert(nth(g, 0) == nth(gamestate, (2 * (i as int)) as u128));
                assert(nth(g, 1) == nth(gamestate, (2 * (i as int) + 1) as u128));
                crate::board::lemma_low_pair_step(g);
                reveal_strlit("🟦 ");
                reveal_strlit("🟥 ");
                reveal_strlit("🟫 ");
            }
            if g & 1 == 1 {
                playing_field.append("🟦 ");
            } else if g & 2 == 2 {
                playing_field.append("🟥 ");
            } else {
                playing_field.append("🟫 ");
            }
            proof {
                crate::board::lemma_low_pair_step(g);
            }
            g = g / 4;

            if (i + 1) % 7 == 0 {
                proof {
                    reveal_strlit(" 1 ");
                    reveal_strlit(" 2 ");
                    reveal_strlit(" 3 ");
                    reveal_strlit(" 4 ");
                    reveal_strlit(" 5 ");
                    reveal_strlit(" 6 ");
                }
                if row == 1 {
                    playing_field.append(" 1 ");
                } else if row == 2 {
                    playing_field.append(" 2 ");
                } else if row == 3 {
                    playing_field.append(" 3 ");
                } else if row == 4 {
                    playing_field.append(" 4 ");
                } else if row == 5 {
                    playing_field.append(" 5 ");
                } else {
                    playing_field.append(" 6 ");
                }
                playing_field.append(line_break_str);
                row = row + 1;
            }
            i = i + 1;
        }
        proof {
            assert(console_body(gamestate, line_break_str@, 42) =~= Seq::<char>::empty());
            assert(playing_field@ + Seq::<char>::empty() =~= playing_field@);
        }
        playing_field.append(line_break_str);
        playing_field.append("1  2  3  4  5  6  7  ");
    } else if web {
        let mut g = gamestate;
        let mut i: usize = 0;
        while i < 42
            invariant
                0 <= i <= 42,
                line_break_str@ == "<br>"@,
                playing_field@ + web_body(gamestate, i as int) == web_body(gamestate, 0),
                forall|j: u128| j < 128 - 2 * i ==> nth(g, j) == nth(gamestate, (j + 2 * i) as u128),
            decreases 42 - i,
        {
            proof {
                assert(nth(g, 0) == nth(gamestate, (2 * (i as int)) as u128));
                assert(nth(g, 1) == nth(gamestate, (2 * (i as int) + 1) as u128));
                crate::board::lemma_low_pair_step(g);
                reveal_strlit("<div class=\"box_blue\"></div>");
                reveal_strlit("<div class=\"box_red\"></div>");
                reveal_strlit("<div class=\"box_white\"></div>");
            }
            if g & 1 == 1 {
                playing_field.append("<div class=\"box_blue\"></div>");
            } else if g & 2 == 2 {
                playing_field.append("<div class=\"box_red\"></div>");
            } else {
                playing_field.append("<div class=\"box_white\"></div>");
            }
            proof {
                crate::board::lemma_low_pair_step(g);
            }
            g = g / 4;
            i = i + 1;
        }
        proof {
            assert(web_body(gamestate, 42) =~= Seq::<char>::empty());
            assert(playing_field@ + Seq::<char>::empty() =~= playing_field@);
        }
    }

    playing_field.append(line_break_str);
    playing_field.append(line_break_str);

    playing_field
}

/// Returns the encoded gamestate as a string with an encoding suitable
/// for web and html.
pub fn encoded_gamestate_as_string_for_web(gamestate: u128) -> (res: String)
    ensures
        res@ == web_body(gamestate, 0) + "<br>"@ + "<br>"@,
{
    encoded_gamestate_to_str(gamestate, "<br>")
}

/// Compares two string slices byte for byte.
fn str_eq(a: &str, b: &str) -> (r: bool)
    ensures
        r == (a@ == b@),
{
    let ab = a.as_bytes();
    let bb = b.as_bytes();
    if ab.len() != bb.len() {
        proof {
            if a@ == b@ {
                assert(a.spec_bytes() == b.spec_bytes());
            }
        }
        return false;
    }
    let mut i: usize = 0;
    while i < ab.len()
        invariant
            ab@ == a.spec_bytes(),
            bb@ == b.spec_bytes(),
            ab@.len() == bb@.len(),
            i <= ab@.len(),
            forall|j: int| 0 <= j < i ==> ab@[j] == bb@[j],
        decreases ab@.len() - i,
    {
        if ab[i] != bb[i] {
            proof {
                if a@ == b@ {
                    assert(a.spec_bytes() == b.spec_bytes());
                }
            }
            return false;
        }
        i = i + 1;
    }
    proof {
        assert(a.spec_bytes() =~= b.spec_bytes());
        vstd::utf8::encode_utf8_decode_utf8(a@);
        vstd::utf8::encode_utf8_decode_utf8(b@);
        assert(a@ == b@);
    }
    true
}

/// A legal play from a legal board ends in a legal board with one token
/// per played digit.
pub proof fn lemma_play_from_valid(g: u128, s: Seq<u8>, color: PlayerColor)
    requires
        crate::board::valid_gamestate(g),
        play_from(g, s, color) is Some,
    ensures
        crate::board::valid_gamestate(play_from(g, s, color)->0),
        crate::board::popcount(play_from(g, s, color)->0) == crate::board::popcount(g) + s.len(),
    decreases s.len(),
{
    if s.len() > 0 {
        let col = s[0] - 49;
        let lr = landing_row(g, col);
        crate::board::lemma_landing_row(g, col);
        crate::board::lemma_place_token(g, color, lr, col);
        let h = g | move_bit(color, lr, col);
        assert forall|r2: int, c2: int|
            crate::board::in_board(r2, c2) && r2 < 5 && occupied(h, r2, c2) implies occupied(
            h,
            r2 + 1,
            c2,
        ) by {
            if r2 == lr && c2 == col {
                assert(occupied(g, r2 + 1, c2));
            }
        }
        lemma_play_from_valid(h, s.drop_first(), color.other());
    }
}

/// Decodes a digit string into the board it reaches, `None` when some
/// digit is no playable column. The total companion of
/// [`turn_series_of_columns_to_encoded_gamestate`].
pub fn try_play_columns(series_of_columns: &str) -> (res: Option<u128>)
    ensures
        res == play_columns(series_of_columns.spec_bytes()),
{
    let bytes = series_of_columns.as_bytes();
    let ghost s = series_of_columns.spec_bytes();
    let mut current_gamestate: u128 = 0;
    let mut current_player = PlayerColor::Blue;
    let mut i: usize = 0;
    proof {
        assert(s.skip(0) =~= s);
    }
    while i < bytes.len()
        invariant
            bytes@ == s,
            s == series_of_columns.spec_bytes(),
            i <= s.len(),
            play_from(current_gamestate, s.skip(i as int), current_player) == play_columns(s),
        decreases s.len() - i,
    {
        let b = bytes[i];
        proof {
            assert(s.skip(i as int)[0] == s[i as int]);
            assert(s.skip(i as int).drop_first() =~= s.skip(i as int + 1));
        }
        if b < 49 || b > 55 {
            proof {
                assert(play_from(current_gamestate, s.skip(i as int), current_player) is None);
            }
            return None;
        }
        let column = (b - 48) as u32;
        let next_move = turn_column_to_encoded_gamestate(
            current_gamestate,
            column,
            &current_player,
        );
        match next_move {
            Some((m, _)) => {
                proof {
                    crate::board::lemma_or_comm(m, current_gamestate);
                }
                current_gamestate = m | current_gamestate;
            },
            None => {
                proof {
                    assert(landing_row(current_gamestate, b - 49) == -1);
                    assert(play_from(current_gamestate, s.skip(i as int), current_player) is None);
                }
                return None;
            },
        }
        current_player = match current_player {
            PlayerColor::Blue => PlayerColor::Red,
            PlayerColor::Red => PlayerColor::Blue,
        };
        i = i + 1;
    }
    proof {
        assert(s.skip(i as int) =~= Seq::<u8>::empty());
    }
    Some(current_gamestate)
}

} // verus!
