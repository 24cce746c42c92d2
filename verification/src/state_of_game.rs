//! End-of-game tests: a filled board and completed four-in-a-rows.

use vstd::prelude::*;
use crate::board::{
    cell_index, color_at, dir_ok, game_over, has_line, in_board, line4, nth, popcount,
    window_in_board, winner_of,
};
use crate::color::PlayerColor;

verus! {

/// Returns whether the board is full and the game is over given an encoded
/// gamestate.
pub fn is_full(gamestate: u128) -> (r: bool)
    ensures
        r == (popcount(gamestate) == 42),
{
    gamestate.count_ones() == 42
}

/// Returns true if someone has won or the board is full, otherwise false,
/// given an encoded gamestate.
pub fn is_over(gamestate: u128) -> (r: bool)
    ensures
        r == game_over(gamestate),
{
    if is_full(gamestate) {
        true
    } else {
        match is_won(gamestate) {
            Some(_) => true,
            None => false,
        }
    }
}

/// Reads one cell of the board.
fn cell_has(g: u128, color: PlayerColor, r: i32, c: i32) -> (b: bool)
    requires
        in_board(r as int, c as int),
    ensures
        b == color_at(g, color, r as int, c as int),
{
    let off: u32 = match color {
        PlayerColor::Blue => (14 * r + 2 * c) as u32,
        PlayerColor::Red => (14 * r + 2 * c + 1) as u32,
    };
    proof {
        match color {
            PlayerColor::Blue => {
                assert(off as u128 == cell_index(r as int, c as int) as u128);
            },
            PlayerColor::Red => {
                assert(off as u128 == (cell_index(r as int, c as int) + 1) as u128);
            },
        }
    }
    (g >> (off as u128)) & 1 == 1
}

/// Scans every window of four in the direction `(dr, dc)`.
fn has_line_dir(g: u128, color: PlayerColor, dr: i32, dc: i32) -> (b: bool)
    requires
        dir_ok(dr as int, dc as int),
    ensures
        b == exists|r: int, c: int|
            window_in_board(r, c, dr as int, dc as int) && line4(
                g,
                color,
                r,
                c,
                dr as int,
                dc as int,
            ),
{
    let mut r: i32 = 0;
    while r < 6
        invariant
            0 <= r <= 6,
            dir_ok(dr as int, dc as int),
            forall|rr: int, cc: int|
                rr < r && window_in_board(rr, cc, dr as int, dc as int) ==> !line4(
                    g,
                    color,
                    rr,
                    cc,
                    dr as int,
                    dc as int,
                ),
        decreases 6 - r,
    {
        let mut c: i32 = 0;
        while c < 7
            invariant
                0 <= r < 6,
                0 <= c <= 7,
                dir_ok(dr as int, dc as int),
                forall|rr: int, cc: int|
                    rr < r && window_in_board(rr, cc, dr as int, dc as int) ==> !line4(
                        g,
                        color,
                        rr,
                        cc,
                        dr as int,
                        dc as int,
                    ),
                forall|cc: int|
                    cc < c && window_in_board(r as int, cc, dr as int, dc as int) ==> !line4(
                        g,
                        color,
                        r as int,
                        cc,
                        dr as int,
                        dc as int,
                    ),
            decreases 7 - c,
        {
            let r3 = r + 3 * dr;
            let c3 = c + 3 * dc;
            if 0 <= r3 && r3 < 6 && 0 <= c3 && c3 < 7 {
                if cell_has(g, color, r, c) && cell_has(g, color, r + dr, c + dc) && cell_has(
                    g,
                    color,
                    r + 2 * dr,
                    c + 2 * dc,
                ) && cell_has(g, color, r3, c3) {
                    proof {
                        assert(window_in_board(r as int, c as int, dr as int, dc as int));
                        assert(line4(g, color, r as int, c as int, dr as int, dc as int));
                    }
                    return true;
                }
            }
            c = c + 1;
        }
        r = r + 1;
    }
    false
}

/// Returns which player color has won the game, if any, given an encoded
/// gamestate. No line can be complete before the seventh token, so earlier
/// boards are answered without scanning; red's lines are looked for first.
pub fn is_won(gamestate: u128) -> (r: Option<PlayerColor>)
    ensures
        r == winner_of(gamestate),
{
    proof {
        crate::board::lemma_popcount_le_128(gamestate);
    }
    // Can't win before the 7th turn
    if gamestate.count_ones() < 6 {
        return None;
    }
    if has_any_line(gamestate, PlayerColor::Red) {
        Some(PlayerColor::Red)
    } else if has_any_line(gamestate, PlayerColor::Blue) {
        Some(PlayerColor::Blue)
    } else {
        None
    }
}

/// Scans all four directions for a completed line of `color`.
fn has_any_line(g: u128, color: PlayerColor) -> (b: bool)
    ensures
        b == has_line(g, color),
{
    let horiz = has_line_dir(g, color, 0, 1);
    let vert = has_line_dir(g, color, 1, 0);
    let diag_down = has_line_dir(g, color, 1, 1);
    let diag_up = has_line_dir(g, color, 1, -1);
    proof {
        if has_line(g, color) {
            let (r, c, dr, dc) = choose|r: int, c: int, dr: int, dc: int|
                dir_ok(dr, dc) && window_in_board(r, c, dr, dc) && line4(g, color, r, c, dr, dc);
            assert(dir_ok(dr, dc));
        }
    }
    horiz || vert || diag_down || diag_up
}

} // verus!
