//! Move generation and threat analysis on the packed board word.

use vstd::prelude::*;
use crate::board::{
    blue_at, cell_index, color_at, exclusive, fits_board, gravity, in_board, landing_row,
    lemma_landing_row, lemma_nth_and, lemma_nth_diff, lemma_nth_or,
    lemma_place_token, lemma_popcount_le_128, occupied_at, lemma_popcount_zero, move_bit, nth, occupied, playable, popcount, red_at,
    turn_of, valid_gamestate,
};
use crate::color::PlayerColor;
use crate::encoding_gamestates::turn_column_to_encoded_gamestate;
use crate::turns::whos_turn_is_it_gamestate;

verus! {

/// The board after the mover drops a token into the 0-based column `c`, or
/// `None` when that column is full.
pub open spec fn child_for(g: u128, c: int) -> Option<u128> {
    if landing_row(g, c) == -1 {
        None
    } else {
        Some(g | move_bit(turn_of(g), landing_row(g, c), c))
    }
}

/// The fixed center-first column search order, 0-based: middle columns take
/// part in more lines, so they are tried first for better pruning.
pub open spec fn search_order() -> Seq<int> {
    seq![3, 2, 4, 1, 5, 0, 6]
}

/// The legal next positions for the columns in `cols`, in their order.
pub open spec fn children_from(g: u128, cols: Seq<int>) -> Seq<u128>
    decreases cols.len(),
{
    if cols.len() == 0 {
        Seq::empty()
    } else {
        let rest = children_from(g, cols.drop_first());
        match child_for(g, cols[0]) {
            Some(x) => seq![x] + rest,
            None => rest,
        }
    }
}

/// All legal next positions, in search order.
pub open spec fn children_in_order(g: u128) -> Seq<u128> {
    children_from(g, search_order())
}

proof fn lemma_children_from_push(g: u128, cols: Seq<int>, x: int)
    ensures
        children_from(g, cols.push(x)) == children_from(g, cols) + (match child_for(g, x) {
            Some(v) => seq![v],
            None => Seq::<u128>::empty(),
        }),
    decreases cols.len(),
{
    let s = cols.push(x);
    let tail = (match child_for(g, x) {
        Some(v) => seq![v],
        None => Seq::<u128>::empty(),
    });
    assert(s.len() == cols.len() + 1);
    assert(s[0] == if cols.len() == 0 { x } else { cols[0] });
    if cols.len() == 0 {
        assert(s.drop_first() =~= Seq::<int>::empty());
        assert(children_from(g, s.drop_first()) =~= Seq::<u128>::empty());
        assert(children_from(g, s) =~= tail);
        assert(children_from(g, cols) =~= Seq::<u128>::empty());
        assert(children_from(g, cols) + tail =~= tail);
    } else {
        assert(s.drop_first() =~= cols.drop_first().push(x));
        lemma_children_from_push(g, cols.drop_first(), x);
        assert(children_from(g, s.drop_first()) == children_from(g, cols.drop_first()) + tail);
        match child_for(g, cols[0]) {
            Some(v0) => {
                assert(children_from(g, s) =~= seq![v0] + children_from(g, cols.drop_first()) + tail);
                assert(children_from(g, cols) =~= seq![v0] + children_from(g, cols.drop_first()));
                assert(children_from(g, cols) + tail =~= seq![v0] + children_from(g, cols.drop_first()) + tail);
            },
            None => {
                assert(children_from(g, s) =~= children_from(g, cols.drop_first()) + tail);
                assert(children_from(g, cols) =~= children_from(g, cols.drop_first()));
            },
        }
    }
}

/// Dropping a token into a non-full column of a well-formed position gives
/// a well-formed position with one more token.
pub proof fn lemma_child_valid(g: u128, c: int)
    requires
        valid_gamestate(g),
        0 <= c < 7,
        child_for(g, c) is Some,
    ensures
        valid_gamestate(child_for(g, c)->0),
        popcount(child_for(g, c)->0) == popcount(g) + 1,
        forall|r2: int, c2: int|
            in_board(r2, c2) ==> (#[trigger] occupied(child_for(g, c)->0, r2, c2) == (occupied(
                g,
                r2,
                c2,
            ) || (r2 == landing_row(g, c) && c2 == c))),
{
    let lr = landing_row(g, c);
    let color = turn_of(g);
    lemma_landing_row(g, c);
    lemma_place_token(g, color, lr, c);
    let child = child_for(g, c)->0;
    assert forall|r2: int, c2: int|
        in_board(r2, c2) && r2 < 5 && occupied(child, r2, c2) implies occupied(
        child,
        r2 + 1,
        c2,
    ) by {
        if r2 == lr && c2 == c {
            assert(occupied(g, r2 + 1, c2));
        }
    }
}

/// Returns the possible next gamestates from a given gamestate, trying the
/// columns center-first.
pub fn possible_next_gamestates(current_gamestate: u128) -> (res: Vec<u128>)
    ensures
        res@ == children_in_order(current_gamestate),
        valid_gamestate(current_gamestate) ==> forall|i: int|
            0 <= i < res@.len() ==> valid_gamestate(#[trigger] res@[i]) && popcount(res@[i])
                == popcount(current_gamestate) + 1,
{
    let mut res: Vec<u128> = Vec::new();
    let player_whos_turn_it_is = whos_turn_is_it_gamestate(current_gamestate);
    let iterate: [u32; 7] = [4, 3, 5, 2, 6, 1, 7];
    let ghost g = current_gamestate;
    let mut i: usize = 0;
    while i < 7
        invariant
            0 <= i <= 7,
            iterate@ == seq![4u32, 3u32, 5u32, 2u32, 6u32, 1u32, 7u32],
            player_whos_turn_it_is == turn_of(g),
            g == current_gamestate,
            res@ == children_from(g, search_order().take(i as int)),
        decreases 7 - i,
    {
        let column = iterate[i];
        proof {
            assert(search_order().take(i as int).push(column as int - 1) =~= search_order().take(
                i as int + 1,
            ));
            lemma_children_from_push(g, search_order().take(i as int), column as int - 1);
        }
        let next_move = turn_column_to_encoded_gamestate(
            current_gamestate,
            column,
            &player_whos_turn_it_is,
        );
        match next_move {
            Some((m, _)) => {
                res.push(m | current_gamestate);
                proof {
                    crate::board::lemma_or_comm(m, current_gamestate);
                }
            },
            None => (),
        };
        i = i + 1;
    }
    proof {
        assert(search_order().take(7) =~= search_order());
        if valid_gamestate(g) {
            assert forall|j: int| 0 <= j < res@.len() implies valid_gamestate(#[trigger] res@[j])
                && popcount(res@[j]) == popcount(g) + 1 by {
            lemma_children_members(g, search_order());
            }
        }
    }
    res
}

/// Every generated child comes from some column of the list.
proof fn lemma_children_members(g: u128, cols: Seq<int>)
    requires
        valid_gamestate(g),
        forall|k: int| 0 <= k < cols.len() ==> 0 <= #[trigger] cols[k] < 7,
    ensures
        forall|j: int|
            0 <= j < children_from(g, cols).len() ==> valid_gamestate(
                #[trigger] children_from(g, cols)[j],
            ) && popcount(children_from(g, cols)[j]) == popcount(g) + 1,
    decreases cols.len(),
{
    if cols.len() > 0 {
        assert(forall|k: int|
            0 <= k < cols.drop_first().len() ==> 0 <= #[trigger] cols.drop_first()[k] < 7);
        lemma_children_members(g, cols.drop_first());
        let rest = children_from(g, cols.drop_first());
        match child_for(g, cols[0]) {
            Some(v0) => {
                lemma_child_valid(g, cols[0]);
                assert(children_from(g, cols) == seq![v0] + rest);
                assert forall|j: int| 0 <= j < children_from(g, cols).len() implies valid_gamestate(
                    #[trigger] children_from(g, cols)[j],
                ) && popcount(children_from(g, cols)[j]) == popcount(g) + 1 by {
                    if j == 0 {
                        assert(children_from(g, cols)[0] == v0);
                    } else {
                        assert(children_from(g, cols)[j] == rest[j - 1]);
                    }
                }
            },
            None => {
                assert(children_from(g, cols) == rest);
            },
        }
    }
}

// Masks that keep shifted windows from wrapping across board edges. Each
// covers a block of rows and columns, for both color bits of every cell.
pub const FULL_RED_ENCODED_BOARD: u128 = 12895208742556044530199210;
pub const FULL_BLUE_ENCODED_BOARD: u128 = 6447604371278022265099605;
const FULL_BOTH_COLOR_BOTTOM_ROW: u128 = 19341632522213349383995392;
const FULL_BOTH_COLOR_LEFT_SIDE: u128 = 301069239090989869547775;
const FULL_BOTH_COLOR_LEFT_SIDE_ONE_COLUMN_FREE: u128 = 1204276956363959478191100;
const FULL_BOTH_COLOR_RIGHT_SIDE: u128 = 19268431301823351651057600;
const FULL_BOTH_COLOR_RIGHT_SIDE_ONE_COLUMN_FREE: u128 = 4817107825455837912764400;
const FULL_BOTH_COLOR_UP_RIGHT_BLOCK: u128 = 4381134045120;
const FULL_BOTH_COLOR_UP_RIGHT_BLOCK_ONE_TOWARDS_MIDDLE: u128 = 17945125048811520;
const FULL_BOTH_COLOR_UP_LEFT_BLOCK: u128 = 68455219455;
const FULL_BOTH_COLOR_UP_LEFT_BLOCK_ONE_TOWARDS_MIDDLE: u128 = 4486281262202880;
const FULL_BOTH_COLOR_LOW_LEFT_BLOCK: u128 = 301069239090921414328320;
const FULL_BOTH_COLOR_LOW_LEFT_BLOCK_ONE_TOWARDS_MIDDLE: u128 = 73503232199931985920;
const FULL_BOTH_COLOR_LOW_RIGHT_BLOCK: u128 = 19268431301818970517012480;
const FULL_BOTH_COLOR_LOW_RIGHT_BLOCK_ONE_TOWARDS_MIDDLE: u128 = 294012928799727943680;

/// Bit of the `o`-parity plane word at the cell `(r, c)`.
pub open spec fn plane_at(p: u128, o: int, r: int, c: int) -> bool {
    nth(p, (cell_index(r, c) + o) as u128)
}

/// The window starting at `(r0, c0)` lies on the board and all of its cells
/// except the one at index `j` are set on the plane `p`.
pub open spec fn plane_window_missing(
    p: u128,
    o: int,
    r0: int,
    c0: int,
    dr: int,
    dc: int,
    j: int,
) -> bool {
    crate::board::window_in_board(r0, c0, dr, dc) && (j != 0 ==> plane_at(p, o, r0, c0)) && (j != 1
        ==> plane_at(p, o, r0 + dr, c0 + dc)) && (j != 2 ==> plane_at(
        p,
        o,
        r0 + 2 * dr,
        c0 + 2 * dc,
    )) && (j != 3 ==> plane_at(p, o, r0 + 3 * dr, c0 + 3 * dc))
}

/// The window starting at `(r0, c0)` lies on the board and all of its cells
/// except the one at index `j` hold a token of `color`.
pub open spec fn window_missing(
    g: u128,
    color: PlayerColor,
    r0: int,
    c0: int,
    dr: int,
    dc: int,
    j: int,
) -> bool {
    crate::board::window_in_board(r0, c0, dr, dc) && (j != 0 ==> color_at(g, color, r0, c0)) && (j
        != 1 ==> color_at(g, color, r0 + dr, c0 + dc)) && (j != 2 ==> color_at(
        g,
        color,
        r0 + 2 * dr,
        c0 + 2 * dc,
    )) && (j != 3 ==> color_at(g, color, r0 + 3 * dr, c0 + 3 * dc))
}

/// A token of `color` placed on `(r, c)` would complete a four-in-a-row:
/// some window through `(r, c)` has its other three cells already colored.
pub open spec fn completes_line_at(g: u128, color: PlayerColor, r: int, c: int) -> bool {
    exists|dr: int, dc: int|
        #[trigger] crate::board::dir_ok(dr, dc) && (window_missing(g, color, r, c, dr, dc, 0)
            || window_missing(g, color, r - dr, c - dc, dr, dc, 1) || window_missing(
            g,
            color,
            r - 2 * dr,
            c - 2 * dc,
            dr,
            dc,
            2,
        ) || window_missing(g, color, r - 3 * dr, c - 3 * dc, dr, dc, 3))
}

/// An empty cell that a token of `color` could turn into a win: an
/// immediate threat.
pub open spec fn threat_at(g: u128, color: PlayerColor, r: int, c: int) -> bool {
    in_board(r, c) && !occupied(g, r, c) && completes_line_at(g, color, r, c)
}

#[verifier::rlimit(100)]
#[verifier::spinoff_prover]
proof fn lemma_direction_terms(p: u128, wh: u128, wv: u128, wu: u128, wd: u128)
    by (bit_vector)
    requires
        p < 0x1000000000000000000000u128,
        wh == ((p >> 2) & (p >> 4) & (p >> 6) & 301069239090989869547775u128) | ((p >> 2) & (p
            >> 4) & (p << 2) & 1204276956363959478191100u128) | ((p << 2) & (p << 4) & (p << 6)
            & 19268431301823351651057600u128) | ((p << 2) & (p << 4) & (p >> 2)
            & 4817107825455837912764400u128),
        wv == (p >> 14) & (p >> 28) & (p >> 42),
        wu == ((p >> 12) & (p >> 24) & (p >> 36) & 4381134045120u128) | ((p >> 12) & (p >> 24) & (p
            << 12) & 17945125048811520u128) | ((p << 12) & (p << 24) & (p >> 12)
            & 73503232199931985920u128) | ((p << 12) & (p << 24) & (p << 36)
            & 301069239090921414328320u128),
        wd == ((p >> 16) & (p >> 32) & (p >> 48) & 68455219455u128) | ((p >> 16) & (p >> 32) & (p
            << 16) & 4486281262202880u128) | ((p << 16) & (p << 32) & (p >> 16)
            & 294012928799727943680u128) | ((p << 16) & (p << 32) & (p << 48)
            & 19268431301818970517012480u128),
    ensures
        forall|r: u128, c: u128|
            r < 6 && c < 7 ==> (#[trigger] nth(wh, (14 * r + 2 * c) as u128) == (
            plane_window_missing(p, 0, r as int, c as int, 0, 1, 0) || plane_window_missing(p, 0, r as int, c as int - 1, 0, 1, 1) || plane_window_missing(p, 0, r as int, c as int - 2, 0, 1, 2) || plane_window_missing(p, 0, r as int, c as int - 3, 0, 1, 3))),
        forall|r: u128, c: u128|
            r < 6 && c < 7 ==> (#[trigger] nth(wh, (14 * r + 2 * c + 1) as u128) == (
            plane_window_missing(p, 1, r as int, c as int, 0, 1, 0) || plane_window_missing(p, 1, r as int, c as int - 1, 0, 1, 1) || plane_window_missing(p, 1, r as int, c as int - 2, 0, 1, 2) || plane_window_missing(p, 1, r as int, c as int - 3, 0, 1, 3))),
        forall|r: u128, c: u128|
            r < 6 && c < 7 ==> (#[trigger] nth(wv, (14 * r + 2 * c) as u128) == plane_window_missing(p, 0, r as int, c as int, 1, 0, 0)),
        forall|r: u128, c: u128|
            r < 6 && c < 7 ==> (#[trigger] nth(wv, (14 * r + 2 * c + 1) as u128) == plane_window_missing(p, 1, r as int, c as int, 1, 0, 0)),
        forall|r: u128, c: u128|
            r < 6 && c < 7 ==> (#[trigger] nth(wu, (14 * r + 2 * c) as u128) == (
            plane_window_missing(p, 0, r as int, c as int, 1, -1, 0) || plane_window_missing(p, 0, r as int - 1, c as int + 1, 1, -1, 1) || plane_window_missing(p, 0, r as int - 2, c as int + 2, 1, -1, 2) || plane_window_missing(p, 0, r as int - 3, c as int + 3, 1, -1, 3))),
        forall|r: u128, c: u128|
            r < 6 && c < 7 ==> (#[trigger] nth(wu, (14 * r + 2 * c + 1) as u128) == (
            plane_window_missing(p, 1, r as int, c as int, 1, -1, 0) || plane_window_missing(p, 1, r as int - 1, c as int + 1, 1, -1, 1) || plane_window_missing(p, 1, r as int - 2, c as int + 2, 1, -1, 2) || plane_window_missing(p, 1, r as int - 3, c as int + 3, 1, -1, 3))),
        forall|r: u128, c: u128|
            r < 6 && c < 7 ==> (#[trigger] nth(wd, (14 * r + 2 * c) as u128) == (
            plane_window_missing(p, 0, r as int, c as int, 1, 1, 0) || plane_window_missing(p, 0, r as int - 1, c as int - 1, 1, 1, 1) || plane_window_missing(p, 0, r as int - 2, c as int - 2, 1, 1, 2) || plane_window_missing(p, 0, r as int - 3, c as int - 3, 1, 1, 3))),
        forall|r: u128, c: u128|
            r < 6 && c < 7 ==> (#[trigger] nth(wd, (14 * r + 2 * c + 1) as u128) == (
            plane_window_missing(p, 1, r as int, c as int, 1, 1, 0) || plane_window_missing(p, 1, r as int - 1, c as int - 1, 1, 1, 1) || plane_window_missing(p, 1, r as int - 2, c as int - 2, 1, 1, 2) || plane_window_missing(p, 1, r as int - 3, c as int - 3, 1, 1, 3))),
        wh < 0x1000000000000000000000u128,
        wv < 0x1000000000000000000000u128,
        wu < 0x1000000000000000000000u128,
        wd < 0x1000000000000000000000u128,
{
}

/// What masking a board word to one color plane leaves on each cell.
proof fn lemma_plane_cells(g: u128)
    by (bit_vector)
    ensures
        forall|r: u128, c: u128|
            r < 6 && c < 7 ==> #[trigger] nth(
                g & 6447604371278022265099605u128,
                (14 * r + 2 * c) as u128,
            ) == nth(g, (14 * r + 2 * c) as u128),
        forall|r: u128, c: u128|
            r < 6 && c < 7 ==> !(#[trigger] nth(
                g & 6447604371278022265099605u128,
                (14 * r + 2 * c + 1) as u128,
            )),
        forall|r: u128, c: u128|
            r < 6 && c < 7 ==> #[trigger] nth(
                g & 12895208742556044530199210u128,
                (14 * r + 2 * c + 1) as u128,
            ) == nth(g, (14 * r + 2 * c + 1) as u128),
        forall|r: u128, c: u128|
            r < 6 && c < 7 ==> !(#[trigger] nth(
                g & 12895208742556044530199210u128,
                (14 * r + 2 * c) as u128,
            )),
        g & 6447604371278022265099605u128 < 0x1000000000000000000000u128,
        g & 12895208742556044530199210u128 < 0x1000000000000000000000u128,
        forall|r: u128, c: u128|
            r < 6 && c < 7 ==> #[trigger] nth(6447604371278022265099605u128, (14 * r + 2 * c) as u128),
        forall|r: u128, c: u128|
            r < 6 && c < 7 ==> !(#[trigger] nth(
                6447604371278022265099605u128,
                (14 * r + 2 * c + 1) as u128,
            )),
        forall|r: u128, c: u128|
            r < 6 && c < 7 ==> #[trigger] nth(
                12895208742556044530199210u128,
                (14 * r + 2 * c + 1) as u128,
            ),
        forall|r: u128, c: u128|
            r < 6 && c < 7 ==> !(#[trigger] nth(
                12895208742556044530199210u128,
                (14 * r + 2 * c) as u128,
            )),
{
}

/// The cell bits the full-board word carries: both bits of every occupied
/// cell.
proof fn lemma_full_cells(g: u128, w: u128)
    by (bit_vector)
    requires
        g < 0x1000000000000000000000u128,
        w == g | ((g & 6447604371278022265099605u128) << 1) | ((g
            & 12895208742556044530199210u128) >> 1),
    ensures
        forall|r: u128, c: u128|
            r < 6 && c < 7 ==> #[trigger] nth(w, (14 * r + 2 * c) as u128) == (nth(
                g,
                (14 * r + 2 * c) as u128,
            ) || nth(g, (14 * r + 2 * c + 1) as u128)),
        forall|r: u128, c: u128|
            r < 6 && c < 7 ==> #[trigger] nth(w, (14 * r + 2 * c + 1) as u128) == (nth(
                g,
                (14 * r + 2 * c) as u128,
            ) || nth(g, (14 * r + 2 * c + 1) as u128)),
        w < 0x1000000000000000000000u128,
{
}

/// Returns the encoding of the gamestate where both color bits are set
/// wherever either color has a token.
pub fn gamestate_full(gamestate: u128) -> (res: u128)
    requires
        fits_board(gamestate),
    ensures
        fits_board(res),
        res == gamestate | ((gamestate & FULL_BLUE_ENCODED_BOARD) << 1) | ((gamestate
            & FULL_RED_ENCODED_BOARD) >> 1),
        forall|r: int, c: int|
            in_board(r, c) ==> #[trigger] blue_at(res, r, c) == occupied(gamestate, r, c),
        forall|r: int, c: int|
            in_board(r, c) ==> #[trigger] red_at(res, r, c) == occupied(gamestate, r, c),
{
    let res = gamestate | ((gamestate & FULL_BLUE_ENCODED_BOARD) << 1) | ((gamestate
        & FULL_RED_ENCODED_BOARD) >> 1);
    proof {
        lemma_full_cells(gamestate, res);
        assert forall|r: int, c: int| in_board(r, c) implies (blue_at(res, r, c)
            == occupied(gamestate, r, c) && red_at(res, r, c) == occupied(
            gamestate,
            r,
            c,
        )) by {
            let rr = r as u128;
            let cc = c as u128;
            assert((14 * rr + 2 * cc) as u128 == cell_index(r, c) as u128);
            assert((14 * rr + 2 * cc + 1) as u128 == (cell_index(r, c) + 1) as u128);
            assert(nth(res, (14 * rr + 2 * cc) as u128) == blue_at(res, r, c));
            assert(nth(res, (14 * rr + 2 * cc + 1) as u128) == red_at(res, r, c));
            assert(nth(gamestate, (14 * rr + 2 * cc) as u128) == blue_at(gamestate, r, c));
            assert(nth(gamestate, (14 * rr + 2 * cc + 1) as u128) == red_at(gamestate, r, c));
            assert(blue_at(res, r, c) == occupied(gamestate, r, c));
            assert(red_at(res, r, c) == occupied(gamestate, r, c));
        }
    }
    res
}

/// What the playable-cell word carries on each cell: both bits of every
/// cell a token can be dropped into right now.
proof fn lemma_possible_cells(g: u128, f: u128, w: u128)
    by (bit_vector)
    requires
        g < 0x1000000000000000000000u128,
        f == g | ((g & 6447604371278022265099605u128) << 1) | ((g
            & 12895208742556044530199210u128) >> 1),
        w == ((f >> 14) & !f) | ((f ^ 19341632522213349383995392u128)
            & 19341632522213349383995392u128),
    ensures
        forall|r: u128, c: u128|
            r < 6 && c < 7 ==> ((#[trigger] nth(w, (14 * r + 2 * c) as u128) == (!(nth(
                g,
                (14 * r + 2 * c) as u128,
            ) || nth(g, (14 * r + 2 * c + 1) as u128)) && (r == 5 || nth(
                g,
                (14 * r + 2 * c + 14) as u128,
            ) || nth(g, (14 * r + 2 * c + 15) as u128)))) && (#[trigger] nth(
                w,
                (14 * r + 2 * c + 1) as u128,
            ) == (!(nth(g, (14 * r + 2 * c) as u128) || nth(g, (14 * r + 2 * c + 1) as u128)) && (r
                == 5 || nth(g, (14 * r + 2 * c + 14) as u128) || nth(
                g,
                (14 * r + 2 * c + 15) as u128,
            ))))),
        w < 0x1000000000000000000000u128,
{
}

/// Returns the encoding of the cells both colors could move to right now:
/// both color bits of every playable cell, without the rest of the board.
pub fn possible_moves(gamestate: u128) -> (res: u128)
    requires
        fits_board(gamestate),
    ensures
        fits_board(res),
        forall|r: int, c: int|
            in_board(r, c) ==> #[trigger] blue_at(res, r, c) == playable(gamestate, r, c),
        forall|r: int, c: int|
            in_board(r, c) ==> #[trigger] red_at(res, r, c) == playable(gamestate, r, c),
{
    let gf = gamestate_full(gamestate);
    let res = ((gf >> 14) & !gf) | ((gf ^ FULL_BOTH_COLOR_BOTTOM_ROW)
        & FULL_BOTH_COLOR_BOTTOM_ROW);
    proof {
        lemma_possible_cells(gamestate, gf, res);
        assert forall|r: int, c: int| in_board(r, c) implies (blue_at(res, r, c)
            == playable(gamestate, r, c) && red_at(res, r, c) == playable(
            gamestate,
            r,
            c,
        )) by {
            let rr = r as u128;
            let cc = c as u128;
            assert((14 * rr + 2 * cc) as u128 == cell_index(r, c) as u128);
            assert((14 * rr + 2 * cc + 1) as u128 == (cell_index(r, c) + 1) as u128);
            assert(nth(res, (14 * rr + 2 * cc) as u128) == blue_at(res, r, c));
            assert(nth(res, (14 * rr + 2 * cc + 1) as u128) == red_at(res, r, c));
            assert(nth(gamestate, (14 * rr + 2 * cc) as u128) == blue_at(gamestate, r, c));
            assert(nth(gamestate, (14 * rr + 2 * cc + 1) as u128) == red_at(gamestate, r, c));
            if r < 5 {
                assert((14 * rr + 2 * cc + 14) as u128 == cell_index(r + 1, c) as u128);
                assert((14 * rr + 2 * cc + 15) as u128 == (cell_index(r + 1, c) + 1) as u128);
                assert(nth(gamestate, (14 * rr + 2 * cc + 14) as u128) == blue_at(gamestate, r + 1, c));
                assert(nth(gamestate, (14 * rr + 2 * cc + 15) as u128) == red_at(gamestate, r + 1, c));
            }
        }
    }
    res
}

/// The plane word of a color: every board bit of that color's parity.
pub open spec fn plane_mask(color: PlayerColor) -> u128 {
    match color {
        PlayerColor::Blue => FULL_BLUE_ENCODED_BOARD,
        PlayerColor::Red => FULL_RED_ENCODED_BOARD,
    }
}

/// Which bit of a cell pair the color occupies.
pub open spec fn parity(color: PlayerColor) -> int {
    match color {
        PlayerColor::Blue => 0,
        PlayerColor::Red => 1,
    }
}

/// Masking a board word to a color plane keeps exactly that color's
/// cells, on that color's parity, and nothing on the other parity.
proof fn lemma_planes(g: u128, pb: u128, pr: u128)
    requires
        fits_board(g),
        pb == g & FULL_BLUE_ENCODED_BOARD,
        pr == g & FULL_RED_ENCODED_BOARD,
    ensures
        fits_board(pb),
        fits_board(pr),
        forall|r: int, c: int|
            in_board(r, c) ==> #[trigger] plane_at(pb, 0, r, c) == blue_at(g, r, c),
        forall|r: int, c: int| in_board(r, c) ==> !(#[trigger] plane_at(pb, 1, r, c)),
        forall|r: int, c: int|
            in_board(r, c) ==> #[trigger] plane_at(pr, 1, r, c) == red_at(g, r, c),
        forall|r: int, c: int| in_board(r, c) ==> !(#[trigger] plane_at(pr, 0, r, c)),
{
    lemma_plane_cells(g);
    assert forall|r: int, c: int| in_board(r, c) implies (plane_at(pb, 0, r, c) == blue_at(g, r, c)
        && !(plane_at(pb, 1, r, c)) && plane_at(pr, 1, r, c) == red_at(g, r, c) && !(plane_at(
        pr,
        0,
        r,
        c,
    ))) by {
        let rr = r as u128;
        let cc = c as u128;
        assert((14 * rr + 2 * cc) as u128 == cell_index(r, c) as u128);
        assert((14 * rr + 2 * cc + 1) as u128 == (cell_index(r, c) + 1) as u128);
        assert((cell_index(r, c) + 0) as u128 == cell_index(r, c) as u128);
        assert(nth(g & 6447604371278022265099605u128, (14 * rr + 2 * cc) as u128) == nth(
            g,
            (14 * rr + 2 * cc) as u128,
        ));
        assert(!nth(g & 6447604371278022265099605u128, (14 * rr + 2 * cc + 1) as u128));
        assert(nth(g & 12895208742556044530199210u128, (14 * rr + 2 * cc + 1) as u128) == nth(
            g,
            (14 * rr + 2 * cc + 1) as u128,
        ));
        assert(!nth(g & 12895208742556044530199210u128, (14 * rr + 2 * cc) as u128));
        assert(g & 6447604371278022265099605u128 == pb);
        assert(g & 12895208742556044530199210u128 == pr);
    }
    assert(g & 6447604371278022265099605u128 == pb);
    assert(g & 12895208742556044530199210u128 == pr);
}

/// Unrolls the four directions and four gap positions a completed window
/// through `(r, c)` can take.
pub proof fn lemma_completes_cases(g: u128, color: PlayerColor, r: int, c: int)
    ensures
        completes_line_at(g, color, r, c) == (window_missing(g, color, r, c, 0, 1, 0)
            || window_missing(g, color, r, c - 1, 0, 1, 1) || window_missing(
            g,
            color,
            r,
            c - 2,
            0,
            1,
            2,
        ) || window_missing(g, color, r, c - 3, 0, 1, 3) || window_missing(g, color, r, c, 1, 0, 0)
            || window_missing(g, color, r - 1, c, 1, 0, 1) || window_missing(
            g,
            color,
            r - 2,
            c,
            1,
            0,
            2,
        ) || window_missing(g, color, r - 3, c, 1, 0, 3) || window_missing(g, color, r, c, 1, 1, 0)
            || window_missing(g, color, r - 1, c - 1, 1, 1, 1) || window_missing(
            g,
            color,
            r - 2,
            c - 2,
            1,
            1,
            2,
        ) || window_missing(g, color, r - 3, c - 3, 1, 1, 3) || window_missing(
            g,
            color,
            r,
            c,
            1,
            -1,
            0,
        ) || window_missing(g, color, r - 1, c + 1, 1, -1, 1) || window_missing(
            g,
            color,
            r - 2,
            c + 2,
            1,
            -1,
            2,
        ) || window_missing(g, color, r - 3, c + 3, 1, -1, 3)),
{
    if completes_line_at(g, color, r, c) {
        let (dr, dc) = choose|dr: int, dc: int|
            #[trigger] crate::board::dir_ok(dr, dc) && (window_missing(g, color, r, c, dr, dc, 0)
                || window_missing(g, color, r - dr, c - dc, dr, dc, 1) || window_missing(
                g,
                color,
                r - 2 * dr,
                c - 2 * dc,
                dr,
                dc,
                2,
            ) || window_missing(g, color, r - 3 * dr, c - 3 * dc, dr, dc, 3));
        assert(crate::board::dir_ok(dr, dc));
        if dr == 0 && dc == 1 {
        } else if dr == 1 && dc == 0 {
        } else if dr == 1 && dc == 1 {
        } else {
            assert(dr == 1 && dc == -1);
        }
    }
    if window_missing(g, color, r, c, 0, 1, 0) || window_missing(g, color, r, c - 1, 0, 1, 1)
        || window_missing(g, color, r, c - 2, 0, 1, 2) || window_missing(g, color, r, c - 3, 0, 1, 3) {
        assert(crate::board::dir_ok(0, 1) && (window_missing(g, color, r, c, 0, 1, 0)
            || window_missing(g, color, r - 0, c - 1, 0, 1, 1) || window_missing(
            g,
            color,
            r - 2 * 0,
            c - 2 * 1,
            0,
            1,
            2,
        ) || window_missing(g, color, r - 3 * 0, c - 3 * 1, 0, 1, 3)));
        assert(completes_line_at(g, color, r, c));
    }
    if window_missing(g, color, r, c, 1, 0, 0) || window_missing(g, color, r - 1, c, 1, 0, 1)
        || window_missing(g, color, r - 2, c, 1, 0, 2) || window_missing(g, color, r - 3, c, 1, 0, 3) {
        assert(crate::board::dir_ok(1, 0) && (window_missing(g, color, r, c, 1, 0, 0)
            || window_missing(g, color, r - 1, c - 0, 1, 0, 1) || window_missing(
            g,
            color,
            r - 2 * 1,
            c - 2 * 0,
            1,
            0,
            2,
        ) || window_missing(g, color, r - 3 * 1, c - 3 * 0, 1, 0, 3)));
        assert(completes_line_at(g, color, r, c));
    }
    if window_missing(g, color, r, c, 1, 1, 0) || window_missing(g, color, r - 1, c - 1, 1, 1, 1)
        || window_missing(g, color, r - 2, c - 2, 1, 1, 2) || window_missing(
        g,
        color,
        r - 3,
        c - 3,
        1,
        1,
        3,
    ) {
        assert(crate::board::dir_ok(1, 1) && (window_missing(g, color, r, c, 1, 1, 0)
            || window_missing(g, color, r - 1, c - 1, 1, 1, 1) || window_missing(
            g,
            color,
            r - 2 * 1,
            c - 2 * 1,
            1,
            1,
            2,
        ) || window_missing(g, color, r - 3 * 1, c - 3 * 1, 1, 1, 3)));
        assert(completes_line_at(g, color, r, c));
    }
    if window_missing(g, color, r, c, 1, -1, 0) || window_missing(g, color, r - 1, c + 1, 1, -1, 1)
        || window_missing(g, color, r - 2, c + 2, 1, -1, 2) || window_missing(
        g,
        color,
        r - 3,
        c + 3,
        1,
        -1,
        3,
    ) {
        assert(crate::board::dir_ok(1, -1) && (window_missing(g, color, r, c, 1, -1, 0)
            || window_missing(g, color, r - 1, c - (-1), 1, -1, 1) || window_missing(
            g,
            color,
            r - 2 * 1,
            c - 2 * (-1),
            1,
            -1,
            2,
        ) || window_missing(g, color, r - 3 * 1, c - 3 * (-1), 1, -1, 3)));
        assert(completes_line_at(g, color, r, c));
    }
}

/// Puts the pieces together: what each cell of the finished threat word
/// holds, for the mover's parity and for the other parity.
#[verifier::rlimit(100)]
#[verifier::spinoff_prover]
proof fn lemma_winning_positions_cells(
    g: u128,
    color: PlayerColor,
    p: u128,
    gf: u128,
    vert: u128,
    hor: u128,
    du: u128,
    dd: u128,
    res: u128,
)
    requires
        valid_gamestate(g),
        p == g & plane_mask(color),
        gf == g | ((g & FULL_BLUE_ENCODED_BOARD) << 1) | ((g & FULL_RED_ENCODED_BOARD) >> 1),
        vert == (p >> 14) & (p >> 28) & (p >> 42),
        hor == ((p >> 2) & (p >> 4) & (p >> 6) & FULL_BOTH_COLOR_LEFT_SIDE) | ((p >> 2) & (p >> 4)
            & (p << 2) & FULL_BOTH_COLOR_LEFT_SIDE_ONE_COLUMN_FREE) | ((p << 2) & (p << 4) & (p
            << 6) & FULL_BOTH_COLOR_RIGHT_SIDE) | ((p << 2) & (p << 4) & (p >> 2)
            & FULL_BOTH_COLOR_RIGHT_SIDE_ONE_COLUMN_FREE),
        du == ((p >> 12) & (p >> 24) & (p >> 36) & FULL_BOTH_COLOR_UP_RIGHT_BLOCK) | ((p >> 12) & (
        p >> 24) & (p << 12) & FULL_BOTH_COLOR_UP_RIGHT_BLOCK_ONE_TOWARDS_MIDDLE) | ((p << 12) & (p
            << 24) & (p >> 12) & FULL_BOTH_COLOR_LOW_LEFT_BLOCK_ONE_TOWARDS_MIDDLE) | ((p << 12) & (
        p << 24) & (p << 36) & FULL_BOTH_COLOR_LOW_LEFT_BLOCK),
        dd == ((p >> 16) & (p >> 32) & (p >> 48) & FULL_BOTH_COLOR_UP_LEFT_BLOCK) | ((p >> 16) & (p
            >> 32) & (p << 16) & FULL_BOTH_COLOR_UP_LEFT_BLOCK_ONE_TOWARDS_MIDDLE) | ((p << 16) & (
        p << 32) & (p >> 16) & FULL_BOTH_COLOR_LOW_RIGHT_BLOCK_ONE_TOWARDS_MIDDLE) | ((p << 16) & (
        p << 32) & (p << 48) & FULL_BOTH_COLOR_LOW_RIGHT_BLOCK),
        res == (((vert | hor) | du) | dd) & !gf,
    ensures
        fits_board(res),
        forall|r: int, c: int|
            in_board(r, c) ==> #[trigger] color_at(res, color, r, c) == (!occupied(g, r, c)
                && completes_line_at(g, color, r, c)),
        forall|r: int, c: int|
            in_board(r, c) ==> !(#[trigger] color_at(res, color.other(), r, c)),
{
    let pb = g & FULL_BLUE_ENCODED_BOARD;
    let pr = g & FULL_RED_ENCODED_BOARD;
    lemma_planes(g, pb, pr);
    lemma_direction_terms(p, hor, vert, du, dd);
    lemma_full_cells(g, gf);
    let w2 = vert | hor;
    let w3 = w2 | du;
    let w4 = w3 | dd;
    lemma_nth_or(vert, hor);
    lemma_nth_or(w2, du);
    lemma_nth_or(w3, dd);
    lemma_nth_diff(w4, gf);
    assert(w4 & !gf < 0x1000000000000000000000u128) by (bit_vector)
        requires
            vert < 0x1000000000000000000000u128,
            hor < 0x1000000000000000000000u128,
            du < 0x1000000000000000000000u128,
            dd < 0x1000000000000000000000u128,
            w2 == vert | hor,
            w3 == w2 | du,
            w4 == w3 | dd,
    ;
    assert forall|r: int, c: int| in_board(r, c) implies (#[trigger] color_at(res, color, r, c) == (
    !occupied(g, r, c) && completes_line_at(g, color, r, c)) && !(color_at(
        res,
        color.other(),
        r,
        c,
    ))) by {
        let rr = r as u128;
        let cc = c as u128;
        let i0 = (14 * rr + 2 * cc) as u128;
        let i1 = (14 * rr + 2 * cc + 1) as u128;
        lemma_completes_cases(g, color, r, c);
        assert(i0 == cell_index(r, c) as u128);
        assert(i1 == (cell_index(r, c) + 1) as u128);
        assert(nth(w4 & !gf, i0) == (nth(w4, i0) && !nth(gf, i0)));
        assert(nth(w4 & !gf, i1) == (nth(w4, i1) && !nth(gf, i1)));
        assert(nth(w4, i0) == (nth(w3, i0) || nth(dd, i0)));
        assert(nth(w4, i1) == (nth(w3, i1) || nth(dd, i1)));
        assert(nth(w3, i0) == (nth(w2, i0) || nth(du, i0)));
        assert(nth(w3, i1) == (nth(w2, i1) || nth(du, i1)));
        assert(nth(w2, i0) == (nth(vert, i0) || nth(hor, i0)));
        assert(nth(w2, i1) == (nth(vert, i1) || nth(hor, i1)));
        assert(nth(gf, (14 * rr + 2 * cc) as u128) == (nth(g, (14 * rr + 2 * cc) as u128) || nth(
            g,
            (14 * rr + 2 * cc + 1) as u128,
        )));
        assert(nth(gf, (14 * rr + 2 * cc + 1) as u128) == (nth(g, (14 * rr + 2 * cc) as u128)
            || nth(g, (14 * rr + 2 * cc + 1) as u128)));
        assert(nth(gf, i0) == occupied(g, r, c));
        assert(nth(gf, i1) == occupied(g, r, c));
        if !occupied(g, r, c) {
            assert(!window_missing(g, color, r - 1, c, 1, 0, 1)) by {
                if window_missing(g, color, r - 1, c, 1, 0, 1) {
                    assert(color_at(g, color, r - 1, c));
                    assert(occupied(g, r - 1, c));
                    crate::board::lemma_gravity_chain(g, r - 1, c, r);
                    assert(occupied(g, r, c));
                }
            }
            assert(!window_missing(g, color, r - 2, c, 1, 0, 2)) by {
                if window_missing(g, color, r - 2, c, 1, 0, 2) {
                    assert(color_at(g, color, r - 1, c));
                    assert(occupied(g, r - 1, c));
                    crate::board::lemma_gravity_chain(g, r - 1, c, r);
                    assert(occupied(g, r, c));
                }
            }
            assert(!window_missing(g, color, r - 3, c, 1, 0, 3)) by {
                if window_missing(g, color, r - 3, c, 1, 0, 3) {
                    assert(color_at(g, color, r - 1, c));
                    assert(occupied(g, r - 1, c));
                    crate::board::lemma_gravity_chain(g, r - 1, c, r);
                    assert(occupied(g, r, c));
                }
            }
        }
        match color {
            PlayerColor::Blue => {
                assert(p == pb);
                assert(color_at(res, color, r, c) == nth(res, i0));
                assert(color_at(res, color.other(), r, c) == nth(res, i1));
            },
            PlayerColor::Red => {
                assert(p == pr);
                assert(color_at(res, color, r, c) == nth(res, i1));
                assert(color_at(res, color.other(), r, c) == nth(res, i0));
            },
        }
    }
}

/// Returns the encoding of the cells that would complete a four-in-a-row
/// for the given color the moment a token of that color lands there, no
/// matter whether they are reachable: the color's immediate threats.
pub fn compute_winning_positions(gamestate: u128, color: PlayerColor) -> (res: u128)
    requires
        valid_gamestate(gamestate),
    ensures
        fits_board(res),
        forall|r: int, c: int|
            in_board(r, c) ==> #[trigger] color_at(res, color, r, c) == (!occupied(gamestate, r, c)
                && completes_line_at(gamestate, color, r, c)),
        forall|r: int, c: int|
            in_board(r, c) ==> !(#[trigger] color_at(res, color.other(), r, c)),
{
    let full_board: u128 = match color {
        PlayerColor::Blue => FULL_BLUE_ENCODED_BOARD,
        PlayerColor::Red => FULL_RED_ENCODED_BOARD,
    };
    let gf = gamestate_full(gamestate);
    let p = gamestate & full_board;

    // For drawings m is the missing token and x the tokens already placed.
    // vertical: (m x x x)^T
    let vert = (p >> 14) & (p >> 28) & (p >> 42);

    // horizontal: m x x x / x m x x / x x x m / x x m x
    let hor = ((p >> 2) & (p >> 4) & (p >> 6) & FULL_BOTH_COLOR_LEFT_SIDE) | ((p >> 2) & (p >> 4)
        & (p << 2) & FULL_BOTH_COLOR_LEFT_SIDE_ONE_COLUMN_FREE) | ((p << 2) & (p << 4) & (p << 6)
        & FULL_BOTH_COLOR_RIGHT_SIDE) | ((p << 2) & (p << 4) & (p >> 2)
        & FULL_BOTH_COLOR_RIGHT_SIDE_ONE_COLUMN_FREE);

    // diagonal from lower left to upper right, gap from top to bottom
    let du = ((p >> 12) & (p >> 24) & (p >> 36) & FULL_BOTH_COLOR_UP_RIGHT_BLOCK) | ((p >> 12) & (p
        >> 24) & (p << 12) & FULL_BOTH_COLOR_UP_RIGHT_BLOCK_ONE_TOWARDS_MIDDLE) | ((p << 12) & (p
        << 24) & (p >> 12) & FULL_BOTH_COLOR_LOW_LEFT_BLOCK_ONE_TOWARDS_MIDDLE) | ((p << 12) & (p
        << 24) & (p << 36) & FULL_BOTH_COLOR_LOW_LEFT_BLOCK);

    // diagonal from upper left to lower right, gap from top to bottom
    let dd = ((p >> 16) & (p >> 32) & (p >> 48) & FULL_BOTH_COLOR_UP_LEFT_BLOCK) | ((p >> 16) & (p
        >> 32) & (p << 16) & FULL_BOTH_COLOR_UP_LEFT_BLOCK_ONE_TOWARDS_MIDDLE) | ((p << 16) & (p
        << 32) & (p >> 16) & FULL_BOTH_COLOR_LOW_RIGHT_BLOCK_ONE_TOWARDS_MIDDLE) | ((p << 16) & (p
        << 32) & (p << 48) & FULL_BOTH_COLOR_LOW_RIGHT_BLOCK);

    let res = (((vert | hor) | du) | dd) & !gf;
    proof {
        lemma_winning_positions_cells(gamestate, color, p, gf, vert, hor, du, dd, res);
    }
    res
}

/// Returns the encoding of the cells where the opponent of `color` would
/// win immediately, no matter whether they are reachable.
pub fn opponent_winning_positions(gamestate: u128, color: PlayerColor) -> (res: u128)
    requires
        valid_gamestate(gamestate),
    ensures
        fits_board(res),
        forall|r: int, c: int|
            in_board(r, c) ==> #[trigger] color_at(res, color.other(), r, c) == (!occupied(
                gamestate,
                r,
                c,
            ) && completes_line_at(gamestate, color.other(), r, c)),
        forall|r: int, c: int| in_board(r, c) ==> !(#[trigger] color_at(res, color, r, c)),
{
    match color {
        PlayerColor::Blue => compute_winning_positions(gamestate, PlayerColor::Red),
        PlayerColor::Red => compute_winning_positions(gamestate, PlayerColor::Blue),
    }
}

/// What the plain shifts used to move threat words between planes do to
/// single bits.
pub(crate) proof fn lemma_shift_bits(a: u128)
    by (bit_vector)
    ensures
        forall|j: u128| j < 127 ==> #[trigger] nth(a >> 1, j) == nth(a, (j + 1) as u128),
        !nth(a >> 1, 127),
        forall|j: u128| 1 <= j < 128 ==> #[trigger] nth(a << 1, j) == nth(a, (j - 1) as u128),
        !nth(a << 1, 0),
        forall|j: u128| 14 <= j < 128 ==> #[trigger] nth(a << 14, j) == nth(a, (j - 14) as u128),
        forall|j: u128| j < 14 ==> !(#[trigger] nth(a << 14, j)),
        forall|j: u128| 84 <= j < 128 && a < 0x1000000000000000000000u128 ==> !(#[trigger] nth(a, j)),
{
}

/// Every bit index below 84 belongs to one cell and one parity.
pub(crate) proof fn lemma_bit_decomp(j: u128)
    by (bit_vector)
    requires
        j < 84,
    ensures
        14 * (j / 14) + 2 * ((j % 14) / 2) + (j % 2) == j,
        j / 14 < 6,
        (j % 14) / 2 < 7,
        (j % 14) % 2 == j % 2,
{
}

/// No bit of the zero word is set.
pub(crate) proof fn lemma_nth_zero()
    by (bit_vector)
    ensures
        forall|j: u128| j < 128 ==> !(#[trigger] nth(0u128, j)),
{
}

/// The single-bit word has exactly its one bit.
pub(crate) proof fn lemma_single_bit(k: u128)
    requires
        k < 128,
    ensures
        forall|j: u128| j < 128 ==> #[trigger] nth(1u128 << k, j) == (j == k),
{
    crate::board::lemma_place_bit(0, k);
    assert(0u128 | (1u128 << k) == 1u128 << k) by (bit_vector);
    lemma_nth_zero();
}

/// A non-losing move for `color`: a playable cell that does not sit right
/// under an opponent threat, where moreover no other playable cell is an
/// opponent threat (such a cell would have to be blocked instead).
pub open spec fn non_losing_at(g: u128, color: PlayerColor, r: int, c: int) -> bool {
    playable(g, r, c) && !(r >= 1 && threat_at(g, color.other(), r - 1, c)) && (forall|
        r2: int,
        c2: int,
    |
        playable(g, r2, c2) && #[trigger] threat_at(g, color.other(), r2, c2) ==> r2 == r && c2
            == c)
}

/// Index of the bit `color` would set in the cell `(r, c)`.
pub open spec fn mover_index(color: PlayerColor, r: int, c: int) -> int {
    cell_index(r, c) + parity(color)
}

/// What one cell bit of the shifted threat word holds: the opponent threat
/// on that same cell, carried on the mover's parity.
proof fn lemma_omv_cell(g: u128, color: PlayerColor, opp: u128, omv: u128, r: int, c: int)
    requires
        valid_gamestate(g),
        fits_board(opp),
        forall|r2: int, c2: int|
            in_board(r2, c2) ==> #[trigger] color_at(opp, color.other(), r2, c2) == (!occupied(
                g,
                r2,
                c2,
            ) && completes_line_at(g, color.other(), r2, c2)),
        forall|r2: int, c2: int| in_board(r2, c2) ==> !(#[trigger] color_at(opp, color, r2, c2)),
        omv == (match color {
            PlayerColor::Blue => opp >> 1,
            PlayerColor::Red => opp << 1,
        }),
        in_board(r, c),
    ensures
        nth(omv, mover_index(color, r, c) as u128) == threat_at(g, color.other(), r, c),
        !nth(omv, (cell_index(r, c) + 1 - parity(color)) as u128),
{
    lemma_shift_bits(opp);
    let rr = r as u128;
    let cc = c as u128;
    let i0 = (14 * rr + 2 * cc) as u128;
    let i1 = (14 * rr + 2 * cc + 1) as u128;
    assert(i0 == cell_index(r, c) as u128);
    assert(i1 == (cell_index(r, c) + 1) as u128);
    match color {
        PlayerColor::Blue => {
            // mover bit: even; the threat word lives on the odd plane.
            assert(nth(opp >> 1, i0) == nth(opp, (i0 + 1) as u128));
            assert((i0 + 1) as u128 == i1);
            assert(nth(opp, i1) == color_at(opp, PlayerColor::Red, r, c));
            // odd bit of omv reads the next even bit of opp, which is empty
            assert(nth(opp >> 1, i1) == nth(opp, (i1 + 1) as u128));
            if c < 6 {
                let j0 = (14 * rr + 2 * (cc + 1)) as u128;
                assert((i1 + 1) as u128 == j0);
                assert(nth(opp, j0) == color_at(opp, PlayerColor::Blue, r, c + 1));
                assert(!nth(opp, j0));
            } else if r < 5 {
                let j0 = (14 * (rr + 1) + 2 * 0) as u128;
                assert((i1 + 1) as u128 == j0);
                assert(nth(opp, j0) == color_at(opp, PlayerColor::Blue, r + 1, 0));
                assert(!nth(opp, j0));
            } else {
                assert((i1 + 1) as u128 == 84);
                assert(!nth(opp, 84));
            }
        },
        PlayerColor::Red => {
            // mover bit: odd; the threat word lives on the even plane.
            assert(nth(opp << 1, i1) == nth(opp, (i1 - 1) as u128));
            assert((i1 - 1) as u128 == i0);
            assert(nth(opp, i0) == color_at(opp, PlayerColor::Blue, r, c));
            // even bit of omv reads the previous odd bit of opp, which is empty
            if r == 0 && c == 0 {
                assert(i0 == 0);
                assert(!nth(opp << 1, 0));
            } else {
                assert(1 <= i0 < 128);
                assert(nth(opp << 1, i0) == nth(opp, (i0 - 1) as u128));
                if c >= 1 {
                    let j1 = (14 * rr + 2 * (cc - 1) + 1) as u128;
                    assert((i0 - 1) as u128 == j1);
                    assert(nth(opp, j1) == color_at(opp, PlayerColor::Red, r, c - 1));
                    assert(!nth(opp, j1));
                } else {
                    let j1 = (14 * (rr - 1) + 2 * 6 + 1) as u128;
                    assert((i0 - 1) as u128 == j1);
                    assert(nth(opp, j1) == color_at(opp, PlayerColor::Red, r - 1, 6));
                    assert(!nth(opp, j1));
                }
            }
        },
    }
}

/// What one cell bit of the shifted-down threat word holds: the opponent
/// threat on the cell directly above, carried on the mover's parity.
proof fn lemma_excl_cell(
    g: u128,
    color: PlayerColor,
    opp: u128,
    omv: u128,
    excl: u128,
    r: int,
    c: int,
)
    requires
        valid_gamestate(g),
        fits_board(opp),
        forall|r2: int, c2: int|
            in_board(r2, c2) ==> #[trigger] color_at(opp, color.other(), r2, c2) == (!occupied(
                g,
                r2,
                c2,
            ) && completes_line_at(g, color.other(), r2, c2)),
        forall|r2: int, c2: int| in_board(r2, c2) ==> !(#[trigger] color_at(opp, color, r2, c2)),
        omv == (match color {
            PlayerColor::Blue => opp >> 1,
            PlayerColor::Red => opp << 1,
        }),
        excl == omv << 14,
        in_board(r, c),
    ensures
        nth(excl, mover_index(color, r, c) as u128) == (r >= 1 && threat_at(
            g,
            color.other(),
            r - 1,
            c,
        )),
{
    lemma_shift_bits(omv);
    let i = mover_index(color, r, c) as u128;
    if r >= 1 {
        assert(14 <= i < 128);
        assert(nth(omv << 14, i) == nth(omv, (i - 14) as u128));
        lemma_omv_cell(g, color, opp, omv, r - 1, c);
        assert((i - 14) as u128 == mover_index(color, r - 1, c) as u128);
    } else {
        assert(i < 14);
        assert(!nth(omv << 14, i));
    }
}

/// What one cell bit of the forced-move word holds: a playable cell that
/// the opponent threatens, on the mover's parity.
proof fn lemma_forced_cell(
    g: u128,
    color: PlayerColor,
    pm: u128,
    opp: u128,
    omv: u128,
    forced: u128,
    r: int,
    c: int,
)
    requires
        valid_gamestate(g),
        fits_board(pm),
        forall|r2: int, c2: int|
            in_board(r2, c2) ==> #[trigger] blue_at(pm, r2, c2) == playable(g, r2, c2),
        forall|r2: int, c2: int|
            in_board(r2, c2) ==> #[trigger] red_at(pm, r2, c2) == playable(g, r2, c2),
        fits_board(opp),
        forall|r2: int, c2: int|
            in_board(r2, c2) ==> #[trigger] color_at(opp, color.other(), r2, c2) == (!occupied(
                g,
                r2,
                c2,
            ) && completes_line_at(g, color.other(), r2, c2)),
        forall|r2: int, c2: int| in_board(r2, c2) ==> !(#[trigger] color_at(opp, color, r2, c2)),
        omv == (match color {
            PlayerColor::Blue => opp >> 1,
            PlayerColor::Red => opp << 1,
        }),
        forced == pm & omv,
        in_board(r, c),
    ensures
        nth(forced, mover_index(color, r, c) as u128) == (playable(g, r, c) && threat_at(
            g,
            color.other(),
            r,
            c,
        )),
        !nth(forced, (cell_index(r, c) + 1 - parity(color)) as u128),
{
    lemma_nth_and(pm, omv);
    lemma_omv_cell(g, color, opp, omv, r, c);
    let i = mover_index(color, r, c) as u128;
    let iother = (cell_index(r, c) + 1 - parity(color)) as u128;
    assert(nth(pm & omv, i) == (nth(pm, i) && nth(omv, i)));
    assert(nth(pm & omv, iother) == (nth(pm, iother) && nth(omv, iother)));
    match color {
        PlayerColor::Blue => {
            assert(i == cell_index(r, c) as u128);
            assert(nth(pm, i) == blue_at(pm, r, c));
        },
        PlayerColor::Red => {
            assert(i == (cell_index(r, c) + 1) as u128);
            assert(nth(pm, i) == red_at(pm, r, c));
        },
    }
}

/// A set bit of the forced-move word names a cell: its row, column and the
/// mover's parity.
proof fn lemma_forced_bit(
    g: u128,
    color: PlayerColor,
    pm: u128,
    opp: u128,
    omv: u128,
    forced: u128,
    k: u128,
) -> (cell: (int, int))
    requires
        valid_gamestate(g),
        fits_board(pm),
        forall|r2: int, c2: int|
            in_board(r2, c2) ==> #[trigger] blue_at(pm, r2, c2) == playable(g, r2, c2),
        forall|r2: int, c2: int|
            in_board(r2, c2) ==> #[trigger] red_at(pm, r2, c2) == playable(g, r2, c2),
        fits_board(opp),
        forall|r2: int, c2: int|
            in_board(r2, c2) ==> #[trigger] color_at(opp, color.other(), r2, c2) == (!occupied(
                g,
                r2,
                c2,
            ) && completes_line_at(g, color.other(), r2, c2)),
        forall|r2: int, c2: int| in_board(r2, c2) ==> !(#[trigger] color_at(opp, color, r2, c2)),
        omv == (match color {
            PlayerColor::Blue => opp >> 1,
            PlayerColor::Red => opp << 1,
        }),
        forced == pm & omv,
        k < 128,
        nth(forced, k),
    ensures
        in_board(cell.0, cell.1),
        k == mover_index(color, cell.0, cell.1) as u128,
        playable(g, cell.0, cell.1),
        threat_at(g, color.other(), cell.0, cell.1),
{
    lemma_nth_and(pm, omv);
    assert(nth(pm, k));
    lemma_shift_bits(pm);
    assert(k < 84);
    lemma_bit_decomp(k);
    let r = (k / 14) as int;
    let c = ((k % 14) / 2) as int;
    assert(in_board(r, c));
    lemma_forced_cell(g, color, pm, opp, omv, forced, r, c);
    if k % 2 == parity(color) {
        assert(k == mover_index(color, r, c) as u128);
    } else {
        assert(k == (cell_index(r, c) + 1 - parity(color)) as u128);
        assert(!nth(forced, k));
    }
    (r, c)
}

/// Puts the non-losing-move word together, cell by cell.
#[verifier::rlimit(100)]
#[verifier::spinoff_prover]
proof fn lemma_non_losing_cells(
    g: u128,
    color: PlayerColor,
    pm: u128,
    opp: u128,
    omv: u128,
    excl: u128,
    forced: u128,
    count: nat,
    moves: u128,
    res: u128,
)
    requires
        valid_gamestate(g),
        fits_board(pm),
        forall|r2: int, c2: int|
            in_board(r2, c2) ==> #[trigger] blue_at(pm, r2, c2) == playable(g, r2, c2),
        forall|r2: int, c2: int|
            in_board(r2, c2) ==> #[trigger] red_at(pm, r2, c2) == playable(g, r2, c2),
        fits_board(opp),
        forall|r2: int, c2: int|
            in_board(r2, c2) ==> #[trigger] color_at(opp, color.other(), r2, c2) == (!occupied(
                g,
                r2,
                c2,
            ) && completes_line_at(g, color.other(), r2, c2)),
        forall|r2: int, c2: int| in_board(r2, c2) ==> !(#[trigger] color_at(opp, color, r2, c2)),
        omv == (match color {
            PlayerColor::Blue => opp >> 1,
            PlayerColor::Red => opp << 1,
        }),
        excl == omv << 14,
        forced == pm & omv,
        count == popcount(forced),
        moves == (if count > 1 {
            0u128
        } else if count == 1 {
            forced & !excl
        } else {
            pm & !excl
        }),
        res == moves & plane_mask(color),
    ensures
        fits_board(res),
        forall|r: int, c: int|
            in_board(r, c) ==> #[trigger] color_at(res, color, r, c) == non_losing_at(
                g,
                color,
                r,
                c,
            ),
        forall|r: int, c: int|
            in_board(r, c) ==> !(#[trigger] color_at(res, color.other(), r, c)),
{
    lemma_nth_and(moves, plane_mask(color));
    lemma_nth_diff(forced, excl);
    lemma_nth_diff(pm, excl);
    lemma_plane_cells(0);
    lemma_nth_zero();
    assert(res < 0x1000000000000000000000u128) by (bit_vector)
        requires
            res == moves & 6447604371278022265099605u128 || res == moves
                & 12895208742556044530199210u128,
    ;
    let ghost fcell: (int, int) = if count == 1 {
        let k = crate::board::lemma_some_bit(forced);
        crate::board::lemma_popcount_clear_bit(forced, k);
        lemma_popcount_zero(forced & !(1u128 << k));
        lemma_nth_diff(forced, 1u128 << k);
        lemma_single_bit(k);
        assert(forall|j: u128|
            j < 128 && j != k ==> !(#[trigger] nth(forced, j))) by {
            assert forall|j: u128| j < 128 && j != k implies !(#[trigger] nth(forced, j)) by {
                assert(nth(forced & !(1u128 << k), j) == (nth(forced, j) && !nth(1u128 << k, j)));
                assert(forced & !(1u128 << k) == 0);
            }
        }
        lemma_forced_bit(g, color, pm, opp, omv, forced, k)
    } else {
        (0, 0)
    };
    if count > 1 {
        let k1 = crate::board::lemma_some_bit(forced);
        crate::board::lemma_popcount_clear_bit(forced, k1);
        let forced2 = forced & !(1u128 << k1);
        lemma_popcount_zero(forced2);
        let k2 = crate::board::lemma_some_bit(forced2);
        lemma_nth_diff(forced, 1u128 << k1);
        lemma_single_bit(k1);
        assert(nth(forced, k2) && k2 != k1);
        let cell1 = lemma_forced_bit(g, color, pm, opp, omv, forced, k1);
        let cell2 = lemma_forced_bit(g, color, pm, opp, omv, forced, k2);
        assert(cell1 != cell2);
        assert forall|r: int, c: int| in_board(r, c) implies (#[trigger] color_at(res, color, r, c)
            == non_losing_at(g, color, r, c) && !(color_at(res, color.other(), r, c))) by {
            let i = mover_index(color, r, c) as u128;
            let iother = (cell_index(r, c) + 1 - parity(color)) as u128;
            assert(nth(res, i) == (nth(moves, i) && nth(plane_mask(color), i)));
            assert(nth(res, iother) == (nth(moves, iother) && nth(plane_mask(color), iother)));
            assert(!nth(0u128, i) && !nth(0u128, iother));
            assert(!non_losing_at(g, color, r, c)) by {
                if non_losing_at(g, color, r, c) {
                    assert(cell1.0 == r && cell1.1 == c);
                    assert(cell2.0 == r && cell2.1 == c);
                }
            }
            lemma_cell_bits_of(color, res, r, c);
        }
    } else if count == 1 {
        assert forall|r: int, c: int| in_board(r, c) implies (#[trigger] color_at(res, color, r, c)
            == non_losing_at(g, color, r, c) && !(color_at(res, color.other(), r, c))) by {
            let i = mover_index(color, r, c) as u128;
            let iother = (cell_index(r, c) + 1 - parity(color)) as u128;
            assert(nth(res, i) == (nth(moves, i) && nth(plane_mask(color), i)));
            assert(nth(res, iother) == (nth(moves, iother) && nth(plane_mask(color), iother)));
            assert(nth(moves, i) == (nth(forced, i) && !nth(excl, i)));
            lemma_forced_cell(g, color, pm, opp, omv, forced, r, c);
            lemma_excl_cell(g, color, opp, omv, excl, r, c);
            if r == fcell.0 && c == fcell.1 {
                assert(nth(forced, i) == (playable(g, r, c) && threat_at(g, color.other(), r, c)));
                assert(forall|r2: int, c2: int|
                    playable(g, r2, c2) && #[trigger] threat_at(g, color.other(), r2, c2) ==> r2
                        == r && c2 == c) by {
                    assert forall|r2: int, c2: int|
                        playable(g, r2, c2) && #[trigger] threat_at(
                            g,
                            color.other(),
                            r2,
                            c2,
                        ) implies r2 == r && c2 == c by {
                        lemma_forced_cell(g, color, pm, opp, omv, forced, r2, c2);
                        let j = mover_index(color, r2, c2) as u128;
                        assert(nth(forced, j));
                        assert(j == mover_index(color, fcell.0, fcell.1) as u128);
                    }
                }
            } else {
                let j = mover_index(color, fcell.0, fcell.1) as u128;
                assert(i != j);
                assert(!nth(forced, i));
                assert(!non_losing_at(g, color, r, c)) by {
                    if non_losing_at(g, color, r, c) {
                        assert(playable(g, fcell.0, fcell.1) && threat_at(
                            g,
                            color.other(),
                            fcell.0,
                            fcell.1,
                        ));
                        assert(fcell.0 == r && fcell.1 == c);
                    }
                }
            }
            lemma_cell_bits_of(color, res, r, c);
        }
    } else {
        assert(forced == 0) by {
            lemma_popcount_zero(forced);
        }
        assert forall|r: int, c: int| in_board(r, c) implies (#[trigger] color_at(res, color, r, c)
            == non_losing_at(g, color, r, c) && !(color_at(res, color.other(), r, c))) by {
            let i = mover_index(color, r, c) as u128;
            let iother = (cell_index(r, c) + 1 - parity(color)) as u128;
            assert(nth(res, i) == (nth(moves, i) && nth(plane_mask(color), i)));
            assert(nth(res, iother) == (nth(moves, iother) && nth(plane_mask(color), iother)));
            assert(nth(moves, i) == (nth(pm, i) && !nth(excl, i)));
            lemma_excl_cell(g, color, opp, omv, excl, r, c);
            assert(forall|r2: int, c2: int|
                playable(g, r2, c2) && #[trigger] threat_at(g, color.other(), r2, c2) ==> r2 == r
                    && c2 == c) by {
                assert forall|r2: int, c2: int|
                    playable(g, r2, c2) && #[trigger] threat_at(
                        g,
                        color.other(),
                        r2,
                        c2,
                    ) implies r2 == r && c2 == c by {
                    lemma_forced_cell(g, color, pm, opp, omv, forced, r2, c2);
                    assert(nth(forced, mover_index(color, r2, c2) as u128));
                    assert(!nth(0u128, mover_index(color, r2, c2) as u128));
                }
            }
            match color {
                PlayerColor::Blue => {
                    assert(nth(pm, i) == blue_at(pm, r, c));
                },
                PlayerColor::Red => {
                    assert(nth(pm, i) == red_at(pm, r, c));
                },
            }
            lemma_cell_bits_of(color, res, r, c);
        }
    }
}

/// Ties the two bits of one cell of a word to the `color_at` reading.
pub(crate) proof fn lemma_cell_bits_of(color: PlayerColor, w: u128, r: int, c: int)
    requires
        in_board(r, c),
    ensures
        color_at(w, color, r, c) == nth(w, mover_index(color, r, c) as u128),
        color_at(w, color.other(), r, c) == nth(w, (cell_index(r, c) + 1 - parity(color)) as u128),
        nth(plane_mask(color), mover_index(color, r, c) as u128),
        !nth(plane_mask(color), (cell_index(r, c) + 1 - parity(color)) as u128),
{
    lemma_plane_cells(0);
    let rr = r as u128;
    let cc = c as u128;
    assert((14 * rr + 2 * cc) as u128 == cell_index(r, c) as u128);
    assert((14 * rr + 2 * cc + 1) as u128 == (cell_index(r, c) + 1) as u128);
    assert(nth(6447604371278022265099605u128, (14 * rr + 2 * cc) as u128));
    assert(!nth(6447604371278022265099605u128, (14 * rr + 2 * cc + 1) as u128));
    assert(nth(12895208742556044530199210u128, (14 * rr + 2 * cc + 1) as u128));
    assert(!nth(12895208742556044530199210u128, (14 * rr + 2 * cc) as u128));
}

/// Returns the encoding of the moves that keep `color` from losing on the
/// opponent's next turn: the playable cells that neither sit right under an
/// opponent threat nor ignore a playable opponent threat, and nothing at
/// all when the opponent threatens more than one playable cell.
pub fn calculate_non_losing_moves(gamestate: u128, color: PlayerColor) -> (res: u128)
    requires
        valid_gamestate(gamestate),
    ensures
        fits_board(res),
        forall|r: int, c: int|
            in_board(r, c) ==> #[trigger] color_at(res, color, r, c) == non_losing_at(
                gamestate,
                color,
                r,
                c,
            ),
        forall|r: int, c: int|
            in_board(r, c) ==> !(#[trigger] color_at(res, color.other(), r, c)),
{
    let possible = possible_moves(gamestate);
    let opponent_winning = opponent_winning_positions(gamestate, color);

    // Align the opponent's threats with the mover's own bit plane
    let opponent_winning_moves: u128 = match color {
        PlayerColor::Blue => opponent_winning >> 1,
        PlayerColor::Red => opponent_winning << 1,
    };
    let forced_moves = possible & opponent_winning_moves;
    // Cells right under a threat would hand the opponent the win
    let under_threat = opponent_winning_moves << 14;

    let count = forced_moves.count_ones();
    let moves: u128 = if count > 1 {
        // Two or more playable threats: every move loses
        0
    } else if count == 1 {
        forced_moves & !under_threat
    } else {
        possible & !under_threat
    };
    let res = match color {
        PlayerColor::Blue => moves & FULL_BLUE_ENCODED_BOARD,
        PlayerColor::Red => moves & FULL_RED_ENCODED_BOARD,
    };
    proof {
        lemma_non_losing_cells(
            gamestate,
            color,
            possible,
            opponent_winning,
            opponent_winning_moves,
            under_threat,
            forced_moves,
            count as nat,
            moves,
            res,
        );
    }
    res
}

/// Both color bits of every cell of one column.
pub open spec fn column_mask(c: int) -> u128 {
    3541991048129292582915u128 << ((2 * c) as u128)
}

/// Which bits a column mask holds.
pub(crate) proof fn lemma_column_mask_bits(c: u128)
    by (bit_vector)
    requires
        c < 7,
    ensures
        forall|j: u128|
            j < 128 ==> (#[trigger] nth(3541991048129292582915u128 << (2 * c), j) == (j < 84 && (j
                % 14) / 2 == c)),
{
}

/// Returns the bits of the leftmost column that has any bit set in the
/// given word, and `0` when no board column has one.
pub fn get_one_of_the_bits(multiple_moves_in_one: u128) -> (res: u128)
    ensures
        forall|j: u128| j < 128 ==> (#[trigger] nth(res, j) ==> nth(multiple_moves_in_one, j)),
        res == 0 ==> forall|j: u128| j < 84 ==> !(#[trigger] nth(multiple_moves_in_one, j)),
        res != 0 ==> exists|c: int|
            0 <= c < 7 && res == multiple_moves_in_one & #[trigger] column_mask(c) && (forall|
                j: u128,
            |
                j < 84 && (j % 14) / 2 < c ==> !nth(multiple_moves_in_one, j)),
{
    let m = multiple_moves_in_one;
    let mut column: u128 = 3541991048129292582915;
    let mut c: u32 = 0;
    proof {
        crate::board::lemma_column_mask_shift(0);
        assert((2 * 0) as u128 == 0u128);
    }
    while c < 7
        invariant
            0 <= c <= 7,
            column == column_mask(c as int),
            forall|j: u128|
                j < 84 && (j % 14) / 2 < c ==> !(#[trigger] nth(m, j)),
            m == multiple_moves_in_one,
        decreases 7 - c,
    {
        proof {
            lemma_column_mask_bits(c as u128);
            assert((2 * (c as u128)) as u128 == (2 * (c as int)) as u128);
        }
        if m & column != 0 {
            let res = m & column;
            proof {
                lemma_nth_and(m, column);
                lemma_nth_zero();
                assert(res == m & column_mask(c as int));
                assert(forall|j: u128|
                    j < 84 && (j % 14) / 2 < c as int ==> !nth(m, j));
            }
            return res;
        }
        proof {
            lemma_nth_and(m, column);
            lemma_nth_zero();
            assert forall|j: u128| j < 84 && (j % 14) / 2 < c + 1 implies !(#[trigger] nth(m, j)) by {
                if (j % 14) / 2 == c as u128 {
                    assert(nth(m & column, j) == (nth(m, j) && nth(column, j)));
                    assert(nth(column, j));
                }
            }
            crate::board::lemma_column_mask_shift(c as u128);
            assert((2 * ((c as u128) + 1)) as u128 == (2 * (c as int + 1)) as u128);
        }
        column = column << 2;
        c = c + 1;
    }
    proof {
        lemma_nth_zero();
    }
    0
}

/// The number of threat cells of `color` among the cells whose pair index
/// (row-major, seven cells per row) is at least `k`.
pub open spec fn threat_count_from(g: u128, color: PlayerColor, k: int) -> nat
    decreases 42 - k,
{
    if k < 0 || k >= 42 {
        0
    } else {
        (if threat_at(g, color, k / 7, k % 7) {
            1nat
        } else {
            0nat
        }) + threat_count_from(g, color, k + 1)
    }
}

/// Returns the move score of a gamestate for the given color: the number
/// of cells where that color would complete a line at once. A higher
/// score makes a child more promising, so it is searched earlier; the
/// score biases order only and never correctness.
pub fn move_score(gamestate: u128, color: PlayerColor) -> (r: u8)
    requires
        valid_gamestate(gamestate),
    ensures
        r == threat_count_from(gamestate, color, 0),
        (r == 0) == (forall|rr: int, cc: int|
            in_board(rr, cc) ==> !(#[trigger] threat_at(gamestate, color, rr, cc))),
{
    let w = compute_winning_positions(gamestate, color);
    proof {
        lemma_popcount_le_128(w);
        lemma_popcount_zero(w);
        assert forall|r2: int, c2: int| in_board(r2, c2) implies #[trigger] color_at(
            w,
            color,
            r2,
            c2,
        ) == threat_at(gamestate, color, r2, c2) by {}
        lemma_popcount_threats(gamestate, color, w, 0);
        if w != 0 {
            let k = crate::board::lemma_some_bit(w);
            lemma_shift_bits(w);
            assert(k < 84);
            lemma_bit_decomp(k);
            let r0 = (k / 14) as int;
            let c0 = ((k % 14) / 2) as int;
            lemma_cell_bits_of(color, w, r0, c0);
            if (k % 2) as int == parity(color) {
                assert(k == mover_index(color, r0, c0) as u128);
                assert(threat_at(gamestate, color, r0, c0));
            } else {
                assert(k == (cell_index(r0, c0) + 1 - parity(color)) as u128);
                assert(!nth(w, k));
            }
        } else {
            assert forall|rr: int, cc: int| in_board(rr, cc) implies !(#[trigger] threat_at(
                gamestate,
                color,
                rr,
                cc,
            )) by {
                lemma_cell_bits_of(color, w, rr, cc);
                lemma_nth_zero();
            }
        }
    }
    w.count_ones() as u8
}

/// A column with a free cell contributes its child to the generated list.
proof fn lemma_children_from_contains(g: u128, cols: Seq<int>, k: int)
    requires
        0 <= k < cols.len(),
        child_for(g, cols[k]) is Some,
    ensures
        children_from(g, cols).contains(child_for(g, cols[k])->0),
    decreases cols.len(),
{
    let rest = children_from(g, cols.drop_first());
    if k == 0 {
        let v = child_for(g, cols[0])->0;
        assert(children_from(g, cols)[0] == v);
    } else {
        lemma_children_from_contains(g, cols.drop_first(), k - 1);
        assert(cols.drop_first()[k - 1] == cols[k]);
        let v = child_for(g, cols[k])->0;
        let jj = choose|jj: int| 0 <= jj < rest.len() && rest[jj] == v;
        match child_for(g, cols[0]) {
            Some(v0) => {
                assert(children_from(g, cols)[jj + 1] == v);
            },
            None => {
                assert(children_from(g, cols)[jj] == v);
            },
        }
    }
}

/// Every non-full column's child is among the generated next positions.
pub proof fn lemma_children_contains(g: u128, c: int)
    requires
        0 <= c < 7,
        child_for(g, c) is Some,
    ensures
        children_in_order(g).contains(child_for(g, c)->0),
{
    let cols = search_order();
    if c == 3 {
        lemma_children_from_contains(g, cols, 0);
    } else if c == 2 {
        lemma_children_from_contains(g, cols, 1);
    } else if c == 4 {
        lemma_children_from_contains(g, cols, 2);
    } else if c == 1 {
        lemma_children_from_contains(g, cols, 3);
    } else if c == 5 {
        lemma_children_from_contains(g, cols, 4);
    } else if c == 0 {
        lemma_children_from_contains(g, cols, 5);
    } else {
        lemma_children_from_contains(g, cols, 6);
    }
}

/// A board with any open column has at least one next position.
pub proof fn lemma_children_nonempty(g: u128, c: int)
    requires
        0 <= c < 7,
        landing_row(g, c) >= 0,
    ensures
        children_in_order(g).len() > 0,
{
    lemma_children_contains(g, c);
}

/// Dropping a token of `color` on one of its threat cells completes a
/// four-in-a-row.
#[verifier::rlimit(100)]
#[verifier::spinoff_prover]
pub proof fn lemma_threat_completes(g: u128, color: PlayerColor, r: int, c: int)
    requires
        valid_gamestate(g),
        threat_at(g, color, r, c),
    ensures
        crate::board::has_line(g | move_bit(color, r, c), color),
{
    lemma_place_token(g, color, r, c);
    lemma_completes_cases(g, color, r, c);
    let child = g | move_bit(color, r, c);
    if window_missing(g, color, r, c, 0, 1, 0) {
        assert(crate::board::line4(child, color, r, c, 0, 1));
        assert(crate::board::dir_ok(0, 1) && crate::board::window_in_board(r, c, 0, 1));
    } else if window_missing(g, color, r, c - 1, 0, 1, 1) {
        assert(crate::board::line4(child, color, r, c - 1, 0, 1));
        assert(crate::board::dir_ok(0, 1) && crate::board::window_in_board(r, c - 1, 0, 1));
    } else if window_missing(g, color, r, c - 2, 0, 1, 2) {
        assert(crate::board::line4(child, color, r, c - 2, 0, 1));
        assert(crate::board::dir_ok(0, 1) && crate::board::window_in_board(r, c - 2, 0, 1));
    } else if window_missing(g, color, r, c - 3, 0, 1, 3) {
        assert(crate::board::line4(child, color, r, c - 3, 0, 1));
        assert(crate::board::dir_ok(0, 1) && crate::board::window_in_board(r, c - 3, 0, 1));
    } else if window_missing(g, color, r, c, 1, 0, 0) {
        assert(crate::board::line4(child, color, r, c, 1, 0));
        assert(crate::board::dir_ok(1, 0) && crate::board::window_in_board(r, c, 1, 0));
    } else if window_missing(g, color, r - 1, c, 1, 0, 1) {
        assert(crate::board::line4(child, color, r - 1, c, 1, 0));
        assert(crate::board::dir_ok(1, 0) && crate::board::window_in_board(r - 1, c, 1, 0));
    } else if window_missing(g, color, r - 2, c, 1, 0, 2) {
        assert(crate::board::line4(child, color, r - 2, c, 1, 0));
        assert(crate::board::dir_ok(1, 0) && crate::board::window_in_board(r - 2, c, 1, 0));
    } else if window_missing(g, color, r - 3, c, 1, 0, 3) {
        assert(crate::board::line4(child, color, r - 3, c, 1, 0));
        assert(crate::board::dir_ok(1, 0) && crate::board::window_in_board(r - 3, c, 1, 0));
    } else if window_missing(g, color, r, c, 1, 1, 0) {
        assert(crate::board::line4(child, color, r, c, 1, 1));
        assert(crate::board::dir_ok(1, 1) && crate::board::window_in_board(r, c, 1, 1));
    } else if window_missing(g, color, r - 1, c - 1, 1, 1, 1) {
        assert(crate::board::line4(child, color, r - 1, c - 1, 1, 1));
        assert(crate::board::dir_ok(1, 1) && crate::board::window_in_board(r - 1, c - 1, 1, 1));
    } else if window_missing(g, color, r - 2, c - 2, 1, 1, 2) {
        assert(crate::board::line4(child, color, r - 2, c - 2, 1, 1));
        assert(crate::board::dir_ok(1, 1) && crate::board::window_in_board(r - 2, c - 2, 1, 1));
    } else if window_missing(g, color, r - 3, c - 3, 1, 1, 3) {
        assert(crate::board::line4(child, color, r - 3, c - 3, 1, 1));
        assert(crate::board::dir_ok(1, 1) && crate::board::window_in_board(r - 3, c - 3, 1, 1));
    } else if window_missing(g, color, r, c, 1, -1, 0) {
        assert(crate::board::line4(child, color, r, c, 1, -1));
        assert(crate::board::dir_ok(1, -1) && crate::board::window_in_board(r, c, 1, -1));
    } else if window_missing(g, color, r - 1, c + 1, 1, -1, 1) {
        assert(crate::board::line4(child, color, r - 1, c + 1, 1, -1));
        assert(crate::board::dir_ok(1, -1) && crate::board::window_in_board(r - 1, c + 1, 1, -1));
    } else if window_missing(g, color, r - 2, c + 2, 1, -1, 2) {
        assert(crate::board::line4(child, color, r - 2, c + 2, 1, -1));
        assert(crate::board::dir_ok(1, -1) && crate::board::window_in_board(r - 2, c + 2, 1, -1));
    } else {
        assert(window_missing(g, color, r - 3, c + 3, 1, -1, 3));
        assert(crate::board::line4(child, color, r - 3, c + 3, 1, -1));
        assert(crate::board::dir_ok(1, -1) && crate::board::window_in_board(r - 3, c + 3, 1, -1));
    }
}

/// Reads one bit of the `o`-parity plane of a word.
fn plane_cell(g: u128, o: u32, r: i32, c: i32) -> (b: bool)
    requires
        in_board(r as int, c as int),
        o < 2,
    ensures
        b == plane_at(g, o as int, r as int, c as int),
{
    let off: u32 = (14 * r + 2 * c) as u32 + o;
    proof {
        let rr = r as u128;
        let cc = c as u128;
        assert((14 * rr + 2 * cc) as u128 + (o as u128) == (cell_index(r as int, c as int)
            + o as int) as u128);
    }
    (g >> (off as u128)) & 1 == 1
}

/// Tests one window of four on the `o`-parity plane: on the board, with
/// every cell but the one at index `j` set.
fn window_gap(g: u128, o: u32, r0: i32, c0: i32, dr: i32, dc: i32, j: u32) -> (b: bool)
    requires
        crate::board::dir_ok(dr as int, dc as int),
        o < 2,
        j < 4,
        -3 <= r0 <= 8,
        -3 <= c0 <= 9,
    ensures
        b == plane_window_missing(g, o as int, r0 as int, c0 as int, dr as int, dc as int, j as int),
{
    let r3 = r0 + 3 * dr;
    let c3 = c0 + 3 * dc;
    if r0 < 0 || r0 > 5 || c0 < 0 || c0 > 6 || r3 < 0 || r3 > 5 || c3 < 0 || c3 > 6 {
        return false;
    }
    let mut ok = true;
    if j != 0 {
        ok = ok && plane_cell(g, o, r0, c0);
    }
    if j != 1 {
        ok = ok && plane_cell(g, o, r0 + dr, c0 + dc);
    }
    if j != 2 {
        ok = ok && plane_cell(g, o, r0 + 2 * dr, c0 + 2 * dc);
    }
    if j != 3 {
        ok = ok && plane_cell(g, o, r0 + 3 * dr, c0 + 3 * dc);
    }
    ok
}

/// A single token bit somewhere on the board.
pub open spec fn is_cell_bit(m: u128, rm: int, cm: int, o: int) -> bool {
    in_board(rm, cm) && 0 <= o < 2 && m == 1u128 << ((cell_index(rm, cm) + o) as u128)
}

/// Finds the cell and parity a single token bit names.
fn locate_bit(m: u128) -> (res: (i32, i32, u32))
    requires
        exists|rm: int, cm: int, o: int| #[trigger] is_cell_bit(m, rm, cm, o),
    ensures
        is_cell_bit(m, res.0 as int, res.1 as int, res.2 as int),
{
    let mut r: i32 = 0;
    while r < 6
        invariant
            0 <= r <= 6,
            exists|rm: int, cm: int, o: int| #[trigger] is_cell_bit(m, rm, cm, o),
            forall|rm: int, cm: int, o: int|
                rm < r && #[trigger] is_cell_bit(m, rm, cm, o) ==> false,
        decreases 6 - r,
    {
        let mut c: i32 = 0;
        while c < 7
            invariant
                0 <= r < 6,
                0 <= c <= 7,
                exists|rm: int, cm: int, o: int| #[trigger] is_cell_bit(m, rm, cm, o),
                forall|rm: int, cm: int, o: int|
                    rm < r && #[trigger] is_cell_bit(m, rm, cm, o) ==> false,
                forall|cm: int, o: int| cm < c && #[trigger] is_cell_bit(m, r as int, cm, o) ==> false,
            decreases 7 - c,
        {
            let base: u32 = (14 * r + 2 * c) as u32;
            if m == 1u128 << (base as u128) {
                proof {
                    assert(base as u128 == (cell_index(r as int, c as int) + 0) as u128);
                }
                return (r, c, 0);
            }
            if m == 1u128 << ((base + 1) as u128) {
                proof {
                    assert((base + 1) as u128 == (cell_index(r as int, c as int) + 1) as u128);
                }
                return (r, c, 1);
            }
            proof {
                assert forall|cm: int, o: int|
                    cm < c + 1 && #[trigger] is_cell_bit(m, r as int, cm, o) implies false by {
                    if cm == c as int {
                        assert((cell_index(r as int, c as int) + 0) as u128 == base as u128);
                        assert((cell_index(r as int, c as int) + 1) as u128 == (base + 1) as u128);
                    }
                }
            }
            c = c + 1;
        }
        r = r + 1;
    }
    proof {
        let (rm, cm, o) = choose|rm: int, cm: int, o: int| #[trigger] is_cell_bit(m, rm, cm, o);
        assert(false);
    }
    (0, 0, 0)
}

/// Two cell bits with the same word agree on cell and parity.
proof fn lemma_cell_bit_unique(m: u128, r1: int, c1: int, o1: int, r2: int, c2: int, o2: int)
    requires
        is_cell_bit(m, r1, c1, o1),
        is_cell_bit(m, r2, c2, o2),
    ensures
        r1 == r2 && c1 == c2 && o1 == o2,
{
    let k1 = (cell_index(r1, c1) + o1) as u128;
    let k2 = (cell_index(r2, c2) + o2) as u128;
    assert(k1 == k2) by (bit_vector)
        requires
            1u128 << k1 == 1u128 << k2 && k1 < 84 && k2 < 84,
    ;
}

/// Whether a not-yet-placed token bit completes a left-right row of four
/// on its own plane, given the column it sits in (counted from 1).
pub fn check_horizontal_row(gamestate: u128, move_encoded: u128, column_of_move: u8) -> (b: bool)
    requires
        exists|rm: int, o: int|
            #[trigger] is_cell_bit(move_encoded, rm, column_of_move as int - 1, o),
    ensures
        forall|rm: int, o: int|
            #[trigger] is_cell_bit(move_encoded, rm, column_of_move as int - 1, o) ==> b == (
            plane_window_missing(gamestate, o, rm, column_of_move as int - 1, 0, 1, 0)
                || plane_window_missing(gamestate, o, rm, column_of_move as int - 2, 0, 1, 1)
                || plane_window_missing(gamestate, o, rm, column_of_move as int - 3, 0, 1, 2)
                || plane_window_missing(gamestate, o, rm, column_of_move as int - 4, 0, 1, 3)),
{
    let (r, c, o) = locate_bit(move_encoded);
    let b = window_gap(gamestate, o, r, c, 0, 1, 0) || window_gap(gamestate, o, r, c - 1, 0, 1, 1)
        || window_gap(gamestate, o, r, c - 2, 0, 1, 2) || window_gap(gamestate, o, r, c - 3, 0, 1, 3);
    proof {
        assert forall|rm: int, o2: int|
            #[trigger] is_cell_bit(move_encoded, rm, column_of_move as int - 1, o2) implies b == (
        plane_window_missing(gamestate, o2, rm, column_of_move as int - 1, 0, 1, 0)
            || plane_window_missing(gamestate, o2, rm, column_of_move as int - 2, 0, 1, 1)
            || plane_window_missing(gamestate, o2, rm, column_of_move as int - 3, 0, 1, 2)
            || plane_window_missing(gamestate, o2, rm, column_of_move as int - 4, 0, 1, 3)) by {
            lemma_cell_bit_unique(
                move_encoded,
                rm,
                column_of_move as int - 1,
                o2,
                r as int,
                c as int,
                o as int,
            );
        }
    }
    b
}

/// Whether a not-yet-placed token bit sits on top of three own tokens in
/// its column, given the row it lands in (counted from 1 at the bottom).
pub fn check_vertical_row(gamestate: u128, move_encoded: u128, row_of_move: u8) -> (b: bool)
    requires
        exists|cm: int, o: int|
            #[trigger] is_cell_bit(move_encoded, 6 - row_of_move as int, cm, o),
    ensures
        forall|cm: int, o: int|
            #[trigger] is_cell_bit(move_encoded, 6 - row_of_move as int, cm, o) ==> b
                == plane_window_missing(gamestate, o, 6 - row_of_move as int, cm, 1, 0, 0),
{
    let (r, c, o) = locate_bit(move_encoded);
    let b = window_gap(gamestate, o, r, c, 1, 0, 0);
    proof {
        assert forall|cm: int, o2: int|
            #[trigger] is_cell_bit(move_encoded, 6 - row_of_move as int, cm, o2) implies b
            == plane_window_missing(gamestate, o2, 6 - row_of_move as int, cm, 1, 0, 0) by {
            lemma_cell_bit_unique(
                move_encoded,
                6 - row_of_move as int,
                cm,
                o2,
                r as int,
                c as int,
                o as int,
            );
        }
    }
    b
}

/// Whether a not-yet-placed token bit completes a diagonal running from
/// the lower left to the upper right, on its own plane; the row counts
/// from 1 at the bottom, the column from 1 at the left.
pub fn check_lowerleft_upperright_diagonal(
    gamestate: u128,
    move_encoded: u128,
    row_of_move: u8,
    column_of_move: u8,
) -> (b: bool)
    requires
        exists|o: int|
            #[trigger] is_cell_bit(
                move_encoded,
                6 - row_of_move as int,
                column_of_move as int - 1,
                o,
            ),
    ensures
        forall|o: int|
            #[trigger] is_cell_bit(
                move_encoded,
                6 - row_of_move as int,
                column_of_move as int - 1,
                o,
            ) ==> b == ({
                let rm = 6 - row_of_move as int;
                let cm = column_of_move as int - 1;
                plane_window_missing(gamestate, o, rm, cm, 1, -1, 0) || plane_window_missing(
                    gamestate,
                    o,
                    rm - 1,
                    cm + 1,
                    1,
                    -1,
                    1,
                ) || plane_window_missing(gamestate, o, rm - 2, cm + 2, 1, -1, 2)
                    || plane_window_missing(gamestate, o, rm - 3, cm + 3, 1, -1, 3)
            }),
{
    let (r, c, o) = locate_bit(move_encoded);
    let b = window_gap(gamestate, o, r, c, 1, -1, 0) || window_gap(
        gamestate,
        o,
        r - 1,
        c + 1,
        1,
        -1,
        1,
    ) || window_gap(gamestate, o, r - 2, c + 2, 1, -1, 2) || window_gap(
        gamestate,
        o,
        r - 3,
        c + 3,
        1,
        -1,
        3,
    );
    proof {
        assert forall|o2: int|
            #[trigger] is_cell_bit(
                move_encoded,
                6 - row_of_move as int,
                column_of_move as int - 1,
                o2,
            ) implies b == ({
            let rm = 6 - row_of_move as int;
            let cm = column_of_move as int - 1;
            plane_window_missing(gamestate, o2, rm, cm, 1, -1, 0) || plane_window_missing(
                gamestate,
                o2,
                rm - 1,
                cm + 1,
                1,
                -1,
                1,
            ) || plane_window_missing(gamestate, o2, rm - 2, cm + 2, 1, -1, 2)
                || plane_window_missing(gamestate, o2, rm - 3, cm + 3, 1, -1, 3)
        }) by {
            lemma_cell_bit_unique(
                move_encoded,
                6 - row_of_move as int,
                column_of_move as int - 1,
                o2,
                r as int,
                c as int,
                o as int,
            );
        }
    }
    b
}

/// Whether a not-yet-placed token bit completes a diagonal running from
/// the upper left to the lower right, on its own plane; the row counts
/// from 1 at the bottom, the column from 1 at the left.
pub fn check_upperleft_lowerright_diagonal(
    gamestate: u128,
    move_encoded: u128,
    row_of_move: u8,
    column_of_move: u8,
) -> (b: bool)
    requires
        exists|o: int|
            #[trigger] is_cell_bit(
                move_encoded,
                6 - row_of_move as int,
                column_of_move as int - 1,
                o,
            ),
    ensures
        forall|o: int|
            #[trigger] is_cell_bit(
                move_encoded,
                6 - row_of_move as int,
                column_of_move as int - 1,
                o,
            ) ==> b == ({
                let rm = 6 - row_of_move as int;
                let cm = column_of_move as int - 1;
                plane_window_missing(gamestate, o, rm, cm, 1, 1, 0) || plane_window_missing(
                    gamestate,
                    o,
                    rm - 1,
                    cm - 1,
                    1,
                    1,
                    1,
                ) || plane_window_missing(gamestate, o, rm - 2, cm - 2, 1, 1, 2)
                    || plane_window_missing(gamestate, o, rm - 3, cm - 3, 1, 1, 3)
            }),
{
    let (r, c, o) = locate_bit(move_encoded);
    let b = window_gap(gamestate, o, r, c, 1, 1, 0) || window_gap(
        gamestate,
        o,
        r - 1,
        c - 1,
        1,
        1,
        1,
    ) || window_gap(gamestate, o, r - 2, c - 2, 1, 1, 2) || window_gap(
        gamestate,
        o,
        r - 3,
        c - 3,
        1,
        1,
        3,
    );
    proof {
        assert forall|o2: int|
            #[trigger] is_cell_bit(
                move_encoded,
                6 - row_of_move as int,
                column_of_move as int - 1,
                o2,
            ) implies b == ({
            let rm = 6 - row_of_move as int;
            let cm = column_of_move as int - 1;
            plane_window_missing(gamestate, o2, rm, cm, 1, 1, 0) || plane_window_missing(
                gamestate,
                o2,
                rm - 1,
                cm - 1,
                1,
                1,
                1,
            ) || plane_window_missing(gamestate, o2, rm - 2, cm - 2, 1, 1, 2)
                || plane_window_missing(gamestate, o2, rm - 3, cm - 3, 1, 1, 3)
        }) by {
            lemma_cell_bit_unique(
                move_encoded,
                6 - row_of_move as int,
                column_of_move as int - 1,
                o2,
                r as int,
                c as int,
                o as int,
            );
        }
    }
    b
}

/// Whether dropping the mover's token into the given column (counted from
/// 1) completes a four-in-a-row for the mover. A full or out-of-range
/// column never wins.
#[verifier::rlimit(100)]
#[verifier::spinoff_prover]
pub fn is_winning_move(gamestate: u128, move_to_make: u8) -> (b: bool)
    requires
        valid_gamestate(gamestate),
    ensures
        b == ({
            let col = move_to_make as int - 1;
            if move_to_make < 1 || move_to_make > 7 {
                false
            } else if landing_row(gamestate, col) == -1 {
                false
            } else {
                completes_line_at(
                    gamestate,
                    turn_of(gamestate),
                    landing_row(gamestate, col),
                    col,
                )
            }
        }),
{
    let color = whos_turn_is_it_gamestate(gamestate);
    let attempt = turn_column_to_encoded_gamestate(gamestate, move_to_make as u32, &color);
    match attempt {
        Some((move_encoded, row_that_was_placed)) => {
            let ghost col = move_to_make as int - 1;
            let ghost lr = landing_row(gamestate, col);
            let ghost o = parity(color);
            proof {
                crate::board::lemma_landing_row(gamestate, col);
                match color {
                    PlayerColor::Blue => {
                        assert((cell_index(lr, col) + 0) as u128 == cell_index(lr, col) as u128);
                        assert(is_cell_bit(move_encoded, lr, col, 0));
                    },
                    PlayerColor::Red => {
                        assert(is_cell_bit(move_encoded, lr, col, 1));
                    },
                }
                assert(6 - row_that_was_placed as int == lr);
            }
            let h = check_horizontal_row(gamestate, move_encoded, move_to_make);
            let v = check_vertical_row(gamestate, move_encoded, row_that_was_placed);
            let d1 = check_lowerleft_upperright_diagonal(
                gamestate,
                move_encoded,
                row_that_was_placed,
                move_to_make,
            );
            let d2 = check_upperleft_lowerright_diagonal(
                gamestate,
                move_encoded,
                row_that_was_placed,
                move_to_make,
            );
            let b = h || v || d1 || d2;
            proof {
                let g = gamestate;
                lemma_completes_cases(g, color, lr, col);
                // a token above the landing cell would float
                assert(!window_missing(g, color, lr - 1, col, 1, 0, 1)) by {
                    if window_missing(g, color, lr - 1, col, 1, 0, 1) {
                        assert(occupied(g, lr - 1, col));
                        crate::board::lemma_gravity_chain(g, lr - 1, col, lr);
                    }
                }
                assert(!window_missing(g, color, lr - 2, col, 1, 0, 2)) by {
                    if window_missing(g, color, lr - 2, col, 1, 0, 2) {
                        assert(occupied(g, lr - 1, col));
                        crate::board::lemma_gravity_chain(g, lr - 1, col, lr);
                    }
                }
                assert(!window_missing(g, color, lr - 3, col, 1, 0, 3)) by {
                    if window_missing(g, color, lr - 3, col, 1, 0, 3) {
                        assert(occupied(g, lr - 1, col));
                        crate::board::lemma_gravity_chain(g, lr - 1, col, lr);
                    }
                }
            }
            b
        },
        None => false,
    }
}

/// Finds the cell and parity of a single token bit, if the word is one.
fn locate_bit_opt(m: u128) -> (res: Option<(i32, i32, u32)>)
    ensures
        match res {
            Some(t) => is_cell_bit(m, t.0 as int, t.1 as int, t.2 as int),
            None => forall|rm: int, cm: int, o: int| !(#[trigger] is_cell_bit(m, rm, cm, o)),
        },
{
    let mut r: i32 = 0;
    while r < 6
        invariant
            0 <= r <= 6,
            forall|rm: int, cm: int, o: int|
                rm < r && #[trigger] is_cell_bit(m, rm, cm, o) ==> false,
        decreases 6 - r,
    {
        let mut c: i32 = 0;
        while c < 7
            invariant
                0 <= r < 6,
                0 <= c <= 7,
                forall|rm: int, cm: int, o: int|
                    rm < r && #[trigger] is_cell_bit(m, rm, cm, o) ==> false,
                forall|cm: int, o: int| cm < c && #[trigger] is_cell_bit(m, r as int, cm, o) ==> false,
            decreases 7 - c,
        {
            let base: u32 = (14 * r + 2 * c) as u32;
            if m == 1u128 << (base as u128) {
                proof {
                    assert(base as u128 == (cell_index(r as int, c as int) + 0) as u128);
                }
                return Some((r, c, 0));
            }
            if m == 1u128 << ((base + 1) as u128) {
                proof {
                    assert((base + 1) as u128 == (cell_index(r as int, c as int) + 1) as u128);
                }
                return Some((r, c, 1));
            }
            proof {
                assert forall|cm: int, o: int|
                    cm < c + 1 && #[trigger] is_cell_bit(m, r as int, cm, o) implies false by {
                    if cm == c as int {
                        assert((cell_index(r as int, c as int) + 0) as u128 == base as u128);
                        assert((cell_index(r as int, c as int) + 1) as u128 == (base + 1) as u128);
                    }
                }
            }
            c = c + 1;
        }
        r = r + 1;
    }
    None
}

/// Returns whether a move word is valid on its own: a single set bit.
pub fn is_valid_move(move_to_check: u128) -> (b: bool)
    ensures
        b == exists|k: u128| k < 128 && move_to_check == (1u128 << k),
{
    let b = move_to_check != 0 && move_to_check & (move_to_check - 1) == 0;
    proof {
        if b {
            let k = crate::board::lemma_some_bit(move_to_check);
            assert(move_to_check == 1u128 << k) by (bit_vector)
                requires
                    move_to_check & ((move_to_check - 1) as u128) == 0 && nth(move_to_check, k)
                        && k < 128,
            ;
        } else {
            if exists|k: u128| k < 128 && move_to_check == (1u128 << k) {
                let k = choose|k: u128| k < 128 && move_to_check == (1u128 << k);
                assert((1u128 << k) != 0 && (1u128 << k) & (((1u128 << k) - 1) as u128) == 0)
                    by (bit_vector)
                    requires
                        k < 128,
                ;
            }
        }
    }
    b
}

/// The color whose turn the given turn number names: blue plays the odd
/// turns.
pub open spec fn turn_color(turn_number: int) -> PlayerColor {
    if turn_number % 2 == 1 {
        PlayerColor::Blue
    } else {
        PlayerColor::Red
    }
}

/// One legal shape of a move for the mover: its own bit on an empty spot
/// of its plane, on the bottom row or above an occupied cell.
pub open spec fn allowed_move_at(g: u128, color: PlayerColor, m: u128, r: int, c: int) -> bool {
    m == move_bit(color, r, c) && in_board(r, c) && !color_at(g, color, r, c) && (r == 5
        || occupied(g, r + 1, c))
}

/// Returns whether a move word is allowed for the player whose turn it is:
/// a single bit on that player's plane, on a spot that player has not
/// taken, either at the bottom or resting on a token.
pub fn is_allowed_move(gamestate: u128, move_to_check: u128, turn_number: usize) -> (b: bool)
    ensures
        b == exists|r: int, c: int|
            #[trigger] allowed_move_at(
                gamestate,
                turn_color(turn_number as int),
                move_to_check,
                r,
                c,
            ),
{
    // If the move is not valid, it is not allowed either
    if !is_valid_move(move_to_check) {
        proof {
            lemma_no_allowed(gamestate, move_to_check, turn_number);
        }
        return false;
    }
    let color = crate::turns::whos_turn_is_it_turn_number(turn_number);
    let located = locate_bit_opt(move_to_check);
    match located {
        None => {
            proof {
                lemma_no_allowed(gamestate, move_to_check, turn_number);
            }
            false
        },
        Some((r, c, o)) => {
            let ghost cl = turn_color(turn_number as int);
            let po: u32 = match color {
                PlayerColor::Blue => 0,
                PlayerColor::Red => 1,
            };
            let b = o == po && !plane_cell(gamestate, po, r, c) && (r == 5 || occupied_at(
                gamestate,
                r + 1,
                c,
            ));
            proof {
                if b {
                    assert((cell_index(r as int, c as int) + po as int) as u128 == (cell_index(
                        r as int,
                        c as int,
                    ) + parity(cl)) as u128);
                    assert(allowed_move_at(gamestate, cl, move_to_check, r as int, c as int));
                } else {
                    assert forall|r2: int, c2: int|
                        #[trigger] allowed_move_at(
                            gamestate,
                            cl,
                            move_to_check,
                            r2,
                            c2,
                        ) implies false by {
                        assert(is_cell_bit(move_to_check, r2, c2, parity(cl)));
                        lemma_cell_bit_unique(
                            move_to_check,
                            r2,
                            c2,
                            parity(cl),
                            r as int,
                            c as int,
                            o as int,
                        );
                    }
                }
            }
            b
        },
    }
}

/// No cell fits a move word that is no single board bit.
proof fn lemma_no_allowed(g: u128, m: u128, turn_number: usize)
    requires
        forall|rm: int, cm: int, o: int| !(#[trigger] is_cell_bit(m, rm, cm, o)) || !(exists|
            k: u128,
        |
            k < 128 && m == (1u128 << k)),
    ensures
        !exists|r: int, c: int|
            #[trigger] allowed_move_at(g, turn_color(turn_number as int), m, r, c),
{
    let cl = turn_color(turn_number as int);
    if exists|r: int, c: int| #[trigger] allowed_move_at(g, cl, m, r, c) {
        let (r, c) = choose|r: int, c: int| #[trigger] allowed_move_at(g, cl, m, r, c);
        assert(is_cell_bit(m, r, c, parity(cl)));
        let k = (cell_index(r, c) + parity(cl)) as u128;
        assert(k < 128 && m == (1u128 << k));
    }
}

/// Turns a single token bit into the (row, column) pair of its cell, both
/// counted from 1 at the upper left corner. The zero word reads as the
/// first cell; anything else that is no token bit reads as `(0, 0)`.
pub fn move_to_tuple(move_to_transform: u128) -> (res: (u32, u32))
    ensures
        move_to_transform == 0 ==> res == (1u32, 1u32),
        forall|r: int, c: int, o: int|
            #[trigger] is_cell_bit(move_to_transform, r, c, o) ==> res == ((r + 1) as u32, (c
                + 1) as u32),
{
    if move_to_transform == 0 {
        proof {
            assert forall|r: int, c: int, o: int|
                #[trigger] is_cell_bit(move_to_transform, r, c, o) implies false by {
                let k = (cell_index(r, c) + o) as u128;
                assert((1u128 << k) != 0) by (bit_vector)
                    requires
                        k < 128,
                ;
            }
        }
        return (1, 1);
    }
    match locate_bit_opt(move_to_transform) {
        Some((r, c, o)) => {
            proof {
                assert forall|r2: int, c2: int, o2: int|
                    #[trigger] is_cell_bit(move_to_transform, r2, c2, o2) implies (((r + 1) as u32,
                (c + 1) as u32) == (((r2 + 1) as u32, (c2 + 1) as u32))) by {
                    lemma_cell_bit_unique(
                        move_to_transform,
                        r2,
                        c2,
                        o2,
                        r as int,
                        c as int,
                        o as int,
                    );
                }
            }
            ((r + 1) as u32, (c + 1) as u32)
        },
        None => (0, 0),
    }
}

proof fn lemma_member_from(g: u128, cols: Seq<int>, x: u128)
    requires
        forall|k: int| 0 <= k < cols.len() ==> 0 <= #[trigger] cols[k] < 7,
        children_from(g, cols).contains(x),
    ensures
        exists|c: int| 0 <= c < 7 && #[trigger] child_for(g, c) is Some && x == child_for(g, c)->0,
    decreases cols.len(),
{
    let rest = children_from(g, cols.drop_first());
    let jj = choose|jj: int|
        0 <= jj < children_from(g, cols).len() && children_from(g, cols)[jj] == x;
    assert(forall|k: int|
        0 <= k < cols.drop_first().len() ==> 0 <= #[trigger] cols.drop_first()[k] < 7);
    match child_for(g, cols[0]) {
        Some(v0) => {
            if jj == 0 {
                assert(child_for(g, cols[0]) is Some && x == child_for(g, cols[0])->0);
            } else {
                assert(children_from(g, cols)[jj] == rest[jj - 1]);
                assert(rest.contains(x));
                lemma_member_from(g, cols.drop_first(), x);
            }
        },
        None => {
            assert(rest.contains(x));
            lemma_member_from(g, cols.drop_first(), x);
        },
    }
}

/// Every generated next position is the child of some column.
pub proof fn lemma_member_is_child(g: u128, x: u128)
    requires
        children_in_order(g).contains(x),
    ensures
        exists|c: int| 0 <= c < 7 && #[trigger] child_for(g, c) is Some && x == child_for(g, c)->0,
{
    lemma_member_from(g, search_order(), x);
}

/// Counting the bits of a word that marks the threat cells from pair `k`
/// on (row-major, seven cells per row) on the mover's plane, with every
/// earlier pair cleared: each marked pair holds one bit, every other pair
/// none.
proof fn lemma_popcount_threats(g: u128, color: PlayerColor, w: u128, k: int)
    requires
        valid_gamestate(g),
        0 <= k <= 42,
        fits_board(w),
        forall|r: int, c: int|
            in_board(r, c) && 7 * r + c >= k ==> #[trigger] color_at(w, color, r, c) == threat_at(
                g,
                color,
                r,
                c,
            ),
        forall|r: int, c: int|
            in_board(r, c) && 7 * r + c >= k ==> !(#[trigger] color_at(w, color.other(), r, c)),
        forall|j: u128| j < 2 * k ==> !(#[trigger] nth(w, j)),
    ensures
        popcount(w) == threat_count_from(g, color, k),
    decreases 42 - k,
{
    if k == 42 {
        lemma_popcount_zero(w);
        if w != 0 {
            let j = crate::board::lemma_some_bit(w);
            if j >= 84 {
                crate::board::lemma_high_bit_clear(w, j);
            }
            assert(!nth(w, j));
        }
    } else {
        let r = k / 7;
        let c = k % 7;
        assert(k == 7 * r + c);
        assert(in_board(r, c));
        assert(cell_index(r, c) == 2 * k);
        let b = (2 * k + parity(color)) as u128;
        let bo = (2 * k + 1 - parity(color)) as u128;
        lemma_cell_bits_of(color, w, r, c);
        assert(b == mover_index(color, r, c) as u128);
        assert(bo == (cell_index(r, c) + 1 - parity(color)) as u128);
        assert(!nth(w, bo));
        if threat_at(g, color, r, c) {
            assert(nth(w, b));
            let w2 = w & !(1u128 << b);
            crate::board::lemma_popcount_clear_bit(w, b);
            crate::board::lemma_nth_diff(w, 1u128 << b);
            lemma_single_bit(b);
            assert(w2 <= w);
            assert forall|r2: int, c2: int|
                in_board(r2, c2) && 7 * r2 + c2 >= k + 1 implies #[trigger] color_at(
                w2,
                color,
                r2,
                c2,
            ) == threat_at(g, color, r2, c2) by {
                lemma_cell_bits_of(color, w2, r2, c2);
                lemma_cell_bits_of(color, w, r2, c2);
                assert(cell_index(r2, c2) == 2 * (7 * r2 + c2));
            }
            assert forall|r2: int, c2: int|
                in_board(r2, c2) && 7 * r2 + c2 >= k + 1 implies !(#[trigger] color_at(
                w2,
                color.other(),
                r2,
                c2,
            )) by {
                lemma_cell_bits_of(color, w2, r2, c2);
                lemma_cell_bits_of(color, w, r2, c2);
            }
            assert forall|j: u128| j < 2 * (k + 1) implies !(#[trigger] nth(w2, j)) by {
                if j >= 2 * k {
                    assert(j == b || j == bo);
                }
            }
            lemma_popcount_threats(g, color, w2, k + 1);
        } else {
            assert(!nth(w, b));
            assert forall|j: u128| j < 2 * (k + 1) implies !(#[trigger] nth(w, j)) by {
                if j >= 2 * k {
                    assert(j == b || j == bo);
                }
            }
            lemma_popcount_threats(g, color, w, k + 1);
        }
    }
}

/// The bit a move sets lies in its own column, pair-wise: dividing its
/// index by the column pitch reads the column back.
pub proof fn lemma_mover_index_column(color: PlayerColor, r: int, c: int)
    requires
        in_board(r, c),
    ensures
        ((mover_index(color, r, c) as u128) % 14) / 2 == c as u128,
{
    let rr = r as u128;
    let cc = c as u128;
    let o = parity(color) as u128;
    assert(((14 * rr + 2 * cc + o) % 14) / 2 == cc) by (bit_vector)
        requires
            rr < 6 && cc < 7 && o < 2,
    ;
    assert(mover_index(color, r, c) as u128 == (14 * rr + 2 * cc + o) as u128);
}

} // verus!