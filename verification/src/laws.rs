//! The general properties the crate states of itself, proved once and for
//! all inputs.

use vstd::prelude::*;
use crate::board::{
    cell_index, color_at, dir_ok, gravity, has_line, in_board, landing_row, lemma_gravity_chain,
    lemma_landing_row, lemma_place_token, line4, move_bit, nth, occupied, playable, popcount,
    valid_gamestate, window_in_board, winner_of,
};
use crate::color::PlayerColor;
use crate::encoding_gamestates::{play_columns, play_from};
use crate::moves::{
    completes_line_at, lemma_completes_cases, non_losing_at, parity, threat_at, window_missing,
};

verus! {

/// The color that is to move after `i` plies of `color`'s turn.
pub open spec fn color_after(color: PlayerColor, i: int) -> PlayerColor {
    if i % 2 == 0 {
        color
    } else {
        color.other()
    }
}

/// Bit-layout round trip, the splitting half: a legal digit string can be
/// cut at any point; replaying the head from the empty board and the tail
/// from there rebuilds the identical position, so re-encoding a decoded
/// game always gives back the same board word.
pub proof fn lemma_play_split(g: u128, s: Seq<u8>, color: PlayerColor, i: int)
    requires
        play_from(g, s, color) is Some,
        0 <= i <= s.len(),
    ensures
        play_from(g, s.take(i), color) is Some,
        play_from(
            play_from(g, s.take(i), color)->0,
            s.skip(i),
            color_after(color, i),
        ) == play_from(g, s, color),
    decreases i,
{
    if i == 0 {
        assert(s.take(0) =~= Seq::<u8>::empty());
        assert(s.skip(0) =~= s);
    } else {
        let col = s[0] - 49;
        let h = g | move_bit(color, landing_row(g, col), col);
        assert(s.take(i)[0] == s[0]);
        assert(s.take(i).drop_first() =~= s.drop_first().take(i - 1));
        assert(s.skip(i) =~= s.drop_first().skip(i - 1));
        lemma_play_split(h, s.drop_first(), color.other(), i - 1);
        assert(color_after(color.other(), i - 1) == color_after(color, i));
    }
}

/// Bit-layout round trip, the reading half: the bit a move of `color`
/// into cell `(r, c)` sets is the one bit of that cell's pair, so the
/// column a move was played in can always be read back off its bit.
pub proof fn lemma_move_bit_column(color: PlayerColor, r: int, c: int)
    requires
        in_board(r, c),
    ensures
        forall|j: u128|
            j < 128 ==> (#[trigger] nth(move_bit(color, r, c), j) == (j == (cell_index(r, c)
                + parity(color)) as u128)),
        (((cell_index(r, c) + parity(color)) as u128) % 14) / 2 == c,
{
    let k = (cell_index(r, c) + parity(color)) as u128;
    crate::moves::lemma_single_bit(k);
    match color {
        PlayerColor::Blue => {
            assert(move_bit(color, r, c) == 1u128 << k);
        },
        PlayerColor::Red => {
            assert(move_bit(color, r, c) == 1u128 << k);
        },
    }
    crate::moves::lemma_mover_index_column(color, r, c);
    assert(k == (cell_index(r, c) + parity(color)) as u128);
}

/// Win detection exactness: on any board of at least six tokens, a
/// completed line of four is reported as its color's win; red's lines are
/// looked for first.
pub proof fn lemma_win_reported(g: u128, color: PlayerColor, r: int, c: int, dr: int, dc: int)
    requires
        popcount(g) >= 6,
        dir_ok(dr, dc),
        window_in_board(r, c, dr, dc),
        line4(g, color, r, c, dr, dc),
        color is Blue ==> !has_line(g, PlayerColor::Red),
    ensures
        winner_of(g) == Some(color),
{
    assert(has_line(g, color));
}

/// Dropping a token of the mover changes no opponent threat cell other
/// than the one it fills.
proof fn lemma_threat_frame(g: u128, color: PlayerColor, r: int, c: int, x: int, y: int)
    requires
        valid_gamestate(g),
        in_board(r, c),
        !occupied(g, r, c),
        in_board(x, y),
    ensures
        threat_at(g | move_bit(color, r, c), color.other(), x, y) == (!(x == r && y == c)
            && threat_at(g, color.other(), x, y)),
{
    lemma_place_token(g, color, r, c);
    let h = g | move_bit(color, r, c);
    let opp = color.other();
    lemma_completes_cases(g, opp, x, y);
    lemma_completes_cases(h, opp, x, y);
    assert(opp.other() == color);
    assert(forall|r2: int, c2: int|
        in_board(r2, c2) ==> #[trigger] color_at(h, opp, r2, c2) == color_at(g, opp, r2, c2));
    assert(completes_line_at(h, opp, x, y) == completes_line_at(g, opp, x, y));
}

/// Dropping a token of the mover leaves every playable cell playable,
/// except the filled one, and opens exactly the cell above it.
proof fn lemma_playable_frame(g: u128, color: PlayerColor, r: int, c: int, x: int, y: int)
    requires
        valid_gamestate(g),
        playable(g, r, c),
        in_board(x, y),
    ensures
        playable(g | move_bit(color, r, c), x, y) == (if x == r && y == c {
            false
        } else if x == r - 1 && y == c {
            true
        } else {
            playable(g, x, y)
        }),
{
    lemma_place_token(g, color, r, c);
    let h = g | move_bit(color, r, c);
    if x == r - 1 && y == c {
        if occupied(g, x, y) {
            lemma_gravity_chain(g, x, c, r);
        }
    }
}

/// Non-losing-move correctness, the safe half: after a move the
/// non-losing set allows, the opponent has no playable cell that wins at
/// once.
pub proof fn lemma_non_losing_move_safe(g: u128, color: PlayerColor, r: int, c: int)
    requires
        valid_gamestate(g),
        playable(g, r, c),
        non_losing_at(g, color, r, c),
    ensures
        forall|r2: int, c2: int|
            in_board(r2, c2) ==> !(playable(g | move_bit(color, r, c), r2, c2)
                && #[trigger] threat_at(g | move_bit(color, r, c), color.other(), r2, c2)),
{
    let h = g | move_bit(color, r, c);
    assert forall|r2: int, c2: int|
        in_board(r2, c2) implies !(playable(h, r2, c2) && #[trigger] threat_at(
        h,
        color.other(),
        r2,
        c2,
    )) by {
        lemma_threat_frame(g, color, r, c, r2, c2);
        lemma_playable_frame(g, color, r, c, r2, c2);
        if playable(h, r2, c2) && threat_at(h, color.other(), r2, c2) {
            if r2 == r - 1 && c2 == c {
                assert(threat_at(g, color.other(), r - 1, c));
            } else {
                assert(playable(g, r2, c2) && threat_at(g, color.other(), r2, c2));
                assert(r2 == r && c2 == c);
            }
        }
    }
}

/// Non-losing-move correctness, the unsafe half: after a playable move
/// the non-losing set refuses, the opponent has a playable cell that wins
/// at once.
pub proof fn lemma_losing_move_unsafe(g: u128, color: PlayerColor, r: int, c: int)
    requires
        valid_gamestate(g),
        playable(g, r, c),
        !non_losing_at(g, color, r, c),
    ensures
        exists|r2: int, c2: int|
            playable(g | move_bit(color, r, c), r2, c2) && #[trigger] threat_at(
                g | move_bit(color, r, c),
                color.other(),
                r2,
                c2,
            ),
{
    let h = g | move_bit(color, r, c);
    if r >= 1 && threat_at(g, color.other(), r - 1, c) {
        lemma_threat_frame(g, color, r, c, r - 1, c);
        lemma_playable_frame(g, color, r, c, r - 1, c);
        assert(playable(h, r - 1, c) && threat_at(h, color.other(), r - 1, c));
    } else {
        let (r2, c2) = choose|r2: int, c2: int|
            playable(g, r2, c2) && #[trigger] threat_at(g, color.other(), r2, c2) && !(r2 == r && c2
                == c);
        lemma_threat_frame(g, color, r, c, r2, c2);
        lemma_playable_frame(g, color, r, c, r2, c2);
        if r2 == r - 1 && c2 == c {
            assert(threat_at(g, color.other(), r - 1, c));
        }
        assert(playable(h, r2, c2) && threat_at(h, color.other(), r2, c2));
    }
}

} // verus!
