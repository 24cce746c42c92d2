//! The random* engine: random, except that it blocks an immediate loss
//! when it can.

use vstd::prelude::*;
use crate::board::{
    board_full, landing_row, lemma_landing_row, lemma_playable_is_landing, move_bit, nth, occupied,
    playable, valid_gamestate,
};
use crate::color::PlayerColor;
use crate::moves::{
    calculate_non_losing_moves, children_in_order, column_mask, lemma_bit_decomp,
    lemma_cell_bits_of, lemma_column_mask_bits, lemma_shift_bits, mover_index, non_losing_at,
    parity,
};
use crate::random::Engine as EngineRandom;

verus! {

/// The random* engine plays randomly, except when the opponent has three
/// in a row: then the blocking token is placed to avoid losing. The
/// non-losing moves are always computed for red, the engine's usual seat.
pub struct Engine;

impl Engine {
    /// A random move is returned if it is not losing. Otherwise one of the
    /// non-losing moves for red is played, if any exists.
    pub fn make_move(current_gamestate: u128) -> (res: (u128, i8, u32, u128))
        requires
            valid_gamestate(current_gamestate),
            !board_full(current_gamestate),
        ensures
            children_in_order(current_gamestate).contains(res.0) || (exists|r: int, c: int|
                #[trigger] non_losing_at(current_gamestate, PlayerColor::Red, r, c) && res.0 == (
                current_gamestate | move_bit(PlayerColor::Red, r, c))),
            res.1 == 0 && res.2 == 0 && res.3 == 0,
    {
        let g = current_gamestate;
        let move_from_random = EngineRandom::make_move(g);

        let non_losing = calculate_non_losing_moves(g, PlayerColor::Red);

        if move_from_random.0 & non_losing > 0 {
            // the random move does not lose on the spot
            move_from_random
        } else if non_losing > 0 {
            // play the leftmost non-losing cell instead
            let mut c: u32 = 0;
            let mut column: u128 = 3541991048129292582915;
            proof {
                crate::board::lemma_column_mask_shift(0);
                assert((2 * 0) as u128 == 0u128);
            }
            while c < 7
                invariant
                    0 <= c <= 7,
                    column == column_mask(c as int),
                    g == current_gamestate,
                    valid_gamestate(g),
                    non_losing != 0,
                    crate::board::fits_board(non_losing),
                    forall|r2: int, c2: int|
                        crate::board::in_board(r2, c2) ==> #[trigger] crate::board::color_at(
                            non_losing,
                            PlayerColor::Red,
                            r2,
                            c2,
                        ) == non_losing_at(g, PlayerColor::Red, r2, c2),
                    forall|r2: int, c2: int|
                        crate::board::in_board(r2, c2) ==> !(#[trigger] crate::board::color_at(
                            non_losing,
                            PlayerColor::Blue,
                            r2,
                            c2,
                        )),
                    forall|j: u128| j < 84 && (j % 14) / 2 < c ==> !(#[trigger] nth(non_losing, j)),
                decreases 7 - c,
            {
                proof {
                    lemma_column_mask_bits(c as u128);
                    assert((2 * (c as u128)) as u128 == (2 * (c as int)) as u128);
                    crate::board::lemma_nth_and(non_losing, column);
                    crate::moves::lemma_nth_zero();
                }
                if non_losing & column != 0 {
                    proof {
                        let k = crate::board::lemma_some_bit(non_losing & column);
                        assert(nth(non_losing, k) && nth(column, k));
                        lemma_bit_decomp(k);
                        let rr = (k / 14) as int;
                        let cc = ((k % 14) / 2) as int;
                        lemma_cell_bits_of(PlayerColor::Red, non_losing, rr, cc);
                        if (k % 2) as int != 1 {
                            assert(k == (crate::board::cell_index(rr, cc) + 1 - 1) as u128);
                            assert(!nth(non_losing, k));
                        }
                        assert(k == mover_index(PlayerColor::Red, rr, cc) as u128);
                        assert(non_losing_at(g, PlayerColor::Red, rr, cc));
                        assert(playable(g, rr, cc));
                        lemma_playable_is_landing(g, rr, cc);
                        assert(landing_row(g, cc) == rr);
                    }
                    let next_move = crate::encoding_gamestates::turn_column_to_encoded_gamestate(
                        g,
                        c + 1,
                        &PlayerColor::Red,
                    );
                    match next_move {
                        Some((m, _)) => {
                            proof {
                                crate::board::lemma_or_comm(m, g);
                            }
                            return (m | g, 0, 0, 0);
                        },
                        None => {
                            proof {
                                assert(false);
                            }
                            return (0, 0, 0, 0);
                        },
                    }
                }
                proof {
                    assert forall|j: u128|
                        j < 84 && (j % 14) / 2 < c + 1 implies !(#[trigger] nth(non_losing, j)) by {
                        if (j % 14) / 2 == c as u128 {
                            assert(nth(non_losing & column, j) == (nth(non_losing, j) && nth(
                                column,
                                j,
                            )));
                            assert(nth(column, j));
                        }
                    }
                    crate::board::lemma_column_mask_shift(c as u128);
                    assert((2 * ((c as u128) + 1)) as u128 == (2 * (c as int + 1)) as u128);
                }
                column = column << 2;
                c = c + 1;
            }
            // a non-zero board word always has a bit below 84
            proof {
                let k = crate::board::lemma_some_bit(non_losing);
                lemma_shift_bits(non_losing);
                assert(k < 84);
                assert(!nth(non_losing, k));
            }
            move_from_random
        } else {
            // every move loses; stay with the random one
            move_from_random
        }
    }
}

} // verus!
