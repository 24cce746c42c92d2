//! Whose turn it is, read off the token count.

use vstd::prelude::*;
use crate::board::{popcount, turn_of};
use crate::color::PlayerColor;

verus! {

/// Returns the color whose turn it is based on the turn number. Odd numbers
/// mean blue's turn, even red's. The first turn is turn 1.
pub fn whos_turn_is_it_turn_number(turn_number: usize) -> (r: PlayerColor)
    ensures
        r == (if turn_number % 2 == 1 {
            PlayerColor::Blue
        } else {
            PlayerColor::Red
        }),
{
    if turn_number % 2 == 1 {
        PlayerColor::Blue
    } else {
        PlayerColor::Red
    }
}

/// Returns the color whose turn it is for an encoded gamestate: blue plays
/// the odd turns, so blue is to move when the token count is even.
pub fn whos_turn_is_it_gamestate(gamestate: u128) -> (r: PlayerColor)
    ensures
        r == turn_of(gamestate),
{
    proof {
        crate::board::lemma_popcount_le_128(gamestate);
    }
    let tokens = gamestate.count_ones() as usize;
    whos_turn_is_it_turn_number(1 + tokens)
}

/// Returns the number of turns played so far: the number of tokens on the
/// board.
pub fn number_of_turns_played(gamestate: u128) -> (r: u8)
    ensures
        r == popcount(gamestate),
{
    proof {
        crate::board::lemma_popcount_le_128(gamestate);
    }
    gamestate.count_ones() as u8
}

} // verus!
