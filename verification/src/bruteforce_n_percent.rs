//! The bruteforce N% engine: plays the exhaustive solver's move part of
//! the time and the random* move otherwise.

use vstd::prelude::*;
use rand::Rng;
use crate::board::{board_full, move_bit, popcount, valid_gamestate, winner_of};
use crate::bruteforce::Engine as EngineBruteforce;
use crate::color::PlayerColor;
use crate::moves::{children_in_order, non_losing_at};
use crate::random_glowed_up::Engine as EngineRandomGlowedUp;

verus! {

/// The chances of playing as the exhaustive solver that the engine
/// offers.
pub enum PossiblePercentages {
    TwentyFive,
    Fifty,
    SeventyFive,
}

/// Relies on `rand::Rng::gen_ratio` with `rand::thread_rng`: true with
/// probability `numerator / denominator`. Nothing is promised of the
/// outcome, which depends on the generator.
#[verifier::external_body]
fn chance(numerator: u32, denominator: u32) -> bool
    requires
        0 < denominator,
        numerator <= denominator,
{
    rand::thread_rng().gen_ratio(numerator, denominator)
}

/// The bruteforce N% engine plays as bruteforce N% of the time, and as
/// random* the rest of the time.
pub struct Engine;

impl Engine {
    /// Returns a move, with the given percentage being the chance that the
    /// bruteforce move is used; otherwise plays as random*. In the first
    /// turn the bruteforce move is always chosen.
    pub fn make_move(current_gamestate: u128, chance_of_playing_as_bruteforce: &PossiblePercentages) -> (res: (
        u128,
        i8,
        u32,
        u128,
    ))
        requires
            valid_gamestate(current_gamestate),
            !board_full(current_gamestate),
            winner_of(current_gamestate) is None,
        ensures
            children_in_order(current_gamestate).contains(res.0) || (exists|r: int, c: int|
                #[trigger] non_losing_at(current_gamestate, PlayerColor::Red, r, c) && res.0 == (
                current_gamestate | move_bit(PlayerColor::Red, r, c))),
    {
        let percent: u32 = match chance_of_playing_as_bruteforce {
            PossiblePercentages::TwentyFive => 25,
            PossiblePercentages::Fifty => 50,
            PossiblePercentages::SeventyFive => 75,
        };

        let move_from_random = EngineRandomGlowedUp::make_move(current_gamestate).0;

        let (move_from_bruteforce, evaluation, number_of_visited_nodes, time) =
            EngineBruteforce::make_move(current_gamestate, true);

        let mut make_bruteforce_move = chance(percent, 100);

        // Play as bruteforce if it is still the first turn
        if current_gamestate.count_ones() < 2 {
            proof {
                crate::board::lemma_popcount_le_128(current_gamestate);
            }
            make_bruteforce_move = true;
        }

        if make_bruteforce_move {
            (move_from_bruteforce, evaluation, number_of_visited_nodes, time)
        } else {
            (move_from_random, evaluation, number_of_visited_nodes, time)
        }
    }
}

} // verus!
