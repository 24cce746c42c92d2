//! The closed set of engines a caller can play against.

use vstd::prelude::*;
use crate::board::{board_full, move_bit, valid_gamestate, winner_of};
use crate::bruteforce_n_percent::PossiblePercentages;
use crate::color::PlayerColor;
use crate::moves::{children_in_order, non_losing_at};

verus! {

/// The types of players: bruteforce, random, random* and the mixed
/// bruteforce N% engines, plus the Monte Carlo player that lives outside
/// this crate's verified core.
pub enum Player {
    Bruteforce,
    MonteCarlo,
    Random,
    RandomGlowedUp,
    BruteforceNPercent(PossiblePercentages),
}

impl Player {
    /// Lets the engine make a move given the current gamestate. Returns
    /// the next gamestate, its evaluation (0 where the engine rates
    /// nothing), the number of visited nodes, and the computation time in
    /// microseconds. Every engine answers with a legal child, except that
    /// the random* family may instead block with a red move, its fixed
    /// seat; the bruteforce engine's score is the exact game value, or
    /// the one-ply win score when it can win on the spot. The Monte Carlo
    /// player simulates against the clock outside this crate's verified
    /// core and cannot be dispatched here.
    pub fn make_move(&self, gamestate: u128, elapsed: u128) -> (res: (u128, i8, u32, u128))
        requires
            valid_gamestate(gamestate),
            !board_full(gamestate),
            winner_of(gamestate) is None,
            !(self is MonteCarlo),
        ensures
            children_in_order(gamestate).contains(res.0) || (exists|r: int, c: int|
                #[trigger] non_losing_at(gamestate, PlayerColor::Red, r, c) && res.0 == (gamestate
                    | move_bit(PlayerColor::Red, r, c))),
            self is Random ==> children_in_order(gamestate).contains(res.0),
            self is Bruteforce ==> children_in_order(gamestate).contains(res.0),
            self is Bruteforce && !(exists|r: int, c: int|
                #[trigger] crate::moves::threat_at(
                    gamestate,
                    crate::board::turn_of(gamestate),
                    r,
                    c,
                ) && crate::board::playable(gamestate, r, c)) ==> res.1
                == crate::negamax::game_value(gamestate, crate::board::turn_of(gamestate)),
            self is Bruteforce && (exists|r: int, c: int|
                #[trigger] crate::moves::threat_at(
                    gamestate,
                    crate::board::turn_of(gamestate),
                    r,
                    c,
                ) && crate::board::playable(gamestate, r, c)) ==> crate::board::has_line(
                res.0,
                crate::board::turn_of(gamestate),
            ),
    {
        let _ = elapsed;
        match self {
            Player::Bruteforce => crate::bruteforce::Engine::make_move(gamestate, true),
            Player::Random => crate::random::Engine::make_move(gamestate),
            Player::RandomGlowedUp => crate::random_glowed_up::Engine::make_move(gamestate),
            Player::BruteforceNPercent(possible_percentage) => {
                crate::bruteforce_n_percent::Engine::make_move(gamestate, possible_percentage)
            },
            Player::MonteCarlo => {
                proof {
                    assert(false);
                }
                (0, 0, 0, 0)
            },
        }
    }
}

} // verus!
