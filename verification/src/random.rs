//! The random engine: plays any legal move, chosen by the thread's
//! generator.

use vstd::prelude::*;
use rand::seq::SliceRandom;
use crate::board::{board_full, valid_gamestate};
use crate::moves::{children_in_order, possible_next_gamestates};

verus! {

/// Relies on `rand::seq::SliceRandom::choose` with `rand::thread_rng`:
/// `Some` of one element of the slice, or `None` for an empty slice. Which
/// element comes back depends on the generator, so only membership is
/// promised.
#[verifier::external_body]
pub(crate) fn choose_one(options: &Vec<u128>) -> (res: Option<u128>)
    ensures
        match res {
            Some(v) => options@.contains(v),
            None => options@.len() == 0,
        },
{
    options.choose(&mut rand::thread_rng()).copied()
}

/// The random engine plays completely random. Nonetheless, according to
/// the rules of course.
pub struct Engine;

impl Engine {
    /// Returns a valid random move given an encoded gamestate.
    pub fn make_move(current_gamestate: u128) -> (res: (u128, i8, u32, u128))
        requires
            valid_gamestate(current_gamestate),
            !board_full(current_gamestate),
        ensures
            children_in_order(current_gamestate).contains(res.0),
            res.1 == 0 && res.2 == 0 && res.3 == 0,
    {
        proof {
            let c0 = choose|c0: int|
                0 <= c0 < 7 && !crate::board::occupied(current_gamestate, 0, c0);
            crate::board::lemma_landing_row(current_gamestate, c0);
            crate::moves::lemma_children_nonempty(current_gamestate, c0);
        }
        let possible_move: Vec<u128> = possible_next_gamestates(current_gamestate);
        match choose_one(&possible_move) {
            Some(v) => (v, 0, 0, 0),
            None => {
                proof {
                    assert(false);
                }
                (0, 0, 0, 0)
            },
        }
    }
}

} // verus!
