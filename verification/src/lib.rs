//! A verified Connect-Four engine on a packed-bit board encoding.
//!
//! A game position lives in a single `u128`: each of the 42 cells owns a
//! 2-bit pair, bit `14*r + 2*c` for the blue token and the bit above it for
//! the red token, where `r` counts rows from the top and `c` columns from
//! the left. The crate offers the board codec, move generation, threat
//! analysis and an exhaustive alpha-beta solver over that encoding.

pub mod board;
pub mod bruteforce;
pub mod bruteforce_n_percent;
pub mod color;
pub mod encoding_gamestates;
pub mod laws;
pub mod moves;
pub mod negamax;
pub mod players;
pub mod random;
pub mod random_glowed_up;
pub mod response_handling;
pub mod state_of_game;
pub mod transposition_table;
pub mod turns;
