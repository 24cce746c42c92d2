//! The computational half of the web round-trip: decoding the played
//! history, applying the user's move, asking the chosen engine for its
//! reply and rendering the boards. Parsing the form and serving html
//! stay outside the verified core.

use vstd::prelude::*;
use vstd::string::StringSliceAdditionalSpecFns;
use crate::board::{
    board_full, game_over, landing_row, lemma_board_full_popcount, move_bit, popcount,
    valid_gamestate, winner_of,
};
use crate::color::PlayerColor;
use crate::encoding_gamestates::{
    encoded_gamestate_as_string_for_web, lemma_play_from_valid, play_columns,
    try_play_columns, turn_column_to_encoded_gamestate,
};
use crate::moves::{child_for, children_in_order, non_losing_at};
use crate::players::Player;
use crate::state_of_game::{is_over, is_won};

verus! {

/// The data a move form carries: the current and previous gamestates as
/// digit strings separated in the form, the column the user wants to play
/// and the engine name. Deserializing the form happens outside the core.
pub struct GameMoveInput {
    pub current_and_previous_gamestates: Option<String>,
    pub column: u32,
    pub engine: Option<String>,
}

/// The data a response carries: the rendered boards newest first, the
/// final board when the game ended, the engine's instrumentation, whether
/// the game goes on, who won, and whether the user's move was invalid.
pub struct GameMoveOutput {
    pub boards: Vec<String>,
    pub final_board_as_string: String,
    pub computation_time: u128,
    pub number_of_visited_nodes: u32,
    pub game_not_over: bool,
    pub who_won: Option<PlayerColor>,
    pub move_was_invalid: bool,
}

/// Returns the new gamestate if the column the player wants to play is
/// valid for blue, the human seat; otherwise returns `None`.
pub fn calculate_new_gamestate(column_player_wants_to_play: u32, current_gamestate: u128) -> (res:
    Option<u128>)
    ensures
        ({
            let c = column_player_wants_to_play as int - 1;
            if column_player_wants_to_play < 1 || column_player_wants_to_play > 7 {
                res is None
            } else if landing_row(current_gamestate, c) == -1 {
                res is None
            } else {
                res == Some(
                    current_gamestate | move_bit(
                        PlayerColor::Blue,
                        landing_row(current_gamestate, c),
                        c,
                    ),
                )
            }
        }),
{
    match turn_column_to_encoded_gamestate(
        current_gamestate,
        column_player_wants_to_play,
        &PlayerColor::Blue,
    ) {
        Some((i, _)) => {
            proof {
                crate::board::lemma_or_comm(i, current_gamestate);
            }
            Some(i | current_gamestate)
        },
        None => None,
    }
}

/// The empty board is a legal position.
pub proof fn lemma_empty_valid()
    ensures
        valid_gamestate(0),
{
    assert(0u128 & (0u128 >> 1) & crate::board::EVEN_BITS == 0) by (bit_vector);
    assert forall|r: int, c: int|
        crate::board::in_board(r, c) && r < 5 && crate::board::occupied(0, r, c) implies
        crate::board::occupied(0, r + 1, c) by {
        let rr = r as u128;
        let cc = c as u128;
        crate::moves::lemma_nth_zero();
        assert((14 * rr + 2 * cc) as u128 == crate::board::cell_index(r, c) as u128);
        assert((14 * rr + 2 * cc + 1) as u128 == (crate::board::cell_index(r, c) + 1) as u128);
    }
}

/// Computes everything a response needs, given the split history of digit
/// strings (current first), the user's column and the engine to answer
/// with. Returns the filled output, the column that was actually played
/// for the user, and the column the engine answered with, if it moved.
pub fn generate_response(
    current_and_previous_gamestates: &Vec<String>,
    column_player_wants_to_play: u32,
    engine_to_play_against: &Player,
) -> (res: (GameMoveOutput, u32, Option<u32>))
    requires
        current_and_previous_gamestates@.len() >= 1,
        forall|i: int|
            0 <= i < current_and_previous_gamestates@.len() ==> play_columns(
                vstd::utf8::encode_utf8(#[trigger] current_and_previous_gamestates@[i]@),
            ) is Some,
        popcount(play_columns(vstd::utf8::encode_utf8(current_and_previous_gamestates@[0]@))->0)
            != 42,
        !(engine_to_play_against is MonteCarlo),
    ensures
        res.0.move_was_invalid == ({
            let prev = play_columns(
                vstd::utf8::encode_utf8(current_and_previous_gamestates@[0]@),
            )->0;
            let c = column_player_wants_to_play as int - 1;
            column_player_wants_to_play < 1 || column_player_wants_to_play > 7 || landing_row(
                prev,
                c,
            ) == -1
        }),
        !res.0.move_was_invalid ==> res.1 == column_player_wants_to_play,
        1 <= res.1 <= 7,
        res.0.game_not_over ==> res.0.who_won is None,
{
    let ghost prev_bytes = vstd::utf8::encode_utf8(current_and_previous_gamestates@[0]@);
    let previous_gamestate = match try_play_columns(current_and_previous_gamestates[0].as_str()) {
        Some(g) => g,
        None => {
            proof {
                assert(false);
            }
            0
        },
    };
    proof {
        lemma_empty_valid();
        lemma_play_from_valid(0, prev_bytes, PlayerColor::Blue);
    }

    let mut column_played = column_player_wants_to_play;
    let (new_gamestate, move_was_valid): (u128, bool) = match calculate_new_gamestate(
        column_player_wants_to_play,
        previous_gamestate,
    ) {
        Some(i) => (i, true),
        None => {
            // The move was not valid: a random column is played instead
            proof {
                if board_full(previous_gamestate) {
                    lemma_board_full_popcount(previous_gamestate);
                }
            }
            let next_move = crate::random::Engine::make_move(previous_gamestate).0;
            proof {
                crate::moves::lemma_member_is_child(previous_gamestate, next_move);
            }
            let ghost c = choose|c: int|
                0 <= c < 7 && child_for(previous_gamestate, c) is Some && next_move == child_for(
                    previous_gamestate,
                    c,
                )->0;
            proof {
                crate::moves::lemma_child_valid(previous_gamestate, c);
            }
            let col = column_of_single_move(next_move, previous_gamestate);
            column_played = col;
            (next_move, false)
        },
    };
    proof {
        if move_was_valid {
            let c = column_player_wants_to_play as int - 1;
            let lr = landing_row(previous_gamestate, c);
            crate::board::lemma_landing_row(previous_gamestate, c);
            crate::board::lemma_place_token(previous_gamestate, PlayerColor::Blue, lr, c);
            assert forall|r2: int, c2: int|
                crate::board::in_board(r2, c2) && r2 < 5 && crate::board::occupied(
                    new_gamestate,
                    r2,
                    c2,
                ) implies crate::board::occupied(new_gamestate, r2 + 1, c2) by {
                if r2 == lr && c2 == c {
                    assert(crate::board::occupied(previous_gamestate, r2 + 1, c2));
                }
            }
            assert(valid_gamestate(new_gamestate));
        }
    }

    // Render the previous boards, newest first
    let mut rendered: Vec<String> = Vec::new();
    rendered.push(encoded_gamestate_as_string_for_web(new_gamestate));
    let mut i: usize = 0;
    while i < current_and_previous_gamestates.len()
        invariant
            i <= current_and_previous_gamestates@.len(),
            forall|j: int|
                0 <= j < current_and_previous_gamestates@.len() ==> play_columns(
                    vstd::utf8::encode_utf8(#[trigger] current_and_previous_gamestates@[j]@),
                ) is Some,
            rendered@.len() == i + 1,
        decreases current_and_previous_gamestates@.len() - i,
    {
        let board = match try_play_columns(current_and_previous_gamestates[i].as_str()) {
            Some(g) => g,
            None => {
                proof {
                    assert(false);
                }
                0
            },
        };
        rendered.push(encoded_gamestate_as_string_for_web(board));
        i = i + 1;
    }

    if is_over(new_gamestate) {
        let final_board_as_string = encoded_gamestate_as_string_for_web(new_gamestate);
        let out = GameMoveOutput {
            boards: rendered,
            final_board_as_string,
            computation_time: 0,
            number_of_visited_nodes: 0,
            game_not_over: false,
            who_won: is_won(new_gamestate),
            move_was_invalid: !move_was_valid,
        };
        return (out, column_played, None);
    }

    // The game goes on: the chosen engine answers
    proof {
        crate::board::lemma_popcount_le_42(new_gamestate);
        if board_full(new_gamestate) {
            lemma_board_full_popcount(new_gamestate);
        }
    }
    let (engine_gamestate, _evaluation, number_of_visited_nodes, computation_time) =
        engine_to_play_against.make_move(new_gamestate, 0);
    let engine_column = crate::encoding_gamestates::encoded_gamestate_to_column(
        engine_gamestate ^ new_gamestate,
    );

    let mut rendered_with_engine: Vec<String> = Vec::new();
    rendered_with_engine.push(encoded_gamestate_as_string_for_web(engine_gamestate));
    let mut j: usize = 0;
    while j < rendered.len()
        invariant
            j <= rendered@.len(),
            rendered_with_engine@.len() == j + 1,
        decreases rendered@.len() - j,
    {
        rendered_with_engine.push(rendered[j].clone());
        j = j + 1;
    }

    let over_after_engine = is_over(engine_gamestate);
    let final_board_as_string = if over_after_engine {
        encoded_gamestate_as_string_for_web(engine_gamestate)
    } else {
        String::new()
    };
    let who_won = if over_after_engine {
        is_won(engine_gamestate)
    } else {
        None
    };
    let out = GameMoveOutput {
        boards: rendered_with_engine,
        final_board_as_string,
        computation_time,
        number_of_visited_nodes,
        game_not_over: !over_after_engine,
        who_won,
        move_was_invalid: !move_was_valid,
    };
    (out, column_played, engine_column)
}

/// Reads the column of a move that turned `prev` into the member child
/// `next` of its children.
fn column_of_single_move(next: u128, prev: u128) -> (col: u32)
    requires
        valid_gamestate(prev),
        exists|c: int|
            0 <= c < 7 && #[trigger] child_for(prev, c) is Some && next == child_for(prev, c)->0,
    ensures
        1 <= col <= 7,
{
    let ghost c = choose|c: int|
        0 <= c < 7 && #[trigger] child_for(prev, c) is Some && next == child_for(prev, c)->0;
    let diff = next ^ prev;
    proof {
        crate::board::lemma_landing_row(prev, c);
        crate::board::lemma_place_token(prev, crate::board::turn_of(prev), landing_row(prev, c), c);
        let m = move_bit(crate::board::turn_of(prev), landing_row(prev, c), c);
        assert((prev | m) ^ prev == m) by (bit_vector)
            requires
                prev & m == 0,
        ;
        let k = (crate::board::cell_index(landing_row(prev, c), c) + crate::moves::parity(
            crate::board::turn_of(prev),
        )) as u128;
        assert(m == 1u128 << k);
        crate::moves::lemma_single_bit(k);
        crate::moves::lemma_bit_decomp(k);
        assert((k % 14) / 2 == c as u128);
    }
    match crate::encoding_gamestates::encoded_gamestate_to_column(diff) {
        Some(col) => {
            proof {
                let kk = choose|kk: u128|
                    kk < 84 && (kk % 14) / 2 == col - 1 && #[trigger] crate::board::nth(diff, kk);
            }
            col
        },
        None => {
            proof {
                let k = (crate::board::cell_index(landing_row(prev, c), c)
                    + crate::moves::parity(crate::board::turn_of(prev))) as u128;
                assert(crate::board::nth(diff, k));
                assert(false);
            }
            1
        },
    }
}

} // verus!
