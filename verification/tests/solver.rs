use std::collections::HashMap;

use connect_rust::bruteforce::Engine;
use connect_rust::color::PlayerColor;
use connect_rust::encoding_gamestates::turn_series_of_columns_to_encoded_gamestate;
use connect_rust::moves::{calculate_non_losing_moves, possible_next_gamestates};
use connect_rust::negamax::{negamax, negamax_with_gamestate};
use connect_rust::players::Player;
use connect_rust::response_handling::{calculate_new_gamestate, generate_response};
use connect_rust::state_of_game::is_over;
use connect_rust::transposition_table::{mirror_gamestate, TranspositionTable};
use connect_rust::turns::{number_of_turns_played, whos_turn_is_it_gamestate};

#[test]
fn bruteforce_helpers_mirror_gamestate_given_gamestate_return_correct_mirror() {
    assert_eq!(mirror_gamestate(1), 4096);
    assert_eq!(mirror_gamestate(65536), 16777216);
    assert_eq!(mirror_gamestate(524288), 8388608);
    assert_eq!(mirror_gamestate(1048576), 1048576);
    assert_eq!(mirror_gamestate(1642496), 26214401);
    assert_eq!(mirror_gamestate(27917287425), 704374640640);
    assert_eq!(
        mirror_gamestate(18894078743396915085312),
        302236066660044465242112
    );
    assert_eq!(mirror_gamestate(274877906944), 1073741824);
}

#[test]
fn transposition_table_mirror_gamestate_given_gamestate_return_correct_mirror() {
    assert_eq!(mirror_gamestate(1), 4096);
    assert_eq!(mirror_gamestate(65536), 16777216);
    assert_eq!(mirror_gamestate(524288), 8388608);
    assert_eq!(mirror_gamestate(1048576), 1048576);
    assert_eq!(mirror_gamestate(1642496), 26214401);
    assert_eq!(mirror_gamestate(27917287425), 704374640640);
    assert_eq!(
        mirror_gamestate(18894078743396915085312),
        302236066660044465242112
    );
    assert_eq!(mirror_gamestate(274877906944), 1073741824);
}

#[test]
fn make_move_given_obvious_necessary_move_return_the_right_move() {
    assert_eq!(
        Engine::make_move(9847905112306175136759808, false).0,
        9847905112306175673630720
    );
    assert_eq!(
        Engine::make_move(6522890914424695115743360, false).0,
        6522891490885447419166848
    )
}

#[test]
fn transposition_table_shares_an_entry_between_mirrors() {
    let mut table = TranspositionTable::new();
    let board = turn_series_of_columns_to_encoded_gamestate("435");
    assert_eq!(table.get(board), None);
    table.put(board, 7);
    assert_eq!(table.get(board), Some(7));
    assert_eq!(table.get(mirror_gamestate(board)), Some(7));
    table.put(board, -3);
    assert_eq!(table.get(board), Some(-3));
    assert_eq!(table.index(board), table.index(mirror_gamestate(board)));
}

#[test]
fn mirroring_twice_gives_the_board_back() {
    let board = turn_series_of_columns_to_encoded_gamestate("4352261");
    assert_eq!(mirror_gamestate(mirror_gamestate(board)), board);
}

/// A plain full-tree search with the same scoring, window-free: the
/// reference the null-window driver must agree with.
fn naive_negamax(gamestate: u128, color: PlayerColor) -> i8 {
    let turns_played = number_of_turns_played(gamestate) as i8;
    let non_losing = calculate_non_losing_moves(gamestate, color);
    if non_losing == 0 {
        return -(42 - turns_played) / 2;
    }
    if gamestate.count_ones() >= 40 {
        return 0;
    }
    let other = match color {
        PlayerColor::Blue => PlayerColor::Red,
        PlayerColor::Red => PlayerColor::Blue,
    };
    let mut best: i8 = i8::MIN;
    for child in possible_next_gamestates(gamestate) {
        if child & non_losing != 0 {
            let score = -naive_negamax(child, other);
            if score > best {
                best = score;
            }
        }
    }
    best
}

#[test]
fn iterative_driver_agrees_with_plain_negamax_on_a_late_position() {
    // a position where nobody can win on the spot, so the driver searches
    let board =
        turn_series_of_columns_to_encoded_gamestate("1417241652222354634425354113136357");
    let color = whos_turn_is_it_gamestate(board);
    assert!(!is_over(board));
    let expected = naive_negamax(board, color);
    let (reply, score, _, _) = Engine::make_move(board, false);
    assert_eq!(score, expected);
    assert_eq!(expected, -4);
    // even in a lost position the reply is a legal move
    assert!(possible_next_gamestates(board).contains(&reply));
}

#[test]
fn instant_win_is_taken_on_the_spot() {
    // blue can complete a line at once and must do so, scoring a win at
    // the next ply
    let board =
        turn_series_of_columns_to_encoded_gamestate("64342642125236167731715341453437");
    let (reply, score, _, _) = Engine::make_move(board, false);
    assert_eq!(score, (42 + 1 - 32) / 2);
    assert_eq!(
        connect_rust::state_of_game::is_won(reply),
        Some(whos_turn_is_it_gamestate(board))
    );
}

#[test]
fn solver_scores_a_position_and_its_mirror_alike() {
    let board = turn_series_of_columns_to_encoded_gamestate("23472615722424244133763475");
    let mirrored = turn_series_of_columns_to_encoded_gamestate("65416273166464644755125413");
    assert_eq!(mirror_gamestate(board), mirrored);
    let (best, score, _, _) = Engine::make_move(board, false);
    let (best_mirrored, score_mirrored, _, _) = Engine::make_move(mirrored, false);
    assert_eq!(score, score_mirrored);
    if best != 0 && best_mirrored != 0 && board != mirrored {
        assert_eq!(naive_score_of(best), naive_score_of(best_mirrored));
    }
}

/// Scores a reply position for the player who just moved, through the
/// plain reference search.
fn naive_score_of(board: u128) -> i8 {
    -naive_negamax(board, whos_turn_is_it_gamestate(board))
}

#[test]
fn negamax_rates_a_forced_block_and_caches_nodes() {
    let board =
        turn_series_of_columns_to_encoded_gamestate("1417241652222354634425354113136357");
    let color = whos_turn_is_it_gamestate(board);
    let mut visits: u32 = 0;
    let mut table: HashMap<u128, i8> = HashMap::new();
    let score = negamax(board, -21, 21, color, &mut visits, &mut table);
    assert!(visits > 0);
    assert_eq!(score, naive_negamax(board, color));
    let mut visits2: u32 = 0;
    let mut table2: HashMap<u128, i8> = HashMap::new();
    let (score2, best) = negamax_with_gamestate(board, -21, 21, color, &mut visits2, &mut table2);
    assert_eq!(score2, score);
    assert!(possible_next_gamestates(board).contains(&best));
}

#[test]
fn forced_block_is_the_only_non_losing_move() {
    // blue threatens on the bottom row; red's only safe reply blocks it
    let board = turn_series_of_columns_to_encoded_gamestate("21314");
    let non_losing = calculate_non_losing_moves(board, PlayerColor::Red);
    // exactly the red bit of the bottom cell of column five
    assert_eq!(non_losing, 1u128 << (14 * 5 + 2 * 4 + 1));
    assert!(calculate_new_gamestate(5, board).is_some());
}

#[test]
fn random_engines_play_legal_moves() {
    let board = turn_series_of_columns_to_encoded_gamestate("435");
    let children = possible_next_gamestates(board);
    for _ in 0..10 {
        let (next, _, _, _) = connect_rust::random::Engine::make_move(board);
        assert!(children.contains(&next));
    }
    for _ in 0..10 {
        let (next, _, _, _) = connect_rust::random_glowed_up::Engine::make_move(board);
        assert!(children.contains(&next) || next & !board != 0);
    }
}

#[test]
fn player_dispatch_returns_a_move_for_every_engine_kind() {
    let board = turn_series_of_columns_to_encoded_gamestate("23472615722424244133763475");
    let children = possible_next_gamestates(board);
    let (next, _, _, _) = Player::Random.make_move(board, 0);
    assert!(children.contains(&next));
    let (next, _, _, _) = Player::Bruteforce.make_move(board, 0);
    assert!(children.contains(&next));
}

#[test]
fn generate_response_flags_an_invalid_column_and_plays_on() {
    let histories = vec![String::from("44"), String::from("4"), String::from("")];
    let (out, column_played, _) = generate_response(&histories, 9, &Player::Random);
    assert!(out.move_was_invalid);
    assert!((1..=7).contains(&column_played));
    assert_eq!(out.boards.len(), histories.len() + 2);

    let (out, column_played, engine_column) = generate_response(&histories, 1, &Player::Random);
    assert!(!out.move_was_invalid);
    assert_eq!(column_played, 1);
    assert!(out.game_not_over);
    assert!(engine_column.is_some());
}

#[test]
fn calculate_new_gamestate_rejects_full_and_bad_columns() {
    assert_eq!(calculate_new_gamestate(0, 0), None);
    assert_eq!(calculate_new_gamestate(8, 0), None);
    let full_column_one = turn_series_of_columns_to_encoded_gamestate("111111");
    assert_eq!(calculate_new_gamestate(1, full_column_one), None);
    let opened = calculate_new_gamestate(4, 0);
    assert_eq!(opened, Some(1u128 << 76));
}
