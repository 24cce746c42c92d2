use connect_rust::color::PlayerColor;
use connect_rust::encoding_gamestates::{
    encoded_gamestate_as_string_for_web, encoded_gamestate_to_column, encoded_gamestate_to_str,
    try_play_columns, turn_column_to_encoded_gamestate, turn_series_of_columns_to_encoded_gamestate,
};
use connect_rust::moves::{
    calculate_non_losing_moves, check_lowerleft_upperright_diagonal,
    check_upperleft_lowerright_diagonal, compute_winning_positions, gamestate_full,
    get_one_of_the_bits, is_allowed_move, is_valid_move, is_winning_move, move_score,
    move_to_tuple, opponent_winning_positions, possible_moves, possible_next_gamestates,
};
use connect_rust::state_of_game::{is_full, is_over, is_won};
use connect_rust::turns::{
    number_of_turns_played, whos_turn_is_it_gamestate, whos_turn_is_it_turn_number,
};

const BASE: u128 = 2;
const FULL_BOTH_COLOR_BOTTOM_ROW: u128 = 19341632522213349383995392;

#[test]
fn encoding_gamestates_turn_column_to_encoded_gamestate_given_correct_tuples_blue_return_encoded_move(
) {
    assert_eq!(
        turn_column_to_encoded_gamestate(0, 7, &PlayerColor::Blue),
        Some((BASE.pow(82), 1))
    );
    assert_eq!(
        turn_column_to_encoded_gamestate(0, 6, &PlayerColor::Blue),
        Some((BASE.pow(80), 1))
    );

    assert_eq!(
        turn_column_to_encoded_gamestate(1813388729421943762059264, 6, &PlayerColor::Blue),
        Some((73786976294838206464, 2))
    );
    assert_eq!(
        turn_column_to_encoded_gamestate(1813499416641785460424704, 6, &PlayerColor::Blue),
        Some((274877906944, 4))
    );
}

#[test]
fn encoding_gamestates_turn_column_to_encoded_gamestate_given_correct_tuples_red_return_encoded_move(
) {
    assert_eq!(
        turn_column_to_encoded_gamestate(0, 6, &PlayerColor::Red),
        Some((BASE.pow(81), 1))
    );
}

#[test]
fn encoding_gamestates_encoded_gamestate_to_str_given_gamestate_return_wanted_string() {
    assert_eq!(encoded_gamestate_to_str(0, "\n"), "🟫 🟫 🟫 🟫 🟫 🟫 🟫  1 \n🟫 🟫 🟫 🟫 🟫 🟫 🟫  2 \n🟫 🟫 🟫 🟫 🟫 🟫 🟫  3 \n🟫 🟫 🟫 🟫 🟫 🟫 🟫  4 \n🟫 🟫 🟫 🟫 🟫 🟫 🟫  5 \n🟫 🟫 🟫 🟫 🟫 🟫 🟫  6 \n\n1  2  3  4  5  6  7  \n\n");
}

#[test]
fn encoding_gamestates_encoded_gamestate_to_str_given_gamestates_return_wanted_colors() {
    let gamestate = 1;
    let gamestate_str = encoded_gamestate_to_str(gamestate, "\n");
    assert_eq!(&gamestate_str[..4], "🟦");

    let gamestate_str = encoded_gamestate_to_str(2, "\n");
    assert_eq!(&gamestate_str[..4], "🟥");

    let gamestate_str = encoded_gamestate_to_str(2147483648, "\n");
    assert_eq!(&gamestate_str[30..34], "🟫");
}

#[test]
fn encoding_gamestates_encoded_gamestate_as_string_for_web_given_empty_gamestate_return_correct_string(
) {
    assert_eq!(encoded_gamestate_as_string_for_web(0), "<div class=\"box_white\"></div><div class=\"box_white\"></div><div class=\"box_white\"></div><div class=\"box_white\"></div><div class=\"box_white\"></div><div class=\"box_white\"></div><div class=\"box_white\"></div><div class=\"box_white\"></div><div class=\"box_white\"></div><div class=\"box_white\"></div><div class=\"box_white\"></div><div class=\"box_white\"></div><div class=\"box_white\"></div><div class=\"box_white\"></div><div class=\"box_white\"></div><div class=\"box_white\"></div><div class=\"box_white\"></div><div class=\"box_white\"></div><div class=\"box_white\"></div><div class=\"box_white\"></div><div class=\"box_white\"></div><div class=\"box_white\"></div><div class=\"box_white\"></div><div class=\"box_white\"></div><div class=\"box_white\"></div><div class=\"box_white\"></div><div class=\"box_white\"></div><div class=\"box_white\"></div><div class=\"box_white\"></div><div class=\"box_white\"></div><div class=\"box_white\"></div><div class=\"box_white\"></div><div class=\"box_white\"></div><div class=\"box_white\"></div><div class=\"box_white\"></div><div class=\"box_white\"></div><div class=\"box_white\"></div><div class=\"box_white\"></div><div class=\"box_white\"></div><div class=\"box_white\"></div><div class=\"box_white\"></div><div class=\"box_white\"></div><br><br>");
}

#[test]
fn state_of_game_is_won_given_empty_gamestate_return_none() {
    assert_eq!(is_won(0), None);
}

#[test]
fn state_of_game_is_won_given_winning_verticals_blue_return_blue() {
    assert_eq!(is_won(39584834666497), Some(PlayerColor::Blue));
    assert_eq!(
        is_won(39584834666497 * 4 * 4 * BASE.pow(28)),
        Some(PlayerColor::Blue)
    );
}

#[test]
fn state_of_game_is_won_given_winning_verticals_red_return_red() {
    assert_eq!(is_won(35191083368472), Some(PlayerColor::Red));
    assert_eq!(
        is_won(35191083368472 * 4 * BASE.pow(14)),
        Some(PlayerColor::Red)
    );
    assert_eq!(is_won(8028692909229660883124224), Some(PlayerColor::Red));
}

#[test]
fn state_of_game_is_won_given_winning_diagonals_blue_return_blue() {
    assert_eq!(is_won(457403279671297), Some(PlayerColor::Blue));
    assert_eq!(
        is_won(457403279671297 * 4 * 4 * BASE.pow(14)),
        Some(PlayerColor::Blue)
    );
}

#[test]
fn state_of_game_is_won_given_winning_diagonals_red_return_red() {
    assert_eq!(is_won(8798509547648), Some(PlayerColor::Red));
    assert_eq!(
        is_won(8798509547648 * 4 * 4 * BASE.pow(28)),
        Some(PlayerColor::Red)
    );
}

#[test]
fn state_of_game_is_over_given_someone_has_won_return_true() {
    assert_eq!(is_over(688213), true);
}

#[test]
fn state_of_game_is_over_given_full_board_return_true() {
    assert_eq!(is_over(6447604371278022265099605), true);
}

#[test]
fn state_of_game_is_full_given_full_board_return_true() {
    assert_eq!(is_full(6447604371278022265099605), true);
}

#[test]
fn state_of_game_is_full_given_not_full_board_return_false() {
    assert_eq!(is_full(24934), false);
    assert_eq!(is_full(2405), false);
}

#[test]
fn turns_whos_turn_is_it_given_even_return_red() {
    assert_eq!(whos_turn_is_it_turn_number(0), PlayerColor::Red);
    assert_eq!(whos_turn_is_it_turn_number(100), PlayerColor::Red);
}

#[test]
fn turns_whos_turn_is_it_given_odd_return_blue() {
    assert_eq!(whos_turn_is_it_turn_number(15), PlayerColor::Blue);
    assert_eq!(whos_turn_is_it_turn_number(1003), PlayerColor::Blue);
}

#[test]
fn gamestate_helpers_is_won_given_empty_gamestate_return_none() {
    assert_eq!(is_won(0), None);
}

#[test]
fn gamestate_helpers_is_won_given_winning_verticals_blue_return_blue() {
    assert_eq!(is_won(39584834666497), Some(PlayerColor::Blue));
    assert_eq!(
        is_won(39584834666497 * 4 * 4 * BASE.pow(28)),
        Some(PlayerColor::Blue)
    );
}

#[test]
fn gamestate_helpers_is_won_given_winning_verticals_red_return_red() {
    assert_eq!(is_won(35191083368472), Some(PlayerColor::Red));
    assert_eq!(
        is_won(35191083368472 * 4 * BASE.pow(14)),
        Some(PlayerColor::Red)
    );
}

#[test]
fn gamestate_helpers_is_won_given_winning_diagonals_blue_return_blue() {
    assert_eq!(is_won(457403279671297), Some(PlayerColor::Blue));
    assert_eq!(
        is_won(457403279671297 * 4 * 4 * BASE.pow(14)),
        Some(PlayerColor::Blue)
    );
}

#[test]
fn gamestate_helpers_is_won_given_winning_diagonals_red_return_red() {
    assert_eq!(is_won(8798509547648), Some(PlayerColor::Red));
    assert_eq!(
        is_won(8798509547648 * 4 * 4 * BASE.pow(28)),
        Some(PlayerColor::Red)
    );
}

#[test]
fn is_valid_move_given_power_of_two_return_true() {
    assert_eq!(is_valid_move(BASE.pow(10)), true);
    assert_eq!(is_valid_move(BASE.pow(30)), true);
}

#[test]
fn is_valid_move_given_not_power_of_two_return_false() {
    assert_eq!(is_valid_move(7), false);
    assert_eq!(is_valid_move(3), false);
}

#[test]
fn is_allowed_move_given_allowed_move_return_true() {
    assert_eq!(is_allowed_move(0, BASE.pow(70), 1), true);
    assert_eq!(is_allowed_move(BASE.pow(70), BASE.pow(57), 2), true);
}

#[test]
fn is_allowed_move_given_not_allowed_move_return_false() {
    assert_eq!(is_allowed_move(0, BASE.pow(30), 1), false);
    assert_eq!(is_allowed_move(BASE.pow(31), BASE.pow(29), 2), false);
    assert_eq!(is_allowed_move(BASE.pow(31), BASE.pow(31), 2), false);
    assert_eq!(
        is_allowed_move(BASE.pow(31) + BASE.pow(28), BASE.pow(31), 3),
        false
    );
}

#[test]
fn gamestate_helpers_is_over_given_someone_has_won_return_true() {
    assert_eq!(is_over(688213), true);
}

#[test]
fn gamestate_helpers_is_over_given_full_board_return_true() {
    assert_eq!(is_over(6447604371278022265099605), true);
}

#[test]
fn gamestate_helpers_is_full_given_full_board_return_true() {
    assert_eq!(is_full(6447604371278022265099605), true);
}

#[test]
fn gamestate_helpers_is_full_given_not_full_board_return_false() {
    assert_eq!(is_full(24934), false);
    assert_eq!(is_full(2405), false);
}

#[test]
fn move_to_tuple_given_one_return_one_one_tuple() {
    assert_eq!(move_to_tuple(1), (1, 1));
}

#[test]
fn gamestate_helpers_whos_turn_is_it_given_even_return_red() {
    assert_eq!(whos_turn_is_it_turn_number(0), PlayerColor::Red);
    assert_eq!(whos_turn_is_it_turn_number(100), PlayerColor::Red);
}

#[test]
fn gamestate_helpers_whos_turn_is_it_given_odd_return_blue() {
    assert_eq!(whos_turn_is_it_turn_number(15), PlayerColor::Blue);
    assert_eq!(whos_turn_is_it_turn_number(1003), PlayerColor::Blue);
}

#[test]
fn gamestate_helpers_possible_next_gamestates_given_gamestate_return_next_gamestate_is_in_iterator()
{
    let vec: Vec<u128> = possible_next_gamestates(BASE.pow(82));
    assert!(vec.contains(&(BASE.pow(81) + BASE.pow(82))));
}

#[test]
fn moves_possible_next_gamestates_given_gamestate_return_next_gamestate_is_in_iterator() {
    let vec: Vec<u128> = possible_next_gamestates(BASE.pow(82));
    assert!(vec.contains(&(BASE.pow(81) + BASE.pow(82))));
}

#[test]
fn check_lower_left_diagonal_given_winning_lower_left_diagonal_return_true() {
    assert_eq!(
        check_lowerleft_upperright_diagonal(18894078743396915085312, 274877906944, 4, 6),
        true
    );
}

#[test]
fn check_lower_left_diagonal_given_not_winning_lower_left_diagonal_return_false() {
    assert_eq!(
        check_lowerleft_upperright_diagonal(302236066660044465242112, 1073741824, 4, 2),
        false
    );
}

#[test]
fn check_lower_right_diagonal_given_winning_lower_right_diagonal_return_true() {
    assert_eq!(
        check_upperleft_lowerright_diagonal(302236066660044465242112, 1073741824, 4, 2),
        true
    );
}

#[test]
fn check_lower_right_diagonal_given_not_winning_lower_right_diagonal_return_false() {
    assert_eq!(
        check_upperleft_lowerright_diagonal(18894078743396915085312, 274877906944, 4, 6),
        false
    );
}

#[test]
fn is_winning_move_given_winnning_move_return_true() {
    assert_eq!(is_winning_move(6825767598171467010101410, 2), true)
}

#[test]
fn gamestate_full_given_bottom_row_blue_return_bottom_blue_filled() {
    assert_eq!(
        gamestate_full(6447210840737783127998464),
        FULL_BOTH_COLOR_BOTTOM_ROW
    )
}

#[test]
fn possible_moves_given_bottom_row_blue_return_next_row_both_colors_filled() {
    assert_eq!(
        possible_moves(6447210840737783127998464),
        1180519563123373375488
    );
    assert_eq!(possible_moves(11302567564057283082684841), 3298534883328)
}

#[test]
fn compute_winning_positions_given_cross_return_outer_cross() {
    assert_eq!(
        compute_winning_positions(4613163779234988032, PlayerColor::Blue),
        4521191814463488
    )
}

#[test]
fn compute_winning_positions_given_opportunities_return_winning_moves() {
    assert_eq!(
        compute_winning_positions(75229342058982408192, PlayerColor::Blue),
        4836883870360778079272960
    );
    assert_eq!(
        compute_winning_positions(11302567564057283082684841, PlayerColor::Blue),
        1099578736640
    );
    assert_eq!(
        compute_winning_positions(11680300390167387516198912, PlayerColor::Red),
        563087392374784
    )
}

#[test]
fn opponent_winning_positions_given_opportunities_return_winning_moves() {
    assert_eq!(
        opponent_winning_positions(75229342058982408192, PlayerColor::Red),
        4836883870360778079272960
    );
    assert_eq!(
        opponent_winning_positions(4613163779234988032, PlayerColor::Red),
        4521191814463488
    );
    assert_eq!(
        opponent_winning_positions(11302567564057283082684841, PlayerColor::Red),
        1099578736640
    )
}

#[test]
fn calculate_non_losing_moves_given_possible_non_loosing_moves_return_those() {
    assert_eq!(
        calculate_non_losing_moves(6825767598171535737952672, PlayerColor::Red),
        8
    );
    assert_eq!(
        calculate_non_losing_moves(11302567564057283082684841, PlayerColor::Red),
        0
    );
    assert_eq!(
        calculate_non_losing_moves(11680300387915587702513664, PlayerColor::Red),
        2814749767239714
    );
    assert_eq!(
        calculate_non_losing_moves(11680300390167387516198912, PlayerColor::Blue),
        0
    )
}

#[test]
fn turn_series_round_trip_rebuilds_identical_board() {
    let series = "4435261";
    let board = turn_series_of_columns_to_encoded_gamestate(series);
    // read the columns back off the move bits, one ply at a time
    let mut rebuilt_series = String::new();
    let mut g: u128 = 0;
    for (i, ch) in series.chars().enumerate() {
        let column = ch.to_digit(10).unwrap();
        let color = whos_turn_is_it_turn_number(i + 1);
        let (m, _) = turn_column_to_encoded_gamestate(g, column, &color).unwrap();
        let read_back = encoded_gamestate_to_column(m).unwrap();
        rebuilt_series.push(char::from_digit(read_back, 10).unwrap());
        g |= m;
    }
    assert_eq!(rebuilt_series, series);
    assert_eq!(turn_series_of_columns_to_encoded_gamestate(&rebuilt_series), board);
    assert_eq!(g, board);
}

#[test]
fn try_play_columns_rejects_bad_digits_and_full_columns() {
    assert_eq!(try_play_columns("8"), None);
    assert_eq!(try_play_columns("0"), None);
    assert_eq!(try_play_columns("1111111"), None);
    assert_eq!(try_play_columns(""), Some(0));
    assert_eq!(
        try_play_columns("44"),
        Some(turn_series_of_columns_to_encoded_gamestate("44"))
    );
}

#[test]
fn turn_column_given_full_column_or_bad_column_returns_none() {
    let six_in_column_one = turn_series_of_columns_to_encoded_gamestate("111111");
    assert_eq!(
        turn_column_to_encoded_gamestate(six_in_column_one, 1, &PlayerColor::Blue),
        None
    );
    assert_eq!(turn_column_to_encoded_gamestate(0, 0, &PlayerColor::Blue), None);
    assert_eq!(turn_column_to_encoded_gamestate(0, 8, &PlayerColor::Blue), None);
}

#[test]
fn number_of_turns_and_turn_color_follow_the_token_count() {
    let board = turn_series_of_columns_to_encoded_gamestate("443");
    assert_eq!(number_of_turns_played(board), 3);
    assert_eq!(whos_turn_is_it_gamestate(board), PlayerColor::Red);
    assert_eq!(whos_turn_is_it_gamestate(0), PlayerColor::Blue);
}

#[test]
fn get_one_of_the_bits_picks_the_leftmost_column() {
    assert_eq!(get_one_of_the_bits(0), 0);
    let word = (1u128 << 70) | (1u128 << 76);
    assert_eq!(get_one_of_the_bits(word), 1u128 << 70);
}

#[test]
fn move_score_counts_no_threats_on_an_empty_board() {
    assert_eq!(move_score(0, PlayerColor::Blue), 0);
    // three blue tokens on the bottom row of columns two to four threaten
    // on both open ends
    let board = turn_series_of_columns_to_encoded_gamestate("21314");
    assert!(move_score(board, PlayerColor::Blue) > 0);
}

#[test]
fn non_losing_moves_outside_lose_and_inside_do_not() {
    // red must answer blue's three in a row on the bottom
    let board = turn_series_of_columns_to_encoded_gamestate("21314");
    let non_losing = calculate_non_losing_moves(board, PlayerColor::Red);
    assert!(non_losing != 0);
    for column in 1..=7u32 {
        if let Some((m, _)) = turn_column_to_encoded_gamestate(board, column, &PlayerColor::Red) {
            let after = board | m;
            let opponent_wins_next = (1..=7u32).any(|c| is_winning_move(after, c as u8));
            if m & non_losing != 0 {
                assert!(!opponent_wins_next, "column {column} should be safe");
            } else {
                assert!(opponent_wins_next, "column {column} should lose");
            }
        }
    }
}
