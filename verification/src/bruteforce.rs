//! The exhaustive solver: an instant-win check followed by an iterative
//! null-window driver around the negamax search.

use vstd::prelude::*;
use std::collections::HashMap;
use std::time::Instant;
use crate::board::{
    board_full, cell_index, fits_board, in_board, landing_row, lemma_popcount_le_42, nth, occupied, playable, popcount, turn_of, valid_gamestate, winner_of,
};
use crate::color::PlayerColor;
use crate::moves::{
    child_for, children_in_order, compute_winning_positions, get_one_of_the_bits,
    lemma_children_contains, lemma_children_nonempty, lemma_threat_completes, mover_index,
    parity, possible_moves, threat_at,
};
use crate::negamax::{negamax_with_gamestate, HEIGHT, WIDTH};
use crate::turns::{number_of_turns_played, whos_turn_is_it_gamestate};

verus! {

#[verifier::external_type_specification]
#[verifier::external_body]
pub struct ExInstant(Instant);

/// Relies on `std::time::Instant::now`: a point of the monotonic clock.
/// Nothing is promised of it; the elapsed time depends on the machine.
#[verifier::external_body]
fn clock_now() -> Instant {
    Instant::now()
}

/// Relies on `Instant::elapsed` and `Duration::as_micros`: the microseconds
/// that passed since `start` was taken. Nothing is promised of the value.
#[verifier::external_body]
fn elapsed_micros(start: &Instant) -> u128 {
    start.elapsed().as_micros()
}

/// The exhaustive bruteforce engine.
pub struct Engine;

impl Engine {
    /// Computes the best reply to a position that is still in play.
    /// Returns the chosen next gamestate, always a legal child; its exact
    /// score; the number of visited nodes; and the elapsed microseconds.
    /// A winning move is taken on the spot with the score of a win at the
    /// next ply; otherwise the iterative null-window driver converges on
    /// the exact game value. The lookup-table flag names the offline
    /// opening book; without that artifact the engine always searches
    /// live.
    pub fn make_move(current_gamestate: u128, using_lookup_table: bool) -> (res: (
        u128,
        i8,
        u32,
        u128,
    ))
        requires
            valid_gamestate(current_gamestate),
            !board_full(current_gamestate),
            winner_of(current_gamestate) is None,
        ensures
            children_in_order(current_gamestate).contains(res.0),
            (exists|r: int, c: int|
                #[trigger] threat_at(current_gamestate, turn_of(current_gamestate), r, c)
                    && playable(current_gamestate, r, c)) ==> crate::board::has_line(
                res.0,
                turn_of(current_gamestate),
            ) && res.1 == (WIDTH * HEIGHT + 1 - popcount(current_gamestate)) / 2 && res.2 == 0
                && (exists|r: int, c: int|
                #[trigger] threat_at(current_gamestate, turn_of(current_gamestate), r, c)
                    && playable(current_gamestate, r, c) && res.0 == (current_gamestate
                    | crate::board::move_bit(turn_of(current_gamestate), r, c)) && (forall|
                    r2: int,
                    c2: int,
                |
                    crate::board::in_board(r2, c2) && c2 < c ==> !(#[trigger] threat_at(
                        current_gamestate,
                        turn_of(current_gamestate),
                        r2,
                        c2,
                    ) && playable(current_gamestate, r2, c2)))),
            !(exists|r: int, c: int|
                #[trigger] threat_at(current_gamestate, turn_of(current_gamestate), r, c)
                    && playable(current_gamestate, r, c)) ==> res.1 == crate::negamax::game_value(
                current_gamestate,
                turn_of(current_gamestate),
            ),
    {
        let _ = using_lookup_table;
        let g = current_gamestate;
        let time = clock_now();
        let mut number_of_visited_nodes: u32 = 0;
        let color = whos_turn_is_it_gamestate(g);
        proof {
            lemma_popcount_le_42(g);
            crate::negamax::lemma_game_value_bounds(g, color);
        }
        let turns_played: i8 = number_of_turns_played(g) as i8;
        let mut transposition_table: HashMap<u128, i8> = HashMap::new();

        // Return a winning move immediately if one exists
        let winning = compute_winning_positions(g, color);
        let reachable = possible_moves(g);
        let instant_winning_moves = winning & reachable;
        if instant_winning_moves != 0 {
            let win_bit = get_one_of_the_bits(instant_winning_moves);
            proof {
                lemma_win_bit(g, color, winning, reachable, instant_winning_moves, win_bit);
            }
            return (
                win_bit | g,
                (WIDTH * HEIGHT + 1 - turns_played) / 2,
                number_of_visited_nodes,
                elapsed_micros(&time),
            );
        }
        proof {
            lemma_no_threat(g, color, winning, reachable, instant_winning_moves);
        }

        let mut min: i8 = -((WIDTH * HEIGHT - turns_played) / 2);
        let mut max: i8 = (WIDTH * HEIGHT - turns_played) / 2;

        proof {
            let c0 = choose|c0: int| 0 <= c0 < 7 && !occupied(g, 0, c0);
            crate::board::lemma_landing_row(g, c0);
            lemma_children_nonempty(g, c0);
        }
        let first_children = crate::moves::possible_next_gamestates(g);
        let mut best_next_gamestate: u128 = first_children[0];
        proof {
            assert(children_in_order(g).contains(best_next_gamestate));
        }

        let ghost gv = crate::negamax::game_value(g, color);

        while min < max
            invariant
                g == current_gamestate,
                valid_gamestate(g),
                color == turn_of(g),
                children_in_order(g).len() > 0,
                gv == crate::negamax::game_value(g, color),
                -21 <= min <= 22,
                -22 <= max <= 21,
                min as int <= gv <= max as int,
                children_in_order(g).contains(best_next_gamestate),
                crate::negamax::table_ok(transposition_table@),
            decreases 44 + max - min,
        {
            let mut med: i8 = min + (max - min) / 2;

            if med <= 0 && min / 2 < med {
                med = min / 2
            } else if med >= 0 && max / 2 > med {
                med = max / 2
            }
            proof {
                assert(min <= med < max);
            }

            let (evaluation, gamestate) = negamax_with_gamestate(
                g,
                med,
                med + 1,
                color,
                &mut number_of_visited_nodes,
                &mut transposition_table,
            );

            if evaluation <= med {
                proof {
                    // the probe failed low: the value is capped by it
                    assert(gv <= evaluation as int);
                }
                max = evaluation;
            } else {
                proof {
                    // the probe failed high: the value reaches it
                    assert(evaluation >= med + 1);
                    assert(gv >= evaluation as int);
                }
                min = evaluation;
                best_next_gamestate = gamestate;
            }
        }
        proof {
            assert(min as int == gv);
        }

        (best_next_gamestate, min, number_of_visited_nodes, elapsed_micros(&time))
    }
}

/// The picked winning bit is a single playable threat cell of the mover.
#[verifier::rlimit(100)]
#[verifier::spinoff_prover]
proof fn lemma_pick_single(
    g: u128,
    color: PlayerColor,
    winning: u128,
    reachable: u128,
    instant: u128,
    win_bit: u128,
) -> (cell: (int, int))
    requires
        valid_gamestate(g),
        fits_board(winning),
        forall|r: int, c: int|
            in_board(r, c) ==> #[trigger] crate::board::color_at(winning, color, r, c) == (
            !occupied(g, r, c) && crate::moves::completes_line_at(g, color, r, c)),
        forall|r: int, c: int|
            in_board(r, c) ==> !(#[trigger] crate::board::color_at(winning, color.other(), r, c)),
        fits_board(reachable),
        forall|r: int, c: int|
            in_board(r, c) ==> #[trigger] crate::board::blue_at(reachable, r, c) == playable(
                g,
                r,
                c,
            ),
        forall|r: int, c: int|
            in_board(r, c) ==> #[trigger] crate::board::red_at(reachable, r, c) == playable(
                g,
                r,
                c,
            ),
        instant == winning & reachable,
        instant != 0,
        forall|j: u128| j < 128 ==> (#[trigger] nth(win_bit, j) ==> nth(instant, j)),
        win_bit == 0 ==> forall|j: u128| j < 84 ==> !(#[trigger] nth(instant, j)),
        win_bit != 0 ==> exists|cm: int|
            0 <= cm < 7 && win_bit == instant & #[trigger] crate::moves::column_mask(cm),
    ensures
        in_board(cell.0, cell.1),
        win_bit == crate::board::move_bit(color, cell.0, cell.1),
        playable(g, cell.0, cell.1),
        threat_at(g, color, cell.0, cell.1),
{
    assert(instant < 0x1000000000000000000000u128) by (bit_vector)
        requires
            winning < 0x1000000000000000000000u128 && instant == winning & reachable,
    ;
    // the word holds some playable threat bit, so the pick is not empty
    let k0 = crate::board::lemma_some_bit(instant);
    if k0 >= 84 {
        crate::board::lemma_high_bit_clear(instant, k0);
    }
    if win_bit == 0 {
        assert(!nth(instant, k0));
    }
    let cm = choose|cm: int|
        0 <= cm < 7 && win_bit == instant & #[trigger] crate::moves::column_mask(cm);
    let cmu = cm as u128;
    assert(crate::moves::column_mask(cm) == 3541991048129292582915u128 << (2 * cmu));
    let k = crate::board::lemma_some_bit(win_bit);
    assert(nth(instant, k) && (k % 14) / 2 == cmu && k < 84) by (bit_vector)
        requires
            win_bit == instant & (3541991048129292582915u128 << (2 * cmu)),
            nth(win_bit, k),
            k < 128,
            cmu < 7,
            instant < 0x1000000000000000000000u128,
    ;
    let (r1, c1) = cell_of_instant_bit(g, color, winning, reachable, instant, k);
    assert(c1 == cm);
    // a second bit of the pick would name a second playable cell of the
    // same column
    let rest = win_bit & !(1u128 << k);
    if rest != 0 {
        let k2 = crate::board::lemma_some_bit(rest);
        assert(nth(win_bit, k2) && k2 != k && nth(instant, k2) && (k2 % 14) / 2 == cmu && k2 < 84)
            by (bit_vector)
            requires
                rest == win_bit & !(1u128 << k),
                nth(rest, k2),
                win_bit == instant & (3541991048129292582915u128 << (2 * cmu)),
                k2 < 128,
                k < 128,
                cmu < 7,
                instant < 0x1000000000000000000000u128,
        ;
        let (r2, c2) = cell_of_instant_bit(g, color, winning, reachable, instant, k2);
        assert(c2 == cm);
        crate::board::lemma_playable_unique(g, r1, r2, cm);
        assert(k2 == k);
    }
    assert(win_bit == 1u128 << k) by (bit_vector)
        requires
            win_bit & !(1u128 << k) == 0 && nth(win_bit, k) && k < 128,
    ;
    // the picked bit is the mover's move onto its threat cell
    match color {
        PlayerColor::Blue => {
            assert(k == cell_index(r1, c1) as u128);
            assert(win_bit == crate::board::move_bit(color, r1, c1));
        },
        PlayerColor::Red => {
            assert(k == (cell_index(r1, c1) + 1) as u128);
            assert(win_bit == crate::board::move_bit(color, r1, c1));
        },
    }
    (r1, c1)
}

/// Playing the picked winning bit yields a legal child with a completed
/// line for the mover.
proof fn lemma_win_bit(
    g: u128,
    color: PlayerColor,
    winning: u128,
    reachable: u128,
    instant: u128,
    win_bit: u128,
)
    requires
        valid_gamestate(g),
        color == turn_of(g),
        fits_board(winning),
        forall|r: int, c: int|
            in_board(r, c) ==> #[trigger] crate::board::color_at(winning, color, r, c) == (
            !occupied(g, r, c) && crate::moves::completes_line_at(g, color, r, c)),
        forall|r: int, c: int|
            in_board(r, c) ==> !(#[trigger] crate::board::color_at(winning, color.other(), r, c)),
        fits_board(reachable),
        forall|r: int, c: int|
            in_board(r, c) ==> #[trigger] crate::board::blue_at(reachable, r, c) == playable(
                g,
                r,
                c,
            ),
        forall|r: int, c: int|
            in_board(r, c) ==> #[trigger] crate::board::red_at(reachable, r, c) == playable(
                g,
                r,
                c,
            ),
        instant == winning & reachable,
        instant != 0,
        forall|j: u128| j < 128 ==> (#[trigger] nth(win_bit, j) ==> nth(instant, j)),
        win_bit == 0 ==> forall|j: u128| j < 84 ==> !(#[trigger] nth(instant, j)),
        win_bit != 0 ==> exists|cm: int|
            0 <= cm < 7 && win_bit == instant & #[trigger] crate::moves::column_mask(cm) && (forall|
                j: u128,
            |
                j < 84 && (j % 14) / 2 < cm ==> !nth(instant, j)),
    ensures
        crate::board::has_line(win_bit | g, color),
        children_in_order(g).contains(win_bit | g),
        exists|r: int, c: int|
            #[trigger] threat_at(g, color, r, c) && playable(g, r, c) && (win_bit | g) == (g
                | crate::board::move_bit(color, r, c)) && (forall|r2: int, c2: int|
                crate::board::in_board(r2, c2) && c2 < c ==> !(#[trigger] threat_at(g, color, r2, c2)
                    && playable(g, r2, c2))),
{
    let (r1, c1) = lemma_pick_single(g, color, winning, reachable, instant, win_bit);
    assert(threat_at(g, color, r1, c1) && playable(g, r1, c1));
    let cm_left = choose|cm: int|
        0 <= cm < 7 && win_bit == instant & #[trigger] crate::moves::column_mask(cm) && (forall|
            j: u128,
        |
            j < 84 && (j % 14) / 2 < cm ==> !nth(instant, j));
    assert(c1 == cm_left) by {
        let k1 = (crate::board::cell_index(r1, c1) + crate::moves::parity(color)) as u128;
        assert(win_bit == 1u128 << k1);
        crate::moves::lemma_single_bit(k1);
        assert(nth(win_bit, k1));
        crate::board::lemma_nth_and(instant, crate::moves::column_mask(cm_left));
        crate::moves::lemma_column_mask_bits(cm_left as u128);
        assert(nth(crate::moves::column_mask(cm_left), k1));
        assert((k1 % 14) / 2 == cm_left as u128);
        crate::moves::lemma_mover_index_column(color, r1, c1);
        assert(k1 == crate::moves::mover_index(color, r1, c1) as u128);
    }
    assert forall|r2: int, c2: int|
        crate::board::in_board(r2, c2) && c2 < c1 implies !(#[trigger] threat_at(g, color, r2, c2)
            && playable(g, r2, c2)) by {
        if threat_at(g, color, r2, c2) && playable(g, r2, c2) {
            crate::moves::lemma_cell_bits_of(color, winning, r2, c2);
            crate::moves::lemma_cell_bits_of(color, reachable, r2, c2);
            crate::board::lemma_nth_and(winning, reachable);
            let j = crate::moves::mover_index(color, r2, c2) as u128;
            assert(nth(winning, j) && nth(reachable, j));
            assert(nth(instant, j));
            assert((j % 14) / 2 < c1 as u128) by {
                crate::moves::lemma_mover_index_column(color, r2, c2);
            }
        }
    }
    lemma_threat_completes(g, color, r1, c1);
    crate::board::lemma_or_comm(win_bit, g);
    crate::board::lemma_playable_is_landing(g, r1, c1);
    lemma_children_contains(g, c1);
    assert(child_for(g, c1)->0 == g | win_bit);
}

/// A set bit of the instant-win word names a playable threat cell.
#[verifier::spinoff_prover]
proof fn cell_of_instant_bit(
    g: u128,
    color: PlayerColor,
    winning: u128,
    reachable: u128,
    instant: u128,
    k: u128,
) -> (cell: (int, int))
    requires
        valid_gamestate(g),
        forall|r: int, c: int|
            in_board(r, c) ==> #[trigger] crate::board::color_at(winning, color, r, c) == (
            !occupied(g, r, c) && crate::moves::completes_line_at(g, color, r, c)),
        forall|r: int, c: int|
            in_board(r, c) ==> !(#[trigger] crate::board::color_at(winning, color.other(), r, c)),
        forall|r: int, c: int|
            in_board(r, c) ==> #[trigger] crate::board::blue_at(reachable, r, c) == playable(
                g,
                r,
                c,
            ),
        forall|r: int, c: int|
            in_board(r, c) ==> #[trigger] crate::board::red_at(reachable, r, c) == playable(
                g,
                r,
                c,
            ),
        instant == winning & reachable,
        k < 84,
        nth(instant, k),
    ensures
        in_board(cell.0, cell.1),
        k == mover_index(color, cell.0, cell.1) as u128,
        cell.1 == ((k % 14) / 2) as int,
        playable(g, cell.0, cell.1),
        threat_at(g, color, cell.0, cell.1),
{
    crate::board::lemma_nth_and(winning, reachable);
    crate::moves::lemma_bit_decomp(k);
    let r = (k / 14) as int;
    let c = ((k % 14) / 2) as int;
    crate::moves::lemma_cell_bits_of(color, winning, r, c);
    crate::moves::lemma_cell_bits_of(color, reachable, r, c);
    if (k % 2) as int == parity(color) {
        assert(k == mover_index(color, r, c) as u128);
    } else {
        assert(k == (cell_index(r, c) + 1 - parity(color)) as u128);
        assert(!nth(winning, k));
    }
    (r, c)
}

/// An empty instant-win word means no playable threat cell at all.
proof fn lemma_no_threat(g: u128, color: PlayerColor, winning: u128, reachable: u128, instant: u128)
    requires
        valid_gamestate(g),
        forall|r: int, c: int|
            in_board(r, c) ==> #[trigger] crate::board::color_at(winning, color, r, c) == (
            !occupied(g, r, c) && crate::moves::completes_line_at(g, color, r, c)),
        forall|r: int, c: int|
            in_board(r, c) ==> !(#[trigger] crate::board::color_at(winning, color.other(), r, c)),
        forall|r: int, c: int|
            in_board(r, c) ==> #[trigger] crate::board::blue_at(reachable, r, c) == playable(
                g,
                r,
                c,
            ),
        forall|r: int, c: int|
            in_board(r, c) ==> #[trigger] crate::board::red_at(reachable, r, c) == playable(
                g,
                r,
                c,
            ),
        instant == winning & reachable,
        instant == 0,
    ensures
        forall|r: int, c: int|
            #[trigger] threat_at(g, color, r, c) && playable(g, r, c) ==> false,
{
    crate::board::lemma_nth_and(winning, reachable);
    crate::moves::lemma_nth_zero();
    assert forall|r: int, c: int|
        #[trigger] threat_at(g, color, r, c) && playable(g, r, c) implies false by {
        crate::moves::lemma_cell_bits_of(color, winning, r, c);
        crate::moves::lemma_cell_bits_of(color, reachable, r, c);
        let i = mover_index(color, r, c) as u128;
        assert(nth(winning, i) && nth(reachable, i));
        assert(nth(instant, i) == (nth(winning, i) && nth(reachable, i)));
    }
}

} // verus!
