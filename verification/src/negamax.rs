//! The alpha-beta negamax search over the packed board.

use vstd::prelude::*;
use std::collections::HashMap;
use crate::board::{
    landing_row, lemma_popcount_le_42, popcount, turn_of, valid_gamestate,
};
use crate::color::PlayerColor;
use crate::moves::{
    calculate_non_losing_moves, children_in_order, move_score, non_losing_at,
    possible_next_gamestates,
};
use crate::turns::number_of_turns_played;

verus! {

broadcast use vstd::std_specs::hash::group_hash_axioms;

pub const WIDTH: i8 = 7;

pub const HEIGHT: i8 = 6;

// The lowest score the search can see: -(WIDTH * HEIGHT) / 2 + 3.
pub const MIN_SCORE: i8 = -18;

/// Every cached value fits the byte encoding `score - MIN_SCORE + 1` of a
/// score in the playable range, and decodes to a sound upper bound on its
/// position's value: the table caches fail-low results and exact scores.
pub open spec fn table_ok(m: Map<u128, i8>) -> bool {
    forall|k: u128|
        m.contains_key(k) ==> (-3 <= #[trigger] m[k] <= 40 && (valid_gamestate(k)
            ==> game_value(k, turn_of(k)) <= m[k] + MIN_SCORE - 1))
}

/// Orders the candidate positions by their move score, highest first, so
/// that the most threatening replies are searched earliest. Keeps exactly
/// the given positions; the order never changes what the search returns,
/// only how fast it prunes.
fn sort_children_by_score(children: Vec<u128>, color: PlayerColor) -> (res: Vec<u128>)
    requires
        forall|i: int| 0 <= i < children@.len() ==> valid_gamestate(#[trigger] children@[i]),
    ensures
        res@.len() == children@.len(),
        forall|i: int| 0 <= i < res@.len() ==> children@.contains(#[trigger] res@[i]),
        forall|x: u128| children@.contains(x) ==> res@.contains(x),
{
    let ghost orig = children@;
    let mut scored: Vec<(u128, u8)> = Vec::new();
    let mut i: usize = 0;
    while i < children.len()
        invariant
            0 <= i <= children@.len(),
            children@ == orig,
            scored@.len() == i,
            forall|j: int| 0 <= j < children@.len() ==> valid_gamestate(#[trigger] children@[j]),
            forall|j: int| 0 <= j < i ==> (#[trigger] scored@[j]).0 == children@[j],
        decreases children@.len() - i,
    {
        let s = move_score(children[i], color);
        scored.push((children[i], s));
        i = i + 1;
    }
    let mut work = scored;
    let mut res: Vec<u128> = Vec::new();
    proof {
        assert forall|x: u128| orig.contains(x) implies (exists|j: int|
            0 <= j < work@.len() && (#[trigger] work@[j]).0 == x) by {
            let j0 = choose|j0: int| 0 <= j0 < orig.len() && orig[j0] == x;
            assert(work@[j0].0 == x);
        }
    }
    while work.len() > 0
        invariant
            res@.len() + work@.len() == orig.len(),
            forall|j: int| 0 <= j < work@.len() ==> orig.contains((#[trigger] work@[j]).0),
            forall|j: int| 0 <= j < res@.len() ==> orig.contains(#[trigger] res@[j]),
            forall|x: u128|
                orig.contains(x) ==> (exists|j: int|
                    0 <= j < work@.len() && (#[trigger] work@[j]).0 == x) || res@.contains(x),
        decreases work@.len(),
    {
        let mut best: usize = 0;
        let mut k: usize = 1;
        while k < work.len()
            invariant
                0 <= best < work@.len(),
                best < k,
                k <= work@.len(),
                work@.len() > 0,
            decreases work@.len() - k,
        {
            if work[k].1 > work[best].1 {
                best = k;
            }
            k = k + 1;
        }
        let ghost old_work = work@;
        let ghost old_res = res@;
        let picked = work.remove(best);
        res.push(picked.0);
        proof {
            assert forall|x: u128| orig.contains(x) implies (exists|j: int|
                0 <= j < work@.len() && (#[trigger] work@[j]).0 == x) || res@.contains(x) by {
                if !old_res.contains(x) {
                    let j0 = choose|j0: int| 0 <= j0 < old_work.len() && old_work[j0].0 == x;
                    if j0 == best {
                        assert(res@[res@.len() - 1] == x);
                    } else if j0 < best {
                        assert(work@[j0].0 == x);
                    } else {
                        assert(work@[j0 - 1].0 == x);
                    }
                } else {
                    assert(res@[choose|j: int| 0 <= j < old_res.len() && old_res[j] == x] == x);
                }
            }
        }
    }
    res
}

/// Returns a rating of the gamestate for the mover with the fail-soft
/// alpha-beta guarantee: a score strictly inside the window is the exact
/// game value, a score at or below `alpha` is an upper bound on it, and a
/// score at or above `beta` is a lower bound. The search explores only
/// moves that do not lose on the spot, stops two tokens short of a full
/// board with a draw, narrows the window by what is still achievable, and
/// caches finished nodes in the transposition table as sound upper
/// bounds; cached keys are never overwritten. The visit counter advances
/// once per entered node and pins at its maximum rather than wrapping.
pub fn negamax(
    current_gamestate: u128,
    alpha: i8,
    beta: i8,
    color: PlayerColor,
    number_of_visits: &mut u32,
    transposition_table: &mut HashMap<u128, i8>,
) -> (score: i8)
    requires
        valid_gamestate(current_gamestate),
        color == turn_of(current_gamestate),
        -22 <= alpha < beta <= 22,
        table_ok(old(transposition_table)@),
    ensures
        -22 <= score <= 22,
        table_ok(final(transposition_table)@),
        forall|k: u128|
            #[trigger] old(transposition_table)@.contains_key(k)
                ==> final(transposition_table)@.contains_key(k)
                && final(transposition_table)@[k] == old(transposition_table)@[k],
        *final(number_of_visits) >= *old(number_of_visits),
        score <= alpha ==> game_value(current_gamestate, color) <= score,
        score >= beta ==> game_value(current_gamestate, color) >= score,
        alpha < score < beta ==> score == game_value(current_gamestate, color),
        !has_non_losing(current_gamestate, color) ==> score == -((42 - popcount(current_gamestate))
            / 2) && final(transposition_table)@ == old(transposition_table)@
            && *final(number_of_visits) == (if *old(number_of_visits) < u32::MAX {
            (*old(number_of_visits) + 1) as u32
        } else {
            *old(number_of_visits)
        }),
        has_non_losing(current_gamestate, color) && popcount(current_gamestate) >= 40 ==> score
            == 0,
    decreases 42 - popcount(current_gamestate),
{
    let ghost g = current_gamestate;
    let ghost alpha0 = alpha as int;
    let ghost beta0 = beta as int;
    let ghost gv = game_value(g, color);
    let mut cur_alpha = alpha;
    let mut cur_beta = beta;
    if *number_of_visits < u32::MAX {
        *number_of_visits = *number_of_visits + 1;
    }

    proof {
        lemma_popcount_le_42(current_gamestate);
        lemma_game_value_bounds(current_gamestate, color);
    }
    let turns_played: i8 = number_of_turns_played(current_gamestate) as i8;

    let next_possible_moves = calculate_non_losing_moves(current_gamestate, color);
    proof {
        lemma_non_losing_word(g, color, next_possible_moves);
    }
    if next_possible_moves == 0 {
        // every move loses the game
        return -((WIDTH * HEIGHT - turns_played) / 2);
    }

    if current_gamestate.count_ones() >= ((WIDTH * HEIGHT) - 2) as u32 {
        // the last two tokens can no longer decide the game
        return 0;
    }

    let min: i8 = -((WIDTH * HEIGHT - 2 - turns_played) / 2);
    proof {
        assert(gv >= min as int);
    }
    if cur_alpha < min {
        cur_alpha = min;
        if cur_alpha >= cur_beta {
            return cur_alpha;
        }
    }

    let mut max: i8 = (WIDTH * HEIGHT - 1 - turns_played) / 2;
    proof {
        assert(gv <= max as int);
    }

    let mut was_in_transposition_table: bool = false;
    match transposition_table.get(&current_gamestate) {
        Some(value) => {
            proof {
                assert(transposition_table@.contains_key(g));
                assert(transposition_table@[g] == *value);
                assert(gv <= transposition_table@[g] + MIN_SCORE - 1);
            }
            max = *value + MIN_SCORE - 1;
            was_in_transposition_table = true;
        },
        None => {
            proof {
                assert(!transposition_table@.contains_key(g));
            }
        },
    }

    if cur_beta > max {
        cur_beta = max;
        if cur_alpha >= cur_beta {
            // Prune if the exploration window [alpha : beta] is empty
            return cur_beta;
        }
    }

    let ghost alpha_entry = cur_alpha as int;
    let ghost beta_entry = cur_beta as int;

    let next_gamestates = possible_next_gamestates(current_gamestate);
    let ghost ch = next_gamestates@;
    let next_gamestates_sorted = sort_children_by_score(next_gamestates, color);
    proof {
        assert(forall|j: int|
            0 <= j < ch.len() ==> valid_gamestate(#[trigger] ch[j]) && popcount(ch[j]) == popcount(
                current_gamestate,
            ) + 1);
        assert forall|c0: int|
            0 <= c0 < 7 && #[trigger] column_qualifies(g, color, c0) implies (exists|j: int|
            0 <= j < next_gamestates_sorted@.len() && next_gamestates_sorted@[j] == column_child(
                g,
                color,
                c0,
            )) by {
            crate::moves::lemma_children_contains(g, c0);
            assert(ch.contains(column_child(g, color, c0)));
            assert(next_gamestates_sorted@.contains(column_child(g, color, c0)));
            let jj = choose|jj: int|
                0 <= jj < next_gamestates_sorted@.len() && next_gamestates_sorted@[jj]
                    == column_child(g, color, c0);
        }
    }

    let mut i: usize = 0;
    while i < next_gamestates_sorted.len()
        invariant
            g == current_gamestate,
            valid_gamestate(g),
            color == turn_of(g),
            popcount(g) < 40,
            gv == game_value(g, color),
            has_non_losing(g, color),
            alpha0 < beta0,
            -22 <= alpha0,
            beta0 <= 22,
            alpha_entry <= cur_alpha as int,
            (cur_alpha as int) < beta_entry,
            cur_beta as int == beta_entry,
            alpha0 == alpha as int,
            beta0 == beta as int,
            beta_entry <= beta0,
            alpha0 <= alpha_entry,
            -22 <= cur_alpha as int,
            table_ok(transposition_table@),
            forall|k: u128|
                #[trigger] old(transposition_table)@.contains_key(k)
                    ==> transposition_table@.contains_key(k) && transposition_table@[k] == old(
                    transposition_table,
                )@[k],
            !was_in_transposition_table ==> !old(transposition_table)@.contains_key(g),
            *number_of_visits >= *old(number_of_visits),
            crate::board::fits_board(next_possible_moves),
            forall|r: int, c: int|
                crate::board::in_board(r, c) ==> #[trigger] crate::board::color_at(
                    next_possible_moves,
                    color,
                    r,
                    c,
                ) == non_losing_at(g, color, r, c),
            forall|r: int, c: int|
                crate::board::in_board(r, c) ==> !(#[trigger] crate::board::color_at(
                    next_possible_moves,
                    color.other(),
                    r,
                    c,
                )),
            forall|j: int|
                0 <= j < next_gamestates_sorted@.len() ==> ch.contains(
                    #[trigger] next_gamestates_sorted@[j],
                ),
            forall|j: int|
                0 <= j < ch.len() ==> valid_gamestate(#[trigger] ch[j]) && popcount(ch[j])
                    == popcount(g) + 1,
            ch == children_in_order(g),
            i <= next_gamestates_sorted@.len(),
            cur_alpha as int > alpha_entry ==> gv >= cur_alpha as int,
            alpha_entry > alpha0 ==> gv >= alpha_entry,
            beta_entry < beta0 ==> gv <= beta_entry,
            forall|c0: int|
                0 <= c0 < 7 && #[trigger] column_qualifies(g, color, c0) ==> (exists|j: int|
                    i <= j < next_gamestates_sorted@.len() && next_gamestates_sorted@[j]
                        == column_child(g, color, c0)) || -game_value(
                    column_child(g, color, c0),
                    color.other(),
                ) <= cur_alpha as int,
        decreases next_gamestates_sorted@.len() - i,
    {
        let next_gamestate = next_gamestates_sorted[i];
        proof {
            assert(ch.contains(next_gamestate));
            let jj = choose|jj: int| 0 <= jj < ch.len() && ch[jj] == next_gamestate;
            assert(valid_gamestate(ch[jj]) && popcount(ch[jj]) == popcount(g) + 1);
            assert(ch[jj] == next_gamestate);
            crate::moves::lemma_member_is_child(g, next_gamestate);
        }
        let ghost cx = choose|cx: int|
            0 <= cx < 7 && #[trigger] crate::moves::child_for(g, cx) is Some && next_gamestate
                == crate::moves::child_for(g, cx)->0;
        proof {
            crate::board::lemma_landing_row(g, cx);
            assert(landing_row(g, cx) >= 0);
            assert(next_gamestate == column_child(g, color, cx));
            lemma_child_filter(g, color, next_possible_moves, cx);
        }
        if next_gamestate & next_possible_moves != 0 {
            proof {
                assert(column_qualifies(g, color, cx));
                assert(turn_of(next_gamestate) == color.other()) by {
                    assert(popcount(next_gamestate) == popcount(g) + 1);
                }
            }
            let child_color = match color {
                PlayerColor::Blue => PlayerColor::Red,
                PlayerColor::Red => PlayerColor::Blue,
            };
            let ghost tt_pre = transposition_table@;
            proof {
                assert forall|k: u128|
                    #[trigger] old(transposition_table)@.contains_key(k) implies
                    tt_pre.contains_key(k) && tt_pre[k] == old(transposition_table)@[k] by {}
            }
            let neg_score: i8 = negamax(
                next_gamestate,
                -cur_beta,
                -cur_alpha,
                child_color,
                number_of_visits,
                transposition_table,
            );
            let score: i8 = -neg_score;
            let ghost cv = game_value(next_gamestate, child_color);
            proof {
                lemma_best_reply_ge(g, color, 0, cx);
                assert(gv == best_reply_value(g, color, 0));
                assert(gv >= -cv);
                assert forall|k: u128|
                    old(transposition_table)@.contains_key(k) implies
                    transposition_table@.contains_key(k) && transposition_table@[k] == old(
                    transposition_table,
                )@[k] by {
                    assert(tt_pre.contains_key(k) && tt_pre[k] == old(transposition_table)@[k]);
                }
                if !was_in_transposition_table && transposition_table@.contains_key(g) {
                    assert(!old(transposition_table)@.contains_key(g));
                }
            }

            if score >= cur_beta {
                proof {
                    // the child failed low, so its value caps at the
                    // returned score and this node's value clears beta
                    assert(neg_score <= -cur_beta);
                    assert(cv <= neg_score as int);
                    assert(gv >= score as int);
                    if (score as int) < beta0 {
                        assert(beta_entry < beta0);
                        assert(gv <= beta_entry);
                        assert(gv == score as int);
                    }
                }
                return score;
            }
            proof {
                if score > cur_alpha {
                    // the child came back exact, so this node's value
                    // reaches the improved alpha
                    assert(-cur_beta < neg_score < -cur_alpha);
                    assert(cv == neg_score as int);
                    assert(gv >= score as int);
                } else {
                    // the child failed high: its value is at least the
                    // returned score, so this move cannot beat alpha
                    assert(neg_score >= -cur_alpha);
                    assert(cv >= neg_score as int);
                    assert(-cv <= score as int);
                }
            }
            if score > cur_alpha {
                cur_alpha = score;
            }
            proof {
                assert(-cv <= cur_alpha as int);
                assert forall|c0: int|
                    0 <= c0 < 7 && #[trigger] column_qualifies(g, color, c0) implies (exists|
                    j: int,
                |
                    i + 1 <= j < next_gamestates_sorted@.len() && next_gamestates_sorted@[j]
                        == column_child(g, color, c0)) || -game_value(
                    column_child(g, color, c0),
                    color.other(),
                ) <= cur_alpha as int by {
                    if column_child(g, color, c0) == next_gamestate {
                        assert(-game_value(column_child(g, color, c0), color.other()) == -cv);
                    } else {
                        if !(-game_value(column_child(g, color, c0), color.other())
                            <= cur_alpha as int) {
                            let j0 = choose|j0: int|
                                i <= j0 < next_gamestates_sorted@.len()
                                    && next_gamestates_sorted@[j0] == column_child(g, color, c0);
                            assert(j0 != i);
                        }
                    }
                }
            }
        } else {
            proof {
                assert forall|c0: int|
                    0 <= c0 < 7 && #[trigger] column_qualifies(g, color, c0) implies (exists|
                    j: int,
                |
                    i + 1 <= j < next_gamestates_sorted@.len() && next_gamestates_sorted@[j]
                        == column_child(g, color, c0)) || -game_value(
                    column_child(g, color, c0),
                    color.other(),
                ) <= cur_alpha as int by {
                    if column_child(g, color, c0) == next_gamestate {
                        lemma_child_filter(g, color, next_possible_moves, c0);
                    } else {
                        if !(-game_value(column_child(g, color, c0), color.other())
                            <= cur_alpha as int) {
                            let j0 = choose|j0: int|
                                i <= j0 < next_gamestates_sorted@.len()
                                    && next_gamestates_sorted@[j0] == column_child(g, color, c0);
                            assert(j0 != i);
                        }
                    }
                }
            }
        }
        i = i + 1;
    }
    proof {
        lemma_best_reply_le(g, color, 0, cur_alpha as int);
        assert(gv == best_reply_value(g, color, 0));
        assert(gv >= -21);
        assert(gv <= cur_alpha as int);
        if cur_alpha as int > alpha0 {
            if cur_alpha as int > alpha_entry {
                assert(gv >= cur_alpha as int);
            } else {
                assert(cur_alpha as int == alpha_entry);
                assert(gv >= alpha_entry);
            }
            assert(gv == cur_alpha as int);
        }
    }
    if !was_in_transposition_table {
        let ghost tt_pre = transposition_table@;
        transposition_table.insert(current_gamestate, cur_alpha - MIN_SCORE + 1);
        proof {
            assert(!old(transposition_table)@.contains_key(g));
            assert forall|k: u128|
                old(transposition_table)@.contains_key(k) implies
                transposition_table@.contains_key(k) && transposition_table@[k] == old(
                transposition_table,
            )@[k] by {
                assert(k != g);
                assert(tt_pre.contains_key(k) && tt_pre[k] == old(transposition_table)@[k]);
            }
        }
    }
    cur_alpha
}

/// Like [`negamax`], with the same fail-soft guarantee on the returned
/// score, and additionally the chosen reply: always some legal child of
/// the given position.
pub fn negamax_with_gamestate(
    current_gamestate: u128,
    alpha: i8,
    beta: i8,
    color: PlayerColor,
    number_of_visits: &mut u32,
    transposition_table: &mut HashMap<u128, i8>,
) -> (res: (i8, u128))
    requires
        valid_gamestate(current_gamestate),
        color == turn_of(current_gamestate),
        children_in_order(current_gamestate).len() > 0,
        -22 <= alpha < beta <= 22,
        table_ok(old(transposition_table)@),
    ensures
        -22 <= res.0 <= 22,
        table_ok(final(transposition_table)@),
        forall|k: u128|
            #[trigger] old(transposition_table)@.contains_key(k)
                ==> final(transposition_table)@.contains_key(k)
                && final(transposition_table)@[k] == old(transposition_table)@[k],
        *final(number_of_visits) >= *old(number_of_visits),
        children_in_order(current_gamestate).contains(res.1),
        res.0 <= alpha ==> game_value(current_gamestate, color) <= res.0,
        res.0 >= beta ==> game_value(current_gamestate, color) >= res.0,
        alpha < res.0 < beta ==> res.0 == game_value(current_gamestate, color),
    decreases 42 - popcount(current_gamestate),
{
    let ghost g = current_gamestate;
    let ghost alpha0 = alpha as int;
    let ghost beta0 = beta as int;
    let ghost gv = game_value(g, color);
    let mut cur_alpha = alpha;
    let mut cur_beta = beta;
    if *number_of_visits < u32::MAX {
        *number_of_visits = *number_of_visits + 1;
    }

    proof {
        lemma_popcount_le_42(current_gamestate);
        lemma_game_value_bounds(current_gamestate, color);
    }
    let turns_played: i8 = number_of_turns_played(current_gamestate) as i8;
    let all_children = possible_next_gamestates(current_gamestate);
    let ghost ch = all_children@;
    let random_move: u128 = all_children[0];
    proof {
        assert(children_in_order(current_gamestate).contains(random_move));
        assert(forall|j: int|
            0 <= j < ch.len() ==> valid_gamestate(#[trigger] ch[j]) && popcount(ch[j]) == popcount(
                current_gamestate,
            ) + 1);
    }

    let next_possible_moves = calculate_non_losing_moves(current_gamestate, color);
    proof {
        lemma_non_losing_word(g, color, next_possible_moves);
    }
    if next_possible_moves == 0 {
        // every move loses the game
        return (-((WIDTH * HEIGHT - turns_played) / 2), random_move);
    }

    if current_gamestate.count_ones() >= ((WIDTH * HEIGHT) - 2) as u32 {
        return (0, random_move);
    }

    let min: i8 = -((WIDTH * HEIGHT - 2 - turns_played) / 2);
    proof {
        assert(gv >= min as int);
    }
    if cur_alpha < min {
        cur_alpha = min;
        if cur_alpha >= cur_beta {
            return (cur_alpha, random_move);
        }
    }

    let mut max: i8 = (WIDTH * HEIGHT - 1 - turns_played) / 2;
    proof {
        assert(gv <= max as int);
    }

    let mut was_in_transposition_table: bool = false;
    match transposition_table.get(&current_gamestate) {
        Some(value) => {
            proof {
                assert(transposition_table@.contains_key(g));
                assert(transposition_table@[g] == *value);
                assert(gv <= transposition_table@[g] + MIN_SCORE - 1);
            }
            max = *value + MIN_SCORE - 1;
            was_in_transposition_table = true;
        },
        None => {
            proof {
                assert(!transposition_table@.contains_key(g));
            }
        },
    }

    if cur_beta > max {
        cur_beta = max;
        if cur_alpha >= cur_beta {
            // Prune if the exploration window [alpha : beta] is empty
            return (cur_beta, random_move);
        }
    }

    let ghost alpha_entry = cur_alpha as int;
    let ghost beta_entry = cur_beta as int;

    let next_gamestates_sorted = sort_children_by_score(all_children, color);
    proof {
        assert forall|c0: int|
            0 <= c0 < 7 && #[trigger] column_qualifies(g, color, c0) implies (exists|j: int|
            0 <= j < next_gamestates_sorted@.len() && next_gamestates_sorted@[j] == column_child(
                g,
                color,
                c0,
            )) by {
            crate::moves::lemma_children_contains(g, c0);
            assert(ch.contains(column_child(g, color, c0)));
            assert(next_gamestates_sorted@.contains(column_child(g, color, c0)));
            let jj = choose|jj: int|
                0 <= jj < next_gamestates_sorted@.len() && next_gamestates_sorted@[jj]
                    == column_child(g, color, c0);
        }
    }

    let mut best_next_gamestate: u128 = random_move;
    let mut have_best: bool = false;
    let mut i: usize = 0;
    while i < next_gamestates_sorted.len()
        invariant
            g == current_gamestate,
            valid_gamestate(g),
            color == turn_of(g),
            popcount(g) < 40,
            gv == game_value(g, color),
            has_non_losing(g, color),
            alpha0 < beta0,
            -22 <= alpha0,
            beta0 <= 22,
            alpha0 == alpha as int,
            beta0 == beta as int,
            alpha_entry <= cur_alpha as int,
            (cur_alpha as int) < beta_entry,
            cur_beta as int == beta_entry,
            beta_entry <= beta0,
            alpha0 <= alpha_entry,
            -22 <= cur_alpha as int,
            table_ok(transposition_table@),
            forall|k: u128|
                #[trigger] old(transposition_table)@.contains_key(k)
                    ==> transposition_table@.contains_key(k) && transposition_table@[k] == old(
                    transposition_table,
                )@[k],
            !was_in_transposition_table ==> !old(transposition_table)@.contains_key(g),
            *number_of_visits >= *old(number_of_visits),
            crate::board::fits_board(next_possible_moves),
            forall|r: int, c: int|
                crate::board::in_board(r, c) ==> #[trigger] crate::board::color_at(
                    next_possible_moves,
                    color,
                    r,
                    c,
                ) == non_losing_at(g, color, r, c),
            forall|r: int, c: int|
                crate::board::in_board(r, c) ==> !(#[trigger] crate::board::color_at(
                    next_possible_moves,
                    color.other(),
                    r,
                    c,
                )),
            forall|j: int|
                0 <= j < next_gamestates_sorted@.len() ==> ch.contains(
                    #[trigger] next_gamestates_sorted@[j],
                ),
            forall|j: int|
                0 <= j < ch.len() ==> valid_gamestate(#[trigger] ch[j]) && popcount(ch[j])
                    == popcount(g) + 1,
            ch == children_in_order(g),
            i <= next_gamestates_sorted@.len(),
            children_in_order(g).contains(best_next_gamestate),
            cur_alpha as int > alpha_entry ==> gv >= cur_alpha as int,
            alpha_entry > alpha0 ==> gv >= alpha_entry,
            beta_entry < beta0 ==> gv <= beta_entry,
            forall|c0: int|
                0 <= c0 < 7 && #[trigger] column_qualifies(g, color, c0) ==> (exists|j: int|
                    i <= j < next_gamestates_sorted@.len() && next_gamestates_sorted@[j]
                        == column_child(g, color, c0)) || -game_value(
                    column_child(g, color, c0),
                    color.other(),
                ) <= cur_alpha as int,
        decreases next_gamestates_sorted@.len() - i,
    {
        let next_gamestate = next_gamestates_sorted[i];
        proof {
            assert(ch.contains(next_gamestate));
            let jj = choose|jj: int| 0 <= jj < ch.len() && ch[jj] == next_gamestate;
            assert(valid_gamestate(ch[jj]) && popcount(ch[jj]) == popcount(g) + 1);
            assert(ch[jj] == next_gamestate);
            crate::moves::lemma_member_is_child(g, next_gamestate);
        }
        let ghost cx = choose|cx: int|
            0 <= cx < 7 && #[trigger] crate::moves::child_for(g, cx) is Some && next_gamestate
                == crate::moves::child_for(g, cx)->0;
        proof {
            crate::board::lemma_landing_row(g, cx);
            assert(landing_row(g, cx) >= 0);
            assert(next_gamestate == column_child(g, color, cx));
            lemma_child_filter(g, color, next_possible_moves, cx);
        }
        if next_gamestate & next_possible_moves != 0 {
            proof {
                assert(column_qualifies(g, color, cx));
                assert(turn_of(next_gamestate) == color.other()) by {
                    assert(popcount(next_gamestate) == popcount(g) + 1);
                }
            }
            let child_color = match color {
                PlayerColor::Blue => PlayerColor::Red,
                PlayerColor::Red => PlayerColor::Blue,
            };
            let ghost tt_pre = transposition_table@;
            proof {
                assert forall|k: u128|
                    #[trigger] old(transposition_table)@.contains_key(k) implies
                    tt_pre.contains_key(k) && tt_pre[k] == old(transposition_table)@[k] by {}
            }
            let neg_score: i8 = negamax(
                next_gamestate,
                -cur_beta,
                -cur_alpha,
                child_color,
                number_of_visits,
                transposition_table,
            );
            let score: i8 = -neg_score;
            let ghost cv = game_value(next_gamestate, child_color);
            proof {
                lemma_best_reply_ge(g, color, 0, cx);
                assert(gv == best_reply_value(g, color, 0));
                assert(gv >= -cv);
                assert forall|k: u128|
                    #[trigger] old(transposition_table)@.contains_key(k) implies
                    transposition_table@.contains_key(k) && transposition_table@[k] == old(
                    transposition_table,
                )@[k] by {
                    assert(tt_pre.contains_key(k) && tt_pre[k] == old(transposition_table)@[k]);
                }
                if !was_in_transposition_table && transposition_table@.contains_key(g) {
                    assert(!old(transposition_table)@.contains_key(g));
                }
            }

            if !have_best {
                best_next_gamestate = next_gamestate;
                have_best = true;
            }

            if score >= cur_beta {
                proof {
                    // the child failed low, so its value caps at the
                    // returned score and this node's value clears beta
                    assert(neg_score <= -cur_beta);
                    assert(cv <= neg_score as int);
                    assert(gv >= score as int);
                    if (score as int) < beta0 {
                        assert(beta_entry < beta0);
                        assert(gv <= beta_entry);
                        assert(gv == score as int);
                    }
                }
                return (score, best_next_gamestate);
            }
            proof {
                if score > cur_alpha {
                    // the child came back exact, so this node's value
                    // reaches the improved alpha
                    assert(-cur_beta < neg_score < -cur_alpha);
                    assert(cv == neg_score as int);
                    assert(gv >= score as int);
                } else {
                    // the child failed high: its value is at least the
                    // returned score, so this move cannot beat alpha
                    assert(neg_score >= -cur_alpha);
                    assert(cv >= neg_score as int);
                    assert(-cv <= score as int);
                }
            }
            if score > cur_alpha {
                cur_alpha = score;
                best_next_gamestate = next_gamestate;
                have_best = true;
            }
            proof {
                assert(-cv <= cur_alpha as int);
                assert forall|c0: int|
                    0 <= c0 < 7 && #[trigger] column_qualifies(g, color, c0) implies (exists|
                    j: int,
                |
                    i + 1 <= j < next_gamestates_sorted@.len() && next_gamestates_sorted@[j]
                        == column_child(g, color, c0)) || -game_value(
                    column_child(g, color, c0),
                    color.other(),
                ) <= cur_alpha as int by {
                    if column_child(g, color, c0) == next_gamestate {
                        assert(-game_value(column_child(g, color, c0), color.other()) == -cv);
                    } else {
                        if !(-game_value(column_child(g, color, c0), color.other())
                            <= cur_alpha as int) {
                            let j0 = choose|j0: int|
                                i <= j0 < next_gamestates_sorted@.len()
                                    && next_gamestates_sorted@[j0] == column_child(g, color, c0);
                            assert(j0 != i);
                        }
                    }
                }
            }
        } else {
            proof {
                assert forall|c0: int|
                    0 <= c0 < 7 && #[trigger] column_qualifies(g, color, c0) implies (exists|
                    j: int,
                |
                    i + 1 <= j < next_gamestates_sorted@.len() && next_gamestates_sorted@[j]
                        == column_child(g, color, c0)) || -game_value(
                    column_child(g, color, c0),
                    color.other(),
                ) <= cur_alpha as int by {
                    if column_child(g, color, c0) == next_gamestate {
                        lemma_child_filter(g, color, next_possible_moves, c0);
                    } else {
                        if !(-game_value(column_child(g, color, c0), color.other())
                            <= cur_alpha as int) {
                            let j0 = choose|j0: int|
                                i <= j0 < next_gamestates_sorted@.len()
                                    && next_gamestates_sorted@[j0] == column_child(g, color, c0);
                            assert(j0 != i);
                        }
                    }
                }
            }
        }
        i = i + 1;
    }
    proof {
        lemma_best_reply_le(g, color, 0, cur_alpha as int);
        assert(gv == best_reply_value(g, color, 0));
        assert(gv >= -21);
        assert(gv <= cur_alpha as int);
        if cur_alpha as int > alpha0 {
            if cur_alpha as int > alpha_entry {
                assert(gv >= cur_alpha as int);
            } else {
                assert(cur_alpha as int == alpha_entry);
                assert(gv >= alpha_entry);
            }
            assert(gv == cur_alpha as int);
        }
    }

    if !was_in_transposition_table {
        let ghost tt_pre = transposition_table@;
        transposition_table.insert(current_gamestate, cur_alpha - MIN_SCORE + 1);
        proof {
            assert(!old(transposition_table)@.contains_key(g));
            assert forall|k: u128|
                #[trigger] old(transposition_table)@.contains_key(k) implies
                transposition_table@.contains_key(k) && transposition_table@[k] == old(
                transposition_table,
            )@[k] by {
                assert(k != g);
                assert(tt_pre.contains_key(k) && tt_pre[k] == old(transposition_table)@[k]);
            }
        }
    }

    (cur_alpha, best_next_gamestate)
}


/// Some move of `color` does not lose on the spot.
pub open spec fn has_non_losing(g: u128, color: PlayerColor) -> bool {
    exists|r: int, c: int| #[trigger] non_losing_at(g, color, r, c)
}

/// Column `c` is open and its landing cell is a non-losing move.
pub open spec fn column_qualifies(g: u128, color: PlayerColor, c: int) -> bool {
    landing_row(g, c) >= 0 && non_losing_at(g, color, landing_row(g, c), c)
}

/// The position after `color` drops a token into column `c`.
pub open spec fn column_child(g: u128, color: PlayerColor, c: int) -> u128 {
    g | crate::board::move_bit(color, landing_row(g, c), c)
}

/// The exact value of a position for the mover, as the search defines it:
/// the loss score when every move loses at once, a draw two tokens short
/// of a full board, and otherwise the best negated value over the
/// non-losing replies. This is the brute-force full-tree negamax value,
/// free of windows, pruning and caching.
pub open spec fn game_value(g: u128, color: PlayerColor) -> int
    decreases 42 - popcount(g), 1int, 0int,
        via game_value_decreases
{
    if !valid_gamestate(g) {
        0
    } else if !has_non_losing(g, color) {
        -((42 - popcount(g)) / 2)
    } else if popcount(g) >= 40 {
        0
    } else {
        best_reply_value(g, color, 0)
    }
}

/// The best negated child value over the qualifying columns from `c` on;
/// `-100` when none of them qualifies.
pub open spec fn best_reply_value(g: u128, color: PlayerColor, c: int) -> int
    decreases 42 - popcount(g), 0int, 7 - c,
        via best_reply_value_decreases
{
    if !valid_gamestate(g) || c < 0 || c >= 7 {
        -100
    } else {
        let rest = best_reply_value(g, color, c + 1);
        if column_qualifies(g, color, c) {
            let v = -game_value(column_child(g, color, c), color.other());
            if v >= rest {
                v
            } else {
                rest
            }
        } else {
            rest
        }
    }
}

#[via_fn]
proof fn game_value_decreases(g: u128, color: PlayerColor) {
    if valid_gamestate(g) {
        crate::board::lemma_popcount_le_42(g);
    }
}

#[via_fn]
proof fn best_reply_value_decreases(g: u128, color: PlayerColor, c: int) {
    if valid_gamestate(g) && 0 <= c < 7 && column_qualifies(g, color, c) {
        crate::board::lemma_popcount_le_42(g);
        crate::board::lemma_landing_row(g, c);
        crate::board::lemma_popcount_hole(g, landing_row(g, c), c);
        crate::board::lemma_place_token(g, color, landing_row(g, c), c);
    }
}

/// A qualifying column's child is a legal position with one more token.
pub proof fn lemma_column_child_valid(g: u128, color: PlayerColor, c: int)
    requires
        valid_gamestate(g),
        0 <= c < 7,
        column_qualifies(g, color, c),
    ensures
        valid_gamestate(column_child(g, color, c)),
        popcount(column_child(g, color, c)) == popcount(g) + 1,
{
    let lr = landing_row(g, c);
    crate::board::lemma_landing_row(g, c);
    crate::board::lemma_place_token(g, color, lr, c);
    let h = column_child(g, color, c);
    assert forall|r2: int, c2: int|
        crate::board::in_board(r2, c2) && r2 < 5 && crate::board::occupied(h, r2, c2) implies
        crate::board::occupied(h, r2 + 1, c2) by {
        if r2 == lr && c2 == c {
            assert(crate::board::occupied(g, r2 + 1, c2));
        }
    }
}

/// A position with a non-losing move has a qualifying column.
pub proof fn lemma_has_non_losing_qualifies(g: u128, color: PlayerColor)
    requires
        valid_gamestate(g),
        has_non_losing(g, color),
    ensures
        exists|c: int| 0 <= c < 7 && #[trigger] column_qualifies(g, color, c),
{
    let (r, c) = choose|r: int, c: int| #[trigger] non_losing_at(g, color, r, c);
    crate::board::lemma_playable_is_landing(g, r, c);
    assert(column_qualifies(g, color, c));
}

/// The best reply over a suffix of the columns is at least any single
/// qualifying column's negated child value.
proof fn lemma_best_reply_ge(g: u128, color: PlayerColor, c: int, c0: int)
    requires
        valid_gamestate(g),
        popcount(g) < 42,
        0 <= c <= c0 < 7,
        column_qualifies(g, color, c0),
    ensures
        best_reply_value(g, color, c) >= -game_value(column_child(g, color, c0), color.other()),
    decreases 7 - c,
{
    if c < c0 {
        lemma_best_reply_ge(g, color, c + 1, c0);
    }
}

/// The best reply over a suffix of the columns is bounded by any bound
/// that every qualifying column's negated child value meets.
proof fn lemma_best_reply_le(g: u128, color: PlayerColor, c: int, bound: int)
    requires
        valid_gamestate(g),
        popcount(g) < 42,
        0 <= c <= 7,
        forall|c0: int|
            c <= c0 < 7 && #[trigger] column_qualifies(g, color, c0) ==> -game_value(
                column_child(g, color, c0),
                color.other(),
            ) <= bound,
    ensures
        best_reply_value(g, color, c) == -100 || best_reply_value(g, color, c) <= bound,
    decreases 7 - c,
{
    if c < 7 {
        lemma_best_reply_le(g, color, c + 1, bound);
    }
}

/// The range of the game value: loss at worst, and one ply less than the
/// board has room for at best, since the search never scores the move
/// that is taken before it starts.
pub proof fn lemma_game_value_bounds(g: u128, color: PlayerColor)
    requires
        valid_gamestate(g),
    ensures
        -((42 - popcount(g)) / 2) <= game_value(g, color),
        game_value(g, color) <= (42 - popcount(g)) / 2,
        popcount(g) <= 41 ==> game_value(g, color) <= (41 - popcount(g)) / 2,
        has_non_losing(g, color) && popcount(g) < 40 ==> game_value(g, color) >= -((40 - popcount(
            g,
        )) / 2),
    decreases 42 - popcount(g),
{
    crate::board::lemma_popcount_le_42(g);
    let pc = popcount(g) as int;
    if !has_non_losing(g, color) {
    } else if pc >= 40 {
    } else {
        lemma_has_non_losing_qualifies(g, color);
        let cq = choose|cq: int| 0 <= cq < 7 && #[trigger] column_qualifies(g, color, cq);
        lemma_column_child_valid(g, color, cq);
        lemma_game_value_bounds(column_child(g, color, cq), color.other());
        lemma_best_reply_ge(g, color, 0, cq);
        assert(game_value(g, color) >= -game_value(column_child(g, color, cq), color.other()));
        assert(-game_value(column_child(g, color, cq), color.other()) >= -((41 - (pc + 1)) / 2));
        assert forall|c0: int|
            0 <= c0 < 7 && #[trigger] column_qualifies(g, color, c0) implies -game_value(
            column_child(g, color, c0),
            color.other(),
        ) <= (42 - (pc + 1)) / 2 by {
            lemma_column_child_valid(g, color, c0);
            lemma_game_value_bounds(column_child(g, color, c0), color.other());
        }
        lemma_best_reply_le(g, color, 0, (41 - pc) / 2);
        assert(best_reply_value(g, color, 0) != -100) by {
            assert(best_reply_value(g, color, 0) >= -game_value(
                column_child(g, color, cq),
                color.other(),
            ));
            lemma_column_child_valid(g, color, cq);
            lemma_game_value_bounds(column_child(g, color, cq), color.other());
        }
    }
}

/// The non-losing word is empty exactly when no non-losing move exists.
proof fn lemma_non_losing_word(g: u128, color: PlayerColor, w: u128)
    requires
        valid_gamestate(g),
        crate::board::fits_board(w),
        forall|r: int, c: int|
            crate::board::in_board(r, c) ==> #[trigger] crate::board::color_at(w, color, r, c)
                == non_losing_at(g, color, r, c),
        forall|r: int, c: int|
            crate::board::in_board(r, c) ==> !(#[trigger] crate::board::color_at(
                w,
                color.other(),
                r,
                c,
            )),
    ensures
        (w == 0) == !has_non_losing(g, color),
{
    crate::moves::lemma_nth_zero();
    if w != 0 {
        let k = crate::board::lemma_some_bit(w);
        if k >= 84 {
            crate::board::lemma_high_bit_clear(w, k);
        }
        crate::moves::lemma_bit_decomp(k);
        let r = (k / 14) as int;
        let c = ((k % 14) / 2) as int;
        crate::moves::lemma_cell_bits_of(color, w, r, c);
        if (k % 2) as int == crate::moves::parity(color) {
            assert(k == crate::moves::mover_index(color, r, c) as u128);
            assert(non_losing_at(g, color, r, c));
        } else {
            assert(k == (crate::board::cell_index(r, c) + 1 - crate::moves::parity(
                color,
            )) as u128);
            assert(!crate::board::nth(w, k));
        }
    } else {
        if has_non_losing(g, color) {
            let (r, c) = choose|r: int, c: int| #[trigger] non_losing_at(g, color, r, c);
            crate::moves::lemma_cell_bits_of(color, w, r, c);
            assert(!crate::board::nth(0, crate::moves::mover_index(color, r, c) as u128));
        }
    }
}

/// A child passes the non-losing filter exactly when its column
/// qualifies.
proof fn lemma_child_filter(g: u128, color: PlayerColor, w: u128, cx: int)
    requires
        valid_gamestate(g),
        color == turn_of(g),
        crate::board::fits_board(w),
        forall|r: int, c: int|
            crate::board::in_board(r, c) ==> #[trigger] crate::board::color_at(w, color, r, c)
                == non_losing_at(g, color, r, c),
        forall|r: int, c: int|
            crate::board::in_board(r, c) ==> !(#[trigger] crate::board::color_at(
                w,
                color.other(),
                r,
                c,
            )),
        0 <= cx < 7,
        landing_row(g, cx) >= 0,
    ensures
        ((column_child(g, color, cx) & w) != 0) == column_qualifies(g, color, cx),
{
    let lr = landing_row(g, cx);
    crate::board::lemma_landing_row(g, cx);
    crate::board::lemma_place_token(g, color, lr, cx);
    let mb = crate::board::move_bit(color, lr, cx);
    let x = column_child(g, color, cx);
    let k = (crate::board::cell_index(lr, cx) + crate::moves::parity(color)) as u128;
    assert(mb == 1u128 << k);
    crate::board::lemma_place_bit(g, k);
    crate::board::lemma_nth_and(x, w);
    crate::moves::lemma_nth_zero();
    crate::moves::lemma_cell_bits_of(color, w, lr, cx);
    crate::moves::lemma_cell_bits_of(color, g, lr, cx);
    if column_qualifies(g, color, cx) {
        assert(crate::board::nth(w, k));
        assert(crate::board::nth(x, k));
        assert(crate::board::nth(x & w, k));
        assert(x & w != 0);
    }
    if x & w != 0 {
        let k1 = crate::board::lemma_some_bit(x & w);
        assert(crate::board::nth(x, k1) && crate::board::nth(w, k1));
        if k1 >= 84 {
            crate::board::lemma_high_bit_clear(w, k1);
        }
        crate::moves::lemma_bit_decomp(k1);
        let r1 = (k1 / 14) as int;
        let c1 = ((k1 % 14) / 2) as int;
        crate::moves::lemma_cell_bits_of(color, w, r1, c1);
        if (k1 % 2) as int != crate::moves::parity(color) {
            assert(k1 == (crate::board::cell_index(r1, c1) + 1 - crate::moves::parity(
                color,
            )) as u128);
            assert(!crate::board::nth(w, k1));
        }
        assert(k1 == crate::moves::mover_index(color, r1, c1) as u128);
        assert(non_losing_at(g, color, r1, c1));
        if crate::board::nth(g, k1) {
            crate::moves::lemma_cell_bits_of(color, g, r1, c1);
            assert(crate::board::color_at(g, color, r1, c1));
            assert(crate::board::occupied(g, r1, c1));
        }
        assert(k1 == k);
        assert(non_losing_at(g, color, lr, cx));
    }
}

} // verus!
