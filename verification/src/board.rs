//! The packed-bit board model.
//!
//! A position is a `u128`. The cell in row `r` (0 = top row, 5 = bottom row)
//! and column `c` (0 = leftmost) owns the bit pair at index `14*r + 2*c`:
//! the even bit holds a blue token, the odd bit a red token. Bits 84..128
//! are never set for a board.

use vstd::prelude::*;
use crate::color::PlayerColor;

verus! {

/// Mask of every blue (even) bit of the 42 cell pairs.
pub const BLUE_PLANE: u128 = 6447604371278022265099605;

/// Mask of every red (odd) bit of the 42 cell pairs.
pub const RED_PLANE: u128 = 12895208742556044530199210;

/// Mask of the even bit of all 64 pairs of a `u128`.
pub const EVEN_BITS: u128 = 0x55555555555555555555555555555555;

/// Bit `i` of a board word.
pub open spec fn nth(g: u128, i: u128) -> bool {
    (g >> i) & 1 == 1
}

/// Index of the blue bit of the cell in row `r` (0 = top) and column `c`.
pub open spec fn cell_index(r: int, c: int) -> int {
    14 * r + 2 * c
}

/// `(r, c)` names one of the 42 cells.
pub open spec fn in_board(r: int, c: int) -> bool {
    0 <= r < 6 && 0 <= c < 7
}

/// A blue token occupies the cell `(r, c)`.
pub open spec fn blue_at(g: u128, r: int, c: int) -> bool {
    nth(g, cell_index(r, c) as u128)
}

/// A red token occupies the cell `(r, c)`.
pub open spec fn red_at(g: u128, r: int, c: int) -> bool {
    nth(g, (cell_index(r, c) + 1) as u128)
}

/// A token of the given color occupies the cell `(r, c)`.
pub open spec fn color_at(g: u128, color: PlayerColor, r: int, c: int) -> bool {
    match color {
        PlayerColor::Blue => blue_at(g, r, c),
        PlayerColor::Red => red_at(g, r, c),
    }
}

/// Some token occupies the cell `(r, c)`.
pub open spec fn occupied(g: u128, r: int, c: int) -> bool {
    blue_at(g, r, c) || red_at(g, r, c)
}

/// The word has no bits outside the 84 board bits.
pub open spec fn fits_board(g: u128) -> bool {
    g < 0x1000000000000000000000u128
}

/// No cell holds both a blue and a red token: no pair of the word has both
/// of its bits set.
pub open spec fn exclusive(g: u128) -> bool {
    g & (g >> 1) & EVEN_BITS == 0
}

/// Every token rests on the bottom row or on another token.
pub open spec fn gravity(g: u128) -> bool {
    forall|r: int, c: int|
        in_board(r, c) && r < 5 && occupied(g, r, c) ==> occupied(g, r + 1, c)
}

/// A word a position may legally take.
pub open spec fn valid_gamestate(g: u128) -> bool {
    fits_board(g) && exclusive(g) && gravity(g)
}

/// A cell a token may be dropped into right now: empty, and either on the
/// bottom row or directly above an occupied cell.
pub open spec fn playable(g: u128, r: int, c: int) -> bool {
    in_board(r, c) && !occupied(g, r, c) && (r == 5 || occupied(g, r + 1, c))
}

/// Every column is filled to the top.
pub open spec fn board_full(g: u128) -> bool {
    forall|c: int| 0 <= c < 7 ==> occupied(g, 0, c)
}

/// The color whose turn it is: blue when the number of tokens is even.
pub open spec fn turn_of(g: u128) -> PlayerColor {
    if popcount(g) % 2 == 0 {
        PlayerColor::Blue
    } else {
        PlayerColor::Red
    }
}

/// Number of set bits of `g`.
pub open spec fn popcount(g: u128) -> nat
    decreases g,
{
    if g == 0 {
        0
    } else {
        popcount(g / 2) + (if g % 2 == 1 { 1nat } else { 0nat })
    }
}

/// Relies on `u128::count_ones`: the number of one bits in the binary
/// representation of the argument.
pub assume_specification[ u128::count_ones ](x: u128) -> (r: u32)
    ensures
        r == popcount(x),
;

/// Powers of four, the weight of one cell pair.
pub open spec fn pow4(n: nat) -> int
    decreases n,
{
    if n == 0 {
        1
    } else {
        4 * pow4((n - 1) as nat)
    }
}

/// A word below `pow4(n)` whose pairs never have both bits set holds at most
/// `n` set bits, and fewer when the pair `hole` is empty.
proof fn lemma_popcount_pairs(g: u128, n: nat, hole: int)
    requires
        n <= 64,
        g < pow4(n),
        g & (g >> 1) & EVEN_BITS == 0,
        hole >= 0 ==> hole < n && (g >> ((2 * hole) as u128)) & 3 == 0,
    ensures
        popcount(g) <= n,
        hole >= 0 ==> popcount(g) < n,
    decreases n,
{
    if n == 0 {
        assert(g == 0);
    } else {
        let h = g / 4;
        assert(g / 2 / 2 == g / 4 && g % 2 + 2 * ((g / 2) % 2) == g % 4 && g % 4 < 4
            && (g & (g >> 1) & EVEN_BITS == 0 ==> g % 4 != 3)
            && (g & (g >> 1) & EVEN_BITS == 0 ==> (g / 4) & ((g / 4) >> 1) & EVEN_BITS == 0)) by (bit_vector);
        assert(popcount(g) == popcount(g / 2) + (if g % 2 == 1 { 1nat } else { 0nat }));
        assert(popcount(g / 2) == popcount(h) + (if (g / 2) % 2 == 1 { 1nat } else { 0nat }));
        assert(g / 4 < pow4((n - 1) as nat)) by {
            assert(pow4(n) == 4 * pow4((n - 1) as nat));
            assert(g < 4 * pow4((n - 1) as nat) ==> g / 4 < pow4((n - 1) as nat)) by (nonlinear_arith);
        }
        if hole == 0 {
            assert((g >> ((2 * 0) as u128)) & 3 == g % 4) by {
                assert((g >> 0u128) & 3 == g % 4) by (bit_vector);
            }
            lemma_popcount_pairs(h, (n - 1) as nat, -1);
        } else if hole > 0 {
            let sh = (2 * hole) as u128;
            assert(((g / 4) >> ((sh - 2) as u128)) & 3 == 0) by (bit_vector)
                requires
                    (g >> sh) & 3 == 0 && 2 <= sh < 128,
            ;
            assert((2 * (hole - 1)) as u128 == (sh - 2) as u128);
            lemma_popcount_pairs(h, (n - 1) as nat, hole - 1);
        } else {
            lemma_popcount_pairs(h, (n - 1) as nat, -1);
        }
    }
}

/// A board word holds at most 42 tokens.
pub proof fn lemma_popcount_le_42(g: u128)
    requires
        fits_board(g),
        exclusive(g),
    ensures
        popcount(g) <= 42,
{
    assert(pow4(42) == 0x1000000000000000000000) by {
        reveal_with_fuel(pow4, 43);
    }
    lemma_popcount_pairs(g, 42, -1);
}

/// A board word with an empty cell holds fewer than 42 tokens.
pub proof fn lemma_popcount_hole(g: u128, r: int, c: int)
    requires
        fits_board(g),
        exclusive(g),
        in_board(r, c),
        !occupied(g, r, c),
    ensures
        popcount(g) < 42,
{
    assert(pow4(42) == 0x1000000000000000000000) by {
        reveal_with_fuel(pow4, 43);
    }
    let k = 7 * r + c;
    let rr = r as u128;
    let cc = c as u128;
    assert((g >> ((2 * (7 * rr + cc)) as u128)) & 3 == 0) by (bit_vector)
        requires
            rr < 6 && cc < 7,
            !nth(g, (14 * rr + 2 * cc) as u128),
            !nth(g, (14 * rr + 2 * cc + 1) as u128),
    ;
    assert((14 * rr + 2 * cc) as u128 == cell_index(r, c) as u128);
    assert((14 * rr + 2 * cc + 1) as u128 == (cell_index(r, c) + 1) as u128);
    assert((2 * (7 * rr + cc)) as u128 == (2 * k) as u128);
    lemma_popcount_pairs(g, 42, k);
}

/// Adding one bit that was clear raises the bit count by exactly one.
pub proof fn lemma_popcount_or_bit(g: u128, b: u128)
    requires
        b != 0,
        b & ((b - 1) as u128) == 0,
        g & b == 0,
    ensures
        popcount(g | b) == popcount(g) + 1,
    decreases b,
{
    if b == 1 {
        assert(g % 2 == 0 && (g | 1) % 2 == 1 && (g | 1) / 2 == g / 2 && (g | 1) != 0) by (bit_vector)
            requires
                g & 1 == 0,
        ;
        assert(popcount(g | b) == popcount((g | 1) / 2) + 1);
    } else {
        assert(b % 2 == 0 && b / 2 != 0 && (b / 2) & ((b / 2 - 1) as u128) == 0 && (g / 2) & (b / 2) == 0
            && (g | b) / 2 == (g / 2) | (b / 2) && (g | b) % 2 == g % 2 && ((g | b) != 0)) by (bit_vector)
            requires
                b != 0 && b != 1 && b & ((b - 1) as u128) == 0 && g & b == 0,
        ;
        lemma_popcount_or_bit(g / 2, b / 2);
        assert(popcount(g | b) == popcount((g | b) / 2) + (if (g | b) % 2 == 1 { 1nat } else { 0nat }));
        assert(popcount(g) == popcount(g / 2) + (if g % 2 == 1 { 1nat } else { 0nat }));
    }
}

/// Four cells in a row holding `color`, starting at `(r, c)` and stepping
/// by `(dr, dc)`.
pub open spec fn line4(g: u128, color: PlayerColor, r: int, c: int, dr: int, dc: int) -> bool {
    color_at(g, color, r, c) && color_at(g, color, r + dr, c + dc)
        && color_at(g, color, r + 2 * dr, c + 2 * dc) && color_at(g, color, r + 3 * dr, c + 3 * dc)
}

/// The four line directions, normalized: columns never step left to right
/// and rows never step upward.
pub open spec fn dir_ok(dr: int, dc: int) -> bool {
    (dr == 0 && dc == 1) || (dr == 1 && dc == 0) || (dr == 1 && dc == 1) || (dr == 1 && dc == -1)
}

/// Both endpoints of a window of four lie on the board; the two middle
/// cells then do as well.
pub open spec fn window_in_board(r: int, c: int, dr: int, dc: int) -> bool {
    in_board(r, c) && in_board(r + 3 * dr, c + 3 * dc)
}

/// Some four-in-a-row of `color` lies on the board.
pub open spec fn has_line(g: u128, color: PlayerColor) -> bool {
    exists|r: int, c: int, dr: int, dc: int|
        dir_ok(dr, dc) && window_in_board(r, c, dr, dc) && line4(g, color, r, c, dr, dc)
}

/// Who has won: checked only from the seventh token on, red before blue.
pub open spec fn winner_of(g: u128) -> Option<PlayerColor> {
    if popcount(g) < 6 {
        None
    } else if has_line(g, PlayerColor::Red) {
        Some(PlayerColor::Red)
    } else if has_line(g, PlayerColor::Blue) {
        Some(PlayerColor::Blue)
    } else {
        None
    }
}

/// The game has ended: the board is filled or somebody holds a line.
pub open spec fn game_over(g: u128) -> bool {
    popcount(g) == 42 || winner_of(g) is Some
}

/// A word below `pow4(n)` holds at most `2 * n` set bits.
proof fn lemma_popcount_width(g: u128, n: nat)
    requires
        g < pow4(n),
    ensures
        popcount(g) <= 2 * n,
    decreases n,
{
    if n == 0 {
        assert(g == 0);
    } else {
        lemma_halving(g);
        assert(popcount(g) == popcount(g / 2) + (if g % 2 == 1 { 1nat } else { 0nat }));
        assert(popcount(g / 2) == popcount(g / 4) + (if (g / 2) % 2 == 1 { 1nat } else { 0nat }));
        assert(g / 4 < pow4((n - 1) as nat)) by {
            assert(pow4(n) == 4 * pow4((n - 1) as nat));
            assert(g < 4 * pow4((n - 1) as nat) ==> g / 4 < pow4((n - 1) as nat)) by (nonlinear_arith);
        }
        lemma_popcount_width(g / 4, (n - 1) as nat);
    }
}

/// No `u128` holds more than 128 set bits.
pub proof fn lemma_popcount_le_128(g: u128)
    ensures
        popcount(g) <= 128,
{
    assert(pow4(64) == 0x100000000000000000000000000000000) by {
        reveal_with_fuel(pow4, 65);
    }
    lemma_popcount_width(g, 64);
}

/// Bits of a union are the union of the bits.
pub proof fn lemma_nth_or(a: u128, b: u128)
    by (bit_vector)
    ensures
        forall|k: u128| k < 128 ==> (#[trigger] nth(a | b, k) == (nth(a, k) || nth(b, k))),
{
}

/// Bits of an intersection are the intersection of the bits.
pub proof fn lemma_nth_and(a: u128, b: u128)
    by (bit_vector)
    ensures
        forall|k: u128| k < 128 ==> (#[trigger] nth(a & b, k) == (nth(a, k) && nth(b, k))),
{
}

/// Bits of `a & !b` are the bits of `a` that are not bits of `b`; taking
/// bits away never grows the word.
pub proof fn lemma_nth_diff(a: u128, b: u128)
    by (bit_vector)
    ensures
        forall|k: u128| k < 128 ==> (#[trigger] nth(a & !b, k) == (nth(a, k) && !nth(b, k))),
        a & !b <= a,
{
}

/// Setting the bit `k` leaves every other bit alone.
pub proof fn lemma_place_bit(g: u128, k: u128)
    requires
        k < 128,
    ensures
        forall|j: u128| j < 128 ==> (#[trigger] nth(g | (1u128 << k), j) == (nth(g, j) || j == k)),
        nth(g | (1u128 << k), k),
{
    assert(forall|j: u128|
        j < 128 ==> (#[trigger] nth(g | (1u128 << k), j) == (nth(g, j) || j == k))) by (bit_vector)
        requires
            k < 128,
    ;
}

/// Finds the index of a set bit of a non-zero word.
pub proof fn lemma_some_bit(w: u128) -> (k: u128)
    requires
        w != 0,
    ensures
        k < 128,
        nth(w, k),
    decreases w,
{
    assert((w & 1 == 1 ==> nth(w, 0)) && (w & 1 != 1 && w != 0 ==> w / 2 != 0 && w / 2 < w))
        by (bit_vector)
        requires
            w != 0,
    ;
    if w & 1 == 1 {
        0
    } else {
        let k2 = lemma_some_bit(w / 2);
        assert((k2 >= 127 ==> !nth(w / 2, k2)) && (k2 < 127 && nth(w / 2, k2) ==> nth(
            w,
            (k2 + 1) as u128,
        ))) by (bit_vector)
            requires
                nth(w / 2, k2) && k2 < 128,
        ;
        (k2 + 1) as u128
    }
}

/// A word counts zero bits exactly when it is zero.
pub proof fn lemma_popcount_zero(w: u128)
    ensures
        (popcount(w) == 0) == (w == 0),
    decreases w,
{
    if w != 0 && w % 2 == 0 {
        lemma_halving(w);
        lemma_popcount_zero(w / 2);
    }
}

/// A single bit counts one.
pub proof fn lemma_popcount_single(k: u128)
    requires
        k < 128,
    ensures
        popcount(1u128 << k) == 1,
{
    assert((1u128 << k) != 0 && (1u128 << k) & (((1u128 << k) - 1) as u128) == 0
        && 0u128 & (1u128 << k) == 0 && 0u128 | (1u128 << k) == 1u128 << k) by (bit_vector)
        requires
            k < 128,
    ;
    lemma_popcount_or_bit(0, 1u128 << k);
}

/// Clearing a set bit lowers the count by one.
pub proof fn lemma_popcount_clear_bit(w: u128, k: u128)
    requires
        k < 128,
        nth(w, k),
    ensures
        popcount(w) == popcount(w & !(1u128 << k)) + 1,
{
    let rest = w & !(1u128 << k);
    assert((w & !(1u128 << k)) | (1u128 << k) == w && (w & !(1u128 << k)) & (1u128 << k) == 0
        && (1u128 << k) != 0
        && (1u128 << k) & (((1u128 << k) - 1) as u128) == 0) by (bit_vector)
        requires
            k < 128 && nth(w, k),
    ;
    lemma_popcount_or_bit(rest, 1u128 << k);
}

/// Row of the lowest empty cell of column `c`, scanning from row `r`
/// toward the top of the board; `-1` when every scanned cell is occupied.
pub open spec fn landing_row_from(g: u128, c: int, r: int) -> int
    decreases r + 1,
{
    if r < 0 {
        -1
    } else if !occupied(g, r, c) {
        r
    } else {
        landing_row_from(g, c, r - 1)
    }
}

/// Row a token dropped into column `c` comes to rest in, or `-1` for a
/// full column.
pub open spec fn landing_row(g: u128, c: int) -> int {
    landing_row_from(g, c, 5)
}

/// The single bit a move of `color` into cell `(r, c)` sets.
pub open spec fn move_bit(color: PlayerColor, r: int, c: int) -> u128 {
    match color {
        PlayerColor::Blue => 1u128 << (cell_index(r, c) as u128),
        PlayerColor::Red => 1u128 << ((cell_index(r, c) + 1) as u128),
    }
}

/// What the landing row of a column satisfies.
pub proof fn lemma_landing_row(g: u128, c: int)
    ensures
        -1 <= landing_row(g, c) <= 5,
        landing_row(g, c) >= 0 ==> !occupied(g, landing_row(g, c), c),
        forall|r: int| landing_row(g, c) < r <= 5 ==> occupied(g, r, c),
{
    lemma_landing_row_from(g, c, 5);
}

proof fn lemma_landing_row_from(g: u128, c: int, r0: int)
    requires
        -1 <= r0 <= 5,
    ensures
        -1 <= landing_row_from(g, c, r0) <= r0,
        landing_row_from(g, c, r0) >= 0 ==> !occupied(g, landing_row_from(g, c, r0), c),
        forall|r: int| landing_row_from(g, c, r0) < r <= r0 ==> occupied(g, r, c),
    decreases r0 + 1,
{
    if r0 >= 0 && occupied(g, r0, c) {
        lemma_landing_row_from(g, c, r0 - 1);
    }
}

/// Under gravity, everything below an occupied cell is occupied.
pub proof fn lemma_gravity_chain(g: u128, r: int, c: int, r2: int)
    requires
        gravity(g),
        in_board(r, c),
        in_board(r2, c),
        occupied(g, r, c),
        r <= r2,
    ensures
        occupied(g, r2, c),
    decreases r2 - r,
{
    if r < r2 {
        lemma_gravity_chain(g, r + 1, c, r2);
    }
}

/// Under gravity, a column has at most one playable cell.
pub proof fn lemma_playable_unique(g: u128, r1: int, r2: int, c: int)
    requires
        gravity(g),
        playable(g, r1, c),
        playable(g, r2, c),
    ensures
        r1 == r2,
{
    if r1 < r2 {
        lemma_gravity_chain(g, r1 + 1, c, r2);
    } else if r2 < r1 {
        lemma_gravity_chain(g, r2 + 1, c, r1);
    }
}

/// Under gravity, the playable cell of a column is its landing row.
pub proof fn lemma_playable_is_landing(g: u128, r: int, c: int)
    requires
        gravity(g),
        playable(g, r, c),
    ensures
        landing_row(g, c) == r,
{
    lemma_landing_row(g, c);
    let lr = landing_row(g, c);
    if lr > r {
        lemma_gravity_chain(g, r + 1, c, lr);
    }
}

/// Reads whether any token occupies the cell `(r, c)`.
pub fn occupied_at(g: u128, r: i32, c: i32) -> (b: bool)
    requires
        in_board(r as int, c as int),
    ensures
        b == occupied(g, r as int, c as int),
{
    let off: u32 = (14 * r + 2 * c) as u32;
    proof {
        let rr = r as u128;
        let cc = c as u128;
        assert((((g >> ((14 * rr + 2 * cc) as u128)) & 3) != 0) == (nth(g, (14 * rr + 2 * cc) as u128)
            || nth(g, (14 * rr + 2 * cc + 1) as u128))) by (bit_vector)
            requires
                rr < 6 && cc < 7,
        ;
        assert((14 * rr + 2 * cc) as u128 == cell_index(r as int, c as int) as u128);
        assert((14 * rr + 2 * cc + 1) as u128 == (cell_index(r as int, c as int) + 1) as u128);
    }
    ((g >> (off as u128)) & 3) != 0
}

/// Placing one token on an empty cell of a well-formed board keeps the
/// board well-formed; the cell gains exactly that token and every other
/// cell keeps what it had.
pub proof fn lemma_place_token(g: u128, color: PlayerColor, r: int, c: int)
    requires
        fits_board(g),
        exclusive(g),
        in_board(r, c),
        !occupied(g, r, c),
    ensures
        fits_board(g | move_bit(color, r, c)),
        exclusive(g | move_bit(color, r, c)),
        g & move_bit(color, r, c) == 0,
        move_bit(color, r, c) != 0,
        move_bit(color, r, c) & ((move_bit(color, r, c) - 1) as u128) == 0,
        popcount(g | move_bit(color, r, c)) == popcount(g) + 1,
        forall|r2: int, c2: int|
            in_board(r2, c2) ==> (#[trigger] color_at(g | move_bit(color, r, c), color, r2, c2)
                == (color_at(g, color, r2, c2) || (r2 == r && c2 == c))),
        forall|r2: int, c2: int|
            in_board(r2, c2) ==> (#[trigger] color_at(g | move_bit(color, r, c), color.other(), r2, c2)
                == color_at(g, color.other(), r2, c2)),
        forall|r2: int, c2: int|
            in_board(r2, c2) ==> (#[trigger] occupied(g | move_bit(color, r, c), r2, c2)
                == (occupied(g, r2, c2) || (r2 == r && c2 == c))),
{
    let i = cell_index(r, c) as u128;
    let k: u128 = match color {
        PlayerColor::Blue => i,
        PlayerColor::Red => (i + 1) as u128,
    };
    let b = move_bit(color, r, c);
    assert(b == 1u128 << k);
    let rr = r as u128;
    let cc = c as u128;
    assert(i == (14 * rr + 2 * cc) as u128);
    assert((g | (1u128 << ((14 * rr + 2 * cc) as u128))) < 0x1000000000000000000000u128
        && (g | (1u128 << ((14 * rr + 2 * cc + 1) as u128))) < 0x1000000000000000000000u128
        && ((g | (1u128 << ((14 * rr + 2 * cc) as u128))) & ((g | (1u128 << ((14 * rr + 2 * cc) as u128))) >> 1)
            & EVEN_BITS == 0)
        && ((g | (1u128 << ((14 * rr + 2 * cc + 1) as u128)))
            & ((g | (1u128 << ((14 * rr + 2 * cc + 1) as u128))) >> 1) & EVEN_BITS == 0)
        && g & (1u128 << ((14 * rr + 2 * cc) as u128)) == 0
        && g & (1u128 << ((14 * rr + 2 * cc + 1) as u128)) == 0
        && (1u128 << ((14 * rr + 2 * cc) as u128)) != 0
        && (1u128 << ((14 * rr + 2 * cc + 1) as u128)) != 0
        && (1u128 << ((14 * rr + 2 * cc) as u128)) & (((1u128 << ((14 * rr + 2 * cc) as u128)) - 1) as u128) == 0
        && (1u128 << ((14 * rr + 2 * cc + 1) as u128))
            & (((1u128 << ((14 * rr + 2 * cc + 1) as u128)) - 1) as u128) == 0) by (bit_vector)
        requires
            rr < 6,
            cc < 7,
            g < 0x1000000000000000000000u128,
            g & (g >> 1) & EVEN_BITS == 0,
            !nth(g, (14 * rr + 2 * cc) as u128),
            !nth(g, (14 * rr + 2 * cc + 1) as u128),
    ;
    lemma_popcount_or_bit(g, b);
    lemma_place_bit(g, k);
    assert forall|r2: int, c2: int| in_board(r2, c2) implies (#[trigger] occupied(g | b, r2, c2)
        == (occupied(g, r2, c2) || (r2 == r && c2 == c))) by {
        let j = cell_index(r2, c2) as u128;
        assert(nth(g | b, j) == (nth(g, j) || j == k));
        assert(nth(g | b, (j + 1) as u128) == (nth(g, (j + 1) as u128) || (j + 1) as u128 == k));
    }
}

/// A word whose first `n` pairs all hold a bit counts at least `n`.
proof fn lemma_popcount_pairs_lower(g: u128, n: nat)
    requires
        n <= 64,
        forall|k: u128| k < n ==> #[trigger] ((g >> (2 * k)) & 3) != 0,
    ensures
        popcount(g) >= n,
    decreases n,
{
    if n > 0 {
        assert((g >> (2 * 0)) & 3 == g % 4 && g / 2 / 2 == g / 4 && g % 2 + 2 * ((g / 2) % 2) == g
            % 4 && g % 4 < 4) by (bit_vector);
        assert(g % 4 != 0);
        assert(popcount(g) == popcount(g / 2) + (if g % 2 == 1 { 1nat } else { 0nat }));
        assert(popcount(g / 2) == popcount(g / 4) + (if (g / 2) % 2 == 1 { 1nat } else { 0nat }));
        assert forall|k: u128| k < n - 1 implies #[trigger] (((g / 4) >> (2 * k)) & 3) != 0 by {
            assert((g >> (2 * (k + 1))) & 3 != 0);
            assert(((g / 4) >> (2 * k)) & 3 == (g >> (2 * (k + 1))) & 3) by (bit_vector)
                requires
                    k < 63,
            ;
        }
        lemma_popcount_pairs_lower(g / 4, (n - 1) as nat);
    }
}

/// A legally filled board holds exactly 42 tokens.
pub proof fn lemma_board_full_popcount(g: u128)
    requires
        valid_gamestate(g),
        board_full(g),
    ensures
        popcount(g) == 42,
{
    lemma_popcount_le_42(g);
    assert forall|k: u128| k < 42 implies #[trigger] ((g >> (2 * k)) & 3) != 0 by {
        let r = (k / 7) as int;
        let c = (k % 7) as int;
        assert(k == 7 * (k / 7) + k % 7 && k / 7 < 6 && k % 7 < 7) by (bit_vector)
            requires
                k < 42,
        ;
        lemma_gravity_chain(g, 0, c, r);
        assert(occupied(g, r, c));
        let rr = r as u128;
        let cc = c as u128;
        assert((14 * rr + 2 * cc) as u128 == cell_index(r, c) as u128);
        assert((14 * rr + 2 * cc + 1) as u128 == (cell_index(r, c) + 1) as u128);
        assert((g >> ((2 * (7 * rr + cc)) as u128)) & 3 != 0) by (bit_vector)
            requires
                rr < 6 && cc < 7,
                nth(g, (14 * rr + 2 * cc) as u128) || nth(g, (14 * rr + 2 * cc + 1) as u128),
        ;
        assert((2 * (7 * rr + cc)) as u128 == (2 * k) as u128);
    }
    lemma_popcount_pairs_lower(g, 42);
}

/// A word below the board range has no bit at or above the 84th.
pub proof fn lemma_high_bit_clear(a: u128, j: u128)
    requires
        a < 0x1000000000000000000000u128,
        84 <= j < 128,
    ensures
        !nth(a, j),
{
    assert(!nth(a, j)) by (bit_vector)
        requires
            a < 0x1000000000000000000000u128 && 84 <= j < 128,
    ;
}

/// Bitwise or does not care about the order of its operands.
pub proof fn lemma_or_comm(a: u128, b: u128)
    ensures
        a | b == b | a,
{
    assert(a | b == b | a) by (bit_vector);
}

/// How the sliding column mask starts and steps.
pub proof fn lemma_column_mask_shift(c: u128)
    requires
        c < 7,
    ensures
        3541991048129292582915u128 << 0 == 3541991048129292582915u128,
        (3541991048129292582915u128 << (2 * c)) << 2 == 3541991048129292582915u128 << (2 * (c
            + 1)),
{
    assert(3541991048129292582915u128 << 0 == 3541991048129292582915u128
        && (3541991048129292582915u128 << (2 * c)) << 2 == 3541991048129292582915u128 << (2 * (c
        + 1))) by (bit_vector)
        requires
            c < 7,
    ;
}

/// Reading the lowest cell pair of a word, and moving to the next pair.
pub proof fn lemma_low_pair_step(g: u128)
    ensures
        (g & 1 == 1) == nth(g, 0),
        (g & 2 == 2) == nth(g, 1),
        forall|j: u128| j < 126 ==> #[trigger] nth(g / 4, j) == nth(g, (j + 2) as u128),
{
    assert((g & 1 == 1) == nth(g, 0) && (g & 2 == 2) == nth(g, 1) && (forall|j: u128|
        j < 126 ==> #[trigger] nth(g / 4, j) == nth(g, (j + 2) as u128))) by (bit_vector);
}

/// Halving twice is quartering, and halving an even non-zero word shrinks
/// it without zeroing it.
pub proof fn lemma_halving(g: u128)
    ensures
        g / 2 / 2 == g / 4,
        g != 0 && g % 2 == 0 ==> g / 2 != 0 && g / 2 < g,
{
    assert(g / 2 / 2 == g / 4 && (g != 0 && g % 2 == 0 ==> g / 2 != 0 && g / 2 < g))
        by (bit_vector);
}

} // verus!
