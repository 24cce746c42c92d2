//! A fixed-size cache of rated positions, keyed by the mirror-reduced
//! canonical form of a position.

use vstd::prelude::*;
use crate::board::{blue_at, cell_index, fits_board, in_board, nth, red_at};

verus! {

/// How many slots the table holds; an odd size spreads the keys.
pub const TABLE_SIZE: usize = 8388593;

/// The board word with the columns swapped left for right.
pub open spec fn mirror_word(g: u128) -> u128 {
    (((3541991048129292582915u128 & g) * 4096 + (14167964192517170331660u128 & g) * 256 + (
    56671856770068681326640u128 & g) * 16 + (226687427080274725306560u128 & g) + (
    906749708321098901226240u128 & g) / 16 + (3626998833284395604904960u128 & g) / 256 + (
    14507995333137582419619840u128 & g) / 4096) as u128)
}

/// What mirroring does to every cell: column `c` trades places with column
/// `6 - c`.
proof fn lemma_mirror_cells(g: u128)
    by (bit_vector)
    ensures
        forall|r: u128, c: u128|
            r < 6 && c < 7 ==> #[trigger] nth(mirror_word(g), (14 * r + 2 * c) as u128) == nth(
                g,
                (14 * r + 12 - 2 * c) as u128,
            ),
        forall|r: u128, c: u128|
            r < 6 && c < 7 ==> #[trigger] nth(mirror_word(g), (14 * r + 2 * c + 1) as u128) == nth(
                g,
                (14 * r + 13 - 2 * c) as u128,
            ),
        mirror_word(g) < 0x1000000000000000000000u128,
{
}

/// Mirroring twice gives back every board bit.
pub proof fn lemma_mirror_involution(g: u128)
    requires
        fits_board(g),
    ensures
        mirror_word(mirror_word(g)) == g,
{
    assert(mirror_word(mirror_word(g)) == g) by (bit_vector)
        requires
            g < 0x1000000000000000000000u128,
    ;
}

/// Mirrors an encoded gamestate of the standard connect four 6x7 grid at
/// the middle (fourth) column using bitwise operations.
pub fn mirror_gamestate(gamestate: u128) -> (res: u128)
    ensures
        res == mirror_word(gamestate),
        fits_board(res),
        forall|r: int, c: int|
            in_board(r, c) ==> #[trigger] blue_at(res, r, c) == blue_at(gamestate, r, 6 - c),
        forall|r: int, c: int|
            in_board(r, c) ==> #[trigger] red_at(res, r, c) == red_at(gamestate, r, 6 - c),
{
    proof {
        lemma_mirror_cells(gamestate);
        assert forall|r: int, c: int| in_board(r, c) implies (#[trigger] blue_at(
            mirror_word(gamestate),
            r,
            c,
        ) == blue_at(gamestate, r, 6 - c) && #[trigger] red_at(mirror_word(gamestate), r, c)
            == red_at(gamestate, r, 6 - c)) by {
            let rr = r as u128;
            let cc = c as u128;
            assert((14 * rr + 2 * cc) as u128 == cell_index(r, c) as u128);
            assert((14 * rr + 2 * cc + 1) as u128 == (cell_index(r, c) + 1) as u128);
            assert((14 * rr + 12 - 2 * cc) as u128 == cell_index(r, 6 - c) as u128);
            assert((14 * rr + 13 - 2 * cc) as u128 == (cell_index(r, 6 - c) + 1) as u128);
        }
    }
    proof {
        assert((3541991048129292582915u128 & gamestate) * 4096 + (14167964192517170331660u128
            & gamestate) * 256 + (56671856770068681326640u128 & gamestate) * 16 + (
        226687427080274725306560u128 & gamestate) + (906749708321098901226240u128 & gamestate) / 16
            + (3626998833284395604904960u128 & gamestate) / 256 + (14507995333137582419619840u128
            & gamestate) / 4096 < 0x1000000000000000000000) by (bit_vector);
    }
    // Move the first column to the seventh, the second to the sixth, the
    // third to the fifth, keep the fourth, and the other way around.
    (3541991048129292582915 & gamestate) * 4096 + (14167964192517170331660 & gamestate) * 256 + (
    56671856770068681326640 & gamestate) * 16 + (226687427080274725306560 & gamestate) + (
    906749708321098901226240 & gamestate) / 16 + (3626998833284395604904960 & gamestate) / 256 + (
    14507995333137582419619840 & gamestate) / 4096
}

/// One slot of the table.
struct Entry {
    gamestate: u128,
    value: i8,
}

/// An open-addressed cache from canonical positions to their rating. A
/// colliding entry simply overwrites the slot: the table is a cache, never
/// authoritative storage.
pub struct TranspositionTable {
    entries: Vec<Entry>,
    number_of_true_entries: u32,
}

impl TranspositionTable {
    /// The table always holds its full, fixed complement of slots.
    pub closed spec fn wf(self) -> bool {
        self.entries@.len() == TABLE_SIZE
    }

    /// The canonical key a position is filed under: the smaller of the
    /// position and its mirror.
    pub open spec fn canonical(gamestate: u128) -> u128 {
        if gamestate < mirror_word(gamestate) {
            gamestate
        } else {
            mirror_word(gamestate)
        }
    }

    /// The slot a position is filed in.
    pub open spec fn slot_of(gamestate: u128) -> int {
        Self::canonical(gamestate) as int % (TABLE_SIZE as int)
    }

    /// What looking a position up in the table yields.
    pub closed spec fn lookup(self, gamestate: u128) -> Option<i8> {
        if self.entries@[Self::slot_of(gamestate)].gamestate == Self::canonical(gamestate) {
            Some(self.entries@[Self::slot_of(gamestate)].value)
        } else {
            None
        }
    }

    /// Creates an empty table. The zero word is no reachable canonical
    /// key of a played position, so zeroed slots read as empty.
    pub fn new() -> (res: TranspositionTable)
        ensures
            res.wf(),
            forall|g: u128| Self::canonical(g) != 0 ==> #[trigger] res.lookup(g) is None,
    {
        let mut entries: Vec<Entry> = Vec::new();
        let mut i: usize = 0;
        while i < TABLE_SIZE
            invariant
                i <= TABLE_SIZE,
                entries@.len() == i,
                forall|j: int| 0 <= j < i ==> (#[trigger] entries@[j]).gamestate == 0,
            decreases TABLE_SIZE - i,
        {
            entries.push(Entry { gamestate: 0, value: 0 });
            i = i + 1;
        }
        TranspositionTable { entries, number_of_true_entries: 0 }
    }

    /// The slot index a gamestate is filed in.
    pub fn index(&self, gamestate: u128) -> (res: usize)
        requires
            self.wf(),
        ensures
            res == Self::slot_of(gamestate),
    {
        let m = mirror_gamestate(gamestate);
        let key = if gamestate < m {
            gamestate
        } else {
            m
        };
        (key % (TABLE_SIZE as u128)) as usize
    }

    /// Files the rating of a gamestate under its canonical key, for both
    /// the position and its mirror; whatever the slot held is overwritten.
    pub fn put(&mut self, gamestate: u128, value: i8)
        requires
            old(self).wf(),
        ensures
            final(self).wf(),
            final(self).lookup(gamestate) == Some(value),
            forall|h: u128|
                Self::slot_of(h) != Self::slot_of(gamestate) ==> #[trigger] final(self).lookup(h)
                    == old(self).lookup(h),
            forall|h: u128|
                Self::canonical(h) == Self::canonical(gamestate) ==> #[trigger] final(self).lookup(
                    h,
                ) == Some(value),
    {
        let m = mirror_gamestate(gamestate);
        // Use the minimum of the mirrored and normal gamestate as the key
        let key_gamestate = if gamestate < m {
            gamestate
        } else {
            m
        };
        let index = self.index(gamestate);
        if self.entries[index].gamestate == 0 {
            if self.number_of_true_entries < u32::MAX {
                self.number_of_true_entries = self.number_of_true_entries + 1;
            }
        }
        self.entries.set(index, Entry { gamestate: key_gamestate, value });
    }

    /// Reads the rating filed for a gamestate, shared with its mirror;
    /// `None` when its slot holds some other position.
    pub fn get(&self, gamestate: u128) -> (res: Option<i8>)
        requires
            self.wf(),
        ensures
            res == self.lookup(gamestate),
    {
        let m = mirror_gamestate(gamestate);
        let key_gamestate = if gamestate < m {
            gamestate
        } else {
            m
        };
        let index = self.index(gamestate);
        if self.entries[index].gamestate == key_gamestate {
            Some(self.entries[index].value)
        } else {
            None
        }
    }
}

} // verus!
