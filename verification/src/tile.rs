//! The tile: its level, its score and its display color.

use vstd::prelude::*;
use vstd::arithmetic::power2::{pow2, lemma_pow2_unfold, lemma_pow2_strictly_increases};

verus! {

/// A tile on the board, carrying its merge generation.  A fresh tile of
/// level 0 shows the number 2; each merge raises the level by one and
/// doubles the number shown.
#[derive(Debug, Clone, Copy, PartialEq, Eq, Structural)]
pub struct Tile {
    pub level: u32,
}

/// The color a tile of the given level is drawn with, as an RGB triple.
/// Each level up to 9 has a color of its own; beyond that, black.
pub open spec fn level_color(level: u32) -> (u8, u8, u8) {
    if level == 0 {
        (255u8, 255u8, 0u8)
    } else if level == 1 {
        (255u8, 69u8, 0u8)
    } else if level == 2 {
        (255u8, 0u8, 0u8)
    } else if level == 3 {
        (255u8, 0u8, 255u8)
    } else if level == 4 {
        (75u8, 0u8, 130u8)
    } else if level == 5 {
        (0u8, 0u8, 255u8)
    } else if level == 6 {
        (0u8, 255u8, 255u8)
    } else if level == 7 {
        (0u8, 255u8, 0u8)
    } else if level == 8 {
        (139u8, 69u8, 19u8)
    } else if level == 9 {
        (184u8, 134u8, 11u8)
    } else {
        (0u8, 0u8, 0u8)
    }
}

impl Tile {
    /// The color the tile is drawn with, unique per level up to 9.
    pub fn color(&self) -> (r: (u8, u8, u8))
        ensures
            r == level_color(self.level),
    {
        match self.level {
            0 => (255, 255, 0),
            1 => (255, 69, 0),
            2 => (255, 0, 0),
            3 => (255, 0, 255),
            4 => (75, 0, 130),
            5 => (0, 0, 255),
            6 => (0, 255, 255),
            7 => (0, 255, 0),
            8 => (139, 69, 19),
            9 => (184, 134, 11),
            _ => (0, 0, 0),
        }
    }

    /// The score a tile is worth: `2^(level + 1)`, so a fresh level-0 tile
    /// counts 2 and every merge doubles the worth.
    pub fn score(&self) -> (r: u32)
        requires
            self.level <= 30,
        ensures
            r == pow2((self.level + 1) as nat),
    {
        let mut r: u32 = 1;
        let mut i: u32 = 0;
        proof {
            vstd::arithmetic::power2::lemma2_to64();
        }
        while i < self.level + 1
            invariant
                i <= self.level + 1,
                self.level <= 30,
                r == pow2(i as nat),
            decreases self.level + 1 - i,
        {
            proof {
                lemma_pow2_unfold((i + 1) as nat);
                lemma_pow2_strictly_increases((i + 1) as nat, 32);
                vstd::arithmetic::power2::lemma2_to64_rest();
                vstd::arithmetic::power2::lemma2_to64();
            }
            r = r * 2;
            i = i + 1;
        }
        r
    }
}

} // verus!
