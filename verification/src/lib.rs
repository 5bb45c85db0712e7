//! Goal-sequence encoding with binary hypervectors: level hypervectors on a
//! pixel grid, positional binding by permutation, window encoding, majority
//! bundling, trimming of puck tracks and ranking of goals by Hamming distance.

pub mod hypervec;
pub mod random;
pub mod level_grid;
pub mod encoding;
pub mod trim;
pub mod preprocessing;
pub mod ranking;
