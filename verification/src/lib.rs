//! A word-search puzzle engine: words are normalised, placed on a square
//! letter grid along straight lines, and the remaining cells are filled with
//! frequency-weighted letters.

pub mod difficulty;
pub mod direction;
pub mod filler;
pub mod generator;
pub mod grid;
pub mod input;
pub mod random;
pub mod text;
pub mod word;
