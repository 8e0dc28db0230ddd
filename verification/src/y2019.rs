//! The 2019 puzzles.
pub mod fft;
