//! Verified solutions to a collection of Advent of Code puzzles, with the
//! shared helpers they are built on.
pub mod common;
pub mod y2019;
pub mod y2022;
pub mod y2023;
pub mod text;

use vstd::prelude::*;

verus! {

} // verus!
