//! The 2023 puzzles.
pub mod workflows;
pub mod beams;
pub mod garden;
pub mod almanac;
pub mod pulses;
pub mod sequences;
pub mod scratchcards;
pub mod lenses;
pub mod pipes;
pub mod springs;
pub mod galaxies;
pub mod trebuchet;
pub mod mirrors;
pub mod engine;
pub mod cubes;
