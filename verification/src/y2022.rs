//! The 2022 puzzles.
pub mod calories;
pub mod rochambeau;
pub mod rucksack;
pub mod cleanup;
pub mod stacks;
pub mod streams;
pub mod disk;
pub mod trees;
pub mod rope;
pub mod tube;
pub mod monkey_math;
pub mod heat;
pub mod monkeys;
pub mod elves;
pub mod mix;
pub mod sand;
pub mod jungle;
pub mod valves;
pub mod climb;
pub mod distress;
pub mod lava;
pub mod beacon;
