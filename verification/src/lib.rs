use vstd::prelude::*;

pub mod calibration;
pub mod claw;
pub mod computer;
pub mod disk;
pub mod disk_files;
pub mod engine;
pub mod field;
pub mod guard;
pub mod keypad;
pub mod laws;
pub mod maze;
pub mod reconstruct;
pub mod reports;
pub mod robots;
pub mod search;
pub mod solve;
pub mod tally;

verus! {

} // verus!
