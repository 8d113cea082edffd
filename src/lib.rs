//! A ring of fixed capacity walked by successive jumps, run until the first
//! position it lands on twice, and swept over many capacities.

pub mod ring;
pub mod run;
pub mod steps;
pub mod sweep;
pub mod fill;
