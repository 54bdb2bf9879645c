//! Cellular automata over three cell states {0, 1, 2}: rules given by a
//! 27-entry lookup table or by their base-3 Wolfram number, a simulator with
//! three boundary conditions, cycle finding and small state statistics.
pub mod analysis;
pub mod base3;
pub mod rule;
pub mod simulator;

pub use analysis::{detect_pattern, hamming_distance, state_counts, state_to_string, state_to_visual};
pub use rule::TernaryRule;
pub use simulator::{Boundary, CASimulator};
