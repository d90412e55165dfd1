//! Small puzzle solvers, each reading a text input and computing two answers.
//!
//! The centre of the crate is an exhaustive operator search: `combination`
//! enumerates every assignment of operators to the gaps between operands by
//! mixed-radix counting, and `calibration` folds each assignment left to
//! right to decide whether a target value is reachable. The other modules
//! hold the smaller puzzles and `text` the reading of their inputs.
pub mod combination;
pub mod calibration;

pub mod antennas;
pub mod location_lists;
pub mod patrol;
pub mod print_order;
pub mod program;
pub mod reports;
pub mod word_search;

pub mod counting;
pub mod text;
