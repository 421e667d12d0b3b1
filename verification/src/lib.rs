//! The integer side of statistics on IEEE 754 double-precision numbers.
//!
//! A sample is a slice of [`Double`]s, each a number held by its 64-bit
//! pattern, so that everything here is integer arithmetic: the order of the
//! numbers, which is the order that IEEE 754 gives them; the rank of each
//! position of a sample and the sort that finds it; the median, which is the
//! number at the middle rank; and the divisor of a dispersion.
pub mod dispersion;
pub mod double;
pub mod median;
pub mod rank;

pub use dispersion::dispersion_divisor;
pub use double::Double;
pub use median::median;
pub use rank::sorted_positions;
