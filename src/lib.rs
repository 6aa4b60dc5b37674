//! Evolution of small stack programs that approximate a grayscale image.
//!
//! The library is generic over the numeric value type of the programs: every
//! computation on values (arithmetic, trigonometry, turning values into pixels
//! or text) is handed in by the caller as a closure, and the contracts state
//! the results for every deterministic interpretation of those closures.

pub mod eval;
pub mod expr;
pub mod fitness;
pub mod mutate;
pub mod myimage;
pub mod optimize;
pub mod pixapprox;
pub mod population;
pub mod stack;
pub mod state;
