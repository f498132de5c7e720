//! Exhaustiveness and usefulness checking of pattern matches, after Maranget's
//! "Warnings for pattern matching" (2007).
pub mod pattern;
pub mod matrix;
pub mod useful;
pub mod exhaustive;
pub mod check;
pub mod laws;
