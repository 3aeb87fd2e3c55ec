//! A small two-dimensional gravity simulator: point masses pull on each other
//! under Newton's law of gravitation and are advanced tick by tick.
//!
//! All quantities (positions, velocities, forces, masses, the zoom factor)
//! are fixed-point numbers held in `i64` thousandths of a unit
//! ("milli-units").  The arithmetic saturates at a documented span instead of
//! overflowing, so every operation is total and exactly specified.

pub mod fixed;
pub mod maths;
pub mod physics;
pub mod situation;

pub use situation::Mark;
pub use situation::Situation;
