//! Sliding-window minimum tracking for a stream of numeric samples.
//!
//! The tracker keeps a fixed-size circular buffer of the most recent samples
//! and reports, after every update, the smallest value currently inside the
//! window.  Samples are IEEE-754 binary64 values handled through their bit
//! patterns, so that the ordering (including the quirks of NaN and of the two
//! zeroes) is stated and verified exactly.

pub mod errors;
pub mod laws;
pub mod sample;
pub mod minimum;
pub mod text;
pub mod traits;

pub use errors::Error;
pub use errors::ErrorKind;
pub use minimum::Minimum;
pub use sample::Sample;
pub use traits::Low;
