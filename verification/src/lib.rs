//! Codec for ISO 8601-style duration strings.
//!
//! A duration is either a whole number of weeks (`P10W`) or a combination of
//! calendar fields and clock fields (`P3Y6M4DT12H30M5S`). [`Duration::parse`]
//! turns text into a [`Duration`] and [`Duration::format`] renders it back in
//! canonical form, omitting zero-valued fields.

pub mod duration;
pub mod laws;
pub mod text;

pub use duration::Duration;
pub use duration::ParseError;
