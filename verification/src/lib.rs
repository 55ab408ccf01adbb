//! Loader and formatter for the textual and binary representations of a
//! KZG trusted setup: two fixed-shape collections of encoded curve points.
//!
//! The text format is line oriented: a decimal count of G1 points, a decimal
//! count of G2 points (which must be 65), then one hex-encoded point per line.
//! Parsing validates every structural invariant and reports a typed error.

pub mod hex;
pub mod num;
pub mod points;
pub mod setup;
pub mod text;

pub use setup::format_kzg_settings;
pub use points::{G1Points, G2Points, KzgErrors};
pub use points::{BYTES_PER_G1_POINT, BYTES_PER_G2_POINT, NUM_G1_POINTS, NUM_G2_POINTS};
