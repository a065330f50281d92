//! Motorsport telemetry: reading, resampling, mapping and exporting recorded channels.
//!
//! Everything here works on plain values. Opening files, talking to the database and
//! floating-point arithmetic belong to the program around the library.
use vstd::prelude::*;

pub mod cell;
pub mod channel_map;
pub mod channels;
pub mod comments;
pub mod export;
pub mod filter;
pub mod laws;
pub mod metadata;
pub mod number;
pub mod params;
pub mod paths;
pub mod pds;
pub mod sample;
pub mod samples;
pub mod schema;
pub mod source;
pub mod text;
pub mod units;
pub mod wide;

verus! {

} // verus!
