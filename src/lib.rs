//! Process-table telemetry: per-tick records, the parent/child forest built from
//! them, bottom-up usage aggregation, fixed-capacity rolling histories, and the
//! snapshot that one tick hands from the sampling side to the display side.
//!
//! CPU figures are carried as hundredths of a percent (`u64`), memory and swap
//! shares as hundredths of a percent of the total, so that every computation in
//! the library stays in integers.
//!
//! Alongside sit a few small utilities: integer helpers (`numeric`), character
//! conversions (`chars`), string building (`text`) and CNP validation (`cnp`).
use vstd::prelude::*;

pub mod aggregate;
pub mod chars;
pub mod cnp;
pub mod forest;
pub mod history;
pub mod numeric;
pub mod order;
pub mod record;
pub mod sample;
pub mod snapshot;
pub mod text;

verus! {

} // verus!
