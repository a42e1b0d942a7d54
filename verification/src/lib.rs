//! Verified core of a reader/writer toolkit for ASAM MDF 4 measurement files.

pub mod blocks;
pub mod byte_ranges;
pub mod error;
pub mod fragments;
pub mod keyed;
pub mod le;
pub mod merge;
pub mod signal_ranges;
pub mod text;
pub mod types;
pub mod writer;
