//! Writer for MDF blocks: 8-byte aligned, zero-padded blocks with tracked
//! positions and patchable links, over an in-memory or fixed-size sink.

pub mod mdf_writer;
pub mod sink;
