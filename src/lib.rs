//! Ingest of OpenStreetMap PBF extracts into a spatial feature store: the
//! scan table of blobs, windowed passes, denormalization of ways and
//! relations, the record codecs, the coalescing write buffer, the optimizer's
//! tiling and the progress counters. Every item is verified; reading files,
//! running tasks and calling the encoder and the store are left to the caller.
use vstd::prelude::*;

pub mod varint;
pub mod error;
pub mod encoder;
pub mod value;
pub mod store;
pub mod progress;
pub mod scan;
pub mod scan_file;
pub mod denorm;
pub mod rows;
pub mod divide;
pub mod optimize;

verus! {

} // verus!
