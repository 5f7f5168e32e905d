//! Reader, writer, filter and merger for the bgen binary variant-call
//! container format: header and sample-block decoding, per-variant record
//! parsing with its bit-packed genotype-probability payload, a streaming
//! filtered iterator over records, symmetric re-encoding, and multi-file
//! merging.

pub mod bgen_stream;
pub mod bits;
pub mod error;
pub mod header;
pub mod parser;
pub mod utils;
pub mod variant_data;

pub use error::BgenError;
