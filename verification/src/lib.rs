//! Probe Syzygy endgame tablebases.
//!
//! Syzygy tables give the win/draw/loss value of chess endgame positions
//! with few pieces. This library holds the table decoder: it computes a
//! canonical index from a position's material and squares, then
//! decompresses the single stored byte at that index through a
//! Huffman-like variable-length code with sparse indexing.

pub mod bytes;
pub mod errors;
pub mod geometry;
pub mod groups;
pub mod laws;
pub mod material;
pub mod pairs;
pub mod position;
pub mod table;
pub mod tablebases;
pub mod types;

pub use errors::{ProbeError, ProbeResultExt, SyzygyError};
pub use tablebases::Tablebases;
pub use types::{Metric, Syzygy, Wdl};
