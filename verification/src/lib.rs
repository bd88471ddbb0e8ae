//! ZSO disc-image format: block compression with LZ4, a shifted offset index,
//! and the inverse decompression, as a verified library.

pub mod codec;
pub mod types;
pub mod utils;
pub mod format;
pub mod compress;
pub mod decompress;
pub mod roundtrip;
pub mod reorder;
pub mod args;
pub mod runs;
