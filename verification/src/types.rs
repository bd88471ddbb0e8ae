//! Shared constants and the message that carries a run of blocks between stages.

use vstd::prelude::*;

verus! {

/// Number of messages that a queue between two stages holds.
pub const QUEUE_SIZE: usize = 32;

/// Bytes of the image carried by one message.
pub const QUEUE_TRANSFER_SIZE: usize = 2 * 1024 * 1024;

/// LZ4 acceleration used at compression level 1; level 12 maps to `0`.
pub const LZ4_MAX_ACCELERATION: i32 = 2000;

/// A run of consecutive blocks exchanged between the reader, the workers and
/// the writer. `id` orders the runs; `compressed[i]` and `blocksize[i]`
/// describe the `i`-th block, whose bytes stand one after another in `data`.
pub struct MessageBlock {
    pub id: usize,
    pub compressed: Vec<bool>,
    pub blocksize: Vec<u32>,
    pub data: Vec<u8>,
}

} // verus!
