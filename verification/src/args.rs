//! The program's options, and the decisions taken on them before any work.

use crate::compress::{lz4_acceleration, spec_acceleration, CompressionSettings};
use crate::format::{pos_shift_for_size, spec_pos_shift, ZsoError, MAX_BLOCK_SIZE, MIN_BLOCK_SIZE};
use vstd::prelude::*;

verus! {

/// The options of a run of the program.
pub struct Args {
    /// Input file. Example: game.iso
    pub input: String,
    /// Output file. Example: game.zso (optional)
    pub output: Option<String>,
    /// Overwrite the output file if it exists.
    pub force: bool,
    /// Number of worker threads.
    pub threads: usize,
    /// LZ4 compression level (1-12).
    pub level: i32,
    /// Use plain LZ4 in place of LZ4 HC.
    pub disable_hc: bool,
    /// Size of every block of the ZSO file (2048-131072).
    pub block_size: u32,
    /// Pad the output file to a whole 2048-byte sector.
    pub hdl_fix: bool,
}

impl Args {
    /// Options within the ranges that the command line accepts.
    pub open spec fn valid(&self) -> bool {
        &&& 1 <= self.level <= 12
        &&& MIN_BLOCK_SIZE <= self.block_size <= MAX_BLOCK_SIZE
    }

    /// The compression settings for an image of `image_size` bytes.
    pub fn compression_settings(&self, image_size: u64) -> (settings: CompressionSettings)
        requires
            self.valid(),
        ensures
            settings.valid(),
            settings.block_size == self.block_size,
            settings.level == self.level,
            settings.disable_hc == self.disable_hc,
            settings.pos_shift == spec_pos_shift(image_size as nat),
    {
        CompressionSettings {
            block_size: self.block_size,
            level: self.level,
            disable_hc: self.disable_hc,
            pos_shift: pos_shift_for_size(image_size),
        }
    }

    /// The LZ4 acceleration used with `--nohc`.
    pub fn acceleration(&self) -> (acceleration: i32)
        requires
            self.valid(),
        ensures
            acceleration == spec_acceleration(self.level),
    {
        lz4_acceleration(self.level)
    }
}

/// Refuses to go on where the output file exists and overwriting it was not
/// asked for.
pub fn validate_output_file(output_exists: bool, force: bool) -> (result: Result<(), ZsoError>)
    ensures
        result == if output_exists && !force {
            Err(ZsoError::OutputExists)
        } else {
            Ok(())
        },
{
    if output_exists && !force {
        Err(ZsoError::OutputExists)
    } else {
        Ok(())
    }
}

/// The extension of the output file when none is given: `iso` for a
/// decompressed image, `zso` for a compressed one.
pub fn default_output_extension(input_is_compressed: bool) -> (extension: &'static str)
    ensures
        extension@ == if input_is_compressed {
            "iso"@
        } else {
            "zso"@
        },
{
    if input_is_compressed {
        "iso"
    } else {
        "zso"
    }
}

} // verus!
