//! The LZ4 block codec of `lzzzz`, as seen by the verified code.
//!
//! Compressed blocks are opaque to the proofs: the bytes that a compressor
//! writes are named by a spec function of its inputs, and the only facts stated
//! about them are those that the LZ4 documentation gives (compression into a
//! buffer of `LZ4_compressBound` bytes succeeds, and decoding a complete block
//! gives back the input).

use lzzzz::{lz4, lz4_hc};
use vstd::prelude::*;

verus! {

/// Largest input that an LZ4 block may hold.
pub const LZ4_MAX_INPUT_SIZE: usize = 0x7E00_0000;

/// Largest buffer length handed to the C library, whose lengths are `int`s.
pub const LZ4_MAX_BUFFER: usize = 0x7FFF_FFFF;

/// The bytes that `lzzzz::lz4::compress` writes for `src` at `acceleration`,
/// given a destination of at least `lz4_compress_bound(src.len())` bytes.
pub uninterp spec fn lz4_fast_compressed(src: Seq<u8>, acceleration: i32) -> Seq<u8>;

/// The bytes that `lzzzz::lz4_hc::compress` writes for `src` at `level`,
/// given a destination of at least `lz4_compress_bound(src.len())` bytes.
pub uninterp spec fn lz4_hc_compressed(src: Seq<u8>, level: i32) -> Seq<u8>;

/// What `lzzzz::lz4::decompress_partial(src, dst, original_size)` decodes into a
/// destination of `capacity` bytes: the decoded bytes, or `None` where it fails.
pub uninterp spec fn lz4_partial_decompressed(src: Seq<u8>, original_size: usize, capacity: usize) -> Option<Seq<u8>>;

/// `LZ4_compressBound`: the worst-case size of a compressed block of `n` bytes,
/// or `0` where `n` is too large to compress.
pub open spec fn lz4_compress_bound(n: nat) -> nat {
    if n <= LZ4_MAX_INPUT_SIZE {
        n + n / 255 + 16
    } else {
        0
    }
}

/// Whether `compressed` decodes back to `original`: whenever the decoder is
/// asked for at least `original.len()` bytes into a buffer that holds them; and,
/// with any bytes after the block, whenever it is asked for exactly
/// `original.len()` bytes (lz4.h: decoding stops on reaching the target).
pub open spec fn decodes_to(compressed: Seq<u8>, original: Seq<u8>) -> bool {
    &&& forall|target: usize, capacity: usize|
        original.len() <= target <= capacity <= LZ4_MAX_BUFFER ==> #[trigger] lz4_partial_decompressed(
            compressed,
            target,
            capacity,
        ) == Some(original)
    &&& forall|extra: Seq<u8>, capacity: usize|
        original.len() <= capacity <= LZ4_MAX_BUFFER && compressed.len() + extra.len()
            <= LZ4_MAX_BUFFER ==> #[trigger] lz4_partial_decompressed(
            compressed + extra,
            original.len() as usize,
            capacity,
        ) == Some(original)
}

/// `lzzzz::lz4::max_compressed_size`: it returns `LZ4_compressBound(original_size)`.
#[verifier::external_body]
pub(crate) fn max_compressed_size(original_size: usize) -> (bound: usize)
    requires
        original_size <= LZ4_MAX_INPUT_SIZE,
    ensures
        bound == lz4_compress_bound(original_size as nat),
{
    lz4::max_compressed_size(original_size)
}

/// `lzzzz::lz4::compress`: LZ4 block compression of `src` into `dst`.
/// Claimed, as lz4.h documents: with `dst` at least `LZ4_compressBound` long the
/// call succeeds; it writes the bytes named `lz4_fast_compressed` into the front
/// of `dst` and returns their number; those bytes decode back to `src`, also
/// when followed by other bytes if exactly `src.len()` bytes are asked for.
/// The rest of `dst` is left unsaid.
#[verifier::external_body]
pub(crate) fn lz4_compress(src: &[u8], dst: &mut Vec<u8>, acceleration: i32) -> (written: Option<usize>)
    requires
        0 < src@.len() <= LZ4_MAX_INPUT_SIZE,
        lz4_compress_bound(src@.len()) <= old(dst)@.len() <= LZ4_MAX_BUFFER,
    ensures
        final(dst)@.len() == old(dst)@.len(),
        written matches Some(n) && 0 < n <= final(dst)@.len() && final(dst)@.take(n as int)
            == lz4_fast_compressed(src@, acceleration) && decodes_to(final(dst)@.take(n as int), src@),
{
    lz4::compress(src, dst.as_mut_slice(), acceleration).ok()
}

/// `lzzzz::lz4_hc::compress`: LZ4 HC block compression of `src` into `dst`.
/// Claimed, as lz4.h and lz4hc.h document: with `dst` at least
/// `LZ4_compressBound` long the call succeeds; it writes the bytes named
/// `lz4_hc_compressed` into the front of `dst` and returns their number; those
/// bytes decode back to `src`, also when followed by other bytes if exactly
/// `src.len()` bytes are asked for. The rest of `dst` is left unsaid.
#[verifier::external_body]
pub(crate) fn lz4_hc_compress(src: &[u8], dst: &mut Vec<u8>, level: i32) -> (written: Option<usize>)
    requires
        0 < src@.len() <= LZ4_MAX_INPUT_SIZE,
        lz4_compress_bound(src@.len()) <= old(dst)@.len() <= LZ4_MAX_BUFFER,
    ensures
        final(dst)@.len() == old(dst)@.len(),
        written matches Some(n) && 0 < n <= final(dst)@.len() && final(dst)@.take(n as int)
            == lz4_hc_compressed(src@, level) && decodes_to(final(dst)@.take(n as int), src@),
{
    lz4_hc::compress(src, dst.as_mut_slice(), level).ok()
}

/// `lzzzz::lz4::decompress_partial`: decodes the block `src` into `dst`, at most
/// `original_size` bytes. Claimed: the result is the one named
/// `lz4_partial_decompressed` (the number of decoded bytes, which stand at the
/// front of `dst`, or `None` on a malformed block); `dst` keeps its length.
#[verifier::external_body]
pub(crate) fn lz4_decompress_partial(src: &[u8], dst: &mut Vec<u8>, original_size: usize) -> (decoded: Option<usize>)
    ensures
        final(dst)@.len() == old(dst)@.len(),
        match lz4_partial_decompressed(src@, original_size, old(dst)@.len() as usize) {
            Some(out) => decoded matches Some(n) && n == out.len() && out.len() <= final(dst)@.len()
                && final(dst)@.take(out.len() as int) == out,
            None => decoded is None,
        },
{
    lz4::decompress_partial(src, dst.as_mut_slice(), original_size).ok()
}

} // verus!
