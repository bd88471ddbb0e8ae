//! Decompression: the header and index of a ZSO file checked, and its blocks
//! read back in order, LZ4 blocks decoded and raw blocks copied.

use crate::codec::{lz4_decompress_partial, lz4_partial_decompressed};
use crate::compress::seq_sum;
use crate::format::{
    block_count, data_start, entry_is_raw, entry_offset, header_supported, index_end, parse_header,
    spec_parse_header, total_blocks, ZsoError, ZsoHeader, HEADER_SIZE, POSITION_MASK,
    UNCOMPRESSED_FLAG,
};
use crate::types::{MessageBlock, QUEUE_TRANSFER_SIZE};
use crate::utils::{align_up, append_bytes, disk_words, push_zeros, u8_from_disk_to_u32};
use vstd::arithmetic::power2::pow2;
use vstd::prelude::*;

verus! {

/// The length of block `i` of an image of `size` bytes cut into blocks of
/// `block_size` bytes: a whole block, what is left for the last block, and
/// nothing past the end of the image.
pub open spec fn block_length(size: nat, block_size: nat, i: nat) -> nat {
    if size <= i * block_size {
        0
    } else if size - i * block_size < block_size {
        (size - i * block_size) as nat
    } else {
        block_size
    }
}

/// What a stored block that stands for `length` image bytes gives back: an
/// LZ4 block decoded up to `length` bytes into a buffer of `block_size` bytes,
/// or a raw block cut to `length` bytes (the alignment padding after it left
/// out).
pub open spec fn spec_decode_stored(stored: Seq<u8>, compressed: bool, block_size: u32, length: nat) -> Result<Seq<u8>, ZsoError> {
    if compressed {
        match lz4_partial_decompressed(stored, length as usize, block_size as usize) {
            Some(out) => Ok(out),
            None => Err(ZsoError::DecompressionFailed),
        }
    } else if stored.len() <= length {
        Ok(stored)
    } else {
        Ok(stored.take(length as int))
    }
}

/// The index checks that the decompressor makes before reading blocks: the
/// position bits of the first entry must give the aligned position after the
/// index (which must fit the 31 position bits), and the file must end where
/// the last entry says, or at that end rounded up to a 2048-byte sector.
pub open spec fn spec_check_index(index: Seq<u32>, pos_shift: u8, file_size: nat) -> Result<(), ZsoError> {
    let blocks = (index.len() - 1) as nat;
    let first_units = data_start(blocks, pos_shift) / pow2(pos_shift as nat);
    let end = ((index.last() as u64) << (pos_shift as u64)) as nat;
    if first_units >= 0x8000_0000 || index[0] & POSITION_MASK != first_units as u32 {
        Err(ZsoError::FirstEntryMismatch)
    } else if file_size != end && file_size != align_up(end, 2048) {
        Err(ZsoError::SizeMismatch)
    } else {
        Ok(())
    }
}

/// What block `i` of a file gives back. Its stored bytes lie from the position
/// of its entry to that of the next; the block stands for
/// `block_length(original_size, block_size, i)` image bytes.
pub open spec fn spec_block_result(file: Seq<u8>, index: Seq<u32>, header: ZsoHeader, i: int) -> Result<Seq<u8>, ZsoError> {
    let pos_shift = header.pos_shift;
    let start = entry_offset(index[i], pos_shift) as int;
    let end = entry_offset(index[i + 1], pos_shift) as int;
    if end < start || end - start > u32::MAX {
        Err(ZsoError::CorruptIndex)
    } else if end > file.len() {
        Err(ZsoError::DataTruncated)
    } else {
        spec_decode_stored(
            file.subrange(start, end),
            !entry_is_raw(index[i]),
            header.block_size,
            block_length(header.original_size as nat, header.block_size as nat, i as nat),
        )
    }
}

/// The first `k` blocks of a file given back one after another, or the error
/// of the first block that fails.
pub open spec fn spec_decode_blocks(file: Seq<u8>, index: Seq<u32>, header: ZsoHeader, k: nat) -> Result<Seq<u8>, ZsoError>
    decreases k,
{
    if k == 0 {
        Ok(Seq::empty())
    } else {
        match spec_decode_blocks(file, index, header, (k - 1) as nat) {
            Err(e) => Err(e),
            Ok(out) => match spec_block_result(file, index, header, k - 1) {
                Err(e) => Err(e),
                Ok(block) => Ok(out + block),
            },
        }
    }
}

/// The image that a ZSO file gives back, or why it is refused.
pub open spec fn spec_decompress_image(file: Seq<u8>) -> Result<Seq<u8>, ZsoError> {
    match spec_parse_header(file) {
        Err(e) => Err(e),
        Ok(header) => if !header_supported(header) {
            Err(ZsoError::UnsupportedHeader)
        } else {
            let blocks = block_count(header.original_size as nat, header.block_size as nat);
            if file.len() < index_end(blocks) {
                Err(ZsoError::IndexTruncated)
            } else {
                let index = disk_words(file.subrange(HEADER_SIZE as int, index_end(blocks) as int));
                match spec_check_index(index, header.pos_shift, file.len()) {
                    Err(e) => Err(e),
                    Ok(_) => spec_decode_blocks(file, index, header, blocks),
                }
            }
        },
    }
}

/// Gives back one stored block that stands for `length` image bytes: decodes
/// it with LZ4 into `buffer` when it is compressed, cuts it to `length` bytes
/// when it is raw, and appends the result to `out`.
fn decode_stored_block(
    stored: &[u8],
    compressed: bool,
    block_size: u32,
    length: u32,
    buffer: &mut Vec<u8>,
    out: &mut Vec<u8>,
) -> (result: Result<(), ZsoError>)
    requires
        old(buffer)@.len() == block_size,
        length <= block_size,
    ensures
        final(buffer)@.len() == block_size,
        match spec_decode_stored(stored@, compressed, block_size, length as nat) {
            Ok(block) => result is Ok && final(out)@ == old(out)@ + block,
            Err(e) => result == Err::<(), ZsoError>(e),
        },
{
    if compressed {
        let decoded = lz4_decompress_partial(stored, buffer, length as usize);
        match decoded {
            Some(n) => {
                let bytes = vstd::slice::slice_subrange(buffer.as_slice(), 0, n);
                append_bytes(out, bytes);
                Ok(())
            },
            None => Err(ZsoError::DecompressionFailed),
        }
    } else if stored.len() <= length as usize {
        append_bytes(out, stored);
        Ok(())
    } else {
        let kept = vstd::slice::slice_subrange(stored, 0, length as usize);
        assert(kept@ =~= stored@.take(length as int));
        append_bytes(out, kept);
        Ok(())
    }
}

/// The number of image bytes that block `i` stands for, as `block_length`
/// gives it.
pub fn expected_block_length(size: u64, block_size: u32, i: u64) -> (length: u32)
    ensures
        length == block_length(size as nat, block_size as nat, i as nat),
        length <= block_size,
{
    assert((i as u128) * (block_size as u128) <= 0xFFFF_FFFF_FFFF_FFFF_FFFF_FFFF) by (nonlinear_arith)
        requires
            i <= 0xFFFF_FFFF_FFFF_FFFFu64,
            block_size <= 0xFFFF_FFFFu32,
    ;
    let done: u128 = (i as u128) * (block_size as u128);
    if (size as u128) <= done {
        0
    } else if (size as u128) - done < (block_size as u128) {
        ((size as u128) - done) as u32
    } else {
        block_size
    }
}

/// Checks the index of a file of `file_size` bytes: `FirstEntryMismatch` where
/// the position bits of the first entry do not give the aligned position after
/// the index, or that position does not fit them, `SizeMismatch`
/// where the file neither ends at the position of the last entry nor at that
/// position rounded up to a 2048-byte sector.
pub fn check_index(index: &Vec<u32>, pos_shift: u8, file_size: u64) -> (result: Result<(), ZsoError>)
    requires
        1 <= index@.len(),
        HEADER_SIZE + 4 * index@.len() <= u64::MAX,
        pos_shift <= 63,
    ensures
        result == spec_check_index(index@, pos_shift, file_size as nat),
{
    let entries = index.len() as u64;
    let index_end: u64 = 24 + 4 * entries;
    proof {
        vstd::bits::lemma_u64_pow2_no_overflow(pos_shift as nat);
        vstd::bits::lemma_u64_shl_is_mul(1, pos_shift as u64);
        vstd::arithmetic::power2::lemma_pow2_pos(pos_shift as nat);
    }
    let unit: u64 = 1u64 << (pos_shift as u64);
    let whole = index_end / unit;
    let rest = index_end % unit;
    let aligned_units = if rest == 0 {
        whole
    } else {
        whole + 1
    };
    proof {
        let u = unit as int;
        let p = index_end as int;
        vstd::arithmetic::div_mod::lemma_fundamental_div_mod(p, u);
        assert(whole <= p) by {
            vstd::arithmetic::div_mod::lemma_div_is_ordered_by_denominator(p, 1, u);
        }
        crate::utils::lemma_align_up(index_end as nat, unit as nat);
        let a = align_up(index_end as nat, unit as nat) as int;
        if rest == 0 {
            assert(a == p);
        } else {
            assert(a == u * (whole + 1)) by (nonlinear_arith)
                requires
                    p == u * whole + rest,
                    a == p + (u - rest),
            ;
            vstd::arithmetic::div_mod::lemma_div_multiples_vanish(whole + 1, u);
        }
        assert(aligned_units == a / u);
    }
    if aligned_units >= 0x8000_0000 {
        return Err(ZsoError::FirstEntryMismatch);
    }
    let first_expected = aligned_units as u32;
    if index[0] & POSITION_MASK != first_expected {
        return Err(ZsoError::FirstEntryMismatch);
    }
    let last = index[index.len() - 1];
    let end = (last as u64) << (pos_shift as u64);
    if end > u64::MAX - 2047 {
        // No multiple of 2048 lies between `end` and `u64::MAX`, so the file
        // can only end at `end` itself.
        proof {
            vstd::arithmetic::div_mod::lemma_fundamental_div_mod(end as int, 2048);
            crate::utils::lemma_align_up(end as nat, 2048);
            assert(align_up(end as nat, 2048) > u64::MAX) by (nonlinear_arith)
                requires
                    end > u64::MAX - 2047,
                    align_up(end as nat, 2048) % 2048 == 0,
                    end <= align_up(end as nat, 2048),
            {
                let a = align_up(end as nat, 2048) as int;
                vstd::arithmetic::div_mod::lemma_fundamental_div_mod(a, 2048);
            }
        }
        if file_size != end {
            return Err(ZsoError::SizeMismatch);
        }
        return Ok(());
    }
    proof {
        vstd::arithmetic::div_mod::lemma_fundamental_div_mod(end as int + 2047, 2048);
        vstd::arithmetic::div_mod::lemma_fundamental_div_mod(end as int, 2048);
    }
    let rounded = ((end + 2047) / 2048) * 2048;
    proof {
        assert(rounded == align_up(end as nat, 2048)) by (nonlinear_arith)
            requires
                rounded == ((end + 2047) / 2048) * 2048,
        {
            let q = end as int / 2048;
            let r = end as int % 2048;
            vstd::arithmetic::div_mod::lemma_fundamental_div_mod(end as int, 2048);
            if r == 0 {
                assert(end as int + 2047 == 2048 * q + 2047);
            } else {
                assert(end as int + 2047 == 2048 * (q + 1) + (r - 1));
            }
        }
    }
    if file_size != end && file_size != rounded {
        return Err(ZsoError::SizeMismatch);
    }
    Ok(())
}

/// Once a block fails, every longer run of blocks fails with the same error.
pub proof fn lemma_decode_blocks_error_stays(file: Seq<u8>, index: Seq<u32>, header: ZsoHeader, k: nat, m: nat)
    requires
        k <= m,
        spec_decode_blocks(file, index, header, k) is Err,
    ensures
        spec_decode_blocks(file, index, header, m) == spec_decode_blocks(file, index, header, k),
    decreases m - k,
{
    if k < m {
        lemma_decode_blocks_error_stays(file, index, header, k, (m - 1) as nat);
    }
}

/// The position that an index entry points at, for a shift below 64 (bits
/// shifted past the 64th are lost, as with `<<` on `u64`).
fn entry_position(entry: u32, pos_shift: u8) -> (position: u64)
    requires
        pos_shift <= 63,
    ensures
        position == entry_offset(entry, pos_shift),
{
    let masked = (entry & POSITION_MASK) as u64;
    masked << (pos_shift as u64)
}

/// Decompresses a whole ZSO file: reads and checks the header and the index,
/// then gives back every block in order, each read at the position of its
/// entry, LZ4 blocks decoded and raw blocks cut to the image bytes they stand
/// for. Fails, with the error `spec_decompress_image` names, on a short or
/// foreign file, an unsupported header, an index that does not match the file,
/// a block past the end of the file, or a block that LZ4 refuses.
pub fn decompress_image(file: &[u8]) -> (image: Result<Vec<u8>, ZsoError>)
    ensures
        match spec_decompress_image(file@) {
            Ok(data) => image matches Ok(v) && v@ == data,
            Err(e) => image matches Err(x) && x == e,
        },
{
    let header = match parse_header(file) {
        Ok(h) => h,
        Err(e) => return Err(e),
    };
    if header.block_size == 0 || header.pos_shift > crate::format::MAX_POS_SHIFT {
        return Err(ZsoError::UnsupportedHeader);
    }
    let blocks = total_blocks(header.original_size, header.block_size);
    let len = file.len();
    let available = ((len - 24) / 4) as u64;
    if blocks >= available {
        proof {
            assert(len < index_end(blocks as nat)) by (nonlinear_arith)
                requires
                    blocks >= available,
                    available == (len - 24) / 4,
                    len >= 24,
            ;
        }
        return Err(ZsoError::IndexTruncated);
    }
    let n = blocks as usize;
    let index_stop = 24 + 4 * (n + 1);
    assert(index_stop <= len) by (nonlinear_arith)
        requires
            n < (len - 24) / 4,
            index_stop == 24 + 4 * (n + 1),
            len >= 24,
    ;
    let index_bytes = vstd::slice::slice_subrange(file, 24, index_stop);
    let index = u8_from_disk_to_u32(index_bytes);
    assert(index@.len() == n + 1);
    match check_index(&index, header.pos_shift, len as u64) {
        Ok(()) => {},
        Err(e) => return Err(e),
    }
    assert(spec_decompress_image(file@) == spec_decode_blocks(file@, index@, header, n as nat));
    let mut buffer: Vec<u8> = Vec::new();
    push_zeros(&mut buffer, header.block_size as usize);
    let mut out: Vec<u8> = Vec::new();
    let mut i: usize = 0;
    while i < n
        invariant
            i <= n,
            n + 1 == index@.len(),
            len == file@.len(),
            header.pos_shift <= 63,
            buffer@.len() == header.block_size,
            spec_decode_blocks(file@, index@, header, i as nat) == Ok::<Seq<u8>, ZsoError>(out@),
            spec_decompress_image(file@) == spec_decode_blocks(file@, index@, header, n as nat),
        decreases n - i,
    {
        let start = entry_position(index[i], header.pos_shift);
        let end = entry_position(index[i + 1], header.pos_shift);
        let raw = index[i] & UNCOMPRESSED_FLAG != 0;
        if end < start || end - start > 0xFFFF_FFFF {
            proof {
                lemma_decode_blocks_error_stays(file@, index@, header, (i + 1) as nat, n as nat);
            }
            return Err(ZsoError::CorruptIndex);
        }
        if end > len as u64 {
            proof {
                lemma_decode_blocks_error_stays(file@, index@, header, (i + 1) as nat, n as nat);
            }
            return Err(ZsoError::DataTruncated);
        }
        let stored = vstd::slice::slice_subrange(file, start as usize, end as usize);
        let length = expected_block_length(header.original_size, header.block_size, i as u64);
        match decode_stored_block(stored, !raw, header.block_size, length, &mut buffer, &mut out) {
            Ok(()) => {},
            Err(e) => {
                proof {
                    lemma_decode_blocks_error_stays(file@, index@, header, (i + 1) as nat, n as nat);
                }
                return Err(e);
            },
        }
        i = i + 1;
    }
    Ok(out)
}

/// What a run of stored blocks gives back, where the run starts at block
/// `first_block` of an image of `image_size` bytes: block `i` is read from
/// `data` at the total of the stored lengths before it, and stands for
/// `block_length(image_size, block_size, first_block + i)` bytes; a block that
/// does not fit `data` is `CorruptIndex`.
pub open spec fn spec_decompress_chunk(
    compressed: Seq<bool>,
    sizes: Seq<u32>,
    data: Seq<u8>,
    block_size: u32,
    image_size: u64,
    first_block: nat,
    k: nat,
) -> Result<Seq<u8>, ZsoError>
    decreases k,
{
    if k == 0 {
        Ok(Seq::empty())
    } else {
        match spec_decompress_chunk(compressed, sizes, data, block_size, image_size, first_block, (k - 1) as nat) {
            Err(e) => Err(e),
            Ok(out) => {
                let offset = seq_sum(sizes.take(k - 1));
                let size = sizes[k - 1] as nat;
                if offset + size > data.len() {
                    Err(ZsoError::CorruptIndex)
                } else {
                    match spec_decode_stored(
                        data.subrange(offset as int, (offset + size) as int),
                        compressed[k - 1],
                        block_size,
                        block_length(image_size as nat, block_size as nat, (first_block + k - 1) as nat),
                    ) {
                        Err(e) => Err(e),
                        Ok(block) => Ok(out + block),
                    }
                }
            },
        }
    }
}

/// Once a block of a run fails, every longer run fails with the same error.
pub proof fn lemma_decompress_chunk_error_stays(
    compressed: Seq<bool>,
    sizes: Seq<u32>,
    data: Seq<u8>,
    block_size: u32,
    image_size: u64,
    first_block: nat,
    k: nat,
    m: nat,
)
    requires
        k <= m,
        spec_decompress_chunk(compressed, sizes, data, block_size, image_size, first_block, k) is Err,
    ensures
        spec_decompress_chunk(compressed, sizes, data, block_size, image_size, first_block, m)
            == spec_decompress_chunk(compressed, sizes, data, block_size, image_size, first_block, k),
    decreases m - k,
{
    if k < m {
        lemma_decompress_chunk_error_stays(
            compressed,
            sizes,
            data,
            block_size,
            image_size,
            first_block,
            k,
            (m - 1) as nat,
        );
    }
}

/// Gives back the blocks of a message read by the reader, whose first block is
/// block `first_block` of an image of `image_size` bytes: each LZ4 block
/// decoded into a buffer of `block_size` bytes, each raw block cut to the image
/// bytes it stands for, one after another, in a message with the same `id`.
pub fn decompress_chunk(message: &MessageBlock, block_size: u32, image_size: u64, first_block: u64) -> (out: Result<MessageBlock, ZsoError>)
    requires
        message.compressed@.len() == message.blocksize@.len(),
        first_block + message.compressed@.len() <= u64::MAX,
    ensures
        match spec_decompress_chunk(
            message.compressed@,
            message.blocksize@,
            message.data@,
            block_size,
            image_size,
            first_block as nat,
            message.compressed@.len(),
        ) {
            Ok(data) => out matches Ok(m) && m.id == message.id && m.data@ == data
                && m.compressed@.len() == 0 && m.blocksize@.len() == 0,
            Err(e) => out matches Err(x) && x == e,
        },
{
    let n = message.compressed.len();
    let len = message.data.len();
    let mut buffer: Vec<u8> = Vec::new();
    push_zeros(&mut buffer, block_size as usize);
    let mut data: Vec<u8> = Vec::new();
    let mut offset: usize = 0;
    let mut i: usize = 0;
    while i < n
        invariant
            i <= n,
            n == message.compressed@.len(),
            n == message.blocksize@.len(),
            first_block + n <= u64::MAX,
            len == message.data@.len(),
            buffer@.len() == block_size,
            offset == seq_sum(message.blocksize@.take(i as int)),
            offset <= len,
            spec_decompress_chunk(
                message.compressed@,
                message.blocksize@,
                message.data@,
                block_size,
                image_size,
                first_block as nat,
                i as nat,
            ) == Ok::<Seq<u8>, ZsoError>(data@),
        decreases n - i,
    {
        let size = message.blocksize[i] as usize;
        if size > len - offset {
            proof {
                lemma_decompress_chunk_error_stays(
                    message.compressed@,
                    message.blocksize@,
                    message.data@,
                    block_size,
                    image_size,
                    first_block as nat,
                    (i + 1) as nat,
                    n as nat,
                );
            }
            return Err(ZsoError::CorruptIndex);
        }
        let stored = vstd::slice::slice_subrange(message.data.as_slice(), offset, offset + size);
        let length = expected_block_length(image_size, block_size, first_block + i as u64);
        match decode_stored_block(stored, message.compressed[i], block_size, length, &mut buffer, &mut data) {
            Ok(()) => {},
            Err(e) => {
                proof {
                    lemma_decompress_chunk_error_stays(
                        message.compressed@,
                        message.blocksize@,
                        message.data@,
                        block_size,
                        image_size,
                        first_block as nat,
                        (i + 1) as nat,
                        n as nat,
                    );
                }
                return Err(e);
            },
        }
        proof {
            let sizes = message.blocksize@;
            assert(sizes.take(i + 1).drop_last() =~= sizes.take(i as int));
        }
        offset = offset + size;
        i = i + 1;
    }
    proof {
        assert(message.compressed@.len() == n);
    }
    Ok(MessageBlock { id: message.id, compressed: Vec::new(), blocksize: Vec::new(), data })
}

/// How many blocks one message of the reader carries: as many as fit
/// `QUEUE_TRANSFER_SIZE` uncompressed, and at least one.
pub fn queue_max_blocks(block_size: u32) -> (blocks: usize)
    requires
        block_size > 0,
    ensures
        blocks == if (QUEUE_TRANSFER_SIZE as int) / (block_size as int) == 0 {
            1
        } else {
            (QUEUE_TRANSFER_SIZE as int) / (block_size as int)
        },
{
    let blocks = QUEUE_TRANSFER_SIZE / (block_size as usize);
    if blocks == 0 {
        1
    } else {
        blocks
    }
}

/// How many blocks the reader takes from block `current` on: the rest, or
/// `max_blocks` if that is fewer.
pub open spec fn readable_blocks(total: nat, current: nat, max_blocks: nat) -> nat {
    if total - current < max_blocks {
        (total - current) as nat
    } else {
        max_blocks
    }
}

/// Whether the entries from `current` to `current + count` never go back, and
/// the last of them does not lie before the first.
pub open spec fn run_ordered(index: Seq<u32>, pos_shift: u8, current: int, count: int) -> bool {
    &&& entry_offset(index[current], pos_shift) <= entry_offset(index[current + count], pos_shift)
    &&& forall|i: int|
        0 <= i < count ==> entry_offset(#[trigger] index[current + i], pos_shift) <= entry_offset(
            index[current + i + 1],
            pos_shift,
        )
}

/// What the reader sends for a run of blocks, before the bytes are read.
pub struct ChunkPlan {
    /// Position in the file of the first stored byte of the run.
    pub read_start: u64,
    /// Number of stored bytes that the run spans.
    pub read_length: u64,
    /// The block after the run.
    pub next_block: usize,
    /// The message, with a flag and a stored length per block and no data yet.
    pub message: MessageBlock,
}

/// Plans the next read of the reader: the run of at most `max_blocks` blocks
/// from `current_block` on, where its stored bytes start and how many they are, and per block whether it is
/// compressed and its stored length (the distance to the next entry, cut to 32
/// bits). `CorruptIndex` where an entry of the run lies before the one it follows.
pub fn plan_chunk(index: &Vec<u32>, pos_shift: u8, current_block: usize, max_blocks: usize, id: usize) -> (plan: Result<ChunkPlan, ZsoError>)
    requires
        current_block < index@.len() - 1,
        max_blocks > 0,
        pos_shift <= 63,
    ensures
        ({
            let count = readable_blocks((index@.len() - 1) as nat, current_block as nat, max_blocks as nat) as int;
            let start = entry_offset(index@[current_block as int], pos_shift);
            let end = entry_offset(index@[current_block + count], pos_shift);
            match plan {
                Ok(p) => {
                    &&& run_ordered(index@, pos_shift, current_block as int, count)
                    &&& p.read_start == start
                    &&& p.read_length == end - start
                    &&& p.next_block == current_block + count
                    &&& p.message.id == id
                    &&& p.message.data@.len() == 0
                    &&& p.message.compressed@ == Seq::new(
                        count as nat,
                        |i: int| !entry_is_raw(index@[current_block + i]),
                    )
                    &&& p.message.blocksize@ == Seq::new(
                        count as nat,
                        |i: int|
                            #[verifier::truncate]
                            ((entry_offset(index@[current_block + i + 1], pos_shift) - entry_offset(
                                index@[current_block + i],
                                pos_shift,
                            )) as u32),
                    )
                },
                Err(e) => e == ZsoError::CorruptIndex && !run_ordered(
                    index@,
                    pos_shift,
                    current_block as int,
                    count,
                ),
            }
        }),
{
    let total = index.len() - 1;
    let count = if total - current_block < max_blocks {
        total - current_block
    } else {
        max_blocks
    };
    let start = entry_position(index[current_block], pos_shift);
    let end = entry_position(index[current_block + count], pos_shift);
    if end < start {
        return Err(ZsoError::CorruptIndex);
    }
    let mut compressed: Vec<bool> = Vec::new();
    let mut blocksize: Vec<u32> = Vec::new();
    let mut i: usize = 0;
    while i < count
        invariant
            i <= count,
            total == index@.len() - 1,
            count == readable_blocks(total as nat, current_block as nat, max_blocks as nat),
            current_block + count <= total,
            pos_shift <= 63,
            forall|j: int|
                0 <= j < i ==> entry_offset(#[trigger] index@[current_block + j], pos_shift)
                    <= entry_offset(index@[current_block + j + 1], pos_shift),
            compressed@ == Seq::new(i as nat, |j: int| !entry_is_raw(index@[current_block + j])),
            blocksize@ == Seq::new(
                i as nat,
                |j: int|
                    #[verifier::truncate]
                    ((entry_offset(index@[current_block + j + 1], pos_shift) - entry_offset(
                        index@[current_block + j],
                        pos_shift,
                    )) as u32),
            ),
        decreases count - i,
    {
        let entry = index[current_block + i];
        let here = entry_position(entry, pos_shift);
        let next = entry_position(index[current_block + i + 1], pos_shift);
        if next < here {
            assert(!(entry_offset(index@[current_block + i as int], pos_shift) <= entry_offset(
                index@[current_block + i + 1],
                pos_shift,
            )));
            return Err(ZsoError::CorruptIndex);
        }
        compressed.push(entry & UNCOMPRESSED_FLAG == 0);
        blocksize.push(#[verifier::truncate] ((next - here) as u32));
        proof {
            assert(compressed@ =~= Seq::new(
                (i + 1) as nat,
                |j: int| !entry_is_raw(index@[current_block + j]),
            ));
            assert(blocksize@ =~= Seq::new(
                (i + 1) as nat,
                |j: int|
                    #[verifier::truncate]
                    ((entry_offset(index@[current_block + j + 1], pos_shift) - entry_offset(
                        index@[current_block + j],
                        pos_shift,
                    )) as u32),
            ));
        }
        i = i + 1;
    }
    Ok(
        ChunkPlan {
            read_start: start,
            read_length: end - start,
            next_block: current_block + count,
            message: MessageBlock { id, compressed, blocksize, data: Vec::new() },
        },
    )
}

} // verus!
