//! The ZSO file layout: header, shifted offset index, errors.

use crate::utils::{align_up, byte_range, le_bytes, le_value, lemma_le_bytes_of_value, push_le_bytes};
use vstd::arithmetic::power2::pow2;
use vstd::prelude::*;

verus! {

/// Size of the header, and the value stored in its size field.
pub const HEADER_SIZE: u32 = 24;

/// Format version written into the header.
pub const FORMAT_VERSION: u8 = 1;

/// Index bit that marks a block stored without compression.
pub const UNCOMPRESSED_FLAG: u32 = 0x8000_0000;

/// Index bits that hold the shifted block position.
pub const POSITION_MASK: u32 = 0x7FFF_FFFF;

/// Sector size to which the HDL fix pads the end of the file.
pub const HDL_SECTOR_SIZE: u64 = 2048;

/// Smallest and largest block sizes that the compressor accepts.
pub const MIN_BLOCK_SIZE: u32 = 2048;
pub const MAX_BLOCK_SIZE: u32 = 131072;

/// Largest position shift that the decompressor accepts: positions are 64-bit,
/// and a shift of 64 or more has no meaning on them.
pub const MAX_POS_SHIFT: u8 = 63;

/// Why a ZSO image, or a request to write one, was refused.
#[derive(Clone, Copy, Debug, PartialEq, Eq, Structural)]
pub enum ZsoError {
    /// The file is shorter than the header.
    HeaderTooShort,
    /// The file does not start with `ZISO`.
    BadMagic,
    /// The header gives a block size of zero or a position shift above `MAX_POS_SHIFT`.
    UnsupportedHeader,
    /// The file ends inside the index table.
    IndexTruncated,
    /// The first index entry is not the aligned position that follows the index.
    FirstEntryMismatch,
    /// The file size is neither the end given by the index nor that end rounded
    /// up to a whole HDL sector.
    SizeMismatch,
    /// An index entry lies before the previous one, or a block spans more than
    /// `u32::MAX` bytes.
    CorruptIndex,
    /// A block lies past the end of the file.
    DataTruncated,
    /// The LZ4 decoder refused a block.
    DecompressionFailed,
    /// The output file exists and overwriting it was not asked for.
    OutputExists,
}

/// The magic bytes `ZISO`.
pub open spec fn zso_magic() -> Seq<u8> {
    seq![0x5Au8, 0x49u8, 0x53u8, 0x4Fu8]
}

/// The position shift chosen for an image of `size` bytes.
pub open spec fn spec_pos_shift(size: nat) -> u8 {
    if size < 0x7FFF_FFFF {
        0
    } else if size < 0xFFFF_FFFF {
        1
    } else if size < 0x1_FFFF_FFFF {
        2
    } else if size < 0x3_FFFF_FFFF {
        3
    } else {
        4
    }
}

/// The shift chosen for an image of `size` bytes is the smallest `s` from 0 to
/// 4 for which `size < 2^(31 + s) - 1`, and 4 where there is none: a larger
/// shift only where the image is too large for the one below.
pub proof fn lemma_pos_shift_is_smallest(size: nat)
    ensures
        spec_pos_shift(size) <= 4,
        spec_pos_shift(size) == 4 || size < pow2((31 + spec_pos_shift(size)) as nat) - 1,
        spec_pos_shift(size) == 0 || size >= pow2((30 + spec_pos_shift(size)) as nat) - 1,
{
    vstd::arithmetic::power2::lemma2_to64();
    vstd::arithmetic::power2::lemma2_to64_rest();
}

/// Number of blocks of `block_size` bytes that cover `size` bytes.
pub open spec fn block_count(size: nat, block_size: nat) -> nat {
    if block_size == 0 {
        0
    } else {
        ((size + block_size - 1) / (block_size as int)) as nat
    }
}

/// The 24-byte header of an image of `size` bytes cut in blocks of `block_size`.
pub open spec fn spec_header(size: u64, block_size: u32, pos_shift: u8) -> Seq<u8> {
    zso_magic() + le_bytes(HEADER_SIZE as nat, 4) + le_bytes(size as nat, 8) + le_bytes(
        block_size as nat,
        4,
    ) + seq![FORMAT_VERSION, pos_shift, 0u8, 0u8]
}

/// Where the index of an image with `blocks` blocks ends.
pub open spec fn index_end(blocks: nat) -> nat {
    (HEADER_SIZE + 4 * (blocks + 1)) as nat
}

/// Where the first block of an image with `blocks` blocks starts.
pub open spec fn data_start(blocks: nat, pos_shift: u8) -> nat {
    align_up(index_end(blocks), pow2(pos_shift as nat))
}

/// The index entry for a block that starts at `pos`.
pub open spec fn index_entry(pos: u64, pos_shift: u8, stored_raw: bool) -> u32 {
    let shifted = (pos >> (pos_shift as u64)) as u32;
    if stored_raw {
        shifted | UNCOMPRESSED_FLAG
    } else {
        shifted
    }
}

/// The file position that an index entry points at.
pub open spec fn entry_offset(entry: u32, pos_shift: u8) -> u64 {
    ((entry & POSITION_MASK) as u64) << (pos_shift as u64)
}

/// Whether an index entry marks its block as stored without compression.
pub open spec fn entry_is_raw(entry: u32) -> bool {
    entry & UNCOMPRESSED_FLAG != 0
}

/// The header fields that the decompressor uses.
#[derive(Clone, Copy, Debug, PartialEq, Eq, Structural)]
pub struct ZsoHeader {
    pub original_size: u64,
    pub block_size: u32,
    pub pos_shift: u8,
}

/// The header read from the start of a file.
pub open spec fn spec_parse_header(bytes: Seq<u8>) -> Result<ZsoHeader, ZsoError> {
    if bytes.len() < HEADER_SIZE {
        Err(ZsoError::HeaderTooShort)
    } else if bytes.take(4) != zso_magic() {
        Err(ZsoError::BadMagic)
    } else {
        Ok(
            ZsoHeader {
                original_size: le_value(bytes.subrange(8, 16)) as u64,
                block_size: le_value(bytes.subrange(16, 20)) as u32,
                pos_shift: bytes[21],
            },
        )
    }
}

/// Whether the decompressor accepts the block size and position shift of a header.
pub open spec fn header_supported(header: ZsoHeader) -> bool {
    header.block_size > 0 && header.pos_shift <= MAX_POS_SHIFT
}

/// The position shift used for an image of `size` bytes: the smallest shift for
/// which the shifted positions of a file of about that size fit the index.
pub fn pos_shift_for_size(size: u64) -> (pos_shift: u8)
    ensures
        pos_shift == spec_pos_shift(size as nat),
        pos_shift <= 4,
        pos_shift == 4 || size < pow2((31 + pos_shift) as nat) - 1,
        pos_shift == 0 || size >= pow2((30 + pos_shift) as nat) - 1,
{
    proof {
        lemma_pos_shift_is_smallest(size as nat);
    }
    if size < 0x7FFF_FFFF {
        0
    } else if size < 0xFFFF_FFFF {
        1
    } else if size < 0x1_FFFF_FFFF {
        2
    } else if size < 0x3_FFFF_FFFF {
        3
    } else {
        4
    }
}

/// Number of blocks of `block_size` bytes that cover an image of `size` bytes;
/// the last one may be shorter.
pub fn total_blocks(size: u64, block_size: u32) -> (blocks: u64)
    requires
        block_size > 0,
    ensures
        blocks == block_count(size as nat, block_size as nat),
{
    let bs = block_size as u64;
    let whole = size / bs;
    let rest = size % bs;
    proof {
        let q = whole as int;
        let r = rest as int;
        let b = bs as int;
        vstd::arithmetic::div_mod::lemma_fundamental_div_mod(size as int, b);
        assert(r != 0 ==> q < u64::MAX) by (nonlinear_arith)
            requires
                size as int == b * q + r,
                0 <= r < b,
                size <= u64::MAX,
                q >= 0,
        ;
        assert((size as int + b - 1) / b == q + if r == 0 { 0int } else { 1int }) by (nonlinear_arith)
            requires
                size as int == b * q + r,
                0 <= r < b,
                b > 0,
        {
            if r == 0 {
                assert(q * b + b - 1 == q * b + (b - 1));
            } else {
                assert(q * b + r + b - 1 == (q + 1) * b + (r - 1));
            }
        }
    }
    if rest == 0 {
        whole
    } else {
        whole + 1
    }
}

/// The 24-byte header of an image of `size` bytes cut in blocks of `block_size`,
/// with its index shifted by `pos_shift`.
pub fn build_header(size: u64, block_size: u32, pos_shift: u8) -> (header: Vec<u8>)
    ensures
        header@ == spec_header(size, block_size, pos_shift),
        header@.len() == HEADER_SIZE,
{
    let mut header: Vec<u8> = Vec::new();
    header.push(0x5A);
    header.push(0x49);
    header.push(0x53);
    header.push(0x4F);
    push_le_bytes(&mut header, HEADER_SIZE as u64, 4);
    push_le_bytes(&mut header, size, 8);
    push_le_bytes(&mut header, block_size as u64, 4);
    header.push(FORMAT_VERSION);
    header.push(pos_shift);
    header.push(0);
    header.push(0);
    proof {
        reveal_with_fuel(le_bytes, 9);
    }
    assert(header@ =~= spec_header(size, block_size, pos_shift));
    header
}

/// The value of the `n` little-endian bytes of `bytes` that start at `start`.
pub fn read_le(bytes: &[u8], start: usize, n: usize) -> (value: u64)
    requires
        n <= 8,
        start + n <= bytes@.len(),
    ensures
        value == le_value(bytes@.subrange(start as int, start + n)),
{
    let len = bytes.len();
    let mut value: u64 = 0;
    let mut k: usize = n;
    while k > 0
        invariant
            len == bytes@.len(),
            k <= n <= 8,
            start + n <= bytes@.len(),
            value == le_value(bytes@.subrange(start + k, start + n)),
        decreases k,
    {
        let ghost tail = bytes@.subrange(start + k, start + n);
        let ghost whole = bytes@.subrange(start + k - 1, start + n);
        proof {
            lemma_le_bytes_of_value(tail);
            lemma_byte_range_at_most_8((n - k) as nat);
            assert(whole.drop_first() =~= tail);
        }
        let b = bytes[start + (k - 1)];
        assert(value * 256 + b < 0x1_0000_0000_0000_0000) by (nonlinear_arith)
            requires
                value < byte_range((n - k) as nat),
                byte_range((n - k) as nat) <= 0x100_0000_0000_0000,
                b < 256,
        ;
        value = value * 256 + b as u64;
        k = k - 1;
    }
    value
}

/// `256^n` for `n` up to seven is at most `2^56`.
proof fn lemma_byte_range_at_most_8(n: nat)
    requires
        n < 8,
    ensures
        byte_range(n) <= 0x100_0000_0000_0000,
{
    reveal_with_fuel(byte_range, 9);
}

/// Reads the header at the start of a ZSO file: `HeaderTooShort` where the file
/// holds fewer than 24 bytes, `BadMagic` where it does not start with `ZISO`,
/// else the original size, block size and position shift.
pub fn parse_header(bytes: &[u8]) -> (header: Result<ZsoHeader, ZsoError>)
    ensures
        header == spec_parse_header(bytes@),
{
    if bytes.len() < 24 {
        return Err(ZsoError::HeaderTooShort);
    }
    let magic_ok = bytes[0] == 0x5A && bytes[1] == 0x49 && bytes[2] == 0x53 && bytes[3] == 0x4F;
    if !magic_ok {
        assert(bytes@.take(4) != zso_magic()) by {
            if bytes@.take(4) == zso_magic() {
                assert(bytes@.take(4)[0] == bytes@[0]);
                assert(bytes@.take(4)[1] == bytes@[1]);
                assert(bytes@.take(4)[2] == bytes@[2]);
                assert(bytes@.take(4)[3] == bytes@[3]);
            }
        }
        return Err(ZsoError::BadMagic);
    }
    assert(bytes@.take(4) =~= zso_magic());
    let original_size = read_le(bytes, 8, 8);
    let block_size = read_le(bytes, 16, 4);
    proof {
        lemma_le_bytes_of_value(bytes@.subrange(16, 20));
        reveal_with_fuel(byte_range, 5);
    }
    Ok(ZsoHeader { original_size, block_size: block_size as u32, pos_shift: bytes[21] })
}

/// The index entry for a block that starts at `pos`: the position shifted right
/// by `pos_shift`, with the top bit set where the block is stored raw.
pub fn make_index_entry(pos: u64, pos_shift: u8, stored_raw: bool) -> (entry: u32)
    requires
        pos_shift < 64,
    ensures
        entry == index_entry(pos, pos_shift, stored_raw),
{
    let shifted = (pos >> (pos_shift as u64)) as u32;
    if stored_raw {
        shifted | UNCOMPRESSED_FLAG
    } else {
        shifted
    }
}

/// Whether a file whose first bytes are `header` is a ZSO file: it starts with `ZISO`.
pub fn is_zso_magic(header: &[u8]) -> (is_zso: bool)
    ensures
        is_zso == (header@.len() >= 4 && header@.take(4) == zso_magic()),
{
    if header.len() < 4 {
        return false;
    }
    let is_zso = header[0] == 0x5A && header[1] == 0x49 && header[2] == 0x53 && header[3] == 0x4F;
    proof {
        if is_zso {
            assert(header@.take(4) =~= zso_magic());
        } else if header@.take(4) == zso_magic() {
            assert(header@.take(4)[0] == header@[0]);
            assert(header@.take(4)[1] == header@[1]);
            assert(header@.take(4)[2] == header@[2]);
            assert(header@.take(4)[3] == header@[3]);
        }
    }
    is_zso
}

/// Where the first block of an image with `blocks` blocks starts: right after
/// the index, rounded up to the alignment `2^pos_shift`.
pub fn data_start_position(blocks: u64, pos_shift: u8) -> (start: u64)
    requires
        blocks <= 0x1000_0000_0000_0000,
        pos_shift <= 31,
    ensures
        start == data_start(blocks as nat, pos_shift),
{
    let end: u64 = 24 + 4 * (blocks + 1);
    proof {
        vstd::bits::lemma_u64_pow2_no_overflow(pos_shift as nat);
        vstd::arithmetic::div_mod::lemma_mod_bound(end as int, pow2(pos_shift as nat) as int);
        if pos_shift < 31 {
            vstd::arithmetic::power2::lemma_pow2_strictly_increases(pos_shift as nat, 31);
        }
        vstd::arithmetic::power2::lemma2_to64();
    }
    crate::utils::padding_calculator(pos_shift, end)
}

/// An index entry gives back the aligned position it was made from, and the
/// raw mark, when the shifted position fits the 31 position bits.
pub proof fn lemma_index_entry_roundtrip(pos: u64, pos_shift: u8, stored_raw: bool)
    requires
        pos_shift <= 31,
        (pos as nat) % pow2(pos_shift as nat) == 0,
        (pos as nat) / pow2(pos_shift as nat) < 0x8000_0000,
    ensures
        entry_offset(index_entry(pos, pos_shift, stored_raw), pos_shift) == pos,
        entry_is_raw(index_entry(pos, pos_shift, stored_raw)) == stored_raw,
        index_entry(pos, pos_shift, stored_raw) & POSITION_MASK == ((pos as nat) / pow2(
            pos_shift as nat,
        )) as u32,
        index_entry(pos, pos_shift, false) == ((pos as nat) / pow2(pos_shift as nat)) as u32,
        ((index_entry(pos, pos_shift, false) as u64) << (pos_shift as u64)) == pos,
{
    let s = pos_shift as u64;
    let unit = pow2(pos_shift as nat);
    vstd::bits::lemma_u64_shr_is_div(pos, s);
    let q = pos >> s;
    assert(q < 0x8000_0000);
    let e = q as u32;
    assert(e as u64 == q);
    assert((e | 0x8000_0000u32) & 0x7FFF_FFFFu32 == e) by (bit_vector)
        requires
            e < 0x8000_0000u32,
    ;
    assert(e & 0x7FFF_FFFFu32 == e) by (bit_vector)
        requires
            e < 0x8000_0000u32,
    ;
    assert((e | 0x8000_0000u32) & 0x8000_0000u32 != 0) by (bit_vector);
    assert(e & 0x8000_0000u32 == 0) by (bit_vector)
        requires
            e < 0x8000_0000u32,
    ;
    vstd::arithmetic::power2::lemma_pow2_pos(pos_shift as nat);
    vstd::arithmetic::div_mod::lemma_fundamental_div_mod(pos as int, unit as int);
    assert(q * unit == pos) by (nonlinear_arith)
        requires
            pos as int == unit * (pos as int / unit as int) + (pos as int) % (unit as int),
            (pos as int) % (unit as int) == 0,
            q == pos as nat / unit,
    ;
    vstd::bits::lemma_u64_shl_is_mul(q, s);
}

/// Reading the header that `spec_header` writes, in front of any bytes, gives
/// back its size, block size and position shift.
pub proof fn lemma_header_roundtrip(size: u64, block_size: u32, pos_shift: u8, rest: Seq<u8>)
    ensures
        spec_header(size, block_size, pos_shift).len() == HEADER_SIZE,
        spec_parse_header(spec_header(size, block_size, pos_shift) + rest) == Ok::<ZsoHeader, ZsoError>(
            ZsoHeader { original_size: size, block_size, pos_shift },
        ),
{
    let header = spec_header(size, block_size, pos_shift);
    let file = header + rest;
    crate::utils::lemma_byte_range_values();
    crate::utils::lemma_le_value_of_bytes(size as nat, 8);
    crate::utils::lemma_le_value_of_bytes(block_size as nat, 4);
    crate::utils::lemma_le_value_of_bytes(HEADER_SIZE as nat, 4);
    assert(file.take(4) =~= zso_magic());
    assert(file.subrange(8, 16) =~= le_bytes(size as nat, 8));
    assert(file.subrange(16, 20) =~= le_bytes(block_size as nat, 4));
    assert(file[21] == pos_shift);
}

} // verus!
