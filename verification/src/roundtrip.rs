//! What decompression gives back of a compressed image.

use crate::codec::{decodes_to, lz4_partial_decompressed, LZ4_MAX_BUFFER};
use crate::compress::{
    block_offsets, chunk_blocks, chunk_data, chunk_decodes, chunk_flags, chunk_sizes,
    hdl_padding, image_settings, keeps_compressed, lemma_block_offsets,
    lemma_block_offsets_aligned, lemma_chunk_lengths,
    lemma_stored_block_len, lz4_form, padding_needed, seq_sum, spec_compress_image,
    spec_index_table, stored_block, stored_blocks, stored_payload, CompressionSettings,
};
use crate::decompress::{
    block_length, spec_block_result, spec_check_index, spec_decode_blocks, spec_decompress_image,
};
use crate::format::{
    block_count, data_start, entry_is_raw, entry_offset, header_supported, index_end, index_entry, lemma_header_roundtrip,
    lemma_index_entry_roundtrip, spec_header, spec_parse_header, ZsoError, ZsoHeader,
};
use crate::utils::{
    align_up, concat, disk_bytes, disk_words, lemma_align_up, lemma_disk_words_of_disk_bytes,
    lemma_split_blocks, split_blocks, zeros,
};
use vstd::arithmetic::power2::pow2;
use vstd::prelude::*;

verus! {

/// The parts of a run stand in their concatenation at the offsets that their
/// lengths give.
pub proof fn lemma_concat_slices(parts: Seq<Seq<u8>>, sizes: Seq<u32>, start: nat)
    requires
        sizes.len() == parts.len(),
        forall|i: int| 0 <= i < parts.len() ==> (#[trigger] parts[i]).len() == sizes[i],
    ensures
        concat(parts).len() == block_offsets(start, sizes).last() - start,
        forall|i: int|
            0 <= i < parts.len() ==> concat(parts).subrange(
                block_offsets(start, sizes)[i] - start,
                block_offsets(start, sizes)[i + 1] - start,
            ) == #[trigger] parts[i],
    decreases parts.len(),
{
    lemma_block_offsets(start, sizes);
    if parts.len() > 0 {
        let k = parts.len() - 1;
        let before_parts = parts.drop_last();
        let before_sizes = sizes.drop_last();
        lemma_concat_slices(before_parts, before_sizes, start);
        lemma_block_offsets(start, before_sizes);
        let offsets = block_offsets(start, sizes);
        let before = block_offsets(start, before_sizes);
        assert(offsets =~= before.push(before.last() + sizes.last() as nat));
        let whole = concat(parts);
        assert(whole == concat(before_parts) + parts.last());
        assert forall|i: int| 0 <= i < parts.len() implies whole.subrange(
            offsets[i] - start,
            offsets[i + 1] - start,
        ) == #[trigger] parts[i] by {
            if i < k {
                assert(before_parts[i] == parts[i]);
                assert(offsets[i] == before[i]);
                assert(offsets[i + 1] == before[i + 1]);
                lemma_block_offsets_monotone(start, before_sizes, i + 1);
                lemma_block_offsets_monotone(start, before_sizes, i);
                assert(concat(before_parts).len() == before.last() - start);
                assert(whole.subrange(offsets[i] - start, offsets[i + 1] - start) =~= concat(
                    before_parts,
                ).subrange(before[i] - start, before[i + 1] - start));
            } else {
                assert(whole.subrange(offsets[i] - start, offsets[i + 1] - start) =~= parts.last());
            }
        }
    } else {
        assert(concat(parts) =~= Seq::<u8>::empty());
    }
}

/// A position whose shifted value is below `2^31`, with a shift of at most 4,
/// lies below `2^35`.
proof fn lemma_position_fits(x: nat, unit: nat)
    requires
        0 < unit <= 16,
        x / unit < 0x8000_0000,
    ensures
        x < 0x8_0000_0000,
{
    vstd::arithmetic::div_mod::lemma_fundamental_div_mod(x as int, unit as int);
    let q = x / unit;
    let r = x % unit;
    assert(x == unit * q + r);
    assert(unit * q <= 16 * q) by (nonlinear_arith)
        requires
            unit <= 16,
    ;
    assert(unit * q + r < 16 * q + 16);
}

/// Offsets never pass the end of the last block.
pub proof fn lemma_block_offsets_monotone(start: nat, sizes: Seq<u32>, i: int)
    requires
        0 <= i <= sizes.len(),
    ensures
        start <= block_offsets(start, sizes)[i] <= block_offsets(start, sizes).last(),
    decreases sizes.len(),
{
    lemma_block_offsets(start, sizes);
    if sizes.len() > 0 {
        let before = block_offsets(start, sizes.drop_last());
        lemma_block_offsets(start, sizes.drop_last());
        assert(block_offsets(start, sizes) =~= before.push(before.last() + sizes.last() as nat));
        if i < sizes.len() {
            lemma_block_offsets_monotone(start, sizes.drop_last(), i);
        }
    }
}

/// Whether every position of a compressed image, shifted, fits the 31
/// position bits of an index entry: the one format limit on compressing an
/// image.
pub open spec fn positions_fit(data: Seq<u8>, block_size: u32, level: i32, disable_hc: bool) -> bool {
    let settings = image_settings(data.len(), block_size, level, disable_hc);
    let blocks = block_count(data.len(), block_size as nat);
    (data_start(blocks, settings.pos_shift) + chunk_data(data, settings).len()) / pow2(
        settings.pos_shift as nat,
    ) < 0x8000_0000
}

/// A size that the header's 64-bit field holds, settings in range, every block
/// decoding back from its LZ4 form, and positions that fit the index entries.
pub open spec fn roundtrip_conditions(data: Seq<u8>, block_size: u32, level: i32, disable_hc: bool) -> bool {
    let settings = image_settings(data.len(), block_size, level, disable_hc);
    &&& data.len() <= u64::MAX
    &&& settings.valid()
    &&& chunk_decodes(data, settings)
    &&& positions_fit(data, block_size, level, disable_hc)
}

/// Block `i` of an image cut into blocks holds `block_length` bytes.
pub proof fn lemma_split_block_length(data: Seq<u8>, block_size: nat, i: int)
    requires
        block_size > 0,
        0 <= i < split_blocks(data, block_size).len(),
    ensures
        split_blocks(data, block_size)[i].len() == block_length(data.len(), block_size, i as nat),
    decreases data.len(),
{
    let parts = split_blocks(data, block_size);
    if data.len() > block_size {
        let rest = data.skip(block_size as int);
        if i > 0 {
            assert(parts[i] == split_blocks(rest, block_size)[i - 1]);
            lemma_split_block_length(rest, block_size, i - 1);
            assert((i - 1) * block_size + block_size == i * block_size) by (nonlinear_arith);
            assert(block_length(rest.len(), block_size, (i - 1) as nat) == block_length(
                data.len(),
                block_size,
                i as nat,
            ));
        } else {
            assert(0 * block_size == 0);
            assert(parts[0] == data.take(block_size as int));
        }
    } else {
        assert(0 * block_size == 0);
        assert(i == 0);
        assert(parts[0] == data);
    }
}

/// The stored form of a block of the image decodes back to the block, when
/// asked for as many bytes as the block holds.
proof fn lemma_stored_block_decodes(raw: Seq<u8>, settings: CompressionSettings)
    requires
        settings.valid(),
        0 < raw.len() <= settings.block_size,
        decodes_to(lz4_form(raw, settings), raw),
    ensures
        crate::decompress::spec_decode_stored(
            stored_block(raw, settings),
            keeps_compressed(raw, settings),
            settings.block_size,
            raw.len(),
        ) == Ok::<Seq<u8>, ZsoError>(raw),
{
    vstd::arithmetic::power2::lemma2_to64();
    lemma_stored_block_len(raw, settings);
    let stored = stored_block(raw, settings);
    let payload = stored_payload(raw, settings);
    let pad = padding_needed(payload.len(), settings.alignment());
    assert(pad < 16);
    if keeps_compressed(raw, settings) {
        let form = lz4_form(raw, settings);
        assert(form.len() + zeros(pad).len() <= LZ4_MAX_BUFFER);
        assert(lz4_partial_decompressed(
            form + zeros(pad),
            raw.len() as usize,
            settings.block_size as usize,
        ) == Some(raw));
    } else if stored.len() > raw.len() {
        assert(stored.take(raw.len() as int) =~= raw);
    } else {
        assert(stored =~= raw);
    }
}

/// The facts about a compressed image that the block-by-block proof uses.
proof fn lemma_image_shape(data: Seq<u8>, block_size: u32, level: i32, disable_hc: bool, hdl_fix: bool)
    requires
        roundtrip_conditions(data, block_size, level, disable_hc),
    ensures
        ({
            let settings = image_settings(data.len(), block_size, level, disable_hc);
            let blocks = block_count(data.len(), block_size as nat);
            let start = data_start(blocks, settings.pos_shift);
            let sizes = chunk_sizes(data, settings);
            let body = chunk_data(data, settings);
            let image = spec_compress_image(data, block_size, level, disable_hc, hdl_fix);
            let table = spec_index_table(start, sizes, chunk_flags(data, settings), settings.pos_shift);
            &&& settings.pos_shift <= 4
            &&& index_end(blocks) <= start
            &&& start % pow2(settings.pos_shift as nat) == 0
            &&& sizes.len() == blocks
            &&& chunk_blocks(data, settings).len() == blocks
            &&& chunk_flags(data, settings).len() == blocks
            &&& table.len() == blocks + 1
            &&& block_offsets(start, sizes).len() == blocks + 1
            &&& block_offsets(start, sizes)[0] == start
            &&& block_offsets(start, sizes).last() == start + body.len()
            &&& image.len() >= start + body.len()
            &&& image.subrange(start as int, (start + body.len()) as int) == body
            &&& image.subrange(24, index_end(blocks) as int) == disk_bytes(table)
            &&& spec_parse_header(image) == Ok::<ZsoHeader, ZsoError>(
                ZsoHeader { original_size: data.len() as u64, block_size, pos_shift: settings.pos_shift },
            )
            &&& image.len() == start + body.len() || image.len() == align_up(
                start + body.len(),
                2048,
            )
        }),
{
    let settings = image_settings(data.len(), block_size, level, disable_hc);
    let shift = settings.pos_shift;
    let blocks = block_count(data.len(), block_size as nat);
    let start = data_start(blocks, shift);
    let sizes = chunk_sizes(data, settings);
    let flags = chunk_flags(data, settings);
    let body = chunk_data(data, settings);
    let table = spec_index_table(start, sizes, flags, shift);
    vstd::arithmetic::power2::lemma2_to64();
    vstd::arithmetic::power2::lemma_pow2_pos(shift as nat);
    lemma_align_up(index_end(blocks), pow2(shift as nat));
    lemma_chunk_lengths(data, settings);
    lemma_block_offsets(start, sizes);
    let end = start + body.len();
    let pad = if hdl_fix {
        hdl_padding(end)
    } else {
        0
    };
    let gap = zeros((start - index_end(blocks)) as nat);
    let header = spec_header(data.len() as u64, block_size, shift);
    let image = spec_compress_image(data, block_size, level, disable_hc, hdl_fix);
    assert(image == header + disk_bytes(table) + gap + body + zeros(pad));
    lemma_header_roundtrip(data.len() as u64, block_size, shift, disk_bytes(table) + gap + body
        + zeros(pad));
    assert(header + (disk_bytes(table) + gap + body + zeros(pad)) =~= image);
    assert(image.subrange(start as int, end as int) =~= body);
    assert(image.subrange(24, index_end(blocks) as int) =~= disk_bytes(table));
}

/// Block `i` of a compressed image decodes back to block `i` of the image,
/// given the facts of `lemma_image_shape`.
proof fn lemma_block_of_layout(
    image: Seq<u8>,
    data: Seq<u8>,
    settings: CompressionSettings,
    start: nat,
    i: int,
)
    requires
        data.len() <= u64::MAX,
        settings.valid(),
        chunk_decodes(data, settings),
        chunk_sizes(data, settings).len() == chunk_blocks(data, settings).len(),
        chunk_flags(data, settings).len() == chunk_blocks(data, settings).len(),
        start % pow2(settings.pos_shift as nat) == 0,
        (start + chunk_data(data, settings).len()) / pow2(settings.pos_shift as nat) < 0x8000_0000,
        image.len() >= start + chunk_data(data, settings).len(),
        image.subrange(start as int, (start + chunk_data(data, settings).len()) as int) == chunk_data(
            data,
            settings,
        ),
        seq_sum(chunk_sizes(data, settings)) == chunk_data(data, settings).len(),
        forall|j: int|
            0 <= j < chunk_blocks(data, settings).len() ==> 0 < (#[trigger] chunk_blocks(
                data,
                settings,
            )[j]).len() <= settings.block_size,
        0 <= i < chunk_blocks(data, settings).len(),
    ensures
        spec_block_result(
            image,
            spec_index_table(
                start,
                chunk_sizes(data, settings),
                chunk_flags(data, settings),
                settings.pos_shift,
            ),
            ZsoHeader {
                original_size: data.len() as u64,
                block_size: settings.block_size,
                pos_shift: settings.pos_shift,
            },
            i,
        ) == Ok::<Seq<u8>, ZsoError>(chunk_blocks(data, settings)[i]),
{
    let shift = settings.pos_shift;
    let unit = pow2(shift as nat);
    let sizes = chunk_sizes(data, settings);
    let flags = chunk_flags(data, settings);
    let parts = chunk_blocks(data, settings);
    let body = chunk_data(data, settings);
    let table = spec_index_table(start, sizes, flags, shift);
    vstd::arithmetic::power2::lemma2_to64();
    vstd::arithmetic::power2::lemma_pow2_pos(shift as nat);
    let offsets = block_offsets(start, sizes);
    lemma_block_offsets(start, sizes);
    lemma_block_offsets_monotone(start, sizes, i);
    lemma_block_offsets_monotone(start, sizes, i + 1);
    lemma_block_offsets_aligned(data, settings, start);
    let end = start + body.len();
    assert(offsets[i + 1] <= end);
    assert forall|k: int| 0 <= k <= sizes.len() implies (#[trigger] offsets[k]) / unit < 0x8000_0000
        && offsets[k] < 0x8_0000_0000 && offsets[k] % unit == 0 by {
        lemma_block_offsets_monotone(start, sizes, k);
        vstd::arithmetic::div_mod::lemma_div_is_ordered(offsets[k] as int, end as int, unit as int);
        lemma_position_fits(offsets[k], unit);
        assert(block_offsets(start, chunk_sizes(data, settings))[k] % settings.alignment() == 0);
    }
    let raw_i = i < sizes.len() && !flags[i];
    let raw_next = i + 1 < sizes.len() && !flags[i + 1];
    assert(table[i] == index_entry(offsets[i] as u64, shift, raw_i));
    assert(table[i + 1] == index_entry(offsets[i + 1] as u64, shift, raw_next));
    lemma_index_entry_roundtrip(offsets[i] as u64, shift, raw_i);
    lemma_index_entry_roundtrip(offsets[i + 1] as u64, shift, raw_next);
    let raw = parts[i];
    lemma_stored_block_len(raw, settings);
    lemma_split_blocks(data, settings.block_size as nat);
    lemma_split_block_length(data, settings.block_size as nat, i);
    assert(block_length(data.len(), settings.block_size as nat, i as nat) == raw.len());
    assert(sizes[i] == stored_block(raw, settings).len());
    let stored_parts = stored_blocks(parts, settings);
    assert forall|j: int| 0 <= j < stored_parts.len() implies (#[trigger] stored_parts[j]).len()
        == sizes[j] by {
        lemma_stored_block_len(parts[j], settings);
    }
    lemma_concat_slices(stored_parts, sizes, start);
    let stored = image.subrange(offsets[i] as int, offsets[i + 1] as int);
    assert(stored =~= body.subrange(offsets[i] - start, offsets[i + 1] - start));
    assert(body == concat(stored_parts));
    assert(stored_parts[i] == stored_block(raw, settings));
    assert(body.subrange(offsets[i] - start, offsets[i + 1] - start) == stored_parts[i]);
    assert(stored == stored_block(raw, settings));
    assert(flags[i] == keeps_compressed(raw, settings));
    lemma_stored_block_decodes(raw, settings);
    assert(offsets[i + 1] - offsets[i] == sizes[i]);
    assert(offsets[i + 1] <= image.len());
    assert(entry_is_raw(table[i]) == !keeps_compressed(raw, settings));
    assert((data.len() as u64) as nat == data.len());
}

/// The first `k` blocks of a compressed image decode back to the first `k`
/// blocks of the image, one after another.
proof fn lemma_blocks_of_layout(
    image: Seq<u8>,
    data: Seq<u8>,
    settings: CompressionSettings,
    start: nat,
    k: nat,
)
    requires
        data.len() <= u64::MAX,
        settings.valid(),
        chunk_decodes(data, settings),
        chunk_sizes(data, settings).len() == chunk_blocks(data, settings).len(),
        chunk_flags(data, settings).len() == chunk_blocks(data, settings).len(),
        start % pow2(settings.pos_shift as nat) == 0,
        (start + chunk_data(data, settings).len()) / pow2(settings.pos_shift as nat) < 0x8000_0000,
        image.len() >= start + chunk_data(data, settings).len(),
        image.subrange(start as int, (start + chunk_data(data, settings).len()) as int) == chunk_data(
            data,
            settings,
        ),
        seq_sum(chunk_sizes(data, settings)) == chunk_data(data, settings).len(),
        forall|j: int|
            0 <= j < chunk_blocks(data, settings).len() ==> 0 < (#[trigger] chunk_blocks(
                data,
                settings,
            )[j]).len() <= settings.block_size,
        k <= chunk_blocks(data, settings).len(),
    ensures
        spec_decode_blocks(
            image,
            spec_index_table(
                start,
                chunk_sizes(data, settings),
                chunk_flags(data, settings),
                settings.pos_shift,
            ),
            ZsoHeader {
                original_size: data.len() as u64,
                block_size: settings.block_size,
                pos_shift: settings.pos_shift,
            },
            k,
        ) == Ok::<Seq<u8>, ZsoError>(concat(chunk_blocks(data, settings).take(k as int))),
    decreases k,
{
    let parts = chunk_blocks(data, settings);
    if k == 0 {
        assert(parts.take(0) =~= Seq::<Seq<u8>>::empty());
    } else {
        lemma_blocks_of_layout(image, data, settings, start, (k - 1) as nat);
        lemma_block_of_layout(image, data, settings, start, k - 1);
        assert(parts.take(k as int).drop_last() =~= parts.take(k - 1));
    }
}

/// The index of a compressed image passes the decompressor's checks.
proof fn lemma_index_of_layout(data: Seq<u8>, block_size: u32, level: i32, disable_hc: bool, hdl_fix: bool)
    requires
        roundtrip_conditions(data, block_size, level, disable_hc),
    ensures
        ({
            let settings = image_settings(data.len(), block_size, level, disable_hc);
            let blocks = block_count(data.len(), block_size as nat);
            let image = spec_compress_image(data, block_size, level, disable_hc, hdl_fix);
            let index = disk_words(image.subrange(24, index_end(blocks) as int));
            &&& index == spec_index_table(
                data_start(blocks, settings.pos_shift),
                chunk_sizes(data, settings),
                chunk_flags(data, settings),
                settings.pos_shift,
            )
            &&& spec_check_index(index, settings.pos_shift, image.len()) == Ok::<(), ZsoError>(())
        }),
{
    let settings = image_settings(data.len(), block_size, level, disable_hc);
    let shift = settings.pos_shift;
    let unit = pow2(shift as nat);
    let blocks = block_count(data.len(), block_size as nat);
    let start = data_start(blocks, shift);
    let sizes = chunk_sizes(data, settings);
    let flags = chunk_flags(data, settings);
    let body = chunk_data(data, settings);
    let table = spec_index_table(start, sizes, flags, shift);
    let image = spec_compress_image(data, block_size, level, disable_hc, hdl_fix);
    lemma_image_shape(data, block_size, level, disable_hc, hdl_fix);
    lemma_split_blocks(data, block_size as nat);
    lemma_disk_words_of_disk_bytes(table);
    vstd::arithmetic::power2::lemma2_to64();
    vstd::arithmetic::power2::lemma_pow2_pos(shift as nat);
    let index = disk_words(image.subrange(24, index_end(blocks) as int));
    assert(index == table);
    let offsets = block_offsets(start, sizes);
    lemma_block_offsets(start, sizes);
    lemma_block_offsets_aligned(data, settings, start);
    let end = start + body.len();
    let raw_first = 0 < sizes.len() && !flags[0];
    assert(table[0] == index_entry(offsets[0] as u64, shift, raw_first));
    assert(table[blocks as int] == index_entry(offsets[blocks as int] as u64, shift, false));
    assert(offsets[0] / unit < 0x8000_0000) by {
        vstd::arithmetic::div_mod::lemma_div_is_ordered(start as int, end as int, unit as int);
    }
    lemma_position_fits(offsets[0], unit);
    lemma_position_fits(offsets[blocks as int], unit);
    assert(offsets[0] % settings.alignment() == 0);
    assert(offsets[blocks as int] % settings.alignment() == 0);
    lemma_index_entry_roundtrip(offsets[0] as u64, shift, raw_first);
    lemma_index_entry_roundtrip(offsets[blocks as int] as u64, shift, false);
}

/// The index that a compressed image holds, read back from its bytes: the
/// first entry gives the aligned start of the data, every entry an aligned
/// position, each block starts strictly after the one before (no stored block
/// is empty), the raw mark is set exactly on the blocks stored raw, and the
/// last entry, which marks the end of the data, carries no raw mark.
pub proof fn lemma_index_positions(data: Seq<u8>, block_size: u32, level: i32, disable_hc: bool, hdl_fix: bool)
    requires
        roundtrip_conditions(data, block_size, level, disable_hc),
    ensures
        ({
            let settings = image_settings(data.len(), block_size, level, disable_hc);
            let shift = settings.pos_shift;
            let blocks = block_count(data.len(), block_size as nat);
            let image = spec_compress_image(data, block_size, level, disable_hc, hdl_fix);
            let index = disk_words(image.subrange(24, index_end(blocks) as int));
            &&& index.len() == blocks + 1
            &&& entry_offset(index[0], shift) == data_start(blocks, shift)
            &&& forall|k: int|
                0 <= k <= blocks ==> (#[trigger] entry_offset(index[k], shift) as nat) % pow2(
                    shift as nat,
                ) == 0
            &&& forall|k: int|
                0 <= k < blocks ==> entry_offset(#[trigger] index[k], shift) < entry_offset(
                    index[k + 1],
                    shift,
                )
            &&& forall|k: int|
                0 <= k < blocks ==> (entry_is_raw(#[trigger] index[k]) <==> !keeps_compressed(
                    chunk_blocks(data, settings)[k],
                    settings,
                ))
            &&& !entry_is_raw(index[blocks as int])
            &&& entry_offset(index[blocks as int], shift) == data_start(blocks, shift) + chunk_data(
                data,
                settings,
            ).len()
        }),
{
    let settings = image_settings(data.len(), block_size, level, disable_hc);
    let shift = settings.pos_shift;
    let unit = pow2(shift as nat);
    let blocks = block_count(data.len(), block_size as nat);
    let start = data_start(blocks, shift);
    let sizes = chunk_sizes(data, settings);
    let flags = chunk_flags(data, settings);
    let parts = chunk_blocks(data, settings);
    let body = chunk_data(data, settings);
    let table = spec_index_table(start, sizes, flags, shift);
    let offsets = block_offsets(start, sizes);
    lemma_image_shape(data, block_size, level, disable_hc, hdl_fix);
    lemma_index_of_layout(data, block_size, level, disable_hc, hdl_fix);
    lemma_split_blocks(data, block_size as nat);
    lemma_block_offsets(start, sizes);
    lemma_block_offsets_aligned(data, settings, start);
    vstd::arithmetic::power2::lemma2_to64();
    vstd::arithmetic::power2::lemma_pow2_pos(shift as nat);
    let end = start + body.len();
    assert forall|k: int| 0 <= k <= blocks implies (#[trigger] offsets[k]) / unit < 0x8000_0000
        && offsets[k] < 0x8_0000_0000 && offsets[k] % unit == 0 && entry_offset(table[k], shift)
        == offsets[k] && entry_is_raw(table[k]) == (k < blocks && !flags[k]) by {
        lemma_block_offsets_monotone(start, sizes, k);
        vstd::arithmetic::div_mod::lemma_div_is_ordered(offsets[k] as int, end as int, unit as int);
        lemma_position_fits(offsets[k], unit);
        assert(block_offsets(start, chunk_sizes(data, settings))[k] % settings.alignment() == 0);
        lemma_index_entry_roundtrip(offsets[k] as u64, shift, k < sizes.len() && !flags[k]);
    }
    assert forall|k: int| 0 <= k <= blocks implies (#[trigger] entry_offset(table[k], shift) as nat)
        % unit == 0 by {
        assert(offsets[k] % unit == 0);
    }
    assert forall|k: int| 0 <= k < blocks implies entry_offset(#[trigger] table[k], shift)
        < entry_offset(table[k + 1], shift) by {
        assert(offsets[k] % unit == 0);
        assert(offsets[k + 1] % unit == 0);
        lemma_stored_block_len(parts[k], settings);
        assert(sizes[k] == stored_block(parts[k], settings).len());
        assert(stored_payload(parts[k], settings).len() > 0);
    }
    assert forall|k: int| 0 <= k < blocks implies (entry_is_raw(#[trigger] table[k])
        <==> !keeps_compressed(parts[k], settings)) by {
        assert(offsets[k] % unit == 0);
    }
    assert(offsets[blocks as int] % unit == 0);
}

/// What `spec_decompress_image` gives on a file whose header, index and
/// blocks pass its checks.
proof fn lemma_decompress_steps(
    image: Seq<u8>,
    header: ZsoHeader,
    index: Seq<u32>,
    out: Seq<u8>,
)
    requires
        spec_parse_header(image) == Ok::<ZsoHeader, ZsoError>(header),
        header_supported(header),
        image.len() >= index_end(block_count(header.original_size as nat, header.block_size as nat)),
        index == disk_words(
            image.subrange(
                24,
                index_end(block_count(header.original_size as nat, header.block_size as nat)) as int,
            ),
        ),
        spec_check_index(index, header.pos_shift, image.len()) == Ok::<(), ZsoError>(()),
        spec_decode_blocks(
            image,
            index,
            header,
            block_count(header.original_size as nat, header.block_size as nat),
        ) == Ok::<Seq<u8>, ZsoError>(out),
    ensures
        spec_decompress_image(image) == Ok::<Seq<u8>, ZsoError>(out),
{
}

/// Decompressing a compressed image gives the image back, with or without the
/// HDL fix, whenever its positions fit the index entries (and the settings are
/// in range, and every block decodes back from its LZ4 form, as
/// `compress_image` guarantees).
pub proof fn lemma_decompress_compressed_image(
    data: Seq<u8>,
    block_size: u32,
    level: i32,
    disable_hc: bool,
    hdl_fix: bool,
)
    requires
        roundtrip_conditions(data, block_size, level, disable_hc),
    ensures
        spec_decompress_image(spec_compress_image(data, block_size, level, disable_hc, hdl_fix))
            == Ok::<Seq<u8>, ZsoError>(data),
{
    let settings = image_settings(data.len(), block_size, level, disable_hc);
    let shift = settings.pos_shift;
    let blocks = block_count(data.len(), block_size as nat);
    let start = data_start(blocks, shift);
    let header = ZsoHeader { original_size: data.len() as u64, block_size, pos_shift: shift };
    let image = spec_compress_image(data, block_size, level, disable_hc, hdl_fix);
    let index = disk_words(image.subrange(24, index_end(blocks) as int));
    assert(spec_parse_header(image) == Ok::<ZsoHeader, ZsoError>(header) && image.len() >= index_end(
        blocks,
    )) by {
        lemma_image_shape(data, block_size, level, disable_hc, hdl_fix);
    }
    assert(spec_check_index(index, shift, image.len()) == Ok::<(), ZsoError>(())) by {
        lemma_index_of_layout(data, block_size, level, disable_hc, hdl_fix);
    }
    assert(header_supported(header)) by {
        vstd::arithmetic::power2::lemma2_to64();
    }
    assert(spec_decode_blocks(image, index, header, blocks) == Ok::<Seq<u8>, ZsoError>(data)) by {
        lemma_image_shape(data, block_size, level, disable_hc, hdl_fix);
        lemma_index_of_layout(data, block_size, level, disable_hc, hdl_fix);
        lemma_split_blocks(data, block_size as nat);
        lemma_chunk_lengths(data, settings);
        lemma_blocks_of_layout(image, data, settings, start, blocks);
        assert(chunk_blocks(data, settings).take(blocks as int) =~= chunk_blocks(data, settings));
    }
    lemma_decompress_steps(image, header, index, data);
}

/// The stored blocks of a run take at most the run's length plus, per block,
/// one less than the alignment.
proof fn lemma_stored_total(parts: Seq<Seq<u8>>, settings: CompressionSettings)
    requires
        settings.valid(),
    ensures
        concat(stored_blocks(parts, settings)).len() <= concat(parts).len() + parts.len() * (
        pow2(settings.pos_shift as nat) - 1),
    decreases parts.len(),
{
    let unit = pow2(settings.pos_shift as nat);
    vstd::arithmetic::power2::lemma2_to64();
    if parts.len() == 0 {
        assert(concat(stored_blocks(parts, settings)) =~= Seq::<u8>::empty());
    } else {
        let rest = parts.drop_last();
        lemma_stored_total(rest, settings);
        assert(stored_blocks(parts, settings).drop_last() =~= stored_blocks(rest, settings));
        let raw = parts.last();
        lemma_stored_block_len(raw, settings);
        let plen = stored_payload(raw, settings).len();
        assert(padding_needed(plen, unit) < unit) by {
            vstd::arithmetic::div_mod::lemma_mod_bound(plen as int, unit as int);
            vstd::arithmetic::div_mod::lemma_mod_bound((unit - (plen as int) % (unit as int)), unit as int);
        }
        assert(parts.len() * (unit - 1) == rest.len() * (unit - 1) + (unit - 1)) by (nonlinear_arith)
            requires
                parts.len() == rest.len() + 1,
        ;
    }
}

/// Compressing an image whose size, with a sixty-fourth more and 64 bytes,
/// stays within `2^(31 + s)` bytes, where `s` is the position shift in the
/// image's header, gives a file that decompresses back to the image (with
/// every block decoding back from its LZ4 form, as `compress_image`
/// guarantees). This covers every size of each shift's range but its top
/// sixty-fourth, where incompressible images can overflow the index in this
/// format.
pub proof fn lemma_round_trip_by_size(
    data: Seq<u8>,
    block_size: u32,
    level: i32,
    disable_hc: bool,
    hdl_fix: bool,
)
    requires
        crate::format::MIN_BLOCK_SIZE <= block_size <= crate::format::MAX_BLOCK_SIZE,
        1 <= level <= 12,
        data.len() <= crate::compress::MAX_IMAGE_SIZE,
        chunk_decodes(data, image_settings(data.len(), block_size, level, disable_hc)),
        data.len() + data.len() / 64 + 64 <= pow2(
            (31 + spec_compress_image(data, block_size, level, disable_hc, hdl_fix)[21]) as nat,
        ),
    ensures
        spec_decompress_image(spec_compress_image(data, block_size, level, disable_hc, hdl_fix))
            == Ok::<Seq<u8>, ZsoError>(data),
{
    let settings = image_settings(data.len(), block_size, level, disable_hc);
    let shift = settings.pos_shift;
    let unit = pow2(shift as nat);
    let blocks = block_count(data.len(), block_size as nat);
    let parts = chunk_blocks(data, settings);
    let len = data.len();
    crate::compress::lemma_image_header(data, block_size, level, disable_hc, hdl_fix);
    lemma_image_header_shift(data, block_size, level, disable_hc, hdl_fix);
    assert(spec_compress_image(data, block_size, level, disable_hc, hdl_fix)[21] == shift);
    vstd::arithmetic::power2::lemma2_to64();
    vstd::arithmetic::power2::lemma2_to64_rest();
    vstd::arithmetic::power2::lemma_pow2_adds(31, shift as nat);
    lemma_split_blocks(data, block_size as nat);
    lemma_stored_total(parts, settings);
    let body = chunk_data(data, settings);
    assert(body.len() <= len + blocks * (unit - 1));
    lemma_align_up(index_end(blocks), unit);
    let start = data_start(blocks, shift);
    assert(start < 28 + 4 * blocks + unit);
    let b = block_size as int;
    assert(blocks * 19 <= len / 64 + 19) by (nonlinear_arith)
        requires
            blocks == (len + b - 1) / b,
            b >= 2048,
    {
        assert(blocks <= len / 2048 + 1) by (nonlinear_arith)
            requires
                blocks == (len + b - 1) / b,
                b >= 2048,
        {
            vstd::arithmetic::div_mod::lemma_fundamental_div_mod(len + b - 1, b);
            vstd::arithmetic::div_mod::lemma_fundamental_div_mod(len as int, 2048);
        }
        vstd::arithmetic::div_mod::lemma_fundamental_div_mod(len as int, 2048);
        vstd::arithmetic::div_mod::lemma_fundamental_div_mod(len as int, 64);
    }
    assert(blocks * (unit - 1) + 4 * blocks <= blocks * 19) by (nonlinear_arith)
        requires
            unit <= 16,
    ;
    let end = start + body.len();
    assert(end < unit * 0x8000_0000);
    assert(end / unit < 0x8000_0000) by {
        vstd::arithmetic::div_mod::lemma_multiply_divide_lt(end as int, unit as int, 0x8000_0000);
    }
    assert(positions_fit(data, block_size, level, disable_hc));
    lemma_decompress_compressed_image(data, block_size, level, disable_hc, hdl_fix);
}

/// The shift in the header of a compressed image is the one its settings use.
proof fn lemma_image_header_shift(data: Seq<u8>, block_size: u32, level: i32, disable_hc: bool, hdl_fix: bool)
    requires
        data.len() <= u64::MAX,
    ensures
        spec_compress_image(data, block_size, level, disable_hc, hdl_fix)[21] == image_settings(
            data.len(),
            block_size,
            level,
            disable_hc,
        ).pos_shift,
{
    let settings = image_settings(data.len(), block_size, level, disable_hc);
    let shift = settings.pos_shift;
    let blocks = block_count(data.len(), block_size as nat);
    let start = data_start(blocks, shift);
    let body = chunk_data(data, settings);
    let table = spec_index_table(start, chunk_sizes(data, settings), chunk_flags(data, settings), shift);
    let end = start + body.len();
    let pad = if hdl_fix {
        hdl_padding(end)
    } else {
        0
    };
    let rest = disk_bytes(table) + zeros((start - index_end(blocks)) as nat) + body + zeros(pad);
    let header = spec_header(data.len() as u64, block_size, shift);
    let image = spec_compress_image(data, block_size, level, disable_hc, hdl_fix);
    assert(header + rest =~= image);
    lemma_header_roundtrip(data.len() as u64, block_size, shift, rest);
}

} // verus!
