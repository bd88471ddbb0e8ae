//! Reading a ZSO file in runs of blocks, as the reader and the workers do,
//! gives back what reading it block by block gives.

use crate::compress::seq_sum;
use crate::decompress::{
    readable_blocks, run_ordered, spec_block_result, spec_decode_blocks, spec_decompress_chunk,
    spec_decompress_image,
};
use crate::format::{
    block_count, entry_is_raw, entry_offset, header_supported, index_end, spec_parse_header,
    ZsoError, ZsoHeader, HEADER_SIZE,
};
use crate::utils::{concat, disk_words, lemma_concat_append};
use vstd::prelude::*;

verus! {

/// The flags of a run of `count` blocks from `current` on, as `plan_chunk` makes them.
pub open spec fn run_flags(index: Seq<u32>, current: int, count: nat) -> Seq<bool> {
    Seq::new(count, |i: int| !entry_is_raw(index[current + i]))
}

/// The stored lengths of a run of `count` blocks from `current` on, as
/// `plan_chunk` makes them.
pub open spec fn run_sizes(index: Seq<u32>, pos_shift: u8, current: int, count: nat) -> Seq<u32> {
    Seq::new(
        count,
        |i: int|
            #[verifier::truncate]
            ((entry_offset(index[current + i + 1], pos_shift) - entry_offset(
                index[current + i],
                pos_shift,
            )) as u32),
    )
}

/// What the reader and the workers give back from block `current` on, when the
/// reader reads each run of at most `max_blocks` blocks from the position of
/// its first entry to that of the entry after it, and each run is decompressed
/// by `decompress_chunk`.
pub open spec fn spec_read_runs(
    file: Seq<u8>,
    index: Seq<u32>,
    header: ZsoHeader,
    max_blocks: nat,
    current: nat,
) -> Result<Seq<u8>, ZsoError>
    decreases index.len() - 1 - current,
{
    let total = (index.len() - 1) as nat;
    let shift = header.pos_shift;
    if index.len() == 0 || current >= total || max_blocks == 0 {
        Ok(Seq::empty())
    } else {
        let count = readable_blocks(total, current, max_blocks);
        let start = entry_offset(index[current as int], shift);
        let end = entry_offset(index[(current + count) as int], shift);
        if !run_ordered(index, shift, current as int, count as int) {
            Err(ZsoError::CorruptIndex)
        } else if end > file.len() {
            Err(ZsoError::DataTruncated)
        } else {
            match spec_decompress_chunk(
                run_flags(index, current as int, count),
                run_sizes(index, shift, current as int, count),
                file.subrange(start as int, end as int),
                header.block_size,
                header.original_size,
                current,
                count,
            ) {
                Err(e) => Err(e),
                Ok(out) => {
                    proof {
                        assert(count > 0);
                        assert(current + count <= total);
                    }
                    match spec_read_runs(file, index, header, max_blocks, current + count) {
                        Err(e) => Err(e),
                        Ok(rest) => Ok(out + rest),
                    }
                },
            }
        }
    }
}

/// What block `i` gives back, where it gives something back.
pub open spec fn block_output(file: Seq<u8>, index: Seq<u32>, header: ZsoHeader, i: int) -> Seq<u8> {
    match spec_block_result(file, index, header, i) {
        Ok(block) => block,
        Err(_) => Seq::empty(),
    }
}

/// What blocks `a` to `b` give back.
pub open spec fn block_outputs(file: Seq<u8>, index: Seq<u32>, header: ZsoHeader, a: int, b: int) -> Seq<Seq<u8>> {
    Seq::new((b - a) as nat, |i: int| block_output(file, index, header, a + i))
}

/// Where the first `k` blocks all give something back, they give back their
/// outputs one after another.
proof fn lemma_decode_blocks_ok(file: Seq<u8>, index: Seq<u32>, header: ZsoHeader, k: nat)
    requires
        spec_decode_blocks(file, index, header, k) is Ok,
    ensures
        forall|i: int| 0 <= i < k ==> (#[trigger] spec_block_result(file, index, header, i)) is Ok,
        spec_decode_blocks(file, index, header, k) == Ok::<Seq<u8>, ZsoError>(
            concat(block_outputs(file, index, header, 0, k as int)),
        ),
    decreases k,
{
    if k > 0 {
        lemma_decode_blocks_ok(file, index, header, (k - 1) as nat);
        assert(block_outputs(file, index, header, 0, k as int).drop_last() =~= block_outputs(
            file,
            index,
            header,
            0,
            k - 1,
        ));
    } else {
        assert(block_outputs(file, index, header, 0, 0) =~= Seq::<Seq<u8>>::empty());
    }
}

/// Blocks whose reads succeed lie in order.
proof fn lemma_ok_blocks_ordered(file: Seq<u8>, index: Seq<u32>, header: ZsoHeader, a: int, b: int)
    requires
        0 <= a <= b < index.len(),
        forall|i: int| a <= i < b ==> (#[trigger] spec_block_result(file, index, header, i)) is Ok,
    ensures
        entry_offset(index[a], header.pos_shift) <= entry_offset(index[b], header.pos_shift),
    decreases b - a,
{
    if a < b {
        lemma_ok_blocks_ordered(file, index, header, a, b - 1);
        assert(spec_block_result(file, index, header, b - 1) is Ok);
    }
}

/// A run of blocks whose reads succeed decompresses, from the bytes that the
/// reader reads for it, to the outputs of its blocks.
proof fn lemma_run_output(
    file: Seq<u8>,
    index: Seq<u32>,
    header: ZsoHeader,
    current: int,
    count: nat,
    k: nat,
)
    requires
        0 <= current,
        current + count < index.len(),
        k <= count,
        forall|i: int|
            current <= i < current + count ==> (#[trigger] spec_block_result(file, index, header, i)) is Ok,
        entry_offset(index[current + count], header.pos_shift) <= file.len(),
    ensures
        seq_sum(run_sizes(index, header.pos_shift, current, count).take(k as int)) == entry_offset(
            index[current + k],
            header.pos_shift,
        ) - entry_offset(index[current], header.pos_shift),
        spec_decompress_chunk(
            run_flags(index, current, count),
            run_sizes(index, header.pos_shift, current, count),
            file.subrange(
                entry_offset(index[current], header.pos_shift) as int,
                entry_offset(index[current + count], header.pos_shift) as int,
            ),
            header.block_size,
            header.original_size,
            current as nat,
            k,
        ) == Ok::<Seq<u8>, ZsoError>(concat(block_outputs(file, index, header, current, current + k))),
    decreases k,
{
    let shift = header.pos_shift;
    let sizes = run_sizes(index, shift, current, count);
    let flags = run_flags(index, current, count);
    let first = entry_offset(index[current], shift) as int;
    let data = file.subrange(first, entry_offset(index[current + count], shift) as int);
    lemma_ok_blocks_ordered(file, index, header, current, current + count);
    if k == 0 {
        assert(sizes.take(0) =~= Seq::<u32>::empty());
        assert(block_outputs(file, index, header, current, current) =~= Seq::<Seq<u8>>::empty());
    } else {
        let j = current + k - 1;
        lemma_run_output(file, index, header, current, count, (k - 1) as nat);
        assert(spec_block_result(file, index, header, j) is Ok);
        let start = entry_offset(index[j], shift) as int;
        let end = entry_offset(index[j + 1], shift) as int;
        assert(start <= end && end - start <= u32::MAX);
        assert(sizes[k - 1] == end - start) by {
            let d = (end - start) as u64;
            assert(d as u32 == d);
        }
        assert(sizes.take(k as int).drop_last() =~= sizes.take(k - 1));
        lemma_ok_blocks_ordered(file, index, header, current, j);
        lemma_ok_blocks_ordered(file, index, header, current + k, current + count);
        let offset = seq_sum(sizes.take(k - 1));
        assert(data.subrange(offset as int, offset + (end - start)) =~= file.subrange(start, end));
        assert(flags[k - 1] == !entry_is_raw(index[j]));
        assert(block_outputs(file, index, header, current, current + k).drop_last() =~= block_outputs(
            file,
            index,
            header,
            current,
            current + k - 1,
        ));
    }
}

/// What the reader and the workers give back of a whole file: the header and
/// index checks of `spec_decompress_image`, then the blocks read in runs of at
/// most `max_blocks`.
pub open spec fn spec_decompress_in_runs(file: Seq<u8>, max_blocks: nat) -> Result<Seq<u8>, ZsoError> {
    match spec_parse_header(file) {
        Err(e) => Err(e),
        Ok(header) => if !header_supported(header) {
            Err(ZsoError::UnsupportedHeader)
        } else {
            let blocks = block_count(header.original_size as nat, header.block_size as nat);
            if file.len() < index_end(blocks) {
                Err(ZsoError::IndexTruncated)
            } else {
                let index = disk_words(file.subrange(HEADER_SIZE as int, index_end(blocks) as int));
                match crate::decompress::spec_check_index(index, header.pos_shift, file.len()) {
                    Err(e) => Err(e),
                    Ok(_) => spec_read_runs(file, index, header, max_blocks, 0),
                }
            }
        },
    }
}

/// Reading in runs from block `current` on gives back the outputs of the blocks
/// from `current` on, where every block reads successfully.
proof fn lemma_read_runs_output(
    file: Seq<u8>,
    index: Seq<u32>,
    header: ZsoHeader,
    max_blocks: nat,
    current: nat,
)
    requires
        max_blocks > 0,
        index.len() >= 1,
        current <= index.len() - 1,
        forall|i: int|
            0 <= i < index.len() - 1 ==> (#[trigger] spec_block_result(file, index, header, i)) is Ok,
    ensures
        spec_read_runs(file, index, header, max_blocks, current) == Ok::<Seq<u8>, ZsoError>(
            concat(block_outputs(file, index, header, current as int, index.len() - 1)),
        ),
    decreases index.len() - 1 - current,
{
    let total = (index.len() - 1) as nat;
    let shift = header.pos_shift;
    if current == total {
        assert(block_outputs(file, index, header, current as int, total as int) =~= Seq::<
            Seq<u8>,
        >::empty());
    } else {
        let count = readable_blocks(total, current, max_blocks);
        let next = current + count;
        lemma_ok_blocks_ordered(file, index, header, current as int, next as int);
        assert forall|i: int| 0 <= i < count implies entry_offset(
            #[trigger] index[current + i],
            shift,
        ) <= entry_offset(index[current + i + 1], shift) by {
            assert(spec_block_result(file, index, header, current + i) is Ok);
        }
        assert(run_ordered(index, shift, current as int, count as int));
        assert(spec_block_result(file, index, header, next - 1) is Ok);
        lemma_run_output(file, index, header, current as int, count, count);
        lemma_read_runs_output(file, index, header, max_blocks, next);
        let first = block_outputs(file, index, header, current as int, next as int);
        let rest = block_outputs(file, index, header, next as int, total as int);
        lemma_concat_append(first, rest);
        assert(first + rest =~= block_outputs(file, index, header, current as int, total as int));
    }
}

/// Reading a file in runs of blocks, as the reader and the workers do, gives
/// back the image that reading it block by block gives, whenever the latter
/// succeeds.
pub proof fn lemma_runs_give_back_image(file: Seq<u8>, max_blocks: nat)
    requires
        max_blocks > 0,
        spec_decompress_image(file) is Ok,
    ensures
        spec_decompress_in_runs(file, max_blocks) == spec_decompress_image(file),
{
    let header = spec_parse_header(file)->Ok_0;
    let blocks = block_count(header.original_size as nat, header.block_size as nat);
    let index = disk_words(file.subrange(HEADER_SIZE as int, index_end(blocks) as int));
    assert(index.len() == blocks + 1);
    lemma_decode_blocks_ok(file, index, header, blocks);
    lemma_read_runs_output(file, index, header, max_blocks, 0);
}

} // verus!
