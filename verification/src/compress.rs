//! Compression: the blocks of an image stored as LZ4 or raw, aligned, and
//! indexed by their shifted start positions.

use crate::codec::{
    decodes_to, lz4_compress, lz4_compress_bound, lz4_fast_compressed, lz4_hc_compress,
    lz4_hc_compressed, max_compressed_size,
};
use crate::format::{
    block_count, build_header, data_start, index_end, index_entry, make_index_entry,
    pos_shift_for_size, spec_header, spec_parse_header, spec_pos_shift, total_blocks, ZsoError,
    ZsoHeader, MAX_BLOCK_SIZE, MIN_BLOCK_SIZE,
};
use crate::types::{MessageBlock, LZ4_MAX_ACCELERATION, QUEUE_TRANSFER_SIZE};
use crate::utils::{append_bytes, concat, disk_bytes, push_zeros, split_blocks, zeros};
use vstd::arithmetic::power2::pow2;
use vstd::prelude::*;

verus! {

/// What the compressor needs to turn a run of image bytes into stored blocks.
#[derive(Clone, Copy, Debug, PartialEq, Eq, Structural)]
pub struct CompressionSettings {
    /// Size of every block but the last.
    pub block_size: u32,
    /// LZ4 level, from 1 (fastest) to 12 (smallest).
    pub level: i32,
    /// Use plain LZ4 with an acceleration derived from `level` in place of LZ4 HC.
    pub disable_hc: bool,
    /// Shift of the index positions; stored blocks are padded to `2^pos_shift`.
    pub pos_shift: u8,
}

impl CompressionSettings {
    /// Settings within the ranges that the program accepts.
    pub open spec fn valid(self) -> bool {
        &&& MIN_BLOCK_SIZE <= self.block_size <= MAX_BLOCK_SIZE
        &&& 1 <= self.level <= 12
        &&& self.pos_shift <= 4
    }

    /// The alignment of stored blocks.
    pub open spec fn alignment(self) -> nat {
        pow2(self.pos_shift as nat)
    }
}

/// The LZ4 acceleration for a compression level: level 1 gives the largest
/// acceleration, level 12 the smallest.
pub open spec fn spec_acceleration(level: i32) -> i32 {
    (LZ4_MAX_ACCELERATION - (level - 1) * LZ4_MAX_ACCELERATION / 11) as i32
}

/// What LZ4 (or LZ4 HC) makes of a block under the given settings.
pub open spec fn lz4_form(raw: Seq<u8>, settings: CompressionSettings) -> Seq<u8> {
    if settings.disable_hc {
        lz4_fast_compressed(raw, spec_acceleration(settings.level))
    } else {
        lz4_hc_compressed(raw, settings.level)
    }
}

/// Whether a block is stored compressed: only where LZ4 makes it shorter.
pub open spec fn keeps_compressed(raw: Seq<u8>, settings: CompressionSettings) -> bool {
    lz4_form(raw, settings).len() < raw.len()
}

/// The bytes that stand for a block before alignment padding.
pub open spec fn stored_payload(raw: Seq<u8>, settings: CompressionSettings) -> Seq<u8> {
    if keeps_compressed(raw, settings) {
        lz4_form(raw, settings)
    } else {
        raw
    }
}

/// Zero bytes that bring a length of `len` to a multiple of `unit`.
pub open spec fn padding_needed(len: nat, unit: nat) -> nat {
    ((unit - (len as int) % (unit as int)) % (unit as int)) as nat
}

/// The bytes written to the file for a block: its payload, padded with zeros
/// to the alignment.
pub open spec fn stored_block(raw: Seq<u8>, settings: CompressionSettings) -> Seq<u8> {
    let payload = stored_payload(raw, settings);
    payload + zeros(padding_needed(payload.len(), settings.alignment()))
}

/// The blocks of a run of image bytes.
pub open spec fn chunk_blocks(data: Seq<u8>, settings: CompressionSettings) -> Seq<Seq<u8>> {
    split_blocks(data, settings.block_size as nat)
}

/// For each block of a run, whether it is stored compressed.
pub open spec fn chunk_flags(data: Seq<u8>, settings: CompressionSettings) -> Seq<bool> {
    chunk_blocks(data, settings).map_values(|b: Seq<u8>| keeps_compressed(b, settings))
}

/// For each block of a run, the length of its stored form.
pub open spec fn chunk_sizes(data: Seq<u8>, settings: CompressionSettings) -> Seq<u32> {
    chunk_blocks(data, settings).map_values(|b: Seq<u8>| stored_block(b, settings).len() as u32)
}

/// The stored form of each of `parts`.
pub open spec fn stored_blocks(parts: Seq<Seq<u8>>, settings: CompressionSettings) -> Seq<Seq<u8>> {
    parts.map_values(|b: Seq<u8>| stored_block(b, settings))
}

/// The stored forms of the blocks of a run, one after another.
pub open spec fn chunk_data(data: Seq<u8>, settings: CompressionSettings) -> Seq<u8> {
    concat(stored_blocks(chunk_blocks(data, settings), settings))
}

/// Every block of a run decodes back from what LZ4 makes of it, and what LZ4
/// makes of it is not empty.
pub open spec fn chunk_decodes(data: Seq<u8>, settings: CompressionSettings) -> bool {
    forall|i: int|
        0 <= i < chunk_blocks(data, settings).len() ==> decodes_to(
            lz4_form(#[trigger] chunk_blocks(data, settings)[i], settings),
            chunk_blocks(data, settings)[i],
        ) && lz4_form(chunk_blocks(data, settings)[i], settings).len() > 0
}

/// The LZ4 acceleration for a compression level between 1 and 12.
pub fn lz4_acceleration(level: i32) -> (acceleration: i32)
    requires
        1 <= level <= 12,
    ensures
        acceleration == spec_acceleration(level),
        0 <= acceleration <= LZ4_MAX_ACCELERATION,
{
    LZ4_MAX_ACCELERATION - (level - 1) * LZ4_MAX_ACCELERATION / 11
}

/// The number of image bytes that one message carries: the largest multiple of
/// the block size that fits `QUEUE_TRANSFER_SIZE`.
pub fn queue_real_size(block_size: u32) -> (size: usize)
    requires
        block_size > 0,
    ensures
        size == QUEUE_TRANSFER_SIZE - (QUEUE_TRANSFER_SIZE as int) % (block_size as int),
        (size as int) % (block_size as int) == 0,
{
    let rem = QUEUE_TRANSFER_SIZE % (block_size as usize);
    proof {
        vstd::arithmetic::div_mod::lemma_fundamental_div_mod(
            QUEUE_TRANSFER_SIZE as int,
            block_size as int,
        );
        assert((block_size as int) * ((QUEUE_TRANSFER_SIZE as int) / (block_size as int)) >= 0)
            by (nonlinear_arith)
            requires
                block_size > 0,
                QUEUE_TRANSFER_SIZE > 0,
        ;
    }
    let size = QUEUE_TRANSFER_SIZE - rem;
    proof {
        let b = block_size as int;
        let t = QUEUE_TRANSFER_SIZE as int;
        vstd::arithmetic::div_mod::lemma_fundamental_div_mod(t, b);
        vstd::arithmetic::div_mod::lemma_mod_multiples_basic(t / b, b);
        assert(b * (t / b) == (t / b) * b) by (nonlinear_arith);
    }
    size
}

/// The alignment `2^pos_shift` of stored blocks, for a shift of at most four.
fn block_alignment(pos_shift: u8) -> (alignment: usize)
    requires
        pos_shift <= 4,
    ensures
        alignment == pow2(pos_shift as nat),
        1 <= alignment <= 16,
{
    proof {
        vstd::arithmetic::power2::lemma2_to64();
    }
    if pos_shift == 0 {
        1
    } else if pos_shift == 1 {
        2
    } else if pos_shift == 2 {
        4
    } else if pos_shift == 3 {
        8
    } else {
        16
    }
}

/// Compresses one block and appends its stored form to `data`; returns whether
/// it is stored compressed and the length of its stored form.
fn store_block(
    raw: &[u8],
    settings: &CompressionSettings,
    acceleration: i32,
    alignment: usize,
    buffer: &mut Vec<u8>,
    data: &mut Vec<u8>,
) -> (stored: (bool, u32))
    requires
        settings.valid(),
        acceleration == spec_acceleration(settings.level),
        alignment == settings.alignment(),
        1 <= alignment <= 16,
        0 < raw@.len() <= settings.block_size,
        old(buffer)@.len() == lz4_compress_bound(settings.block_size as nat),
    ensures
        final(buffer)@.len() == old(buffer)@.len(),
        stored.0 == keeps_compressed(raw@, *settings),
        stored.1 == stored_block(raw@, *settings).len(),
        final(data)@ == old(data)@ + stored_block(raw@, *settings),
        decodes_to(lz4_form(raw@, *settings), raw@),
        lz4_form(raw@, *settings).len() > 0,
{
    let written = if settings.disable_hc {
        lz4_compress(raw, buffer, acceleration)
    } else {
        lz4_hc_compress(raw, buffer, settings.level)
    };
    let comp_size = written.unwrap();
    let payload_len: usize;
    let keep: bool;
    if comp_size < raw.len() {
        let compressed = vstd::slice::slice_subrange(buffer.as_slice(), 0, comp_size);
        append_bytes(data, compressed);
        payload_len = comp_size;
        keep = true;
    } else {
        append_bytes(data, raw);
        payload_len = raw.len();
        keep = false;
    }
    let pad = (alignment - payload_len % alignment) % alignment;
    push_zeros(data, pad);
    (keep, (payload_len + pad) as u32)
}

/// Compresses a run of image bytes: cuts it into blocks of the block size (the
/// last one may be shorter), stores each one as LZ4 where that is shorter and
/// raw otherwise, and pads each stored block with zeros to the alignment.
/// The result carries `id`, a flag and a stored length per block, and the
/// stored blocks one after another.
pub fn compress_chunk(id: usize, data: &[u8], settings: &CompressionSettings) -> (out: MessageBlock)
    requires
        settings.valid(),
    ensures
        out.id == id,
        out.compressed@ == chunk_flags(data@, *settings),
        out.blocksize@ == chunk_sizes(data@, *settings),
        out.data@ == chunk_data(data@, *settings),
        chunk_decodes(data@, *settings),
{
    let bs = settings.block_size as usize;
    let alignment = block_alignment(settings.pos_shift);
    let acceleration = lz4_acceleration(settings.level);
    let bound = max_compressed_size(bs);
    let mut buffer: Vec<u8> = Vec::new();
    push_zeros(&mut buffer, bound);
    let mut out = MessageBlock { id, compressed: Vec::new(), blocksize: Vec::new(), data: Vec::new() };
    let len = data.len();
    let mut offset: usize = 0;
    let ghost blocks = chunk_blocks(data@, *settings);
    let ghost mut done: Seq<Seq<u8>> = Seq::empty();
    let ghost keep_fn = |b: Seq<u8>| keeps_compressed(b, *settings);
    let ghost size_fn = |b: Seq<u8>| stored_block(b, *settings).len() as u32;
    let ghost store_fn = |b: Seq<u8>| stored_block(b, *settings);
    assert(data@.skip(0) =~= data@);
    while offset < len
        invariant
            len == data@.len(),
            offset <= len,
            bs == settings.block_size,
            settings.valid(),
            alignment == settings.alignment(),
            1 <= alignment <= 16,
            acceleration == spec_acceleration(settings.level),
            buffer@.len() == lz4_compress_bound(bs as nat),
            blocks == chunk_blocks(data@, *settings),
            blocks == done + split_blocks(data@.skip(offset as int), bs as nat),
            out.id == id,
            keep_fn == (|b: Seq<u8>| keeps_compressed(b, *settings)),
            size_fn == (|b: Seq<u8>| stored_block(b, *settings).len() as u32),
            store_fn == (|b: Seq<u8>| stored_block(b, *settings)),
            out.compressed@ == done.map_values(keep_fn),
            out.blocksize@ == done.map_values(size_fn),
            out.data@ == concat(done.map_values(store_fn)),
            forall|i: int|
                0 <= i < done.len() ==> decodes_to(lz4_form(#[trigger] done[i], *settings), done[i])
                    && lz4_form(done[i], *settings).len() > 0,
        decreases len - offset,
    {
        let end = if len - offset <= bs {
            len
        } else {
            offset + bs
        };
        let raw = vstd::slice::slice_subrange(data, offset, end);
        let ghost rest = data@.skip(offset as int);
        assert(split_blocks(rest, bs as nat) =~= seq![raw@] + split_blocks(
            data@.skip(end as int),
            bs as nat,
        )) by {
            if rest.len() > bs {
                assert(rest.take(bs as int) =~= raw@);
                assert(rest.skip(bs as int) =~= data@.skip(end as int));
            } else {
                assert(rest =~= raw@);
                assert(data@.skip(end as int) =~= Seq::<u8>::empty());
                assert(split_blocks(data@.skip(end as int), bs as nat) =~= Seq::<Seq<u8>>::empty());
            }
        }
        let stored = store_block(raw, settings, acceleration, alignment, &mut buffer, &mut out.data);
        out.compressed.push(stored.0);
        out.blocksize.push(stored.1);
        proof {
            assert(keep_fn(raw@) == stored.0);
            assert(size_fn(raw@) == stored.1);
            let next = done.push(raw@);
            assert(next.map_values(keep_fn) =~= done.map_values(keep_fn).push(keep_fn(raw@)));
            assert(next.map_values(size_fn) =~= done.map_values(size_fn).push(size_fn(raw@)));
            assert(next.map_values(store_fn).drop_last() =~= done.map_values(store_fn));
            assert(blocks =~= next + split_blocks(data@.skip(end as int), bs as nat));
            assert forall|i: int| 0 <= i < next.len() implies decodes_to(
                lz4_form(#[trigger] next[i], *settings),
                next[i],
            ) && lz4_form(next[i], *settings).len() > 0 by {
                if i < done.len() {
                    assert(next[i] == done[i]);
                }
            }
            done = next;
        }
        offset = end;
    }
    assert(data@.skip(len as int) =~= Seq::<u8>::empty());
    assert(done =~= blocks);
    out
}

/// Total of a run of stored block lengths.
pub open spec fn seq_sum(sizes: Seq<u32>) -> nat
    decreases sizes.len(),
{
    if sizes.len() == 0 {
        0
    } else {
        seq_sum(sizes.drop_last()) + sizes.last() as nat
    }
}

/// The start position of each block, and after them the end of the last:
/// `start`, then each block right after the stored bytes of the one before.
pub open spec fn block_offsets(start: nat, sizes: Seq<u32>) -> Seq<nat>
    decreases sizes.len(),
{
    if sizes.len() == 0 {
        seq![start]
    } else {
        let before = block_offsets(start, sizes.drop_last());
        before.push(before.last() + sizes.last() as nat)
    }
}

/// The index table of blocks stored from `start` on with the given stored
/// lengths and compression flags: one entry per block, then the end position.
pub open spec fn spec_index_table(start: nat, sizes: Seq<u32>, flags: Seq<bool>, pos_shift: u8) -> Seq<u32> {
    let offsets = block_offsets(start, sizes);
    Seq::new(
        sizes.len() + 1,
        |i: int| index_entry(offsets[i] as u64, pos_shift, i < sizes.len() && !flags[i]),
    )
}

pub proof fn lemma_seq_sum_append(a: Seq<u32>, b: Seq<u32>)
    ensures
        seq_sum(a + b) == seq_sum(a) + seq_sum(b),
    decreases b.len(),
{
    if b.len() == 0 {
        assert(a + b =~= a);
    } else {
        lemma_seq_sum_append(a, b.drop_last());
        assert((a + b).drop_last() =~= a + b.drop_last());
    }
}

/// The offsets have one entry more than the blocks; they start at `start`,
/// step by the stored lengths, and end at `start` plus their total.
pub proof fn lemma_block_offsets(start: nat, sizes: Seq<u32>)
    ensures
        block_offsets(start, sizes).len() == sizes.len() + 1,
        block_offsets(start, sizes)[0] == start,
        block_offsets(start, sizes).last() == start + seq_sum(sizes),
        forall|i: int|
            0 <= i < sizes.len() ==> #[trigger] block_offsets(start, sizes)[i + 1] == block_offsets(
                start,
                sizes,
            )[i] + sizes[i],
    decreases sizes.len(),
{
    if sizes.len() > 0 {
        lemma_block_offsets(start, sizes.drop_last());
        let before = block_offsets(start, sizes.drop_last());
        assert forall|i: int| 0 <= i < sizes.len() implies #[trigger] block_offsets(start, sizes)[i
            + 1] == block_offsets(start, sizes)[i] + sizes[i] by {
            if i < sizes.len() - 1 {
                assert(sizes.drop_last()[i] == sizes[i]);
                assert(before[i + 1] == before[i] + sizes.drop_last()[i]);
            }
        }
    }
}

/// Builds the index table as the writer receives runs of stored blocks in order.
pub struct IndexWriter {
    entries: Vec<u32>,
    position: u64,
    pos_shift: u8,
    start: Ghost<nat>,
    sizes: Ghost<Seq<u32>>,
    flags: Ghost<Seq<bool>>,
}

impl IndexWriter {
    /// Where the first block is stored.
    pub closed spec fn start(&self) -> nat {
        self.start@
    }

    /// The stored lengths of the blocks recorded so far.
    pub closed spec fn sizes(&self) -> Seq<u32> {
        self.sizes@
    }

    /// The compression flags of the blocks recorded so far.
    pub closed spec fn flags(&self) -> Seq<bool> {
        self.flags@
    }

    /// The position shift of the index.
    pub closed spec fn pos_shift(&self) -> u8 {
        self.pos_shift
    }

    /// Where the next block will be stored.
    pub open spec fn next_position(&self) -> nat {
        self.start() + seq_sum(self.sizes())
    }

    pub closed spec fn wf(&self) -> bool {
        let offsets = block_offsets(self.start@, self.sizes@);
        &&& self.sizes@.len() == self.flags@.len()
        &&& self.pos_shift < 64
        &&& self.position == self.start@ + seq_sum(self.sizes@)
        &&& self.entries@ == Seq::new(
            self.sizes@.len(),
            |i: int| index_entry(offsets[i] as u64, self.pos_shift, !self.flags@[i]),
        )
    }

    /// A writer whose first block will be stored at `start`.
    pub fn new(start: u64, pos_shift: u8) -> (writer: Self)
        requires
            pos_shift < 64,
        ensures
            writer.wf(),
            writer.start() == start,
            writer.pos_shift() == pos_shift,
            writer.sizes() == Seq::<u32>::empty(),
            writer.flags() == Seq::<bool>::empty(),
    {
        let writer = IndexWriter {
            entries: Vec::new(),
            position: start,
            pos_shift,
            start: Ghost(start as nat),
            sizes: Ghost(Seq::empty()),
            flags: Ghost(Seq::empty()),
        };
        let ghost offsets = block_offsets(writer.start@, writer.sizes@);
        assert(writer.entries@ =~= Seq::new(
            writer.sizes@.len(),
            |i: int| index_entry(offsets[i] as u64, writer.pos_shift, !writer.flags@[i]),
        ));
        writer
    }

    /// Where the next block will be stored.
    pub fn position(&self) -> (position: u64)
        requires
            self.wf(),
        ensures
            position == self.next_position(),
    {
        self.position
    }

    /// Records the blocks of the next run: an entry per block, with the
    /// uncompressed bit where the block is stored raw.
    pub fn record(&mut self, block: &MessageBlock)
        requires
            old(self).wf(),
            block.compressed@.len() == block.blocksize@.len(),
            old(self).next_position() + seq_sum(block.blocksize@) <= u64::MAX,
        ensures
            final(self).wf(),
            final(self).start() == old(self).start(),
            final(self).pos_shift() == old(self).pos_shift(),
            final(self).sizes() == old(self).sizes() + block.blocksize@,
            final(self).flags() == old(self).flags() + block.compressed@,
    {
        let ghost old_sizes = self.sizes@;
        let ghost old_flags = self.flags@;
        let ghost start = self.start@;
        let n = block.blocksize.len();
        let mut i: usize = 0;
        proof {
            lemma_seq_sum_append(old_sizes, block.blocksize@);
            assert(block.blocksize@.take(0) =~= Seq::<u32>::empty());
            assert(old_sizes + block.blocksize@.take(0) =~= old_sizes);
            assert(old_flags + block.compressed@.take(0) =~= old_flags);
        }
        while i < n
            invariant
                self.wf(),
                i <= n,
                n == block.blocksize@.len(),
                n == block.compressed@.len(),
                self.start@ == start,
                self.sizes@ == old_sizes + block.blocksize@.take(i as int),
                self.flags@ == old_flags + block.compressed@.take(i as int),
                start + seq_sum(old_sizes + block.blocksize@) <= u64::MAX,
                self.pos_shift == old(self).pos_shift,
            decreases n - i,
        {
            let size = block.blocksize[i];
            let raw = !block.compressed[i];
            let ghost before = self.sizes@;
            let ghost before_flags = self.flags@;
            let ghost next = before.push(size);
            proof {
                assert(old_sizes + block.blocksize@ =~= next + block.blocksize@.skip(i + 1));
                lemma_seq_sum_append(next, block.blocksize@.skip(i + 1));
                assert(next.drop_last() =~= before);
            }
            let entry = make_index_entry(self.position, self.pos_shift, raw);
            self.entries.push(entry);
            self.position = self.position + size as u64;
            proof {
                self.sizes@ = next;
                self.flags@ = before_flags.push(!raw);
                assert(block.blocksize@.take(i + 1) =~= block.blocksize@.take(i as int).push(size));
                assert(block.compressed@.take(i + 1) =~= block.compressed@.take(i as int).push(!raw));
                assert(self.sizes@ =~= old_sizes + block.blocksize@.take(i + 1));
                assert(self.flags@ =~= old_flags + block.compressed@.take(i + 1));
                lemma_block_offsets(start, before);
                let offsets = block_offsets(start, self.sizes@);
                let before_offsets = block_offsets(start, before);
                assert(offsets =~= before_offsets.push(before_offsets.last() + size as nat));
                assert(self.entries@ =~= Seq::new(
                    self.sizes@.len(),
                    |k: int| index_entry(offsets[k] as u64, self.pos_shift, !self.flags@[k]),
                ));
            }
            i = i + 1;
        }
        proof {
            assert(block.blocksize@.take(n as int) =~= block.blocksize@);
            assert(block.compressed@.take(n as int) =~= block.compressed@);
        }
    }

    /// The finished index table: the recorded entries and then the end position
    /// of the last block.
    pub fn finish(self) -> (table: Vec<u32>)
        requires
            self.wf(),
        ensures
            table@ == spec_index_table(self.start(), self.sizes(), self.flags(), self.pos_shift()),
    {
        let mut entries = self.entries;
        let last = make_index_entry(self.position, self.pos_shift, false);
        entries.push(last);
        proof {
            lemma_block_offsets(self.start@, self.sizes@);
            assert(entries@ =~= spec_index_table(
                self.start@,
                self.sizes@,
                self.flags@,
                self.pos_shift,
            ));
        }
        entries
    }
}

/// Largest image that `compress_image` accepts: its file positions must fit 64 bits.
pub const MAX_IMAGE_SIZE: u64 = 0x0100_0000_0000_0000;

/// Zero bytes that the HDL fix appends to bring a file of `end` bytes to a whole
/// number of 2048-byte sectors.
pub open spec fn hdl_padding(end: nat) -> nat {
    if end % 2048 == 0 {
        0
    } else {
        (2048 - end % 2048) as nat
    }
}

/// The settings used for an image of `size` bytes.
pub open spec fn image_settings(size: nat, block_size: u32, level: i32, disable_hc: bool) -> CompressionSettings {
    CompressionSettings { block_size, level, disable_hc, pos_shift: spec_pos_shift(size) }
}

/// The ZSO file for an image: the header, the index table, zeros up to the
/// aligned start of the data, the stored blocks, and with the HDL fix zeros up
/// to a whole 2048-byte sector.
pub open spec fn spec_compress_image(
    data: Seq<u8>,
    block_size: u32,
    level: i32,
    disable_hc: bool,
    hdl_fix: bool,
) -> Seq<u8> {
    let settings = image_settings(data.len(), block_size, level, disable_hc);
    let pos_shift = settings.pos_shift;
    let blocks = block_count(data.len(), block_size as nat);
    let start = data_start(blocks, pos_shift);
    let body = chunk_data(data, settings);
    let table = spec_index_table(
        start,
        chunk_sizes(data, settings),
        chunk_flags(data, settings),
        pos_shift,
    );
    let end = start + body.len();
    spec_header(data.len() as u64, block_size, pos_shift) + disk_bytes(table) + zeros(
        (start - index_end(blocks)) as nat,
    ) + body + zeros(
        if hdl_fix {
            hdl_padding(end)
        } else {
            0
        },
    )
}

/// The stored form of a block is at most fifteen bytes longer than the block.
pub proof fn lemma_stored_block_len(raw: Seq<u8>, settings: CompressionSettings)
    requires
        settings.valid(),
    ensures
        stored_payload(raw, settings).len() <= raw.len(),
        stored_block(raw, settings).len() <= raw.len() + 15,
        stored_block(raw, settings).len() == stored_payload(raw, settings).len() + padding_needed(
            stored_payload(raw, settings).len(),
            settings.alignment(),
        ),
        stored_block(raw, settings).len() % settings.alignment() == 0,
{
    vstd::arithmetic::power2::lemma2_to64();
    let unit = settings.alignment();
    let len = stored_payload(raw, settings).len();
    assert(1 <= unit <= 16);
    assert((len + padding_needed(len, unit)) % unit == 0) by {
        let u = unit as int;
        vstd::arithmetic::div_mod::lemma_fundamental_div_mod(len as int, u);
        vstd::arithmetic::div_mod::lemma_mod_bound(len as int, u);
        let q = len as int / u;
        let r = len as int % u;
        if r == 0 {
            vstd::arithmetic::div_mod::lemma_mod_self_0(u);
            assert(padding_needed(len, unit) == 0);
            vstd::arithmetic::div_mod::lemma_mod_multiples_basic(q, u);
            assert(q * u == u * q) by (nonlinear_arith);
        } else {
            vstd::arithmetic::div_mod::lemma_small_mod((u - r) as nat, u as nat);
            assert(len + padding_needed(len, unit) == u * (q + 1)) by (nonlinear_arith)
                requires
                    len as int == u * q + r,
                    padding_needed(len, unit) == u - r,
            ;
            vstd::arithmetic::div_mod::lemma_mod_multiples_basic(q + 1, u);
            assert((q + 1) * u == u * (q + 1)) by (nonlinear_arith);
        }
    }
    assert(padding_needed(len, unit) < unit) by {
        vstd::arithmetic::div_mod::lemma_mod_bound(len as int, unit as int);
        vstd::arithmetic::div_mod::lemma_mod_bound((unit - (len as int) % (unit as int)), unit as int);
    }
}

/// Lengths of the stored blocks of a run: their total is the length of the
/// stored run, and that is at most sixteen times the run.
pub proof fn lemma_chunk_lengths(data: Seq<u8>, settings: CompressionSettings)
    requires
        settings.valid(),
    ensures
        seq_sum(chunk_sizes(data, settings)) == chunk_data(data, settings).len(),
        chunk_data(data, settings).len() <= 16 * data.len(),
        chunk_sizes(data, settings).len() == block_count(data.len(), settings.block_size as nat),
        chunk_flags(data, settings).len() == chunk_sizes(data, settings).len(),
{
    let blocks = chunk_blocks(data, settings);
    crate::utils::lemma_split_blocks(data, settings.block_size as nat);
    lemma_parts_lengths(blocks, settings);
}

proof fn lemma_parts_lengths(parts: Seq<Seq<u8>>, settings: CompressionSettings)
    requires
        settings.valid(),
        forall|i: int| 0 <= i < parts.len() ==> 0 < (#[trigger] parts[i]).len() <= settings.block_size,
    ensures
        seq_sum(parts.map_values(|b: Seq<u8>| stored_block(b, settings).len() as u32)) == concat(
            stored_blocks(parts, settings),
        ).len(),
        concat(stored_blocks(parts, settings)).len() <= 16 * concat(parts).len(),
    decreases parts.len(),
{
    let sizes = parts.map_values(|b: Seq<u8>| stored_block(b, settings).len() as u32);
    let stored = stored_blocks(parts, settings);
    if parts.len() > 0 {
        let rest = parts.drop_last();
        lemma_parts_lengths(rest, settings);
        assert(sizes.drop_last() =~= rest.map_values(
            |b: Seq<u8>| stored_block(b, settings).len() as u32,
        ));
        assert(stored.drop_last() =~= stored_blocks(rest, settings));
        lemma_stored_block_len(parts.last(), settings);
    } else {
        assert(concat(stored) =~= Seq::<u8>::empty());
    }
}

/// Compresses a whole image into a ZSO file: header, index table, aligned
/// stored blocks, and with `hdl_fix` zeros up to a whole 2048-byte sector.
/// The position shift is chosen from the image size.
pub fn compress_image(data: &[u8], block_size: u32, level: i32, disable_hc: bool, hdl_fix: bool) -> (image: Vec<u8>)
    requires
        MIN_BLOCK_SIZE <= block_size <= MAX_BLOCK_SIZE,
        1 <= level <= 12,
        data@.len() <= MAX_IMAGE_SIZE,
    ensures
        image@ == spec_compress_image(data@, block_size, level, disable_hc, hdl_fix),
        spec_parse_header(image@) == Ok::<ZsoHeader, ZsoError>(
            ZsoHeader { original_size: data@.len() as u64, block_size, pos_shift: image@[21] },
        ),
        image@[21] <= 4,
        image@[21] == 4 || data@.len() < pow2((31 + image@[21]) as nat) - 1,
        image@[21] == 0 || data@.len() >= pow2((30 + image@[21]) as nat) - 1,
        chunk_decodes(data@, image_settings(data@.len(), block_size, level, disable_hc)),
        data@.len() + data@.len() / 64 + 64 <= pow2((31 + image@[21]) as nat)
            ==> crate::decompress::spec_decompress_image(image@) == Ok::<
            Seq<u8>,
            crate::format::ZsoError,
        >(data@),
        crate::roundtrip::positions_fit(data@, block_size, level, disable_hc)
            ==> crate::decompress::spec_decompress_image(image@) == Ok::<
            Seq<u8>,
            crate::format::ZsoError,
        >(data@),
{
    let size = data.len() as u64;
    let pos_shift = pos_shift_for_size(size);
    let settings = CompressionSettings { block_size, level, disable_hc, pos_shift };
    let blocks = total_blocks(size, block_size);
    proof {
        assert(blocks <= size) by (nonlinear_arith)
            requires
                blocks == (size + block_size - 1) / (block_size as int),
                block_size >= 2048,
        {
            if size == 0 {
                assert((block_size - 1) / (block_size as int) == 0) by (nonlinear_arith)
                    requires
                        block_size >= 1,
                ;
            } else {
                vstd::arithmetic::div_mod::lemma_div_is_ordered(
                    size + block_size - 1,
                    (size as int) * (block_size as int),
                    block_size as int,
                );
                vstd::arithmetic::div_mod::lemma_div_by_multiple(size as int, block_size as int);
            }
        }
        vstd::arithmetic::power2::lemma2_to64();
    }
    let index_end: u64 = 24 + 4 * (blocks + 1);
    proof {
        let unit = pow2(pos_shift as nat);
        vstd::arithmetic::div_mod::lemma_mod_bound(index_end as int, unit as int);
    }
    let start = crate::utils::padding_calculator(pos_shift, index_end);
    let chunk = compress_chunk(0, data, &settings);
    proof {
        lemma_chunk_lengths(data@, settings);
    }
    let mut writer = IndexWriter::new(start, pos_shift);
    writer.record(&chunk);
    let end = writer.position();
    let table = writer.finish();
    let mut image = build_header(size, block_size, pos_shift);
    let table_bytes = crate::utils::u32_to_disk_u8(&table);
    append_bytes(&mut image, table_bytes.as_slice());
    push_zeros(&mut image, (start - index_end) as usize);
    append_bytes(&mut image, chunk.data.as_slice());
    let pad = if hdl_fix {
        hdl_padding_len(end)
    } else {
        0
    };
    push_zeros(&mut image, pad as usize);
    proof {
        assert(table@ == spec_index_table(
            start as nat,
            chunk_sizes(data@, settings),
            chunk_flags(data@, settings),
            pos_shift,
        )) by {
            assert(Seq::<u32>::empty() + chunk.blocksize@ =~= chunk.blocksize@);
            assert(Seq::<bool>::empty() + chunk.compressed@ =~= chunk.compressed@);
        }
        assert(image@ =~= spec_compress_image(data@, block_size, level, disable_hc, hdl_fix));
        lemma_image_header(data@, block_size, level, disable_hc, hdl_fix);
        if data@.len() + data@.len() / 64 + 64 <= pow2((31 + image@[21]) as nat) {
            crate::roundtrip::lemma_round_trip_by_size(data@, block_size, level, disable_hc, hdl_fix);
        }
        if crate::roundtrip::positions_fit(data@, block_size, level, disable_hc) {
            crate::roundtrip::lemma_decompress_compressed_image(
                data@,
                block_size,
                level,
                disable_hc,
                hdl_fix,
            );
        }
    }
    image
}

/// Zero bytes that the HDL fix appends to a file of `end` bytes.
pub fn hdl_padding_len(end: u64) -> (padding: u64)
    ensures
        padding == hdl_padding(end as nat),
{
    let rem = end % 2048;
    if rem == 0 {
        0
    } else {
        2048 - rem
    }
}

/// A run of at least one block cuts into its first block and the blocks of the rest.
proof fn lemma_split_unfold(data: Seq<u8>, block_size: nat)
    requires
        0 < block_size <= data.len(),
    ensures
        split_blocks(data, block_size) == seq![data.take(block_size as int)] + split_blocks(
            data.skip(block_size as int),
            block_size,
        ),
{
    if data.len() == block_size {
        assert(data.take(block_size as int) =~= data);
        assert(data.skip(block_size as int) =~= Seq::<u8>::empty());
        assert(split_blocks(data.skip(block_size as int), block_size) =~= Seq::<Seq<u8>>::empty());
        assert(seq![data.take(block_size as int)] + Seq::<Seq<u8>>::empty() =~= seq![data]);
    }
}

/// Cutting a run whose length is a multiple of the block size in front of
/// another gives the blocks of the first followed by those of the second.
pub proof fn lemma_split_blocks_append(a: Seq<u8>, b: Seq<u8>, block_size: nat)
    requires
        block_size > 0,
        (a.len() as int) % (block_size as int) == 0,
    ensures
        split_blocks(a + b, block_size) == split_blocks(a, block_size) + split_blocks(b, block_size),
    decreases a.len(),
{
    if a.len() == 0 {
        assert(a + b =~= b);
        assert(split_blocks(a, block_size) =~= Seq::<Seq<u8>>::empty());
        assert(Seq::<Seq<u8>>::empty() + split_blocks(b, block_size) =~= split_blocks(b, block_size));
    } else {
        assert(a.len() >= block_size) by {
            vstd::arithmetic::div_mod::lemma_mod_self_0(block_size as int);
            if a.len() < block_size {
                vstd::arithmetic::div_mod::lemma_small_mod(a.len(), block_size);
            }
        }
        let rest = a.skip(block_size as int);
        assert((rest.len() as int) % (block_size as int) == 0) by {
            vstd::arithmetic::div_mod::lemma_mod_sub_multiples_vanish(a.len() as int, block_size as int);
        }
        lemma_split_blocks_append(rest, b, block_size);
        lemma_split_unfold(a, block_size);
        lemma_split_unfold(a + b, block_size);
        assert((a + b).take(block_size as int) =~= a.take(block_size as int));
        assert((a + b).skip(block_size as int) =~= rest + b);
        assert(split_blocks(a + b, block_size) =~= split_blocks(a, block_size) + split_blocks(
            b,
            block_size,
        ));
    }
}

/// Compressing a run in two pieces, the first a whole number of blocks long,
/// gives the flags, stored lengths and stored bytes of compressing it at once:
/// the reader may cut the image into messages of whole blocks.
pub proof fn lemma_chunk_append(a: Seq<u8>, b: Seq<u8>, settings: CompressionSettings)
    requires
        settings.valid(),
        (a.len() as int) % (settings.block_size as int) == 0,
    ensures
        chunk_flags(a + b, settings) == chunk_flags(a, settings) + chunk_flags(b, settings),
        chunk_sizes(a + b, settings) == chunk_sizes(a, settings) + chunk_sizes(b, settings),
        chunk_data(a + b, settings) == chunk_data(a, settings) + chunk_data(b, settings),
{
    let bs = settings.block_size as nat;
    lemma_split_blocks_append(a, b, bs);
    let pa = chunk_blocks(a, settings);
    let pb = chunk_blocks(b, settings);
    assert(chunk_flags(a + b, settings) =~= chunk_flags(a, settings) + chunk_flags(b, settings));
    assert(chunk_sizes(a + b, settings) =~= chunk_sizes(a, settings) + chunk_sizes(b, settings));
    assert(stored_blocks(pa + pb, settings) =~= stored_blocks(pa, settings) + stored_blocks(
        pb,
        settings,
    ));
    crate::utils::lemma_concat_append(stored_blocks(pa, settings), stored_blocks(pb, settings));
}

/// The flags of each of `pieces`, one after another.
pub open spec fn pieces_flags(pieces: Seq<Seq<u8>>, settings: CompressionSettings) -> Seq<bool>
    decreases pieces.len(),
{
    if pieces.len() == 0 {
        Seq::empty()
    } else {
        pieces_flags(pieces.drop_last(), settings) + chunk_flags(pieces.last(), settings)
    }
}

/// The stored lengths of each of `pieces`, one after another.
pub open spec fn pieces_sizes(pieces: Seq<Seq<u8>>, settings: CompressionSettings) -> Seq<u32>
    decreases pieces.len(),
{
    if pieces.len() == 0 {
        Seq::empty()
    } else {
        pieces_sizes(pieces.drop_last(), settings) + chunk_sizes(pieces.last(), settings)
    }
}

/// Pieces that are all a whole number of blocks long join into a run that is too.
proof fn lemma_whole_blocks_concat(pieces: Seq<Seq<u8>>, block_size: nat)
    requires
        block_size > 0,
        forall|j: int| 0 <= j < pieces.len() ==> ((#[trigger] pieces[j]).len() as int) % (
        block_size as int) == 0,
    ensures
        (concat(pieces).len() as int) % (block_size as int) == 0,
    decreases pieces.len(),
{
    if pieces.len() == 0 {
        assert(concat(pieces) =~= Seq::<u8>::empty());
    } else {
        let rest = pieces.drop_last();
        assert forall|j: int| 0 <= j < rest.len() implies ((#[trigger] rest[j]).len() as int) % (
        block_size as int) == 0 by {
            assert(rest[j] == pieces[j]);
        }
        lemma_whole_blocks_concat(rest, block_size);
        vstd::arithmetic::div_mod::lemma_add_mod_noop(
            concat(rest).len() as int,
            pieces.last().len() as int,
            block_size as int,
        );
        vstd::arithmetic::div_mod::lemma_small_mod(0, block_size);
    }
}

/// Compressing the pieces that the reader cuts an image into, all but the last
/// a whole number of blocks long, and joining the results in the order of the
/// pieces gives the flags, stored lengths and stored bytes of compressing the
/// image at once. So the file written does not depend on how many workers
/// compress the pieces, nor on the order in which they finish: the writer puts
/// the results back in piece order.
pub proof fn lemma_pieces_compress(pieces: Seq<Seq<u8>>, settings: CompressionSettings)
    requires
        settings.valid(),
        forall|j: int|
            0 <= j < pieces.len() - 1 ==> ((#[trigger] pieces[j]).len() as int) % (
            settings.block_size as int) == 0,
    ensures
        chunk_flags(concat(pieces), settings) == pieces_flags(pieces, settings),
        chunk_sizes(concat(pieces), settings) == pieces_sizes(pieces, settings),
        chunk_data(concat(pieces), settings) == concat(
            pieces.map_values(|p: Seq<u8>| chunk_data(p, settings)),
        ),
    decreases pieces.len(),
{
    let out = pieces.map_values(|p: Seq<u8>| chunk_data(p, settings));
    if pieces.len() == 0 {
        assert(concat(pieces) =~= Seq::<u8>::empty());
        assert(concat(out) =~= Seq::<u8>::empty());
        assert(split_blocks(Seq::<u8>::empty(), settings.block_size as nat) =~= Seq::<Seq<u8>>::empty());
        assert(chunk_flags(concat(pieces), settings) =~= Seq::<bool>::empty());
        assert(chunk_sizes(concat(pieces), settings) =~= Seq::<u32>::empty());
        assert(stored_blocks(chunk_blocks(concat(pieces), settings), settings) =~= Seq::<Seq<u8>>::empty());
    } else {
        let rest = pieces.drop_last();
        assert forall|j: int| 0 <= j < rest.len() - 1 implies ((#[trigger] rest[j]).len() as int) % (
        settings.block_size as int) == 0 by {
            assert(rest[j] == pieces[j]);
        }
        lemma_pieces_compress(rest, settings);
        assert forall|j: int| 0 <= j < rest.len() implies ((#[trigger] rest[j]).len() as int) % (
        settings.block_size as int) == 0 by {
            assert(rest[j] == pieces[j]);
        }
        lemma_whole_blocks_concat(rest, settings.block_size as nat);
        lemma_chunk_append(concat(rest), pieces.last(), settings);
        assert(out.drop_last() =~= rest.map_values(|p: Seq<u8>| chunk_data(p, settings)));
    }
}

/// Blocks stored from an aligned position on all start at aligned positions:
/// every stored block is padded to the alignment.
pub proof fn lemma_block_offsets_aligned(data: Seq<u8>, settings: CompressionSettings, start: nat)
    requires
        settings.valid(),
        start % settings.alignment() == 0,
    ensures
        forall|i: int|
            0 <= i < block_offsets(start, chunk_sizes(data, settings)).len() ==> (#[trigger] block_offsets(
                start,
                chunk_sizes(data, settings),
            )[i]) % settings.alignment() == 0,
{
    let sizes = chunk_sizes(data, settings);
    let parts = chunk_blocks(data, settings);
    crate::utils::lemma_split_blocks(data, settings.block_size as nat);
    assert forall|i: int| 0 <= i < sizes.len() implies (#[trigger] sizes[i] as nat) % settings.alignment()
        == 0 by {
        lemma_stored_block_len(parts[i], settings);
    }
    vstd::arithmetic::power2::lemma2_to64();
    lemma_offsets_aligned(start, sizes, settings.alignment());
}

proof fn lemma_offsets_aligned(start: nat, sizes: Seq<u32>, unit: nat)
    requires
        unit > 0,
        start % unit == 0,
        forall|i: int| 0 <= i < sizes.len() ==> (#[trigger] sizes[i] as nat) % unit == 0,
    ensures
        forall|i: int|
            0 <= i < block_offsets(start, sizes).len() ==> (#[trigger] block_offsets(start, sizes)[i])
                % unit == 0,
    decreases sizes.len(),
{
    lemma_block_offsets(start, sizes);
    if sizes.len() > 0 {
        let before = block_offsets(start, sizes.drop_last());
        lemma_offsets_aligned(start, sizes.drop_last(), unit);
        lemma_block_offsets(start, sizes.drop_last());
        let last = before.last() + sizes.last() as nat;
        assert(last % unit == 0) by {
            vstd::arithmetic::div_mod::lemma_add_mod_noop(
                before.last() as int,
                sizes.last() as int,
                unit as int,
            );
            vstd::arithmetic::div_mod::lemma_small_mod(0, unit);
        }
        assert(block_offsets(start, sizes) =~= before.push(last));
    }
}

/// The layout of a compressed image: an index of one entry per block plus one,
/// whose last entry marks where the stored blocks end; the file ends there, or
/// with the HDL fix at the next whole 2048-byte sector.
pub proof fn lemma_image_layout(data: Seq<u8>, block_size: u32, level: i32, disable_hc: bool, hdl_fix: bool)
    requires
        MIN_BLOCK_SIZE <= block_size <= MAX_BLOCK_SIZE,
        1 <= level <= 12,
    ensures
        ({
            let settings = image_settings(data.len(), block_size, level, disable_hc);
            let blocks = block_count(data.len(), block_size as nat);
            let start = data_start(blocks, settings.pos_shift);
            let end = start + chunk_data(data, settings).len();
            let table = spec_index_table(
                start,
                chunk_sizes(data, settings),
                chunk_flags(data, settings),
                settings.pos_shift,
            );
            let image = spec_compress_image(data, block_size, level, disable_hc, hdl_fix);
            &&& table.len() == blocks + 1
            &&& table.last() == index_entry(end as u64, settings.pos_shift, false)
            &&& hdl_fix ==> image.len() == crate::utils::align_up(end, 2048)
            &&& hdl_fix ==> image.len() % 2048 == 0
            &&& !hdl_fix ==> image.len() == end
        }),
{
    let settings = image_settings(data.len(), block_size, level, disable_hc);
    let blocks = block_count(data.len(), block_size as nat);
    let start = data_start(blocks, settings.pos_shift);
    let sizes = chunk_sizes(data, settings);
    let body = chunk_data(data, settings);
    let end = start + body.len();
    lemma_chunk_lengths(data, settings);
    lemma_block_offsets(start, sizes);
    vstd::arithmetic::power2::lemma2_to64();
    assert(spec_header(data.len() as u64, block_size, settings.pos_shift).len() == 24) by {
        reveal_with_fuel(crate::utils::le_bytes, 9);
    }
    crate::utils::lemma_align_up(index_end(blocks), pow2(settings.pos_shift as nat));
    crate::utils::lemma_align_up(end, 2048);
}

/// The header of a compressed image starts with `ZISO` and the header size 24,
/// holds format version 1 at byte 20 and zeros at bytes 22 and 23, and reads
/// back as the image's byte size, the block size, and the position shift at
/// byte 21; that shift is the smallest
/// `s` from 0 to 4 for which the image size is below `2^(31 + s) - 1` (4 where
/// there is none), so it is chosen from the image's size in bytes.
pub proof fn lemma_image_header(data: Seq<u8>, block_size: u32, level: i32, disable_hc: bool, hdl_fix: bool)
    requires
        data.len() <= u64::MAX,
    ensures
        ({
            let image = spec_compress_image(data, block_size, level, disable_hc, hdl_fix);
            let shift = image[21];
            &&& spec_parse_header(image) == Ok::<ZsoHeader, ZsoError>(
                ZsoHeader { original_size: data.len() as u64, block_size, pos_shift: shift },
            )
            &&& image.take(4) == seq![0x5Au8, 0x49u8, 0x53u8, 0x4Fu8]
            &&& image.subrange(4, 8) == seq![24u8, 0u8, 0u8, 0u8]
            &&& image[20] == 1 && image[22] == 0 && image[23] == 0
            &&& shift <= 4
            &&& (shift == 4 || data.len() < pow2((31 + shift) as nat) - 1)
            &&& (shift == 0 || data.len() >= pow2((30 + shift) as nat) - 1)
        }),
{
    let settings = image_settings(data.len(), block_size, level, disable_hc);
    let shift = settings.pos_shift;
    let blocks = block_count(data.len(), block_size as nat);
    let start = data_start(blocks, shift);
    let body = chunk_data(data, settings);
    let table = spec_index_table(start, chunk_sizes(data, settings), chunk_flags(data, settings), shift);
    let end = start + body.len();
    let pad = if hdl_fix {
        hdl_padding(end)
    } else {
        0
    };
    let header = spec_header(data.len() as u64, block_size, shift);
    let rest = disk_bytes(table) + zeros((start - index_end(blocks)) as nat) + body + zeros(pad);
    let image = spec_compress_image(data, block_size, level, disable_hc, hdl_fix);
    assert(image == header + disk_bytes(table) + zeros((start - index_end(blocks)) as nat) + body
        + zeros(pad));
    assert(header + rest =~= image);
    crate::format::lemma_header_roundtrip(data.len() as u64, block_size, shift, rest);
    crate::format::lemma_pos_shift_is_smallest(data.len());
    crate::utils::lemma_byte_range_values();
    crate::utils::lemma_le_value_of_bytes(data.len(), 8);
    crate::utils::lemma_le_value_of_bytes(block_size as nat, 4);
    assert(crate::utils::le_bytes(24, 4) =~= seq![24u8, 0u8, 0u8, 0u8]) by {
        reveal_with_fuel(crate::utils::le_bytes, 5);
    }
    assert(image.take(4) =~= header.take(4));
    assert(image.subrange(4, 8) =~= header.subrange(4, 8));
    assert(image[20] == header[20] && image[22] == header[22] && image[23] == header[23]);
    assert(image[21] == shift) by {
        assert(spec_parse_header(image) == Ok::<ZsoHeader, ZsoError>(
            ZsoHeader { original_size: data.len() as u64, block_size, pos_shift: shift },
        ));
    }
}

/// Block `i` of a run cut into blocks is the run's bytes from `i * block_size`
/// to the next multiple of the block size, or to the end of the run.
pub proof fn lemma_split_block_bytes(data: Seq<u8>, block_size: nat, i: int)
    requires
        block_size > 0,
        0 <= i,
        i * block_size < data.len(),
    ensures
        i < split_blocks(data, block_size).len(),
        split_blocks(data, block_size)[i] == data.subrange(
            i * block_size,
            if (i + 1) * block_size <= data.len() {
                (i + 1) * block_size
            } else {
                data.len() as int
            },
        ),
    decreases data.len(),
{
    let parts = split_blocks(data, block_size);
    let b = block_size as int;
    assert((i + 1) * b == i * b + b) by (nonlinear_arith);
    if data.len() <= block_size {
        if i > 0 {
            assert(i * b >= b) by (nonlinear_arith)
                requires
                    i >= 1,
                    b > 0,
            ;
        }
        assert(i == 0);
        assert(0 * b == 0);
        assert(data.subrange(0, data.len() as int) =~= data);
    } else {
        let rest = data.skip(b);
        if i == 0 {
            assert(0 * b == 0);
            assert(parts[0] == data.take(b));
            assert(data.take(b) =~= data.subrange(0, b));
        } else {
            assert((i - 1) * b + b == i * b) by (nonlinear_arith);
            lemma_split_block_bytes(rest, block_size, i - 1);
            assert(parts[i] == split_blocks(rest, block_size)[i - 1]);
            if (i + 1) * b <= data.len() {
                assert(rest.subrange((i - 1) * b, i * b) =~= data.subrange(i * b, (i + 1) * b));
            } else {
                assert(rest.subrange((i - 1) * b, rest.len() as int) =~= data.subrange(
                    i * b,
                    data.len() as int,
                ));
            }
        }
    }
}

/// What compressing a run does to block `i`, the bytes from `i * block_size`
/// on: LZ4 HC at the requested level, or plain LZ4 at acceleration
/// `2000 - (level - 1) * 2000 / 11` when HC is disabled, encodes the block;
/// the block is stored compressed exactly when that encoding is shorter than the
/// block, and then the encoding is what is stored, else the block itself; the
/// stored bytes, at the total of the stored lengths before them, are that
/// payload followed by fewer zeros than the alignment `2^pos_shift`, up to a
/// multiple of it.
pub proof fn lemma_chunk_block(data: Seq<u8>, settings: CompressionSettings, i: int)
    requires
        settings.valid(),
        0 <= i,
        i * settings.block_size < data.len(),
    ensures
        ({
            let b = settings.block_size as int;
            let raw = data.subrange(
                i * b,
                if (i + 1) * b <= data.len() {
                    (i + 1) * b
                } else {
                    data.len() as int
                },
            );
            let encoded = if settings.disable_hc {
                lz4_fast_compressed(raw, (2000 - (settings.level - 1) * 2000 / 11) as i32)
            } else {
                lz4_hc_compressed(raw, settings.level)
            };
            let flags = chunk_flags(data, settings);
            let sizes = chunk_sizes(data, settings);
            let payload = if flags[i] {
                encoded
            } else {
                raw
            };
            let offsets = block_offsets(0, sizes);
            &&& i < flags.len() && i < sizes.len()
            &&& flags[i] == (encoded.len() < raw.len())
            &&& payload.len() <= sizes[i] < payload.len() + pow2(settings.pos_shift as nat)
            &&& (sizes[i] as nat) % pow2(settings.pos_shift as nat) == 0
            &&& chunk_data(data, settings).subrange(offsets[i] as int, offsets[i + 1] as int)
                == payload + zeros((sizes[i] - payload.len()) as nat)
        }),
{
    let bs = settings.block_size as nat;
    let parts = chunk_blocks(data, settings);
    let sizes = chunk_sizes(data, settings);
    lemma_split_block_bytes(data, bs, i);
    crate::utils::lemma_split_blocks(data, bs);
    let raw = parts[i];
    lemma_stored_block_len(raw, settings);
    vstd::arithmetic::power2::lemma2_to64();
    let unit = settings.alignment();
    let plen = stored_payload(raw, settings).len();
    assert(padding_needed(plen, unit) < unit) by {
        vstd::arithmetic::div_mod::lemma_mod_bound(plen as int, unit as int);
        vstd::arithmetic::div_mod::lemma_mod_bound((unit - (plen as int) % (unit as int)), unit as int);
    }
    let stored_parts = stored_blocks(parts, settings);
    assert forall|j: int| 0 <= j < stored_parts.len() implies (#[trigger] stored_parts[j]).len()
        == sizes[j] by {
        lemma_stored_block_len(parts[j], settings);
    }
    crate::roundtrip::lemma_concat_slices(stored_parts, sizes, 0);
    assert(stored_parts[i] == stored_block(raw, settings));
    assert(stored_block(raw, settings) =~= stored_payload(raw, settings) + zeros(
        (sizes[i] - plen) as nat,
    ));
}

} // verus!
