//! Little-endian byte encodings and offset alignment used by the ZSO layout.

use vstd::prelude::*;

verus! {

/// The `n` low bytes of `v`, least significant first.
pub open spec fn le_bytes(v: nat, n: nat) -> Seq<u8>
    decreases n,
{
    if n == 0 {
        Seq::empty()
    } else {
        seq![(v % 256) as u8] + le_bytes(v / 256, (n - 1) as nat)
    }
}

/// The number whose little-endian bytes are `b`.
pub open spec fn le_value(b: Seq<u8>) -> nat
    decreases b.len(),
{
    if b.len() == 0 {
        0
    } else {
        b[0] as nat + 256 * le_value(b.drop_first())
    }
}

/// `256` to the power `n`: one more than the largest value that `n` bytes hold.
pub open spec fn byte_range(n: nat) -> nat
    decreases n,
{
    if n == 0 {
        1
    } else {
        256 * byte_range((n - 1) as nat)
    }
}

/// The on-disk form of a table of 32-bit words: each word as four little-endian bytes.
pub open spec fn disk_bytes(words: Seq<u32>) -> Seq<u8> {
    Seq::new(4 * words.len(), |j: int| le_bytes(words[j / 4] as nat, 4)[j % 4])
}

/// The table of 32-bit words read back from bytes, four at a time; a trailing
/// group of fewer than four bytes is ignored.
pub open spec fn disk_words(bytes: Seq<u8>) -> Seq<u32> {
    Seq::new(bytes.len() / 4, |i: int| le_value(bytes.subrange(4 * i, 4 * i + 4)) as u32)
}

/// `pos` rounded up to the next multiple of `unit`.
pub open spec fn align_up(pos: nat, unit: nat) -> nat {
    if pos % unit == 0 {
        pos
    } else {
        pos + (unit - pos % unit) as nat
    }
}

pub proof fn lemma_byte_range_values()
    ensures
        byte_range(0) == 1,
        byte_range(1) == 256,
        byte_range(2) == 65536,
        byte_range(3) == 16777216,
        byte_range(4) == 0x1_0000_0000,
        byte_range(8) == 0x1_0000_0000_0000_0000,
{
    reveal_with_fuel(byte_range, 9);
}

/// Reading back the `n` little-endian bytes of a value that fits in them gives the value.
pub proof fn lemma_le_value_of_bytes(v: nat, n: nat)
    requires
        v < byte_range(n),
    ensures
        le_bytes(v, n).len() == n,
        le_value(le_bytes(v, n)) == v,
    decreases n,
{
    if n > 0 {
        let r = byte_range((n - 1) as nat);
        assert(v / 256 < r) by (nonlinear_arith)
            requires
                v < 256 * r,
        ;
        lemma_le_value_of_bytes(v / 256, (n - 1) as nat);
        let b = le_bytes(v, n);
        assert(b.drop_first() =~= le_bytes(v / 256, (n - 1) as nat));
    }
}

/// Writing out the value of some bytes gives the same bytes back.
pub proof fn lemma_le_bytes_of_value(b: Seq<u8>)
    ensures
        le_value(b) < byte_range(b.len()),
        le_bytes(le_value(b), b.len()) == b,
    decreases b.len(),
{
    if b.len() > 0 {
        let rest = b.drop_first();
        lemma_le_bytes_of_value(rest);
        let v = le_value(b);
        let r = byte_range(rest.len());
        let w = le_value(rest);
        assert(v % 256 == b[0] as nat && v / 256 == w && v < 256 * r) by (nonlinear_arith)
            requires
                v == b[0] as nat + 256 * w,
                w < r,
                b[0] < 256,
        ;
        assert(le_bytes(v, b.len()) =~= b);
    }
}

/// The value of four bytes, as a formula.
pub proof fn lemma_le_value_four(b: Seq<u8>)
    requires
        b.len() == 4,
    ensures
        le_value(b) == b[0] + 256 * b[1] + 65536 * b[2] + 16777216 * b[3],
{
    reveal_with_fuel(le_value, 5);
    assert(b.drop_first()[0] == b[1]);
    assert(b.drop_first().drop_first()[0] == b[2]);
    assert(b.drop_first().drop_first().drop_first()[0] == b[3]);
    assert(b.drop_first().drop_first().drop_first().drop_first().len() == 0);
}

/// Reading a table back from its on-disk form gives the same table.
pub proof fn lemma_disk_words_of_disk_bytes(words: Seq<u32>)
    ensures
        disk_words(disk_bytes(words)) == words,
{
    let bytes = disk_bytes(words);
    lemma_byte_range_values();
    assert forall|i: int| 0 <= i < words.len() implies #[trigger] disk_words(bytes)[i] == words[i] by {
        let v = words[i];
        lemma_le_value_of_bytes(v as nat, 4);
        let group = bytes.subrange(4 * i, 4 * i + 4);
        assert forall|k: int| 0 <= k < 4 implies group[k] == le_bytes(v as nat, 4)[k] by {
            assert((4 * i + k) / 4 == i && (4 * i + k) % 4 == k);
        }
        assert(group =~= le_bytes(v as nat, 4));
    }
    assert(disk_words(bytes) =~= words);
}

/// Writing out a table read from bytes whose length is a multiple of four gives
/// the same bytes.
pub proof fn lemma_disk_bytes_of_disk_words(bytes: Seq<u8>)
    requires
        bytes.len() % 4 == 0,
    ensures
        disk_bytes(disk_words(bytes)) == bytes,
{
    let words = disk_words(bytes);
    lemma_byte_range_values();
    assert forall|j: int| 0 <= j < bytes.len() implies #[trigger] disk_bytes(words)[j] == bytes[j] by {
        let i = j / 4;
        let group = bytes.subrange(4 * i, 4 * i + 4);
        lemma_le_bytes_of_value(group);
        assert(words[i] as nat == le_value(group));
        assert(group[j % 4] == bytes[j]);
    }
    assert(disk_bytes(words) =~= bytes);
}

/// `n` zero bytes.
pub open spec fn zeros(n: nat) -> Seq<u8> {
    Seq::new(n, |i: int| 0u8)
}

/// The parts joined one after another.
pub open spec fn concat(parts: Seq<Seq<u8>>) -> Seq<u8>
    decreases parts.len(),
{
    if parts.len() == 0 {
        Seq::empty()
    } else {
        concat(parts.drop_last()) + parts.last()
    }
}

/// `data` cut into consecutive blocks of `block_size` bytes; the last block
/// holds what is left and may be shorter.
pub open spec fn split_blocks(data: Seq<u8>, block_size: nat) -> Seq<Seq<u8>>
    decreases data.len(),
{
    if data.len() == 0 {
        Seq::empty()
    } else if data.len() <= block_size || block_size == 0 {
        seq![data]
    } else {
        seq![data.take(block_size as int)] + split_blocks(data.skip(block_size as int), block_size)
    }
}

/// Joining a single part gives that part.
pub proof fn lemma_concat_single(x: Seq<u8>)
    ensures
        concat(seq![x]) == x,
{
    let s = seq![x];
    assert(s.drop_last() =~= Seq::<Seq<u8>>::empty());
    assert(concat(s.drop_last()) =~= Seq::<u8>::empty());
    assert(concat(s) =~= x);
}

/// Joining two runs of parts joins their concatenations.
pub proof fn lemma_concat_append(a: Seq<Seq<u8>>, b: Seq<Seq<u8>>)
    ensures
        concat(a + b) == concat(a) + concat(b),
    decreases b.len(),
{
    if b.len() == 0 {
        assert(a + b =~= a);
        assert(concat(b) =~= Seq::<u8>::empty());
        assert(concat(a) + concat(b) =~= concat(a));
    } else {
        lemma_concat_append(a, b.drop_last());
        assert((a + b).drop_last() =~= a + b.drop_last());
        assert(concat(a) + concat(b) =~= concat(a) + concat(b.drop_last()) + b.last());
    }
}

/// Joining the blocks of `data` gives back `data`; every block is non-empty and
/// at most `block_size` long, and all but the last are exactly `block_size` long.
pub proof fn lemma_split_blocks(data: Seq<u8>, block_size: nat)
    requires
        block_size > 0,
    ensures
        concat(split_blocks(data, block_size)) == data,
        split_blocks(data, block_size).len() == (data.len() + block_size - 1) / (block_size as int),
        forall|i: int|
            0 <= i < split_blocks(data, block_size).len() ==> 0 < (#[trigger] split_blocks(
                data,
                block_size,
            )[i]).len() <= block_size,
        forall|i: int|
            0 <= i < split_blocks(data, block_size).len() - 1 ==> (#[trigger] split_blocks(
                data,
                block_size,
            )[i]).len() == block_size,
    decreases data.len(),
{
    let parts = split_blocks(data, block_size);
    if data.len() == 0 {
        assert(concat(parts) =~= data);
        assert((block_size - 1) / (block_size as int) == 0) by (nonlinear_arith)
            requires
                block_size > 0,
        ;
    } else if data.len() <= block_size {
        lemma_concat_single(data);
        assert((data.len() + block_size - 1) / (block_size as int) == 1) by (nonlinear_arith)
            requires
                0 < data.len() <= block_size,
        ;
    } else {
        let rest = data.skip(block_size as int);
        lemma_split_blocks(rest, block_size);
        let first = seq![data.take(block_size as int)];
        lemma_concat_single(data.take(block_size as int));
        lemma_concat_append(first, split_blocks(rest, block_size));
        assert(data.take(block_size as int) + rest =~= data);
        let b = block_size as int;
        assert((data.len() + b - 1) / b == 1 + (rest.len() + b - 1) / b) by (nonlinear_arith)
            requires
                rest.len() == data.len() - b,
                b > 0,
        {
            assert(data.len() + b - 1 == (rest.len() + b - 1) + b * 1);
            vstd::arithmetic::div_mod::lemma_div_plus_one(rest.len() + b - 1, b);
        }
        assert forall|i: int| 0 < i < parts.len() implies #[trigger] parts[i] == split_blocks(
            rest,
            block_size,
        )[i - 1] by {}
    }
}

/// Appends `n` zero bytes to `out`.
pub fn push_zeros(out: &mut Vec<u8>, n: usize)
    ensures
        final(out)@ == old(out)@ + zeros(n as nat),
{
    let ghost start = old(out)@;
    let mut k: usize = 0;
    while k < n
        invariant
            k <= n,
            out@ =~= start + zeros(k as nat),
        decreases n - k,
    {
        out.push(0);
        k = k + 1;
    }
}

/// Appends the bytes of `src` to `out`.
pub fn append_bytes(out: &mut Vec<u8>, src: &[u8])
    ensures
        final(out)@ == old(out)@ + src@,
{
    let ghost start = old(out)@;
    let mut k: usize = 0;
    while k < src.len()
        invariant
            k <= src@.len(),
            out@ =~= start + src@.take(k as int),
        decreases src@.len() - k,
    {
        out.push(src[k]);
        k = k + 1;
    }
    assert(src@.take(src@.len() as int) =~= src@);
}

/// Appends the `n` little-endian bytes of `v` to `out`.
pub fn push_le_bytes(out: &mut Vec<u8>, v: u64, n: usize)
    requires
        n <= 8,
    ensures
        final(out)@ == old(out)@ + le_bytes(v as nat, n as nat),
{
    let ghost start = old(out)@;
    let mut x: u64 = v;
    let mut k: usize = 0;
    while k < n
        invariant
            k <= n,
            out@ + le_bytes(x as nat, (n - k) as nat) =~= start + le_bytes(v as nat, n as nat),
        decreases n - k,
    {
        let ghost before = out@;
        out.push((x % 256) as u8);
        assert(le_bytes(x as nat, (n - k) as nat) =~= seq![(x % 256) as u8] + le_bytes(
            (x / 256) as nat,
            (n - k - 1) as nat,
        ));
        x = x / 256;
        k = k + 1;
    }
}

/// Writes a table of 32-bit words in its on-disk form: four little-endian bytes per word.
pub fn u32_to_disk_u8(data: &Vec<u32>) -> (output: Vec<u8>)
    ensures
        output@ == disk_bytes(data@),
{
    let mut output: Vec<u8> = Vec::new();
    let mut i: usize = 0;
    while i < data.len()
        invariant
            i <= data.len(),
            output@ =~= disk_bytes(data@.take(i as int)),
        decreases data.len() - i,
    {
        let ghost before = output@;
        push_le_bytes(&mut output, data[i] as u64, 4);
        proof {
            let next = data@.take(i + 1);
            let v = data@[i as int];
            lemma_byte_range_values();
            lemma_le_value_of_bytes(v as nat, 4);
            assert forall|j: int| 0 <= j < 4 * next.len() implies #[trigger] output@[j] == le_bytes(
                next[j / 4] as nat,
                4,
            )[j % 4] by {
                if j < 4 * i {
                    assert(data@.take(i as int)[j / 4] == next[j / 4]);
                } else {
                    assert(j / 4 == i && j % 4 == j - 4 * i);
                    assert(output@[j] == le_bytes(v as nat, 4)[j - 4 * i]);
                }
            }
            assert(output@ =~= disk_bytes(next));
        }
        i = i + 1;
    }
    assert(data@.take(data.len() as int) =~= data@);
    output
}

/// Reads a table of 32-bit words from its on-disk form, four little-endian bytes
/// per word; a trailing group of fewer than four bytes is ignored.
pub fn u8_from_disk_to_u32(data: &[u8]) -> (output: Vec<u32>)
    ensures
        output@ == disk_words(data@),
{
    let count = data.len() / 4;
    let mut output: Vec<u32> = Vec::new();
    let mut i: usize = 0;
    while i < count
        invariant
            count == data.len() / 4,
            i <= count,
            output@ =~= disk_words(data@).take(i as int),
        decreases count - i,
    {
        let b0 = data[4 * i] as u32;
        let b1 = data[4 * i + 1] as u32;
        let b2 = data[4 * i + 2] as u32;
        let b3 = data[4 * i + 3] as u32;
        let word = b0 + b1 * 256 + b2 * 65536 + b3 * 16777216;
        proof {
            let group = data@.subrange(4 * i, 4 * i + 4);
            lemma_le_value_four(group);
        }
        output.push(word);
        i = i + 1;
    }
    output
}

/// `align_up` gives the least multiple of `unit` that is not below `pos`.
pub proof fn lemma_align_up(pos: nat, unit: nat)
    requires
        unit > 0,
    ensures
        align_up(pos, unit) % unit == 0,
        pos <= align_up(pos, unit) < pos + unit,
{
    vstd::arithmetic::div_mod::lemma_fundamental_div_mod(pos as int, unit as int);
    vstd::arithmetic::div_mod::lemma_mod_bound(pos as int, unit as int);
    if pos % unit != 0 {
        let q = pos as int / unit as int;
        assert(align_up(pos, unit) == unit * (q + 1)) by (nonlinear_arith)
            requires
                pos as int == unit * q + (pos as int) % (unit as int),
                align_up(pos, unit) == pos + (unit - (pos as int) % (unit as int)),
        ;
        vstd::arithmetic::div_mod::lemma_mod_multiples_basic(q + 1, unit as int);
        assert((q + 1) * unit == unit * (q + 1)) by (nonlinear_arith);
    }
}

/// Rounds `pos` up to the next multiple of `2^pos_shift`: the first position at
/// which a block may start in a file whose index is shifted by `pos_shift`.
pub fn padding_calculator(pos_shift: u8, pos: u64) -> (aligned: u64)
    requires
        pos_shift < 64,
        align_up(pos as nat, vstd::arithmetic::power2::pow2(pos_shift as nat)) <= u64::MAX,
    ensures
        aligned == align_up(pos as nat, vstd::arithmetic::power2::pow2(pos_shift as nat)),
        (aligned as nat) % vstd::arithmetic::power2::pow2(pos_shift as nat) == 0,
        pos <= aligned < pos + vstd::arithmetic::power2::pow2(pos_shift as nat),
{
    proof {
        vstd::arithmetic::power2::lemma_pow2_pos(pos_shift as nat);
        lemma_align_up(pos as nat, vstd::arithmetic::power2::pow2(pos_shift as nat));
        vstd::bits::lemma_u64_pow2_no_overflow(pos_shift as nat);
        vstd::bits::lemma_u64_shl_is_mul(1, pos_shift as u64);
    }
    let unit: u64 = 1u64 << (pos_shift as u64);
    let rem = pos % unit;
    if rem == 0 {
        pos
    } else {
        pos + (unit - rem)
    }
}

} // verus!
