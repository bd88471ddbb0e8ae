use ziso::compress::{compress_chunk, compress_image, CompressionSettings};
use ziso::decompress::{check_index, decompress_chunk, decompress_image, plan_chunk, queue_max_blocks};
use ziso::format::{parse_header, ZsoError};
use ziso::types::MessageBlock;
use ziso::utils::u8_from_disk_to_u32;

/// Bytes that LZ4 cannot shrink: a linear congruential sequence.
fn noise(len: usize, seed: u32) -> Vec<u8> {
    let mut state = seed;
    let mut out = Vec::with_capacity(len);
    for _ in 0..len {
        state = state.wrapping_mul(1_664_525).wrapping_add(1_013_904_223);
        out.push((state >> 24) as u8);
    }
    out
}

/// Text-like bytes that LZ4 shrinks.
fn text(len: usize) -> Vec<u8> {
    let phrase = b"The quick brown fox jumps over the lazy dog. ";
    (0..len).map(|i| phrase[i % phrase.len()]).collect()
}

fn settings(block_size: u32, disable_hc: bool, pos_shift: u8) -> CompressionSettings {
    CompressionSettings { block_size, level: 12, disable_hc, pos_shift }
}

#[test]
fn compressible_blocks_are_stored_compressed() {
    let data = vec![0u8; 4096];
    let out = compress_chunk(7, &data, &settings(2048, false, 0));
    assert_eq!(out.id, 7);
    assert_eq!(out.compressed, vec![true, true]);
    assert_eq!(out.blocksize.len(), 2);
    assert!(out.blocksize.iter().all(|&s| s < 2048));
    assert_eq!(out.data.len() as u32, out.blocksize[0] + out.blocksize[1]);
    assert!(out.data.len() < data.len());
}

#[test]
fn incompressible_blocks_are_stored_raw() {
    let data = noise(4096, 1);
    let out = compress_chunk(0, &data, &settings(2048, true, 0));
    assert_eq!(out.compressed, vec![false, false]);
    assert_eq!(out.blocksize, vec![2048, 2048]);
    assert_eq!(out.data, data);
}

#[test]
fn the_last_block_may_be_short() {
    let data = noise(2048 + 100, 2);
    let out = compress_chunk(0, &data, &settings(2048, false, 0));
    assert_eq!(out.compressed, vec![false, false]);
    assert_eq!(out.blocksize, vec![2048, 100]);
}

#[test]
fn stored_blocks_are_padded_to_the_alignment() {
    let data = noise(2048 + 100, 3);
    let out = compress_chunk(0, &data, &settings(2048, false, 4));
    assert_eq!(out.blocksize, vec![2048, 112]);
    assert_eq!(&out.data[..2148], &data[..]);
    assert_eq!(&out.data[2148..], &[0u8; 12][..]);
    let zeros = vec![0u8; 2048];
    let packed = compress_chunk(0, &zeros, &settings(2048, true, 3));
    assert_eq!(packed.compressed, vec![true]);
    assert_eq!(packed.blocksize[0] % 8, 0);
}

#[test]
fn compressing_in_pieces_of_whole_blocks_matches_compressing_at_once() {
    let mut data = text(5000);
    data.extend(noise(3000, 4));
    let s = settings(2048, false, 0);
    let whole = compress_chunk(0, &data, &s);
    let first = compress_chunk(0, &data[..4096], &s);
    let second = compress_chunk(1, &data[4096..], &s);
    let mut flags = first.compressed.clone();
    flags.extend(second.compressed.iter());
    let mut sizes = first.blocksize.clone();
    sizes.extend(second.blocksize.iter());
    let mut bytes = first.data.clone();
    bytes.extend(second.data.iter());
    assert_eq!(whole.compressed, flags);
    assert_eq!(whole.blocksize, sizes);
    assert_eq!(whole.data, bytes);
}

#[test]
fn decompression_gives_the_image_back() {
    for len in [0usize, 2047, 2048, 2049, 10_000, 70_000] {
        let mut data = text(len - len / 2);
        data.extend(noise(len / 2, len as u32));
        for &hdl_fix in &[false, true] {
            for &disable_hc in &[false, true] {
                let level = if disable_hc { 12 } else { 9 };
                let image = compress_image(&data, 2048, level, disable_hc, hdl_fix);
                if hdl_fix {
                    assert_eq!(image.len() % 2048, 0);
                }
                let result = decompress_image(&image);
                assert!(
                    result == Ok(data.clone()),
                    "len {} hdl {} nohc {}: {:?} {:?}",
                    len,
                    hdl_fix,
                    disable_hc,
                    result.as_ref().err(),
                    result.as_ref().map(|v| v.len())
                );
            }
        }
    }
}

#[test]
fn decompression_gives_back_larger_blocks() {
    let data = text(300_000);
    for block_size in [4096u32, 65536, 131072] {
        let image = compress_image(&data, block_size, 4, false, false);
        assert!(image.len() < data.len());
        assert_eq!(decompress_image(&image), Ok(data.clone()));
    }
}

#[test]
fn a_first_block_stored_raw_is_given_back() {
    let data = noise(5000, 9);
    let image = compress_image(&data, 2048, 12, false, false);
    let index = u8_from_disk_to_u32(&image[24..24 + 4 * 4]);
    assert!(index[0] & 0x8000_0000 != 0);
    assert_eq!(decompress_image(&image), Ok(data));
}

#[test]
fn a_hand_made_image_with_one_raw_block() {
    let mut z = b"ZISO".to_vec();
    z.extend(24u32.to_le_bytes());
    z.extend(2048u64.to_le_bytes());
    z.extend(2048u32.to_le_bytes());
    z.extend([1, 0, 0, 0]);
    z.extend(0x8000_0020u32.to_le_bytes());
    z.extend(0x0000_0820u32.to_le_bytes());
    z.extend(vec![0xABu8; 2048]);
    assert_eq!(z.len(), 2080);
    assert_eq!(decompress_image(&z), Ok(vec![0xABu8; 2048]));
}

#[test]
fn blocks_are_read_at_their_positions_and_padding_is_left_out() {
    // Shift 3: the index ends at 36 and the data starts at 40.
    let block0: Vec<u8> = (0..2048u32).map(|i| (i % 251) as u8).collect();
    let block1: Vec<u8> = (0..100u32).map(|i| (i * 7 % 256) as u8).collect();
    let mut z = b"ZISO".to_vec();
    z.extend(24u32.to_le_bytes());
    z.extend(2148u64.to_le_bytes());
    z.extend(2048u32.to_le_bytes());
    z.extend([1, 3, 0, 0]);
    z.extend((5u32 | 0x8000_0000).to_le_bytes());
    z.extend((261u32 | 0x8000_0000).to_le_bytes());
    z.extend(274u32.to_le_bytes());
    z.extend([0xEE; 4]);
    z.extend(&block0);
    z.extend(&block1);
    z.extend([0x55; 4]);
    assert_eq!(z.len(), 274 * 8);
    let mut expected = block0.clone();
    expected.extend(&block1);
    assert_eq!(decompress_image(&z), Ok(expected));
}

#[test]
fn positions_increase_even_for_a_small_image() {
    let data = vec![7u8; 100];
    let image = compress_image(&data, 2048, 12, false, false);
    assert_eq!(&image[8..16], &100u64.to_le_bytes()[..]);
    let index = u8_from_disk_to_u32(&image[24..32]);
    assert_eq!(index[0], 32);
    assert!(index[1] > 32);
    assert_eq!(index[1] as usize, image.len());
    assert_eq!(decompress_image(&image), Ok(data));
}

#[test]
fn damaged_files_are_refused() {
    let data = text(10_000);
    let image = compress_image(&data, 2048, 12, false, false);
    assert_eq!(decompress_image(&image[..10]), Err(ZsoError::HeaderTooShort));
    let mut foreign = image.clone();
    foreign[0] = b'C';
    assert_eq!(decompress_image(&foreign), Err(ZsoError::BadMagic));
    let mut zero_blocks = image.clone();
    zero_blocks[16..20].copy_from_slice(&[0, 0, 0, 0]);
    assert_eq!(decompress_image(&zero_blocks), Err(ZsoError::UnsupportedHeader));
    let mut big_shift = image.clone();
    big_shift[21] = 64;
    assert_eq!(decompress_image(&big_shift), Err(ZsoError::UnsupportedHeader));
    let mut wide_shift = image.clone();
    wide_shift[21] = 40;
    assert_eq!(decompress_image(&wide_shift), Err(ZsoError::FirstEntryMismatch));
    assert_eq!(decompress_image(&image[..30]), Err(ZsoError::IndexTruncated));
    let mut longer = image.clone();
    longer.push(0);
    assert_eq!(decompress_image(&longer), Err(ZsoError::SizeMismatch));
    let mut moved = image.clone();
    moved[24] = moved[24].wrapping_add(1);
    assert_eq!(decompress_image(&moved), Err(ZsoError::FirstEntryMismatch));
    let mut backwards = image.clone();
    let second = u32::from_le_bytes([backwards[28], backwards[29], backwards[30], backwards[31]]);
    backwards[28..32].copy_from_slice(&(second - 100).to_le_bytes());
    let first = u32::from_le_bytes([backwards[24], backwards[25], backwards[26], backwards[27]]);
    backwards[28..32].copy_from_slice(&(first - 1).to_le_bytes());
    assert_eq!(decompress_image(&backwards), Err(ZsoError::CorruptIndex));
}

#[test]
fn corrupt_lz4_data_is_refused() {
    let data = text(4096);
    let mut image = compress_image(&data, 2048, 12, false, false);
    let header = parse_header(&image).unwrap();
    assert_eq!(header.block_size, 2048);
    let start = 24 + 4 * 3;
    image[start..start + 3].copy_from_slice(&[0x00, 0xFF, 0xFF]);
    assert_eq!(decompress_image(&image), Err(ZsoError::DecompressionFailed));
}

#[test]
fn index_checks() {
    assert_eq!(check_index(&vec![28], 0, 28), Ok(()));
    assert_eq!(check_index(&vec![28], 0, 2048), Ok(()));
    assert_eq!(check_index(&vec![29], 0, 28), Err(ZsoError::FirstEntryMismatch));
    assert_eq!(check_index(&vec![32 | 0x8000_0000, 40], 0, 40), Ok(()));
    assert_eq!(check_index(&vec![33 | 0x8000_0000, 40], 0, 40), Err(ZsoError::FirstEntryMismatch));
    assert_eq!(check_index(&vec![28], 0, 29), Err(ZsoError::SizeMismatch));
    assert_eq!(check_index(&vec![2, 10], 4, 160), Ok(()));
    assert_eq!(check_index(&vec![2, 10], 4, 2048), Ok(()));
    assert_eq!(check_index(&vec![3, 10], 4, 160), Err(ZsoError::FirstEntryMismatch));
    assert_eq!(check_index(&vec![1, 1], 32, 1 << 32), Ok(()));
    assert_eq!(check_index(&vec![1, 2], 33, 1 << 34), Ok(()));
    assert_eq!(check_index(&vec![1, 0xFFFF_FFFF], 63, 1 << 63), Ok(()));
    assert_eq!(check_index(&vec![1, 0xFFFF_FFFF], 63, 2048), Err(ZsoError::SizeMismatch));
}

#[test]
fn reader_and_workers_give_the_image_back() {
    let mut data = text(9000);
    data.extend(noise(3000, 5));
    let image = compress_image(&data, 2048, 12, false, false);
    let header = parse_header(&image).unwrap();
    let blocks = 6usize;
    let index = u8_from_disk_to_u32(&image[24..24 + 4 * (blocks + 1)]);
    let mut current = 0usize;
    let mut id = 0usize;
    let mut out = Vec::new();
    while current < blocks {
        let plan = plan_chunk(&index, header.pos_shift, current, 4, id).unwrap();
        let start = plan.read_start as usize;
        let length = plan.read_length as usize;
        let mut message = plan.message;
        message.data = image[start..start + length].to_vec();
        let done = decompress_chunk(&message, header.block_size, header.original_size, current as u64).unwrap();
        assert_eq!(done.id, id);
        out.extend(done.data);
        current = plan.next_block;
        id += 1;
    }
    assert_eq!(id, 2);
    assert_eq!(out, data);
}

#[test]
fn reader_refuses_an_index_that_goes_back() {
    assert_eq!(plan_chunk(&vec![28, 20, 40], 0, 0, 8, 0).err(), Some(ZsoError::CorruptIndex));
    assert_eq!(plan_chunk(&vec![28, 50, 40], 0, 0, 8, 0).err(), Some(ZsoError::CorruptIndex));
    let plan = plan_chunk(&vec![28, 50 | 0x8000_0000, 70], 0, 1, 8, 3).unwrap();
    assert_eq!(plan.read_start, 50);
    assert_eq!(plan.read_length, 20);
    assert_eq!(plan.next_block, 2);
    assert_eq!(plan.message.id, 3);
    assert_eq!(plan.message.compressed, vec![false]);
    assert_eq!(plan.message.blocksize, vec![20]);
}

#[test]
fn worker_refuses_a_message_shorter_than_its_blocks() {
    let message = MessageBlock { id: 0, compressed: vec![false], blocksize: vec![10], data: vec![1; 5] };
    assert_eq!(decompress_chunk(&message, 2048, 4096, 0).err(), Some(ZsoError::CorruptIndex));
    let raw = MessageBlock { id: 4, compressed: vec![false, false], blocksize: vec![2, 3], data: vec![1, 2, 3, 4, 5] };
    let done = decompress_chunk(&raw, 2048, 4096, 0).unwrap();
    assert_eq!(done.id, 4);
    assert_eq!(done.data, vec![1, 2, 3, 4, 5]);
}

#[test]
fn worker_cuts_the_padding_after_the_last_raw_block() {
    let raw = MessageBlock { id: 1, compressed: vec![false], blocksize: vec![8], data: vec![9, 8, 7, 0, 0, 0, 0, 0] };
    let done = decompress_chunk(&raw, 2048, 2048 + 3, 1).unwrap();
    assert_eq!(done.data, vec![9, 8, 7]);
}

#[test]
fn messages_per_read() {
    assert_eq!(queue_max_blocks(2048), 1024);
    assert_eq!(queue_max_blocks(131072), 16);
    assert_eq!(queue_max_blocks(u32::MAX), 1);
}

#[test]
fn the_last_index_entry_marks_the_end_of_the_data() {
    let data = text(10_000);
    let image = compress_image(&data, 2048, 12, false, false);
    let header = parse_header(&image).unwrap();
    assert_eq!(header.original_size, 10_000);
    assert_eq!(header.pos_shift, 0);
    let index = u8_from_disk_to_u32(&image[24..24 + 4 * 6]);
    assert_eq!(index.len(), 6);
    assert_eq!(index[0], 48);
    assert_eq!(index[5] as usize, image.len());
    assert!(index.windows(2).all(|w| (w[0] & 0x7FFF_FFFF) <= (w[1] & 0x7FFF_FFFF)));
    let padded = compress_image(&data, 2048, 12, false, true);
    assert_eq!(padded.len(), (image.len() + 2047) / 2048 * 2048);
    assert_eq!(&padded[..image.len()], &image[..]);
}

#[test]
fn any_cut_into_whole_block_pieces_gives_the_same_stored_run() {
    let mut data = text(6000);
    data.extend(noise(4000, 11));
    let s = settings(2048, false, 2);
    let whole = compress_chunk(0, &data, &s);
    for cuts in [vec![2048usize, 6144], vec![4096, 8192], vec![2048, 4096, 6144, 8192]] {
        let mut flags = Vec::new();
        let mut sizes = Vec::new();
        let mut bytes = Vec::new();
        let mut from = 0usize;
        for (id, &to) in cuts.iter().chain(std::iter::once(&data.len())).enumerate() {
            let piece = compress_chunk(id, &data[from..to], &s);
            flags.extend(piece.compressed);
            sizes.extend(piece.blocksize);
            bytes.extend(piece.data);
            from = to;
        }
        assert_eq!(whole.compressed, flags);
        assert_eq!(whole.blocksize, sizes);
        assert_eq!(whole.data, bytes);
    }
}
