use ziso::compress::{lz4_acceleration, queue_real_size, IndexWriter};
use ziso::format::{
    build_header, data_start_position, is_zso_magic, make_index_entry, parse_header,
    pos_shift_for_size, total_blocks, ZsoError, ZsoHeader,
};
use ziso::types::MessageBlock;
use ziso::utils::{padding_calculator, u32_to_disk_u8, u8_from_disk_to_u32};

#[test]
fn words_are_written_little_endian() {
    let bytes = u32_to_disk_u8(&vec![1, 0x1234_5678, 0xFFFF_FFFF]);
    assert_eq!(bytes, vec![1, 0, 0, 0, 0x78, 0x56, 0x34, 0x12, 0xFF, 0xFF, 0xFF, 0xFF]);
}

#[test]
fn words_are_read_little_endian_ignoring_a_short_tail() {
    let words = u8_from_disk_to_u32(&[0x78, 0x56, 0x34, 0x12, 2, 0, 0, 0x80, 9, 9]);
    assert_eq!(words, vec![0x1234_5678, 0x8000_0002]);
}

#[test]
fn words_round_trip_through_bytes() {
    let words = vec![0, 7, 0x8000_0000, 0xDEAD_BEEF, 24];
    assert_eq!(u8_from_disk_to_u32(&u32_to_disk_u8(&words)), words);
}

#[test]
fn padding_rounds_up_to_the_shift_unit() {
    assert_eq!(padding_calculator(0, 28), 28);
    assert_eq!(padding_calculator(1, 29), 30);
    assert_eq!(padding_calculator(2, 32), 32);
    assert_eq!(padding_calculator(4, 33), 48);
    assert_eq!(padding_calculator(4, 0), 0);
}

#[test]
fn shift_grows_with_the_image_size() {
    assert_eq!(pos_shift_for_size(0), 0);
    assert_eq!(pos_shift_for_size(0x7FFF_FFFE), 0);
    assert_eq!(pos_shift_for_size(0x7FFF_FFFF), 1);
    assert_eq!(pos_shift_for_size(0xFFFF_FFFE), 1);
    assert_eq!(pos_shift_for_size(0xFFFF_FFFF), 2);
    assert_eq!(pos_shift_for_size(0x1_FFFF_FFFF), 3);
    assert_eq!(pos_shift_for_size(0x3_FFFF_FFFE), 3);
    assert_eq!(pos_shift_for_size(0x3_FFFF_FFFF), 4);
    assert_eq!(pos_shift_for_size(u64::MAX), 4);
}

#[test]
fn blocks_cover_the_image() {
    assert_eq!(total_blocks(0, 2048), 0);
    assert_eq!(total_blocks(1, 2048), 1);
    assert_eq!(total_blocks(2048, 2048), 1);
    assert_eq!(total_blocks(2049, 2048), 2);
    assert_eq!(total_blocks(u64::MAX, 2048), u64::MAX / 2048 + 1);
}

#[test]
fn header_has_the_documented_layout() {
    let header = build_header(0x0102_0304_0506_0708, 2048, 3);
    assert_eq!(
        header,
        vec![
            b'Z', b'I', b'S', b'O', 24, 0, 0, 0, 0x08, 0x07, 0x06, 0x05, 0x04, 0x03, 0x02, 0x01, 0,
            8, 0, 0, 1, 3, 0, 0
        ]
    );
}

#[test]
fn header_reads_back() {
    let mut file = build_header(123_456_789, 131072, 2);
    file.extend_from_slice(&[1, 2, 3]);
    assert_eq!(
        parse_header(&file),
        Ok(ZsoHeader { original_size: 123_456_789, block_size: 131072, pos_shift: 2 })
    );
}

#[test]
fn short_or_foreign_headers_are_refused() {
    assert_eq!(parse_header(&[b'Z'; 23]), Err(ZsoError::HeaderTooShort));
    let mut file = build_header(10, 2048, 0);
    file[3] = b'X';
    assert_eq!(parse_header(&file), Err(ZsoError::BadMagic));
}

#[test]
fn magic_detection() {
    assert!(is_zso_magic(b"ZISO"));
    assert!(is_zso_magic(b"ZISOxxxx"));
    assert!(!is_zso_magic(b"ZIS"));
    assert!(!is_zso_magic(b"CISO"));
}

#[test]
fn index_entry_of_the_documentation_example() {
    assert_eq!(make_index_entry(0x1234_5678, 1, false), 0x1234_5678 >> 1);
    assert_eq!(make_index_entry(0x1234_5678, 1, true), (0x1234_5678 >> 1) | 0x8000_0000);
    assert_eq!(((make_index_entry(0x1234_5678, 1, true) & 0x7FFF_FFFF) as u64) << 1, 0x1234_5678);
}

#[test]
fn data_starts_after_the_aligned_index() {
    assert_eq!(data_start_position(0, 0), 28);
    assert_eq!(data_start_position(2, 0), 36);
    assert_eq!(data_start_position(2, 4), 48);
    assert_eq!(data_start_position(1, 3), 32);
}

#[test]
fn acceleration_follows_the_level() {
    assert_eq!(lz4_acceleration(1), 2000);
    assert_eq!(lz4_acceleration(6), 1091);
    assert_eq!(lz4_acceleration(12), 0);
}

#[test]
fn messages_carry_whole_blocks() {
    assert_eq!(queue_real_size(2048), 2 * 1024 * 1024);
    assert_eq!(queue_real_size(3000), 2_097_000);
    assert_eq!(queue_real_size(131072), 2 * 1024 * 1024);
}

#[test]
fn index_writer_records_positions_and_raw_marks() {
    let mut writer = IndexWriter::new(28, 0);
    writer.record(&MessageBlock {
        id: 0,
        compressed: vec![true, false],
        blocksize: vec![10, 20],
        data: vec![0; 30],
    });
    assert_eq!(writer.position(), 58);
    writer.record(&MessageBlock { id: 1, compressed: vec![true], blocksize: vec![5], data: vec![0; 5] });
    assert_eq!(writer.position(), 63);
    assert_eq!(writer.finish(), vec![28, 38 | 0x8000_0000, 58, 63]);
}

#[test]
fn index_writer_shifts_positions() {
    let mut writer = IndexWriter::new(32, 4);
    writer.record(&MessageBlock {
        id: 0,
        compressed: vec![false, true],
        blocksize: vec![2048, 32],
        data: vec![0; 2080],
    });
    assert_eq!(writer.finish(), vec![2 | 0x8000_0000, 130, 132]);
}
