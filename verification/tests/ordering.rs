use ziso::args::{default_output_extension, validate_output_file, Args};
use ziso::format::ZsoError;
use ziso::reorder::ReorderBuffer;
use ziso::types::MessageBlock;

fn message(id: usize) -> MessageBlock {
    MessageBlock { id, compressed: vec![], blocksize: vec![], data: vec![id as u8] }
}

fn ids(blocks: &[MessageBlock]) -> Vec<usize> {
    blocks.iter().map(|b| b.id).collect()
}

#[test]
fn runs_are_released_in_order() {
    let mut buffer = ReorderBuffer::new();
    assert!(buffer.push(message(2)).is_empty());
    assert!(buffer.push(message(1)).is_empty());
    assert_eq!(buffer.held(), 2);
    let ready = buffer.push(message(0));
    assert_eq!(ids(&ready), vec![0, 1, 2]);
    assert_eq!(ready[2].data, vec![2]);
    assert_eq!(buffer.next_expected(), 3);
    assert_eq!(buffer.held(), 0);
}

#[test]
fn release_stops_at_a_gap() {
    let mut buffer = ReorderBuffer::new();
    assert!(buffer.push(message(1)).is_empty());
    assert!(buffer.push(message(3)).is_empty());
    assert_eq!(ids(&buffer.push(message(0))), vec![0, 1]);
    assert_eq!(buffer.next_expected(), 2);
    assert_eq!(ids(&buffer.push(message(2))), vec![2, 3]);
    assert_eq!(ids(&buffer.push(message(4))), vec![4]);
    assert_eq!(buffer.next_expected(), 5);
}

#[test]
fn output_file_checks() {
    assert_eq!(validate_output_file(true, false), Err(ZsoError::OutputExists));
    assert_eq!(validate_output_file(true, true), Ok(()));
    assert_eq!(validate_output_file(false, false), Ok(()));
    assert_eq!(default_output_extension(true), "iso");
    assert_eq!(default_output_extension(false), "zso");
}

#[test]
fn settings_from_options() {
    let args = Args {
        input: "game.iso".to_string(),
        output: None,
        force: false,
        threads: 4,
        level: 3,
        disable_hc: true,
        block_size: 4096,
        hdl_fix: false,
    };
    let settings = args.compression_settings(0xFFFF_FFFF);
    assert_eq!(settings.block_size, 4096);
    assert_eq!(settings.level, 3);
    assert!(settings.disable_hc);
    assert_eq!(settings.pos_shift, 2);
    assert_eq!(args.acceleration(), 2000 - 2 * 2000 / 11);
}
