use combustion::layout::{read_field, window_fits};
use combustion::repack::{bitmap_entry, sound_permutation, BlockLayout};

#[test]
fn field_reads_little_endian() {
    let data: Vec<u8> = vec![0x78, 0x56, 0x34, 0x12, 0xFF];
    assert_eq!(read_field(&data, 0), Some(0x1234_5678));
    assert_eq!(read_field(&data, 1), Some(0xFF12_3456));
    assert_eq!(read_field(&data, 2), None);
}

#[test]
fn field_at_the_largest_position_does_not_fit() {
    let data: Vec<u8> = vec![1, 2, 3, 4];
    assert_eq!(read_field(&data, u64::MAX), None);
    assert_eq!(read_field(&data, u64::MAX - 3), None);
    assert_eq!(read_field(&[], 0), None);
}

#[test]
fn window_fits_up_to_the_end() {
    assert!(window_fits(10, 4, 6));
    assert!(!window_fits(10, 4, 7));
    assert!(window_fits(0, 0, 0));
    assert!(!window_fits(usize::MAX, u32::MAX, u32::MAX) || usize::MAX as u64 > 0x1_FFFF_FFFD);
    assert!(!window_fits(100, u32::MAX, 2));
}

#[test]
fn block_layouts_have_the_documented_offsets() {
    assert_eq!(
        bitmap_entry(),
        BlockLayout { len: 48, flag_at: 0x0F, size_at: 0x1C, offset_at: 0x18 }
    );
    assert_eq!(
        sound_permutation(),
        BlockLayout { len: 124, flag_at: 0x44, size_at: 0x40, offset_at: 0x48 }
    );
}
