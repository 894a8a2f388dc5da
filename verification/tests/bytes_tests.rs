use mineblock::bytes::{append_bytes, append_le, bytes_equal, copy_items, copy_range, read_le};

#[test]
fn append_le_writes_least_significant_byte_first() {
    let mut out = vec![0xeeu8];
    append_le(&mut out, 0x0102_0304_0506_0708, 8);
    assert_eq!(out, vec![0xee, 0x08, 0x07, 0x06, 0x05, 0x04, 0x03, 0x02, 0x01]);
}

#[test]
fn append_le_drops_bits_above_the_width() {
    let mut out = Vec::new();
    append_le(&mut out, 0x0001_0203, 2);
    assert_eq!(out, vec![0x03, 0x02]);
    append_le(&mut out, 7, 0);
    assert_eq!(out, vec![0x03, 0x02]);
}

#[test]
fn read_le_reads_what_append_le_wrote() {
    let mut out = vec![1u8, 2, 3];
    append_le(&mut out, 5_000_000_000, 8);
    append_le(&mut out, 0xffff_ffff, 4);
    assert_eq!(read_le(&out, 3, 8), 5_000_000_000);
    assert_eq!(read_le(&out, 11, 4), 0xffff_ffff);
    assert_eq!(read_le(&out, 0, 0), 0);
    assert_eq!(read_le(&out, 0, 2), 0x0201);
}

#[test]
fn read_le_of_all_ones_is_the_largest_value() {
    assert_eq!(read_le(&[0xff; 8], 0, 8), u64::MAX);
}

#[test]
fn copy_range_and_append_bytes_copy_exactly() {
    let src = [10u8, 11, 12, 13, 14];
    assert_eq!(copy_range(&src, 1, 4), vec![11, 12, 13]);
    assert_eq!(copy_range(&src, 2, 2), Vec::<u8>::new());
    let mut dst = vec![9u8];
    append_bytes(&mut dst, &src[3..]);
    assert_eq!(dst, vec![9, 13, 14]);
}

#[test]
fn copy_items_copies_every_item() {
    let items = vec![vec![1u8, 2], vec![], vec![3u8]];
    assert_eq!(copy_items(&items), items);
    assert_eq!(copy_items(&Vec::new()), Vec::<Vec<u8>>::new());
}

#[test]
fn bytes_equal_compares_length_and_content() {
    assert!(bytes_equal(&[], &[]));
    assert!(bytes_equal(&[1, 2, 3], &[1, 2, 3]));
    assert!(!bytes_equal(&[1, 2, 3], &[1, 2]));
    assert!(!bytes_equal(&[1, 2, 3], &[1, 2, 4]));
    assert!(!bytes_equal(&[0, 2, 3], &[1, 2, 3]));
}
