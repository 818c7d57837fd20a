use cache_mut::bucket::CacheLevel1;
use cache_mut::layout::{bucket_for, foremost_bit, Level1EntryHeader, Level1Header};
use cache_mut::names::{file_name_of, read_name};

#[test]
fn foremost_bit_is_the_bit_length() {
    assert_eq!(foremost_bit(0), 0);
    assert_eq!(foremost_bit(1), 1);
    assert_eq!(foremost_bit(2), 2);
    assert_eq!(foremost_bit(3), 2);
    assert_eq!(foremost_bit(16), 5);
    assert_eq!(foremost_bit(31), 5);
    assert_eq!(foremost_bit(32), 6);
    assert_eq!(foremost_bit(u64::MAX), 64);
    assert_eq!(foremost_bit(1 << 63), 64);
}

#[test]
fn slot_size_is_two_doublings_above_the_top_bit() {
    assert_eq!(bucket_for(0), Some(2));
    assert_eq!(bucket_for(1), Some(4));
    assert_eq!(bucket_for(16), Some(64));
    assert_eq!(bucket_for(18), Some(64));
    assert_eq!(bucket_for(31), Some(64));
    assert_eq!(bucket_for(32), Some(128));
    assert_eq!(bucket_for(3517), Some(8192));
    assert_eq!(bucket_for((1 << 62) - 1), Some(1 << 63));
    assert_eq!(bucket_for(1 << 62), None);
    assert_eq!(bucket_for(u64::MAX), None);
}

#[test]
fn file_header_is_little_endian() {
    assert_eq!(Level1Header(0x0102030405060708).to_bytes(), [8, 7, 6, 5, 4, 3, 2, 1]);
    assert_eq!(Level1Header::from_bytes(&[8, 7, 6, 5, 4, 3, 2, 1, 99]).0, 0x0102030405060708);
    assert_eq!(Level1Header::from_bytes(&Level1Header(7).to_bytes()).0, 7);
}

#[test]
fn entry_header_is_key_length_then_value_length() {
    let bytes = Level1EntryHeader(1, 0x0200).to_bytes();
    assert_eq!(bytes, [1, 0, 0, 0, 0, 0, 0, 0, 0, 2, 0, 0, 0, 0, 0, 0]);
    let back = Level1EntryHeader::from_bytes(&bytes);
    assert_eq!(back.0, 1);
    assert_eq!(back.1, 0x0200);
}

#[test]
fn file_names_are_decimal_slot_size_and_extension() {
    assert_eq!(file_name_of(64), "64.cache");
    assert_eq!(file_name_of(0), "0.cache");
    assert_eq!(file_name_of(u64::MAX), "18446744073709551615.cache");
    let level = CacheLevel1 { num_items: 0, size_per_item: 8192, reserved: 4, image: Vec::new() };
    assert_eq!(level.file_name(), "8192.cache");
    assert_eq!(level.len(), 0);
}

#[test]
fn only_bucket_file_names_are_read() {
    assert_eq!(read_name("64.cache"), Some(64));
    assert_eq!(read_name("064.cache"), Some(64));
    assert_eq!(read_name("18446744073709551615.cache"), Some(u64::MAX));
    assert_eq!(read_name("18446744073709551616.cache"), None);
    assert_eq!(read_name(".cache"), None);
    assert_eq!(read_name("64.cache.bak"), None);
    assert_eq!(read_name("64.cach"), None);
    assert_eq!(read_name("+64.cache"), None);
    assert_eq!(read_name("6x4.cache"), None);
    assert_eq!(read_name("notes.txt"), None);
    assert_eq!(read_name(""), None);
    for size in [1u64, 9, 10, 32, 99, 100, 4096] {
        assert_eq!(read_name(&file_name_of(size)), Some(size));
    }
}
