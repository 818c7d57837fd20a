use cache_mut::bucket::{file_len, frame_record, is_power_of_two, CacheLevel1};
use cache_mut::folder_compatible::Ref;
use cache_mut::level2::CacheLevel2;

fn key(k: u64) -> Vec<u8> {
    rmp_serde::to_vec(&k).unwrap()
}

fn fresh(size: u64) -> CacheLevel1 {
    let mut level = CacheLevel1 { num_items: 9, size_per_item: size, reserved: 4, image: vec![7] };
    assert_eq!(level.create_file().unwrap(), format!("{size}.cache"));
    level
}

#[test]
fn new_file_is_header_and_four_empty_slots() {
    let level = fresh(64);
    assert_eq!(level.num_items, 0);
    assert_eq!(level.reserved, 4);
    assert_eq!(level.image, vec![0u8; 8 + 4 * 64]);
    assert!(level.conforms());
    assert!(level.has_room());
}

#[test]
fn frame_is_sixteen_bytes_longer_than_key_and_value() {
    let rec = frame_record(&vec![9, 8], &vec![1, 2, 3]);
    assert_eq!(rec, vec![2, 0, 0, 0, 0, 0, 0, 0, 3, 0, 0, 0, 0, 0, 0, 0, 1, 2, 3, 9, 8]);
}

#[test]
fn file_length_is_header_plus_slots() {
    assert_eq!(file_len(4, 64), Some(264));
    assert_eq!(file_len(0, 64), Some(8));
    assert_eq!(file_len(u64::MAX, 2), None);
    assert_eq!(file_len(u64::MAX / 2, 2), None);
}

#[test]
fn powers_of_two_are_recognised() {
    for e in 0..64 {
        assert!(is_power_of_two(1u64 << e));
    }
    for x in [0u64, 3, 5, 6, 7, 12, 100, u64::MAX, (1 << 63) + 1] {
        assert!(!is_power_of_two(x));
    }
}

#[test]
fn records_are_added_read_overwritten_and_swapped_out() {
    let mut level = fresh(64);
    assert_eq!(level.add(&key(10), &vec![1, 1]).unwrap(), 0);
    assert_eq!(level.add(&key(11), &vec![2]).unwrap(), 1);
    assert_eq!(level.add(&key(12), &vec![3, 3, 3]).unwrap(), 2);
    assert_eq!(level.num_items, 3);
    assert_eq!(&level.image[0..8], &[3, 0, 0, 0, 0, 0, 0, 0]);
    assert_eq!(level.read(1).unwrap(), (11, vec![2]));
    assert_eq!(level.read_k(2).unwrap(), 12);
    assert_eq!(level.read_v(0).unwrap(), vec![1, 1]);

    level.overwrite(1, &key(11), &vec![4, 4, 4, 4]).unwrap();
    assert_eq!(level.read(1).unwrap(), (11, vec![4, 4, 4, 4]));
    assert_eq!(level.read(0).unwrap(), (10, vec![1, 1]));
    assert_eq!(level.read(2).unwrap(), (12, vec![3, 3, 3]));

    // The last record moves into the slot of the one that goes.
    assert_eq!(level.swap_remove(0).unwrap(), Some(12));
    assert_eq!(level.num_items, 2);
    assert_eq!(level.read(0).unwrap(), (12, vec![3, 3, 3]));
    assert_eq!(level.read(1).unwrap(), (11, vec![4, 4, 4, 4]));
    // The last record itself just goes.
    assert_eq!(level.swap_remove(1).unwrap(), None);
    assert_eq!(level.num_items, 1);
    assert_eq!(&level.image[0..8], &[1, 0, 0, 0, 0, 0, 0, 0]);

    level.clear();
    assert_eq!(level.num_items, 0);
    assert_eq!(&level.image[0..8], &[0; 8]);
    assert_eq!(level.image.len(), 8 + 4 * 64);
}

#[test]
fn bucket_from_a_stored_file() {
    let mut level = fresh(64);
    level.add(&key(1), &vec![5]).unwrap();
    let image = level.image.clone();
    let back = CacheLevel1::from_path("64.cache", image).unwrap().unwrap();
    assert_eq!(back.size_per_item, 64);
    assert_eq!(back.num_items, 1);
    assert_eq!(back.reserved, 4);
    assert!(back.conforms());
    assert!(CacheLevel1::from_path("notes.txt", vec![1, 2]).unwrap().is_none());
    // As many slots are reserved as fit in the file.
    let odd = CacheLevel1::from_path("64.cache", vec![0; 8 + 64 * 2 + 10]).unwrap().unwrap();
    assert_eq!(odd.reserved, 2);
    assert!(!odd.conforms());
}

#[test]
fn buckets_stay_sorted_and_are_made_on_demand() {
    let mut level = CacheLevel2 { files: Vec::new(), open: None };
    assert_eq!(level.switch_open(256).unwrap(), 0);
    assert_eq!(level.switch_open(64).unwrap(), 0);
    assert_eq!(level.switch_open(1024).unwrap(), 2);
    assert_eq!(level.switch_open(256).unwrap(), 1);
    assert_eq!(level.open, Some(256));
    level.new_file(128).unwrap();
    level.new_file(128).unwrap();
    assert_eq!(level.open, Some(256));
    let sizes: Vec<u64> = level.files.iter().map(|f| f.size_per_item).collect();
    assert_eq!(sizes, vec![64, 128, 256, 1024]);
    assert_eq!(level.find(128), Ok(1));
    assert_eq!(level.find(32), Err(0));
    assert_eq!(level.find(512), Err(3));
    assert_eq!(level.find(2048), Err(4));
}

#[test]
fn records_go_to_the_bucket_of_their_frame() {
    let mut level = CacheLevel2 { files: Vec::new(), open: None };
    // 16 + 1 + 3 = 20 bytes: slots of 64. 16 + 1 + 50 = 67 bytes: slots of 256.
    let a = level.add(&1, &vec![0; 3]).unwrap();
    let b = level.add(&2, &vec![0; 50]).unwrap();
    let c = level.add(&3, &vec![1; 3]).unwrap();
    assert_eq!((a.file, a.index), (64, 0));
    assert_eq!((b.file, b.index), (256, 0));
    assert_eq!((c.file, c.index), (64, 1));
    assert_eq!(level.get(c).unwrap(), (3, vec![1; 3]));
    assert_eq!(level.get_v(b).unwrap(), vec![0; 50]);

    // In place where the bucket stays the same.
    assert_eq!(level.overwrite(a, &1, &vec![9; 5]).unwrap(), None);
    assert_eq!(level.get(a).unwrap(), (1, vec![9; 5]));
    // Into another bucket: key 3 moves into the slot that key 1 had.
    let moved = level.overwrite(a, &1, &vec![9; 50]).unwrap();
    assert_eq!(moved, Some((Some(3), Ref { file: 256, index: 1 })));
    assert_eq!(level.get(a).unwrap(), (3, vec![1; 3]));
    assert_eq!(level.files[0].num_items, 1);
    assert_eq!(level.files[1].num_items, 2);

    assert_eq!(level.remove(Ref { file: 256, index: 0 }).unwrap(), Some(1));
    assert_eq!(level.remove(Ref { file: 256, index: 0 }).unwrap(), None);
    assert_eq!(level.files[1].num_items, 0);
}

#[test]
fn value_is_found_against_its_key() {
    let mut level = CacheLevel2 { files: Vec::new(), open: None };
    let a = level.add(&1, &vec![10]).unwrap();
    let b = level.add(&2, &vec![20; 40]).unwrap();
    let c = level.add(&3, &vec![30]).unwrap();
    assert_eq!(level.get_v_against_k(&2, &[a, b, c]).unwrap(), Some(vec![20; 40]));
    assert_eq!(level.get_v_against_k(&3, &[a, b, c]).unwrap(), Some(vec![30]));
    assert_eq!(level.get_v_against_k(&3, &[a, b]).unwrap(), None);
    assert_eq!(level.get_v_against_k(&1, &[]).unwrap(), None);
}
