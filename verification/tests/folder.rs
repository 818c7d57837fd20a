use cache_mut::folder_compatible::{
    clear_cache, FolderCache, FolderCacheError, IoFault, StoredFile,
};
use cache_mut::CacheMut;

type Cache = CacheMut<Vec<u8>, FolderCache>;

fn enc(s: &str) -> Vec<u8> {
    rmp_serde::to_vec(&s.to_string()).unwrap()
}

fn dec(bytes: &[u8]) -> String {
    rmp_serde::from_slice(bytes).unwrap()
}

fn value_of(cache: &mut Cache, k: u64) -> String {
    let h = cache.get(&k).unwrap();
    let v = dec(cache.read(&h).unwrap());
    cache.release(h).unwrap();
    v
}

fn is_missing(cache: &mut Cache, k: u64) -> bool {
    cache.get(&k).is_err()
}

/// Ends the cache as dropping it would: everything is written back, and the
/// folder is what remains.
fn dropped(cache: Cache) -> Vec<StoredFile> {
    let (store, _) = cache.close();
    store.into_folder()
}

fn cache_files(folder: &[StoredFile]) -> Vec<&StoredFile> {
    folder.iter().filter(|f| f.name.ends_with(".cache")).collect()
}

fn copy_of(folder: &[StoredFile]) -> Vec<StoredFile> {
    folder.iter().map(|f| StoredFile { name: f.name.clone(), bytes: f.bytes.clone() }).collect()
}

#[test]
fn insert() {
    let folder = FolderCache::continued(Vec::new()).unwrap();
    let mut cache = CacheMut::new(folder, 2);
    for i in 0..10 {
        cache.insert(i, enc(&i.to_string())).unwrap();
    }
    assert_eq!(value_of(&mut cache, 1), "1");
    assert_eq!(value_of(&mut cache, 2), "2");
    assert_eq!(value_of(&mut cache, 3), "3");
    assert_eq!(value_of(&mut cache, 4), "4");
    assert_eq!(value_of(&mut cache, 9), "9");
    assert_eq!(value_of(&mut cache, 1), "1");
}

#[test]
fn persist_across_drop() {
    let folder_path;

    {
        let folder = FolderCache::continued(Vec::new()).unwrap();
        let mut cache = CacheMut::new(folder, 2);
        cache.insert(42, enc("meaning")).unwrap();
        cache.insert(99, enc("bottles")).unwrap();

        assert_eq!(value_of(&mut cache, 42), "meaning");
        folder_path = dropped(cache);
    }

    {
        let folder = FolderCache::continued(folder_path).unwrap();
        let mut cache: Cache = CacheMut::new(folder, 2);

        assert_eq!(value_of(&mut cache, 42), "meaning");
        assert_eq!(value_of(&mut cache, 99), "bottles");
    }
}

#[test]
fn cleared_removes_old_data() {
    let folder_path;

    {
        let folder = FolderCache::continued(Vec::new()).unwrap();
        let mut cache = CacheMut::new(folder, 2);
        cache.insert(1, enc("one")).unwrap();
        cache.insert(2, enc("two")).unwrap();
        assert_eq!(value_of(&mut cache, 1), "one");
        folder_path = dropped(cache);
    }

    let entries_before = folder_path.len();
    assert!(entries_before != 0, "Folder should not be empty before clearing");

    {
        let folder = FolderCache::cleared(folder_path).unwrap();

        let entries_after = folder.lvl2.files.len();
        assert!(entries_after == 0, "Folder should be empty after FolderCache::cleared");

        let mut cache: Cache = CacheMut::new(folder, 2);

        assert!(cache.get(&1).is_err(), "Old value 1 should not persist after clear");
        assert!(cache.get(&2).is_err(), "Old value 2 should not persist after clear");
    }
}

#[test]
fn mutation_persists_after_eviction() {
    let folder = FolderCache::continued(Vec::new()).unwrap();
    let mut cache = CacheMut::new(folder, 2);

    for i in 0..5 {
        cache.insert(i, enc(&format!("value_{i}"))).unwrap();
    }

    {
        let mut v = cache.get_mut(&1).unwrap();
        *v = enc("modified");
        cache.release_mut(v).unwrap();
    }

    let _a = cache.get(&2).unwrap();
    let _b = cache.get(&3).unwrap();
    let _c = cache.get(&4).unwrap();

    cache.release(_a).unwrap();
    cache.release(_b).unwrap();
    cache.release(_c).unwrap();

    let v = cache.get(&1).unwrap();

    assert_eq!(dec(cache.read(&v).unwrap()), "modified");
}

#[test]
fn commit_persists_non_evicted_mutations() {
    let folder = FolderCache::continued(Vec::new()).unwrap();
    let mut cache = CacheMut::new(folder, 10);

    for i in 0..5 {
        cache.insert(i, enc(&format!("value_{i}"))).unwrap();
    }

    for (k, text) in [(0u64, "zero"), (1, "one"), (2, "two")] {
        let mut h = cache.get_mut(&k).unwrap();
        *h = enc(text);
        cache.release_mut(h).unwrap();
    }

    cache.commit().unwrap();

    let folder_path = dropped(cache);

    let folder = FolderCache::continued(folder_path).unwrap();
    let mut cache: Cache = CacheMut::new(folder, 10);

    assert_eq!(value_of(&mut cache, 0), "zero");
    assert_eq!(value_of(&mut cache, 1), "one");
    assert_eq!(value_of(&mut cache, 2), "two");
    assert_eq!(value_of(&mut cache, 3), "value_3");
    assert_eq!(value_of(&mut cache, 4), "value_4");
}

#[test]
fn many_insert() {
    let folder = FolderCache::continued(Vec::new()).unwrap();
    let mut cache = CacheMut::new(folder, 2);
    for i in 0..200 {
        cache.insert(i, enc(&i.to_string())).unwrap();
    }
    let folder_path = dropped(cache);
    let folder = FolderCache::continued(folder_path).unwrap();
    let mut cache: Cache = CacheMut::new(folder, 2);
    for i in 0..200 {
        assert_eq!(value_of(&mut cache, i), i.to_string());
    }
}

#[test]
fn variable_size_insert() {
    let folder = FolderCache::continued(Vec::new()).unwrap();
    let mut cache = CacheMut::new(folder, 2);

    for i in 0..200 {
        let value = "memphis".repeat(i);
        cache.insert(i as u64, enc(&value)).unwrap();
    }

    let folder_path = dropped(cache);

    let folder = FolderCache::continued(folder_path).unwrap();
    let mut cache: Cache = CacheMut::new(folder, 2);

    for i in 0..200 {
        let expected = "memphis".repeat(i);
        assert_eq!(value_of(&mut cache, i as u64), expected);
    }
}

#[test]
fn mutate_short_to_long_persists() {
    let folder = FolderCache::continued(Vec::new()).unwrap();
    let mut cache = CacheMut::new(folder, 2);

    cache.insert(1, enc("hi")).unwrap();
    assert_eq!(value_of(&mut cache, 1), "hi");

    {
        let mut v = cache.get_mut(&1).unwrap();
        *v = enc(&"memphis".repeat(500));
        cache.release_mut(v).unwrap();
    }

    let folder_path = dropped(cache);

    let folder = FolderCache::continued(folder_path).unwrap();
    let mut cache: Cache = CacheMut::new(folder, 2);

    let value = value_of(&mut cache, 1);
    assert_eq!(value.len(), "memphis".len() * 500);
    assert!(value.starts_with("memphis"));
    assert!(value.ends_with("memphis"));
}

#[test]
fn file_reuse_and_size_stability() {
    let folder = FolderCache::continued(Vec::new()).unwrap();
    let mut cache = CacheMut::new(folder, 4);

    for i in 0..7 {
        cache.insert(i, enc(&i.to_string())).unwrap();
    }

    let mut folder_path = dropped(cache);

    assert_eq!(cache_files(&folder_path).len(), 1, "Expected exactly one .cache file in folder");

    let cache_file = cache_files(&folder_path)[0].name.clone();
    let initial_size = cache_files(&folder_path)[0].bytes.len();

    {
        let folder = FolderCache::continued(folder_path).unwrap();
        let mut cache: Cache = CacheMut::new(folder, 4);

        for i in 0..7 {
            cache.remove(&i).unwrap();
        }
        folder_path = dropped(cache);
    }

    {
        let folder = FolderCache::continued(folder_path).unwrap();
        let mut cache: Cache = CacheMut::new(folder, 4);

        for i in 0..7 {
            assert!(is_missing(&mut cache, i), "Expected key {i} to be absent");
        }
        folder_path = dropped(cache);
    }

    {
        let folder = FolderCache::continued(folder_path).unwrap();
        let mut cache = CacheMut::new(folder, 4);

        for i in 0..7 {
            cache.insert(i, enc(&(7 - i).to_string())).unwrap();
        }

        folder_path = dropped(cache);
    }

    let v = cache_files(&folder_path);
    assert_eq!(v.len(), 1);
    assert_eq!(v[0].name, cache_file);

    let final_size = v[0].bytes.len();

    assert_eq!(
        initial_size, final_size,
        ".cache file size should remain the same after reinsertion"
    );
}

#[test]
fn record_bytes_are_lengths_value_key() {
    let mut store = FolderCache::continued(Vec::new()).unwrap();
    store.insert(1, &enc("hi")).unwrap();
    store.insert(200, &enc("yo")).unwrap();
    let folder = store.into_folder();
    assert_eq!(folder.len(), 1);
    // Frames of 20 and 21 bytes: five bits, so slots of 64 bytes.
    assert_eq!(folder[0].name, "64.cache");
    let bytes = &folder[0].bytes;
    assert_eq!(bytes.len(), 8 + 4 * 64);
    assert_eq!(&bytes[0..8], &[2, 0, 0, 0, 0, 0, 0, 0]);
    let first = &bytes[8..8 + 64];
    assert_eq!(&first[0..8], &[1, 0, 0, 0, 0, 0, 0, 0]);
    assert_eq!(&first[8..16], &[3, 0, 0, 0, 0, 0, 0, 0]);
    assert_eq!(&first[16..19], &[0xa2, b'h', b'i']);
    assert_eq!(&first[19..20], &[0x01]);
    let second = &bytes[8 + 64..8 + 128];
    assert_eq!(&second[0..8], &[2, 0, 0, 0, 0, 0, 0, 0]);
    assert_eq!(&second[8..16], &[3, 0, 0, 0, 0, 0, 0, 0]);
    assert_eq!(&second[16..19], &[0xa2, b'y', b'o']);
    // The key 200 is written as MessagePack writes it, not as it is held.
    assert_eq!(&second[19..21], &[0xcc, 200]);
}

#[test]
fn file_doubles_when_every_slot_is_live() {
    let mut store = FolderCache::continued(Vec::new()).unwrap();
    for k in 0..4u64 {
        store.insert(k, &enc("ab")).unwrap();
    }
    assert_eq!(store.lvl2.files[0].reserved, 4);
    assert_eq!(store.lvl2.files[0].image.len(), 8 + 4 * 64);
    store.insert(4, &enc("ab")).unwrap();
    assert_eq!(store.lvl2.files[0].reserved, 8);
    assert_eq!(store.lvl2.files[0].num_items, 5);
    assert_eq!(store.lvl2.files[0].len(), 5);
    assert_eq!(store.lvl2.files[0].image.len(), 8 + 8 * 64);
    for k in 5..9u64 {
        store.insert(k, &enc("ab")).unwrap();
    }
    assert_eq!(store.lvl2.files[0].reserved, 16);
    // Removing never shrinks the file.
    for k in 0..9u64 {
        store.remove(&k).unwrap();
    }
    assert_eq!(store.lvl2.files[0].num_items, 0);
    assert_eq!(store.lvl2.files[0].reserved, 16);
    assert_eq!(store.lvl2.files[0].image.len(), 8 + 16 * 64);
}

#[test]
fn removal_moves_the_last_record_and_the_index_follows() {
    let mut store = FolderCache::continued(Vec::new()).unwrap();
    for k in 1..=3u64 {
        store.insert(k, &enc(&format!("v{k}"))).unwrap();
    }
    store.remove(&1).unwrap();
    assert!(!store.contains(&1));
    assert_eq!(store.lvl2.files[0].num_items, 2);
    assert_eq!(dec(&store.get(&3).unwrap()), "v3");
    assert_eq!(dec(&store.get(&2).unwrap()), "v2");
    // Key 3 now lies in the slot that key 1 had.
    assert_eq!(store.lvl2.files[0].read_k(0).unwrap(), 3);
    assert_eq!(store.lvl2.files[0].read_k(1).unwrap(), 2);
    assert!(matches!(store.get(&1), Err(FolderCacheError::Nothing)));
    // Removing a key that is not there changes nothing.
    store.remove(&77).unwrap();
    assert_eq!(store.lvl2.files[0].num_items, 2);
}

#[test]
fn overwrite_into_another_bucket_patches_the_moved_key() {
    let mut store = FolderCache::continued(Vec::new()).unwrap();
    store.insert(1, &enc("a")).unwrap();
    store.insert(2, &enc("b")).unwrap();
    store.insert(3, &enc("c")).unwrap();
    let long = "x".repeat(100);
    store.insert(1, &enc(&long)).unwrap();
    assert_eq!(store.lvl2.files.len(), 2);
    assert_eq!(store.lvl2.files[0].size_per_item, 64);
    assert_eq!(store.lvl2.files[0].num_items, 2);
    // 16 + 1 + 102 = 119 bytes: seven bits, so slots of 256 bytes.
    assert_eq!(store.lvl2.files[1].size_per_item, 256);
    assert_eq!(store.lvl2.files[1].num_items, 1);
    assert_eq!(dec(&store.get(&1).unwrap()), long);
    assert_eq!(dec(&store.get(&2).unwrap()), "b");
    assert_eq!(dec(&store.get(&3).unwrap()), "c");
    assert_eq!(store.lvl2.files[0].read_k(0).unwrap(), 3);
    // Writing a value of the same bucket stays in place.
    store.insert(2, &enc("B")).unwrap();
    assert_eq!(store.lvl2.files[0].num_items, 2);
    assert_eq!(dec(&store.get(&2).unwrap()), "B");
    assert_eq!(store.lvl2.files[0].read_k(1).unwrap(), 2);
}

#[test]
fn every_indexed_slot_holds_its_key() {
    let mut store = FolderCache::continued(Vec::new()).unwrap();
    for k in 0..60u64 {
        store.insert(k, &enc(&"z".repeat((k as usize * 7) % 90))).unwrap();
    }
    for k in (0..60u64).step_by(3) {
        store.remove(&k).unwrap();
    }
    for k in (1..60u64).step_by(4) {
        store.insert(k, &enc(&"w".repeat((k as usize * 13) % 200))).unwrap();
    }
    let mut live = 0;
    for level in &store.lvl2.files {
        assert!(level.size_per_item.is_power_of_two() && level.size_per_item >= 32);
        assert!(level.reserved.is_power_of_two() && level.reserved >= 4);
        assert_eq!(level.image.len() as u64, 8 + level.reserved * level.size_per_item);
        assert_eq!(&level.image[0..8], &level.num_items.to_le_bytes());
        for i in 0..level.num_items {
            let (k, v) = level.read(i).unwrap();
            let at = store.map[&k];
            assert_eq!((at.file, at.index), (level.size_per_item, i));
            let full = 16 + rmp_serde::to_vec(&k).unwrap().len() + v.len();
            assert!(level.size_per_item as usize > 2 * full);
            assert!(level.size_per_item as usize <= 4 * full);
            live += 1;
        }
    }
    assert_eq!(live, store.map.len());
    // Forty keys stayed, and five of the twenty that went came back.
    assert_eq!(live, 45);
}

#[test]
fn reopened_store_holds_the_same_pairs() {
    let mut store = FolderCache::continued(Vec::new()).unwrap();
    for k in 0..30u64 {
        store.insert(k * 1000, &enc(&"q".repeat(k as usize * 5))).unwrap();
    }
    let mut again = FolderCache::continued(store.into_folder()).unwrap();
    assert_eq!(again.map.len(), 30);
    for k in 0..30u64 {
        assert_eq!(dec(&again.get(&(k * 1000)).unwrap()), "q".repeat(k as usize * 5));
    }
}

#[test]
fn clearing_deletes_bucket_files_only() {
    let mut store = FolderCache::continued(Vec::new()).unwrap();
    store.insert(1, &enc("one")).unwrap();
    let mut folder = store.into_folder();
    folder.insert(0, StoredFile { name: "notes.txt".to_string(), bytes: vec![1, 2, 3] });
    folder.push(StoredFile { name: "64.cache.bak".to_string(), bytes: vec![] });
    clear_cache(&mut folder).unwrap();
    let names: Vec<&str> = folder.iter().map(|f| f.name.as_str()).collect();
    assert_eq!(names, vec!["notes.txt", "64.cache.bak"]);
    assert_eq!(folder[0].bytes, vec![1, 2, 3]);
}

#[test]
fn other_files_are_ignored_on_scan() {
    let mut store = FolderCache::continued(Vec::new()).unwrap();
    store.insert(5, &enc("five")).unwrap();
    let mut folder = store.into_folder();
    folder.push(StoredFile { name: "readme".to_string(), bytes: vec![9; 3] });
    let mut again = FolderCache::continued(folder).unwrap();
    assert_eq!(again.lvl2.files.len(), 1);
    assert_eq!(dec(&again.get(&5).unwrap()), "five");
}

fn one_record_folder() -> Vec<StoredFile> {
    let mut store = FolderCache::continued(Vec::new()).unwrap();
    store.insert(1, &enc("hi")).unwrap();
    store.into_folder()
}

#[test]
fn missing_key_is_nothing() {
    let mut store = FolderCache::continued(one_record_folder()).unwrap();
    assert!(matches!(store.get(&2), Err(FolderCacheError::Nothing)));
    assert_eq!(FolderCacheError::Nothing.message(), "Not present in cache");
}

#[test]
fn short_file_is_unexpected_eof() {
    let folder = vec![StoredFile { name: "64.cache".to_string(), bytes: vec![0; 7] }];
    assert!(matches!(
        FolderCache::continued(folder),
        Err(FolderCacheError::IO(IoFault::UnexpectedEof))
    ));
}

#[test]
fn file_under_another_name_is_not_found() {
    let mut folder = one_record_folder();
    folder[0].name = "064.cache".to_string();
    assert!(matches!(
        FolderCache::continued(folder),
        Err(FolderCacheError::IO(IoFault::NotFound))
    ));
}

#[test]
fn broken_layout_is_invalid_data() {
    // A slot size of zero.
    let folder = vec![StoredFile { name: "0.cache".to_string(), bytes: vec![0; 8] }];
    assert!(matches!(
        FolderCache::continued(folder),
        Err(FolderCacheError::IO(IoFault::InvalidData))
    ));
    // A file that is not as long as its slots need.
    let mut folder = one_record_folder();
    folder[0].bytes.push(0);
    assert!(matches!(
        FolderCache::continued(folder),
        Err(FolderCacheError::IO(IoFault::InvalidData))
    ));
    // More live slots than the file has room for.
    let mut folder = one_record_folder();
    folder[0].bytes[0] = 5;
    assert!(matches!(
        FolderCache::continued(folder),
        Err(FolderCacheError::IO(IoFault::InvalidData))
    ));
    // A record that announces more bytes than a slot has.
    let mut folder = one_record_folder();
    folder[0].bytes[8 + 8] = 200;
    assert!(matches!(
        FolderCache::continued(folder),
        Err(FolderCacheError::IO(IoFault::InvalidData))
    ));
    // Two bucket files of one slot size.
    let mut folder = one_record_folder();
    let twin = copy_of(&folder);
    folder.extend(twin);
    assert!(matches!(
        FolderCache::continued(folder),
        Err(FolderCacheError::IO(IoFault::InvalidData))
    ));
    // The same key in two slots.
    let mut store = FolderCache::continued(Vec::new()).unwrap();
    store.insert(1, &enc("hi")).unwrap();
    store.insert(2, &enc("ho")).unwrap();
    let mut folder = store.into_folder();
    folder[0].bytes[8 + 64 + 19] = 1;
    assert!(matches!(
        FolderCache::continued(folder),
        Err(FolderCacheError::IO(IoFault::InvalidData))
    ));
}

#[test]
fn key_bytes_that_are_no_key_are_a_decode_error() {
    let mut folder = one_record_folder();
    // 0xc1 is never used by MessagePack.
    folder[0].bytes[8 + 19] = 0xc1;
    let r = FolderCache::continued(folder);
    assert!(matches!(r, Err(FolderCacheError::Decode(_))));
    assert_eq!(r.err().unwrap().message(), "decode error");
}
