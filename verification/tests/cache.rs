use cache_mut::hashmap_compatible::NotInMap;
use cache_mut::{CacheCompatible, CacheMut, CacheMutCompatible};
use std::collections::HashMap;

type Cache = CacheMut<String, HashMap<u64, String>>;

fn seeded(n: u64, cap: usize) -> Cache {
    let mut map = HashMap::new();
    for i in 0..n {
        map.insert(i, i.to_string());
    }
    CacheMut::new(map, cap)
}

fn value_of(cache: &mut Cache, k: u64) -> String {
    let h = cache.get(&k).unwrap();
    let v = cache.read(&h).unwrap().clone();
    cache.release(h).unwrap();
    v
}

#[test]
fn get() {
    let mut cache = seeded(10, 4);
    let get = cache.get(&3).unwrap();
    assert_eq!(*cache.read(&get).unwrap(), "3");
}

#[test]
fn get_mut() {
    let mut cache = seeded(10, 4);

    {
        let mut get_mut = cache.get_mut(&3).unwrap();
        get_mut.push_str("_modified");
        cache.release_mut(get_mut).unwrap();
    }

    let get = cache.get(&3).unwrap();
    assert_eq!(*cache.read(&get).unwrap(), "3_modified");
}

#[test]
fn get_mut_two_concurrent() {
    let mut cache = seeded(10, 4);

    let mut get_mut1 = cache.get_mut(&2).unwrap();
    let mut get_mut2 = cache.get_mut(&5).unwrap();

    get_mut1.push_str("_a");
    get_mut2.push_str("_b");

    cache.release_mut(get_mut1).unwrap();
    cache.release_mut(get_mut2).unwrap();

    let get1 = cache.get(&2).unwrap();
    let get2 = cache.get(&5).unwrap();

    assert_eq!(*cache.read(&get1).unwrap(), "2_a");
    assert_eq!(*cache.read(&get2).unwrap(), "5_b");
}

#[test]
fn get_then_get_mut_inactive() {
    let mut cache = seeded(10, 4);

    {
        let get_ref = cache.get(&2).unwrap();
        assert_eq!(*cache.read(&get_ref).unwrap(), "2");
        assert!(cache.active(&2));
        cache.release(get_ref).unwrap();
    }

    {
        let mut get_mut_ref = cache.get_mut(&5).unwrap();
        get_mut_ref.push_str("_edited");
        assert!(cache.active(&5));
        cache.release_mut(get_mut_ref).unwrap();
    }

    assert!(!cache.active(&2));
    assert!(!cache.active(&5));

    let get_ref = cache.get(&5).unwrap();
    assert_eq!(*cache.read(&get_ref).unwrap(), "5_edited");
}

#[test]
fn get_twice_drop_one_still_active() {
    let mut cache = seeded(10, 4);

    let get1 = cache.get(&3).unwrap();
    let get2 = cache.get(&3).unwrap();

    assert!(cache.active(&3));

    cache.release(get1).unwrap();

    assert!(cache.active(&3));

    cache.release(get2).unwrap();

    assert!(!cache.active(&3));
}

#[test]
fn modified_value_persists_after_cache_eviction() {
    let mut cache = seeded(10, 4);

    {
        let mut val = cache.get_mut(&8).unwrap();
        val.push_str("_changed");
        cache.release_mut(val).unwrap();
    }

    for i in 0..5 {
        let h = cache.get(&i).unwrap();
        cache.release(h).unwrap();
    }

    let val = cache.get(&8).unwrap();
    assert_eq!(*cache.read(&val).unwrap(), "8_changed");
    assert!(!cache.read(&val).unwrap().is_empty());
}

#[test]
fn get_missing_returns_not_in_map() {
    let mut cache = seeded(5, 4);

    let result = cache.get(&99);

    assert!(match result {
        Ok(_) => false,
        Err(NotInMap) => true,
    });
}

#[test]
fn insert_adds_new_value() {
    let map = HashMap::new();
    let mut cache: Cache = CacheMut::new(map, 4);

    cache.insert(10, "ten".to_string()).unwrap();

    let val = cache.get(&10).unwrap();
    assert_eq!(*cache.read(&val).unwrap(), "ten");
}

#[test]
fn remove_deletes_value() {
    let mut cache = seeded(5, 4);

    assert_eq!(value_of(&mut cache, 3), "3");

    cache.remove(&3).unwrap();

    let result = cache.get(&3);
    assert!(match result {
        Ok(_) => false,
        Err(NotInMap) => true,
    });
}

#[test]
fn remove_after_get_prevents_future_access() {
    let mut cache = seeded(5, 4);

    let val = cache.get(&2).unwrap();
    assert_eq!(*cache.read(&val).unwrap(), "2");
    cache.release(val).unwrap();

    cache.remove(&2).unwrap();

    let result = cache.get(&2);
    assert!(match result {
        Ok(_) => false,
        Err(NotInMap) => true,
    });
}

#[test]
fn pinned_entry_is_active_until_released() {
    let mut cache = seeded(10, 4);
    let h = cache.get(&3).unwrap();
    assert!(cache.active(&3));
    assert_eq!(cache.num_active(), 1);
    cache.release(h).unwrap();
    assert!(!cache.active(&3));
    assert_eq!(cache.num_active(), 0);
}

#[test]
fn no_entry_is_active_once_every_handle_is_back() {
    let mut cache = seeded(10, 2);
    let a = cache.get(&1).unwrap();
    let b = cache.get(&1).unwrap();
    let c = cache.get_mut(&2).unwrap();
    let d = cache.get(&7).unwrap();
    assert_eq!(cache.num_active(), 3);
    cache.release(a).unwrap();
    cache.release(d).unwrap();
    cache.release_mut(c).unwrap();
    assert_eq!(cache.num_active(), 1);
    cache.release(b).unwrap();
    assert_eq!(cache.num_active(), 0);
}

#[test]
fn capacity_is_what_the_cache_was_made_with() {
    assert_eq!(seeded(3, 4).cap(), 4);
    assert_eq!(seeded(3, 1).cap(), 1);
}

#[test]
fn contains_sees_backend_active_and_inactive_keys() {
    let mut cache = seeded(3, 2);
    assert!(cache.contains(&1));
    assert!(!cache.contains(&9));
    let h = cache.get(&1).unwrap();
    assert!(cache.contains(&1));
    cache.release(h).unwrap();
    assert!(cache.contains(&1));
    cache.remove(&1).unwrap();
    assert!(!cache.contains(&1));
}

/// A backend that keeps a record of the calls that reach it.
struct Recorder {
    map: HashMap<u64, String>,
    calls: Vec<String>,
}

impl CacheCompatible<u64, String> for Recorder {
    type Error = NotInMap;
    type Model = String;

    fn contains(&self, k: u64) -> bool {
        self.map.contains_key(&k)
    }

    fn get(&mut self, k: u64) -> Result<String, NotInMap> {
        self.calls.push(format!("get {k}"));
        self.map.get(&k).cloned().ok_or(NotInMap)
    }

    fn replace(&mut self, k: u64, _v: String) {
        self.calls.push(format!("replace {k}"));
    }
}

impl CacheMutCompatible<u64, String> for Recorder {
    fn insert(&mut self, k: u64, v: String) -> Result<(), NotInMap> {
        self.calls.push(format!("insert {k} {v}"));
        self.map.insert(k, v);
        Ok(())
    }

    fn remove(&mut self, k: u64) -> Result<(), NotInMap> {
        self.calls.push(format!("remove {k}"));
        self.map.remove(&k);
        Ok(())
    }

    fn commit(&mut self) -> Result<(), NotInMap> {
        self.calls.push("commit".to_string());
        Ok(())
    }
}

fn recorder(n: u64) -> Recorder {
    let mut map = HashMap::new();
    for i in 0..n {
        map.insert(i, i.to_string());
    }
    Recorder { map, calls: Vec::new() }
}

fn touch(cache: &mut CacheMut<String, Recorder>, k: u64) {
    let h = cache.get(&k).unwrap();
    cache.release(h).unwrap();
}

#[test]
fn least_recently_used_entry_is_written_back_first() {
    let mut cache = CacheMut::new(recorder(6), 2);
    touch(&mut cache, 0);
    touch(&mut cache, 1);
    // Room for two: the third release pushes key 0 out.
    touch(&mut cache, 2);
    // Using key 1 again makes key 2 the least recently used.
    touch(&mut cache, 1);
    touch(&mut cache, 3);
    let (backend, outcome) = cache.close();
    assert!(outcome.is_ok());
    assert_eq!(
        backend.calls,
        vec![
            "get 0", "get 1", "get 2", "replace 0", "get 3", "replace 2", "replace 1", "replace 3",
            "commit",
        ]
    );
}

#[test]
fn modified_entries_are_inserted_and_clean_ones_replaced() {
    let mut cache = CacheMut::new(recorder(4), 1);
    let mut h = cache.get_mut(&0).unwrap();
    h.push_str("+");
    cache.release_mut(h).unwrap();
    touch(&mut cache, 1);
    touch(&mut cache, 2);
    cache.insert(2, "two".to_string()).unwrap();
    cache.insert(5, "five".to_string()).unwrap();
    cache.remove(&1).unwrap();
    cache.commit().unwrap();
    let (backend, _) = cache.close();
    assert_eq!(
        backend.calls,
        vec![
            "get 0", "get 1", "insert 0 0+", "get 2", "replace 1", "insert 5 five", "remove 1",
            "insert 2 two", "commit", "commit",
        ]
    );
}

#[test]
fn commit_writes_every_entry_back() {
    let mut cache = seeded(4, 4);
    let mut h = cache.get_mut(&1).unwrap();
    h.push_str("!");
    cache.release_mut(h).unwrap();
    let g = cache.get(&2).unwrap();
    cache.release(g).unwrap();
    cache.insert(2, "two".to_string()).unwrap();
    cache.insert(9, "nine".to_string()).unwrap();
    let (map, outcome) = cache.close();
    assert!(outcome.is_ok());
    assert_eq!(map.len(), 5);
    assert_eq!(map[&0], "0");
    assert_eq!(map[&1], "1!");
    assert_eq!(map[&2], "two");
    assert_eq!(map[&3], "3");
    assert_eq!(map[&9], "nine");
}

#[test]
fn reopened_cache_sees_what_was_committed() {
    let mut cache = seeded(4, 2);
    let mut h = cache.get_mut(&0).unwrap();
    *h = "zero".to_string();
    cache.release_mut(h).unwrap();
    cache.commit().unwrap();
    let (map, outcome) = cache.close();
    assert!(outcome.is_ok());
    let mut again: Cache = CacheMut::new(map, 2);
    assert_eq!(value_of(&mut again, 0), "zero");
    assert_eq!(value_of(&mut again, 3), "3");
}

#[test]
fn shared_reads_do_not_change_what_is_held() {
    let mut cache = seeded(6, 2);
    for _ in 0..3 {
        for k in 0..6u64 {
            assert_eq!(value_of(&mut cache, k), k.to_string());
        }
    }
    let (map, outcome) = cache.close();
    assert!(outcome.is_ok());
    assert_eq!(map.len(), 6);
    for k in 0..6u64 {
        assert_eq!(map[&k], k.to_string());
    }
}

#[test]
fn insert_over_inactive_entry_replaces_its_value() {
    let mut cache = seeded(3, 2);
    assert_eq!(value_of(&mut cache, 1), "1");
    cache.insert(1, "uno".to_string()).unwrap();
    assert_eq!(value_of(&mut cache, 1), "uno");
}

#[test]
fn read_of_a_released_handle_gives_nothing() {
    let mut cache = seeded(3, 2);
    let h = cache.get(&1).unwrap();
    let k = h.k();
    assert_eq!(k, 1);
    cache.release(h).unwrap();
    let other = cache.get(&2).unwrap();
    assert!(cache.read(&other).is_some());
    assert!(!cache.active(&1));
}
