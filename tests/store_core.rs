use std::collections::HashMap;

use kvs::error::StoreError;
use kvs::record::{decode_record, Record};
use kvs::store::{stored_value, Location, Store, COMPACTION_THRESHOLD};

/// The engine core together with the bytes of its segment files, kept in memory.
struct Harness {
    store: Store,
    files: HashMap<u64, Vec<u8>>,
}

impl Harness {
    fn open(files: HashMap<u64, Vec<u8>>) -> Result<Harness, StoreError> {
        let mut gens: Vec<u64> = files.keys().cloned().collect();
        gens.sort();
        let segments: Vec<(u64, Vec<u8>)> = gens.iter().map(|g| (*g, files[g].clone())).collect();
        let store = Store::recover(segments)?;
        let mut files = files;
        files.insert(store.current_generation(), Vec::new());
        Ok(Harness { store, files })
    }

    fn set(&mut self, key: &str, value: &str) {
        let bytes = self.store.begin_put(key.to_string(), value.to_string()).unwrap();
        let cur = self.store.current_generation();
        self.files.get_mut(&cur).unwrap().extend_from_slice(&bytes);
        if self.store.commit() {
            self.compact();
        }
    }

    fn remove(&mut self, key: &str) -> Result<(), StoreError> {
        let bytes = self.store.begin_remove(key.to_string())?;
        let cur = self.store.current_generation();
        self.files.get_mut(&cur).unwrap().extend_from_slice(&bytes);
        self.store.commit();
        Ok(())
    }

    fn read(&self, loc: Location) -> Vec<u8> {
        let seg = &self.files[&loc.generation];
        seg[loc.offset as usize..(loc.offset + loc.length) as usize].to_vec()
    }

    fn get(&self, key: &str) -> Option<String> {
        match self.store.lookup(&key.to_string()) {
            None => None,
            Some(loc) => Some(stored_value(&self.read(loc)).unwrap()),
        }
    }

    fn compact(&mut self) {
        let plan = self.store.begin_compaction().unwrap();
        let mut seg = Vec::new();
        for loc in &plan.copies {
            seg.extend_from_slice(&self.read(*loc));
        }
        self.files.insert(plan.compact_generation, seg);
        for g in &plan.stale {
            self.files.remove(g);
        }
        self.files.insert(plan.writer_generation, Vec::new());
        assert!(!self.store.commit());
    }
}

fn fresh() -> Harness {
    Harness::open(HashMap::new()).unwrap()
}

#[test]
fn set_get_remove_scenario() {
    let mut h = fresh();
    h.set("a", "1");
    h.set("b", "2");
    assert_eq!(h.get("a"), Some("1".to_string()));
    h.remove("a").unwrap();
    assert_eq!(h.get("a"), None);
    assert_eq!(h.get("b"), Some("2".to_string()));
}

#[test]
fn fresh_store_starts_at_generation_one() {
    let h = fresh();
    assert_eq!(h.store.current_generation(), 1);
    assert_eq!(h.store.uncompacted(), 0);
    assert_eq!(h.get("anything"), None);
}

#[test]
fn overwrite_keeps_latest_value_and_counts_garbage() {
    let mut h = fresh();
    h.set("k", "first");
    let first_len = h.store.lookup(&"k".to_string()).unwrap().length;
    h.set("k", "second");
    assert_eq!(h.get("k"), Some("second".to_string()));
    assert_eq!(h.store.uncompacted(), first_len);
}

#[test]
fn remove_counts_record_and_tombstone() {
    let mut h = fresh();
    h.set("k", "v");
    let set_len = h.store.lookup(&"k".to_string()).unwrap().length;
    let before = h.files[&1].len() as u64;
    h.remove("k").unwrap();
    let tomb_len = h.files[&1].len() as u64 - before;
    assert_eq!(h.store.uncompacted(), set_len + tomb_len);
    // tag, eight-byte length, one byte of key
    assert_eq!(tomb_len, 10);
}

#[test]
fn remove_missing_key_is_key_not_found() {
    let mut h = fresh();
    let r = h.remove("missing");
    assert!(matches!(r, Err(StoreError::KeyNotFound)));
    assert_eq!(StoreError::KeyNotFound.message(), "key not found");
    h.set("x", "1");
    assert!(matches!(h.remove("missing"), Err(StoreError::KeyNotFound)));
    assert_eq!(h.get("x"), Some("1".to_string()));
}

#[test]
fn compaction_runs_inside_set_and_keeps_values() {
    let mut h = fresh();
    let big = "v".repeat(4096);
    let mut compacted = false;
    let mut round = 0;
    while !compacted {
        for i in 0..20 {
            h.set(&format!("key{}", i), &format!("{}{}", big, round));
        }
        if h.store.current_generation() > 1 {
            compacted = true;
        }
        round += 1;
        assert!(round < 100);
    }
    assert!(!h.files.contains_key(&1));
    assert!(h.store.uncompacted() <= COMPACTION_THRESHOLD);
    for i in 0..20 {
        let v = h.get(&format!("key{}", i)).unwrap();
        assert!(v.starts_with(&big));
    }
}

#[test]
fn forced_compaction_preserves_content_and_deletes_old_segments() {
    let mut h = fresh();
    h.set("a", "1");
    h.set("b", "2");
    h.set("a", "3");
    h.set("c", "4");
    h.remove("c").unwrap();
    let before: Vec<Option<String>> = ["a", "b", "c", "d"].iter().map(|k| h.get(k)).collect();
    h.compact();
    let after: Vec<Option<String>> = ["a", "b", "c", "d"].iter().map(|k| h.get(k)).collect();
    assert_eq!(before, after);
    assert_eq!(h.store.current_generation(), 3);
    assert!(!h.files.contains_key(&1));
    assert!(h.files.contains_key(&2));
    assert_eq!(h.store.uncompacted(), 0);
    for loc_key in ["a", "b"] {
        assert_eq!(h.store.lookup(&loc_key.to_string()).unwrap().generation, 2);
    }
}

#[test]
fn reopen_after_abrupt_end_recovers_values() {
    let mut h = fresh();
    h.set("k", "v");
    h.set("gone", "x");
    h.remove("gone").unwrap();
    let files = h.files.clone();
    drop(h);
    let reopened = Harness::open(files).unwrap();
    assert_eq!(reopened.get("k"), Some("v".to_string()));
    assert_eq!(reopened.get("gone"), None);
    assert_eq!(reopened.store.current_generation(), 2);
}

#[test]
fn reopen_counts_garbage_like_the_live_store() {
    let mut h = fresh();
    h.set("k", "1");
    h.set("k", "2");
    h.set("j", "3");
    h.remove("j").unwrap();
    let live = h.store.uncompacted();
    let reopened = Harness::open(h.files.clone()).unwrap();
    assert_eq!(reopened.store.uncompacted(), live);
}

#[test]
fn reopen_after_compaction() {
    let mut h = fresh();
    h.set("a", "1");
    h.set("a", "2");
    h.compact();
    h.set("b", "3");
    let reopened = Harness::open(h.files.clone()).unwrap();
    assert_eq!(reopened.get("a"), Some("2".to_string()));
    assert_eq!(reopened.get("b"), Some("3".to_string()));
    assert_eq!(reopened.store.current_generation(), 4);
}

#[test]
fn corrupt_segment_fails_recovery() {
    let mut files = HashMap::new();
    files.insert(1u64, vec![0u8, 5, 0]);
    assert!(matches!(Harness::open(files), Err(StoreError::Serialization)));
    let mut files = HashMap::new();
    files.insert(1u64, vec![9u8]);
    assert!(matches!(Harness::open(files), Err(StoreError::Serialization)));
}

#[test]
fn newest_generation_exhausted_fails_recovery() {
    let r = Store::recover(vec![(u64::MAX, Vec::new())]);
    assert!(matches!(r, Err(StoreError::Io(_))));
}

#[test]
fn stored_value_requires_exactly_one_put() {
    let put = Record::Put { key: "k".to_string(), value: "v".to_string() }.encode();
    assert_eq!(stored_value(&put).unwrap(), "v");
    let rm = Record::Remove { key: "k".to_string() }.encode();
    assert!(matches!(stored_value(&rm), Err(StoreError::UnexpectedCommand)));
    let mut longer = put.clone();
    longer.push(0);
    assert!(matches!(stored_value(&longer), Err(StoreError::UnexpectedCommand)));
    assert!(matches!(stored_value(&put[..put.len() - 1]), Err(StoreError::UnexpectedCommand)));
}

#[test]
fn record_bytes_and_round_trip() {
    let r = Record::Put { key: "ab".to_string(), value: "é".to_string() };
    let bytes = r.encode();
    assert_eq!(
        bytes,
        vec![0, 2, 0, 0, 0, 0, 0, 0, 0, b'a', b'b', 2, 0, 0, 0, 0, 0, 0, 0, 0xc3, 0xa9]
    );
    let (back, end) = decode_record(&bytes, 0).unwrap();
    assert_eq!(end, bytes.len());
    match back {
        Record::Put { key, value } => {
            assert_eq!(key, "ab");
            assert_eq!(value, "é");
        }
        _ => panic!("expected a put"),
    }
}

#[test]
fn record_with_invalid_utf8_is_rejected() {
    let bytes = vec![1u8, 1, 0, 0, 0, 0, 0, 0, 0, 0xff];
    assert!(matches!(decode_record(&bytes, 0), Err(StoreError::Serialization)));
}

#[test]
fn begin_without_commit_changes_nothing() {
    let mut h = fresh();
    h.set("k", "v");
    let _ = h.store.begin_put("k".to_string(), "w".to_string()).unwrap();
    assert_eq!(h.get("k"), Some("v".to_string()));
    let _ = h.store.begin_remove("k".to_string()).unwrap();
    assert_eq!(h.get("k"), Some("v".to_string()));
}

#[test]
fn compacted_offsets_follow_copy_order() {
    let mut h = fresh();
    h.set("a", "1");
    h.set("b", "22");
    h.set("a", "333");
    let plan = h.store.begin_compaction().unwrap();
    let copies = plan.copies.clone();
    assert_eq!(copies.len(), 2);
    assert_eq!(copies[0], h.store.lookup(&"a".to_string()).unwrap());
    assert_eq!(copies[1], h.store.lookup(&"b".to_string()).unwrap());
    let mut seg = Vec::new();
    for loc in &copies {
        seg.extend_from_slice(&h.read(*loc));
    }
    h.files.insert(plan.compact_generation, seg);
    h.files.insert(plan.writer_generation, Vec::new());
    for g in &plan.stale {
        h.files.remove(g);
    }
    h.store.commit();
    let mut locs: Vec<_> = ["a", "b"].iter().map(|k| h.store.lookup(&k.to_string()).unwrap()).collect();
    locs.sort_by_key(|l| l.offset);
    assert_eq!(locs[0].offset, 0);
    assert_eq!(locs[1].offset, locs[0].length);
    assert_eq!(locs[0].length + locs[1].length, copies.iter().map(|l| l.length).sum::<u64>());
    assert!(locs.iter().all(|l| l.generation == plan.compact_generation));
    assert_eq!(h.get("a"), Some("333".to_string()));
    assert_eq!(h.get("b"), Some("22".to_string()));
}

#[test]
fn put_index_entry_is_end_of_current_segment() {
    let mut h = fresh();
    h.set("a", "1");
    let end = h.files[&1].len() as u64;
    h.set("b", "2");
    let loc = h.store.lookup(&"b".to_string()).unwrap();
    assert_eq!(loc.generation, 1);
    assert_eq!(loc.offset, end);
    assert_eq!(loc.offset + loc.length, h.files[&1].len() as u64);
}
