use kvs::KvStore;
use kvs::KvsError;
use kvs::SegmentFile;

fn open_empty() -> KvStore {
    KvStore::open(Vec::new()).unwrap()
}

fn reopen(store: &KvStore) -> KvStore {
    let mut files: Vec<SegmentFile> = Vec::new();
    for gen in store.generations() {
        let data = store.segment_data(gen).unwrap();
        files.push(SegmentFile { gen, data });
    }
    KvStore::open(files).unwrap()
}

#[test]
fn open_empty_set_get() {
    let mut store = open_empty();
    assert_eq!(store.active_generation(), 1);
    store.set(String::from("a"), String::from("1")).unwrap();
    assert_eq!(store.get(String::from("a")).unwrap(), Some(String::from("1")));
}

#[test]
fn overwrite_keeps_one_entry_and_counts_dead_bytes() {
    let mut store = open_empty();
    store.set(String::from("a"), String::from("1")).unwrap();
    assert_eq!(store.uncompacted_bytes(), 0);
    store.set(String::from("a"), String::from("2")).unwrap();
    assert_eq!(store.get(String::from("a")).unwrap(), Some(String::from("2")));
    assert_eq!(store.index_len(), 1);
    // the first record: 1 tag byte, two 8-byte length prefixes, "a", "1"
    assert_eq!(store.uncompacted_bytes(), 19);
}

#[test]
fn set_remove_get_and_remove_again() {
    let mut store = open_empty();
    store.set(String::from("a"), String::from("1")).unwrap();
    store.remove(String::from("a")).unwrap();
    assert_eq!(store.get(String::from("a")).unwrap(), None);
    let again = store.remove(String::from("a"));
    assert_eq!(again, Err(KvsError::KeyNotFound));
    assert_eq!(store.index_len(), 0);
    assert_eq!(store.get(String::from("a")).unwrap(), None);
}

#[test]
fn remove_never_set_key_changes_nothing() {
    let mut store = open_empty();
    let size_before = store.size_in_bytes();
    let r = store.remove(String::from("ghost-key"));
    assert_eq!(r, Err(KvsError::KeyNotFound));
    assert_eq!(store.index_len(), 0);
    assert_eq!(store.uncompacted_bytes(), 0);
    assert_eq!(store.size_in_bytes(), size_before);
}

#[test]
fn reopen_reproduces_contents() {
    let mut store = open_empty();
    store.set(String::from("a"), String::from("1")).unwrap();
    store.set(String::from("b"), String::from("2")).unwrap();
    store.set(String::from("a"), String::from("3")).unwrap();
    store.remove(String::from("b")).unwrap();
    let copy = reopen(&store);
    assert_eq!(copy.get(String::from("a")).unwrap(), Some(String::from("3")));
    assert_eq!(copy.get(String::from("b")).unwrap(), None);
    assert_eq!(copy.index_len(), 1);
    assert_eq!(copy.uncompacted_bytes(), store.uncompacted_bytes());
}

#[test]
fn reopen_after_close_gets_same_value() {
    let mut store = open_empty();
    store.set(String::from("a"), String::from("1")).unwrap();
    let files: Vec<SegmentFile> = store
        .generations()
        .into_iter()
        .map(|gen| SegmentFile { gen, data: store.segment_data(gen).unwrap() })
        .collect();
    drop(store);
    let copy = KvStore::open(files).unwrap();
    assert_eq!(copy.get(String::from("a")).unwrap(), Some(String::from("1")));
}

#[test]
fn compact_preserves_contents_and_drops_old_segments() {
    let mut store = open_empty();
    for i in 0..50u32 {
        store.set(format!("key{}", i), format!("value{}", i)).unwrap();
    }
    for i in 0..50u32 {
        store.set(format!("key{}", i), format!("newer{}", i)).unwrap();
    }
    for i in 40..50u32 {
        store.remove(format!("key{}", i)).unwrap();
    }
    let gen_before = store.active_generation();
    let size_before = store.size_in_bytes();
    assert!(store.uncompacted_bytes() > 0);
    store.compact().unwrap();
    assert_eq!(store.uncompacted_bytes(), 0);
    assert_eq!(store.active_generation(), gen_before + 2);
    let gens = store.generations();
    assert_eq!(gens, vec![gen_before + 1, gen_before + 2]);
    assert!(store.size_in_bytes() < size_before);
    for i in 0..40u32 {
        assert_eq!(store.get(format!("key{}", i)).unwrap(), Some(format!("newer{}", i)));
    }
    for i in 40..50u32 {
        assert_eq!(store.get(format!("key{}", i)).unwrap(), None);
    }
    let copy = reopen(&store);
    assert_eq!(copy.index_len(), 40);
}

#[test]
fn superseding_writes_trigger_automatic_compaction() {
    let mut store = open_empty();
    let value_a = "a".repeat(64);
    let value_b = "b".repeat(64);
    for i in 0..1000u32 {
        store.set(format!("key{:04}", i), value_a.clone()).unwrap();
    }
    let size_full = store.size_in_bytes();
    for i in 0..1000u32 {
        store.set(format!("key{:04}", i), value_b.clone()).unwrap();
    }
    // enough superseded records were written to cross the threshold
    assert!(store.active_generation() > 1);
    assert_eq!(store.generations().len(), 2);
    assert!(store.uncompacted_bytes() <= kvs::COMPACTION_THRESHOLD);
    assert!(store.size_in_bytes() < 2 * size_full);
    for i in 0..1000u32 {
        assert_eq!(store.get(format!("key{:04}", i)).unwrap(), Some(value_b.clone()));
    }
    let copy = reopen(&store);
    for i in (0..1000u32).step_by(97) {
        assert_eq!(copy.get(format!("key{:04}", i)).unwrap(), Some(value_b.clone()));
    }
}

#[test]
fn open_tolerates_truncated_trailing_record() {
    let mut store = open_empty();
    store.set(String::from("a"), String::from("1")).unwrap();
    store.set(String::from("b"), String::from("2")).unwrap();
    let gen = store.active_generation();
    let mut data = store.segment_data(gen).unwrap();
    // chop the last record in half: replay must keep "a" and drop the tail
    let keep = data.len() - 10;
    data.truncate(keep);
    let copy = KvStore::open(vec![SegmentFile { gen, data }]).unwrap();
    assert_eq!(copy.get(String::from("a")).unwrap(), Some(String::from("1")));
    assert_eq!(copy.get(String::from("b")).unwrap(), None);
    assert_eq!(copy.active_generation(), gen + 1);
}

#[test]
fn open_rejects_malformed_segment() {
    // a whole record's worth of bytes with an unknown tag is corruption
    let data = vec![9u8; 64];
    let r = KvStore::open(vec![SegmentFile { gen: 1, data }]);
    assert_eq!(r.err(), Some(KvsError::Serialization));
}

#[test]
fn open_skips_generation_gaps() {
    let mut store = open_empty();
    store.set(String::from("k"), String::from("v")).unwrap();
    let gen = store.active_generation();
    let data = store.segment_data(gen).unwrap();
    // the same contents filed under a much later generation still replay
    let copy = KvStore::open(vec![SegmentFile { gen: 7, data }]).unwrap();
    assert_eq!(copy.get(String::from("k")).unwrap(), Some(String::from("v")));
    assert_eq!(copy.active_generation(), 8);
}

#[test]
fn unicode_keys_and_values_round_trip() {
    let mut store = open_empty();
    store.set(String::from("clé"), String::from("héllo wörld ✓")).unwrap();
    assert_eq!(
        store.get(String::from("clé")).unwrap(),
        Some(String::from("héllo wörld ✓"))
    );
    let copy = reopen(&store);
    assert_eq!(
        copy.get(String::from("clé")).unwrap(),
        Some(String::from("héllo wörld ✓"))
    );
}

#[test]
fn error_messages_name_the_failure() {
    assert_eq!(KvsError::KeyNotFound.message(), "Key not found");
    assert!(KvsError::Serialization.message().contains("decode"));
    assert!(KvsError::CorruptIndex.message().contains("index"));
}
