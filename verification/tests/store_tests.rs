use actionkv::codec::StoreError;
use actionkv::store::ActionKV;

fn reopened(store: &ActionKV) -> ActionKV {
    let mut fresh = ActionKV::open(store.log_bytes().clone());
    fresh.load().unwrap();
    fresh
}

#[test]
fn end_to_end_scenario() {
    let mut store = ActionKV::open(Vec::new());
    store.insert(b"a", b"1").unwrap();
    store.insert(b"b", b"2").unwrap();
    store.insert(b"a", b"3").unwrap();

    let mut fresh = reopened(&store);
    assert_eq!(fresh.get(b"a").unwrap(), Some(b"3".to_vec()));
    assert_eq!(fresh.get(b"b").unwrap(), Some(b"2".to_vec()));
    assert_eq!(fresh.get(b"c").unwrap(), None);
}

#[test]
fn last_writer_wins_after_reload() {
    let mut store = ActionKV::open(Vec::new());
    store.insert(b"K", b"A").unwrap();
    store.insert(b"K", b"B").unwrap();

    let mut fresh = reopened(&store);
    assert_eq!(fresh.get(b"K").unwrap(), Some(b"B".to_vec()));

    let (_, found_value) = fresh.find(b"K").unwrap().unwrap();
    assert_eq!(found_value, b"B".to_vec());
}

#[test]
fn find_scans_past_first_occurrence() {
    let mut store = ActionKV::open(Vec::new());
    store.insert(b"K", b"A").unwrap();
    let offset_b = store.seek_to_end().unwrap();
    store.insert(b"K", b"B").unwrap();
    store.insert(b"other", b"x").unwrap();

    let (offset, value) = store.find(b"K").unwrap().unwrap();
    assert_eq!(offset, offset_b);
    assert_eq!(value, b"B".to_vec());
    assert_eq!(store.find(b"missing").unwrap(), None);
}

#[test]
fn tombstone_is_present_but_empty() {
    let mut store = ActionKV::open(Vec::new());
    store.insert(b"K", b"alive").unwrap();
    store.delete(b"K").unwrap();

    let mut fresh = reopened(&store);
    // Deleted: present, with an empty value.
    assert_eq!(fresh.get(b"K").unwrap(), Some(Vec::new()));
    // Never inserted: not found at all.
    assert_eq!(fresh.get(b"never").unwrap(), None);
}

#[test]
fn update_overwrites_like_insert() {
    let mut store = ActionKV::open(Vec::new());
    store.insert(b"K", b"old").unwrap();
    store.update(b"K", b"new").unwrap();
    let mut fresh = reopened(&store);
    assert_eq!(fresh.get(b"K").unwrap(), Some(b"new".to_vec()));
}

#[test]
fn reload_is_idempotent() {
    let mut store = ActionKV::open(Vec::new());
    store.insert(b"a", b"1").unwrap();
    store.insert(b"b", b"2").unwrap();
    store.insert(b"a", b"3").unwrap();
    store.delete(b"b").unwrap();

    let mut fresh = ActionKV::open(store.log_bytes().clone());
    fresh.load().unwrap();
    let first: Vec<Option<u64>> =
        [&b"a"[..], b"b", b"c"].iter().map(|k| fresh.index.get(k)).collect();
    fresh.load().unwrap();
    let second: Vec<Option<u64>> =
        [&b"a"[..], b"b", b"c"].iter().map(|k| fresh.index.get(k)).collect();
    assert_eq!(first, second);
    assert_eq!(fresh.get(b"a").unwrap(), Some(b"3".to_vec()));
}

#[test]
fn unloaded_store_sees_no_prior_records() {
    let mut store = ActionKV::open(Vec::new());
    store.insert(b"K", b"V").unwrap();

    // Open without load: the index is empty, though appends still work.
    let mut unloaded = ActionKV::open(store.log_bytes().clone());
    assert_eq!(unloaded.get(b"K").unwrap(), None);
    unloaded.insert(b"L", b"W").unwrap();
    let mut fresh = reopened(&unloaded);
    assert_eq!(fresh.get(b"K").unwrap(), Some(b"V".to_vec()));
    assert_eq!(fresh.get(b"L").unwrap(), Some(b"W".to_vec()));
}

#[test]
fn load_surfaces_checksum_corruption() {
    let mut store = ActionKV::open(Vec::new());
    store.insert(b"K", b"V").unwrap();
    let mut bytes = store.log_bytes().clone();
    bytes[0] ^= 0x80;
    let mut corrupt = ActionKV::open(bytes);
    assert_eq!(corrupt.load(), Err(StoreError::ChecksumMismatch));
}

#[test]
fn load_surfaces_truncation() {
    let mut store = ActionKV::open(Vec::new());
    store.insert(b"K", b"V").unwrap();
    let mut bytes = store.log_bytes().clone();
    bytes.pop();
    let mut cut = ActionKV::open(bytes);
    assert_eq!(cut.load(), Err(StoreError::Truncated));
}

#[test]
fn get_at_past_end_is_end_of_log() {
    let mut store = ActionKV::open(Vec::new());
    store.insert(b"K", b"V").unwrap();
    assert_eq!(store.get_at(10_000), Err(StoreError::EndOfLog));
}

#[test]
fn get_at_reads_one_record() {
    let mut store = ActionKV::open(Vec::new());
    store.insert(b"a", b"1").unwrap();
    let offset = store.seek_to_end().unwrap();
    store.insert(b"b", b"2").unwrap();
    let kv = store.get_at(offset).unwrap();
    assert_eq!(kv.key, b"b".to_vec());
    assert_eq!(kv.value, b"2".to_vec());
}

#[test]
fn raw_append_leaves_index_alone() {
    let mut store = ActionKV::open(Vec::new());
    let offset = store.insert_but_ignore_index(b"K", b"V").unwrap();
    assert_eq!(offset, 0);
    assert_eq!(store.get(b"K").unwrap(), None);
    let end = store.seek_to_end().unwrap();
    assert_eq!(end as usize, store.log_bytes().len());
}
