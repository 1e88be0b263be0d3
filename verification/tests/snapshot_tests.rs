use actionkv::index::Index;
use actionkv::codec::StoreError;
use actionkv::snapshot::{decode_index, encode_index, store_index_on_disk};
use actionkv::store::ActionKV;

const INDEX_KEY: &[u8] = b"+index";

#[test]
fn snapshot_round_trip_through_the_log() {
    let mut store = ActionKV::open(Vec::new());
    store.insert(b"a", b"1").unwrap();
    store.insert(b"b", b"2").unwrap();
    store.insert(b"a", b"3").unwrap();
    let before_a = store.index.get(b"a").unwrap();
    let before_b = store.index.get(b"b").unwrap();

    store_index_on_disk(&mut store, INDEX_KEY).unwrap();

    // Reopen fresh, replay, and pull the snapshot record back out.
    let mut fresh = ActionKV::open(store.log_bytes().clone());
    fresh.load().unwrap();
    let snapshot_bytes = fresh.get(INDEX_KEY).unwrap().unwrap();
    let restored = decode_index(&snapshot_bytes).unwrap();

    assert_eq!(restored.get(b"a"), Some(before_a));
    assert_eq!(restored.get(b"b"), Some(before_b));
    assert_eq!(restored.get(INDEX_KEY), None);

    // The restored offsets really point at the latest records.
    let kv = fresh.get_at(restored.get(b"a").unwrap()).unwrap();
    assert_eq!(kv.key, b"a".to_vec());
    assert_eq!(kv.value, b"3".to_vec());
}

#[test]
fn snapshot_replaces_a_prior_snapshot_entry() {
    let mut store = ActionKV::open(Vec::new());
    store.insert(b"k", b"v").unwrap();
    store_index_on_disk(&mut store, INDEX_KEY).unwrap();
    store.load().unwrap();
    store_index_on_disk(&mut store, INDEX_KEY).unwrap();
    store.load().unwrap();

    let snapshot_bytes = store.get(INDEX_KEY).unwrap().unwrap();
    let restored = decode_index(&snapshot_bytes).unwrap();
    // The sentinel itself was dropped before serializing.
    assert_eq!(restored.get(INDEX_KEY), None);
    assert_eq!(restored.get(b"k"), Some(0));
}

#[test]
fn encode_decode_empty_index() {
    let idx = Index::new();
    let bytes = encode_index(&idx);
    assert_eq!(bytes, Vec::<u8>::new());
    let restored = decode_index(&bytes).unwrap();
    assert_eq!(restored.get(b"anything"), None);
}

#[test]
fn index_entry_offsets_are_full_64_bit() {
    let mut idx = Index::new();
    idx.insert(b"k".to_vec(), 0x0102_0304_0506_0708);
    let bytes = encode_index(&idx);
    // key length, key byte, then the offset little-endian.
    assert_eq!(
        bytes,
        vec![1, 0, 0, 0, b'k', 0x08, 0x07, 0x06, 0x05, 0x04, 0x03, 0x02, 0x01]
    );
    let restored = decode_index(&bytes).unwrap();
    assert_eq!(restored.get(b"k"), Some(0x0102_0304_0506_0708));
}

#[test]
fn decode_index_rejects_malformed_bytes() {
    assert_eq!(decode_index(&[1, 2, 3]).err(), Some(StoreError::Truncated));
    // A key length that promises more bytes than there are.
    assert_eq!(decode_index(&[200, 0, 0, 0, 7, 7]).err(), Some(StoreError::Truncated));
}

#[test]
fn index_insert_get_remove() {
    let mut idx = Index::new();
    assert_eq!(idx.get(b"k"), None);
    idx.insert(b"k".to_vec(), 5);
    idx.insert(b"other".to_vec(), 9);
    assert_eq!(idx.get(b"k"), Some(5));
    idx.insert(b"k".to_vec(), 77);
    assert_eq!(idx.get(b"k"), Some(77));
    idx.remove(b"k");
    assert_eq!(idx.get(b"k"), None);
    assert_eq!(idx.get(b"other"), Some(9));
}
