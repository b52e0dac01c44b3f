use kvs::command::{decode_record, encode_rm, encode_set, Command};
use kvs::engine::kv::{decode_value, KvStore, MAX_COMPACTION_SIZE};
use kvs::error::KVStoreError;
use kvs::names::segment_file_name;

fn empty_store() -> KvStore {
    KvStore::open(Vec::new()).unwrap()
}

fn files_of(store: &KvStore) -> Vec<(String, Vec<u8>)> {
    store.files()
}

fn reopen(store: &KvStore) -> KvStore {
    KvStore::open(files_of(store)).unwrap()
}

fn byte_count(store: &KvStore) -> usize {
    files_of(store).iter().map(|file| file.1.len()).sum()
}

fn s(text: &str) -> String {
    text.to_string()
}

#[test]
fn open_empty_directory_creates_segment_zero() {
    let store = empty_store();
    assert_eq!(store.segment_ids(), vec![0]);
    assert_eq!(store.segment(0).unwrap().len(), 0);
    assert_eq!(store.current_file_id(), 0);
    assert_eq!(store.compaction_number(), 0);
    assert_eq!(store.size_for_compaction(), 0);
    assert_eq!(store.reader_segments(), vec![0]);
}

#[test]
fn set_then_get() {
    let mut store = empty_store();
    assert_eq!(store.set(s("k1"), s("v1")), Ok(()));
    assert_eq!(store.get(s("k1")), Ok(Some(s("v1"))));
}

#[test]
fn set_appends_the_record_and_counts_its_length() {
    let mut store = empty_store();
    store.set(s("k"), s("v")).unwrap();
    assert_eq!(store.segment(0).unwrap().as_slice(), b"{\"SET\":[\"k\",\"v\"]}");
    assert_eq!(store.size_for_compaction(), 17);
    let pos = store.locate(&s("k")).unwrap();
    assert_eq!((pos.file_id, pos.offset, pos.length), (0, 0, 17));
    store.set(s("k2"), s("v2")).unwrap();
    let pos = store.locate(&s("k2")).unwrap();
    assert_eq!((pos.file_id, pos.offset, pos.length), (0, 17, 19));
    assert_eq!(store.size_for_compaction(), 36);
}

#[test]
fn overwrite_then_get() {
    let mut store = empty_store();
    store.set(s("k"), s("v1")).unwrap();
    store.set(s("k"), s("v2")).unwrap();
    assert_eq!(store.get(s("k")), Ok(Some(s("v2"))));
}

#[test]
fn set_remove_get() {
    let mut store = empty_store();
    store.set(s("k"), s("v")).unwrap();
    assert_eq!(store.remove(s("k")), Ok(()));
    assert_eq!(store.get(s("k")), Ok(None));
    store.set(s("k"), s("again")).unwrap();
    assert_eq!(store.get(s("k")), Ok(Some(s("again"))));
}

#[test]
fn remove_counts_both_records() {
    let mut store = empty_store();
    store.set(s("k"), s("v")).unwrap();
    store.remove(s("k")).unwrap();
    // 17 for the SET when it was written, 17 again when it was removed,
    // and 10 for `{"RM":"k"}`.
    assert_eq!(store.size_for_compaction(), 44);
    assert_eq!(
        store.segment(0).unwrap().as_slice(),
        b"{\"SET\":[\"k\",\"v\"]}{\"RM\":\"k\"}"
    );
    assert_eq!(store.locate(&s("k")), None);
}

#[test]
fn remove_absent_key_fails_and_writes_nothing() {
    let mut store = empty_store();
    store.set(s("present"), s("v")).unwrap();
    let before = byte_count(&store);
    assert_eq!(store.get(s("absent")), Ok(None));
    assert_eq!(store.remove(s("absent")), Err(KVStoreError::KeyNotFound));
    assert_eq!(store.get(s("absent")), Ok(None));
    assert_eq!(byte_count(&store), before);
}

#[test]
fn overwrite_survives_reopen() {
    let mut store = empty_store();
    store.set(s("k"), s("a")).unwrap();
    store.set(s("k"), s("b")).unwrap();
    let mut again = reopen(&store);
    assert_eq!(again.get(s("k")), Ok(Some(s("b"))));
}

#[test]
fn removal_survives_reopen() {
    let mut store = empty_store();
    store.set(s("k"), s("v")).unwrap();
    store.remove(s("k")).unwrap();
    assert_eq!(store.get(s("k")), Ok(None));
    let mut again = reopen(&store);
    assert_eq!(again.get(s("k")), Ok(None));
}

#[test]
fn reopen_counts_what_the_first_store_counted() {
    let mut store = empty_store();
    store.set(s("a"), s("1")).unwrap();
    store.set(s("b"), s("2")).unwrap();
    store.remove(s("a")).unwrap();
    let again = reopen(&store);
    assert_eq!(again.size_for_compaction(), store.size_for_compaction());
    assert_eq!(again.locate(&s("b")), store.locate(&s("b")));
    assert_eq!(again.locate(&s("a")), None);
    assert_eq!(again.current_file_id(), store.current_file_id());
}

#[test]
fn two_hundred_keys_overwritten_and_reopened() {
    let mut store = empty_store();
    for i in 0..200 {
        store.set(format!("key{:03}", i), format!("value-a{:03}", i)).unwrap();
    }
    for i in 0..200 {
        store.set(format!("key{:03}", i), format!("value-b{:03}", i)).unwrap();
    }
    let record = encode_set("key000", "value-a000").unwrap().len();
    assert!(byte_count(&store) < 2 * 200 * record);
    let mut again = reopen(&store);
    for i in 0..200 {
        assert_eq!(
            again.get(format!("key{:03}", i)),
            Ok(Some(format!("value-b{:03}", i)))
        );
    }
    assert!(byte_count(&again) < 2 * 200 * record);
}

#[test]
fn open_is_idempotent() {
    let mut store = empty_store();
    for i in 0..60 {
        store.set(format!("k{}", i % 7), format!("v{}", i)).unwrap();
    }
    store.remove(s("k3")).unwrap();
    let mut first = reopen(&store);
    let mut second = reopen(&first);
    for i in 0..8 {
        let key = format!("k{}", i);
        let expected = store.get(key.clone());
        assert_eq!(first.get(key.clone()), expected);
        assert_eq!(second.get(key), expected);
    }
    assert_eq!(files_of(&first), files_of(&second));
}

#[test]
fn empty_key_and_value_are_valid() {
    let mut store = empty_store();
    store.set(s(""), s("")).unwrap();
    assert_eq!(store.get(s("")), Ok(Some(s(""))));
    store.set(s(""), s("x")).unwrap();
    store.set(s("y"), s("")).unwrap();
    let mut again = reopen(&store);
    assert_eq!(again.get(s("")), Ok(Some(s("x"))));
    assert_eq!(again.get(s("y")), Ok(Some(s(""))));
    assert_eq!(again.remove(s("")), Ok(()));
    assert_eq!(again.get(s("")), Ok(None));
}

#[test]
fn large_value_is_found_by_its_exact_length() {
    let mut store = empty_store();
    let big = "x\"y\\z\n".repeat(40_000);
    store.set(s("before"), s("1")).unwrap();
    store.set(s("big"), big.clone()).unwrap();
    store.set(s("after"), s("2")).unwrap();
    assert_eq!(store.get(s("big")), Ok(Some(big.clone())));
    assert_eq!(store.get(s("before")), Ok(Some(s("1"))));
    assert_eq!(store.get(s("after")), Ok(Some(s("2"))));
    let mut again = reopen(&store);
    assert_eq!(again.get(s("big")), Ok(Some(big)));
    assert_eq!(again.get(s("after")), Ok(Some(s("2"))));
}

#[test]
fn every_index_entry_points_at_its_set_record() {
    let mut store = empty_store();
    for i in 0..150 {
        store.set(format!("k{}", i % 40), format!("value {}", i)).unwrap();
        if i % 9 == 0 {
            let _ = store.remove(format!("k{}", (i / 2) % 40));
        }
    }
    for i in 0..40 {
        let key = format!("k{}", i);
        let value = store.get(key.clone()).unwrap();
        match store.locate(&key) {
            Some(pos) => {
                assert!(pos.file_id >= store.compaction_number());
                let data = store.segment(pos.file_id).unwrap();
                let start = pos.offset as usize;
                let end = start + pos.length as usize;
                match decode_record(&data[start..end]) {
                    Some((Command::SET(k, v), n)) => {
                        assert_eq!(k, key);
                        assert_eq!(Some(v), value);
                        assert_eq!(n as u64, pos.length);
                    }
                    _ => panic!("the entry of {} points at no SET record", key),
                }
            }
            None => assert_eq!(value, None),
        }
    }
}

#[test]
fn compaction_keeps_every_key() {
    let mut store = empty_store();
    let mut expected = std::collections::BTreeMap::new();
    for i in 0..500 {
        let key = format!("key{}", i % 23);
        if i % 5 == 4 {
            let outcome = store.remove(key.clone());
            assert_eq!(outcome.is_ok(), expected.remove(&key).is_some());
        } else {
            let value = format!("value{}", i);
            store.set(key.clone(), value.clone()).unwrap();
            expected.insert(key, value);
        }
        for j in 0..23 {
            let key = format!("key{}", j);
            assert_eq!(store.get(key.clone()), Ok(expected.get(&key).cloned()));
        }
    }
    assert!(store.compaction_number() > 0);
}

#[test]
fn compaction_leaves_two_segments_and_counts_nothing() {
    let mut store = empty_store();
    let value = "v".repeat(100);
    let mut sets = 0;
    while store.compaction_number() == 0 {
        store.set(format!("k{}", sets % 3), value.clone()).unwrap();
        sets += 1;
        assert!(sets < 100);
    }
    // Each record takes 117 bytes; the ninth brings the count to 1053.
    assert_eq!(sets, 9);
    assert_eq!(store.size_for_compaction(), 0);
    assert_eq!(store.compaction_number(), 1);
    assert_eq!(store.current_file_id(), 2);
    assert_eq!(store.segment_ids(), vec![1, 2]);
    assert_eq!(store.segment(2).unwrap().len(), 0);
    assert_eq!(store.segment(1).unwrap().len(), 3 * 117);
    for i in 0..3 {
        let key = format!("k{}", i);
        assert_eq!(store.locate(&key).unwrap().file_id, 1);
        assert_eq!(store.get(key), Ok(Some(value.clone())));
    }
}

#[test]
fn compaction_is_due_only_above_the_threshold() {
    let mut store = empty_store();
    // `{"SET":["k","<n times v>"]}` takes 16 + n bytes.
    store.set(s("k"), "v".repeat(1024 - 16)).unwrap();
    assert_eq!(store.size_for_compaction(), MAX_COMPACTION_SIZE);
    assert_eq!(store.compaction_number(), 0);
    store.set(s("k"), s("")).unwrap();
    assert_eq!(store.size_for_compaction(), 0);
    assert_eq!(store.compaction_number(), 1);
}

#[test]
fn reader_closes_retired_segments_on_the_next_read() {
    let mut store = empty_store();
    store.set(s("k"), s("first")).unwrap();
    assert_eq!(store.get(s("k")), Ok(Some(s("first"))));
    assert_eq!(store.reader_segments(), vec![0]);
    let value = "v".repeat(600);
    store.set(s("k"), value.clone()).unwrap();
    store.set(s("k"), value.clone()).unwrap();
    assert_eq!(store.compaction_number(), 1);
    // The reader has not read since: it still holds the retired segment.
    assert_eq!(store.reader_segments(), vec![0]);
    assert_eq!(store.get(s("k")), Ok(Some(value)));
    assert_eq!(store.reader_segments(), vec![1]);
    for id in store.reader_segments() {
        assert!(id >= store.compaction_number());
    }
}

#[test]
fn get_of_an_absent_key_leaves_the_reader_alone() {
    let mut store = empty_store();
    let value = "v".repeat(600);
    store.set(s("k"), value.clone()).unwrap();
    store.set(s("k"), value).unwrap();
    assert_eq!(store.compaction_number(), 1);
    assert_eq!(store.get(s("absent")), Ok(None));
    assert_eq!(store.reader_segments(), vec![0]);
}

#[test]
fn open_ignores_other_files() {
    let record = encode_set("k", "v").unwrap();
    let files = vec![
        (s("data_3.txt"), record.clone()),
        (s("data_03.txt"), b"junk".to_vec()),
        (s("data_.txt"), b"junk".to_vec()),
        (s("data_x.txt"), b"junk".to_vec()),
        (s("data_4.log"), b"junk".to_vec()),
        (s("data_5.txt.bak"), b"junk".to_vec()),
        (s("5.txt"), b"junk".to_vec()),
        (s("data_data_6.txt"), b"junk".to_vec()),
        (s("data_7.txt.txt"), b"junk".to_vec()),
        (s("data_+8.txt"), b"junk".to_vec()),
        (s("data_18446744073709551616.txt"), b"junk".to_vec()),
        (s("notes.md"), b"junk".to_vec()),
        (s("d\u{e4}ta_9.txt"), b"junk".to_vec()),
    ];
    let mut store = KvStore::open(files).unwrap();
    assert_eq!(store.segment_ids(), vec![3]);
    assert_eq!(store.current_file_id(), 3);
    assert_eq!(store.get(s("k")), Ok(Some(s("v"))));
}

#[test]
fn open_replays_segments_in_ascending_order_of_their_ids() {
    let files = vec![
        (s("data_10.txt"), encode_set("k", "ten").unwrap()),
        (s("data_9.txt"), encode_set("k", "nine").unwrap()),
        (s("data_2.txt"), encode_rm("other").unwrap()),
        (s("data_1.txt"), encode_set("other", "one").unwrap()),
    ];
    let mut store = KvStore::open(files).unwrap();
    assert_eq!(store.segment_ids(), vec![1, 2, 9, 10]);
    assert_eq!(store.reader_segments(), vec![1, 2, 9, 10]);
    assert_eq!(store.current_file_id(), 10);
    assert_eq!(store.get(s("k")), Ok(Some(s("ten"))));
    assert_eq!(store.get(s("other")), Ok(None));
    let other = encode_set("other", "one").unwrap().len() as u64;
    let rm = encode_rm("other").unwrap().len() as u64;
    let nine = encode_set("k", "nine").unwrap().len() as u64;
    let ten = encode_set("k", "ten").unwrap().len() as u64;
    assert_eq!(store.size_for_compaction(), other + other + rm + nine + ten);
}

#[test]
fn open_refuses_two_files_for_one_segment() {
    let files = vec![
        (s("data_1.txt"), Vec::new()),
        (s("data_2.txt"), Vec::new()),
        (s("data_1.txt"), Vec::new()),
    ];
    assert!(matches!(KvStore::open(files), Err(KVStoreError::Io)));
}

#[test]
fn open_cuts_a_partial_record_off_the_active_segment() {
    let mut data = encode_set("k", "v").unwrap();
    let whole = data.len();
    data.extend_from_slice(b"{\"SET\":[\"half\",\"wri");
    let mut store = KvStore::open(vec![(s("data_0.txt"), data)]).unwrap();
    assert_eq!(store.segment(0).unwrap().len(), whole);
    assert_eq!(store.get(s("k")), Ok(Some(s("v"))));
    assert_eq!(store.get(s("half")), Ok(None));
    store.set(s("next"), s("n")).unwrap();
    assert_eq!(store.locate(&s("next")).unwrap().offset, whole as u64);
    let mut again = reopen(&store);
    assert_eq!(again.get(s("next")), Ok(Some(s("n"))));
    assert_eq!(again.get(s("k")), Ok(Some(s("v"))));
}

#[test]
fn open_stops_at_a_partial_record_of_a_frozen_segment() {
    let mut frozen = encode_set("a", "1").unwrap();
    frozen.extend_from_slice(b"garbage");
    frozen.extend_from_slice(&encode_set("lost", "x").unwrap());
    let frozen_len = frozen.len();
    let files = vec![
        (s("data_0.txt"), frozen),
        (s("data_1.txt"), encode_set("b", "2").unwrap()),
    ];
    let mut store = KvStore::open(files).unwrap();
    assert_eq!(store.segment(0).unwrap().len(), frozen_len);
    assert_eq!(store.get(s("a")), Ok(Some(s("1"))));
    assert_eq!(store.get(s("b")), Ok(Some(s("2"))));
    assert_eq!(store.get(s("lost")), Ok(None));
}

#[test]
fn decode_value_of_a_set_record() {
    let bytes = encode_set("k", "v").unwrap();
    assert_eq!(decode_value(&bytes), Ok(Some(s("v"))));
}

#[test]
fn decode_value_of_an_rm_record_is_an_unknown_command() {
    let bytes = encode_rm("k").unwrap();
    assert_eq!(decode_value(&bytes), Err(KVStoreError::UnknownCommandType));
}

#[test]
fn decode_value_of_other_bytes_is_an_encoding_error() {
    assert_eq!(decode_value(b""), Err(KVStoreError::Encoding));
    assert_eq!(decode_value(b"{\"SET\":[\"k\""), Err(KVStoreError::Encoding));
    assert_eq!(decode_value(b"{\"PUT\":[\"k\",\"v\"]}"), Err(KVStoreError::Encoding));
    let mut two = encode_set("k", "v").unwrap();
    two.extend_from_slice(&encode_set("k", "w").unwrap());
    assert_eq!(decode_value(&two), Err(KVStoreError::Encoding));
}

#[test]
fn files_are_the_segments_under_their_names() {
    let mut store = empty_store();
    store.set(s("k"), "v".repeat(600)).unwrap();
    store.set(s("k"), "w".repeat(600)).unwrap();
    store.set(s("x"), s("y")).unwrap();
    let files = store.files();
    assert_eq!(files.len(), 2);
    for (n, id) in store.segment_ids().into_iter().enumerate() {
        assert_eq!(files[n].0, segment_file_name(id));
        assert_eq!(&files[n].1, store.segment(id).unwrap());
    }
    assert_eq!(files[0].0, "data_1.txt");
    assert_eq!(files[1].0, "data_2.txt");
}

#[test]
fn reopen_gives_the_same_store() {
    let mut store = empty_store();
    for i in 0..300 {
        store.set(format!("k{}", i % 17), format!("v{}", i)).unwrap();
    }
    store.remove(s("k5")).unwrap();
    let mut again = store.reopen();
    assert_eq!(again.files(), store.files());
    for i in 0..17 {
        let key = format!("k{}", i);
        assert_eq!(again.get(key.clone()), store.get(key));
    }
}

#[test]
fn compact_on_demand() {
    let mut store = empty_store();
    store.set(s("a"), s("1")).unwrap();
    store.set(s("a"), s("2")).unwrap();
    store.set(s("b"), s("3")).unwrap();
    store.remove(s("b")).unwrap();
    assert!(store.size_for_compaction() > 0);
    assert!(store.compact());
    assert_eq!(store.size_for_compaction(), 0);
    assert_eq!(store.compaction_number(), 1);
    assert_eq!(store.segment_ids(), vec![1, 2]);
    assert_eq!(store.segment(1).unwrap().as_slice(), b"{\"SET\":[\"a\",\"2\"]}");
    assert_eq!(store.get(s("a")), Ok(Some(s("2"))));
    assert_eq!(store.get(s("b")), Ok(None));
    assert!(store.compact());
    assert_eq!(store.compaction_number(), 3);
    assert_eq!(store.segment_ids(), vec![3, 4]);
    assert_eq!(store.get(s("a")), Ok(Some(s("2"))));
}

#[test]
fn compaction_waits_where_no_segment_ids_are_left() {
    let name = segment_file_name(u64::MAX - 1);
    let mut store = KvStore::open(vec![(name, Vec::new())]).unwrap();
    let value = "v".repeat(600);
    store.set(s("k"), value.clone()).unwrap();
    store.set(s("k"), value.clone()).unwrap();
    assert!(store.size_for_compaction() > MAX_COMPACTION_SIZE);
    assert_eq!(store.compaction_number(), 0);
    assert_eq!(store.current_file_id(), u64::MAX - 1);
    assert!(!store.compact());
    assert_eq!(store.get(s("k")), Ok(Some(value)));
}
