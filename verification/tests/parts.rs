use kvs::command::{decode_record, encode, encode_rm, encode_set, frame_rm, frame_set, Command};
use kvs::engine::kv::{BufWriterWithPos, KvStore, Reader};
use kvs::error::KVStoreError;
use kvs::index::CommandPos;
use kvs::segment::{Directory, FileOp};
use kvs::thread_pool::{next_job, Message};

fn directory(files: &[(&str, &[u8])]) -> Directory {
    Directory::from_files(
        files.iter().map(|(name, data)| (name.to_string(), data.to_vec())).collect(),
    )
    .unwrap()
}

#[test]
fn encode_follows_the_command() {
    let set = Command::SET("k".to_string(), "v".to_string());
    assert_eq!(encode(&set).unwrap(), encode_set("k", "v").unwrap());
    let rm = Command::RM("k".to_string());
    assert_eq!(encode(&rm).unwrap(), encode_rm("k").unwrap());
}

#[test]
fn strings_are_escaped_as_json() {
    let bytes = encode_set("a\"b", "line\nbreak\\ \u{7} \u{e9}").unwrap();
    assert_eq!(
        String::from_utf8(bytes.clone()).unwrap(),
        "{\"SET\":[\"a\\\"b\",\"line\\nbreak\\\\ \\u0007 \u{e9}\"]}"
    );
    match decode_record(&bytes) {
        Some((Command::SET(k, v), n)) => {
            assert_eq!(k, "a\"b");
            assert_eq!(v, "line\nbreak\\ \u{7} \u{e9}");
            assert_eq!(n, bytes.len());
        }
        _ => panic!("not a SET record"),
    }
}

#[test]
fn frames_around_given_texts() {
    let k = serde_json::to_vec("k");
    let v = serde_json::to_vec("v");
    assert_eq!(frame_set(k, v), Ok(b"{\"SET\":[\"k\",\"v\"]}".to_vec()));
    assert_eq!(frame_rm(serde_json::to_vec("k")), Ok(b"{\"RM\":\"k\"}".to_vec()));
    let bad = || serde_json::from_str::<u8>("x").map(|_| Vec::new());
    assert_eq!(frame_set(bad(), serde_json::to_vec("v")), Err(KVStoreError::Encoding));
    assert_eq!(frame_set(serde_json::to_vec("k"), bad()), Err(KVStoreError::Encoding));
    assert_eq!(frame_rm(bad()), Err(KVStoreError::Encoding));
}

#[test]
fn records_are_read_one_at_a_time() {
    let mut log = encode_set("a", "1").unwrap();
    let first = log.len();
    log.extend_from_slice(&encode_rm("a").unwrap());
    let second = log.len();
    log.extend_from_slice(b"{\"RM\":\"tail");
    match decode_record(&log) {
        Some((Command::SET(k, v), n)) => assert_eq!((k.as_str(), v.as_str(), n), ("a", "1", first)),
        _ => panic!("not a SET record"),
    }
    match decode_record(&log[first..]) {
        Some((Command::RM(k), n)) => assert_eq!((k.as_str(), n), ("a", second - first)),
        _ => panic!("not an RM record"),
    }
    assert!(decode_record(&log[second..]).is_none());
    assert!(decode_record(b"").is_none());
    assert!(decode_record(b"{\"SET\":[\"k\",\"v\"]").is_none());
    assert!(decode_record(b"{\"SET\":[\"k\";\"v\"]}").is_none());
    assert!(decode_record(b"{\"SET\":[\"k\",1]}").is_none());
    assert!(decode_record(b"{\"RM\":\"k\"]").is_none());
    assert!(decode_record(b" {\"RM\":\"k\"}").is_none());
}

#[test]
fn directory_keeps_its_segments_in_order() {
    let mut dir = Directory::new();
    assert_eq!(dir.add("data_5.txt", b"five".to_vec()), Ok(true));
    assert_eq!(dir.add("readme.txt", b"text".to_vec()), Ok(false));
    assert_eq!(dir.add("data_2.txt", b"two".to_vec()), Ok(true));
    assert_eq!(dir.add("data_9.txt", b"nine".to_vec()), Ok(true));
    assert_eq!(dir.add("data_5.txt", b"again".to_vec()), Err(KVStoreError::Io));
    assert_eq!(dir.ids(), vec![2, 5, 9]);
    assert_eq!(dir.len(), 3);
    assert_eq!(dir.position(5), Some(1));
    assert_eq!(dir.position(6), None);
    assert_eq!(dir.id_at(2), 9);
    assert_eq!(dir.data_at(1).as_slice(), b"five");
    dir.create(10);
    dir.append(b"ten");
    dir.append(b"!");
    assert_eq!(dir.data_at(3).as_slice(), b"ten!");
    dir.truncate_last(2);
    assert_eq!(dir.data_at(3).as_slice(), b"te");
    assert_eq!(dir.delete_below(9), 2);
    assert_eq!(dir.ids(), vec![9, 10]);
    assert_eq!(dir.delete_below(0), 0);
    assert_eq!(dir.delete_below(100), 2);
    assert_eq!(dir.len(), 0);
}

#[test]
fn writer_position_follows_the_segment() {
    let mut dir = directory(&[("data_0.txt", b"abc")]);
    let mut writer = BufWriterWithPos::new(3);
    assert_eq!(writer.get_position(), 3);
    assert_eq!(writer.write(&mut dir, b"defg"), 4);
    assert_eq!(writer.get_position(), 7);
    assert_eq!(writer.write(&mut dir, b""), 0);
    assert_eq!(writer.get_position(), 7);
    assert_eq!(dir.data_at(0).as_slice(), b"abcdefg");
}

#[test]
fn reader_reads_ranges_and_keeps_its_cache() {
    let record = encode_set("k", "v").unwrap();
    let len = record.len() as u64;
    let dir = directory(&[("data_1.txt", b"old"), ("data_4.txt", &record), ("data_7.txt", b"xyz")]);
    let mut reader = Reader::new();
    let at = |file_id, offset, length| CommandPos { offset, length, file_id };
    assert_eq!(reader.read_add(&dir, 0, &at(1, 1, 2)), Ok(b"ld".to_vec()));
    assert_eq!(reader.read_add(&dir, 0, &at(7, 0, 3)), Ok(b"xyz".to_vec()));
    assert_eq!(reader.read_add(&dir, 0, &at(1, 0, 1)), Ok(b"o".to_vec()));
    assert_eq!(reader.open_segments(), vec![1, 7]);
    // A range that reaches past the end of the segment is cut there.
    assert_eq!(reader.read_add(&dir, 0, &at(7, 2, 10)), Ok(b"z".to_vec()));
    assert_eq!(reader.read_add(&dir, 0, &at(7, 9, 1)), Ok(Vec::new()));
    assert_eq!(reader.read_add(&dir, 0, &at(7, u64::MAX, u64::MAX)), Ok(Vec::new()));
    // A segment that the directory does not have cannot be opened.
    assert_eq!(reader.read_add(&dir, 0, &at(3, 0, 1)), Err(KVStoreError::Io));
    assert_eq!(reader.open_segments(), vec![1, 7]);
    // Segments below the watermark are closed before the read.
    assert_eq!(reader.read_command(&dir, 4, &at(4, 0, len)), Ok(Some("v".to_string())));
    assert_eq!(reader.open_segments(), vec![7, 4]);
    assert_eq!(reader.read_command(&dir, 4, &at(4, 0, len - 1)), Err(KVStoreError::Encoding));
    assert_eq!(reader.read_command(&dir, 4, &at(9, 0, len)), Err(KVStoreError::Io));
    reader.try_to_remove_stale_readers_in_reader(5);
    assert_eq!(reader.open_segments(), vec![7]);
    let fresh = reader.clone();
    assert_eq!(fresh.open_segments(), Vec::<u64>::new());
    reader.hold(7);
    reader.hold(8);
    assert_eq!(reader.open_segments(), vec![7, 8]);
}

#[test]
fn reader_of_the_writer_deletes_retired_segments() {
    let mut dir = directory(&[("data_1.txt", b"a"), ("data_2.txt", b"b"), ("data_3.txt", b"c")]);
    let mut reader = Reader::new();
    reader.hold(1);
    reader.hold(3);
    assert_eq!(reader.remove_useless_reader_in_writer(&mut dir, 3), Ok(()));
    assert_eq!(reader.open_segments(), vec![3]);
    assert_eq!(dir.ids(), vec![3]);
}

#[test]
fn writer_closes_what_it_retired() {
    let mut store = KvStore::open(vec![
        ("data_0.txt".to_string(), encode_set("a", "1").unwrap()),
        ("data_1.txt".to_string(), encode_set("b", "2").unwrap()),
    ])
    .unwrap();
    assert_eq!(store.writer_reader_segments(), Vec::<u64>::new());
    assert!(store.compact());
    assert_eq!(store.compaction_number(), 2);
    assert_eq!(store.segment_ids(), vec![2, 3]);
    assert_eq!(store.writer_reader_segments(), vec![2, 3]);
    assert_eq!(store.get("a".to_string()), Ok(Some("1".to_string())));
    assert_eq!(store.get("b".to_string()), Ok(Some("2".to_string())));
    assert_eq!(store.reader_segments(), vec![2]);
}

#[test]
fn worker_runs_jobs_until_it_is_told_to_stop() {
    assert_eq!(next_job(Some(Message::NewJob(7))), Some(7));
    assert_eq!(next_job(Some(Message::<u8>::Terminate)), None);
    assert_eq!(next_job(None::<Message<u8>>), None);
}

#[test]
fn files_are_told_what_they_need() {
    let mut store = KvStore::open(vec![("data_3.txt".to_string(), encode_set("a", "1").unwrap())])
        .unwrap();
    let len = store.segment(3).unwrap().len() as u64;
    assert_eq!(len, 17);
    assert_eq!(store.file_op(3, Some(17)), FileOp::Nothing);
    assert_eq!(store.file_op(3, Some(5)), FileOp::Append { from: 5 });
    assert_eq!(store.file_op(3, Some(0)), FileOp::Append { from: 0 });
    assert_eq!(store.file_op(3, Some(40)), FileOp::Truncate { len: 17 });
    assert_eq!(store.file_op(3, None), FileOp::Create);
    assert_eq!(store.file_op(4, Some(9)), FileOp::Delete);
    assert_eq!(store.file_op(4, None), FileOp::Nothing);
    assert!(store.compact());
    assert_eq!(store.file_op(3, Some(17)), FileOp::Delete);
    assert_eq!(store.file_op(4, None), FileOp::Create);
    assert_eq!(store.file_op(5, None), FileOp::Create);
    assert_eq!(store.file_op(4, Some(17)), FileOp::Nothing);
    assert_eq!(store.file_op(5, Some(0)), FileOp::Nothing);
}

#[test]
fn compacted_segment_is_the_live_records_each_once() {
    let mut store = KvStore::open(Vec::new()).unwrap();
    for i in 0..40 {
        store.set(format!("k{}", i % 7), format!("v{}", i)).unwrap();
    }
    store.remove("k3".to_string()).unwrap();
    assert!(store.compact());
    let target = store.compaction_number();
    let data = store.segment(target).unwrap();
    let mut ranges = Vec::new();
    for i in 0..7 {
        if let Some(pos) = store.locate(&format!("k{}", i)) {
            assert_eq!(pos.file_id, target);
            ranges.push((pos.offset, pos.offset + pos.length));
        }
    }
    assert_eq!(ranges.len(), 6);
    ranges.sort();
    let mut end = 0;
    for (from, to) in ranges {
        assert_eq!(from, end);
        assert!(to > from);
        end = to;
    }
    assert_eq!(end, data.len() as u64);
}
