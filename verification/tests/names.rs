use kvs::engine::kv::KvStore;
use kvs::names::{decimal_string, parse_segment_name, segment_file_name};

#[test]
fn segment_names_are_written_in_decimal() {
    assert_eq!(segment_file_name(0), "data_0.txt");
    assert_eq!(segment_file_name(7), "data_7.txt");
    assert_eq!(segment_file_name(1024), "data_1024.txt");
    assert_eq!(
        segment_file_name(u64::MAX),
        "data_18446744073709551615.txt"
    );
    assert_eq!(decimal_string(90210), "90210");
}

#[test]
fn segment_names_are_read_back() {
    assert_eq!(parse_segment_name("data_0.txt"), Some(0));
    assert_eq!(parse_segment_name("data_42.txt"), Some(42));
    assert_eq!(
        parse_segment_name("data_18446744073709551615.txt"),
        Some(u64::MAX)
    );
    for id in [0u64, 1, 9, 10, 99, 100, 12345, u64::MAX - 1] {
        assert_eq!(parse_segment_name(&segment_file_name(id)), Some(id));
    }
}

#[test]
fn other_names_are_no_segment_names() {
    for name in [
        "",
        "data_.txt",
        "data_1",
        "data_1.tx",
        "data_01.txt",
        "data_00.txt",
        "data_-1.txt",
        "data_+1.txt",
        "data_1 .txt",
        "Data_1.txt",
        "data_1.TXT",
        "xdata_1.txt",
        "data_1.txtx",
        "data_1a.txt",
        "data_18446744073709551616.txt",
        "data_99999999999999999999999.txt",
        "data_\u{661}.txt",
    ] {
        assert_eq!(parse_segment_name(name), None, "{}", name);
    }
}

#[test]
fn sorted_file_ids_sorts_the_valid_ids() {
    let names: Vec<String> = ["data_10.txt", "x.txt", "data_2.txt", "data_33.txt", "data_2.txt", "data_0.txt", "data_07.txt"]
        .iter()
        .map(|name| name.to_string())
        .collect();
    assert_eq!(KvStore::sorted_file_ids(&names), vec![0, 2, 2, 10, 33]);
    assert_eq!(KvStore::sorted_file_ids(&Vec::new()), Vec::<u64>::new());
}
