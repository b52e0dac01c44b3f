use kvs::command::{decode_record, encode_rm, encode_set, Command};

#[test]
fn set_record_has_the_expected_bytes() {
    let bytes = encode_set("k1", "v1").unwrap();
    assert_eq!(bytes, b"{\"SET\":[\"k1\",\"v1\"]}".to_vec());
}

#[test]
fn rm_record_has_the_expected_bytes() {
    let bytes = encode_rm("k1").unwrap();
    assert_eq!(bytes, b"{\"RM\":\"k1\"}".to_vec());
}

#[test]
fn set_record_reads_back() {
    let mut bytes = encode_set("a\"b\\c\n", "\u{1F600} v").unwrap();
    let len = bytes.len();
    bytes.extend_from_slice(b"{\"RM\":\"x\"}");
    match decode_record(&bytes) {
        Some((Command::SET(k, v), n)) => {
            assert_eq!(k, "a\"b\\c\n");
            assert_eq!(v, "\u{1F600} v");
            assert_eq!(n, len);
        }
        _ => panic!("not a SET record"),
    }
}
