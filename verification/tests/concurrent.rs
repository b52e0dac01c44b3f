use kvs::engine::kv::KvStore;

#[test]
fn readers_see_only_values_that_the_writer_wrote() {
    // Eight readers, each with its own cache of open segments, take turns
    // with one writer.
    let mut store = KvStore::open(Vec::new()).unwrap();
    let mut readers: Vec<_> = (0..8).map(|_| store.new_reader()).collect();
    let mut seen = vec![None::<u64>; 8];
    for (n, reader) in readers.iter_mut().enumerate() {
        assert_eq!(store.get_with(reader, "k".to_string()), Ok(None));
        assert_eq!(seen[n], None);
    }
    let rounds: u64 = 10_000;
    for i in 0..rounds {
        store.set("k".to_string(), i.to_string()).unwrap();
        // Not every reader reads after every write.
        for (n, reader) in readers.iter_mut().enumerate() {
            if (i + n as u64) % (n as u64 + 1) != 0 {
                continue;
            }
            let found = store.get_with(reader, "k".to_string()).unwrap();
            let value: u64 = found.unwrap().parse().unwrap();
            assert_eq!(value, i);
            assert!(seen[n].map_or(true, |before| before <= value));
            seen[n] = Some(value);
            for id in reader.open_segments() {
                assert!(id >= store.compaction_number());
            }
        }
    }
    for reader in readers.iter_mut() {
        let last = store.get_with(reader, "k".to_string()).unwrap();
        assert_eq!(last, Some((rounds - 1).to_string()));
    }
    assert_eq!(store.get("k".to_string()), Ok(Some((rounds - 1).to_string())));
}
