use schemajs::index_shard::{get_entry_size, IndexShard};

fn repeat_key(c: &str, n: usize) -> Vec<u8> {
    c.repeat(n).into_bytes()
}

fn pad_key(s: &str) -> Vec<u8> {
    let mut key = s.to_string();
    key.truncate(32);
    while key.len() < 32 {
        key.push(' ');
    }
    key.into_bytes()
}

fn open_index(max_capacity: Option<u64>) -> IndexShard {
    IndexShard::new(vec![], 32, 1024, max_capacity, Some(true)).unwrap()
}

#[test]
fn test_data_positions() {
    let entry_size = get_entry_size(32, 1024);
    assert_eq!(entry_size, 1080);
}

#[test]
fn test_inserts_and_gets() {
    let mut index = open_index(None);
    let key_size = 32;

    index.insert(repeat_key("a", key_size), vec![0u8; 1024]);
    index.insert(repeat_key("b", key_size), vec![0u8; 1024]);
    index.insert(repeat_key("c", key_size), vec![0u8; 1024]);
    index.insert(repeat_key("d", key_size), vec![0u8; 1024]);
    index.insert(repeat_key("e", key_size), vec![1u8; 1024]);
    index.insert(repeat_key("f", key_size), vec![0u8; 1024]);
    index.insert(repeat_key("g", key_size), vec![0u8; 1024]);
    index.insert(repeat_key("h", key_size), vec![0u8; 1024]);

    let entry = index.get_kv(0, true).unwrap();
    assert_eq!(entry.0, repeat_key("a", key_size));
    assert_eq!(entry.1, vec![0u8; 1024]);

    let entry = index.get_kv(4, true).unwrap();
    assert_eq!(entry.0, repeat_key("e", key_size));
    assert_eq!(entry.1, [1u8; 1024]);

    let entry = index.get_kv(7, true).unwrap();
    assert_eq!(entry.0, repeat_key("h", key_size));
    assert_eq!(entry.1, [0u8; 1024]);

    let entry = index.get_kv(8, true);
    assert!(entry.is_none())
}

#[test]
fn test_binary_order() {
    let mut index = open_index(None);
    let key_size = 32;

    index.insert(repeat_key("z", key_size), vec![0u8; 1024]);
    index.insert(repeat_key("h", key_size), vec![0u8; 1024]);
    index.insert(repeat_key("i", key_size), vec![0u8; 1024]);
    index.insert(repeat_key("j", key_size), vec![1u8; 1024]);
    index.insert(repeat_key("b", key_size), vec![0u8; 1024]);
    index.insert(repeat_key("d", key_size), vec![0u8; 1024]);
    index.insert(repeat_key("e", key_size), vec![0u8; 1024]);

    assert_eq!(index.get_kv(0, true).unwrap().0, repeat_key("b", key_size));
    assert_eq!(index.get_kv(1, true).unwrap().0, repeat_key("d", key_size));
    assert_eq!(index.get_kv(2, true).unwrap().0, repeat_key("e", key_size));
    assert_eq!(index.get_kv(3, true).unwrap().0, repeat_key("h", key_size));
    assert_eq!(index.get_kv(4, true).unwrap().0, repeat_key("i", key_size));
    assert_eq!(index.get_kv(5, true).unwrap().0, repeat_key("j", key_size));
    assert_eq!(index.get_kv(6, true).unwrap().0, repeat_key("z", key_size));
}

#[test]
fn test_binary_order_with_fixed_size_keys() {
    let mut index = open_index(None);

    index.insert(pad_key("string(a:2)"), vec![0u8; 1024]);
    index.insert(pad_key("string(a:0)"), vec![1u8; 1024]);
    index.insert(pad_key("string(a:1)"), vec![2u8; 1024]);

    assert_eq!(index.get_kv(0, true).unwrap().0, pad_key("string(a:0)"));
    assert_eq!(index.get_kv(1, true).unwrap().0, pad_key("string(a:1)"));
    assert_eq!(index.get_kv(2, true).unwrap().0, pad_key("string(a:2)"));

    assert_eq!(index.get_kv(0, true).unwrap().1, vec![1u8; 1024]);
    assert_eq!(index.get_kv(1, true).unwrap().1, vec![2u8; 1024]);
    assert_eq!(index.get_kv(2, true).unwrap().1, vec![0u8; 1024]);
}

fn current_keys(index: &IndexShard) -> Vec<Vec<u8>> {
    let n = index.data.current_master_shard.len() as usize;
    (0..n).map(|i| index.get_kv(i, false).unwrap().0).collect()
}

#[test]
fn binary_ordered_index_scenario() {
    let mut index = open_index(None);
    let letters = ["z", "h", "i", "j", "b", "d", "e"];
    for (n, c) in letters.iter().enumerate() {
        index.insert(pad_key(c), vec![n as u8; 1024]);
        let keys = current_keys(&index);
        for w in keys.windows(2) {
            assert!(w[0] <= w[1]);
        }
    }
    let keys = current_keys(&index);
    let expected: Vec<Vec<u8>> = ["b", "d", "e", "h", "i", "j", "z"].iter().map(|c| pad_key(c)).collect();
    assert_eq!(keys, expected);
    let (pos, key, value) = index.binary_search(&pad_key("e")).unwrap();
    assert_eq!(pos, 2);
    assert_eq!(key, pad_key("e"));
    assert_eq!(value, vec![6u8; 1024]);
    assert!(index.binary_search(&pad_key("q")).is_none());
}

#[test]
fn inserted_key_is_found_with_its_value() {
    let mut index = open_index(None);
    index.insert(pad_key("m"), vec![3u8; 1024]);
    index.insert(pad_key("c"), vec![4u8; 1024]);
    let (_, key, value) = index.binary_search(&pad_key("c")).unwrap();
    assert_eq!(key, pad_key("c"));
    assert_eq!(value, vec![4u8; 1024]);
}

#[test]
fn search_finds_key_in_past_shard() {
    let mut index = open_index(Some(2));
    index.insert(pad_key("a"), vec![1u8; 1024]);
    index.insert(pad_key("b"), vec![2u8; 1024]);
    index.insert(pad_key("c"), vec![3u8; 1024]);
    assert_eq!(index.data.past_master_shards.len(), 1);
    let (pos, key, value) = index.binary_search(&pad_key("a")).unwrap();
    assert_eq!(pos, 0);
    assert_eq!(key, pad_key("a"));
    assert_eq!(value, vec![1u8; 1024]);
    let (pos, _, value) = index.binary_search(&pad_key("c")).unwrap();
    assert_eq!(pos, 2);
    assert_eq!(value, vec![3u8; 1024]);
}

#[test]
fn bubble_up_of_single_entry_keeps_it_in_place() {
    let mut index = open_index(None);
    index.insert(pad_key("k"), vec![9u8; 1024]);
    assert_eq!(index.get_kv(0, false).unwrap().0, pad_key("k"));
    assert_eq!(index.data.current_master_shard.len(), 1);
}

#[test]
fn malformed_entry_is_skipped() {
    let mut index = IndexShard::new(vec![], 32, 8, None, Some(true)).unwrap();
    for (n, c) in ["a", "b", "c", "d", "e", "f", "g"].iter().enumerate() {
        index.insert(pad_key(c), vec![n as u8; 8]);
    }
    let mut image = index.data.current_master_shard.file().clone();
    let header = schemajs::header::DataShardHeader::calculate_header_size(100);
    let entry = get_entry_size(32, 8);
    let slot3 = header + 3 * entry;
    image[slot3] = 0xff;
    let reopened = IndexShard::new(vec![image], 32, 8, None, Some(true)).unwrap();
    assert!(reopened.get_kv(3, false).is_none());
    assert!(reopened.get_kv(2, false).is_some());
    let (pos, key, value) = reopened.binary_search(&pad_key("c")).unwrap();
    assert_eq!(pos, 2);
    assert_eq!(key, pad_key("c"));
    assert_eq!(value, vec![2u8; 8]);
    let (pos, _, _) = reopened.binary_search(&pad_key("e")).unwrap();
    assert_eq!(pos, 4);
    assert!(reopened.binary_search(&pad_key("d")).is_none());
}

#[test]
fn unordered_index_keeps_insertion_order() {
    let mut index = IndexShard::new(vec![], 32, 8, None, None).unwrap();
    index.insert(pad_key("b"), vec![1u8; 8]);
    index.insert(pad_key("a"), vec![2u8; 8]);
    assert_eq!(index.get_kv(0, true).unwrap().0, pad_key("b"));
    assert_eq!(index.get_kv(1, true).unwrap().0, pad_key("a"));
}

#[test]
fn raw_insert_adds_every_pair() {
    let mut index = IndexShard::new(vec![], 32, 8, None, Some(true)).unwrap();
    index.raw_insert(vec![(pad_key("y"), vec![1u8; 8]), (pad_key("x"), vec![2u8; 8])]);
    assert_eq!(index.get_kv(0, true).unwrap().0, pad_key("x"));
    assert_eq!(index.get_kv(1, true).unwrap().0, pad_key("y"));
}

#[test]
fn index_with_zero_capacity_is_refused() {
    assert_eq!(
        IndexShard::new(vec![], 32, 8, Some(0), None).err(),
        Some(schemajs::errors::ShardErrors::OutOfPositions)
    );
}

#[test]
fn entry_with_wrong_value_size_is_skipped() {
    let index = IndexShard::new(vec![], 4, 2, None, Some(true)).unwrap();
    let unit = |d: &[u8]| {
        let mut v = (d.len() as u64).to_le_bytes().to_vec();
        v.extend_from_slice(d);
        v
    };
    let mut inner = unit(b"abcd");
    inner.extend(unit(&[1, 2]));
    let good = unit(&inner);
    assert!(index.build_entry_from_vec(good.clone()).is_some());
    let mut inner = unit(b"abcd");
    inner.extend(unit(&[1, 2, 3]));
    let long = unit(&inner);
    assert!(index.build_entry_from_vec(long).is_none());
    assert_eq!(good.len(), get_entry_size(4, 2));
}

#[test]
fn reopened_index_keeps_shards_and_indexing() {
    let mut index = IndexShard::new(vec![], 32, 8, Some(2), Some(true)).unwrap();
    for (n, c) in ["c", "a", "b", "e", "d"].iter().enumerate() {
        index.insert(pad_key(c), vec![n as u8; 8]);
    }
    let mut images: Vec<Vec<u8>> =
        index.data.past_master_shards.iter().map(|s| s.file().clone()).collect();
    images.push(index.data.current_master_shard.file().clone());
    let reopened = IndexShard::new(images, 32, 8, Some(2), Some(true)).unwrap();
    assert_eq!(reopened.data.past_master_shards.len(), index.data.past_master_shards.len());
    for (a, b) in reopened.data.past_master_shards.iter().zip(index.data.past_master_shards.iter()) {
        assert_eq!(a.id(), b.id());
        assert_eq!(a.get_last_index(), b.get_last_index());
    }
    assert_eq!(reopened.data.current_master_shard.id(), index.data.current_master_shard.id());
    for k in 0..6 {
        assert_eq!(reopened.get_kv(k, true), index.get_kv(k, true));
    }
}
