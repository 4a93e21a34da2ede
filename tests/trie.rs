use redis_starter_rust::trie::{u64_to_chars, Trie};

fn get_sample_trie() -> Trie<String> {
    let mut trie = Trie::new();
    trie.insert(2, "test2".to_string());
    trie.insert(4, "test4".to_string());
    trie.insert(16, "test16".to_string());
    trie
}

#[test]
fn test_trie_getall() {
    let trie = get_sample_trie();
    let expected_values: Vec<(Vec<u8>, String)> = vec![
        (vec![0, 0, 0, 0, 0, 0, 0, 0, 0, 0, 0, 0, 0, 0, 0, 2], "test2".to_string()),
        (vec![0, 0, 0, 0, 0, 0, 0, 0, 0, 0, 0, 0, 0, 0, 0, 4], "test4".to_string()),
        (vec![0, 0, 0, 0, 0, 0, 0, 0, 0, 0, 0, 0, 0, 0, 1, 0], "test16".to_string()),
    ];
    let actual = trie.root.get_all();
    let actual_values = actual
        .into_iter()
        .map(|(chars, val)| (chars, val.clone()))
        .collect::<Vec<(Vec<u8>, String)>>();
    assert_eq!(actual_values, expected_values);
}

#[test]
fn test_trie_getrangeinclusive() {
    let trie = get_sample_trie();
    let (start, end) = (2u64, 5u64);
    let expected_values: Vec<(u64, String)> = vec![(2, "test2".to_string()), (4, "test4".to_string())];
    let actual = trie.get_range_incl(start, end);
    let actual_values =
        actual.into_iter().map(|(chars, val)| (chars, val.clone())).collect::<Vec<(u64, String)>>();
    assert_eq!(actual_values, expected_values);
}

#[test]
fn test_trie_getrangeinclusive_startmin() {
    let trie = get_sample_trie();
    let (start, end) = (0u64, 5u64);
    let expected_values: Vec<(u64, String)> = vec![(2, "test2".to_string()), (4, "test4".to_string())];
    let actual = trie.get_range_incl(start, end);
    let actual_values =
        actual.into_iter().map(|(chars, val)| (chars, val.clone())).collect::<Vec<(u64, String)>>();
    assert_eq!(actual_values, expected_values);
}

#[test]
fn test_trie_getrangeinclusive_endmax() {
    let trie = get_sample_trie();
    let (start, end) = (3, u64::MAX);
    let expected_values: Vec<(u64, String)> = vec![(4, "test4".to_string()), (16, "test16".to_string())];
    let actual = trie.get_range_incl(start, end);
    let actual_values =
        actual.into_iter().map(|(chars, val)| (chars, val.clone())).collect::<Vec<(u64, String)>>();
    assert_eq!(actual_values, expected_values);
}

#[test]
fn range_is_sorted_and_exact_for_scattered_keys() {
    let keys: Vec<u64> = vec![u64::MAX, 0, 1 << 60, 17, 255, 256, 1 << 32, 3, u64::MAX - 1];
    let mut trie = Trie::new();
    for k in &keys {
        trie.insert(*k, *k);
    }
    let got: Vec<u64> = trie.get_range_incl(3, 1 << 60).into_iter().map(|(k, v)| {
        assert_eq!(k, *v);
        k
    }).collect();
    assert_eq!(got, vec![3, 17, 255, 256, 1 << 32, 1 << 60]);
    let all: Vec<u64> = trie.get_range_incl(0, u64::MAX).into_iter().map(|(k, _)| k).collect();
    assert_eq!(all, vec![0, 3, 17, 255, 256, 1 << 32, 1 << 60, u64::MAX - 1, u64::MAX]);
    assert!(trie.get_range_incl(5, 4).is_empty());
    assert!(trie.get_range_incl(18, 254).is_empty());
}

#[test]
fn insert_overwrites_and_take_removes() {
    let mut trie = Trie::new();
    trie.insert(9, "a");
    trie.insert(9, "b");
    assert_eq!(trie.get(9), Some(&"b"));
    assert!(trie.contains_key(9));
    assert!(!trie.contains_key(10));
    assert_eq!(trie.take(9), Some("b"));
    assert_eq!(trie.take(9), None);
    assert!(!trie.contains_key(9));
}

#[test]
fn nibbles_of_key() {
    assert_eq!(u64_to_chars(0x0123_4567_89ab_cdef), vec![0, 1, 2, 3, 4, 5, 6, 7, 8, 9, 10, 11, 12, 13, 14, 15]);
}
