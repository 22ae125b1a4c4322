use cable_streaming::sorted_map::SortedMap;
use cable_streaming::text::{str_equal, str_less};

#[test]
fn a_read_after_a_write_gives_what_was_written() {
    let mut m: SortedMap<u32> = SortedMap::new();
    m.insert("b".to_string(), 2);
    m.insert("a".to_string(), 1);
    assert_eq!(m.get("a"), Some(&1));
    assert_eq!(m.get("b"), Some(&2));
    m.insert("a".to_string(), 10);
    assert_eq!(m.get("a"), Some(&10));
    assert_eq!(m.get("b"), Some(&2));
    assert_eq!(m.get("c"), None);
    assert_eq!(m.len(), 2);
}

#[test]
fn keys_stay_in_order_each_once() {
    let mut m: SortedMap<usize> = SortedMap::new();
    for (i, k) in ["pear", "apple", "fig", "apple", "Zebra", "", "fig"].iter().enumerate() {
        m.insert(k.to_string(), i);
    }
    let keys: Vec<&str> = (0..m.len()).map(|i| m.key_at(i)).collect();
    assert_eq!(keys, vec!["", "Zebra", "apple", "fig", "pear"]);
    assert_eq!(m.find("fig"), Some(3));
    assert_eq!(*m.value_at(3), 6);
    assert_eq!(m.find("kiwi"), None);
}

#[test]
fn replacing_a_value_hands_back_the_old_one() {
    let mut m: SortedMap<String> = SortedMap::new();
    m.insert("k".to_string(), "old".to_string());
    let old = m.replace_value_at(0, "new".to_string());
    assert_eq!(old, "old");
    assert_eq!(m.get("k").map(|s| s.as_str()), Some("new"));
}

#[test]
fn strings_compare_by_their_bytes() {
    assert!(str_less("B", "a"));
    assert!(str_less("ab", "abc"));
    assert!(!str_less("abc", "ab"));
    assert!(!str_less("same", "same"));
    assert!(str_less("z", "é"));
    assert!(str_equal("é", "é"));
    assert!(!str_equal("e", "é"));
    assert!(str_less("", "a"));
}
