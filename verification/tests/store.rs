//! Tests of the associative store: independent retrieval, upsert semantics,
//! growth across the resize threshold, and the snapshot methods.
use twitcluster::twithash::TwitHash;

#[test]
fn distinct_keys_independent() {
    let mut t: TwitHash<String, u64> = TwitHash::new();
    t.insert(String::from("alpha"), 1);
    t.insert(String::from("beta"), 2);
    assert_eq!(t.get(&String::from("alpha")), Some(&1));
    assert_eq!(t.get(&String::from("beta")), Some(&2));
    assert_eq!(t.count, 2);
}

#[test]
fn reinsert_overwrites_without_count_change() {
    let mut t: TwitHash<String, u64> = TwitHash::new();
    t.insert(String::from("alpha"), 1);
    t.insert(String::from("beta"), 2);
    assert_eq!(t.count, 2);
    t.insert(String::from("alpha"), 9);
    assert_eq!(t.count, 2);
    assert_eq!(t.get(&String::from("alpha")), Some(&9));
    assert_eq!(t.get(&String::from("beta")), Some(&2));
}

#[test]
fn growth_keeps_every_entry() {
    // 100 entries force several doubling rehashes past the 3/4 load factor
    let mut t: TwitHash<String, u64> = TwitHash::new();
    for i in 0..100u64 {
        t.insert(format!("key{}", i), i * i);
    }
    assert_eq!(t.count, 100);
    for i in 0..100u64 {
        assert_eq!(t.get(&format!("key{}", i)), Some(&(i * i)));
    }
    assert!(!t.contains_key(&String::from("key100")));
}

#[test]
fn get_mut_rewrites_in_place() {
    let mut t: TwitHash<String, u64> = TwitHash::new();
    t.insert(String::from("alpha"), 1);
    if let Some(v) = t.get_mut(&String::from("alpha")) {
        *v = 41;
    }
    assert_eq!(t.get(&String::from("alpha")), Some(&41));
    assert!(t.get_mut(&String::from("missing")).is_none());
}

#[test]
fn is_empty_reflects_count() {
    let mut t: TwitHash<String, u64> = TwitHash::new();
    assert!(t.is_empty());
    t.insert(String::from("alpha"), 1);
    assert!(!t.is_empty());
}

#[test]
fn snapshots_dedup_values_not_keys() {
    let mut t: TwitHash<String, u64> = TwitHash::new();
    t.insert(String::from("a"), 5);
    t.insert(String::from("b"), 5);
    t.insert(String::from("c"), 7);
    let mut keys: Vec<String> = t.keys().into_iter().map(|k| k.clone()).collect();
    keys.sort();
    assert_eq!(keys, vec![String::from("a"), String::from("b"), String::from("c")]);
    let mut values: Vec<u64> = t.values().into_iter().copied().collect();
    values.sort();
    assert_eq!(values, vec![5, 7]);
    let mut pairs: Vec<(String, u64)> = t.pairs().into_iter().map(|(k, v)| (k.clone(), *v)).collect();
    pairs.sort();
    assert_eq!(
        pairs,
        vec![
            (String::from("a"), 5),
            (String::from("b"), 5),
            (String::from("c"), 7)
        ]
    );
}
