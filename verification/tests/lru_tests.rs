use std::num::NonZeroUsize;

use archive_cache::bytecache::SizedLru;

#[test]
fn test_lru() {
    let mut cache = lru::LruCache::new(NonZeroUsize::new(100).unwrap());

    cache.put("key0", 0);
    cache.put("key1", 100);
    cache.put("key2", 200);
    cache.put("key3", 300);
    cache.put("key4", 400);

    for (i, v) in cache.iter() {
        println!("iter key {}, v {}", i, v);
    }
}

#[test]
fn byte_budget_holds_after_every_insert() {
    let mut c = SizedLru::new(100);
    c.put(&b"key1".to_vec(), vec![1u8; 40]);
    assert!(c.size() <= 100);
    c.put(&b"key2".to_vec(), vec![2u8; 40]);
    assert!(c.size() <= 100);
    c.put(&b"key3".to_vec(), vec![3u8; 40]);
    assert!(c.size() <= 100);

    // the least recently used entry was evicted to make room
    assert!(!c.contains_key(&b"key1".to_vec()));
    assert!(c.contains_key(&b"key2".to_vec()));
    assert!(c.contains_key(&b"key3".to_vec()));
}

#[test]
fn lookups_refresh_recency() {
    let mut c = SizedLru::new(100);
    c.put(&b"key1".to_vec(), vec![1u8; 40]);
    c.put(&b"key2".to_vec(), vec![2u8; 40]);
    // touching key1 makes key2 the eviction candidate
    assert_eq!(c.get(&b"key1".to_vec()), Some(vec![1u8; 40]));
    c.put(&b"key3".to_vec(), vec![3u8; 40]);
    assert!(c.contains_key(&b"key1".to_vec()));
    assert!(!c.contains_key(&b"key2".to_vec()));
    assert!(c.contains_key(&b"key3".to_vec()));
}

#[test]
fn an_oversized_entry_sits_alone() {
    let mut c = SizedLru::new(100);
    c.put(&b"small".to_vec(), vec![0u8; 60]);
    // the one being inserted is preserved even though it alone exceeds the budget
    c.put(&b"huge".to_vec(), vec![9u8; 200]);
    assert!(!c.contains_key(&b"small".to_vec()));
    assert!(c.contains_key(&b"huge".to_vec()));
    assert_eq!(c.size(), 200);
}

#[test]
fn remove_subtracts_and_forgets() {
    let mut c = SizedLru::new(100);
    c.put(&b"k".to_vec(), vec![7u8; 30]);
    assert_eq!(c.size(), 30);
    c.remove(&b"k".to_vec());
    assert_eq!(c.size(), 0);
    assert!(!c.contains_key(&b"k".to_vec()));
    // removing a missing key changes nothing
    c.remove(&b"k".to_vec());
    assert_eq!(c.size(), 0);
}
