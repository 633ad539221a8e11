use bpa::storage::cached::{
    CachedBundleStorage, DEFAULT_LRU_CAPACITY, DEFAULT_MAX_CACHED_BUNDLE_SIZE,
};
use bpa::storage::Bytes;
use std::collections::HashMap;
use std::sync::Arc;

fn bytes(value: u8, len: usize) -> Bytes {
    Arc::new(vec![value; len])
}

#[test]
fn defaults() {
    assert_eq!(DEFAULT_LRU_CAPACITY, 1024);
    assert_eq!(DEFAULT_MAX_CACHED_BUNDLE_SIZE, 16 * 1024);
}

#[test]
fn bundles_below_the_limit_are_cached() {
    let mut cache = CachedBundleStorage::new(4, 10);
    assert!(cache.is_cacheable(&bytes(1, 9)));
    assert!(!cache.is_cacheable(&bytes(1, 10)));
    assert!(cache.saved("small", bytes(1, 9)));
    assert!(!cache.saved("large", bytes(2, 10)));
    assert_eq!(cache.load("small"), Some(bytes(1, 9)));
    assert_eq!(cache.load("large"), None);
}

#[test]
fn the_latest_used_stay() {
    let mut cache = CachedBundleStorage::new(2, 10);
    cache.saved("a", bytes(1, 1));
    cache.saved("b", bytes(2, 1));
    assert_eq!(cache.load("a"), Some(bytes(1, 1)));
    cache.saved("c", bytes(3, 1));
    assert_eq!(cache.load("a"), Some(bytes(1, 1)));
    assert_eq!(cache.load("b"), None);
    assert_eq!(cache.load("c"), Some(bytes(3, 1)));
}

#[test]
fn an_answer_of_the_store_is_kept() {
    let mut cache = CachedBundleStorage::new(2, 10);
    assert_eq!(cache.load("a"), None);
    assert_eq!(cache.loaded("a", Some(bytes(1, 3))), Some(bytes(1, 3)));
    assert_eq!(cache.load("a"), Some(bytes(1, 3)));
    assert_eq!(cache.loaded("b", Some(bytes(1, 30))), Some(bytes(1, 30)));
    assert_eq!(cache.load("b"), None);
    assert_eq!(cache.loaded("c", None), None);
    assert_eq!(cache.load("c"), None);
}

#[test]
fn replaced_bundles_are_never_stale() {
    let mut cache = CachedBundleStorage::new(2, 10);
    cache.saved("a", bytes(1, 3));
    cache.replaced("a", bytes(2, 4));
    assert_eq!(cache.load("a"), Some(bytes(2, 4)));
    cache.replaced("a", bytes(3, 40));
    assert_eq!(cache.load("a"), None);
    cache.replaced("b", bytes(4, 4));
    assert_eq!(cache.load("b"), Some(bytes(4, 4)));
}

#[test]
fn deleted_bundles_are_gone() {
    let mut cache = CachedBundleStorage::new(2, 10);
    cache.saved("a", bytes(1, 3));
    cache.saved("b", bytes(2, 3));
    cache.deleting("a");
    cache.deleting("nothing");
    assert_eq!(cache.load("a"), None);
    assert_eq!(cache.load("b"), Some(bytes(2, 3)));
}

#[test]
fn the_cache_is_transparent() {
    let mut store: HashMap<String, Bytes> = HashMap::new();
    let mut cache = CachedBundleStorage::new(3, 10);
    for i in 0..40usize {
        let name = format!("n{}", i % 7);
        let data = bytes(i as u8, (i * 5) % 13);
        if i % 3 == 0 {
            store.insert(name.clone(), data.clone());
            cache.replaced(&name, data);
        } else if i % 11 == 0 {
            cache.deleting(&name);
            store.remove(&name);
        }
        for k in 0..7 {
            let other = format!("n{k}");
            let got = match cache.load(&other) {
                Some(data) => Some(data),
                None => cache.loaded(&other, store.get(&other).cloned()),
            };
            assert_eq!(got, store.get(&other).cloned());
        }
    }
}
