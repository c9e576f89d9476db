use gitturtle::page_cache::{Cache, CACHE_BYTES};

fn page() -> u32 {
    7
}

#[test]
fn cache_promotes_revisited_pages_and_evicts_oldest() {
    let mut cache = Cache::new();
    for index in 0..4 {
        cache.insert(index, page(), 1);
    }
    assert!(cache.get(0).is_some());
    cache.insert(4, page(), 1);
    assert!(cache.get(1).is_none());
    assert!(cache.get(0).is_some());
    assert_eq!(cache.pages.len(), 4);
    assert!(cache.bytes <= CACHE_BYTES);
}

#[test]
fn large_pages_share_the_byte_budget() {
    let mut cache = Cache::new();
    for index in 0..4 {
        cache.insert(index, index, 6_000_000);
    }
    assert_eq!(cache.pages.len(), 2);
    assert!(cache.get(0).is_none());
    assert!(cache.get(1).is_none());
    assert_eq!(cache.get(3), Some(3));
    assert!(cache.bytes <= CACHE_BYTES);
    cache.insert(9, 9, CACHE_BYTES + 1);
    assert!(cache.get(9).is_none());
    cache.insert(3, 30, 10);
    assert_eq!(cache.get(3), Some(30));
    assert_eq!(cache.bytes, 6_000_010);
}

#[test]
fn each_page_is_cached_once_and_the_oldest_leave_first() {
    let mut cache = Cache::new();
    for index in [0, 1, 2, 1, 3, 0, 4] {
        cache.insert(index, index, 1);
        let indices: Vec<usize> = cache.pages.iter().map(|p| p.0).collect();
        let mut sorted = indices.clone();
        sorted.sort();
        sorted.dedup();
        assert_eq!(sorted.len(), indices.len());
        assert_eq!(*indices.last().unwrap(), index);
    }
    let indices: Vec<usize> = cache.pages.iter().map(|p| p.0).collect();
    assert_eq!(indices, vec![1, 3, 0, 4]);
}
