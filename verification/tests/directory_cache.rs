use template_engine::cache::DirectoryCache;

#[test]
fn a_value_is_made_once_per_key() {
    let mut cache: DirectoryCache<u32> = DirectoryCache::new("dir".to_string());
    assert_eq!(cache.directory(), "dir");
    let mut made = 0;
    assert_eq!(
        *cache.get_or_insert(1, "a".to_string(), || {
            made += 1;
            10
        }),
        10
    );
    assert_eq!(
        *cache.get_or_insert(1, "a".to_string(), || {
            made += 1;
            11
        }),
        10
    );
    assert_eq!(
        *cache.get_or_insert(1, "b".to_string(), || {
            made += 1;
            20
        }),
        20
    );
    assert_eq!(made, 2);
    assert_eq!(*cache.get_or_insert(1, "a".to_string(), || 12), 10);
    assert_eq!(*cache.get_or_insert(1, "b".to_string(), || 21), 20);
}

#[test]
fn a_new_digest_empties_the_cache() {
    let mut cache: DirectoryCache<String> = DirectoryCache::new("dir".to_string());
    assert_eq!(cache.get_or_insert(1, "a".to_string(), || "one".to_string()), "one");
    assert_eq!(cache.get_or_insert(1, "b".to_string(), || "two".to_string()), "two");
    assert_eq!(cache.get_or_insert(2, "a".to_string(), || "three".to_string()), "three");
    assert_eq!(cache.get_or_insert(2, "b".to_string(), || "four".to_string()), "four");
    assert_eq!(cache.get_or_insert(2, "a".to_string(), || "five".to_string()), "three");
}

#[test]
fn a_new_cache_has_digest_zero() {
    let mut cache: DirectoryCache<u8> = DirectoryCache::new(String::new());
    assert_eq!(*cache.get_or_insert(0, "a".to_string(), || 1), 1);
    assert_eq!(*cache.get_or_insert(0, "a".to_string(), || 2), 1);
    assert_eq!(*cache.get_or_insert(1, "a".to_string(), || 3), 3);
    assert_eq!(*cache.get_or_insert(0, "a".to_string(), || 4), 4);
}
