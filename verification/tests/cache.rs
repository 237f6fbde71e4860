use duallity::lazy_cache::{CachePolicy, LazyStateCache};

#[test]
fn no_cache_keeps_only_scratch_state() {
    let mut cache = LazyStateCache::new(8);
    cache.set_policy(CachePolicy::NoCache);

    cache.insert(1, "one");
    assert_eq!(cache.len(), 0);
    assert!(!cache.is_expanded(1));
    assert_eq!(cache.get(1), Some(&"one"));

    cache.insert(2, "two");
    assert_eq!(cache.get(1), None);
    assert_eq!(cache.get(2), Some(&"two"));
}

#[test]
fn cache_all_does_not_allocate_lru_metadata() {
    let mut cache = LazyStateCache::new(8);

    cache.insert(1, "one");
    assert!(cache.touch_if_cached(1));

    assert_eq!(cache.get(1), Some(&"one"));
    assert_eq!(cache.clock(), 0);
    assert!(cache.is_expanded(1));
    assert_eq!(cache.policy(), CachePolicy::CacheAll);
}

#[test]
fn lru_policy_evicts_least_recently_touched_state() {
    let mut cache = LazyStateCache::new(8);
    cache.set_policy(CachePolicy::Lru { max_states: 2 });

    cache.insert(1, "one");
    cache.insert(2, "two");
    assert!(cache.touch_if_cached(1));
    cache.insert(3, "three");

    assert_eq!(cache.len(), 2);
    assert_eq!(cache.get(1), Some(&"one"));
    assert_eq!(cache.get(2), None);
    assert_eq!(cache.get(3), Some(&"three"));
}

#[test]
fn lru_zero_policy_uses_configured_bound() {
    let mut cache = LazyStateCache::new(2);
    cache.set_policy(CachePolicy::Lru { max_states: 0 });

    cache.insert(1, "one");
    cache.insert(2, "two");
    cache.insert(3, "three");

    assert_eq!(cache.len(), 2);
    assert_eq!(cache.get(1), None);
    assert_eq!(cache.get(2), Some(&"two"));
    assert_eq!(cache.get(3), Some(&"three"));
}

#[test]
fn lru_policy_treats_large_limits_as_speculative_reservations() {
    let mut explicit = LazyStateCache::<&str>::new(2);
    explicit.set_policy(CachePolicy::Lru {
        max_states: usize::MAX,
    });
    explicit.insert(1, "one");
    assert_eq!(explicit.get(1), Some(&"one"));

    let mut configured = LazyStateCache::<&str>::new(usize::MAX);
    configured.set_policy(CachePolicy::Lru { max_states: 0 });
    configured.insert(1, "one");
    assert_eq!(configured.get(1), Some(&"one"));
}

#[test]
fn lru_zero_policy_shrinks_to_updated_configured_bound() {
    let mut cache = LazyStateCache::new(4);
    cache.set_policy(CachePolicy::Lru { max_states: 0 });

    cache.insert(1, "one");
    cache.insert(2, "two");
    cache.insert(3, "three");
    assert!(cache.touch_if_cached(3));

    cache.set_max_lru_states(1);

    assert_eq!(cache.len(), 1);
    assert_eq!(cache.get(1), None);
    assert_eq!(cache.get(2), None);
    assert_eq!(cache.get(3), Some(&"three"));
}

#[test]
fn lru_reinsert_updates_without_evicting_another_state() {
    let mut cache = LazyStateCache::new(2);
    cache.set_policy(CachePolicy::Lru { max_states: 2 });

    cache.insert(1, "old");
    cache.insert(2, "two");
    cache.insert(1, "new");

    assert_eq!(cache.len(), 2);
    assert_eq!(cache.get(1), Some(&"new"));
    assert_eq!(cache.get(2), Some(&"two"));

    cache.insert(3, "three");

    assert_eq!(cache.get(1), Some(&"new"));
    assert_eq!(cache.get(2), None);
    assert_eq!(cache.get(3), Some(&"three"));
}

#[test]
fn clear_resets_cached_state_and_lru_clock_generation() {
    let mut cache = LazyStateCache::new(2);
    cache.set_policy(CachePolicy::Lru { max_states: 2 });

    cache.insert(1, "one");
    assert!(cache.clock() > 0);

    cache.clear();

    assert_eq!(cache.len(), 0);
    assert_eq!(cache.clock(), 0);
    assert_eq!(cache.get(1), None);
}

#[test]
fn repeated_lru_touches_do_not_grow_heap_without_bound() {
    let mut cache = LazyStateCache::new(2);
    cache.set_policy(CachePolicy::Lru { max_states: 2 });
    cache.insert(1, "one");
    cache.insert(2, "two");

    for _ in 0..200 {
        assert!(cache.touch_if_cached(1));
    }

    assert_eq!(cache.len(), 2);
    cache.insert(3, "three");

    assert_eq!(cache.get(1), Some(&"one"));
    assert_eq!(cache.get(2), None);
    assert_eq!(cache.get(3), Some(&"three"));
}

#[test]
fn set_policy_forgets_cached_states() {
    let mut cache = LazyStateCache::new(2);
    cache.insert(1, "one");
    cache.set_policy(CachePolicy::Lru { max_states: 1 });
    assert_eq!(cache.get(1), None);
    assert!(!cache.touch_if_cached(1));
}

#[test]
fn lru_policy_preallocates_bounded_cache_storage() {
    let mut cache = LazyStateCache::<&str>::new(2);

    cache.set_policy(CachePolicy::Lru { max_states: 3 });

    assert!(cache.entry_capacity() >= 3);
}

#[test]
fn lru_zero_policy_reserves_configured_bound_updates() {
    let mut cache = LazyStateCache::<&str>::new(1);
    cache.set_policy(CachePolicy::Lru { max_states: 0 });

    cache.set_max_lru_states(4);

    assert!(cache.entry_capacity() >= 4);
}
