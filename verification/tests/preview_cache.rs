use omapic::preview_cache::{PreviewCache, CACHED};

#[test]
fn keeps_the_last_eight_and_drops_the_oldest() {
    let mut cache = PreviewCache::new();
    for id in 0..CACHED {
        assert!(cache.start(id));
        cache.finish(id);
        assert!(cache.keep(id).is_empty());
    }
    assert_eq!(cache.keep(100), vec![0]);
    assert!(!cache.holds(0) && cache.holds(1) && cache.holds(100));
    // Using one makes it the most recent: the next to go is 2.
    assert!(cache.use_kept(1));
    assert_eq!(cache.keep(101), vec![2]);
    assert_eq!(cache.keep(102), vec![3]);
    assert!(!cache.use_kept(3));
}

#[test]
fn keeping_again_moves_rather_than_duplicates() {
    let mut cache = PreviewCache::new();
    cache.keep(5);
    cache.keep(6);
    assert!(cache.keep(5).is_empty());
    for id in 10..16 {
        assert!(cache.keep(id).is_empty());
    }
    // 6 is now the oldest of the eight.
    assert_eq!(cache.keep(99), vec![6]);
}

#[test]
fn decoding_starts_once() {
    let mut cache = PreviewCache::new();
    assert!(cache.start(3));
    assert!(!cache.start(3));
    cache.finish(3);
    assert!(cache.start(3));
    cache.finish(3);
    cache.keep(3);
    assert!(!cache.start(3));
    cache.forget(3);
    assert!(!cache.holds(3));
    assert!(cache.start(3));
}
