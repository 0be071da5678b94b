use byte_engine::measure_cache::{MeasureCache, MEASURE_CACHE_BYTES, MEASURE_CACHE_ENTRIES};

#[test]
fn a_kept_measurement_is_found_by_size_and_text() {
    let mut cache: MeasureCache<(u32, u32)> = MeasureCache::new();
    assert_eq!(cache.get(16, "label"), None);
    cache.insert(16, "label", (40, 16));
    assert_eq!(cache.get(16, "label"), Some((40, 16)));
    // The same text at another size is another measurement.
    assert_eq!(cache.get(17, "label"), None);
    assert_eq!(cache.get(16, "other"), None);
}

#[test]
fn a_full_generation_rotates_and_its_measurements_survive_one_rotation() {
    let mut cache: MeasureCache<usize> = MeasureCache::new();
    for index in 0..MEASURE_CACHE_ENTRIES {
        cache.insert(1, &index.to_string(), index);
    }
    assert_eq!(cache.get(1, "0"), Some(0));
    // The next measurement starts a fresh generation; the full one still answers.
    cache.insert(1, "next", 7);
    assert_eq!(cache.get(1, "next"), Some(7));
    assert_eq!(cache.get(1, "0"), Some(0));
    assert_eq!(cache.get(1, "4095"), Some(4095));
    // Once the fresh generation fills and rotates too, the oldest measurements are gone.
    for index in 1..MEASURE_CACHE_ENTRIES {
        cache.insert(2, &index.to_string(), index);
    }
    cache.insert(3, "last", 9);
    assert_eq!(cache.get(1, "0"), None);
    assert_eq!(cache.get(1, "next"), Some(7));
    assert_eq!(cache.get(3, "last"), Some(9));
}

#[test]
fn texts_beyond_the_byte_bound_are_not_kept_and_large_texts_rotate_early() {
    let mut cache: MeasureCache<u8> = MeasureCache::new();
    let huge = "x".repeat(MEASURE_CACHE_BYTES + 1);
    cache.insert(1, &huge, 1);
    assert_eq!(cache.get(1, &huge), None);

    let first = "a".repeat(MEASURE_CACHE_BYTES / 2 + 1);
    let second = "b".repeat(MEASURE_CACHE_BYTES / 2 + 1);
    let third = "c".repeat(MEASURE_CACHE_BYTES / 2 + 1);
    cache.insert(1, &first, 1);
    // The second would pass the byte bound, so it rotates the first out of the current generation.
    cache.insert(1, &second, 2);
    assert_eq!(cache.get(1, &first), Some(1));
    cache.insert(1, &third, 3);
    assert_eq!(cache.get(1, &first), None);
    assert_eq!(cache.get(1, &second), Some(2));
    assert_eq!(cache.get(1, &third), Some(3));
}
