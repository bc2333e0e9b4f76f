use cascade::{
    decode_value, truncate_score, GridEntry, GridKey, GridStore, GridStoreBuilder, MatchEntry,
    MatchKey, MatchOpts, MatchPhrase, Measure, Row, StorageError, TypeMarker,
};
use std::collections::BTreeMap;

fn entry(id: u32, x: u16, y: u16, relev: u16, score: u8, source_phrase_hash: u8) -> GridEntry {
    GridEntry { relev, score, x, y, id, source_phrase_hash }
}

/// The rows as a database holds them: in the order of their keys, the last one put under a key.
fn database(builder: GridStoreBuilder) -> Vec<Row> {
    let mut db = BTreeMap::new();
    for (key, value) in builder.finish().unwrap() {
        db.insert(key, value);
    }
    db.into_iter().collect()
}

fn open(builder: GridStoreBuilder) -> GridStore {
    GridStore::new(database(builder)).unwrap()
}

/// A store at a zoom level with a radius in miles.
fn open_with_options(builder: GridStoreBuilder, zoom: u16, miles: f64) -> GridStore {
    GridStore::new_with_options(
        database(builder),
        zoom,
        0,
        miles.to_bits(),
        cascade::global_bbox_for_zoom(zoom),
        0,
    )
    .unwrap()
}

/// The radius as a number of tiles.
fn tiles(zoom: u16, miles: f64) -> f64 {
    miles * 0.8 * 1.5_f64.powi(zoom as i32 - 14)
}

/// Nearness and score weighed against each other. The bits of a positive number are ordered as the
/// number is.
fn scale(radius: u64, zoom: u16, distance_squared: u64, score: u8) -> Measure {
    let miles = f64::from_bits(radius);
    let distance = (distance_squared as f64).sqrt();
    let in_tiles = tiles(zoom, miles);
    let near = if distance < 1.0 { 0.8 } else { distance };
    let ratio = near / in_tiles;
    let ratio = if ratio > 1.0 { 1.0 } else { ratio };
    let level = if score > 7 { 7.0 } else { score as f64 };
    let rank = (6.0 * (level - 7.0_f64).exp() + 1.0) / ratio;
    Measure { within_radius: distance <= in_tiles, scoredist: rank.to_bits() }
}

fn matching(store: &GridStore, key: &MatchKey, opts: &MatchOpts, max: usize) -> Vec<MatchEntry> {
    store.get_matching(key, opts, max, &scale).unwrap()
}

fn distance(result: &MatchEntry) -> f64 {
    (result.distance as f64).sqrt()
}

fn ids(results: &Vec<MatchEntry>) -> Vec<u32> {
    results.iter().map(|r| r.grid_entry.id).collect()
}

#[test]
fn test_get_returns_none_for_missing_key() {
    let builder = GridStoreBuilder::new().unwrap();
    let store = open(builder);
    let key = GridKey { phrase_id: 999, lang_set: 0 };

    assert_eq!(store.get(&key).unwrap(), None);
}

#[test]
fn test_get_retrieves_inserted_entries() {
    let mut builder = GridStoreBuilder::new().unwrap();

    let key = GridKey { phrase_id: 1, lang_set: 0 };
    let entries = vec![entry(1, 100, 200, 800, 255, 0), entry(2, 101, 201, 1000, 200, 1)];

    builder.insert(&key, entries.clone()).unwrap();
    let store = open(builder);
    let retrieved = store.get(&key).unwrap().unwrap();

    assert_eq!(retrieved.len(), 2);
    assert!(retrieved.iter().any(|e| e.id == 1 && e.x == 100));
    assert!(retrieved.iter().any(|e| e.id == 2 && e.x == 101));
}

#[test]
fn test_proximity_ordering() {
    let mut builder = GridStoreBuilder::new().unwrap();

    let key = GridKey { phrase_id: 1, lang_set: 0 };

    // Four entries at different coordinates, all same relev/score
    let entries = vec![
        entry(1, 2, 2, 1000, 1, 0),
        entry(2, 2, 0, 1000, 1, 0),
        entry(3, 0, 0, 1000, 1, 0),
        entry(4, 0, 2, 1000, 1, 0),
    ];
    builder.insert(&key, entries).unwrap();
    let store = open_with_options(builder, 14, 0.0);

    // Query with proximity point at (2, 2) - should return id=1 first (closest)
    let match_key = MatchKey { match_phrase: MatchPhrase::Exact(1), lang_set: 0 };
    let match_opts = MatchOpts { bbox: None, proximity: Some([2, 2]), zoom: 14 };

    let results = matching(&store, &match_key, &match_opts, 10);

    assert_eq!(results.len(), 4);
    assert_eq!(ids(&results), [1, 2, 4, 3], "Results ordered by distance, then coordinates");

    // Verify distances match expected values
    assert_eq!(distance(&results[0]), 0.0);
    assert_eq!(distance(&results[1]), 2.0);
    assert_eq!(distance(&results[2]), 2.0);
    assert!((distance(&results[3]) - 2.83).abs() < 0.01);
}

#[test]
fn test_bbox_filtering() {
    let mut builder = GridStoreBuilder::new().unwrap();

    let key = GridKey { phrase_id: 1, lang_set: 0 };

    // Entries inside and outside bbox
    let entries = vec![
        entry(1, 5, 5, 1000, 1, 0),   // inside
        entry(2, 15, 15, 1000, 1, 0), // outside
        entry(3, 8, 8, 1000, 1, 0),   // inside
    ];
    builder.insert(&key, entries).unwrap();
    let store = open(builder);

    let match_key = MatchKey { match_phrase: MatchPhrase::Exact(1), lang_set: 0 };
    let match_opts = MatchOpts {
        bbox: Some([0, 0, 10, 10]), // Only includes id=1 and id=3
        proximity: None,
        zoom: 14,
    };

    let results = matching(&store, &match_key, &match_opts, 10);

    assert_eq!(results.len(), 2);
    let result_ids = ids(&results);
    assert!(result_ids.contains(&1));
    assert!(result_ids.contains(&3));
    assert!(!result_ids.contains(&2), "id=2 outside bbox should be filtered");
}

#[test]
fn test_exact_phrase_matching() {
    let mut builder = GridStoreBuilder::new().unwrap();

    // Insert entries for multiple phrases
    let key1 = GridKey { phrase_id: 1, lang_set: 0 };
    let key2 = GridKey { phrase_id: 2, lang_set: 0 };

    builder.insert(&key1, vec![entry(1, 10, 10, 1000, 5, 0)]).unwrap();
    builder.insert(&key2, vec![entry(2, 20, 20, 1000, 5, 0)]).unwrap();

    let store = open(builder);

    // Query for exact phrase_id=1
    let match_key = MatchKey { match_phrase: MatchPhrase::Exact(1), lang_set: 0 };
    let match_opts = MatchOpts { bbox: None, proximity: None, zoom: 14 };

    let results = matching(&store, &match_key, &match_opts, 10);

    assert_eq!(results.len(), 1);
    assert_eq!(results[0].grid_entry.id, 1);
}

#[test]
fn test_range_query_without_prefix_bins() {
    let mut builder = GridStoreBuilder::new().unwrap();

    // Insert entries for phrase_ids 1, 2, 3
    for phrase_id in 1..=3 {
        let key = GridKey { phrase_id, lang_set: 0 };
        builder.insert(&key, vec![entry(phrase_id, 10, 10, 1000, 5, 0)]).unwrap();
    }

    let store = open(builder);

    // Query for range [1, 3) - should return phrase_ids 1 and 2
    let match_key = MatchKey {
        match_phrase: MatchPhrase::Range { start: 1, end: 3 },
        lang_set: 0,
    };
    let match_opts = MatchOpts { bbox: None, proximity: None, zoom: 14 };

    let results = matching(&store, &match_key, &match_opts, 10);

    assert_eq!(results.len(), 2);
    let result_ids = ids(&results);
    assert!(result_ids.contains(&1));
    assert!(result_ids.contains(&2));
    assert!(!result_ids.contains(&3), "phrase_id=3 outside range [1,3)");
}

#[test]
fn test_range_query_with_prefix_bins() {
    let mut builder = GridStoreBuilder::new().unwrap();

    // Set bin boundaries at 100 and 200
    builder.load_bin_boundaries(vec![100, 200]).unwrap();

    // Insert entries for phrase_ids in first bin [0, 100)
    for phrase_id in [10, 20, 30] {
        let key = GridKey { phrase_id, lang_set: 0 };
        builder.insert(&key, vec![entry(phrase_id, 10, 10, 1000, 5, 0)]).unwrap();
    }

    let store = open(builder);

    // Query using prefix bin range [0, 100)
    let match_key = MatchKey {
        match_phrase: MatchPhrase::Range { start: 0, end: 100 },
        lang_set: 0,
    };
    let match_opts = MatchOpts { bbox: None, proximity: None, zoom: 14 };

    let results = matching(&store, &match_key, &match_opts, 10);

    // Should return all 3 entries from the prefix bin
    assert_eq!(results.len(), 3);
    let result_ids = ids(&results);
    assert!(result_ids.contains(&10));
    assert!(result_ids.contains(&20));
    assert!(result_ids.contains(&30));
}

#[test]
fn test_language_filtering() {
    let mut builder = GridStoreBuilder::new().unwrap();

    let key = GridKey {
        phrase_id: 1,
        lang_set: 0b0001, // Language bit 0 set
    };

    builder.insert(&key, vec![entry(1, 10, 10, 1000, 5, 0)]).unwrap();

    let store = open(builder);

    // Query with matching language
    let match_key = MatchKey {
        match_phrase: MatchPhrase::Exact(1),
        lang_set: 0b0001, // Same language
    };
    let match_opts = MatchOpts { bbox: None, proximity: None, zoom: 14 };

    let results = matching(&store, &match_key, &match_opts, 10);

    assert_eq!(results.len(), 1);
    assert!(results[0].matches_language, "Language should match");
}

#[test]
fn test_language_penalty_outside_radius() {
    let mut builder = GridStoreBuilder::new().unwrap();

    let key = GridKey {
        phrase_id: 1,
        lang_set: 0b0001, // Language bit 0
    };

    builder.insert(&key, vec![entry(1, 100, 100, 1000, 5, 0)]).unwrap();

    let store = open_with_options(builder, 14, 1.0); // Small radius

    // Query with different language and proximity far from result
    let match_key = MatchKey {
        match_phrase: MatchPhrase::Exact(1),
        lang_set: 0b0010, // Different language bit
    };
    let match_opts = MatchOpts {
        bbox: None,
        proximity: Some([0, 0]), // Far from (100, 100)
        zoom: 14,
    };

    let results = matching(&store, &match_key, &match_opts, 10);

    assert_eq!(results.len(), 1);
    assert!(!results[0].matches_language, "Language should not match");
    // 4% penalty applied: 1.0 * 0.96 = 0.96
    assert_eq!(results[0].grid_entry.relev, 960, "Should have 4% language penalty");
}

#[test]
fn test_language_no_penalty_within_radius() {
    let mut builder = GridStoreBuilder::new().unwrap();

    let key = GridKey { phrase_id: 1, lang_set: 0b0001 };

    builder.insert(&key, vec![entry(1, 2, 2, 1000, 5, 0)]).unwrap();

    let store = open_with_options(builder, 14, 100.0); // Large radius

    // Query with different language but proximity close to result
    let match_key = MatchKey {
        match_phrase: MatchPhrase::Exact(1),
        lang_set: 0b0010, // Different language
    };
    let match_opts = MatchOpts {
        bbox: None,
        proximity: Some([2, 2]), // Same location
        zoom: 14,
    };

    let results = matching(&store, &match_key, &match_opts, 10);

    assert_eq!(results.len(), 1);
    assert!(!results[0].matches_language, "Language should not match");
    // No penalty because within radius: 1.0 * 1.0 = 1.0
    assert_eq!(results[0].grid_entry.relev, 1000, "No penalty within radius");
}

#[test]
fn test_multiple_features_same_coordinate() {
    let mut builder = GridStoreBuilder::new().unwrap();

    let key = GridKey { phrase_id: 1, lang_set: 0 };

    // Multiple features at exact same coordinate (x=10, y=10)
    let entries = vec![
        entry(1, 10, 10, 1000, 5, 0),
        entry(2, 10, 10, 1000, 5, 0),
        entry(3, 10, 10, 1000, 5, 0),
    ];
    builder.insert(&key, entries).unwrap();

    let store = open(builder);
    let match_key = MatchKey { match_phrase: MatchPhrase::Exact(1), lang_set: 0 };
    let match_opts = MatchOpts { bbox: None, proximity: None, zoom: 14 };

    let results = matching(&store, &match_key, &match_opts, 10);

    // All 3 features should be returned
    assert_eq!(results.len(), 3);
    let result_ids = ids(&results);
    assert!(result_ids.contains(&1));
    assert!(result_ids.contains(&2));
    assert!(result_ids.contains(&3));

    // All should have same coordinates
    for result in &results {
        assert_eq!(result.grid_entry.x, 10);
        assert_eq!(result.grid_entry.y, 10);
    }
}

#[test]
fn test_multiple_features_same_coordinate_different_scores() {
    let mut builder = GridStoreBuilder::new().unwrap();

    let key = GridKey { phrase_id: 1, lang_set: 0 };

    // Multiple features at same coordinate but different scores
    let entries = vec![
        entry(1, 10, 10, 1000, 10, 0),
        entry(2, 10, 10, 1000, 5, 0),
        entry(3, 10, 10, 1000, 15, 0),
    ];
    builder.insert(&key, entries).unwrap();

    let store = open(builder);
    let match_key = MatchKey { match_phrase: MatchPhrase::Exact(1), lang_set: 0 };
    let match_opts = MatchOpts { bbox: None, proximity: None, zoom: 14 };

    let results = matching(&store, &match_key, &match_opts, 10);

    assert_eq!(results.len(), 3);

    // Should be ordered by score descending (15, 10, 5)
    let result_scores: Vec<u8> = results.iter().map(|r| r.grid_entry.score).collect();
    assert_eq!(result_scores[0], 15);
    assert_eq!(result_scores[1], 10);
    assert_eq!(result_scores[2], 5);
}

#[test]
fn test_multiple_features_same_coordinate_with_proximity() {
    let mut builder = GridStoreBuilder::new().unwrap();

    let key = GridKey { phrase_id: 1, lang_set: 0 };

    // Multiple features at same coordinate
    let entries = vec![
        entry(1, 10, 10, 1000, 5, 0),
        entry(2, 10, 10, 1000, 5, 1),
        entry(3, 10, 10, 1000, 5, 2),
    ];
    builder.insert(&key, entries).unwrap();

    let store = open_with_options(builder, 14, 0.0);
    let match_key = MatchKey { match_phrase: MatchPhrase::Exact(1), lang_set: 0 };
    let match_opts = MatchOpts {
        bbox: None,
        proximity: Some([10, 10]), // Same location
        zoom: 14,
    };

    let results = matching(&store, &match_key, &match_opts, 10);

    assert_eq!(results.len(), 3);

    // All should have distance=0 (same location as proximity point)
    for result in &results {
        assert_eq!(distance(result), 0.0);
    }
}

#[test]
fn test_morton_collision_different_phrases() {
    let mut builder = GridStoreBuilder::new().unwrap();

    // Two different phrases, both have features at (10, 10)
    let key1 = GridKey { phrase_id: 1, lang_set: 0 };
    let key2 = GridKey { phrase_id: 2, lang_set: 0 };

    builder
        .insert(&key1, vec![entry(1, 10, 10, 1000, 5, 0), entry(2, 10, 10, 1000, 5, 0)])
        .unwrap();
    builder
        .insert(&key2, vec![entry(3, 10, 10, 1000, 5, 0), entry(4, 10, 10, 1000, 5, 0)])
        .unwrap();

    let store = open(builder);

    // Query phrase 1 - should only get ids 1 and 2
    let match_key1 = MatchKey { match_phrase: MatchPhrase::Exact(1), lang_set: 0 };
    let match_opts = MatchOpts { bbox: None, proximity: None, zoom: 14 };
    let results1 = matching(&store, &match_key1, &match_opts, 10);

    assert_eq!(results1.len(), 2);
    let ids1 = ids(&results1);
    assert!(ids1.contains(&1));
    assert!(ids1.contains(&2));

    // Query phrase 2 - should only get ids 3 and 4
    let match_key2 = MatchKey { match_phrase: MatchPhrase::Exact(2), lang_set: 0 };
    let results2 = matching(&store, &match_key2, &match_opts, 10);

    assert_eq!(results2.len(), 2);
    let ids2 = ids(&results2);
    assert!(ids2.contains(&3));
    assert!(ids2.contains(&4));
}

#[test]
fn test_multiple_coords_per_score() {
    let mut builder = GridStoreBuilder::new().unwrap();

    let key = GridKey { phrase_id: 1, lang_set: 0 };

    // Multiple entries with same score but different coordinates
    let entries = vec![
        entry(1, 100, 100, 800, 7, 0),
        entry(2, 200, 200, 800, 7, 0),
        entry(3, 300, 300, 800, 7, 0),
    ];
    builder.insert(&key, entries).unwrap();

    let store = open(builder);

    let match_key = MatchKey { match_phrase: MatchPhrase::Exact(1), lang_set: 0 };
    let match_opts = MatchOpts { bbox: None, proximity: None, zoom: 14 };

    let results = matching(&store, &match_key, &match_opts, 10);

    // All 3 coords should be returned
    assert_eq!(results.len(), 3);
    let result_ids = ids(&results);
    assert!(result_ids.contains(&1));
    assert!(result_ids.contains(&2));
    assert!(result_ids.contains(&3));
}

#[test]
fn test_roundtrip_preserves_data() {
    let mut builder = GridStoreBuilder::new().unwrap();

    let key = GridKey { phrase_id: 42, lang_set: 0 };
    let entry = GridEntry {
        relev: 600,
        score: 128,
        x: 500,
        y: 600,
        id: 12345,
        source_phrase_hash: 99,
    };

    builder.insert(&key, vec![entry.clone()]).unwrap();

    let store = open(builder);
    let retrieved = store.get(&key).unwrap().unwrap();

    assert_eq!(retrieved.len(), 1);
    let r = &retrieved[0];
    assert_eq!(r.relev, entry.relev);
    assert_eq!(r.score, truncate_score(entry.score));
    assert_eq!(r.x, entry.x);
    assert_eq!(r.y, entry.y);
    assert_eq!(r.id, entry.id);
    assert_eq!(r.source_phrase_hash, entry.source_phrase_hash);
}

#[test]
fn test_gridstore_reads_bin_boundaries() {
    let mut builder = GridStoreBuilder::new().unwrap();

    // Add some phrases
    for i in 0..10 {
        let key = GridKey { phrase_id: i, lang_set: 0 };
        builder.insert(&key, vec![entry(i, i as u16, 1, 1000, 10, 0)]).unwrap();
    }

    // Set boundaries
    builder.load_bin_boundaries(vec![3, 7]).unwrap();

    // Open store and verify boundaries were read
    let store = open(builder);
    assert_eq!(store.bin_boundaries.len(), 2);
    assert!(store.bin_boundaries.contains(&3));
    assert!(store.bin_boundaries.contains(&7));
}

#[test]
fn test_gridstore_empty_boundaries_when_none_set() {
    let mut builder = GridStoreBuilder::new().unwrap();

    let key = GridKey { phrase_id: 1, lang_set: 0 };
    builder.insert(&key, vec![entry(1, 1, 1, 1000, 10, 0)]).unwrap();

    // Open store and verify boundaries are empty
    let store = open(builder);
    assert_eq!(store.bin_boundaries.len(), 0);
}

#[test]
fn test_get_matching_basic_range_query() {
    let mut builder = GridStoreBuilder::new().unwrap();

    // Insert entries for phrase_id 1 with language 1
    let key = GridKey { phrase_id: 1, lang_set: 1 };

    let entries = vec![entry(100, 10, 20, 1000, 7, 0), entry(101, 11, 21, 1000, 5, 0)];

    builder.insert(&key, entries).unwrap();

    let store = open(builder);

    let match_key = MatchKey {
        match_phrase: MatchPhrase::Exact(1), // Query for phrase_id 1
        lang_set: 1,                         // Match language 1
    };

    let match_opts = MatchOpts { bbox: None, proximity: None, zoom: 16 };

    let results = matching(&store, &match_key, &match_opts, 10); // max_values = 10

    assert_eq!(results.len(), 2, "Should return 2 entries");

    // First result should be highest score (7)
    assert_eq!(results[0].grid_entry.id, 100);
    assert_eq!(results[0].grid_entry.score, 7);
    assert_eq!(results[0].matches_language, true);

    // Second result should be lower score (5)
    assert_eq!(results[1].grid_entry.id, 101);
    assert_eq!(results[1].grid_entry.score, 5);
    assert_eq!(results[1].matches_language, true);
}

#[test]
fn aligned_ranges_find_the_same_through_bins() {
    let fill = |bounds: Vec<u32>| {
        let mut builder = GridStoreBuilder::new().unwrap();
        for phrase_id in 10..40u32 {
            for lang_set in [1, 2] {
                let key = GridKey { phrase_id, lang_set };
                let id = phrase_id * 2 + lang_set as u32;
                builder
                    .insert(&key, vec![entry(id, (id % 7) as u16, 3, 1000, 5, 0)])
                    .unwrap();
            }
        }
        builder.load_bin_boundaries(bounds).unwrap();
        open(builder)
    };
    let with_bins = fill(vec![10, 20, 30]);
    let without = fill(vec![]);
    let query = MatchKey {
        match_phrase: MatchPhrase::Range { start: 10, end: 30 },
        lang_set: 2,
    };
    let opts = MatchOpts { bbox: None, proximity: None, zoom: 6 };
    let mut a = ids(&matching(&with_bins, &query, &opts, 1000));
    let mut b = ids(&matching(&without, &query, &opts, 1000));
    a.sort();
    b.sort();
    assert_eq!(a.len(), 40);
    assert_eq!(a, b);
}

#[test]
fn bins_are_what_aligned_ranges_read() {
    let mut builder = GridStoreBuilder::new().unwrap();
    for phrase_id in [1, 2, 3] {
        let key = GridKey { phrase_id, lang_set: 1 };
        builder.insert(&key, vec![entry(phrase_id, 1, 1, 1000, 5, 0)]).unwrap();
    }
    builder.load_bin_boundaries(vec![1, 3]).unwrap();
    let mut rows = database(builder);
    // Without the rows of the phrases the range is still answered, by the row of the bin.
    rows.retain(|row| row.0[0] != TypeMarker::SinglePhrase.to_byte());
    let store = GridStore::new(rows).unwrap();
    let opts = MatchOpts { bbox: None, proximity: None, zoom: 6 };
    let aligned = MatchKey {
        match_phrase: MatchPhrase::Range { start: 1, end: 3 },
        lang_set: 1,
    };
    let mut found = ids(&matching(&store, &aligned, &opts, 10));
    found.sort();
    assert_eq!(found, vec![1, 2]);
    let partial = MatchKey {
        match_phrase: MatchPhrase::Range { start: 1, end: 2 },
        lang_set: 1,
    };
    assert!(matching(&store, &partial, &opts, 10).is_empty());
}

#[test]
fn matches_come_best_first_and_no_more_than_asked_for() {
    let mut builder = GridStoreBuilder::new().unwrap();
    for phrase_id in 1..=5u32 {
        let key = GridKey { phrase_id, lang_set: 1 };
        let entries = vec![
            entry(phrase_id * 10, 1, 1, 400, phrase_id as u8, 0),
            entry(phrase_id * 10 + 1, 2, 2, 1000, phrase_id as u8, 0),
            entry(phrase_id * 10 + 2, 3, 3, 800, phrase_id as u8, 0),
        ];
        builder.insert(&key, entries).unwrap();
    }
    let store = open(builder);
    let query = MatchKey {
        match_phrase: MatchPhrase::Range { start: 1, end: 6 },
        lang_set: 1,
    };
    let opts = MatchOpts { bbox: None, proximity: None, zoom: 6 };
    let results = matching(&store, &query, &opts, 100);
    assert_eq!(
        ids(&results),
        vec![51, 41, 31, 21, 11, 52, 42, 32, 22, 12, 50, 40, 30, 20, 10]
    );
    let few = matching(&store, &query, &opts, 7);
    assert_eq!(ids(&few), vec![51, 41, 31, 21, 11, 52, 42]);
    // A queue of two keeps the two best phrases, and goes on with theirs.
    let two = matching(&store, &query, &opts, 2);
    assert_eq!(ids(&two), vec![51, 41]);
    assert!(matching(&store, &query, &opts, 0).is_empty());
}

#[test]
fn nearer_and_higher_scores_rank_first() {
    let mut builder = GridStoreBuilder::new().unwrap();
    let key = GridKey { phrase_id: 1, lang_set: 1 };
    let entries = vec![
        entry(1, 100, 100, 1000, 1, 0),
        entry(2, 105, 100, 1000, 7, 0),
        entry(3, 101, 100, 1000, 7, 0),
    ];
    builder.insert(&key, entries).unwrap();
    let store = open_with_options(builder, 14, 40.0);
    let query = MatchKey { match_phrase: MatchPhrase::Exact(1), lang_set: 1 };
    let opts = MatchOpts { bbox: None, proximity: Some([100, 100]), zoom: 14 };
    let results = matching(&store, &query, &opts, 10);
    assert_eq!(ids(&results), vec![3, 2, 1]);
    assert_eq!(results[1].distance, 25);
    assert_eq!(results[0].scoredist, scale(40.0_f64.to_bits(), 14, 1, 7).scoredist);
}

#[test]
fn corrupted_values_are_skipped_by_queries() {
    let mut builder = GridStoreBuilder::new().unwrap();
    for phrase_id in [1, 2] {
        let key = GridKey { phrase_id, lang_set: 1 };
        builder.insert(&key, vec![entry(phrase_id, 1, 1, 1000, 5, 0)]).unwrap();
    }
    let mut rows = database(builder);
    rows[0].1 = vec![1, 2, 3];
    let store = GridStore::new(rows).unwrap();
    let query = MatchKey {
        match_phrase: MatchPhrase::Range { start: 1, end: 3 },
        lang_set: 1,
    };
    let opts = MatchOpts { bbox: None, proximity: None, zoom: 6 };
    assert_eq!(ids(&matching(&store, &query, &opts, 10)), vec![2]);
    let key = GridKey { phrase_id: 1, lang_set: 1 };
    assert!(matches!(store.get(&key), Err(StorageError::Serialization(_))));
    assert!(matches!(decode_value(&vec![]), Err(StorageError::Serialization(_))));
}

#[test]
fn rows_out_of_order_are_refused() {
    let rows: Vec<Row> = vec![(vec![2], vec![]), (vec![1], vec![])];
    assert!(matches!(GridStore::new(rows), Err(StorageError::InvalidData(_))));
    let twice: Vec<Row> = vec![(vec![1], vec![]), (vec![1], vec![])];
    assert!(matches!(GridStore::new(twice), Err(StorageError::InvalidData(_))));
    assert!(GridStore::new(vec![]).is_ok());
}

#[test]
fn stores_have_default_options() {
    let store = GridStore::new(vec![]).unwrap();
    assert_eq!((store.zoom, store.type_id, store.coalesce_radius, store.max_score), (6, 0, 0, 0));
    assert_eq!(store.bboxes, vec![[0, 0, 63, 63]]);
    assert!(!store.might_be_slow());
    let high =
        GridStore::new_with_options(vec![], 14, 3, 9, vec![[1, 2, 3, 4]], 5).unwrap();
    assert!(high.might_be_slow());
    assert_eq!(high.bboxes, vec![[1, 2, 3, 4]]);
}

#[test]
fn everything_written_is_read_back() {
    let mut builder = GridStoreBuilder::new().unwrap();
    let key = GridKey { phrase_id: 7, lang_set: 3 };
    let mut written = Vec::new();
    for n in 0..200u32 {
        let e = entry(
            n * 0x2_0001,
            (n * 331) as u16,
            (n * 7919) as u16,
            (n % 12 * 100) as u16,
            (n % 40) as u8,
            (n % 256) as u8,
        );
        written.push(e);
        builder.append(&key, vec![e]).unwrap();
    }
    let store = open(builder);
    let mut expected: Vec<(u16, u8, u16, u16, u32, u8)> = written
        .iter()
        .map(|e| {
            let relev = cascade::relev_int_to_float(cascade::relev_float_to_int(e.relev));
            (relev, e.score % 16, e.x, e.y, e.id % 0x100_0000, e.source_phrase_hash)
        })
        .collect();
    let mut found: Vec<(u16, u8, u16, u16, u32, u8)> = store
        .get(&key)
        .unwrap()
        .unwrap()
        .iter()
        .map(|e| (e.relev, e.score, e.x, e.y, e.id, e.source_phrase_hash))
        .collect();
    expected.sort();
    found.sort();
    assert_eq!(found, expected);

    let query = MatchKey { match_phrase: MatchPhrase::Exact(7), lang_set: 1 };
    let opts = MatchOpts { bbox: None, proximity: None, zoom: 6 };
    let mut matched: Vec<(u16, u8, u16, u16, u32, u8)> = matching(&store, &query, &opts, 1000)
        .iter()
        .map(|m| m.grid_entry)
        .map(|e| (e.relev, e.score, e.x, e.y, e.id, e.source_phrase_hash))
        .collect();
    matched.sort();
    assert_eq!(matched, expected);
}

#[test]
fn bins_hold_no_phrase_below_the_first_boundary() {
    let mut builder = GridStoreBuilder::new().unwrap();
    builder.load_bin_boundaries(vec![5, 10]).unwrap();
    for phrase_id in 0..15 {
        let key = GridKey { phrase_id, lang_set: 0 };
        builder.insert(&key, vec![entry(phrase_id, 10, 10, 1000, 5, 0)]).unwrap();
    }
    let store = open(builder);
    let opts = MatchOpts::default();
    for (start, end, want) in [(5, 10, 5..10), (0, 5, 0..5), (4, 6, 4..6)] {
        let key = MatchKey { match_phrase: MatchPhrase::Range { start, end }, lang_set: 0 };
        let mut found = ids(&matching(&store, &key, &opts, 100));
        found.sort();
        assert_eq!(found, want.collect::<Vec<u32>>());
    }
}

#[test]
fn the_best_matches_are_found() {
    let mut builder = GridStoreBuilder::new().unwrap();
    for phrase_id in 0..6 {
        let key = GridKey { phrase_id, lang_set: 0 };
        let entries = (0..4u32)
            .map(|i| entry(phrase_id * 4 + i, 10, 10, [400, 600, 800, 1000][i as usize], 5, 0))
            .collect();
        builder.insert(&key, entries).unwrap();
    }
    let store = open(builder);
    let key =
        MatchKey { match_phrase: MatchPhrase::Range { start: 0, end: 6 }, lang_set: 0 };
    let opts = MatchOpts::default();
    let relevs = |max: usize| -> Vec<u16> {
        matching(&store, &key, &opts, max).iter().map(|m| m.grid_entry.relev).collect()
    };
    assert_eq!(relevs(4), vec![1000; 4]);
    assert_eq!(relevs(8), vec![1000, 1000, 1000, 1000, 1000, 1000, 800, 800]);
    assert_eq!(relevs(100).len(), 24);
}

#[test]
fn the_best_matches_of_a_language_are_found_near_a_point() {
    let mut builder = GridStoreBuilder::new().unwrap();
    for phrase_id in 0..3 {
        let key = GridKey { phrase_id, lang_set: 1 };
        let entries = (0..4u32)
            .map(|i| {
                let place = if i % 2 == 0 { 10 } else { 60 };
                entry(phrase_id * 4 + i, place, place, [400, 600, 800, 1000][i as usize], 5, 0)
            })
            .collect();
        builder.insert(&key, entries).unwrap();
    }
    let store = open(builder);
    let key =
        MatchKey { match_phrase: MatchPhrase::Range { start: 0, end: 3 }, lang_set: 1 };
    let opts = MatchOpts { proximity: Some([10, 10]), ..MatchOpts::default() };
    let found = matching(&store, &key, &opts, 5);
    let relevs: Vec<u16> = found.iter().map(|m| m.grid_entry.relev).collect();
    assert_eq!(relevs, vec![1000, 1000, 1000, 800, 800]);
    // What is asked again is answered in the same way.
    assert_eq!(found, matching(&store, &key, &opts, 5));
}

#[test]
fn entries_come_back_by_falling_relevance_and_score() {
    let mut builder = GridStoreBuilder::new().unwrap();
    let key = GridKey { phrase_id: 1, lang_set: 0 };
    builder
        .insert(
            &key,
            vec![
                entry(1, 1, 1, 600, 9, 0),
                entry(2, 2, 2, 1000, 3, 0),
                entry(3, 3, 3, 1000, 7, 0),
                entry(4, 4, 4, 600, 12, 0),
            ],
        )
        .unwrap();
    let found = open(builder).get(&key).unwrap().unwrap();
    let got: Vec<(u32, u16, u8)> = found.iter().map(|e| (e.id, e.relev, e.score)).collect();
    assert_eq!(got, vec![(3, 1000, 7), (2, 1000, 3), (4, 600, 12), (1, 600, 9)]);
}
