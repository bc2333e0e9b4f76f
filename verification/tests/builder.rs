use cascade::{
    bounds_key, copy_entries, decode_value, extend_entries, pack_feature_id, BuilderEntry,
    GridEntry, GridKey, GridStoreBuilder, Row, TypeMarker,
};
use std::collections::BTreeMap;

fn entry(relev: u16, score: u8, x: u16, y: u16, id: u32, source_phrase_hash: u8) -> GridEntry {
    GridEntry { relev, score, x, y, id, source_phrase_hash }
}

/// The rows as a database holds them: in the order of their keys, the last one put under a key.
fn database(rows: Vec<Row>) -> BTreeMap<Vec<u8>, Vec<u8>> {
    let mut db = BTreeMap::new();
    for (key, value) in rows {
        db.insert(key, value);
    }
    db
}

fn count_marker(db: &BTreeMap<Vec<u8>, Vec<u8>>, marker: u8) -> usize {
    db.keys().filter(|key| key.len() > 0 && key[0] == marker).count()
}

#[test]
fn insert_single_entry_creates_one_key_in_builder_data() {
    let mut builder = GridStoreBuilder::new().unwrap();

    let key = GridKey { phrase_id: 1, lang_set: 0 };
    builder.insert(&key, vec![entry(800, 255, 100, 200, 1, 0)]).unwrap();

    assert_eq!(builder.data.len(), 1);
    builder.finish().unwrap();
}

#[test]
fn insert_multiple_entries_same_key_groups_by_relevance_score() {
    let mut builder = GridStoreBuilder::new().unwrap();

    let key = GridKey { phrase_id: 1, lang_set: 0 };
    builder
        .insert(
            &key,
            vec![entry(800, 255, 100, 200, 1, 0), entry(1000, 200, 101, 201, 2, 1)],
        )
        .unwrap();

    assert_eq!(builder.data.len(), 1);
    let found = builder.data.iter().find(|d| d.0 == key).unwrap();
    assert!(found.1.inner.len() >= 1);

    builder.finish().unwrap();
}

#[test]
fn append_to_existing_key_merges_entries_without_duplicate_keys() {
    let mut builder = GridStoreBuilder::new().unwrap();

    let key = GridKey { phrase_id: 1, lang_set: 0 };
    builder.insert(&key, vec![entry(800, 255, 100, 200, 1, 0)]).unwrap();
    builder.append(&key, vec![entry(800, 255, 100, 200, 2, 1)]).unwrap();

    assert_eq!(builder.data.len(), 1);
    builder.finish().unwrap();
}

#[test]
fn test_finish_with_no_boundaries_writes_only_individual_entries() {
    let mut builder = GridStoreBuilder::new().unwrap();

    // Add some phrases
    for i in 0..5 {
        let key = GridKey { phrase_id: i, lang_set: 0 };
        builder.insert(&key, vec![entry(1000, 10, i as u16, 1, i, 0)]).unwrap();
    }

    let db = database(builder.finish().unwrap());

    let mut count = 0;
    for key in db.keys() {
        if key[0] == TypeMarker::SinglePhrase.to_byte() {
            count += 1;
        }
    }
    assert_eq!(count, 5);
}

#[test]
fn test_finish_with_boundaries_creates_prefix_bins() {
    let mut builder = GridStoreBuilder::new().unwrap();

    // Add 10 phrases
    for i in 0..10 {
        let key = GridKey { phrase_id: i, lang_set: 0 };
        builder.insert(&key, vec![entry(1000, 10, i as u16, 1, i, 0)]).unwrap();
    }

    // Set boundaries: bin at 5
    builder.load_bin_boundaries(vec![5]).unwrap();
    let db = database(builder.finish().unwrap());

    let mut individual_count = 0;
    let mut bin_count = 0;
    for key in db.keys() {
        if key.len() > 0 {
            match key[0] {
                0 => individual_count += 1, // SinglePhrase
                1 => bin_count += 1,        // PrefixBin
                _ => {}
            }
        }
    }

    assert_eq!(individual_count, 10, "Should have 10 individual entries");
    assert_eq!(bin_count, 1, "Should have 1 bin entry");

    // Verify ~BOUNDS exists
    let bounds = db.get(&bounds_key());
    assert!(bounds.is_some());
}

#[test]
fn test_finish_with_multiple_boundaries() {
    let mut builder = GridStoreBuilder::new().unwrap();

    // Add 15 phrases
    for i in 0..15 {
        let key = GridKey { phrase_id: i, lang_set: 0 };
        builder.insert(&key, vec![entry(1000, 10, i as u16, 1, i, 0)]).unwrap();
    }

    // Set boundaries: bins at 5, 10
    builder.load_bin_boundaries(vec![5, 10]).unwrap();
    let db = database(builder.finish().unwrap());

    let mut bin_count = 0;
    for key in db.keys() {
        if key.len() > 0 && key[0] == 1 {
            bin_count += 1;
        }
    }

    assert_eq!(bin_count, 2, "Should have 2 bin entries");
}

#[test]
fn test_finish_with_multiple_languages() {
    let mut builder = GridStoreBuilder::new().unwrap();

    // Add phrases with different languages
    for i in 0..5 {
        for lang in [0, 1] {
            let key = GridKey { phrase_id: i, lang_set: lang };
            builder.insert(&key, vec![entry(1000, 10, i as u16, 1, i, 0)]).unwrap();
        }
    }

    builder.load_bin_boundaries(vec![3]).unwrap();
    let db = database(builder.finish().unwrap());

    let mut bin_count = 0;
    for key in db.keys() {
        if key.len() > 0 && key[0] == 1 {
            bin_count += 1;
        }
    }

    // Should have 2 bin entries (one per language)
    assert_eq!(bin_count, 2, "Should have 2 bin entries (one per language)");
}

#[test]
fn test_copy_entries_aggregates_data() {
    let mut source = BuilderEntry::new();
    let mut dest = BuilderEntry::new();

    // Add some data to source
    source.add_feature(0xFF, 123, 1);
    source.add_feature(0xFF, 123, 2);
    source.add_feature(0xFF, 123, 3);

    copy_entries(&source, &mut dest);

    assert!(dest.inner.contains_key(&0xFF));
    let expected: Vec<u32> = vec![1, 2, 3];
    assert_eq!(dest.features_at(0xFF, 123), expected);
}

#[test]
fn features_of_a_place_stay_in_order() {
    let mut target = BuilderEntry::new();
    let mut source = BuilderEntry::new();
    for id in 0..6 {
        target.add_feature(1, 9, id);
        source.add_feature(1, 9, 100 + id);
    }
    source.add_feature(1, 8, 7);
    source.add_feature(2, 9, 8);
    copy_entries(&source, &mut target);
    assert_eq!(
        target.features_at(1, 9),
        vec![0, 1, 2, 3, 4, 5, 100, 101, 102, 103, 104, 105]
    );
    assert_eq!(target.features_at(1, 8), vec![7]);
    assert_eq!(target.features_at(2, 9), vec![8]);
    assert_eq!(target.features_at(2, 8), Vec::<u32>::new());
    assert_eq!(target.features_at(3, 9), Vec::<u32>::new());
}

#[test]
fn entries_are_grouped_by_level_and_place() {
    let mut e = BuilderEntry::new();
    extend_entries(
        &mut e,
        vec![entry(1000, 0x17, 1, 0, 5, 6), entry(900, 7, 1, 0, 8, 9), entry(1000, 7, 0, 1, 3, 3)],
    );
    // Both relevances are of the highest level, and both scores have the same low bits; the bits
    // of x take the even places of the code, those of y the odd ones.
    assert_eq!(e.inner.len(), 1);
    assert_eq!(
        e.features_at(0x37, 1),
        vec![pack_feature_id(5, 6), pack_feature_id(8, 9)]
    );
    assert_eq!(e.features_at(0x37, 2), vec![pack_feature_id(3, 3)]);
}

#[test]
fn morton_codes_interleave_bits() {
    let mut e = BuilderEntry::new();
    extend_entries(
        &mut e,
        vec![entry(400, 0, 0xffff, 0, 1, 0), entry(400, 0, 0b1011, 0b0110, 2, 0)],
    );
    assert_eq!(e.features_at(0, 0x5555_5555), vec![pack_feature_id(1, 0)]);
    assert_eq!(e.features_at(0, 0b0110_1101), vec![pack_feature_id(2, 0)]);
}

#[test]
fn insert_replaces_and_append_adds() {
    let key = GridKey { phrase_id: 3, lang_set: 2 };
    let mut builder = GridStoreBuilder::new().unwrap();
    builder.append(&key, vec![entry(1000, 1, 1, 1, 1, 0)]).unwrap();
    builder.append(&key, vec![entry(1000, 1, 1, 1, 2, 0)]).unwrap();
    assert_eq!(builder.data[0].1.features_at(0x31, 3).len(), 2);
    builder.insert(&key, vec![entry(1000, 1, 1, 1, 3, 0)]).unwrap();
    assert_eq!(builder.data.len(), 1);
    assert_eq!(builder.data[0].1.features_at(0x31, 3), vec![pack_feature_id(3, 0)]);
}

#[test]
fn keys_are_kept_in_order() {
    let mut builder = GridStoreBuilder::new().unwrap();
    for (phrase_id, lang_set) in [(5, 0), (1, 9), (5, 1), (1, 2), (3, 3)] {
        let key = GridKey { phrase_id, lang_set };
        builder.append(&key, vec![entry(1000, 1, 1, 1, 1, 0)]).unwrap();
    }
    let keys: Vec<(u32, u128)> =
        builder.data.iter().map(|d| (d.0.phrase_id, d.0.lang_set)).collect();
    assert_eq!(keys, vec![(1, 2), (1, 9), (3, 3), (5, 0), (5, 1)]);
}

#[test]
fn serialized_values_do_not_depend_on_the_order_of_places() {
    let a = entry(1000, 3, 5, 6, 1, 0);
    let b = entry(400, 1, 9, 9, 2, 0);
    let c = entry(1000, 3, 7, 7, 3, 0);
    let mut one = BuilderEntry::new();
    extend_entries(&mut one, vec![a, b, c]);
    let mut other = BuilderEntry::new();
    extend_entries(&mut other, vec![c, b, a]);
    assert_eq!(
        GridStoreBuilder::serialize_value(&one),
        GridStoreBuilder::serialize_value(&other)
    );
}

#[test]
fn serialized_values_have_a_fixed_layout() {
    let mut e = BuilderEntry::new();
    e.add_feature(0x31, 7, 0x0102_0304);
    // One group; its key; one place; its code; one feature.
    let expected: Vec<u8> = vec![
        1, 0, 0, 0, 0, 0, 0, 0, 0x31, 1, 0, 0, 0, 0, 0, 0, 0, 7, 0, 0, 0, 1, 0, 0, 0, 0, 0, 0, 0, 4,
        3, 2, 1,
    ];
    assert_eq!(GridStoreBuilder::serialize_value(&e), Ok(expected));
}

#[test]
fn bins_hold_the_entries_of_their_phrases() {
    let mut builder = GridStoreBuilder::new().unwrap();
    for (phrase_id, lang_set) in [(1, 1), (4, 1), (4, 2), (5, 1), (9, 1), (12, 1)] {
        let key = GridKey { phrase_id, lang_set };
        let id = phrase_id * 10 + lang_set as u32;
        builder.insert(&key, vec![entry(1000, 1, 1, 1, id, 0)]).unwrap();
    }
    builder.load_bin_boundaries(vec![1, 5, 10]).unwrap();
    let db = database(builder.finish().unwrap());
    let ids = |bin: u32, lang_set: u128| {
        let key = GridKey { phrase_id: bin, lang_set }.to_db_key(TypeMarker::PrefixBin);
        db.get(&key).map(|value| {
            let entries = decode_value(value).unwrap();
            entries.iter().map(|e| e.id).collect::<Vec<u32>>()
        })
    };
    assert_eq!(ids(1, 1), Some(vec![11, 41]));
    assert_eq!(ids(1, 2), Some(vec![42]));
    assert_eq!(ids(5, 1), Some(vec![51, 91]));
    assert_eq!(ids(5, 2), None);
    assert_eq!(ids(10, 1), Some(vec![121]));
    assert_eq!(count_marker(&db, 0), 6);
    assert_eq!(count_marker(&db, 1), 4);
}
