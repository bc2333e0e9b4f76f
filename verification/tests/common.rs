use cascade::{
    bounds_key, decode_boundaries, decode_relev_score, encode_boundaries, encode_relev_score,
    pack_feature_id, relev_float_to_int, relev_int_to_float, truncate_score, unpack_feature_id,
    GridKey, MatchKey, MatchOpts, MatchPhrase, StorageError, TypeMarker, ALL_LANGUAGES,
    DEFAULT_ZOOM, MAX_DB_KEY_SIZE, NO_LANGUAGES,
};

#[test]
fn test_relev_float_to_int() {
    assert_eq!(relev_float_to_int(0), 0);
    assert_eq!(relev_float_to_int(400), 0);
    assert_eq!(relev_float_to_int(500), 1);
    assert_eq!(relev_float_to_int(600), 1);
    assert_eq!(relev_float_to_int(700), 2);
    assert_eq!(relev_float_to_int(800), 2);
    assert_eq!(relev_float_to_int(900), 3);
    assert_eq!(relev_float_to_int(1000), 3);
    assert_eq!(relev_float_to_int(4000), 3);
}

#[test]
fn test_encode_relev_score() {
    // Test all relevance levels with max score
    assert_eq!(encode_relev_score(400, 255), 0b0000_1111);
    assert_eq!(encode_relev_score(600, 255), 0b0001_1111);
    assert_eq!(encode_relev_score(800, 255), 0b0010_1111);
    assert_eq!(encode_relev_score(1000, 255), 0b0011_1111);

    // Test score truncation
    assert_eq!(encode_relev_score(1000, 0), 0b0011_0000);
    assert_eq!(encode_relev_score(1000, 15), 0b0011_1111);
    assert_eq!(encode_relev_score(1000, 16), 0b0011_0000);
    assert_eq!(encode_relev_score(1000, 240), 0b0011_0000);

    // Test both together
    assert_eq!(encode_relev_score(600, 2), 0b0001_0010);
}

#[test]
fn test_to_db_key() {
    // Test with all languages
    let key = GridKey {
        phrase_id: 42,
        lang_set: ALL_LANGUAGES,
    };
    let db_key = key.to_db_key(TypeMarker::SinglePhrase);
    assert_eq!(
        db_key,
        vec![
            0b0000_0000, // type marker
            0b0000_0000,
            0b0000_0000,
            0b0000_0000,
            0b0010_1010 // phrase_id = 42
        ]
    );

    // Test with no languages
    let key = GridKey {
        phrase_id: 42,
        lang_set: NO_LANGUAGES,
    };
    let db_key = key.to_db_key(TypeMarker::SinglePhrase);
    assert_eq!(
        db_key,
        vec![
            0b0000_0000, // type marker
            0b0000_0000,
            0b0000_0000,
            0b0000_0000,
            0b0010_1010, // phrase_id = 42
            0b0000_0000  // NO_LANGUAGES marker
        ]
    );

    // Test with specific language (bit 0 set)
    let key = GridKey {
        phrase_id: 42,
        lang_set: 1,
    };
    let db_key = key.to_db_key(TypeMarker::SinglePhrase);
    assert_eq!(
        db_key,
        vec![
            0b0000_0000, // type marker
            0b0000_0000,
            0b0000_0000,
            0b0000_0000,
            0b0010_1010, // phrase_id = 42
            0b0000_0001  // lang_set = 1 (compressed)
        ]
    );

    // Test prefix bin type marker
    let key = GridKey {
        phrase_id: 100,
        lang_set: ALL_LANGUAGES,
    };
    let db_key = key.to_db_key(TypeMarker::PrefixBin);
    assert_eq!(
        db_key,
        vec![
            0b0000_0001, // type marker = 1
            0b0000_0000,
            0b0000_0000,
            0b0000_0000,
            0b0110_0100 // phrase_id = 100
        ]
    );
}

#[test]
fn test_decode_relev_score() {
    // Test all relevance levels
    assert_eq!(decode_relev_score(0b0000_1111), (400, 15));
    assert_eq!(decode_relev_score(0b0001_1111), (600, 15));
    assert_eq!(decode_relev_score(0b0010_1111), (800, 15));
    assert_eq!(decode_relev_score(0b0011_1111), (1000, 15));

    // Test different scores
    assert_eq!(decode_relev_score(0b0011_0000), (1000, 0));
    assert_eq!(decode_relev_score(0b0011_0101), (1000, 5));

    // Test round-trip
    let encoded = encode_relev_score(800, 10);
    let (relev, score) = decode_relev_score(encoded);
    assert_eq!(relev, 800);
    assert_eq!(score, 10);
}

#[test]
fn test_pack_unpack_feature_id() {
    // Test basic packing/unpacking
    let packed = pack_feature_id(12345, 42);
    let (id, hash) = unpack_feature_id(packed);
    assert_eq!(id, 12345);
    assert_eq!(hash, 42);

    // Test edge cases
    let packed = pack_feature_id(0, 0);
    assert_eq!(unpack_feature_id(packed), (0, 0));

    let packed = pack_feature_id(16777215, 255); // Max 24-bit id, max 8-bit hash
    assert_eq!(unpack_feature_id(packed), (16777215, 255));

    // Test round-trip
    let original = (999999, 123);
    let packed = pack_feature_id(original.0, original.1);
    assert_eq!(unpack_feature_id(packed), original);
}

#[test]
fn identifiers_keep_their_low_bits() {
    assert_eq!(unpack_feature_id(pack_feature_id(0x0100_0001, 7)), (1, 7));
    assert_eq!(pack_feature_id(0x00ab_cdef, 0x12), 0xabcd_ef12);
    assert_eq!(pack_feature_id(unpack_feature_id(0xdead_beef).0, 0xef), 0xdead_beef);
}

#[test]
fn relevance_levels_are_kept() {
    for level in 0..4u8 {
        assert_eq!(relev_float_to_int(relev_int_to_float(level)), level);
    }
    assert_eq!(relev_int_to_float(9), 1000);
    assert_eq!(truncate_score(0xab), 0x0b);
    assert!(encode_relev_score(600, 15) < encode_relev_score(800, 0));
}

#[test]
fn keys_have_their_greatest_size() {
    let key = GridKey {
        phrase_id: u32::MAX,
        lang_set: u128::MAX - 1,
    };
    let bytes = key.to_db_key(TypeMarker::SinglePhrase);
    assert_eq!(bytes.len(), MAX_DB_KEY_SIZE);
    assert_eq!(&bytes[..6], &[0, 255, 255, 255, 255, 255]);
    assert_eq!(bytes[20], 254);
}

#[test]
fn language_sets_are_stored_without_leading_zeros() {
    let key = GridKey {
        phrase_id: 0x0102_0304,
        lang_set: 0x0506_07,
    };
    assert_eq!(
        key.to_db_key(TypeMarker::PrefixBin),
        vec![1, 1, 2, 3, 4, 5, 6, 7]
    );
}

#[test]
fn keys_are_ordered_by_phrase() {
    let low = GridKey { phrase_id: 255, lang_set: 1 << 100 };
    let high = GridKey { phrase_id: 256, lang_set: ALL_LANGUAGES };
    assert!(low.to_db_key(TypeMarker::SinglePhrase) < high.to_db_key(TypeMarker::SinglePhrase));
    assert!(high.to_db_key(TypeMarker::SinglePhrase) < low.to_db_key(TypeMarker::PrefixBin));
}

#[test]
fn start_keys_name_the_first_phrase() {
    let range = MatchKey {
        match_phrase: MatchPhrase::Range { start: 258, end: 300 },
        lang_set: 3,
    };
    assert_eq!(range.to_start_key(TypeMarker::PrefixBin), Ok(vec![1, 0, 0, 1, 2]));
    let exact = MatchKey { match_phrase: MatchPhrase::Exact(7), lang_set: 0 };
    assert_eq!(exact.to_start_key(TypeMarker::SinglePhrase), Ok(vec![0, 0, 0, 0, 7]));
}

#[test]
fn queries_match_keys_by_marker_and_phrase() {
    let query = MatchKey {
        match_phrase: MatchPhrase::Range { start: 2, end: 4 },
        lang_set: 0,
    };
    for phrase_id in 0..6u32 {
        let key = GridKey { phrase_id, lang_set: 5 };
        let single = key.to_db_key(TypeMarker::SinglePhrase);
        let expected = phrase_id == 2 || phrase_id == 3;
        assert_eq!(query.matches_key(TypeMarker::SinglePhrase, &single), Ok(expected));
        assert_eq!(query.matches_key(TypeMarker::PrefixBin, &single), Ok(false));
    }
    let short: Vec<u8> = vec![0, 0, 0];
    assert!(matches!(
        query.matches_key(TypeMarker::SinglePhrase, &short),
        Err(StorageError::InvalidData(_))
    ));
}

#[test]
fn queries_match_languages_in_common() {
    let asks = |query_langs: u128, key_langs: u128| {
        let query = MatchKey { match_phrase: MatchPhrase::Exact(1), lang_set: query_langs };
        let key = GridKey { phrase_id: 1, lang_set: key_langs };
        query
            .matches_language(&key.to_db_key(TypeMarker::SinglePhrase))
            .unwrap()
    };
    assert!(asks(0b0110, 0b0010));
    assert!(!asks(0b0110, 0b1001));
    assert!(asks(0b0110, ALL_LANGUAGES));
    assert!(!asks(0b0110, NO_LANGUAGES));
    assert!(asks(NO_LANGUAGES, 0b1000));

    let query = MatchKey { match_phrase: MatchPhrase::Exact(1), lang_set: 1 };
    let short: Vec<u8> = vec![0, 0, 0, 1];
    assert!(matches!(
        query.matches_language(&short),
        Err(StorageError::InvalidData(_))
    ));
}

#[test]
fn boundaries_are_stored_as_little_endian_words() {
    let bytes = encode_boundaries(&vec![1, 0x0203_0405]);
    assert_eq!(bytes, vec![1, 0, 0, 0, 5, 4, 3, 2]);
    assert_eq!(decode_boundaries(&bytes), vec![1, 0x0203_0405]);
    assert_eq!(decode_boundaries(&vec![1, 0, 0, 0, 5]), vec![1]);
    assert_eq!(bounds_key(), b"~BOUNDS".to_vec());
}

#[test]
fn options_have_defaults() {
    assert_eq!(
        MatchOpts::default(),
        MatchOpts { bbox: None, proximity: None, zoom: DEFAULT_ZOOM }
    );
}

#[test]
fn errors_tell_what_went_wrong() {
    assert_eq!(
        StorageError::Backend("x".to_string()).message(),
        "Storage backend error: x"
    );
    assert_eq!(
        StorageError::Serialization("x".to_string()).message(),
        "Serialization error: x"
    );
    assert_eq!(
        StorageError::InvalidData("x".to_string()).message(),
        "Invalid data: x"
    );
    assert_eq!(StorageError::Io("x".to_string()).message(), "I/O error: x");
}
