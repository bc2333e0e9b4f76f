use cascade::{
    bfs, coalesce, coalesce_multi, coalesce_single, global_bbox_for_zoom, grid_to_coalesce_entry,
    stackable, tree_coalesce, tree_coalesce_single, ArenaManager, CoalesceContext,
    ConstrainedPriorityQueue, GridEntry, GridKey, GridStore, GridStoreBuilder, MatchEntry, MatchKey,
    MatchKeyWithId, MatchOpts, MatchPhrase, Measure, PhrasematchSubquery, StackableNode,
    StackableTree, LEAF_SOFT_MAX, MAX_CONTEXTS, MAX_INDEXES,
};
use fixedbitset::FixedBitSet;
use std::collections::BTreeMap;

/// One, in the unit in which the relevances of contexts are given.
const ONE: i128 = 1_000_000_000_000;

const HALF_WEIGHT: u32 = 500_000_000;

const FULL_WEIGHT: u32 = 1_000_000_000;

fn entry(id: u32, x: u16, y: u16, relev: u16, score: u8) -> GridEntry {
    GridEntry { id, x, y, relev, score, source_phrase_hash: 0 }
}

fn create_test_store(
    entries: Vec<(GridKey, Vec<GridEntry>)>,
    zoom: u16,
    type_id: u16,
) -> GridStore {
    let mut builder = GridStoreBuilder::new().unwrap();

    for (key, grid_entries) in entries {
        builder.insert(&key, grid_entries).unwrap();
    }
    let mut db = BTreeMap::new();
    for (key, value) in builder.finish().unwrap() {
        db.insert(key, value);
    }

    GridStore::new_with_options(
        db.into_iter().collect(),
        zoom,
        type_id,
        40.0_f64.to_bits(),
        global_bbox_for_zoom(zoom),
        1.0_f64.to_bits(),
    )
    .unwrap()
}

/// Nearness and score weighed against each other. The bits of a positive number are ordered as the
/// number is.
fn scale(radius: u64, zoom: u16, distance_squared: u64, score: u8) -> Measure {
    let in_tiles = f64::from_bits(radius) * 0.8 * 1.5_f64.powi(zoom as i32 - 14);
    let distance = (distance_squared as f64).sqrt();
    let near = if distance < 1.0 { 0.8 } else { distance };
    let ratio = near / in_tiles;
    let ratio = if ratio > 1.0 { 1.0 } else { ratio };
    let level = if score > 7 { 7.0 } else { score as f64 };
    let rank = (6.0 * (level - 7.0_f64).exp() + 1.0) / ratio;
    Measure { within_radius: distance <= in_tiles, scoredist: rank.to_bits() }
}

/// Ranks everything alike.
fn no_scale(radius: u64, zoom: u16, distance_squared: u64, score: u8) -> Measure {
    Measure { scoredist: 0, ..scale(radius, zoom, distance_squared, score) }
}

fn part<'a>(
    store: &'a GridStore,
    idx: u16,
    weight: u32,
    id: u32,
    phrase: u32,
    mask: u32,
) -> PhrasematchSubquery<'a> {
    PhrasematchSubquery {
        store,
        idx,
        non_overlapping_indexes: FixedBitSet::with_capacity(MAX_INDEXES),
        weight,
        match_keys: vec![MatchKeyWithId {
            id,
            key: MatchKey { match_phrase: MatchPhrase::Exact(phrase), lang_set: 1 },
            ..MatchKeyWithId::default()
        }],
        mask,
    }
}

fn key(phrase_id: u32) -> GridKey {
    GridKey { phrase_id, lang_set: 1 }
}

fn feature_ids(contexts: &Vec<CoalesceContext>) -> Vec<Vec<u32>> {
    contexts
        .iter()
        .map(|c| c.entries.iter().map(|e| e.grid_entry.id).collect())
        .collect()
}

#[test]
fn test_coalesce_multi_basic() {
    // Create two stores with overlapping entries
    let store1 = create_test_store(
        vec![(
            GridKey { phrase_id: 1, lang_set: 1 },
            vec![entry(1, 1, 1, 1000, 1), entry(2, 2, 2, 1000, 1)],
        )],
        6,
        1,
    );

    let store2 = create_test_store(
        vec![(
            GridKey { phrase_id: 2, lang_set: 1 },
            vec![entry(1, 1, 1, 1000, 3), entry(2, 2, 2, 1000, 3), entry(3, 3, 3, 1000, 1)],
        )],
        6,
        2,
    );

    let stack = vec![
        PhrasematchSubquery {
            store: &store1,
            idx: 1,
            non_overlapping_indexes: FixedBitSet::with_capacity(MAX_INDEXES),
            weight: HALF_WEIGHT,
            match_keys: vec![MatchKeyWithId {
                id: 0,
                key: MatchKey {
                    match_phrase: MatchPhrase::Range { start: 1, end: 3 },
                    lang_set: 1,
                },
                ..MatchKeyWithId::default()
            }],
            mask: 1 << 1,
        },
        PhrasematchSubquery {
            store: &store2,
            idx: 2,
            non_overlapping_indexes: FixedBitSet::with_capacity(MAX_INDEXES),
            weight: HALF_WEIGHT,
            match_keys: vec![MatchKeyWithId {
                id: 1,
                key: MatchKey {
                    match_phrase: MatchPhrase::Range { start: 1, end: 3 },
                    lang_set: 1,
                },
                ..MatchKeyWithId::default()
            }],
            mask: 1 << 0,
        },
    ];

    let match_opts = MatchOpts { zoom: 6, ..MatchOpts::default() };

    // Test tree_coalesce
    let tree = stackable(&stack);
    let result = tree_coalesce(&tree, &match_opts, &scale).unwrap();

    assert!(!result.is_empty(), "Should have coalesced results");
    assert_eq!(result[0].entries.len(), 2, "First result should have 2 entries (stacked)");
    assert_eq!(result[0].mask, 3, "First result should have combined mask");

    // Check that entries are from both stores
    let has_store1 = result[0].entries.iter().any(|e| e.idx == 1);
    let has_store2 = result[0].entries.iter().any(|e| e.idx == 2);
    assert!(has_store1 && has_store2, "Result should combine entries from both stores");
}

#[test]
fn test_coalesce_single_basic() {
    let store = create_test_store(
        vec![(
            GridKey { phrase_id: 1, lang_set: 1 },
            vec![entry(1, 1, 1, 1000, 7), entry(2, 2, 2, 800, 3)],
        )],
        14,
        0,
    );

    let subquery = PhrasematchSubquery {
        store: &store,
        idx: 0,
        non_overlapping_indexes: FixedBitSet::with_capacity(MAX_INDEXES),
        weight: FULL_WEIGHT,
        match_keys: vec![MatchKeyWithId {
            id: 0,
            key: MatchKey {
                match_phrase: MatchPhrase::Range { start: 1, end: 3 },
                lang_set: 1,
            },
            ..MatchKeyWithId::default()
        }],
        mask: 1,
    };

    let match_opts = MatchOpts { zoom: 14, ..MatchOpts::default() };
    let result = coalesce_single(&subquery, &match_opts, &scale).unwrap();

    assert!(!result.is_empty(), "Should have results");
    assert_eq!(result[0].entries.len(), 1, "Single coalesce should have 1 entry per context");
}

#[test]
fn test_tree_coalesce_with_proximity() {
    let store1 = create_test_store(
        vec![(
            GridKey { phrase_id: 1, lang_set: 1 },
            vec![entry(1, 100, 100, 1000, 1), entry(2, 200, 200, 1000, 1)],
        )],
        14,
        1,
    );

    let store2 = create_test_store(
        vec![(
            GridKey { phrase_id: 2, lang_set: 1 },
            vec![entry(1, 100, 100, 1000, 3), entry(2, 200, 200, 1000, 3)],
        )],
        14,
        2,
    );

    let stack = vec![
        PhrasematchSubquery {
            store: &store1,
            idx: 1,
            non_overlapping_indexes: FixedBitSet::with_capacity(MAX_INDEXES),
            weight: HALF_WEIGHT,
            match_keys: vec![MatchKeyWithId {
                id: 0,
                key: MatchKey {
                    match_phrase: MatchPhrase::Range { start: 1, end: 3 },
                    lang_set: 1,
                },
                ..MatchKeyWithId::default()
            }],
            mask: 1 << 1,
        },
        PhrasematchSubquery {
            store: &store2,
            idx: 2,
            non_overlapping_indexes: FixedBitSet::with_capacity(MAX_INDEXES),
            weight: HALF_WEIGHT,
            match_keys: vec![MatchKeyWithId {
                id: 1,
                key: MatchKey {
                    match_phrase: MatchPhrase::Range { start: 1, end: 3 },
                    lang_set: 1,
                },
                ..MatchKeyWithId::default()
            }],
            mask: 1 << 0,
        },
    ];

    // Test with proximity near first entry
    let match_opts = MatchOpts {
        zoom: 14,
        proximity: Some([105, 105]),
        ..MatchOpts::default()
    };

    let tree = stackable(&stack);
    let result = tree_coalesce(&tree, &match_opts, &scale).unwrap();

    assert!(!result.is_empty(), "Should have results with proximity");
    // First result should be closer to proximity point
    assert_eq!(result[0].entries[0].grid_entry.id, 1, "Closest entry should be first");
}

#[test]
fn entries_are_weighted() {
    let store = create_test_store(vec![], 6, 0);
    let subquery = part(&store, 3, 250_000_000, 0, 1, 4);
    let grid = MatchEntry {
        grid_entry: entry(9, 1, 2, 800, 5),
        matches_language: true,
        distance: 16,
        scoredist: 77,
    };
    let opts = MatchOpts { zoom: 6, ..MatchOpts::default() };
    let e = grid_to_coalesce_entry(&grid, &subquery, &opts, 11);
    assert_eq!(e.relev, ONE / 5);
    assert_eq!(e.grid_entry, grid.grid_entry);
    assert_eq!((e.idx, e.tmp_id, e.mask), (3, 3 * 0x100_0000 + 9, 4));
    assert_eq!((e.distance, e.scoredist, e.phrasematch_id), (16, 77, 11));
    assert!(e.matches_language);
}

#[test]
fn single_phrases_hold_each_feature_once_the_best_first() {
    let store = create_test_store(
        vec![(
            key(1),
            vec![
                entry(1, 1, 1, 1000, 2),
                entry(1, 9, 9, 1000, 7),
                entry(2, 5, 5, 1000, 4),
                entry(3, 4, 5, 1000, 4),
                entry(4, 9, 1, 800, 9),
                entry(5, 9, 1, 600, 9),
            ],
        )],
        6,
        0,
    );
    let subquery = part(&store, 0, FULL_WEIGHT, 0, 1, 1);
    let opts = MatchOpts { zoom: 6, ..MatchOpts::default() };
    let result = coalesce_single(&subquery, &opts, &scale).unwrap();
    // Feature 5 is less relevant than the first by more than the gap.
    assert_eq!(feature_ids(&result), vec![vec![1], vec![3], vec![2], vec![4]]);
    assert_eq!(result[0].entries[0].grid_entry.score, 7);
    assert_eq!(result[0].relev, ONE);
    assert_eq!(result[3].relev, ONE * 4 / 5);
}

#[test]
fn single_phrases_have_no_more_contexts_than_allowed() {
    let entries = (1..=70u32).map(|id| entry(id, id as u16, 0, 1000, 5)).collect();
    let store = create_test_store(vec![(key(1), entries)], 6, 0);
    let subquery = part(&store, 0, FULL_WEIGHT, 0, 1, 1);
    let opts = MatchOpts { zoom: 6, ..MatchOpts::default() };
    let result = coalesce_single(&subquery, &opts, &scale).unwrap();
    assert_eq!(result.len(), MAX_CONTEXTS);
    let all = coalesce(&vec![subquery], &opts, &scale).unwrap();
    assert_eq!(all.len(), MAX_CONTEXTS);
}

#[test]
fn streets_stack_on_cities_across_zoom_levels() {
    // At zoom 8 the tile (13, 29) lies in the tile (3, 7) of zoom 6.
    let cities = create_test_store(
        vec![(key(1), vec![entry(100, 3, 7, 1000, 5), entry(101, 4, 7, 1000, 5)])],
        6,
        1,
    );
    let streets = create_test_store(
        vec![(key(2), vec![entry(200, 13, 29, 800, 5), entry(201, 60, 60, 800, 5)])],
        8,
        2,
    );
    let opts = MatchOpts { zoom: 8, ..MatchOpts::default() };
    let stack = vec![
        part(&streets, 1, HALF_WEIGHT, 0, 2, 0b01),
        part(&cities, 0, HALF_WEIGHT, 1, 1, 0b10),
    ];
    let result = coalesce_multi(&stack, &opts, &scale).unwrap();
    assert_eq!(feature_ids(&result)[0], vec![200, 100]);
    assert_eq!(result[0].mask, 0b11);
    // The masks ascend, so that a little is taken off.
    assert_eq!(result[0].relev, ONE * 89 / 100);
    // What is less relevant than the best by the gap or more is left out.
    assert!(result.iter().all(|c| c.relev > ONE * 13 / 20));
    assert_eq!(result.len(), 1);

    let answer = coalesce(&stack, &opts, &scale).unwrap();
    assert_eq!(feature_ids(&answer), vec![vec![200, 100]]);

    let tree: StackableTree = stackable(&stack);
    let walked = tree_coalesce(&tree, &opts, &scale).unwrap();
    assert_eq!(feature_ids(&walked)[0], vec![200, 100]);
    assert_eq!(walked[0].relev, ONE * 89 / 100);
    assert_eq!(walked[0].mask, 0b11);
}

#[test]
fn ascending_masks_are_a_little_less_relevant() {
    let cities = create_test_store(vec![(key(1), vec![entry(100, 3, 7, 1000, 5)])], 6, 1);
    let streets = create_test_store(vec![(key(2), vec![entry(200, 3, 7, 1000, 5)])], 6, 2);
    let opts = MatchOpts { zoom: 6, ..MatchOpts::default() };
    let mut relevs = Vec::new();
    for (first, second) in [(0b01, 0b10), (0b10, 0b01)] {
        let stack = vec![
            part(&cities, 0, HALF_WEIGHT, 0, 1, second),
            part(&streets, 1, HALF_WEIGHT, 1, 2, first),
        ];
        let result = coalesce_multi(&stack, &opts, &scale).unwrap();
        assert_eq!(feature_ids(&result)[0], vec![200, 100]);
        assert_eq!(result[0].entries[0].mask, first);
        let tree = stackable(&stack);
        let walked = tree_coalesce(&tree, &opts, &scale).unwrap();
        assert_eq!(feature_ids(&walked)[0], vec![200, 100]);
        assert_eq!(walked[0].relev, result[0].relev);
        relevs.push(result[0].relev);
    }
    assert_eq!(relevs, vec![ONE * 99 / 100, ONE]);
}

#[test]
fn phrases_with_words_in_common_do_not_stack() {
    let a = create_test_store(vec![(key(1), vec![entry(1, 1, 1, 1000, 5)])], 6, 1);
    let b = create_test_store(vec![(key(2), vec![entry(2, 1, 1, 1000, 5)])], 6, 2);
    let opts = MatchOpts { zoom: 6, ..MatchOpts::default() };
    let stack = vec![
        part(&a, 0, HALF_WEIGHT, 0, 1, 0b11),
        part(&b, 1, HALF_WEIGHT, 1, 2, 0b10),
    ];
    let result = coalesce_multi(&stack, &opts, &scale).unwrap();
    assert!(result.iter().all(|c| c.entries.len() == 1));
    assert_eq!(result.len(), 2);
    // The phrase that is gone through last is the one that loses for standing alone.
    assert_eq!(result[0].entries[0].grid_entry.id, 1);
    assert_eq!(result[0].relev, ONE / 2);
    assert_eq!(result[1].relev, ONE / 2 - ONE / 100);
}

#[test]
fn three_phrases_stack_in_a_tree() {
    let countries = create_test_store(vec![(key(1), vec![entry(1, 0, 0, 1000, 5)])], 4, 1);
    let cities = create_test_store(
        vec![(key(2), vec![entry(2, 3, 2, 1000, 5), entry(9, 40, 40, 1000, 5)])],
        6,
        2,
    );
    let streets = create_test_store(
        vec![(key(3), vec![entry(3, 13, 9, 1000, 5), entry(8, 200, 200, 1000, 5)])],
        8,
        3,
    );
    let opts = MatchOpts { zoom: 8, ..MatchOpts::default() };
    let stack = vec![
        part(&countries, 2, 300_000_000, 0, 1, 0b100),
        part(&cities, 1, 300_000_000, 1, 2, 0b010),
        part(&streets, 0, 400_000_000, 2, 3, 0b001),
    ];
    let tree = stackable(&stack);
    let result = tree_coalesce(&tree, &opts, &scale).unwrap();
    assert_eq!(feature_ids(&result)[0], vec![3, 2, 1]);
    assert_eq!(result[0].relev, ONE * 99 / 100);
    assert_eq!(result[0].mask, 0b111);
    for c in &result {
        // Each word is covered once, and the mask tells which are.
        assert_eq!(c.entries.iter().map(|e| e.mask).sum::<u32>(), c.mask);
    }
    let relevs: Vec<i128> = result.iter().map(|c| c.relev).collect();
    let mut sorted = relevs.clone();
    sorted.sort();
    sorted.reverse();
    assert_eq!(relevs, sorted);
}

#[test]
fn trees_hold_the_combinations() {
    let streets = create_test_store(vec![], 6, 1);
    let cities = create_test_store(vec![], 6, 2);
    let stack = vec![
        part(&streets, 0, 600_000_000, 0, 1, 0b01),
        part(&cities, 1, 400_000_000, 1, 2, 0b10),
    ];
    let tree = stackable(&stack);
    let nodes = bfs(&tree);
    // The root; the street and the city alone; the city on the street.
    let places: Vec<Option<usize>> = nodes.iter().map(|n| n.phrasematch).collect();
    assert_eq!(places, vec![None, Some(0), Some(1), Some(1)]);
    let masks: Vec<u32> = nodes.iter().map(|n| n.mask).collect();
    assert_eq!(masks, vec![0, 0b01, 0b10, 0b11]);
    assert!(!nodes[0].is_leaf());
    assert!(!nodes[1].is_leaf());
    assert!(nodes[2].is_leaf());
    assert!(nodes[3].is_leaf());
    assert!(nodes[3].bmask.contains(0) && nodes[3].bmask.contains(1));
    assert!(!nodes[2].bmask.contains(0) && nodes[2].bmask.contains(1));
    assert_eq!(nodes[0].idx, MAX_INDEXES as u16 + 1);
    assert_eq!(nodes[1].idx, 0);
}

#[test]
fn stacking_makes_nothing_more_relevant() {
    let streets = create_test_store(vec![], 6, 1);
    let cities = create_test_store(vec![], 6, 2);
    let countries = create_test_store(vec![], 6, 3);
    let stack = vec![
        part(&streets, 0, 500_000_000, 0, 1, 0b001),
        part(&cities, 1, 300_000_000, 1, 2, 0b010),
        part(&countries, 2, 200_000_000, 2, 3, 0b100),
    ];
    let tree = stackable(&stack);
    let nodes = bfs(&tree);
    let found: Vec<(u32, i128)> = nodes.iter().skip(1).map(|n| (n.mask, n.max_relev)).collect();
    assert_eq!(
        found,
        vec![
            (0b001, ONE),
            (0b010, ONE / 2),
            (0b011, ONE),
            (0b101, ONE * 7 / 10),
            (0b110, ONE / 2),
            (0b111, ONE),
        ]
    );
    for node in nodes.iter().skip(1) {
        for index in node.children.iter() {
            let child = tree.arena.get(*index).unwrap();
            assert!(child.max_relev <= node.max_relev);
            assert!(child.phrasematch > node.phrasematch);
        }
    }
}

#[test]
fn trees_leave_out_what_can_not_be_combined() {
    let streets = create_test_store(vec![], 6, 1);
    let cities = create_test_store(vec![], 6, 2);
    let mut street = part(&streets, 0, 600_000_000, 0, 1, 0b01);
    street.non_overlapping_indexes.insert(1);
    let stack = vec![street, part(&cities, 1, 400_000_000, 1, 2, 0b10)];
    let tree = stackable(&stack);
    let nodes = bfs(&tree);
    let masks: Vec<u32> = nodes.iter().map(|n| n.mask).collect();
    assert_eq!(masks, vec![0, 0b01, 0b10]);

    // A part of so little weight that nothing relevant can come of it is left out.
    let weak = vec![part(&streets, 0, 249_999_999, 0, 1, 0b01)];
    let bare = stackable(&weak);
    assert_eq!(bfs(&bare).len(), 1);
    let enough = vec![part(&streets, 0, 250_000_000, 0, 1, 0b01)];
    let grown = stackable(&enough);
    assert_eq!(bfs(&grown).len(), 2);
}

#[test]
fn parts_of_one_index_type_do_not_stack() {
    let streets = create_test_store(vec![], 6, 1);
    let stack = vec![
        part(&streets, 0, 400_000_000, 0, 1, 0b01),
        part(&streets, 1, 600_000_000, 1, 2, 0b10),
    ];
    let tree = stackable(&stack);
    let nodes = bfs(&tree);
    // The heavier part comes first.
    let masks: Vec<u32> = nodes.iter().map(|n| n.mask).collect();
    assert_eq!(masks, vec![0, 0b10, 0b01]);
}

#[test]
fn full_arenas_keep_the_most_relevant_leaves() {
    let stores: Vec<GridStore> = vec![create_test_store(vec![], 6, 1)];
    let mut stack = Vec::new();
    for i in 0..2100u32 {
        let weight = if i < 1950 { 500_000_000 } else { 300_000_000 };
        stack.push(part(&stores[0], (i % 128) as u16, weight, i, 1, 1));
    }
    let tree = stackable(&stack);
    let nodes = bfs(&tree);
    // All of the heavier parts, and as many of the lighter ones as there is room for.
    assert_eq!(nodes.len(), 1 + LEAF_SOFT_MAX);
    assert_eq!(nodes.iter().skip(1).filter(|n| n.max_relev == ONE / 2).count(), 1950);
}

fn leaf(relev: i128) -> StackableNode {
    StackableNode {
        phrasematch: Some(0),
        children: Vec::new(),
        bmask: FixedBitSet::with_capacity(MAX_INDEXES),
        mask: 0,
        idx: 0,
        max_relev: relev,
        zoom: 6,
        level: 1,
    }
}

#[test]
fn arenas_keep_the_allowed_number_of_equal_leaves() {
    let mut arena = ArenaManager::new();
    let mut places = Vec::new();
    for _ in 0..2001 {
        places.push(arena.add(leaf(ONE / 2)));
    }
    assert!(arena.is_full());
    assert_eq!(arena.total_leaves, LEAF_SOFT_MAX);
    let there = places.iter().flatten().filter(|i| arena.get(**i).is_some()).count();
    assert_eq!(there, LEAF_SOFT_MAX);
    assert_eq!(places[2000], None);

    // A better leaf takes the place of one of the others, a worse one does not.
    let better = arena.add(leaf(ONE)).unwrap();
    assert_eq!(arena.add(leaf(ONE / 4)), None);
    assert_eq!(arena.total_leaves, LEAF_SOFT_MAX);
    assert!(arena.get(better).is_some());
    let there = places.iter().flatten().filter(|i| arena.get(**i).is_some()).count();
    assert_eq!(there, LEAF_SOFT_MAX - 1);
}

#[test]
fn bins_without_leaves_are_culled() {
    let mut arena = ArenaManager::new();
    let low = arena.add(leaf(ONE / 4)).unwrap();
    let above = arena.add(StackableNode { children: vec![low], ..leaf(ONE / 4) }).unwrap();
    for _ in 0..1999 {
        arena.add(leaf(ONE / 2));
    }
    assert!(arena.is_full());
    assert!(arena.get(above).is_some());
    // With its last leaf the whole bin goes.
    assert!(arena.add(leaf(ONE / 2)).is_some());
    assert!(arena.get(low).is_none());
    assert!(arena.get(above).is_none());
    assert_eq!(arena.min_relev, ONE / 2);
    assert_eq!(arena.total_leaves, LEAF_SOFT_MAX);
}

#[test]
fn trees_of_no_parts_are_a_bare_root() {
    let stack = Vec::new();
    let tree = stackable(&stack);
    assert!(tree.root.is_leaf());
    assert_eq!(tree.root.phrasematch, None);
    assert_eq!(bfs(&tree).len(), 1);
}

#[test]
fn parts_with_words_in_common_are_not_stacked() {
    let streets = create_test_store(vec![], 6, 1);
    let cities = create_test_store(vec![], 6, 2);
    let countries = create_test_store(vec![], 6, 3);
    let stack = vec![
        part(&streets, 0, 400_000_000, 0, 1, 0b011),
        part(&cities, 1, 300_000_000, 1, 2, 0b010),
        part(&countries, 2, 300_000_000, 2, 3, 0b100),
    ];
    let tree = stackable(&stack);
    let masks: Vec<u32> = bfs(&tree).iter().map(|n| n.mask).collect();
    assert_eq!(masks, vec![0, 0b011, 0b010, 0b100, 0b111, 0b110]);
}

#[test]
fn the_feature_of_number_zero_is_found() {
    let mut entries = vec![entry(0, 1, 1, 1000, 0)];
    let store = create_test_store(vec![(key(1), entries.clone())], 6, 1);
    let opts = MatchOpts { zoom: 6, ..MatchOpts::default() };
    let found = coalesce_single(&part(&store, 0, FULL_WEIGHT, 0, 1, 1), &opts, &no_scale).unwrap();
    assert_eq!(feature_ids(&found), vec![vec![0]]);

    entries.push(entry(7, 2, 2, 1000, 0));
    let both = create_test_store(vec![(key(1), entries)], 6, 1);
    let found = coalesce_single(&part(&both, 0, FULL_WEIGHT, 0, 1, 1), &opts, &no_scale).unwrap();
    assert_eq!(feature_ids(&found).len(), 2);
}

#[test]
fn one_phrase_has_the_same_contexts_alone() {
    let store = create_test_store(
        vec![(
            key(1),
            (0..60u32).map(|i| entry(i, i as u16, 5, [1000, 800][(i % 2) as usize], 5)).collect(),
        )],
        6,
        1,
    );
    let opts = MatchOpts { zoom: 6, ..MatchOpts::default() };
    let stack = vec![part(&store, 3, FULL_WEIGHT, 0, 1, 1)];
    let alone = coalesce_single(&stack[0], &opts, &scale).unwrap();
    let found = coalesce(&stack, &opts, &scale).unwrap();
    assert_eq!(alone.len(), MAX_CONTEXTS);
    assert_eq!(feature_ids(&alone), feature_ids(&found));
    for (a, b) in alone.iter().zip(&found) {
        assert_eq!((&a.entries, a.mask, a.relev), (&b.entries, b.mask, b.relev));
    }
    assert!(alone.iter().all(|c| alone[0].relev - c.relev < ONE / 4));
}

fn context(id: u32, relev: i128) -> CoalesceContext {
    let store = create_test_store(vec![], 6, 0);
    let subquery = part(&store, 0, FULL_WEIGHT, 0, 1, 1);
    let grid = MatchEntry {
        grid_entry: entry(id, 0, 0, 1000, 0),
        matches_language: true,
        distance: 0,
        scoredist: 0,
    };
    let opts = MatchOpts { zoom: 6, ..MatchOpts::default() };
    let e = grid_to_coalesce_entry(&grid, &subquery, &opts, 0);
    CoalesceContext { entries: vec![e], mask: 1, relev }
}

#[test]
fn queues_keep_the_best_contexts() {
    let mut queue = ConstrainedPriorityQueue::new(3);
    assert_eq!(queue.peek_min(), None);
    for (id, relev) in [(1, 5), (2, 9), (3, 1), (4, 7), (5, 0), (6, 9)] {
        queue.push(context(id, relev));
    }
    assert_eq!(queue.len(), 3);
    assert_eq!(queue.peek_min(), Some(7));
    assert_eq!(queue.peek_max(), Some(9));
    let sorted = queue.into_vec_desc();
    assert_eq!(feature_ids(&sorted), vec![vec![6], vec![2], vec![4]]);
}

#[test]
fn copies_of_contexts_are_the_same() {
    let c = context(7, 3);
    let d = c.copied();
    assert_eq!(d.entries, c.entries);
    assert_eq!((d.mask, d.relev), (c.mask, c.relev));
}

#[test]
fn lone_phrases_of_a_tree_hold_each_feature_once() {
    let store = create_test_store(vec![], 6, 0);
    let subquery = part(&store, 2, HALF_WEIGHT, 0, 1, 4);
    let opts = MatchOpts { zoom: 6, ..MatchOpts::default() };
    let grid = |id: u32, relev: u16, scoredist: u64| MatchEntry {
        grid_entry: entry(id, 1, 1, relev, 1),
        matches_language: true,
        distance: 0,
        scoredist,
    };
    let grids = vec![grid(5, 1000, 9), grid(5, 1000, 8), grid(3, 800, 7), grid(4, 400, 9)];
    let result = tree_coalesce_single(&subquery, &opts, &grids, 6).unwrap();
    assert_eq!(feature_ids(&result), vec![vec![3], vec![4], vec![5]]);
    assert_eq!(result[2].entries[0].scoredist, 9);
    assert_eq!(result[2].relev, ONE / 2);
    assert!(result.iter().all(|c| c.mask == 4 && c.entries[0].phrasematch_id == 6));

    // Feature 0 at rank 0 counts only behind another entry.
    let nothing = tree_coalesce_single(&subquery, &opts, &vec![grid(0, 1000, 0)], 6).unwrap();
    assert!(nothing.is_empty());
    let ranked = tree_coalesce_single(&subquery, &opts, &vec![grid(0, 1000, 1)], 6).unwrap();
    assert_eq!(feature_ids(&ranked), vec![vec![0]]);
    let behind = vec![grid(3, 1000, 7), grid(0, 1000, 0)];
    let both = tree_coalesce_single(&subquery, &opts, &behind, 6).unwrap();
    assert_eq!(feature_ids(&both), vec![vec![0], vec![3]]);
}

#[test]
fn keys_near_the_proximity_point_are_looked_up_there() {
    let near = entry(1, 1000, 1000, 1000, 5);
    let far = entry(2, 5000, 5000, 1000, 5);
    let store = create_test_store(vec![(key(1), vec![near, far])], 14, 0);
    let mut only_near = part(&store, 0, FULL_WEIGHT, 0, 1, 1);
    only_near.match_keys[0].nearby_only = true;
    let opts = MatchOpts { zoom: 14, proximity: Some([1001, 1001]), ..MatchOpts::default() };
    let stack = vec![only_near];
    let tree = stackable(&stack);
    let result = tree_coalesce(&tree, &opts, &scale).unwrap();
    assert_eq!(feature_ids(&result), vec![vec![1]]);

    let mut bounded = part(&store, 0, FULL_WEIGHT, 0, 1, 1);
    bounded.match_keys[0].bounds = Some([4000, 4000, 6000, 6000]);
    let stack = vec![bounded];
    let tree = stackable(&stack);
    let result = tree_coalesce(&tree, &opts, &scale).unwrap();
    assert_eq!(feature_ids(&result), vec![vec![2]]);
}

#[test]
fn one_letter_ranges_are_looked_up_within_their_quota() {
    let store = create_test_store(
        (1..=12u32).map(|p| (key(p * 10), vec![entry(p, p as u16, 0, 1000, 5)])).collect(),
        6,
        0,
    );
    let mut stack = Vec::new();
    for p in 1..=12u32 {
        let mut one = part(&store, p as u16, FULL_WEIGHT, p, 0, 1);
        one.match_keys[0].key.match_phrase =
            MatchPhrase::Range { start: p * 10, end: p * 10 + 5 };
        one.match_keys[0].phrase_length = 1;
        stack.push(one);
    }
    let opts = MatchOpts { zoom: 6, ..MatchOpts::default() };
    let tree = stackable(&stack);
    let result = tree_coalesce(&tree, &opts, &scale).unwrap();
    assert_eq!(result.len(), 8);

    for one in stack.iter_mut() {
        one.match_keys[0].phrase_length = 2;
    }
    let tree = stackable(&stack);
    let result = tree_coalesce(&tree, &opts, &scale).unwrap();
    assert_eq!(result.len(), 12);
}

#[test]
fn indexes_elsewhere_are_not_stacked() {
    let cities = create_test_store(vec![(key(1), vec![entry(1, 3, 3, 1000, 5)])], 6, 1);
    let mut streets = create_test_store(vec![(key(2), vec![entry(2, 3, 3, 1000, 5)])], 6, 2);
    streets.bboxes = vec![[40, 40, 50, 50]];
    let opts = MatchOpts { zoom: 6, ..MatchOpts::default() };
    let stack = vec![
        part(&cities, 1, HALF_WEIGHT, 0, 1, 0b10),
        part(&streets, 0, HALF_WEIGHT, 1, 2, 0b01),
    ];
    let tree = stackable(&stack);
    let result = tree_coalesce(&tree, &opts, &scale).unwrap();
    assert!(result.iter().all(|c| c.entries.len() == 1));
    drop(tree);
    drop(stack);
    streets.bboxes = vec![[40, 40, 50, 50], [0, 0, 10, 10]];
    let stack = vec![
        part(&cities, 1, HALF_WEIGHT, 0, 1, 0b10),
        part(&streets, 0, HALF_WEIGHT, 1, 2, 0b01),
    ];
    let tree = stackable(&stack);
    let result = tree_coalesce(&tree, &opts, &scale).unwrap();
    assert_eq!(feature_ids(&result)[0], vec![2, 1]);
}
