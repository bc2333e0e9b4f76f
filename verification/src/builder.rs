//! Grid store builder for creating spatial phrase indexes.
//!
//! # Overview
//!
//! A **grid** is a spatial coordinate (x, y) where a feature appears. A single phrase like
//! "Main Street" may appear at hundreds of grid coordinates across a city or region.
//!
//! `GridStoreBuilder` accumulates all grids for all phrases in a geocoding index
//! (e.g., "streets", "cities", "countries") and turns them into the rows of a single database.

use std::collections::HashMap;
use vstd::prelude::*;

use crate::common::{
    boundary_bytes, bounds_key, bounds_key_bytes, db_key, encode_boundaries, encode_relev_score,
    pack_feature_id, packed_id, relev_score, GridEntry, GridKey, LanguageSet, MortonCode,
    PackedFeatureId, PhraseId, RelevScore, TypeMarker,
};
use crate::error::{Result, StorageError};
use crate::order::{ascending, byte_keys, in_order, num_u128, num_u32, num_u8, wide_keys, word_keys};
use crate::outside::{
    coords_view, decoded_groups, encoded_groups, groups_view, interleave, serialize_groups,
    spread_bits, IdList,
};

verus! {

broadcast use vstd::std_specs::hash::group_hash_axioms;

// ---------------------------------------------------------------------------------------------
// Entries of one phrase
// ---------------------------------------------------------------------------------------------

/// Features by coordinate.
pub type CoordsView = Map<u32, Seq<u32>>;

/// Features by relevance and score, then by coordinate.
pub type EntriesView = Map<u8, CoordsView>;

/// Nested storage structure for efficient grouping and compression.
///
/// - Level 1: combined relevance and score, which groups entries by importance
/// - Level 2: Morton code, which keeps nearby coordinates together
/// - Level 3: the packed features at that coordinate, in the order in which they were added
pub struct BuilderEntry {
    pub inner: HashMap<RelevScore, HashMap<MortonCode, IdList>>,
}

/// The features by coordinate, as plain values.
pub open spec fn coords_of(coords: HashMap<MortonCode, IdList>) -> CoordsView {
    coords@.map_values(|ids: IdList| ids@)
}

impl View for BuilderEntry {
    type V = EntriesView;

    open spec fn view(&self) -> EntriesView {
        self.inner@.map_values(|coords: HashMap<MortonCode, IdList>| coords_of(coords))
    }
}

/// The Morton code of a coordinate: the bits of x and y interleaved.
pub open spec fn morton_code(x: u16, y: u16) -> MortonCode {
    (spread_bits(x as nat) + 2 * spread_bits(y as nat)) as u32
}

/// The coordinates under a relevance and score, none if there are none.
pub open spec fn coords_at(entries: EntriesView, rs: RelevScore) -> CoordsView {
    if entries.contains_key(rs) {
        entries[rs]
    } else {
        Map::empty()
    }
}

/// The features at a coordinate, none if there are none.
pub open spec fn ids_at(coords: CoordsView, morton: MortonCode) -> Seq<PackedFeatureId> {
    if coords.contains_key(morton) {
        coords[morton]
    } else {
        Seq::empty()
    }
}

/// The coordinates with one more feature.
pub open spec fn with_id(coords: CoordsView, morton: MortonCode, id: PackedFeatureId) -> CoordsView {
    coords.insert(morton, ids_at(coords, morton).push(id))
}

/// The entries with one more feature.
pub open spec fn with_feature(
    entries: EntriesView,
    rs: RelevScore,
    morton: MortonCode,
    id: PackedFeatureId,
) -> EntriesView {
    entries.insert(rs, with_id(coords_at(entries, rs), morton, id))
}

/// The entries with one more grid entry.
pub open spec fn with_entry(entries: EntriesView, e: GridEntry) -> EntriesView {
    with_feature(
        entries,
        relev_score(e.relev, e.score),
        morton_code(e.x, e.y),
        packed_id(e.id, e.source_phrase_hash),
    )
}

/// The entries with more grid entries, added in order.
pub open spec fn extended(entries: EntriesView, values: Seq<GridEntry>) -> EntriesView
    decreases values.len(),
{
    if values.len() == 0 {
        entries
    } else {
        with_entry(extended(entries, values.drop_last()), values.last())
    }
}

/// The entries that hold the given grid entries and nothing else.
pub open spec fn entries_of(values: Seq<GridEntry>) -> EntriesView {
    extended(Map::empty(), values)
}

/// The coordinates of both, at each coordinate the features of the first before those of the
/// second.
pub open spec fn merged_coords(a: CoordsView, b: CoordsView) -> CoordsView {
    Map::new(
        |m: u32| a.contains_key(m) || b.contains_key(m),
        |m: u32| ids_at(a, m) + ids_at(b, m),
    )
}

/// The entries of both, at each place the features of the first before those of the second.
pub open spec fn merged(a: EntriesView, b: EntriesView) -> EntriesView {
    Map::new(
        |rs: u8| a.contains_key(rs) || b.contains_key(rs),
        |rs: u8| merged_coords(coords_at(a, rs), coords_at(b, rs)),
    )
}

fn add_id(coords: &mut HashMap<MortonCode, IdList>, morton: MortonCode, id: PackedFeatureId)
    ensures
        coords_of(*final(coords)) == with_id(coords_of(*old(coords)), morton, id),
{
    let ids = coords.entry(morton).or_insert(IdList::new());
    ids.push(id);
    assert(coords_of(*coords) =~= with_id(coords_of(*old(coords)), morton, id));
}

fn add_ids(coords: &mut HashMap<MortonCode, IdList>, morton: MortonCode, more: &IdList)
    ensures
        coords_of(*final(coords)) == coords_of(*old(coords)).insert(
            morton,
            ids_at(coords_of(*old(coords)), morton) + more@,
        ),
{
    let items: Vec<u32> = more.to_vec();
    let ids = coords.entry(morton).or_insert(IdList::new());
    let ghost before = ids@;
    let mut i: usize = 0;
    while i < items.len()
        invariant
            i <= items@.len(),
            ids@ == before + items@.take(i as int),
        decreases items@.len() - i,
    {
        ids.push(items[i]);
        i += 1;
        assert(items@.take(i as int) =~= items@.take(i - 1).push(items@[i - 1]));
    }
    assert(items@.take(i as int) =~= items@);
    assert(coords_of(*coords) =~= coords_of(*old(coords)).insert(
        morton,
        ids_at(coords_of(*old(coords)), morton) + more@,
    ));
}

impl BuilderEntry {
    /// An entry without features.
    pub fn new() -> (entry: Self)
        ensures
            entry@ == Map::<u8, CoordsView>::empty(),
    {
        let entry = BuilderEntry { inner: HashMap::new() };
        assert(entry@ =~= Map::<u8, CoordsView>::empty());
        entry
    }

    /// Adds a packed feature.
    pub fn add_feature(&mut self, rs: RelevScore, morton: MortonCode, id: PackedFeatureId)
        ensures
            final(self)@ == with_feature(old(self)@, rs, morton, id),
    {
        let coords = self.inner.entry(rs).or_insert(HashMap::new());
        let ghost before = coords_of(*coords);
        proof {
            assert(before =~= coords_at(old(self)@, rs));
        }
        add_id(coords, morton, id);
        assert(self@ =~= with_feature(old(self)@, rs, morton, id));
    }

    /// The packed features at a place, none if there are none.
    pub fn features_at(&self, rs: RelevScore, morton: MortonCode) -> (ids: Vec<PackedFeatureId>)
        ensures
            ids@ == ids_at(coords_at(self@, rs), morton),
    {
        match self.inner.get(&rs) {
            Some(coords) => match coords.get(&morton) {
                Some(ids) => ids.to_vec(),
                None => Vec::new(),
            },
            None => Vec::new(),
        }
    }
}

/// Extends a BuilderEntry with the given values.
pub fn extend_entries(builder_entry: &mut BuilderEntry, values: Vec<GridEntry>)
    ensures
        final(builder_entry)@ == extended(old(builder_entry)@, values@),
{
    let mut i: usize = 0;
    assert(values@.take(0) =~= Seq::empty());
    while i < values.len()
        invariant
            i <= values@.len(),
            builder_entry@ == extended(old(builder_entry)@, values@.take(i as int)),
        decreases values@.len() - i,
    {
        let value: GridEntry = values[i];
        let rs: RelevScore = encode_relev_score(value.relev, value.score);
        let morton: MortonCode = interleave(value.x, value.y);
        let id: PackedFeatureId = pack_feature_id(value.id, value.source_phrase_hash);
        builder_entry.add_feature(rs, morton, id);
        i += 1;
        assert(values@.take(i as int).drop_last() =~= values@.take(i - 1));
    }
    assert(values@.take(i as int) =~= values@);
}

/// The keys before position `n` of those in order.
spec fn first_keys<K>(keys: Seq<K>, n: int) -> Set<K> {
    keys.take(n).to_set()
}

proof fn first_keys_grow<K>(keys: Seq<K>, n: int)
    requires
        0 <= n < keys.len(),
    ensures
        first_keys(keys, n + 1) == first_keys(keys, n).insert(keys[n]),
{
    let a = keys.take(n + 1);
    let b = keys.take(n);
    assert(a =~= b.push(keys[n]));
    b.lemma_push_to_set_commute(keys[n]);
}

fn copy_coords(
    source: &HashMap<MortonCode, IdList>,
    target: &mut HashMap<MortonCode, IdList>,
)
    ensures
        coords_of(*final(target)) == merged_coords(coords_of(*old(target)), coords_of(*source)),
{
    let mortons: Vec<u32> = word_keys(source);
    let ghost a = coords_of(*old(target));
    let ghost b = coords_of(*source);
    let mut j: usize = 0;
    assert(first_keys(mortons@, 0) =~= Set::empty());
    assert(b.restrict(first_keys(mortons@, 0)) =~= Map::empty());
    assert(a =~= merged_coords(a, Map::empty()));
    while j < mortons.len()
        invariant
            j <= mortons@.len(),
            b == coords_of(*source),
            mortons@.to_set() == source@.dom(),
            ascending(mortons@, num_u32()),
            coords_of(*target) == merged_coords(a, b.restrict(first_keys(mortons@, j as int))),
        decreases mortons@.len() - j,
    {
        let morton: u32 = mortons[j];
        let ghost seen = first_keys(mortons@, j as int);
        proof {
            assert(mortons@.contains(morton));
            assert(mortons@.to_set().contains(morton));
            assert(!seen.contains(morton)) by {
                if mortons@.take(j as int).contains(morton) {
                    let q = choose|q: int| 0 <= q < j && mortons@.take(j as int)[q] == morton;
                    assert(mortons@[q] == morton);
                }
            }
            first_keys_grow(mortons@, j as int);
        }
        match source.get(&morton) {
            Some(ids) => {
                add_ids(target, morton, ids);
            },
            None => {},
        }
        j += 1;
        assert(coords_of(*target) =~= merged_coords(
            a,
            b.restrict(first_keys(mortons@, j as int)),
        ));
    }
    proof {
        assert(mortons@.take(j as int) =~= mortons@);
        assert(b.restrict(first_keys(mortons@, j as int)) =~= b);
    }
}

/// Copies all entries from source to target BuilderEntry.
///
/// Used for prefix bin aggregation - copies the features from individual
/// phrase entries into the aggregated PrefixBin entry.
pub fn copy_entries(source_entry: &BuilderEntry, target_entry: &mut BuilderEntry)
    ensures
        final(target_entry)@ == merged(old(target_entry)@, source_entry@),
{
    let scores: Vec<u8> = byte_keys(&source_entry.inner);
    let ghost a = old(target_entry)@;
    let ghost b = source_entry@;
    let mut j: usize = 0;
    assert(first_keys(scores@, 0) =~= Set::empty());
    assert(b.restrict(first_keys(scores@, 0)) =~= Map::empty());
    proof {
        assert forall|rs: u8| a.contains_key(rs) implies #[trigger] a[rs] == merged_coords(
            a[rs],
            Map::empty(),
        ) by {
            assert(a[rs] =~= merged_coords(a[rs], Map::empty()));
        }
        assert(a =~= merged(a, Map::empty()));
    }
    while j < scores.len()
        invariant
            j <= scores@.len(),
            b == source_entry@,
            scores@.to_set() == source_entry.inner@.dom(),
            ascending(scores@, num_u8()),
            target_entry@ == merged(a, b.restrict(first_keys(scores@, j as int))),
        decreases scores@.len() - j,
    {
        let rs: u8 = scores[j];
        let ghost seen = first_keys(scores@, j as int);
        let ghost before = target_entry@;
        proof {
            assert(scores@.contains(rs));
            assert(scores@.to_set().contains(rs));
            assert(!seen.contains(rs)) by {
                if scores@.take(j as int).contains(rs) {
                    let q = choose|q: int| 0 <= q < j && scores@.take(j as int)[q] == rs;
                    assert(scores@[q] == rs);
                }
            }
            first_keys_grow(scores@, j as int);
        }
        match source_entry.inner.get(&rs) {
            Some(values) => {
                let rs_entry = target_entry.inner.entry(rs).or_insert(HashMap::new());
                proof {
                    assert(coords_of(*rs_entry) =~= coords_at(before, rs));
                }
                copy_coords(values, rs_entry);
                proof {
                    let more = coords_of(*values);
                    let nothing: CoordsView = Map::empty();
                    assert(more == b[rs]);
                    assert(coords_at(before, rs) =~= coords_at(a, rs)) by {
                        if a.contains_key(rs) {
                            assert(merged_coords(a[rs], nothing) =~= a[rs]);
                            assert(coords_at(b.restrict(seen), rs) =~= nothing);
                        }
                    }
                    assert(target_entry@ =~= before.insert(
                        rs,
                        merged_coords(coords_at(a, rs), more),
                    ));
                }
            },
            None => {},
        }
        j += 1;
        proof {
            let now = b.restrict(first_keys(scores@, j as int));
            assert(now.contains_key(rs) && now[rs] == b[rs]);
            assert forall|o: u8| o != rs implies coords_at(now, o) == #[trigger] coords_at(
                b.restrict(seen),
                o,
            ) by {}
            assert(target_entry@ =~= merged(a, now));
        }
    }
    proof {
        assert(scores@.take(j as int) =~= scores@);
        assert(b.restrict(first_keys(scores@, j as int)) =~= b);
    }
}

// ---------------------------------------------------------------------------------------------
// Stored values
// ---------------------------------------------------------------------------------------------

/// The coordinates with their features, in the ascending order of the Morton codes.
pub open spec fn coords_listing(coords: CoordsView) -> Seq<(u32, Seq<u32>)> {
    in_order(coords.dom(), num_u32()).map_values(|m: u32| (m, coords[m]))
}

/// A phrase's features as they are stored: the highest relevance and score first.
pub open spec fn listing(entries: EntriesView) -> Seq<(u8, Seq<(u32, Seq<u32>)>)> {
    in_order(entries.dom(), num_u8()).reverse().map_values(
        |rs: u8| (rs, coords_listing(entries[rs])),
    )
}

/// The stored form of the entries can be read back.
pub open spec fn readable(entries: EntriesView) -> bool {
    let bytes = encoded_groups(listing(entries));
    decoded_groups(bytes) is Ok && decoded_groups(bytes)->Ok_0 == listing(entries)
}

fn list_coords(coords: &HashMap<MortonCode, IdList>) -> (list: Vec<(u32, Vec<u32>)>)
    ensures
        coords_view(list@) == coords_listing(coords_of(*coords)),
{
    let mortons: Vec<u32> = word_keys(coords);
    let ghost c = coords_of(*coords);
    let mut list: Vec<(u32, Vec<u32>)> = Vec::new();
    let mut j: usize = 0;
    assert(c.dom() =~= coords@.dom());
    while j < mortons.len()
        invariant
            j <= mortons@.len(),
            c == coords_of(*coords),
            mortons@ == in_order(c.dom(), num_u32()),
            mortons@.to_set() == coords@.dom(),
            coords_view(list@) == coords_listing(c).take(j as int),
        decreases mortons@.len() - j,
    {
        let morton: u32 = mortons[j];
        proof {
            assert(mortons@.contains(morton));
            assert(mortons@.to_set().contains(morton));
        }
        match coords.get(&morton) {
            Some(ids) => {
                let ghost before = list@;
                list.push((morton, ids.to_vec()));
                assert(coords_view(list@) =~= coords_view(before).push((morton, c[morton])));
            },
            None => {},
        }
        j += 1;
        assert(coords_view(list@) =~= coords_listing(c).take(j as int));
    }
    assert(coords_listing(c).take(j as int) =~= coords_listing(c));
    list
}

impl GridStoreBuilder {
    /// Serializes BuilderEntry to bytes with deterministic ordering.
    ///
    /// Sorts entries by RelevScore (descending) before serialization to ensure:
    /// 1. Deterministic output (same input always produces same bytes)
    /// 2. High-relevance entries come first for query optimization
    /// 3. Better compression (similar values grouped together)
    pub fn serialize_value(entries: &BuilderEntry) -> (r: Result<Vec<u8>>)
        ensures
            r is Ok,
            r->Ok_0@ == encoded_groups(listing(entries@)),
            readable(entries@),
    {
        let scores: Vec<u8> = byte_keys(&entries.inner);
        let ghost e = entries@;
        assert(e.dom() =~= entries.inner@.dom());
        let mut list: Vec<(u8, Vec<(u32, Vec<u32>)>)> = Vec::new();
        let mut j: usize = scores.len();
        while j > 0
            invariant
                j <= scores@.len(),
                e == entries@,
                scores@ == in_order(e.dom(), num_u8()),
                scores@.to_set() == entries.inner@.dom(),
                groups_view(list@) == listing(e).take(scores@.len() - j),
            decreases j,
        {
            j -= 1;
            let rs: u8 = scores[j];
            proof {
                assert(scores@.contains(rs));
                assert(scores@.to_set().contains(rs));
            }
            match entries.inner.get(&rs) {
                Some(coords) => {
                    let ghost before = list@;
                    list.push((rs, list_coords(coords)));
                    assert(groups_view(list@) =~= groups_view(before).push(
                        (rs, coords_listing(e[rs])),
                    ));
                },
                None => {},
            }
            assert(groups_view(list@) =~= listing(e).take(scores@.len() - j));
        }
        assert(listing(e).take(scores@.len() as int) =~= listing(e));
        match serialize_groups(&list) {
            Ok(bytes) => Ok(bytes),
            Err(text) => Err(StorageError::Serialization(text)),
        }
    }
}

// ---------------------------------------------------------------------------------------------
// Builder
// ---------------------------------------------------------------------------------------------

/// Builder for creating and populating a grid store.
///
/// Accumulates entries in memory during building, organizing them by
/// relevance/score and coordinate for efficient storage. `finish()` turns all of them into the
/// rows of the database.
///
/// # Storage Format
/// - Keys: [type_marker:1][phrase_id:4][lang_set:0-16] bytes
/// - Values: serialized BuilderEntry
pub struct GridStoreBuilder {
    /// In-memory accumulation of all entries by key, in the ascending order of the keys.
    pub data: Vec<(GridKey, BuilderEntry)>,
    /// Bin boundaries for prefix bin optimization. If empty, no prefix bins are generated.
    pub bin_boundaries: Vec<PhraseId>,
}

/// The keys are ordered by phrase, then by language set.
pub open spec fn key_lt(a: GridKey, b: GridKey) -> bool {
    a.phrase_id < b.phrase_id || (a.phrase_id == b.phrase_id && a.lang_set < b.lang_set)
}

/// A phrase and language with its entries, as plain values.
pub type Item = (GridKey, EntriesView);

/// What the builder holds, as plain values.
pub open spec fn items_of(data: Seq<(GridKey, BuilderEntry)>) -> Seq<Item> {
    data.map_values(|d: (GridKey, BuilderEntry)| (d.0, d.1@))
}

/// Each key is less than those behind it.
pub open spec fn keys_ascend(items: Seq<Item>) -> bool {
    forall|i: int, j: int|
        0 <= i < j < items.len() ==> key_lt((#[trigger] items[i]).0, (#[trigger] items[j]).0)
}

/// The entries by key.
pub open spec fn item_table(items: Seq<Item>) -> Map<GridKey, EntriesView> {
    Map::new(
        |k: GridKey| exists|i: int| 0 <= i < items.len() && (#[trigger] items[i]).0 == k,
        |k: GridKey| items[choose|i: int| 0 <= i < items.len() && (#[trigger] items[i]).0 == k].1,
    )
}

impl GridStoreBuilder {
    /// What the builder holds, in the order of the keys.
    pub open spec fn items(self) -> Seq<Item> {
        items_of(self.data@)
    }

    /// The entries by key.
    pub open spec fn table(self) -> Map<GridKey, EntriesView> {
        item_table(self.items())
    }

    /// The keys are in order, each once.
    pub open spec fn wf(self) -> bool {
        keys_ascend(self.items())
    }

    /// Creates a builder without entries and without bin boundaries.
    pub fn new() -> (r: Result<Self>)
        ensures
            r is Ok,
            r->Ok_0.wf(),
            r->Ok_0.items() == Seq::<Item>::empty(),
            r->Ok_0.bin_boundaries@ == Seq::<PhraseId>::empty(),
    {
        let builder = GridStoreBuilder { data: Vec::new(), bin_boundaries: Vec::new() };
        assert(builder.items() =~= Seq::<Item>::empty());
        Ok(builder)
    }

    /// Where the key stands, or where it would stand.
    fn position(&self, key: &GridKey) -> (r: (usize, bool))
        requires
            self.wf(),
        ensures
            r.0 <= self.data@.len(),
            forall|i: int| 0 <= i < r.0 ==> key_lt((#[trigger] self.data@[i]).0, *key),
            r.1 ==> r.0 < self.data@.len() && self.data@[r.0 as int].0 == *key,
            !r.1 ==> forall|i: int|
                r.0 <= i < self.data@.len() ==> key_lt(*key, (#[trigger] self.data@[i]).0),
    {
        let mut i: usize = 0;
        while i < self.data.len()
            invariant
                i <= self.data@.len(),
                self.wf(),
                forall|j: int| 0 <= j < i ==> key_lt((#[trigger] self.data@[j]).0, *key),
            decreases self.data@.len() - i,
        {
            let k: GridKey = self.data[i].0;
            if k.phrase_id > key.phrase_id || (k.phrase_id == key.phrase_id && k.lang_set
                >= key.lang_set) {
                let found: bool = k == *key;
                proof {
                    let items = self.items();
                    assert forall|j: int| i <= j < self.data@.len() && !found implies key_lt(
                        *key,
                        (#[trigger] self.data@[j]).0,
                    ) by {
                        assert(items[i as int].0 == k && items[j].0 == self.data@[j].0);
                        if j > i {
                            assert(key_lt(items[i as int].0, items[j].0));
                        }
                    }
                }
                return (i, found);
            }
            i += 1;
        }
        (i, false)
    }

    /// Inserts entries for a given key, in place of those that it had.
    ///
    /// # Entry Processing
    ///
    /// Each entry is transformed into the three-level hierarchy:
    /// 1. Relevance + score -> RelevScore (u8 key for grouping)
    /// 2. (x, y) -> Morton code (u32 for spatial locality)
    /// 3. Feature ID + hash -> PackedFeatureId (u32 for deduplication)
    pub fn insert(&mut self, key: &GridKey, entries: Vec<GridEntry>) -> (r: Result<()>)
        requires
            old(self).wf(),
        ensures
            r is Ok,
            final(self).wf(),
            final(self).table() == old(self).table().insert(*key, entries_of(entries@)),
            final(self).bin_boundaries@ == old(self).bin_boundaries@,
    {
        let mut to_insert = BuilderEntry::new();
        extend_entries(&mut to_insert, entries);
        let (pos, found) = self.position(key);
        let ghost before = self.items();
        let ghost added: Item = (*key, to_insert@);
        if found {
            self.data.set(pos, (*key, to_insert));
            proof {
                assert(self.items() =~= before.update(pos as int, added));
                replaced_table(before, pos as int, added);
            }
        } else {
            self.data.insert(pos, (*key, to_insert));
            proof {
                assert(self.items() =~= before.insert(pos as int, added));
                inserted_table(before, pos as int, added);
            }
        }
        Ok(())
    }

    /// Appends entries to an existing key, or creates new entry if key doesn't exist.
    ///
    /// Unlike `insert()` which replaces existing data, `append()` merges new entries
    /// with existing ones. Multiple `append()` calls accumulate entries.
    pub fn append(&mut self, key: &GridKey, values: Vec<GridEntry>) -> (r: Result<()>)
        requires
            old(self).wf(),
        ensures
            r is Ok,
            final(self).wf(),
            final(self).table() == old(self).table().insert(
                *key,
                extended(
                    if old(self).table().contains_key(*key) {
                        old(self).table()[*key]
                    } else {
                        Map::empty()
                    },
                    values@,
                ),
            ),
            final(self).bin_boundaries@ == old(self).bin_boundaries@,
    {
        let (pos, found) = self.position(key);
        let ghost before = self.items();
        if !found {
            self.data.insert(pos, (*key, BuilderEntry::new()));
            proof {
                let added: Item = (*key, Map::empty());
                assert(self.items() =~= before.insert(pos as int, added));
                inserted_table(before, pos as int, added);
                absent_key(before, pos as int, *key);
            }
        } else {
            proof {
                table_at(before, pos as int);
            }
        }
        let ghost between = self.items();
        let ghost had = between[pos as int].1;
        proof {
            table_at(between, pos as int);
        }
        let to_append = &mut self.data[pos].1;
        extend_entries(to_append, values);
        proof {
            let added: Item = (*key, extended(had, values@));
            assert(self.items() =~= between.update(pos as int, added));
            replaced_table(between, pos as int, added);
            assert(self.table() =~= item_table(before).insert(*key, added.1));
        }
        Ok(())
    }

    /// Sets bin boundaries for prefix bin optimization.
    ///
    /// Prefix bins enable efficient range queries (autocomplete) by aggregating
    /// multiple phrase entries into larger bins: `finish()` writes one aggregated entry for each
    /// bin and language.
    pub fn load_bin_boundaries(&mut self, bin_boundaries: Vec<PhraseId>) -> (r: Result<()>)
        ensures
            r is Ok,
            final(self).data@ == old(self).data@,
            final(self).bin_boundaries@ == bin_boundaries@,
    {
        self.bin_boundaries = bin_boundaries;
        Ok(())
    }
}

proof fn table_at(items: Seq<Item>, i: int)
    requires
        keys_ascend(items),
        0 <= i < items.len(),
    ensures
        item_table(items).contains_key(items[i].0),
        item_table(items)[items[i].0] == items[i].1,
{
    let k = items[i].0;
    let j = choose|j: int| 0 <= j < items.len() && (#[trigger] items[j]).0 == k;
    assert(items[i].0 == k);
    assert(0 <= j < items.len() && items[j].0 == k);
    if i < j {
        assert(key_lt(items[i].0, items[j].0));
    } else if j < i {
        assert(key_lt(items[j].0, items[i].0));
    }
}

proof fn absent_key(items: Seq<Item>, pos: int, key: GridKey)
    requires
        0 <= pos <= items.len(),
        forall|i: int| 0 <= i < pos ==> key_lt((#[trigger] items[i]).0, key),
        forall|i: int| pos <= i < items.len() ==> key_lt(key, (#[trigger] items[i]).0),
    ensures
        !item_table(items).contains_key(key),
{
}

proof fn replaced_table(items: Seq<Item>, pos: int, added: Item)
    requires
        keys_ascend(items),
        0 <= pos < items.len(),
        items[pos].0 == added.0,
    ensures
        keys_ascend(items.update(pos, added)),
        item_table(items.update(pos, added)) == item_table(items).insert(added.0, added.1),
{
    let after = items.update(pos, added);
    assert(keys_ascend(after));
    table_at(after, pos);
    assert forall|k: GridKey| item_table(after).contains_key(k) <==> (item_table(
        items,
    ).contains_key(k) || k == added.0) by {
        if item_table(after).contains_key(k) {
            let i = choose|i: int| 0 <= i < after.len() && (#[trigger] after[i]).0 == k;
            assert(items[i].0 == k);
        }
        if item_table(items).contains_key(k) {
            let i = choose|i: int| 0 <= i < items.len() && (#[trigger] items[i]).0 == k;
            assert(after[i].0 == k);
        }
    }
    assert forall|k: GridKey| item_table(after).contains_key(k) && k != added.0 implies item_table(
        after,
    )[k] == item_table(items)[k] by {
        let i = choose|i: int| 0 <= i < after.len() && (#[trigger] after[i]).0 == k;
        table_at(after, i);
        table_at(items, i);
    }
    assert(item_table(after) =~= item_table(items).insert(added.0, added.1));
}

proof fn inserted_table(items: Seq<Item>, pos: int, added: Item)
    requires
        keys_ascend(items),
        0 <= pos <= items.len(),
        forall|i: int| 0 <= i < pos ==> key_lt((#[trigger] items[i]).0, added.0),
        forall|i: int| pos <= i < items.len() ==> key_lt(added.0, (#[trigger] items[i]).0),
    ensures
        keys_ascend(items.insert(pos, added)),
        item_table(items.insert(pos, added)) == item_table(items).insert(added.0, added.1),
{
    let after = items.insert(pos, added);
    assert forall|i: int| 0 <= i < after.len() implies #[trigger] after[i] == (if i < pos {
        items[i]
    } else if i == pos {
        added
    } else {
        items[i - 1]
    }) by {}
    assert forall|i: int, j: int| 0 <= i < j < after.len() implies key_lt(
        (#[trigger] after[i]).0,
        (#[trigger] after[j]).0,
    ) by {
        let a = if i < pos {
            i
        } else {
            i - 1
        };
        let b = if j < pos {
            j
        } else {
            j - 1
        };
        if i != pos && j != pos {
            assert(key_lt(items[a].0, items[b].0));
        }
    }
    assert(keys_ascend(after));
    table_at(after, pos);
    assert forall|k: GridKey| item_table(after).contains_key(k) <==> (item_table(
        items,
    ).contains_key(k) || k == added.0) by {
        if item_table(after).contains_key(k) {
            let i = choose|i: int| 0 <= i < after.len() && (#[trigger] after[i]).0 == k;
            if i < pos {
                assert(items[i].0 == k);
            } else if i > pos {
                assert(items[i - 1].0 == k);
            }
        }
        if item_table(items).contains_key(k) {
            let i = choose|i: int| 0 <= i < items.len() && (#[trigger] items[i]).0 == k;
            if i < pos {
                assert(after[i].0 == k);
            } else {
                assert(after[i + 1].0 == k);
            }
        }
    }
    assert forall|k: GridKey| item_table(after).contains_key(k) && k != added.0 implies item_table(
        after,
    )[k] == item_table(items)[k] by {
        let i = choose|i: int| 0 <= i < after.len() && (#[trigger] after[i]).0 == k;
        table_at(after, i);
        if i < pos {
            table_at(items, i);
        } else {
            table_at(items, i - 1);
        }
    }
    assert(item_table(after) =~= item_table(items).insert(added.0, added.1));
}

// ---------------------------------------------------------------------------------------------
// Rows
// ---------------------------------------------------------------------------------------------

/// A row of the database: its key and its value.
pub type Row = (Vec<u8>, Vec<u8>);

/// A row as plain values.
pub type RowView = (Seq<u8>, Seq<u8>);

/// Rows as plain values.
pub open spec fn rows_view(rows: Seq<Row>) -> Seq<RowView> {
    rows.map_values(|r: Row| (r.0@, r.1@))
}

/// The place in `bounds` of the bin of a phrase, looked for from place `at` on: it moves on as
/// long as the next boundary is not above the phrase.
pub open spec fn bin_place(bounds: Seq<PhraseId>, at: int, phrase: PhraseId) -> int
    decreases bounds.len() - at,
{
    if 0 <= at < bounds.len() - 1 && bounds[at + 1] <= phrase {
        bin_place(bounds, at + 1, phrase)
    } else {
        at
    }
}

/// The boundary at which the bin of a phrase starts and under which it is stored. Phrases below the
/// first boundary are in no bin.
pub open spec fn bin_of(bounds: Seq<PhraseId>, phrase: PhraseId) -> Option<PhraseId> {
    let place = bin_place(bounds, 0, phrase);
    if bounds.len() > 0 && bounds[place] <= phrase {
        Some(bounds[place])
    } else {
        None
    }
}

/// The number of leading items that belong to the bin of the first.
pub open spec fn run_length(bounds: Seq<PhraseId>, items: Seq<Item>) -> nat
    decreases items.len(),
{
    if items.len() == 0 {
        0
    } else if items.len() > 1 && bin_of(bounds, items[1].0.phrase_id) == bin_of(
        bounds,
        items[0].0.phrase_id,
    ) {
        1 + run_length(bounds, items.skip(1))
    } else {
        1
    }
}

/// The row of one phrase and language.
pub open spec fn single_row(item: Item) -> RowView {
    (db_key(TypeMarker::SinglePhrase, item.0), encoded_groups(listing(item.1)))
}

/// The rows of single phrases.
pub open spec fn single_rows(items: Seq<Item>) -> Seq<RowView> {
    items.map_values(|item: Item| single_row(item))
}

/// The languages that occur among the items.
pub open spec fn languages(items: Seq<Item>) -> Set<LanguageSet> {
    items.map_values(|item: Item| item.0.lang_set).to_set()
}

/// All entries of the items of a language, put together in order.
pub open spec fn aggregated(items: Seq<Item>, lang: LanguageSet) -> EntriesView
    decreases items.len(),
{
    if items.len() == 0 {
        Map::empty()
    } else if items.last().0.lang_set == lang {
        merged(aggregated(items.drop_last(), lang), items.last().1)
    } else {
        aggregated(items.drop_last(), lang)
    }
}

/// The row of a bin in one language.
pub open spec fn bin_row(bin: PhraseId, items: Seq<Item>, lang: LanguageSet) -> RowView {
    (
        db_key(TypeMarker::PrefixBin, GridKey { phrase_id: bin, lang_set: lang }),
        encoded_groups(listing(aggregated(items, lang))),
    )
}

/// The rows of a bin, one for each language.
pub open spec fn bin_rows(bin: Option<PhraseId>, items: Seq<Item>) -> Seq<RowView> {
    match bin {
        Some(b) => in_order(languages(items), num_u128()).map_values(
            |lang: LanguageSet| bin_row(b, items, lang),
        ),
        None => Seq::empty(),
    }
}

/// The rows of all items: bin by bin, first those of the phrases and then those of the bin.
pub open spec fn data_rows(bounds: Seq<PhraseId>, items: Seq<Item>) -> Seq<RowView>
    decreases items.len(),
{
    if items.len() == 0 {
        Seq::empty()
    } else {
        let n = run_length(bounds, items) as int;
        if 0 < n <= items.len() {
            let group = items.take(n);
            single_rows(group) + bin_rows(bin_of(bounds, items[0].0.phrase_id), group) + data_rows(
                bounds,
                items.skip(n),
            )
        } else {
            Seq::empty()
        }
    }
}

/// The rows of a whole database: those of the items, then the bin boundaries.
pub open spec fn all_rows(bounds: Seq<PhraseId>, items: Seq<Item>) -> Seq<RowView> {
    data_rows(bounds, items).push((bounds_key_bytes(), boundary_bytes(bounds)))
}

/// The stored forms of all phrases and of all bins can be read back.
pub open spec fn all_readable(bounds: Seq<PhraseId>, items: Seq<Item>) -> bool
    decreases items.len(),
{
    if items.len() == 0 {
        true
    } else {
        let n = run_length(bounds, items) as int;
        if 0 < n <= items.len() {
            let group = items.take(n);
            &&& forall|i: int| 0 <= i < n ==> readable((#[trigger] group[i]).1)
            &&& bin_of(bounds, items[0].0.phrase_id) is Some ==> forall|l: LanguageSet|
                languages(group).contains(l) ==> readable(#[trigger] aggregated(group, l))
            &&& all_readable(bounds, items.skip(n))
        } else {
            true
        }
    }
}

pub(crate) proof fn run_length_bounds(bounds: Seq<PhraseId>, items: Seq<Item>)
    ensures
        run_length(bounds, items) <= items.len(),
        items.len() > 0 ==> run_length(bounds, items) > 0,
    decreases items.len(),
{
    if items.len() > 0 {
        run_length_bounds(bounds, items.skip(1));
    }
}

pub(crate) proof fn bin_place_bounds(bounds: Seq<PhraseId>, at: int, phrase: PhraseId)
    requires
        0 <= at < bounds.len(),
    ensures
        at <= bin_place(bounds, at, phrase) < bounds.len(),
    decreases bounds.len() - at,
{
    if at < bounds.len() - 1 && bounds[at + 1] <= phrase {
        bin_place_bounds(bounds, at + 1, phrase);
    }
}

/// Looking for a bin may go on from the place of the bin of a lower phrase.
pub(crate) proof fn bin_place_resumes(bounds: Seq<PhraseId>, at: int, low: PhraseId, phrase: PhraseId)
    requires
        0 <= at < bounds.len(),
        low <= phrase,
    ensures
        bin_place(bounds, bin_place(bounds, at, low), phrase) == bin_place(bounds, at, phrase),
    decreases bounds.len() - at,
{
    if at < bounds.len() - 1 && bounds[at + 1] <= low {
        bin_place_resumes(bounds, at + 1, low, phrase);
    }
}

pub(crate) proof fn place_is_last(bounds: Seq<PhraseId>, at: int, phrase: PhraseId)
    requires
        0 <= at < bounds.len(),
        bounds[at] <= phrase,
    ensures
        bounds[bin_place(bounds, at, phrase)] <= phrase,
        bin_place(bounds, at, phrase) + 1 < bounds.len() ==> phrase < bounds[bin_place(
            bounds,
            at,
            phrase,
        ) + 1],
    decreases bounds.len() - at,
{
    if at < bounds.len() - 1 && bounds[at + 1] <= phrase {
        place_is_last(bounds, at + 1, phrase);
    }
}

/// The phrases between two boundaries that follow each other, in boundaries that ascend, belong to
/// the bin of the first of the two.
pub proof fn bins_take_their_phrases(bounds: Seq<PhraseId>, i: int, phrase: PhraseId)
    requires
        forall|a: int, b: int| 0 <= a < b < bounds.len() ==> bounds[a] < bounds[b],
        0 <= i < bounds.len(),
        bounds[i] <= phrase,
        i + 1 == bounds.len() || phrase < bounds[i + 1],
    ensures
        bin_of(bounds, phrase) == Some(bounds[i]),
{
    bins_take_from(bounds, 0, i, phrase);
}

proof fn bins_take_from(bounds: Seq<PhraseId>, at: int, i: int, phrase: PhraseId)
    requires
        forall|a: int, b: int| 0 <= a < b < bounds.len() ==> bounds[a] < bounds[b],
        0 <= at <= i < bounds.len(),
        i == 0 || bounds[i] <= phrase,
        i + 1 == bounds.len() || phrase < bounds[i + 1],
    ensures
        bin_place(bounds, at, phrase) == i,
    decreases i - at,
{
    if at < i {
        assert(bounds[at + 1] <= bounds[i]);
        bins_take_from(bounds, at + 1, i, phrase);
    }
}

/// What is gathered of a bin so far: each language that occurred, with its entries.
spec fn gathered(langs: Map<LanguageSet, BuilderEntry>, items: Seq<Item>) -> bool {
    &&& langs.dom() == languages(items)
    &&& forall|l: LanguageSet|
        langs.contains_key(l) ==> (#[trigger] langs[l])@ == aggregated(items, l)
}

pub(crate) proof fn languages_grow(items: Seq<Item>, item: Item)
    ensures
        languages(items.push(item)) == languages(items).insert(item.0.lang_set),
{
    let f = |item: Item| item.0.lang_set;
    assert(items.push(item).map_values(f) =~= items.map_values(f).push(item.0.lang_set));
    items.map_values(f).lemma_push_to_set_commute(item.0.lang_set);
}

proof fn aggregated_absent(items: Seq<Item>, lang: LanguageSet)
    requires
        !languages(items).contains(lang),
    ensures
        aggregated(items, lang) == Map::<u8, CoordsView>::empty(),
    decreases items.len(),
{
    if items.len() > 0 {
        assert(items =~= items.drop_last().push(items.last()));
        languages_grow(items.drop_last(), items.last());
        aggregated_absent(items.drop_last(), lang);
    }
}

fn gather(
    langs: &mut HashMap<LanguageSet, BuilderEntry>,
    key: &GridKey,
    value: &BuilderEntry,
    Ghost(items): Ghost<Seq<Item>>,
)
    requires
        gathered(old(langs)@, items),
    ensures
        gathered(final(langs)@, items.push((*key, value@))),
{
    let ghost lang = key.lang_set;
    let ghost before = langs@;
    let grouped_entry = langs.entry(key.lang_set).or_insert(BuilderEntry::new());
    proof {
        if !before.contains_key(lang) {
            aggregated_absent(items, lang);
        }
        assert(grouped_entry@ == aggregated(items, lang));
    }
    copy_entries(value, grouped_entry);
    proof {
        let now = items.push((*key, value@));
        assert(now.drop_last() =~= items);
        languages_grow(items, (*key, value@));
        assert(langs@.dom() =~= languages(now));
    }
}

/// The rows of what was gathered of a bin.
fn write_bin(
    rows: &mut Vec<Row>,
    bin: PhraseId,
    langs: &HashMap<LanguageSet, BuilderEntry>,
    Ghost(items): Ghost<Seq<Item>>,
) -> (r: Result<()>)
    requires
        gathered(langs@, items),
    ensures
        r is Ok,
        rows_view(final(rows)@) == rows_view(old(rows)@) + bin_rows(Some(bin), items),
        forall|l: LanguageSet|
            languages(items).contains(l) ==> readable(#[trigger] aggregated(items, l)),
{
    let order: Vec<u128> = wide_keys(langs);
    let ghost before = rows_view(rows@);
    let ghost want = bin_rows(Some(bin), items);
    let mut j: usize = 0;
    assert(rows_view(rows@) =~= before + want.take(0));
    while j < order.len()
        invariant
            j <= order@.len(),
            gathered(langs@, items),
            order@ == in_order(languages(items), num_u128()),
            order@.to_set() == langs@.dom(),
            want == bin_rows(Some(bin), items),
            rows_view(rows@) == before + want.take(j as int),
            forall|i: int| 0 <= i < j ==> readable(aggregated(items, #[trigger] order@[i])),
        decreases order@.len() - j,
    {
        let lang_set: u128 = order[j];
        proof {
            assert(order@.contains(lang_set));
            assert(order@.to_set().contains(lang_set));
        }
        let group_key = GridKey { phrase_id: bin, lang_set };
        let key: Vec<u8> = group_key.to_db_key(TypeMarker::PrefixBin);
        match langs.get(&lang_set) {
            Some(entry) => {
                let value: Vec<u8> = match GridStoreBuilder::serialize_value(entry) {
                    Ok(value) => value,
                    Err(e) => {
                        return Err(e);
                    },
                };
                let ghost had = rows@;
                rows.push((key, value));
                assert(rows_view(rows@) =~= rows_view(had).push(bin_row(bin, items, lang_set)));
            },
            None => {},
        }
        j += 1;
        assert(want.take(j as int) =~= want.take(j - 1).push(want[j - 1]));
        assert(rows_view(rows@) =~= before + want.take(j as int));
    }
    proof {
        assert(want.take(j as int) =~= want);
        assert forall|l: LanguageSet| languages(items).contains(l) implies readable(
            #[trigger] aggregated(items, l),
        ) by {
            assert(order@.to_set().contains(l));
            let i = choose|i: int| 0 <= i < order@.len() && order@[i] == l;
            assert(readable(aggregated(items, order@[i])));
        }
    }
    Ok(())
}

impl GridStoreBuilder {
    /// Finalizes the store: the rows of the database, in the order in which they are to be put.
    /// Where two rows have the same key, the later one counts.
    ///
    /// The phrases are gathered into bins; each bin becomes the rows of its phrases and one
    /// aggregated row for each of its languages. The last row holds the bin boundaries.
    ///
    /// The greatest phrase identifier is the end of the last bin and can not be used.
    pub fn finish(self) -> (r: Result<Vec<Row>>)
        requires
            self.wf(),
            forall|i: int|
                0 <= i < self.items().len() ==> (#[trigger] self.items()[i]).0.phrase_id
                    < u32::MAX,
        ensures
            r is Ok,
            rows_view(r->Ok_0@) == all_rows(self.bin_boundaries@, self.items()),
            all_readable(self.bin_boundaries@, self.items()),
    {
        let ghost bounds = self.bin_boundaries@;
        let ghost items = self.items();
        let mut rows: Vec<Row> = Vec::new();
        let mut place: usize = 0;
        let mut i: usize = 0;
        assert(rows_view(rows@) =~= Seq::empty());
        assert(items.skip(0) =~= items);
        while i < self.data.len()
            invariant
                i <= self.data@.len(),
                bounds == self.bin_boundaries@,
                items == self.items(),
                keys_ascend(items),
                rows_view(rows@) + data_rows(bounds, items.skip(i as int)) == data_rows(
                    bounds,
                    items,
                ),
                all_readable(bounds, items.skip(i as int)) ==> all_readable(bounds, items),
                bounds.len() > 0 ==> place < bounds.len() && (if i == 0 {
                    place == 0
                } else {
                    place == bin_place(bounds, 0, items[i - 1].0.phrase_id)
                }),
            decreases self.data@.len() - i,
        {
            let ghost start = i as int;
            let ghost rest = items.skip(start);
            let ghost before = rows_view(rows@);
            let ghost n = run_length(bounds, rest) as int;
            proof {
                run_length_bounds(bounds, rest);
            }
            let group_id: Option<PhraseId> = self.next_bin(&mut place, i);
            let mut langs: HashMap<LanguageSet, BuilderEntry> = HashMap::new();
            let mut more: bool = true;
            proof {
                assert(rest.take(0) =~= Seq::empty());
                assert(single_rows(rest.take(0)) =~= Seq::empty());
                assert(before + Seq::<RowView>::empty() =~= before);
                assert(languages(rest.take(0)) =~= Set::empty());
                assert(langs@.dom() =~= Set::empty());
            }
            while more
                invariant
                    start <= i <= self.data@.len(),
                    start < self.data@.len(),
                    more ==> i < self.data@.len(),
                    self.data@.len() <= usize::MAX,
                    i > start || more,
                    bounds == self.bin_boundaries@,
                    items == self.items(),
                    keys_ascend(items),
                    rest == items.skip(start),
                    0 <= start,
                    gathered(langs@, rest.take(i - start)),
                    forall|k: int| 0 <= k < i - start ==> readable((#[trigger] rest[k]).1),
                    rows_view(rows@) == before + single_rows(rest.take(i - start)),
                    n == run_length(bounds, rest),
                    more ==> n == i - start + run_length(bounds, items.skip(i as int)),
                    !more ==> n == i - start,
                    group_id == bin_of(bounds, items[start].0.phrase_id),
                    more ==> group_id == bin_of(bounds, items[i as int].0.phrase_id),
                    bounds.len() > 0 ==> place < bounds.len() && place == bin_place(
                        bounds,
                        0,
                        items[if more { i as int } else { i - 1 }].0.phrase_id,
                    ),
                decreases self.data@.len() - i,
            {
                let ghost k = i - start;
                let key: GridKey = self.data[i].0;
                let db_key_bytes: Vec<u8> = key.to_db_key(TypeMarker::SinglePhrase);
                let db_value: Vec<u8> = match Self::serialize_value(&self.data[i].1) {
                    Ok(value) => value,
                    Err(e) => {
                        return Err(e);
                    },
                };
                let ghost had = rows@;
                rows.push((db_key_bytes, db_value));
                gather(&mut langs, &key, &self.data[i].1, Ghost(rest.take(k)));
                proof {
                    let item = items[i as int];
                    assert(rest[k] == item);
                    assert(rest.take(k + 1) =~= rest.take(k).push(item));
                    assert(single_rows(rest.take(k + 1)) =~= single_rows(rest.take(k)).push(
                        single_row(item),
                    ));
                    assert(rows_view(rows@) =~= rows_view(had).push(single_row(item)));
                    assert(rows_view(rows@) =~= before + single_rows(rest.take(k + 1)));
                }
                let ghost here = items.skip(i as int);
                i += 1;
                proof {
                    assert(here.skip(1) =~= items.skip(i as int));
                }
                if i < self.data.len() {
                    let ghost had_place = place;
                    let mut ahead: usize = place;
                    let next: Option<PhraseId> = self.next_bin(&mut ahead, i);
                    proof {
                        assert(here[1] == items[i as int] && here[0] == items[i - 1]);
                    }
                    if next == group_id {
                        place = ahead;
                    } else {
                        more = false;
                    }
                } else {
                    more = false;
                }
            }
            if let Some(bin) = group_id {
                match write_bin(&mut rows, bin, &langs, Ghost(rest.take(n))) {
                    Ok(_) => {},
                    Err(e) => {
                        return Err(e);
                    },
                }
            } else {
                assert(rows_view(rows@) =~= rows_view(rows@) + bin_rows(None, rest.take(n)));
            }
            proof {
                assert(rest.skip(n) =~= items.skip(i as int));
                let group = rest.take(n);
                assert(rest[0] == items[start]);
                assert forall|k: int| 0 <= k < n implies readable((#[trigger] group[k]).1) by {
                    assert(group[k] == rest[k]);
                }
                assert(rows_view(rows@) =~= before + (single_rows(group) + bin_rows(
                    group_id,
                    group,
                )));
                assert(data_rows(bounds, rest) == single_rows(group) + bin_rows(group_id, group)
                    + data_rows(bounds, rest.skip(n)));
                assert(rows_view(rows@) + data_rows(bounds, rest.skip(n)) =~= before + data_rows(
                    bounds,
                    rest,
                ));
            }
        }
        proof {
            assert(items.skip(i as int) =~= Seq::empty());
            assert(rows_view(rows@) + Seq::<RowView>::empty() =~= rows_view(rows@));
        }
        let ghost had = rows@;
        rows.push((bounds_key(), encode_boundaries(&self.bin_boundaries)));
        proof {
            assert(rows_view(rows@) =~= rows_view(had).push(
                (bounds_key_bytes(), boundary_bytes(bounds)),
            ));
        }
        Ok(rows)
    }

    /// The bin of the item at `i`, looked for from `place` on.
    fn next_bin(&self, place: &mut usize, i: usize) -> (bin: Option<PhraseId>)
        requires
            self.wf(),
            i < self.data@.len(),
            self.bin_boundaries@.len() > 0 ==> *old(place) < self.bin_boundaries@.len() && (if i
                == 0 {
                *old(place) == 0
            } else {
                *old(place) == bin_place(
                    self.bin_boundaries@,
                    0,
                    self.items()[i - 1].0.phrase_id,
                )
            }),
        ensures
            bin == bin_of(self.bin_boundaries@, self.items()[i as int].0.phrase_id),
            self.bin_boundaries@.len() > 0 ==> *final(place) < self.bin_boundaries@.len()
                && *final(place) == bin_place(
                self.bin_boundaries@,
                0,
                self.items()[i as int].0.phrase_id,
            ),
    {
        let ghost bounds = self.bin_boundaries@;
        let phrase: PhraseId = self.data[i].0.phrase_id;
        if self.bin_boundaries.len() == 0 {
            return None;
        }
        proof {
            let items = self.items();
            if i > 0 {
                assert(key_lt(items[i - 1].0, items[i as int].0));
                bin_place_resumes(bounds, 0, items[i - 1].0.phrase_id, phrase);
            }
        }
        let last: usize = self.bin_boundaries.len() - 1;
        while *place < last && self.bin_boundaries[*place + 1] <= phrase
            invariant
                bounds == self.bin_boundaries@,
                last == bounds.len() - 1,
                *place < bounds.len(),
                bin_place(bounds, *place as int, phrase) == bin_place(bounds, 0, phrase),
            decreases last - *place,
        {
            *place = *place + 1;
        }
        if self.bin_boundaries[*place] <= phrase {
            Some(self.bin_boundaries[*place])
        } else {
            None
        }
    }
}

} // verus!
