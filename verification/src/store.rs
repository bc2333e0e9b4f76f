//! Read-only interface for querying grid store indexes.
//!
//! Use `GridStore` at query time to retrieve spatial phrase data.
//! See `GridStoreBuilder` for creating indexes.

use std::collections::HashSet;
use vstd::multiset::Multiset;
use vstd::prelude::*;

use crate::builder::{rows_view, Row, RowView};
use crate::common::{
    boundaries_of, bounds_key, bounds_key_bytes, bytes_before, bytes_lt, bytes_lt_total,
    bytes_lt_transitive, db_key, decode_boundaries, first_phrase, key_has_head, key_matches,
    language_matches, marker_byte, GridEntry, GridKey, MatchKey, MatchOpts, MatchPhrase, PhraseId,
    TypeMarker, MAX_DB_KEY_SIZE,
};
use crate::decode::{
    all_entries, decode_matching_value, decode_value, flattened, is_matches, meter_of, MatchEntry,
    Meter,
};
use crate::error::{Result, StorageError};
use crate::outside::{be_bytes, decoded_groups, RankHeap};
use crate::rank::{
    highest, highest_is_unique, is_highest, is_lowest, lowest, lowest_is_unique, rank_below,
    ranks_below, RankKey,
};
use crate::spatial::{
    all_edges, global_bbox_for_zoom, global_edges, is_scale, Measure, OptsView,
};

verus! {

broadcast use vstd::std_specs::hash::group_hash_axioms;

/// Default zoom level for GridStore (low detail)
pub const DEFAULT_STORE_ZOOM: u16 = 6;

/// Default radius (no proximity search)
pub const DEFAULT_COALESCE_RADIUS: u64 = 0;

/// From which zoom level on an index has so many tiles that a range query on it may be slow.
pub const HIGH_ZOOM: u16 = 14;

// ---------------------------------------------------------------------------------------------
// Rows
// ---------------------------------------------------------------------------------------------

/// The keys of the rows are in order, each once.
pub open spec fn rows_ascend(rows: Seq<RowView>) -> bool {
    forall|i: int, j: int|
        0 <= i < j < rows.len() ==> bytes_lt((#[trigger] rows[i]).0, (#[trigger] rows[j]).0)
}

/// The rows have a row with the key.
pub open spec fn has_row(rows: Seq<RowView>, key: Seq<u8>) -> bool {
    exists|i: int| 0 <= i < rows.len() && (#[trigger] rows[i]).0 == key
}

/// The value of the row with the key, if there is one.
pub open spec fn row_value(rows: Seq<RowView>, key: Seq<u8>) -> Option<Seq<u8>> {
    if has_row(rows, key) {
        Some(rows[choose|i: int| 0 <= i < rows.len() && (#[trigger] rows[i]).0 == key].1)
    } else {
        None
    }
}

/// The number of leading rows with keys before `key`.
pub open spec fn rows_before(rows: Seq<RowView>, key: Seq<u8>) -> nat
    decreases rows.len(),
{
    if rows.len() > 0 && bytes_lt(rows[0].0, key) {
        1 + rows_before(rows.skip(1), key)
    } else {
        0
    }
}

/// The leading rows under the marker with phrases that the query asks for.
pub open spec fn matching_run(rows: Seq<RowView>, query: MatchKey, marker: TypeMarker) -> Seq<
    RowView,
>
    decreases rows.len(),
{
    if rows.len() > 0 && key_has_head(rows[0].0) && key_matches(query, marker, rows[0].0) {
        seq![rows[0]] + matching_run(rows.skip(1), query, marker)
    } else {
        Seq::empty()
    }
}

/// The rows that a scan for the query goes through: from where its first phrase would stand, as
/// long as the rows match.
pub open spec fn scanned(rows: Seq<RowView>, query: MatchKey, marker: TypeMarker) -> Seq<RowView> {
    let start = seq![marker_byte(marker)] + be_bytes(first_phrase(query.match_phrase));
    matching_run(rows.skip(rows_before(rows, start) as int), query, marker)
}

proof fn rows_before_is(rows: Seq<RowView>, key: Seq<u8>, n: int)
    requires
        0 <= n <= rows.len(),
        forall|i: int| 0 <= i < n ==> bytes_lt((#[trigger] rows[i]).0, key),
        n < rows.len() ==> !bytes_lt(rows[n].0, key),
    ensures
        rows_before(rows, key) == n,
    decreases n,
{
    if n > 0 {
        let rest = rows.skip(1);
        assert(bytes_lt(rows[0].0, key));
        assert forall|i: int| 0 <= i < n - 1 implies bytes_lt((#[trigger] rest[i]).0, key) by {
            assert(rest[i] == rows[i + 1]);
        }
        rows_before_is(rest, key, n - 1);
    }
}

pub(crate) proof fn row_value_at(rows: Seq<RowView>, i: int)
    requires
        rows_ascend(rows),
        0 <= i < rows.len(),
    ensures
        row_value(rows, rows[i].0) == Some(rows[i].1),
{
    let key = rows[i].0;
    assert(has_row(rows, key));
    let j = choose|j: int| 0 <= j < rows.len() && (#[trigger] rows[j]).0 == key;
    bytes_lt_total(rows[i].0, rows[j].0);
    if i < j {
        assert(bytes_lt(rows[i].0, rows[j].0));
    } else if j < i {
        assert(bytes_lt(rows[j].0, rows[i].0));
    }
}

/// Where the first row with a key not before `key` stands.
fn find_row(rows: &Vec<Row>, key: &Vec<u8>) -> (at: usize)
    requires
        rows_ascend(rows_view(rows@)),
    ensures
        at == rows_before(rows_view(rows@), key@),
        at <= rows@.len(),
        forall|i: int| 0 <= i < at ==> bytes_lt((#[trigger] rows@[i]).0@, key@),
        forall|i: int| at <= i < rows@.len() ==> !bytes_lt((#[trigger] rows@[i]).0@, key@),
{
    let ghost v = rows_view(rows@);
    let mut low: usize = 0;
    let mut high: usize = rows.len();
    while low < high
        invariant
            low <= high <= rows@.len(),
            v == rows_view(rows@),
            rows_ascend(v),
            forall|i: int| 0 <= i < low ==> bytes_lt((#[trigger] rows@[i]).0@, key@),
            forall|i: int| high <= i < rows@.len() ==> !bytes_lt((#[trigger] rows@[i]).0@, key@),
        decreases high - low,
    {
        let mid: usize = low + (high - low) / 2;
        if bytes_before(&rows[mid].0, key) {
            proof {
                assert forall|i: int| 0 <= i < mid + 1 implies bytes_lt(
                    (#[trigger] rows@[i]).0@,
                    key@,
                ) by {
                    if i < mid {
                        assert(bytes_lt(v[i].0, v[mid as int].0));
                        bytes_lt_transitive(v[i].0, v[mid as int].0, key@);
                    }
                }
            }
            low = mid + 1;
        } else {
            proof {
                assert forall|i: int| mid <= i < rows@.len() implies !bytes_lt(
                    (#[trigger] rows@[i]).0@,
                    key@,
                ) by {
                    if i > mid && bytes_lt(rows@[i].0@, key@) {
                        assert(bytes_lt(v[mid as int].0, v[i].0));
                        bytes_lt_transitive(v[mid as int].0, v[i].0, key@);
                    }
                }
            }
            high = mid;
        }
    }
    proof {
        assert forall|i: int| 0 <= i < low implies bytes_lt((#[trigger] v[i]).0, key@) by {
            assert(bytes_lt(rows@[i].0@, key@));
        }
        rows_before_is(v, key@, low as int);
    }
    low
}

/// The row with the key, if there is one.
fn get_row<'a>(rows: &'a Vec<Row>, key: &Vec<u8>) -> (value: Option<&'a Vec<u8>>)
    requires
        rows_ascend(rows_view(rows@)),
    ensures
        match value {
            Some(bytes) => row_value(rows_view(rows@), key@) == Some(bytes@),
            None => row_value(rows_view(rows@), key@) is None,
        },
{
    let ghost v = rows_view(rows@);
    let at: usize = find_row(rows, key);
    proof {
        assert forall|i: int| 0 <= i < v.len() && (#[trigger] v[i]).0 == key@ implies i == at by {
            bytes_lt_total(v[i].0, key@);
            assert(v[i].0 == rows@[i].0@);
            if i > at {
                assert(bytes_lt(v[at as int].0, v[i].0));
                assert(v[at as int].0 == rows@[at as int].0@);
            }
        }
    }
    if at < rows.len() && !bytes_before(key, &rows[at].0) {
        proof {
            bytes_lt_total(rows@[at as int].0@, key@);
            assert(v[at as int].0 == key@);
            row_value_at(v, at as int);
        }
        Some(&rows[at].1)
    } else {
        proof {
            if at < v.len() {
                bytes_lt_total(v[at as int].0, key@);
            }
        }
        None
    }
}

// ---------------------------------------------------------------------------------------------
// Store
// ---------------------------------------------------------------------------------------------

/// Read-only interface to the rows of a grid store database.
pub struct GridStore {
    /// The rows in the order of their keys
    pub rows: Vec<Row>,
    /// Bin boundaries for prefix bin optimization: the phrases at which prefix bins start.
    /// Empty if no prefix bins were created during indexing.
    pub bin_boundaries: HashSet<PhraseId>,
    /// Zoom level of the index
    pub zoom: u16,
    /// Type of the index (streets, cities, countries, ...)
    pub type_id: u16,
    /// Radius within which entries count as near the proximity point
    pub coalesce_radius: u64,
    /// The boxes that hold all entries of the index
    pub bboxes: Vec<[u16; 4]>,
    /// The highest score in the index
    pub max_score: u64,
}

impl GridStore {
    /// The rows as plain values.
    pub open spec fn table(self) -> Seq<RowView> {
        rows_view(self.rows@)
    }

    /// The rows are in order, and the bin boundaries are those of the boundary row.
    pub open spec fn wf(self) -> bool {
        &&& rows_ascend(self.table())
        &&& self.bin_boundaries@ == stored_boundaries(self.table())
    }
}

/// The bin boundaries that the rows hold, none if they hold none.
pub open spec fn stored_boundaries(rows: Seq<RowView>) -> Set<PhraseId> {
    match row_value(rows, bounds_key_bytes()) {
        Some(bytes) => boundaries_of(bytes).to_set(),
        None => Set::empty(),
    }
}

fn check_order(rows: &Vec<Row>) -> (r: bool)
    ensures
        r == rows_ascend(rows_view(rows@)),
{
    let ghost v = rows_view(rows@);
    if rows.len() == 0 {
        return true;
    }
    let mut i: usize = 1;
    while i < rows.len()
        invariant
            1 <= i <= rows@.len(),
            v == rows_view(rows@),
            forall|a: int, b: int|
                0 <= a < b < i ==> bytes_lt((#[trigger] v[a]).0, (#[trigger] v[b]).0),
        decreases rows@.len() - i,
    {
        if !bytes_before(&rows[i - 1].0, &rows[i].0) {
            assert(!bytes_lt(v[i - 1].0, v[i as int].0));
            return false;
        }
        proof {
            assert(bytes_lt(v[i - 1].0, v[i as int].0));
            assert forall|a: int, b: int| 0 <= a < b < i + 1 implies bytes_lt(
                (#[trigger] v[a]).0,
                (#[trigger] v[b]).0,
            ) by {
                if b == i && a < i - 1 {
                    bytes_lt_transitive(v[a].0, v[i - 1].0, v[i as int].0);
                }
            }
        }
        i += 1;
    }
    true
}

/// The phrases of a list as a set.
fn phrase_set(phrases: &Vec<PhraseId>) -> (set: HashSet<PhraseId>)
    ensures
        set@ == phrases@.to_set(),
{
    let mut set: HashSet<PhraseId> = HashSet::new();
    let mut i: usize = 0;
    assert(set@ =~= phrases@.take(0).to_set());
    while i < phrases.len()
        invariant
            i <= phrases@.len(),
            set@ == phrases@.take(i as int).to_set(),
        decreases phrases@.len() - i,
    {
        set.insert(phrases[i]);
        i += 1;
        proof {
            let before = phrases@.take(i - 1);
            assert(phrases@.take(i as int) =~= before.push(phrases@[i - 1]));
            before.lemma_push_to_set_commute(phrases@[i - 1]);
        }
    }
    assert(phrases@.take(i as int) =~= phrases@);
    set
}

impl GridStore {
    /// A store with default options over the rows of a database, which come in the order of their
    /// keys.
    pub fn new(rows: Vec<Row>) -> (r: Result<Self>)
        ensures
            r is Ok <==> rows_ascend(rows_view(rows@)),
            r is Ok ==> r->Ok_0.wf() && r->Ok_0.table() == rows_view(rows@) && r->Ok_0.zoom
                == DEFAULT_STORE_ZOOM && r->Ok_0.type_id == 0 && r->Ok_0.coalesce_radius
                == DEFAULT_COALESCE_RADIUS && all_edges(r->Ok_0.bboxes@) == seq![
                global_edges(DEFAULT_STORE_ZOOM),
            ] && r->Ok_0.max_score == 0,
            r is Err ==> r->Err_0 is InvalidData,
    {
        Self::new_with_options(
            rows,
            DEFAULT_STORE_ZOOM,
            0,
            DEFAULT_COALESCE_RADIUS,
            global_bbox_for_zoom(DEFAULT_STORE_ZOOM),
            0,
        )
    }

    /// A store over the rows of a database, which come in the order of their keys. Rows that do not
    /// are an error.
    pub fn new_with_options(
        rows: Vec<Row>,
        zoom: u16,
        type_id: u16,
        coalesce_radius: u64,
        bboxes: Vec<[u16; 4]>,
        max_score: u64,
    ) -> (r: Result<Self>)
        ensures
            r is Ok <==> rows_ascend(rows_view(rows@)),
            r is Ok ==> r->Ok_0.wf() && r->Ok_0.table() == rows_view(rows@) && r->Ok_0.zoom == zoom
                && r->Ok_0.type_id == type_id && r->Ok_0.coalesce_radius == coalesce_radius
                && r->Ok_0.bboxes@ == bboxes@ && r->Ok_0.max_score == max_score,
            r is Err ==> r->Err_0 is InvalidData,
    {
        if !check_order(&rows) {
            return Err(StorageError::InvalidData("database rows out of order".to_owned()));
        }
        let bin_boundaries: HashSet<PhraseId> = match get_row(&rows, &bounds_key()) {
            Some(entry) => phrase_set(&decode_boundaries(entry)),
            None => HashSet::new(),
        };
        assert(bin_boundaries@ =~= stored_boundaries(rows_view(rows@)));
        Ok(GridStore { rows, bin_boundaries, zoom, type_id, coalesce_radius, bboxes, max_score })
    }

    /// Whether range queries on the index may be slow: it is at a high zoom level.
    pub fn might_be_slow(&self) -> (r: bool)
        ensures
            r == (self.zoom >= HIGH_ZOOM),
    {
        self.zoom >= HIGH_ZOOM
    }

    /// The entries of a phrase and language, if it is stored.
    pub fn get(&self, key: &GridKey) -> (r: Result<Option<Vec<GridEntry>>>)
        requires
            self.wf(),
        ensures
            match row_value(self.table(), db_key(TypeMarker::SinglePhrase, *key)) {
                None => r is Ok && r->Ok_0 is None,
                Some(bytes) => match decoded_groups(bytes) {
                    Ok(groups) => r is Ok && r->Ok_0 is Some && r->Ok_0->Some_0@ == all_entries(
                        flattened(groups),
                    ),
                    Err(text) => r is Err && r->Err_0 is Serialization
                        && r->Err_0->Serialization_0@ == text,
                },
            },
    {
        let db_key_bytes: Vec<u8> = key.to_db_key(TypeMarker::SinglePhrase);
        match get_row(&self.rows, &db_key_bytes) {
            Some(value) => match decode_value(value) {
                Ok(entries) => Ok(Some(entries)),
                Err(e) => Err(e),
            },
            None => Ok(None),
        }
    }
}

// ---------------------------------------------------------------------------------------------
// Queries
// ---------------------------------------------------------------------------------------------

/// What a query fetches: a range of phrases under a marker. Prefix bins are fetched where the
/// range begins and ends at bin boundaries.
pub open spec fn fetch_plan(query: MatchKey, boundaries: Set<PhraseId>) -> (MatchKey, TypeMarker) {
    match query.match_phrase {
        MatchPhrase::Exact(id) => (
            MatchKey {
                match_phrase: MatchPhrase::Range { start: id, end: (id + 1) as u32 },
                lang_set: query.lang_set,
            },
            TypeMarker::SinglePhrase,
        ),
        MatchPhrase::Range { start, end } => (
            query,
            if boundaries.contains(start) && boundaries.contains(end) {
                TypeMarker::PrefixBin
            } else {
                TypeMarker::SinglePhrase
            },
        ),
    }
}

/// `out` holds the matches of a row. A row that can not be read has none.
pub open spec fn is_row_matches(
    row: RowView,
    query: MatchKey,
    opts: OptsView,
    meter: Meter,
    out: Seq<MatchEntry>,
) -> bool {
    if row.0.len() > MAX_DB_KEY_SIZE {
        out.len() == 0
    } else {
        match decoded_groups(row.1) {
            Ok(groups) => is_matches(
                flattened(groups),
                opts,
                meter,
                language_matches(query, row.0),
                out,
            ),
            Err(_) => out.len() == 0,
        }
    }
}

/// The rank of an entry: by relevance, then by score and distance, then whether its language
/// matches, then by coordinate and feature.
pub open spec fn match_rank(e: MatchEntry, slot: int) -> RankKey {
    (
        e.grid_entry.relev as i128,
        e.scoredist,
        if e.matches_language {
            1
        } else {
            0
        },
        e.grid_entry.x,
        e.grid_entry.y,
        e.grid_entry.id,
        slot as usize,
    )
}

fn rank_match(e: &MatchEntry, slot: usize) -> (k: RankKey)
    ensures
        k == match_rank(*e, slot as int),
{
    let lang: u64 = if e.matches_language {
        1
    } else {
        0
    };
    (
        e.grid_entry.relev as i128,
        e.scoredist,
        lang,
        e.grid_entry.x,
        e.grid_entry.y,
        e.grid_entry.id,
        slot,
    )
}

/// A queue of at most `max` keys with one more key: a full queue gives up its lowest key for one
/// that ranks above it, and keeps what it has otherwise.
pub open spec fn offered(queue: Multiset<RankKey>, key: RankKey, max: nat) -> Multiset<RankKey> {
    if queue.len() < max {
        queue.insert(key)
    } else if queue.len() > 0 && rank_below(lowest(queue), key) {
        queue.remove(lowest(queue)).insert(key)
    } else {
        queue
    }
}

/// The queue after the first matches of the first `n` lists were offered to it.
pub open spec fn filled(lists: Seq<Seq<MatchEntry>>, n: int, max: nat) -> Multiset<RankKey>
    decreases n,
{
    if n <= 0 {
        Multiset::empty()
    } else {
        let before = filled(lists, n - 1, max);
        if lists[n - 1].len() == 0 {
            before
        } else {
            offered(before, match_rank(lists[n - 1][0], n - 1), max)
        }
    }
}

/// The queue after its highest key, of the list `slot`, left it: the match after the one at `at`
/// takes its place, if the list has one.
pub open spec fn advanced(
    lists: Seq<Seq<MatchEntry>>,
    queue: Multiset<RankKey>,
    slot: int,
    at: int,
) -> Multiset<RankKey> {
    if at + 1 < lists[slot].len() {
        queue.remove(highest(queue)).insert(match_rank(lists[slot][at + 1], slot))
    } else {
        queue.remove(highest(queue))
    }
}

/// What leaves the queue: `count` times the match with the highest key, which its list's next
/// match then takes the place of. `next` tells how far each list has come.
pub open spec fn drained(
    lists: Seq<Seq<MatchEntry>>,
    queue: Multiset<RankKey>,
    next: Seq<int>,
    count: nat,
) -> Seq<MatchEntry>
    decreases count,
{
    if count == 0 || queue.len() == 0 {
        Seq::empty()
    } else {
        let slot = highest(queue).6 as int;
        let at = next[slot];
        seq![lists[slot][at]] + drained(
            lists,
            advanced(lists, queue, slot, at),
            next.update(slot, at + 1),
            (count - 1) as nat,
        )
    }
}

/// The best `max` matches of the lists: the lists merged by rank, as far as their first matches are
/// among the best.
pub open spec fn best_matches(lists: Seq<Seq<MatchEntry>>, max: nat) -> Seq<MatchEntry> {
    drained(
        lists,
        filled(lists, lists.len() as int, max),
        Seq::new(lists.len(), |i: int| 0int),
        max,
    )
}

/// The lists hold the matches of the rows, row by row.
pub open spec fn are_row_matches(
    lists: Seq<Seq<MatchEntry>>,
    rows: Seq<RowView>,
    query: MatchKey,
    opts: OptsView,
    meter: Meter,
) -> bool {
    lists.len() == rows.len() && forall|i: int|
        0 <= i < rows.len() ==> is_row_matches(rows[i], query, opts, meter, #[trigger] lists[i])
}

/// `out` answers a query on a store.
pub open spec fn answers_query(
    store: GridStore,
    query: MatchKey,
    opts: OptsView,
    meter: Meter,
    max: nat,
    out: Seq<MatchEntry>,
) -> bool {
    let (range, marker) = fetch_plan(query, store.bin_boundaries@);
    exists|lists: Seq<Seq<MatchEntry>>| #[trigger]
        are_row_matches(lists, scanned(store.table(), range, marker), range, opts, meter) && out
            == best_matches(lists, max)
}

/// Each list that has a key in the queue has one, and it is that of its next match.
pub open spec fn queue_ok(
    queue: Multiset<RankKey>,
    lists: Seq<Seq<MatchEntry>>,
    next: Seq<int>,
    slots: int,
) -> bool {
    &&& 0 <= slots <= lists.len() <= usize::MAX
    &&& next.len() == lists.len()
    &&& forall|k: RankKey| #[trigger]
        queue.count(k) > 0 ==> queue.count(k) == 1 && k.6 < slots && 0 <= next[k.6 as int]
            < lists[k.6 as int].len() && k == match_rank(
            lists[k.6 as int][next[k.6 as int]],
            k.6 as int,
        )
}

spec fn lists_view(lists: Seq<Vec<MatchEntry>>) -> Seq<Seq<MatchEntry>> {
    lists.map_values(|l: Vec<MatchEntry>| l@)
}

fn first_matches(lists: &Vec<Vec<MatchEntry>>, max_values: usize) -> (queue: RankHeap)
    ensures
        queue@ == filled(lists_view(lists@), lists@.len() as int, max_values as nat),
        queue_ok(
            queue@,
            lists_view(lists@),
            Seq::new(lists@.len(), |i: int| 0int),
            lists@.len() as int,
        ),
{
    let ghost v = lists_view(lists@);
    let ghost zeros = Seq::new(lists@.len(), |i: int| 0int);
    let mut queue: RankHeap = RankHeap::new();
    let mut i: usize = 0;
    let n: usize = lists.len();
    while i < n
        invariant
            i <= n == lists@.len(),
            v == lists_view(lists@),
            zeros == Seq::new(lists@.len(), |i: int| 0int),
            queue@ == filled(v, i as int, max_values as nat),
            queue_ok(queue@, v, zeros, i as int),
        decreases n - i,
    {
        let ghost before = queue@;
        if lists[i].len() > 0 {
            let key: RankKey = rank_match(&lists[i][0], i);
            assert(before.count(key) == 0);
            if queue.len() >= max_values {
                match queue.min() {
                    Some(worst) => {
                        proof {
                            assert(is_lowest(before, worst));
                            lowest_is_unique(before, worst);
                        }
                        if ranks_below(&worst, &key) {
                            let popped = queue.pop_min();
                            proof {
                                vstd::multiset::lemma_multiset_empty_len(before);
                                assert(before.count(worst) > 0);
                                lowest_is_unique(before, popped->Some_0);
                            }
                            queue.push(key);
                        }
                    },
                    None => {},
                }
            } else {
                queue.push(key);
            }
        }
        i += 1;
    }
    queue
}

fn merge_matches(lists: &Vec<Vec<MatchEntry>>, max_values: usize) -> (out: Vec<MatchEntry>)
    ensures
        out@ == best_matches(lists_view(lists@), max_values as nat),
{
    let ghost v = lists_view(lists@);
    let n: usize = lists.len();
    let mut queue: RankHeap = first_matches(lists, max_values);
    let mut next: Vec<usize> = Vec::new();
    let mut i: usize = 0;
    while i < n
        invariant
            i <= n,
            next@.len() == i,
            forall|j: int| 0 <= j < i ==> next@[j] == 0,
        decreases n - i,
    {
        next.push(0);
        i += 1;
    }
    let ghost spots = next@.map_values(|a: usize| a as int);
    let mut out: Vec<MatchEntry> = Vec::new();
    proof {
        assert(spots =~= Seq::new(n as nat, |i: int| 0int));
        assert(out@ + best_matches(v, max_values as nat) =~= best_matches(v, max_values as nat));
    }
    let mut left: usize = max_values;
    while left > 0
        invariant
            n == lists@.len(),
            v == lists_view(lists@),
            spots == next@.map_values(|a: usize| a as int),
            queue_ok(queue@, v, spots, n as int),
            out@ + drained(v, queue@, spots, left as nat) == best_matches(v, max_values as nat),
        decreases left,
    {
        let ghost before = queue@;
        match queue.pop_max() {
            Some(key) => {
                let slot: usize = key.6;
                proof {
                    assert(before.count(key) > 0);
                    assert(is_highest(before, key));
                    highest_is_unique(before, key);
                    assert(before.len() > 0);
                    assert(spots[slot as int] == next@[slot as int]);
                    assert(v[slot as int] == lists@[slot as int]@);
                }
                let at: usize = next[slot];
                let size: usize = lists[slot].len();
                let result: MatchEntry = lists[slot][at];
                let ghost old_spots = spots;
                out.push(result);
                left -= 1;
                next.set(slot, at + 1);
                proof {
                    spots = next@.map_values(|a: usize| a as int);
                    assert(spots =~= old_spots.update(slot as int, at + 1));
                }
                if at + 1 < size {
                    let key2: RankKey = rank_match(&lists[slot][at + 1], slot);
                    assert(queue@.count(key2) == 0) by {
                        if queue@.count(key2) > 0 {
                            assert(before.count(key2) > 0);
                        }
                    }
                    queue.push(key2);
                }
                proof {
                    assert(queue@ =~= advanced(v, before, slot as int, at as int));
                    assert(queue_ok(queue@, v, spots, n as int)) by {
                        assert forall|k: RankKey| #[trigger] queue@.count(k) > 0 implies queue@.count(
                            k,
                        ) == 1 && k.6 < n && 0 <= spots[k.6 as int] < v[k.6 as int].len() && k
                            == match_rank(v[k.6 as int][spots[k.6 as int]], k.6 as int) by {
                            if k.6 != slot {
                                assert(before.count(k) > 0);
                            } else {
                                assert(before.count(k) == 0 || k == key);
                            }
                        }
                    }
                    assert((out@.drop_last() + (seq![result] + drained(
                        v,
                        queue@,
                        spots,
                        left as nat,
                    ))) =~= out@ + drained(v, queue@, spots, left as nat));
                    assert(out@.drop_last() + seq![result] =~= out@);
                }
            },
            None => {
                assert(out@ + Seq::<MatchEntry>::empty() =~= out@);
                return out;
            },
        }
    }
    assert(out@ + Seq::<MatchEntry>::empty() =~= out@);
    out
}

impl GridStore {
    /// Queries the grid store for matching phrases with optional spatial filtering.
    ///
    /// Returns the best `max_values` matches, for exact phrase lookups as well as for range
    /// queries. Prefix bins are used for ranges that begin and end at bin boundaries.
    ///
    /// # Arguments
    /// * `match_key` - Query specification (phrase range and language filter)
    /// * `match_opts` - Spatial filtering options (bbox, proximity, zoom)
    /// * `max_values` - How many matches are wanted
    /// * `scale` - How distance and score combine
    ///
    /// # Error Handling
    ///
    /// Corrupted database entries are silently skipped to allow partial results.
    pub fn get_matching<F: Fn(u64, u16, u64, u8) -> Measure>(
        &self,
        match_key: &MatchKey,
        match_opts: &MatchOpts,
        max_values: usize,
        scale: &F,
    ) -> (r: Result<Vec<MatchEntry>>)
        requires
            self.wf(),
            is_scale(*scale),
            match_key.match_phrase is Exact ==> match_key.match_phrase->Exact_0 < u32::MAX,
        ensures
            r is Ok,
            answers_query(
                *self,
                *match_key,
                match_opts@,
                meter_of(*scale, self.coalesce_radius, match_opts.zoom),
                max_values as nat,
                r->Ok_0@,
            ),
            r->Ok_0@.len() <= max_values,
    {
        let (range_key, marker) = match match_key.match_phrase {
            // Convert exact lookup to half-open range [id, id+1) for uniform iteration logic
            MatchPhrase::Exact(id) => (
                MatchKey {
                    match_phrase: MatchPhrase::Range { start: id, end: id + 1 },
                    lang_set: match_key.lang_set,
                },
                TypeMarker::SinglePhrase,
            ),
            MatchPhrase::Range { start, end } => {
                // Partial bin fetches are not supported - bins are pre-aggregated at write time
                if self.bin_boundaries.contains(&start) && self.bin_boundaries.contains(&end) {
                    (*match_key, TypeMarker::PrefixBin)
                } else {
                    (*match_key, TypeMarker::SinglePhrase)
                }
            },
        };
        let ghost opts = match_opts@;
        let ghost meter = meter_of(*scale, self.coalesce_radius, match_opts.zoom);
        let start_key: Vec<u8> = match range_key.to_start_key(marker) {
            Ok(key) => key,
            Err(e) => {
                return Err(e);
            },
        };
        let ghost table = self.table();
        let ghost run = scanned(table, range_key, marker);
        let first: usize = find_row(&self.rows, &start_key);
        let mut at: usize = first;
        let mut lists: Vec<Vec<MatchEntry>> = Vec::new();
        let mut more: bool = at < self.rows.len();
        proof {
            assert(run.take(0) =~= Seq::empty());
            assert(run == matching_run(table.skip(at as int), range_key, marker));
            assert(Seq::<RowView>::empty() + run =~= run);
        }
        while more
            invariant
                at <= self.rows@.len() <= usize::MAX,
                more ==> at < self.rows@.len(),
                table == self.table(),
                is_scale(*scale),
                opts == match_opts@,
                meter == meter_of(*scale, self.coalesce_radius, match_opts.zoom),
                run == scanned(table, range_key, marker),
                lists@.len() <= run.len(),
                at == first + lists@.len(),
                run == run.take(lists@.len() as int) + matching_run(
                    table.skip(at as int),
                    range_key,
                    marker,
                ),
                !more ==> matching_run(table.skip(at as int), range_key, marker).len() == 0,
                forall|i: int|
                    0 <= i < lists@.len() ==> is_row_matches(
                        run[i],
                        range_key,
                        opts,
                        meter,
                        (#[trigger] lists@[i])@,
                    ),
            ensures
                lists@.len() == run.len(),
            decreases self.rows@.len() - at + (if more { 1int } else { 0 }),
        {
            let ghost tail = table.skip(at as int);
            let ghost done = lists@.len() as int;
            let key: &Vec<u8> = &self.rows[at].0;
            let value: &Vec<u8> = &self.rows[at].1;
            proof {
                assert(tail[0] == table[at as int]);
                assert(table[at as int].0 == key@ && table[at as int].1 == value@);
            }
            // Stop when the key falls outside of the range
            let inside: bool = match range_key.matches_key(marker, key) {
                Ok(matches) => matches,
                Err(_) => false,
            };
            if !inside {
                more = false;
            } else {
                proof {
                    assert(tail.skip(1) =~= table.skip(at + 1));
                    let rest = matching_run(tail.skip(1), range_key, marker);
                    assert(run[done] == tail[0]);
                    assert(run.take(done + 1) =~= run.take(done).push(tail[0]));
                    assert(run =~= run.take(done + 1) + rest);
                }
                let list: Vec<MatchEntry> = match range_key.matches_language(key) {
                    Ok(matches_language) => match decode_matching_value(
                        value,
                        match_opts,
                        matches_language,
                        self.coalesce_radius,
                        scale,
                    ) {
                        Ok(list) => list,
                        Err(_) => Vec::new(),
                    },
                    Err(_) => Vec::new(),
                };
                assert(is_row_matches(run[done], range_key, opts, meter, list@));
                lists.push(list);
                at += 1;
                if at >= self.rows.len() {
                    more = false;
                    assert(table.skip(at as int) =~= Seq::empty());
                }
            }
        }
        let out: Vec<MatchEntry> = merge_matches(&lists, max_values);
        proof {
            let v = lists_view(lists@);
            assert forall|i: int| 0 <= i < run.len() implies is_row_matches(
                run[i],
                range_key,
                opts,
                meter,
                #[trigger] v[i],
            ) by {
                assert(v[i] == lists@[i]@);
            }
            assert(are_row_matches(v, run, range_key, opts, meter));
            drained_len(
                v,
                filled(v, v.len() as int, max_values as nat),
                Seq::new(v.len(), |i: int| 0int),
                max_values as nat,
            );
        }
        Ok(out)
    }
}

proof fn drained_len(
    lists: Seq<Seq<MatchEntry>>,
    queue: Multiset<RankKey>,
    next: Seq<int>,
    count: nat,
)
    ensures
        drained(lists, queue, next, count).len() <= count,
    decreases count,
{
    if count > 0 && queue.len() > 0 {
        let slot = highest(queue).6 as int;
        let at = next[slot];
        drained_len(
            lists,
            advanced(lists, queue, slot, at),
            next.update(slot, at + 1),
            (count - 1) as nat,
        );
    }
}

} // verus!
