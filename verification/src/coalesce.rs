//! Multi-phrase coalescing logic.
//!
//! Combines results from multiple phrase queries (e.g., "Main" + "Street" + "Seattle")
//! based on spatial overlap and type hierarchy rules.

use std::collections::HashMap;
use vstd::prelude::*;

use crate::common::{FeatureId, GridEntry, MatchKey, MatchOpts};
use crate::decode::{meter_of, MatchEntry};
use crate::error::Result;
use crate::order::word_keys;
use crate::rank::{is_rank_order, order_by_rank, rank_le, rank_order_has_all, RankKey};
use crate::spatial::{is_scale, Measure};
use crate::stackable::PhrasematchSubquery;
use crate::store::answers_query;

verus! {

broadcast use vstd::std_specs::hash::group_hash_axioms;

/// Maximum number of contexts that a query is answered with.
pub const MAX_CONTEXTS: usize = 40;

/// How many matches are fetched to find the contexts of a single phrase.
pub const SINGLE_FETCH: usize = 80;

/// Maximum relevance gap allowed (a quarter, in trillionths).
pub const MAX_RELEVANCE_GAP: i128 = 250_000_000_000;

/// What is taken off the relevance of less natural contexts (a hundredth, in trillionths).
pub const CONTEXT_PENALTY: i128 = 10_000_000_000;

/// Maximum grids to fetch per phrase.
pub const MAX_GRIDS_PER_PHRASE: usize = 2000;

/// The greatest relevance that an entry can have.
pub const MAX_ENTRY_RELEV: i128 = 0x1_0000_0000_0000;

// ---------------------------------------------------------------------------------------------
// Entries and contexts
// ---------------------------------------------------------------------------------------------

/// An entry that matches a part of a query.
#[derive(Copy, Clone, Debug, PartialEq, Eq, Structural)]
pub struct CoalesceEntry {
    pub grid_entry: GridEntry,
    /// The relevance of the entry times the weight of the part, in trillionths
    pub relev: i128,
    pub matches_language: bool,
    /// The number of the index
    pub idx: u16,
    /// The feature, told apart from those of other indexes
    pub tmp_id: u32,
    /// The words of the query that the part covers
    pub mask: u32,
    /// The square of the distance from the proximity point, zero without one
    pub distance: u64,
    /// The rank by score and distance: the higher, the better
    pub scoredist: u64,
    /// Identifies the key that the entry matches
    pub phrasematch_id: u32,
}

/// Coalesced context with multiple phrase entries.
pub struct CoalesceContext {
    pub entries: Vec<CoalesceEntry>,
    pub mask: u32,
    /// The relevance of the context, in trillionths
    pub relev: i128,
}

/// A context as plain values.
#[verifier::ext_equal]
pub struct ContextView {
    pub entries: Seq<CoalesceEntry>,
    pub mask: u32,
    pub relev: i128,
}

impl View for CoalesceContext {
    type V = ContextView;

    open spec fn view(&self) -> ContextView {
        ContextView { entries: self.entries@, mask: self.mask, relev: self.relev }
    }
}

/// Contexts as plain values.
pub open spec fn contexts_view(contexts: Seq<CoalesceContext>) -> Seq<ContextView> {
    contexts.map_values(|c: CoalesceContext| c@)
}

/// The rank of a context: by relevance, then by the first entry's score and distance, index (the
/// lower, the better), coordinate and feature.
pub open spec fn context_rank(c: ContextView, slot: int) -> RankKey {
    (
        c.relev,
        c.entries[0].scoredist,
        (0xffff - c.entries[0].idx) as u64,
        c.entries[0].grid_entry.x,
        c.entries[0].grid_entry.y,
        c.entries[0].grid_entry.id,
        slot as usize,
    )
}

impl CoalesceContext {
    /// The rank of the context, which has an entry.
    pub(crate) fn sort_key(&self, slot: usize) -> (key: RankKey)
        requires
            self.entries@.len() > 0,
        ensures
            key == context_rank(self@, slot as int),
    {
        (
            self.relev,
            self.entries[0].scoredist,
            (0xffff - self.entries[0].idx) as u64,
            self.entries[0].grid_entry.x,
            self.entries[0].grid_entry.y,
            self.entries[0].grid_entry.id,
            slot,
        )
    }

    /// A context with the same entries, mask and relevance.
    pub fn copied(&self) -> (copy: CoalesceContext)
        ensures
            copy@ == self@,
    {
        let entries: Vec<CoalesceEntry> = self.entries.clone();
        assert(entries@ =~= self.entries@);
        CoalesceContext { entries, mask: self.mask, relev: self.relev }
    }
}

/// The number that tells a feature of an index apart from those of other indexes: the low 8 bits of
/// the index above the 24 bits of the feature.
pub open spec fn temporary_id(idx: u16, id: FeatureId) -> u32 {
    (((idx % 0x100) * 0x100_0000) as u32).wrapping_add(id)
}

/// What a match is worth as an entry of a context.
pub open spec fn coalesce_entry(
    grid: MatchEntry,
    part: PhrasematchSubquery,
    phrasematch_id: u32,
) -> CoalesceEntry {
    CoalesceEntry {
        grid_entry: grid.grid_entry,
        relev: (grid.grid_entry.relev * part.weight) as i128,
        matches_language: grid.matches_language,
        idx: part.idx,
        tmp_id: temporary_id(part.idx, grid.grid_entry.id),
        mask: part.mask,
        distance: grid.distance,
        scoredist: grid.scoredist,
        phrasematch_id,
    }
}

/// Makes an entry of a match, which was found with options for the zoom level of the index.
pub fn grid_to_coalesce_entry(
    grid: &MatchEntry,
    subquery: &PhrasematchSubquery,
    match_opts: &MatchOpts,
    phrasematch_id: u32,
) -> (entry: CoalesceEntry)
    requires
        match_opts.zoom == subquery.store.zoom,
    ensures
        entry == coalesce_entry(*grid, *subquery, phrasematch_id),
        0 <= entry.relev < MAX_ENTRY_RELEV,
{
    let milli: u16 = grid.grid_entry.relev;
    let weight: u32 = subquery.weight;
    assert(0 <= milli * weight <= 0xffff * 0xffff_ffff) by (nonlinear_arith)
        requires
            0 <= milli <= 0xffff,
            0 <= weight <= 0xffff_ffff,
    ;
    let low: u32 = (subquery.idx % 0x100) as u32;
    CoalesceEntry {
        grid_entry: grid.grid_entry,
        relev: milli as i128 * weight as i128,
        matches_language: grid.matches_language,
        idx: subquery.idx,
        tmp_id: (low * 0x100_0000).wrapping_add(grid.grid_entry.id),
        mask: subquery.mask,
        distance: grid.distance,
        scoredist: grid.scoredist,
        phrasematch_id,
    }
}

/// The entries that the matches make.
pub open spec fn coalesce_entries(
    grids: Seq<MatchEntry>,
    part: PhrasematchSubquery,
    phrasematch_id: u32,
) -> Seq<CoalesceEntry> {
    grids.map_values(|g: MatchEntry| coalesce_entry(g, part, phrasematch_id))
}

/// A context of one entry.
pub open spec fn single_context(entry: CoalesceEntry, mask: u32) -> ContextView {
    ContextView { entries: seq![entry], mask, relev: entry.relev }
}

pub(crate) fn make_single(entry: CoalesceEntry, mask: u32) -> (c: CoalesceContext)
    ensures
        c@ == single_context(entry, mask),
{
    let mut entries: Vec<CoalesceEntry> = Vec::new();
    entries.push(entry);
    assert(entries@ =~= seq![entry]);
    CoalesceContext { entries, mask, relev: entry.relev }
}

// ---------------------------------------------------------------------------------------------
// Single phrases
// ---------------------------------------------------------------------------------------------

/// How far the entries of a single phrase have been gone through.
pub struct SingleState {
    /// The greatest relevance so far
    pub max_relev: i128,
    /// The feature of the last entry that counted, if there was one, its relevance and its rank
    pub last_id: Option<FeatureId>,
    pub last_relev: i128,
    pub last_scoredist: u64,
    /// The lowest rank so far
    pub min_scoredist: u64,
    /// The number of times that the feature changed
    pub features: nat,
    /// The best entry of each feature
    pub best: Map<u32, CoalesceEntry>,
    /// No more entries count
    pub done: bool,
}

/// The state before the first entry.
pub open spec fn single_start() -> SingleState {
    SingleState {
        max_relev: 0,
        last_id: None,
        last_relev: 0,
        last_scoredist: 0,
        min_scoredist: u64::MAX,
        features: 0,
        best: Map::empty(),
        done: false,
    }
}

/// The entry adds nothing: it is of the same feature as the last one and ranks no higher, or there
/// are features enough and it ranks below all.
pub open spec fn is_passed_over(s: SingleState, e: CoalesceEntry) -> bool {
    (s.last_id == Some(e.grid_entry.id) && e.scoredist <= s.last_scoredist) || (s.features
        > SINGLE_FETCH && e.scoredist < s.min_scoredist)
}

/// The entry and what comes behind it do not count: there are features enough and it is less
/// relevant than the last one.
pub open spec fn is_surplus(s: SingleState, e: CoalesceEntry) -> bool {
    s.features > SINGLE_FETCH && e.relev < s.last_relev
}

/// The best entries with one more: it takes the place of one of the same feature that it ranks
/// above and is not less relevant than.
pub open spec fn with_better(best: Map<u32, CoalesceEntry>, e: CoalesceEntry) -> Map<
    u32,
    CoalesceEntry,
> {
    let id = e.grid_entry.id;
    if best.contains_key(id) && !(e.scoredist > best[id].scoredist && e.relev >= best[id].relev) {
        best
    } else {
        best.insert(id, e)
    }
}

/// The state after one more entry.
pub open spec fn single_step(s: SingleState, e: CoalesceEntry, has_proximity: bool) -> SingleState {
    let features = if s.last_id != Some(e.grid_entry.id) {
        s.features + 1
    } else {
        s.features
    };
    if s.done || is_passed_over(s, e) {
        s
    } else if is_surplus(s, e) || s.max_relev - e.relev >= MAX_RELEVANCE_GAP {
        SingleState { done: true, ..s }
    } else if !has_proximity && features > SINGLE_FETCH {
        SingleState { best: with_better(s.best, e), done: true, ..s }
    } else {
        SingleState {
            max_relev: if e.relev > s.max_relev {
                e.relev
            } else {
                s.max_relev
            },
            last_id: Some(e.grid_entry.id),
            last_relev: e.relev,
            last_scoredist: e.scoredist,
            min_scoredist: if e.scoredist < s.min_scoredist {
                e.scoredist
            } else {
                s.min_scoredist
            },
            features,
            best: with_better(s.best, e),
            done: false,
        }
    }
}

/// The state after the entries.
pub open spec fn single_states(entries: Seq<CoalesceEntry>, has_proximity: bool) -> SingleState
    decreases entries.len(),
{
    if entries.len() == 0 {
        single_start()
    } else {
        single_step(
            single_states(entries.drop_last(), has_proximity),
            entries.last(),
            has_proximity,
        )
    }
}

/// The best entry of each feature.
pub open spec fn best_entries(entries: Seq<CoalesceEntry>, has_proximity: bool) -> Map<
    u32,
    CoalesceEntry,
> {
    single_states(entries, has_proximity).best
}

/// `a` comes before `b`: it is more relevant; at the same relevance it ranks higher; then by
/// ascending y, x and feature.
pub open spec fn entry_before(a: CoalesceEntry, b: CoalesceEntry) -> bool {
    if a.relev != b.relev {
        a.relev > b.relev
    } else if a.scoredist != b.scoredist {
        a.scoredist > b.scoredist
    } else if a.grid_entry.y != b.grid_entry.y {
        a.grid_entry.y < b.grid_entry.y
    } else if a.grid_entry.x != b.grid_entry.x {
        a.grid_entry.x < b.grid_entry.x
    } else {
        a.grid_entry.id < b.grid_entry.id
    }
}

/// `sorted` holds the best entry of each feature, in order.
pub open spec fn is_best_order(best: Map<u32, CoalesceEntry>, sorted: Seq<CoalesceEntry>) -> bool {
    &&& forall|i: int, j: int|
        0 <= i < j < sorted.len() ==> entry_before(#[trigger] sorted[i], #[trigger] sorted[j])
    &&& forall|i: int|
        0 <= i < sorted.len() ==> best.contains_key((#[trigger] sorted[i]).grid_entry.id)
            && best[sorted[i].grid_entry.id] == sorted[i]
    &&& forall|id: u32| #[trigger]
        best.contains_key(id) ==> exists|i: int|
            0 <= i < sorted.len() && (#[trigger] sorted[i]).grid_entry.id == id
}

/// How many of the entries are taken, of which the first `n` are: as many as are allowed, and none
/// that is less relevant than the first by the allowed gap.
pub open spec fn top_count(sorted: Seq<CoalesceEntry>, n: int) -> int
    decreases sorted.len() - n,
{
    if n < sorted.len() && n < MAX_CONTEXTS && sorted[0].relev - sorted[n].relev
        < MAX_RELEVANCE_GAP {
        top_count(sorted, n + 1)
    } else {
        n
    }
}

/// The first contexts of the entries.
pub open spec fn top_contexts(sorted: Seq<CoalesceEntry>) -> Seq<ContextView> {
    sorted.take(top_count(sorted, 0)).map_values(|e: CoalesceEntry| single_context(e, e.mask))
}

proof fn top_count_grows(sorted: Seq<CoalesceEntry>, n: int)
    ensures
        n <= top_count(sorted, n),
    decreases sorted.len() - n,
{
    if n < sorted.len() && n < MAX_CONTEXTS && sorted[0].relev - sorted[n].relev
        < MAX_RELEVANCE_GAP {
        top_count_grows(sorted, n + 1);
    }
}

pub(crate) proof fn top_count_bounds(sorted: Seq<CoalesceEntry>, n: int)
    requires
        0 <= n <= sorted.len(),
        n <= MAX_CONTEXTS,
        forall|k: int|
            0 <= k < n ==> sorted[0].relev - (#[trigger] sorted[k]).relev < MAX_RELEVANCE_GAP,
    ensures
        n <= top_count(sorted, n) <= sorted.len(),
        top_count(sorted, n) <= MAX_CONTEXTS,
        forall|k: int|
            0 <= k < top_count(sorted, n) ==> sorted[0].relev - (#[trigger] sorted[k]).relev
                < MAX_RELEVANCE_GAP,
        top_count(sorted, n) < sorted.len() && top_count(sorted, n) < MAX_CONTEXTS
            ==> sorted[0].relev - sorted[top_count(sorted, n)].relev >= MAX_RELEVANCE_GAP,
    decreases sorted.len() - n,
{
    if n < sorted.len() && n < MAX_CONTEXTS && sorted[0].relev - sorted[n].relev
        < MAX_RELEVANCE_GAP {
        top_count_bounds(sorted, n + 1);
    }
}

/// `out` answers a query of a single phrase with these matches: the best entries, in order.
pub open spec fn is_single_answer(
    grids: Seq<MatchEntry>,
    part: PhrasematchSubquery,
    has_proximity: bool,
    out: Seq<ContextView>,
) -> bool {
    exists|sorted: Seq<CoalesceEntry>| #[trigger]
        is_best_order(best_entries(coalesce_entries(grids, part, 0), has_proximity), sorted) && out
            == top_contexts(sorted)
}

/// Whatever is the best entry of a feature is an entry of that feature.
spec fn keyed_by_feature(best: Map<u32, CoalesceEntry>) -> bool {
    forall|id: u32| #[trigger] best.contains_key(id) ==> best[id].grid_entry.id == id
}

/// The best entries in order.
fn sort_best(best: &HashMap<u32, CoalesceEntry>) -> (sorted: Vec<CoalesceEntry>)
    requires
        keyed_by_feature(best@),
        forall|id: u32| #[trigger]
            best@.contains_key(id) ==> 0 <= best@[id].relev < MAX_ENTRY_RELEV,
    ensures
        is_best_order(best@, sorted@),
{
    let ids: Vec<u32> = word_keys(best);
    let mut entries: Vec<CoalesceEntry> = Vec::new();
    let mut keys: Vec<RankKey> = Vec::new();
    let mut i: usize = 0;
    while i < ids.len()
        invariant
            i <= ids@.len(),
            ids@.to_set() == best@.dom(),
            keyed_by_feature(best@),
            forall|id: u32| #[trigger]
                best@.contains_key(id) ==> 0 <= best@[id].relev < MAX_ENTRY_RELEV,
            entries@.len() == i,
            keys@.len() == i,
            forall|j: int|
                #![trigger entries@[j]]
                0 <= j < i ==> best@.contains_key(ids@[j]) && entries@[j] == best@[ids@[j]],
            forall|j: int|
                #![trigger keys@[j]]
                0 <= j < i ==> keys@[j] == entry_key(entries@[j], j),
        decreases ids@.len() - i,
    {
        let id: u32 = ids[i];
        proof {
            assert(ids@.contains(id));
            assert(ids@.to_set().contains(id));
        }
        match best.get(&id) {
            Some(entry) => {
                let e: CoalesceEntry = *entry;
                entries.push(e);
                keys.push(
                    (
                        -e.relev,
                        u64::MAX - e.scoredist,
                        0,
                        e.grid_entry.y,
                        e.grid_entry.x,
                        e.grid_entry.id,
                        i,
                    ),
                );
            },
            None => {},
        }
        i += 1;
    }
    let ghost ranks = keys@;
    let order: Vec<usize> = order_by_rank(keys);
    let mut sorted: Vec<CoalesceEntry> = Vec::new();
    let mut k: usize = 0;
    while k < order.len()
        invariant
            k <= order@.len(),
            is_rank_order(ranks, order@),
            ranks.len() == entries@.len(),
            sorted@.len() == k,
            forall|j: int|
                #![trigger sorted@[j]]
                0 <= j < k ==> sorted@[j] == entries@[order@[j] as int],
        decreases order@.len() - k,
    {
        assert(order@[k as int] < ranks.len());
        sorted.push(entries[order[k]]);
        k += 1;
    }
    proof {
        assert forall|i: int| 0 <= i < sorted@.len() implies best@.contains_key(
            (#[trigger] sorted@[i]).grid_entry.id,
        ) && best@[sorted@[i].grid_entry.id] == sorted@[i] by {
            let p = order@[i] as int;
            assert(entries@[p] == best@[ids@[p]]);
        }
        assert forall|i: int, j: int| 0 <= i < j < sorted@.len() implies entry_before(
            #[trigger] sorted@[i],
            #[trigger] sorted@[j],
        ) by {
            let a = order@[i] as int;
            let b = order@[j] as int;
            assert(rank_le(ranks[a], ranks[b]));
            assert(ranks[a] == entry_key(entries@[a], a) && ranks[b] == entry_key(entries@[b], b));
            assert(entries@[a] == best@[ids@[a]] && entries@[b] == best@[ids@[b]]);
            assert(a != b);
            assert(ids@[a] != ids@[b]);
        }
        assert forall|id: u32| #[trigger] best@.contains_key(id) implies exists|i: int|
            0 <= i < sorted@.len() && (#[trigger] sorted@[i]).grid_entry.id == id by {
            assert(ids@.to_set().contains(id));
            let p = choose|p: int| 0 <= p < ids@.len() && ids@[p] == id;
            let a = rank_order_has_all(ranks, order@, p);
            assert(entries@[p] == best@[ids@[p]]);
            assert(sorted@[a] == entries@[order@[a] as int]);
        }
    }
    sorted
}

spec fn entry_key(e: CoalesceEntry, slot: int) -> RankKey {
    (
        (-e.relev) as i128,
        (u64::MAX - e.scoredist) as u64,
        0,
        e.grid_entry.y,
        e.grid_entry.x,
        e.grid_entry.id,
        slot as usize,
    )
}

/// Goes through the matches of a single phrase for the best entry of each feature.
fn collect_best(
    subquery: &PhrasematchSubquery,
    match_opts: &MatchOpts,
    grids: &Vec<MatchEntry>,
) -> (best: HashMap<u32, CoalesceEntry>)
    requires
        match_opts.zoom == subquery.store.zoom,
    ensures
        best@ == best_entries(
            coalesce_entries(grids@, *subquery, 0),
            match_opts.proximity is Some,
        ),
        keyed_by_feature(best@),
        forall|id: u32| #[trigger]
            best@.contains_key(id) ==> 0 <= best@[id].relev < MAX_ENTRY_RELEV,
{
    let ghost all = coalesce_entries(grids@, *subquery, 0);
    let has_proximity: bool = match_opts.proximity.is_some();
    let mut best: HashMap<u32, CoalesceEntry> = HashMap::new();
    let mut max_relevance: i128 = 0;
    let mut previous_id: Option<u32> = None;
    let mut previous_relevance: i128 = 0;
    let mut previous_scoredist: u64 = 0;
    let mut min_scoredist: u64 = u64::MAX;
    let mut feature_count: usize = 0;
    let mut done: bool = false;
    let mut i: usize = 0;
    proof {
        assert(all.take(0) =~= Seq::empty());
        assert(best@ =~= Map::empty());
    }
    while i < grids.len()
        invariant
            i <= grids@.len(),
            match_opts.zoom == subquery.store.zoom,
            has_proximity == (match_opts.proximity is Some),
            all == coalesce_entries(grids@, *subquery, 0),
            feature_count <= i,
            0 <= max_relevance < MAX_ENTRY_RELEV,
            keyed_by_feature(best@),
            forall|id: u32| #[trigger]
                best@.contains_key(id) ==> 0 <= best@[id].relev < MAX_ENTRY_RELEV,
            best@ == single_states(all.take(i as int), has_proximity).best,
            done == single_states(all.take(i as int), has_proximity).done,
            !done ==> single_states(all.take(i as int), has_proximity) == (SingleState {
                max_relev: max_relevance,
                last_id: previous_id,
                last_relev: previous_relevance,
                last_scoredist: previous_scoredist,
                min_scoredist,
                features: feature_count as nat,
                best: best@,
                done: false,
            }),
        decreases grids@.len() - i,
    {
        let e: CoalesceEntry = grid_to_coalesce_entry(&grids[i], subquery, match_opts, 0);
        let ghost before = single_states(all.take(i as int), has_proximity);
        proof {
            assert(all.take(i + 1).drop_last() =~= all.take(i as int));
            assert(all.take(i + 1).last() == e);
        }
        i += 1;
        let same_feature: bool = match previous_id {
            Some(id) => id == e.grid_entry.id,
            None => false,
        };
        let passed_over: bool = (same_feature && e.scoredist <= previous_scoredist) || (
        feature_count > SINGLE_FETCH && e.scoredist < min_scoredist);
        if done || passed_over {
            continue;
        }
        if (feature_count > SINGLE_FETCH && e.relev < previous_relevance) || max_relevance - e.relev
            >= MAX_RELEVANCE_GAP {
            done = true;
            continue;
        }
        let replace: bool = match best.get(&e.grid_entry.id) {
            Some(existing) => e.scoredist > existing.scoredist && e.relev >= existing.relev,
            None => true,
        };
        if replace {
            best.insert(e.grid_entry.id, e);
        }
        assert(best@ =~= with_better(before.best, e));
        if !same_feature {
            feature_count += 1;
        }
        if !has_proximity && feature_count > SINGLE_FETCH {
            done = true;
            continue;
        }
        if e.relev > max_relevance {
            max_relevance = e.relev;
        }
        if e.scoredist < min_scoredist {
            min_scoredist = e.scoredist;
        }
        previous_id = Some(e.grid_entry.id);
        previous_relevance = e.relev;
        previous_scoredist = e.scoredist;
    }
    assert(all.take(i as int) =~= all);
    best
}

/// Coalesces results from a single phrase query.
///
/// # Algorithm
///
/// 1. Deduplicate by feature: for each feature the entry with the highest rank is kept
/// 2. Apply the relevance threshold: what is less relevant than the best by the allowed gap is left
///    out
/// 3. Sort by (relev desc, scoredist desc, y asc, x asc, id asc)
/// 4. Limit to `MAX_CONTEXTS`
pub fn coalesce_single<F: Fn(u64, u16, u64, u8) -> Measure>(
    subquery: &PhrasematchSubquery,
    match_opts: &MatchOpts,
    scale: &F,
) -> (r: Result<Vec<CoalesceContext>>)
    requires
        is_query(*subquery),
        is_scale(*scale),
        match_opts.zoom == subquery.store.zoom,
    ensures
        r is Ok,
        is_phrase_answer(*subquery, *match_opts, *scale, contexts_view(r->Ok_0@)),
        r->Ok_0@.len() <= MAX_CONTEXTS,
        forall|i: int|
            0 <= i < r->Ok_0@.len() ==> (#[trigger] r->Ok_0@[i]).entries@.len() == 1 && 0
                <= r->Ok_0@[i].relev < MAX_ENTRY_RELEV && r->Ok_0@[i].entries@[0].relev
                == r->Ok_0@[i].relev,
{
    // Fetch more than we need to account for deduplication
    let grids: Vec<MatchEntry> = match subquery.store.get_matching(
        &subquery.match_keys[0].key,
        match_opts,
        SINGLE_FETCH,
        scale,
    ) {
        Ok(grids) => grids,
        Err(e) => {
            return Err(e);
        },
    };
    let best: HashMap<u32, CoalesceEntry> = collect_best(subquery, match_opts, &grids);
    let sorted: Vec<CoalesceEntry> = sort_best(&best);
    let mut contexts: Vec<CoalesceContext> = Vec::new();
    let ghost want = top_contexts(sorted@);
    let mut i: usize = 0;
    proof {
        assert forall|k: int| 0 <= k < sorted@.len() implies 0 <= (#[trigger] sorted@[k]).relev
            < MAX_ENTRY_RELEV by {
            assert(best@.contains_key(sorted@[k].grid_entry.id));
        }
        top_count_bounds(sorted@, 0);
    }
    while i < sorted.len() && i < MAX_CONTEXTS && sorted[0].relev - sorted[i].relev
        < MAX_RELEVANCE_GAP
        invariant
            i <= sorted@.len(),
            i <= MAX_CONTEXTS,
            top_count(sorted@, i as int) == top_count(sorted@, 0),
            i <= top_count(sorted@, 0) <= sorted@.len(),
            contexts@.len() == i,
            forall|k: int|
                0 <= k < sorted@.len() ==> 0 <= (#[trigger] sorted@[k]).relev < MAX_ENTRY_RELEV,
            forall|k: int|
                0 <= k < i ==> (#[trigger] contexts@[k]).entries@.len() == 1 && 0
                    <= contexts@[k].relev < MAX_ENTRY_RELEV && contexts@[k].entries@[0].relev
                    == contexts@[k].relev,
            want == top_contexts(sorted@),
            contexts_view(contexts@) == want.take(i as int),
        decreases sorted@.len() - i,
    {
        let ghost had = contexts@;
        proof {
            assert(top_count(sorted@, i as int) == top_count(sorted@, i + 1));
            assert(i < top_count(sorted@, 0)) by {
                top_count_grows(sorted@, i + 1);
            }
        }
        contexts.push(make_single(sorted[i], sorted[i].mask));
        i += 1;
        assert(contexts_view(contexts@) =~= contexts_view(had).push(want[i - 1]));
        assert(contexts_view(contexts@) =~= want.take(i as int));
    }
    assert(want.take(i as int) =~= want);
    assert(contexts_view(contexts@).len() == contexts@.len());
    assert(is_single_answer(
        grids@,
        *subquery,
        match_opts.proximity is Some,
        contexts_view(contexts@),
    ));
    Ok(contexts)
}

/// The key can be looked up: there is a phrase number behind that of an exact phrase.
pub open spec fn is_lookup(key: MatchKey) -> bool {
    key.match_phrase is Exact ==> key.match_phrase->Exact_0 < u32::MAX
}

/// A part of a query can be looked up by its first key: its index is in order and it has a key.
pub open spec fn is_query(part: PhrasematchSubquery) -> bool {
    &&& part.store.wf()
    &&& part.match_keys@.len() > 0
    &&& is_lookup(part.match_keys@[0].key)
}

/// `out` answers a query of a single phrase: there are matches that answer the query to the index,
/// and `out` are their contexts.
pub open spec fn is_phrase_answer<F: Fn(u64, u16, u64, u8) -> Measure>(
    part: PhrasematchSubquery,
    opts: MatchOpts,
    scale: F,
    out: Seq<ContextView>,
) -> bool {
    exists|grids: Seq<MatchEntry>|
        {
            &&& #[trigger] answers_query(
                *part.store,
                part.match_keys@[0].key,
                opts@,
                meter_of(scale, part.store.coalesce_radius, opts.zoom),
                SINGLE_FETCH as nat,
                grids,
            )
            &&& is_single_answer(grids, part, opts.proximity is Some, out)
        }
}

} // verus!
