//! Coalescing along a stackable tree.
//!
//! The combinations of the tree are gone through with the most promising first. What a combination
//! matches is stacked on what its parent combination matched, and the best contexts of all
//! combinations answer the query.

use std::collections::HashMap;
use std::sync::Arc;
use vstd::prelude::*;

use crate::coalesce::{
    coalesce_entries, contexts_view, grid_to_coalesce_entry, is_passed_over, is_surplus,
    make_single, single_context, single_start, CoalesceContext, CoalesceEntry, ContextView,
    SingleState, CONTEXT_PENALTY, MAX_CONTEXTS, MAX_ENTRY_RELEV, SINGLE_FETCH,
};
use crate::common::MatchOpts;
use crate::decode::MatchEntry;
use crate::error::Result;
use crate::multi::{context_ok, entry_ok, penalty, RELEV_LIMIT};
use crate::order::{in_order, num_u32, word_keys};
use crate::outside::{are_hits, indexed_points, seen_items, sort_keys, PointIndex, SeenSet};
use crate::queue::{queued, queued_all, ConstrainedPriorityQueue};
use crate::spatial::{zoom_out, zoomed_out};
use crate::stackable::PhrasematchSubquery;

verus! {

broadcast use vstd::std_specs::hash::group_hash_axioms;

/// How many combinations are gone through before the answers are looked at again.
pub const COALESCE_CHUNK_SIZE: usize = 8;

/// How many contexts are kept while the tree is gone through.
pub const TREE_CONTEXTS: usize = 800;

// ---------------------------------------------------------------------------------------------
// Combinations of a single phrase
// ---------------------------------------------------------------------------------------------

/// The state before the first entry of a combination of a single phrase. Feature 0 counts as the
/// last one, at rank 0: as long as no entry has counted, one of that feature and rank adds nothing.
pub open spec fn leaf_start() -> SingleState {
    SingleState { last_id: Some(0), ..single_start() }
}

/// The state after one more entry of a combination of a single phrase: the entry becomes that of
/// its feature, unless it is passed over or there are features enough.
pub open spec fn leaf_step(s: SingleState, e: CoalesceEntry) -> SingleState {
    if s.done || is_passed_over(s, e) {
        s
    } else if is_surplus(s, e) {
        SingleState { done: true, ..s }
    } else {
        SingleState {
            max_relev: if e.relev > s.max_relev {
                e.relev
            } else {
                s.max_relev
            },
            last_id: Some(e.grid_entry.id),
            last_relev: e.relev,
            last_scoredist: e.scoredist,
            min_scoredist: if e.scoredist < s.min_scoredist {
                e.scoredist
            } else {
                s.min_scoredist
            },
            features: s.features + 1,
            best: s.best.insert(e.grid_entry.id, e),
            done: false,
        }
    }
}

/// The state after the entries.
pub open spec fn leaf_states(entries: Seq<CoalesceEntry>) -> SingleState
    decreases entries.len(),
{
    if entries.len() == 0 {
        leaf_start()
    } else {
        leaf_step(leaf_states(entries.drop_last()), entries.last())
    }
}

/// The contexts of a combination of a single phrase, by ascending feature.
pub open spec fn leaf_contexts(
    grids: Seq<MatchEntry>,
    part: PhrasematchSubquery,
    phrasematch_id: u32,
) -> Seq<ContextView> {
    let best = leaf_states(coalesce_entries(grids, part, phrasematch_id)).best;
    in_order(best.dom(), num_u32()).map_values(|id: u32| single_context(best[id], part.mask))
}

/// Coalesces the matches of a combination of a single phrase.
pub fn tree_coalesce_single(
    subquery: &PhrasematchSubquery,
    match_opts: &MatchOpts,
    grids: &Vec<MatchEntry>,
    phrasematch_id: u32,
) -> (r: Result<Vec<CoalesceContext>>)
    requires
        match_opts.zoom == subquery.store.zoom,
    ensures
        r is Ok,
        contexts_view(r->Ok_0@) == leaf_contexts(grids@, *subquery, phrasematch_id),
        sums_ok(contexts_view(r->Ok_0@)),
{
    let ghost all = coalesce_entries(grids@, *subquery, phrasematch_id);
    let mut best: HashMap<u32, CoalesceEntry> = HashMap::new();
    let mut max_relevance: i128 = 0;
    let mut previous_id: u32 = 0;
    let mut previous_relevance: i128 = 0;
    let mut previous_scoredist: u64 = 0;
    let mut min_scoredist: u64 = u64::MAX;
    let mut feature_count: usize = 0;
    let mut done: bool = false;
    let mut i: usize = 0;
    proof {
        assert(all.take(0) =~= Seq::empty());
        assert(best@ =~= Map::empty());
    }
    while i < grids.len()
        invariant
            i <= grids@.len(),
            match_opts.zoom == subquery.store.zoom,
            all == coalesce_entries(grids@, *subquery, phrasematch_id),
            feature_count <= i,
            forall|id: u32| #[trigger] best@.contains_key(id) ==> entry_ok(best@[id]),
            leaf_states(all.take(i as int)) == (SingleState {
                max_relev: max_relevance,
                last_id: Some(previous_id),
                last_relev: previous_relevance,
                last_scoredist: previous_scoredist,
                min_scoredist,
                features: feature_count as nat,
                best: best@,
                done,
            }),
        decreases grids@.len() - i,
    {
        let e: CoalesceEntry = grid_to_coalesce_entry(
            &grids[i],
            subquery,
            match_opts,
            phrasematch_id,
        );
        proof {
            assert(all.take(i + 1).drop_last() =~= all.take(i as int));
            assert(all.take(i + 1).last() == e);
        }
        i += 1;
        let passed_over: bool = (previous_id == e.grid_entry.id && e.scoredist
            <= previous_scoredist) || (feature_count > SINGLE_FETCH && e.scoredist
            < min_scoredist);
        if done || passed_over {
            continue;
        }
        if feature_count > SINGLE_FETCH && e.relev < previous_relevance {
            done = true;
            continue;
        }
        if e.relev > max_relevance {
            max_relevance = e.relev;
        }
        if e.scoredist < min_scoredist {
            min_scoredist = e.scoredist;
        }
        previous_id = e.grid_entry.id;
        previous_relevance = e.relev;
        previous_scoredist = e.scoredist;
        feature_count += 1;
        best.insert(e.grid_entry.id, e);
    }
    assert(all.take(i as int) =~= all);
    let ids: Vec<u32> = word_keys(&best);
    let ghost want = leaf_contexts(grids@, *subquery, phrasematch_id);
    let mut contexts: Vec<CoalesceContext> = Vec::new();
    let mut j: usize = 0;
    while j < ids.len()
        invariant
            j <= ids@.len(),
            ids@ == in_order(best@.dom(), num_u32()),
            ids@.to_set() == best@.dom(),
            best@ == leaf_states(coalesce_entries(grids@, *subquery, phrasematch_id)).best,
            want == leaf_contexts(grids@, *subquery, phrasematch_id),
            forall|id: u32| #[trigger] best@.contains_key(id) ==> entry_ok(best@[id]),
            contexts_view(contexts@) == want.take(j as int),
            sums_ok(contexts_view(contexts@)),
        decreases ids@.len() - j,
    {
        let id: u32 = ids[j];
        proof {
            assert(ids@.to_set().contains(ids@[j as int]));
            assert(best@.contains_key(id));
        }
        match best.get(&id) {
            Some(entry) => {
                let ghost had = contexts@;
                let c: CoalesceContext = make_single(*entry, subquery.mask);
                let ghost cv = c@;
                contexts.push(c);
                proof {
                    single_sum_ok(*entry, subquery.mask);
                    assert(contexts_view(contexts@) =~= contexts_view(had).push(cv));
                    assert(cv == want[j as int]);
                    sums_ok_push(contexts_view(had), cv);
                }
            },
            None => {},
        }
        j += 1;
        assert(contexts_view(contexts@) =~= want.take(j as int));
    }
    assert(want.take(j as int) =~= want);
    Ok(contexts)
}

// ---------------------------------------------------------------------------------------------
// Relevances
// ---------------------------------------------------------------------------------------------

/// What the relevances of the entries add up to.
pub open spec fn relev_sum(entries: Seq<CoalesceEntry>) -> int
    decreases entries.len(),
{
    if entries.len() == 0 {
        0
    } else {
        relev_sum(entries.drop_last()) + entries.last().relev
    }
}

/// The relevance of the context is what those of its entries add up to.
pub open spec fn sum_ok(c: ContextView) -> bool {
    &&& c.entries.len() > 0
    &&& forall|i: int| 0 <= i < c.entries.len() ==> entry_ok(#[trigger] c.entries[i])
    &&& c.relev == relev_sum(c.entries)
}

/// The relevance of each context is what those of its entries add up to.
pub open spec fn sums_ok(cs: Seq<ContextView>) -> bool {
    forall|i: int| 0 <= i < cs.len() ==> sum_ok(#[trigger] cs[i])
}

proof fn sums_ok_push(cs: Seq<ContextView>, c: ContextView)
    requires
        sums_ok(cs),
        sum_ok(c),
    ensures
        sums_ok(cs.push(c)),
{
    assert forall|i: int| 0 <= i < cs.push(c).len() implies sum_ok(#[trigger] cs.push(c)[i]) by {
        if i < cs.len() {
            assert(sum_ok(cs[i]));
        }
    }
}

proof fn relev_sum_bounds(entries: Seq<CoalesceEntry>)
    requires
        forall|i: int| 0 <= i < entries.len() ==> entry_ok(#[trigger] entries[i]),
    ensures
        0 <= relev_sum(entries) <= entries.len() * MAX_ENTRY_RELEV,
    decreases entries.len(),
{
    if entries.len() > 0 {
        assert forall|i: int| 0 <= i < entries.drop_last().len() implies entry_ok(
            #[trigger] entries.drop_last()[i],
        ) by {
            assert(entry_ok(entries[i]));
        }
        relev_sum_bounds(entries.drop_last());
        assert(entry_ok(entries[entries.len() - 1]));
        assert(entries.len() * MAX_ENTRY_RELEV == (entries.len() - 1) * MAX_ENTRY_RELEV
            + MAX_ENTRY_RELEV) by (nonlinear_arith);
    }
}

pub(crate) proof fn relev_sum_front(e: CoalesceEntry, entries: Seq<CoalesceEntry>)
    ensures
        relev_sum(seq![e] + entries) == e.relev + relev_sum(entries),
    decreases entries.len(),
{
    let all = seq![e] + entries;
    if entries.len() == 0 {
        assert(all =~= seq![e]);
        assert(all.drop_last() =~= Seq::empty());
        assert(relev_sum(Seq::<CoalesceEntry>::empty()) == 0);
    } else {
        assert(all.drop_last() =~= seq![e] + entries.drop_last());
        relev_sum_front(e, entries.drop_last());
    }
}

proof fn single_sum_ok(e: CoalesceEntry, mask: u32)
    requires
        entry_ok(e),
    ensures
        sum_ok(single_context(e, mask)),
{
    relev_sum_front(e, Seq::empty());
    assert(seq![e] + Seq::<CoalesceEntry>::empty() =~= seq![e]);
}

pub(crate) proof fn sum_in_bounds(c: ContextView)
    requires
        sum_ok(c),
        c.entries.len() <= usize::MAX,
    ensures
        0 <= c.relev <= 0x1_0000_0000_0000_0000 * MAX_ENTRY_RELEV,
        context_ok(c),
{
    relev_sum_bounds(c.entries);
    let n = c.entries.len();
    assert(n * MAX_ENTRY_RELEV <= 0x1_0000_0000_0000_0000 * MAX_ENTRY_RELEV) by (nonlinear_arith)
        requires
            0 <= n <= 0x1_0000_0000_0000_0000,
            MAX_ENTRY_RELEV >= 0,
    ;
}

/// The context with what is taken off for less natural ones.
pub open spec fn penalized(c: ContextView) -> ContextView {
    ContextView { relev: (c.relev - penalty(c.entries)) as i128, ..c }
}

/// The relevance of the context is what those of its entries add up to, but for what is taken off
/// less natural ones.
pub open spec fn is_fair(c: ContextView) -> bool {
    &&& c.entries.len() > 0
    &&& c.relev == relev_sum(c.entries) || c.relev == relev_sum(c.entries) - penalty(c.entries)
}

/// All the contexts are fair.
pub open spec fn all_fair(cs: Seq<ContextView>) -> bool {
    forall|i: int| 0 <= i < cs.len() ==> is_fair(#[trigger] cs[i])
}

pub(crate) proof fn penalized_are_fair(cs: Seq<ContextView>)
    requires
        sums_ok(cs),
    ensures
        all_fair(cs),
        all_fair(all_penalized(cs)),
{
    assert forall|i: int| 0 <= i < cs.len() implies is_fair(#[trigger] all_penalized(cs)[i]) by {
        assert(sum_ok(cs[i]));
        relev_sum_bounds(cs[i].entries);
        assert(all_penalized(cs)[i] == penalized(cs[i]));
    }
    assert forall|i: int| 0 <= i < cs.len() implies is_fair(#[trigger] cs[i]) by {
        assert(sum_ok(cs[i]));
    }
}

/// A copy of the context with what is taken off for less natural ones.
fn penalize_multi_context(c: &CoalesceContext) -> (p: CoalesceContext)
    requires
        c.entries@.len() > 0,
        0 <= c.relev < RELEV_LIMIT,
    ensures
        p@ == penalized(c@),
{
    let mut p: CoalesceContext = c.copied();
    if p.entries.len() == 1 || p.entries[0].mask < p.entries[1].mask {
        p.relev = p.relev - CONTEXT_PENALTY;
    }
    p
}

// ---------------------------------------------------------------------------------------------
// Matches
// ---------------------------------------------------------------------------------------------

/// The place and feature of a match as a number.
pub open spec fn grid_code(g: MatchEntry) -> u64 {
    (g.grid_entry.x * 0x1_0000_0000_0000 + g.grid_entry.y * 0x1_0000_0000 + g.grid_entry.id) as u64
}

/// The matches without those of a place and feature that occurred before.
pub open spec fn unique_grids(grids: Seq<MatchEntry>) -> Seq<MatchEntry>
    decreases grids.len(),
{
    if grids.len() == 0 {
        Seq::empty()
    } else {
        let before = unique_grids(grids.drop_last());
        if exists|j: int|
            0 <= j < grids.len() - 1 && grid_code(#[trigger] grids[j]) == grid_code(grids.last()) {
            before
        } else {
            before.push(grids.last())
        }
    }
}

/// Leaves out matches of a place and feature that occurred before.
pub(crate) fn dedup_grids(grids: &Vec<MatchEntry>) -> (data: Vec<MatchEntry>)
    ensures
        data@ == unique_grids(grids@),
{
    let ghost v = grids@;
    let mut unique_ids: SeenSet = SeenSet::new();
    let mut data: Vec<MatchEntry> = Vec::new();
    let mut i: usize = 0;
    assert(v.take(0) =~= Seq::empty());
    while i < grids.len()
        invariant
            i <= grids@.len(),
            v == grids@,
            data@ == unique_grids(v.take(i as int)),
            forall|code: u64| #[trigger]
                seen_items(unique_ids).contains(code) <==> exists|j: int|
                    0 <= j < i && grid_code(#[trigger] v[j]) == code,
        decreases grids@.len() - i,
    {
        let g: MatchEntry = grids[i];
        let code: u64 = g.grid_entry.x as u64 * 0x1_0000_0000_0000 + g.grid_entry.y as u64
            * 0x1_0000_0000 + g.grid_entry.id as u64;
        let ghost seen = seen_items(unique_ids);
        let fresh: bool = unique_ids.insert(code);
        if fresh {
            data.push(g);
        }
        proof {
            let t = v.take(i + 1);
            assert(t.drop_last() =~= v.take(i as int));
            assert(t.last() == g && code == grid_code(g));
            assert((exists|j: int| 0 <= j < t.len() - 1 && grid_code(#[trigger] t[j]) == grid_code(
                t.last(),
            )) <==> seen.contains(code)) by {
                if seen.contains(code) {
                    let j = choose|j: int| 0 <= j < i && grid_code(#[trigger] v[j]) == code;
                    assert(t[j] == v[j]);
                }
                if exists|j: int|
                    0 <= j < t.len() - 1 && grid_code(#[trigger] t[j]) == grid_code(t.last()) {
                    let j = choose|j: int|
                        0 <= j < t.len() - 1 && grid_code(#[trigger] t[j]) == grid_code(t.last());
                    assert(t[j] == v[j]);
                }
            }
            assert forall|c: u64| #[trigger]
                seen_items(unique_ids).contains(c) <==> exists|j: int|
                    0 <= j < i + 1 && grid_code(#[trigger] v[j]) == c by {
                if seen_items(unique_ids).contains(c) {
                    if c == code {
                        assert(grid_code(v[i as int]) == c);
                    } else {
                        assert(seen.contains(c));
                    }
                }
                if exists|j: int| 0 <= j < i + 1 && grid_code(#[trigger] v[j]) == c {
                    let j = choose|j: int| 0 <= j < i + 1 && grid_code(#[trigger] v[j]) == c;
                    if j < i {
                        assert(seen.contains(c));
                    }
                }
            }
        }
        i += 1;
    }
    assert(v.take(i as int) =~= v);
    data
}

// ---------------------------------------------------------------------------------------------
// Stacking
// ---------------------------------------------------------------------------------------------

/// The first entry of the context lies at the tile.
pub open spec fn lies_at(c: ContextView, x: u16, y: u16) -> bool {
    c.entries[0].grid_entry.x == x && c.entries[0].grid_entry.y == y
}

/// The context with one more entry in front.
pub open spec fn stacked(parent: ContextView, e: CoalesceEntry, mask: u32) -> ContextView {
    ContextView {
        entries: seq![e] + parent.entries,
        mask: parent.mask | mask,
        relev: (parent.relev + e.relev) as i128,
    }
}

/// The places of the contexts at the tile, among the first `n`.
pub open spec fn places_at(cs: Seq<ContextView>, x: u16, y: u16, n: int) -> Seq<int>
    decreases n,
{
    if n <= 0 {
        Seq::empty()
    } else {
        let before = places_at(cs, x, y, n - 1);
        if lies_at(cs[n - 1], x, y) {
            before.push(n - 1)
        } else {
            before
        }
    }
}

/// The contexts that an entry makes: alone where nothing was matched before, and otherwise stacked
/// on each of the contexts in whose tile it lies, `levels` zoom levels further out.
pub open spec fn made_of(
    e: CoalesceEntry,
    prev: Option<Seq<ContextView>>,
    levels: nat,
    mask: u32,
) -> Seq<ContextView> {
    match prev {
        None => seq![single_context(e, mask)],
        Some(cs) => places_at(
            cs,
            zoomed_out(e.grid_entry.x, levels),
            zoomed_out(e.grid_entry.y, levels),
            cs.len() as int,
        ).map_values(|p: int| stacked(cs[p], e, mask)),
    }
}

/// The contexts that the entries make.
pub open spec fn made_of_all(
    es: Seq<CoalesceEntry>,
    prev: Option<Seq<ContextView>>,
    levels: nat,
    mask: u32,
) -> Seq<ContextView>
    decreases es.len(),
{
    if es.len() == 0 {
        Seq::empty()
    } else {
        made_of_all(es.drop_last(), prev, levels, mask) + made_of(es.last(), prev, levels, mask)
    }
}

/// The greatest relevance of the contexts, at least none.
pub open spec fn top_relev(cs: Seq<ContextView>) -> int
    decreases cs.len(),
{
    if cs.len() == 0 {
        0
    } else {
        let before = top_relev(cs.drop_last());
        if cs.last().relev > before {
            cs.last().relev as int
        } else {
            before
        }
    }
}

proof fn top_relev_push(cs: Seq<ContextView>, c: ContextView)
    ensures
        top_relev(cs.push(c)) == (if c.relev > top_relev(cs) {
            c.relev as int
        } else {
            top_relev(cs)
        }),
{
    assert(cs.push(c).drop_last() =~= cs);
}

/// The contexts that a combination matched, and where they lie.
pub struct TreeCoalesceState {
    pub contexts: Vec<CoalesceContext>,
    pub bush: PointIndex,
}

impl TreeCoalesceState {
    /// The index is that of the first entries of the contexts.
    pub open spec fn wf(self) -> bool {
        let cs = contexts_view(self.contexts@);
        &&& sums_ok(cs)
        &&& indexed_points(self.bush).len() == cs.len()
        &&& forall|i: int|
            0 <= i < cs.len() ==> #[trigger] indexed_points(self.bush)[i] == (
                cs[i].entries[0].grid_entry.x,
                cs[i].entries[0].grid_entry.y,
            )
    }

    /// The contexts of a combination. The index numbers them in 32 bits.
    pub(crate) fn new(contexts: Vec<CoalesceContext>) -> (state: TreeCoalesceState)
        requires
            sums_ok(contexts_view(contexts@)),
            contexts@.len() <= u32::MAX,
        ensures
            state.wf(),
            contexts_view(state.contexts@) == contexts_view(contexts@),
    {
        let ghost cs = contexts_view(contexts@);
        let mut points: Vec<(u16, u16)> = Vec::new();
        let mut i: usize = 0;
        while i < contexts.len()
            invariant
                i <= contexts@.len(),
                cs == contexts_view(contexts@),
                sums_ok(cs),
                points@.len() == i,
                forall|j: int|
                    0 <= j < i ==> #[trigger] points@[j] == (
                        cs[j].entries[0].grid_entry.x,
                        cs[j].entries[0].grid_entry.y,
                    ),
            decreases contexts@.len() - i,
        {
            assert(sum_ok(cs[i as int]));
            assert(cs[i as int] == contexts@[i as int]@);
            let e: CoalesceEntry = contexts[i].entries[0];
            points.push((e.grid_entry.x, e.grid_entry.y));
            i += 1;
        }
        let bush: PointIndex = PointIndex::build(&points);
        TreeCoalesceState { contexts, bush }
    }

    /// The places of the contexts at a tile.
    fn hits(&self, x: u16, y: u16) -> (places: Vec<usize>)
        requires
            self.wf(),
            self.contexts@.len() <= u32::MAX,
        ensures
            places@.map_values(|p: usize| p as int) == places_at(
                contexts_view(self.contexts@),
                x,
                y,
                self.contexts@.len() as int,
            ),
            forall|k: int| 0 <= k < places@.len() ==> #[trigger] places@[k] < self.contexts@.len(),
    {
        let ghost cs = contexts_view(self.contexts@);
        let found: Vec<usize> = self.bush.exact(x, y);
        let mut wide: Vec<u128> = Vec::new();
        let mut i: usize = 0;
        while i < found.len()
            invariant
                i <= found@.len(),
                wide@.len() == i,
                forall|j: int|
                    #![trigger wide@[j]]
                    #![trigger found@[j]]
                    0 <= j < i ==> wide@[j] == found@[j],
            decreases found@.len() - i,
        {
            wide.push(found[i] as u128);
            i += 1;
        }
        let ghost before = wide@;
        sort_keys(&mut wide);
        proof {
            broadcast use vstd::seq_lib::group_to_multiset_ensures;

            assert(wide@.to_multiset().len() == wide@.len());
            assert(before.to_multiset().len() == before.len());
            assert(before.no_duplicates());
            before.lemma_multiset_has_no_duplicates();
            wide@.lemma_multiset_has_no_duplicates_conv();
        }
        let mut places: Vec<usize> = Vec::new();
        let mut k: usize = 0;
        while k < wide.len()
            invariant
                k <= wide@.len(),
                self.wf(),
                cs == contexts_view(self.contexts@),
                before.to_multiset() == wide@.to_multiset(),
                before.len() == found@.len(),
                forall|j: int|
                    #![trigger before[j]]
                    #![trigger found@[j]]
                    0 <= j < before.len() ==> before[j] == found@[j],
                are_hits(indexed_points(self.bush), (x, y), found@),
                places@.len() == k,
                forall|j: int|
                    #![trigger places@[j]]
                    0 <= j < k ==> places@[j] == wide@[j] && places@[j] < cs.len() && lies_at(
                        cs[places@[j] as int],
                        x,
                        y,
                    ),
            decreases wide@.len() - k,
        {
            proof {
                let q = crate::order::place_in(wide@, before, k as int);
                assert(before[q] == found@[q]);
                assert(found@.contains(found@[q]));
            }
            places.push(wide[k] as usize);
            k += 1;
        }
        proof {
            let p = places@.map_values(|p: usize| p as int);
            assert forall|a: int, b: int| 0 <= a < b < p.len() implies #[trigger] p[a]
                < #[trigger] p[b] by {
                assert(places@[a] == wide@[a] && places@[b] == wide@[b]);
                assert(wide@[a] <= wide@[b] && wide@[a] != wide@[b]);
            }
            assert forall|j: int| 0 <= j < cs.len() && lies_at(cs[j], x, y) implies p.contains(
                j,
            ) by {
                assert(indexed_points(self.bush)[j] == (x, y));
                assert(found@.contains(j as usize));
                let q = choose|q: int| 0 <= q < found@.len() && found@[q] == j as usize;
                assert(before[q] == j);
                let w = crate::order::place_in(before, wide@, q);
                assert(places@[w] == j);
                assert(p[w] == j);
            }
            assert forall|a: int| 0 <= a < p.len() implies 0 <= #[trigger] p[a] < cs.len()
                && lies_at(cs[p[a]], x, y) by {
                assert(places@[a] < cs.len());
            }
            ascending_places(cs, x, y, cs.len() as int, p);
        }
        places
    }
}

/// The ascending places of the contexts at a tile are `places_at`.
proof fn ascending_places(cs: Seq<ContextView>, x: u16, y: u16, n: int, p: Seq<int>)
    requires
        0 <= n <= cs.len(),
        forall|a: int, b: int| 0 <= a < b < p.len() ==> #[trigger] p[a] < #[trigger] p[b],
        forall|a: int|
            #![trigger p[a]]
            0 <= a < p.len() ==> 0 <= p[a] && p[a] < n && lies_at(cs[p[a]], x, y),
        forall|j: int|
            #![trigger p.contains(j)]
            0 <= j < n && lies_at(cs[j], x, y) ==> p.contains(j),
    ensures
        p == places_at(cs, x, y, n),
    decreases n,
{
    if n == 0 {
        if p.len() > 0 {
            assert(p[0] < 0);
        }
        assert(p =~= places_at(cs, x, y, n));
    } else if lies_at(cs[n - 1], x, y) {
        assert(p.contains(n - 1));
        let a = choose|a: int| 0 <= a < p.len() && p[a] == n - 1;
        if a < p.len() - 1 {
            assert(p[a] < p[p.len() - 1]);
        }
        let rest = p.drop_last();
        assert forall|j: int| 0 <= j < n - 1 && lies_at(cs[j], x, y) implies rest.contains(j) by {
            assert(p.contains(j));
            let b = choose|b: int| 0 <= b < p.len() && p[b] == j;
            assert(rest[b] == j);
        }
        assert forall|b: int| 0 <= b < rest.len() implies 0 <= #[trigger] rest[b] < n - 1
            && lies_at(cs[rest[b]], x, y) by {
            assert(p[b] < p[p.len() - 1]);
        }
        ascending_places(cs, x, y, n - 1, rest);
        assert(p =~= rest.push(n - 1));
    } else {
        assert forall|b: int| 0 <= b < p.len() implies 0 <= #[trigger] p[b] < n - 1 && lies_at(
            cs[p[b]],
            x,
            y,
        ) by {}
        ascending_places(cs, x, y, n - 1, p);
    }
}

/// What the contexts are worth to the queue.
pub open spec fn all_penalized(cs: Seq<ContextView>) -> Seq<ContextView> {
    cs.map_values(|c: ContextView| penalized(c))
}

proof fn queued_all_push(items: Seq<ContextView>, cs: Seq<ContextView>, c: ContextView, max: nat)
    ensures
        queued_all(items, cs.push(c), max) == queued(queued_all(items, cs, max), c, max),
{
    assert(cs.push(c).drop_last() =~= cs);
}

/// The contexts with their results: the best of them for the queue, all of them to be stacked on,
/// and the greatest relevance.
pub struct Harvest {
    pub queue: ConstrainedPriorityQueue,
    pub state: Vec<CoalesceContext>,
    pub relev: i128,
}

/// What was harvested is that of the contexts `made`; the queue is that of the last of them.
pub open spec fn harvest_ok(h: Harvest, keep: bool, made: Seq<ContextView>, last: Seq<ContextView>) -> bool {
    &&& h.queue.wf()
    &&& h.queue.max_size == MAX_CONTEXTS
    &&& h.queue@ == queued_all(Seq::empty(), all_penalized(last), MAX_CONTEXTS as nat)
    &&& contexts_view(h.state@) == (if keep {
        made
    } else {
        Seq::empty()
    })
    &&& sums_ok(made)
    &&& h.relev == top_relev(made)
    &&& 0 <= h.relev <= 0x1_0000_0000_0000_0000 * MAX_ENTRY_RELEV
}

impl Harvest {
    /// Adds a context.
    fn take(
        &mut self,
        c: CoalesceContext,
        keep: bool,
        Ghost(made): Ghost<Seq<ContextView>>,
        Ghost(last): Ghost<Seq<ContextView>>,
    )
        requires
            harvest_ok(*old(self), keep, made, last),
            sum_ok(c@),
        ensures
            harvest_ok(*final(self), keep, made.push(c@), last.push(c@)),
    {
        let ghost cv = c@;
        let n: usize = c.entries.len();
        proof {
            sum_in_bounds(cv);
        }
        let p: CoalesceContext = penalize_multi_context(&c);
        let ghost pv = p@;
        self.queue.push(p);
        if c.relev > self.relev {
            self.relev = c.relev;
        }
        proof {
            assert(all_penalized(last.push(cv)) =~= all_penalized(last).push(pv));
            queued_all_push(Seq::empty(), all_penalized(last), pv, MAX_CONTEXTS as nat);
            top_relev_push(made, cv);
            sums_ok_push(made, cv);
        }
        if keep {
            let ghost had = self.state@;
            self.state.push(c);
            assert(contexts_view(self.state@) =~= contexts_view(had).push(cv));
        }
    }
}

/// The context with one more entry in front.
fn stack_entry(parent: &CoalesceContext, e: &CoalesceEntry, mask: u32) -> (c: CoalesceContext)
    requires
        sum_ok(parent@),
        entry_ok(*e),
    ensures
        c@ == stacked(parent@, *e, mask),
        sum_ok(c@),
{
    let n: usize = parent.entries.len();
    proof {
        sum_in_bounds(parent@);
        relev_sum_front(*e, parent.entries@);
    }
    let copy: CoalesceContext = parent.copied();
    let mut entries: Vec<CoalesceEntry> = copy.entries;
    entries.insert(0, *e);
    let c = CoalesceContext {
        entries,
        mask: parent.mask | mask,
        relev: parent.relev + e.relev,
    };
    proof {
        assert(c.entries@ =~= seq![*e] + parent.entries@);
        assert(c@ =~= stacked(parent@, *e, mask));
        assert forall|i: int| 0 <= i < c@.entries.len() implies entry_ok(
            #[trigger] c@.entries[i],
        ) by {
            if i > 0 {
                assert(entry_ok(parent@.entries[i - 1]));
            }
        }
    }
    c
}

/// Whatever was matched before.
pub open spec fn prev_contexts(prev: Option<Arc<TreeCoalesceState>>) -> Option<Seq<ContextView>> {
    match prev {
        Some(state) => Some(contexts_view(state.contexts@)),
        None => None,
    }
}

pub open spec fn prev_ok(prev: Option<Arc<TreeCoalesceState>>) -> bool {
    prev matches Some(state) ==> state.wf() && state.contexts@.len() <= u32::MAX
}

/// Harvests the contexts that the matches of a key make.
pub(crate) fn harvest_key(
    h: &mut Harvest,
    subquery: &PhrasematchSubquery,
    match_opts: &MatchOpts,
    grids: &Vec<MatchEntry>,
    prev: &Option<Arc<TreeCoalesceState>>,
    levels: u16,
    key_id: u32,
    keep: bool,
    Ghost(made): Ghost<Seq<ContextView>>,
)
    requires
        harvest_ok(*old(h), keep, made, Seq::empty()),
        match_opts.zoom == subquery.store.zoom,
        prev_ok(*prev),
    ensures
        harvest_ok(
            *final(h),
            keep,
            made + made_of_all(
                coalesce_entries(grids@, *subquery, key_id),
                prev_contexts(*prev),
                levels as nat,
                subquery.mask,
            ),
            made_of_all(
                coalesce_entries(grids@, *subquery, key_id),
                prev_contexts(*prev),
                levels as nat,
                subquery.mask,
            ),
        ),
{
    let ghost es = coalesce_entries(grids@, *subquery, key_id);
    let ghost pv = prev_contexts(*prev);
    let ghost mask = subquery.mask;
    let mut i: usize = 0;
    proof {
        assert(es.take(0) =~= Seq::empty());
        assert(made + Seq::<ContextView>::empty() =~= made);
    }
    while i < grids.len()
        invariant
            i <= grids@.len(),
            match_opts.zoom == subquery.store.zoom,
            prev_ok(*prev),
            es == coalesce_entries(grids@, *subquery, key_id),
            pv == prev_contexts(*prev),
            mask == subquery.mask,
            harvest_ok(
                *h,
                keep,
                made + made_of_all(es.take(i as int), pv, levels as nat, mask),
                made_of_all(es.take(i as int), pv, levels as nat, mask),
            ),
        decreases grids@.len() - i,
    {
        let e: CoalesceEntry = grid_to_coalesce_entry(&grids[i], subquery, match_opts, key_id);
        let ghost last = made_of_all(es.take(i as int), pv, levels as nat, mask);
        let ghost more = made_of(e, pv, levels as nat, mask);
        proof {
            assert(es.take(i + 1).drop_last() =~= es.take(i as int));
            assert(es.take(i + 1).last() == e);
        }
        match prev {
            Some(state) => {
                let x: u16 = zoom_out(e.grid_entry.x, levels);
                let y: u16 = zoom_out(e.grid_entry.y, levels);
                let places: Vec<usize> = state.hits(x, y);
                let ghost cs = contexts_view(state.contexts@);
                let ghost wide = places@.map_values(|p: usize| p as int);
                let mut k: usize = 0;
                proof {
                    assert(more.take(0) =~= Seq::empty());
                    assert(made + last + Seq::<ContextView>::empty() =~= made + last);
                    assert(last + Seq::<ContextView>::empty() =~= last);
                    assert(more.len() == places@.len()) by {
                        assert(wide.len() == places@.len());
                    }
                }
                while k < places.len()
                    invariant
                        k <= places@.len() == more.len(),
                        entry_ok(e),
                        state.wf(),
                        cs == contexts_view(state.contexts@),
                        mask == subquery.mask,
                        pv == Some(cs),
                        more == made_of(e, pv, levels as nat, mask),
                        wide == places@.map_values(|p: usize| p as int),
                        wide == places_at(
                            cs,
                            zoomed_out(e.grid_entry.x, levels as nat),
                            zoomed_out(e.grid_entry.y, levels as nat),
                            cs.len() as int,
                        ),
                        forall|k: int|
                            0 <= k < places@.len() ==> #[trigger] places@[k]
                                < state.contexts@.len(),
                        harvest_ok(
                            *h,
                            keep,
                            made + last + more.take(k as int),
                            last + more.take(k as int),
                        ),
                    decreases places@.len() - k,
                {
                    let place: usize = places[k];
                    proof {
                        assert(places@[k as int] < state.contexts@.len());
                        assert(cs[place as int] == state.contexts@[place as int]@);
                        assert(sum_ok(cs[place as int]));
                        assert(wide[k as int] == place);
                        assert(more[k as int] == stacked(cs[place as int], e, mask));
                    }
                    let c: CoalesceContext = stack_entry(
                        &state.contexts[place],
                        &e,
                        subquery.mask,
                    );
                    let ghost cv = c@;
                    h.take(
                        c,
                        keep,
                        Ghost(made + last + more.take(k as int)),
                        Ghost(last + more.take(k as int)),
                    );
                    k += 1;
                    proof {
                        assert(more.take(k as int) =~= more.take(k - 1).push(cv));
                        assert(made + last + more.take(k as int) =~= (made + last + more.take(
                            k - 1,
                        )).push(cv));
                        assert(last + more.take(k as int) =~= (last + more.take(k - 1)).push(cv));
                    }
                }
                assert(more.take(k as int) =~= more);
            },
            None => {
                let c: CoalesceContext = make_single(e, subquery.mask);
                let ghost cv = c@;
                proof {
                    single_sum_ok(e, subquery.mask);
                }
                h.take(c, keep, Ghost(made + last), Ghost(last));
                proof {
                    assert(more =~= seq![cv]);
                    assert(made + last + more =~= (made + last).push(cv));
                    assert(last + more =~= last.push(cv));
                }
            },
        }
        i += 1;
        proof {
            assert(made_of_all(es.take(i as int), pv, levels as nat, mask) == last + more);
            assert(made + (last + more) =~= made + last + more);
        }
    }
    assert(es.take(i as int) =~= es);
}

} // verus!
