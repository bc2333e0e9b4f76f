//! In which order matches and the contexts of an answer come, and what their entries tell.

use vstd::prelude::*;

use crate::coalesce::{
    best_entries, coalesce_entries, coalesce_entry, entry_before, is_best_order, is_single_answer,
    top_contexts, top_count, top_count_bounds, CoalesceEntry, ContextView,
};
use crate::common::MatchOpts;
use crate::contexts::{phrase_relev_fits, selections_are_sound};
use crate::decode::{comes_before, is_ranked, FlatView, MatchEntry, Meter, ScoredView};
use crate::multi::{is_multi_answer, selection};
use crate::spatial::{Measure, OptsView};
use crate::stackable::PhrasematchSubquery;
use crate::walk::{is_walk_answer, WalkView};

verus! {

/// A context may come before another: it is more relevant; or it is as relevant, and its first
/// entry ranks higher; then the index of the first entry is the lower one; then the first entry lies
/// further to the east, then further to the south; then its feature has the higher number, or the
/// same.
pub open spec fn may_come_before(a: ContextView, b: ContextView) -> bool {
    let p = a.entries[0];
    let q = b.entries[0];
    let g = p.grid_entry;
    let h = q.grid_entry;
    a.relev > b.relev || (a.relev == b.relev && (p.scoredist > q.scoredist || (p.scoredist
        == q.scoredist && (p.idx < q.idx || (p.idx == q.idx && (g.x > h.x || (g.x == h.x && (g.y
        > h.y || (g.y == h.y && g.id >= h.id)))))))))
}

/// What answers a query of several phrases comes in order, and so does what is selected of it.
pub proof fn answers_of_phrases_come_in_order<F: Fn(u64, u16, u64, u8) -> Measure>(
    stack: Seq<PhrasematchSubquery>,
    opts: MatchOpts,
    scale: F,
    contexts: Seq<ContextView>,
)
    requires
        is_multi_answer(stack, opts, scale, contexts),
    ensures
        forall|i: int, j: int|
            0 <= i < j < contexts.len() ==> may_come_before(
                #[trigger] contexts[i],
                #[trigger] contexts[j],
            ),
        forall|i: int, j: int|
            0 <= i < j < selection(contexts).len() ==> may_come_before(
                #[trigger] selection(contexts)[i],
                #[trigger] selection(contexts)[j],
            ),
{
    selections_are_sound(contexts);
}

/// What a walk along a tree answers comes in order.
pub proof fn answers_of_trees_come_in_order(end: WalkView, out: Seq<ContextView>)
    requires
        is_walk_answer(end, out),
    ensures
        forall|i: int, j: int|
            0 <= i < j < out.len() ==> may_come_before(#[trigger] out[i], #[trigger] out[j]),
{
}

/// What answers a query of a single phrase comes by falling relevance, then by falling rank, then
/// from north to south, then from west to east, then by ascending feature.
pub proof fn answers_of_a_phrase_come_in_order(
    grids: Seq<MatchEntry>,
    part: PhrasematchSubquery,
    has_proximity: bool,
    out: Seq<ContextView>,
    i: int,
    j: int,
)
    requires
        is_single_answer(grids, part, has_proximity, out),
        0 <= i < j < out.len(),
    ensures
        ({
            let p = out[i].entries[0];
            let q = out[j].entries[0];
            let g = p.grid_entry;
            let h = q.grid_entry;
            out[i].relev > out[j].relev || (out[i].relev == out[j].relev && (p.scoredist
                > q.scoredist || (p.scoredist == q.scoredist && (g.y < h.y || (g.y == h.y && (g.x
                < h.x || (g.x == h.x && g.id < h.id)))))))
        }),
{
    let best = best_entries(coalesce_entries(grids, part, 0), has_proximity);
    let sorted = choose|sorted: Seq<CoalesceEntry>| #[trigger]
        is_best_order(best, sorted) && out == top_contexts(sorted);
    top_count_bounds(sorted, 0);
    assert(out.len() == top_count(sorted, 0));
    assert(out[i].entries[0] == sorted[i] && out[j].entries[0] == sorted[j]);
    assert(entry_before(sorted[i], sorted[j]));
}

/// The matches of a stored value at one relevance come by falling rank; at the same rank the nearer
/// ones first; then from north to south; then from west to east.
pub proof fn coordinates_come_in_order(
    run: Seq<ScoredView>,
    flats: Seq<FlatView>,
    opts: OptsView,
    meter: Meter,
    i: int,
    j: int,
)
    requires
        is_ranked(run, flats, opts, meter),
        0 <= i < j < run.len(),
    ensures
        ({
            let a = run[i];
            let b = run[j];
            a.scoredist > b.scoredist || (a.scoredist == b.scoredist && (a.distance < b.distance || (
            a.distance == b.distance && (a.y < b.y || (a.y == b.y && a.x <= b.x)))))
        }),
{
    assert(!comes_before(run[j], run[i]));
}

/// An entry of a context tells what its match and its part do: its relevance is that of the match
/// times the weight of the part.
pub proof fn entries_tell_of_their_matches(
    grid: MatchEntry,
    part: PhrasematchSubquery,
    phrasematch_id: u32,
)
    ensures
        ({
            let e = coalesce_entry(grid, part, phrasematch_id);
            &&& e.grid_entry == grid.grid_entry
            &&& e.relev == grid.grid_entry.relev * part.weight
            &&& e.matches_language == grid.matches_language
            &&& e.distance == grid.distance
            &&& e.scoredist == grid.scoredist
            &&& e.idx == part.idx
            &&& e.mask == part.mask
            &&& e.phrasematch_id == phrasematch_id
        }),
{
    phrase_relev_fits(grid, part);
}

/// The numbers of features tell features of different indexes apart, and different features of an
/// index: as far as indexes have 8 bits and features 24.
pub proof fn numbers_tell_features_apart(
    a: MatchEntry,
    p: PhrasematchSubquery,
    b: MatchEntry,
    q: PhrasematchSubquery,
    phrasematch_id: u32,
)
    requires
        p.idx < 0x100,
        q.idx < 0x100,
        a.grid_entry.id < 0x100_0000,
        b.grid_entry.id < 0x100_0000,
    ensures
        coalesce_entry(a, p, phrasematch_id).tmp_id == coalesce_entry(b, q, phrasematch_id).tmp_id
            <==> p.idx == q.idx && a.grid_entry.id == b.grid_entry.id,
{
}

} // verus!
