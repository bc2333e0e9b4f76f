//! What holds of all contexts that answer a query.

use vstd::prelude::*;

use crate::coalesce::{
    best_entries, coalesce_entries, coalesce_entry, context_rank, entry_before, is_best_order,
    is_single_answer, single_context, single_states, temporary_id, top_contexts, top_count,
    top_count_bounds, with_better, CoalesceEntry, ContextView, MAX_CONTEXTS, MAX_ENTRY_RELEV,
    MAX_RELEVANCE_GAP, SINGLE_FETCH,
};
use crate::common::MatchOpts;
use crate::decode::{meter_of, MatchEntry};
use crate::multi::{
    are_contexts, are_phrase_matches, best_first, contexts_at, entry_ok, grown, grown_across,
    grown_all, grown_over, is_multi_answer, joined, multi_contexts, multi_state, other_zooms,
    penalty, relevant, relevant_in, selected, selected_all, selection, sprout, stack_num,
    stack_order, swept, swept_all, tile_number, with_context, Growth, Selection, Sweep, Tiles,
};
use crate::order::{in_order, in_order_exists, num_u64, place_in, set_members};
use crate::rank::rank_below;
use crate::spatial::{zoomed_out, Measure};
use crate::stackable::PhrasematchSubquery;
use crate::store::answers_query;
use crate::tree::relev_sum;

verus! {

// ---------------------------------------------------------------------------------------------
// Selections
// ---------------------------------------------------------------------------------------------

/// No two of the contexts begin with the same feature of an index.
pub open spec fn features_differ(contexts: Seq<ContextView>) -> bool {
    forall|i: int, j: int|
        0 <= i < j < contexts.len() ==> (#[trigger] contexts[i]).entries[0].tmp_id != (
        #[trigger] contexts[j]).entries[0].tmp_id
}

/// The selected contexts stand in `contexts` at these places, which ascend.
spec fn places_ok(s: Selection, contexts: Seq<ContextView>, places: Seq<int>) -> bool {
    &&& places.len() == s.out.len()
    &&& forall|i: int|
        #![trigger places[i]]
        0 <= i < places.len() ==> 0 <= places[i] < contexts.len() && s.out[i]
            == contexts[places[i]]
    &&& forall|i: int, j: int| 0 <= i < j < places.len() ==> places[i] < places[j]
}

spec fn selection_ok(s: Selection, max_relev: int) -> bool {
    &&& s.out.len() <= MAX_CONTEXTS
    &&& features_differ(s.out)
    &&& forall|i: int|
        0 <= i < s.out.len() ==> s.seen.contains((#[trigger] s.out[i]).entries[0].tmp_id as u64)
            && max_relev - s.out[i].relev < MAX_RELEVANCE_GAP
}

proof fn selected_all_ok(contexts: Seq<ContextView>, max_relev: int) -> (places: Seq<int>)
    ensures
        selection_ok(selected_all(contexts, max_relev), max_relev),
        places_ok(selected_all(contexts, max_relev), contexts, places),
    decreases contexts.len(),
{
    if contexts.len() == 0 {
        Seq::empty()
    } else {
        let rest = contexts.drop_last();
        let before = selected_all(rest, max_relev);
        let places = selected_all_ok(rest, max_relev);
        let c = contexts.last();
        let after = selected(before, c, max_relev);
        assert(after == selected_all(contexts, max_relev));
        assert forall|i: int| #![trigger places[i]] 0 <= i < places.len() implies rest[places[i]]
            == contexts[places[i]] by {}
        if after.out == before.out {
            places
        } else {
            assert(after.out == before.out.push(c));
            let more = places.push(contexts.len() - 1);
            assert forall|i: int, j: int| 0 <= i < j < after.out.len() implies (
            #[trigger] after.out[i]).entries[0].tmp_id != (
            #[trigger] after.out[j]).entries[0].tmp_id by {
                assert(after.out[i] == before.out[i]);
                if j < before.out.len() {
                    assert(after.out[j] == before.out[j]);
                } else {
                    assert(before.seen.contains(before.out[i].entries[0].tmp_id as u64));
                }
            }
            assert forall|i: int| 0 <= i < after.out.len() implies after.seen.contains(
                (#[trigger] after.out[i]).entries[0].tmp_id as u64,
            ) && max_relev - after.out[i].relev < MAX_RELEVANCE_GAP by {
                if i < before.out.len() {
                    assert(after.out[i] == before.out[i]);
                }
            }
            more
        }
    }
}

/// An answer has at most the allowed number of contexts, each feature at the front of one of them
/// at most, none less relevant than the first by the allowed gap; it keeps the order of the
/// contexts that it is selected from and begins with the first of them.
pub proof fn selections_are_sound(contexts: Seq<ContextView>)
    ensures
        selection(contexts).len() <= 40,
        features_differ(selection(contexts)),
        forall|i: int|
            0 <= i < selection(contexts).len() ==> contexts[0].relev - (#[trigger] selection(
                contexts,
            )[i]).relev < MAX_RELEVANCE_GAP,
        best_first(contexts) ==> best_first(selection(contexts)),
        contexts.len() > 0 ==> selection(contexts).len() > 0 && selection(contexts)[0]
            == contexts[0],
{
    if contexts.len() > 0 {
        let max = contexts[0].relev as int;
        let places = selected_all_ok(contexts, max);
        let out = selection(contexts);
        if best_first(contexts) {
            assert forall|i: int, j: int| 0 <= i < j < out.len() implies !rank_below(
                context_rank(#[trigger] out[i], 0),
                context_rank(#[trigger] out[j], 0),
            ) by {
                assert(places[i] < places[j]);
                assert(out[i] == contexts[places[i]] && out[j] == contexts[places[j]]);
            }
        }
        selection_begins(contexts, max);
    }
}

proof fn selection_begins(contexts: Seq<ContextView>, max_relev: int)
    requires
        contexts.len() > 0,
        max_relev == contexts[0].relev,
    ensures
        selected_all(contexts, max_relev).out.len() > 0,
        selected_all(contexts, max_relev).out[0] == contexts[0],
    decreases contexts.len(),
{
    let rest = contexts.drop_last();
    if rest.len() > 0 {
        assert(rest[0] == contexts[0]);
        selection_begins(rest, max_relev);
    } else {
        assert(selected_all(rest, max_relev) == (Selection {
            out: Seq::empty(),
            seen: Set::empty(),
            done: false,
        }));
    }
}

/// The context stands at the place, and none before it begins with the same feature.
pub open spec fn is_first_of(contexts: Seq<ContextView>, f: int, c: ContextView) -> bool {
    &&& 0 <= f < contexts.len()
    &&& contexts[f] == c
    &&& forall|g: int|
        0 <= g < f ==> (#[trigger] contexts[g]).entries[0].tmp_id != c.entries[0].tmp_id
}

/// The context is the first that begins with its feature.
pub open spec fn comes_first(contexts: Seq<ContextView>, c: ContextView) -> bool {
    exists|f: int| is_first_of(contexts, f, c)
}

/// One of the contexts begins with the feature.
pub open spec fn has_feature(out: Seq<ContextView>, tmp_id: u32) -> bool {
    exists|k: int| 0 <= k < out.len() && (#[trigger] out[k]).entries[0].tmp_id == tmp_id
}

/// The context stands before the place.
pub open spec fn stands_before(contexts: Seq<ContextView>, c: ContextView, i: int) -> bool {
    exists|f: int| 0 <= f < i && #[trigger] contexts[f] == c
}

proof fn selected_all_complete(contexts: Seq<ContextView>, max_relev: int)
    requires
        forall|i: int, j: int|
            0 <= i < j < contexts.len() ==> (#[trigger] contexts[i]).relev >= (
            #[trigger] contexts[j]).relev,
    ensures
        ({
            let s = selected_all(contexts, max_relev);
            &&& s.out.len() <= MAX_CONTEXTS
            &&& s.done ==> contexts.len() > 0 && (s.out.len() == MAX_CONTEXTS || max_relev
                - contexts.last().relev >= MAX_RELEVANCE_GAP)
            &&& forall|id: u32|
                #![trigger has_feature(s.out, id)]
                s.seen.contains(id as u64) <==> has_feature(s.out, id)
            &&& forall|k: int|
                0 <= k < s.out.len() ==> comes_first(contexts, #[trigger] s.out[k])
            &&& forall|i: int|
                #![trigger contexts[i]]
                0 <= i < contexts.len() && max_relev - contexts[i].relev < MAX_RELEVANCE_GAP
                    ==> has_feature(s.out, contexts[i].entries[0].tmp_id) || (s.out.len()
                    == MAX_CONTEXTS && forall|k: int|
                    0 <= k < s.out.len() ==> stands_before(contexts, #[trigger] s.out[k], i))
        }),
    decreases contexts.len(),
{
    if contexts.len() > 0 {
        let rest = contexts.drop_last();
        let n = rest.len() as int;
        let c = contexts.last();
        assert(contexts[n] == c);
        assert forall|i: int| 0 <= i < n implies #[trigger] rest[i] == contexts[i] by {}
        selected_all_complete(rest, max_relev);
        let before = selected_all(rest, max_relev);
        let s = selected_all(contexts, max_relev);
        if n > 0 {
            assert(rest.last() == contexts[n - 1]);
            assert(contexts[n - 1].relev >= contexts[n].relev);
        }
        assert forall|k: int| 0 <= k < before.out.len() implies comes_first(
            contexts,
            #[trigger] before.out[k],
        ) && stands_before(contexts, before.out[k], n) by {
            assert(comes_first(rest, before.out[k]));
            let f = choose|f: int| is_first_of(rest, f, before.out[k]);
            assert(rest[f] == contexts[f]);
            assert forall|g: int| 0 <= g < f implies (#[trigger] contexts[g]).entries[0].tmp_id
                != before.out[k].entries[0].tmp_id by {
                assert(rest[g] == contexts[g]);
            }
            assert(is_first_of(contexts, f, before.out[k]));
        }
        let id = c.entries[0].tmp_id;
        let taken = s.out.len() > before.out.len();
        if taken {
            assert(s.out == before.out.push(c));
            assert(!has_feature(before.out, id));
            assert(is_first_of(contexts, n, c)) by {
                assert forall|g: int| 0 <= g < n implies (#[trigger] contexts[g]).entries[0].tmp_id
                    != id by {
                    assert(rest[g] == contexts[g]);
                    assert(contexts[g].relev >= contexts[n].relev);
                }
            }
            assert(s.out[before.out.len() as int] == c);
        }
        assert forall|f: u32| #![trigger has_feature(s.out, f)]
            s.seen.contains(f as u64) <==> has_feature(s.out, f) by {
            assert(before.seen.contains(f as u64) <==> has_feature(before.out, f));
            if has_feature(before.out, f) {
                let k = choose|k: int|
                    0 <= k < before.out.len() && (#[trigger] before.out[k]).entries[0].tmp_id == f;
                assert(s.out[k] == before.out[k]);
            }
            if taken && f == id {
                assert(s.out[before.out.len() as int].entries[0].tmp_id == f);
            }
            if has_feature(s.out, f) {
                let k = choose|k: int|
                    0 <= k < s.out.len() && (#[trigger] s.out[k]).entries[0].tmp_id == f;
                if k < before.out.len() {
                    assert(before.out[k] == s.out[k]);
                }
            }
        }
        assert forall|k: int| 0 <= k < s.out.len() implies comes_first(
            contexts,
            #[trigger] s.out[k],
        ) by {
            if k < before.out.len() {
                assert(s.out[k] == before.out[k]);
            } else {
                assert(is_first_of(contexts, n, s.out[k]));
            }
        }
        assert forall|i: int| #![trigger contexts[i]]
            0 <= i < contexts.len() && max_relev - contexts[i].relev
                < MAX_RELEVANCE_GAP implies has_feature(s.out, contexts[i].entries[0].tmp_id) || (
        s.out.len() == MAX_CONTEXTS && forall|k: int|
            0 <= k < s.out.len() ==> stands_before(contexts, #[trigger] s.out[k], i)) by {
            let f = contexts[i].entries[0].tmp_id;
            assert(s.seen.contains(f as u64) <==> has_feature(s.out, f));
            if i < n {
                assert(rest[i] == contexts[i]);
                if has_feature(before.out, f) {
                    assert(before.seen.contains(f as u64));
                    assert(s.seen.contains(f as u64));
                } else {
                    assert forall|k: int| 0 <= k < s.out.len() implies stands_before(
                        contexts,
                        #[trigger] s.out[k],
                        i,
                    ) by {
                        assert(s.out[k] == before.out[k]);
                        assert(stands_before(rest, before.out[k], i));
                        let g = choose|g: int| 0 <= g < i && #[trigger] rest[g] == before.out[k];
                        assert(contexts[g] == s.out[k]);
                    }
                }
            } else {
                if !has_feature(s.out, f) {
                    assert(s.out == before.out);
                }
            }
        }
    }
}

/// The selection leaves nothing out that is relevant enough: where the contexts come by falling
/// relevance, and one is less relevant than the first by less than the allowed gap, the answer has
/// the first of the contexts that begin with the same feature, or it has as many contexts as are
/// allowed, all of which come earlier.
pub proof fn selections_are_complete(contexts: Seq<ContextView>, i: int)
    requires
        forall|i: int, j: int|
            0 <= i < j < contexts.len() ==> (#[trigger] contexts[i]).relev >= (
            #[trigger] contexts[j]).relev,
        0 <= i < contexts.len(),
        contexts[0].relev - contexts[i].relev < 250_000_000_000,
    ensures
        ({
            let out = selection(contexts);
            ||| exists|k: int, f: int|
                #![trigger is_first_of(contexts, f, out[k])]
                0 <= k < out.len() && is_first_of(contexts, f, out[k])
                    && out[k].entries[0].tmp_id == contexts[i].entries[0].tmp_id
            ||| out.len() == 40 && forall|k: int|
                0 <= k < out.len() ==> stands_before(contexts, #[trigger] out[k], i)
        }),
{
    selected_all_complete(contexts, contexts[0].relev as int);
    let out = selection(contexts);
    let id = contexts[i].entries[0].tmp_id;
    if has_feature(out, id) {
        let k = choose|k: int| 0 <= k < out.len() && (#[trigger] out[k]).entries[0].tmp_id == id;
        assert(comes_first(contexts, out[k]));
        let f = choose|f: int| is_first_of(contexts, f, out[k]);
        assert(is_first_of(contexts, f, out[k]));
    }
}

/// What ranks no lower is no less relevant.
proof fn best_first_falls(contexts: Seq<ContextView>)
    requires
        best_first(contexts),
    ensures
        forall|i: int, j: int|
            0 <= i < j < contexts.len() ==> (#[trigger] contexts[i]).relev >= (
            #[trigger] contexts[j]).relev,
{
    assert forall|i: int, j: int| 0 <= i < j < contexts.len() implies (
    #[trigger] contexts[i]).relev >= (#[trigger] contexts[j]).relev by {
        assert(!rank_below(context_rank(contexts[i], 0), context_rank(contexts[j], 0)));
    }
}

/// Each context of the phrases that is less relevant than the best by less than the allowed gap is
/// in the answer of `coalesce`, or another one that begins with the same feature and is no less
/// relevant, or the answer is full of contexts that are no less relevant.
pub proof fn answers_leave_out_nothing_better<F: Fn(u64, u16, u64, u8) -> Measure>(
    stack: Seq<PhrasematchSubquery>,
    opts: MatchOpts,
    scale: F,
    contexts: Seq<ContextView>,
    i: int,
)
    requires
        stack.len() > 0,
        are_contexts(stack, opts, scale, contexts),
        0 <= i < contexts.len(),
        forall|j: int|
            0 <= j < contexts.len() ==> (#[trigger] contexts[j]).relev - contexts[i].relev
                < 250_000_000_000,
    ensures
        ({
            let out = selection(contexts);
            ||| exists|k: int|
                {
                    &&& 0 <= k < out.len()
                    &&& (#[trigger] out[k]).entries[0].tmp_id == contexts[i].entries[0].tmp_id
                    &&& out[k].relev >= contexts[i].relev
                    &&& contexts.contains(out[k])
                }
            ||| out.len() == 40 && forall|k: int|
                0 <= k < out.len() ==> (#[trigger] out[k]).relev >= contexts[i].relev
        }),
{
    if stack.len() > 1 {
        best_first_falls(contexts);
    } else {
        let grids = choose|grids: Seq<MatchEntry>|
            {
                &&& #[trigger] answers_query(
                    *stack[0].store,
                    stack[0].match_keys@[0].key,
                    opts@,
                    meter_of(scale, stack[0].store.coalesce_radius, opts.zoom),
                    SINGLE_FETCH as nat,
                    grids,
                )
                &&& is_single_answer(grids, stack[0], opts.proximity is Some, contexts)
            };
        single_answers_hold_features_once(grids, stack[0], opts.proximity is Some, contexts);
    }
    selections_are_complete(contexts, i);
    let out = selection(contexts);
    if exists|k: int, f: int|
        #![trigger is_first_of(contexts, f, out[k])]
        0 <= k < out.len() && is_first_of(contexts, f, out[k]) && out[k].entries[0].tmp_id
            == contexts[i].entries[0].tmp_id {
        let (k, f) = choose|k: int, f: int|
            #![trigger is_first_of(contexts, f, out[k])]
            0 <= k < out.len() && is_first_of(contexts, f, out[k]) && out[k].entries[0].tmp_id
                == contexts[i].entries[0].tmp_id;
        assert(f <= i);
        assert(contexts[f] == out[k]);
        assert(out[k].relev >= contexts[i].relev);
    } else {
        assert forall|k: int| 0 <= k < out.len() implies (#[trigger] out[k]).relev
            >= contexts[i].relev by {
            assert(stands_before(contexts, out[k], i));
        }
    }
}

// ---------------------------------------------------------------------------------------------
// One phrase
// ---------------------------------------------------------------------------------------------

/// The contexts of a single phrase hold each feature once, the best first, there are at most the
/// allowed number of them, and none is less relevant than the first by the allowed gap.
pub proof fn single_answers_hold_features_once(
    grids: Seq<MatchEntry>,
    part: PhrasematchSubquery,
    has_proximity: bool,
    out: Seq<ContextView>,
)
    requires
        is_single_answer(grids, part, has_proximity, out),
    ensures
        out.len() <= MAX_CONTEXTS,
        forall|i: int|
            0 <= i < out.len() ==> (#[trigger] out[i]).entries.len() == 1 && out[i].relev
                == out[i].entries[0].relev,
        forall|i: int, j: int|
            0 <= i < j < out.len() ==> (#[trigger] out[i]).entries[0].grid_entry.id != (
            #[trigger] out[j]).entries[0].grid_entry.id && entry_before(
                out[i].entries[0],
                out[j].entries[0],
            ),
        forall|i: int|
            0 <= i < out.len() ==> out[0].relev - (#[trigger] out[i]).relev < MAX_RELEVANCE_GAP,
{
    let best = best_entries(coalesce_entries(grids, part, 0), has_proximity);
    let sorted = choose|sorted: Seq<CoalesceEntry>| #[trigger]
        is_best_order(best, sorted) && out == top_contexts(sorted);
    top_count_bounds(sorted, 0);
    assert forall|i: int| 0 <= i < out.len() implies (#[trigger] out[i]) == single_context(
        sorted[i],
        sorted[i].mask,
    ) by {}
    assert forall|i: int, j: int| 0 <= i < j < out.len() implies (
    #[trigger] out[i]).entries[0].grid_entry.id != (#[trigger] out[j]).entries[0].grid_entry.id
        && entry_before(out[i].entries[0], out[j].entries[0]) by {
        assert(entry_before(sorted[i], sorted[j]));
        if sorted[i].grid_entry.id == sorted[j].grid_entry.id {
            assert(best[sorted[i].grid_entry.id] == sorted[i]);
            assert(best[sorted[j].grid_entry.id] == sorted[j]);
        }
    }
}

/// The best entries are entries of the part.
proof fn best_are_of_part(
    entries: Seq<CoalesceEntry>,
    idx: u16,
    has_proximity: bool,
)
    requires
        forall|i: int|
            0 <= i < entries.len() ==> (#[trigger] entries[i]).tmp_id == temporary_id(
                idx,
                entries[i].grid_entry.id,
            ),
    ensures
        forall|id: u32| #[trigger]
            best_entries(entries, has_proximity).contains_key(id) ==> best_entries(
                entries,
                has_proximity,
            )[id].tmp_id == temporary_id(idx, best_entries(entries, has_proximity)[id].grid_entry.id),
    decreases entries.len(),
{
    if entries.len() > 0 {
        let rest = entries.drop_last();
        assert forall|i: int| 0 <= i < rest.len() implies (#[trigger] rest[i]).tmp_id
            == temporary_id(idx, rest[i].grid_entry.id) by {
            assert(rest[i] == entries[i]);
        }
        best_are_of_part(rest, idx, has_proximity);
        let e = entries.last();
        assert(entries[entries.len() - 1] == e);
        let before = best_entries(rest, has_proximity);
        let after = best_entries(entries, has_proximity);
        assert(after == before || after == with_better(before, e));
        assert forall|id: u32| #[trigger] after.contains_key(id) implies after[id].tmp_id
            == temporary_id(idx, after[id].grid_entry.id) by {
            if id != e.grid_entry.id || after == before {
                assert(before.contains_key(id));
            }
        }
    }
}

proof fn selected_all_keeps(contexts: Seq<ContextView>, max_relev: int)
    requires
        contexts.len() <= MAX_CONTEXTS,
        features_differ(contexts),
        forall|i: int|
            0 <= i < contexts.len() ==> max_relev - (#[trigger] contexts[i]).relev
                < MAX_RELEVANCE_GAP,
    ensures
        selected_all(contexts, max_relev).out == contexts,
        !selected_all(contexts, max_relev).done,
        forall|id: u64| #[trigger]
            selected_all(contexts, max_relev).seen.contains(id) ==> exists|i: int|
                0 <= i < contexts.len() && (#[trigger] contexts[i]).entries[0].tmp_id as u64 == id,
    decreases contexts.len(),
{
    if contexts.len() > 0 {
        let rest = contexts.drop_last();
        let c = contexts.last();
        assert forall|i: int| 0 <= i < rest.len() implies max_relev - (#[trigger] rest[i]).relev
            < MAX_RELEVANCE_GAP by {
            assert(rest[i] == contexts[i]);
        }
        selected_all_keeps(rest, max_relev);
        let before = selected_all(rest, max_relev);
        assert(contexts[contexts.len() - 1] == c);
        if before.seen.contains(c.entries[0].tmp_id as u64) {
            let i = choose|i: int|
                0 <= i < rest.len() && (#[trigger] rest[i]).entries[0].tmp_id as u64
                    == c.entries[0].tmp_id as u64;
            assert(rest[i] == contexts[i]);
        }
        assert(rest.push(c) =~= contexts);
        let after = selected_all(contexts, max_relev);
        assert forall|id: u64| #[trigger] after.seen.contains(id) implies exists|i: int|
            0 <= i < contexts.len() && (#[trigger] contexts[i]).entries[0].tmp_id as u64 == id by {
            if before.seen.contains(id) {
                let i = choose|i: int|
                    0 <= i < rest.len() && (#[trigger] rest[i]).entries[0].tmp_id as u64 == id;
                assert(rest[i] == contexts[i]);
            }
        }
    }
}

/// The entries come by falling relevance.
pub open spec fn relevs_fall(entries: Seq<CoalesceEntry>) -> bool {
    &&& forall|i: int, j: int|
        0 <= i < j < entries.len() ==> (#[trigger] entries[i]).relev >= (
        #[trigger] entries[j]).relev
    &&& forall|i: int| 0 <= i < entries.len() ==> 0 <= (#[trigger] entries[i]).relev
}

/// The entries come by falling relevance, and those of a feature are equally relevant.
pub open spec fn features_fall(entries: Seq<CoalesceEntry>) -> bool {
    &&& relevs_fall(entries)
    &&& forall|i: int, j: int|
        0 <= i < entries.len() && 0 <= j < entries.len() && (#[trigger] entries[i]).grid_entry.id
            == (#[trigger] entries[j]).grid_entry.id ==> entries[i].relev == entries[j].relev
}

/// The entry is less relevant than the first by less than the allowed gap.
pub open spec fn is_near(entries: Seq<CoalesceEntry>, i: int) -> bool {
    0 <= i < entries.len() && entries[0].relev - entries[i].relev < 250_000_000_000
}

/// The first is more relevant than the second, or as relevant and ranks no lower.
pub open spec fn is_no_worse(relev1: int, scoredist1: u64, relev2: int, scoredist2: u64) -> bool {
    relev1 > relev2 || (relev1 == relev2 && scoredist1 >= scoredist2)
}

/// The entry of the feature is one of the entries that are relevant enough, and none of them is
/// better.
spec fn is_best_of(entries: Seq<CoalesceEntry>, best: Map<u32, CoalesceEntry>, id: u32) -> bool {
    &&& best.contains_key(id)
    &&& best[id].grid_entry.id == id
    &&& entries.contains(best[id])
    &&& entries[0].relev - best[id].relev < 250_000_000_000
    &&& forall|j: int|
        is_near(entries, j) && (#[trigger] entries[j]).grid_entry.id == id ==> is_no_worse(
            best[id].relev as int,
            best[id].scoredist,
            entries[j].relev as int,
            entries[j].scoredist,
        )
}

proof fn states_keep_best(entries: Seq<CoalesceEntry>, has_proximity: bool)
    requires
        relevs_fall(entries),
        entries.len() <= 80,
    ensures
        ({
            let s = single_states(entries, has_proximity);
            &&& s.features <= entries.len()
            &&& s.done ==> entries.len() > 0 && !is_near(entries, entries.len() - 1)
            &&& entries.len() > 0 ==> s.max_relev == entries[0].relev
            &&& entries.len() == 0 ==> s.max_relev == 0
            &&& s.last_id is Some ==> s.best.contains_key(s.last_id->Some_0) && is_no_worse(
                s.best[s.last_id->Some_0].relev as int,
                s.best[s.last_id->Some_0].scoredist,
                s.last_relev as int,
                s.last_scoredist,
            )
            &&& s.last_id is Some ==> entries.len() > 0 && s.last_relev >= entries.last().relev
            &&& forall|id: u32| #[trigger] s.best.contains_key(id) ==> is_best_of(entries, s.best, id)
            &&& forall|i: int|
                is_near(entries, i) ==> s.best.contains_key((#[trigger] entries[i]).grid_entry.id)
        }),
    decreases entries.len(),
{
    if entries.len() > 0 {
        let rest = entries.drop_last();
        let n = rest.len() as int;
        let e = entries.last();
        assert(entries[n] == e);
        assert forall|i: int| 0 <= i < n implies #[trigger] rest[i] == entries[i] by {}
        states_keep_best(rest, has_proximity);
        let before = single_states(rest, has_proximity);
        let after = single_states(entries, has_proximity);
        let id = e.grid_entry.id;
        assert forall|i: int| 0 <= i < n implies is_near(rest, i) == #[trigger] is_near(
            entries,
            i,
        ) by {}
        if n > 0 {
            assert(rest[0] == entries[0]);
            assert(entries[0].relev >= entries[n].relev);
            assert(rest.last() == entries[n - 1]);
            assert(entries[n - 1].relev >= entries[n].relev);
        }
        assert(after.best == before.best || after.best == with_better(before.best, e));
        assert forall|f: u32| #[trigger] after.best.contains_key(f) implies is_best_of(
            entries,
            after.best,
            f,
        ) by {
            if before.best.contains_key(f) {
                assert(is_best_of(rest, before.best, f));
                let k = choose|k: int| 0 <= k < rest.len() && rest[k] == before.best[f];
                assert(entries[k] == before.best[f]);
                if f == id {
                    assert(entries[k].relev >= entries[n].relev);
                }
            }
            if after.best[f] == e {
                assert(entries[n] == e);
            }
            assert forall|j: int|
                is_near(entries, j) && (#[trigger] entries[j]).grid_entry.id
                    == f implies is_no_worse(
                after.best[f].relev as int,
                after.best[f].scoredist,
                entries[j].relev as int,
                entries[j].scoredist,
            ) by {
                if j < n {
                    assert(is_near(rest, j));
                    assert(rest[j] == entries[j]);
                    assert(before.best.contains_key(rest[j].grid_entry.id));
                    assert(is_best_of(rest, before.best, f));
                }
            }
        }
        assert forall|i: int| is_near(entries, i) implies after.best.contains_key(
            (#[trigger] entries[i]).grid_entry.id,
        ) by {
            if i < n {
                assert(is_near(rest, i));
                assert(rest[i] == entries[i]);
            }
        }
    }
}

/// Where the matches come by falling relevance, and there are not more of them than are fetched,
/// each context of the answer holds one match, and no match of its feature is better: none is more
/// relevant, and none as relevant ranks higher. With a proximity point the nearest one is held, as
/// far as the rank falls with the distance.
pub proof fn contexts_hold_the_best_match(
    grids: Seq<MatchEntry>,
    part: PhrasematchSubquery,
    has_proximity: bool,
    out: Seq<ContextView>,
    k: int,
)
    requires
        is_single_answer(grids, part, has_proximity, out),
        relevs_fall(coalesce_entries(grids, part, 0)),
        grids.len() <= 80,
        0 <= k < out.len(),
    ensures
        out[k].entries.len() == 1,
        exists|m: int|
            0 <= m < grids.len() && out[k].entries[0] == coalesce_entry(#[trigger] grids[m], part, 0),
        forall|j: int|
            0 <= j < grids.len() && (#[trigger] grids[j]).grid_entry.id
                == out[k].entries[0].grid_entry.id ==> is_no_worse(
                out[k].relev as int,
                out[k].entries[0].scoredist,
                grids[j].grid_entry.relev * part.weight,
                grids[j].scoredist,
            ),
{
    let entries = coalesce_entries(grids, part, 0);
    let best = best_entries(entries, has_proximity);
    let sorted = choose|sorted: Seq<CoalesceEntry>| #[trigger]
        is_best_order(best, sorted) && out == top_contexts(sorted);
    top_count_bounds(sorted, 0);
    states_keep_best(entries, has_proximity);
    assert(out[k] == single_context(sorted[k], sorted[k].mask));
    let id = sorted[k].grid_entry.id;
    assert(best.contains_key(id) && best[id] == sorted[k]);
    assert(is_best_of(entries, best, id));
    let m = choose|m: int| 0 <= m < entries.len() && entries[m] == sorted[k];
    assert(entries[m] == coalesce_entry(grids[m], part, 0));
    assert forall|j: int|
        0 <= j < grids.len() && (#[trigger] grids[j]).grid_entry.id
            == out[k].entries[0].grid_entry.id implies is_no_worse(
        out[k].relev as int,
        out[k].entries[0].scoredist,
        grids[j].grid_entry.relev * part.weight,
        grids[j].scoredist,
    ) by {
        let e = entries[j];
        assert(e == coalesce_entry(grids[j], part, 0));
        phrase_relev_fits(grids[j], part);
    }
}

pub(crate) proof fn phrase_relev_fits(grid: MatchEntry, part: PhrasematchSubquery)
    ensures
        coalesce_entry(grid, part, 0).relev == grid.grid_entry.relev * part.weight,
        0 <= coalesce_entry(grid, part, 0).relev < MAX_ENTRY_RELEV,
{
    let relev = grid.grid_entry.relev;
    let weight = part.weight;
    assert(0 <= relev * weight <= 0xffff * 0xffff_ffff) by (nonlinear_arith)
        requires
            0 <= relev <= 0xffff,
            0 <= weight <= 0xffff_ffff,
    ;
}

/// Where the matches come by falling relevance, and there are not more of them than are fetched,
/// each feature that is relevant enough has a context in the answer, unless this has as many
/// contexts as are allowed: then none of them is worse than any match of the feature.
pub proof fn features_left_out_are_no_better(
    grids: Seq<MatchEntry>,
    part: PhrasematchSubquery,
    has_proximity: bool,
    out: Seq<ContextView>,
    i: int,
)
    requires
        is_single_answer(grids, part, has_proximity, out),
        relevs_fall(coalesce_entries(grids, part, 0)),
        grids.len() <= 80,
        is_near(coalesce_entries(grids, part, 0), i),
    ensures
        (exists|k: int|
            0 <= k < out.len() && (#[trigger] out[k]).entries[0].grid_entry.id
                == grids[i].grid_entry.id) || (out.len() == 40 && forall|k: int|
            0 <= k < out.len() ==> is_no_worse(
                (#[trigger] out[k]).relev as int,
                out[k].entries[0].scoredist,
                grids[i].grid_entry.relev * part.weight,
                grids[i].scoredist,
            )),
{
    let entries = coalesce_entries(grids, part, 0);
    let best = best_entries(entries, has_proximity);
    let sorted = choose|sorted: Seq<CoalesceEntry>| #[trigger]
        is_best_order(best, sorted) && out == top_contexts(sorted);
    top_count_bounds(sorted, 0);
    states_keep_best(entries, has_proximity);
    let id = entries[i].grid_entry.id;
    assert(entries[i] == coalesce_entry(grids[i], part, 0));
    phrase_relev_fits(grids[i], part);
    assert(best.contains_key(id));
    let k = choose|k: int| 0 <= k < sorted.len() && (#[trigger] sorted[k]).grid_entry.id == id;
    assert(best[id] == sorted[k]);
    assert(is_best_of(entries, best, id));
    let top = top_count(sorted, 0);
    assert(out.len() == top);
    if k < top {
        assert(out[k] == single_context(sorted[k], sorted[k].mask));
    } else {
        assert(best.contains_key(sorted[0].grid_entry.id));
        assert(is_best_of(entries, best, sorted[0].grid_entry.id));
        let a = choose|a: int| 0 <= a < entries.len() && entries[a] == sorted[0];
        if a > 0 {
            assert(entries[0].relev >= entries[a].relev);
        }
        if top < k {
            assert(entry_before(sorted[top], sorted[k]));
        }
        assert forall|m: int| 0 <= m < out.len() implies is_no_worse(
            (#[trigger] out[m]).relev as int,
            out[m].entries[0].scoredist,
            grids[i].grid_entry.relev * part.weight,
            grids[i].scoredist,
        ) by {
            assert(out[m] == single_context(sorted[m], sorted[m].mask));
            assert(entry_before(sorted[m], sorted[k]));
        }
    }
}

/// Where the matches come by falling relevance, those of a feature are equally relevant, and there
/// are not more of them than are fetched nor more features than are answered with, the answer has
/// one context for each feature that is relevant enough, and it holds the match of the feature
/// that ranks highest.
pub proof fn every_feature_has_its_context(
    grids: Seq<MatchEntry>,
    part: PhrasematchSubquery,
    has_proximity: bool,
    out: Seq<ContextView>,
    i: int,
)
    requires
        is_single_answer(grids, part, has_proximity, out),
        features_fall(coalesce_entries(grids, part, 0)),
        grids.len() <= 80,
        grids.map_values(|g: MatchEntry| g.grid_entry.id).to_set().len() <= 40,
        is_near(coalesce_entries(grids, part, 0), i),
    ensures
        exists|k: int|
            {
                &&& 0 <= k < out.len()
                &&& (#[trigger] out[k]).entries.len() == 1
                &&& out[k].entries[0].grid_entry.id == grids[i].grid_entry.id
                &&& coalesce_entries(grids, part, 0).contains(out[k].entries[0])
                &&& forall|j: int|
                    0 <= j < grids.len() && (#[trigger] grids[j]).grid_entry.id
                        == grids[i].grid_entry.id ==> grids[j].scoredist
                        <= out[k].entries[0].scoredist
            },
{
    let entries = coalesce_entries(grids, part, 0);
    assert(entries[i] == coalesce_entry(grids[i], part, 0));
    features_left_out_are_no_better(grids, part, has_proximity, out, i);
    single_answers_hold_features_once(grids, part, has_proximity, out);
    let ids = out.map_values(|c: ContextView| c.entries[0].grid_entry.id);
    let all = grids.map_values(|g: MatchEntry| g.grid_entry.id);
    let id = grids[i].grid_entry.id;
    assert(ids.no_duplicates()) by {
        assert forall|a: int, b: int| 0 <= a < b < ids.len() implies ids[a] != ids[b] by {
            assert(out[a].entries[0].grid_entry.id != out[b].entries[0].grid_entry.id);
        }
    }
    ids.unique_seq_to_set();
    vstd::seq_lib::seq_to_set_is_finite(all);
    assert(all[i] == id);
    assert forall|f: u32| ids.to_set().contains(f) implies all.to_set().contains(f) by {
        let k = choose|k: int| 0 <= k < ids.len() && ids[k] == f;
        contexts_hold_the_best_match(grids, part, has_proximity, out, k);
        let m = choose|m: int|
            0 <= m < grids.len() && out[k].entries[0] == coalesce_entry(
                #[trigger] grids[m],
                part,
                0,
            );
        assert(all[m] == f);
    }
    // There are not more features than contexts
    if !ids.to_set().contains(id) {
        let fewer = all.to_set().remove(id);
        vstd::seq_lib::seq_to_set_is_finite(ids);
        vstd::set_lib::lemma_len_subset(ids.to_set(), fewer);
        assert forall|k: int| 0 <= k < out.len() implies (
        #[trigger] out[k]).entries[0].grid_entry.id != id by {
            assert(ids[k] == out[k].entries[0].grid_entry.id);
        }
    }
    let k = choose|k: int| 0 <= k < ids.len() && ids[k] == id;
    contexts_hold_the_best_match(grids, part, has_proximity, out, k);
    let m = choose|m: int|
        0 <= m < grids.len() && out[k].entries[0] == coalesce_entry(#[trigger] grids[m], part, 0);
    assert(entries[m] == out[k].entries[0]);
    assert forall|j: int|
        0 <= j < grids.len() && (#[trigger] grids[j]).grid_entry.id == id implies grids[j].scoredist
        <= out[k].entries[0].scoredist by {
        phrase_relev_fits(grids[j], part);
        phrase_relev_fits(grids[m], part);
        assert(entries[j] == coalesce_entry(grids[j], part, 0));
        assert(entries[m].relev == entries[j].relev);
    }
}

/// What answers a query of a single phrase is left as it is by the selection: no feature occurs
/// again, and every context is relevant enough.
pub proof fn selections_keep_single_answers(
    grids: Seq<MatchEntry>,
    part: PhrasematchSubquery,
    has_proximity: bool,
    out: Seq<ContextView>,
)
    requires
        is_single_answer(grids, part, has_proximity, out),
    ensures
        selection(out) == out,
{
    let entries = coalesce_entries(grids, part, 0);
    let best = best_entries(entries, has_proximity);
    let sorted = choose|sorted: Seq<CoalesceEntry>| #[trigger]
        is_best_order(best, sorted) && out == top_contexts(sorted);
    top_count_bounds(sorted, 0);
    single_answers_hold_features_once(grids, part, has_proximity, out);
    assert forall|i: int| 0 <= i < entries.len() implies (#[trigger] entries[i]).tmp_id
        == temporary_id(part.idx, entries[i].grid_entry.id) by {
        assert(entries[i] == coalesce_entry(grids[i], part, 0));
    }
    best_are_of_part(entries, part.idx, has_proximity);
    assert forall|i: int, j: int| 0 <= i < j < out.len() implies (
    #[trigger] out[i]).entries[0].tmp_id != (#[trigger] out[j]).entries[0].tmp_id by {
        assert(out[i] == single_context(sorted[i], sorted[i].mask));
        assert(out[j] == single_context(sorted[j], sorted[j].mask));
        assert(out[i].entries[0] == sorted[i] && out[j].entries[0] == sorted[j]);
        assert(best.contains_key(sorted[i].grid_entry.id));
        assert(best.contains_key(sorted[j].grid_entry.id));
    }
    if out.len() > 0 {
        selected_all_keeps(out, out[0].relev as int);
    } else {
        assert(out =~= Seq::empty());
    }
}

// ---------------------------------------------------------------------------------------------
// Several phrases
// ---------------------------------------------------------------------------------------------

/// The words that the entries cover together.
pub open spec fn or_masks(entries: Seq<CoalesceEntry>) -> u32
    decreases entries.len(),
{
    if entries.len() == 0 {
        0
    } else {
        or_masks(entries.drop_last()) | entries.last().mask
    }
}

/// No two of the entries cover the same word.
pub open spec fn masks_disjoint(entries: Seq<CoalesceEntry>) -> bool {
    forall|i: int, j: int|
        0 <= i < j < entries.len() ==> (#[trigger] entries[i]).mask & (#[trigger] entries[j]).mask
            == 0
}

/// Each of the entries covers a word.
pub open spec fn masks_given(entries: Seq<CoalesceEntry>) -> bool {
    forall|i: int| 0 <= i < entries.len() ==> (#[trigger] entries[i]).mask != 0
}

/// The entries cover different words, and the mask tells which.
pub open spec fn well_stacked(entries: Seq<CoalesceEntry>, mask: u32) -> bool {
    entries.len() > 0 && masks_given(entries) && masks_disjoint(entries) && mask == or_masks(entries)
}

pub(crate) proof fn or_masks_disjoint(entries: Seq<CoalesceEntry>, mask: u32)
    requires
        or_masks(entries) & mask == 0,
    ensures
        forall|i: int| 0 <= i < entries.len() ==> (#[trigger] entries[i]).mask & mask == 0,
    decreases entries.len(),
{
    if entries.len() > 0 {
        let rest = entries.drop_last();
        let a = or_masks(rest);
        let b = entries.last().mask;
        assert((a | b) & mask == 0 ==> a & mask == 0 && b & mask == 0) by (bit_vector);
        or_masks_disjoint(rest, mask);
        assert forall|i: int| 0 <= i < entries.len() implies (#[trigger] entries[i]).mask & mask
            == 0 by {
            if i < rest.len() {
                assert(entries[i] == rest[i]);
            }
        }
    }
}

/// The entries cover words, and their relevances are in bounds.
pub open spec fn entries_fit(entries: Seq<CoalesceEntry>) -> bool {
    forall|i: int|
        0 <= i < entries.len() ==> (#[trigger] entries[i]).mask != 0 && entry_ok(entries[i])
}

/// Entries that cover different words are not too many to be added up.
proof fn stacked_sum_fits(entries: Seq<CoalesceEntry>)
    requires
        entries_fit(entries),
        masks_disjoint(entries),
    ensures
        entries.len() <= or_masks(entries),
        0 <= relev_sum(entries) <= entries.len() * MAX_ENTRY_RELEV,
    decreases entries.len(),
{
    if entries.len() > 0 {
        let rest = entries.drop_last();
        assert forall|i: int| 0 <= i < rest.len() implies (#[trigger] rest[i]).mask != 0
            && entry_ok(rest[i]) by {
            assert(rest[i] == entries[i]);
        }
        assert(masks_disjoint(rest)) by {
            assert forall|i: int, j: int| 0 <= i < j < rest.len() implies (#[trigger] rest[i]).mask
                & (#[trigger] rest[j]).mask == 0 by {
                assert(rest[i] == entries[i] && rest[j] == entries[j]);
            }
        }
        stacked_sum_fits(rest);
        let last = entries[entries.len() - 1];
        let a = or_masks(rest);
        let b = last.mask;
        assert forall|i: int| 0 <= i < rest.len() implies (#[trigger] rest[i]).mask & b == 0 by {
            assert(rest[i] == entries[i]);
        }
        disjoint_or_masks(rest, b);
        assert(a & b == 0 && b != 0 ==> (a | b) > a) by (bit_vector);
        let n = entries.len();
        assert(n * MAX_ENTRY_RELEV == (n - 1) * MAX_ENTRY_RELEV + MAX_ENTRY_RELEV)
            by (nonlinear_arith)
            requires
                n > 0,
        ;
    }
}

pub(crate) proof fn disjoint_or_masks(entries: Seq<CoalesceEntry>, mask: u32)
    requires
        forall|i: int| 0 <= i < entries.len() ==> (#[trigger] entries[i]).mask & mask == 0,
    ensures
        or_masks(entries) & mask == 0,
    decreases entries.len(),
{
    if entries.len() == 0 {
        assert(0u32 & mask == 0) by (bit_vector);
    } else {
        let rest = entries.drop_last();
        assert forall|i: int| 0 <= i < rest.len() implies (#[trigger] rest[i]).mask & mask == 0 by {
            assert(rest[i] == entries[i]);
        }
        disjoint_or_masks(rest, mask);
        let a = or_masks(rest);
        let b = entries[entries.len() - 1].mask;
        assert(a & mask == 0 && b & mask == 0 ==> (a | b) & mask == 0) by (bit_vector);
    }
}

/// The context adds up: its relevance is that of its entries, and the entry stacked last is known.
pub open spec fn growth_adds_up(g: Growth, e: CoalesceEntry) -> bool {
    &&& well_stacked(g.entries, g.mask)
    &&& entries_fit(g.entries)
    &&& g.relev == relev_sum(g.entries)
    &&& g.entries[0] == e
    &&& g.last_mask != 0 ==> g.entries.len() > 1 && g.entries.last().mask == g.last_mask
        && g.entries.last().relev == g.last_relev
}

pub(crate) proof fn grown_adds_up(g: Growth, e: CoalesceEntry, more: CoalesceEntry)
    requires
        growth_adds_up(g, e),
        more.mask != 0,
        entry_ok(more),
    ensures
        growth_adds_up(grown(g, more), e),
{
    let after = grown(g, more);
    if more.mask == g.last_mask && more.relev > g.last_relev {
        let rest = g.entries.drop_last();
        assert(after.entries.drop_last() =~= rest);
        assert forall|i: int| 0 <= i < after.entries.len() implies (
        #[trigger] after.entries[i]).mask == g.entries[i].mask by {}
        assert(masks_disjoint(after.entries));
        assert(masks_given(after.entries));
        assert(entries_fit(after.entries)) by {
            assert forall|i: int| 0 <= i < after.entries.len() implies (
            #[trigger] after.entries[i]).mask != 0 && entry_ok(after.entries[i]) by {
                if i < rest.len() {
                    assert(after.entries[i] == g.entries[i]);
                }
            }
        }
    } else if g.mask & more.mask == 0 {
        assert(after.entries.drop_last() =~= g.entries);
        or_masks_disjoint(g.entries, more.mask);
        assert forall|i: int, j: int| 0 <= i < j < after.entries.len() implies (
        #[trigger] after.entries[i]).mask & (#[trigger] after.entries[j]).mask == 0 by {
            assert(after.entries[i] == g.entries[i]);
            if j < g.entries.len() {
                assert(after.entries[j] == g.entries[j]);
            }
        }
        assert forall|i: int| 0 <= i < after.entries.len() implies (
        #[trigger] after.entries[i]).mask != 0 && entry_ok(after.entries[i]) by {
            if i < g.entries.len() {
                assert(after.entries[i] == g.entries[i]);
            }
        }
    }
}

pub(crate) proof fn grown_all_adds_up(g: Growth, e: CoalesceEntry, es: Seq<CoalesceEntry>)
    requires
        growth_adds_up(g, e),
        entries_fit(es),
    ensures
        growth_adds_up(grown_all(g, es), e),
    decreases es.len(),
{
    if es.len() > 0 {
        assert(entries_fit(es.drop_last())) by {
            assert forall|i: int| 0 <= i < es.drop_last().len() implies (
            #[trigger] es.drop_last()[i]).mask != 0 && entry_ok(es.drop_last()[i]) by {
                assert(es.drop_last()[i] == es[i]);
            }
        }
        grown_all_adds_up(g, e, es.drop_last());
        assert(es[es.len() - 1].mask != 0 && entry_ok(es[es.len() - 1]));
        grown_adds_up(grown_all(g, es.drop_last()), e, es.last());
    }
}

/// The contexts add up: the relevance of each is what those of its entries add up to.
pub open spec fn adds_up(c: ContextView) -> bool {
    well_stacked(c.entries, c.mask) && c.relev == relev_sum(c.entries)
}

pub open spec fn all_add_up(cs: Seq<ContextView>) -> bool {
    forall|i: int| 0 <= i < cs.len() ==> adds_up(#[trigger] cs[i]) && entries_fit(cs[i].entries)
}

pub open spec fn tiles_add_up(tiles: Tiles) -> bool {
    &&& tiles.dom().finite()
    &&& forall|t: u64| tiles.contains_key(t) ==> all_add_up(#[trigger] tiles[t])
}

pub(crate) proof fn grown_over_adds_up(g: Growth, e: CoalesceEntry, cs: Seq<ContextView>)
    requires
        growth_adds_up(g, e),
        all_add_up(cs),
    ensures
        growth_adds_up(grown_over(g, cs), e),
    decreases cs.len(),
{
    if cs.len() > 0 {
        let rest = cs.drop_last();
        assert forall|i: int| 0 <= i < rest.len() implies adds_up(#[trigger] rest[i])
            && entries_fit(rest[i].entries) by {
            assert(rest[i] == cs[i]);
        }
        grown_over_adds_up(g, e, rest);
        assert(adds_up(cs[cs.len() - 1]) && entries_fit(cs[cs.len() - 1].entries));
        grown_all_adds_up(grown_over(g, rest), e, cs.last().entries);
    }
}

pub(crate) proof fn grown_across_adds_up(
    tiles: Tiles,
    zoom: u16,
    others: Seq<u16>,
    n: int,
    e: CoalesceEntry,
)
    requires
        tiles_add_up(tiles),
        e.mask != 0,
        entry_ok(e),
    ensures
        growth_adds_up(grown_across(tiles, zoom, others, n, sprout(e)), e),
    decreases n,
{
    if n <= 0 {
        let one = seq![e];
        assert(one.drop_last() =~= Seq::empty());
        assert(or_masks(one.drop_last()) == 0);
        let m = e.mask;
        assert(0u32 | m == m) by (bit_vector);
        assert(relev_sum(one.drop_last()) == 0);
    } else {
        grown_across_adds_up(tiles, zoom, others, n - 1, e);
        let g = grown_across(tiles, zoom, others, n - 1, sprout(e));
        let other = others[n - 1];
        let levels = (zoom - other) as nat;
        let x = zoomed_out(g.entries[0].grid_entry.x, levels);
        let y = zoomed_out(g.entries[0].grid_entry.y, levels);
        let tile = tile_number(other, x, y);
        if tiles.contains_key(tile) {
            assert(all_add_up(tiles[tile]));
        }
        let start = Growth { last_mask: 0, last_relev: 0, ..g };
        assert(growth_adds_up(start, e));
        grown_over_adds_up(start, e, contexts_at(tiles, tile));
    }
}

/// A context of the answer adds up, but for what is taken off less natural ones.
pub open spec fn adds_up_with_penalty(c: ContextView) -> bool {
    well_stacked(c.entries, c.mask) && (c.relev == relev_sum(c.entries) || c.relev == relev_sum(
        c.entries,
    ) - penalty(c.entries))
}

pub open spec fn all_fair(cs: Seq<ContextView>) -> bool {
    forall|i: int| 0 <= i < cs.len() ==> adds_up_with_penalty(#[trigger] cs[i])
}

spec fn sweep_adds_up(w: Sweep) -> bool {
    tiles_add_up(w.added) && all_fair(w.contexts)
}

pub(crate) proof fn growth_fits(g: Growth, e: CoalesceEntry)
    requires
        growth_adds_up(g, e),
    ensures
        0 <= g.relev <= 0x1_0000_0000 * MAX_ENTRY_RELEV,
{
    stacked_sum_fits(g.entries);
    let n = g.entries.len();
    assert(n * MAX_ENTRY_RELEV <= 0x1_0000_0000 * MAX_ENTRY_RELEV) by (nonlinear_arith)
        requires
            0 <= n <= 0x1_0000_0000,
            MAX_ENTRY_RELEV >= 0,
    ;
}

proof fn with_context_adds_up(tiles: Tiles, tile: u64, c: ContextView)
    requires
        tiles_add_up(tiles),
        adds_up(c),
        entries_fit(c.entries),
    ensures
        tiles_add_up(with_context(tiles, tile, c)),
{
    let after = with_context(tiles, tile, c);
    assert forall|t: u64| after.contains_key(t) implies all_add_up(#[trigger] after[t]) by {
        let had = contexts_at(tiles, t);
        if tiles.contains_key(t) {
            assert(all_add_up(tiles[t]));
        }
        assert(all_add_up(had));
        assert forall|i: int| 0 <= i < after[t].len() implies adds_up(#[trigger] after[t][i])
            && entries_fit(after[t][i].entries) by {
            if i < had.len() {
                assert(after[t][i] == had[i]);
            }
        }
    }
}

proof fn swept_adds_up(
    w: Sweep,
    tiles: Tiles,
    zoom: u16,
    others: Seq<u16>,
    first: bool,
    last: bool,
    e: CoalesceEntry,
)
    requires
        sweep_adds_up(w),
        tiles_add_up(tiles),
        e.mask != 0,
        entry_ok(e),
    ensures
        sweep_adds_up(swept(w, tiles, zoom, others, first, last, e)),
{
    let g = grown_across(tiles, zoom, others, others.len() as int, sprout(e));
    grown_across_adds_up(tiles, zoom, others, others.len() as int, e);
    growth_fits(g, e);
    let after = swept(w, tiles, zoom, others, first, last, e);
    if last {
        assert forall|i: int| 0 <= i < after.contexts.len() implies adds_up_with_penalty(
            #[trigger] after.contexts[i],
        ) by {
            if i < w.contexts.len() {
                assert(after.contexts[i] == w.contexts[i]);
            }
        }
    } else if first || g.entries.len() > 1 {
        let c = ContextView { entries: g.entries, mask: g.mask, relev: g.relev as i128 };
        with_context_adds_up(
            w.added,
            tile_number(zoom, e.grid_entry.x, e.grid_entry.y),
            c,
        );
    }
}

proof fn swept_all_adds_up(
    w: Sweep,
    tiles: Tiles,
    zoom: u16,
    others: Seq<u16>,
    first: bool,
    last: bool,
    es: Seq<CoalesceEntry>,
)
    requires
        sweep_adds_up(w),
        tiles_add_up(tiles),
        entries_fit(es),
    ensures
        sweep_adds_up(swept_all(w, tiles, zoom, others, first, last, es)),
    decreases es.len(),
{
    if es.len() > 0 {
        let rest = es.drop_last();
        assert forall|i: int| 0 <= i < rest.len() implies (#[trigger] rest[i]).mask != 0
            && entry_ok(rest[i]) by {
            assert(rest[i] == es[i]);
        }
        swept_all_adds_up(w, tiles, zoom, others, first, last, rest);
        assert(es[es.len() - 1].mask != 0 && entry_ok(es[es.len() - 1]));
        swept_adds_up(
            swept_all(w, tiles, zoom, others, first, last, rest),
            tiles,
            zoom,
            others,
            first,
            last,
            es.last(),
        );
    }
}

proof fn joined_adds_up(a: Tiles, b: Tiles)
    requires
        tiles_add_up(a),
        tiles_add_up(b),
    ensures
        tiles_add_up(joined(a, b)),
{
    let both = joined(a, b);
    assert(both.dom() =~= a.dom().union(b.dom()));
    assert forall|t: u64| both.contains_key(t) implies all_add_up(#[trigger] both[t]) by {
        let p = contexts_at(a, t);
        let q = contexts_at(b, t);
        if a.contains_key(t) {
            assert(all_add_up(a[t]));
        }
        if b.contains_key(t) {
            assert(all_add_up(b[t]));
        }
        assert forall|i: int| 0 <= i < both[t].len() implies adds_up(#[trigger] both[t][i])
            && entries_fit(both[t][i].entries) by {
            if i < p.len() {
                assert(both[t][i] == p[i]);
            } else {
                assert(both[t][i] == q[i - p.len()]);
            }
        }
    }
}

pub(crate) proof fn phrase_entries_fit(grids: Seq<MatchEntry>, part: PhrasematchSubquery)
    requires
        part.mask != 0,
    ensures
        entries_fit(coalesce_entries(grids, part, 0)),
{
    let es = coalesce_entries(grids, part, 0);
    assert forall|i: int| 0 <= i < es.len() implies (#[trigger] es[i]).mask != 0 && entry_ok(
        es[i],
    ) by {
        let relev = grids[i].grid_entry.relev;
        let weight = part.weight;
        assert(0 <= relev * weight <= 0xffff * 0xffff_ffff) by (nonlinear_arith)
            requires
                0 <= relev <= 0xffff,
                0 <= weight <= 0xffff_ffff,
        ;
        assert(es[i] == coalesce_entry(grids[i], part, 0));
    }
}

pub(crate) proof fn multi_state_adds_up(
    stack: Seq<PhrasematchSubquery>,
    order: Seq<usize>,
    lists: Seq<Seq<MatchEntry>>,
    n: int,
)
    requires
        forall|i: int| 0 <= i < n ==> stack[(#[trigger] order[i]) as int].mask != 0,
    ensures
        tiles_add_up(multi_state(stack, order, lists, n).tiles),
        all_fair(multi_state(stack, order, lists, n).contexts),
    decreases n,
{
    if n > 0 {
        multi_state_adds_up(stack, order, lists, n - 1);
        let before = multi_state(stack, order, lists, n - 1);
        let p = order[n - 1];
        let start = Sweep {
            added: Map::empty(),
            contexts: before.contexts,
            max_relev: before.max_relev,
        };
        assert(stack[p as int].mask != 0);
        phrase_entries_fit(lists[n - 1], stack[p as int]);
        swept_all_adds_up(
            start,
            before.tiles,
            stack[p as int].store.zoom,
            other_zooms(stack, order, p),
            n == 1,
            n == order.len(),
            coalesce_entries(lists[n - 1], stack[p as int], 0),
        );
        let w = swept_all(
            start,
            before.tiles,
            stack[p as int].store.zoom,
            other_zooms(stack, order, p),
            n == 1,
            n == order.len(),
            coalesce_entries(lists[n - 1], stack[p as int], 0),
        );
        joined_adds_up(before.tiles, w.added);
    }
}

proof fn relevant_in_fair(tiles: Tiles, keys: Seq<u64>, n: int, max_relev: int)
    requires
        tiles_add_up(tiles),
        0 <= n <= keys.len(),
        forall|i: int| 0 <= i < keys.len() ==> tiles.contains_key(#[trigger] keys[i]),
    ensures
        all_fair(relevant_in(tiles, keys, n, max_relev)),
    decreases n,
{
    if n > 0 {
        relevant_in_fair(tiles, keys, n - 1, max_relev);
        let before = relevant_in(tiles, keys, n - 1, max_relev);
        let cs = tiles[keys[n - 1]];
        let p = |c: ContextView| max_relev - c.relev < MAX_RELEVANCE_GAP;
        let kept = cs.filter(p);
        let all = relevant_in(tiles, keys, n, max_relev);
        assert(tiles.contains_key(keys[n - 1]));
        assert(all_add_up(cs));
        assert(relevant(cs, max_relev) == kept);
        assert forall|i: int| 0 <= i < all.len() implies adds_up_with_penalty(#[trigger] all[i]) by {
            if i < before.len() {
                assert(all[i] == before[i]);
            } else {
                assert(all[i] == kept[i - before.len()]);
                filter_from(cs, p, i - before.len());
            }
        }
    }
}

pub(crate) proof fn filter_from<A>(s: Seq<A>, p: spec_fn(A) -> bool, i: int)
    requires
        0 <= i < s.filter(p).len(),
    ensures
        exists|j: int| 0 <= j < s.len() && #[trigger] s[j] == s.filter(p)[i],
    decreases s.len(),
{
    reveal(Seq::filter);
    if s.len() > 0 {
        let rest = s.drop_last();
        if i < rest.filter(p).len() {
            filter_from(rest, p, i);
            let j = choose|j: int| 0 <= j < rest.len() && #[trigger] rest[j] == rest.filter(p)[i];
            assert(s[j] == rest[j]);
        } else {
            assert(s[s.len() - 1] == s.filter(p)[i]);
        }
    }
}

pub(crate) proof fn stack_order_is(stack: Seq<PhrasematchSubquery>)
    requires
        stack.len() <= usize::MAX,
    ensures
        forall|i: int|
            0 <= i < stack_order(stack).len() ==> #[trigger] stack_order(stack)[i] < stack.len(),
{
    let all = Set::new(|p: usize| p < stack.len());
    let listed = Seq::new(stack.len(), |i: int| i as usize);
    assert forall|p: usize| listed.to_set().contains(p) <==> all.contains(p) by {
        set_members(listed, p);
        if all.contains(p) {
            assert(listed[p as int] == p);
        }
    }
    assert(listed.to_set() =~= all);
    vstd::seq_lib::seq_to_set_is_finite(listed);
    in_order_exists(all, stack_num(stack));
    let order = stack_order(stack);
    assert forall|i: int| 0 <= i < order.len() implies #[trigger] order[i] < stack.len() by {
        set_members(order, order[i]);
        assert(order.contains(order[i]));
    }
}

/// The contexts of several phrases, each of which covers a word, add up: no word is covered twice,
/// and the relevance of a context is that of its entries, but for the small penalty of less natural
/// ones.
pub proof fn contexts_of_phrases_add_up<F: Fn(u64, u16, u64, u8) -> Measure>(
    stack: Seq<PhrasematchSubquery>,
    opts: MatchOpts,
    scale: F,
    out: Seq<ContextView>,
)
    requires
        is_multi_answer(stack, opts, scale, out),
        stack.len() <= usize::MAX,
        forall|p: int| 0 <= p < stack.len() ==> (#[trigger] stack[p]).mask != 0,
    ensures
        forall|i: int| 0 <= i < out.len() ==> adds_up_with_penalty(#[trigger] out[i]),
{
    let order = stack_order(stack);
    let lists = choose|lists: Seq<Seq<MatchEntry>>|
        {
            &&& #[trigger] are_phrase_matches(stack, order, opts, scale, lists)
            &&& best_first(out)
            &&& out.to_multiset() == multi_contexts(
                multi_state(stack, order, lists, order.len() as int),
            ).to_multiset()
        };
    let st = multi_state(stack, order, lists, order.len() as int);
    let all = multi_contexts(st);
    stack_order_is(stack);
    assert forall|i: int| 0 <= i < order.len() implies stack[(#[trigger] order[i]) as int].mask
        != 0 by {
        assert(stack[order[i] as int].mask != 0);
    }
    multi_state_adds_up(stack, order, lists, order.len() as int);
    let keys = in_order(st.tiles.dom(), num_u64());
    let from_tiles = relevant_in(st.tiles, keys, keys.len() as int, st.max_relev);
    in_order_exists(st.tiles.dom(), num_u64());
    assert forall|i: int| 0 <= i < keys.len() implies st.tiles.contains_key(#[trigger] keys[i]) by {
        set_members(keys, keys[i]);
        assert(keys.contains(keys[i]));
    }
    relevant_in_fair(st.tiles, keys, keys.len() as int, st.max_relev);
    assert forall|i: int| 0 <= i < out.len() implies adds_up_with_penalty(#[trigger] out[i]) by {
        let j = place_in(out, all, i);
        if j < st.contexts.len() {
            assert(all[j] == st.contexts[j]);
        } else {
            assert(all[j] == from_tiles[j - st.contexts.len()]);
        }
    }
}

} // verus!
