//! Matches of several phrases that meet in a tile are stacked: none is lost on the way from the
//! lists of matches to the contexts that answer the query.

use vstd::prelude::*;

use crate::agreement::queries_agree;
use crate::coalesce::{
    coalesce_entries, coalesce_entry, CoalesceEntry, ContextView, CONTEXT_PENALTY,
    MAX_GRIDS_PER_PHRASE, MAX_RELEVANCE_GAP,
};
use crate::common::MatchOpts;
use crate::contexts::{
    adds_up, all_add_up, disjoint_or_masks, entries_fit, grown_across_adds_up, grown_all_adds_up,
    grown_over_adds_up, growth_adds_up, growth_fits, masks_disjoint, masks_given,
    multi_state_adds_up, or_masks, phrase_entries_fit, phrase_relev_fits, stack_order_is,
    tiles_add_up,
};
use crate::decode::{meter_of, MatchEntry};
use crate::multi::{
    are_phrase_matches, best_first, contexts_at, deduped_from, entry_ok, grown, grown_across,
    grown_all, grown_over, is_multi_answer, joined, lower_zooms, multi_contexts, multi_state,
    other_zooms, penalty, relevant, relevant_in, sprout, stack_num, stack_order, swept, swept_all,
    tile_number, tile_numbers_differ, Growth, MultiState, Sweep, Tiles,
};
use crate::order::{in_order, in_order_exists, num_u64, place_in, set_members};
use crate::outside::deduped;
use crate::spatial::{opts_at_zoom, zoomed_out, Measure};
use crate::stackable::PhrasematchSubquery;
use crate::store::answers_query;
use crate::tree::relev_sum;

verus! {

// ---------------------------------------------------------------------------------------------
// Growing
// ---------------------------------------------------------------------------------------------

/// What holds of an entry.
pub type Quality = spec_fn(CoalesceEntry) -> bool;

spec fn all_have(ok: Quality, es: Seq<CoalesceEntry>) -> bool {
    forall|k: int| 0 <= k < es.len() ==> ok(#[trigger] es[k])
}

/// Only one entry of those that it holds of covers a word.
spec fn one_per_word(ok: Quality) -> bool {
    forall|a: CoalesceEntry, b: CoalesceEntry|
        #[trigger] ok(a) && #[trigger] ok(b) && a.mask & b.mask != 0 ==> a == b
}

spec fn has_all(es: Seq<CoalesceEntry>, some: Seq<CoalesceEntry>) -> bool {
    forall|k: int| 0 <= k < some.len() ==> es.contains(#[trigger] some[k])
}

proof fn has_all_chain(a: Seq<CoalesceEntry>, b: Seq<CoalesceEntry>, c: Seq<CoalesceEntry>)
    requires
        has_all(a, b),
        has_all(b, c),
    ensures
        has_all(a, c),
{
    assert forall|k: int| 0 <= k < c.len() implies a.contains(#[trigger] c[k]) by {
        let j = choose|j: int| 0 <= j < b.len() && b[j] == c[k];
        assert(a.contains(b[j]));
    }
}

proof fn grown_keeps(ok: Quality, g: Growth, e: CoalesceEntry, more: CoalesceEntry)
    requires
        growth_adds_up(g, e),
        all_have(ok, g.entries),
        ok(more),
        more.mask != 0,
        entry_ok(more),
    ensures
        all_have(ok, grown(g, more).entries),
        one_per_word(ok) ==> has_all(grown(g, more).entries, g.entries) && grown(
            g,
            more,
        ).entries.contains(more),
{
    let after = grown(g, more);
    if more.mask == g.last_mask && more.relev > g.last_relev {
        let n = g.entries.len() - 1;
        assert(ok(g.entries[n]));
        let m = more.mask;
        assert(m & m == m) by (bit_vector);
        if one_per_word(ok) {
            assert(g.entries[n] == more);
        }
        assert forall|k: int| 0 <= k < after.entries.len() implies ok(
            #[trigger] after.entries[k],
        ) by {
            if k < n {
                assert(after.entries[k] == g.entries[k]);
            }
        }
    } else if g.mask & more.mask == 0 {
        assert forall|k: int| 0 <= k < g.entries.len() implies after.entries.contains(
            #[trigger] g.entries[k],
        ) by {
            assert(after.entries[k] == g.entries[k]);
        }
        assert(after.entries[g.entries.len() as int] == more);
    } else {
        if one_per_word(ok) {
            if forall|k: int|
                0 <= k < g.entries.len() ==> (#[trigger] g.entries[k]).mask & more.mask == 0 {
                disjoint_or_masks(g.entries, more.mask);
            }
            let k = choose|k: int|
                0 <= k < g.entries.len() && (#[trigger] g.entries[k]).mask & more.mask != 0;
            assert(ok(g.entries[k]));
            assert(g.entries[k] == more);
        }
    }
}

proof fn grown_all_keeps(ok: Quality, g: Growth, e: CoalesceEntry, es: Seq<CoalesceEntry>)
    requires
        growth_adds_up(g, e),
        all_have(ok, g.entries),
        entries_fit(es),
        all_have(ok, es),
    ensures
        all_have(ok, grown_all(g, es).entries),
        one_per_word(ok) ==> has_all(grown_all(g, es).entries, g.entries) && has_all(
            grown_all(g, es).entries,
            es,
        ),
    decreases es.len(),
{
    if es.len() > 0 {
        let rest = es.drop_last();
        assert forall|k: int| 0 <= k < rest.len() implies #[trigger] rest[k] == es[k] by {}
        assert(entries_fit(rest)) by {
            assert forall|i: int| 0 <= i < rest.len() implies (#[trigger] rest[i]).mask != 0
                && entry_ok(rest[i]) by {
                assert(es[i].mask != 0 && entry_ok(es[i]));
            }
        }
        assert(all_have(ok, rest)) by {
            assert forall|k: int| 0 <= k < rest.len() implies ok(#[trigger] rest[k]) by {
                assert(ok(es[k]));
            }
        }
        grown_all_keeps(ok, g, e, rest);
        grown_all_adds_up(g, e, rest);
        let mid = grown_all(g, rest);
        let last = es[es.len() - 1];
        assert(last.mask != 0 && entry_ok(last) && ok(last));
        grown_keeps(ok, mid, e, last);
        let after = grown_all(g, es);
        if one_per_word(ok) {
            has_all_chain(after.entries, mid.entries, g.entries);
            has_all_chain(after.entries, mid.entries, rest);
            assert forall|k: int| 0 <= k < es.len() implies after.entries.contains(
                #[trigger] es[k],
            ) by {
                if k < rest.len() {
                    assert(after.entries.contains(rest[k]));
                }
            }
        }
    }
}

spec fn all_contexts_have(ok: Quality, cs: Seq<ContextView>) -> bool {
    forall|i: int| 0 <= i < cs.len() ==> all_have(ok, (#[trigger] cs[i]).entries)
}

proof fn grown_over_keeps(ok: Quality, g: Growth, e: CoalesceEntry, cs: Seq<ContextView>)
    requires
        growth_adds_up(g, e),
        all_have(ok, g.entries),
        all_add_up(cs),
        all_contexts_have(ok, cs),
    ensures
        all_have(ok, grown_over(g, cs).entries),
        one_per_word(ok) ==> has_all(grown_over(g, cs).entries, g.entries),
        one_per_word(ok) ==> forall|i: int|
            0 <= i < cs.len() ==> has_all(grown_over(g, cs).entries, (#[trigger] cs[i]).entries),
    decreases cs.len(),
{
    if cs.len() > 0 {
        let rest = cs.drop_last();
        assert forall|k: int| 0 <= k < rest.len() implies #[trigger] rest[k] == cs[k] by {}
        assert(all_add_up(rest)) by {
            assert forall|i: int| 0 <= i < rest.len() implies adds_up(#[trigger] rest[i])
                && entries_fit(rest[i].entries) by {
                assert(adds_up(cs[i]) && entries_fit(cs[i].entries));
            }
        }
        assert(all_contexts_have(ok, rest)) by {
            assert forall|i: int| 0 <= i < rest.len() implies all_have(
                ok,
                (#[trigger] rest[i]).entries,
            ) by {
                assert(all_have(ok, cs[i].entries));
            }
        }
        grown_over_keeps(ok, g, e, rest);
        grown_over_adds_up(g, e, rest);
        let mid = grown_over(g, rest);
        let last = cs[cs.len() - 1];
        assert(adds_up(last) && entries_fit(last.entries) && all_have(ok, last.entries));
        grown_all_keeps(ok, mid, e, last.entries);
        let after = grown_over(g, cs);
        if one_per_word(ok) {
            has_all_chain(after.entries, mid.entries, g.entries);
            assert forall|i: int| 0 <= i < cs.len() implies has_all(
                after.entries,
                (#[trigger] cs[i]).entries,
            ) by {
                if i < rest.len() {
                    assert(rest[i] == cs[i]);
                    has_all_chain(after.entries, mid.entries, rest[i].entries);
                }
            }
        }
    }
}

/// The contexts in whose tile the entry lies, at another zoom level.
spec fn met_at(tiles: Tiles, zoom: u16, other: u16, e: CoalesceEntry) -> Seq<ContextView> {
    let levels = (zoom - other) as nat;
    contexts_at(
        tiles,
        tile_number(
            other,
            zoomed_out(e.grid_entry.x, levels),
            zoomed_out(e.grid_entry.y, levels),
        ),
    )
}

proof fn grown_across_keeps(
    ok: Quality,
    tiles: Tiles,
    zoom: u16,
    others: Seq<u16>,
    n: int,
    e: CoalesceEntry,
)
    requires
        tiles_add_up(tiles),
        e.mask != 0,
        entry_ok(e),
        ok(e),
        0 <= n <= others.len(),
        forall|k: int|
            0 <= k < n ==> all_contexts_have(ok, met_at(tiles, zoom, #[trigger] others[k], e)),
    ensures
        all_have(ok, grown_across(tiles, zoom, others, n, sprout(e)).entries),
        one_per_word(ok) ==> grown_across(tiles, zoom, others, n, sprout(e)).entries.contains(e),
        one_per_word(ok) ==> forall|k: int, i: int|
            #![trigger met_at(tiles, zoom, others[k], e)[i]]
            0 <= k < n && 0 <= i < met_at(tiles, zoom, others[k], e).len() ==> has_all(
                grown_across(tiles, zoom, others, n, sprout(e)).entries,
                met_at(tiles, zoom, others[k], e)[i].entries,
            ),
    decreases n,
{
    if n > 0 {
        grown_across_keeps(ok, tiles, zoom, others, n - 1, e);
        grown_across_adds_up(tiles, zoom, others, n - 1, e);
        let g = grown_across(tiles, zoom, others, n - 1, sprout(e));
        let start = Growth { last_mask: 0, last_relev: 0, ..g };
        assert(growth_adds_up(start, e));
        let here = met_at(tiles, zoom, others[n - 1], e);
        assert(all_contexts_have(ok, here));
        assert(all_add_up(here)) by {
            let levels = (zoom - others[n - 1]) as nat;
            let t = tile_number(
                others[n - 1],
                zoomed_out(e.grid_entry.x, levels),
                zoomed_out(e.grid_entry.y, levels),
            );
            if tiles.contains_key(t) {
                assert(all_add_up(tiles[t]));
            }
        }
        grown_over_keeps(ok, start, e, here);
        let after = grown_across(tiles, zoom, others, n, sprout(e));
        assert(after == grown_over(start, here));
        if one_per_word(ok) {
            let k = choose|k: int| 0 <= k < g.entries.len() && g.entries[k] == e;
            assert(after.entries.contains(start.entries[k]));
            assert forall|k: int, i: int| #![trigger met_at(tiles, zoom, others[k], e)[i]]
                0 <= k < n && 0 <= i < met_at(tiles, zoom, others[k], e).len() implies has_all(
                after.entries,
                met_at(tiles, zoom, others[k], e)[i].entries,
            ) by {
                if k < n - 1 {
                    has_all_chain(
                        after.entries,
                        g.entries,
                        met_at(tiles, zoom, others[k], e)[i].entries,
                    );
                }
            }
        }
    } else {
        assert(sprout(e).entries[0] == e);
    }
}

// ---------------------------------------------------------------------------------------------
// How relevant a context can be
// ---------------------------------------------------------------------------------------------

spec fn tiles_have(ok: Quality, tiles: Tiles) -> bool {
    forall|t: u64| all_contexts_have(ok, #[trigger] contexts_at(tiles, t))
}

/// What the bounds of the first `n` phrases that share a word with the mask add up to.
spec fn bounds_in(
    stack: Seq<PhrasematchSubquery>,
    order: Seq<usize>,
    bounds: Seq<int>,
    mask: u32,
    n: int,
) -> int
    decreases n,
{
    if n <= 0 {
        0
    } else {
        bounds_in(stack, order, bounds, mask, n - 1) + (if stack[order[n - 1] as int].mask & mask
            != 0 {
            bounds[n - 1]
        } else {
            0
        })
    }
}

/// What the numbers add up to.
pub open spec fn sum_of(bounds: Seq<int>) -> int
    decreases bounds.len(),
{
    if bounds.len() == 0 {
        0
    } else {
        sum_of(bounds.drop_last()) + bounds.last()
    }
}

proof fn bounds_in_grow(
    stack: Seq<PhrasematchSubquery>,
    order: Seq<usize>,
    bounds: Seq<int>,
    mask: u32,
    i: int,
    n: int,
)
    requires
        0 <= i < order.len() == bounds.len(),
        0 <= n <= order.len(),
        forall|k: int| 0 <= k < bounds.len() ==> 0 <= #[trigger] bounds[k],
        stack[order[i] as int].mask != 0,
        mask & stack[order[i] as int].mask == 0,
    ensures
        bounds_in(stack, order, bounds, mask | stack[order[i] as int].mask, n) >= bounds_in(
            stack,
            order,
            bounds,
            mask,
            n,
        ) + (if i < n {
            bounds[i]
        } else {
            0
        }),
    decreases n,
{
    if n > 0 {
        bounds_in_grow(stack, order, bounds, mask, i, n - 1);
        let m = stack[order[i] as int].mask;
        let a = stack[order[n - 1] as int].mask;
        assert(0 <= bounds[n - 1]);
        assert((a & mask != 0 ==> a & (mask | m) != 0) && (mask & m == 0 ==> m & mask == 0) && (m
            != 0 ==> m & (mask | m) != 0)) by (bit_vector);
    }
}

proof fn bounds_in_all(
    stack: Seq<PhrasematchSubquery>,
    order: Seq<usize>,
    bounds: Seq<int>,
    mask: u32,
    n: int,
)
    requires
        0 <= n <= order.len() == bounds.len(),
        forall|k: int| 0 <= k < bounds.len() ==> 0 <= #[trigger] bounds[k],
    ensures
        bounds_in(stack, order, bounds, mask, n) <= sum_of(bounds.take(n)),
    decreases n,
{
    if n > 0 {
        bounds_in_all(stack, order, bounds, mask, n - 1);
        assert(bounds.take(n).drop_last() =~= bounds.take(n - 1));
        assert(bounds.take(n).last() == bounds[n - 1]);
    } else {
        assert(bounds.take(n) =~= Seq::empty());
    }
}

/// The entry is of the words of a phrase, and no more relevant than its bound.
spec fn is_bounded(
    stack: Seq<PhrasematchSubquery>,
    order: Seq<usize>,
    bounds: Seq<int>,
) -> Quality {
    |e: CoalesceEntry|
        exists|i: int|
            0 <= i < order.len() && e.mask == stack[(#[trigger] order[i]) as int].mask && e.relev
                <= bounds[i]
}

proof fn sums_are_bounded(
    stack: Seq<PhrasematchSubquery>,
    order: Seq<usize>,
    bounds: Seq<int>,
    es: Seq<CoalesceEntry>,
)
    requires
        order.len() == bounds.len(),
        forall|k: int| 0 <= k < bounds.len() ==> 0 <= #[trigger] bounds[k],
        masks_given(es),
        masks_disjoint(es),
        all_have(is_bounded(stack, order, bounds), es),
    ensures
        relev_sum(es) <= bounds_in(stack, order, bounds, or_masks(es), order.len() as int),
    decreases es.len(),
{
    let ok = is_bounded(stack, order, bounds);
    if es.len() == 0 {
        bounds_in_none(stack, order, bounds, order.len() as int);
    } else {
        let rest = es.drop_last();
        let last = es[es.len() - 1];
        assert forall|k: int| 0 <= k < rest.len() implies #[trigger] rest[k] == es[k] by {}
        assert(masks_given(rest)) by {
            assert forall|i: int| 0 <= i < rest.len() implies (#[trigger] rest[i]).mask != 0 by {
                assert(es[i].mask != 0);
            }
        }
        assert(masks_disjoint(rest)) by {
            assert forall|i: int, j: int| 0 <= i < j < rest.len() implies (
            #[trigger] rest[i]).mask & (#[trigger] rest[j]).mask == 0 by {
                assert(es[i].mask & es[j].mask == 0);
            }
        }
        assert(all_have(ok, rest)) by {
            assert forall|k: int| 0 <= k < rest.len() implies ok(#[trigger] rest[k]) by {
                assert(ok(es[k]));
            }
        }
        sums_are_bounded(stack, order, bounds, rest);
        assert forall|i: int| 0 <= i < rest.len() implies (#[trigger] rest[i]).mask & last.mask
            == 0 by {
            assert(es[i].mask & es[es.len() - 1].mask == 0);
        }
        disjoint_or_masks(rest, last.mask);
        assert(ok(last));
        let i = choose|i: int|
            0 <= i < order.len() && last.mask == stack[(#[trigger] order[i]) as int].mask
                && last.relev <= bounds[i];
        bounds_in_grow(stack, order, bounds, or_masks(rest), i, order.len() as int);
    }
}

proof fn bounds_in_none(
    stack: Seq<PhrasematchSubquery>,
    order: Seq<usize>,
    bounds: Seq<int>,
    n: int,
)
    ensures
        bounds_in(stack, order, bounds, 0, n) == 0,
    decreases n,
{
    if n > 0 {
        bounds_in_none(stack, order, bounds, n - 1);
        let a = stack[order[n - 1] as int].mask;
        assert(a & 0 == 0) by (bit_vector);
    }
}

proof fn contexts_at_joined(a: Tiles, b: Tiles, t: u64)
    ensures
        contexts_at(joined(a, b), t) == contexts_at(a, t) + contexts_at(b, t),
{
    assert(contexts_at(joined(a, b), t) =~= contexts_at(a, t) + contexts_at(b, t));
}

proof fn growth_is_bounded(
    stack: Seq<PhrasematchSubquery>,
    order: Seq<usize>,
    bounds: Seq<int>,
    tiles: Tiles,
    zoom: u16,
    others: Seq<u16>,
    e: CoalesceEntry,
)
    requires
        order.len() == bounds.len(),
        forall|k: int| 0 <= k < bounds.len() ==> 0 <= #[trigger] bounds[k],
        tiles_add_up(tiles),
        tiles_have(is_bounded(stack, order, bounds), tiles),
        e.mask != 0,
        entry_ok(e),
        is_bounded(stack, order, bounds)(e),
    ensures
        ({
            let g = grown_across(tiles, zoom, others, others.len() as int, sprout(e));
            &&& growth_adds_up(g, e)
            &&& all_have(is_bounded(stack, order, bounds), g.entries)
            &&& g.relev <= sum_of(bounds)
        }),
{
    let ok = is_bounded(stack, order, bounds);
    let n = others.len() as int;
    let g = grown_across(tiles, zoom, others, n, sprout(e));
    assert forall|k: int| 0 <= k < n implies all_contexts_have(
        ok,
        met_at(tiles, zoom, #[trigger] others[k], e),
    ) by {
        let levels = (zoom - others[k]) as nat;
        assert(all_contexts_have(
            ok,
            contexts_at(
                tiles,
                tile_number(
                    others[k],
                    zoomed_out(e.grid_entry.x, levels),
                    zoomed_out(e.grid_entry.y, levels),
                ),
            ),
        ));
    }
    grown_across_keeps(ok, tiles, zoom, others, n, e);
    grown_across_adds_up(tiles, zoom, others, n, e);
    sums_are_bounded(stack, order, bounds, g.entries);
    bounds_in_all(stack, order, bounds, or_masks(g.entries), order.len() as int);
    assert(bounds.take(order.len() as int) =~= bounds);
}

spec fn sweep_is_bounded(
    stack: Seq<PhrasematchSubquery>,
    order: Seq<usize>,
    bounds: Seq<int>,
    w: Sweep,
) -> bool {
    tiles_have(is_bounded(stack, order, bounds), w.added) && w.max_relev <= sum_of(bounds)
}

proof fn swept_is_bounded(
    stack: Seq<PhrasematchSubquery>,
    order: Seq<usize>,
    bounds: Seq<int>,
    w: Sweep,
    tiles: Tiles,
    zoom: u16,
    others: Seq<u16>,
    first: bool,
    last: bool,
    es: Seq<CoalesceEntry>,
)
    requires
        order.len() == bounds.len(),
        forall|k: int| 0 <= k < bounds.len() ==> 0 <= #[trigger] bounds[k],
        tiles_add_up(tiles),
        tiles_have(is_bounded(stack, order, bounds), tiles),
        sweep_is_bounded(stack, order, bounds, w),
        entries_fit(es),
        all_have(is_bounded(stack, order, bounds), es),
    ensures
        sweep_is_bounded(
            stack,
            order,
            bounds,
            swept_all(w, tiles, zoom, others, first, last, es),
        ),
    decreases es.len(),
{
    let ok = is_bounded(stack, order, bounds);
    if es.len() > 0 {
        let rest = es.drop_last();
        assert forall|k: int| 0 <= k < rest.len() implies #[trigger] rest[k] == es[k] by {}
        assert(entries_fit(rest)) by {
            assert forall|i: int| 0 <= i < rest.len() implies (#[trigger] rest[i]).mask != 0
                && entry_ok(rest[i]) by {
                assert(es[i].mask != 0 && entry_ok(es[i]));
            }
        }
        assert(all_have(ok, rest)) by {
            assert forall|k: int| 0 <= k < rest.len() implies ok(#[trigger] rest[k]) by {
                assert(ok(es[k]));
            }
        }
        swept_is_bounded(stack, order, bounds, w, tiles, zoom, others, first, last, rest);
        let mid = swept_all(w, tiles, zoom, others, first, last, rest);
        let e = es[es.len() - 1];
        assert(e.mask != 0 && entry_ok(e) && ok(e));
        growth_is_bounded(stack, order, bounds, tiles, zoom, others, e);
        let g = grown_across(tiles, zoom, others, others.len() as int, sprout(e));
        let after = swept_all(w, tiles, zoom, others, first, last, es);
        assert(after == swept(mid, tiles, zoom, others, first, last, e));
        assert forall|t: u64| all_contexts_have(ok, #[trigger] contexts_at(after.added, t)) by {
            let had = contexts_at(mid.added, t);
            let now = contexts_at(after.added, t);
            assert(all_contexts_have(ok, had));
            assert forall|i: int| 0 <= i < now.len() implies all_have(
                ok,
                (#[trigger] now[i]).entries,
            ) by {
                if i < had.len() {
                    assert(now[i] == had[i]);
                    assert(all_have(ok, had[i].entries));
                } else {
                    assert(now[i].entries == g.entries);
                }
            }
        }
    }
}

/// No match of the phrases is more relevant than the bound of its phrase.
pub open spec fn are_bounded(
    stack: Seq<PhrasematchSubquery>,
    order: Seq<usize>,
    lists: Seq<Seq<MatchEntry>>,
    bounds: Seq<int>,
) -> bool {
    &&& bounds.len() == order.len()
    &&& forall|i: int, k: int|
        #![trigger lists[i][k]]
        0 <= i < order.len() && 0 <= k < lists[i].len() ==> lists[i][k].grid_entry.relev
            * stack[order[i] as int].weight <= bounds[i]
}

proof fn phrase_is_bounded(
    stack: Seq<PhrasematchSubquery>,
    order: Seq<usize>,
    lists: Seq<Seq<MatchEntry>>,
    bounds: Seq<int>,
    i: int,
)
    requires
        are_bounded(stack, order, lists, bounds),
        0 <= i < order.len(),
    ensures
        all_have(
            is_bounded(stack, order, bounds),
            coalesce_entries(lists[i], stack[order[i] as int], 0),
        ),
{
    let part = stack[order[i] as int];
    let es = coalesce_entries(lists[i], part, 0);
    let ok = is_bounded(stack, order, bounds);
    assert forall|k: int| 0 <= k < es.len() implies ok(#[trigger] es[k]) by {
        assert(es[k] == coalesce_entry(lists[i][k], part, 0));
        phrase_relev_fits(lists[i][k], part);
        assert(es[k].mask == stack[order[i] as int].mask && es[k].relev <= bounds[i]);
    }
}

proof fn states_are_bounded(
    stack: Seq<PhrasematchSubquery>,
    order: Seq<usize>,
    lists: Seq<Seq<MatchEntry>>,
    bounds: Seq<int>,
    n: int,
)
    requires
        0 <= n <= order.len(),
        are_bounded(stack, order, lists, bounds),
        forall|k: int| 0 <= k < bounds.len() ==> 0 <= #[trigger] bounds[k],
        forall|i: int| 0 <= i < order.len() ==> stack[(#[trigger] order[i]) as int].mask != 0,
    ensures
        tiles_have(is_bounded(stack, order, bounds), multi_state(stack, order, lists, n).tiles),
        multi_state(stack, order, lists, n).max_relev <= sum_of(bounds),
        tiles_add_up(multi_state(stack, order, lists, n).tiles),
    decreases n,
{
    let ok = is_bounded(stack, order, bounds);
    multi_state_adds_up(stack, order, lists, n);
    if n > 0 {
        states_are_bounded(stack, order, lists, bounds, n - 1);
        let before = multi_state(stack, order, lists, n - 1);
        let part = stack[order[n - 1] as int];
        let es = coalesce_entries(lists[n - 1], part, 0);
        let start = Sweep {
            added: Map::empty(),
            contexts: before.contexts,
            max_relev: before.max_relev,
        };
        assert(part.mask != 0);
        phrase_entries_fit(lists[n - 1], part);
        phrase_is_bounded(stack, order, lists, bounds, n - 1);
        let others = other_zooms(stack, order, order[n - 1]);
        swept_is_bounded(
            stack,
            order,
            bounds,
            start,
            before.tiles,
            part.store.zoom,
            others,
            n == 1,
            n == order.len(),
            es,
        );
        let w = swept_all(
            start,
            before.tiles,
            part.store.zoom,
            others,
            n == 1,
            n == order.len(),
            es,
        );
        let after = multi_state(stack, order, lists, n);
        assert(after.tiles == joined(before.tiles, w.added));
        assert forall|t: u64| all_contexts_have(ok, #[trigger] contexts_at(after.tiles, t)) by {
            contexts_at_joined(before.tiles, w.added, t);
            let a = contexts_at(before.tiles, t);
            let b = contexts_at(w.added, t);
            let both = contexts_at(after.tiles, t);
            assert(all_contexts_have(ok, a) && all_contexts_have(ok, b));
            assert forall|i: int| 0 <= i < both.len() implies all_have(
                ok,
                (#[trigger] both[i]).entries,
            ) by {
                if i < a.len() {
                    assert(both[i] == a[i]);
                } else {
                    assert(both[i] == b[i - a.len()]);
                }
            }
        }
    } else {
        sums_are_not_negative(bounds);
    }
}

proof fn sums_are_not_negative(bounds: Seq<int>)
    requires
        forall|k: int| 0 <= k < bounds.len() ==> 0 <= #[trigger] bounds[k],
    ensures
        0 <= sum_of(bounds),
    decreases bounds.len(),
{
    if bounds.len() > 0 {
        let rest = bounds.drop_last();
        assert forall|k: int| 0 <= k < rest.len() implies 0 <= #[trigger] rest[k] by {
            assert(0 <= bounds[k]);
        }
        sums_are_not_negative(rest);
        assert(0 <= bounds[bounds.len() - 1]);
    }
}

// ---------------------------------------------------------------------------------------------
// Meeting
// ---------------------------------------------------------------------------------------------

/// The entry that the picked match of a phrase makes. Phrases are numbered in the order in which
/// they are gone through.
pub open spec fn pick(
    stack: Seq<PhrasematchSubquery>,
    lists: Seq<Seq<MatchEntry>>,
    picks: Seq<int>,
    i: int,
) -> CoalesceEntry {
    coalesce_entry(lists[i][picks[i]], stack[stack_order(stack)[i] as int], 0)
}

/// The entries of all picked matches.
pub open spec fn all_picks(
    stack: Seq<PhrasematchSubquery>,
    lists: Seq<Seq<MatchEntry>>,
    picks: Seq<int>,
) -> Seq<CoalesceEntry> {
    Seq::new(stack.len(), |i: int| pick(stack, lists, picks, i))
}

/// The zoom level of a phrase.
pub open spec fn zoom_of(stack: Seq<PhrasematchSubquery>, i: int) -> u16 {
    stack[stack_order(stack)[i] as int].store.zoom
}

/// The matches that are picked, one of each phrase, meet: each lies in the tiles of those at lower
/// zoom levels, and each is the only match of its phrase in its tile.
pub open spec fn picks_meet(
    stack: Seq<PhrasematchSubquery>,
    lists: Seq<Seq<MatchEntry>>,
    picks: Seq<int>,
) -> bool {
    &&& lists.len() == stack.len()
    &&& picks.len() == stack.len()
    &&& forall|i: int| 0 <= i < stack.len() ==> 0 <= #[trigger] picks[i] < lists[i].len()
    &&& forall|i: int, j: int|
        #![trigger picks[i], picks[j]]
        0 <= i < j < stack.len() ==> {
            let levels = (zoom_of(stack, j) - zoom_of(stack, i)) as nat;
            &&& zoomed_out(lists[j][picks[j]].grid_entry.x, levels)
                == lists[i][picks[i]].grid_entry.x
            &&& zoomed_out(lists[j][picks[j]].grid_entry.y, levels)
                == lists[i][picks[i]].grid_entry.y
        }
    &&& forall|i: int, k: int|
        #![trigger lists[i][k]]
        0 <= i < stack.len() && 0 <= k < lists[i].len() && lists[i][k].grid_entry.x
            == lists[i][picks[i]].grid_entry.x && lists[i][k].grid_entry.y
            == lists[i][picks[i]].grid_entry.y ==> k == picks[i]
}

/// The phrases are of different indexes and cover different words.
pub open spec fn phrases_differ(stack: Seq<PhrasematchSubquery>) -> bool {
    &&& forall|p: int| 0 <= p < stack.len() ==> (#[trigger] stack[p]).mask != 0
    &&& forall|p: int, q: int|
        0 <= p < stack.len() && 0 <= q < stack.len() && p != q ==> (#[trigger] stack[p]).idx != (
        #[trigger] stack[q]).idx && stack[p].mask & stack[q].mask == 0
}

spec fn is_pick(
    stack: Seq<PhrasematchSubquery>,
    lists: Seq<Seq<MatchEntry>>,
    picks: Seq<int>,
    n: int,
) -> Quality {
    |e: CoalesceEntry|
        exists|i: int| 0 <= i < n && e == #[trigger] pick(stack, lists, picks, i)
}

spec fn tile_of_pick(
    stack: Seq<PhrasematchSubquery>,
    lists: Seq<Seq<MatchEntry>>,
    picks: Seq<int>,
    i: int,
) -> u64 {
    tile_number(
        zoom_of(stack, i),
        pick(stack, lists, picks, i).grid_entry.x,
        pick(stack, lists, picks, i).grid_entry.y,
    )
}

/// The phrases in order: each has its place, the zoom levels do not fall.
proof fn order_facts(stack: Seq<PhrasematchSubquery>)
    requires
        stack.len() <= usize::MAX,
    ensures
        stack_order(stack).len() == stack.len(),
        forall|i: int|
            0 <= i < stack.len() ==> (#[trigger] stack_order(stack)[i]) < stack.len(),
        forall|i: int, j: int|
            0 <= i < j < stack.len() ==> #[trigger] stack_order(stack)[i]
                != #[trigger] stack_order(stack)[j],
        forall|i: int, j: int|
            0 <= i < j < stack.len() ==> #[trigger] zoom_of(stack, i) <= #[trigger] zoom_of(
                stack,
                j,
            ),
{
    let all = Set::new(|p: usize| p < stack.len());
    let listed = Seq::new(stack.len(), |i: int| i as usize);
    assert forall|p: usize| listed.to_set().contains(p) <==> all.contains(p) by {
        set_members(listed, p);
        if all.contains(p) {
            assert(listed[p as int] == p);
        }
    }
    assert(listed.to_set() =~= all);
    vstd::seq_lib::seq_to_set_is_finite(listed);
    assert(listed.no_duplicates());
    listed.unique_seq_to_set();
    let num = stack_num(stack);
    assert forall|a: usize, b: usize| #[trigger] num(a) == #[trigger] num(b) implies a == b by {}
    in_order_exists(all, num);
    stack_order_is(stack);
    let order = stack_order(stack);
    assert forall|i: int, j: int| 0 <= i < j < stack.len() implies #[trigger] zoom_of(stack, i)
        <= #[trigger] zoom_of(stack, j) by {
        assert(num(order[i]) < num(order[j]));
    }
}

pub(crate) proof fn zoomed_out_by_none(v: u16)
    ensures
        zoomed_out(v, 0) == v,
{
    vstd::arithmetic::power2::lemma2_to64();
}

proof fn picks_share_tiles(
    stack: Seq<PhrasematchSubquery>,
    lists: Seq<Seq<MatchEntry>>,
    picks: Seq<int>,
    i: int,
    j: int,
)
    requires
        stack.len() <= usize::MAX,
        picks_meet(stack, lists, picks),
        0 <= i < stack.len(),
        0 <= j < stack.len(),
        zoom_of(stack, i) <= zoom_of(stack, j),
    ensures
        zoomed_out(
            pick(stack, lists, picks, j).grid_entry.x,
            (zoom_of(stack, j) - zoom_of(stack, i)) as nat,
        ) == pick(stack, lists, picks, i).grid_entry.x,
        zoomed_out(
            pick(stack, lists, picks, j).grid_entry.y,
            (zoom_of(stack, j) - zoom_of(stack, i)) as nat,
        ) == pick(stack, lists, picks, i).grid_entry.y,
{
    order_facts(stack);
    let a = lists[i][picks[i]].grid_entry;
    let b = lists[j][picks[j]].grid_entry;
    zoomed_out_by_none(a.x);
    zoomed_out_by_none(a.y);
    zoomed_out_by_none(b.x);
    zoomed_out_by_none(b.y);
    if i > j {
        assert(zoom_of(stack, j) <= zoom_of(stack, i));
        assert((zoom_of(stack, i) - zoom_of(stack, j)) as nat == 0);
    }
}

proof fn picks_cover_apart(
    stack: Seq<PhrasematchSubquery>,
    lists: Seq<Seq<MatchEntry>>,
    picks: Seq<int>,
    n: int,
)
    requires
        stack.len() <= usize::MAX,
        phrases_differ(stack),
        0 <= n <= stack.len(),
    ensures
        one_per_word(is_pick(stack, lists, picks, n)),
{
    let ok = is_pick(stack, lists, picks, n);
    order_facts(stack);
    let order = stack_order(stack);
    assert forall|a: CoalesceEntry, b: CoalesceEntry|
        #[trigger] ok(a) && #[trigger] ok(b) && a.mask & b.mask != 0 implies a == b by {
        let i = choose|i: int| 0 <= i < n && a == #[trigger] pick(stack, lists, picks, i);
        let j = choose|j: int| 0 <= j < n && b == #[trigger] pick(stack, lists, picks, j);
        if i != j {
            assert(order[i] != order[j]);
            assert(stack[order[i] as int].mask & stack[order[j] as int].mask == 0);
        }
    }
}

proof fn lower_zooms_are(
    stack: Seq<PhrasematchSubquery>,
    order: Seq<usize>,
    n: int,
    at: usize,
)
    requires
        0 <= n <= order.len(),
    ensures
        forall|k: int|
            0 <= k < lower_zooms(stack, order, n, at).len() ==> exists|m: int|
                0 <= m < n && stack[(#[trigger] order[m]) as int].store.zoom == #[trigger] lower_zooms(
                    stack,
                    order,
                    n,
                    at,
                )[k] && lower_zooms(stack, order, n, at)[k] <= stack[at as int].store.zoom,
        forall|m: int|
            0 <= m < n && stack[(#[trigger] order[m]) as int].idx != stack[at as int].idx
                && stack[order[m] as int].store.zoom <= stack[at as int].store.zoom ==> lower_zooms(
                stack,
                order,
                n,
                at,
            ).contains(stack[order[m] as int].store.zoom),
    decreases n,
{
    if n > 0 {
        lower_zooms_are(stack, order, n - 1, at);
        let before = lower_zooms(stack, order, n - 1, at);
        let after = lower_zooms(stack, order, n, at);
        assert forall|k: int| 0 <= k < before.len() implies #[trigger] after[k] == before[k] by {}
        assert forall|k: int| 0 <= k < after.len() implies exists|m: int|
            0 <= m < n && stack[(#[trigger] order[m]) as int].store.zoom == #[trigger] after[k]
                && after[k] <= stack[at as int].store.zoom by {
            if k < before.len() {
                let m = choose|m: int|
                    0 <= m < n - 1 && stack[(#[trigger] order[m]) as int].store.zoom == before[k]
                        && before[k] <= stack[at as int].store.zoom;
                assert(stack[order[m] as int].store.zoom == after[k]);
            } else {
                assert(stack[order[n - 1] as int].store.zoom == after[k]);
            }
        }
        assert forall|m: int|
            0 <= m < n && stack[(#[trigger] order[m]) as int].idx != stack[at as int].idx
                && stack[order[m] as int].store.zoom
                <= stack[at as int].store.zoom implies after.contains(
            stack[order[m] as int].store.zoom,
        ) by {
            let z = stack[order[m] as int].store.zoom;
            if m < n - 1 {
                let k = choose|k: int| 0 <= k < before.len() && before[k] == z;
                assert(after[k] == z);
            } else {
                assert(after[before.len() as int] == z);
            }
        }
    }
}

proof fn deduped_has(zooms: Seq<u16>, k: int)
    requires
        0 <= k < zooms.len(),
    ensures
        deduped(zooms).contains(zooms[k]),
        zooms.len() > 0 ==> deduped(zooms).len() > 0 && deduped(zooms).last() == zooms.last(),
    decreases zooms.len(),
{
    let out = deduped(zooms);
    if zooms.len() > 1 {
        let rest = zooms.drop_last();
        let before = deduped(rest);
        deduped_has(rest, rest.len() - 1);
        assert(rest.last() == zooms[zooms.len() - 2]);
        if k < rest.len() {
            deduped_has(rest, k);
            assert(rest[k] == zooms[k]);
            let j = choose|j: int| 0 <= j < before.len() && before[j] == zooms[k];
            assert(out[j] == zooms[k]);
        } else {
            assert(out[out.len() - 1] == zooms[k]);
        }
    } else {
        assert(out[k] == zooms[k]);
    }
}

/// The contexts in the tiles where the picked matches meet are made of the first `n` of these, and
/// each of those is in one of them.
spec fn met(
    stack: Seq<PhrasematchSubquery>,
    lists: Seq<Seq<MatchEntry>>,
    picks: Seq<int>,
    tiles: Tiles,
    n: int,
) -> bool {
    forall|i: int|
        0 <= i < stack.len() ==> met_in(
            stack,
            lists,
            picks,
            contexts_at(tiles, #[trigger] tile_of_pick(stack, lists, picks, i)),
            n,
            i,
        )
}

spec fn met_in(
    stack: Seq<PhrasematchSubquery>,
    lists: Seq<Seq<MatchEntry>>,
    picks: Seq<int>,
    cs: Seq<ContextView>,
    n: int,
    i: int,
) -> bool {
    &&& all_contexts_have(is_pick(stack, lists, picks, n), cs)
    &&& i < n ==> exists|a: int|
        0 <= a < cs.len() && (#[trigger] cs[a]).entries.contains(pick(stack, lists, picks, i))
}

proof fn picks_stay(
    stack: Seq<PhrasematchSubquery>,
    lists: Seq<Seq<MatchEntry>>,
    picks: Seq<int>,
    cs: Seq<ContextView>,
    n: int,
)
    requires
        all_contexts_have(is_pick(stack, lists, picks, n), cs),
    ensures
        all_contexts_have(is_pick(stack, lists, picks, n + 1), cs),
{
    let less = is_pick(stack, lists, picks, n);
    let more = is_pick(stack, lists, picks, n + 1);
    assert forall|i: int| 0 <= i < cs.len() implies all_have(more, (#[trigger] cs[i]).entries) by {
        let es = cs[i].entries;
        assert(all_have(less, es));
        assert forall|k: int| 0 <= k < es.len() implies more(#[trigger] es[k]) by {
            assert(less(es[k]));
            let m = choose|m: int| 0 <= m < n && es[k] == #[trigger] pick(stack, lists, picks, m);
            assert(es[k] == pick(stack, lists, picks, m));
        }
    }
}

/// What the picked match of phrase `j` grows into.
spec fn grown_pick(
    stack: Seq<PhrasematchSubquery>,
    lists: Seq<Seq<MatchEntry>>,
    picks: Seq<int>,
    tiles: Tiles,
    j: int,
) -> Growth {
    let others = other_zooms(stack, stack_order(stack), stack_order(stack)[j]);
    grown_across(
        tiles,
        zoom_of(stack, j),
        others,
        others.len() as int,
        sprout(pick(stack, lists, picks, j)),
    )
}

proof fn picks_grow(
    stack: Seq<PhrasematchSubquery>,
    lists: Seq<Seq<MatchEntry>>,
    picks: Seq<int>,
    tiles: Tiles,
    j: int,
)
    requires
        stack.len() <= usize::MAX,
        phrases_differ(stack),
        picks_meet(stack, lists, picks),
        0 <= j < stack.len(),
        tiles_add_up(tiles),
        met(stack, lists, picks, tiles, j),
    ensures
        ({
            let g = grown_pick(stack, lists, picks, tiles, j);
            &&& growth_adds_up(g, pick(stack, lists, picks, j))
            &&& all_have(is_pick(stack, lists, picks, j + 1), g.entries)
            &&& forall|i: int|
                0 <= i <= j ==> g.entries.contains(#[trigger] pick(stack, lists, picks, i))
        }),
{
    let order = stack_order(stack);
    let at = order[j];
    let others = other_zooms(stack, order, at);
    let all = lower_zooms(stack, order, order.len() as int, at);
    let zoom = zoom_of(stack, j);
    let e = pick(stack, lists, picks, j);
    let ok = is_pick(stack, lists, picks, j + 1);
    let n = others.len() as int;
    order_facts(stack);
    picks_cover_apart(stack, lists, picks, j + 1);
    lower_zooms_are(stack, order, order.len() as int, at);
    phrase_relev_fits(lists[j][picks[j]], stack[at as int]);
    assert(stack[at as int].mask != 0);
    assert forall|k: int| 0 <= k < n implies all_contexts_have(
        ok,
        met_at(tiles, zoom, #[trigger] others[k], e),
    ) by {
        deduped_from(all, k);
        let a = choose|a: int| 0 <= a < all.len() && all[a] == others[k];
        let i = choose|i: int|
            0 <= i < order.len() && stack[(#[trigger] order[i]) as int].store.zoom == all[a]
                && all[a] <= stack[at as int].store.zoom;
        assert(zoom_of(stack, i) == others[k]);
        picks_share_tiles(stack, lists, picks, i, j);
        let t = tile_of_pick(stack, lists, picks, i);
        assert(met_at(tiles, zoom, others[k], e) == contexts_at(tiles, t));
        picks_stay(stack, lists, picks, contexts_at(tiles, t), j);
    }
    assert(ok(e)) by {
        assert(e == pick(stack, lists, picks, j));
    }
    grown_across_keeps(ok, tiles, zoom, others, n, e);
    grown_across_adds_up(tiles, zoom, others, n, e);
    let g = grown_pick(stack, lists, picks, tiles, j);
    assert forall|i: int| 0 <= i <= j implies g.entries.contains(
        #[trigger] pick(stack, lists, picks, i),
    ) by {
        if i < j {
            assert(zoom_of(stack, i) <= zoom_of(stack, j));
            assert(order[i] != order[j]);
            assert(stack[order[i] as int].idx != stack[order[j] as int].idx);
            assert(all.contains(stack[order[i] as int].store.zoom));
            let a = choose|a: int| 0 <= a < all.len() && all[a] == zoom_of(stack, i);
            deduped_has(all, a);
            let k = choose|k: int| 0 <= k < others.len() && others[k] == zoom_of(stack, i);
            picks_share_tiles(stack, lists, picks, i, j);
            let t = tile_of_pick(stack, lists, picks, i);
            let cs = met_at(tiles, zoom, others[k], e);
            assert(cs == contexts_at(tiles, t));
            assert(met_in(stack, lists, picks, contexts_at(tiles, t), j, i));
            let b = choose|b: int|
                0 <= b < cs.len() && (#[trigger] cs[b]).entries.contains(
                    pick(stack, lists, picks, i),
                );
            let es = met_at(tiles, zoom, others[k], e)[b].entries;
            assert(has_all(g.entries, es));
            let m = choose|m: int| 0 <= m < es.len() && es[m] == pick(stack, lists, picks, i);
            assert(g.entries.contains(es[m]));
        }
    }
}

/// The entries of phrase `j`.
spec fn entries_at(
    stack: Seq<PhrasematchSubquery>,
    lists: Seq<Seq<MatchEntry>>,
    j: int,
) -> Seq<CoalesceEntry> {
    coalesce_entries(lists[j], stack[stack_order(stack)[j] as int], 0)
}

/// What the first `m` entries of phrase `j` bring.
spec fn swept_at(
    stack: Seq<PhrasematchSubquery>,
    lists: Seq<Seq<MatchEntry>>,
    before: MultiState,
    j: int,
    m: int,
) -> Sweep {
    let order = stack_order(stack);
    swept_all(
        Sweep { added: Map::empty(), contexts: before.contexts, max_relev: before.max_relev },
        before.tiles,
        zoom_of(stack, j),
        other_zooms(stack, order, order[j]),
        j == 0,
        j + 1 == order.len(),
        entries_at(stack, lists, j).take(m),
    )
}

/// Only the picked match of a phrase lies where the picked matches meet.
proof fn only_the_pick_is_there(
    stack: Seq<PhrasematchSubquery>,
    lists: Seq<Seq<MatchEntry>>,
    picks: Seq<int>,
    j: int,
    m: int,
    i: int,
)
    requires
        stack.len() <= usize::MAX,
        picks_meet(stack, lists, picks),
        0 <= j < stack.len(),
        0 <= i < stack.len(),
        0 <= m < lists[j].len(),
        tile_number(
            zoom_of(stack, j),
            lists[j][m].grid_entry.x,
            lists[j][m].grid_entry.y,
        ) == tile_of_pick(stack, lists, picks, i),
    ensures
        m == picks[j],
{
    let e = pick(stack, lists, picks, i).grid_entry;
    tile_numbers_differ(
        zoom_of(stack, j),
        lists[j][m].grid_entry.x,
        lists[j][m].grid_entry.y,
        zoom_of(stack, i),
        e.x,
        e.y,
    );
    picks_share_tiles(stack, lists, picks, i, j);
    let b = pick(stack, lists, picks, j).grid_entry;
    zoomed_out_by_none(b.x);
    zoomed_out_by_none(b.y);
    assert(lists[j][m].grid_entry.x == lists[j][picks[j]].grid_entry.x);
}

proof fn sweep_takes_the_pick(
    stack: Seq<PhrasematchSubquery>,
    lists: Seq<Seq<MatchEntry>>,
    picks: Seq<int>,
    before: MultiState,
    j: int,
    m: int,
    i: int,
)
    requires
        stack.len() <= usize::MAX,
        phrases_differ(stack),
        picks_meet(stack, lists, picks),
        0 <= j < stack.len() - 1,
        0 <= m <= lists[j].len(),
        0 <= i < stack.len(),
        j == 0 || grown_pick(stack, lists, picks, before.tiles, j).entries.len() > 1,
    ensures
        ({
            let g = grown_pick(stack, lists, picks, before.tiles, j);
            let cs = contexts_at(
                swept_at(stack, lists, before, j, m).added,
                tile_of_pick(stack, lists, picks, i),
            );
            &&& m > picks[j] && tile_of_pick(stack, lists, picks, i) == tile_of_pick(
                stack,
                lists,
                picks,
                j,
            ) ==> cs.len() == 1 && cs[0].entries == g.entries
            &&& !(m > picks[j] && tile_of_pick(stack, lists, picks, i) == tile_of_pick(
                stack,
                lists,
                picks,
                j,
            )) ==> cs.len() == 0
        }),
    decreases m,
{
    let es = entries_at(stack, lists, j);
    order_facts(stack);
    if m > 0 {
        sweep_takes_the_pick(stack, lists, picks, before, j, m - 1, i);
        assert(es.take(m).drop_last() =~= es.take(m - 1));
        let e = es[m - 1];
        assert(es.take(m).last() == e);
        assert(e == coalesce_entry(
            lists[j][m - 1],
            stack[stack_order(stack)[j] as int],
            0,
        ));
        let t = tile_number(zoom_of(stack, j), e.grid_entry.x, e.grid_entry.y);
        if t == tile_of_pick(stack, lists, picks, i) {
            only_the_pick_is_there(stack, lists, picks, j, m - 1, i);
        }
        if m - 1 == picks[j] {
            assert(e == pick(stack, lists, picks, j));
        }
    } else {
        assert(es.take(0) =~= Seq::empty());
    }
}

#[verifier::spinoff_prover]
#[verifier::rlimit(60)]
proof fn states_meet(
    stack: Seq<PhrasematchSubquery>,
    lists: Seq<Seq<MatchEntry>>,
    picks: Seq<int>,
    n: int,
)
    requires
        stack.len() <= usize::MAX,
        phrases_differ(stack),
        picks_meet(stack, lists, picks),
        0 <= n < stack.len(),
    ensures
        met(stack, lists, picks, multi_state(stack, stack_order(stack), lists, n).tiles, n),
        tiles_add_up(multi_state(stack, stack_order(stack), lists, n).tiles),
    decreases n,
{
    let order = stack_order(stack);
    order_facts(stack);
    assert forall|i: int| 0 <= i < n implies stack[(#[trigger] order[i]) as int].mask != 0 by {
        assert(stack[order[i] as int].mask != 0);
    }
    multi_state_adds_up(stack, order, lists, n);
    let after = multi_state(stack, order, lists, n);
    if n > 0 {
        let j = n - 1;
        states_meet(stack, lists, picks, j);
        let before = multi_state(stack, order, lists, j);
        picks_grow(stack, lists, picks, before.tiles, j);
        let g = grown_pick(stack, lists, picks, before.tiles, j);
        if j > 0 {
            assert(g.entries.contains(pick(stack, lists, picks, 0)));
            assert(g.entries.contains(pick(stack, lists, picks, j)));
            assert(order[0] != order[j]);
            assert(stack[order[0] as int].idx != stack[order[j] as int].idx);
            if g.entries.len() == 1 {
                assert(pick(stack, lists, picks, 0).idx == pick(stack, lists, picks, j).idx);
            }
        }
        let es = entries_at(stack, lists, j);
        assert(es.take(lists[j].len() as int) =~= es);
        let w = swept_at(stack, lists, before, j, lists[j].len() as int);
        assert(after.tiles == joined(before.tiles, w.added));
        assert forall|i: int| 0 <= i < stack.len() implies met_in(
            stack,
            lists,
            picks,
            contexts_at(after.tiles, #[trigger] tile_of_pick(stack, lists, picks, i)),
            n,
            i,
        ) by {
            let t = tile_of_pick(stack, lists, picks, i);
            sweep_takes_the_pick(stack, lists, picks, before, j, lists[j].len() as int, i);
            contexts_at_joined(before.tiles, w.added, t);
            let a = contexts_at(before.tiles, t);
            let b = contexts_at(w.added, t);
            let cs = contexts_at(after.tiles, t);
            assert(met_in(stack, lists, picks, a, j, i));
            picks_stay(stack, lists, picks, a, j);
            let ok = is_pick(stack, lists, picks, n);
            assert forall|k: int| 0 <= k < cs.len() implies all_have(
                ok,
                (#[trigger] cs[k]).entries,
            ) by {
                if k < a.len() {
                    assert(cs[k] == a[k]);
                } else {
                    assert(cs[k] == b[k - a.len()]);
                    assert(cs[k].entries == g.entries);
                }
            }
            if i < j {
                let k = choose|k: int|
                    0 <= k < a.len() && (#[trigger] a[k]).entries.contains(
                        pick(stack, lists, picks, i),
                    );
                assert(cs[k] == a[k]);
            } else if i == j {
                assert(0 <= picks[j] < lists[j].len());
                assert(cs[a.len() as int] == b[0]);
                assert(g.entries.contains(pick(stack, lists, picks, j)));
            }
        }
    } else {
        assert forall|i: int| 0 <= i < stack.len() implies met_in(
            stack,
            lists,
            picks,
            contexts_at(after.tiles, #[trigger] tile_of_pick(stack, lists, picks, i)),
            n,
            i,
        ) by {}
    }
}

/// The context that the picked match of the last phrase grows into.
spec fn last_context(g: Growth) -> ContextView {
    ContextView {
        entries: g.entries,
        mask: g.mask,
        relev: (g.relev - penalty(g.entries)) as i128,
    }
}

/// What the `i`th match of phrase `j` grows into.
spec fn grown_match(
    stack: Seq<PhrasematchSubquery>,
    lists: Seq<Seq<MatchEntry>>,
    tiles: Tiles,
    j: int,
    i: int,
) -> Growth {
    let others = other_zooms(stack, stack_order(stack), stack_order(stack)[j]);
    grown_across(
        tiles,
        zoom_of(stack, j),
        others,
        others.len() as int,
        sprout(entries_at(stack, lists, j)[i]),
    )
}

proof fn last_sweep_takes_matches(
    stack: Seq<PhrasematchSubquery>,
    lists: Seq<Seq<MatchEntry>>,
    bounds: Seq<int>,
    before: MultiState,
    i: int,
    m: int,
)
    requires
        0 < stack.len() <= usize::MAX,
        forall|p: int| 0 <= p < stack.len() ==> (#[trigger] stack[p]).mask != 0,
        0 <= i < lists[stack.len() - 1].len(),
        0 <= m <= lists[stack.len() - 1].len(),
        are_bounded(stack, stack_order(stack), lists, bounds),
        forall|k: int| 0 <= k < bounds.len() ==> 0 <= #[trigger] bounds[k],
        tiles_add_up(before.tiles),
        tiles_have(is_bounded(stack, stack_order(stack), bounds), before.tiles),
        before.max_relev <= sum_of(bounds),
        sum_of(bounds) - grown_match(stack, lists, before.tiles, stack.len() - 1, i).relev
            + CONTEXT_PENALTY < MAX_RELEVANCE_GAP,
    ensures
        swept_at(stack, lists, before, stack.len() - 1, m).max_relev <= sum_of(bounds),
        m > i ==> swept_at(stack, lists, before, stack.len() - 1, m).contexts.contains(
            last_context(grown_match(stack, lists, before.tiles, stack.len() - 1, i)),
        ),
    decreases m,
{
    let j = stack.len() - 1;
    let order = stack_order(stack);
    order_facts(stack);
    let es = entries_at(stack, lists, j);
    let w = swept_at(stack, lists, before, j, m);
    let part = stack[order[j] as int];
    if m > 0 {
        last_sweep_takes_matches(stack, lists, bounds, before, i, m - 1);
        let mid = swept_at(stack, lists, before, j, m - 1);
        assert(es.take(m).drop_last() =~= es.take(m - 1));
        let e = es[m - 1];
        assert(es.take(m).last() == e);
        assert(part.mask != 0);
        phrase_entries_fit(lists[j], part);
        assert(es[m - 1].mask != 0 && entry_ok(es[m - 1]));
        phrase_is_bounded(stack, order, lists, bounds, j);
        assert(is_bounded(stack, order, bounds)(es[m - 1]));
        growth_is_bounded(
            stack,
            order,
            bounds,
            before.tiles,
            zoom_of(stack, j),
            other_zooms(stack, order, order[j]),
            e,
        );
        let g = grown_match(stack, lists, before.tiles, j, i);
        let c = last_context(g);
        if m - 1 == i {
            assert(w.contexts == mid.contexts.push(c));
            assert(w.contexts[mid.contexts.len() as int] == c);
        } else if m - 1 > i {
            let k = choose|k: int| 0 <= k < mid.contexts.len() && mid.contexts[k] == c;
            assert(w.contexts[k] == c);
        }
    } else {
        assert(es.take(0) =~= Seq::empty());
    }
}

// ---------------------------------------------------------------------------------------------
// Sums
// ---------------------------------------------------------------------------------------------

proof fn sums_without(es: Seq<CoalesceEntry>, a: int)
    requires
        0 <= a < es.len(),
    ensures
        relev_sum(es) == relev_sum(es.remove(a)) + es[a].relev,
        or_masks(es) == or_masks(es.remove(a)) | es[a].mask,
    decreases es.len(),
{
    let rest = es.drop_last();
    if a == es.len() - 1 {
        assert(es.remove(a) =~= rest);
    } else {
        sums_without(rest, a);
        let less = es.remove(a);
        assert(less.drop_last() =~= rest.remove(a));
        assert(less.last() == es.last());
        assert(rest[a] == es[a]);
        let x = or_masks(rest.remove(a));
        let y = es[a].mask;
        let z = es.last().mask;
        assert((x | y) | z == (x | z) | y) by (bit_vector);
    }
}

proof fn same_sums(es: Seq<CoalesceEntry>, ps: Seq<CoalesceEntry>)
    requires
        es.len() == ps.len(),
        ps.no_duplicates(),
        forall|k: int| 0 <= k < ps.len() ==> es.contains(#[trigger] ps[k]),
    ensures
        relev_sum(es) == relev_sum(ps),
        or_masks(es) == or_masks(ps),
    decreases ps.len(),
{
    if ps.len() > 0 {
        let n = ps.len() - 1;
        let a = choose|a: int| 0 <= a < es.len() && es[a] == ps[n];
        let less = es.remove(a);
        let rest = ps.drop_last();
        assert forall|k: int| 0 <= k < rest.len() implies less.contains(#[trigger] rest[k]) by {
            assert(es.contains(ps[k]));
            let b = choose|b: int| 0 <= b < es.len() && es[b] == ps[k];
            assert(ps[k] != ps[n]);
            if b < a {
                assert(less[b] == ps[k]);
            } else {
                assert(less[b - 1] == ps[k]);
            }
        }
        assert(rest.no_duplicates());
        same_sums(less, rest);
        sums_without(es, a);
    }
}

// ---------------------------------------------------------------------------------------------
// Answers
// ---------------------------------------------------------------------------------------------

/// The matches that answer the queries to the indexes are always the same.
proof fn lists_agree<F: Fn(u64, u16, u64, u8) -> Measure>(
    stack: Seq<PhrasematchSubquery>,
    order: Seq<usize>,
    opts: MatchOpts,
    scale: F,
    a: Seq<Seq<MatchEntry>>,
    b: Seq<Seq<MatchEntry>>,
)
    requires
        are_phrase_matches(stack, order, opts, scale, a),
        are_phrase_matches(stack, order, opts, scale, b),
    ensures
        a == b,
{
    assert forall|i: int| 0 <= i < a.len() implies #[trigger] a[i] == b[i] by {
        let part = stack[order[i] as int];
        queries_agree(
            *part.store,
            part.match_keys@[0].key,
            opts_at_zoom(opts@, part.store.zoom),
            meter_of(scale, part.store.coalesce_radius, part.store.zoom),
            MAX_GRIDS_PER_PHRASE as nat,
            a[i],
            b[i],
        );
    }
    assert(a =~= b);
}

/// Phrases whose matches meet in a tile are stacked, all of them: where one match of each phrase
/// was found, and each lies in the tiles of those at lower zoom levels and is the only one of its
/// phrase in its tile, the answer has a context of just these matches. It covers the words of all
/// phrases, and its relevance is what those of the matches add up to, but for a hundredth where the
/// masks of its first two entries ascend or it has only one. The phrases are of different indexes
/// and cover different words. `bounds` tell how relevant the matches of each phrase are at most: the
/// context is in the answer if it is not less relevant by the allowed gap than what could be
/// stacked elsewhere.
pub proof fn phrases_that_meet_are_stacked<F: Fn(u64, u16, u64, u8) -> Measure>(
    stack: Seq<PhrasematchSubquery>,
    opts: MatchOpts,
    scale: F,
    lists: Seq<Seq<MatchEntry>>,
    picks: Seq<int>,
    bounds: Seq<int>,
    out: Seq<ContextView>,
) -> (k: int)
    requires
        0 < stack.len() <= usize::MAX,
        is_multi_answer(stack, opts, scale, out),
        are_phrase_matches(stack, stack_order(stack), opts, scale, lists),
        phrases_differ(stack),
        picks_meet(stack, lists, picks),
        are_bounded(stack, stack_order(stack), lists, bounds),
        sum_of(bounds) - relev_sum(all_picks(stack, lists, picks)) < 240_000_000_000,
    ensures
        0 <= k < out.len(),
        out[k].entries.len() == stack.len(),
        forall|i: int|
            0 <= i < stack.len() ==> out[k].entries.contains(
                #[trigger] pick(stack, lists, picks, i),
            ),
        out[k].mask == or_masks(all_picks(stack, lists, picks)),
        out[k].relev == relev_sum(all_picks(stack, lists, picks)) - (if stack.len() == 1
            || out[k].entries[0].mask < out[k].entries[1].mask {
            10_000_000_000int
        } else {
            0
        }),
{
    let order = stack_order(stack);
    let n = stack.len() as int;
    let j = n - 1;
    order_facts(stack);
    assert forall|k: int| 0 <= k < bounds.len() implies 0 <= #[trigger] bounds[k] by {
        assert(0 <= picks[k] < lists[k].len());
        phrase_relev_fits(lists[k][picks[k]], stack[order[k] as int]);
    }
    assert(0 <= picks[j] < lists[j].len());
    states_meet(stack, lists, picks, j);
    let before = multi_state(stack, order, lists, j);
    picks_grow(stack, lists, picks, before.tiles, j);
    let g = grown_pick(stack, lists, picks, before.tiles, j);
    assert(entries_at(stack, lists, j)[picks[j]] == pick(stack, lists, picks, j));
    picks_are_all(stack, lists, picks, g.entries, n);
    assert(all_picks(stack, lists, picks).take(n) =~= all_picks(stack, lists, picks));
    last_matches_answer(stack, opts, scale, lists, bounds, out, picks[j])
}

/// The matches of the last phrase are in the answer, each with what it grows into.
proof fn last_matches_answer<F: Fn(u64, u16, u64, u8) -> Measure>(
    stack: Seq<PhrasematchSubquery>,
    opts: MatchOpts,
    scale: F,
    lists: Seq<Seq<MatchEntry>>,
    bounds: Seq<int>,
    out: Seq<ContextView>,
    i: int,
) -> (k: int)
    requires
        0 < stack.len() <= usize::MAX,
        forall|p: int| 0 <= p < stack.len() ==> (#[trigger] stack[p]).mask != 0,
        is_multi_answer(stack, opts, scale, out),
        are_phrase_matches(stack, stack_order(stack), opts, scale, lists),
        are_bounded(stack, stack_order(stack), lists, bounds),
        forall|k: int| 0 <= k < bounds.len() ==> 0 <= #[trigger] bounds[k],
        0 <= i < lists[stack.len() - 1].len(),
        sum_of(bounds) - grown_match(
            stack,
            lists,
            multi_state(stack, stack_order(stack), lists, stack.len() - 1).tiles,
            stack.len() - 1,
            i,
        ).relev < 240_000_000_000,
    ensures
        ({
            let g = grown_match(
                stack,
                lists,
                multi_state(stack, stack_order(stack), lists, stack.len() - 1).tiles,
                stack.len() - 1,
                i,
            );
            &&& 0 <= k < out.len()
            &&& growth_adds_up(g, entries_at(stack, lists, stack.len() - 1)[i])
            &&& out[k].entries == g.entries
            &&& out[k].mask == g.mask
            &&& out[k].relev == g.relev - penalty(g.entries)
        }),
{
    let order = stack_order(stack);
    let n = stack.len() as int;
    let j = n - 1;
    order_facts(stack);
    assert forall|i: int| 0 <= i < order.len() implies stack[(#[trigger] order[i]) as int].mask
        != 0 by {
        assert(stack[order[i] as int].mask != 0);
    }
    answers_are_of_lists(stack, opts, scale, lists, out);
    states_are_bounded(stack, order, lists, bounds, j);
    let before = multi_state(stack, order, lists, j);
    let es = entries_at(stack, lists, j);
    assert(es.take(lists[j].len() as int) =~= es);
    let part = stack[order[j] as int];
    assert(part.mask != 0);
    phrase_entries_fit(lists[j], part);
    assert(es[i].mask != 0 && entry_ok(es[i]));
    let others = other_zooms(stack, order, order[j]);
    grown_across_adds_up(before.tiles, zoom_of(stack, j), others, others.len() as int, es[i]);
    last_sweep_takes_matches(stack, lists, bounds, before, i, lists[j].len() as int);
    let w = swept_at(stack, lists, before, j, lists[j].len() as int);
    let st = multi_state(stack, order, lists, n);
    assert(st.contexts == w.contexts);
    let g = grown_match(stack, lists, before.tiles, j, i);
    let c = last_context(g);
    let a = choose|a: int| 0 <= a < st.contexts.len() && st.contexts[a] == c;
    let all = multi_contexts(st);
    assert(all[a] == c);
    growth_fits(g, es[i]);
    place_in(all, out, a)
}

/// The answer holds the contexts of the matches.
proof fn answers_are_of_lists<F: Fn(u64, u16, u64, u8) -> Measure>(
    stack: Seq<PhrasematchSubquery>,
    opts: MatchOpts,
    scale: F,
    lists: Seq<Seq<MatchEntry>>,
    out: Seq<ContextView>,
)
    requires
        is_multi_answer(stack, opts, scale, out),
        are_phrase_matches(stack, stack_order(stack), opts, scale, lists),
    ensures
        out.to_multiset() == multi_contexts(
            multi_state(
                stack,
                stack_order(stack),
                lists,
                stack_order(stack).len() as int,
            ),
        ).to_multiset(),
{
    let order = stack_order(stack);
    let found = choose|lists: Seq<Seq<MatchEntry>>|
        {
            &&& #[trigger] are_phrase_matches(stack, order, opts, scale, lists)
            &&& best_first(out)
            &&& out.to_multiset() == multi_contexts(
                multi_state(stack, order, lists, order.len() as int),
            ).to_multiset()
        };
    lists_agree(stack, order, opts, scale, found, lists);
}

/// Entries that are picked matches, each of the first `n` among them, are as many.
proof fn picks_are_all(
    stack: Seq<PhrasematchSubquery>,
    lists: Seq<Seq<MatchEntry>>,
    picks: Seq<int>,
    es: Seq<CoalesceEntry>,
    n: int,
)
    requires
        stack.len() <= usize::MAX,
        phrases_differ(stack),
        0 <= n <= stack.len(),
        masks_given(es),
        masks_disjoint(es),
        all_have(is_pick(stack, lists, picks, n), es),
        forall|i: int|
            0 <= i < n ==> es.contains(#[trigger] pick(stack, lists, picks, i)),
    ensures
        es.len() == n,
        relev_sum(es) == relev_sum(all_picks(stack, lists, picks).take(n)),
        or_masks(es) == or_masks(all_picks(stack, lists, picks).take(n)),
{
    let ps = all_picks(stack, lists, picks).take(n);
    let order = stack_order(stack);
    order_facts(stack);
    assert(ps.no_duplicates()) by {
        assert forall|i: int, j: int| 0 <= i < j < ps.len() implies ps[i] != ps[j] by {
            assert(order[i] != order[j]);
            assert(stack[order[i] as int].idx != stack[order[j] as int].idx);
            assert(ps[i] == pick(stack, lists, picks, i) && ps[j] == pick(stack, lists, picks, j));
        }
    }
    assert(es.no_duplicates()) by {
        assert forall|i: int, j: int| 0 <= i < j < es.len() implies es[i] != es[j] by {
            assert(es[i].mask & es[j].mask == 0);
            let m = es[i].mask;
            assert(m & m == m) by (bit_vector);
            assert(es[i].mask != 0);
        }
    }
    let ok = is_pick(stack, lists, picks, n);
    assert forall|e: CoalesceEntry| es.to_set().contains(e) <==> ps.to_set().contains(e) by {
        if es.contains(e) {
            let k = choose|k: int| 0 <= k < es.len() && es[k] == e;
            assert(ok(es[k]));
            let i = choose|i: int|
                0 <= i < n && e == #[trigger] pick(stack, lists, picks, i);
            assert(ps[i] == e);
        }
        if ps.contains(e) {
            let i = choose|i: int| 0 <= i < ps.len() && ps[i] == e;
            assert(es.contains(pick(stack, lists, picks, i)));
        }
    }
    assert(es.to_set() =~= ps.to_set());
    es.unique_seq_to_set();
    ps.unique_seq_to_set();
    assert forall|k: int| 0 <= k < ps.len() implies es.contains(#[trigger] ps[k]) by {
        assert(ps[k] == pick(stack, lists, picks, k));
    }
    same_sums(es, ps);
}

// ---------------------------------------------------------------------------------------------
// Matches of the last phrase
// ---------------------------------------------------------------------------------------------

/// Each match of the last phrase is answered, whatever it meets: the answer has a context with this
/// match in front. It covers the words of its entries, no two of which share one, and its relevance
/// is what those of its entries add up to, but for a hundredth where the masks of its first two
/// entries ascend or it has only one. `bounds` tell how relevant the matches of each phrase are at
/// most: the match is not less relevant by the allowed gap than what could be stacked elsewhere.
pub proof fn matches_of_the_last_phrase_are_answered<F: Fn(u64, u16, u64, u8) -> Measure>(
    stack: Seq<PhrasematchSubquery>,
    opts: MatchOpts,
    scale: F,
    lists: Seq<Seq<MatchEntry>>,
    bounds: Seq<int>,
    out: Seq<ContextView>,
    i: int,
) -> (k: int)
    requires
        0 < stack.len() <= usize::MAX,
        forall|p: int| 0 <= p < stack.len() ==> (#[trigger] stack[p]).mask != 0,
        is_multi_answer(stack, opts, scale, out),
        are_phrase_matches(stack, stack_order(stack), opts, scale, lists),
        are_bounded(stack, stack_order(stack), lists, bounds),
        forall|k: int| 0 <= k < bounds.len() ==> 0 <= #[trigger] bounds[k],
        0 <= i < lists[stack.len() - 1].len(),
        sum_of(bounds) - lists[stack.len() - 1][i].grid_entry.relev * stack[stack_order(
            stack,
        )[stack.len() - 1] as int].weight < 240_000_000_000,
    ensures
        0 <= k < out.len(),
        out[k].entries.len() > 0,
        out[k].entries[0] == coalesce_entry(
            lists[stack.len() - 1][i],
            stack[stack_order(stack)[stack.len() - 1] as int],
            0,
        ),
        masks_disjoint(out[k].entries),
        out[k].mask == or_masks(out[k].entries),
        out[k].relev == relev_sum(out[k].entries) - (if out[k].entries.len() == 1
            || out[k].entries[0].mask < out[k].entries[1].mask {
            10_000_000_000int
        } else {
            0
        }),
{
    let order = stack_order(stack);
    let j = stack.len() - 1;
    order_facts(stack);
    let part = stack[order[j] as int];
    assert(part.mask != 0);
    assert forall|i: int| 0 <= i < order.len() implies stack[(#[trigger] order[i]) as int].mask
        != 0 by {
        assert(stack[order[i] as int].mask != 0);
    }
    multi_state_adds_up(stack, order, lists, j);
    let before = multi_state(stack, order, lists, j);
    let e = entries_at(stack, lists, j)[i];
    assert(e == coalesce_entry(lists[j][i], part, 0));
    phrase_relev_fits(lists[j][i], part);
    let others = other_zooms(stack, order, order[j]);
    grown_across_adds_up(before.tiles, zoom_of(stack, j), others, others.len() as int, e);
    let g = grown_match(stack, lists, before.tiles, j, i);
    first_counts(g.entries);
    last_matches_answer(stack, opts, scale, lists, bounds, out, i)
}

proof fn first_counts(es: Seq<CoalesceEntry>)
    requires
        es.len() > 0,
        entries_fit(es),
    ensures
        es[0].relev <= relev_sum(es),
    decreases es.len(),
{
    assert(entry_ok(es[es.len() - 1]));
    let rest = es.drop_last();
    assert(relev_sum(es) == relev_sum(rest) + es[es.len() - 1].relev);
    if es.len() > 1 {
        assert forall|i: int| 0 <= i < rest.len() implies (#[trigger] rest[i]).mask != 0
            && entry_ok(rest[i]) by {
            assert(es[i].mask != 0 && entry_ok(es[i]));
        }
        first_counts(rest);
    } else {
        assert(relev_sum(rest) == 0);
    }
}

// ---------------------------------------------------------------------------------------------
// Contexts of the other phrases
// ---------------------------------------------------------------------------------------------

proof fn swept_tiles_are_finite(
    w: Sweep,
    tiles: Tiles,
    zoom: u16,
    others: Seq<u16>,
    first: bool,
    last: bool,
    es: Seq<CoalesceEntry>,
)
    requires
        w.added.dom().finite(),
    ensures
        swept_all(w, tiles, zoom, others, first, last, es).added.dom().finite(),
    decreases es.len(),
{
    if es.len() > 0 {
        swept_tiles_are_finite(w, tiles, zoom, others, first, last, es.drop_last());
    }
}

proof fn state_tiles_are_finite(
    stack: Seq<PhrasematchSubquery>,
    order: Seq<usize>,
    lists: Seq<Seq<MatchEntry>>,
    n: int,
)
    ensures
        multi_state(stack, order, lists, n).tiles.dom().finite(),
    decreases n,
{
    if n > 0 {
        state_tiles_are_finite(stack, order, lists, n - 1);
        let before = multi_state(stack, order, lists, n - 1);
        let p = order[n - 1];
        let start = Sweep {
            added: Map::empty(),
            contexts: before.contexts,
            max_relev: before.max_relev,
        };
        let zoom = stack[p as int].store.zoom;
        let others = other_zooms(stack, order, p);
        let es = coalesce_entries(lists[n - 1], stack[p as int], 0);
        let last = n == order.len();
        swept_tiles_are_finite(start, before.tiles, zoom, others, n == 1, last, es);
        let w = swept_all(start, before.tiles, zoom, others, n == 1, last, es);
        assert(joined(before.tiles, w.added).dom() =~= before.tiles.dom().union(w.added.dom()));
    }
}

proof fn relevant_has(
    tiles: Tiles,
    keys: Seq<u64>,
    n: int,
    max_relev: int,
    at: int,
    c: ContextView,
)
    requires
        0 <= at < n <= keys.len(),
        tiles[keys[at]].contains(c),
        max_relev - c.relev < MAX_RELEVANCE_GAP,
    ensures
        relevant_in(tiles, keys, n, max_relev).contains(c),
    decreases n,
{
    let before = relevant_in(tiles, keys, n - 1, max_relev);
    let here = relevant(tiles[keys[n - 1]], max_relev);
    let all = relevant_in(tiles, keys, n, max_relev);
    if at < n - 1 {
        relevant_has(tiles, keys, n - 1, max_relev, at, c);
        let i = choose|i: int| 0 <= i < before.len() && before[i] == c;
        assert(all[i] == c);
    } else {
        let cs = tiles[keys[at]];
        let i = choose|i: int| 0 <= i < cs.len() && cs[i] == c;
        cs.lemma_filter_contains(|c: ContextView| max_relev - c.relev < MAX_RELEVANCE_GAP, i);
        let k = choose|k: int| 0 <= k < here.len() && here[k] == c;
        assert(all[before.len() + k] == c);
    }
}

proof fn tiles_keep_contexts(
    stack: Seq<PhrasematchSubquery>,
    lists: Seq<Seq<MatchEntry>>,
    t: u64,
    c: ContextView,
    m: int,
    n: int,
)
    requires
        0 <= m <= n,
        contexts_at(multi_state(stack, stack_order(stack), lists, m).tiles, t).contains(c),
    ensures
        contexts_at(multi_state(stack, stack_order(stack), lists, n).tiles, t).contains(c),
    decreases n,
{
    let order = stack_order(stack);
    if m < n {
        tiles_keep_contexts(stack, lists, t, c, m, n - 1);
        let before = multi_state(stack, order, lists, n - 1);
        let after = multi_state(stack, order, lists, n);
        let p = order[n - 1];
        let w = swept_all(
            Sweep {
                added: Map::empty(),
                contexts: before.contexts,
                max_relev: before.max_relev,
            },
            before.tiles,
            stack[p as int].store.zoom,
            other_zooms(stack, order, p),
            n == 1,
            n == order.len(),
            coalesce_entries(lists[n - 1], stack[p as int], 0),
        );
        contexts_at_joined(before.tiles, w.added, t);
        let cs = contexts_at(before.tiles, t);
        let i = choose|i: int| 0 <= i < cs.len() && cs[i] == c;
        assert(contexts_at(after.tiles, t)[i] == c);
    }
}

/// A context that stands in a tile after some phrase is in the answer.
proof fn tile_contexts_answer<F: Fn(u64, u16, u64, u8) -> Measure>(
    stack: Seq<PhrasematchSubquery>,
    opts: MatchOpts,
    scale: F,
    lists: Seq<Seq<MatchEntry>>,
    bounds: Seq<int>,
    out: Seq<ContextView>,
    t: u64,
    c: ContextView,
    m: int,
) -> (k: int)
    requires
        0 < stack.len() <= usize::MAX,
        forall|p: int| 0 <= p < stack.len() ==> (#[trigger] stack[p]).mask != 0,
        is_multi_answer(stack, opts, scale, out),
        are_phrase_matches(stack, stack_order(stack), opts, scale, lists),
        are_bounded(stack, stack_order(stack), lists, bounds),
        forall|k: int| 0 <= k < bounds.len() ==> 0 <= #[trigger] bounds[k],
        0 <= m <= stack.len(),
        contexts_at(multi_state(stack, stack_order(stack), lists, m).tiles, t).contains(c),
        sum_of(bounds) - c.relev < MAX_RELEVANCE_GAP,
    ensures
        0 <= k < out.len(),
        out[k] == c,
{
    let order = stack_order(stack);
    let n = stack.len() as int;
    order_facts(stack);
    assert forall|i: int| 0 <= i < order.len() implies stack[(#[trigger] order[i]) as int].mask
        != 0 by {
        assert(stack[order[i] as int].mask != 0);
    }
    answers_are_of_lists(stack, opts, scale, lists, out);
    states_are_bounded(stack, order, lists, bounds, n);
    tiles_keep_contexts(stack, lists, t, c, m, n);
    state_tiles_are_finite(stack, order, lists, n);
    let st = multi_state(stack, order, lists, n);
    let keys = in_order(st.tiles.dom(), num_u64());
    let num = num_u64();
    assert forall|a: u64, b: u64| #[trigger] num(a) == #[trigger] num(b) implies a == b by {}
    in_order_exists(st.tiles.dom(), num_u64());
    set_members(keys, t);
    let at = choose|at: int| 0 <= at < keys.len() && keys[at] == t;
    relevant_has(st.tiles, keys, keys.len() as int, st.max_relev, at, c);
    let others = relevant_in(st.tiles, keys, keys.len() as int, st.max_relev);
    let i = choose|i: int| 0 <= i < others.len() && others[i] == c;
    let all = multi_contexts(st);
    assert(all[st.contexts.len() + i] == c);
    place_in(all, out, st.contexts.len() + i)
}

proof fn nothing_grows_alone(zoom: u16, others: Seq<u16>, n: int, e: CoalesceEntry)
    ensures
        grown_across(Map::empty(), zoom, others, n, sprout(e)) == sprout(e),
    decreases n,
{
    if n > 0 {
        nothing_grows_alone(zoom, others, n - 1, e);
    }
}

proof fn first_sweep_takes_matches(
    stack: Seq<PhrasematchSubquery>,
    lists: Seq<Seq<MatchEntry>>,
    i: int,
    m: int,
)
    requires
        1 < stack.len() <= usize::MAX,
        0 <= i < m <= lists[0].len(),
    ensures
        ({
            let e = entries_at(stack, lists, 0)[i];
            let w = swept_at(stack, lists, multi_state(stack, stack_order(stack), lists, 0), 0, m);
            contexts_at(
                w.added,
                tile_number(zoom_of(stack, 0), e.grid_entry.x, e.grid_entry.y),
            ).contains(ContextView { entries: seq![e], mask: e.mask, relev: e.relev })
        }),
    decreases m,
{
    let order = stack_order(stack);
    order_facts(stack);
    let before = multi_state(stack, order, lists, 0);
    let es = entries_at(stack, lists, 0);
    let e = es[i];
    let c = ContextView { entries: seq![e], mask: e.mask, relev: e.relev };
    let t = tile_number(zoom_of(stack, 0), e.grid_entry.x, e.grid_entry.y);
    assert(es.take(m).drop_last() =~= es.take(m - 1));
    let last = es[m - 1];
    assert(es.take(m).last() == last);
    let others = other_zooms(stack, order, order[0]);
    nothing_grows_alone(zoom_of(stack, 0), others, others.len() as int, last);
    let mid = swept_at(stack, lists, before, 0, m - 1);
    let after = swept_at(stack, lists, before, 0, m);
    let a = contexts_at(mid.added, t);
    let b = contexts_at(after.added, t);
    if i == m - 1 {
        assert(b[a.len() as int] == c);
    } else {
        first_sweep_takes_matches(stack, lists, i, m - 1);
        let k = choose|k: int| 0 <= k < a.len() && a[k] == c;
        assert(b[k] == c);
    }
}

/// Each match of the first phrase is answered by itself too, whatever is stacked on it: the answer
/// has a context of just this match, with nothing taken off. `bounds` tell how relevant the matches
/// of each phrase are at most: the match is not less relevant by the allowed gap than what could be
/// stacked elsewhere.
pub proof fn matches_of_the_first_phrase_are_answered<F: Fn(u64, u16, u64, u8) -> Measure>(
    stack: Seq<PhrasematchSubquery>,
    opts: MatchOpts,
    scale: F,
    lists: Seq<Seq<MatchEntry>>,
    bounds: Seq<int>,
    out: Seq<ContextView>,
    i: int,
) -> (k: int)
    requires
        1 < stack.len() <= usize::MAX,
        forall|p: int| 0 <= p < stack.len() ==> (#[trigger] stack[p]).mask != 0,
        is_multi_answer(stack, opts, scale, out),
        are_phrase_matches(stack, stack_order(stack), opts, scale, lists),
        are_bounded(stack, stack_order(stack), lists, bounds),
        forall|k: int| 0 <= k < bounds.len() ==> 0 <= #[trigger] bounds[k],
        0 <= i < lists[0].len(),
        sum_of(bounds) - lists[0][i].grid_entry.relev * stack[stack_order(stack)[0] as int].weight
            < 250_000_000_000,
    ensures
        0 <= k < out.len(),
        out[k].entries == seq![coalesce_entry(lists[0][i], stack[stack_order(stack)[0] as int], 0)],
        out[k].mask == stack[stack_order(stack)[0] as int].mask,
        out[k].relev == lists[0][i].grid_entry.relev * stack[stack_order(stack)[0] as int].weight,
{
    let order = stack_order(stack);
    order_facts(stack);
    let part = stack[order[0] as int];
    let es = entries_at(stack, lists, 0);
    let e = es[i];
    assert(e == coalesce_entry(lists[0][i], part, 0));
    phrase_relev_fits(lists[0][i], part);
    let before = multi_state(stack, order, lists, 0);
    let m = lists[0].len() as int;
    assert(es.take(m) =~= es);
    first_sweep_takes_matches(stack, lists, i, m);
    let w = swept_at(stack, lists, before, 0, m);
    let t = tile_number(zoom_of(stack, 0), e.grid_entry.x, e.grid_entry.y);
    let c = ContextView { entries: seq![e], mask: e.mask, relev: e.relev };
    let after = multi_state(stack, order, lists, 1);
    assert(after.tiles == joined(before.tiles, w.added));
    contexts_at_joined(before.tiles, w.added, t);
    let a = contexts_at(w.added, t);
    let b = contexts_at(before.tiles, t);
    let at = choose|at: int| 0 <= at < a.len() && a[at] == c;
    assert(contexts_at(after.tiles, t)[b.len() + at] == c);
    tile_contexts_answer(stack, opts, scale, lists, bounds, out, t, c, 1)
}

/// Where phrases meet, the first of them are stacked without the others too: the answer has a
/// context of just the matches of the first `m` phrases, with nothing taken off. `bounds` tell how
/// relevant the matches of each phrase are at most: the context is not less relevant by the allowed
/// gap than what could be stacked elsewhere.
pub proof fn beginnings_are_stacked<F: Fn(u64, u16, u64, u8) -> Measure>(
    stack: Seq<PhrasematchSubquery>,
    opts: MatchOpts,
    scale: F,
    lists: Seq<Seq<MatchEntry>>,
    picks: Seq<int>,
    bounds: Seq<int>,
    out: Seq<ContextView>,
    m: int,
) -> (k: int)
    requires
        0 < m < stack.len() <= usize::MAX,
        is_multi_answer(stack, opts, scale, out),
        are_phrase_matches(stack, stack_order(stack), opts, scale, lists),
        phrases_differ(stack),
        picks_meet(stack, lists, picks),
        are_bounded(stack, stack_order(stack), lists, bounds),
        sum_of(bounds) - relev_sum(all_picks(stack, lists, picks).take(m)) < 250_000_000_000,
    ensures
        0 <= k < out.len(),
        out[k].entries.len() == m,
        forall|i: int|
            0 <= i < m ==> out[k].entries.contains(#[trigger] pick(stack, lists, picks, i)),
        out[k].mask == or_masks(all_picks(stack, lists, picks).take(m)),
        out[k].relev == relev_sum(all_picks(stack, lists, picks).take(m)),
{
    let order = stack_order(stack);
    let j = m - 1;
    order_facts(stack);
    assert forall|k: int| 0 <= k < bounds.len() implies 0 <= #[trigger] bounds[k] by {
        assert(0 <= picks[k] < lists[k].len());
        phrase_relev_fits(lists[k][picks[k]], stack[order[k] as int]);
    }
    states_meet(stack, lists, picks, j);
    states_meet(stack, lists, picks, m);
    let before = multi_state(stack, order, lists, j);
    let after = multi_state(stack, order, lists, m);
    picks_grow(stack, lists, picks, before.tiles, j);
    let g = grown_pick(stack, lists, picks, before.tiles, j);
    if j > 0 {
        assert(g.entries.contains(pick(stack, lists, picks, 0)));
        assert(g.entries.contains(pick(stack, lists, picks, j)));
        assert(order[0] != order[j]);
        assert(stack[order[0] as int].idx != stack[order[j] as int].idx);
        if g.entries.len() == 1 {
            assert(pick(stack, lists, picks, 0).idx == pick(stack, lists, picks, j).idx);
        }
    }
    picks_are_all(stack, lists, picks, g.entries, m);
    let es = entries_at(stack, lists, j);
    let n = lists[j].len() as int;
    assert(es.take(n) =~= es);
    assert(0 <= picks[j] < lists[j].len());
    sweep_takes_the_pick(stack, lists, picks, before, j, n, j);
    let w = swept_at(stack, lists, before, j, n);
    let t = tile_of_pick(stack, lists, picks, j);
    assert(after.tiles == joined(before.tiles, w.added));
    contexts_at_joined(before.tiles, w.added, t);
    let a = contexts_at(before.tiles, t);
    let b = contexts_at(w.added, t);
    let cs = contexts_at(after.tiles, t);
    let c = cs[a.len() as int];
    assert(c == b[0]);
    assert(cs.contains(c));
    assert(adds_up(c)) by {
        assert(after.tiles.contains_key(t));
        assert(all_add_up(after.tiles[t]));
    }
    tile_contexts_answer(stack, opts, scale, lists, bounds, out, t, c, m)
}

// ---------------------------------------------------------------------------------------------
// Pairs
// ---------------------------------------------------------------------------------------------

/// Match `i` of the second phrase lies in the tile of match `b` of the first.
pub open spec fn lies_in_tile_of(
    stack: Seq<PhrasematchSubquery>,
    lists: Seq<Seq<MatchEntry>>,
    i: int,
    b: int,
) -> bool {
    let levels = (zoom_of(stack, 1) - zoom_of(stack, 0)) as nat;
    &&& zoomed_out(lists[1][i].grid_entry.x, levels) == lists[0][b].grid_entry.x
    &&& zoomed_out(lists[1][i].grid_entry.y, levels) == lists[0][b].grid_entry.y
}

/// Match `b` is the best among the first `m` of the first phrase in whose tile match `i` of the
/// second lies: none of the others is more relevant, and none before it is as relevant.
pub open spec fn is_best_for(
    stack: Seq<PhrasematchSubquery>,
    lists: Seq<Seq<MatchEntry>>,
    i: int,
    b: int,
    m: int,
) -> bool {
    &&& 0 <= b < m
    &&& lies_in_tile_of(stack, lists, i, b)
    &&& forall|k: int|
        0 <= k < m && #[trigger] lies_in_tile_of(stack, lists, i, k)
            ==> lists[0][k].grid_entry.relev * stack[stack_order(stack)[0] as int].weight
            <= lists[0][b].grid_entry.relev * stack[stack_order(stack)[0] as int].weight
    &&& forall|k: int|
        0 <= k < b && #[trigger] lies_in_tile_of(stack, lists, i, k)
            ==> lists[0][k].grid_entry.relev * stack[stack_order(stack)[0] as int].weight
            < lists[0][b].grid_entry.relev * stack[stack_order(stack)[0] as int].weight
}

/// The tile of the first phrase that match `i` of the second lies in.
spec fn tile_below(stack: Seq<PhrasematchSubquery>, lists: Seq<Seq<MatchEntry>>, i: int) -> u64 {
    let levels = (zoom_of(stack, 1) - zoom_of(stack, 0)) as nat;
    tile_number(
        zoom_of(stack, 0),
        zoomed_out(lists[1][i].grid_entry.x, levels),
        zoomed_out(lists[1][i].grid_entry.y, levels),
    )
}

proof fn pairs_grow(
    stack: Seq<PhrasematchSubquery>,
    lists: Seq<Seq<MatchEntry>>,
    i: int,
    m: int,
) -> (best: Option<int>)
    requires
        stack.len() == 2,
        phrases_differ(stack),
        lists.len() == 2,
        0 <= i < lists[1].len(),
        0 <= m <= lists[0].len(),
    ensures
        ({
            let w = swept_at(stack, lists, multi_state(stack, stack_order(stack), lists, 0), 0, m);
            let e = entries_at(stack, lists, 1)[i];
            let g = grown_over(sprout(e), contexts_at(w.added, tile_below(stack, lists, i)));
            match best {
                None => {
                    &&& forall|k: int|
                        0 <= k < m ==> !#[trigger] lies_in_tile_of(stack, lists, i, k)
                    &&& g == sprout(e)
                },
                Some(b) => {
                    let o = entries_at(stack, lists, 0)[b];
                    &&& is_best_for(stack, lists, i, b, m)
                    &&& g.entries == seq![e, o]
                    &&& g.mask == e.mask | o.mask
                    &&& g.relev == e.relev + o.relev
                    &&& g.last_mask == o.mask
                    &&& g.last_relev == o.relev
                },
            }
        }),
    decreases m,
{
    let order = stack_order(stack);
    order_facts(stack);
    let before = multi_state(stack, order, lists, 0);
    let es = entries_at(stack, lists, 0);
    let e = entries_at(stack, lists, 1)[i];
    let t = tile_below(stack, lists, i);
    let part = stack[order[0] as int];
    if m <= 0 {
        assert(es.take(0) =~= Seq::empty());
        None
    } else {
        let best = pairs_grow(stack, lists, i, m - 1);
        assert(es.take(m).drop_last() =~= es.take(m - 1));
        let o = es[m - 1];
        assert(es.take(m).last() == o);
        assert(o == coalesce_entry(lists[0][m - 1], part, 0));
        phrase_relev_fits(lists[0][m - 1], part);
        let others = other_zooms(stack, order, order[0]);
        nothing_grows_alone(zoom_of(stack, 0), others, others.len() as int, o);
        let mid = swept_at(stack, lists, before, 0, m - 1);
        let after = swept_at(stack, lists, before, 0, m);
        let had = contexts_at(mid.added, t);
        let now = contexts_at(after.added, t);
        let levels = (zoom_of(stack, 1) - zoom_of(stack, 0)) as nat;
        let x = zoomed_out(lists[1][i].grid_entry.x, levels);
        let y = zoomed_out(lists[1][i].grid_entry.y, levels);
        if !lies_in_tile_of(stack, lists, i, m - 1) {
            if tile_number(zoom_of(stack, 0), o.grid_entry.x, o.grid_entry.y) == t {
                tile_numbers_differ(
                    zoom_of(stack, 0),
                    o.grid_entry.x,
                    o.grid_entry.y,
                    zoom_of(stack, 0),
                    x,
                    y,
                );
            }
            assert(now == had);
            best
        } else {
            let c = ContextView { entries: seq![o], mask: o.mask, relev: o.relev };
            assert(now =~= had.push(c));
            assert(now.drop_last() =~= had);
            let g = grown_over(sprout(e), had);
            assert(seq![o].drop_last() =~= Seq::empty());
            assert(grown_all(g, seq![o].drop_last()) == g);
            assert(grown_over(sprout(e), now) == grown(g, o));
            assert(order[0] != order[1]);
            assert(stack[order[0] as int].mask & stack[order[1] as int].mask == 0);
            assert(part.mask != 0);
            let a = e.mask;
            let b = o.mask;
            assert(a & b == b & a && (b != 0 ==> (a | b) & b != 0)) by (bit_vector);
            match best {
                None => {
                    assert(seq![e].push(o) =~= seq![e, o]);
                    Some(m - 1)
                },
                Some(k) => {
                    assert(es[k] == coalesce_entry(lists[0][k], part, 0));
                    phrase_relev_fits(lists[0][k], part);
                    if o.relev > es[k].relev {
                        assert(g.entries.drop_last().push(o) =~= seq![e, o]);
                        Some(m - 1)
                    } else {
                        Some(k)
                    }
                },
            }
        }
    }
}

/// Of two phrases, each match of the second is stacked on the best match of the first in whose tile
/// it lies: none of the others there is more relevant, and none that was found earlier is as
/// relevant. Where it lies in the tile of none, it is answered alone. What is taken off is a
/// hundredth, where the match is alone or the masks ascend. `bounds` tell how relevant the matches
/// of each phrase are at most: the match is not less relevant by the allowed gap than what could be
/// stacked elsewhere.
pub proof fn matches_are_stacked_on_the_best<F: Fn(u64, u16, u64, u8) -> Measure>(
    stack: Seq<PhrasematchSubquery>,
    opts: MatchOpts,
    scale: F,
    lists: Seq<Seq<MatchEntry>>,
    bounds: Seq<int>,
    out: Seq<ContextView>,
    i: int,
) -> (r: (int, Option<int>))
    requires
        stack.len() == 2,
        phrases_differ(stack),
        is_multi_answer(stack, opts, scale, out),
        are_phrase_matches(stack, stack_order(stack), opts, scale, lists),
        are_bounded(stack, stack_order(stack), lists, bounds),
        forall|k: int| 0 <= k < bounds.len() ==> 0 <= #[trigger] bounds[k],
        0 <= i < lists[1].len(),
        sum_of(bounds) - lists[1][i].grid_entry.relev * stack[stack_order(stack)[1] as int].weight
            < 240_000_000_000,
    ensures
        0 <= r.0 < out.len(),
        ({
            let c = out[r.0];
            let e = coalesce_entry(lists[1][i], stack[stack_order(stack)[1] as int], 0);
            match r.1 {
                None => {
                    &&& forall|k: int|
                        0 <= k < lists[0].len() ==> !#[trigger] lies_in_tile_of(stack, lists, i, k)
                    &&& c.entries == seq![e]
                    &&& c.mask == e.mask
                    &&& c.relev == e.relev - 10_000_000_000
                },
                Some(b) => {
                    let o = coalesce_entry(lists[0][b], stack[stack_order(stack)[0] as int], 0);
                    &&& is_best_for(stack, lists, i, b, lists[0].len() as int)
                    &&& c.entries == seq![e, o]
                    &&& c.mask == e.mask | o.mask
                    &&& c.relev == e.relev + o.relev - (if e.mask < o.mask {
                        10_000_000_000int
                    } else {
                        0
                    })
                },
            }
        }),
{
    let order = stack_order(stack);
    order_facts(stack);
    let es = entries_at(stack, lists, 0);
    let n = lists[0].len() as int;
    assert(es.take(n) =~= es);
    let best = pairs_grow(stack, lists, i, n);
    let before = multi_state(stack, order, lists, 0);
    let w = swept_at(stack, lists, before, 0, n);
    let after = multi_state(stack, order, lists, 1);
    let t = tile_below(stack, lists, i);
    assert(after.tiles == joined(before.tiles, w.added));
    contexts_at_joined(before.tiles, w.added, t);
    assert(contexts_at(after.tiles, t) =~= contexts_at(w.added, t));
    let at = order[1];
    assert(order[0] != order[1]);
    assert(stack[order[0] as int].idx != stack[order[1] as int].idx);
    let others = other_zooms(stack, order, at);
    reveal_with_fuel(lower_zooms, 3);
    assert(zoom_of(stack, 0) <= zoom_of(stack, 1));
    assert(lower_zooms(stack, order, 2, at) =~= seq![zoom_of(stack, 0)]);
    assert(others =~= seq![zoom_of(stack, 0)]);
    let e = entries_at(stack, lists, 1)[i];
    let part = stack[order[1] as int];
    assert(e == coalesce_entry(lists[1][i], part, 0));
    phrase_relev_fits(lists[1][i], part);
    let g = grown_match(stack, lists, after.tiles, 1, i);
    reveal_with_fuel(grown_across, 2);
    assert(g == grown_over(sprout(e), contexts_at(after.tiles, t)));
    match best {
        Some(b) => {
            assert(es[b] == coalesce_entry(lists[0][b], stack[order[0] as int], 0));
            phrase_relev_fits(lists[0][b], stack[order[0] as int]);
        },
        None => {},
    }
    let k = last_matches_answer(stack, opts, scale, lists, bounds, out, i);
    (k, best)
}

// ---------------------------------------------------------------------------------------------
// Matches that stand alone
// ---------------------------------------------------------------------------------------------

/// Contexts of one entry are of a match of the first phrase.
spec fn lone_are_first(
    stack: Seq<PhrasematchSubquery>,
    lists: Seq<Seq<MatchEntry>>,
    cs: Seq<ContextView>,
) -> bool {
    forall|k: int|
        0 <= k < cs.len() ==> (#[trigger] cs[k]).entries.len() > 0 && (cs[k].entries.len() == 1
            ==> entries_at(stack, lists, 0).contains(cs[k].entries[0]))
}

spec fn tiles_lone_are_first(
    stack: Seq<PhrasematchSubquery>,
    lists: Seq<Seq<MatchEntry>>,
    tiles: Tiles,
) -> bool {
    forall|t: u64| lone_are_first(stack, lists, #[trigger] contexts_at(tiles, t))
}

/// Contexts begin with a match of the last phrase.
spec fn all_begin_last(
    stack: Seq<PhrasematchSubquery>,
    lists: Seq<Seq<MatchEntry>>,
    cs: Seq<ContextView>,
) -> bool {
    forall|k: int|
        0 <= k < cs.len() ==> (#[trigger] cs[k]).entries.len() > 0 && entries_at(
            stack,
            lists,
            stack.len() - 1,
        ).contains(cs[k].entries[0])
}

proof fn sweeps_keep_lone_first(
    stack: Seq<PhrasematchSubquery>,
    lists: Seq<Seq<MatchEntry>>,
    before: MultiState,
    j: int,
    m: int,
)
    requires
        0 < stack.len() <= usize::MAX,
        forall|p: int| 0 <= p < stack.len() ==> (#[trigger] stack[p]).mask != 0,
        0 <= j < stack.len(),
        0 <= m <= lists[j].len(),
        tiles_add_up(before.tiles),
        all_begin_last(stack, lists, before.contexts),
    ensures
        tiles_lone_are_first(stack, lists, swept_at(stack, lists, before, j, m).added),
        all_begin_last(stack, lists, swept_at(stack, lists, before, j, m).contexts),
    decreases m,
{
    let order = stack_order(stack);
    order_facts(stack);
    let es = entries_at(stack, lists, j);
    let w = swept_at(stack, lists, before, j, m);
    if m > 0 {
        sweeps_keep_lone_first(stack, lists, before, j, m - 1);
        let mid = swept_at(stack, lists, before, j, m - 1);
        assert(es.take(m).drop_last() =~= es.take(m - 1));
        let e = es[m - 1];
        assert(es.take(m).last() == e);
        let part = stack[order[j] as int];
        assert(part.mask != 0);
        phrase_entries_fit(lists[j], part);
        assert(es[m - 1].mask != 0 && entry_ok(es[m - 1]));
        let others = other_zooms(stack, order, order[j]);
        let zoom = zoom_of(stack, j);
        grown_across_adds_up(before.tiles, zoom, others, others.len() as int, e);
        let g = grown_across(before.tiles, zoom, others, others.len() as int, sprout(e));
        assert(g.entries[0] == e);
        assert forall|t: u64| lone_are_first(stack, lists, #[trigger] contexts_at(w.added, t)) by {
            let had = contexts_at(mid.added, t);
            let now = contexts_at(w.added, t);
            assert(lone_are_first(stack, lists, had));
            assert forall|k: int| 0 <= k < now.len() implies (#[trigger] now[k]).entries.len() > 0
                && (now[k].entries.len() == 1 ==> entries_at(stack, lists, 0).contains(
                now[k].entries[0],
            )) by {
                if k < had.len() {
                    assert(now[k] == had[k]);
                } else {
                    assert(now[k].entries == g.entries);
                    assert(es[m - 1] == e);
                }
            }
        }
        assert forall|k: int| 0 <= k < w.contexts.len() implies (
        #[trigger] w.contexts[k]).entries.len() > 0 && entries_at(
            stack,
            lists,
            stack.len() - 1,
        ).contains(w.contexts[k].entries[0]) by {
            if k < mid.contexts.len() {
                assert(w.contexts[k] == mid.contexts[k]);
            } else {
                assert(w.contexts[k].entries == g.entries);
                assert(es[m - 1] == e);
            }
        }
    } else {
        assert(es.take(0) =~= Seq::empty());
    }
}

proof fn states_keep_lone_first(
    stack: Seq<PhrasematchSubquery>,
    lists: Seq<Seq<MatchEntry>>,
    n: int,
)
    requires
        0 < stack.len() <= usize::MAX,
        forall|p: int| 0 <= p < stack.len() ==> (#[trigger] stack[p]).mask != 0,
        0 <= n <= stack.len(),
    ensures
        tiles_lone_are_first(
            stack,
            lists,
            multi_state(stack, stack_order(stack), lists, n).tiles,
        ),
        all_begin_last(
            stack,
            lists,
            multi_state(stack, stack_order(stack), lists, n).contexts,
        ),
    decreases n,
{
    let order = stack_order(stack);
    order_facts(stack);
    if n > 0 {
        let j = n - 1;
        states_keep_lone_first(stack, lists, j);
        assert forall|i: int| 0 <= i < order.len() implies stack[(#[trigger] order[i]) as int].mask
            != 0 by {
            assert(stack[order[i] as int].mask != 0);
        }
        multi_state_adds_up(stack, order, lists, j);
        let before = multi_state(stack, order, lists, j);
        let after = multi_state(stack, order, lists, n);
        let m = lists[j].len() as int;
        let es = entries_at(stack, lists, j);
        assert(es.take(m) =~= es);
        sweeps_keep_lone_first(stack, lists, before, j, m);
        let w = swept_at(stack, lists, before, j, m);
        assert(after.tiles == joined(before.tiles, w.added));
        assert(after.contexts == w.contexts);
        assert forall|t: u64| lone_are_first(
            stack,
            lists,
            #[trigger] contexts_at(after.tiles, t),
        ) by {
            contexts_at_joined(before.tiles, w.added, t);
            let a = contexts_at(before.tiles, t);
            let b = contexts_at(w.added, t);
            assert(lone_are_first(stack, lists, a) && lone_are_first(stack, lists, b));
            let both = contexts_at(after.tiles, t);
            assert forall|k: int| 0 <= k < both.len() implies (
            #[trigger] both[k]).entries.len() > 0 && (both[k].entries.len() == 1 ==> entries_at(
                stack,
                lists,
                0,
            ).contains(both[k].entries[0])) by {
                if k < a.len() {
                    assert(both[k] == a[k]);
                } else {
                    assert(both[k] == b[k - a.len()]);
                }
            }
        }
    }
}

proof fn relevant_are_of_tiles(tiles: Tiles, keys: Seq<u64>, n: int, max_relev: int, k: int) -> (t:
    u64)
    requires
        0 <= n <= keys.len(),
        forall|i: int| 0 <= i < keys.len() ==> tiles.contains_key(#[trigger] keys[i]),
        0 <= k < relevant_in(tiles, keys, n, max_relev).len(),
    ensures
        contexts_at(tiles, t).contains(relevant_in(tiles, keys, n, max_relev)[k]),
    decreases n,
{
    let before = relevant_in(tiles, keys, n - 1, max_relev);
    let t = keys[n - 1];
    let here = relevant(tiles[t], max_relev);
    let all = relevant_in(tiles, keys, n, max_relev);
    if k < before.len() {
        assert(all[k] == before[k]);
        relevant_are_of_tiles(tiles, keys, n - 1, max_relev, k)
    } else {
        let c = here[k - before.len()];
        assert(all[k] == c);
        assert(tiles.contains_key(keys[n - 1]));
        filter_is_of(
            tiles[t],
            |c: ContextView| max_relev - c.relev < MAX_RELEVANCE_GAP,
            k - before.len(),
        );
        t
    }
}

proof fn filter_is_of(cs: Seq<ContextView>, f: spec_fn(ContextView) -> bool, k: int)
    requires
        0 <= k < cs.filter(f).len(),
    ensures
        cs.contains(cs.filter(f)[k]),
    decreases cs.len(),
{
    reveal(Seq::filter);
    if cs.len() > 0 {
        let rest = cs.drop_last();
        let less = rest.filter(f);
        if k < less.len() {
            filter_is_of(rest, f, k);
            let i = choose|i: int| 0 <= i < rest.len() && rest[i] == less[k];
            assert(cs[i] == cs.filter(f)[k]);
        } else {
            assert(cs[cs.len() - 1] == cs.filter(f)[k]);
        }
    }
}

/// Of several phrases, only matches of the first and of the last stand alone in the answer: a
/// context of one entry is of a match of one of these. Matches of the others are answered only as
/// far as they are stacked on something.
pub proof fn only_first_and_last_matches_stand_alone<F: Fn(u64, u16, u64, u8) -> Measure>(
    stack: Seq<PhrasematchSubquery>,
    opts: MatchOpts,
    scale: F,
    lists: Seq<Seq<MatchEntry>>,
    out: Seq<ContextView>,
    k: int,
)
    requires
        0 < stack.len() <= usize::MAX,
        forall|p: int| 0 <= p < stack.len() ==> (#[trigger] stack[p]).mask != 0,
        is_multi_answer(stack, opts, scale, out),
        are_phrase_matches(stack, stack_order(stack), opts, scale, lists),
        0 <= k < out.len(),
    ensures
        out[k].entries.len() > 0,
        out[k].entries.len() == 1 ==> coalesce_entries(
            lists[0],
            stack[stack_order(stack)[0] as int],
            0,
        ).contains(out[k].entries[0]) || coalesce_entries(
            lists[stack.len() - 1],
            stack[stack_order(stack)[stack.len() - 1] as int],
            0,
        ).contains(out[k].entries[0]),
{
    let order = stack_order(stack);
    let n = stack.len() as int;
    order_facts(stack);
    answers_are_of_lists(stack, opts, scale, lists, out);
    states_keep_lone_first(stack, lists, n);
    state_tiles_are_finite(stack, order, lists, n);
    let st = multi_state(stack, order, lists, n);
    let all = multi_contexts(st);
    let a = place_in(out, all, k);
    let keys = in_order(st.tiles.dom(), num_u64());
    let num = num_u64();
    assert forall|a: u64, b: u64| #[trigger] num(a) == #[trigger] num(b) implies a == b by {}
    in_order_exists(st.tiles.dom(), num_u64());
    if a < st.contexts.len() {
        assert(all[a] == st.contexts[a]);
    } else {
        assert forall|i: int| 0 <= i < keys.len() implies st.tiles.contains_key(
            #[trigger] keys[i],
        ) by {
            set_members(keys, keys[i]);
            assert(keys.contains(keys[i]));
        }
        let i = a - st.contexts.len();
        let t = relevant_are_of_tiles(st.tiles, keys, keys.len() as int, st.max_relev, i);
        let cs = contexts_at(st.tiles, t);
        assert(lone_are_first(stack, lists, cs));
        let m = choose|m: int| 0 <= m < cs.len() && cs[m] == all[a];
        assert(cs[m].entries.len() > 0);
    }
}

/// The matches of each phrase are the best 2000 that its query finds.
pub proof fn phrases_bring_so_many_matches<F: Fn(u64, u16, u64, u8) -> Measure>(
    stack: Seq<PhrasematchSubquery>,
    order: Seq<usize>,
    opts: MatchOpts,
    scale: F,
    lists: Seq<Seq<MatchEntry>>,
    i: int,
)
    requires
        are_phrase_matches(stack, order, opts, scale, lists),
        0 <= i < lists.len(),
    ensures
        ({
            let part = stack[order[i] as int];
            answers_query(
                *part.store,
                part.match_keys@[0].key,
                opts_at_zoom(opts@, part.store.zoom),
                meter_of(scale, part.store.coalesce_radius, part.store.zoom),
                2000,
                lists[i],
            )
        }),
{
}

} // verus!
