//! What is stacked lies in the same tile.

use vstd::arithmetic::div_mod::{
    lemma_div_denominator, lemma_div_nonincreasing, lemma_div_pos_is_pos,
};
use vstd::arithmetic::power2::{lemma_pow2_adds, lemma_pow2_pos, pow2};
use vstd::prelude::*;

use crate::coalesce::{
    coalesce_entries, coalesce_entry, single_context, CoalesceEntry, ContextView,
    MAX_RELEVANCE_GAP,
};
use crate::common::MatchOpts;
use crate::contexts::{
    all_add_up, entries_fit, filter_from, grown_across_adds_up, grown_all_adds_up,
    grown_over_adds_up, growth_adds_up, multi_state_adds_up, phrase_entries_fit,
    stack_order_is, tiles_add_up,
};
use crate::decode::MatchEntry;
use crate::multi::{
    are_phrase_matches, best_first, contexts_at, deduped_from, entry_ok, grown, grown_across,
    grown_all, grown_over, is_multi_answer, joined, lower_zooms, multi_contexts, multi_state,
    other_zooms, relevant, relevant_in, sprout, stack_order, swept, swept_all, tile_number,
    tile_numbers_differ, with_context, Growth, Sweep, Tiles,
};
use crate::order::{in_order, in_order_exists, num_u32, num_u64, place_in, set_members};
use crate::spatial::{zoomed_out, Measure};
use crate::stackable::PhrasematchSubquery;
use crate::tree::{
    all_penalized, leaf_contexts, leaf_states, lies_at, made_of, made_of_all, penalized, places_at,
    stacked,
};

verus! {

/// Zooming out in two steps is zooming out at once.
pub proof fn zooming_out_adds_up(v: u16, a: nat, b: nat)
    ensures
        zoomed_out(zoomed_out(v, a), b) == zoomed_out(v, a + b),
{
    lemma_pow2_pos(a);
    lemma_pow2_pos(b);
    lemma_pow2_adds(a, b);
    lemma_div_denominator(v as int, pow2(a) as int, pow2(b) as int);
    lemma_div_nonincreasing(v as int, pow2(a) as int);
    lemma_div_pos_is_pos(v as int, pow2(a) as int);
}

/// The entry is one of a part of the query whose index has the zoom level.
pub open spec fn is_of_zoom(stack: Seq<PhrasematchSubquery>, e: CoalesceEntry, zoom: u16) -> bool {
    exists|p: int|
        0 <= p < stack.len() && (#[trigger] stack[p]).idx == e.idx && stack[p].mask == e.mask
            && stack[p].store.zoom == zoom
}

/// The tile of `e`, which has the zoom level `zoom`, lies in the tile of `f`, whose zoom level is
/// not higher.
pub open spec fn lies_in(
    stack: Seq<PhrasematchSubquery>,
    e: CoalesceEntry,
    zoom: u16,
    f: CoalesceEntry,
) -> bool {
    exists|other: u16|
        {
            &&& #[trigger] is_of_zoom(stack, f, other)
            &&& other <= zoom
            &&& zoomed_out(e.grid_entry.x, (zoom - other) as nat) == f.grid_entry.x
            &&& zoomed_out(e.grid_entry.y, (zoom - other) as nat) == f.grid_entry.y
        }
}

/// The first entry has the zoom level, and its tile lies in the tile of each of the entries.
pub open spec fn share_tile(
    stack: Seq<PhrasematchSubquery>,
    entries: Seq<CoalesceEntry>,
    zoom: u16,
) -> bool {
    &&& entries.len() > 0
    &&& is_of_zoom(stack, entries[0], zoom)
    &&& forall|k: int| 0 <= k < entries.len() ==> lies_in(stack, entries[0], zoom, #[trigger] entries[k])
}

/// The entries share a tile.
pub open spec fn is_in_one_tile(stack: Seq<PhrasematchSubquery>, entries: Seq<CoalesceEntry>) -> bool {
    exists|zoom: u16| share_tile(stack, entries, zoom)
}

/// The contexts share tiles, and they are stored under that of their first entry.
spec fn tiles_hold(stack: Seq<PhrasematchSubquery>, tiles: Tiles) -> bool {
    forall|t: u64|
        tiles.contains_key(t) ==> forall|i: int|
            0 <= i < tiles[t].len() ==> stands_in(stack, #[trigger] tiles[t][i], t)
}

spec fn stands_in(stack: Seq<PhrasematchSubquery>, c: ContextView, t: u64) -> bool {
    exists|zoom: u16|
        #[trigger] share_tile(stack, c.entries, zoom) && t == tile_number(
            zoom,
            c.entries[0].grid_entry.x,
            c.entries[0].grid_entry.y,
        )
}

/// The entries of each context share a tile.
pub open spec fn all_in_one_tile(stack: Seq<PhrasematchSubquery>, cs: Seq<ContextView>) -> bool {
    forall|i: int| 0 <= i < cs.len() ==> is_in_one_tile(stack, (#[trigger] cs[i]).entries)
}

spec fn all_lie_in(
    stack: Seq<PhrasematchSubquery>,
    e: CoalesceEntry,
    zoom: u16,
    es: Seq<CoalesceEntry>,
) -> bool {
    forall|k: int| 0 <= k < es.len() ==> lies_in(stack, e, zoom, #[trigger] es[k])
}

proof fn grown_shares(
    stack: Seq<PhrasematchSubquery>,
    zoom: u16,
    g: Growth,
    e: CoalesceEntry,
    more: CoalesceEntry,
)
    requires
        growth_adds_up(g, e),
        share_tile(stack, g.entries, zoom),
        more.mask != 0,
        lies_in(stack, e, zoom, more),
    ensures
        share_tile(stack, grown(g, more).entries, zoom),
{
    let after = grown(g, more);
    assert(after.entries[0] == e);
    assert forall|k: int| 0 <= k < after.entries.len() implies lies_in(
        stack,
        e,
        zoom,
        #[trigger] after.entries[k],
    ) by {
        if k < g.entries.len() {
            assert(lies_in(stack, e, zoom, g.entries[k]));
        }
    }
}

proof fn grown_all_shares(
    stack: Seq<PhrasematchSubquery>,
    zoom: u16,
    g: Growth,
    e: CoalesceEntry,
    es: Seq<CoalesceEntry>,
)
    requires
        growth_adds_up(g, e),
        share_tile(stack, g.entries, zoom),
        entries_fit(es),
        all_lie_in(stack, e, zoom, es),
    ensures
        share_tile(stack, grown_all(g, es).entries, zoom),
    decreases es.len(),
{
    if es.len() > 0 {
        let rest = es.drop_last();
        assert forall|i: int| 0 <= i < rest.len() implies #[trigger] rest[i] == es[i] by {}
        assert(entries_fit(rest)) by {
            assert forall|i: int| 0 <= i < rest.len() implies (#[trigger] rest[i]).mask != 0
                && entry_ok(rest[i]) by {
                assert(es[i].mask != 0 && entry_ok(es[i]));
            }
        }
        assert forall|k: int| 0 <= k < rest.len() implies lies_in(stack, e, zoom, #[trigger] rest[k]) by {
            assert(lies_in(stack, e, zoom, es[k]));
        }
        grown_all_shares(stack, zoom, g, e, rest);
        grown_all_adds_up(g, e, rest);
        let last = es[es.len() - 1];
        assert(last.mask != 0 && entry_ok(last));
        assert(lies_in(stack, e, zoom, last));
        grown_shares(stack, zoom, grown_all(g, rest), e, es.last());
    }
}

proof fn grown_over_shares(
    stack: Seq<PhrasematchSubquery>,
    zoom: u16,
    g: Growth,
    e: CoalesceEntry,
    cs: Seq<ContextView>,
)
    requires
        growth_adds_up(g, e),
        share_tile(stack, g.entries, zoom),
        all_add_up(cs),
        forall|i: int| 0 <= i < cs.len() ==> all_lie_in(stack, e, zoom, (#[trigger] cs[i]).entries),
    ensures
        share_tile(stack, grown_over(g, cs).entries, zoom),
    decreases cs.len(),
{
    if cs.len() > 0 {
        let rest = cs.drop_last();
        assert forall|i: int| 0 <= i < rest.len() implies #[trigger] rest[i] == cs[i] by {}
        assert(all_add_up(rest));
        assert forall|i: int| 0 <= i < rest.len() implies all_lie_in(
            stack,
            e,
            zoom,
            (#[trigger] rest[i]).entries,
        ) by {
            assert(all_lie_in(stack, e, zoom, cs[i].entries));
        }
        grown_over_shares(stack, zoom, g, e, rest);
        grown_over_adds_up(g, e, rest);
        let last = cs[cs.len() - 1];
        assert(entries_fit(last.entries) && all_lie_in(stack, e, zoom, last.entries));
        grown_all_shares(stack, zoom, grown_over(g, rest), e, cs.last().entries);
    }
}

/// What stands in the tile that an entry lies in at a lower zoom level, the entry lies in.
proof fn parents_hold(
    stack: Seq<PhrasematchSubquery>,
    zoom: u16,
    other: u16,
    e: CoalesceEntry,
    c: ContextView,
)
    requires
        other <= zoom,
        stands_in(
            stack,
            c,
            tile_number(
                other,
                zoomed_out(e.grid_entry.x, (zoom - other) as nat),
                zoomed_out(e.grid_entry.y, (zoom - other) as nat),
            ),
        ),
    ensures
        all_lie_in(stack, e, zoom, c.entries),
{
    let levels = (zoom - other) as nat;
    let x = zoomed_out(e.grid_entry.x, levels);
    let y = zoomed_out(e.grid_entry.y, levels);
    let t = tile_number(other, x, y);
    let first = c.entries[0];
    let z = choose|z: u16|
        #[trigger] share_tile(stack, c.entries, z) && t == tile_number(
            z,
            first.grid_entry.x,
            first.grid_entry.y,
        );
    tile_numbers_differ(z, first.grid_entry.x, first.grid_entry.y, other, x, y);
    assert forall|k: int| 0 <= k < c.entries.len() implies lies_in(
        stack,
        e,
        zoom,
        #[trigger] c.entries[k],
    ) by {
        let f = c.entries[k];
        assert(lies_in(stack, first, z, f));
        let low = choose|low: u16|
            {
                &&& #[trigger] is_of_zoom(stack, f, low)
                &&& low <= z
                &&& zoomed_out(first.grid_entry.x, (z - low) as nat) == f.grid_entry.x
                &&& zoomed_out(first.grid_entry.y, (z - low) as nat) == f.grid_entry.y
            };
        assert(is_of_zoom(stack, f, low));
        zooming_out_adds_up(e.grid_entry.x, levels, (z - low) as nat);
        zooming_out_adds_up(e.grid_entry.y, levels, (z - low) as nat);
        assert(levels + (z - low) as nat == (zoom - low) as nat);
    }
}

proof fn sprout_shares(stack: Seq<PhrasematchSubquery>, zoom: u16, e: CoalesceEntry)
    requires
        is_of_zoom(stack, e, zoom),
    ensures
        share_tile(stack, sprout(e).entries, zoom),
{
    vstd::arithmetic::power2::lemma2_to64();
    assert(zoomed_out(e.grid_entry.x, 0) == e.grid_entry.x);
    assert(zoomed_out(e.grid_entry.y, 0) == e.grid_entry.y);
    assert((zoom - zoom) as nat == 0);
    assert(lies_in(stack, e, zoom, e));
}

proof fn grown_across_shares(
    stack: Seq<PhrasematchSubquery>,
    tiles: Tiles,
    zoom: u16,
    others: Seq<u16>,
    n: int,
    e: CoalesceEntry,
)
    requires
        tiles_add_up(tiles),
        tiles_hold(stack, tiles),
        e.mask != 0,
        entry_ok(e),
        is_of_zoom(stack, e, zoom),
        0 <= n <= others.len(),
        forall|i: int| 0 <= i < others.len() ==> #[trigger] others[i] <= zoom,
    ensures
        share_tile(stack, grown_across(tiles, zoom, others, n, sprout(e)).entries, zoom),
    decreases n,
{
    grown_across_adds_up(tiles, zoom, others, n, e);
    if n <= 0 {
        sprout_shares(stack, zoom, e);
    } else {
        grown_across_shares(stack, tiles, zoom, others, n - 1, e);
        grown_across_adds_up(tiles, zoom, others, n - 1, e);
        let g = grown_across(tiles, zoom, others, n - 1, sprout(e));
        let other = others[n - 1];
        let levels = (zoom - other) as nat;
        let tile = tile_number(
            other,
            zoomed_out(e.grid_entry.x, levels),
            zoomed_out(e.grid_entry.y, levels),
        );
        let cs = contexts_at(tiles, tile);
        if tiles.contains_key(tile) {
            assert(all_add_up(tiles[tile]));
        }
        assert forall|i: int| 0 <= i < cs.len() implies all_lie_in(
            stack,
            e,
            zoom,
            (#[trigger] cs[i]).entries,
        ) by {
            assert(stands_in(stack, tiles[tile][i], tile));
            parents_hold(stack, zoom, other, e, cs[i]);
        }
        let start = Growth { last_mask: 0, last_relev: 0, ..g };
        assert(growth_adds_up(start, e));
        grown_over_shares(stack, zoom, start, e, cs);
    }
}

spec fn sweep_holds(stack: Seq<PhrasematchSubquery>, w: Sweep) -> bool {
    tiles_hold(stack, w.added) && all_in_one_tile(stack, w.contexts)
}

proof fn swept_holds(
    stack: Seq<PhrasematchSubquery>,
    w: Sweep,
    tiles: Tiles,
    zoom: u16,
    others: Seq<u16>,
    first: bool,
    last: bool,
    e: CoalesceEntry,
)
    requires
        sweep_holds(stack, w),
        tiles_add_up(tiles),
        tiles_hold(stack, tiles),
        e.mask != 0,
        entry_ok(e),
        is_of_zoom(stack, e, zoom),
        forall|i: int| 0 <= i < others.len() ==> #[trigger] others[i] <= zoom,
    ensures
        sweep_holds(stack, swept(w, tiles, zoom, others, first, last, e)),
{
    let n = others.len() as int;
    let g = grown_across(tiles, zoom, others, n, sprout(e));
    grown_across_adds_up(tiles, zoom, others, n, e);
    grown_across_shares(stack, tiles, zoom, others, n, e);
    let after = swept(w, tiles, zoom, others, first, last, e);
    if last {
        assert forall|i: int| 0 <= i < after.contexts.len() implies is_in_one_tile(
            stack,
            (#[trigger] after.contexts[i]).entries,
        ) by {
            if i < w.contexts.len() {
                assert(after.contexts[i] == w.contexts[i]);
            } else {
                assert(share_tile(stack, after.contexts[i].entries, zoom));
            }
        }
    } else if first || g.entries.len() > 1 {
        let c = ContextView { entries: g.entries, mask: g.mask, relev: g.relev as i128 };
        let t = tile_number(zoom, e.grid_entry.x, e.grid_entry.y);
        assert(share_tile(stack, c.entries, zoom));
        assert(stands_in(stack, c, t));
        assert(after.added == with_context(w.added, t, c));
        assert forall|u: u64| after.added.contains_key(u) implies forall|i: int|
            0 <= i < after.added[u].len() ==> stands_in(stack, #[trigger] after.added[u][i], u) by {
            let had = contexts_at(w.added, u);
            assert forall|i: int| 0 <= i < after.added[u].len() implies stands_in(
                stack,
                #[trigger] after.added[u][i],
                u,
            ) by {
                if i < had.len() {
                    assert(after.added[u][i] == had[i]);
                    assert(stands_in(stack, w.added[u][i], u));
                }
            }
        }
    }
}

proof fn swept_all_holds(
    stack: Seq<PhrasematchSubquery>,
    w: Sweep,
    tiles: Tiles,
    zoom: u16,
    others: Seq<u16>,
    first: bool,
    last: bool,
    es: Seq<CoalesceEntry>,
)
    requires
        sweep_holds(stack, w),
        tiles_add_up(tiles),
        tiles_hold(stack, tiles),
        entries_fit(es),
        forall|i: int| 0 <= i < es.len() ==> is_of_zoom(stack, #[trigger] es[i], zoom),
        forall|i: int| 0 <= i < others.len() ==> #[trigger] others[i] <= zoom,
    ensures
        sweep_holds(stack, swept_all(w, tiles, zoom, others, first, last, es)),
    decreases es.len(),
{
    if es.len() > 0 {
        let rest = es.drop_last();
        assert forall|i: int| 0 <= i < rest.len() implies #[trigger] rest[i] == es[i] by {}
        assert(entries_fit(rest)) by {
            assert forall|i: int| 0 <= i < rest.len() implies (#[trigger] rest[i]).mask != 0
                && entry_ok(rest[i]) by {
                assert(es[i].mask != 0 && entry_ok(es[i]));
            }
        }
        assert forall|i: int| 0 <= i < rest.len() implies is_of_zoom(
            stack,
            #[trigger] rest[i],
            zoom,
        ) by {
            assert(is_of_zoom(stack, es[i], zoom));
        }
        swept_all_holds(stack, w, tiles, zoom, others, first, last, rest);
        let e = es[es.len() - 1];
        assert(e.mask != 0 && entry_ok(e) && is_of_zoom(stack, e, zoom));
        swept_holds(
            stack,
            swept_all(w, tiles, zoom, others, first, last, rest),
            tiles,
            zoom,
            others,
            first,
            last,
            es.last(),
        );
    }
}

proof fn joined_holds(stack: Seq<PhrasematchSubquery>, a: Tiles, b: Tiles)
    requires
        tiles_hold(stack, a),
        tiles_hold(stack, b),
    ensures
        tiles_hold(stack, joined(a, b)),
{
    let both = joined(a, b);
    assert forall|t: u64| both.contains_key(t) implies forall|i: int|
        0 <= i < both[t].len() ==> stands_in(stack, #[trigger] both[t][i], t) by {
        let p = contexts_at(a, t);
        let q = contexts_at(b, t);
        assert forall|i: int| 0 <= i < both[t].len() implies stands_in(
            stack,
            #[trigger] both[t][i],
            t,
        ) by {
            if i < p.len() {
                assert(both[t][i] == p[i]);
                assert(stands_in(stack, a[t][i], t));
            } else {
                assert(both[t][i] == q[i - p.len()]);
                assert(stands_in(stack, b[t][i - p.len()], t));
            }
        }
    }
}

proof fn lower_zooms_are_lower(
    stack: Seq<PhrasematchSubquery>,
    order: Seq<usize>,
    n: int,
    at: usize,
)
    ensures
        forall|i: int|
            0 <= i < lower_zooms(stack, order, n, at).len() ==> #[trigger] lower_zooms(
                stack,
                order,
                n,
                at,
            )[i] <= stack[at as int].store.zoom,
    decreases n,
{
    if n > 0 {
        lower_zooms_are_lower(stack, order, n - 1, at);
        let before = lower_zooms(stack, order, n - 1, at);
        let all = lower_zooms(stack, order, n, at);
        assert forall|i: int| 0 <= i < all.len() implies #[trigger] all[i]
            <= stack[at as int].store.zoom by {
            if i < before.len() {
                assert(all[i] == before[i]);
            }
        }
    }
}

proof fn multi_state_holds(
    stack: Seq<PhrasematchSubquery>,
    order: Seq<usize>,
    lists: Seq<Seq<MatchEntry>>,
    n: int,
)
    requires
        n <= order.len(),
        forall|i: int|
            0 <= i < order.len() ==> (#[trigger] order[i]) < stack.len() && stack[order[i] as int].mask
                != 0,
    ensures
        tiles_hold(stack, multi_state(stack, order, lists, n).tiles),
        all_in_one_tile(stack, multi_state(stack, order, lists, n).contexts),
    decreases n,
{
    if n > 0 {
        multi_state_holds(stack, order, lists, n - 1);
        multi_state_adds_up(stack, order, lists, n - 1);
        let before = multi_state(stack, order, lists, n - 1);
        let p = order[n - 1];
        let part = stack[p as int];
        let start = Sweep {
            added: Map::empty(),
            contexts: before.contexts,
            max_relev: before.max_relev,
        };
        let others = other_zooms(stack, order, p);
        let lower = lower_zooms(stack, order, order.len() as int, p);
        lower_zooms_are_lower(stack, order, order.len() as int, p);
        assert forall|i: int| 0 <= i < others.len() implies #[trigger] others[i]
            <= part.store.zoom by {
            deduped_from(lower, i);
            let k = choose|k: int| 0 <= k < lower.len() && lower[k] == others[i];
            assert(lower[k] <= part.store.zoom);
        }
        let es = coalesce_entries(lists[n - 1], part, 0);
        assert(part.mask != 0);
        phrase_entries_fit(lists[n - 1], part);
        assert forall|i: int| 0 <= i < es.len() implies is_of_zoom(
            stack,
            #[trigger] es[i],
            part.store.zoom,
        ) by {
            assert(es[i] == coalesce_entry(lists[n - 1][i], part, 0));
            assert(stack[p as int].idx == es[i].idx);
        }
        swept_all_holds(
            stack,
            start,
            before.tiles,
            part.store.zoom,
            others,
            n == 1,
            n == order.len(),
            es,
        );
        let w = swept_all(
            start,
            before.tiles,
            part.store.zoom,
            others,
            n == 1,
            n == order.len(),
            es,
        );
        joined_holds(stack, before.tiles, w.added);
    }
}

proof fn relevant_in_one_tile(
    stack: Seq<PhrasematchSubquery>,
    tiles: Tiles,
    keys: Seq<u64>,
    n: int,
    max_relev: int,
)
    requires
        tiles_hold(stack, tiles),
        0 <= n <= keys.len(),
        forall|i: int| 0 <= i < keys.len() ==> tiles.contains_key(#[trigger] keys[i]),
    ensures
        all_in_one_tile(stack, relevant_in(tiles, keys, n, max_relev)),
    decreases n,
{
    if n > 0 {
        relevant_in_one_tile(stack, tiles, keys, n - 1, max_relev);
        let before = relevant_in(tiles, keys, n - 1, max_relev);
        let t = keys[n - 1];
        let cs = tiles[t];
        let p = |c: ContextView| max_relev - c.relev < MAX_RELEVANCE_GAP;
        let kept = cs.filter(p);
        let all = relevant_in(tiles, keys, n, max_relev);
        assert(tiles.contains_key(t));
        assert(relevant(cs, max_relev) == kept);
        assert forall|i: int| 0 <= i < all.len() implies is_in_one_tile(
            stack,
            (#[trigger] all[i]).entries,
        ) by {
            if i < before.len() {
                assert(all[i] == before[i]);
            } else {
                assert(all[i] == kept[i - before.len()]);
                filter_from(cs, p, i - before.len());
                let j = choose|j: int| 0 <= j < cs.len() && #[trigger] cs[j] == all[i];
                assert(stands_in(stack, tiles[t][j], t));
            }
        }
    }
}

/// The entries of a context of several phrases, each of which covers a word, lie in the same tile:
/// that of the first lies in those of the others, whose zoom levels are not higher.
pub proof fn stacked_phrases_share_a_tile<F: Fn(u64, u16, u64, u8) -> Measure>(
    stack: Seq<PhrasematchSubquery>,
    opts: MatchOpts,
    scale: F,
    out: Seq<ContextView>,
)
    requires
        is_multi_answer(stack, opts, scale, out),
        stack.len() <= usize::MAX,
        forall|p: int| 0 <= p < stack.len() ==> (#[trigger] stack[p]).mask != 0,
    ensures
        forall|i: int| 0 <= i < out.len() ==> is_in_one_tile(stack, (#[trigger] out[i]).entries),
{
    let order = stack_order(stack);
    let lists = choose|lists: Seq<Seq<MatchEntry>>|
        {
            &&& #[trigger] are_phrase_matches(stack, order, opts, scale, lists)
            &&& best_first(out)
            &&& out.to_multiset() == multi_contexts(
                multi_state(stack, order, lists, order.len() as int),
            ).to_multiset()
        };
    let st = multi_state(stack, order, lists, order.len() as int);
    let all = multi_contexts(st);
    stack_order_is(stack);
    assert forall|i: int| 0 <= i < order.len() implies (#[trigger] order[i]) < stack.len()
        && stack[order[i] as int].mask != 0 by {
        assert(stack[order[i] as int].mask != 0);
    }
    multi_state_holds(stack, order, lists, order.len() as int);
    multi_state_adds_up(stack, order, lists, order.len() as int);
    let keys = in_order(st.tiles.dom(), num_u64());
    let from_tiles = relevant_in(st.tiles, keys, keys.len() as int, st.max_relev);
    in_order_exists(st.tiles.dom(), num_u64());
    assert forall|i: int| 0 <= i < keys.len() implies st.tiles.contains_key(#[trigger] keys[i]) by {
        set_members(keys, keys[i]);
        assert(keys.contains(keys[i]));
    }
    relevant_in_one_tile(stack, st.tiles, keys, keys.len() as int, st.max_relev);
    assert forall|i: int| 0 <= i < out.len() implies is_in_one_tile(
        stack,
        (#[trigger] out[i]).entries,
    ) by {
        let j = place_in(out, all, i);
        if j < st.contexts.len() {
            assert(all[j] == st.contexts[j]);
        } else {
            assert(all[j] == from_tiles[j - st.contexts.len()]);
        }
    }
}

// ---------------------------------------------------------------------------------------------
// Trees
// ---------------------------------------------------------------------------------------------

/// The first entries of the contexts have the zoom level, and their tiles lie in those of the other
/// entries.
pub open spec fn all_at_zoom(
    stack: Seq<PhrasematchSubquery>,
    cs: Seq<ContextView>,
    zoom: u16,
) -> bool {
    forall|i: int| 0 <= i < cs.len() ==> share_tile(stack, (#[trigger] cs[i]).entries, zoom)
}

pub(crate) proof fn entries_of_part(
    stack: Seq<PhrasematchSubquery>,
    p: int,
    grids: Seq<MatchEntry>,
    id: u32,
)
    requires
        0 <= p < stack.len(),
    ensures
        forall|i: int|
            0 <= i < grids.len() ==> is_of_zoom(
                stack,
                #[trigger] coalesce_entries(grids, stack[p], id)[i],
                stack[p].store.zoom,
            ),
{
    let es = coalesce_entries(grids, stack[p], id);
    assert forall|i: int| 0 <= i < grids.len() implies is_of_zoom(
        stack,
        #[trigger] es[i],
        stack[p].store.zoom,
    ) by {
        assert(es[i] == coalesce_entry(grids[i], stack[p], id));
        assert(stack[p].idx == es[i].idx);
    }
}

proof fn alone_shares(stack: Seq<PhrasematchSubquery>, zoom: u16, e: CoalesceEntry, mask: u32)
    requires
        is_of_zoom(stack, e, zoom),
    ensures
        share_tile(stack, single_context(e, mask).entries, zoom),
{
    sprout_shares(stack, zoom, e);
    assert(single_context(e, mask).entries =~= sprout(e).entries);
}

pub(crate) proof fn placed_lie(cs: Seq<ContextView>, x: u16, y: u16, n: int, i: int)
    requires
        0 <= n <= cs.len(),
        0 <= i < places_at(cs, x, y, n).len(),
    ensures
        0 <= places_at(cs, x, y, n)[i] < n,
        lies_at(cs[places_at(cs, x, y, n)[i]], x, y),
    decreases n,
{
    if n > 0 {
        let before = places_at(cs, x, y, n - 1);
        if i < before.len() {
            placed_lie(cs, x, y, n - 1, i);
            assert(places_at(cs, x, y, n)[i] == before[i]);
        }
    }
}

proof fn made_shares(
    stack: Seq<PhrasematchSubquery>,
    e: CoalesceEntry,
    prev: Option<Seq<ContextView>>,
    levels: nat,
    mask: u32,
    zoom: u16,
    prev_zoom: u16,
)
    requires
        is_of_zoom(stack, e, zoom),
        prev matches Some(cs) ==> all_at_zoom(stack, cs, prev_zoom) && prev_zoom <= zoom && levels
            == zoom - prev_zoom,
    ensures
        all_at_zoom(stack, made_of(e, prev, levels, mask), zoom),
{
    let made = made_of(e, prev, levels, mask);
    match prev {
        None => {
            alone_shares(stack, zoom, e, mask);
        },
        Some(cs) => {
            let x = zoomed_out(e.grid_entry.x, levels);
            let y = zoomed_out(e.grid_entry.y, levels);
            let places = places_at(cs, x, y, cs.len() as int);
            assert forall|i: int| 0 <= i < made.len() implies share_tile(
                stack,
                (#[trigger] made[i]).entries,
                zoom,
            ) by {
                placed_lie(cs, x, y, cs.len() as int, i);
                let c = cs[places[i]];
                assert(share_tile(stack, c.entries, prev_zoom));
                assert((zoom - prev_zoom) as nat == levels);
                assert(stands_in(stack, c, tile_number(prev_zoom, x, y)));
                parents_hold(stack, zoom, prev_zoom, e, c);
                sprout_shares(stack, zoom, e);
                assert(lies_in(stack, e, zoom, sprout(e).entries[0]));
                let all = seq![e] + c.entries;
                assert(made[i] == stacked(c, e, mask));
                assert forall|k: int| 0 <= k < all.len() implies lies_in(
                    stack,
                    e,
                    zoom,
                    #[trigger] all[k],
                ) by {
                    if k > 0 {
                        assert(all[k] == c.entries[k - 1]);
                    }
                }
                assert(share_tile(stack, all, zoom));
            }
        },
    }
}

/// What is stacked on contexts that share tiles shares tiles.
pub(crate) proof fn made_all_share(
    stack: Seq<PhrasematchSubquery>,
    es: Seq<CoalesceEntry>,
    prev: Option<Seq<ContextView>>,
    levels: nat,
    mask: u32,
    zoom: u16,
    prev_zoom: u16,
)
    requires
        forall|i: int| 0 <= i < es.len() ==> is_of_zoom(stack, #[trigger] es[i], zoom),
        prev matches Some(cs) ==> all_at_zoom(stack, cs, prev_zoom) && prev_zoom <= zoom && levels
            == zoom - prev_zoom,
    ensures
        all_at_zoom(stack, made_of_all(es, prev, levels, mask), zoom),
    decreases es.len(),
{
    if es.len() > 0 {
        let rest = es.drop_last();
        assert forall|i: int| 0 <= i < rest.len() implies is_of_zoom(
            stack,
            #[trigger] rest[i],
            zoom,
        ) by {
            assert(is_of_zoom(stack, es[i], zoom));
        }
        made_all_share(stack, rest, prev, levels, mask, zoom, prev_zoom);
        assert(is_of_zoom(stack, es[es.len() - 1], zoom));
        made_shares(stack, es.last(), prev, levels, mask, zoom, prev_zoom);
        let a = made_of_all(rest, prev, levels, mask);
        let b = made_of(es.last(), prev, levels, mask);
        both_at_zoom(stack, a, b, zoom);
    }
}

pub(crate) proof fn both_at_zoom(
    stack: Seq<PhrasematchSubquery>,
    a: Seq<ContextView>,
    b: Seq<ContextView>,
    zoom: u16,
)
    requires
        all_at_zoom(stack, a, zoom),
        all_at_zoom(stack, b, zoom),
    ensures
        all_at_zoom(stack, a + b, zoom),
{
    assert forall|i: int| 0 <= i < (a + b).len() implies share_tile(
        stack,
        (#[trigger] (a + b)[i]).entries,
        zoom,
    ) by {
        if i < a.len() {
            assert((a + b)[i] == a[i]);
        } else {
            assert((a + b)[i] == b[i - a.len()]);
        }
    }
}

/// The contexts share tiles, also with what is taken off less natural ones.
pub(crate) proof fn penalized_share(
    stack: Seq<PhrasematchSubquery>,
    cs: Seq<ContextView>,
    zoom: u16,
)
    requires
        all_at_zoom(stack, cs, zoom),
    ensures
        all_in_one_tile(stack, cs),
        all_in_one_tile(stack, all_penalized(cs)),
{
    assert forall|i: int| 0 <= i < cs.len() implies is_in_one_tile(
        stack,
        (#[trigger] cs[i]).entries,
    ) by {
        assert(share_tile(stack, cs[i].entries, zoom));
    }
    assert forall|i: int| 0 <= i < cs.len() implies is_in_one_tile(
        stack,
        (#[trigger] all_penalized(cs)[i]).entries,
    ) by {
        assert(all_penalized(cs)[i] == penalized(cs[i]));
        assert(share_tile(stack, cs[i].entries, zoom));
    }
}

pub(crate) proof fn leaf_best_of_part(es: Seq<CoalesceEntry>)
    ensures
        leaf_states(es).best.dom().finite(),
        forall|id: u32| #[trigger]
            leaf_states(es).best.contains_key(id) ==> es.contains(leaf_states(es).best[id]),
    decreases es.len(),
{
    if es.len() > 0 {
        let rest = es.drop_last();
        leaf_best_of_part(rest);
        let before = leaf_states(rest).best;
        let after = leaf_states(es).best;
        let e = es.last();
        assert(after == before || after == before.insert(e.grid_entry.id, e));
        assert forall|id: u32| #[trigger] after.contains_key(id) implies es.contains(after[id]) by {
            if after[id] == e {
                assert(es[es.len() - 1] == e);
            } else {
                assert(before.contains_key(id));
                let k = choose|k: int| 0 <= k < rest.len() && rest[k] == before[id];
                assert(es[k] == before[id]);
            }
        }
    }
}

pub(crate) proof fn leaves_share(
    stack: Seq<PhrasematchSubquery>,
    p: int,
    grids: Seq<MatchEntry>,
    id: u32,
)
    requires
        0 <= p < stack.len(),
    ensures
        all_at_zoom(stack, leaf_contexts(grids, stack[p], id), stack[p].store.zoom),
{
    let es = coalesce_entries(grids, stack[p], id);
    let best = leaf_states(es).best;
    let ids = in_order(best.dom(), num_u32());
    let cs = leaf_contexts(grids, stack[p], id);
    entries_of_part(stack, p, grids, id);
    leaf_best_of_part(es);
    in_order_exists(best.dom(), num_u32());
    assert forall|i: int| 0 <= i < cs.len() implies share_tile(
        stack,
        (#[trigger] cs[i]).entries,
        stack[p].store.zoom,
    ) by {
        assert(ids.contains(ids[i]));
        set_members(ids, ids[i]);
        assert(best.contains_key(ids[i]));
        let k = choose|k: int| 0 <= k < es.len() && es[k] == best[ids[i]];
        assert(is_of_zoom(stack, es[k], stack[p].store.zoom));
        alone_shares(stack, stack[p].store.zoom, best[ids[i]], stack[p].mask);
    }
}

} // verus!
