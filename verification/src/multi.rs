//! Coalescing of several phrases whose indexes may be at different zoom levels.

use std::collections::{HashMap, HashSet};
use vstd::prelude::*;

use crate::coalesce::{
    coalesce_entries, coalesce_single, context_rank, contexts_view, grid_to_coalesce_entry,
    is_phrase_answer, is_query, CoalesceContext, CoalesceEntry, ContextView, CONTEXT_PENALTY,
    MAX_CONTEXTS, MAX_ENTRY_RELEV, MAX_GRIDS_PER_PHRASE, MAX_RELEVANCE_GAP,
};
use crate::common::MatchOpts;
use crate::agreement::one_phrase_is_coalesced_alone;
use crate::decode::{meter_of, MatchEntry};
use crate::error::Result;
use crate::order::{ascending, in_order, in_order_is_unique, long_keys, num_u64};
use crate::outside::{dedup_zooms, deduped};
use crate::rank::{
    is_rank_order, order_by_rank, rank_below, rank_le, rank_order_has_all, RankKey,
};
use crate::spatial::{is_scale, opts_at_zoom, zoom_out, zoomed_out, Measure};
use crate::stackable::PhrasematchSubquery;
use crate::store::answers_query;

verus! {

broadcast use vstd::std_specs::hash::group_hash_axioms;

/// No relevance of a context comes up to this.
pub const RELEV_LIMIT: i128 = 0x1_0000_0000_0000_0000_0000_0000_0000_00;

// ---------------------------------------------------------------------------------------------
// Stacking on one entry
// ---------------------------------------------------------------------------------------------

/// A context that is being put together: the entries that were stacked so far.
#[verifier::ext_equal]
pub struct Growth {
    pub entries: Seq<CoalesceEntry>,
    pub mask: u32,
    pub relev: int,
    /// The mask and relevance of the entry stacked last at this zoom level, zero without one
    pub last_mask: u32,
    pub last_relev: int,
}

struct Growing {
    entries: Vec<CoalesceEntry>,
    mask: u32,
    relev: i128,
    last_mask: u32,
    last_relev: i128,
}

impl View for Growing {
    type V = Growth;

    closed spec fn view(&self) -> Growth {
        Growth {
            entries: self.entries@,
            mask: self.mask,
            relev: self.relev as int,
            last_mask: self.last_mask,
            last_relev: self.last_relev as int,
        }
    }
}

/// The context of the entry alone.
pub open spec fn sprout(e: CoalesceEntry) -> Growth {
    Growth {
        entries: seq![e],
        mask: e.mask,
        relev: e.relev as int,
        last_mask: 0,
        last_relev: 0,
    }
}

/// The context after one more entry was offered: the entry takes the place of the one stacked last
/// if it covers the same words and is more relevant; it is stacked if it covers other words than
/// the context.
pub open spec fn grown(g: Growth, e: CoalesceEntry) -> Growth {
    if e.mask == g.last_mask && e.relev > g.last_relev {
        Growth {
            entries: g.entries.drop_last().push(e),
            mask: g.mask,
            relev: g.relev - g.last_relev + e.relev,
            last_mask: e.mask,
            last_relev: e.relev as int,
        }
    } else if g.mask & e.mask == 0 {
        Growth {
            entries: g.entries.push(e),
            mask: g.mask | e.mask,
            relev: g.relev + e.relev,
            last_mask: e.mask,
            last_relev: e.relev as int,
        }
    } else {
        g
    }
}

/// The context after the entries were offered in turn.
pub open spec fn grown_all(g: Growth, es: Seq<CoalesceEntry>) -> Growth
    decreases es.len(),
{
    if es.len() == 0 {
        g
    } else {
        grown(grown_all(g, es.drop_last()), es.last())
    }
}

/// The context after the entries of the contexts were offered in turn.
pub open spec fn grown_over(g: Growth, contexts: Seq<ContextView>) -> Growth
    decreases contexts.len(),
{
    if contexts.len() == 0 {
        g
    } else {
        grown_all(grown_over(g, contexts.drop_last()), contexts.last().entries)
    }
}

/// A tile of a zoom level as a number.
pub open spec fn tile_number(zoom: u16, x: u16, y: u16) -> u64 {
    (zoom * 0x1_0000_0000 + x * 0x1_0000 + y) as u64
}

fn tile(zoom: u16, x: u16, y: u16) -> (n: u64)
    ensures
        n == tile_number(zoom, x, y),
{
    zoom as u64 * 0x1_0000_0000 + x as u64 * 0x1_0000 + y as u64
}

/// Different tiles have different numbers.
pub proof fn tile_numbers_differ(z1: u16, x1: u16, y1: u16, z2: u16, x2: u16, y2: u16)
    requires
        tile_number(z1, x1, y1) == tile_number(z2, x2, y2),
    ensures
        z1 == z2,
        x1 == x2,
        y1 == y2,
{
}

/// Contexts by tile.
pub type Tiles = Map<u64, Seq<ContextView>>;

/// The contexts of a tile, none if there are none.
pub open spec fn contexts_at(tiles: Tiles, tile: u64) -> Seq<ContextView> {
    if tiles.contains_key(tile) {
        tiles[tile]
    } else {
        Seq::empty()
    }
}

/// The context with what lies in the same tile at another zoom level stacked on it.
pub open spec fn grown_at(tiles: Tiles, zoom: u16, other: u16, g: Growth) -> Growth {
    let levels = (zoom - other) as nat;
    let x = zoomed_out(g.entries[0].grid_entry.x, levels);
    let y = zoomed_out(g.entries[0].grid_entry.y, levels);
    grown_over(
        Growth { last_mask: 0, last_relev: 0, ..g },
        contexts_at(tiles, tile_number(other, x, y)),
    )
}

/// The context with what lies in the same tiles at the first `n` of the zoom levels.
pub open spec fn grown_across(
    tiles: Tiles,
    zoom: u16,
    others: Seq<u16>,
    n: int,
    g: Growth,
) -> Growth
    decreases n,
{
    if n <= 0 {
        g
    } else {
        grown_at(tiles, zoom, others[n - 1], grown_across(tiles, zoom, others, n - 1, g))
    }
}

/// The relevance of an entry is in bounds.
pub open spec fn entry_ok(e: CoalesceEntry) -> bool {
    0 <= e.relev < MAX_ENTRY_RELEV
}

/// A context has entries, and its relevances are in bounds.
pub open spec fn context_ok(c: ContextView) -> bool {
    &&& c.entries.len() > 0
    &&& -CONTEXT_PENALTY <= c.relev < RELEV_LIMIT
    &&& forall|i: int| 0 <= i < c.entries.len() ==> entry_ok(#[trigger] c.entries[i])
}

/// All the contexts are in order.
pub open spec fn contexts_ok(contexts: Seq<ContextView>) -> bool {
    forall|i: int| 0 <= i < contexts.len() ==> context_ok(#[trigger] contexts[i])
}

spec fn tiles_ok(tiles: Tiles) -> bool {
    forall|t: u64| tiles.contains_key(t) ==> contexts_ok(#[trigger] tiles[t])
}

/// The relevance of the context is bounded by the number of its entries and of the zoom levels.
spec fn growth_ok(g: Growth, zooms: int) -> bool {
    &&& g.entries.len() > 0
    &&& 0 <= g.last_relev < MAX_ENTRY_RELEV
    &&& 0 <= g.relev - g.last_relev <= (g.entries.len() + zooms) * MAX_ENTRY_RELEV
    &&& forall|i: int| 0 <= i < g.entries.len() ==> entry_ok(#[trigger] g.entries[i])
}

fn grow(g: &mut Growing, e: &CoalesceEntry, Ghost(zooms): Ghost<int>)
    requires
        growth_ok(old(g)@, zooms),
        0 <= zooms <= usize::MAX,
        entry_ok(*e),
    ensures
        final(g)@ == grown(old(g)@, *e),
        growth_ok(final(g)@, zooms),
{
    let ghost before = g@;
    let n: usize = g.entries.len();
    proof {
        assert((n + zooms) * MAX_ENTRY_RELEV <= 0x2_0000_0000_0000_0000 * MAX_ENTRY_RELEV)
            by (nonlinear_arith)
            requires
                0 <= n + zooms <= 0x2_0000_0000_0000_0000,
                MAX_ENTRY_RELEV >= 0,
        ;
        assert((n + 1 + zooms) * MAX_ENTRY_RELEV == (n + zooms) * MAX_ENTRY_RELEV
            + MAX_ENTRY_RELEV) by (nonlinear_arith);
    }
    if e.mask == g.last_mask && e.relev > g.last_relev {
        let _ = g.entries.pop();
        g.entries.push(*e);
        g.relev = g.relev - g.last_relev + e.relev;
        g.last_mask = e.mask;
        g.last_relev = e.relev;
    } else if g.mask & e.mask == 0 {
        g.entries.push(*e);
        g.relev = g.relev + e.relev;
        g.mask = g.mask | e.mask;
        g.last_mask = e.mask;
        g.last_relev = e.relev;
    }
    assert(g@.entries =~= grown(before, *e).entries);
}

fn grow_over(g: &mut Growing, contexts: &Vec<CoalesceContext>, Ghost(zooms): Ghost<int>)
    requires
        growth_ok(old(g)@, zooms),
        0 <= zooms <= usize::MAX,
        contexts_ok(contexts_view(contexts@)),
    ensures
        final(g)@ == grown_over(old(g)@, contexts_view(contexts@)),
        growth_ok(final(g)@, zooms),
{
    let ghost start = g@;
    let ghost v = contexts_view(contexts@);
    let mut i: usize = 0;
    assert(v.take(0) =~= Seq::empty());
    while i < contexts.len()
        invariant
            i <= contexts@.len(),
            v == contexts_view(contexts@),
            contexts_ok(v),
            0 <= zooms <= usize::MAX,
            g@ == grown_over(start, v.take(i as int)),
            growth_ok(g@, zooms),
        decreases contexts@.len() - i,
    {
        let parent: &CoalesceContext = &contexts[i];
        let ghost here = g@;
        let ghost es = parent.entries@;
        let mut k: usize = 0;
        proof {
            assert(v[i as int] == parent@);
            assert(context_ok(v[i as int]));
            assert(es.take(0) =~= Seq::empty());
        }
        while k < parent.entries.len()
            invariant
                k <= parent.entries@.len(),
                es == parent.entries@,
                context_ok(parent@),
                0 <= zooms <= usize::MAX,
                g@ == grown_all(here, es.take(k as int)),
                growth_ok(g@, zooms),
            decreases parent.entries@.len() - k,
        {
            assert(entry_ok(parent@.entries[k as int]));
            grow(g, &parent.entries[k], Ghost(zooms));
            k += 1;
            assert(es.take(k as int).drop_last() =~= es.take(k - 1));
        }
        assert(es.take(k as int) =~= es);
        i += 1;
        assert(v.take(i as int).drop_last() =~= v.take(i - 1));
    }
    assert(v.take(i as int) =~= v);
}

spec fn tiles_view(tiles: Map<u64, Vec<CoalesceContext>>) -> Tiles {
    tiles.map_values(|c: Vec<CoalesceContext>| contexts_view(c@))
}

/// Stacks on an entry what lies in the same tiles at the zoom levels.
fn grow_across(
    tiles: &HashMap<u64, Vec<CoalesceContext>>,
    zoom: u16,
    others: &Vec<u16>,
    e: CoalesceEntry,
) -> (g: Growing)
    requires
        tiles_ok(tiles_view(tiles@)),
        entry_ok(e),
        forall|k: int| 0 <= k < others@.len() ==> #[trigger] others@[k] <= zoom,
    ensures
        g@ == grown_across(
            tiles_view(tiles@),
            zoom,
            others@,
            others@.len() as int,
            sprout(e),
        ),
        g@.entries.len() > 0,
        0 <= g@.relev < RELEV_LIMIT,
        forall|i: int| 0 <= i < g@.entries.len() ==> entry_ok(#[trigger] g@.entries[i]),
{
    let mut entries: Vec<CoalesceEntry> = Vec::new();
    entries.push(e);
    let mut g: Growing = Growing {
        entries,
        mask: e.mask,
        relev: e.relev,
        last_mask: 0,
        last_relev: 0,
    };
    let ghost tv = tiles_view(tiles@);
    let count: usize = others.len();
    let mut k: usize = 0;
    assert(g@ =~= sprout(e));
    while k < count
        invariant
            k <= count == others@.len(),
            tv == tiles_view(tiles@),
            tiles_ok(tv),
            forall|k: int| 0 <= k < others@.len() ==> #[trigger] others@[k] <= zoom,
            g@ == grown_across(tv, zoom, others@, k as int, sprout(e)),
            g@.entries.len() > 0,
            0 <= g@.relev <= (g@.entries.len() + k) * MAX_ENTRY_RELEV,
            forall|i: int| 0 <= i < g@.entries.len() ==> entry_ok(#[trigger] g@.entries[i]),
        decreases count - k,
    {
        let other: u16 = others[k];
        assert(others@[k as int] <= zoom);
        let levels: u16 = zoom - other;
        let x: u16 = zoom_out(g.entries[0].grid_entry.x, levels);
        let y: u16 = zoom_out(g.entries[0].grid_entry.y, levels);
        g.last_mask = 0;
        g.last_relev = 0;
        let ghost here = g@;
        let n: u64 = tile(other, x, y);
        assert(growth_ok(here, k as int));
        match tiles.get(&n) {
            Some(contexts) => {
                proof {
                    assert(tv.contains_key(n) && tv[n] == contexts_view(contexts@));
                }
                grow_over(&mut g, contexts, Ghost(k as int));
            },
            None => {
                assert(grown_over(here, Seq::empty()) == here);
            },
        }
        proof {
            assert((g@.entries.len() + k + 1) * MAX_ENTRY_RELEV == (g@.entries.len() + k)
                * MAX_ENTRY_RELEV + MAX_ENTRY_RELEV) by (nonlinear_arith);
        }
        k += 1;
    }
    let total: usize = g.entries.len();
    proof {
        assert((total + count) * MAX_ENTRY_RELEV <= 0x2_0000_0000_0000_0000 * MAX_ENTRY_RELEV)
            by (nonlinear_arith)
            requires
                0 <= total + count <= 0x2_0000_0000_0000_0000,
                MAX_ENTRY_RELEV >= 0,
        ;
    }
    g
}

// ---------------------------------------------------------------------------------------------
// One phrase
// ---------------------------------------------------------------------------------------------

/// What going through the entries of a phrase has brought so far.
#[verifier::ext_equal]
pub struct Sweep {
    /// The contexts for later phrases to be stacked on
    pub added: Tiles,
    /// The contexts of the last phrase
    pub contexts: Seq<ContextView>,
    /// The greatest relevance so far
    pub max_relev: int,
}

/// What is taken off a context of the last phrase: a little, if nothing was stacked, or if the
/// masks of its first two entries ascend.
pub open spec fn penalty(entries: Seq<CoalesceEntry>) -> int {
    if entries.len() == 1 || entries[0].mask < entries[1].mask {
        CONTEXT_PENALTY as int
    } else {
        0
    }
}

/// The tiles with one more context in a tile.
pub open spec fn with_context(tiles: Tiles, tile: u64, c: ContextView) -> Tiles {
    tiles.insert(tile, contexts_at(tiles, tile).push(c))
}

/// What one more entry brings: the context that it grows into. A context of the last phrase is kept
/// if it is relevant enough; one of another phrase is kept for later phrases if it is of the first
/// phrase or something was stacked.
pub open spec fn swept(
    w: Sweep,
    tiles: Tiles,
    zoom: u16,
    others: Seq<u16>,
    first: bool,
    last: bool,
    e: CoalesceEntry,
) -> Sweep {
    let g = grown_across(tiles, zoom, others, others.len() as int, sprout(e));
    let max = if g.relev > w.max_relev {
        g.relev
    } else {
        w.max_relev
    };
    if last {
        let relev = g.relev - penalty(g.entries);
        let c = ContextView { entries: g.entries, mask: g.mask, relev: relev as i128 };
        Sweep {
            contexts: if max - relev < MAX_RELEVANCE_GAP {
                w.contexts.push(c)
            } else {
                w.contexts
            },
            max_relev: max,
            ..w
        }
    } else if first || g.entries.len() > 1 {
        let c = ContextView { entries: g.entries, mask: g.mask, relev: g.relev as i128 };
        Sweep {
            added: with_context(
                w.added,
                tile_number(zoom, e.grid_entry.x, e.grid_entry.y),
                c,
            ),
            max_relev: max,
            ..w
        }
    } else {
        Sweep { max_relev: max, ..w }
    }
}

/// What the entries bring.
pub open spec fn swept_all(
    w: Sweep,
    tiles: Tiles,
    zoom: u16,
    others: Seq<u16>,
    first: bool,
    last: bool,
    es: Seq<CoalesceEntry>,
) -> Sweep
    decreases es.len(),
{
    if es.len() == 0 {
        w
    } else {
        swept(
            swept_all(w, tiles, zoom, others, first, last, es.drop_last()),
            tiles,
            zoom,
            others,
            first,
            last,
            es.last(),
        )
    }
}

/// The contexts of both, tile by tile those of the first before those of the second.
pub open spec fn joined(a: Tiles, b: Tiles) -> Tiles {
    Map::new(
        |t: u64| a.contains_key(t) || b.contains_key(t),
        |t: u64| contexts_at(a, t) + contexts_at(b, t),
    )
}

/// What is known of the phrases so far.
#[verifier::ext_equal]
pub struct MultiState {
    pub tiles: Tiles,
    pub contexts: Seq<ContextView>,
    pub max_relev: int,
}

proof fn with_context_ok(tiles: Tiles, tile: u64, c: ContextView)
    requires
        tiles_ok(tiles),
        context_ok(c),
    ensures
        tiles_ok(with_context(tiles, tile, c)),
{
    let after = with_context(tiles, tile, c);
    assert forall|t: u64| after.contains_key(t) implies contexts_ok(#[trigger] after[t]) by {
        if t == tile {
            let had = contexts_at(tiles, tile);
            assert(contexts_ok(had)) by {
                if tiles.contains_key(tile) {
                    assert(contexts_ok(tiles[tile]));
                }
            }
            assert forall|i: int| 0 <= i < after[t].len() implies context_ok(
                #[trigger] after[t][i],
            ) by {
                if i < had.len() {
                    assert(context_ok(had[i]));
                }
            }
        } else {
            assert(contexts_ok(tiles[t]));
        }
    }
}

fn add_context(
    tiles: &mut HashMap<u64, Vec<CoalesceContext>>,
    tile: u64,
    c: CoalesceContext,
)
    ensures
        tiles_view(final(tiles)@) == with_context(tiles_view(old(tiles)@), tile, c@),
{
    let ghost before = tiles_view(tiles@);
    let ghost cv = c@;
    let list = tiles.entry(tile).or_insert(Vec::new());
    let ghost had = list@;
    proof {
        assert(contexts_view(had) =~= contexts_at(before, tile));
    }
    list.push(c);
    proof {
        assert(contexts_view(list@) =~= contexts_view(had).push(cv));
        assert(tiles_view(tiles@) =~= with_context(before, tile, cv));
    }
}

/// Goes through the matches of a phrase.
fn sweep_phrase(
    subquery: &PhrasematchSubquery,
    match_opts: &MatchOpts,
    grids: &Vec<MatchEntry>,
    tiles: &HashMap<u64, Vec<CoalesceContext>>,
    others: &Vec<u16>,
    first: bool,
    last: bool,
    contexts: &mut Vec<CoalesceContext>,
    max_relevance: &mut i128,
) -> (added: HashMap<u64, Vec<CoalesceContext>>)
    requires
        match_opts.zoom == subquery.store.zoom,
        tiles_ok(tiles_view(tiles@)),
        contexts_ok(contexts_view(old(contexts)@)),
        0 <= *old(max_relevance) < RELEV_LIMIT,
        forall|k: int| 0 <= k < others@.len() ==> #[trigger] others@[k] <= subquery.store.zoom,
    ensures
        (Sweep {
            added: tiles_view(added@),
            contexts: contexts_view(final(contexts)@),
            max_relev: *final(max_relevance) as int,
        }) == swept_all(
            Sweep {
                added: Map::empty(),
                contexts: contexts_view(old(contexts)@),
                max_relev: *old(max_relevance) as int,
            },
            tiles_view(tiles@),
            subquery.store.zoom,
            others@,
            first,
            last,
            coalesce_entries(grids@, *subquery, 0),
        ),
        tiles_ok(tiles_view(added@)),
        contexts_ok(contexts_view(final(contexts)@)),
        0 <= *final(max_relevance) < RELEV_LIMIT,
{
    let ghost es = coalesce_entries(grids@, *subquery, 0);
    let ghost tv = tiles_view(tiles@);
    let zoom: u16 = subquery.store.zoom;
    let ghost start = Sweep {
        added: Map::empty(),
        contexts: contexts_view(contexts@),
        max_relev: *max_relevance as int,
    };
    let mut added: HashMap<u64, Vec<CoalesceContext>> = HashMap::new();
    let mut i: usize = 0;
    proof {
        assert(es.take(0) =~= Seq::empty());
        assert(tiles_view(added@) =~= Map::empty());
    }
    while i < grids.len()
        invariant
            i <= grids@.len(),
            es == coalesce_entries(grids@, *subquery, 0),
            tv == tiles_view(tiles@),
            tiles_ok(tv),
            zoom == subquery.store.zoom,
            match_opts.zoom == subquery.store.zoom,
            forall|k: int| 0 <= k < others@.len() ==> #[trigger] others@[k] <= zoom,
            (Sweep {
                added: tiles_view(added@),
                contexts: contexts_view(contexts@),
                max_relev: *max_relevance as int,
            }) == swept_all(start, tv, zoom, others@, first, last, es.take(i as int)),
            tiles_ok(tiles_view(added@)),
            contexts_ok(contexts_view(contexts@)),
            0 <= *max_relevance < RELEV_LIMIT,
        decreases grids@.len() - i,
    {
        let e: CoalesceEntry = grid_to_coalesce_entry(&grids[i], subquery, match_opts, 0);
        let ghost w = swept_all(start, tv, zoom, others@, first, last, es.take(i as int));
        proof {
            assert(es.take(i + 1).drop_last() =~= es.take(i as int));
            assert(es.take(i + 1).last() == e);
        }
        let g: Growing = grow_across(tiles, zoom, others, e);
        let ghost gv = g@;
        if g.relev > *max_relevance {
            *max_relevance = g.relev;
        }
        let mut relev: i128 = g.relev;
        if last {
            // Contexts in which nothing was stacked, or not in the natural order
            if g.entries.len() == 1 || g.entries[0].mask < g.entries[1].mask {
                relev = relev - CONTEXT_PENALTY;
            }
            if *max_relevance - relev < MAX_RELEVANCE_GAP {
                let ghost had = contexts@;
                let c = CoalesceContext { entries: g.entries, mask: g.mask, relev };
                let ghost cv = c@;
                contexts.push(c);
                proof {
                    assert(contexts_view(contexts@) =~= contexts_view(had).push(cv));
                    assert(context_ok(cv));
                }
            }
        } else if first || g.entries.len() > 1 {
            let c = CoalesceContext { entries: g.entries, mask: g.mask, relev };
            let ghost cv = c@;
            let ghost had = tiles_view(added@);
            add_context(&mut added, tile(zoom, e.grid_entry.x, e.grid_entry.y), c);
            proof {
                with_context_ok(had, tile_number(zoom, e.grid_entry.x, e.grid_entry.y), cv);
            }
        }
        i += 1;
        proof {
            let now = Sweep {
                added: tiles_view(added@),
                contexts: contexts_view(contexts@),
                max_relev: *max_relevance as int,
            };
            assert(now =~= swept(w, tv, zoom, others@, first, last, e));
        }
    }
    assert(es.take(i as int) =~= es);
    added
}

/// Adds the contexts of a phrase to those of the phrases before it.
fn join_tiles(
    tiles: &mut HashMap<u64, Vec<CoalesceContext>>,
    added: HashMap<u64, Vec<CoalesceContext>>,
)
    requires
        tiles_ok(tiles_view(old(tiles)@)),
        tiles_ok(tiles_view(added@)),
    ensures
        tiles_view(final(tiles)@) == joined(tiles_view(old(tiles)@), tiles_view(added@)),
        tiles_ok(tiles_view(final(tiles)@)),
{
    let ghost a = tiles_view(tiles@);
    let ghost b = tiles_view(added@);
    let mut rest: HashMap<u64, Vec<CoalesceContext>> = added;
    let keys: Vec<u64> = long_keys(&rest);
    let mut j: usize = 0;
    proof {
        assert(b.dom() =~= rest@.dom());
        assert(keys@.take(0).to_set() =~= Set::empty());
        assert(joined(a, b.restrict(Set::empty())) =~= a);
    }
    while j < keys.len()
        invariant
            j <= keys@.len(),
            keys@.to_set() == b.dom(),
            ascending(keys@, num_u64()),
            tiles_view(tiles@) == joined(a, b.restrict(keys@.take(j as int).to_set())),
            tiles_view(rest@) == b.remove_keys(keys@.take(j as int).to_set()),
        decreases keys@.len() - j,
    {
        let t: u64 = keys[j];
        let ghost seen = keys@.take(j as int).to_set();
        let ghost before = tiles_view(tiles@);
        let ghost left = rest@;
        proof {
            assert(keys@.to_set().contains(keys@[j as int]));
            assert(!keys@.take(j as int).contains(t)) by {
                if keys@.take(j as int).contains(t) {
                    let q = choose|q: int| 0 <= q < j && keys@.take(j as int)[q] == t;
                    assert(num_u64()(keys@[q]) < num_u64()(keys@[j as int]));
                }
            }
            let k = keys@.take(j as int);
            assert(keys@.take(j + 1) =~= k.push(t));
            k.lemma_push_to_set_commute(t);
            assert(!seen.contains(t) && b.dom().contains(t));
            assert(b.remove_keys(seen).contains_key(t) && b.remove_keys(seen)[t] == b[t]);
            assert(tiles_view(rest@).contains_key(t) && tiles_view(rest@)[t] == b[t]);
        }
        match rest.remove(&t) {
            Some(mut more) => {
                let ghost mv = contexts_view(more@);
                let list = tiles.entry(t).or_insert(Vec::new());
                let ghost had = list@;
                proof {
                    assert(mv == b[t]);
                    assert(contexts_view(had) =~= contexts_at(before, t));
                    assert(contexts_at(before, t) =~= contexts_at(a, t)) by {
                        assert(contexts_at(b.restrict(seen), t) =~= Seq::empty());
                    }
                }
                list.append(&mut more);
                proof {
                    assert(contexts_view(list@) =~= contexts_view(had) + mv);
                    assert(tiles_view(tiles@) =~= before.insert(t, contexts_at(a, t) + mv));
                }
            },
            None => {},
        }
        proof {
            let now = seen.insert(t);
            assert(b.contains_key(t));
            assert(rest@ == left.remove(t));
            assert(tiles_view(rest@) =~= tiles_view(left).remove(t));
            assert(tiles_view(rest@) =~= b.remove_keys(now));
            assert forall|u: u64| u != t implies contexts_at(b.restrict(now), u)
                == #[trigger] contexts_at(b.restrict(seen), u) by {}
            assert(contexts_at(b.restrict(now), t) == b[t]);
            assert(tiles_view(tiles@) =~= joined(a, b.restrict(now)));
        }
        j += 1;
    }
    proof {
        assert(keys@.take(j as int) =~= keys@);
        assert(b.restrict(keys@.to_set()) =~= b);
        let both = joined(a, b);
        assert forall|t: u64| both.contains_key(t) implies contexts_ok(#[trigger] both[t]) by {
            let x = contexts_at(a, t);
            let y = contexts_at(b, t);
            assert(contexts_ok(x)) by {
                if a.contains_key(t) {
                    assert(contexts_ok(a[t]));
                }
            }
            assert(contexts_ok(y)) by {
                if b.contains_key(t) {
                    assert(contexts_ok(b[t]));
                }
            }
            assert forall|i: int| 0 <= i < both[t].len() implies context_ok(
                #[trigger] both[t][i],
            ) by {
                if i < x.len() {
                    assert(context_ok(x[i]));
                } else {
                    assert(context_ok(y[i - x.len()]));
                }
            }
        }
    }
}

// ---------------------------------------------------------------------------------------------
// All phrases
// ---------------------------------------------------------------------------------------------

/// The number by which the phrases are ordered: by zoom level, then by index, then by place.
pub open spec fn stack_num(stack: Seq<PhrasematchSubquery>) -> spec_fn(usize) -> int {
    |p: usize|
        (stack[p as int].store.zoom * 0x1_0000 + stack[p as int].idx) * 0x1_0000_0000_0000_0000 + p
}

/// The phrases in order, by their places.
pub open spec fn stack_order(stack: Seq<PhrasematchSubquery>) -> Seq<usize> {
    in_order(Set::new(|p: usize| p < stack.len()), stack_num(stack))
}

/// The zoom levels, up to that of the phrase at `at`, of the first `n` phrases that are of other
/// indexes.
pub open spec fn lower_zooms(
    stack: Seq<PhrasematchSubquery>,
    order: Seq<usize>,
    n: int,
    at: usize,
) -> Seq<u16>
    decreases n,
{
    if n <= 0 {
        Seq::empty()
    } else {
        let before = lower_zooms(stack, order, n - 1, at);
        let b = stack[order[n - 1] as int];
        let a = stack[at as int];
        if a.idx == b.idx || a.store.zoom < b.store.zoom {
            before
        } else {
            before.push(b.store.zoom)
        }
    }
}

/// The zoom levels at which something may lie that the phrase can be stacked on.
pub open spec fn other_zooms(
    stack: Seq<PhrasematchSubquery>,
    order: Seq<usize>,
    at: usize,
) -> Seq<u16> {
    deduped(lower_zooms(stack, order, order.len() as int, at))
}

/// What is known after the first `n` phrases, given the matches of each.
pub open spec fn multi_state(
    stack: Seq<PhrasematchSubquery>,
    order: Seq<usize>,
    lists: Seq<Seq<MatchEntry>>,
    n: int,
) -> MultiState
    decreases n,
{
    if n <= 0 {
        MultiState { tiles: Map::empty(), contexts: Seq::empty(), max_relev: 0 }
    } else {
        let before = multi_state(stack, order, lists, n - 1);
        let p = order[n - 1];
        let w = swept_all(
            Sweep {
                added: Map::empty(),
                contexts: before.contexts,
                max_relev: before.max_relev,
            },
            before.tiles,
            stack[p as int].store.zoom,
            other_zooms(stack, order, p),
            n == 1,
            n == order.len(),
            coalesce_entries(lists[n - 1], stack[p as int], 0),
        );
        MultiState {
            tiles: joined(before.tiles, w.added),
            contexts: w.contexts,
            max_relev: w.max_relev,
        }
    }
}

/// The contexts that are relevant enough.
pub open spec fn relevant(contexts: Seq<ContextView>, max_relev: int) -> Seq<ContextView> {
    contexts.filter(|c: ContextView| max_relev - c.relev < MAX_RELEVANCE_GAP)
}

/// The contexts of the first `n` tiles that are relevant enough.
pub open spec fn relevant_in(
    tiles: Tiles,
    keys: Seq<u64>,
    n: int,
    max_relev: int,
) -> Seq<ContextView>
    decreases n,
{
    if n <= 0 {
        Seq::empty()
    } else {
        relevant_in(tiles, keys, n - 1, max_relev) + relevant(tiles[keys[n - 1]], max_relev)
    }
}

/// All contexts that answer the query: those of the last phrase, and those of the others that are
/// relevant enough.
pub open spec fn multi_contexts(st: MultiState) -> Seq<ContextView> {
    let keys = in_order(st.tiles.dom(), num_u64());
    st.contexts + relevant_in(st.tiles, keys, keys.len() as int, st.max_relev)
}

/// No context stands behind one that ranks below it.
pub open spec fn best_first(contexts: Seq<ContextView>) -> bool {
    forall|i: int, j: int|
        0 <= i < j < contexts.len() ==> !rank_below(
            context_rank(#[trigger] contexts[i], 0),
            context_rank(#[trigger] contexts[j], 0),
        )
}

/// The lists answer the queries to the indexes, phrase by phrase.
pub open spec fn are_phrase_matches<F: Fn(u64, u16, u64, u8) -> Measure>(
    stack: Seq<PhrasematchSubquery>,
    order: Seq<usize>,
    opts: MatchOpts,
    scale: F,
    lists: Seq<Seq<MatchEntry>>,
) -> bool {
    lists.len() == order.len() && forall|i: int|
        0 <= i < lists.len() ==> answers_query(
            *stack[order[i] as int].store,
            stack[order[i] as int].match_keys@[0].key,
            opts_at_zoom(opts@, stack[order[i] as int].store.zoom),
            meter_of(
                scale,
                stack[order[i] as int].store.coalesce_radius,
                stack[order[i] as int].store.zoom,
            ),
            MAX_GRIDS_PER_PHRASE as nat,
            #[trigger] lists[i],
        )
}

/// `out` answers a query of several phrases: there are matches that answer the queries to the
/// indexes, and `out` holds their contexts, the best first.
pub open spec fn is_multi_answer<F: Fn(u64, u16, u64, u8) -> Measure>(
    stack: Seq<PhrasematchSubquery>,
    opts: MatchOpts,
    scale: F,
    out: Seq<ContextView>,
) -> bool {
    let order = stack_order(stack);
    exists|lists: Seq<Seq<MatchEntry>>|
        {
            &&& #[trigger] are_phrase_matches(stack, order, opts, scale, lists)
            &&& best_first(out)
            &&& out.to_multiset() == multi_contexts(
                multi_state(stack, order, lists, order.len() as int),
            ).to_multiset()
        }
}

pub(crate) proof fn deduped_from(zooms: Seq<u16>, i: int)
    requires
        0 <= i < deduped(zooms).len(),
    ensures
        zooms.contains(deduped(zooms)[i]),
    decreases zooms.len(),
{
    if zooms.len() <= 1 {
        assert(zooms.contains(zooms[i]));
    } else {
        let before = deduped(zooms.drop_last());
        if i < before.len() {
            deduped_from(zooms.drop_last(), i);
            let k = choose|k: int|
                0 <= k < zooms.drop_last().len() && zooms.drop_last()[k] == before[i];
            assert(zooms[k] == before[i]);
        } else {
            assert(zooms[zooms.len() - 1] == zooms.last());
        }
    }
}

/// The phrases in order.
fn order_stack(stack: &Vec<PhrasematchSubquery>) -> (order: Vec<usize>)
    ensures
        order@ == stack_order(stack@),
        order@.len() == stack@.len(),
        forall|i: int| 0 <= i < order@.len() ==> #[trigger] order@[i] < stack@.len(),
{
    let mut keys: Vec<RankKey> = Vec::new();
    let mut i: usize = 0;
    while i < stack.len()
        invariant
            i <= stack@.len(),
            keys@.len() == i,
            forall|j: int|
                0 <= j < i ==> #[trigger] keys@[j] == (
                    stack@[j].store.zoom as i128,
                    stack@[j].idx as u64,
                    0u64,
                    0u16,
                    0u16,
                    0u32,
                    j as usize,
                ),
        decreases stack@.len() - i,
    {
        keys.push((stack[i].store.zoom as i128, stack[i].idx as u64, 0, 0, 0, 0, i));
        i += 1;
    }
    let ghost ranks = keys@;
    let order: Vec<usize> = order_by_rank(keys);
    proof {
        let num = stack_num(stack@);
        let all = Set::new(|p: usize| p < stack@.len());
        assert(ascending(order@, num)) by {
            assert forall|a: int, b: int| 0 <= a < b < order@.len() implies num(
                #[trigger] order@[a],
            ) < num(#[trigger] order@[b]) by {
                let x = order@[a] as int;
                let y = order@[b] as int;
                assert(rank_le(ranks[x], ranks[y]));
                assert(ranks[x].6 == x && ranks[y].6 == y);
                assert(x != y);
            }
        }
        assert forall|p: usize| order@.to_set().contains(p) <==> all.contains(p) by {
            if all.contains(p) {
                let a = rank_order_has_all(ranks, order@, p as int);
                assert(order@.contains(p));
            }
            if order@.contains(p) {
                let a = choose|a: int| 0 <= a < order@.len() && order@[a] == p;
                assert(order@[a] < ranks.len());
            }
        }
        assert(order@.to_set() =~= all);
        in_order_is_unique(order@, num);
    }
    order
}

/// The zoom levels at which something may lie that the phrase at `at` can be stacked on.
fn find_other_zooms(
    stack: &Vec<PhrasematchSubquery>,
    order: &Vec<usize>,
    at: usize,
) -> (zooms: Vec<u16>)
    requires
        at < stack@.len(),
        forall|i: int| 0 <= i < order@.len() ==> #[trigger] order@[i] < stack@.len(),
    ensures
        zooms@ == other_zooms(stack@, order@, at),
        forall|k: int|
            0 <= k < zooms@.len() ==> #[trigger] zooms@[k] <= stack@[at as int].store.zoom,
{
    let mut lower: Vec<u16> = Vec::new();
    let mut i: usize = 0;
    while i < order.len()
        invariant
            i <= order@.len(),
            at < stack@.len(),
            forall|i: int| 0 <= i < order@.len() ==> #[trigger] order@[i] < stack@.len(),
            lower@ == lower_zooms(stack@, order@, i as int, at),
            forall|k: int|
                0 <= k < lower@.len() ==> #[trigger] lower@[k] <= stack@[at as int].store.zoom,
        decreases order@.len() - i,
    {
        let b: usize = order[i];
        assert(order@[i as int] < stack@.len());
        if !(stack[at].idx == stack[b].idx || stack[at].store.zoom < stack[b].store.zoom) {
            lower.push(stack[b].store.zoom);
        }
        i += 1;
    }
    let ghost all = lower@;
    let zooms: Vec<u16> = dedup_zooms(lower);
    proof {
        assert forall|k: int| 0 <= k < zooms@.len() implies #[trigger] zooms@[k]
            <= stack@[at as int].store.zoom by {
            deduped_from(all, k);
            let q = choose|q: int| 0 <= q < all.len() && all[q] == zooms@[k];
            assert(all[q] <= stack@[at as int].store.zoom);
        }
    }
    zooms
}

/// Appends the contexts of the tiles that are relevant enough.
fn push_relevant(
    contexts: &mut Vec<CoalesceContext>,
    tiles: &HashMap<u64, Vec<CoalesceContext>>,
    max_relevance: i128,
)
    requires
        tiles_ok(tiles_view(tiles@)),
        contexts_ok(contexts_view(old(contexts)@)),
        0 <= max_relevance < RELEV_LIMIT,
    ensures
        contexts_view(final(contexts)@) == contexts_view(old(contexts)@) + relevant_in(
            tiles_view(tiles@),
            in_order(tiles_view(tiles@).dom(), num_u64()),
            in_order(tiles_view(tiles@).dom(), num_u64()).len() as int,
            max_relevance as int,
        ),
        contexts_ok(contexts_view(final(contexts)@)),
{
    let ghost tv = tiles_view(tiles@);
    let ghost had = contexts_view(contexts@);
    let ghost max = max_relevance as int;
    let keys: Vec<u64> = long_keys(tiles);
    assert(tv.dom() =~= tiles@.dom());
    let mut j: usize = 0;
    assert(contexts_view(contexts@) =~= had + relevant_in(tv, keys@, 0, max));
    while j < keys.len()
        invariant
            j <= keys@.len(),
            tv == tiles_view(tiles@),
            tiles_ok(tv),
            keys@.to_set() == tiles@.dom(),
            max == max_relevance,
            0 <= max_relevance < RELEV_LIMIT,
            contexts_view(contexts@) == had + relevant_in(tv, keys@, j as int, max),
            contexts_ok(contexts_view(contexts@)),
        decreases keys@.len() - j,
    {
        let t: u64 = keys[j];
        proof {
            assert(keys@.to_set().contains(keys@[j as int]));
        }
        match tiles.get(&t) {
            Some(matched) => {
                let ghost before = contexts_view(contexts@);
                let ghost mv = contexts_view(matched@);
                let mut k: usize = 0;
                proof {
                    assert(tv[t] == mv);
                    assert(contexts_ok(mv));
                    assert(mv.take(0) =~= Seq::empty());
                    reveal(Seq::filter);
                    assert(relevant(mv.take(0), max) =~= Seq::empty());
                    assert(before + Seq::<ContextView>::empty() =~= before);
                }
                while k < matched.len()
                    invariant
                        k <= matched@.len(),
                        mv == contexts_view(matched@),
                        contexts_ok(mv),
                        max == max_relevance,
                        0 <= max_relevance < RELEV_LIMIT,
                        contexts_view(contexts@) == before + relevant(mv.take(k as int), max),
                        contexts_ok(contexts_view(contexts@)),
                    decreases matched@.len() - k,
                {
                    proof {
                        reveal(Seq::filter);
                        assert(mv[k as int] == matched@[k as int]@);
                        assert(context_ok(mv[k as int]));
                        assert(mv.take(k + 1).drop_last() =~= mv.take(k as int));
                    }
                    if max_relevance - matched[k].relev < MAX_RELEVANCE_GAP {
                        let ghost cs = contexts@;
                        let c: CoalesceContext = matched[k].copied();
                        let ghost cv = c@;
                        contexts.push(c);
                        assert(contexts_view(contexts@) =~= contexts_view(cs).push(cv));
                    }
                    k += 1;
                    assert(contexts_view(contexts@) =~= before + relevant(
                        mv.take(k as int),
                        max,
                    ));
                }
                assert(mv.take(k as int) =~= mv);
            },
            None => {},
        }
        j += 1;
        assert(contexts_view(contexts@) =~= had + relevant_in(tv, keys@, j as int, max));
    }
}

spec fn reversed_rank(c: ContextView, slot: int) -> RankKey {
    (
        (-c.relev) as i128,
        (u64::MAX - c.entries[0].scoredist) as u64,
        c.entries[0].idx as u64,
        (u16::MAX - c.entries[0].grid_entry.x) as u16,
        (u16::MAX - c.entries[0].grid_entry.y) as u16,
        (u32::MAX - c.entries[0].grid_entry.id) as u32,
        slot as usize,
    )
}

/// The contexts with the best first.
pub(crate) fn sort_contexts(contexts: &Vec<CoalesceContext>) -> (sorted: Vec<CoalesceContext>)
    requires
        contexts_ok(contexts_view(contexts@)),
    ensures
        best_first(contexts_view(sorted@)),
        contexts_view(sorted@).to_multiset() == contexts_view(contexts@).to_multiset(),
        contexts_ok(contexts_view(sorted@)),
{
    let ghost v = contexts_view(contexts@);
    let mut keys: Vec<RankKey> = Vec::new();
    let mut i: usize = 0;
    while i < contexts.len()
        invariant
            i <= contexts@.len(),
            v == contexts_view(contexts@),
            contexts_ok(v),
            keys@.len() == i,
            forall|j: int| 0 <= j < i ==> #[trigger] keys@[j] == reversed_rank(v[j], j),
        decreases contexts@.len() - i,
    {
        assert(context_ok(v[i as int]));
        let c: &CoalesceContext = &contexts[i];
        assert(c@ == v[i as int]);
        let e: CoalesceEntry = c.entries[0];
        keys.push(
            (
                -c.relev,
                u64::MAX - e.scoredist,
                e.idx as u64,
                u16::MAX - e.grid_entry.x,
                u16::MAX - e.grid_entry.y,
                u32::MAX - e.grid_entry.id,
                i,
            ),
        );
        i += 1;
    }
    let ghost ranks = keys@;
    let order: Vec<usize> = order_by_rank(keys);
    let mut sorted: Vec<CoalesceContext> = Vec::new();
    let mut k: usize = 0;
    while k < order.len()
        invariant
            k <= order@.len(),
            v == contexts_view(contexts@),
            is_rank_order(ranks, order@),
            ranks.len() == v.len(),
            sorted@.len() == k,
            forall|j: int| 0 <= j < k ==> (#[trigger] sorted@[j])@ == v[order@[j] as int],
        decreases order@.len() - k,
    {
        assert(order@[k as int] < ranks.len());
        sorted.push(contexts[order[k]].copied());
        k += 1;
    }
    proof {
        let s = contexts_view(sorted@);
        assert forall|j: int| 0 <= j < s.len() implies #[trigger] s[j] == v[order@[j] as int] by {
            assert(sorted@[j]@ == v[order@[j] as int]);
        }
        assert forall|i: int, j: int| 0 <= i < j < s.len() implies !rank_below(
            context_rank(#[trigger] s[i], 0),
            context_rank(#[trigger] s[j], 0),
        ) by {
            let a = order@[i] as int;
            let b = order@[j] as int;
            assert(rank_le(ranks[a], ranks[b]));
            assert(context_ok(v[a]) && context_ok(v[b]));
        }
        assert forall|j: int| 0 <= j < s.len() implies context_ok(#[trigger] s[j]) by {
            assert(context_ok(v[order@[j] as int]));
        }
        reordered(v, s, ranks, order@);
    }
    sorted
}

/// What is read off in an order that has each place once holds the same elements.
pub(crate) proof fn reordered<A>(v: Seq<A>, s: Seq<A>, ranks: Seq<RankKey>, order: Seq<usize>)
    requires
        is_rank_order(ranks, order),
        ranks.len() == v.len() <= usize::MAX,
        s.len() == v.len(),
        forall|j: int| 0 <= j < s.len() ==> #[trigger] s[j] == v[order[j] as int],
    ensures
        s.to_multiset() == v.to_multiset(),
{
    let places = order.map_values(|p: usize| p as int);
    let all = Seq::new(v.len(), |i: int| i);
    broadcast use vstd::seq_lib::group_to_multiset_ensures;

    assert(places.no_duplicates()) by {
        assert forall|a: int, b: int| 0 <= a < b < places.len() implies places[a] != places[b] by {
            assert(order[a] != order[b]);
        }
    }
    places.lemma_multiset_has_no_duplicates();
    all.lemma_multiset_has_no_duplicates();
    assert forall|x: int| places.to_multiset().count(x) == all.to_multiset().count(x) by {
        if 0 <= x < v.len() {
            let a = rank_order_has_all(ranks, order, x);
            assert(places[a] == x);
            assert(places.contains(x));
            assert(all[x] == x);
            assert(all.contains(x));
        } else {
            if places.contains(x) {
                let a = choose|a: int| 0 <= a < places.len() && places[a] == x;
                assert(order[a] < ranks.len());
            }
            assert(!places.contains(x) && !all.contains(x));
        }
    }
    assert(places.to_multiset() =~= all.to_multiset());
    let f = |i: int| v[i];
    mapped_multiset(places, all, f);
    assert(places.map_values(f) =~= s);
    assert(all.map_values(f) =~= v);
}

proof fn mapped_multiset<A, B>(a: Seq<A>, b: Seq<A>, f: spec_fn(A) -> B)
    requires
        a.to_multiset() == b.to_multiset(),
    ensures
        a.map_values(f).to_multiset() == b.map_values(f).to_multiset(),
    decreases a.len(),
{
    broadcast use vstd::seq_lib::group_to_multiset_ensures;

    assert(a.to_multiset().len() == a.len() && b.to_multiset().len() == b.len());
    if a.len() == 0 {
        assert(a =~= b);
    } else {
        let x = a.last();
        let i = crate::order::place_in(a, b, a.len() - 1);
        let ap = a.drop_last();
        let bp = b.remove(i);
        assert(a =~= ap.push(x));
        assert(bp.to_multiset() =~= b.to_multiset().remove(x));
        assert(ap.to_multiset() =~= a.to_multiset().remove(x));
        mapped_multiset(ap, bp, f);
        assert(a.map_values(f) =~= ap.map_values(f).push(f(x)));
        assert(b.map_values(f).remove(i) =~= bp.map_values(f));
        assert(b.map_values(f).remove(i).to_multiset() =~= b.map_values(f).to_multiset().remove(
            f(x),
        ));
        assert(b.map_values(f).contains(f(x))) by {
            assert(b.map_values(f)[i] == f(x));
        }
        assert(b.map_values(f).to_multiset() =~= bp.map_values(f).to_multiset().insert(f(x)));
    }
}

/// Coalesces results from multiple phrase queries with zoom-based stacking.
///
/// Multi-phrase coalescing combines results from different phrase queries
/// (e.g., "Main" + "Street" + "Seattle") by finding features that spatially
/// overlap at their respective zoom levels.
///
/// **Zoom-based coordinate matching:** to match coordinates across zoom levels, they are scaled
/// down from the higher to the lower level: divided by two for each level in between.
///
/// **Stacking rules:** entries can stack if they cover different words of the query and lie in the
/// same tile at the lower zoom level.
///
/// **Processing order:** by zoom level (lowest first) and index, so that parent features (cities)
/// are available when child features (streets) are gone through.
///
/// **Penalties:** contexts of the last phrase lose a little if nothing was stacked or the masks of
/// the first two entries ascend, as 0b001 before 0b010 does.
pub fn coalesce_multi<F: Fn(u64, u16, u64, u8) -> Measure>(
    stack: &Vec<PhrasematchSubquery>,
    match_opts: &MatchOpts,
    scale: &F,
) -> (r: Result<Vec<CoalesceContext>>)
    requires
        forall|p: int| 0 <= p < stack@.len() ==> is_query(#[trigger] stack@[p]),
        is_scale(*scale),
    ensures
        r is Ok,
        is_multi_answer(stack@, *match_opts, *scale, contexts_view(r->Ok_0@)),
        contexts_ok(contexts_view(r->Ok_0@)),
{
    let ghost sv = stack@;
    let order: Vec<usize> = order_stack(stack);
    let mut coalesced: HashMap<u64, Vec<CoalesceContext>> = HashMap::new();
    let mut contexts: Vec<CoalesceContext> = Vec::new();
    let mut max_relevance: i128 = 0;
    let ghost mut lists: Seq<Seq<MatchEntry>> = Seq::empty();
    let count: usize = order.len();
    let mut i: usize = 0;
    proof {
        assert(tiles_view(coalesced@) =~= Map::empty());
        assert(contexts_view(contexts@) =~= Seq::empty());
    }
    while i < count
        invariant
            i <= count == order@.len(),
            sv == stack@,
            order@ == stack_order(sv),
            order@.len() == sv.len(),
            forall|k: int| 0 <= k < order@.len() ==> #[trigger] order@[k] < sv.len(),
            forall|p: int| 0 <= p < sv.len() ==> is_query(#[trigger] sv[p]),
            is_scale(*scale),
            tiles_ok(tiles_view(coalesced@)),
            contexts_ok(contexts_view(contexts@)),
            0 <= max_relevance < RELEV_LIMIT,
            lists.len() == i,
            forall|k: int|
                0 <= k < i ==> answers_query(
                    *sv[order@[k] as int].store,
                    sv[order@[k] as int].match_keys@[0].key,
                    opts_at_zoom(match_opts@, sv[order@[k] as int].store.zoom),
                    meter_of(
                        *scale,
                        sv[order@[k] as int].store.coalesce_radius,
                        sv[order@[k] as int].store.zoom,
                    ),
                    MAX_GRIDS_PER_PHRASE as nat,
                    #[trigger] lists[k],
                ),
            (MultiState {
                tiles: tiles_view(coalesced@),
                contexts: contexts_view(contexts@),
                max_relev: max_relevance as int,
            }) == multi_state(sv, order@, lists, i as int),
        decreases count - i,
    {
        let p: usize = order[i];
        assert(order@[i as int] < sv.len());
        assert(is_query(sv[p as int]));
        let subquery: &PhrasematchSubquery = &stack[p];
        let others: Vec<u16> = find_other_zooms(stack, &order, p);
        // Adjust match options to current zoom level
        let adjusted: MatchOpts = match_opts.adjust_to_zoom(subquery.store.zoom);
        assert(adjusted.zoom == adjusted@.zoom);
        let grids: Vec<MatchEntry> = match subquery.store.get_matching(
            &subquery.match_keys[0].key,
            &adjusted,
            MAX_GRIDS_PER_PHRASE,
            scale,
        ) {
            Ok(grids) => grids,
            Err(e) => {
                return Err(e);
            },
        };
        let ghost before = lists;
        let added: HashMap<u64, Vec<CoalesceContext>> = sweep_phrase(
            subquery,
            &adjusted,
            &grids,
            &coalesced,
            &others,
            i == 0,
            i == count - 1,
            &mut contexts,
            &mut max_relevance,
        );
        // Merge this iteration's results into the main coalesced map
        join_tiles(&mut coalesced, added);
        proof {
            lists = lists.push(grids@);
            multi_state_prefix(sv, order@, before, lists, i as int);
            assert forall|k: int| 0 <= k < i + 1 implies answers_query(
                *sv[order@[k] as int].store,
                sv[order@[k] as int].match_keys@[0].key,
                opts_at_zoom(match_opts@, sv[order@[k] as int].store.zoom),
                meter_of(
                    *scale,
                    sv[order@[k] as int].store.coalesce_radius,
                    sv[order@[k] as int].store.zoom,
                ),
                MAX_GRIDS_PER_PHRASE as nat,
                #[trigger] lists[k],
            ) by {
                if k < i {
                    assert(lists[k] == before[k]);
                }
            }
        }
        i += 1;
    }
    let ghost st = multi_state(sv, order@, lists, count as int);
    // Add any remaining coalesced contexts that weren't added in final iteration
    push_relevant(&mut contexts, &coalesced, max_relevance);
    let sorted: Vec<CoalesceContext> = sort_contexts(&contexts);
    proof {
        assert(are_phrase_matches(sv, order@, *match_opts, *scale, lists));
        assert(contexts_view(contexts@) == multi_contexts(st));
    }
    Ok(sorted)
}

proof fn multi_state_prefix(
    stack: Seq<PhrasematchSubquery>,
    order: Seq<usize>,
    a: Seq<Seq<MatchEntry>>,
    b: Seq<Seq<MatchEntry>>,
    n: int,
)
    requires
        n <= a.len(),
        n <= b.len(),
        forall|i: int| 0 <= i < n ==> a[i] == b[i],
    ensures
        multi_state(stack, order, a, n) == multi_state(stack, order, b, n),
    decreases n,
{
    if n > 0 {
        multi_state_prefix(stack, order, a, b, n - 1);
    }
}

// ---------------------------------------------------------------------------------------------
// Answers
// ---------------------------------------------------------------------------------------------

/// How far the contexts have been gone through for the answer.
pub struct Selection {
    pub out: Seq<ContextView>,
    /// The features that the contexts begin with
    pub seen: Set<u64>,
    /// No more contexts are taken
    pub done: bool,
}

/// The selection after one more context: it is taken if no context before it begins with the same
/// feature. The selection ends with enough contexts, or with a context that is less relevant than
/// the first by the allowed gap.
pub open spec fn selected(s: Selection, c: ContextView, max_relev: int) -> Selection {
    if s.done {
        s
    } else if s.out.len() >= MAX_CONTEXTS || max_relev - c.relev >= MAX_RELEVANCE_GAP {
        Selection { done: true, ..s }
    } else if s.seen.contains(c.entries[0].tmp_id as u64) {
        s
    } else {
        Selection {
            out: s.out.push(c),
            seen: s.seen.insert(c.entries[0].tmp_id as u64),
            done: false,
        }
    }
}

/// The selection after the contexts.
pub open spec fn selected_all(contexts: Seq<ContextView>, max_relev: int) -> Selection
    decreases contexts.len(),
{
    if contexts.len() == 0 {
        Selection { out: Seq::empty(), seen: Set::empty(), done: false }
    } else {
        selected(
            selected_all(contexts.drop_last(), max_relev),
            contexts.last(),
            max_relev,
        )
    }
}

/// The contexts of the answer, given all contexts with the most relevant first.
pub open spec fn selection(contexts: Seq<ContextView>) -> Seq<ContextView> {
    if contexts.len() == 0 {
        Seq::empty()
    } else {
        selected_all(contexts, contexts[0].relev as int).out
    }
}

/// `contexts` are the contexts of the phrases.
pub open spec fn are_contexts<F: Fn(u64, u16, u64, u8) -> Measure>(
    stack: Seq<PhrasematchSubquery>,
    opts: MatchOpts,
    scale: F,
    contexts: Seq<ContextView>,
) -> bool {
    if stack.len() <= 1 {
        is_phrase_answer(stack[0], opts, scale, contexts)
    } else {
        is_multi_answer(stack, opts, scale, contexts)
    }
}

/// Main coalesce entry point - delegates to single or multi, then leaves out features that occur
/// again, contexts that are not relevant enough, and contexts beyond the allowed number.
pub fn coalesce<F: Fn(u64, u16, u64, u8) -> Measure>(
    stack: &Vec<PhrasematchSubquery>,
    match_opts: &MatchOpts,
    scale: &F,
) -> (r: Result<Vec<CoalesceContext>>)
    requires
        stack@.len() > 0,
        forall|p: int| 0 <= p < stack@.len() ==> is_query(#[trigger] stack@[p]),
        is_scale(*scale),
        stack@.len() == 1 ==> match_opts.zoom == stack@[0].store.zoom,
    ensures
        r is Ok,
        exists|contexts: Seq<ContextView>| #[trigger]
            are_contexts(stack@, *match_opts, *scale, contexts) && contexts_view(r->Ok_0@)
                == selection(contexts),
        stack@.len() == 1 ==> is_phrase_answer(
            stack@[0],
            *match_opts,
            *scale,
            contexts_view(r->Ok_0@),
        ),
        r->Ok_0@.len() <= MAX_CONTEXTS,
{
    assert(is_query(stack@[0]));
    let found: Result<Vec<CoalesceContext>> = if stack.len() <= 1 {
        coalesce_single(&stack[0], match_opts, scale)
    } else {
        coalesce_multi(stack, match_opts, scale)
    };
    let contexts: Vec<CoalesceContext> = match found {
        Ok(contexts) => contexts,
        Err(e) => {
            return Err(e);
        },
    };
    let ghost v = contexts_view(contexts@);
    assert(are_contexts(stack@, *match_opts, *scale, v));
    proof {
        if stack@.len() == 1 {
            one_phrase_is_coalesced_alone(stack@, *match_opts, *scale, v, v);
        }
    }
    let mut out: Vec<CoalesceContext> = Vec::with_capacity(MAX_CONTEXTS);
    if contexts.len() > 0 {
        let max_relevance: i128 = contexts[0].relev;
        let mut sets: HashSet<u64> = HashSet::new();
        let mut done: bool = false;
        let mut i: usize = 0;
        proof {
            assert(v.take(0) =~= Seq::empty());
            assert(contexts_view(out@) =~= Seq::empty());
            assert(sets@ =~= Set::empty());
            assert(context_ok(v[0]));
        }
        while i < contexts.len()
            invariant
                i <= contexts@.len(),
                v == contexts_view(contexts@),
                contexts_ok(v),
                -CONTEXT_PENALTY <= max_relevance < RELEV_LIMIT,
                out@.len() <= MAX_CONTEXTS,
                contexts_view(out@) == selected_all(v.take(i as int), max_relevance as int).out,
                done == selected_all(v.take(i as int), max_relevance as int).done,
                !done ==> sets@ == selected_all(v.take(i as int), max_relevance as int).seen,
            decreases contexts@.len() - i,
        {
            let context: &CoalesceContext = &contexts[i];
            proof {
                assert(v[i as int] == context@);
                assert(context_ok(v[i as int]));
                assert(v.take(i + 1).drop_last() =~= v.take(i as int));
                assert(v.take(i + 1).last() == context@);
                assert(contexts_view(out@).len() == out@.len());
            }
            i += 1;
            if done {
                continue;
            }
            if out.len() >= MAX_CONTEXTS || max_relevance - context.relev >= MAX_RELEVANCE_GAP {
                done = true;
                continue;
            }
            let inserted: bool = sets.insert(context.entries[0].tmp_id as u64);
            if inserted {
                let ghost had = out@;
                let c: CoalesceContext = context.copied();
                let ghost cv = c@;
                out.push(c);
                assert(contexts_view(out@) =~= contexts_view(had).push(cv));
            } else {
                assert(sets@ =~= selected_all(v.take(i - 1), max_relevance as int).seen);
            }
        }
        assert(v.take(i as int) =~= v);
    } else {
        assert(contexts_view(out@) =~= Seq::empty());
    }
    Ok(out)
}

} // verus!
