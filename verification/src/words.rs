//! Which words of a query the contexts of a tree cover.

use vstd::prelude::*;

use crate::coalesce::{
    coalesce_entries, coalesce_entry, single_context, CoalesceEntry, ContextView,
};
use crate::contexts::{masks_disjoint, or_masks, or_masks_disjoint};
use crate::decode::MatchEntry;
use crate::order::{in_order, in_order_exists, num_u32, set_members};
use crate::queue::{queue_holds_what_it_was_offered, queued_all};
use crate::spatial::zoomed_out;
use crate::stackable::PhrasematchSubquery;
use crate::tiles::{leaf_best_of_part, placed_lie};
use crate::tree::{
    all_penalized, leaf_contexts, leaf_states, made_of, made_of_all, penalized, places_at, stacked,
};

verus! {

/// The mask of the context tells the words that its entries cover, and no two of them cover the
/// same word.
pub open spec fn is_apart(c: ContextView) -> bool {
    c.mask == or_masks(c.entries) && masks_disjoint(c.entries)
}

/// The entries of each context cover different words, and its mask tells which.
pub open spec fn all_apart(cs: Seq<ContextView>) -> bool {
    forall|i: int| 0 <= i < cs.len() ==> is_apart(#[trigger] cs[i])
}

/// The contexts cover the words of the mask, each word once.
pub open spec fn all_cover(cs: Seq<ContextView>, mask: u32) -> bool {
    forall|i: int| 0 <= i < cs.len() ==> is_apart(#[trigger] cs[i]) && cs[i].mask == mask
}

/// The contexts cover the words of `all` that `more` does not, each word once.
pub open spec fn all_cover_rest(cs: Seq<ContextView>, all: u32, more: u32) -> bool {
    forall|i: int|
        0 <= i < cs.len() ==> is_apart(#[trigger] cs[i]) && cs[i].mask & more == 0 && cs[i].mask
            | more == all
}

/// A combination covers the words of `all`, each once: a part that covers those of `more`, stacked
/// on the contexts of the parent combination, if it has one.
pub open spec fn is_cover(prev: Option<Seq<ContextView>>, all: u32, more: u32) -> bool {
    match prev {
        None => all == more,
        Some(cs) => all_cover_rest(cs, all, more),
    }
}

pub(crate) proof fn cover_grows(cs: Seq<ContextView>, mask: u32, all: u32, more: u32)
    requires
        all_cover(cs, mask),
        mask & more == 0,
        all == mask | more,
    ensures
        is_cover(Some(cs), all, more),
{
}

pub(crate) proof fn cover_starts(mask: u32)
    ensures
        0 | mask == mask,
{
    assert(0 | mask == mask) by (bit_vector);
}

pub(crate) proof fn or_masks_front(e: CoalesceEntry, es: Seq<CoalesceEntry>)
    ensures
        or_masks(seq![e] + es) == or_masks(es) | e.mask,
    decreases es.len(),
{
    let all = seq![e] + es;
    let m = e.mask;
    if es.len() == 0 {
        assert(all.drop_last() =~= Seq::empty());
        assert(or_masks(Seq::<CoalesceEntry>::empty()) == 0);
        assert(all.last() == e);
    } else {
        assert(all.drop_last() =~= seq![e] + es.drop_last());
        or_masks_front(e, es.drop_last());
        let a = or_masks(es.drop_last());
        let b = es.last().mask;
        assert((a | m) | b == (a | b) | m) by (bit_vector);
    }
}

proof fn alone_covers(e: CoalesceEntry)
    ensures
        is_apart(single_context(e, e.mask)),
{
    or_masks_front(e, Seq::empty());
    assert(seq![e] + Seq::<CoalesceEntry>::empty() =~= seq![e]);
    cover_starts(e.mask);
}

proof fn stacked_covers(c: ContextView, e: CoalesceEntry)
    requires
        is_apart(c),
        c.mask & e.mask == 0,
    ensures
        is_apart(stacked(c, e, e.mask)),
{
    let all = seq![e] + c.entries;
    or_masks_front(e, c.entries);
    or_masks_disjoint(c.entries, e.mask);
    assert forall|i: int, j: int| 0 <= i < j < all.len() implies (#[trigger] all[i]).mask & (
    #[trigger] all[j]).mask == 0 by {
        assert(all[j] == c.entries[j - 1]);
        if i == 0 {
            let a = e.mask;
            let b = c.entries[j - 1].mask;
            assert(b & a == 0 ==> a & b == 0) by (bit_vector);
        } else {
            assert(all[i] == c.entries[i - 1]);
        }
    }
}

proof fn made_covers(
    e: CoalesceEntry,
    prev: Option<Seq<ContextView>>,
    levels: nat,
    mask: u32,
    all: u32,
)
    requires
        e.mask == mask,
        is_cover(prev, all, mask),
    ensures
        all_cover(made_of(e, prev, levels, mask), all),
{
    let made = made_of(e, prev, levels, mask);
    match prev {
        None => {
            alone_covers(e);
        },
        Some(cs) => {
            let x = zoomed_out(e.grid_entry.x, levels);
            let y = zoomed_out(e.grid_entry.y, levels);
            let places = places_at(cs, x, y, cs.len() as int);
            assert forall|i: int| 0 <= i < made.len() implies is_apart(#[trigger] made[i])
                && made[i].mask == all by {
                placed_lie(cs, x, y, cs.len() as int, i);
                let c = cs[places[i]];
                stacked_covers(c, e);
                assert(made[i] == stacked(c, e, mask));
            }
        },
    }
}

/// What is stacked on contexts covers their words and its own, each word once.
pub(crate) proof fn made_all_cover(
    grids: Seq<MatchEntry>,
    part: PhrasematchSubquery,
    id: u32,
    prev: Option<Seq<ContextView>>,
    levels: nat,
    all: u32,
)
    requires
        is_cover(prev, all, part.mask),
    ensures
        all_cover(
            made_of_all(coalesce_entries(grids, part, id), prev, levels, part.mask),
            all,
        ),
    decreases grids.len(),
{
    let es = coalesce_entries(grids, part, id);
    if grids.len() > 0 {
        let rest = coalesce_entries(grids.drop_last(), part, id);
        assert(es.drop_last() =~= rest);
        assert(es.last() == coalesce_entry(grids.last(), part, id));
        made_all_cover(grids.drop_last(), part, id, prev, levels, all);
        made_covers(es.last(), prev, levels, part.mask, all);
        both_cover(
            made_of_all(rest, prev, levels, part.mask),
            made_of(es.last(), prev, levels, part.mask),
            all,
        );
    }
}

pub(crate) proof fn both_cover(a: Seq<ContextView>, b: Seq<ContextView>, mask: u32)
    requires
        all_cover(a, mask),
        all_cover(b, mask),
    ensures
        all_cover(a + b, mask),
{
    assert forall|i: int| 0 <= i < (a + b).len() implies is_apart(#[trigger] (a + b)[i])
        && (a + b)[i].mask == mask by {
        if i < a.len() {
            assert((a + b)[i] == a[i]);
        } else {
            assert((a + b)[i] == b[i - a.len()]);
        }
    }
}

/// The contexts cover the same words with what is taken off less natural ones.
pub(crate) proof fn penalized_are_apart(cs: Seq<ContextView>, mask: u32)
    requires
        all_cover(cs, mask),
    ensures
        all_apart(cs),
        all_apart(all_penalized(cs)),
{
    assert forall|i: int| 0 <= i < cs.len() implies is_apart(#[trigger] all_penalized(cs)[i]) by {
        assert(all_penalized(cs)[i] == penalized(cs[i]));
        assert(is_apart(cs[i]));
    }
}

/// The contexts of a single phrase cover its words.
pub(crate) proof fn leaves_cover(grids: Seq<MatchEntry>, part: PhrasematchSubquery, id: u32)
    ensures
        all_apart(leaf_contexts(grids, part, id)),
{
    let es = coalesce_entries(grids, part, id);
    let best = leaf_states(es).best;
    let ids = in_order(best.dom(), num_u32());
    let cs = leaf_contexts(grids, part, id);
    leaf_best_of_part(es);
    in_order_exists(best.dom(), num_u32());
    assert forall|i: int| 0 <= i < cs.len() implies is_apart(#[trigger] cs[i]) by {
        assert(ids.contains(ids[i]));
        set_members(ids, ids[i]);
        assert(best.contains_key(ids[i]));
        let k = choose|k: int| 0 <= k < es.len() && es[k] == best[ids[i]];
        assert(es[k] == coalesce_entry(grids[k], part, id));
        alone_covers(best[ids[i]]);
    }
}

pub(crate) proof fn queued_are_apart(items: Seq<ContextView>, cs: Seq<ContextView>, max: nat)
    requires
        items.len() <= max <= usize::MAX,
        all_apart(items),
        all_apart(cs),
    ensures
        all_apart(queued_all(items, cs, max)),
{
    queue_holds_what_it_was_offered(items, cs, max, |c: ContextView| is_apart(c));
}

} // verus!
