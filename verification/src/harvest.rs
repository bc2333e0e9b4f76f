//! What the steps of a walk along a tree make of the matches of their keys: nothing that was found
//! is lost on the way to the contexts.

use vstd::prelude::*;

use crate::coalesce::{coalesce_entries, coalesce_entry, CoalesceEntry, ContextView};
use crate::decode::MatchEntry;
use crate::multi::RELEV_LIMIT;
use crate::spatial::zoomed_out;
use crate::stackable::PhrasematchSubquery;
use crate::tree::{grid_code, lies_at, made_of, made_of_all, places_at, stacked, unique_grids};
use crate::walk::{key_made, node_part, step_levels, step_made, Setting, StepView, WalkView};

verus! {

/// The matches are of the same feature at the same place.
pub open spec fn same_place(a: MatchEntry, b: MatchEntry) -> bool {
    &&& a.grid_entry.x == b.grid_entry.x
    &&& a.grid_entry.y == b.grid_entry.y
    &&& a.grid_entry.id == b.grid_entry.id
}

proof fn codes_tell_places_apart(a: MatchEntry, b: MatchEntry)
    ensures
        grid_code(a) == grid_code(b) <==> same_place(a, b),
{
}

/// The match is among the matches, and none before it is of the same feature and place.
pub open spec fn is_first_place(grids: Seq<MatchEntry>, g: MatchEntry) -> bool {
    exists|f: int|
        0 <= f < grids.len() && #[trigger] grids[f] == g && forall|h: int|
            0 <= h < f ==> !same_place(#[trigger] grids[h], g)
}

/// One of the matches is of the same feature and place.
pub open spec fn has_place(grids: Seq<MatchEntry>, g: MatchEntry) -> bool {
    exists|k: int| 0 <= k < grids.len() && same_place(#[trigger] grids[k], g)
}

/// Of every feature and place among the matches one is kept, the first, and it is kept once.
pub proof fn each_place_of_a_feature_is_kept(grids: Seq<MatchEntry>)
    ensures
        forall|i: int|
            0 <= i < grids.len() ==> has_place(unique_grids(grids), #[trigger] grids[i]),
        forall|k: int, l: int|
            0 <= k < l < unique_grids(grids).len() ==> !same_place(
                #[trigger] unique_grids(grids)[k],
                #[trigger] unique_grids(grids)[l],
            ),
        forall|k: int|
            0 <= k < unique_grids(grids).len() ==> is_first_place(
                grids,
                #[trigger] unique_grids(grids)[k],
            ),
    decreases grids.len(),
{
    if grids.len() > 0 {
        let rest = grids.drop_last();
        let n = rest.len() as int;
        let g = grids.last();
        assert(grids[n] == g);
        assert forall|i: int| 0 <= i < n implies #[trigger] rest[i] == grids[i] by {}
        each_place_of_a_feature_is_kept(rest);
        let before = unique_grids(rest);
        let after = unique_grids(grids);
        assert forall|j: int| 0 <= j < n implies (grid_code(#[trigger] grids[j]) == grid_code(g)
            <==> same_place(grids[j], g)) by {
            codes_tell_places_apart(grids[j], g);
        }
        assert forall|k: int| 0 <= k < before.len() implies #[trigger] after[k] == before[k] by {}
        assert forall|k: int| 0 <= k < before.len() implies is_first_place(
            grids,
            #[trigger] before[k],
        ) by {
            assert(is_first_place(rest, before[k]));
            let f = choose|f: int|
                0 <= f < rest.len() && #[trigger] rest[f] == before[k] && forall|h: int|
                    0 <= h < f ==> !same_place(#[trigger] rest[h], before[k]);
            assert(grids[f] == before[k]);
            assert forall|h: int| 0 <= h < f implies !same_place(
                #[trigger] grids[h],
                before[k],
            ) by {
                assert(rest[h] == grids[h]);
            }
        }
        let kept = after.len() > before.len();
        if kept {
            assert(after == before.push(g));
            assert(is_first_place(grids, g)) by {
                assert(grids[n] == g);
                assert forall|h: int| 0 <= h < n implies !same_place(#[trigger] grids[h], g) by {
                    assert(grid_code(grids[h]) != grid_code(g));
                }
            }
            assert(after[before.len() as int] == g);
            assert forall|k: int| 0 <= k < before.len() implies !same_place(
                #[trigger] before[k],
                g,
            ) by {
                assert(is_first_place(rest, before[k]));
                let f = choose|f: int|
                    0 <= f < rest.len() && #[trigger] rest[f] == before[k] && forall|h: int|
                        0 <= h < f ==> !same_place(#[trigger] rest[h], before[k]);
                assert(rest[f] == grids[f]);
            }
        }
        assert forall|k: int| 0 <= k < after.len() implies is_first_place(
            grids,
            #[trigger] after[k],
        ) by {
            if k < before.len() {
                assert(after[k] == before[k]);
            }
        }
        assert forall|k: int, l: int| 0 <= k < l < after.len() implies !same_place(
            #[trigger] after[k],
            #[trigger] after[l],
        ) by {
            assert(after[k] == before[k]);
            if l < before.len() {
                assert(after[l] == before[l]);
            }
        }
        assert forall|i: int| 0 <= i < grids.len() implies has_place(
            after,
            #[trigger] grids[i],
        ) by {
            let m = if i < n {
                i
            } else if kept {
                n
            } else {
                choose|j: int| 0 <= j < n && grid_code(#[trigger] grids[j]) == grid_code(g)
            };
            if m < n {
                assert(rest[m] == grids[m]);
                assert(has_place(before, rest[m]));
                let k = choose|k: int| 0 <= k < before.len() && same_place(
                    #[trigger] before[k],
                    rest[m],
                );
                assert(after[k] == before[k]);
                assert(same_place(after[k], grids[i]));
            } else {
                assert(same_place(after[before.len() as int], grids[i]));
            }
        }
    }
}

pub(crate) proof fn places_have(cs: Seq<ContextView>, x: u16, y: u16, n: int, p: int) -> (k: int)
    requires
        0 <= p < n <= cs.len(),
        lies_at(cs[p], x, y),
    ensures
        0 <= k < places_at(cs, x, y, n).len(),
        places_at(cs, x, y, n)[k] == p,
    decreases n,
{
    let before = places_at(cs, x, y, n - 1);
    if p == n - 1 {
        before.len() as int
    } else {
        places_have(cs, x, y, n - 1, p)
    }
}

pub(crate) proof fn made_has(
    es: Seq<CoalesceEntry>,
    prev: Option<Seq<ContextView>>,
    levels: nat,
    mask: u32,
    i: int,
    k: int,
)
    requires
        0 <= i < es.len(),
        0 <= k < made_of(es[i], prev, levels, mask).len(),
    ensures
        made_of_all(es, prev, levels, mask).contains(made_of(es[i], prev, levels, mask)[k]),
    decreases es.len(),
{
    let rest = es.drop_last();
    let before = made_of_all(rest, prev, levels, mask);
    let last = made_of(es.last(), prev, levels, mask);
    let all = made_of_all(es, prev, levels, mask);
    assert(all == before + last);
    let c = made_of(es[i], prev, levels, mask)[k];
    if i == es.len() - 1 {
        assert(all[before.len() + k] == c);
    } else {
        assert(rest[i] == es[i]);
        made_has(rest, prev, levels, mask, i, k);
        let m = choose|m: int| 0 <= m < before.len() && before[m] == c;
        assert(all[m] == c);
    }
}

/// The context is that of the parent with a match of the part in front, of the same feature and
/// place as the given one.
pub open spec fn is_stacked_on(
    c: ContextView,
    parent: ContextView,
    part: PhrasematchSubquery,
    id: u32,
    g: MatchEntry,
    kept: MatchEntry,
) -> bool {
    &&& same_place(kept, g)
    &&& c.entries.len() == parent.entries.len() + 1
    &&& c.entries[0] == coalesce_entry(kept, part, id)
    &&& forall|k: int|
        0 <= k < parent.entries.len() ==> c.entries[k + 1] == #[trigger] parent.entries[k]
    &&& c.mask == parent.mask | part.mask
    &&& c.relev == parent.relev + kept.grid_entry.relev * part.weight
}

proof fn key_stacks(
    grids: Seq<MatchEntry>,
    part: PhrasematchSubquery,
    id: u32,
    cs: Seq<ContextView>,
    levels: nat,
    i: int,
    p: int,
) -> (r: (ContextView, int))
    requires
        0 <= i < grids.len(),
        0 <= p < cs.len(),
        cs[p].entries.len() > 0,
        0 <= cs[p].relev < RELEV_LIMIT,
        lies_at(
            cs[p],
            zoomed_out(grids[i].grid_entry.x, levels),
            zoomed_out(grids[i].grid_entry.y, levels),
        ),
    ensures
        made_of_all(
            coalesce_entries(unique_grids(grids), part, id),
            Some(cs),
            levels,
            part.mask,
        ).contains(r.0),
        0 <= r.1 < grids.len(),
        is_stacked_on(r.0, cs[p], part, id, grids[i], grids[r.1]),
{
    let kept = unique_grids(grids);
    let es = coalesce_entries(kept, part, id);
    let (k, f) = kept_for(grids, i);
    let e = es[k];
    assert(e == coalesce_entry(kept[k], part, id));
    let x = zoomed_out(e.grid_entry.x, levels);
    let y = zoomed_out(e.grid_entry.y, levels);
    let q = places_have(cs, x, y, cs.len() as int, p);
    let made = made_of(e, Some(cs), levels, part.mask);
    let c = stacked(cs[p], e, part.mask);
    assert(made[q] == c);
    made_has(es, Some(cs), levels, part.mask, k, q);
    weighted_fits(kept[k], part);
    assert forall|k: int| 0 <= k < cs[p].entries.len() implies c.entries[k + 1]
        == #[trigger] cs[p].entries[k] by {}
    (c, f)
}

proof fn weighted_fits(g: MatchEntry, part: PhrasematchSubquery)
    ensures
        0 <= g.grid_entry.relev * part.weight <= 0xffff * 0xffff_ffff,
{
    let relev = g.grid_entry.relev;
    let weight = part.weight;
    assert(0 <= relev * weight <= 0xffff * 0xffff_ffff) by (nonlinear_arith)
        requires
            0 <= relev <= 0xffff,
            0 <= weight <= 0xffff_ffff,
    ;
}

/// The match that is kept for a match, among those kept and among all.
proof fn kept_for(grids: Seq<MatchEntry>, i: int) -> (r: (int, int))
    requires
        0 <= i < grids.len(),
    ensures
        0 <= r.0 < unique_grids(grids).len(),
        0 <= r.1 < grids.len(),
        unique_grids(grids)[r.0] == grids[r.1],
        same_place(grids[r.1], grids[i]),
{
    each_place_of_a_feature_is_kept(grids);
    let kept = unique_grids(grids);
    assert(has_place(kept, grids[i]));
    let k = choose|k: int| 0 <= k < kept.len() && same_place(#[trigger] kept[k], grids[i]);
    assert(is_first_place(grids, kept[k]));
    let f = choose|f: int|
        0 <= f < grids.len() && #[trigger] grids[f] == kept[k] && forall|h: int|
            0 <= h < f ==> !same_place(#[trigger] grids[h], kept[k]);
    (k, f)
}

/// Every match of a key is stacked on every context of the parent combination that lies in its
/// tile: matches are left out only where one of the same feature and place is stacked. `key` is the
/// number of the key among those of the part.
pub proof fn steps_stack_every_match(
    set: Setting,
    w: WalkView,
    s: StepView,
    key: int,
    grids: Seq<MatchEntry>,
    i: int,
    p: int,
) -> (r: (int, int))
    requires
        s.prev is Some,
        s.prev_zoom <= node_part(set.parts, s.node).store.zoom,
        0 <= key < node_part(set.parts, s.node).match_keys@.len(),
        w.cache.contains_key(node_part(set.parts, s.node).match_keys@[key].id),
        w.cache[node_part(set.parts, s.node).match_keys@[key].id] == unique_grids(grids),
        0 <= i < grids.len(),
        0 <= p < s.prev->Some_0.len(),
        s.prev->Some_0[p].entries.len() > 0,
        0 <= s.prev->Some_0[p].relev < RELEV_LIMIT,
        s.prev->Some_0[p].entries[0].grid_entry.x == zoomed_out(
            grids[i].grid_entry.x,
            (node_part(set.parts, s.node).store.zoom - s.prev_zoom) as nat,
        ),
        s.prev->Some_0[p].entries[0].grid_entry.y == zoomed_out(
            grids[i].grid_entry.y,
            (node_part(set.parts, s.node).store.zoom - s.prev_zoom) as nat,
        ),
    ensures
        ({
            let part = node_part(set.parts, s.node);
            let made = step_made(set, w, s, part.match_keys@.len() as int);
            &&& 0 <= r.0 < made.len()
            &&& 0 <= r.1 < grids.len()
            &&& is_stacked_on(
                made[r.0],
                s.prev->Some_0[p],
                part,
                part.match_keys@[key].id,
                grids[i],
                grids[r.1],
            )
        }),
{
    let part = node_part(set.parts, s.node);
    let id = part.match_keys@[key].id;
    let cs = s.prev->Some_0;
    let levels = step_levels(set, s);
    let (c, f) = key_stacks(grids, part, id, cs, levels, i, p);
    let m = step_has(set, w, s, part.match_keys@.len() as int, key, c);
    (m, f)
}

/// Every match of a key makes a context where the combination has no parent: matches are left out
/// only where one of the same feature and place makes one. `key` is the number of the key among
/// those of the part.
pub proof fn first_steps_take_every_match(
    set: Setting,
    w: WalkView,
    s: StepView,
    key: int,
    grids: Seq<MatchEntry>,
    i: int,
) -> (r: (int, int))
    requires
        s.prev is None,
        0 <= key < node_part(set.parts, s.node).match_keys@.len(),
        w.cache.contains_key(node_part(set.parts, s.node).match_keys@[key].id),
        w.cache[node_part(set.parts, s.node).match_keys@[key].id] == unique_grids(grids),
        0 <= i < grids.len(),
    ensures
        ({
            let part = node_part(set.parts, s.node);
            let made = step_made(set, w, s, part.match_keys@.len() as int);
            &&& 0 <= r.0 < made.len()
            &&& 0 <= r.1 < grids.len()
            &&& same_place(grids[r.1], grids[i])
            &&& made[r.0].entries.len() == 1
            &&& made[r.0].entries[0] == coalesce_entry(
                grids[r.1],
                part,
                part.match_keys@[key].id,
            )
            &&& made[r.0].mask == part.mask
            &&& made[r.0].relev == grids[r.1].grid_entry.relev * part.weight
        }),
{
    let part = node_part(set.parts, s.node);
    let id = part.match_keys@[key].id;
    let levels = step_levels(set, s);
    let kept = unique_grids(grids);
    let es = coalesce_entries(kept, part, id);
    let (k, f) = kept_for(grids, i);
    assert(es[k] == coalesce_entry(kept[k], part, id));
    made_has(es, s.prev, levels, part.mask, k, 0);
    let m = step_has(
        set,
        w,
        s,
        part.match_keys@.len() as int,
        key,
        made_of(es[k], s.prev, levels, part.mask)[0],
    );
    weighted_fits(kept[k], part);
    (m, f)
}

/// What a key makes is among what the step makes.
pub(crate) proof fn step_has(
    set: Setting,
    w: WalkView,
    s: StepView,
    n: int,
    key: int,
    c: ContextView,
) -> (m: int)
    requires
        0 <= key < n,
        key_made(set, w, s, node_part(set.parts, s.node).match_keys@[key]).contains(c),
    ensures
        0 <= m < step_made(set, w, s, n).len(),
        step_made(set, w, s, n)[m] == c,
    decreases n,
{
    let before = step_made(set, w, s, n - 1);
    let more = key_made(set, w, s, node_part(set.parts, s.node).match_keys@[n - 1]);
    assert(step_made(set, w, s, n) == before + more);
    if key == n - 1 {
        let k = choose|k: int| 0 <= k < more.len() && more[k] == c;
        before.len() + k
    } else {
        step_has(set, w, s, n - 1, key, c)
    }
}

} // verus!
