//! What a walk along a stackable tree finds: matches that lie in one tile, along a way through the
//! tree, are in the answer, and so are the features of parts that stand alone.

use vstd::prelude::*;

use crate::agreement::queries_agree;
use crate::arena::StackableNode;
use crate::best::queries_find_no_more;
use crate::coalesce::{
    coalesce_entries, coalesce_entry, context_rank, single_context, CoalesceEntry, ContextView,
    MAX_CONTEXTS, MAX_ENTRY_RELEV, MAX_GRIDS_PER_PHRASE, SINGLE_FETCH,
};
use crate::combinations::{
    combined_parts_go_together, node_has_part, nodes_are_combinations, trail_parts,
};
use crate::common::MatchOpts;
use crate::contexts::{or_masks, phrase_relev_fits};
use crate::decode::{meter_of, MatchEntry};
use crate::harvest::{
    each_place_of_a_feature_is_kept, has_place, is_first_place, made_has, places_have, same_place,
    step_has,
};
use crate::leaves::features_of_a_leaf_have_their_contexts;
use crate::meeting::zoomed_out_by_none;
use crate::order::{in_order, in_order_exists, num_u32, place_in, set_members};
use crate::outside::{has_point_in, NodeIndex};
use crate::promise::keys_keep_pending;
use crate::queue::{
    lowest_place_ok, queue_holds_what_it_was_offered, queue_is_complete, queue_keeps_the_best,
    queued_all,
};
use crate::quota::{charged, ones};
use crate::rank::{extremes_exist, highest, rank_below, RankKey};
use crate::spatial::{
    all_edges, augmented, box_at_zoom, in_box, maybe_edges, opts_at_zoom, zoomed_out,
    zooming_out_keeps_containment, Measure, OptsView,
};
use crate::stackable::{
    is_stack_tree, part_relev, MatchKeyWithId, PhrasematchSubquery, StackableTree,
};
use crate::store::HIGH_ZOOM;
use crate::tree::{
    all_penalized, leaf_contexts, leaf_states, lies_at, made_of, made_of_all, penalized, relev_sum,
    relev_sum_front, stacked, top_relev, unique_grids, TREE_CONTEXTS,
};
use crate::walk::{
    all_fetched, answers_fetch, are_fetch_answers, boxes_at, chunk_done, ends_in, fetched, is_move,
    is_single, is_walk, is_walk_answer, is_wide, key_code, key_made, key_opts, key_planned,
    key_request, keys_planned, new_step, node_part, overlaps, pending_ok, pending_ok_push,
    plan_made, plan_start, planned, points_of, setting_of, step_done, step_levels, step_made,
    step_planned, step_rank, step_results, steps_done, walk_empty, walk_start, with_children,
    with_roots, with_step, FetchView, PlanView, Setting, StepView, WalkView,
};
use crate::words::or_masks_front;

verus! {

// ---------------------------------------------------------------------------------------------
// Ways through a tree
// ---------------------------------------------------------------------------------------------

/// A way through a tree, from a child of the root on, with one match for each of its nodes.
pub struct Way {
    pub nodes: Seq<NodeIndex>,
    /// The numbers of the keys, among those of the parts
    pub keys: Seq<int>,
    /// What the lookups of the keys are answered with
    pub lists: Seq<Seq<MatchEntry>>,
    /// The places of the matches
    pub picks: Seq<int>,
}

/// A node of the way.
pub open spec fn way_node(set: Setting, way: Way, i: int) -> StackableNode {
    set.nodes[way.nodes[i]]
}

/// The part of the query that a node of the way adds.
pub open spec fn way_part<'a>(set: Setting<'a>, way: Way, i: int) -> PhrasematchSubquery<'a> {
    set.parts[way_node(set, way, i).phrasematch->Some_0 as int]
}

/// The key that is looked up for a node of the way.
pub open spec fn way_key(set: Setting, way: Way, i: int) -> MatchKeyWithId {
    way_part(set, way, i).match_keys@[way.keys[i]]
}

/// The match for a node of the way.
pub open spec fn way_match(way: Way, i: int) -> MatchEntry {
    way.lists[i][way.picks[i]]
}

/// The entry that the match for a node of the way makes.
pub open spec fn way_entry(set: Setting, way: Way, i: int) -> CoalesceEntry {
    coalesce_entry(way_match(way, i), way_part(set, way, i), way_key(set, way, i).id)
}

/// A step of a node has these options.
spec fn step_opts(set: Setting, node: StackableNode) -> OptsView {
    opts_at_zoom(set.opts, node_part(set.parts, node).store.zoom)
}

/// The lookup of a key of a part, whatever is stacked on it.
pub open spec fn lookup(set: Setting, part: usize, group: MatchKeyWithId) -> FetchView {
    let opts = opts_at_zoom(set.opts, set.parts[part as int].store.zoom);
    FetchView {
        key_id: group.id,
        part,
        key: group.key,
        opts: if group.nearby_only || group.bounds is Some {
            augmented(
                opts,
                group.nearby_only,
                maybe_edges(group.bounds),
            )
        } else {
            opts
        },
        single: false,
    }
}

/// No quota stands against the lookup: the index is not slow, or only what is near is wanted, and
/// the key is not a range for a single word.
pub open spec fn is_free(part: PhrasematchSubquery, group: MatchKeyWithId) -> bool {
    &&& part.store.zoom < HIGH_ZOOM || group.nearby_only
    &&& !is_wide(group.key.match_phrase) || ones(part.mask as nat) != 1
}

/// The way leads from a child of the root from child to child; its keys were looked up; and the
/// matches lie in one tile: each in the tile of the one before, at its zoom level. Each match is the
/// first of its feature and place, and lies in a box of its index.
#[verifier::opaque]
pub open spec fn is_way<F: Fn(u64, u16, u64, u8) -> Measure>(
    set: Setting,
    scale: F,
    root: Seq<NodeIndex>,
    way: Way,
) -> bool {
    &&& way.nodes.len() > 1
    &&& way.keys.len() == way.nodes.len()
    &&& way.lists.len() == way.nodes.len()
    &&& way.picks.len() == way.nodes.len()
    &&& root.contains(way.nodes[0])
    &&& forall|i: int|
        0 <= i < way.nodes.len() ==> set.nodes.contains_key(#[trigger] way.nodes[i])
    &&& forall|i: int, j: int|
        #![trigger way.nodes[i], way.nodes[j]]
        0 <= i < way.nodes.len() && j == i + 1 && j < way.nodes.len() ==> way_node(
            set,
            way,
            i,
        ).children@.contains(way.nodes[j])
    &&& forall|i: int|
        0 <= i < way.nodes.len() ==> 0 <= #[trigger] way.keys[i] < way_part(
            set,
            way,
            i,
        ).match_keys@.len() && is_free(way_part(set, way, i), way_key(set, way, i))
    &&& forall|i: int|
        0 <= i < way.nodes.len() ==> answers_fetch(
            set,
            scale,
            lookup(set, way_node(set, way, i).phrasematch->Some_0, way_key(set, way, i)),
            #[trigger] way.lists[i],
        )
    &&& forall|i: int|
        0 <= i < way.nodes.len() ==> 0 <= #[trigger] way.picks[i] < way.lists[i].len()
    &&& forall|i: int, h: int|
        #![trigger way.lists[i][h]]
        0 <= i < way.nodes.len() && 0 <= h < way.picks[i] ==> !same_place(
            way.lists[i][h],
            way_match(way, i),
        )
    &&& forall|i: int, j: int|
        #![trigger way.picks[i], way.picks[j]]
        0 <= i < way.nodes.len() && j == i + 1 && j < way.nodes.len() ==> meets(set, way, i, j)
}

/// The match for a node lies in the tile of that for the node before, and in a box of its index.
pub open spec fn meets(set: Setting, way: Way, i: int, j: int) -> bool {
    let a = way_match(way, i).grid_entry;
    let b = way_match(way, j).grid_entry;
    let levels = (way_part(set, way, j).store.zoom - way_part(set, way, i).store.zoom) as nat;
    &&& way_part(set, way, i).store.zoom <= way_part(set, way, j).store.zoom
    &&& zoomed_out(b.x, levels) == a.x
    &&& zoomed_out(b.y, levels) == a.y
    &&& exists|k: int|
        0 <= k < way_part(set, way, j).store.bboxes@.len() && in_box(
            #[trigger] all_edges(way_part(set, way, j).store.bboxes@)[k],
            b.x,
            b.y,
        )
}

/// No two keys of the query have the same number.
#[verifier::opaque]
pub open spec fn keys_differ(parts: Seq<PhrasematchSubquery>) -> bool {
    forall|p: int, k: int, q: int, l: int|
        #![trigger parts[p].match_keys@[k], parts[q].match_keys@[l]]
        0 <= p < parts.len() && 0 <= k < parts[p].match_keys@.len() && 0 <= q < parts.len() && 0
            <= l < parts[q].match_keys@.len() && parts[p].match_keys@[k].id
            == parts[q].match_keys@[l].id ==> p == q && k == l
}

/// The context of the first matches of the way, up to that for node `j`.
spec fn chain(set: Setting, way: Way, j: int) -> ContextView
    decreases j,
{
    if j <= 0 {
        single_context(way_entry(set, way, 0), way_part(set, way, 0).mask)
    } else {
        stacked(chain(set, way, j - 1), way_entry(set, way, j), way_part(set, way, j).mask)
    }
}

/// Every node adds a part of the query.
spec fn nodes_have_parts(set: Setting) -> bool {
    forall|i: NodeIndex|
        #![trigger set.nodes[i]]
        set.nodes.contains_key(i) ==> set.nodes[i].phrasematch is Some
            && set.nodes[i].phrasematch->Some_0 < set.parts.len()
}

// ---------------------------------------------------------------------------------------------
// Queues with room
// ---------------------------------------------------------------------------------------------

spec fn begins<A>(a: Seq<A>, b: Seq<A>) -> bool {
    a.len() <= b.len() && forall|i: int| 0 <= i < a.len() ==> #[trigger] b[i] == a[i]
}

proof fn begins_chain<A>(a: Seq<A>, b: Seq<A>, c: Seq<A>)
    requires
        begins(a, b),
        begins(b, c),
    ensures
        begins(a, c),
{
    assert forall|i: int| 0 <= i < a.len() implies #[trigger] c[i] == a[i] by {
        assert(b[i] == a[i]);
    }
}

proof fn queue_grows(items: Seq<ContextView>, cs: Seq<ContextView>, max: nat)
    requires
        items.len() <= max <= usize::MAX,
    ensures
        items.len() <= queued_all(items, cs, max).len() <= max,
        queued_all(items, cs, max).len() < max ==> queued_all(items, cs, max) == items + cs,
    decreases cs.len(),
{
    if cs.len() == 0 {
        assert(items + cs =~= items);
    } else {
        queue_grows(items, cs.drop_last(), max);
        let before = queued_all(items, cs.drop_last(), max);
        if before.len() > 0 {
            lowest_place_ok(before);
        }
        assert(items + cs =~= (items + cs.drop_last()).push(cs.last()));
    }
}

// ---------------------------------------------------------------------------------------------
// Plans
// ---------------------------------------------------------------------------------------------

spec fn fetch_has(fetches: Seq<FetchView>, id: u32) -> bool {
    exists|i: int|
        0 <= i < fetches.len() && (#[trigger] fetches[i]).key_id == id && !fetches[i].single
}

/// What is to be looked up is among the lookups.
spec fn keys_known(p: PlanView) -> bool {
    forall|id: u32| #[trigger] p.keys.contains(key_code(id, false)) ==> fetch_has(p.fetches, id)
}

/// The lookup is for a key of a step.
spec fn is_from(set: Setting, w: WalkView, f: FetchView) -> bool {
    exists|slot: int, k: int|
        #![trigger w.steps[slot], node_part(set.parts, w.steps[slot].node).match_keys@[k]]
        {
            let s = w.steps[slot];
            let group = node_part(set.parts, s.node).match_keys@[k];
            &&& 0 <= slot < w.steps.len()
            &&& 0 <= k < node_part(set.parts, s.node).match_keys@.len()
            &&& f == (FetchView {
                key_id: group.id,
                part: s.node.phrasematch->Some_0,
                key: group.key,
                opts: key_opts(s, group),
                single: is_single(s),
            })
        }
}

spec fn all_from(set: Setting, w: WalkView, fetches: Seq<FetchView>) -> bool {
    forall|i: int| 0 <= i < fetches.len() ==> is_from(set, w, #[trigger] fetches[i])
}

spec fn is_covered(w: WalkView, p: PlanView, id: u32) -> bool {
    w.cache.contains_key(id) || fetch_has(p.fetches, id)
}

proof fn key_is_planned(set: Setting, w: WalkView, slot: int, p: PlanView, k: int)
    requires
        0 <= slot < w.steps.len(),
        0 <= k < node_part(set.parts, w.steps[slot].node).match_keys@.len(),
        keys_known(p),
        all_from(set, w, p.fetches),
    ensures
        ({
            let s = w.steps[slot];
            let part = node_part(set.parts, s.node);
            let group = part.match_keys@[k];
            let q = key_planned(set, w, s, p, group);
            &&& keys_known(q)
            &&& all_from(set, w, q.fetches)
            &&& begins(p.fetches, q.fetches)
            &&& q.pending == p.pending
            &&& q.chunk == p.chunk
            &&& q.complete == p.complete
            &&& !is_single(s) && is_free(part, group) ==> is_covered(w, q, group.id)
        }),
{
    let s = w.steps[slot];
    let part = node_part(set.parts, s.node);
    let group = part.match_keys@[k];
    let q = key_planned(set, w, s, p, group);
    let single = is_single(s);
    let code = key_code(group.id, single);
    if q.fetches.len() > p.fetches.len() {
        let n = p.fetches.len() as int;
        let f = q.fetches[n];
        assert(q.fetches == p.fetches.push(f));
        assert(is_from(set, w, f)) by {
            assert(w.steps[slot] == s && node_part(set.parts, w.steps[slot].node).match_keys@[k]
                == group);
        }
        assert forall|i: int| 0 <= i < q.fetches.len() implies is_from(
            set,
            w,
            #[trigger] q.fetches[i],
        ) by {
            if i < n {
                assert(q.fetches[i] == p.fetches[i]);
            }
        }
        assert forall|id: u32| #[trigger] q.keys.contains(key_code(id, false)) implies fetch_has(
            q.fetches,
            id,
        ) by {
            if p.keys.contains(key_code(id, false)) {
                let i = choose|i: int|
                    0 <= i < p.fetches.len() && (#[trigger] p.fetches[i]).key_id == id
                        && !p.fetches[i].single;
                assert(q.fetches[i] == p.fetches[i]);
            } else {
                assert(code == key_code(id, false));
                assert(group.id == id && !single);
                assert(q.fetches[n].key_id == id);
            }
        }
        if !single {
            assert(q.fetches[n].key_id == group.id && !q.fetches[n].single);
        }
    } else {
        assert(q.fetches == p.fetches && q.keys == p.keys);
        if !single && is_free(part, group) && !w.cache.contains_key(group.id) {
            let r = key_request(set, w, s, group, p.keys);
            assert(charged(p.quotas, r).1);
            assert(p.keys.contains(key_code(group.id, false)));
        }
    }
}

proof fn keys_are_planned(set: Setting, w: WalkView, slot: int, p: PlanView, n: int)
    requires
        0 <= slot < w.steps.len(),
        0 <= n <= node_part(set.parts, w.steps[slot].node).match_keys@.len(),
        keys_known(p),
        all_from(set, w, p.fetches),
    ensures
        ({
            let s = w.steps[slot];
            let part = node_part(set.parts, s.node);
            let q = keys_planned(set, w, s, p, n);
            &&& keys_known(q)
            &&& all_from(set, w, q.fetches)
            &&& begins(p.fetches, q.fetches)
            &&& q.pending == p.pending
            &&& q.chunk == p.chunk
            &&& q.complete == p.complete
            &&& forall|k: int|
                #![trigger part.match_keys@[k]]
                0 <= k < n && !is_single(s) && is_free(part, part.match_keys@[k]) ==> is_covered(
                    w,
                    q,
                    part.match_keys@[k].id,
                )
        }),
    decreases n,
{
    let s = w.steps[slot];
    let part = node_part(set.parts, s.node);
    if n > 0 {
        keys_are_planned(set, w, slot, p, n - 1);
        let mid = keys_planned(set, w, s, p, n - 1);
        key_is_planned(set, w, slot, mid, n - 1);
        let q = keys_planned(set, w, s, p, n);
        begins_chain(p.fetches, mid.fetches, q.fetches);
        assert forall|k: int| #![trigger part.match_keys@[k]]
            0 <= k < n && !is_single(s) && is_free(part, part.match_keys@[k]) implies is_covered(
            w,
            q,
            part.match_keys@[k].id,
        ) by {
            if k < n - 1 {
                cover_stays(w, mid, q, part.match_keys@[k].id);
            }
        }
    }
}

proof fn cover_stays(w: WalkView, p: PlanView, q: PlanView, id: u32)
    requires
        is_covered(w, p, id),
        begins(p.fetches, q.fetches),
    ensures
        is_covered(w, q, id),
{
    if !w.cache.contains_key(id) {
        let i = choose|i: int|
            0 <= i < p.fetches.len() && (#[trigger] p.fetches[i]).key_id == id
                && !p.fetches[i].single;
        assert(q.fetches[i] == p.fetches[i]);
    }
}

/// The step at the slot is still pending, or it is in the chunk and its key is looked up.
spec fn is_taken_care_of(
    set: Setting,
    w: WalkView,
    p: PlanView,
    slot: usize,
    id: u32,
) -> bool {
    p.pending.count(step_rank(set, w.steps[slot as int], slot as int)) > 0 || (p.chunk.contains(
        slot,
    ) && is_covered(w, p, id))
}

spec fn slots_exist(w: WalkView, chunk: Seq<usize>) -> bool {
    forall|i: int| 0 <= i < chunk.len() ==> (#[trigger] chunk[i]) < w.steps.len()
}

proof fn plans_take_care(set: Setting, w: WalkView, p: PlanView, slot: usize, key: int)
    requires
        slot < w.steps.len() <= usize::MAX,
        !is_single(w.steps[slot as int]),
        0 <= key < node_part(set.parts, w.steps[slot as int].node).match_keys@.len(),
        is_free(
            node_part(set.parts, w.steps[slot as int].node),
            node_part(set.parts, w.steps[slot as int].node).match_keys@[key],
        ),
        w.queue.len() < TREE_CONTEXTS,
        keys_known(p),
        all_from(set, w, p.fetches),
        pending_ok(set, w.steps, p.pending),
        !p.complete,
        slots_exist(w, p.chunk),
        is_taken_care_of(
            set,
            w,
            p,
            slot,
            node_part(set.parts, w.steps[slot as int].node).match_keys@[key].id,
        ),
    ensures
        ({
            let q = planned(set, w, p);
            &&& keys_known(q)
            &&& all_from(set, w, q.fetches)
            &&& pending_ok(set, w.steps, q.pending)
            &&& !q.complete
            &&& slots_exist(w, q.chunk)
            &&& is_taken_care_of(
                set,
                w,
                q,
                slot,
                node_part(set.parts, w.steps[slot as int].node).match_keys@[key].id,
            )
        }),
    decreases p.pending.len(),
{
    let ours = w.steps[slot as int];
    let id = node_part(set.parts, ours.node).match_keys@[key].id;
    let rank = step_rank(set, ours, slot as int);
    if !plan_made(p) {
        extremes_exist(p.pending);
        let k = highest(p.pending);
        assert(p.pending.count(k) > 0);
        let at = k.6;
        let s = w.steps[at as int];
        let taken = PlanView { pending: p.pending.remove(k), ..p };
        let n = node_part(set.parts, s.node).match_keys@.len() as int;
        keys_are_planned(set, w, at as int, taken, n);
        let mid = keys_planned(set, w, s, taken, n);
        let q = step_planned(set, w, p);
        assert(q.pending == p.pending.remove(k));
        assert(q.pending.len() < p.pending.len());
        assert(pending_ok(set, w.steps, q.pending)) by {
            assert forall|o: RankKey| #[trigger] q.pending.count(o) > 0 implies q.pending.count(o)
                == 1 && o.6 < w.steps.len() && o == step_rank(
                set,
                w.steps[o.6 as int],
                o.6 as int,
            ) by {
                assert(p.pending.count(o) > 0);
            }
        }
        assert(begins(p.fetches, q.fetches));
        assert(begins(p.chunk, q.chunk));
        assert forall|i: int| 0 <= i < q.chunk.len() implies (#[trigger] q.chunk[i])
            < w.steps.len() by {
            if i < p.chunk.len() {
                assert(q.chunk[i] == p.chunk[i]);
            }
        }
        if p.chunk.contains(slot) {
            let i = choose|i: int| 0 <= i < p.chunk.len() && p.chunk[i] == slot;
            assert(q.chunk[i] == slot);
            if is_covered(w, p, id) {
                cover_stays(w, p, q, id);
            }
        }
        if p.pending.count(rank) > 0 {
            if k == rank {
                assert(at == slot);
                assert(q.chunk == mid.chunk.push(slot));
                assert(q.chunk[mid.chunk.len() as int] == slot);
                assert(is_covered(w, mid, id));
                cover_stays(w, mid, q, id);
            } else {
                assert(q.pending.count(rank) > 0);
            }
        }
        plans_take_care(set, w, q, slot, key);
    }
}

// ---------------------------------------------------------------------------------------------
// Steps
// ---------------------------------------------------------------------------------------------

/// The walk goes on from `a` to `b`: no step is lost, and the contexts so far stay in the queue as
/// long as this has room.
spec fn goes_on(a: WalkView, b: WalkView) -> bool {
    &&& begins(a.steps, b.steps)
    &&& forall|k: RankKey| #[trigger] b.pending.count(k) >= a.pending.count(k)
    &&& b.cache == a.cache
    &&& b.complete == a.complete
    &&& a.queue.len() <= b.queue.len()
    &&& b.queue.len() < TREE_CONTEXTS ==> begins(a.queue, b.queue)
    &&& a.too_many ==> b.too_many
}

proof fn goes_on_chain(a: WalkView, b: WalkView, c: WalkView)
    requires
        goes_on(a, b),
        goes_on(b, c),
    ensures
        goes_on(a, c),
{
    begins_chain(a.steps, b.steps, c.steps);
    assert forall|k: RankKey| #[trigger] c.pending.count(k) >= a.pending.count(k) by {
        assert(b.pending.count(k) >= a.pending.count(k));
    }
    if c.queue.len() < TREE_CONTEXTS {
        begins_chain(a.queue, b.queue, c.queue);
    }
}

/// The steps have the options of their indexes, and their nodes are nodes of the tree.
spec fn steps_canonical(set: Setting, steps: Seq<StepView>) -> bool {
    forall|i: int|
        0 <= i < steps.len() ==> (#[trigger] steps[i]).opts == step_opts(set, steps[i].node)
            && steps[i].node.phrasematch is Some && steps[i].node.phrasematch->Some_0
            < set.parts.len()
}

spec fn in_order_so_far(set: Setting, w: WalkView) -> bool {
    &&& steps_canonical(set, w.steps)
    &&& pending_ok(set, w.steps, w.pending)
    &&& w.queue.len() <= TREE_CONTEXTS
}

proof fn step_joins(
    set: Setting,
    w: WalkView,
    node: StackableNode,
    prev: Option<Seq<ContextView>>,
    prev_zoom: u16,
    possible: int,
)
    requires
        in_order_so_far(set, w),
        node.phrasematch is Some,
        node.phrasematch->Some_0 < set.parts.len(),
        w.steps.len() < usize::MAX,
    ensures
        ({
            let s = new_step(set, node, prev, prev_zoom, possible);
            let after = with_step(set, w, s);
            &&& in_order_so_far(set, after)
            &&& goes_on(w, after)
            &&& after.queue == w.queue
            &&& after.too_many == w.too_many
            &&& after.steps.len() == w.steps.len() + 1
            &&& after.steps[w.steps.len() as int] == s
            &&& after.pending.count(step_rank(set, s, w.steps.len() as int)) > 0
        }),
{
    let s = new_step(set, node, prev, prev_zoom, possible);
    pending_ok_push(set, w.steps, w.pending, s);
    let after = with_step(set, w, s);
    assert forall|i: int| 0 <= i < after.steps.len() implies (#[trigger] after.steps[i]).opts
        == step_opts(set, after.steps[i].node) && after.steps[i].node.phrasematch is Some
        && after.steps[i].node.phrasematch->Some_0 < set.parts.len() by {
        if i < w.steps.len() {
            assert(after.steps[i] == w.steps[i]);
        }
    }
}

/// A step of the node, with these contexts to be stacked on, is pending.
spec fn waits(
    set: Setting,
    w: WalkView,
    node: StackableNode,
    prev: Option<Seq<ContextView>>,
    prev_zoom: u16,
    slot: int,
) -> bool {
    &&& 0 <= slot < w.steps.len()
    &&& w.steps[slot].node == node
    &&& w.steps[slot].prev == prev
    &&& w.steps[slot].prev_zoom == prev_zoom
    &&& w.pending.count(step_rank(set, w.steps[slot], slot)) > 0
}

proof fn waits_on(
    set: Setting,
    a: WalkView,
    b: WalkView,
    node: StackableNode,
    prev: Option<Seq<ContextView>>,
    prev_zoom: u16,
    slot: int,
)
    requires
        waits(set, a, node, prev, prev_zoom, slot),
        begins(a.steps, b.steps),
        forall|k: RankKey| #[trigger] b.pending.count(k) >= a.pending.count(k),
    ensures
        waits(set, b, node, prev, prev_zoom, slot),
{
    assert(b.steps[slot] == a.steps[slot]);
    assert(b.pending.count(step_rank(set, a.steps[slot], slot)) >= a.pending.count(
        step_rank(set, a.steps[slot], slot),
    ));
}

/// The steps of the children go on the list: each child whose boxes have one of the contexts waits.
proof fn children_join(
    set: Setting,
    w: WalkView,
    s: StepView,
    state: Seq<ContextView>,
    relev: int,
    n: int,
) -> (slots: Seq<int>)
    requires
        in_order_so_far(set, w),
        nodes_have_parts(set),
        0 <= n <= s.node.children@.len(),
        with_children(set, w, s, state, relev, n).steps.len() <= usize::MAX,
    ensures
        ({
            let after = with_children(set, w, s, state, relev, n);
            let zoom = node_part(set.parts, s.node).store.zoom;
            &&& in_order_so_far(set, after)
            &&& goes_on(w, after)
            &&& after.queue == w.queue
            &&& after.too_many == w.too_many
            &&& slots.len() == n
            &&& forall|c: int|
                #![trigger slots[c]]
                0 <= c < n && set.nodes.contains_key(s.node.children@[c]) && overlaps(
                    state,
                    boxes_at(node_part(set.parts, set.nodes[s.node.children@[c]]), zoom),
                ) ==> waits(
                    set,
                    after,
                    set.nodes[s.node.children@[c]],
                    Some(state),
                    zoom,
                    slots[c],
                )
        }),
    decreases n,
{
    if n <= 0 {
        Seq::empty()
    } else {
        let mid = with_children(set, w, s, state, relev, n - 1);
        let after = with_children(set, w, s, state, relev, n);
        let zoom = node_part(set.parts, s.node).store.zoom;
        let index = s.node.children@[n - 1];
        let child = set.nodes[index];
        assert(mid.steps.len() <= after.steps.len());
        let slots = children_join(set, w, s, state, relev, n - 1);
        let fits = set.nodes.contains_key(index) && overlaps(
            state,
            boxes_at(node_part(set.parts, child), zoom),
        );
        if fits {
            step_joins(
                set,
                mid,
                child,
                Some(state),
                zoom,
                relev + part_relev(set.parts, child.phrasematch->Some_0),
            );
        }
        goes_on_chain(w, mid, after);
        let more = slots.push(mid.steps.len() as int);
        assert forall|c: int| #![trigger more[c]]
            0 <= c < n && set.nodes.contains_key(s.node.children@[c]) && overlaps(
                state,
                boxes_at(node_part(set.parts, set.nodes[s.node.children@[c]]), zoom),
            ) implies waits(
            set,
            after,
            set.nodes[s.node.children@[c]],
            Some(state),
            zoom,
            more[c],
        ) by {
            if c < n - 1 {
                assert(more[c] == slots[c]);
                waits_on(
                    set,
                    mid,
                    after,
                    set.nodes[s.node.children@[c]],
                    Some(state),
                    zoom,
                    slots[c],
                );
            }
        }
        more
    }
}

/// What doing a step leaves as it is.
proof fn step_goes_on(set: Setting, w: WalkView, slot: usize)
    requires
        in_order_so_far(set, w),
        nodes_have_parts(set),
        slot < w.steps.len(),
        step_done(set, w, slot).steps.len() <= usize::MAX,
    ensures
        in_order_so_far(set, step_done(set, w, slot)),
        goes_on(w, step_done(set, w, slot)),
{
    let s = w.steps[slot as int];
    let part = node_part(set.parts, s.node);
    let keys = part.match_keys@.len() as int;
    let made = step_made(set, w, s, keys);
    let results = step_results(set, w, s, keys);
    let n = s.node.children@.len() as int;
    let after = step_done(set, w, slot);
    if !w.too_many {
        let state = if s.prev is None || s.node.children@.len() > 0 {
            made
        } else {
            Seq::empty()
        };
        if state.len() <= u32::MAX {
            if state.len() > 0 {
                let mid = with_children(set, w, s, state, top_relev(made), n);
                assert(after.steps == mid.steps);
                let _ = children_join(set, w, s, state, top_relev(made), n);
            }
            queue_grows(w.queue, results, TREE_CONTEXTS as nat);
        }
    }
}

// ---------------------------------------------------------------------------------------------
// What a step makes
// ---------------------------------------------------------------------------------------------

proof fn chain_begins(set: Setting, way: Way, j: int)
    requires
        0 <= j,
    ensures
        chain(set, way, j).entries.len() == j + 1,
        chain(set, way, j).entries[0] == way_entry(set, way, j),
    decreases j,
{
    if j > 0 {
        chain_begins(set, way, j - 1);
    }
}

/// The match of the way is kept among those of its key.
proof fn pick_is_kept(way: Way, j: int) -> (q: int)
    requires
        0 <= way.picks[j] < way.lists[j].len(),
        forall|h: int|
            0 <= h < way.picks[j] ==> !same_place(#[trigger] way.lists[j][h], way_match(way, j)),
    ensures
        0 <= q < unique_grids(way.lists[j]).len(),
        unique_grids(way.lists[j])[q] == way_match(way, j),
{
    let grids = way.lists[j];
    let kept = unique_grids(grids);
    let m = way.picks[j];
    each_place_of_a_feature_is_kept(grids);
    assert(has_place(kept, grids[m]));
    let q = choose|q: int| 0 <= q < kept.len() && same_place(#[trigger] kept[q], grids[m]);
    assert(is_first_place(grids, kept[q]));
    let f = choose|f: int|
        0 <= f < grids.len() && #[trigger] grids[f] == kept[q] && forall|h: int|
            0 <= h < f ==> !same_place(#[trigger] grids[h], kept[q]);
    if f < m {
        assert(!same_place(grids[f], grids[m]));
    }
    if m < f {
        assert(!same_place(grids[m], kept[q]));
    }
    q
}

/// The step of a node of the way, with the context of the matches before to be stacked on.
spec fn is_reached(set: Setting, way: Way, s: StepView, j: int) -> bool {
    &&& 0 <= j < way.nodes.len()
    &&& s.node == way_node(set, way, j)
    &&& j == 0 ==> s.prev is None
    &&& j > 0 ==> s.prev is Some && s.prev->Some_0.contains(chain(set, way, j - 1)) && s.prev_zoom
        == way_part(set, way, j - 1).store.zoom
}

proof fn key_makes_chain<F: Fn(u64, u16, u64, u8) -> Measure>(
    set: Setting,
    scale: F,
    root: Seq<NodeIndex>,
    way: Way,
    w: WalkView,
    s: StepView,
    j: int,
)
    requires
        is_way(set, scale, root, way),
        is_reached(set, way, s, j),
        w.cache.contains_key(way_key(set, way, j).id),
        w.cache[way_key(set, way, j).id] == unique_grids(way.lists[j]),
    ensures
        key_made(set, w, s, way_key(set, way, j)).contains(chain(set, way, j)),
{
    reveal(is_way);
    let part = way_part(set, way, j);
    let id = way_key(set, way, j).id;
    let kept = unique_grids(way.lists[j]);
    let es = coalesce_entries(kept, part, id);
    assert(0 <= way.picks[j] < way.lists[j].len());
    assert forall|h: int| 0 <= h < way.picks[j] implies !same_place(
        #[trigger] way.lists[j][h],
        way_match(way, j),
    ) by {}
    let q = pick_is_kept(way, j);
    let e = es[q];
    assert(e == way_entry(set, way, j));
    let levels = step_levels(set, s);
    let made = made_of(e, s.prev, levels, part.mask);
    if j == 0 {
        assert(made[0] == chain(set, way, 0));
        made_has(es, s.prev, levels, part.mask, q, 0);
    } else {
        let cs = s.prev->Some_0;
        let c = chain(set, way, j - 1);
        let a = choose|a: int| 0 <= a < cs.len() && cs[a] == c;
        chain_begins(set, way, j - 1);
        assert(0 <= way.picks[j - 1] < way.lists[j - 1].len());
        assert(meets(set, way, j - 1, j));
        let x = zoomed_out(e.grid_entry.x, levels);
        let y = zoomed_out(e.grid_entry.y, levels);
        assert(lies_at(cs[a], x, y));
        let p = places_have(cs, x, y, cs.len() as int, a);
        assert(made[p] == stacked(c, e, part.mask));
        assert(made[p] == chain(set, way, j));
        made_has(es, s.prev, levels, part.mask, q, p);
    }
}

/// A context begins with a match of the key, and is no less relevant.
pub open spec fn is_rival(c: ContextView, id: u32, relev: int) -> bool {
    c.entries.len() > 0 && c.entries[0].phrasematch_id == id && c.relev >= relev
}

/// From `a` on, forty contexts in a row begin with a match of the key and are no less relevant.
spec fn is_crowded_at(queue: Seq<ContextView>, id: u32, relev: int, a: int) -> bool {
    0 <= a && a + 40 <= queue.len() && forall|i: int|
        a <= i < a + 40 ==> is_rival(#[trigger] queue[i], id, relev)
}

spec fn is_crowded(queue: Seq<ContextView>, id: u32, relev: int) -> bool {
    exists|a: int| is_crowded_at(queue, id, relev, a)
}

/// The context is there, or it has forty rivals.
spec fn holds_or_rivals(queue: Seq<ContextView>, c: ContextView, id: u32) -> bool {
    queue.contains(c) || is_crowded(queue, id, c.relev as int)
}

proof fn holding_stays(
    c: ContextView,
    id: u32,
    a: Seq<ContextView>,
    b: Seq<ContextView>,
    at: int,
)
    requires
        holds_or_rivals(a, c, id),
        0 <= at,
        at + a.len() <= b.len(),
        forall|i: int| 0 <= i < a.len() ==> #[trigger] b[at + i] == a[i],
    ensures
        holds_or_rivals(b, c, id),
{
    if a.contains(c) {
        let k = choose|k: int| 0 <= k < a.len() && a[k] == c;
        assert(b[at + k] == c);
    } else {
        let k = choose|k: int| is_crowded_at(a, id, c.relev as int, k);
        assert forall|i: int| at + k <= i < at + k + 40 implies is_rival(
            #[trigger] b[i],
            id,
            c.relev as int,
        ) by {
            assert(b[at + (i - at)] == a[i - at]);
            assert(is_rival(a[i - at], id, c.relev as int));
        }
        assert(is_crowded_at(b, id, c.relev as int, at + k));
    }
}

/// Of the contexts of a key, the best are kept.
proof fn best_of_key_are_kept(cs: Seq<ContextView>, id: u32, k: int)
    requires
        0 <= k < cs.len(),
        forall|i: int|
            0 <= i < cs.len() ==> (#[trigger] cs[i]).entries.len() > 0
                && cs[i].entries[0].phrasematch_id == id,
    ensures
        holds_or_rivals(queued_all(Seq::empty(), cs, MAX_CONTEXTS as nat), cs[k], id),
{
    let none = Seq::<ContextView>::empty();
    let kept = queued_all(none, cs, MAX_CONTEXTS as nat);
    queue_keeps_the_best(cs, MAX_CONTEXTS as nat);
    if !kept.contains(cs[k]) {
        if kept.len() < MAX_CONTEXTS {
            queue_is_complete(cs, MAX_CONTEXTS as nat);
            assert(kept[k] == cs[k]);
        }
        let of_key = |c: ContextView| c.entries.len() > 0 && c.entries[0].phrasematch_id == id;
        assert forall|i: int| 0 <= i < cs.len() implies of_key(#[trigger] cs[i]) by {}
        queue_holds_what_it_was_offered(none, cs, MAX_CONTEXTS as nat, of_key);
        let relev = cs[k].relev as int;
        assert forall|i: int| 0 <= i < 40 implies is_rival(#[trigger] kept[i], id, relev) by {
            assert(of_key(kept[i]));
            assert(!rank_below(context_rank(kept[i], 0), context_rank(cs[k], 0)));
        }
        assert(is_crowded_at(kept, id, relev, 0));
    }
}

/// The context of the way is there, or it has forty rivals.
spec fn is_settled(set: Setting, way: Way, queue: Seq<ContextView>) -> bool {
    let last = way.nodes.len() - 1;
    holds_or_rivals(queue, penalized(chain(set, way, last)), way_key(set, way, last).id)
}

proof fn settled_stays(set: Setting, way: Way, a: Seq<ContextView>, b: Seq<ContextView>, at: int)
    requires
        is_settled(set, way, a),
        0 <= at,
        at + a.len() <= b.len(),
        forall|i: int| 0 <= i < a.len() ==> #[trigger] b[at + i] == a[i],
    ensures
        is_settled(set, way, b),
{
    let last = way.nodes.len() - 1;
    let c = penalized(chain(set, way, last));
    holding_stays(c, way_key(set, way, last).id, a, b, at);
}

proof fn made_begin_with(
    es: Seq<CoalesceEntry>,
    prev: Option<Seq<ContextView>>,
    levels: nat,
    mask: u32,
    id: u32,
)
    requires
        forall|i: int| 0 <= i < es.len() ==> (#[trigger] es[i]).phrasematch_id == id,
    ensures
        forall|k: int|
            0 <= k < made_of_all(es, prev, levels, mask).len() ==> (#[trigger] made_of_all(
                es,
                prev,
                levels,
                mask,
            )[k]).entries.len() > 0 && made_of_all(
                es,
                prev,
                levels,
                mask,
            )[k].entries[0].phrasematch_id == id,
    decreases es.len(),
{
    if es.len() > 0 {
        let rest = es.drop_last();
        assert forall|i: int| 0 <= i < rest.len() implies (#[trigger] rest[i]).phrasematch_id
            == id by {
            assert(rest[i] == es[i]);
        }
        made_begin_with(rest, prev, levels, mask, id);
        let before = made_of_all(rest, prev, levels, mask);
        let e = es[es.len() - 1];
        let more = made_of(e, prev, levels, mask);
        let all = made_of_all(es, prev, levels, mask);
        assert forall|k: int| 0 <= k < all.len() implies (#[trigger] all[k]).entries.len() > 0
            && all[k].entries[0].phrasematch_id == id by {
            if k < before.len() {
                assert(all[k] == before[k]);
            } else {
                assert(all[k] == more[k - before.len()]);
                assert(all[k].entries[0] == e);
            }
        }
    }
}

proof fn results_have(
    set: Setting,
    way: Way,
    w: WalkView,
    s: StepView,
    n: int,
    key: int,
)
    requires
        0 <= key < n,
        node_part(set.parts, s.node).match_keys@[key] == way_key(set, way, way.nodes.len() - 1),
        key_made(set, w, s, node_part(set.parts, s.node).match_keys@[key]).contains(
            chain(set, way, way.nodes.len() - 1),
        ),
    ensures
        is_settled(set, way, step_results(set, w, s, n)),
    decreases n,
{
    let c = chain(set, way, way.nodes.len() - 1);
    let part = node_part(set.parts, s.node);
    let group = part.match_keys@[n - 1];
    let before = step_results(set, w, s, n - 1);
    let made = key_made(set, w, s, group);
    let none = Seq::<ContextView>::empty();
    let ps = all_penalized(made);
    let more = queued_all(none, ps, MAX_CONTEXTS as nat);
    let all = step_results(set, w, s, n);
    assert(all == before + more);
    if key == n - 1 {
        let k = choose|k: int| 0 <= k < made.len() && made[k] == c;
        assert(ps[k] == penalized(c));
        let es = coalesce_entries(w.cache[group.id], part, group.id);
        assert forall|i: int| 0 <= i < es.len() implies (#[trigger] es[i]).phrasematch_id
            == group.id by {
            assert(es[i] == coalesce_entry(w.cache[group.id][i], part, group.id));
        }
        made_begin_with(es, s.prev, step_levels(set, s), part.mask, group.id);
        assert forall|i: int| 0 <= i < ps.len() implies (#[trigger] ps[i]).entries.len() > 0
            && ps[i].entries[0].phrasematch_id == group.id by {
            assert(ps[i].entries == made[i].entries);
        }
        best_of_key_are_kept(ps, group.id, k);
        assert(is_settled(set, way, more));
        assert forall|i: int| 0 <= i < more.len() implies #[trigger] all[before.len() + i]
            == more[i] by {}
        settled_stays(set, way, more, all, before.len() as int);
    } else {
        results_have(set, way, w, s, n - 1, key);
        assert forall|i: int| 0 <= i < before.len() implies #[trigger] all[0 + i] == before[i] by {}
        settled_stays(set, way, before, all, 0);
    }
}

proof fn child_overlaps(set: Setting, way: Way, state: Seq<ContextView>, j: int)
    requires
        0 <= j,
        meets(set, way, j, j + 1),
        state.contains(chain(set, way, j)),
    ensures
        overlaps(
            state,
            boxes_at(way_part(set, way, j + 1), way_part(set, way, j).store.zoom),
        ),
{
    let part = way_part(set, way, j + 1);
    let zoom = way_part(set, way, j).store.zoom;
    let a = way_match(way, j).grid_entry;
    let b = way_match(way, j + 1).grid_entry;
    let boxes = boxes_at(part, zoom);
    let es = all_edges(part.store.bboxes@);
    let k = choose|k: int|
        0 <= k < part.store.bboxes@.len() && in_box(#[trigger] es[k], b.x, b.y);
    zooming_out_keeps_containment(es[k], b.x, b.y, part.store.zoom, zoom);
    if part.store.zoom == zoom {
        zoomed_out_by_none(b.x);
        zoomed_out_by_none(b.y);
        assert((part.store.zoom - zoom) as nat == 0);
        assert(boxes[k] == es[k]);
    } else {
        assert(boxes[k] == box_at_zoom(es[k], part.store.zoom, zoom));
    }
    assert(in_box(boxes[k], a.x, a.y));
    chain_begins(set, way, j);
    let i = choose|i: int| 0 <= i < state.len() && state[i] == chain(set, way, j);
    assert(points_of(state)[i] == (a.x, a.y));
    assert(has_point_in(points_of(state), boxes[k].0, boxes[k].1, boxes[k].2, boxes[k].3));
}

// ---------------------------------------------------------------------------------------------
// Progress
// ---------------------------------------------------------------------------------------------

/// A step of a node of the way is pending.
spec fn is_under_way(set: Setting, way: Way, w: WalkView, j: int, slot: int) -> bool {
    &&& 0 <= slot < w.steps.len()
    &&& is_reached(set, way, w.steps[slot], j)
    &&& w.pending.count(step_rank(set, w.steps[slot], slot)) > 0
}

/// What becomes of the way is settled in the queue, or a step of the way is pending.
spec fn makes_progress(set: Setting, way: Way, w: WalkView) -> bool {
    is_settled(set, way, w.queue) || exists|j: int, slot: int| is_under_way(set, way, w, j, slot)
}

proof fn progress_stays(set: Setting, way: Way, a: WalkView, b: WalkView)
    requires
        makes_progress(set, way, a),
        goes_on(a, b),
        b.queue.len() < TREE_CONTEXTS,
    ensures
        makes_progress(set, way, b),
{
    if is_settled(set, way, a.queue) {
        assert forall|i: int| 0 <= i < a.queue.len() implies #[trigger] b.queue[0 + i]
            == a.queue[i] by {}
        settled_stays(set, way, a.queue, b.queue, 0);
    } else {
        let (j, slot) = choose|j: int, slot: int| is_under_way(set, way, a, j, slot);
        assert(b.steps[slot] == a.steps[slot]);
        let k = step_rank(set, a.steps[slot], slot);
        assert(b.pending.count(k) >= a.pending.count(k));
        assert(is_under_way(set, way, b, j, slot));
    }
}

/// Doing the step of a node of the way brings the next one, or the context of the way.
proof fn step_advances<F: Fn(u64, u16, u64, u8) -> Measure>(
    set: Setting,
    scale: F,
    root: Seq<NodeIndex>,
    way: Way,
    w: WalkView,
    slot: usize,
    j: int,
)
    requires
        is_way(set, scale, root, way),
        nodes_have_parts(set),
        in_order_so_far(set, w),
        slot < w.steps.len(),
        is_reached(set, way, w.steps[slot as int], j),
        w.cache.contains_key(way_key(set, way, j).id),
        w.cache[way_key(set, way, j).id] == unique_grids(way.lists[j]),
        !step_done(set, w, slot).too_many,
        step_done(set, w, slot).steps.len() <= usize::MAX,
        step_done(set, w, slot).queue.len() < TREE_CONTEXTS,
    ensures
        makes_progress(set, way, step_done(set, w, slot)),
{
    reveal(is_way);
    let s = w.steps[slot as int];
    let part = node_part(set.parts, s.node);
    let n = part.match_keys@.len() as int;
    let made = step_made(set, w, s, n);
    let results = step_results(set, w, s, n);
    let after = step_done(set, w, slot);
    let key = way.keys[j];
    let c = chain(set, way, j);
    assert(0 <= way.keys[j] < n);
    key_makes_chain(set, scale, root, way, w, s, j);
    let m = step_has(set, w, s, n, key, c);
    assert(made.contains(c));
    queue_grows(w.queue, results, TREE_CONTEXTS as nat);
    if j == way.nodes.len() - 1 {
        assert(after.queue == queued_all(w.queue, results, TREE_CONTEXTS as nat));
        results_have(set, way, w, s, n, key);
        assert forall|i: int| 0 <= i < results.len() implies #[trigger] after.queue[w.queue.len()
            + i] == results[i] by {}
        settled_stays(set, way, results, after.queue, w.queue.len() as int);
    } else {
        assert(set.nodes.contains_key(way.nodes[j + 1]));
        let kids = s.node.children@;
        assert(kids.contains(way.nodes[j + 1]));
        let i = choose|i: int| 0 <= i < kids.len() && kids[i] == way.nodes[j + 1];
        let zoom = part.store.zoom;
        let mid = with_children(set, w, s, made, top_relev(made), kids.len() as int);
        assert(after.steps == mid.steps && after.pending == mid.pending);
        let slots = children_join(set, w, s, made, top_relev(made), kids.len() as int);
        assert(0 <= way.picks[j] < way.lists[j].len());
        assert(0 <= way.picks[j + 1] < way.lists[j + 1].len());
        assert(meets(set, way, j, j + 1));
        child_overlaps(set, way, made, j);
        let next = slots[i];
        assert(waits(set, mid, set.nodes[kids[i]], Some(made), zoom, next));
        assert(is_under_way(set, way, after, j + 1, next));
    }
}

/// However a step is done, the queue and the list of steps do not shrink.
proof fn step_lens(set: Setting, w: WalkView, slot: usize)
    requires
        w.queue.len() <= TREE_CONTEXTS,
    ensures
        w.queue.len() <= step_done(set, w, slot).queue.len() <= TREE_CONTEXTS,
        w.steps.len() <= step_done(set, w, slot).steps.len(),
        w.too_many ==> step_done(set, w, slot).too_many,
        step_done(set, w, slot).cache == w.cache,
{
    let s = w.steps[slot as int];
    let n = node_part(set.parts, s.node).match_keys@.len() as int;
    let made = step_made(set, w, s, n);
    queue_grows(w.queue, step_results(set, w, s, n), TREE_CONTEXTS as nat);
    children_lens(set, w, s, made, top_relev(made), s.node.children@.len() as int);
}

proof fn children_lens(
    set: Setting,
    w: WalkView,
    s: StepView,
    state: Seq<ContextView>,
    relev: int,
    n: int,
)
    ensures
        w.steps.len() <= with_children(set, w, s, state, relev, n).steps.len(),
        with_children(set, w, s, state, relev, n).queue == w.queue,
        with_children(set, w, s, state, relev, n).cache == w.cache,
        with_children(set, w, s, state, relev, n).too_many == w.too_many,
    decreases n,
{
    if n > 0 {
        children_lens(set, w, s, state, relev, n - 1);
    }
}

proof fn steps_lens(set: Setting, w: WalkView, chunk: Seq<usize>, n: int)
    requires
        w.queue.len() <= TREE_CONTEXTS,
    ensures
        w.queue.len() <= steps_done(set, w, chunk, n).queue.len() <= TREE_CONTEXTS,
        w.steps.len() <= steps_done(set, w, chunk, n).steps.len(),
        steps_done(set, w, chunk, n).cache == w.cache,
    decreases n,
{
    if n > 0 {
        steps_lens(set, w, chunk, n - 1);
        step_lens(set, steps_done(set, w, chunk, n - 1), chunk[n - 1]);
    }
}

/// The step of a node of the way, if it is among the first `n` of the chunk, is done.
proof fn chunk_advances<F: Fn(u64, u16, u64, u8) -> Measure>(
    set: Setting,
    scale: F,
    root: Seq<NodeIndex>,
    way: Way,
    w: WalkView,
    chunk: Seq<usize>,
    n: int,
    slot: usize,
    j: int,
)
    requires
        is_way(set, scale, root, way),
        nodes_have_parts(set),
        in_order_so_far(set, w),
        slots_exist(w, chunk),
        0 <= n <= chunk.len(),
        slot < w.steps.len(),
        is_reached(set, way, w.steps[slot as int], j),
        w.cache.contains_key(way_key(set, way, j).id),
        w.cache[way_key(set, way, j).id] == unique_grids(way.lists[j]),
        !steps_done(set, w, chunk, n).too_many,
        steps_done(set, w, chunk, n).steps.len() <= usize::MAX,
        steps_done(set, w, chunk, n).queue.len() < TREE_CONTEXTS,
    ensures
        in_order_so_far(set, steps_done(set, w, chunk, n)),
        goes_on(w, steps_done(set, w, chunk, n)),
        chunk.take(n).contains(slot) ==> makes_progress(set, way, steps_done(set, w, chunk, n)),
    decreases n,
{
    if n > 0 {
        let mid = steps_done(set, w, chunk, n - 1);
        let after = steps_done(set, w, chunk, n);
        let at = chunk[n - 1];
        steps_lens(set, w, chunk, n - 1);
        step_lens(set, mid, at);
        assert(after == step_done(set, mid, at));
        chunk_advances(set, scale, root, way, w, chunk, n - 1, slot, j);
        assert(at < w.steps.len());
        step_goes_on(set, mid, at);
        goes_on_chain(w, mid, after);
        if chunk.take(n).contains(slot) {
            let i = choose|i: int| 0 <= i < n && chunk.take(n)[i] == slot;
            if i < n - 1 {
                assert(chunk.take(n - 1)[i] == slot);
                progress_stays(set, way, mid, after);
            } else {
                assert(at == slot);
                assert(mid.steps[slot as int] == w.steps[slot as int]);
                step_advances(set, scale, root, way, mid, slot, j);
            }
        }
    }
}

// ---------------------------------------------------------------------------------------------
// Lookups
// ---------------------------------------------------------------------------------------------

/// What was looked up for the keys of the way is kept.
spec fn cache_right(set: Setting, way: Way, cache: Map<u32, Seq<MatchEntry>>) -> bool {
    forall|i: int|
        #![trigger way.lists[i]]
        0 <= i < way.nodes.len() && cache.contains_key(way_key(set, way, i).id)
            ==> cache[way_key(set, way, i).id] == unique_grids(way.lists[i])
}

/// A lookup of the key of the way is answered with the matches of the way.
proof fn lookups_agree<F: Fn(u64, u16, u64, u8) -> Measure>(
    set: Setting,
    scale: F,
    root: Seq<NodeIndex>,
    way: Way,
    w: WalkView,
    f: FetchView,
    list: Seq<MatchEntry>,
    i: int,
)
    requires
        is_way(set, scale, root, way),
        nodes_have_parts(set),
        keys_differ(set.parts),
        steps_canonical(set, w.steps),
        is_from(set, w, f),
        answers_fetch(set, scale, f, list),
        0 <= i < way.nodes.len(),
        f.key_id == way_key(set, way, i).id,
        !f.single,
    ensures
        list == way.lists[i],
{
    reveal(is_way);
    reveal(keys_differ);
    let (slot, k) = choose|slot: int, k: int|
        #![trigger w.steps[slot], node_part(set.parts, w.steps[slot].node).match_keys@[k]]
        {
            let s = w.steps[slot];
            let group = node_part(set.parts, s.node).match_keys@[k];
            &&& 0 <= slot < w.steps.len()
            &&& 0 <= k < node_part(set.parts, s.node).match_keys@.len()
            &&& f == (FetchView {
                key_id: group.id,
                part: s.node.phrasematch->Some_0,
                key: group.key,
                opts: key_opts(s, group),
                single: is_single(s),
            })
        };
    let s = w.steps[slot];
    let p = s.node.phrasematch->Some_0;
    assert(set.nodes.contains_key(way.nodes[i]));
    let q = way_node(set, way, i).phrasematch->Some_0;
    assert(q < set.parts.len());
    assert(0 <= way.keys[i] < way_part(set, way, i).match_keys@.len());
    assert(set.parts[p as int].match_keys@[k].id
        == set.parts[q as int].match_keys@[way.keys[i]].id);
    assert(p == q && k == way.keys[i]);
    let g = lookup(set, q, way_key(set, way, i));
    assert(f == g);
    assert(answers_fetch(set, scale, g, way.lists[i]));
    let store = *set.parts[f.part as int].store;
    queries_agree(
        store,
        f.key,
        f.opts,
        meter_of(scale, store.coalesce_radius, f.opts.zoom),
        MAX_GRIDS_PER_PHRASE as nat,
        list,
        way.lists[i],
    );
}

proof fn fetches_go_on<F: Fn(u64, u16, u64, u8) -> Measure>(
    set: Setting,
    scale: F,
    root: Seq<NodeIndex>,
    way: Way,
    from: WalkView,
    w: WalkView,
    fetches: Seq<FetchView>,
    lists: Seq<Seq<MatchEntry>>,
    n: int,
)
    requires
        is_way(set, scale, root, way),
        nodes_have_parts(set),
        keys_differ(set.parts),
        steps_canonical(set, from.steps),
        all_from(set, from, fetches),
        are_fetch_answers(set, scale, fetches, lists),
        cache_right(set, way, w.cache),
        w.queue.len() <= TREE_CONTEXTS,
        0 <= n <= fetches.len(),
    ensures
        ({
            let after = all_fetched(set, w, fetches, lists, n);
            &&& after.steps == w.steps
            &&& after.pending == w.pending
            &&& after.complete == w.complete
            &&& after.too_many == w.too_many
            &&& w.queue.len() <= after.queue.len() <= TREE_CONTEXTS
            &&& after.queue.len() < TREE_CONTEXTS ==> begins(w.queue, after.queue)
            &&& cache_right(set, way, after.cache)
            &&& forall|id: u32| #[trigger]
                w.cache.contains_key(id) ==> after.cache.contains_key(id)
            &&& forall|i: int|
                0 <= i < n && !(#[trigger] fetches[i]).single ==> after.cache.contains_key(
                    fetches[i].key_id,
                )
        }),
    decreases n,
{
    if n > 0 {
        fetches_go_on(set, scale, root, way, from, w, fetches, lists, n - 1);
        let mid = all_fetched(set, w, fetches, lists, n - 1);
        let after = all_fetched(set, w, fetches, lists, n);
        let f = fetches[n - 1];
        let list = lists[n - 1];
        assert(answers_fetch(set, scale, f, list));
        assert(is_from(set, from, f));
        assert(after == fetched(set, mid, f, list));
        if f.single {
            let found = queued_all(
                Seq::empty(),
                leaf_contexts(list, set.parts[f.part as int], f.key_id),
                MAX_CONTEXTS as nat,
            );
            queue_grows(mid.queue, found, TREE_CONTEXTS as nat);
            if after.queue.len() < TREE_CONTEXTS {
                begins_chain(w.queue, mid.queue, after.queue);
            }
        } else {
            assert forall|i: int| #![trigger way.lists[i]]
                0 <= i < way.nodes.len() && after.cache.contains_key(
                    way_key(set, way, i).id,
                ) implies after.cache[way_key(set, way, i).id] == unique_grids(way.lists[i]) by {
                if f.key_id == way_key(set, way, i).id {
                    lookups_agree(set, scale, root, way, from, f, list, i);
                } else {
                    assert(mid.cache.contains_key(way_key(set, way, i).id));
                }
            }
        }
    }
}

// ---------------------------------------------------------------------------------------------
// Chunks
// ---------------------------------------------------------------------------------------------

/// What holds before and after each chunk of steps.
spec fn is_on_course(set: Setting, way: Way, w: WalkView) -> bool {
    &&& in_order_so_far(set, w)
    &&& !w.complete
    &&& cache_right(set, way, w.cache)
    &&& makes_progress(set, way, w)
}

/// The plan is as good without a step of the way.
proof fn plans_go_on(set: Setting, w: WalkView, p: PlanView)
    requires
        w.steps.len() <= usize::MAX,
        w.queue.len() < TREE_CONTEXTS,
        keys_known(p),
        all_from(set, w, p.fetches),
        pending_ok(set, w.steps, p.pending),
        !p.complete,
        slots_exist(w, p.chunk),
    ensures
        ({
            let q = planned(set, w, p);
            &&& all_from(set, w, q.fetches)
            &&& pending_ok(set, w.steps, q.pending)
            &&& !q.complete
            &&& slots_exist(w, q.chunk)
        }),
    decreases p.pending.len(),
{
    if !plan_made(p) {
        extremes_exist(p.pending);
        let k = highest(p.pending);
        assert(p.pending.count(k) > 0);
        let at = k.6;
        let s = w.steps[at as int];
        let taken = PlanView { pending: p.pending.remove(k), ..p };
        let n = node_part(set.parts, s.node).match_keys@.len() as int;
        keys_are_planned(set, w, at as int, taken, n);
        let q = step_planned(set, w, p);
        assert(q.pending == p.pending.remove(k));
        assert(pending_ok(set, w.steps, q.pending)) by {
            assert forall|o: RankKey| #[trigger] q.pending.count(o) > 0 implies q.pending.count(o)
                == 1 && o.6 < w.steps.len() && o == step_rank(
                set,
                w.steps[o.6 as int],
                o.6 as int,
            ) by {
                assert(p.pending.count(o) > 0);
            }
        }
        assert forall|i: int| 0 <= i < q.chunk.len() implies (#[trigger] q.chunk[i])
            < w.steps.len() by {
            if i < p.chunk.len() {
                assert(q.chunk[i] == p.chunk[i]);
            }
        }
        plans_go_on(set, w, q);
    }
}

proof fn keys_are_fetched(
    set: Setting,
    w: WalkView,
    p: PlanView,
    cache: Map<u32, Seq<MatchEntry>>,
    slot: usize,
    id: u32,
)
    requires
        is_taken_care_of(set, w, p, slot, id),
        p.pending.count(step_rank(set, w.steps[slot as int], slot as int)) == 0,
        forall|id: u32| #[trigger] w.cache.contains_key(id) ==> cache.contains_key(id),
        forall|i: int|
            0 <= i < p.fetches.len() && !(#[trigger] p.fetches[i]).single ==> cache.contains_key(
                p.fetches[i].key_id,
            ),
    ensures
        cache.contains_key(id),
        p.chunk.contains(slot),
{
    if !w.cache.contains_key(id) {
        let i = choose|i: int|
            0 <= i < p.fetches.len() && (#[trigger] p.fetches[i]).key_id == id
                && !p.fetches[i].single;
        assert(cache.contains_key(p.fetches[i].key_id));
    }
}

#[verifier::spinoff_prover]
#[verifier::rlimit(60)]
proof fn chunks_keep_course<F: Fn(u64, u16, u64, u8) -> Measure>(
    set: Setting,
    scale: F,
    root: Seq<NodeIndex>,
    way: Way,
    w: WalkView,
    lists: Seq<Seq<MatchEntry>>,
)
    requires
        is_way(set, scale, root, way),
        nodes_have_parts(set),
        keys_differ(set.parts),
        is_on_course(set, way, w),
        are_fetch_answers(set, scale, planned(set, w, plan_start(w)).fetches, lists),
        w.steps.len() <= usize::MAX,
        w.queue.len() < TREE_CONTEXTS,
        chunk_done(set, w, lists).steps.len() <= usize::MAX,
        chunk_done(set, w, lists).queue.len() < TREE_CONTEXTS,
        !chunk_done(set, w, lists).too_many,
    ensures
        is_on_course(set, way, chunk_done(set, w, lists)),
{
    let start = plan_start(w);
    let p = planned(set, w, start);
    let ready = WalkView { pending: p.pending, quotas: p.quotas, complete: p.complete, ..w };
    let n = p.fetches.len() as int;
    let mid = all_fetched(set, ready, p.fetches, lists, n);
    let after = chunk_done(set, w, lists);
    let m = p.chunk.len() as int;
    assert(after == steps_done(set, mid, p.chunk, m));
    plans_go_on(set, w, start);
    fetches_go_on(set, scale, root, way, w, ready, p.fetches, lists, n);
    assert(in_order_so_far(set, mid));
    steps_lens(set, mid, p.chunk, m);
    if is_settled(set, way, w.queue) {
        assert forall|i: int| 0 <= i < w.queue.len() implies #[trigger] mid.queue[0 + i]
            == w.queue[i] by {}
        settled_stays(set, way, w.queue, mid.queue, 0);
        assert(makes_progress(set, way, mid));
        all_steps_go_on(set, mid, p.chunk, m);
        progress_stays(set, way, mid, after);
    } else {
        let (j, at) = choose|j: int, slot: int| is_under_way(set, way, w, j, slot);
        plan_has_step(set, scale, root, way, w, j, at);
        let s = w.steps[at];
        let slot = at as usize;
        let id = way_key(set, way, j).id;
        if p.pending.count(step_rank(set, s, at)) > 0 {
            assert(is_under_way(set, way, mid, j, at));
            assert(makes_progress(set, way, mid));
            all_steps_go_on(set, mid, p.chunk, m);
            progress_stays(set, way, mid, after);
        } else {
            assert(ready.cache == w.cache);
            assert forall|id: u32| #[trigger] w.cache.contains_key(id) implies
                mid.cache.contains_key(id) by {
                assert(ready.cache.contains_key(id));
            }
            keys_are_fetched(set, w, p, mid.cache, slot, id);
            assert(mid.cache[id] == unique_grids(way.lists[j]));
            assert(p.chunk.take(m) =~= p.chunk);
            chunk_advances(set, scale, root, way, mid, p.chunk, m, slot, j);
        }
    }
}

proof fn plan_has_step<F: Fn(u64, u16, u64, u8) -> Measure>(
    set: Setting,
    scale: F,
    root: Seq<NodeIndex>,
    way: Way,
    w: WalkView,
    j: int,
    at: int,
)
    requires
        is_way(set, scale, root, way),
        pending_ok(set, w.steps, w.pending),
        !w.complete,
        w.steps.len() <= usize::MAX,
        w.queue.len() < TREE_CONTEXTS,
        is_under_way(set, way, w, j, at),
    ensures
        is_taken_care_of(
            set,
            w,
            planned(set, w, plan_start(w)),
            at as usize,
            way_key(set, way, j).id,
        ),
{
    reveal(is_way);
    let s = w.steps[at];
    assert(!is_single(s)) by {
        if j == 0 {
            assert(set.nodes.contains_key(way.nodes[0]) && set.nodes.contains_key(way.nodes[1]));
            assert(way_node(set, way, 0).children@.contains(way.nodes[1]));
        }
    }
    let key = way.keys[j];
    assert(0 <= way.keys[j] < way_part(set, way, j).match_keys@.len());
    plans_take_care(set, w, plan_start(w), at as usize, key);
}

proof fn all_steps_go_on(set: Setting, w: WalkView, chunk: Seq<usize>, n: int)
    requires
        nodes_have_parts(set),
        in_order_so_far(set, w),
        slots_exist(w, chunk),
        0 <= n <= chunk.len(),
        steps_done(set, w, chunk, n).steps.len() <= usize::MAX,
    ensures
        in_order_so_far(set, steps_done(set, w, chunk, n)),
        goes_on(w, steps_done(set, w, chunk, n)),
    decreases n,
{
    if n > 0 {
        let mid = steps_done(set, w, chunk, n - 1);
        let after = steps_done(set, w, chunk, n);
        steps_lens(set, w, chunk, n - 1);
        step_lens(set, mid, chunk[n - 1]);
        all_steps_go_on(set, w, chunk, n - 1);
        assert(chunk[n - 1] < w.steps.len());
        step_goes_on(set, mid, chunk[n - 1]);
        goes_on_chain(w, mid, after);
    }
}

// ---------------------------------------------------------------------------------------------
// Walks
// ---------------------------------------------------------------------------------------------

proof fn roots_join(set: Setting, children: Seq<NodeIndex>, n: int) -> (slots: Seq<int>)
    requires
        nodes_have_parts(set),
        0 <= n <= children.len(),
        with_roots(set, walk_empty(), children, n).steps.len() <= usize::MAX,
    ensures
        ({
            let after = with_roots(set, walk_empty(), children, n);
            &&& in_order_so_far(set, after)
            &&& after.queue.len() == 0
            &&& !after.complete
            &&& after.cache == walk_empty().cache
            &&& slots.len() == n
            &&& forall|c: int|
                #![trigger slots[c]]
                0 <= c < n && set.nodes.contains_key(children[c]) ==> waits(
                    set,
                    after,
                    set.nodes[children[c]],
                    None,
                    0,
                    slots[c],
                )
        }),
    decreases n,
{
    if n <= 0 {
        Seq::empty()
    } else {
        let mid = with_roots(set, walk_empty(), children, n - 1);
        let after = with_roots(set, walk_empty(), children, n);
        let child = set.nodes[children[n - 1]];
        assert(mid.steps.len() <= after.steps.len());
        let slots = roots_join(set, children, n - 1);
        if set.nodes.contains_key(children[n - 1]) {
            step_joins(
                set,
                mid,
                child,
                None,
                0,
                part_relev(set.parts, child.phrasematch->Some_0),
            );
        }
        let more = slots.push(mid.steps.len() as int);
        assert forall|c: int| #![trigger more[c]]
            0 <= c < n && set.nodes.contains_key(children[c]) implies waits(
            set,
            after,
            set.nodes[children[c]],
            None,
            0,
            more[c],
        ) by {
            if c < n - 1 {
                assert(more[c] == slots[c]);
                waits_on(set, mid, after, set.nodes[children[c]], None, 0, slots[c]);
            }
        }
        more
    }
}

proof fn walks_begin_on_course<F: Fn(u64, u16, u64, u8) -> Measure>(
    set: Setting,
    scale: F,
    root: StackableNode,
    way: Way,
)
    requires
        is_way(set, scale, root.children@, way),
        nodes_have_parts(set),
        walk_start(set, root).steps.len() <= usize::MAX,
    ensures
        is_on_course(set, way, walk_start(set, root)),
{
    reveal(is_way);
    let w = walk_start(set, root);
    let kids = root.children@;
    let slots = roots_join(set, kids, kids.len() as int);
    let c = choose|c: int| 0 <= c < kids.len() && kids[c] == way.nodes[0];
    assert(set.nodes.contains_key(way.nodes[0]));
    assert(waits(set, w, set.nodes[kids[c]], None, 0, slots[c]));
    assert(is_under_way(set, way, w, 0, slots[c]));
}

proof fn fetch_lens(
    set: Setting,
    w: WalkView,
    fetches: Seq<FetchView>,
    lists: Seq<Seq<MatchEntry>>,
    n: int,
)
    requires
        w.queue.len() <= TREE_CONTEXTS,
    ensures
        w.queue.len() <= all_fetched(set, w, fetches, lists, n).queue.len() <= TREE_CONTEXTS,
        all_fetched(set, w, fetches, lists, n).steps == w.steps,
    decreases n,
{
    if n > 0 {
        fetch_lens(set, w, fetches, lists, n - 1);
        let mid = all_fetched(set, w, fetches, lists, n - 1);
        let f = fetches[n - 1];
        queue_grows(
            mid.queue,
            queued_all(
                Seq::empty(),
                leaf_contexts(lists[n - 1], set.parts[f.part as int], f.key_id),
                MAX_CONTEXTS as nat,
            ),
            TREE_CONTEXTS as nat,
        );
    }
}

proof fn chunk_lens(set: Setting, w: WalkView, lists: Seq<Seq<MatchEntry>>)
    requires
        w.queue.len() <= TREE_CONTEXTS,
    ensures
        w.queue.len() <= chunk_done(set, w, lists).queue.len() <= TREE_CONTEXTS,
        w.steps.len() <= chunk_done(set, w, lists).steps.len(),
{
    let p = planned(set, w, plan_start(w));
    let ready = WalkView { pending: p.pending, quotas: p.quotas, complete: p.complete, ..w };
    let n = p.fetches.len() as int;
    fetch_lens(set, ready, p.fetches, lists, n);
    steps_lens(
        set,
        all_fetched(set, ready, p.fetches, lists, n),
        p.chunk,
        p.chunk.len() as int,
    );
}

proof fn roots_queue(set: Setting, children: Seq<NodeIndex>, n: int)
    ensures
        with_roots(set, walk_empty(), children, n).queue.len() == 0,
    decreases n,
{
    if n > 0 {
        roots_queue(set, children, n - 1);
    }
}

/// Queue and steps do not shrink from the `i`th state to the last.
proof fn walk_lens<F: Fn(u64, u16, u64, u8) -> Measure>(
    set: Setting,
    scale: F,
    root: StackableNode,
    states: Seq<WalkView>,
    i: int,
    j: int,
)
    requires
        is_walk(set, scale, root, states),
        0 <= i <= j < states.len(),
    ensures
        states[i].queue.len() <= states[j].queue.len() <= TREE_CONTEXTS,
        states[i].steps.len() <= states[j].steps.len(),
    decreases j,
{
    if j == 0 {
        roots_queue(set, root.children@, root.children@.len() as int);
    } else {
        if i == j {
            walk_lens(set, scale, root, states, i - 1, j - 1);
        } else {
            walk_lens(set, scale, root, states, i, j - 1);
        }
        assert(is_move(set, scale, states, j));
        let w = states[j - 1];
        let lists = choose|lists: Seq<Seq<MatchEntry>>| #[trigger]
            are_fetch_answers(set, scale, planned(set, w, plan_start(w)).fetches, lists)
                && states[j] == chunk_done(set, w, lists);
        chunk_lens(set, w, lists);
    }
}

proof fn walks_keep_course<F: Fn(u64, u16, u64, u8) -> Measure>(
    set: Setting,
    scale: F,
    root: StackableNode,
    states: Seq<WalkView>,
    way: Way,
    i: int,
)
    requires
        is_walk(set, scale, root, states),
        is_way(set, scale, root.children@, way),
        nodes_have_parts(set),
        keys_differ(set.parts),
        0 <= i < states.len(),
        states.last().steps.len() <= usize::MAX,
        states.last().queue.len() < TREE_CONTEXTS,
        !states.last().too_many,
    ensures
        is_on_course(set, way, states[i]),
    decreases i,
{
    let last = states.len() - 1;
    walk_lens(set, scale, root, states, i, last);
    if i == 0 {
        walks_begin_on_course(set, scale, root, way);
    } else {
        walks_keep_course(set, scale, root, states, way, i - 1);
        walk_lens(set, scale, root, states, i - 1, last);
        assert(is_move(set, scale, states, i));
        if i < last {
            assert(is_move(set, scale, states, i + 1));
        }
        let w = states[i - 1];
        let lists = choose|lists: Seq<Seq<MatchEntry>>| #[trigger]
            are_fetch_answers(set, scale, planned(set, w, plan_start(w)).fetches, lists)
                && states[i] == chunk_done(set, w, lists);
        chunks_keep_course(set, scale, root.children@, way, w, lists);
    }
}

// ---------------------------------------------------------------------------------------------
// Answers
// ---------------------------------------------------------------------------------------------

proof fn nodes_of_trees_have_parts(tree: StackableTree, opts: MatchOpts)
    requires
        is_stack_tree(tree),
        !tree.arena.spent(),
    ensures
        nodes_have_parts(setting_of(tree, opts)),
{
    let set = setting_of(tree, opts);
    assert forall|i: NodeIndex| #![trigger set.nodes[i]]
        set.nodes.contains_key(i) implies set.nodes[i].phrasematch is Some
        && set.nodes[i].phrasematch->Some_0 < set.parts.len() by {
        let trail = nodes_are_combinations(tree, i);
        combined_parts_go_together(tree, trail);
        let list = trail_parts(tree, trail);
        let n = trail.len() - 1;
        assert(list[n] < set.parts.len());
        assert(trail[n] == i);
        node_has_part(tree, trail);
    }
}

proof fn chain_tells(set: Setting, way: Way, j: int)
    requires
        0 <= j <= 0x1_0000,
    ensures
        ({
            let c = chain(set, way, j);
            &&& c.entries.len() == j + 1
            &&& forall|i: int|
                0 <= i <= j ==> #[trigger] c.entries[i] == way_entry(set, way, j - i)
            &&& c.mask == or_masks(c.entries)
            &&& c.relev == relev_sum(c.entries)
            &&& 0 <= c.relev <= (j + 1) * MAX_ENTRY_RELEV
        }),
    decreases j,
{
    let e = way_entry(set, way, j);
    let c = chain(set, way, j);
    phrase_relev_fits(way_match(way, j), way_part(set, way, j));
    if j == 0 {
        or_masks_front(e, Seq::empty());
        relev_sum_front(e, Seq::empty());
        assert(seq![e] + Seq::<CoalesceEntry>::empty() =~= seq![e]);
        let m = e.mask;
        assert(0 | m == m) by (bit_vector);
    } else {
        chain_tells(set, way, j - 1);
        let before = chain(set, way, j - 1);
        or_masks_front(e, before.entries);
        relev_sum_front(e, before.entries);
        assert(j * MAX_ENTRY_RELEV + MAX_ENTRY_RELEV == (j + 1) * MAX_ENTRY_RELEV)
            by (nonlinear_arith);
        assert(j * MAX_ENTRY_RELEV <= 0x1_0000 * MAX_ENTRY_RELEV) by (nonlinear_arith)
            requires
                0 <= j <= 0x1_0000,
                MAX_ENTRY_RELEV >= 0,
        ;
        assert forall|i: int| 0 <= i <= j implies #[trigger] c.entries[i] == way_entry(
            set,
            way,
            j - i,
        ) by {
            if i > 0 {
                assert(c.entries[i] == before.entries[i - 1]);
            }
        }
    }
}

/// Forty rivals in a row are forty contexts of the answer.
proof fn rivals_count(queue: Seq<ContextView>, id: u32, relev: int)
    requires
        is_crowded(queue, id, relev),
    ensures
        queue.to_multiset().filter(|c: ContextView| is_rival(c, id, relev)).len() >= 40,
{
    let f = |c: ContextView| is_rival(c, id, relev);
    let a = choose|a: int| is_crowded_at(queue, id, relev, a);
    let front = queue.take(a);
    let mid = queue.subrange(a, a + 40);
    let back = queue.skip(a + 40);
    let both = front + mid;
    assert(queue =~= both + back);
    vstd::seq_lib::lemma_multiset_commutative(both, back);
    vstd::seq_lib::lemma_multiset_commutative(front, mid);
    let m = mid.to_multiset();
    let rest = front.to_multiset().add(back.to_multiset());
    assert(queue.to_multiset() =~= rest.add(m));
    assert forall|c: ContextView| #[trigger] m.count(c) > 0 implies f(c) by {
        broadcast use vstd::seq_lib::group_to_multiset_ensures;

        assert(mid.contains(c));
        let i = choose|i: int| 0 <= i < mid.len() && mid[i] == c;
        assert(is_rival(queue[a + i], id, relev));
    }
    assert(queue.to_multiset().filter(f) =~= rest.filter(f).add(m));
    assert(m.len() == 40) by {
        broadcast use vstd::seq_lib::group_to_multiset_ensures;

    }
}

/// Matches that lie in one tile, along a way through the tree, are found: the answer has a context
/// of just these matches, the last of the way in front. It covers the words of all their parts, and
/// its relevance is what those of the matches add up to, but for a hundredth where the masks of its
/// first two entries ascend. Only where forty contexts of the answer begin with a match of the same
/// key as it, and none of them is less relevant, it may have had to make room for them. The answer is
/// not full, and no quota stands against the lookups.
pub proof fn matches_along_a_way_are_found<F: Fn(u64, u16, u64, u8) -> Measure>(
    tree: StackableTree,
    opts: MatchOpts,
    scale: F,
    end: WalkView,
    out: Seq<ContextView>,
    way: Way,
) -> (r: Option<int>)
    requires
        is_stack_tree(tree),
        !tree.arena.spent(),
        ends_in(setting_of(tree, opts), scale, tree.root, end),
        end.steps.len() <= usize::MAX,
        !end.too_many,
        is_walk_answer(end, out),
        out.len() < 800,
        keys_differ(tree.phrasematches@),
        is_way(setting_of(tree, opts), scale, tree.root.children@, way),
        way.nodes.len() <= 0x1_0000,
    ensures
        ({
            let set = setting_of(tree, opts);
            let n = way.nodes.len() as int;
            let entries = Seq::new(way.nodes.len(), |i: int| way_entry(set, way, n - 1 - i));
            let relev = relev_sum(entries) - (if entries[0].mask < entries[1].mask {
                10_000_000_000int
            } else {
                0
            });
            match r {
                Some(k) => {
                    &&& 0 <= k < out.len()
                    &&& out[k].entries == entries
                    &&& out[k].mask == or_masks(entries)
                    &&& out[k].relev == relev
                },
                None => out.to_multiset().filter(
                    |c: ContextView| is_rival(c, way_key(set, way, n - 1).id, relev),
                ).len() >= 40,
            }
        }),
{
    let set = setting_of(tree, opts);
    nodes_of_trees_have_parts(tree, opts);
    let states = choose|states: Seq<WalkView>| #[trigger]
        is_walk(set, scale, tree.root, states) && states.last() == end;
    let last = states.len() - 1;
    walk_lens(set, scale, tree.root, states, last, last);
    assert(end.queue.len() == out.len()) by {
        broadcast use vstd::seq_lib::group_to_multiset_ensures;

        assert(end.queue.to_multiset().len() == end.queue.len());
        assert(out.to_multiset().len() == out.len());
    }
    walks_keep_course(set, scale, tree.root, states, way, last);
    assert(!end.complete && end.pending.len() == 0);
    let n = way.nodes.len() as int;
    assert(n > 1) by {
        reveal(is_way);
    }
    let c = penalized(chain(set, way, n - 1));
    if !is_settled(set, way, end.queue) {
        let (j, slot) = choose|j: int, slot: int| is_under_way(set, way, end, j, slot);
        vstd::multiset::lemma_multiset_empty_len(end.pending);
        assert(end.pending.count(step_rank(set, end.steps[slot], slot)) > 0);
    }
    chain_tells(set, way, n - 1);
    assert(n * MAX_ENTRY_RELEV <= 0x1_0001 * MAX_ENTRY_RELEV) by (nonlinear_arith)
        requires
            0 <= n <= 0x1_0001,
            MAX_ENTRY_RELEV >= 0,
    ;
    let entries = Seq::new(way.nodes.len(), |i: int| way_entry(set, way, n - 1 - i));
    assert(c.entries =~= entries);
    if end.queue.contains(c) {
        let a = choose|a: int| 0 <= a < end.queue.len() && end.queue[a] == c;
        Some(place_in(end.queue, out, a))
    } else {
        rivals_count(end.queue, way_key(set, way, n - 1).id, c.relev as int);
        None
    }
}

// ---------------------------------------------------------------------------------------------
// Combinations of a single phrase
// ---------------------------------------------------------------------------------------------

/// The node is a child of the root that nothing is stacked on, and one of its keys was looked up.
pub open spec fn is_leaf<F: Fn(u64, u16, u64, u8) -> Measure>(
    set: Setting,
    scale: F,
    root: Seq<NodeIndex>,
    node: NodeIndex,
    key: int,
    list: Seq<MatchEntry>,
) -> bool {
    let part = node_part(set.parts, set.nodes[node]);
    let group = part.match_keys@[key];
    &&& root.contains(node)
    &&& set.nodes.contains_key(node)
    &&& set.nodes[node].children@.len() == 0
    &&& 0 <= key < part.match_keys@.len()
    &&& is_free(part, group)
    &&& answers_fetch(
        set,
        scale,
        FetchView {
            single: true,
            ..lookup(set, set.nodes[node].phrasematch->Some_0, group)
        },
        list,
    )
}

spec fn single_has(fetches: Seq<FetchView>, id: u32) -> bool {
    exists|i: int|
        0 <= i < fetches.len() && (#[trigger] fetches[i]).key_id == id && fetches[i].single
}

spec fn singles_known(p: PlanView) -> bool {
    forall|id: u32| #[trigger] p.keys.contains(key_code(id, true)) ==> single_has(p.fetches, id)
}

proof fn single_stays(a: Seq<FetchView>, b: Seq<FetchView>, id: u32)
    requires
        single_has(a, id),
        begins(a, b),
    ensures
        single_has(b, id),
{
    let i = choose|i: int| 0 <= i < a.len() && (#[trigger] a[i]).key_id == id && a[i].single;
    assert(b[i] == a[i]);
}

proof fn single_is_planned(set: Setting, w: WalkView, s: StepView, p: PlanView, k: int)
    requires
        singles_known(p),
    ensures
        ({
            let part = node_part(set.parts, s.node);
            let group = part.match_keys@[k];
            let q = key_planned(set, w, s, p, group);
            &&& singles_known(q)
            &&& begins(p.fetches, q.fetches)
            &&& is_single(s) && is_free(part, group) ==> single_has(q.fetches, group.id)
        }),
{
    let part = node_part(set.parts, s.node);
    let group = part.match_keys@[k];
    let q = key_planned(set, w, s, p, group);
    let single = is_single(s);
    if q.fetches.len() > p.fetches.len() {
        let n = p.fetches.len() as int;
        let f = q.fetches[n];
        assert(q.fetches == p.fetches.push(f));
        assert forall|id: u32| #[trigger] q.keys.contains(key_code(id, true)) implies single_has(
            q.fetches,
            id,
        ) by {
            if p.keys.contains(key_code(id, true)) {
                single_stays(p.fetches, q.fetches, id);
            } else {
                assert(key_code(group.id, single) == key_code(id, true));
                assert(group.id == id && single);
                assert(q.fetches[n].key_id == id);
            }
        }
        if single {
            assert(q.fetches[n].key_id == group.id && q.fetches[n].single);
        }
    } else {
        assert(q.fetches == p.fetches && q.keys == p.keys);
        if single && is_free(part, group) {
            let r = key_request(set, w, s, group, p.keys);
            assert(charged(p.quotas, r).1);
            assert(p.keys.contains(key_code(group.id, true)));
        }
    }
}

proof fn singles_are_planned(set: Setting, w: WalkView, s: StepView, p: PlanView, n: int)
    requires
        singles_known(p),
    ensures
        ({
            let part = node_part(set.parts, s.node);
            let q = keys_planned(set, w, s, p, n);
            &&& singles_known(q)
            &&& begins(p.fetches, q.fetches)
            &&& forall|k: int|
                #![trigger part.match_keys@[k]]
                0 <= k < n && is_single(s) && is_free(part, part.match_keys@[k]) ==> single_has(
                    q.fetches,
                    part.match_keys@[k].id,
                )
        }),
    decreases n,
{
    let part = node_part(set.parts, s.node);
    if n > 0 {
        singles_are_planned(set, w, s, p, n - 1);
        let mid = keys_planned(set, w, s, p, n - 1);
        single_is_planned(set, w, s, mid, n - 1);
        let q = keys_planned(set, w, s, p, n);
        begins_chain(p.fetches, mid.fetches, q.fetches);
        assert forall|k: int| #![trigger part.match_keys@[k]]
            0 <= k < n && is_single(s) && is_free(part, part.match_keys@[k]) implies single_has(
            q.fetches,
            part.match_keys@[k].id,
        ) by {
            if k < n - 1 {
                single_stays(mid.fetches, q.fetches, part.match_keys@[k].id);
            }
        }
    }
}

/// The step at the slot is still pending, or its key is looked up.
spec fn is_looked_after(set: Setting, w: WalkView, p: PlanView, slot: usize, id: u32) -> bool {
    p.pending.count(step_rank(set, w.steps[slot as int], slot as int)) > 0 || single_has(
        p.fetches,
        id,
    )
}

proof fn plans_look_after(set: Setting, w: WalkView, p: PlanView, slot: usize, key: int)
    requires
        slot < w.steps.len() <= usize::MAX,
        is_single(w.steps[slot as int]),
        0 <= key < node_part(set.parts, w.steps[slot as int].node).match_keys@.len(),
        is_free(
            node_part(set.parts, w.steps[slot as int].node),
            node_part(set.parts, w.steps[slot as int].node).match_keys@[key],
        ),
        w.queue.len() < TREE_CONTEXTS,
        singles_known(p),
        pending_ok(set, w.steps, p.pending),
        is_looked_after(
            set,
            w,
            p,
            slot,
            node_part(set.parts, w.steps[slot as int].node).match_keys@[key].id,
        ),
    ensures
        is_looked_after(
            set,
            w,
            planned(set, w, p),
            slot,
            node_part(set.parts, w.steps[slot as int].node).match_keys@[key].id,
        ),
    decreases p.pending.len(),
{
    let ours = w.steps[slot as int];
    let id = node_part(set.parts, ours.node).match_keys@[key].id;
    let rank = step_rank(set, ours, slot as int);
    if !plan_made(p) {
        extremes_exist(p.pending);
        let k = highest(p.pending);
        assert(p.pending.count(k) > 0);
        let at = k.6;
        let s = w.steps[at as int];
        let taken = PlanView { pending: p.pending.remove(k), ..p };
        let n = node_part(set.parts, s.node).match_keys@.len() as int;
        singles_are_planned(set, w, s, taken, n);
        let mid = keys_planned(set, w, s, taken, n);
        let q = step_planned(set, w, p);
        keys_keep_pending(set, w, s, taken, n);
        assert(q.pending == p.pending.remove(k));
        assert(pending_ok(set, w.steps, q.pending)) by {
            assert forall|o: RankKey| #[trigger] q.pending.count(o) > 0 implies q.pending.count(o)
                == 1 && o.6 < w.steps.len() && o == step_rank(
                set,
                w.steps[o.6 as int],
                o.6 as int,
            ) by {
                assert(p.pending.count(o) > 0);
            }
        }
        assert(q.fetches == mid.fetches && q.keys == mid.keys);
        if single_has(p.fetches, id) {
            single_stays(p.fetches, q.fetches, id);
        } else if k == rank {
            assert(at == slot);
        } else {
            assert(q.pending.count(rank) > 0);
        }
        plans_look_after(set, w, q, slot, key);
    }
}

proof fn leaves_are_of_key(entries: Seq<CoalesceEntry>, id: u32)
    requires
        forall|i: int| 0 <= i < entries.len() ==> (#[trigger] entries[i]).phrasematch_id == id,
    ensures
        forall|f: u32| #[trigger]
            leaf_states(entries).best.contains_key(f) ==> leaf_states(
                entries,
            ).best[f].phrasematch_id == id,
        leaf_states(entries).best.dom().finite(),
    decreases entries.len(),
{
    if entries.len() > 0 {
        let rest = entries.drop_last();
        assert forall|i: int| 0 <= i < rest.len() implies (#[trigger] rest[i]).phrasematch_id
            == id by {
            assert(rest[i] == entries[i]);
        }
        leaves_are_of_key(rest, id);
        assert(entries[entries.len() - 1].phrasematch_id == id);
    }
}

proof fn leaf_contexts_are_of_key(grids: Seq<MatchEntry>, part: PhrasematchSubquery, id: u32)
    ensures
        forall|k: int|
            0 <= k < leaf_contexts(grids, part, id).len() ==> (#[trigger] leaf_contexts(
                grids,
                part,
                id,
            )[k]).entries.len() > 0 && leaf_contexts(
                grids,
                part,
                id,
            )[k].entries[0].phrasematch_id == id,
{
    let entries = coalesce_entries(grids, part, id);
    assert forall|i: int| 0 <= i < entries.len() implies (#[trigger] entries[i]).phrasematch_id
        == id by {
        assert(entries[i] == coalesce_entry(grids[i], part, id));
    }
    leaves_are_of_key(entries, id);
    let best = leaf_states(entries).best;
    let num = num_u32();
    assert forall|a: u32, b: u32| #[trigger] num(a) == #[trigger] num(b) implies a == b by {}
    in_order_exists(best.dom(), num_u32());
    let ids = in_order(best.dom(), num_u32());
    let cs = leaf_contexts(grids, part, id);
    assert forall|k: int| 0 <= k < cs.len() implies (#[trigger] cs[k]).entries.len() > 0
        && cs[k].entries[0].phrasematch_id == id by {
        set_members(ids, ids[k]);
        assert(ids.contains(ids[k]));
        assert(cs[k] == single_context(best[ids[k]], part.mask));
    }
}

/// The lookup of the key of a leaf is answered with its matches.
proof fn leaf_lookups_agree<F: Fn(u64, u16, u64, u8) -> Measure>(
    set: Setting,
    scale: F,
    root: Seq<NodeIndex>,
    node: NodeIndex,
    key: int,
    list: Seq<MatchEntry>,
    w: WalkView,
    f: FetchView,
    found: Seq<MatchEntry>,
)
    requires
        is_leaf(set, scale, root, node, key, list),
        nodes_have_parts(set),
        keys_differ(set.parts),
        steps_canonical(set, w.steps),
        is_from(set, w, f),
        answers_fetch(set, scale, f, found),
        f.key_id == node_part(set.parts, set.nodes[node]).match_keys@[key].id,
        f.single,
    ensures
        found == list,
        f.part == set.nodes[node].phrasematch->Some_0,
{
    reveal(keys_differ);
    let (slot, k) = choose|slot: int, k: int|
        #![trigger w.steps[slot], node_part(set.parts, w.steps[slot].node).match_keys@[k]]
        {
            let s = w.steps[slot];
            let group = node_part(set.parts, s.node).match_keys@[k];
            &&& 0 <= slot < w.steps.len()
            &&& 0 <= k < node_part(set.parts, s.node).match_keys@.len()
            &&& f == (FetchView {
                key_id: group.id,
                part: s.node.phrasematch->Some_0,
                key: group.key,
                opts: key_opts(s, group),
                single: is_single(s),
            })
        };
    let s = w.steps[slot];
    let p = s.node.phrasematch->Some_0;
    let q = set.nodes[node].phrasematch->Some_0;
    assert(q < set.parts.len());
    assert(set.parts[p as int].match_keys@[k].id == set.parts[q as int].match_keys@[key].id);
    assert(p == q && k == key);
    let group = set.parts[q as int].match_keys@[key];
    assert(f == (FetchView { single: true, ..lookup(set, q, group) }));
    let store = *set.parts[f.part as int].store;
    queries_agree(
        store,
        f.key,
        f.opts,
        meter_of(scale, store.coalesce_radius, f.opts.zoom),
        SINGLE_FETCH as nat,
        found,
        list,
    );
}

/// What looking up the keys leaves as it is.
proof fn fetches_keep(
    set: Setting,
    w: WalkView,
    fetches: Seq<FetchView>,
    lists: Seq<Seq<MatchEntry>>,
    n: int,
)
    requires
        w.queue.len() <= TREE_CONTEXTS,
    ensures
        ({
            let after = all_fetched(set, w, fetches, lists, n);
            &&& after.steps == w.steps
            &&& after.pending == w.pending
            &&& after.complete == w.complete
            &&& after.too_many == w.too_many
            &&& w.queue.len() <= after.queue.len() <= TREE_CONTEXTS
            &&& after.queue.len() < TREE_CONTEXTS ==> begins(w.queue, after.queue)
        }),
    decreases n,
{
    if n > 0 {
        fetches_keep(set, w, fetches, lists, n - 1);
        let mid = all_fetched(set, w, fetches, lists, n - 1);
        let after = all_fetched(set, w, fetches, lists, n);
        let f = fetches[n - 1];
        assert(after == fetched(set, mid, f, lists[n - 1]));
        queue_grows(
            mid.queue,
            queued_all(
                Seq::empty(),
                leaf_contexts(lists[n - 1], set.parts[f.part as int], f.key_id),
                MAX_CONTEXTS as nat,
            ),
            TREE_CONTEXTS as nat,
        );
        if after.queue.len() < TREE_CONTEXTS {
            begins_chain(w.queue, mid.queue, after.queue);
        }
    }
}

proof fn leaves_are_fetched<F: Fn(u64, u16, u64, u8) -> Measure>(
    set: Setting,
    scale: F,
    root: Seq<NodeIndex>,
    node: NodeIndex,
    key: int,
    list: Seq<MatchEntry>,
    at: int,
    from: WalkView,
    w: WalkView,
    fetches: Seq<FetchView>,
    lists: Seq<Seq<MatchEntry>>,
    n: int,
    i: int,
)
    requires
        is_leaf(set, scale, root, node, key, list),
        nodes_have_parts(set),
        keys_differ(set.parts),
        steps_canonical(set, from.steps),
        all_from(set, from, fetches),
        are_fetch_answers(set, scale, fetches, lists),
        w.queue.len() <= TREE_CONTEXTS,
        0 <= i < n <= fetches.len(),
        fetches[i].single,
        fetches[i].key_id == node_part(set.parts, set.nodes[node]).match_keys@[key].id,
        all_fetched(set, w, fetches, lists, n).queue.len() < TREE_CONTEXTS,
        0 <= at < leaf_contexts(
            list,
            node_part(set.parts, set.nodes[node]),
            node_part(set.parts, set.nodes[node]).match_keys@[key].id,
        ).len(),
    ensures
        ({
            let part = node_part(set.parts, set.nodes[node]);
            let id = part.match_keys@[key].id;
            holds_or_rivals(
                all_fetched(set, w, fetches, lists, n).queue,
                leaf_contexts(list, part, id)[at],
                id,
            )
        }),
    decreases n,
{
    let part = node_part(set.parts, set.nodes[node]);
    let id = part.match_keys@[key].id;
    let cs = leaf_contexts(list, part, id);
    let mid = all_fetched(set, w, fetches, lists, n - 1);
    let after = all_fetched(set, w, fetches, lists, n);
    let f = fetches[n - 1];
    fetches_keep(set, w, fetches, lists, n - 1);
    assert(after == fetched(set, mid, f, lists[n - 1]));
    let found = queued_all(
        Seq::empty(),
        leaf_contexts(lists[n - 1], set.parts[f.part as int], f.key_id),
        MAX_CONTEXTS as nat,
    );
    queue_grows(mid.queue, found, TREE_CONTEXTS as nat);
    if i < n - 1 {
        leaves_are_fetched(
            set,
            scale,
            root,
            node,
            key,
            list,
            at,
            from,
            w,
            fetches,
            lists,
            n - 1,
            i,
        );
        assert forall|k: int| 0 <= k < mid.queue.len() implies #[trigger] after.queue[0 + k]
            == mid.queue[k] by {}
        holding_stays(cs[at], id, mid.queue, after.queue, 0);
    } else {
        assert(answers_fetch(set, scale, f, lists[n - 1]));
        assert(is_from(set, from, f));
        leaf_lookups_agree(set, scale, root, node, key, list, from, f, lists[n - 1]);
        leaf_contexts_are_of_key(list, part, id);
        best_of_key_are_kept(cs, id, at);
        assert(after.queue == mid.queue + found);
        let m = mid.queue.len() as int;
        assert forall|k: int| 0 <= k < found.len() implies #[trigger] after.queue[m + k]
            == found[k] by {}
        holding_stays(cs[at], id, found, after.queue, m);
    }
}

/// The context is in the queue, or it has forty rivals there, or the step of the leaf is pending.
spec fn leaf_goes_on(set: Setting, node: NodeIndex, c: ContextView, id: u32, w: WalkView) -> bool {
    holds_or_rivals(w.queue, c, id) || exists|slot: int|
        waits(set, w, set.nodes[node], None, 0, slot)
}

spec fn leaf_is_on_course(
    set: Setting,
    node: NodeIndex,
    c: ContextView,
    id: u32,
    w: WalkView,
) -> bool {
    &&& in_order_so_far(set, w)
    &&& !w.complete
    &&& leaf_goes_on(set, node, c, id, w)
}

#[verifier::spinoff_prover]
#[verifier::rlimit(30)]
proof fn chunks_keep_leaf_course<F: Fn(u64, u16, u64, u8) -> Measure>(
    set: Setting,
    scale: F,
    root: Seq<NodeIndex>,
    node: NodeIndex,
    key: int,
    list: Seq<MatchEntry>,
    at: int,
    w: WalkView,
    lists: Seq<Seq<MatchEntry>>,
)
    requires
        is_leaf(set, scale, root, node, key, list),
        nodes_have_parts(set),
        keys_differ(set.parts),
        0 <= at < leaf_contexts(
            list,
            node_part(set.parts, set.nodes[node]),
            node_part(set.parts, set.nodes[node]).match_keys@[key].id,
        ).len(),
        leaf_is_on_course(
            set,
            node,
            leaf_contexts(
                list,
                node_part(set.parts, set.nodes[node]),
                node_part(set.parts, set.nodes[node]).match_keys@[key].id,
            )[at],
            node_part(set.parts, set.nodes[node]).match_keys@[key].id,
            w,
        ),
        are_fetch_answers(set, scale, planned(set, w, plan_start(w)).fetches, lists),
        w.steps.len() <= usize::MAX,
        w.queue.len() < TREE_CONTEXTS,
        chunk_done(set, w, lists).steps.len() <= usize::MAX,
        chunk_done(set, w, lists).queue.len() < TREE_CONTEXTS,
    ensures
        leaf_is_on_course(
            set,
            node,
            leaf_contexts(
                list,
                node_part(set.parts, set.nodes[node]),
                node_part(set.parts, set.nodes[node]).match_keys@[key].id,
            )[at],
            node_part(set.parts, set.nodes[node]).match_keys@[key].id,
            chunk_done(set, w, lists),
        ),
{
    let part = node_part(set.parts, set.nodes[node]);
    let id = part.match_keys@[key].id;
    let c = leaf_contexts(list, part, id)[at];
    let start = plan_start(w);
    let p = planned(set, w, start);
    let ready = WalkView { pending: p.pending, quotas: p.quotas, complete: p.complete, ..w };
    let n = p.fetches.len() as int;
    let mid = all_fetched(set, ready, p.fetches, lists, n);
    let after = chunk_done(set, w, lists);
    let m = p.chunk.len() as int;
    assert(after == steps_done(set, mid, p.chunk, m));
    plans_go_on(set, w, start);
    fetches_keep(set, ready, p.fetches, lists, n);
    assert(in_order_so_far(set, mid));
    steps_lens(set, mid, p.chunk, m);
    all_steps_go_on(set, mid, p.chunk, m);
    assert(begins(w.queue, mid.queue) && begins(mid.queue, after.queue));
    if holds_or_rivals(w.queue, c, id) {
        begins_chain(w.queue, mid.queue, after.queue);
        assert forall|k: int| 0 <= k < w.queue.len() implies #[trigger] after.queue[0 + k]
            == w.queue[k] by {}
        holding_stays(c, id, w.queue, after.queue, 0);
    } else {
        let slot = choose|slot: int| waits(set, w, set.nodes[node], None, 0, slot);
        assert(is_single(w.steps[slot]));
        plans_look_after(set, w, start, slot as usize, key);
        if p.pending.count(step_rank(set, w.steps[slot], slot)) > 0 {
            assert(waits(set, mid, set.nodes[node], None, 0, slot));
            waits_on(set, mid, after, set.nodes[node], None, 0, slot);
        } else {
            let i = choose|i: int|
                0 <= i < p.fetches.len() && (#[trigger] p.fetches[i]).key_id == id
                    && p.fetches[i].single;
            leaves_are_fetched(
                set,
                scale,
                root,
                node,
                key,
                list,
                at,
                w,
                ready,
                p.fetches,
                lists,
                n,
                i,
            );
            assert forall|k: int| 0 <= k < mid.queue.len() implies #[trigger] after.queue[0 + k]
                == mid.queue[k] by {}
            holding_stays(c, id, mid.queue, after.queue, 0);
        }
    }
}

proof fn walks_keep_leaf_course<F: Fn(u64, u16, u64, u8) -> Measure>(
    set: Setting,
    scale: F,
    root: StackableNode,
    states: Seq<WalkView>,
    node: NodeIndex,
    key: int,
    list: Seq<MatchEntry>,
    at: int,
    i: int,
)
    requires
        is_walk(set, scale, root, states),
        is_leaf(set, scale, root.children@, node, key, list),
        nodes_have_parts(set),
        keys_differ(set.parts),
        0 <= at < leaf_contexts(
            list,
            node_part(set.parts, set.nodes[node]),
            node_part(set.parts, set.nodes[node]).match_keys@[key].id,
        ).len(),
        0 <= i < states.len(),
        states.last().steps.len() <= usize::MAX,
        states.last().queue.len() < TREE_CONTEXTS,
    ensures
        leaf_is_on_course(
            set,
            node,
            leaf_contexts(
                list,
                node_part(set.parts, set.nodes[node]),
                node_part(set.parts, set.nodes[node]).match_keys@[key].id,
            )[at],
            node_part(set.parts, set.nodes[node]).match_keys@[key].id,
            states[i],
        ),
    decreases i,
{
    let last = states.len() - 1;
    walk_lens(set, scale, root, states, i, last);
    if i == 0 {
        let kids = root.children@;
        let slots = roots_join(set, kids, kids.len() as int);
        let c = choose|c: int| 0 <= c < kids.len() && kids[c] == node;
        assert(waits(set, states[0], set.nodes[kids[c]], None, 0, slots[c]));
    } else {
        walks_keep_leaf_course(set, scale, root, states, node, key, list, at, i - 1);
        walk_lens(set, scale, root, states, i - 1, last);
        assert(is_move(set, scale, states, i));
        let w = states[i - 1];
        let lists = choose|lists: Seq<Seq<MatchEntry>>| #[trigger]
            are_fetch_answers(set, scale, planned(set, w, plan_start(w)).fetches, lists)
                && states[i] == chunk_done(set, w, lists);
        chunks_keep_leaf_course(set, scale, root.children@, node, key, list, at, w, lists);
    }
}

/// Where a part of the query stands alone in the tree, each feature that one of its keys matches is
/// found: the answer has a context of just one match of the feature, and no match of the feature
/// that was found later ranks higher. Only where forty contexts of the answer begin with a match of
/// the same key, and none of them is less relevant, it may have had to make room for them. The answer
/// is not full, and no quota stands against the lookup. A match of feature 0 that ranks lowest of all
/// may count for nothing.
pub proof fn features_of_leaves_are_found<F: Fn(u64, u16, u64, u8) -> Measure>(
    tree: StackableTree,
    opts: MatchOpts,
    scale: F,
    end: WalkView,
    out: Seq<ContextView>,
    node: NodeIndex,
    key: int,
    list: Seq<MatchEntry>,
    i: int,
) -> (r: (Option<int>, int))
    requires
        is_stack_tree(tree),
        !tree.arena.spent(),
        ends_in(setting_of(tree, opts), scale, tree.root, end),
        end.steps.len() <= usize::MAX,
        !end.too_many,
        is_walk_answer(end, out),
        out.len() < 800,
        keys_differ(tree.phrasematches@),
        is_leaf(setting_of(tree, opts), scale, tree.root.children@, node, key, list),
        0 <= i < list.len(),
        list[i].grid_entry.id != 0 || list[i].scoredist > 0,
    ensures
        ({
            let set = setting_of(tree, opts);
            let part = node_part(set.parts, set.nodes[node]);
            let id = part.match_keys@[key].id;
            let m = r.1;
            let relev = list[m].grid_entry.relev * part.weight;
            &&& 0 <= m < list.len()
            &&& list[m].grid_entry.id == list[i].grid_entry.id
            &&& forall|j: int|
                m < j < list.len() && (#[trigger] list[j]).grid_entry.id == list[i].grid_entry.id
                    ==> list[j].scoredist <= list[m].scoredist
            &&& match r.0 {
                Some(k) => {
                    &&& 0 <= k < out.len()
                    &&& out[k].entries == seq![coalesce_entry(list[m], part, id)]
                    &&& out[k].mask == part.mask
                    &&& out[k].relev == relev
                },
                None => out.to_multiset().filter(|c: ContextView| is_rival(c, id, relev)).len()
                    >= 40,
            }
        }),
{
    let set = setting_of(tree, opts);
    let part = node_part(set.parts, set.nodes[node]);
    let group = part.match_keys@[key];
    let id = group.id;
    nodes_of_trees_have_parts(tree, opts);
    let f = FetchView { single: true, ..lookup(set, set.nodes[node].phrasematch->Some_0, group) };
    let store = *set.parts[f.part as int].store;
    queries_find_no_more(
        store,
        f.key,
        f.opts,
        meter_of(scale, store.coalesce_radius, f.opts.zoom),
        80,
        list,
    );
    let (at, m) = features_of_a_leaf_have_their_contexts(list, part, id, i);
    let c = leaf_contexts(list, part, id)[at];
    let states = choose|states: Seq<WalkView>| #[trigger]
        is_walk(set, scale, tree.root, states) && states.last() == end;
    let last = states.len() - 1;
    walk_lens(set, scale, tree.root, states, last, last);
    assert(end.queue.len() == out.len()) by {
        broadcast use vstd::seq_lib::group_to_multiset_ensures;

        assert(end.queue.to_multiset().len() == end.queue.len());
        assert(out.to_multiset().len() == out.len());
    }
    walks_keep_leaf_course(set, scale, tree.root, states, node, key, list, at, last);
    assert(!end.complete && end.pending.len() == 0);
    if !holds_or_rivals(end.queue, c, id) {
        let slot = choose|slot: int| waits(set, end, set.nodes[node], None, 0, slot);
        vstd::multiset::lemma_multiset_empty_len(end.pending);
        assert(end.pending.count(step_rank(set, end.steps[slot], slot)) > 0);
    }
    if end.queue.contains(c) {
        let a = choose|a: int| 0 <= a < end.queue.len() && end.queue[a] == c;
        (Some(place_in(end.queue, out, a)), m)
    } else {
        rivals_count(end.queue, id, c.relev as int);
        (None, m)
    }
}

} // verus!
