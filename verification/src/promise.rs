//! Which steps of a walk come first, what they can reach, and which lookups are not worth it.

use vstd::prelude::*;

use crate::arena::StackableNode;
use crate::coalesce::{context_rank, ContextView};
use crate::common::MatchPhrase;
use crate::decode::{meter_of, MatchEntry};
use crate::outside::NodeIndex;
use crate::queue::{highest_place_ok, lowest_place, lowest_place_ok};
use crate::rank::{extremes_exist, highest, rank_below, RankKey};
use crate::spatial::{all_edges, edges, opts_at_zoom, Measure};
use crate::stackable::MatchKeyWithId;
use crate::store::answers_query;
use crate::tree::top_relev;
use crate::walk::{
    answers_fetch, is_futile, key_request, keys_planned, new_step, node_part, pending_ok, plan_made,
    planned, step_done, step_made, step_planned, step_rank, with_children, FetchView, PlanView,
    Setting, StepView, WalkView,
};

verus! {

pub(crate) proof fn keys_keep_pending(set: Setting, w: WalkView, s: StepView, p: PlanView, n: int)
    ensures
        keys_planned(set, w, s, p, n).pending == p.pending,
    decreases n,
{
    if n > 0 {
        keys_keep_pending(set, w, s, p, n - 1);
    }
}

/// The most promising step comes first: none that is pending can become more relevant; of those that
/// can become as relevant, it is one whose index has the proximity point, if there is one; and of
/// those, none has an index with a higher score.
pub proof fn the_most_promising_step_comes_first(set: Setting, w: WalkView, p: PlanView) -> (first:
    int)
    requires
        w.steps.len() <= usize::MAX,
        pending_ok(set, w.steps, p.pending),
        p.pending.len() > 0,
    ensures
        0 <= first < w.steps.len(),
        p.pending.count(step_rank(set, w.steps[first], first)) > 0,
        step_planned(set, w, p).pending == p.pending.remove(
            step_rank(set, w.steps[first], first),
        ),
        forall|slot: int|
            #![trigger w.steps[slot]]
            0 <= slot < w.steps.len() && p.pending.count(step_rank(set, w.steps[slot], slot)) > 0
                ==> {
                let a = w.steps[first];
                let b = w.steps[slot];
                ||| a.node.max_relev > b.node.max_relev
                ||| a.node.max_relev == b.node.max_relev && a.near && !b.near
                ||| a.node.max_relev == b.node.max_relev && a.near == b.near && node_part(
                    set.parts,
                    a.node,
                ).store.max_score >= node_part(set.parts, b.node).store.max_score
            },
{
    extremes_exist(p.pending);
    let k = highest(p.pending);
    assert(p.pending.count(k) > 0);
    let first = k.6 as int;
    let s = w.steps[first];
    keys_keep_pending(
        set,
        w,
        s,
        PlanView { pending: p.pending.remove(k), ..p },
        node_part(set.parts, s.node).match_keys@.len() as int,
    );
    assert forall|slot: int| #![trigger w.steps[slot]]
        0 <= slot < w.steps.len() && p.pending.count(step_rank(set, w.steps[slot], slot))
            > 0 implies {
        let a = w.steps[first];
        let b = w.steps[slot];
        ||| a.node.max_relev > b.node.max_relev
        ||| a.node.max_relev == b.node.max_relev && a.near && !b.near
        ||| a.node.max_relev == b.node.max_relev && a.near == b.near && node_part(
            set.parts,
            a.node,
        ).store.max_score >= node_part(set.parts, b.node).store.max_score
    } by {
        assert(p.pending.contains(step_rank(set, w.steps[slot], slot)));
    }
    first
}

/// A step is near exactly if the proximity point, at the zoom level of its index, lies in one of the
/// boxes of the index.
pub proof fn near_steps_have_the_point(
    set: Setting,
    node: StackableNode,
    prev: Option<Seq<ContextView>>,
    prev_zoom: u16,
    possible: int,
)
    ensures
        ({
            let store = node_part(set.parts, node).store;
            let point = opts_at_zoom(set.opts, store.zoom).proximity;
            new_step(set, node, prev, prev_zoom, possible).near <==> point is Some && exists|i: int|
                {
                    &&& 0 <= i < store.bboxes@.len()
                    &&& (#[trigger] store.bboxes@[i])[0] <= point->Some_0.0 <= store.bboxes@[i][2]
                    &&& store.bboxes@[i][1] <= point->Some_0.1 <= store.bboxes@[i][3]
                }
        }),
{
    let store = node_part(set.parts, node).store;
    let es = all_edges(store.bboxes@);
    assert forall|i: int| 0 <= i < store.bboxes@.len() implies #[trigger] es[i] == edges(
        store.bboxes@[i],
    ) by {}
    assert forall|i: int| 0 <= i < es.len() implies edges(#[trigger] store.bboxes@[i])
        == es[i] by {}
}

/// A lookup is hopeless only where nothing is to be stacked on what it finds, and where that can
/// come up to three quarters of the relevance of some context so far at most.
pub proof fn hopeless_lookups_fall_far_behind(
    set: Setting,
    w: WalkView,
    s: StepView,
    group: MatchKeyWithId,
    keys: Set<u64>,
)
    requires
        0 < w.queue.len() <= usize::MAX,
    ensures
        key_request(set, w, s, group, keys).hopeless <==> s.node.children@.len() == 0 && exists|
            i: int,
        |
            0 <= i < w.queue.len() && 4 * s.possible <= 3 * (#[trigger] w.queue[i]).relev,
{
    highest_place_ok(w.queue);
}

/// What is asked for a key tells what the key is: a range has two phrases or more, a slow index is of
/// zoom level 14 or finer. A key is fresh if it was not asked for yet; where a phrase stands alone,
/// it is asked for on its own.
pub proof fn requests_tell_what_keys_are(
    set: Setting,
    w: WalkView,
    s: StepView,
    group: MatchKeyWithId,
    keys: Set<u64>,
)
    ensures
        ({
            let r = key_request(set, w, s, group, keys);
            &&& r.is_range <==> match group.key.match_phrase {
                MatchPhrase::Exact(_) => false,
                MatchPhrase::Range { start, end } => end - start >= 2,
            }
            &&& r.slow <==> node_part(set.parts, s.node).store.zoom >= 14
            &&& r.one_letter <==> group.phrase_length == 1
            &&& r.nearby_only <==> group.nearby_only
            &&& r.fresh <==> !keys.contains(
                (2 * group.id + (if s.prev is None && s.node.children@.len() == 0 {
                    1int
                } else {
                    0
                })) as u64,
            )
        }),
{
}

proof fn top_is_reached(cs: Seq<ContextView>)
    ensures
        forall|k: int| 0 <= k < cs.len() ==> (#[trigger] cs[k]).relev <= top_relev(cs),
        top_relev(cs) == 0 || exists|k: int|
            0 <= k < cs.len() && (#[trigger] cs[k]).relev == top_relev(cs),
    decreases cs.len(),
{
    if cs.len() > 0 {
        let rest = cs.drop_last();
        let n = rest.len() as int;
        top_is_reached(rest);
        assert(cs[n] == cs.last());
        assert forall|k: int| 0 <= k < cs.len() implies (#[trigger] cs[k]).relev <= top_relev(
            cs,
        ) by {
            if k < n {
                assert(rest[k] == cs[k]);
            }
        }
        if cs.last().relev <= top_relev(rest) && top_relev(rest) != 0 {
            let k = choose|k: int|
                0 <= k < rest.len() && (#[trigger] rest[k]).relev == top_relev(rest);
            assert(cs[k] == rest[k]);
        }
    }
}

proof fn children_follow(
    set: Setting,
    w: WalkView,
    s: StepView,
    state: Seq<ContextView>,
    relev: int,
    n: int,
)
    requires
        0 <= n <= s.node.children@.len(),
    ensures
        ({
            let after = with_children(set, w, s, state, relev, n);
            &&& w.steps.len() <= after.steps.len()
            &&& forall|t: int|
                w.steps.len() <= t < after.steps.len() ==> is_follower(
                    set,
                    s,
                    state,
                    relev,
                    #[trigger] after.steps[t],
                )
        }),
    decreases n,
{
    if n > 0 {
        children_follow(set, w, s, state, relev, n - 1);
        let before = with_children(set, w, s, state, relev, n - 1);
        let after = with_children(set, w, s, state, relev, n);
        let index = s.node.children@[n - 1];
        assert forall|t: int| w.steps.len() <= t < after.steps.len() implies is_follower(
            set,
            s,
            state,
            relev,
            #[trigger] after.steps[t],
        ) by {
            if t < before.steps.len() {
                assert(after.steps[t] == before.steps[t]);
            } else {
                assert(s.node.children@.contains(index));
                assert(after.steps[t].node == set.nodes[index]);
            }
        }
    }
}

/// The step is of a child of the node, and to be stacked on the contexts.
spec fn is_follower(
    set: Setting,
    s: StepView,
    state: Seq<ContextView>,
    relev: int,
    step: StepView,
) -> bool {
    &&& is_child_of(set, s.node, step.node)
    &&& step.prev == Some(state)
    &&& step.prev_zoom == node_part(set.parts, s.node).store.zoom
    &&& step.possible == relev + 1000 * node_part(set.parts, step.node).weight
}

/// The tree holds the node as a child of the other.
pub open spec fn is_child_of(set: Setting, parent: StackableNode, node: StackableNode) -> bool {
    exists|i: NodeIndex| #[trigger]
        parent.children@.contains(i) && set.nodes.contains_key(i) && set.nodes[i] == node
}

/// What follows a step is to be stacked on all that the step made, and knows how relevant it can
/// become: as the most relevant of these contexts, with the weight of the part that it adds.
pub proof fn steps_know_what_they_can_reach(set: Setting, w: WalkView, slot: usize, t: int)
    requires
        slot < w.steps.len() <= t < step_done(set, w, slot).steps.len(),
    ensures
        ({
            let s = w.steps[slot as int];
            let step = step_done(set, w, slot).steps[t];
            let keys = node_part(set.parts, s.node).match_keys@.len() as int;
            let made = step_made(set, w, s, keys);
            let weight = node_part(set.parts, step.node).weight;
            &&& is_child_of(set, s.node, step.node)
            &&& step.prev == Some(made)
            &&& step.prev_zoom == node_part(set.parts, s.node).store.zoom
            &&& forall|k: int|
                0 <= k < made.len() ==> (#[trigger] made[k]).relev + 1000 * weight <= step.possible
            &&& step.possible == 1000 * weight || exists|k: int|
                0 <= k < made.len() && (#[trigger] made[k]).relev + 1000 * weight == step.possible
        }),
{
    let s = w.steps[slot as int];
    let keys = node_part(set.parts, s.node).match_keys@.len() as int;
    let made = step_made(set, w, s, keys);
    let n = s.node.children@.len() as int;
    top_is_reached(made);
    children_follow(set, w, s, made, top_relev(made), n);
    let after = with_children(set, w, s, made, top_relev(made), n);
    let step = step_done(set, w, slot).steps[t];
    if n == 0 {
        assert(after.steps == w.steps);
    }
    assert(step == after.steps[t]);
    assert(is_follower(set, s, made, top_relev(made), after.steps[t]));
}

/// A walk gives up what is pending only where it has all the contexts that it may keep, and nothing
/// that is pending can become more relevant than any of them.
pub proof fn walks_give_up_only_what_cannot_be_better(
    set: Setting,
    w: WalkView,
    p: PlanView,
    slot: int,
    i: int,
)
    requires
        w.steps.len() <= usize::MAX,
        w.queue.len() <= usize::MAX,
        pending_ok(set, w.steps, p.pending),
        !p.complete,
        planned(set, w, p).complete,
        0 <= slot < w.steps.len(),
        planned(set, w, p).pending.count(step_rank(set, w.steps[slot], slot)) > 0,
        0 <= i < w.queue.len(),
    ensures
        w.queue.len() >= 800,
        w.steps[slot].node.max_relev <= w.queue[i].relev,
    decreases p.pending.len(),
{
    if !plan_made(p) {
        extremes_exist(p.pending);
        let k = highest(p.pending);
        assert(p.pending.count(k) > 0);
        let s = w.steps[k.6 as int];
        let rank = step_rank(set, w.steps[slot], slot);
        let taken = PlanView { pending: p.pending.remove(k), ..p };
        let n = node_part(set.parts, s.node).match_keys@.len() as int;
        keys_keep_pending(set, w, s, taken, n);
        keys_keep_complete(set, w, s, taken, n);
        let q = step_planned(set, w, p);
        assert(q.pending == p.pending.remove(k));
        assert(pending_ok(set, w.steps, q.pending)) by {
            assert forall|o: RankKey| #[trigger] q.pending.count(o) > 0 implies q.pending.count(o)
                == 1 && o.6 < w.steps.len() && o == step_rank(
                set,
                w.steps[o.6 as int],
                o.6 as int,
            ) by {
                assert(p.pending.count(o) > 0);
            }
        }
        if q.complete {
            assert(is_futile(w, s));
            lowest_place_ok(w.queue);
            assert(!rank_below(
                context_rank(w.queue[i], 0),
                context_rank(w.queue[lowest_place(w.queue)], 0),
            ));
            assert(planned(set, w, q) == q);
            assert(p.pending.contains(rank));
        } else {
            walks_give_up_only_what_cannot_be_better(set, w, q, slot, i);
        }
    }
}

proof fn keys_keep_complete(set: Setting, w: WalkView, s: StepView, p: PlanView, n: int)
    ensures
        keys_planned(set, w, s, p, n).complete == p.complete,
    decreases n,
{
    if n > 0 {
        keys_keep_complete(set, w, s, p, n - 1);
    }
}

/// A step fails exactly if contexts are to be stacked on, or to be answered with, that 32 bits can not
/// number.
pub proof fn steps_fail_only_beyond_all_numbers(set: Setting, w: WalkView, slot: usize)
    requires
        !w.too_many,
    ensures
        ({
            let s = w.steps[slot as int];
            let keys = node_part(set.parts, s.node).match_keys@.len() as int;
            step_done(set, w, slot).too_many <==> step_made(set, w, s, keys).len() > 0xffff_ffff && (
            s.prev is None || s.node.children@.len() > 0)
        }),
{
    let s = w.steps[slot as int];
    let keys = node_part(set.parts, s.node).match_keys@.len() as int;
    let made = step_made(set, w, s, keys);
    children_keep_count(set, w, s, made, top_relev(made), s.node.children@.len() as int);
}

proof fn children_keep_count(
    set: Setting,
    w: WalkView,
    s: StepView,
    state: Seq<ContextView>,
    relev: int,
    n: int,
)
    ensures
        with_children(set, w, s, state, relev, n).too_many == w.too_many,
    decreases n,
{
    if n > 0 {
        children_keep_count(set, w, s, state, relev, n - 1);
    }
}

/// A lookup for a phrase that stands alone asks for the best 80 matches, any other one for the best
/// 2000.
pub proof fn lookups_ask_for_so_many<F: Fn(u64, u16, u64, u8) -> Measure>(
    set: Setting,
    scale: F,
    f: FetchView,
    grids: Seq<MatchEntry>,
)
    ensures
        answers_fetch(set, scale, f, grids) <==> ({
            let store = *set.parts[f.part as int].store;
            answers_query(
                store,
                f.key,
                f.opts,
                meter_of(scale, store.coalesce_radius, f.opts.zoom),
                if f.single {
                    80
                } else {
                    2000
                },
                grids,
            )
        }),
{
}

} // verus!
