//! Going through a stackable tree, the most promising combinations first.

use std::collections::{HashMap, HashSet};
use std::sync::Arc;
use vstd::multiset::Multiset;
use vstd::prelude::*;

use crate::arena::{Nodes, StackableNode};
use crate::coalesce::{
    coalesce_entries, contexts_view, is_lookup, CoalesceContext, ContextView, MAX_CONTEXTS,
    MAX_ENTRY_RELEV, MAX_GRIDS_PER_PHRASE, SINGLE_FETCH,
};
use crate::common::{MatchKey, MatchOpts, MatchPhrase};
use crate::decode::{meter_of, MatchEntry};
use crate::error::{Result, StorageError};
use crate::multi::{best_first, context_ok, contexts_ok, RELEV_LIMIT};
use crate::order::place_in;
use crate::outside::{has_point_in, share_state, NodeIndex, RankHeap};
use crate::queue::{
    highest_place, lowest_place, queue_holds_what_it_was_offered, queued_all,
    ConstrainedPriorityQueue,
};
use crate::quota::{charged, is_one_word, ones, KeyRequest, Quotas};
use crate::rank::{highest, highest_is_unique, is_highest, RankKey};
use crate::spatial::{
    adjust_bbox_zoom, all_edges, augmented, box_at_zoom, edges, in_box, is_scale, maybe_edges,
    opts_at_zoom, point_in_box, Edges, Measure, OptsView,
};
use crate::stackable::{
    bins_of, child_fits, children_size, is_stack_tree, node_fits, part_relev, stem_of, tree_size,
    MatchKeyWithId, PhrasematchSubquery, StackableTree, RELEV_PER_WEIGHT,
};
use crate::store::{answers_query, HIGH_ZOOM};
use crate::tiles::{
    all_at_zoom, all_in_one_tile, both_at_zoom, entries_of_part, is_in_one_tile, leaves_share,
    made_all_share, penalized_share,
};
use crate::tree::{
    all_fair, all_penalized, dedup_grids, harvest_key, harvest_ok, is_fair, leaf_contexts,
    made_of_all, penalized_are_fair, prev_contexts, prev_ok, sum_in_bounds, sum_ok, sums_ok,
    top_relev, tree_coalesce_single, unique_grids, Harvest, TreeCoalesceState,
    COALESCE_CHUNK_SIZE, TREE_CONTEXTS,
};
use crate::words::{
    all_apart, all_cover, both_cover, cover_grows, cover_starts, is_apart, is_cover, leaves_cover,
    made_all_cover, penalized_are_apart, queued_are_apart,
};

verus! {

broadcast use vstd::std_specs::hash::group_hash_axioms;

// ---------------------------------------------------------------------------------------------
// Steps
// ---------------------------------------------------------------------------------------------

/// What a walk goes by: the parts of the query, the nodes of the tree and the options.
pub struct Setting<'a> {
    pub parts: Seq<PhrasematchSubquery<'a>>,
    pub nodes: Nodes,
    pub opts: OptsView,
}

/// A combination that is to be gone through.
#[verifier::ext_equal]
pub struct StepView {
    pub node: StackableNode,
    /// What the parent combination matched, if it is not the empty one
    pub prev: Option<Seq<ContextView>>,
    /// The zoom level of the last part of the parent combination
    pub prev_zoom: u16,
    /// The options at the zoom level of the last part
    pub opts: OptsView,
    /// The relevance that the contexts of the combination can have
    pub possible: int,
    /// The index of the last part covers the proximity point
    pub near: bool,
}

/// The last part of the combination of a node.
pub open spec fn node_part<'a>(parts: Seq<PhrasematchSubquery<'a>>, node: StackableNode) -> PhrasematchSubquery<'a> {
    parts[node.phrasematch->Some_0 as int]
}

/// One of the boxes has the point.
pub open spec fn any_box_has(boxes: Seq<Edges>, x: u16, y: u16) -> bool {
    exists|i: int| 0 <= i < boxes.len() && in_box(#[trigger] boxes[i], x, y)
}

/// The step of a node.
pub open spec fn new_step(
    set: Setting,
    node: StackableNode,
    prev: Option<Seq<ContextView>>,
    prev_zoom: u16,
    possible: int,
) -> StepView {
    let part = node_part(set.parts, node);
    let opts = opts_at_zoom(set.opts, part.store.zoom);
    StepView {
        node,
        prev,
        prev_zoom,
        opts,
        possible,
        near: match opts.proximity {
            Some(p) => any_box_has(all_edges(part.store.bboxes@), p.0, p.1),
            None => false,
        },
    }
}

/// The rank of a step: by the relevance that the node can reach, then whether it is near, then by
/// the highest score of the index.
pub open spec fn step_rank(set: Setting, s: StepView, slot: int) -> RankKey {
    (
        s.node.max_relev,
        if s.near {
            1
        } else {
            0
        },
        node_part(set.parts, s.node).store.max_score,
        0,
        0,
        0,
        slot as usize,
    )
}

pub(crate) struct CoalesceStep<'t> {
    node: &'t StackableNode,
    prev_state: Option<Arc<TreeCoalesceState>>,
    prev_zoom: u16,
    match_opts: MatchOpts,
    possible_relev: i128,
    contains_prox: bool,
}

impl<'t> View for CoalesceStep<'t> {
    type V = StepView;

    closed spec fn view(&self) -> StepView {
        StepView {
            node: *self.node,
            prev: prev_contexts(self.prev_state),
            prev_zoom: self.prev_zoom,
            opts: self.match_opts@,
            possible: self.possible_relev as int,
            near: self.contains_prox,
        }
    }
}

/// The children of the node that the arena holds are at no lower zoom level.
pub open spec fn children_finer(tree: StackableTree, node: StackableNode) -> bool {
    forall|k: int|
        0 <= k < node.children@.len() && tree.arena.nodes().contains_key(
            #[trigger] node.children@[k],
        ) ==> node_part(tree.phrasematches@, node).store.zoom <= node_part(
            tree.phrasematches@,
            tree.arena.nodes()[node.children@[k]],
        ).store.zoom
}

/// The node stands for a combination of the tree.
pub open spec fn node_ok(tree: StackableTree, node: StackableNode) -> bool {
    let parts = tree.phrasematches@;
    let bins = bins_of(parts);
    &&& node.phrasematch is Some
    &&& node.phrasematch->Some_0 < parts.len()
    &&& 1 <= node.level <= bins.len()
    &&& bins[node.level - 1].members.contains(node.phrasematch->Some_0)
    &&& node_fits(parts, bins, node, tree.arena)
    &&& children_finer(tree, node)
}

spec fn step_ok(tree: StackableTree, s: CoalesceStep) -> bool {
    let zoom = node_part(tree.phrasematches@, *s.node).store.zoom;
    &&& node_ok(tree, *s.node)
    &&& s.match_opts.zoom == zoom
    &&& is_cover(
        prev_contexts(s.prev_state),
        s.node.mask,
        node_part(tree.phrasematches@, *s.node).mask,
    )
    &&& s.prev_state matches Some(state) ==> state.wf() && state.contexts@.len() <= u32::MAX
        && s.prev_zoom <= zoom && all_at_zoom(
        tree.phrasematches@,
        contexts_view(state.contexts@),
        s.prev_zoom,
    )
    &&& 0 <= s.possible_relev < RELEV_LIMIT
}

impl<'t> CoalesceStep<'t> {
    fn new(
        tree: &'t StackableTree,
        node: &'t StackableNode,
        prev_state: Option<Arc<TreeCoalesceState>>,
        prev_zoom: u16,
        match_opts: &MatchOpts,
        possible_relev: i128,
        Ghost(set): Ghost<Setting>,
    ) -> (step: CoalesceStep<'t>)
        requires
            node_ok(*tree, *node),
            set.parts == tree.phrasematches@,
            set.opts == match_opts@,
            is_cover(
                prev_contexts(prev_state),
                node.mask,
                node_part(tree.phrasematches@, *node).mask,
            ),
            prev_state matches Some(state) ==> state.wf() && state.contexts@.len() <= u32::MAX
                && prev_zoom <= node_part(tree.phrasematches@, *node).store.zoom && all_at_zoom(
                tree.phrasematches@,
                contexts_view(state.contexts@),
                prev_zoom,
            ),
            0 <= possible_relev < RELEV_LIMIT,
        ensures
            step@ == new_step(
                set,
                *node,
                prev_contexts(prev_state),
                prev_zoom,
                possible_relev as int,
            ),
            step_ok(*tree, step),
    {
        let p: usize = match node.phrasematch {
            Some(p) => p,
            None => 0,
        };
        let subquery: &PhrasematchSubquery = &tree.phrasematches[p];
        let adjusted: MatchOpts = match_opts.adjust_to_zoom(subquery.store.zoom);
        assert(adjusted.zoom == adjusted@.zoom);
        let contains_prox: bool = match adjusted.proximity {
            Some(prox) => {
                let boxes: &Vec<[u16; 4]> = &subquery.store.bboxes;
                let ghost es = all_edges(boxes@);
                let mut found: bool = false;
                let mut i: usize = 0;
                while i < boxes.len()
                    invariant
                        i <= boxes@.len(),
                        es == all_edges(boxes@),
                        found <==> exists|j: int|
                            0 <= j < i && in_box(#[trigger] es[j], prox[0], prox[1]),
                    decreases boxes@.len() - i,
                {
                    assert(es[i as int] == edges(boxes@[i as int]));
                    if point_in_box(&boxes[i], prox[0], prox[1]) {
                        found = true;
                    }
                    i += 1;
                }
                found
            },
            None => false,
        };
        CoalesceStep {
            node,
            prev_state,
            prev_zoom,
            match_opts: adjusted,
            possible_relev,
            contains_prox,
        }
    }

    fn rank_key(&self, tree: &StackableTree, slot: usize, Ghost(set): Ghost<Setting>) -> (key:
        RankKey)
        requires
            step_ok(*tree, *self),
            set.parts == tree.phrasematches@,
        ensures
            key == step_rank(set, self@, slot as int),
    {
        let p: usize = match self.node.phrasematch {
            Some(p) => p,
            None => 0,
        };
        let near: u64 = if self.contains_prox {
            1
        } else {
            0
        };
        (self.node.max_relev, near, tree.phrasematches[p].store.max_score, 0, 0, 0, slot)
    }
}

// ---------------------------------------------------------------------------------------------
// State
// ---------------------------------------------------------------------------------------------

/// How far a walk has come.
#[verifier::ext_equal]
pub struct WalkView {
    /// The best contexts so far
    pub queue: Seq<ContextView>,
    /// All steps, each at its slot
    pub steps: Seq<StepView>,
    /// The ranks of the steps that are still to be done
    pub pending: Multiset<RankKey>,
    /// The matches of the keys that were looked up
    pub cache: Map<u32, Seq<MatchEntry>>,
    pub quotas: Quotas,
    /// Nothing that is still to be done can better the contexts
    pub complete: bool,
    /// A combination matched more contexts than can be numbered
    pub too_many: bool,
}

/// There is nothing more to be done.
pub open spec fn is_finished(w: WalkView) -> bool {
    w.pending.len() == 0 || w.complete || w.too_many
}

pub(crate) struct Walk<'t> {
    contexts: ConstrainedPriorityQueue,
    steps: Vec<CoalesceStep<'t>>,
    pending: RankHeap,
    cache: HashMap<u32, Vec<MatchEntry>>,
    quotas: Quotas,
    complete: bool,
    too_many: bool,
}

spec fn steps_view(steps: Seq<CoalesceStep>) -> Seq<StepView> {
    steps.map_values(|s: CoalesceStep| s@)
}

spec fn cache_view(cache: Map<u32, Vec<MatchEntry>>) -> Map<u32, Seq<MatchEntry>> {
    cache.map_values(|g: Vec<MatchEntry>| g@)
}

impl<'t> View for Walk<'t> {
    type V = WalkView;

    closed spec fn view(&self) -> WalkView {
        WalkView {
            queue: self.contexts@,
            steps: steps_view(self.steps@),
            pending: self.pending@,
            cache: cache_view(self.cache@),
            quotas: self.quotas,
            complete: self.complete,
            too_many: self.too_many,
        }
    }
}

/// Each pending rank is that of the step at its slot, and pending once.
pub open spec fn pending_ok(set: Setting, steps: Seq<StepView>, pending: Multiset<RankKey>) -> bool {
    forall|k: RankKey| #[trigger]
        pending.count(k) > 0 ==> pending.count(k) == 1 && k.6 < steps.len() && k == step_rank(
            set,
            steps[k.6 as int],
            k.6 as int,
        )
}

spec fn walk_ok(tree: StackableTree, set: Setting, w: Walk) -> bool {
    &&& w.contexts.wf()
    &&& w.contexts.max_size == TREE_CONTEXTS
    &&& all_fair(w.contexts@)
    &&& all_in_one_tile(tree.phrasematches@, w.contexts@)
    &&& all_apart(w.contexts@)
    &&& forall|i: int| 0 <= i < w.steps@.len() ==> step_ok(tree, #[trigger] w.steps@[i])
    &&& pending_ok(set, w@.steps, w@.pending)
    &&& w.steps@.len() <= usize::MAX
}

/// The walk with one more step.
pub open spec fn with_step(set: Setting, w: WalkView, s: StepView) -> WalkView {
    WalkView {
        steps: w.steps.push(s),
        pending: w.pending.insert(step_rank(set, s, w.steps.len() as int)),
        ..w
    }
}

pub(crate) proof fn pending_ok_push(set: Setting, steps: Seq<StepView>, pending: Multiset<RankKey>, s: StepView)
    requires
        pending_ok(set, steps, pending),
        steps.len() < usize::MAX,
    ensures
        pending_ok(
            set,
            steps.push(s),
            pending.insert(step_rank(set, s, steps.len() as int)),
        ),
        pending.count(step_rank(set, s, steps.len() as int)) == 0,
{
    let key = step_rank(set, s, steps.len() as int);
    let more = pending.insert(key);
    let all = steps.push(s);
    assert(pending.count(key) == 0) by {
        if pending.count(key) > 0 {
            assert(key.6 < steps.len());
        }
    }
    assert forall|k: RankKey| #[trigger] more.count(k) > 0 implies more.count(k) == 1 && k.6
        < all.len() && k == step_rank(set, all[k.6 as int], k.6 as int) by {
        if k != key {
            assert(pending.count(k) > 0);
        }
    }
}

/// The number of nodes that the pending steps, among the first `n`, still lead to.
pub open spec fn pending_size(
    set: Setting,
    levels: int,
    steps: Seq<StepView>,
    pending: Multiset<RankKey>,
    n: int,
) -> nat
    decreases n,
{
    if n <= 0 {
        0
    } else {
        pending_size(set, levels, steps, pending, n - 1) + (if pending.count(
            step_rank(set, steps[n - 1], n - 1),
        ) > 0 {
            tree_size(set.nodes, levels, steps[n - 1].node)
        } else {
            0
        })
    }
}

proof fn pending_size_same(
    set: Setting,
    levels: int,
    s1: Seq<StepView>,
    p1: Multiset<RankKey>,
    s2: Seq<StepView>,
    p2: Multiset<RankKey>,
    n: int,
)
    requires
        n <= s1.len(),
        n <= s2.len(),
        forall|i: int|
            0 <= i < n ==> #[trigger] s1[i] == s2[i] && (p1.count(step_rank(set, s1[i], i)) > 0
                <==> p2.count(step_rank(set, s1[i], i)) > 0),
    ensures
        pending_size(set, levels, s1, p1, n) == pending_size(set, levels, s2, p2, n),
    decreases n,
{
    if n > 0 {
        pending_size_same(set, levels, s1, p1, s2, p2, n - 1);
        assert(s1[n - 1] == s2[n - 1]);
    }
}

proof fn pending_size_push(
    set: Setting,
    levels: int,
    steps: Seq<StepView>,
    pending: Multiset<RankKey>,
    s: StepView,
)
    requires
        pending_ok(set, steps, pending),
        steps.len() < usize::MAX,
    ensures
        pending_size(
            set,
            levels,
            steps.push(s),
            pending.insert(step_rank(set, s, steps.len() as int)),
            steps.len() as int + 1,
        ) == pending_size(set, levels, steps, pending, steps.len() as int) + tree_size(
            set.nodes,
            levels,
            s.node,
        ),
{
    let n = steps.len() as int;
    let key = step_rank(set, s, n);
    let all = steps.push(s);
    let more = pending.insert(key);
    assert forall|i: int| 0 <= i < n implies #[trigger] steps[i] == all[i] && (pending.count(
        step_rank(set, steps[i], i),
    ) > 0 <==> more.count(step_rank(set, steps[i], i)) > 0) by {
        assert(step_rank(set, steps[i], i).6 == i);
        assert(key.6 == n);
    }
    pending_size_same(set, levels, steps, pending, all, more, n);
    assert(more.count(key) > 0);
    assert(all[n] == s);
}

proof fn pending_size_pop(
    set: Setting,
    levels: int,
    steps: Seq<StepView>,
    pending: Multiset<RankKey>,
    k: RankKey,
    n: int,
)
    requires
        pending_ok(set, steps, pending),
        pending.count(k) > 0,
        0 <= n <= steps.len() <= usize::MAX,
    ensures
        pending_size(set, levels, steps, pending.remove(k), n) + (if k.6 < n {
            tree_size(set.nodes, levels, steps[k.6 as int].node)
        } else {
            0
        }) == pending_size(set, levels, steps, pending, n),
        pending_ok(set, steps, pending.remove(k)),
    decreases n,
{
    let rest = pending.remove(k);
    assert(pending_ok(set, steps, rest)) by {
        assert forall|o: RankKey| #[trigger] rest.count(o) > 0 implies rest.count(o) == 1 && o.6
            < steps.len() && o == step_rank(set, steps[o.6 as int], o.6 as int) by {
            assert(pending.count(o) > 0);
        }
    }
    if n > 0 {
        pending_size_pop(set, levels, steps, pending, k, n - 1);
        let here = step_rank(set, steps[n - 1], n - 1);
        assert(here.6 == n - 1);
        if k.6 == n - 1 {
            assert(k == here);
        } else {
            assert(k != here);
        }
    }
}

// ---------------------------------------------------------------------------------------------
// Planning
// ---------------------------------------------------------------------------------------------

/// A key that is to be looked up.
pub struct FetchView {
    pub key_id: u32,
    /// The part of the query that the key belongs to
    pub part: usize,
    pub key: MatchKey,
    pub opts: OptsView,
    /// The combination is that part alone, and nothing is stacked on it
    pub single: bool,
}

pub(crate) struct KeyFetchStep {
    key_id: u32,
    part: usize,
    key: MatchKey,
    match_opts: MatchOpts,
    is_single: bool,
}

impl View for KeyFetchStep {
    type V = FetchView;

    closed spec fn view(&self) -> FetchView {
        FetchView {
            key_id: self.key_id,
            part: self.part,
            key: self.key,
            opts: self.match_opts@,
            single: self.is_single,
        }
    }
}

/// What the next steps need.
#[verifier::ext_equal]
pub struct PlanView {
    pub pending: Multiset<RankKey>,
    pub quotas: Quotas,
    /// The keys that are to be looked up, by their codes
    pub keys: Set<u64>,
    pub fetches: Seq<FetchView>,
    /// The slots of the steps that are to be done
    pub chunk: Seq<usize>,
    /// The number of steps that bring work
    pub added: nat,
    pub complete: bool,
}

/// A key, and whether it is looked up for a single phrase, as a number.
pub open spec fn key_code(id: u32, single: bool) -> u64 {
    (id * 2 + (if single {
        1int
    } else {
        0
    })) as u64
}

/// The combination is a single phrase, and nothing is stacked on it.
pub open spec fn is_single(s: StepView) -> bool {
    s.prev is None && s.node.children@.len() == 0
}

/// The key is a range of more than one phrase.
pub open spec fn is_wide(phrase: MatchPhrase) -> bool {
    match phrase {
        MatchPhrase::Exact(_) => false,
        MatchPhrase::Range { start, end } => end > start + 1,
    }
}

/// The relevance of the best context, none if there is none.
pub open spec fn best_relev(queue: Seq<ContextView>) -> int {
    if queue.len() > 0 {
        queue[highest_place(queue)].relev as int
    } else {
        0
    }
}

/// What a step asks for with a key.
pub open spec fn key_request(
    set: Setting,
    w: WalkView,
    s: StepView,
    group: MatchKeyWithId,
    keys: Set<u64>,
) -> KeyRequest {
    let part = node_part(set.parts, s.node);
    KeyRequest {
        is_range: is_wide(group.key.match_phrase),
        one_word: ones(part.mask as nat) == 1,
        slow: part.store.zoom >= HIGH_ZOOM,
        hopeless: s.node.children@.len() == 0 && 4 * s.possible <= 3 * best_relev(w.queue),
        fresh: !keys.contains(key_code(group.id, is_single(s))),
        one_letter: group.phrase_length == 1,
        nearby_only: group.nearby_only,
    }
}

/// The options for a key of a step.
pub open spec fn key_opts(s: StepView, group: MatchKeyWithId) -> OptsView {
    if group.nearby_only || group.bounds is Some {
        augmented(s.opts, group.nearby_only, maybe_edges(group.bounds))
    } else {
        s.opts
    }
}

/// The plan after a key of a step: it is looked up if that was not done before and the quotas allow
/// it.
pub open spec fn key_planned(
    set: Setting,
    w: WalkView,
    s: StepView,
    p: PlanView,
    group: MatchKeyWithId,
) -> PlanView {
    let single = is_single(s);
    let code = key_code(group.id, single);
    if !single && w.cache.contains_key(group.id) {
        p
    } else {
        let (quotas, ok) = charged(p.quotas, key_request(set, w, s, group, p.keys));
        if ok && !p.keys.contains(code) {
            PlanView {
                quotas,
                keys: p.keys.insert(code),
                fetches: p.fetches.push(
                    FetchView {
                        key_id: group.id,
                        part: s.node.phrasematch->Some_0,
                        key: group.key,
                        opts: key_opts(s, group),
                        single,
                    },
                ),
                ..p
            }
        } else {
            PlanView { quotas, ..p }
        }
    }
}

/// The plan after the first `n` keys of a step.
pub open spec fn keys_planned(
    set: Setting,
    w: WalkView,
    s: StepView,
    p: PlanView,
    n: int,
) -> PlanView
    decreases n,
{
    if n <= 0 {
        p
    } else {
        key_planned(
            set,
            w,
            s,
            keys_planned(set, w, s, p, n - 1),
            node_part(set.parts, s.node).match_keys@[n - 1],
        )
    }
}

/// The step can not better the contexts: there are enough, and it can not become more relevant than
/// the lowest of them.
pub open spec fn is_futile(w: WalkView, s: StepView) -> bool {
    w.queue.len() >= TREE_CONTEXTS && s.node.max_relev <= w.queue[lowest_place(w.queue)].relev
}

/// The plan after the pending step with the highest rank. With a step that can not better the
/// contexts the walk is complete.
pub open spec fn step_planned(set: Setting, w: WalkView, p: PlanView) -> PlanView {
    let k = highest(p.pending);
    let slot = k.6;
    let s = w.steps[slot as int];
    let taken = PlanView { pending: p.pending.remove(k), ..p };
    if is_futile(w, s) {
        PlanView { complete: true, ..taken }
    } else {
        let q = keys_planned(
            set,
            w,
            s,
            taken,
            node_part(set.parts, s.node).match_keys@.len() as int,
        );
        let works = !is_single(s) || q.fetches.len() > p.fetches.len();
        PlanView {
            chunk: if is_single(s) {
                q.chunk
            } else {
                q.chunk.push(slot)
            },
            added: if works {
                q.added + 1
            } else {
                q.added
            },
            ..q
        }
    }
}

/// The plan is made: the walk is complete, there is work enough, or nothing is pending.
pub open spec fn plan_made(p: PlanView) -> bool {
    p.complete || p.added >= COALESCE_CHUNK_SIZE || p.pending.len() == 0
}

/// The plan, worked out from `p` on.
pub open spec fn planned(set: Setting, w: WalkView, p: PlanView) -> PlanView
    decreases p.pending.len(),
{
    if plan_made(p) {
        p
    } else {
        let q = step_planned(set, w, p);
        if q.pending.len() < p.pending.len() {
            planned(set, w, q)
        } else {
            p
        }
    }
}

/// The plan before the first step.
pub open spec fn plan_start(w: WalkView) -> PlanView {
    PlanView {
        pending: w.pending,
        quotas: w.quotas,
        keys: Set::empty(),
        fetches: Seq::empty(),
        chunk: Seq::empty(),
        added: 0,
        complete: w.complete,
    }
}

pub(crate) struct ChunkPlan {
    keys: HashSet<u64>,
    fetches: Vec<KeyFetchStep>,
    chunk: Vec<usize>,
    added: usize,
}

spec fn fetches_view(fetches: Seq<KeyFetchStep>) -> Seq<FetchView> {
    fetches.map_values(|f: KeyFetchStep| f@)
}

spec fn plan_view(w: Walk, p: ChunkPlan) -> PlanView {
    PlanView {
        pending: w.pending@,
        quotas: w.quotas,
        keys: p.keys@,
        fetches: fetches_view(p.fetches@),
        chunk: p.chunk@,
        added: p.added as nat,
        complete: w.complete,
    }
}

/// The keys that are to be looked up can be.
spec fn fetches_ok(tree: StackableTree, fetches: Seq<KeyFetchStep>) -> bool {
    forall|i: int|
        0 <= i < fetches.len() ==> fetch_ok(tree, #[trigger] fetches[i])
}

spec fn fetch_ok(tree: StackableTree, f: KeyFetchStep) -> bool {
    &&& f.part < tree.phrasematches@.len()
    &&& f.match_opts.zoom == tree.phrasematches@[f.part as int].store.zoom
    &&& is_lookup(f.key)
}

/// What planning leaves as it is.
spec fn plan_frame(w1: Walk, w2: Walk) -> bool {
    &&& w2.contexts == w1.contexts
    &&& w2.steps == w1.steps
    &&& w2.cache == w1.cache
    &&& w2.too_many == w1.too_many
}

/// A part of a query can be looked up by each of its keys: its index is in order.
pub open spec fn is_tree_query(part: PhrasematchSubquery) -> bool {
    &&& part.store.wf()
    &&& forall|k: int|
        0 <= k < part.match_keys@.len() ==> is_lookup((#[trigger] part.match_keys@[k]).key)
}

/// The parts of the query can be looked up, and no child is at a lower zoom level than the node
/// that it is stacked on.
pub open spec fn tree_ok(tree: StackableTree) -> bool {
    &&& forall|p: int|
        0 <= p < tree.phrasematches@.len() ==> is_tree_query(#[trigger] tree.phrasematches@[p])
    &&& forall|i: NodeIndex|
        #![trigger tree.arena.nodes()[i]]
        tree.arena.nodes().contains_key(i) ==> children_finer(tree, tree.arena.nodes()[i])
}

fn is_wide_phrase(phrase: &MatchPhrase) -> (r: bool)
    ensures
        r == is_wide(*phrase),
{
    match phrase {
        MatchPhrase::Exact(_) => false,
        MatchPhrase::Range { start, end } => *end > *start && *end - *start > 1,
    }
}

fn plan_key(
    tree: &StackableTree,
    walk: &mut Walk,
    plan: &mut ChunkPlan,
    slot: usize,
    k: usize,
    Ghost(set): Ghost<Setting>,
)
    requires
        is_stack_tree(*tree),
        tree_ok(*tree),
        set.parts == tree.phrasematches@,
        set.nodes == tree.arena.nodes(),
        slot < old(walk).steps@.len(),
        k < node_part(set.parts, old(walk)@.steps[slot as int].node).match_keys@.len(),
        old(walk).contexts.wf(),
        forall|i: int|
            0 <= i < old(walk).steps@.len() ==> step_ok(*tree, #[trigger] old(walk).steps@[i]),
        fetches_ok(*tree, old(plan).fetches@),
    ensures
        plan_frame(*old(walk), *final(walk)),
        final(walk).pending == old(walk).pending,
        final(walk).complete == old(walk).complete,
        plan_view(*final(walk), *final(plan)) == key_planned(
            set,
            old(walk)@,
            old(walk)@.steps[slot as int],
            plan_view(*old(walk), *old(plan)),
            node_part(set.parts, old(walk)@.steps[slot as int].node).match_keys@[k as int],
        ),
        fetches_ok(*tree, final(plan).fetches@),
{
    let ghost w = walk@;
    let ghost s = w.steps[slot as int];
    let ghost before = plan_view(*walk, *plan);
    assert(step_ok(*tree, walk.steps@[slot as int]));
    let step: &CoalesceStep = &walk.steps[slot];
    assert(s == step@);
    let p: usize = match step.node.phrasematch {
        Some(p) => p,
        None => 0,
    };
    let subquery: &PhrasematchSubquery = &tree.phrasematches[p];
    assert(is_tree_query(set.parts[p as int]));
    let group: MatchKeyWithId = subquery.match_keys[k];
    let is_single: bool = step.prev_state.is_none() && step.node.is_leaf();
    let code: u64 = group.id as u64 * 2 + (if is_single {
        1
    } else {
        0
    });
    if !is_single && walk.cache.contains_key(&group.id) {
        return ;
    }
    let match_opts: MatchOpts = if group.nearby_only || group.bounds.is_some() {
        step.match_opts.augment_bbox(group.nearby_only, group.bounds)
    } else {
        step.match_opts
    };
    assert(match_opts.zoom == match_opts@.zoom);
    assert(step.match_opts.zoom == step.match_opts@.zoom);
    let best: i128 = match walk.contexts.peek_max() {
        Some(relev) => relev,
        None => 0,
    };
    let request = KeyRequest {
        is_range: is_wide_phrase(&group.key.match_phrase),
        one_word: is_one_word(subquery.mask),
        slow: subquery.store.might_be_slow(),
        hopeless: step.node.is_leaf() && 4 * step.possible_relev <= 3 * best,
        fresh: !plan.keys.contains(&code),
        one_letter: group.phrase_length == 1,
        nearby_only: group.nearby_only,
    };
    assert(request == key_request(set, w, s, group, before.keys));
    let fresh: bool = request.fresh;
    let ok: bool = walk.quotas.charge(request);
    if ok && fresh {
        plan.keys.insert(code);
        let f = KeyFetchStep { key_id: group.id, part: p, key: group.key, match_opts, is_single };
        let ghost fv = f@;
        let ghost had = plan.fetches@;
        plan.fetches.push(f);
        proof {
            assert(fetches_view(plan.fetches@) =~= fetches_view(had).push(fv));
            assert forall|i: int| 0 <= i < plan.fetches@.len() implies fetch_ok(
                *tree,
                #[trigger] plan.fetches@[i],
            ) by {
                if i < had.len() {
                    assert(fetch_ok(*tree, had[i]));
                }
            }
        }
    }
    assert(plan_view(*walk, *plan) =~= key_planned(set, w, s, before, group));
}

/// The number of nodes that the steps of the chunk, from the `from`th on, lead to.
spec fn chunk_size(set: Setting, levels: int, steps: Seq<StepView>, chunk: Seq<usize>, from: int) -> nat
    decreases chunk.len() - from,
{
    if from >= chunk.len() {
        0
    } else {
        tree_size(set.nodes, levels, steps[chunk[from] as int].node) + chunk_size(
            set,
            levels,
            steps,
            chunk,
            from + 1,
        )
    }
}

proof fn chunk_size_push(
    set: Setting,
    levels: int,
    steps: Seq<StepView>,
    chunk: Seq<usize>,
    slot: usize,
    from: int,
)
    requires
        0 <= from <= chunk.len(),
    ensures
        chunk_size(set, levels, steps, chunk.push(slot), from) == chunk_size(
            set,
            levels,
            steps,
            chunk,
            from,
        ) + tree_size(set.nodes, levels, steps[slot as int].node),
    decreases chunk.len() - from,
{
    let more = chunk.push(slot);
    if from < chunk.len() {
        chunk_size_push(set, levels, steps, chunk, slot, from + 1);
        assert(more[from] == chunk[from]);
    } else {
        assert(more[from] == slot);
        assert(chunk_size(set, levels, steps, more, from + 1) == 0);
        assert(chunk_size(set, levels, steps, chunk, from) == 0);
    }
}

/// What is pending and what is in the chunk is no more than what was pending, and at least one node
/// less for each step that was taken.
spec fn within_budget(
    set: Setting,
    levels: int,
    steps: Seq<StepView>,
    p: PlanView,
    taken: bool,
    budget: nat,
) -> bool {
    pending_size(set, levels, steps, p.pending, steps.len() as int) + chunk_size(
        set,
        levels,
        steps,
        p.chunk,
        0,
    ) + (if taken {
        1nat
    } else {
        0
    }) <= budget + p.chunk.len()
}

spec fn chunk_ok(steps: Seq<StepView>, chunk: Seq<usize>) -> bool {
    forall|i: int| 0 <= i < chunk.len() ==> #[trigger] chunk[i] < steps.len() && !is_single(
        steps[chunk[i] as int],
    )
}

/// Plans the pending step with the highest rank.
fn plan_step(
    tree: &StackableTree,
    walk: &mut Walk,
    plan: &mut ChunkPlan,
    Ghost(set): Ghost<Setting>,
    Ghost(taken): Ghost<bool>,
    Ghost(budget): Ghost<nat>,
)
    requires
        is_stack_tree(*tree),
        tree_ok(*tree),
        set.parts == tree.phrasematches@,
        set.nodes == tree.arena.nodes(),
        walk_ok(*tree, set, *old(walk)),
        fetches_ok(*tree, old(plan).fetches@),
        !plan_made(plan_view(*old(walk), *old(plan))),
        old(plan).added < COALESCE_CHUNK_SIZE,
        chunk_ok(old(walk)@.steps, old(plan).chunk@),
        within_budget(
            set,
            bins_of(set.parts).len() as int,
            old(walk)@.steps,
            plan_view(*old(walk), *old(plan)),
            taken,
            budget,
        ),
    ensures
        plan_frame(*old(walk), *final(walk)),
        walk_ok(*tree, set, *final(walk)),
        fetches_ok(*tree, final(plan).fetches@),
        plan_view(*final(walk), *final(plan)) == step_planned(
            set,
            old(walk)@,
            plan_view(*old(walk), *old(plan)),
        ),
        final(walk)@.pending.len() < old(walk)@.pending.len(),
        final(plan).added <= COALESCE_CHUNK_SIZE,
        chunk_ok(final(walk)@.steps, final(plan).chunk@),
        within_budget(
            set,
            bins_of(set.parts).len() as int,
            final(walk)@.steps,
            plan_view(*final(walk), *final(plan)),
            true,
            budget,
        ),
{
    let ghost w = walk@;
    let ghost levels = bins_of(set.parts).len() as int;
    let ghost before = plan_view(*walk, *plan);
    let ghost start = *walk;
    let popped = walk.pending.pop_max();
    match popped {
        None => {},
        Some(key) => {
            let slot: usize = key.6;
            proof {
                assert(before.pending.count(key) > 0);
                assert(is_highest(before.pending, key));
                highest_is_unique(before.pending, key);
                pending_size_pop(
                    set,
                    levels,
                    w.steps,
                    before.pending,
                    key,
                    w.steps.len() as int,
                );
                assert(before.pending.remove(key).len() == before.pending.len() - 1);
                assert(step_ok(*tree, walk.steps@[slot as int]));
                assert(w.steps[slot as int] == walk.steps@[slot as int]@);
            }
            let ghost s = w.steps[slot as int];
            let ghost taken_plan = PlanView { pending: before.pending.remove(key), ..before };
            assert(plan_view(*walk, *plan) =~= taken_plan);
            let enough: bool = walk.contexts.len() >= TREE_CONTEXTS;
            let futile: bool = if enough {
                match walk.contexts.peek_min() {
                    Some(worst) => walk.steps[slot].node.max_relev <= worst,
                    None => false,
                }
            } else {
                false
            };
            assert(futile == is_futile(w, s));
            if futile {
                walk.complete = true;
                assert(plan_view(*walk, *plan) =~= step_planned(set, w, before));
                return ;
            }
            let is_single_step: bool = walk.steps[slot].prev_state.is_none()
                && walk.steps[slot].node.is_leaf();
            let p: usize = match walk.steps[slot].node.phrasematch {
                Some(p) => p,
                None => 0,
            };
            let count: usize = tree.phrasematches[p].match_keys.len();
            let had: usize = plan.fetches.len();
            let mut k: usize = 0;
            let ghost taken_walk = *walk;
            let ghost had_plan = *plan;
            while k < count
                invariant
                    k <= count,
                    count == node_part(set.parts, s.node).match_keys@.len(),
                    is_stack_tree(*tree),
                    tree_ok(*tree),
                    set.parts == tree.phrasematches@,
                    set.nodes == tree.arena.nodes(),
                    slot < walk.steps@.len(),
                    w.steps == walk@.steps,
                    w.queue == walk@.queue,
                    w.cache == walk@.cache,
                    s == w.steps[slot as int],
                    plan_frame(taken_walk, *walk),
                    walk.pending == taken_walk.pending,
                    walk.complete == taken_walk.complete,
                    walk.contexts.wf(),
                    forall|i: int|
                        0 <= i < walk.steps@.len() ==> step_ok(*tree, #[trigger] walk.steps@[i]),
                    fetches_ok(*tree, plan.fetches@),
                    plan.chunk@ == had_plan.chunk@,
                    plan.added == had_plan.added,
                    plan_view(*walk, *plan) == keys_planned(set, w, s, taken_plan, k as int),
                decreases count - k,
            {
                let ghost now = walk@;
                plan_key(tree, walk, plan, slot, k, Ghost(set));
                proof {
                    // Planning looks at the contexts and the matches only
                    key_planned_same(
                        set,
                        now,
                        w,
                        s,
                        keys_planned(set, w, s, taken_plan, k as int),
                        node_part(set.parts, s.node).match_keys@[k as int],
                    );
                }
                k += 1;
            }
            let works: bool = !is_single_step || plan.fetches.len() > had;
            let ghost q = plan_view(*walk, *plan);
            assert(fetches_view(plan.fetches@).len() == plan.fetches@.len());
            if !is_single_step {
                plan.chunk.push(slot);
                proof {
                    chunk_size_push(set, levels, w.steps, q.chunk, slot, 0);
                }
            }
            if works {
                plan.added += 1;
            }
            proof {
                assert(plan_view(*walk, *plan) =~= step_planned(set, w, before));
                assert(tree_size(set.nodes, levels, s.node) >= 1);
            }
        },
    }
}

proof fn key_planned_same(
    set: Setting,
    w1: WalkView,
    w2: WalkView,
    s: StepView,
    p: PlanView,
    group: MatchKeyWithId,
)
    requires
        w1.queue == w2.queue,
        w1.cache == w2.cache,
    ensures
        key_planned(set, w1, s, p, group) == key_planned(set, w2, s, p, group),
{
}

/// Plans the next steps.
fn plan_chunk(tree: &StackableTree, walk: &mut Walk, Ghost(set): Ghost<Setting>) -> (plan: ChunkPlan)
    requires
        is_stack_tree(*tree),
        tree_ok(*tree),
        set.parts == tree.phrasematches@,
        set.nodes == tree.arena.nodes(),
        walk_ok(*tree, set, *old(walk)),
        !is_finished(old(walk)@),
    ensures
        plan_frame(*old(walk), *final(walk)),
        walk_ok(*tree, set, *final(walk)),
        fetches_ok(*tree, plan.fetches@),
        chunk_ok(final(walk)@.steps, plan.chunk@),
        plan_view(*final(walk), plan) == planned(set, old(walk)@, plan_start(old(walk)@)),
        within_budget(
            set,
            bins_of(set.parts).len() as int,
            final(walk)@.steps,
            plan_view(*final(walk), plan),
            true,
            pending_size(
                set,
                bins_of(set.parts).len() as int,
                old(walk)@.steps,
                old(walk)@.pending,
                old(walk)@.steps.len() as int,
            ),
        ),
{
    let ghost w = walk@;
    let ghost levels = bins_of(set.parts).len() as int;
    let ghost budget = pending_size(set, levels, w.steps, w.pending, w.steps.len() as int);
    let mut plan = ChunkPlan {
        keys: HashSet::new(),
        fetches: Vec::new(),
        chunk: Vec::new(),
        added: 0,
    };
    let ghost goal = planned(set, w, plan_start(w));
    proof {
        assert(plan_view(*walk, plan) =~= plan_start(w));
    }
    let mut more: bool = true;
    let mut taken: bool = false;
    while more
        invariant
            is_stack_tree(*tree),
            tree_ok(*tree),
            set.parts == tree.phrasematches@,
            set.nodes == tree.arena.nodes(),
            levels == bins_of(set.parts).len(),
            walk_ok(*tree, set, *walk),
            plan_frame(*old(walk), *walk),
            w == old(walk)@,
            !is_finished(w),
            fetches_ok(*tree, plan.fetches@),
            chunk_ok(w.steps, plan.chunk@),
            plan.added <= COALESCE_CHUNK_SIZE,
            planned(set, w, plan_view(*walk, plan)) == goal,
            !taken ==> plan_view(*walk, plan) == plan_start(w),
            !more ==> taken && plan_made(plan_view(*walk, plan)),
            within_budget(set, levels, w.steps, plan_view(*walk, plan), taken, budget),
        decreases walk@.pending.len() + (if more { 1nat } else { 0 }),
    {
        let ghost before = plan_view(*walk, plan);
        let ghost now = walk@;
        assert(now.steps == w.steps && now.queue == w.queue && now.cache == w.cache);
        if plan.added >= COALESCE_CHUNK_SIZE || walk.pending.len() == 0 || walk.complete {
            more = false;
        } else {
            plan_step(tree, walk, &mut plan, Ghost(set), Ghost(taken), Ghost(budget));
            proof {
                step_planned_same(set, now, w, before);
            }
            taken = true;
        }
    }
    plan
}

proof fn step_planned_same(set: Setting, w1: WalkView, w2: WalkView, p: PlanView)
    requires
        w1.queue == w2.queue,
        w1.cache == w2.cache,
        w1.steps == w2.steps,
    ensures
        step_planned(set, w1, p) == step_planned(set, w2, p),
{
    let k = highest(p.pending);
    let s = w1.steps[k.6 as int];
    let taken = PlanView { pending: p.pending.remove(k), ..p };
    keys_planned_same(
        set,
        w1,
        w2,
        s,
        taken,
        node_part(set.parts, s.node).match_keys@.len() as int,
    );
}

proof fn keys_planned_same(
    set: Setting,
    w1: WalkView,
    w2: WalkView,
    s: StepView,
    p: PlanView,
    n: int,
)
    requires
        w1.queue == w2.queue,
        w1.cache == w2.cache,
    ensures
        keys_planned(set, w1, s, p, n) == keys_planned(set, w2, s, p, n),
    decreases n,
{
    if n > 0 {
        keys_planned_same(set, w1, w2, s, p, n - 1);
        key_planned_same(
            set,
            w1,
            w2,
            s,
            keys_planned(set, w1, s, p, n - 1),
            node_part(set.parts, s.node).match_keys@[n - 1],
        );
    }
}

// ---------------------------------------------------------------------------------------------
// Looking up
// ---------------------------------------------------------------------------------------------

/// `grids` answers the lookup of a key.
pub open spec fn answers_fetch<F: Fn(u64, u16, u64, u8) -> Measure>(
    set: Setting,
    scale: F,
    f: FetchView,
    grids: Seq<MatchEntry>,
) -> bool {
    let store = *set.parts[f.part as int].store;
    answers_query(
        store,
        f.key,
        f.opts,
        meter_of(scale, store.coalesce_radius, f.opts.zoom),
        if f.single {
            SINGLE_FETCH as nat
        } else {
            MAX_GRIDS_PER_PHRASE as nat
        },
        grids,
    )
}

/// The walk after a key was looked up: the contexts of a single phrase join the queue, other matches
/// are kept for the steps.
pub open spec fn fetched(set: Setting, w: WalkView, f: FetchView, grids: Seq<MatchEntry>) -> WalkView {
    if f.single {
        WalkView {
            queue: queued_all(
                w.queue,
                queued_all(
                    Seq::empty(),
                    leaf_contexts(grids, set.parts[f.part as int], f.key_id),
                    MAX_CONTEXTS as nat,
                ),
                TREE_CONTEXTS as nat,
            ),
            ..w
        }
    } else {
        WalkView { cache: w.cache.insert(f.key_id, unique_grids(grids)), ..w }
    }
}

/// The walk after the first `n` keys were looked up.
pub open spec fn all_fetched(
    set: Setting,
    w: WalkView,
    fetches: Seq<FetchView>,
    lists: Seq<Seq<MatchEntry>>,
    n: int,
) -> WalkView
    decreases n,
{
    if n <= 0 {
        w
    } else {
        fetched(set, all_fetched(set, w, fetches, lists, n - 1), fetches[n - 1], lists[n - 1])
    }
}

proof fn queued_are_fair(items: Seq<ContextView>, cs: Seq<ContextView>, max: nat)
    requires
        items.len() <= max <= usize::MAX,
        all_fair(items),
        all_fair(cs),
    ensures
        all_fair(queued_all(items, cs, max)),
{
    queue_holds_what_it_was_offered(items, cs, max, |c: ContextView| is_fair(c));
}

proof fn queued_share(
    parts: Seq<PhrasematchSubquery>,
    items: Seq<ContextView>,
    cs: Seq<ContextView>,
    max: nat,
)
    requires
        items.len() <= max <= usize::MAX,
        all_in_one_tile(parts, items),
        all_in_one_tile(parts, cs),
    ensures
        all_in_one_tile(parts, queued_all(items, cs, max)),
{
    queue_holds_what_it_was_offered(
        items,
        cs,
        max,
        |c: ContextView| is_in_one_tile(parts, c.entries),
    );
}

/// Offers contexts to a queue.
fn push_all(queue: &mut ConstrainedPriorityQueue, cs: &Vec<CoalesceContext>)
    requires
        old(queue).wf(),
        contexts_ok(contexts_view(cs@)),
    ensures
        final(queue).wf(),
        final(queue).max_size == old(queue).max_size,
        final(queue)@ == queued_all(
            old(queue)@,
            contexts_view(cs@),
            old(queue).max_size as nat,
        ),
{
    let ghost v = contexts_view(cs@);
    let ghost before = queue@;
    let mut i: usize = 0;
    assert(v.take(0) =~= Seq::empty());
    while i < cs.len()
        invariant
            i <= cs@.len(),
            v == contexts_view(cs@),
            contexts_ok(v),
            queue.wf(),
            queue.max_size == old(queue).max_size,
            queue@ == queued_all(before, v.take(i as int), queue.max_size as nat),
        decreases cs@.len() - i,
    {
        let c: CoalesceContext = cs[i].copied();
        proof {
            assert(v[i as int] == c@);
            assert(context_ok(v[i as int]));
        }
        queue.push(c);
        i += 1;
        assert(v.take(i as int).drop_last() =~= v.take(i - 1));
    }
    assert(v.take(i as int) =~= v);
}

proof fn sums_are_ok(cs: Seq<CoalesceContext>)
    requires
        sums_ok(contexts_view(cs)),
    ensures
        contexts_ok(contexts_view(cs)),
{
    let v = contexts_view(cs);
    assert forall|i: int| 0 <= i < v.len() implies context_ok(#[trigger] v[i]) by {
        assert(v[i] == cs[i]@);
        assert(cs[i].entries.len() == cs[i].entries@.len());
        assert(sum_ok(v[i]));
        sum_in_bounds(v[i]);
    }
}

/// Looks up a key.
fn run_fetch<F: Fn(u64, u16, u64, u8) -> Measure>(
    tree: &StackableTree,
    walk: &mut Walk,
    f: &KeyFetchStep,
    scale: &F,
    Ghost(set): Ghost<Setting>,
) -> (r: Result<Ghost<Seq<MatchEntry>>>)
    requires
        is_stack_tree(*tree),
        tree_ok(*tree),
        is_scale(*scale),
        set.parts == tree.phrasematches@,
        fetch_ok(*tree, *f),
        walk_ok(*tree, set, *old(walk)),
    ensures
        r is Ok,
        answers_fetch(set, *scale, f@, r->Ok_0@),
        final(walk)@ == fetched(set, old(walk)@, f@, r->Ok_0@),
        walk_ok(*tree, set, *final(walk)),
{
    let ghost w = walk@;
    let subquery: &PhrasematchSubquery = &tree.phrasematches[f.part];
    assert(is_tree_query(set.parts[f.part as int]));
    assert(f.match_opts.zoom == f.match_opts@.zoom);
    let limit: usize = if f.is_single {
        SINGLE_FETCH
    } else {
        MAX_GRIDS_PER_PHRASE
    };
    let grids: Vec<MatchEntry> = match subquery.store.get_matching(
        &f.key,
        &f.match_opts,
        limit,
        scale,
    ) {
        Ok(grids) => grids,
        Err(e) => {
            return Err(e);
        },
    };
    if f.is_single {
        let coalesced: Vec<CoalesceContext> = match tree_coalesce_single(
            subquery,
            &f.match_opts,
            &grids,
            f.key_id,
        ) {
            Ok(coalesced) => coalesced,
            Err(e) => {
                return Err(e);
            },
        };
        proof {
            sums_are_ok(coalesced@);
        }
        let mut step_contexts: ConstrainedPriorityQueue = ConstrainedPriorityQueue::new(
            MAX_CONTEXTS,
        );
        push_all(&mut step_contexts, &coalesced);
        proof {
            penalized_are_fair(contexts_view(coalesced@));
            queued_are_fair(Seq::empty(), contexts_view(coalesced@), MAX_CONTEXTS as nat);
            queued_are_fair(walk.contexts@, step_contexts@, TREE_CONTEXTS as nat);
            leaves_share(set.parts, f.part as int, grids@, f.key_id);
            penalized_share(set.parts, contexts_view(coalesced@), subquery.store.zoom);
            queued_share(
                set.parts,
                Seq::empty(),
                contexts_view(coalesced@),
                MAX_CONTEXTS as nat,
            );
            queued_share(set.parts, walk.contexts@, step_contexts@, TREE_CONTEXTS as nat);
            leaves_cover(grids@, *subquery, f.key_id);
            queued_are_apart(Seq::empty(), contexts_view(coalesced@), MAX_CONTEXTS as nat);
            queued_are_apart(walk.contexts@, step_contexts@, TREE_CONTEXTS as nat);
        }
        push_all(&mut walk.contexts, &step_contexts.items);
    } else {
        let data: Vec<MatchEntry> = dedup_grids(&grids);
        let ghost had = walk.cache@;
        let ghost dv = data@;
        walk.cache.insert(f.key_id, data);
        assert(cache_view(walk.cache@) =~= cache_view(had).insert(f.key_id, dv));
    }
    assert(walk@ =~= fetched(set, w, f@, grids@));
    Ok(Ghost(grids@))
}

// ---------------------------------------------------------------------------------------------
// Doing steps
// ---------------------------------------------------------------------------------------------

/// How many zoom levels further out the contexts lie that a step stacks on.
pub open spec fn step_levels(set: Setting, s: StepView) -> nat {
    if s.prev is Some {
        (node_part(set.parts, s.node).store.zoom - s.prev_zoom) as nat
    } else {
        0
    }
}

/// The contexts that a key of a step makes.
pub open spec fn key_made(set: Setting, w: WalkView, s: StepView, group: MatchKeyWithId) -> Seq<
    ContextView,
> {
    let part = node_part(set.parts, s.node);
    if w.cache.contains_key(group.id) {
        made_of_all(
            coalesce_entries(w.cache[group.id], part, group.id),
            s.prev,
            step_levels(set, s),
            part.mask,
        )
    } else {
        Seq::empty()
    }
}

/// The contexts that the first `n` keys of a step make.
pub open spec fn step_made(set: Setting, w: WalkView, s: StepView, n: int) -> Seq<ContextView>
    decreases n,
{
    if n <= 0 {
        Seq::empty()
    } else {
        step_made(set, w, s, n - 1) + key_made(
            set,
            w,
            s,
            node_part(set.parts, s.node).match_keys@[n - 1],
        )
    }
}

/// The results of the first `n` keys of a step: the best contexts of each.
pub open spec fn step_results(set: Setting, w: WalkView, s: StepView, n: int) -> Seq<ContextView>
    decreases n,
{
    if n <= 0 {
        Seq::empty()
    } else {
        step_results(set, w, s, n - 1) + queued_all(
            Seq::empty(),
            all_penalized(
                key_made(set, w, s, node_part(set.parts, s.node).match_keys@[n - 1]),
            ),
            MAX_CONTEXTS as nat,
        )
    }
}

/// The tiles of the first entries of the contexts.
pub open spec fn points_of(cs: Seq<ContextView>) -> Seq<(u16, u16)> {
    cs.map_values(|c: ContextView| (c.entries[0].grid_entry.x, c.entries[0].grid_entry.y))
}

/// The boxes of an index at a zoom level.
pub open spec fn boxes_at(part: PhrasematchSubquery, zoom: u16) -> Seq<Edges> {
    if part.store.zoom == zoom {
        all_edges(part.store.bboxes@)
    } else {
        all_edges(part.store.bboxes@).map_values(
            |e: Edges| box_at_zoom(e, part.store.zoom, zoom),
        )
    }
}

/// Some context lies in one of the boxes.
pub open spec fn overlaps(cs: Seq<ContextView>, boxes: Seq<Edges>) -> bool {
    exists|b: int|
        0 <= b < boxes.len() && has_point_in(
            points_of(cs),
            (#[trigger] boxes[b]).0,
            boxes[b].1,
            boxes[b].2,
            boxes[b].3,
        )
}

/// The walk with the first `n` children of a step's node: each that the arena still holds, and whose
/// index covers one of the contexts, is to be stacked on the contexts.
pub open spec fn with_children(
    set: Setting,
    w: WalkView,
    s: StepView,
    state: Seq<ContextView>,
    relev: int,
    n: int,
) -> WalkView
    decreases n,
{
    if n <= 0 {
        w
    } else {
        let before = with_children(set, w, s, state, relev, n - 1);
        let index = s.node.children@[n - 1];
        let zoom = node_part(set.parts, s.node).store.zoom;
        let child = set.nodes[index];
        if set.nodes.contains_key(index) && overlaps(
            state,
            boxes_at(node_part(set.parts, child), zoom),
        ) {
            with_step(
                set,
                before,
                new_step(
                    set,
                    child,
                    Some(state),
                    zoom,
                    relev + part_relev(set.parts, child.phrasematch->Some_0),
                ),
            )
        } else {
            before
        }
    }
}

/// The walk after a step: its contexts join the queue, and its children are to be stacked on them.
pub open spec fn step_done(set: Setting, w: WalkView, slot: usize) -> WalkView {
    let s = w.steps[slot as int];
    let keys = node_part(set.parts, s.node).match_keys@.len() as int;
    let made = step_made(set, w, s, keys);
    let state = if s.prev is None || s.node.children@.len() > 0 {
        made
    } else {
        Seq::empty()
    };
    if w.too_many {
        w
    } else if state.len() > u32::MAX {
        WalkView { too_many: true, ..w }
    } else {
        let after = if state.len() > 0 {
            with_children(
                set,
                w,
                s,
                state,
                top_relev(made),
                s.node.children@.len() as int,
            )
        } else {
            w
        };
        WalkView {
            queue: queued_all(w.queue, step_results(set, w, s, keys), TREE_CONTEXTS as nat),
            ..after
        }
    }
}

/// The walk after the first `n` steps of a chunk.
pub open spec fn steps_done(set: Setting, w: WalkView, chunk: Seq<usize>, n: int) -> WalkView
    decreases n,
{
    if n <= 0 {
        w
    } else {
        step_done(set, steps_done(set, w, chunk, n - 1), chunk[n - 1])
    }
}

/// Whether some context lies in one of the boxes of an index.
fn overlaps_any(state: &TreeCoalesceState, child: &PhrasematchSubquery, zoom: u16) -> (r: bool)
    requires
        state.wf(),
    ensures
        r == overlaps(contexts_view(state.contexts@), boxes_at(*child, zoom)),
{
    let ghost cs = contexts_view(state.contexts@);
    let ghost boxes = boxes_at(*child, zoom);
    let bboxes: &Vec<[u16; 4]> = &child.store.bboxes;
    let child_zoom: u16 = child.store.zoom;
    let mut found: bool = false;
    let mut i: usize = 0;
    proof {
        assert(crate::outside::indexed_points(state.bush) =~= points_of(cs));
    }
    while i < bboxes.len()
        invariant
            i <= bboxes@.len(),
            boxes == boxes_at(*child, zoom),
            boxes.len() == bboxes@.len(),
            bboxes@ == child.store.bboxes@,
            child_zoom == child.store.zoom,
            crate::outside::indexed_points(state.bush) == points_of(cs),
            found <==> exists|b: int|
                0 <= b < i && has_point_in(
                    points_of(cs),
                    (#[trigger] boxes[b]).0,
                    boxes[b].1,
                    boxes[b].2,
                    boxes[b].3,
                ),
        decreases bboxes@.len() - i,
    {
        let bbox: [u16; 4] = if child_zoom == zoom {
            bboxes[i]
        } else {
            adjust_bbox_zoom(bboxes[i], child_zoom, zoom)
        };
        assert(edges(bbox) == boxes[i as int]);
        if state.bush.any_in_box(bbox[0], bbox[1], bbox[2], bbox[3]) {
            found = true;
        }
        i += 1;
    }
    found
}

/// A child of a node of the tree stands for a combination of the tree.
proof fn child_ok(tree: StackableTree, node: StackableNode, k: int)
    requires
        is_stack_tree(tree),
        tree_ok(tree),
        node_fits(tree.phrasematches@, bins_of(tree.phrasematches@), node, tree.arena),
        0 <= k < node.children@.len(),
        tree.arena.nodes().contains_key(node.children@[k]),
    ensures
        node_ok(tree, tree.arena.nodes()[node.children@[k]]),
        node.level < tree.arena.nodes()[node.children@[k]].level
            <= bins_of(tree.phrasematches@).len(),
        ({
            let child = tree.arena.nodes()[node.children@[k]];
            let mask = node_part(tree.phrasematches@, child).mask;
            node.mask & mask == 0 && child.mask == node.mask | mask
        }),
{
    let parts = tree.phrasematches@;
    let bins = bins_of(parts);
    let index = node.children@[k];
    assert(child_fits(parts, bins, stem_of(bins, node), index, tree.arena));
    assert(node_fits(parts, bins, tree.arena.nodes()[index], tree.arena));
}

/// Adds a step to the walk.
fn push_step<'t>(
    tree: &'t StackableTree,
    walk: &mut Walk<'t>,
    step: CoalesceStep<'t>,
    Ghost(set): Ghost<Setting>,
    Ghost(levels): Ghost<int>,
)
    requires
        walk_ok(*tree, set, *old(walk)),
        step_ok(*tree, step),
        set.parts == tree.phrasematches@,
    ensures
        walk_ok(*tree, set, *final(walk)),
        final(walk)@ == with_step(set, old(walk)@, step@),
        pending_size(
            set,
            levels,
            final(walk)@.steps,
            final(walk)@.pending,
            final(walk)@.steps.len() as int,
        ) == pending_size(
            set,
            levels,
            old(walk)@.steps,
            old(walk)@.pending,
            old(walk)@.steps.len() as int,
        ) + tree_size(set.nodes, levels, step@.node),
{
    let ghost w = walk@;
    let ghost sv = step@;
    let n: usize = walk.steps.len();
    let key: RankKey = step.rank_key(tree, n, Ghost(set));
    let ghost had = walk.steps@;
    walk.pending.push(key);
    walk.steps.push(step);
    let m: usize = walk.steps.len();
    proof {
        assert(steps_view(walk.steps@) =~= steps_view(had).push(sv));
        pending_ok_push(set, w.steps, w.pending, sv);
        pending_size_push(set, levels, w.steps, w.pending, sv);
        assert(walk@ =~= with_step(set, w, sv));
        assert forall|i: int| 0 <= i < walk.steps@.len() implies step_ok(
            *tree,
            #[trigger] walk.steps@[i],
        ) by {
            if i < had.len() {
                assert(step_ok(*tree, had[i]));
            }
        }
    }
}

/// Adds the children of a step's node to the walk.
fn push_children<'t>(
    tree: &'t StackableTree,
    match_opts: &MatchOpts,
    walk: &mut Walk<'t>,
    node: &'t StackableNode,
    state: Arc<TreeCoalesceState>,
    relev: i128,
    Ghost(set): Ghost<Setting>,
    Ghost(s): Ghost<StepView>,
)
    requires
        is_stack_tree(*tree),
        tree_ok(*tree),
        set.parts == tree.phrasematches@,
        set.nodes == tree.arena.nodes(),
        set.opts == match_opts@,
        walk_ok(*tree, set, *old(walk)),
        node_ok(*tree, *node),
        s.node == *node,
        state.wf(),
        state.contexts@.len() <= u32::MAX,
        all_at_zoom(
            set.parts,
            contexts_view(state.contexts@),
            node_part(set.parts, *node).store.zoom,
        ),
        all_cover(contexts_view(state.contexts@), node.mask),
        0 <= relev <= 0x1_0000_0000_0000_0000 * MAX_ENTRY_RELEV,
    ensures
        walk_ok(*tree, set, *final(walk)),
        final(walk)@ == with_children(
            set,
            old(walk)@,
            s,
            contexts_view(state.contexts@),
            relev as int,
            node.children@.len() as int,
        ),
        final(walk)@.steps.len() >= old(walk)@.steps.len(),
        forall|i: int|
            0 <= i < old(walk)@.steps.len() ==> #[trigger] final(walk)@.steps[i] == old(
                walk,
            )@.steps[i],
        pending_size(
            set,
            bins_of(set.parts).len() as int,
            final(walk)@.steps,
            final(walk)@.pending,
            final(walk)@.steps.len() as int,
        ) + 1 <= pending_size(
            set,
            bins_of(set.parts).len() as int,
            old(walk)@.steps,
            old(walk)@.pending,
            old(walk)@.steps.len() as int,
        ) + tree_size(set.nodes, bins_of(set.parts).len() as int, *node),
{
    let ghost w = walk@;
    let ghost levels = bins_of(set.parts).len() as int;
    let ghost cs = contexts_view(state.contexts@);
    let ghost before = pending_size(set, levels, w.steps, w.pending, w.steps.len() as int);
    let p: usize = match node.phrasematch {
        Some(p) => p,
        None => 0,
    };
    let current_zoom: u16 = tree.phrasematches[p].store.zoom;
    let count: usize = node.children.len();
    let mut k: usize = 0;
    proof {
        assert(node.children@.take(0) =~= Seq::empty());
    }
    while k < count
        invariant
            k <= count == node.children@.len(),
            is_stack_tree(*tree),
            tree_ok(*tree),
            set.parts == tree.phrasematches@,
            set.nodes == tree.arena.nodes(),
            set.opts == match_opts@,
            levels == bins_of(set.parts).len(),
            walk_ok(*tree, set, *walk),
            node_ok(*tree, *node),
            s.node == *node,
            state.wf(),
            state.contexts@.len() <= u32::MAX,
            cs == contexts_view(state.contexts@),
            all_at_zoom(set.parts, cs, current_zoom),
            all_cover(cs, node.mask),
            current_zoom == node_part(set.parts, *node).store.zoom,
            0 <= relev <= 0x1_0000_0000_0000_0000 * MAX_ENTRY_RELEV,
            walk@ == with_children(set, w, s, cs, relev as int, k as int),
            walk@.steps.len() >= w.steps.len(),
            forall|i: int| 0 <= i < w.steps.len() ==> #[trigger] walk@.steps[i] == w.steps[i],
            pending_size(set, levels, walk@.steps, walk@.pending, walk@.steps.len() as int)
                <= before + children_size(
                set.nodes,
                levels,
                node.level as int,
                node.children@.take(k as int),
            ),
        decreases count - k,
    {
        let ghost now = walk@;
        let index: NodeIndex = node.children[k];
        proof {
            let t = node.children@.take(k + 1);
            assert(t.drop_last() =~= node.children@.take(k as int));
            assert(t.last() == index);
        }
        match tree.arena.get(index) {
            Some(child) => {
                proof {
                    child_ok(*tree, *node, k as int);
                    cover_grows(
                        cs,
                        node.mask,
                        child.mask,
                        node_part(set.parts, *child).mask,
                    );
                    assert(tree.arena.nodes().contains_key(node.children@[k as int]));
                }
                let q: usize = match child.phrasematch {
                    Some(q) => q,
                    None => 0,
                };
                let child_part: &PhrasematchSubquery = &tree.phrasematches[q];
                if overlaps_any(&state, child_part, current_zoom) {
                    let possible: i128 = relev + child_part.weight as i128 * RELEV_PER_WEIGHT;
                    let step: CoalesceStep<'t> = CoalesceStep::new(
                        tree,
                        child,
                        Some(share_state(&state)),
                        current_zoom,
                        match_opts,
                        possible,
                        Ghost(set),
                    );
                    push_step(tree, walk, step, Ghost(set), Ghost(levels));
                    proof {
                        assert forall|i: int| 0 <= i < w.steps.len() implies
                            #[trigger] walk@.steps[i] == w.steps[i] by {
                            assert(now.steps[i] == w.steps[i]);
                        }
                    }
                }
            },
            None => {},
        }
        k += 1;
    }
    assert(node.children@.take(k as int) =~= node.children@);
}

/// Does a step.
fn run_step<'t>(
    tree: &'t StackableTree,
    match_opts: &MatchOpts,
    walk: &mut Walk<'t>,
    slot: usize,
    Ghost(set): Ghost<Setting>,
)
    requires
        is_stack_tree(*tree),
        tree_ok(*tree),
        set.parts == tree.phrasematches@,
        set.nodes == tree.arena.nodes(),
        set.opts == match_opts@,
        walk_ok(*tree, set, *old(walk)),
        slot < old(walk)@.steps.len(),
    ensures
        walk_ok(*tree, set, *final(walk)),
        final(walk)@ == step_done(set, old(walk)@, slot),
        final(walk)@.steps.len() >= old(walk)@.steps.len(),
        forall|i: int|
            0 <= i < old(walk)@.steps.len() ==> #[trigger] final(walk)@.steps[i] == old(
                walk,
            )@.steps[i],
        pending_size(
            set,
            bins_of(set.parts).len() as int,
            final(walk)@.steps,
            final(walk)@.pending,
            final(walk)@.steps.len() as int,
        ) + 1 <= pending_size(
            set,
            bins_of(set.parts).len() as int,
            old(walk)@.steps,
            old(walk)@.pending,
            old(walk)@.steps.len() as int,
        ) + tree_size(
            set.nodes,
            bins_of(set.parts).len() as int,
            old(walk)@.steps[slot as int].node,
        ),
{
    let ghost w = walk@;
    let ghost s = w.steps[slot as int];
    proof {
        assert(step_ok(*tree, walk.steps@[slot as int]));
        assert(s == walk.steps@[slot as int]@);
    }
    if walk.too_many {
        return ;
    }
    let node: &'t StackableNode = walk.steps[slot].node;
    let step_opts: MatchOpts = walk.steps[slot].match_opts;
    let prev: Option<Arc<TreeCoalesceState>> = match &walk.steps[slot].prev_state {
        Some(state) => Some(share_state(state)),
        None => None,
    };
    let p: usize = match node.phrasematch {
        Some(p) => p,
        None => 0,
    };
    let subquery: &PhrasematchSubquery = &tree.phrasematches[p];
    let levels: u16 = match &prev {
        Some(_) => subquery.store.zoom - walk.steps[slot].prev_zoom,
        None => 0,
    };
    let keep: bool = prev.is_none() || !node.is_leaf();
    assert(levels == step_levels(set, s));
    assert(prev_contexts(prev) == s.prev);
    let mut h = Harvest {
        queue: ConstrainedPriorityQueue::new(MAX_CONTEXTS),
        state: Vec::new(),
        relev: 0,
    };
    let mut results: Vec<CoalesceContext> = Vec::new();
    let count: usize = subquery.match_keys.len();
    let mut k: usize = 0;
    proof {
        assert(contexts_view(h.state@) =~= Seq::empty());
        assert(contexts_view(results@) =~= Seq::empty());
        assert(all_penalized(Seq::empty()) =~= Seq::empty());
    }
    while k < count
        invariant
            k <= count == subquery.match_keys@.len(),
            set.parts == tree.phrasematches@,
            *subquery == node_part(set.parts, s.node),
            step_opts.zoom == subquery.store.zoom,
            prev_ok(prev),
            prev_contexts(prev) == s.prev,
            levels == step_levels(set, s),
            w == walk@,
            harvest_ok(h, keep, step_made(set, w, s, k as int), Seq::empty()),
            contexts_view(results@) == step_results(set, w, s, k as int),
            contexts_ok(contexts_view(results@)),
            all_fair(contexts_view(results@)),
            s.node.phrasematch->Some_0 < set.parts.len(),
            s.prev matches Some(cs) ==> all_at_zoom(set.parts, cs, s.prev_zoom) && s.prev_zoom
                <= subquery.store.zoom,
            all_at_zoom(set.parts, step_made(set, w, s, k as int), subquery.store.zoom),
            all_in_one_tile(set.parts, contexts_view(results@)),
            is_cover(s.prev, s.node.mask, subquery.mask),
            all_cover(step_made(set, w, s, k as int), s.node.mask),
            all_apart(contexts_view(results@)),
        decreases count - k,
    {
        let key_id: u32 = subquery.match_keys[k].id;
        let ghost group = subquery.match_keys@[k as int];
        let ghost made = step_made(set, w, s, k as int);
        let ghost more = key_made(set, w, s, group);
        let ghost had = contexts_view(results@);
        match walk.cache.get(&key_id) {
            Some(grids) => {
                proof {
                    assert(w.cache.contains_key(key_id) && w.cache[key_id] == grids@);
                }
                harvest_key(
                    &mut h,
                    subquery,
                    &step_opts,
                    grids,
                    &prev,
                    levels,
                    key_id,
                    keep,
                    Ghost(made),
                );
                let ghost found = h.queue@;
                let mut j: usize = 0;
                proof {
                    assert forall|i: int| 0 <= i < more.len() implies sum_ok(#[trigger] more[i]) by {
                        assert((made + more)[made.len() + i] == more[i]);
                    }
                    penalized_are_fair(more);
                    queued_are_fair(Seq::empty(), all_penalized(more), MAX_CONTEXTS as nat);
                    let p = s.node.phrasematch->Some_0 as int;
                    entries_of_part(set.parts, p, grids@, key_id);
                    made_all_share(
                        set.parts,
                        coalesce_entries(grids@, *subquery, key_id),
                        s.prev,
                        levels as nat,
                        subquery.mask,
                        subquery.store.zoom,
                        s.prev_zoom,
                    );
                    both_at_zoom(set.parts, made, more, subquery.store.zoom);
                    penalized_share(set.parts, more, subquery.store.zoom);
                    queued_share(set.parts, Seq::empty(), all_penalized(more), MAX_CONTEXTS as nat);
                    made_all_cover(
                        grids@,
                        *subquery,
                        key_id,
                        s.prev,
                        levels as nat,
                        s.node.mask,
                    );
                    both_cover(made, more, s.node.mask);
                    penalized_are_apart(more, s.node.mask);
                    queued_are_apart(Seq::empty(), all_penalized(more), MAX_CONTEXTS as nat);
                }
                assert(had + found.take(0) =~= had);
                while j < h.queue.items.len()
                    invariant
                        j <= h.queue.items@.len(),
                        found == h.queue@,
                        contexts_ok(found),
                        all_fair(found),
                        all_in_one_tile(set.parts, found),
                        all_apart(found),
                        contexts_view(results@) == had + found.take(j as int),
                        contexts_ok(contexts_view(results@)),
                        all_fair(contexts_view(results@)),
                        all_in_one_tile(set.parts, contexts_view(results@)),
                        all_apart(contexts_view(results@)),
                    decreases h.queue.items@.len() - j,
                {
                    let c: CoalesceContext = h.queue.items[j].copied();
                    let ghost cv = c@;
                    let ghost rs = results@;
                    proof {
                        assert(found[j as int] == cv);
                        assert(context_ok(found[j as int]) && is_fair(found[j as int]));
                        assert(is_in_one_tile(set.parts, found[j as int].entries));
                        assert(is_apart(found[j as int]));
                    }
                    results.push(c);
                    j += 1;
                    proof {
                        assert(contexts_view(results@) =~= contexts_view(rs).push(cv));
                        assert(found.take(j as int) =~= found.take(j - 1).push(cv));
                        assert(contexts_view(results@) =~= had + found.take(j as int));
                    }
                }
                assert(found.take(j as int) =~= found);
                h.queue = ConstrainedPriorityQueue::new(MAX_CONTEXTS);
            },
            None => {
                proof {
                    assert(!w.cache.contains_key(key_id));
                    assert(made + Seq::<ContextView>::empty() =~= made);
                    assert(had + Seq::<ContextView>::empty() =~= had);
                    assert(all_penalized(more) =~= Seq::empty());
                }
            },
        }
        k += 1;
        proof {
            assert(step_made(set, w, s, k as int) == made + more);
        }
    }
    let ghost made = step_made(set, w, s, count as int);
    let ghost all_levels = bins_of(set.parts).len() as int;
    if h.state.len() as u64 > u32::MAX as u64 {
        walk.too_many = true;
        proof {
            assert(contexts_view(h.state@).len() == h.state@.len());
            assert(walk@ =~= step_done(set, w, slot));
        }
        return ;
    }
    if h.state.len() > 0 {
        let relev: i128 = h.relev;
        assert(contexts_view(h.state@).len() == h.state@.len());
        let state: Arc<TreeCoalesceState> = Arc::new(TreeCoalesceState::new(h.state));
        push_children(tree, match_opts, walk, node, state, relev, Ghost(set), Ghost(s));
    }
    let ghost after = walk@;
    assert(after.queue == w.queue) by {
        with_children_queue(set, w, s, made, top_relev(made), s.node.children@.len() as int);
    }
    proof {
        queued_are_fair(walk.contexts@, contexts_view(results@), TREE_CONTEXTS as nat);
        queued_share(
            set.parts,
            walk.contexts@,
            contexts_view(results@),
            TREE_CONTEXTS as nat,
        );
        queued_are_apart(walk.contexts@, contexts_view(results@), TREE_CONTEXTS as nat);
    }
    push_all(&mut walk.contexts, &results);
    proof {
        assert(walk@ =~= step_done(set, w, slot));
        assert(walk@.steps == after.steps && walk@.pending == after.pending);
    }
}

proof fn with_children_queue(
    set: Setting,
    w: WalkView,
    s: StepView,
    state: Seq<ContextView>,
    relev: int,
    n: int,
)
    ensures
        with_children(set, w, s, state, relev, n).queue == w.queue,
    decreases n,
{
    if n > 0 {
        with_children_queue(set, w, s, state, relev, n - 1);
    }
}

// ---------------------------------------------------------------------------------------------
// The walk
// ---------------------------------------------------------------------------------------------

/// The walk with the first `n` children of the root.
pub open spec fn with_roots(set: Setting, w: WalkView, children: Seq<NodeIndex>, n: int) -> WalkView
    decreases n,
{
    if n <= 0 {
        w
    } else {
        let before = with_roots(set, w, children, n - 1);
        let index = children[n - 1];
        let child = set.nodes[index];
        if set.nodes.contains_key(index) {
            with_step(
                set,
                before,
                new_step(
                    set,
                    child,
                    None,
                    0,
                    part_relev(set.parts, child.phrasematch->Some_0),
                ),
            )
        } else {
            before
        }
    }
}

/// Nothing is known and nothing is to be done.
pub open spec fn walk_empty() -> WalkView {
    WalkView {
        queue: Seq::empty(),
        steps: Seq::empty(),
        pending: Multiset::empty(),
        cache: Map::empty(),
        quotas: Quotas {
            one_letter_range: 0,
            one_word_range: 0,
            one_word_high_zoom_range: 0,
            all_high_zoom_range: 0,
            all_high_zoom: 0,
        },
        complete: false,
        too_many: false,
    }
}

/// The walk before its first chunk: the children of the root are to be done.
pub open spec fn walk_start(set: Setting, root: StackableNode) -> WalkView {
    with_roots(set, walk_empty(), root.children@, root.children@.len() as int)
}

/// The walk after a chunk of steps, given the matches of the keys that were looked up.
pub open spec fn chunk_done(set: Setting, w: WalkView, lists: Seq<Seq<MatchEntry>>) -> WalkView {
    let p = planned(set, w, plan_start(w));
    let ready = WalkView {
        pending: p.pending,
        quotas: p.quotas,
        complete: p.complete,
        ..w
    };
    steps_done(
        set,
        all_fetched(set, ready, p.fetches, lists, p.fetches.len() as int),
        p.chunk,
        p.chunk.len() as int,
    )
}

/// The lists answer the lookups of the keys, key by key.
pub open spec fn are_fetch_answers<F: Fn(u64, u16, u64, u8) -> Measure>(
    set: Setting,
    scale: F,
    fetches: Seq<FetchView>,
    lists: Seq<Seq<MatchEntry>>,
) -> bool {
    lists.len() == fetches.len() && forall|i: int|
        0 <= i < lists.len() ==> answers_fetch(set, scale, fetches[i], #[trigger] lists[i])
}

/// A chunk of steps leads from one state of the walk to the next: there are matches that answer its
/// lookups, and the next state is what they bring.
pub open spec fn is_chunk<F: Fn(u64, u16, u64, u8) -> Measure>(
    set: Setting,
    scale: F,
    w1: WalkView,
    w2: WalkView,
) -> bool {
    exists|lists: Seq<Seq<MatchEntry>>| #[trigger]
        are_fetch_answers(set, scale, planned(set, w1, plan_start(w1)).fetches, lists) && w2
            == chunk_done(set, w1, lists)
}

/// A chunk of steps leads from the state before the `i`th to the `i`th.
pub open spec fn is_move<F: Fn(u64, u16, u64, u8) -> Measure>(
    set: Setting,
    scale: F,
    states: Seq<WalkView>,
    i: int,
) -> bool {
    !is_finished(states[i - 1]) && is_chunk(set, scale, states[i - 1], states[i])
}

/// The states of a walk, from its start to its end, chunk by chunk.
pub open spec fn is_walk<F: Fn(u64, u16, u64, u8) -> Measure>(
    set: Setting,
    scale: F,
    root: StackableNode,
    states: Seq<WalkView>,
) -> bool {
    &&& states.len() > 0
    &&& states[0] == walk_start(set, root)
    &&& forall|i: int| 0 < i < states.len() ==> #[trigger] is_move(set, scale, states, i)
}

/// A walk ends in the state.
pub open spec fn ends_in<F: Fn(u64, u16, u64, u8) -> Measure>(
    set: Setting,
    scale: F,
    root: StackableNode,
    end: WalkView,
) -> bool {
    is_finished(end) && exists|states: Seq<WalkView>| #[trigger]
        is_walk(set, scale, root, states) && states.last() == end
}

/// What a walk goes by.
pub open spec fn setting_of<'a>(tree: StackableTree<'a>, opts: MatchOpts) -> Setting<'a> {
    Setting { parts: tree.phrasematches@, nodes: tree.arena.nodes(), opts: opts@ }
}

proof fn all_fetched_prefix(
    set: Setting,
    w: WalkView,
    fetches: Seq<FetchView>,
    a: Seq<Seq<MatchEntry>>,
    b: Seq<Seq<MatchEntry>>,
    n: int,
)
    requires
        n <= a.len(),
        n <= b.len(),
        forall|i: int| 0 <= i < n ==> a[i] == b[i],
    ensures
        all_fetched(set, w, fetches, a, n) == all_fetched(set, w, fetches, b, n),
    decreases n,
{
    if n > 0 {
        all_fetched_prefix(set, w, fetches, a, b, n - 1);
    }
}

/// Starts a walk with the children of the root.
fn start_walk<'t>(
    tree: &'t StackableTree,
    match_opts: &MatchOpts,
    Ghost(set): Ghost<Setting>,
) -> (walk: Walk<'t>)
    requires
        is_stack_tree(*tree),
        tree_ok(*tree),
        set.parts == tree.phrasematches@,
        set.nodes == tree.arena.nodes(),
        set.opts == match_opts@,
    ensures
        walk_ok(*tree, set, walk),
        walk@ == walk_start(set, tree.root),
{
    let mut walk: Walk<'t> = Walk {
        contexts: ConstrainedPriorityQueue::new(TREE_CONTEXTS),
        steps: Vec::new(),
        pending: RankHeap::new(),
        cache: HashMap::new(),
        quotas: Quotas::new(),
        complete: false,
        too_many: false,
    };
    proof {
        assert(steps_view(walk.steps@) =~= Seq::empty());
        assert(cache_view(walk.cache@) =~= Map::empty());
        assert(walk@ =~= walk_empty());
    }
    let count: usize = tree.root.children.len();
    let mut k: usize = 0;
    while k < count
        invariant
            k <= count == tree.root.children@.len(),
            is_stack_tree(*tree),
            tree_ok(*tree),
            set.parts == tree.phrasematches@,
            set.nodes == tree.arena.nodes(),
            set.opts == match_opts@,
            walk_ok(*tree, set, walk),
            walk@ == with_roots(set, walk_empty(), tree.root.children@, k as int),
        decreases count - k,
    {
        match tree.arena.get(tree.root.children[k]) {
            Some(node) => {
                proof {
                    child_ok(*tree, tree.root, k as int);
                    cover_starts(node_part(set.parts, *node).mask);
                }
                let p: usize = match node.phrasematch {
                    Some(p) => p,
                    None => 0,
                };
                let possible: i128 = tree.phrasematches[p].weight as i128 * RELEV_PER_WEIGHT;
                let step: CoalesceStep<'t> = CoalesceStep::new(
                    tree,
                    node,
                    None,
                    0,
                    match_opts,
                    possible,
                    Ghost(set),
                );
                push_step(tree, &mut walk, step, Ghost(set), Ghost(0));
            },
            None => {},
        }
        k += 1;
    }
    walk
}

/// Does a chunk of steps.
fn run_chunk<'t, F: Fn(u64, u16, u64, u8) -> Measure>(
    tree: &'t StackableTree,
    match_opts: &MatchOpts,
    walk: &mut Walk<'t>,
    scale: &F,
    Ghost(set): Ghost<Setting>,
) -> (r: Result<()>)
    requires
        is_stack_tree(*tree),
        tree_ok(*tree),
        is_scale(*scale),
        set.parts == tree.phrasematches@,
        set.nodes == tree.arena.nodes(),
        set.opts == match_opts@,
        walk_ok(*tree, set, *old(walk)),
        !is_finished(old(walk)@),
    ensures
        r is Ok,
        walk_ok(*tree, set, *final(walk)),
        is_chunk(set, *scale, old(walk)@, final(walk)@),
        pending_size(
            set,
            bins_of(set.parts).len() as int,
            final(walk)@.steps,
            final(walk)@.pending,
            final(walk)@.steps.len() as int,
        ) < pending_size(
            set,
            bins_of(set.parts).len() as int,
            old(walk)@.steps,
            old(walk)@.pending,
            old(walk)@.steps.len() as int,
        ),
{
    let ghost w = walk@;
    let ghost levels = bins_of(set.parts).len() as int;
    let ghost budget = pending_size(set, levels, w.steps, w.pending, w.steps.len() as int);
    let plan: ChunkPlan = plan_chunk(tree, walk, Ghost(set));
    let ghost p = planned(set, w, plan_start(w));
    let ghost ready = WalkView {
        pending: p.pending,
        quotas: p.quotas,
        complete: p.complete,
        ..w
    };
    let ghost mut lists: Seq<Seq<MatchEntry>> = Seq::empty();
    let ghost steps = w.steps;
    proof {
        assert(walk@ =~= ready);
        assert(fetches_view(plan.fetches@) == p.fetches);
    }
    let mut i: usize = 0;
    while i < plan.fetches.len()
        invariant
            i <= plan.fetches@.len(),
            is_stack_tree(*tree),
            tree_ok(*tree),
            is_scale(*scale),
            set.parts == tree.phrasematches@,
            walk_ok(*tree, set, *walk),
            fetches_ok(*tree, plan.fetches@),
            fetches_view(plan.fetches@) == p.fetches,
            lists.len() == i,
            forall|k: int|
                0 <= k < i ==> answers_fetch(set, *scale, p.fetches[k], #[trigger] lists[k]),
            walk@ == all_fetched(set, ready, p.fetches, lists, i as int),
            walk@.steps == ready.steps,
            walk@.pending == ready.pending,
        decreases plan.fetches@.len() - i,
    {
        let ghost before = lists;
        assert(fetch_ok(*tree, plan.fetches@[i as int]));
        assert(p.fetches[i as int] == plan.fetches@[i as int]@);
        match run_fetch(tree, walk, &plan.fetches[i], scale, Ghost(set)) {
            Ok(grids) => {
                proof {
                    lists = lists.push(grids@);
                    all_fetched_prefix(set, ready, p.fetches, before, lists, i as int);
                    assert forall|k: int| 0 <= k < i + 1 implies answers_fetch(
                        set,
                        *scale,
                        p.fetches[k],
                        #[trigger] lists[k],
                    ) by {
                        if k < i {
                            assert(lists[k] == before[k]);
                        }
                    }
                }
            },
            Err(e) => {
                return Err(e);
            },
        }
        i += 1;
    }
    let ghost looked_up = walk@;
    let mut j: usize = 0;
    proof {
        assert(plan.fetches@.len() == p.fetches.len());
        assert(looked_up == all_fetched(set, ready, p.fetches, lists, p.fetches.len() as int));
    }
    while j < plan.chunk.len()
        invariant
            j <= plan.chunk@.len(),
            is_stack_tree(*tree),
            tree_ok(*tree),
            set.parts == tree.phrasematches@,
            set.nodes == tree.arena.nodes(),
            set.opts == match_opts@,
            levels == bins_of(set.parts).len(),
            walk_ok(*tree, set, *walk),
            plan.chunk@ == p.chunk,
            chunk_ok(steps, p.chunk),
            walk@ == steps_done(set, looked_up, p.chunk, j as int),
            steps.len() <= walk@.steps.len(),
            forall|i: int| 0 <= i < steps.len() ==> #[trigger] walk@.steps[i] == steps[i],
            pending_size(set, levels, walk@.steps, walk@.pending, walk@.steps.len() as int)
                + chunk_size(set, levels, steps, p.chunk, j as int) + 1 <= budget + p.chunk.len()
                - j,
        decreases plan.chunk@.len() - j,
    {
        let ghost now = walk@;
        let slot: usize = plan.chunk[j];
        proof {
            assert(p.chunk[j as int] < steps.len());
            assert(now.steps[slot as int] == steps[slot as int]);
        }
        run_step(tree, match_opts, walk, slot, Ghost(set));
        proof {
            assert forall|i: int| 0 <= i < steps.len() implies #[trigger] walk@.steps[i]
                == steps[i] by {
                assert(now.steps[i] == steps[i]);
            }
        }
        j += 1;
    }
    proof {
        assert(are_fetch_answers(set, *scale, p.fetches, lists));
        assert(walk@ == chunk_done(set, w, lists));
    }
    Ok(())
}

/// The answer of a walk that ends in `w`: its contexts, the best first.
pub open spec fn is_walk_answer(w: WalkView, out: Seq<ContextView>) -> bool {
    best_first(out) && out.to_multiset() == w.queue.to_multiset()
}

/// Coalesces along a stackable tree.
///
/// The combinations are gone through in chunks, those that can become most relevant first. For each
/// combination its keys are looked up, within quotas; the matches are stacked on what the parent
/// combination matched in the same tiles; and the children whose indexes cover some of the contexts
/// are to be stacked on these. The walk ends when nothing is left to be done, or when nothing that
/// is left can better the contexts.
///
/// A combination that matches more contexts than can be numbered in 32 bits is an error.
pub fn tree_coalesce<F: Fn(u64, u16, u64, u8) -> Measure>(
    stack_tree: &StackableTree,
    match_opts: &MatchOpts,
    scale: &F,
) -> (r: Result<Vec<CoalesceContext>>)
    requires
        is_stack_tree(*stack_tree),
        tree_ok(*stack_tree),
        is_scale(*scale),
    ensures
        exists|end: WalkView|
            {
                &&& #[trigger] ends_in(
                    setting_of(*stack_tree, *match_opts),
                    *scale,
                    stack_tree.root,
                    end,
                )
                &&& end.too_many ==> r is Err && r->Err_0 is InvalidData
                &&& !end.too_many ==> r is Ok && is_walk_answer(end, contexts_view(r->Ok_0@))
                &&& end.steps.len() <= usize::MAX
            },
        r is Ok ==> r->Ok_0@.len() <= TREE_CONTEXTS && all_fair(contexts_view(r->Ok_0@))
            && all_in_one_tile(stack_tree.phrasematches@, contexts_view(r->Ok_0@)) && all_apart(
            contexts_view(r->Ok_0@),
        ),
{
    let ghost set = setting_of(*stack_tree, *match_opts);
    let ghost levels = bins_of(set.parts).len() as int;
    let mut walk: Walk = start_walk(stack_tree, match_opts, Ghost(set));
    let ghost mut states: Seq<WalkView> = seq![walk@];
    while walk.pending.len() > 0 && !walk.complete && !walk.too_many
        invariant
            is_stack_tree(*stack_tree),
            tree_ok(*stack_tree),
            is_scale(*scale),
            set == setting_of(*stack_tree, *match_opts),
            levels == bins_of(set.parts).len(),
            walk_ok(*stack_tree, set, walk),
            is_walk(set, *scale, stack_tree.root, states),
            states.last() == walk@,
        decreases pending_size(
            set,
            levels,
            walk@.steps,
            walk@.pending,
            walk@.steps.len() as int,
        ),
    {
        let ghost before = walk@;
        let ghost had = states;
        match run_chunk(stack_tree, match_opts, &mut walk, scale, Ghost(set)) {
            Ok(_) => {},
            Err(e) => {
                return Err(e);
            },
        }
        proof {
            states = states.push(walk@);
            assert(states[0] == had[0]);
            assert forall|i: int| 0 < i < states.len() implies #[trigger] is_move(
                set,
                *scale,
                states,
                i,
            ) by {
                if i < had.len() {
                    assert(states[i - 1] == had[i - 1] && states[i] == had[i]);
                    assert(is_move(set, *scale, had, i));
                } else {
                    assert(states[i - 1] == before && states[i] == walk@);
                }
            }
        }
    }
    assert(ends_in(set, *scale, stack_tree.root, walk@));
    if walk.too_many {
        return Err(
            StorageError::InvalidData("a combination matches too many contexts".to_owned()),
        );
    }
    let sorted: Vec<CoalesceContext> = walk.contexts.into_vec_desc();
    proof {
        broadcast use vstd::seq_lib::group_to_multiset_ensures;

        let v = contexts_view(sorted@);
        assert(v.to_multiset().len() == v.len());
        let queue = states.last().queue;
        assert(queue.to_multiset().len() == queue.len());
        assert forall|i: int| 0 <= i < v.len() implies is_fair(#[trigger] v[i]) by {
            let j = place_in(v, queue, i);
            assert(is_fair(queue[j]));
        }
        let parts = stack_tree.phrasematches@;
        assert forall|i: int| 0 <= i < v.len() implies is_in_one_tile(
            parts,
            (#[trigger] v[i]).entries,
        ) by {
            let j = place_in(v, queue, i);
            assert(is_in_one_tile(parts, queue[j].entries));
        }
        assert forall|i: int| 0 <= i < v.len() implies is_apart(#[trigger] v[i]) by {
            let j = place_in(v, queue, i);
            assert(is_apart(queue[j]));
        }
    }
    Ok(sorted)
}

} // verus!
