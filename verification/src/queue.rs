//! A priority queue of contexts that keeps the best of them.

use vstd::multiset::Multiset;
use vstd::prelude::*;

use crate::coalesce::{context_rank, contexts_view, CoalesceContext, ContextView};
use crate::multi::{best_first, context_ok, contexts_ok, RELEV_LIMIT};
use crate::outside::RankHeap;
use crate::rank::{
    extremes_exist, highest, highest_is_unique, is_highest, is_lowest, lowest, lowest_is_unique,
    rank_below, rank_le, ranks_below, RankKey,
};

verus! {

/// The keys of the contexts, each with the context's place as its slot.
pub open spec fn context_keys(items: Seq<ContextView>) -> Seq<RankKey> {
    Seq::new(items.len(), |i: int| context_rank(items[i], i))
}

/// The place of the lowest context.
pub open spec fn lowest_place(items: Seq<ContextView>) -> int {
    lowest(context_keys(items).to_multiset()).6 as int
}

/// The place of the highest context.
pub open spec fn highest_place(items: Seq<ContextView>) -> int {
    highest(context_keys(items).to_multiset()).6 as int
}

/// A queue of at most `max` contexts with one more: a full queue gives up its lowest context for one
/// that ranks above it, and keeps what it has otherwise.
pub open spec fn queued(items: Seq<ContextView>, c: ContextView, max: nat) -> Seq<ContextView> {
    if items.len() < max {
        items.push(c)
    } else if items.len() > 0 && rank_below(
        context_rank(items[lowest_place(items)], 0),
        context_rank(c, 0),
    ) {
        items.update(lowest_place(items), c)
    } else {
        items
    }
}

/// The queue after the contexts were offered in turn.
pub open spec fn queued_all(items: Seq<ContextView>, cs: Seq<ContextView>, max: nat) -> Seq<
    ContextView,
>
    decreases cs.len(),
{
    if cs.len() == 0 {
        items
    } else {
        queued(queued_all(items, cs.drop_last(), max), cs.last(), max)
    }
}

/// A priority queue that holds at most a given number of contexts: the best of those that it was
/// offered.
pub struct ConstrainedPriorityQueue {
    /// The contexts, each at its slot
    pub items: Vec<CoalesceContext>,
    /// The keys of the contexts
    pub heap: RankHeap,
    /// The number of contexts that the queue holds at most
    pub max_size: usize,
}

impl View for ConstrainedPriorityQueue {
    type V = Seq<ContextView>;

    open spec fn view(&self) -> Seq<ContextView> {
        contexts_view(self.items@)
    }
}

proof fn context_keys_update(items: Seq<ContextView>, place: int, c: ContextView)
    requires
        0 <= place < items.len(),
    ensures
        context_keys(items.update(place, c)).to_multiset() == context_keys(
            items,
        ).to_multiset().remove(context_rank(items[place], place)).insert(context_rank(c, place)),
{
    broadcast use vstd::seq_lib::group_to_multiset_ensures;

    let keys = context_keys(items);
    let after = context_keys(items.update(place, c));
    assert(after =~= keys.update(place, context_rank(c, place)));
    assert(keys[place] == context_rank(items[place], place));
    assert(keys.update(place, context_rank(c, place)).to_multiset() =~= keys.to_multiset().insert(
        context_rank(c, place),
    ).remove(keys[place]));
    assert(keys.contains(keys[place]));
    assert(keys.to_multiset().count(keys[place]) > 0);
    assert(keys.to_multiset().insert(context_rank(c, place)).remove(keys[place])
        =~= keys.to_multiset().remove(keys[place]).insert(context_rank(c, place)));
}

proof fn context_keys_push(items: Seq<ContextView>, c: ContextView)
    ensures
        context_keys(items.push(c)).to_multiset() == context_keys(items).to_multiset().insert(
            context_rank(c, items.len() as int),
        ),
{
    broadcast use vstd::seq_lib::group_to_multiset_ensures;

    assert(context_keys(items.push(c)) =~= context_keys(items).push(
        context_rank(c, items.len() as int),
    ));
}

/// The place of a key of the contexts is its slot.
proof fn key_place(items: Seq<ContextView>, k: RankKey)
    requires
        items.len() <= usize::MAX,
        context_keys(items).to_multiset().contains(k),
    ensures
        k.6 < items.len(),
        k == context_rank(items[k.6 as int], k.6 as int),
{
    broadcast use vstd::seq_lib::group_to_multiset_ensures;

    assert(context_keys(items).contains(k));
    let i = choose|i: int| 0 <= i < context_keys(items).len() && context_keys(items)[i] == k;
    assert(k.6 == i);
}

impl ConstrainedPriorityQueue {
    /// The heap holds the keys of the contexts.
    pub open spec fn wf(self) -> bool {
        &&& self.heap@ == context_keys(self@).to_multiset()
        &&& self@.len() <= self.max_size
        &&& contexts_ok(self@)
    }

    /// An empty queue.
    pub fn new(max_size: usize) -> (q: Self)
        ensures
            q.wf(),
            q@ == Seq::<ContextView>::empty(),
            q.max_size == max_size,
    {
        let q = ConstrainedPriorityQueue { items: Vec::new(), heap: RankHeap::new(), max_size };
        proof {
            broadcast use vstd::seq_lib::group_to_multiset_ensures;

            assert(q@ =~= Seq::empty());
            assert(context_keys(q@) =~= Seq::empty());
            assert(context_keys(q@).to_multiset() =~= Multiset::empty());
        }
        q
    }

    /// The number of contexts.
    pub fn len(&self) -> (n: usize)
        ensures
            n == self@.len(),
    {
        self.items.len()
    }

    /// Offers a context to the queue.
    pub fn push(&mut self, c: CoalesceContext)
        requires
            old(self).wf(),
            context_ok(c@),
        ensures
            final(self).wf(),
            final(self)@ == queued(old(self)@, c@, old(self).max_size as nat),
            final(self).max_size == old(self).max_size,
    {
        let ghost before = self@;
        let ghost cv = c@;
        let n: usize = self.items.len();
        if n < self.max_size {
            let key: RankKey = c.sort_key(n);
            let ghost had = self.items@;
            self.heap.push(key);
            self.items.push(c);
            proof {
                assert(self@ =~= before.push(cv));
                context_keys_push(before, cv);
                assert(contexts_ok(self@)) by {
                    assert forall|i: int| 0 <= i < self@.len() implies context_ok(
                        #[trigger] self@[i],
                    ) by {
                        if i < before.len() {
                            assert(context_ok(before[i]));
                        }
                    }
                }
            }
        } else {
            match self.heap.min() {
                Some(worst) => {
                    let place: usize = worst.6;
                    proof {
                        assert(is_lowest(self.heap@, worst));
                        lowest_is_unique(self.heap@, worst);
                        key_place(before, worst);
                    }
                    let key: RankKey = c.sort_key(place);
                    if ranks_below(&worst, &key) {
                        let popped = self.heap.pop_min();
                        proof {
                            vstd::multiset::lemma_multiset_empty_len(
                                context_keys(before).to_multiset(),
                            );
                            lowest_is_unique(context_keys(before).to_multiset(), popped->Some_0);
                        }
                        self.heap.push(key);
                        self.items.set(place, c);
                        proof {
                            assert(self@ =~= before.update(place as int, cv));
                            context_keys_update(before, place as int, cv);
                            assert forall|i: int| 0 <= i < self@.len() implies context_ok(
                                #[trigger] self@[i],
                            ) by {
                                assert(context_ok(before[i]));
                            }
                        }
                    }
                },
                None => {
                    proof {
                        broadcast use vstd::seq_lib::group_to_multiset_ensures;

                        assert(context_keys(before).to_multiset().len() == context_keys(
                            before,
                        ).len());
                    }
                },
            }
        }
    }

    /// The relevance of the lowest context.
    pub fn peek_min(&self) -> (relev: Option<i128>)
        requires
            self.wf(),
        ensures
            self@.len() > 0 ==> relev == Some(self@[lowest_place(self@)].relev),
            self@.len() == 0 ==> relev is None,
            relev is Some ==> -RELEV_LIMIT < relev->Some_0 < RELEV_LIMIT,
    {
        proof {
            broadcast use vstd::seq_lib::group_to_multiset_ensures;

            assert(context_keys(self@).to_multiset().len() == context_keys(self@).len());
        }
        let n: usize = self.items.len();
        match self.heap.min() {
            Some(key) => {
                proof {
                    assert(is_lowest(self.heap@, key));
                    lowest_is_unique(self.heap@, key);
                    key_place(self@, key);
                    vstd::multiset::lemma_multiset_empty_len(self.heap@);
                    assert(self.heap@.count(key) > 0);
                    assert(context_ok(self@[key.6 as int]));
                }
                Some(key.0)
            },
            None => None,
        }
    }

    /// The relevance of the highest context.
    pub fn peek_max(&self) -> (relev: Option<i128>)
        requires
            self.wf(),
        ensures
            self@.len() > 0 ==> relev == Some(self@[highest_place(self@)].relev),
            self@.len() == 0 ==> relev is None,
            relev is Some ==> -RELEV_LIMIT < relev->Some_0 < RELEV_LIMIT,
    {
        proof {
            broadcast use vstd::seq_lib::group_to_multiset_ensures;

            assert(context_keys(self@).to_multiset().len() == context_keys(self@).len());
        }
        let n: usize = self.items.len();
        match self.heap.max() {
            Some(key) => {
                proof {
                    assert(is_highest(self.heap@, key));
                    highest_is_unique(self.heap@, key);
                    key_place(self@, key);
                    vstd::multiset::lemma_multiset_empty_len(self.heap@);
                    assert(self.heap@.count(key) > 0);
                    assert(context_ok(self@[key.6 as int]));
                }
                Some(key.0)
            },
            None => None,
        }
    }

    /// The contexts with the best first.
    pub fn into_vec_desc(self) -> (sorted: Vec<CoalesceContext>)
        requires
            self.wf(),
        ensures
            best_first(contexts_view(sorted@)),
            contexts_view(sorted@).to_multiset() == self@.to_multiset(),
    {
        crate::multi::sort_contexts(&self.items)
    }
}

pub(crate) proof fn lowest_place_ok(items: Seq<ContextView>)
    requires
        0 < items.len() <= usize::MAX,
    ensures
        0 <= lowest_place(items) < items.len(),
        forall|i: int|
            0 <= i < items.len() ==> !rank_below(
                context_rank(#[trigger] items[i], 0),
                context_rank(items[lowest_place(items)], 0),
            ),
{
    broadcast use vstd::seq_lib::group_to_multiset_ensures;

    let keys = context_keys(items);
    assert(keys.to_multiset().len() == keys.len());
    extremes_exist(keys.to_multiset());
    let low = lowest(keys.to_multiset());
    key_place(items, low);
    assert forall|i: int| 0 <= i < items.len() implies !rank_below(
        context_rank(#[trigger] items[i], 0),
        context_rank(items[lowest_place(items)], 0),
    ) by {
        assert(keys[i] == context_rank(items[i], i));
        assert(keys.contains(keys[i]));
        assert(keys.to_multiset().contains(keys[i]));
        assert(rank_le(low, keys[i]));
    }
}

pub(crate) proof fn highest_place_ok(items: Seq<ContextView>)
    requires
        0 < items.len() <= usize::MAX,
    ensures
        0 <= highest_place(items) < items.len(),
        forall|i: int|
            0 <= i < items.len() ==> (#[trigger] items[i]).relev
                <= items[highest_place(items)].relev,
{
    broadcast use vstd::seq_lib::group_to_multiset_ensures;

    let keys = context_keys(items);
    assert(keys.to_multiset().len() == keys.len());
    extremes_exist(keys.to_multiset());
    let high = highest(keys.to_multiset());
    key_place(items, high);
    assert forall|i: int| 0 <= i < items.len() implies (#[trigger] items[i]).relev
        <= items[highest_place(items)].relev by {
        assert(keys[i] == context_rank(items[i], i));
        assert(keys.contains(keys[i]));
        assert(keys.to_multiset().contains(keys[i]));
        assert(rank_le(keys[i], high));
    }
}

/// The queue never holds more than it may, and it keeps the best: what it was offered and does not
/// hold ranks above nothing that it holds.
pub proof fn queue_keeps_the_best(cs: Seq<ContextView>, max: nat)
    requires
        max <= usize::MAX,
    ensures
        queued_all(Seq::empty(), cs, max).len() <= max,
        forall|i: int, k: int|
            #![trigger cs[i], queued_all(Seq::empty(), cs, max)[k]]
            0 <= i < cs.len() && 0 <= k < queued_all(Seq::empty(), cs, max).len() && !queued_all(
                Seq::empty(),
                cs,
                max,
            ).contains(cs[i]) ==> !rank_below(
                context_rank(queued_all(Seq::empty(), cs, max)[k], 0),
                context_rank(cs[i], 0),
            ),
    decreases cs.len(),
{
    let none = Seq::<ContextView>::empty();
    if cs.len() > 0 {
        let rest = cs.drop_last();
        let c = cs.last();
        queue_keeps_the_best(rest, max);
        let before = queued_all(none, rest, max);
        let after = queued_all(none, cs, max);
        assert(after == queued(before, c, max));
        if before.len() < max {
            assert forall|i: int| 0 <= i < cs.len() && !after.contains(#[trigger] cs[i]) implies i
                < rest.len() && !before.contains(rest[i]) by {
                if i == rest.len() {
                    assert(after[before.len() as int] == c);
                } else if before.contains(rest[i]) {
                    let k = choose|k: int| 0 <= k < before.len() && before[k] == rest[i];
                    assert(after[k] == cs[i]);
                }
            }
        }
        assert forall|i: int, k: int|
            #![trigger cs[i], after[k]]
            0 <= i < cs.len() && 0 <= k < after.len() && !after.contains(
                cs[i],
            ) implies !rank_below(context_rank(after[k], 0), context_rank(cs[i], 0)) by {
            if before.len() < max {
                assert(before.len() == max || i < rest.len());
                if k == before.len() {
                    // A queue that is not full has given up nothing
                    queue_is_complete(rest, max);
                    assert(before.contains(rest[i]));
                }
                assert(rest[i] == cs[i]);
                if k < before.len() {
                    assert(after[k] == before[k]);
                }
            } else if before.len() > 0 {
                lowest_place_ok(before);
                let low = lowest_place(before);
                let replaced = rank_below(context_rank(before[low], 0), context_rank(c, 0));
                if replaced {
                    assert(after[low] == c);
                    if k != low {
                        assert(after[k] == before[k]);
                    }
                    if i < rest.len() {
                        assert(cs[i] == rest[i]);
                        if before.contains(rest[i]) {
                            let q = choose|q: int| 0 <= q < before.len() && before[q] == rest[i];
                            if q != low {
                                assert(after[q] == cs[i]);
                            }
                        } else {
                            assert(!rank_below(
                                context_rank(before[low], 0),
                                context_rank(rest[i], 0),
                            ));
                        }
                    }
                } else if i < rest.len() {
                    assert(cs[i] == rest[i]);
                    assert(after[k] == before[k]);
                } else {
                    assert(after[k] == before[k]);
                }
            }
        }
        if before.len() > 0 && before.len() >= max {
            lowest_place_ok(before);
        }
    }
}

/// A queue that is not full holds all that it was offered.
pub proof fn queue_is_complete(cs: Seq<ContextView>, max: nat)
    requires
        max <= usize::MAX,
        queued_all(Seq::empty(), cs, max).len() < max,
    ensures
        queued_all(Seq::empty(), cs, max) == cs,
    decreases cs.len(),
{
    let none = Seq::<ContextView>::empty();
    if cs.len() == 0 {
        assert(queued_all(none, cs, max) =~= cs);
    } else {
        let before = queued_all(none, cs.drop_last(), max);
        if before.len() < max {
            queue_is_complete(cs.drop_last(), max);
            assert(cs =~= cs.drop_last().push(cs.last()));
        } else {
            queue_len(cs, max);
        }
    }
}

proof fn queue_len(cs: Seq<ContextView>, max: nat)
    requires
        max <= usize::MAX,
    ensures
        queued_all(Seq::empty(), cs, max).len() <= max,
        cs.len() > 0 && queued_all(Seq::empty(), cs.drop_last(), max).len() >= max ==> queued_all(
            Seq::empty(),
            cs,
            max,
        ).len() >= max,
    decreases cs.len(),
{
    if cs.len() > 0 {
        queue_len(cs.drop_last(), max);
        let before = queued_all(Seq::empty(), cs.drop_last(), max);
        if before.len() > 0 {
            lowest_place_ok(before);
        }
    }
}

/// What holds of all contexts in a queue and of all that it is offered still holds of all contexts in
/// the queue.
pub proof fn queue_holds_what_it_was_offered(
    items: Seq<ContextView>,
    cs: Seq<ContextView>,
    max: nat,
    p: spec_fn(ContextView) -> bool,
)
    requires
        items.len() <= max <= usize::MAX,
        forall|i: int| 0 <= i < items.len() ==> p(#[trigger] items[i]),
        forall|i: int| 0 <= i < cs.len() ==> p(#[trigger] cs[i]),
    ensures
        queued_all(items, cs, max).len() <= max,
        forall|i: int|
            0 <= i < queued_all(items, cs, max).len() ==> p(
                #[trigger] queued_all(items, cs, max)[i],
            ),
    decreases cs.len(),
{
    if cs.len() > 0 {
        let rest = cs.drop_last();
        assert forall|i: int| 0 <= i < rest.len() implies p(#[trigger] rest[i]) by {
            assert(rest[i] == cs[i]);
        }
        queue_holds_what_it_was_offered(items, rest, max, p);
        let before = queued_all(items, rest, max);
        let after = queued_all(items, cs, max);
        let c = cs[cs.len() - 1];
        assert(p(c));
        if before.len() > 0 {
            lowest_place_ok(before);
        }
        assert forall|i: int| 0 <= i < after.len() implies p(#[trigger] after[i]) by {
            if after[i] != c {
                assert(after[i] == before[i]);
            }
        }
    }
}

} // verus!
