//! What is asked again is answered again in the same way.

use vstd::prelude::*;

use crate::coalesce::{
    best_entries, coalesce_entries, entry_before, is_best_order, is_phrase_answer,
    is_single_answer, top_contexts, CoalesceEntry, ContextView, SINGLE_FETCH,
};
use crate::common::{language_matches, MatchKey, MatchOpts};
use crate::contexts::selections_keep_single_answers;
use crate::decode::{
    flattened, is_matches, is_ranked, meter_of, relev_run, run_matches, FlatView, MatchEntry, Meter,
    ScoredView,
};
use crate::multi::{are_contexts, selection};
use crate::outside::decoded_groups;
use crate::spatial::{Measure, OptsView};
use crate::stackable::PhrasematchSubquery;
use crate::store::{
    answers_query, are_row_matches, best_matches, fetch_plan, is_row_matches, scanned, GridStore,
};

verus! {

proof fn matches_agree(
    flats: Seq<FlatView>,
    opts: OptsView,
    meter: Meter,
    lang: bool,
    a: Seq<MatchEntry>,
    b: Seq<MatchEntry>,
)
    requires
        is_matches(flats, opts, meter, lang, a),
        is_matches(flats, opts, meter, lang, b),
    ensures
        a == b,
    decreases flats.len(),
{
    if flats.len() == 0 {
        assert(a =~= b);
    } else {
        let n = relev_run(flats) as int;
        let relev = flats[0].relev;
        let r = choose|run: Seq<ScoredView>|
            {
                let here = run_matches(run, relev, lang);
                &&& #[trigger] is_ranked(run, flats.take(n), opts, meter)
                &&& here.is_prefix_of(a)
                &&& is_matches(flats.skip(n), opts, meter, lang, a.skip(here.len() as int))
            };
        let s = choose|run: Seq<ScoredView>|
            {
                let here = run_matches(run, relev, lang);
                &&& #[trigger] is_ranked(run, flats.take(n), opts, meter)
                &&& here.is_prefix_of(b)
                &&& is_matches(flats.skip(n), opts, meter, lang, b.skip(here.len() as int))
            };
        assert(r == s);
        let here = run_matches(r, relev, lang);
        let k = here.len() as int;
        matches_agree(flats.skip(n), opts, meter, lang, a.skip(k), b.skip(k));
        assert(a =~= here + a.skip(k));
        assert(b =~= here + b.skip(k));
    }
}

/// A query to a store that is made again has the same matches, in the same order.
pub proof fn queries_agree(
    store: GridStore,
    query: MatchKey,
    opts: OptsView,
    meter: Meter,
    max: nat,
    a: Seq<MatchEntry>,
    b: Seq<MatchEntry>,
)
    requires
        answers_query(store, query, opts, meter, max, a),
        answers_query(store, query, opts, meter, max, b),
    ensures
        a == b,
{
    let (range, marker) = fetch_plan(query, store.bin_boundaries@);
    let rows = scanned(store.table(), range, marker);
    let x = choose|lists: Seq<Seq<MatchEntry>>| #[trigger]
        are_row_matches(lists, rows, range, opts, meter) && a == best_matches(lists, max);
    let y = choose|lists: Seq<Seq<MatchEntry>>| #[trigger]
        are_row_matches(lists, rows, range, opts, meter) && b == best_matches(lists, max);
    assert forall|i: int| 0 <= i < rows.len() implies #[trigger] x[i] == y[i] by {
        assert(is_row_matches(rows[i], range, opts, meter, x[i]));
        assert(is_row_matches(rows[i], range, opts, meter, y[i]));
        if x[i].len() == 0 && y[i].len() == 0 {
            assert(x[i] =~= y[i]);
        } else {
            matches_agree(
                flattened(decoded_groups(rows[i].1)->Ok_0),
                opts,
                meter,
                language_matches(range, rows[i].0),
                x[i],
                y[i],
            );
        }
    }
    assert(x =~= y);
}

proof fn entry_stands(best: Map<u32, CoalesceEntry>, s: Seq<CoalesceEntry>, e: CoalesceEntry) -> (k:
    int)
    requires
        is_best_order(best, s),
        best.contains_key(e.grid_entry.id),
        best[e.grid_entry.id] == e,
    ensures
        0 <= k < s.len(),
        s[k] == e,
{
    choose|i: int| 0 <= i < s.len() && (#[trigger] s[i]).grid_entry.id == e.grid_entry.id
}

proof fn orders_agree_up_to(
    best: Map<u32, CoalesceEntry>,
    s: Seq<CoalesceEntry>,
    t: Seq<CoalesceEntry>,
    n: int,
)
    requires
        is_best_order(best, s),
        is_best_order(best, t),
        0 <= n <= s.len(),
    ensures
        n <= t.len(),
        forall|i: int| 0 <= i < n ==> s[i] == t[i],
    decreases n,
{
    if n > 0 {
        let i = n - 1;
        orders_agree_up_to(best, s, t, i);
        let k = entry_stands(best, t, s[i]);
        if k < i {
            assert(s[k] == t[k]);
            assert(entry_before(s[k], s[i]));
        }
        let l = entry_stands(best, s, t[i]);
        if l < i {
            assert(t[l] == s[l]);
            assert(entry_before(t[l], t[i]));
        }
        if k > i {
            assert(entry_before(t[i], t[k]));
            if l > i {
                assert(entry_before(s[i], s[l]));
            }
        }
    }
}

/// The best entries have only one order.
pub proof fn orders_agree(
    best: Map<u32, CoalesceEntry>,
    s: Seq<CoalesceEntry>,
    t: Seq<CoalesceEntry>,
)
    requires
        is_best_order(best, s),
        is_best_order(best, t),
    ensures
        s == t,
{
    orders_agree_up_to(best, s, t, s.len() as int);
    orders_agree_up_to(best, t, s, t.len() as int);
    assert(s =~= t);
}

/// A query of a single phrase that is made again has the same contexts, in the same order.
pub proof fn phrase_answers_agree<F: Fn(u64, u16, u64, u8) -> Measure>(
    part: PhrasematchSubquery,
    opts: MatchOpts,
    scale: F,
    a: Seq<ContextView>,
    b: Seq<ContextView>,
)
    requires
        is_phrase_answer(part, opts, scale, a),
        is_phrase_answer(part, opts, scale, b),
    ensures
        a == b,
{
    let x = answered_matches(part, opts, scale, a);
    let y = answered_matches(part, opts, scale, b);
    queries_agree(
        *part.store,
        part.match_keys@[0].key,
        opts@,
        meter_of(scale, part.store.coalesce_radius, opts.zoom),
        SINGLE_FETCH as nat,
        x,
        y,
    );
    let best = best_entries(coalesce_entries(x, part, 0), opts.proximity is Some);
    let s = choose|sorted: Seq<CoalesceEntry>| #[trigger]
        is_best_order(best, sorted) && a == top_contexts(sorted);
    let t = choose|sorted: Seq<CoalesceEntry>| #[trigger]
        is_best_order(best, sorted) && b == top_contexts(sorted);
    orders_agree(best, s, t);
}

/// The matches that an answer to a single phrase was made of.
proof fn answered_matches<F: Fn(u64, u16, u64, u8) -> Measure>(
    part: PhrasematchSubquery,
    opts: MatchOpts,
    scale: F,
    out: Seq<ContextView>,
) -> (grids: Seq<MatchEntry>)
    requires
        is_phrase_answer(part, opts, scale, out),
    ensures
        answers_query(
            *part.store,
            part.match_keys@[0].key,
            opts@,
            meter_of(scale, part.store.coalesce_radius, opts.zoom),
            SINGLE_FETCH as nat,
            grids,
        ),
        is_single_answer(grids, part, opts.proximity is Some, out),
{
    choose|grids: Seq<MatchEntry>|
        {
            &&& #[trigger] answers_query(
                *part.store,
                part.match_keys@[0].key,
                opts@,
                meter_of(scale, part.store.coalesce_radius, opts.zoom),
                SINGLE_FETCH as nat,
                grids,
            )
            &&& is_single_answer(grids, part, opts.proximity is Some, out)
        }
}

/// `coalesce` answers a query of one phrase with the very contexts of `coalesce_single`, in the
/// same order: what it selects of `contexts`, which it was delegated, is what `coalesce_single`
/// answers.
pub proof fn one_phrase_is_coalesced_alone<F: Fn(u64, u16, u64, u8) -> Measure>(
    stack: Seq<PhrasematchSubquery>,
    opts: MatchOpts,
    scale: F,
    contexts: Seq<ContextView>,
    alone: Seq<ContextView>,
)
    requires
        stack.len() == 1,
        are_contexts(stack, opts, scale, contexts),
        is_phrase_answer(stack[0], opts, scale, alone),
    ensures
        selection(contexts) == alone,
{
    phrase_answers_agree(stack[0], opts, scale, contexts, alone);
    let grids = answered_matches(stack[0], opts, scale, alone);
    selections_keep_single_answers(grids, stack[0], opts.proximity is Some, alone);
}

} // verus!
