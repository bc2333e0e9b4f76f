//! What a query finds, as against what it leaves out.

use vstd::multiset::Multiset;
use vstd::prelude::*;

use crate::builder::{
    aggregated, all_readable, all_rows, bin_of, bin_row, bin_rows, data_rows, entries_of, languages,
    listing, readable, run_length, run_length_bounds, single_row, single_rows, EntriesView, Item,
    RowView,
};
use crate::common::{
    bounds_key_bytes, key_has_head, key_matches, language_matches, level_relev, relev_score,
    GridEntry, MatchKey, PhraseId, MAX_DB_KEY_SIZE,
};
use crate::database::{is_database, languages_finite, last_put};
use crate::decode::{all_entries, flat_entries, flat_group, flattened, FlatView, MatchEntry, Meter};
use crate::laws::{bins_hold_their_phrases, concat_bags, empty_bag, is_finite};
use crate::order::{in_order, in_order_exists, num_u128, num_u8};
use crate::outside::encoded_groups;
use crate::queries::{
    advance_keeps, at_least, best_come_first, filled_ok, lists_bag, merges_keep_order, rest_bag,
    rest_bag_done, rest_bag_step, row_lists_bag, row_matches, rows_bag, scan_len,
    scans_are_complete, stored_matches_descend,
};
use crate::rank::{extremes_exist, highest, lowest, rank_below, rank_le, RankKey};
use crate::round_trip::{database_key, put_somewhere, scan_keys};
use crate::spatial::OptsView;
use crate::store::{
    advanced, answers_query, are_row_matches, best_matches, drained, fetch_plan, filled, has_row,
    is_row_matches, match_rank, offered, queue_ok, row_value, row_value_at, scanned, GridStore,
};

verus! {

// ---------------------------------------------------------------------------------------------
// Entries of a value
// ---------------------------------------------------------------------------------------------

/// The first has a higher relevance than the second, or the same and no lower score.
pub open spec fn falls(relev1: u16, score1: u8, relev2: u16, score2: u8) -> bool {
    relev1 > relev2 || (relev1 == relev2 && score1 >= score2)
}

proof fn flats_fall(groups: Seq<(u8, Seq<(u32, Seq<u32>)>)>)
    requires
        forall|i: int, j: int|
            0 <= i < j < groups.len() ==> (#[trigger] groups[i]).0 > (#[trigger] groups[j]).0,
        forall|i: int| 0 <= i < groups.len() ==> (#[trigger] groups[i]).0 < 64,
    ensures
        forall|i: int, j: int|
            0 <= i < j < flattened(groups).len() ==> falls(
                (#[trigger] flattened(groups)[i]).relev,
                flattened(groups)[i].score,
                (#[trigger] flattened(groups)[j]).relev,
                flattened(groups)[j].score,
            ),
        groups.len() > 0 ==> forall|i: int|
            0 <= i < flattened(groups).len() ==> falls(
                (#[trigger] flattened(groups)[i]).relev,
                flattened(groups)[i].score,
                level_relev(groups.last().0 / 16),
                groups.last().0 % 16,
            ),
    decreases groups.len(),
{
    if groups.len() > 0 {
        let rest = groups.drop_last();
        assert forall|i: int| 0 <= i < rest.len() implies (#[trigger] rest[i]) == groups[i] by {}
        flats_fall(rest);
        let before = flattened(rest);
        let here = flat_group(groups.last());
        let all = flattened(groups);
        let rs = groups.last().0;
        assert(groups[groups.len() - 1].0 == rs);
        assert forall|i: int| 0 <= i < here.len() implies (#[trigger] here[i]).relev == level_relev(
            rs / 16,
        ) && here[i].score == rs % 16 by {}
        assert forall|i: int| 0 <= i < before.len() implies falls(
            (#[trigger] before[i]).relev,
            before[i].score,
            level_relev(rs / 16),
            rs % 16,
        ) by {
            let last = rest.len() - 1;
            assert(rest[last] == groups[last] && groups[last].0 > groups[last + 1].0);
        }
        assert forall|i: int| 0 <= i < all.len() implies #[trigger] all[i] == (if i
            < before.len() {
            before[i]
        } else {
            here[i - before.len()]
        }) by {}
    }
}

proof fn entries_fall(flats: Seq<FlatView>)
    requires
        forall|i: int, j: int|
            0 <= i < j < flats.len() ==> falls(
                (#[trigger] flats[i]).relev,
                flats[i].score,
                (#[trigger] flats[j]).relev,
                flats[j].score,
            ),
    ensures
        forall|i: int, j: int|
            0 <= i < j < all_entries(flats).len() ==> falls(
                (#[trigger] all_entries(flats)[i]).relev,
                all_entries(flats)[i].score,
                (#[trigger] all_entries(flats)[j]).relev,
                all_entries(flats)[j].score,
            ),
        flats.len() > 0 ==> forall|i: int|
            0 <= i < all_entries(flats).len() ==> falls(
                (#[trigger] all_entries(flats)[i]).relev,
                all_entries(flats)[i].score,
                flats.last().relev,
                flats.last().score,
            ),
    decreases flats.len(),
{
    if flats.len() > 0 {
        let rest = flats.drop_last();
        assert forall|i: int| 0 <= i < rest.len() implies (#[trigger] rest[i]) == flats[i] by {}
        entries_fall(rest);
        let before = all_entries(rest);
        let here = flat_entries(flats.last());
        let all = all_entries(flats);
        assert forall|i: int| 0 <= i < here.len() implies (#[trigger] here[i]).relev
            == flats.last().relev && here[i].score == flats.last().score by {}
        assert forall|i: int| 0 <= i < before.len() implies falls(
            (#[trigger] before[i]).relev,
            before[i].score,
            flats.last().relev,
            flats.last().score,
        ) by {
            let last = rest.len() - 1;
            assert(rest[last] == flats[last]);
            assert(falls(
                flats[last].relev,
                flats[last].score,
                flats[last + 1].relev,
                flats[last + 1].score,
            ));
        }
        assert forall|i: int| 0 <= i < all.len() implies #[trigger] all[i] == (if i
            < before.len() {
            before[i]
        } else {
            here[i - before.len()]
        }) by {}
    }
}

proof fn built_keys(values: Seq<GridEntry>)
    ensures
        forall|rs: u8| #[trigger] entries_of(values).contains_key(rs) ==> rs < 64,
        is_finite(entries_of(values)),
    decreases values.len(),
{
    crate::laws::entries_come_back(values);
    if values.len() > 0 {
        built_keys(values.drop_last());
        let v = values.last();
        assert(relev_score(v.relev, v.score) < 64);
    }
}

proof fn listing_falls(entries: EntriesView)
    requires
        is_finite(entries),
    ensures
        forall|i: int, j: int|
            0 <= i < j < listing(entries).len() ==> (#[trigger] listing(entries)[i]).0 > (
            #[trigger] listing(entries)[j]).0,
        forall|i: int|
            0 <= i < listing(entries).len() ==> entries.contains_key(
                (#[trigger] listing(entries)[i]).0,
            ),
{
    let groups = listing(entries);
    let up = in_order(entries.dom(), num_u8());
    in_order_exists(entries.dom(), num_u8());
    let n = up.len();
    assert forall|i: int, j: int| 0 <= i < j < groups.len() implies (#[trigger] groups[i]).0 > (
    #[trigger] groups[j]).0 by {
        assert(num_u8()(up[n - 1 - j]) < num_u8()(up[n - 1 - i]));
    }
    assert forall|i: int| 0 <= i < groups.len() implies entries.contains_key(
        (#[trigger] groups[i]).0,
    ) by {
        assert(up.contains(up[n - 1 - i]));
        assert(up.to_set().contains(up[n - 1 - i]));
    }
}

/// What was written under a phrase and language comes back by falling relevance, and at each
/// relevance by falling score.
pub proof fn stored_entries_fall(values: Seq<GridEntry>, i: int, j: int)
    requires
        0 <= i < j < all_entries(flattened(listing(entries_of(values)))).len(),
    ensures
        falls(
            all_entries(flattened(listing(entries_of(values))))[i].relev,
            all_entries(flattened(listing(entries_of(values))))[i].score,
            all_entries(flattened(listing(entries_of(values))))[j].relev,
            all_entries(flattened(listing(entries_of(values))))[j].score,
        ),
{
    let entries = entries_of(values);
    let groups = listing(entries);
    built_keys(values);
    listing_falls(entries);
    assert forall|g: int| 0 <= g < groups.len() implies (#[trigger] groups[g]).0 < 64 by {
        assert(entries.contains_key(groups[g].0));
    }
    flats_fall(groups);
    entries_fall(flattened(groups));
}

// ---------------------------------------------------------------------------------------------
// Merged lists
// ---------------------------------------------------------------------------------------------

/// The key stands for a match that is at least as good as `e`.
spec fn key_at_least(k: RankKey, e: MatchEntry) -> bool {
    k.0 > e.grid_entry.relev || (k.0 == e.grid_entry.relev && k.1 >= e.scoredist)
}

/// While the queue has keys enough that are at least as good, so is all that leaves it.
proof fn drained_above(
    lists: Seq<Seq<MatchEntry>>,
    queue: Multiset<RankKey>,
    next: Seq<int>,
    count: nat,
    guard: Multiset<RankKey>,
    e: MatchEntry,
)
    requires
        queue_ok(queue, lists, next, lists.len() as int),
        guard.subset_of(queue),
        guard.len() >= count,
        forall|k: RankKey| #[trigger] guard.count(k) > 0 ==> key_at_least(k, e),
    ensures
        drained(lists, queue, next, count).len() == count,
        forall|i: int|
            0 <= i < drained(lists, queue, next, count).len() ==> at_least(
                #[trigger] drained(lists, queue, next, count)[i],
                e,
            ),
    decreases count,
{
    if count > 0 {
        vstd::multiset::lemma_multiset_empty_len(guard);
        vstd::multiset::lemma_multiset_empty_len(queue);
        assert(exists|k: RankKey| guard.count(k) > 0) by {
            if forall|k: RankKey| guard.count(k) == 0 {
                assert(guard =~= Multiset::empty());
            }
        }
        let g = choose|k: RankKey| guard.count(k) > 0;
        assert(queue.count(g) > 0);
        advance_keeps(lists, queue, next);
        let k = highest(queue);
        let slot = k.6 as int;
        let at = next[slot];
        let first = lists[slot][at];
        let after = advanced(lists, queue, slot, at);
        let spots = next.update(slot, at + 1);
        assert(queue.contains(g));
        assert(rank_le(g, k));
        assert(key_at_least(g, e));
        assert(at_least(first, e));
        assert(queue.count(k) == 1);
        let less = guard.remove(k);
        if guard.count(k) == 0 {
            assert(less =~= guard);
        }
        assert forall|o: RankKey| less.count(o) <= #[trigger] after.count(o) by {
            assert(guard.count(o) <= queue.count(o));
        }
        assert(less.subset_of(after));
        assert forall|o: RankKey| #[trigger] less.count(o) > 0 implies key_at_least(o, e) by {
            assert(guard.count(o) > 0);
        }
        let more = drained(lists, after, spots, (count - 1) as nat);
        drained_above(lists, after, spots, (count - 1) as nat, less, e);
        let all = drained(lists, queue, next, count);
        assert(all =~= seq![first] + more);
        assert forall|i: int| 0 <= i < all.len() implies at_least(#[trigger] all[i], e) by {
            if i > 0 {
                assert(all[i] == more[i - 1]);
            }
        }
    }
}

/// The next match of the list is waiting in the queue.
spec fn waits(
    queue: Multiset<RankKey>,
    lists: Seq<Seq<MatchEntry>>,
    next: Seq<int>,
    s: int,
) -> bool {
    0 <= next[s] < lists[s].len() && queue.count(match_rank(lists[s][next[s]], s)) > 0
}

/// How far each list has come when the queue is drained.
proof fn drained_takes(
    lists: Seq<Seq<MatchEntry>>,
    queue: Multiset<RankKey>,
    next: Seq<int>,
    count: nat,
) -> (fin: Seq<int>)
    requires
        queue_ok(queue, lists, next, lists.len() as int),
        forall|s: int| 0 <= s < lists.len() ==> best_come_first(#[trigger] lists[s]),
        forall|s: int| 0 <= s < lists.len() ==> 0 <= #[trigger] next[s] <= lists[s].len(),
    ensures
        fin.len() == lists.len(),
        forall|s: int| 0 <= s < lists.len() ==> next[s] <= #[trigger] fin[s] <= lists[s].len(),
        rest_bag(lists, next, lists.len() as int) == drained(
            lists,
            queue,
            next,
            count,
        ).to_multiset().add(rest_bag(lists, fin, lists.len() as int)),
        forall|s: int|
            0 <= s < lists.len() && !#[trigger] waits(queue, lists, next, s) ==> fin[s] == next[s],
        drained(lists, queue, next, count).len() <= count,
        drained(lists, queue, next, count).len() < count ==> forall|s: int|
            0 <= s < lists.len() && #[trigger] waits(queue, lists, next, s) ==> fin[s]
                == lists[s].len(),
        forall|s: int, at: int, i: int|
            #![trigger lists[s][at], drained(lists, queue, next, count)[i]]
            0 <= s < lists.len() && waits(queue, lists, next, s) && fin[s] <= at < lists[s].len()
                && 0 <= i < drained(lists, queue, next, count).len() ==> at_least(
                drained(lists, queue, next, count)[i],
                lists[s][at],
            ),
    decreases count,
{
    let n = lists.len() as int;
    if count == 0 || queue.len() == 0 {
        empty_bag(drained(lists, queue, next, count));
        assert(rest_bag(lists, next, n) =~= Multiset::<MatchEntry>::empty().add(
            rest_bag(lists, next, n),
        ));
        if queue.len() == 0 {
            vstd::multiset::lemma_multiset_empty_len(queue);
        }
        next
    } else {
        advance_keeps(lists, queue, next);
        let k = highest(queue);
        let slot = k.6 as int;
        let at0 = next[slot];
        let first = lists[slot][at0];
        let after = advanced(lists, queue, slot, at0);
        let spots = next.update(slot, at0 + 1);
        assert(queue.count(k) > 0);
        assert(waits(queue, lists, next, slot));
        let more = drained(lists, after, spots, (count - 1) as nat);
        let all = drained(lists, queue, next, count);
        assert(all =~= seq![first] + more);
        let fin = drained_takes(lists, after, spots, (count - 1) as nat);
        rest_bag_step(lists, next, n, slot);
        concat_bags(seq![first], more);
        assert(seq![first] =~= Seq::<MatchEntry>::empty().push(first));
        empty_bag(Seq::<MatchEntry>::empty());
        broadcast use vstd::seq_lib::group_to_multiset_ensures;

        assert(all.to_multiset().add(rest_bag(lists, fin, n)) =~= rest_bag(lists, spots, n).insert(
            first,
        ));
        assert forall|s: int| 0 <= s < n && s != slot implies #[trigger] waits(
            queue,
            lists,
            next,
            s,
        ) == waits(after, lists, spots, s) by {
            if 0 <= next[s] < lists[s].len() {
                let o = match_rank(lists[s][next[s]], s);
                assert(o.6 == s as usize && o != k);
            }
        }
        assert(at0 + 1 < lists[slot].len() ==> waits(after, lists, spots, slot));
        assert forall|s: int| 0 <= s < n && !#[trigger] waits(
            queue,
            lists,
            next,
            s,
        ) implies fin[s] == next[s] by {
            assert(!waits(after, lists, spots, s));
        }
        assert forall|s: int| 0 <= s < n implies next[s] <= #[trigger] fin[s] <= lists[s].len() by {
            assert(spots[s] <= fin[s]);
        }
        if all.len() < count {
            assert forall|s: int| 0 <= s < n && #[trigger] waits(
                queue,
                lists,
                next,
                s,
            ) implies fin[s] == lists[s].len() by {
                if s == slot && at0 + 1 >= lists[slot].len() {
                    assert(!waits(after, lists, spots, s));
                } else {
                    assert(waits(after, lists, spots, s));
                }
            }
        }
        assert forall|s: int, at: int, i: int|
            #![trigger lists[s][at], all[i]]
            0 <= s < n && waits(queue, lists, next, s) && fin[s] <= at < lists[s].len() && 0 <= i
                < all.len() implies at_least(all[i], lists[s][at]) by {
            if i == 0 {
                assert(next[s] <= fin[s]);
                let head = lists[s][next[s]];
                assert(queue.contains(match_rank(head, s)));
                assert(rank_le(match_rank(head, s), k));
                assert(at_least(first, head));
                if at > next[s] {
                    assert(best_come_first(lists[s]));
                    assert(at_least(lists[s][next[s]], lists[s][at]));
                }
            } else {
                assert(all[i] == more[i - 1]);
                if s == slot && at0 + 1 >= lists[slot].len() {
                    assert(spots[s] <= fin[s]);
                } else {
                    assert(waits(after, lists, spots, s));
                    assert(at_least(more[i - 1], lists[s][at]));
                }
            }
        }
        fin
    }
}

/// A list whose first match is not in the queue gave way to as many that rank no lower.
proof fn filled_keeps_best(lists: Seq<Seq<MatchEntry>>, n: int, max: nat)
    requires
        0 <= n <= lists.len() <= usize::MAX,
    ensures
        filled(lists, n, max).len() <= max,
        forall|s: int|
            0 <= s < n && (#[trigger] lists[s]).len() > 0 ==> filled(lists, n, max).count(
                match_rank(lists[s][0], s),
            ) > 0 || (filled(lists, n, max).len() == max && forall|k: RankKey| #[trigger]
                filled(lists, n, max).count(k) > 0 ==> key_at_least(k, lists[s][0])),
    decreases n,
{
    if n > 0 {
        filled_keeps_best(lists, n - 1, max);
        filled_ok(lists, n - 1, max);
        let before = filled(lists, n - 1, max);
        let now = filled(lists, n, max);
        if lists[n - 1].len() > 0 {
            let key = match_rank(lists[n - 1][0], n - 1);
            assert(now == offered(before, key, max));
            if before.len() > 0 {
                extremes_exist(before);
            } else {
                vstd::multiset::lemma_multiset_empty_len(before);
            }
            let low = lowest(before);
            assert forall|s: int| 0 <= s < n && (#[trigger] lists[s]).len() > 0 implies now.count(
                match_rank(lists[s][0], s),
            ) > 0 || (now.len() == max && forall|k: RankKey| #[trigger]
                now.count(k) > 0 ==> key_at_least(k, lists[s][0])) by {
                let head = lists[s][0];
                let own = match_rank(head, s);
                if before.len() >= max && now.count(own) == 0 {
                    if before.len() > 0 {
                        assert(before.count(low) > 0);
                    }
                    assert forall|k: RankKey| #[trigger] now.count(k) > 0 implies key_at_least(
                        k,
                        head,
                    ) by {
                        if before.len() > 0 && rank_below(low, key) {
                            if s < n - 1 && before.count(own) > 0 {
                                assert(own == low);
                            }
                            if before.count(k) > 0 {
                                assert(before.contains(k));
                                assert(rank_le(low, k));
                            } else {
                                assert(k == key);
                                if own != low {
                                    assert(key_at_least(low, head));
                                }
                            }
                        } else if s == n - 1 {
                            assert(before.contains(k));
                            assert(rank_le(low, k));
                        }
                    }
                }
            }
        }
    }
}

proof fn rest_bag_has(lists: Seq<Seq<MatchEntry>>, next: Seq<int>, n: int, e: MatchEntry) -> (place:
    (int, int))
    requires
        0 <= n <= lists.len() == next.len(),
        forall|s: int| 0 <= s < lists.len() ==> 0 <= #[trigger] next[s] <= lists[s].len(),
        rest_bag(lists, next, n).count(e) > 0,
    ensures
        0 <= place.0 < n,
        next[place.0] <= place.1 < lists[place.0].len(),
        lists[place.0][place.1] == e,
    decreases n,
{
    broadcast use vstd::seq_lib::group_to_multiset_ensures;

    let rest = lists[n - 1].skip(next[n - 1]);
    assert(0 <= next[n - 1] <= lists[n - 1].len());
    if rest.to_multiset().count(e) > 0 {
        assert(rest.contains(e));
        let i = choose|i: int| 0 <= i < rest.len() && rest[i] == e;
        (n - 1, i + next[n - 1])
    } else {
        rest_bag_has(lists, next, n - 1, e)
    }
}

/// Merging lists in descending order takes the best of their matches, as many as are asked for: what
/// is left out is no better than anything that is taken, and nothing is left out while there is
/// room.
pub proof fn merges_take_the_best(lists: Seq<Seq<MatchEntry>>, max: nat)
    requires
        lists.len() <= usize::MAX,
        forall|s: int| 0 <= s < lists.len() ==> best_come_first(#[trigger] lists[s]),
    ensures
        best_matches(lists, max).len() <= max,
        best_matches(lists, max).to_multiset().subset_of(lists_bag(lists)),
        best_matches(lists, max).len() < max ==> best_matches(lists, max).to_multiset()
            == lists_bag(lists),
        forall|e: MatchEntry, i: int|
            #![trigger at_least(best_matches(lists, max)[i], e)]
            0 <= i < best_matches(lists, max).len() && lists_bag(lists).count(e) > best_matches(
                lists,
                max,
            ).to_multiset().count(e) ==> at_least(best_matches(lists, max)[i], e),
{
    let n = lists.len() as int;
    let zeros = Seq::new(lists.len(), |i: int| 0int);
    let queue = filled(lists, n, max);
    let out = best_matches(lists, max);
    filled_ok(lists, n, max);
    filled_keeps_best(lists, n, max);
    let fin = drained_takes(lists, queue, zeros, max);
    assert(lists_bag(lists) == out.to_multiset().add(rest_bag(lists, fin, n)));
    assert forall|s: int| 0 <= s < n && (#[trigger] lists[s]).len() > 0 && !waits(
        queue,
        lists,
        zeros,
        s,
    ) implies out.len() == max && forall|at: int, i: int|
        #![trigger lists[s][at], out[i]]
        0 <= at < lists[s].len() && 0 <= i < out.len() ==> at_least(out[i], lists[s][at]) by {
        let head = lists[s][0];
        assert(zeros[s] == 0);
        drained_above(lists, queue, zeros, max, queue, head);
        assert forall|at: int, i: int|
            #![trigger lists[s][at], out[i]]
            0 <= at < lists[s].len() && 0 <= i < out.len() implies at_least(
            out[i],
            lists[s][at],
        ) by {
            assert(at_least(out[i], head));
            if at > 0 {
                assert(best_come_first(lists[s]));
                assert(at_least(lists[s][0], lists[s][at]));
            }
        }
    }
    if out.len() < max {
        assert forall|s: int| 0 <= s < n implies #[trigger] fin[s] == lists[s].len() by {
            if lists[s].len() > 0 {
                assert(waits(queue, lists, zeros, s));
            } else {
                assert(zeros[s] <= fin[s]);
            }
        }
        rest_bag_done(lists, fin, n);
        assert(lists_bag(lists) =~= out.to_multiset());
    }
    assert forall|e: MatchEntry, i: int|
        #![trigger at_least(out[i], e)]
        0 <= i < out.len() && lists_bag(lists).count(e) > out.to_multiset().count(
            e,
        ) implies at_least(out[i], e) by {
        assert(rest_bag(lists, fin, n).count(e) > 0);
        let (s, at) = rest_bag_has(lists, fin, n, e);
        assert(zeros[s] <= fin[s]);
        let x = lists[s][at];
        let o = out[i];
        assert(lists[s].len() > 0);
        if waits(queue, lists, zeros, s) {
            assert(at_least(o, x));
        } else {
            assert(at_least(o, x));
        }
    }
}

// ---------------------------------------------------------------------------------------------
// Queries
// ---------------------------------------------------------------------------------------------

/// The value is the stored form of the entries.
spec fn stores(value: Seq<u8>, entries: EntriesView) -> bool {
    is_finite(entries) && readable(entries) && value == encoded_groups(listing(entries))
}

spec fn is_stored(value: Seq<u8>) -> bool {
    exists|entries: EntriesView| stores(value, entries)
}

proof fn data_values(bounds: Seq<PhraseId>, items: Seq<Item>)
    requires
        all_readable(bounds, items),
        forall|i: int| 0 <= i < items.len() ==> is_finite((#[trigger] items[i]).1),
    ensures
        forall|i: int|
            0 <= i < data_rows(bounds, items).len() ==> is_stored(
                (#[trigger] data_rows(bounds, items)[i]).1,
            ),
    decreases items.len(),
{
    if items.len() > 0 {
        run_length_bounds(bounds, items);
        let n = run_length(bounds, items) as int;
        let group = items.take(n);
        let rest = items.skip(n);
        let bin = bin_of(bounds, items[0].0.phrase_id);
        let a = single_rows(group);
        let b = bin_rows(bin, group);
        let c = data_rows(bounds, rest);
        let all = data_rows(bounds, items);
        assert forall|i: int| 0 <= i < rest.len() implies is_finite((#[trigger] rest[i]).1) by {
            assert(rest[i] == items[i + n]);
        }
        assert forall|i: int| 0 <= i < group.len() implies is_finite((#[trigger] group[i]).1) by {
            assert(group[i] == items[i]);
        }
        data_values(bounds, rest);
        languages_finite(group);
        in_order_exists(languages(group), num_u128());
        assert forall|i: int| 0 <= i < all.len() implies is_stored((#[trigger] all[i]).1) by {
            if i < a.len() {
                assert(all[i] == a[i]);
                assert(a[i] == single_row(group[i]));
                assert(stores(all[i].1, group[i].1));
            } else if i < a.len() + b.len() {
                let j = i - a.len();
                let langs = in_order(languages(group), num_u128());
                let lang = langs[j];
                assert(all[i] == b[j]);
                assert(b[j] == bin_row(bin->Some_0, group, lang));
                assert(langs.contains(lang));
                assert(langs.to_set().contains(lang));
                bins_hold_their_phrases(group, lang);
                assert(stores(all[i].1, aggregated(group, lang)));
            } else {
                let j = i - a.len() - b.len();
                assert(all[i] == c[j]);
            }
        }
    }
}

/// The rows of a database, but for that of the boundaries, hold the stored form of entries.
proof fn database_value(
    bounds: Seq<PhraseId>,
    items: Seq<Item>,
    rows: Seq<RowView>,
    r: int,
) -> (entries: EntriesView)
    requires
        all_readable(bounds, items),
        forall|i: int| 0 <= i < items.len() ==> is_finite((#[trigger] items[i]).1),
        is_database(rows, all_rows(bounds, items)),
        0 <= r < rows.len(),
        rows[r].0 != bounds_key_bytes(),
    ensures
        stores(rows[r].1, entries),
{
    let key = rows[r].0;
    assert(has_row(rows, key));
    row_value_at(rows, r);
    assert(row_value(rows, key) == last_put(all_rows(bounds, items), key));
    let puts = all_rows(bounds, items);
    let at = put_somewhere(puts, key);
    data_values(bounds, items);
    assert(at < puts.len() - 1);
    assert(puts[at] == data_rows(bounds, items)[at]);
    assert(is_stored(rows[r].1));
    choose|entries: EntriesView| stores(rows[r].1, entries)
}

/// The matches of the row come best first: the query has no proximity point, it asks for the row's
/// language, or being within the radius or not, which then makes a difference to the relevance,
/// leaves them in that order.
pub open spec fn row_descends(row: RowView, query: MatchKey, opts: OptsView, meter: Meter) -> bool {
    opts.proximity is None || language_matches(query, row.0) || forall|out: Seq<MatchEntry>|
        #[trigger] is_row_matches(row, query, opts, meter, out) ==> best_come_first(out)
}

/// The matches of each row that a query asks for come best first.
pub open spec fn rows_descend(
    store: GridStore,
    query: MatchKey,
    opts: OptsView,
    meter: Meter,
) -> bool {
    let (range, marker) = fetch_plan(query, store.bin_boundaries@);
    forall|i: int|
        0 <= i < store.table().len() && key_matches(range, marker, (#[trigger] store.table()[i]).0)
            ==> row_descends(store.table()[i], range, opts, meter)
}

/// A query finds the best matches of what was written, as many as are asked for, the best first:
/// none that it leaves out is better than one that it finds, and none is left out while there is
/// room. That is so where the matches of each row come best first, as they do without a proximity
/// point and in the languages that the query asks for; in another language an entry within the
/// radius keeps its relevance and one outside does not.
pub proof fn queries_find_the_best(
    bounds: Seq<PhraseId>,
    items: Seq<Item>,
    store: GridStore,
    query: MatchKey,
    opts: OptsView,
    meter: Meter,
    max: nat,
    out: Seq<MatchEntry>,
)
    requires
        all_readable(bounds, items),
        forall|i: int| 0 <= i < items.len() ==> is_finite((#[trigger] items[i]).1),
        store.wf(),
        is_database(store.table(), all_rows(bounds, items)),
        answers_query(store, query, opts, meter, max, out),
        rows_descend(store, query, opts, meter),
    ensures
        best_come_first(out),
        out.len() <= max,
        ({
            let (range, marker) = fetch_plan(query, store.bin_boundaries@);
            let all = rows_bag(
                store.table().filter(row_matches(range, marker)),
                range,
                opts,
                meter,
            );
            &&& out.to_multiset().subset_of(all)
            &&& out.len() < max ==> out.to_multiset() == all
            &&& forall|e: MatchEntry, i: int|
                #![trigger at_least(out[i], e)]
                0 <= i < out.len() && all.count(e) > out.to_multiset().count(e) ==> at_least(
                    out[i],
                    e,
                )
        }),
{
    let (range, marker) = fetch_plan(query, store.bin_boundaries@);
    let table = store.table();
    let rows = scanned(table, range, marker);
    assert forall|i: int| 0 <= i < table.len() implies key_has_head((#[trigger] table[i]).0) by {
        database_key(bounds, items, table, i);
    }
    scans_are_complete(table, range, marker);
    scan_len(table, range, marker);
    scan_keys(table, range, marker);
    assert(store.rows.len() == table.len());
    let lists = choose|lists: Seq<Seq<MatchEntry>>| #[trigger]
        are_row_matches(lists, rows, range, opts, meter) && out == best_matches(lists, max);
    row_lists_bag(lists, rows, range, opts, meter, rows.len() as int);
    assert(rows.take(rows.len() as int) =~= rows);
    assert forall|s: int| 0 <= s < lists.len() implies best_come_first(#[trigger] lists[s]) by {
        assert(is_row_matches(rows[s], range, opts, meter, lists[s]));
        assert(rows.contains(rows[s]));
        let r = choose|r: int| 0 <= r < table.len() && table[r] == rows[s];
        assert(bounds_key_bytes()[0] == 126u8);
        let entries = database_value(bounds, items, table, r);
        assert(row_descends(table[r], range, opts, meter));
        if rows[s].0.len() <= MAX_DB_KEY_SIZE && (opts.proximity is None || language_matches(
            range,
            rows[s].0,
        )) {
            stored_matches_descend(
                entries,
                opts,
                meter,
                language_matches(range, rows[s].0),
                lists[s],
            );
        }
    }
    merges_keep_order(lists, max);
    merges_take_the_best(lists, max);
}

proof fn drained_len(
    lists: Seq<Seq<MatchEntry>>,
    queue: Multiset<RankKey>,
    next: Seq<int>,
    count: nat,
)
    ensures
        drained(lists, queue, next, count).len() <= count,
    decreases count,
{
    if count > 0 && queue.len() > 0 {
        let slot = highest(queue).6 as int;
        let at = next[slot];
        drained_len(
            lists,
            advanced(lists, queue, slot, at),
            next.update(slot, at + 1),
            (count - 1) as nat,
        );
    }
}

/// A query finds no more matches than are asked for.
pub proof fn queries_find_no_more(
    store: GridStore,
    query: MatchKey,
    opts: OptsView,
    meter: Meter,
    max: nat,
    out: Seq<MatchEntry>,
)
    requires
        answers_query(store, query, opts, meter, max, out),
    ensures
        out.len() <= max,
{
    let (range, marker) = fetch_plan(query, store.bin_boundaries@);
    let lists = choose|lists: Seq<Seq<MatchEntry>>| #[trigger]
        are_row_matches(lists, scanned(store.table(), range, marker), range, opts, meter) && out
            == best_matches(lists, max);
    drained_len(
        lists,
        filled(lists, lists.len() as int, max),
        Seq::new(lists.len(), |i: int| 0int),
        max,
    );
}

proof fn filled_len(lists: Seq<Seq<MatchEntry>>, n: int, max: nat)
    requires
        0 <= n <= lists.len(),
    ensures
        filled(lists, n, max).len() <= n,
    decreases n,
{
    if n > 0 {
        filled_len(lists, n - 1, max);
        let before = filled(lists, n - 1, max);
        if before.len() > 0 {
            extremes_exist(before);
        }
    }
}

/// The first of the matches that are merged out of lists is the best of the first matches of these:
/// none of them is more relevant; at the same relevance none ranks higher; then it is one whose
/// language matches, if there is one; then the one furthest to the east, then to the south, then of
/// the highest feature.
pub proof fn the_best_first_match_comes_first(lists: Seq<Seq<MatchEntry>>, max: nat, s: int)
    requires
        lists.len() <= usize::MAX,
        lists.len() < max,
        0 <= s < lists.len(),
        lists[s].len() > 0,
    ensures
        best_matches(lists, max).len() > 0,
        ({
            let a = best_matches(lists, max)[0];
            let b = lists[s][0];
            let g = a.grid_entry;
            let h = b.grid_entry;
            g.relev > h.relev || (g.relev == h.relev && (a.scoredist > b.scoredist || (a.scoredist
                == b.scoredist && ((a.matches_language && !b.matches_language) || (
            a.matches_language == b.matches_language && (g.x > h.x || (g.x == h.x && (g.y > h.y || (
            g.y == h.y && g.id >= h.id)))))))))
        }),
{
    let n = lists.len() as int;
    let queue = filled(lists, n, max);
    filled_keeps_best(lists, n, max);
    filled_ok(lists, n, max);
    filled_len(lists, n, max);
    let key = match_rank(lists[s][0], s);
    assert(queue.count(key) > 0);
    if queue.len() == 0 {
        vstd::multiset::lemma_multiset_empty_len(queue);
    }
    extremes_exist(queue);
    let top = highest(queue);
    assert(queue.count(top) > 0);
    assert(queue.contains(key));
    let zeros = Seq::new(lists.len(), |i: int| 0int);
    assert(best_matches(lists, max)[0] == lists[top.6 as int][zeros[top.6 as int]]);
}

} // verus!
