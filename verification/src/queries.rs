//! What a query finds.

use vstd::multiset::Multiset;
use vstd::prelude::*;

use crate::builder::{listing, EntriesView, RowView};
use crate::common::{
    be_bytes_round_trip, bytes_lt, bytes_lt_at, bytes_lt_total, first_phrase, key_has_head,
    key_matches, key_phrase, language_matches, level_relev, marker_byte, MatchKey, TypeMarker,
    DB_KEY_HEAD, MAX_DB_KEY_SIZE,
};
use crate::decode::{
    all_scored, comes_before, coord_matches, flat_group, flattened, is_matches, is_ranked,
    match_of, match_relev, relev_run, relev_run_bounds, run_matches, scored, FlatView, MatchEntry,
    Meter, ScoredView,
};
use crate::laws::{bag_sum, bag_sum_permutes, concat_bags, empty_bag, is_finite};
use crate::order::{in_order, in_order_exists, num_u8, place_in};
use crate::outside::{be_bytes, decoded_groups};
use crate::rank::{extremes_exist, highest, is_highest, rank_le, RankKey};
use crate::spatial::{in_box, OptsView};
use crate::store::{
    advanced, answers_query, are_row_matches, best_matches, drained, fetch_plan, filled,
    is_row_matches, match_rank, matching_run, offered, queue_ok, rows_ascend, rows_before, scanned,
    GridStore,
};

verus! {

// ---------------------------------------------------------------------------------------------
// Rows
// ---------------------------------------------------------------------------------------------

/// The marker and the phrase of a database key as one number.
spec fn head_of(key: Seq<u8>) -> nat {
    key[0] as nat * 0x1_0000_0000 + key_phrase(key)
}

proof fn prefix_comes_first(a: Seq<u8>, b: Seq<u8>)
    requires
        b.len() <= a.len(),
        a.take(b.len() as int) == b,
    ensures
        !bytes_lt(a, b),
    decreases b.len(),
{
    if b.len() > 0 {
        assert(a.take(b.len() as int)[0] == a[0]);
        assert(a.skip(1).take(b.len() - 1) =~= a.take(b.len() as int).skip(1));
        prefix_comes_first(a.skip(1), b.skip(1));
    }
}

proof fn heads_are_ordered(a: Seq<u8>, b: Seq<u8>)
    requires
        key_has_head(a),
        key_has_head(b),
        bytes_lt(a, b),
    ensures
        head_of(a) <= head_of(b),
        b.len() == DB_KEY_HEAD ==> head_of(a) < head_of(b),
{
    if head_of(a) >= head_of(b) {
        if a.take(5) == b.take(5) {
            assert forall|i: int| 0 <= i < 5 implies a[i] == b[i] by {
                assert(a.take(5)[i] == b.take(5)[i]);
            }
            if b.len() == DB_KEY_HEAD {
                assert(b.take(5) =~= b);
                prefix_comes_first(a, b);
            }
        } else {
            let n: int = if a[0] != b[0] {
                0
            } else if a[1] != b[1] {
                1
            } else if a[2] != b[2] {
                2
            } else if a[3] != b[3] {
                3
            } else {
                4
            };
            if n == 4 && a[4] == b[4] {
                assert(a.take(5) =~= b.take(5));
            }
            assert(a.take(n) =~= b.take(n));
            assert(a[n] > b[n]);
            bytes_lt_at(b, a, n);
        }
    }
}

spec fn first_head(query: MatchKey, marker: TypeMarker) -> nat {
    marker_byte(marker) as nat * 0x1_0000_0000 + first_phrase(query.match_phrase) as nat
}

/// Behind a row from the start of the query on that does not match, none matches.
proof fn matches_are_adjacent(query: MatchKey, marker: TypeMarker, a: Seq<u8>, b: Seq<u8>)
    requires
        key_has_head(a),
        key_has_head(b),
        first_head(query, marker) <= head_of(a) <= head_of(b),
        key_matches(query, marker, b),
    ensures
        key_matches(query, marker, a),
{
}

proof fn run_is_prefix(rows: Seq<RowView>, query: MatchKey, marker: TypeMarker)
    ensures
        matching_run(rows, query, marker).len() <= rows.len(),
        matching_run(rows, query, marker) == rows.take(
            matching_run(rows, query, marker).len() as int,
        ),
        forall|i: int|
            0 <= i < matching_run(rows, query, marker).len() ==> key_matches(
                query,
                marker,
                (#[trigger] rows[i]).0,
            ),
        matching_run(rows, query, marker).len() < rows.len() ==> {
            let next = rows[matching_run(rows, query, marker).len() as int].0;
            !(key_has_head(next) && key_matches(query, marker, next))
        },
    decreases rows.len(),
{
    let run = matching_run(rows, query, marker);
    if run.len() > 0 {
        let rest = rows.skip(1);
        run_is_prefix(rest, query, marker);
        let more = matching_run(rest, query, marker);
        assert(run =~= seq![rows[0]] + more);
        assert forall|i: int| 0 <= i < run.len() implies key_matches(
            query,
            marker,
            (#[trigger] rows[i]).0,
        ) by {
            if i > 0 {
                assert(rest[i - 1] == rows[i]);
            }
        }
        if more.len() < rest.len() {
            assert(rest[more.len() as int] == rows[run.len() as int]);
        }
        assert(run =~= rows.take(run.len() as int));
    } else {
        assert(rows.take(0) =~= run);
    }
}

proof fn rows_before_splits(rows: Seq<RowView>, key: Seq<u8>)
    ensures
        rows_before(rows, key) <= rows.len(),
        forall|i: int| 0 <= i < rows_before(rows, key) ==> bytes_lt((#[trigger] rows[i]).0, key),
        rows_before(rows, key) < rows.len() ==> !bytes_lt(
            rows[rows_before(rows, key) as int].0,
            key,
        ),
    decreases rows.len(),
{
    if rows_before(rows, key) > 0 {
        let rest = rows.skip(1);
        rows_before_splits(rest, key);
        assert forall|i: int| 0 <= i < rows_before(rows, key) implies bytes_lt(
            (#[trigger] rows[i]).0,
            key,
        ) by {
            if i > 0 {
                assert(rest[i - 1] == rows[i]);
            }
        }
        let n = rows_before(rest, key) as int;
        if n < rest.len() {
            assert(rest[n] == rows[n + 1]);
        }
    }
}

proof fn filter_all<A>(s: Seq<A>, p: spec_fn(A) -> bool)
    requires
        forall|i: int| 0 <= i < s.len() ==> p(#[trigger] s[i]),
    ensures
        s.filter(p) == s,
    decreases s.len(),
{
    reveal(Seq::filter);
    if s.len() > 0 {
        let rest = s.drop_last();
        assert forall|i: int| 0 <= i < rest.len() implies p(#[trigger] rest[i]) by {
            assert(rest[i] == s[i]);
        }
        filter_all(rest, p);
        assert(p(s[s.len() - 1]));
        assert(rest.push(s.last()) =~= s);
    }
}

proof fn filter_none<A>(s: Seq<A>, p: spec_fn(A) -> bool)
    requires
        forall|i: int| 0 <= i < s.len() ==> !p(#[trigger] s[i]),
    ensures
        s.filter(p) == Seq::<A>::empty(),
    decreases s.len(),
{
    reveal(Seq::filter);
    if s.len() > 0 {
        let rest = s.drop_last();
        assert forall|i: int| 0 <= i < rest.len() implies !p(#[trigger] rest[i]) by {
            assert(rest[i] == s[i]);
        }
        filter_none(rest, p);
        assert(!p(s[s.len() - 1]));
    } else {
        assert(s.filter(p) =~= Seq::empty());
    }
}

/// A row whose key is under the marker and names a phrase that the query asks for.
pub open spec fn row_matches(query: MatchKey, marker: TypeMarker) -> spec_fn(RowView) -> bool {
    |row: RowView| key_matches(query, marker, row.0)
}

proof fn below_the_start(query: MatchKey, marker: TypeMarker, start: Seq<u8>, key: Seq<u8>)
    requires
        start == seq![marker_byte(marker)] + be_bytes(first_phrase(query.match_phrase)),
        key_has_head(key),
    ensures
        bytes_lt(key, start) ==> !key_matches(query, marker, key),
        !bytes_lt(key, start) ==> first_head(query, marker) <= head_of(key),
{
    let phrase = be_bytes(first_phrase(query.match_phrase));
    be_bytes_round_trip(first_phrase(query.match_phrase));
    assert(start[1] == phrase[0] && start[2] == phrase[1] && start[3] == phrase[2] && start[4]
        == phrase[3]);
    assert(head_of(start) == first_head(query, marker));
    bytes_lt_total(key, start);
    if bytes_lt(key, start) {
        heads_are_ordered(key, start);
    } else if bytes_lt(start, key) {
        heads_are_ordered(start, key);
    }
}

proof fn behind_the_run(
    rows: Seq<RowView>,
    query: MatchKey,
    marker: TypeMarker,
    first: int,
    next: int,
    this: int,
)
    requires
        rows_ascend(rows),
        forall|i: int| 0 <= i < rows.len() ==> key_has_head((#[trigger] rows[i]).0),
        0 <= first <= next <= this < rows.len(),
        first_head(query, marker) <= head_of(rows[first].0),
        !key_matches(query, marker, rows[next].0),
    ensures
        !key_matches(query, marker, rows[this].0),
{
    let f = rows[first].0;
    let n = rows[next].0;
    let t = rows[this].0;
    if first < next {
        assert(bytes_lt(rows[first].0, rows[next].0));
        heads_are_ordered(f, n);
    }
    if next < this {
        assert(bytes_lt(rows[next].0, rows[this].0));
        heads_are_ordered(n, t);
    }
    if key_matches(query, marker, t) {
        matches_are_adjacent(query, marker, n, t);
    }
}

/// A scan for a query goes through all matching rows of a database, and through no others.
pub proof fn scans_are_complete(rows: Seq<RowView>, query: MatchKey, marker: TypeMarker)
    requires
        rows_ascend(rows),
        forall|i: int| 0 <= i < rows.len() ==> key_has_head((#[trigger] rows[i]).0),
    ensures
        scanned(rows, query, marker) == rows.filter(row_matches(query, marker)),
{
    let p = row_matches(query, marker);
    let start = seq![marker_byte(marker)] + be_bytes(first_phrase(query.match_phrase));
    let nb = rows_before(rows, start) as int;
    rows_before_splits(rows, start);
    let tail = rows.skip(nb);
    let run = matching_run(tail, query, marker);
    run_is_prefix(tail, query, marker);
    let n = run.len() as int;
    let before = rows.take(nb);
    let after = tail.skip(n);
    assert(tail =~= run + after);
    assert(rows =~= before + tail);
    Seq::filter_distributes_over_add(before, tail, p);
    Seq::filter_distributes_over_add(run, after, p);
    assert forall|i: int| 0 <= i < before.len() implies !p(#[trigger] before[i]) by {
        assert(before[i] == rows[i]);
        below_the_start(query, marker, start, rows[i].0);
    }
    filter_none(before, p);
    assert forall|i: int| 0 <= i < run.len() implies p(#[trigger] run[i]) by {
        assert(run[i] == tail[i]);
    }
    filter_all(run, p);
    assert forall|i: int| 0 <= i < after.len() implies !p(#[trigger] after[i]) by {
        assert(tail[n] == rows[nb + n]);
        assert(after[i] == rows[nb + n + i]);
        below_the_start(query, marker, start, rows[nb].0);
        behind_the_run(rows, query, marker, nb, nb + n, nb + n + i);
    }
    filter_none(after, p);
    assert(run + Seq::<RowView>::empty() =~= run);
    assert(Seq::<RowView>::empty() + run =~= run);
}

// ---------------------------------------------------------------------------------------------
// Values
// ---------------------------------------------------------------------------------------------

/// The matches at one coordinate of a stored value: none if it lies outside of the bounding box.
pub open spec fn flat_matches(
    flat: FlatView,
    opts: OptsView,
    meter: Meter,
    lang: bool,
) -> Seq<MatchEntry> {
    match scored(flat, opts, meter) {
        Some(c) => coord_matches(c, flat.relev, lang),
        None => Seq::empty(),
    }
}

/// The matches of a stored value, in whichever order.
pub open spec fn value_bag(
    flats: Seq<FlatView>,
    opts: OptsView,
    meter: Meter,
    lang: bool,
) -> Multiset<MatchEntry>
    decreases flats.len(),
{
    if flats.len() == 0 {
        Multiset::empty()
    } else {
        value_bag(flats.drop_last(), opts, meter, lang).add(
            flat_matches(flats.last(), opts, meter, lang).to_multiset(),
        )
    }
}

spec fn coord_bags(relev: u16, lang: bool) -> spec_fn(ScoredView) -> Multiset<MatchEntry> {
    |c: ScoredView| coord_matches(c, relev, lang).to_multiset()
}

proof fn run_matches_bag(run: Seq<ScoredView>, relev: u16, lang: bool)
    ensures
        run_matches(run, relev, lang).to_multiset() == bag_sum(run, coord_bags(relev, lang)),
    decreases run.len(),
{
    if run.len() == 0 {
        empty_bag(run_matches(run, relev, lang));
    } else {
        run_matches_bag(run.drop_last(), relev, lang);
        concat_bags(
            run_matches(run.drop_last(), relev, lang),
            coord_matches(run.last(), relev, lang),
        );
    }
}

proof fn run_has_one_relev(flats: Seq<FlatView>)
    ensures
        forall|i: int|
            0 <= i < relev_run(flats) ==> (#[trigger] flats[i]).relev == flats[0].relev,
    decreases flats.len(),
{
    if flats.len() > 1 && flats[1].relev == flats[0].relev {
        let rest = flats.skip(1);
        run_has_one_relev(rest);
        relev_run_bounds(rest);
        assert forall|i: int| 0 <= i < relev_run(flats) implies (#[trigger] flats[i]).relev
            == flats[0].relev by {
            if i > 0 {
                assert(rest[i - 1] == flats[i]);
                assert(rest[0] == flats[1]);
            }
        }
    }
}

proof fn all_scored_bag(
    flats: Seq<FlatView>,
    opts: OptsView,
    meter: Meter,
    relev: u16,
    lang: bool,
)
    requires
        forall|i: int| 0 <= i < flats.len() ==> (#[trigger] flats[i]).relev == relev,
    ensures
        bag_sum(all_scored(flats, opts, meter), coord_bags(relev, lang)) == value_bag(
            flats,
            opts,
            meter,
            lang,
        ),
    decreases flats.len(),
{
    if flats.len() > 0 {
        let rest = flats.drop_last();
        assert forall|i: int| 0 <= i < rest.len() implies (#[trigger] rest[i]).relev == relev by {
            assert(rest[i] == flats[i]);
        }
        all_scored_bag(rest, opts, meter, relev, lang);
        assert(flats[flats.len() - 1].relev == relev);
        let before = all_scored(rest, opts, meter);
        match scored(flats.last(), opts, meter) {
            Some(c) => {
                assert(before.push(c).drop_last() =~= before);
            },
            None => {
                empty_bag(flat_matches(flats.last(), opts, meter, lang));
                assert(value_bag(flats, opts, meter, lang) =~= value_bag(rest, opts, meter, lang));
            },
        }
    }
}

proof fn value_bag_concat(
    a: Seq<FlatView>,
    b: Seq<FlatView>,
    opts: OptsView,
    meter: Meter,
    lang: bool,
)
    ensures
        value_bag(a + b, opts, meter, lang) == value_bag(a, opts, meter, lang).add(
            value_bag(b, opts, meter, lang),
        ),
    decreases b.len(),
{
    if b.len() == 0 {
        assert(a + b =~= a);
        assert(value_bag(a, opts, meter, lang).add(Multiset::empty()) =~= value_bag(
            a,
            opts,
            meter,
            lang,
        ));
    } else {
        assert((a + b).drop_last() =~= a + b.drop_last());
        value_bag_concat(a, b.drop_last(), opts, meter, lang);
        assert(value_bag(a + b, opts, meter, lang) =~= value_bag(a, opts, meter, lang).add(
            value_bag(b, opts, meter, lang),
        ));
    }
}

/// The matches of a stored value are those at its coordinates, none left out and none twice.
pub proof fn values_match_completely(
    flats: Seq<FlatView>,
    opts: OptsView,
    meter: Meter,
    lang: bool,
    out: Seq<MatchEntry>,
)
    requires
        is_matches(flats, opts, meter, lang, out),
    ensures
        out.to_multiset() == value_bag(flats, opts, meter, lang),
    decreases flats.len(),
{
    if flats.len() == 0 {
        empty_bag(out);
    } else {
        let n = relev_run(flats) as int;
        let relev = flats[0].relev;
        let run = choose|run: Seq<ScoredView>|
            {
                let here = run_matches(run, relev, lang);
                &&& #[trigger] is_ranked(run, flats.take(n), opts, meter)
                &&& here.is_prefix_of(out)
                &&& is_matches(flats.skip(n), opts, meter, lang, out.skip(here.len() as int))
            };
        let here = run_matches(run, relev, lang);
        let rest = out.skip(here.len() as int);
        values_match_completely(flats.skip(n), opts, meter, lang, rest);
        run_has_one_relev(flats);
        assert(out =~= here + rest);
        concat_bags(here, rest);
        run_matches_bag(run, relev, lang);
        bag_sum_permutes(
            run,
            all_scored(flats.take(n), opts, meter),
            coord_bags(relev, lang),
        );
        all_scored_bag(flats.take(n), opts, meter, relev, lang);
        assert(flats =~= flats.take(n) + flats.skip(n));
        value_bag_concat(flats.take(n), flats.skip(n), opts, meter, lang);
    }
}

proof fn value_bag_lies_in_box(
    flats: Seq<FlatView>,
    opts: OptsView,
    meter: Meter,
    lang: bool,
    e: MatchEntry,
)
    requires
        value_bag(flats, opts, meter, lang).contains(e),
        opts.bbox is Some,
    ensures
        in_box(opts.bbox->Some_0, e.grid_entry.x, e.grid_entry.y),
        e.matches_language == lang,
    decreases flats.len(),
{
    broadcast use vstd::seq_lib::group_to_multiset_ensures;

    if flats.len() > 0 {
        let here = flat_matches(flats.last(), opts, meter, lang);
        if here.to_multiset().contains(e) {
            assert(here.contains(e));
            let i = choose|i: int| 0 <= i < here.len() && here[i] == e;
            let c = scored(flats.last(), opts, meter)->Some_0;
            assert(here[i] == match_of(c, flats.last().relev, lang, c.ids[i]));
        } else {
            value_bag_lies_in_box(flats.drop_last(), opts, meter, lang, e);
        }
    }
}

/// The coordinates are in descending order of relevance.
spec fn flats_descend(flats: Seq<FlatView>) -> bool {
    &&& forall|i: int|
        0 <= i < flats.len() ==> {
            let relev = (#[trigger] flats[i]).relev;
            relev == 400 || relev == 600 || relev == 800 || relev == 1000
        }
    &&& forall|i: int, j: int|
        0 <= i < j < flats.len() ==> (#[trigger] flats[i]).relev >= (#[trigger] flats[j]).relev
}

proof fn stored_flats_descend(groups: Seq<(u8, Seq<(u32, Seq<u32>)>)>)
    requires
        forall|i: int, j: int|
            0 <= i < j < groups.len() ==> (#[trigger] groups[i]).0 > (#[trigger] groups[j]).0,
    ensures
        flats_descend(flattened(groups)),
        groups.len() > 0 ==> forall|i: int|
            0 <= i < flattened(groups).len() ==> (#[trigger] flattened(groups)[i]).relev
                >= level_relev(groups.last().0 / 16),
    decreases groups.len(),
{
    if groups.len() > 0 {
        let rest = groups.drop_last();
        stored_flats_descend(rest);
        let before = flattened(rest);
        let here = flat_group(groups.last());
        let all = flattened(groups);
        let relev = level_relev(groups.last().0 / 16);
        assert forall|i: int| 0 <= i < here.len() implies (#[trigger] here[i]).relev == relev by {}
        assert forall|i: int| 0 <= i < before.len() implies (#[trigger] before[i]).relev
            >= relev by {
            let last = rest.len() - 1;
            assert(rest[last] == groups[last] && groups[last].0 > groups[last + 1].0);
        }
        assert forall|i: int| 0 <= i < all.len() implies #[trigger] all[i] == (if i
            < before.len() {
            before[i]
        } else {
            here[i - before.len()]
        }) by {}
    }
}

proof fn run_entries(run: Seq<ScoredView>, relev: u16, lang: bool, i: int) -> (at: int)
    requires
        0 <= i < run_matches(run, relev, lang).len(),
    ensures
        0 <= at < run.len(),
        exists|id: u32|
            run_matches(run, relev, lang)[i] == #[trigger] match_of(run[at], relev, lang, id),
        forall|j: int|
            #![trigger run_matches(run, relev, lang)[j]]
            i < j < run_matches(run, relev, lang).len() ==> exists|to: int, id: u32|
                at <= to < run.len() && run_matches(run, relev, lang)[j] == #[trigger] match_of(
                    run[to],
                    relev,
                    lang,
                    id,
                ),
    decreases run.len(),
{
    let rest = run.drop_last();
    let before = run_matches(rest, relev, lang);
    let here = coord_matches(run.last(), relev, lang);
    let all = run_matches(run, relev, lang);
    let last = run.len() - 1;
    assert forall|j: int|
        #![trigger all[j]]
        before.len() <= j < all.len() implies all[j] == match_of(
        run[last],
        relev,
        lang,
        run[last].ids[j - before.len()],
    ) by {
        assert(all[j] == here[j - before.len()]);
    }
    if i < before.len() {
        let at = run_entries(rest, relev, lang, i);
        assert(rest[at] == run[at]);
        assert forall|j: int|
            #![trigger all[j]]
            i < j < all.len() implies exists|to: int, id: u32|
            at <= to < run.len() && all[j] == #[trigger] match_of(run[to], relev, lang, id) by {
            if j < before.len() {
                assert(all[j] == before[j]);
                let (to, id) = choose|to: int, id: u32|
                    at <= to < rest.len() && before[j] == #[trigger] match_of(
                        rest[to],
                        relev,
                        lang,
                        id,
                    );
                assert(all[j] == match_of(run[to], relev, lang, id));
            } else {
                assert(all[j] == match_of(
                    run[last],
                    relev,
                    lang,
                    run[last].ids[j - before.len()],
                ));
            }
        }
        assert(all[i] == before[i]);
        at
    } else {
        assert(all[i] == match_of(run[last], relev, lang, run[last].ids[i - before.len()]));
        last
    }
}

proof fn scored_radius(flats: Seq<FlatView>, opts: OptsView, meter: Meter, c: ScoredView)
    requires
        opts.proximity is None,
        all_scored(flats, opts, meter).contains(c),
    ensures
        !c.within_radius,
    decreases flats.len(),
{
    if flats.len() > 0 {
        let before = all_scored(flats.drop_last(), opts, meter);
        let all = all_scored(flats, opts, meter);
        let i = choose|i: int| 0 <= i < all.len() && all[i] == c;
        if i < before.len() {
            assert(before[i] == c);
            scored_radius(flats.drop_last(), opts, meter, c);
        }
    }
}

/// The relevance that all matches of one stored relevance have.
spec fn shown_relev(relev: u16, lang: bool) -> u16 {
    match_relev(relev, lang, false)
}

proof fn run_descends(
    run: Seq<ScoredView>,
    flats: Seq<FlatView>,
    opts: OptsView,
    meter: Meter,
    relev: u16,
    lang: bool,
)
    requires
        is_ranked(run, flats, opts, meter),
        opts.proximity is None || lang,
    ensures
        best_come_first(run_matches(run, relev, lang)),
        forall|i: int|
            0 <= i < run_matches(run, relev, lang).len() ==> (#[trigger] run_matches(
                run,
                relev,
                lang,
            )[i]).grid_entry.relev == shown_relev(relev, lang),
{
    let all = run_matches(run, relev, lang);
    assert forall|at: int| 0 <= at < run.len() implies match_relev(
        relev,
        lang,
        (#[trigger] run[at]).within_radius,
    ) == shown_relev(relev, lang) by {
        if !lang {
            let q = place_in(run, all_scored(flats, opts, meter), at);
            assert(all_scored(flats, opts, meter).contains(run[at]));
            scored_radius(flats, opts, meter, run[at]);
        }
    }
    assert forall|i: int| 0 <= i < all.len() implies (#[trigger] all[i]).grid_entry.relev
        == shown_relev(relev, lang) by {
        let at = run_entries(run, relev, lang, i);
        let id = choose|id: u32| all[i] == #[trigger] match_of(run[at], relev, lang, id);
        assert(match_relev(relev, lang, run[at].within_radius) == shown_relev(relev, lang));
    }
    assert forall|i: int, j: int| 0 <= i < j < all.len() implies at_least(
        #[trigger] all[i],
        #[trigger] all[j],
    ) by {
        let at = run_entries(run, relev, lang, i);
        let id = choose|id: u32| all[i] == #[trigger] match_of(run[at], relev, lang, id);
        let (to, other) = choose|to: int, other: u32|
            at <= to < run.len() && all[j] == #[trigger] match_of(run[to], relev, lang, other);
        if at < to {
            assert(!comes_before(run[to], run[at]));
        }
    }
}

proof fn value_descends(
    flats: Seq<FlatView>,
    opts: OptsView,
    meter: Meter,
    lang: bool,
    out: Seq<MatchEntry>,
)
    requires
        is_matches(flats, opts, meter, lang, out),
        flats_descend(flats),
        opts.proximity is None || lang,
    ensures
        best_come_first(out),
        flats.len() > 0 ==> forall|i: int|
            0 <= i < out.len() ==> (#[trigger] out[i]).grid_entry.relev <= shown_relev(
                flats[0].relev,
                lang,
            ),
    decreases flats.len(),
{
    if flats.len() > 0 {
        let n = relev_run(flats) as int;
        let relev = flats[0].relev;
        let run = choose|run: Seq<ScoredView>|
            {
                let here = run_matches(run, relev, lang);
                &&& #[trigger] is_ranked(run, flats.take(n), opts, meter)
                &&& here.is_prefix_of(out)
                &&& is_matches(flats.skip(n), opts, meter, lang, out.skip(here.len() as int))
            };
        let here = run_matches(run, relev, lang);
        let tail = flats.skip(n);
        let rest = out.skip(here.len() as int);
        assert(flats_descend(tail)) by {
            assert forall|i: int| 0 <= i < tail.len() implies #[trigger] tail[i] == flats[i
                + n] by {}
        }
        value_descends(tail, opts, meter, lang, rest);
        run_descends(run, flats.take(n), opts, meter, relev, lang);
        assert(out =~= here + rest);
        if tail.len() > 0 {
            assert(tail[0] == flats[n]);
            assert(flats[0].relev >= flats[n].relev);
        }
        assert forall|i: int, j: int| 0 <= i < j < out.len() implies at_least(
            #[trigger] out[i],
            #[trigger] out[j],
        ) by {
            if j < here.len() {
                assert(out[i] == here[i] && out[j] == here[j]);
            } else if i >= here.len() {
                assert(out[i] == rest[i - here.len()] && out[j] == rest[j - here.len()]);
            } else {
                assert(out[i] == here[i] && out[j] == rest[j - here.len()]);
                run_ends(flats);
                assert(tail.len() > 0);
            }
        }
        assert forall|i: int| 0 <= i < out.len() implies (#[trigger] out[i]).grid_entry.relev
            <= shown_relev(relev, lang) by {
            if i < here.len() {
                assert(out[i] == here[i]);
            } else {
                assert(out[i] == rest[i - here.len()]);
                assert(tail.len() > 0);
            }
        }
    }
}

proof fn run_ends(flats: Seq<FlatView>)
    requires
        flats.len() > 0,
    ensures
        relev_run(flats) < flats.len() ==> flats[relev_run(flats) as int].relev != flats[0].relev,
    decreases flats.len(),
{
    if flats.len() > 1 && flats[1].relev == flats[0].relev {
        let rest = flats.skip(1);
        run_ends(rest);
        relev_run_bounds(rest);
        let n = relev_run(rest) as int;
        assert(rest[0] == flats[1]);
        if n < rest.len() {
            assert(rest[n] == flats[n + 1]);
        }
    }
}

/// The matches of stored entries come best first, where the language matches or the query has no
/// proximity point: else an entry within the radius keeps its relevance and one outside does not.
pub proof fn stored_matches_descend(
    entries: EntriesView,
    opts: OptsView,
    meter: Meter,
    lang: bool,
    out: Seq<MatchEntry>,
)
    requires
        is_finite(entries),
        is_matches(flattened(listing(entries)), opts, meter, lang, out),
        opts.proximity is None || lang,
    ensures
        best_come_first(out),
{
    let groups = listing(entries);
    let up = in_order(entries.dom(), num_u8());
    in_order_exists(entries.dom(), num_u8());
    assert forall|i: int, j: int| 0 <= i < j < groups.len() implies (#[trigger] groups[i]).0 > (
    #[trigger] groups[j]).0 by {
        let n = up.len();
        assert(num_u8()(up[n - 1 - j]) < num_u8()(up[n - 1 - i]));
    }
    stored_flats_descend(groups);
    value_descends(flattened(groups), opts, meter, lang, out);
}

// ---------------------------------------------------------------------------------------------
// Merging
// ---------------------------------------------------------------------------------------------

/// The matches of the first `n` lists that are still to come, in whichever order.
pub open spec fn rest_bag(lists: Seq<Seq<MatchEntry>>, next: Seq<int>, n: int) -> Multiset<
    MatchEntry,
>
    decreases n,
{
    if n <= 0 {
        Multiset::empty()
    } else {
        rest_bag(lists, next, n - 1).add(lists[n - 1].skip(next[n - 1]).to_multiset())
    }
}

/// The matches of all lists, in whichever order.
pub open spec fn lists_bag(lists: Seq<Seq<MatchEntry>>) -> Multiset<MatchEntry> {
    rest_bag(lists, Seq::new(lists.len(), |i: int| 0int), lists.len() as int)
}

pub(crate) proof fn rest_bag_step(
    lists: Seq<Seq<MatchEntry>>,
    next: Seq<int>,
    n: int,
    slot: int,
)
    requires
        0 <= n <= lists.len() == next.len(),
        0 <= slot < lists.len(),
        0 <= next[slot] < lists[slot].len(),
    ensures
        rest_bag(lists, next, n) == (if slot < n {
            rest_bag(lists, next.update(slot, next[slot] + 1), n).insert(lists[slot][next[slot]])
        } else {
            rest_bag(lists, next.update(slot, next[slot] + 1), n)
        }),
    decreases n,
{
    if n > 0 {
        let after = next.update(slot, next[slot] + 1);
        rest_bag_step(lists, next, n - 1, slot);
        if slot == n - 1 {
            let list = lists[slot].skip(next[slot]);
            let more = lists[slot].skip(next[slot] + 1);
            let e = lists[slot][next[slot]];
            broadcast use vstd::seq_lib::group_to_multiset_ensures;

            assert(list[0] == e);
            assert(list.remove(0) =~= more);
            assert(list.contains(e));
            assert(list.to_multiset().count(e) > 0);
            assert(more.to_multiset() =~= list.to_multiset().remove(e));
            assert(list.to_multiset() =~= more.to_multiset().insert(e));
        }
        let e = lists[slot][next[slot]];
        if slot < n {
            assert(rest_bag(lists, next, n) =~= rest_bag(lists, after, n).insert(e));
        }
    }
}

/// Each list with matches still to come has a key in the queue.
pub open spec fn queue_full(
    queue: Multiset<RankKey>,
    lists: Seq<Seq<MatchEntry>>,
    next: Seq<int>,
    slots: int,
) -> bool {
    forall|s: int|
        0 <= s < slots && 0 <= next[s] < lists[s].len() ==> queue.contains(
            match_rank(#[trigger] lists[s][next[s]], s),
        )
}

/// What leaves the queue step by step keeps the queue as it has to be.
pub(crate) proof fn advance_keeps(
    lists: Seq<Seq<MatchEntry>>,
    queue: Multiset<RankKey>,
    next: Seq<int>,
)
    requires
        queue_ok(queue, lists, next, lists.len() as int),
        queue.len() > 0,
    ensures
        ({
            let slot = highest(queue).6 as int;
            let at = next[slot];
            &&& is_highest(queue, highest(queue))
            &&& 0 <= slot < lists.len()
            &&& 0 <= at < lists[slot].len()
            &&& highest(queue) == match_rank(lists[slot][at], slot)
            &&& queue_ok(
                advanced(lists, queue, slot, at),
                lists,
                next.update(slot, at + 1),
                lists.len() as int,
            )
            &&& queue_full(queue, lists, next, lists.len() as int) ==> queue_full(
                advanced(lists, queue, slot, at),
                lists,
                next.update(slot, at + 1),
                lists.len() as int,
            )
        }),
{
    extremes_exist(queue);
    let k = highest(queue);
    let slot = k.6 as int;
    let at = next[slot];
    let n = lists.len() as int;
    assert(queue.count(k) > 0);
    let after = advanced(lists, queue, slot, at);
    let spots = next.update(slot, at + 1);
    assert forall|o: RankKey| #[trigger] after.count(o) > 0 implies after.count(o) == 1 && o.6 < n
        && 0 <= spots[o.6 as int] < lists[o.6 as int].len() && o == match_rank(
        lists[o.6 as int][spots[o.6 as int]],
        o.6 as int,
    ) by {
        if o.6 as int != slot {
            assert(queue.count(o) > 0);
        } else {
            assert(queue.count(o) == 0 || o == k);
        }
    }
    if queue_full(queue, lists, next, n) {
        assert forall|s: int| 0 <= s < n && 0 <= spots[s] < lists[s].len() implies after.contains(
            match_rank(#[trigger] lists[s][spots[s]], s),
        ) by {
            if s != slot {
                let o = match_rank(lists[s][next[s]], s);
                assert(queue.contains(o));
                assert(o.6 == s as usize);
                assert(o != k);
            }
        }
    }
}

proof fn drained_bag(
    lists: Seq<Seq<MatchEntry>>,
    queue: Multiset<RankKey>,
    next: Seq<int>,
    count: nat,
)
    requires
        queue_ok(queue, lists, next, lists.len() as int),
        queue_full(queue, lists, next, lists.len() as int),
        forall|s: int| 0 <= s < lists.len() ==> 0 <= #[trigger] next[s] <= lists[s].len(),
        rest_bag(lists, next, lists.len() as int).len() <= count,
    ensures
        drained(lists, queue, next, count).to_multiset() == rest_bag(
            lists,
            next,
            lists.len() as int,
        ),
    decreases count,
{
    broadcast use vstd::seq_lib::group_to_multiset_ensures;

    let n = lists.len() as int;
    let all = rest_bag(lists, next, n);
    if queue.len() == 0 {
        assert forall|s: int| 0 <= s < n implies #[trigger] next[s] == lists[s].len() by {
            if next[s] < lists[s].len() {
                let e = lists[s][next[s]];
                assert(queue.contains(match_rank(lists[s][next[s]], s)));
                assert(queue.count(match_rank(e, s)) > 0);
                vstd::multiset::lemma_multiset_empty_len(queue);
            }
        }
        rest_bag_done(lists, next, n);
        empty_bag(drained(lists, queue, next, count));
    } else {
        advance_keeps(lists, queue, next);
        let slot = highest(queue).6 as int;
        let at = next[slot];
        let after = advanced(lists, queue, slot, at);
        let spots = next.update(slot, at + 1);
        rest_bag_step(lists, next, n, slot);
        assert(all.len() > 0);
        let e = lists[slot][at];
        let more = drained(lists, after, spots, (count - 1) as nat);
        drained_bag(lists, after, spots, (count - 1) as nat);
        concat_bags(seq![e], more);
        assert(seq![e] =~= Seq::<MatchEntry>::empty().push(e));
        empty_bag(Seq::<MatchEntry>::empty());
        assert(drained(lists, queue, next, count).to_multiset() =~= all);
    }
}

pub(crate) proof fn rest_bag_done(lists: Seq<Seq<MatchEntry>>, next: Seq<int>, n: int)
    requires
        0 <= n <= lists.len() == next.len(),
        forall|s: int| 0 <= s < n ==> #[trigger] next[s] == lists[s].len(),
    ensures
        rest_bag(lists, next, n) == Multiset::<MatchEntry>::empty(),
    decreases n,
{
    if n > 0 {
        rest_bag_done(lists, next, n - 1);
        assert(next[n - 1] == lists[n - 1].len());
        empty_bag(lists[n - 1].skip(next[n - 1]));
    }
}

proof fn filled_is(lists: Seq<Seq<MatchEntry>>, n: int, max: nat)
    requires
        0 <= n <= lists.len() <= usize::MAX,
        rest_bag(lists, Seq::new(lists.len(), |i: int| 0int), n).len() <= max,
    ensures
        queue_ok(filled(lists, n, max), lists, Seq::new(lists.len(), |i: int| 0int), n),
        queue_full(filled(lists, n, max), lists, Seq::new(lists.len(), |i: int| 0int), n),
        filled(lists, n, max).len() <= rest_bag(
            lists,
            Seq::new(lists.len(), |i: int| 0int),
            n,
        ).len(),
    decreases n,
{
    let zeros = Seq::new(lists.len(), |i: int| 0int);
    if n > 0 {
        broadcast use vstd::seq_lib::group_to_multiset_ensures;

        let list = lists[n - 1].skip(zeros[n - 1]);
        assert(list =~= lists[n - 1]);
        assert(list.to_multiset().len() == list.len());
        filled_is(lists, n - 1, max);
        let before = filled(lists, n - 1, max);
        let now = filled(lists, n, max);
        if list.len() > 0 {
            let key = match_rank(list[0], n - 1);
            assert(before.len() < max);
            assert(now == before.insert(key));
            assert(before.count(key) == 0);
        }
        assert forall|s: int| 0 <= s < n && 0 <= zeros[s] < lists[s].len() implies now.contains(
            match_rank(#[trigger] lists[s][zeros[s]], s),
        ) by {
            if s < n - 1 {
                assert(before.contains(match_rank(lists[s][zeros[s]], s)));
            }
        }
    }
}

/// Where there is room for all of them, the best matches of the lists are all their matches.
pub proof fn roomy_merges_keep_all(lists: Seq<Seq<MatchEntry>>, max: nat)
    requires
        lists.len() <= usize::MAX,
        lists_bag(lists).len() <= max,
    ensures
        best_matches(lists, max).to_multiset() == lists_bag(lists),
{
    let n = lists.len() as int;
    let zeros = Seq::new(lists.len(), |i: int| 0int);
    filled_is(lists, n, max);
    drained_bag(lists, filled(lists, n, max), zeros, max);
}

pub(crate) proof fn filled_ok(lists: Seq<Seq<MatchEntry>>, n: int, max: nat)
    requires
        0 <= n <= lists.len() <= usize::MAX,
    ensures
        queue_ok(filled(lists, n, max), lists, Seq::new(lists.len(), |i: int| 0int), n),
    decreases n,
{
    if n > 0 {
        filled_ok(lists, n - 1, max);
        let before = filled(lists, n - 1, max);
        if lists[n - 1].len() > 0 {
            let key = match_rank(lists[n - 1][0], n - 1);
            assert(before.count(key) == 0);
            assert(filled(lists, n, max) == offered(before, key, max));
        }
    }
}

/// The entry is a match of one of the lists.
spec fn listed(lists: Seq<Seq<MatchEntry>>, e: MatchEntry) -> bool {
    exists|s: int, i: int|
        0 <= s < lists.len() && 0 <= i < lists[s].len() && #[trigger] lists[s][i] == e
}

proof fn drained_are_listed(
    lists: Seq<Seq<MatchEntry>>,
    queue: Multiset<RankKey>,
    next: Seq<int>,
    count: nat,
)
    requires
        queue_ok(queue, lists, next, lists.len() as int),
    ensures
        forall|i: int|
            0 <= i < drained(lists, queue, next, count).len() ==> listed(
                lists,
                #[trigger] drained(lists, queue, next, count)[i],
            ),
    decreases count,
{
    if count > 0 && queue.len() > 0 {
        advance_keeps(lists, queue, next);
        let slot = highest(queue).6 as int;
        let at = next[slot];
        let after = advanced(lists, queue, slot, at);
        let spots = next.update(slot, at + 1);
        let more = drained(lists, after, spots, (count - 1) as nat);
        let all = drained(lists, queue, next, count);
        drained_are_listed(lists, after, spots, (count - 1) as nat);
        assert(all =~= seq![lists[slot][at]] + more);
        assert forall|i: int| 0 <= i < all.len() implies listed(lists, #[trigger] all[i]) by {
            if i == 0 {
                assert(lists[slot][at] == all[0]);
            } else {
                assert(all[i] == more[i - 1]);
            }
        }
    }
}

/// `a` has no lower relevance than `b`, and at the same relevance no lower rank.
pub open spec fn at_least(a: MatchEntry, b: MatchEntry) -> bool {
    a.grid_entry.relev > b.grid_entry.relev || (a.grid_entry.relev == b.grid_entry.relev
        && a.scoredist >= b.scoredist)
}

/// The matches are in descending order of relevance, and at each relevance of rank.
pub open spec fn best_come_first(list: Seq<MatchEntry>) -> bool {
    forall|i: int, j: int|
        0 <= i < j < list.len() ==> at_least(#[trigger] list[i], #[trigger] list[j])
}

/// Every key of the queue stands for a match that is no better than `e`.
spec fn queue_below(queue: Multiset<RankKey>, e: MatchEntry) -> bool {
    forall|k: RankKey| #[trigger]
        queue.contains(k) ==> k.0 < e.grid_entry.relev || (k.0 == e.grid_entry.relev && k.1
            <= e.scoredist)
}

proof fn drained_descend(
    lists: Seq<Seq<MatchEntry>>,
    queue: Multiset<RankKey>,
    next: Seq<int>,
    count: nat,
)
    requires
        queue_ok(queue, lists, next, lists.len() as int),
        forall|s: int| 0 <= s < lists.len() ==> best_come_first(#[trigger] lists[s]),
    ensures
        best_come_first(drained(lists, queue, next, count)),
        forall|e: MatchEntry, i: int|
            #![trigger at_least(e, drained(lists, queue, next, count)[i])]
            queue_below(queue, e) && 0 <= i < drained(lists, queue, next, count).len()
                ==> at_least(e, drained(lists, queue, next, count)[i]),
    decreases count,
{
    if count > 0 && queue.len() > 0 {
        advance_keeps(lists, queue, next);
        let k = highest(queue);
        let slot = k.6 as int;
        let at = next[slot];
        let first = lists[slot][at];
        let after = advanced(lists, queue, slot, at);
        let spots = next.update(slot, at + 1);
        let more = drained(lists, after, spots, (count - 1) as nat);
        let all = drained(lists, queue, next, count);
        drained_descend(lists, after, spots, (count - 1) as nat);
        assert(all =~= seq![first] + more);
        assert(queue.contains(k));
        assert(queue_below(after, first)) by {
            assert forall|o: RankKey| #[trigger] after.contains(o) implies o.0
                < first.grid_entry.relev || (o.0 == first.grid_entry.relev && o.1
                <= first.scoredist) by {
                if queue.contains(o) {
                    assert(rank_le(o, k));
                } else {
                    assert(best_come_first(lists[slot]));
                    assert(at_least(lists[slot][at], lists[slot][at + 1]));
                    assert(o == match_rank(lists[slot][at + 1], slot));
                }
            }
        }
        assert forall|i: int, j: int| 0 <= i < j < all.len() implies at_least(
            #[trigger] all[i],
            #[trigger] all[j],
        ) by {
            assert(all[j] == more[j - 1]);
            if i == 0 {
                assert(at_least(first, more[j - 1]));
            } else {
                assert(all[i] == more[i - 1]);
            }
        }
        assert forall|e: MatchEntry, i: int|
            #![trigger at_least(e, all[i])]
            queue_below(queue, e) && 0 <= i < all.len() implies at_least(e, all[i]) by {
            assert(at_least(e, first));
            if i > 0 {
                assert(all[i] == more[i - 1]);
                assert(at_least(first, more[i - 1]));
            }
        }
    }
}

/// The best matches of lists in descending order are in descending order.
pub proof fn merges_keep_order(lists: Seq<Seq<MatchEntry>>, max: nat)
    requires
        lists.len() <= usize::MAX,
        forall|s: int| 0 <= s < lists.len() ==> best_come_first(#[trigger] lists[s]),
    ensures
        best_come_first(best_matches(lists, max)),
{
    let n = lists.len() as int;
    filled_ok(lists, n, max);
    drained_descend(lists, filled(lists, n, max), Seq::new(lists.len(), |i: int| 0int), max);
}

// ---------------------------------------------------------------------------------------------
// Queries
// ---------------------------------------------------------------------------------------------

/// The matches of a row, in whichever order. A row that can not be read has none.
pub open spec fn row_bag(
    row: RowView,
    query: MatchKey,
    opts: OptsView,
    meter: Meter,
) -> Multiset<MatchEntry> {
    if row.0.len() > MAX_DB_KEY_SIZE {
        Multiset::empty()
    } else {
        match decoded_groups(row.1) {
            Ok(groups) => value_bag(
                flattened(groups),
                opts,
                meter,
                language_matches(query, row.0),
            ),
            Err(_) => Multiset::empty(),
        }
    }
}

/// The matches of the rows, in whichever order.
pub open spec fn rows_bag(
    rows: Seq<RowView>,
    query: MatchKey,
    opts: OptsView,
    meter: Meter,
) -> Multiset<MatchEntry>
    decreases rows.len(),
{
    if rows.len() == 0 {
        Multiset::empty()
    } else {
        rows_bag(rows.drop_last(), query, opts, meter).add(
            row_bag(rows.last(), query, opts, meter),
        )
    }
}

proof fn row_list_bag(
    row: RowView,
    query: MatchKey,
    opts: OptsView,
    meter: Meter,
    list: Seq<MatchEntry>,
)
    requires
        is_row_matches(row, query, opts, meter, list),
    ensures
        list.to_multiset() == row_bag(row, query, opts, meter),
{
    if row.0.len() <= MAX_DB_KEY_SIZE && decoded_groups(row.1) is Ok {
        values_match_completely(
            flattened(decoded_groups(row.1)->Ok_0),
            opts,
            meter,
            language_matches(query, row.0),
            list,
        );
    } else {
        empty_bag(list);
    }
}

pub(crate) proof fn row_lists_bag(
    lists: Seq<Seq<MatchEntry>>,
    rows: Seq<RowView>,
    query: MatchKey,
    opts: OptsView,
    meter: Meter,
    n: int,
)
    requires
        are_row_matches(lists, rows, query, opts, meter),
        0 <= n <= rows.len(),
    ensures
        rest_bag(lists, Seq::new(lists.len(), |i: int| 0int), n) == rows_bag(
            rows.take(n),
            query,
            opts,
            meter,
        ),
    decreases n,
{
    if n > 0 {
        let zeros = Seq::new(lists.len(), |i: int| 0int);
        row_lists_bag(lists, rows, query, opts, meter, n - 1);
        assert(rows.take(n).drop_last() =~= rows.take(n - 1));
        assert(lists[n - 1].skip(zeros[n - 1]) =~= lists[n - 1]);
        row_list_bag(rows[n - 1], query, opts, meter, lists[n - 1]);
    }
}

/// The rows that a scan goes through stand next to each other.
pub(crate) proof fn scan_is_slice(rows: Seq<RowView>, query: MatchKey, marker: TypeMarker)
    ensures
        exists|at: int|
            0 <= at <= rows.len() - scanned(rows, query, marker).len() && scanned(
                rows,
                query,
                marker,
            ) == #[trigger] rows.subrange(at, at + scanned(rows, query, marker).len()),
{
    let start = seq![marker_byte(marker)] + be_bytes(first_phrase(query.match_phrase));
    let run = scanned(rows, query, marker);
    rows_before_splits(rows, start);
    let at = rows_before(rows, start) as int;
    run_is_prefix(rows.skip(at), query, marker);
    assert(run =~= rows.subrange(at, at + run.len()));
}

pub(crate) proof fn scan_len(rows: Seq<RowView>, query: MatchKey, marker: TypeMarker)
    ensures
        scanned(rows, query, marker).len() <= rows.len(),
{
    let start = seq![marker_byte(marker)] + be_bytes(first_phrase(query.match_phrase));
    rows_before_splits(rows, start);
    run_is_prefix(rows.skip(rows_before(rows, start) as int), query, marker);
}

/// A query with room for all matches finds every one in the rows that it asks for, each as often
/// as it is stored.
pub proof fn roomy_queries_find_all(
    store: GridStore,
    query: MatchKey,
    opts: OptsView,
    meter: Meter,
    max: nat,
    out: Seq<MatchEntry>,
)
    requires
        store.wf(),
        forall|i: int| 0 <= i < store.table().len() ==> key_has_head((#[trigger] store.table()[i]).0),
        answers_query(store, query, opts, meter, max, out),
        ({
            let (range, marker) = fetch_plan(query, store.bin_boundaries@);
            rows_bag(store.table().filter(row_matches(range, marker)), range, opts, meter).len()
                <= max
        }),
    ensures
        ({
            let (range, marker) = fetch_plan(query, store.bin_boundaries@);
            out.to_multiset() == rows_bag(
                store.table().filter(row_matches(range, marker)),
                range,
                opts,
                meter,
            )
        }),
{
    let (range, marker) = fetch_plan(query, store.bin_boundaries@);
    let rows = scanned(store.table(), range, marker);
    scans_are_complete(store.table(), range, marker);
    scan_len(store.table(), range, marker);
    assert(store.rows.len() == store.table().len());
    let lists = choose|lists: Seq<Seq<MatchEntry>>| #[trigger]
        are_row_matches(lists, rows, range, opts, meter) && out == best_matches(lists, max);
    row_lists_bag(lists, rows, range, opts, meter, rows.len() as int);
    assert(rows.take(rows.len() as int) =~= rows);
    roomy_merges_keep_all(lists, max);
}

/// Every match that a query finds lies in its bounding box.
pub proof fn queries_stay_in_box(
    store: GridStore,
    query: MatchKey,
    opts: OptsView,
    meter: Meter,
    max: nat,
    out: Seq<MatchEntry>,
    i: int,
)
    requires
        answers_query(store, query, opts, meter, max, out),
        opts.bbox is Some,
        0 <= i < out.len(),
    ensures
        in_box(opts.bbox->Some_0, out[i].grid_entry.x, out[i].grid_entry.y),
{
    broadcast use vstd::seq_lib::group_to_multiset_ensures;

    let (range, marker) = fetch_plan(query, store.bin_boundaries@);
    let rows = scanned(store.table(), range, marker);
    scan_len(store.table(), range, marker);
    assert(store.rows.len() == store.table().len());
    let lists = choose|lists: Seq<Seq<MatchEntry>>| #[trigger]
        are_row_matches(lists, rows, range, opts, meter) && out == best_matches(lists, max);
    let n = lists.len() as int;
    filled_ok(lists, n, max);
    drained_are_listed(lists, filled(lists, n, max), Seq::new(lists.len(), |i: int| 0int), max);
    assert(listed(lists, out[i]));
    let (s, at) = choose|s: int, at: int|
        0 <= s < lists.len() && 0 <= at < lists[s].len() && #[trigger] lists[s][at] == out[i];
    let e = out[i];
    assert(is_row_matches(rows[s], range, opts, meter, lists[s]));
    let flats = flattened(decoded_groups(rows[s].1)->Ok_0);
    let lang = language_matches(range, rows[s].0);
    values_match_completely(flats, opts, meter, lang, lists[s]);
    assert(lists[s].contains(e));
    assert(lists[s].to_multiset().count(e) > 0);
    value_bag_lies_in_box(flats, opts, meter, lang, e);
}

} // verus!
