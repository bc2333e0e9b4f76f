//! What a query gives back of what was written.

use vstd::multiset::Multiset;
use vstd::prelude::*;

use crate::builder::{
    all_readable, all_rows, bin_of, bin_place, bin_place_bounds, bin_row, bin_rows, data_rows,
    entries_of, keys_ascend, languages, languages_grow, listing, place_is_last, run_length,
    run_length_bounds, single_row, single_rows, Item, RowView,
};
use crate::common::{
    bounds_key_bytes, db_key_is_injective, db_key_len, db_key_round_trip, key_has_head, key_matches,
    phrase_matches, stored_key_matches, stored_language_matches, GridEntry, GridKey, LanguageSet,
    MatchKey, MatchPhrase, PhraseId, TypeMarker, ALL_LANGUAGES, NO_LANGUAGES,
};
use crate::database::{
    bin_items, bin_key, boundaries_are_read, bounds_ascend, bounds_row_apart, data_put_singles,
    is_database, last_put, single_key,
};
use crate::decode::{
    all_entries, flat_entries, flattened, match_of, scored, unpacked, FlatView, MatchEntry, Meter,
};
use crate::laws::{
    bag_sum, bag_sum_adds, bag_sum_concat, bag_sum_permutes, bag_sum_restrict, concat_bags,
    empty_bag, entries_come_back, is_finite, language_bag, quantized,
};
use crate::order::{in_order, num_u128};
use crate::outside::decoded_groups;
use crate::queries::{
    flat_matches, roomy_queries_find_all, row_bag, row_matches, rows_bag, scans_are_complete,
    value_bag,
};
use crate::spatial::{Measure, OptsView};
use crate::store::{answers_query, fetch_plan, has_row, row_value, rows_ascend, scanned, GridStore};

verus! {

// ---------------------------------------------------------------------------------------------
// Matches of entries
// ---------------------------------------------------------------------------------------------

/// The match of a grid entry: none if it lies outside of the bounding box.
pub open spec fn entry_matches(
    e: GridEntry,
    opts: OptsView,
    meter: Meter,
    lang: bool,
) -> Multiset<MatchEntry> {
    let edges = opts.bbox->Some_0;
    if opts.bbox is Some && !(edges.0 <= e.x <= edges.2 && edges.1 <= e.y <= edges.3) {
        Multiset::empty()
    } else {
        let distance = match opts.proximity {
            None => 0u64,
            Some(p) => ((p.0 - e.x) * (p.0 - e.x) + (p.1 - e.y) * (p.1 - e.y)) as u64,
        };
        let m = match opts.proximity {
            None => Measure { within_radius: false, scoredist: e.score as u64 },
            Some(_) => meter(distance, e.score),
        };
        Multiset::singleton(
            MatchEntry {
                grid_entry: GridEntry {
                    relev: if lang || m.within_radius {
                        e.relev
                    } else {
                        (e.relev * 24 / 25) as u16
                    },
                    score: e.score,
                    x: e.x,
                    y: e.y,
                    id: e.id,
                    source_phrase_hash: e.source_phrase_hash,
                },
                matches_language: lang,
                distance,
                scoredist: m.scoredist,
            },
        )
    }
}

/// The matches of each grid entry.
pub open spec fn matcher(opts: OptsView, meter: Meter, lang: bool) -> spec_fn(
    GridEntry,
) -> Multiset<MatchEntry> {
    |e: GridEntry| entry_matches(e, opts, meter, lang)
}

/// The matches of grid entries, in whichever order.
pub open spec fn match_bag(
    entries: Seq<GridEntry>,
    opts: OptsView,
    meter: Meter,
    lang: bool,
) -> Multiset<MatchEntry> {
    bag_sum(entries, matcher(opts, meter, lang))
}

proof fn squares_add_up(a: int, b: int)
    ensures
        a * a + b * b >= 0,
{
    assert(a * a >= 0) by (nonlinear_arith);
    assert(b * b >= 0) by (nonlinear_arith);
}

proof fn flat_match_bag(flat: FlatView, opts: OptsView, meter: Meter, lang: bool)
    ensures
        flat_matches(flat, opts, meter, lang).to_multiset() == match_bag(
            flat_entries(flat),
            opts,
            meter,
            lang,
        ),
    decreases flat.ids.len(),
{
    let all = flat_matches(flat, opts, meter, lang);
    let entries = flat_entries(flat);
    if flat.ids.len() == 0 {
        empty_bag(all);
    } else {
        let less = FlatView {
            relev: flat.relev,
            score: flat.score,
            morton: flat.morton,
            ids: flat.ids.drop_last(),
        };
        flat_match_bag(less, opts, meter, lang);
        let id = flat.ids.last();
        let before = flat_matches(less, opts, meter, lang);
        assert(entries.drop_last() =~= flat_entries(less));
        assert(entries.last() == unpacked(flat, id));
        match scored(flat, opts, meter) {
            Some(c) => {
                let e = match_of(c, flat.relev, lang, id);
                assert(all =~= before.push(e));
                broadcast use vstd::seq_lib::group_to_multiset_ensures;

                if let Some(p) = opts.proximity {
                    squares_add_up(p.0 - entries.last().x, p.1 - entries.last().y);
                }
                assert(entry_matches(entries.last(), opts, meter, lang) == Multiset::singleton(e));
                assert(all.to_multiset() =~= before.to_multiset().add(Multiset::singleton(e)));
            },
            None => {
                assert(all =~= before);
                assert(match_bag(entries, opts, meter, lang) =~= match_bag(
                    flat_entries(less),
                    opts,
                    meter,
                    lang,
                ));
            },
        }
    }
}

/// What a stored value matches are the matches of its grid entries.
pub proof fn values_match_their_entries(
    flats: Seq<FlatView>,
    opts: OptsView,
    meter: Meter,
    lang: bool,
)
    ensures
        value_bag(flats, opts, meter, lang) == match_bag(all_entries(flats), opts, meter, lang),
    decreases flats.len(),
{
    if flats.len() > 0 {
        values_match_their_entries(flats.drop_last(), opts, meter, lang);
        flat_match_bag(flats.last(), opts, meter, lang);
        bag_sum_concat(
            all_entries(flats.drop_last()),
            flat_entries(flats.last()),
            matcher(opts, meter, lang),
        );
    }
}

// ---------------------------------------------------------------------------------------------
// Grouping
// ---------------------------------------------------------------------------------------------

/// What the first `n` parts with the key contribute.
spec fn group_sum<K, B>(
    keyof: spec_fn(int) -> K,
    m: spec_fn(int) -> Multiset<B>,
    k: K,
    n: int,
) -> Multiset<B>
    decreases n,
{
    if n <= 0 {
        Multiset::empty()
    } else if keyof(n - 1) == k {
        group_sum(keyof, m, k, n - 1).add(m(n - 1))
    } else {
        group_sum(keyof, m, k, n - 1)
    }
}

spec fn group_sums<K, B>(
    keyof: spec_fn(int) -> K,
    m: spec_fn(int) -> Multiset<B>,
    n: int,
) -> spec_fn(K) -> Multiset<B> {
    |k: K| group_sum(keyof, m, k, n)
}

/// What the picked ones of the first `n` parts contribute.
spec fn picked_sum<B>(
    picked: spec_fn(int) -> bool,
    m: spec_fn(int) -> Multiset<B>,
    n: int,
) -> Multiset<B>
    decreases n,
{
    if n <= 0 {
        Multiset::empty()
    } else if picked(n - 1) {
        picked_sum(picked, m, n - 1).add(m(n - 1))
    } else {
        picked_sum(picked, m, n - 1)
    }
}

proof fn regrouped<K, B>(
    keys: Seq<K>,
    keyof: spec_fn(int) -> K,
    picked: spec_fn(int) -> bool,
    m: spec_fn(int) -> Multiset<B>,
    n: int,
)
    requires
        keys.no_duplicates(),
        forall|i: int| 0 <= i < n ==> (#[trigger] picked(i) <==> keys.contains(keyof(i))),
    ensures
        bag_sum(keys, group_sums(keyof, m, n)) == picked_sum(picked, m, n),
    decreases n,
{
    let f = group_sums(keyof, m, n);
    let none = Seq::<K>::empty();
    if n <= 0 {
        bag_sum_restrict(keys, none, f);
    } else {
        regrouped(keys, keyof, picked, m, n - 1);
        let before = group_sums(keyof, m, n - 1);
        let key = keyof(n - 1);
        let here = |k: K|
            if k == key {
                m(n - 1)
            } else {
                Multiset::<B>::empty()
            };
        assert forall|i: int| 0 <= i < keys.len() implies f(#[trigger] keys[i]) == before(
            keys[i],
        ).add(here(keys[i])) by {
            assert(f(keys[i]) =~= before(keys[i]).add(here(keys[i])));
        }
        bag_sum_adds(keys, f, before, here);
        assert(picked(n - 1) <==> keys.contains(key));
        if keys.contains(key) {
            let one = seq![key];
            assert forall|k: K| #[trigger] one.contains(k) implies keys.contains(k) by {}
            assert forall|k: K| #[trigger] keys.contains(k) && !one.contains(k) implies here(k)
                == Multiset::<B>::empty() by {
                assert(one[0] == key);
                assert(one.contains(key));
            }
            bag_sum_restrict(keys, one, here);
            assert(one.drop_last() =~= none);
            assert(bag_sum(one.drop_last(), here) == Multiset::<B>::empty());
            assert(bag_sum(one, here) =~= m(n - 1));
        } else {
            bag_sum_restrict(keys, none, here);
            assert(bag_sum(keys, f) =~= bag_sum(keys, before));
        }
    }
}

// ---------------------------------------------------------------------------------------------
// Written entries
// ---------------------------------------------------------------------------------------------

/// The query asks for the language of the key: it asks for any language, the key is for all of
/// them, or the two sets have a language in common.
pub open spec fn asks_language(query: MatchKey, key: GridKey) -> bool {
    query.lang_set == NO_LANGUAGES || key.lang_set == ALL_LANGUAGES || (query.lang_set
        & key.lang_set) != 0
}

/// The matches of what was written under a key.
pub open spec fn written_matches(
    key: GridKey,
    values: Seq<GridEntry>,
    query: MatchKey,
    opts: OptsView,
    meter: Meter,
) -> Multiset<MatchEntry> {
    match_bag(
        values.map_values(|v: GridEntry| quantized(v)),
        opts,
        meter,
        asks_language(query, key),
    )
}

/// The matches of what was written under the first `n` keys, as far as the query asks for their
/// phrases, in whichever order.
pub open spec fn asked_bag(
    items: Seq<Item>,
    written: Seq<Seq<GridEntry>>,
    query: MatchKey,
    opts: OptsView,
    meter: Meter,
    n: int,
) -> Multiset<MatchEntry>
    decreases n,
{
    if n <= 0 {
        Multiset::empty()
    } else {
        let before = asked_bag(items, written, query, opts, meter, n - 1);
        let key = items[n - 1].0;
        let asked = match query.match_phrase {
            MatchPhrase::Exact(id) => key.phrase_id == id,
            MatchPhrase::Range { start, end } => start <= key.phrase_id < end,
        };
        if asked {
            before.add(written_matches(key, written[n - 1], query, opts, meter))
        } else {
            before
        }
    }
}

/// The items hold what was written.
pub open spec fn hold_written(items: Seq<Item>, written: Seq<Seq<GridEntry>>) -> bool {
    items.len() == written.len() && forall|i: int|
        0 <= i < items.len() ==> (#[trigger] items[i]).1 == entries_of(written[i])
}

proof fn written_finite(items: Seq<Item>, written: Seq<Seq<GridEntry>>)
    requires
        hold_written(items, written),
    ensures
        forall|i: int| 0 <= i < items.len() ==> is_finite((#[trigger] items[i]).1),
{
    assert forall|i: int| 0 <= i < items.len() implies is_finite((#[trigger] items[i]).1) by {
        entries_come_back(written[i]);
    }
}

/// The key is that of the row of an item.
pub open spec fn is_single_key(items: Seq<Item>, key: Seq<u8>) -> bool {
    exists|i: int| 0 <= i < items.len() && key == single_key((#[trigger] items[i]).0)
}

/// The key is that of the row of a bin.
pub open spec fn is_bin_key(key: Seq<u8>) -> bool {
    exists|b: PhraseId, l: LanguageSet| key == #[trigger] bin_key(b, l)
}

proof fn data_keys(bounds: Seq<PhraseId>, items: Seq<Item>)
    ensures
        forall|i: int|
            0 <= i < data_rows(bounds, items).len() ==> is_single_key(
                items,
                (#[trigger] data_rows(bounds, items)[i]).0,
            ) || is_bin_key(data_rows(bounds, items)[i].0),
    decreases items.len(),
{
    if items.len() > 0 {
        run_length_bounds(bounds, items);
        let n = run_length(bounds, items) as int;
        let group = items.take(n);
        let rest = items.skip(n);
        let bin = bin_of(bounds, items[0].0.phrase_id);
        let a = single_rows(group);
        let b = bin_rows(bin, group);
        let c = data_rows(bounds, rest);
        let all = data_rows(bounds, items);
        data_keys(bounds, rest);
        assert forall|i: int| 0 <= i < all.len() implies is_single_key(
            items,
            (#[trigger] all[i]).0,
        ) || is_bin_key(all[i].0) by {
            if i < a.len() {
                assert(all[i] == a[i]);
                assert(a[i] == single_row(group[i]) && group[i] == items[i]);
            } else if i < a.len() + b.len() {
                let j = i - a.len();
                let lang = in_order(languages(group), num_u128())[j];
                assert(all[i] == b[j]);
                assert(b[j] == bin_row(bin->Some_0, group, lang));
                assert(all[i].0 == bin_key(bin->Some_0, lang));
            } else {
                let j = i - a.len() - b.len();
                assert(all[i] == c[j]);
                if is_single_key(rest, c[j].0) {
                    let q = choose|q: int|
                        0 <= q < rest.len() && c[j].0 == single_key((#[trigger] rest[q]).0);
                    assert(rest[q] == items[q + n]);
                }
            }
        }
    }
}

pub(crate) proof fn put_somewhere(puts: Seq<RowView>, key: Seq<u8>) -> (i: int)
    requires
        last_put(puts, key) is Some,
    ensures
        0 <= i < puts.len(),
        puts[i].0 == key,
        last_put(puts, key) == Some(puts[i].1),
    decreases puts.len(),
{
    if puts.last().0 == key {
        puts.len() - 1
    } else {
        put_somewhere(puts.drop_last(), key)
    }
}

/// The key of a row of the database is that of an item, that of a bin, or that of the boundaries.
pub(crate) proof fn database_key(bounds: Seq<PhraseId>, items: Seq<Item>, rows: Seq<RowView>, i: int)
    requires
        is_database(rows, all_rows(bounds, items)),
        0 <= i < rows.len(),
    ensures
        is_single_key(items, rows[i].0) || is_bin_key(rows[i].0) || rows[i].0
            == bounds_key_bytes(),
        key_has_head(rows[i].0),
        row_value(rows, rows[i].0) == Some(rows[i].1),
{
    let key = rows[i].0;
    assert(has_row(rows, key));
    assert(row_value(rows, key) is Some);
    let puts = all_rows(bounds, items);
    let at = put_somewhere(puts, key);
    data_keys(bounds, items);
    if at < puts.len() - 1 {
        assert(puts[at] == data_rows(bounds, items)[at]);
    }
    if is_single_key(items, key) {
        let j = choose|j: int| 0 <= j < items.len() && key == single_key((#[trigger] items[j]).0);
        db_key_len(TypeMarker::SinglePhrase, items[j].0);
    } else if is_bin_key(key) {
        let (b, l) = choose|b: PhraseId, l: LanguageSet| key == #[trigger] bin_key(b, l);
        db_key_len(TypeMarker::PrefixBin, GridKey { phrase_id: b, lang_set: l });
    }
    crate::store::row_value_at(rows, i);
}

/// The rows that a scan goes through have different keys, and are the matching rows.
pub(crate) proof fn scan_keys(rows: Seq<RowView>, query: MatchKey, marker: TypeMarker)
    requires
        rows_ascend(rows),
        forall|i: int| 0 <= i < rows.len() ==> key_has_head((#[trigger] rows[i]).0),
    ensures
        scanned(rows, query, marker).map_values(|r: RowView| r.0).no_duplicates(),
        forall|j: int|
            0 <= j < scanned(rows, query, marker).len() ==> rows.contains(
                #[trigger] scanned(rows, query, marker)[j],
            ) && key_matches(query, marker, scanned(rows, query, marker)[j].0),
        forall|i: int|
            0 <= i < rows.len() && key_matches(query, marker, (#[trigger] rows[i]).0) ==> scanned(
                rows,
                query,
                marker,
            ).contains(rows[i]),
{
    let run = scanned(rows, query, marker);
    let p = row_matches(query, marker);
    scans_are_complete(rows, query, marker);
    crate::queries::scan_is_slice(rows, query, marker);
    let at = choose|at: int|
        0 <= at <= rows.len() - run.len() && run == #[trigger] rows.subrange(at, at + run.len());
    let keys = run.map_values(|r: RowView| r.0);
    assert forall|a: int, b: int| 0 <= a < keys.len() && 0 <= b < keys.len() && a != b implies keys[a]
        != keys[b] by {
        assert(run[a] == rows[at + a] && run[b] == rows[at + b]);
        crate::common::bytes_lt_total(keys[a], keys[b]);
        if a < b {
            assert(crate::common::bytes_lt(rows[at + a].0, rows[at + b].0));
        } else {
            assert(crate::common::bytes_lt(rows[at + b].0, rows[at + a].0));
        }
    }
    assert forall|j: int| 0 <= j < run.len() implies rows.contains(#[trigger] run[j])
        && key_matches(query, marker, run[j].0) by {
        assert(run[j] == rows[at + j]);
        rows.lemma_filter_pred(p, j);
    }
    assert forall|i: int|
        0 <= i < rows.len() && key_matches(query, marker, (#[trigger] rows[i]).0) implies run.contains(
        rows[i],
    ) by {
        assert(p(rows[i]));
        rows.lemma_filter_contains(p, i);
    }
}

// ---------------------------------------------------------------------------------------------
// Rows of phrases
// ---------------------------------------------------------------------------------------------

spec fn part_matches(
    items: Seq<Item>,
    written: Seq<Seq<GridEntry>>,
    query: MatchKey,
    opts: OptsView,
    meter: Meter,
) -> spec_fn(int) -> Multiset<MatchEntry> {
    |i: int| written_matches(items[i].0, written[i], query, opts, meter)
}

spec fn row_bags(query: MatchKey, opts: OptsView, meter: Meter) -> spec_fn(RowView) -> Multiset<
    MatchEntry,
> {
    |row: RowView| row_bag(row, query, opts, meter)
}

proof fn rows_bag_is(rows: Seq<RowView>, query: MatchKey, opts: OptsView, meter: Meter)
    ensures
        rows_bag(rows, query, opts, meter) == bag_sum(rows, row_bags(query, opts, meter)),
    decreases rows.len(),
{
    if rows.len() > 0 {
        rows_bag_is(rows.drop_last(), query, opts, meter);
    }
}

proof fn keyed_sum(
    rows: Seq<RowView>,
    f: spec_fn(RowView) -> Multiset<MatchEntry>,
    g: spec_fn(Seq<u8>) -> Multiset<MatchEntry>,
)
    requires
        forall|j: int| 0 <= j < rows.len() ==> f(#[trigger] rows[j]) == g(rows[j].0),
    ensures
        bag_sum(rows, f) == bag_sum(rows.map_values(|r: RowView| r.0), g),
    decreases rows.len(),
{
    let k = |r: RowView| r.0;
    if rows.len() > 0 {
        let rest = rows.drop_last();
        assert forall|j: int| 0 <= j < rest.len() implies f(#[trigger] rest[j]) == g(rest[j].0) by {
            assert(rest[j] == rows[j]);
        }
        keyed_sum(rest, f, g);
        assert(rows.map_values(k).drop_last() =~= rest.map_values(k));
        assert(f(rows[rows.len() - 1]) == g(rows.last().0));
    }
}

proof fn picked_is_asked(
    items: Seq<Item>,
    written: Seq<Seq<GridEntry>>,
    query: MatchKey,
    opts: OptsView,
    meter: Meter,
    picked: spec_fn(int) -> bool,
    n: int,
)
    requires
        forall|i: int|
            0 <= i < n ==> (#[trigger] picked(i) <==> phrase_matches(
                query.match_phrase,
                items[i].0.phrase_id as nat,
            )),
    ensures
        picked_sum(picked, part_matches(items, written, query, opts, meter), n) == asked_bag(
            items,
            written,
            query,
            opts,
            meter,
            n,
        ),
    decreases n,
{
    if n > 0 {
        picked_is_asked(items, written, query, opts, meter, picked, n - 1);
        assert(picked(n - 1) <==> phrase_matches(
            query.match_phrase,
            items[n - 1].0.phrase_id as nat,
        ));
    }
}

spec fn single_keys(items: Seq<Item>) -> spec_fn(int) -> Seq<u8> {
    |i: int| single_key(items[i].0)
}

proof fn group_of_one(
    items: Seq<Item>,
    m: spec_fn(int) -> Multiset<MatchEntry>,
    j: int,
    n: int,
)
    requires
        keys_ascend(items),
        0 <= j < items.len(),
        0 <= n <= items.len(),
    ensures
        group_sum(single_keys(items), m, single_key(items[j].0), n) == (if j < n {
            m(j)
        } else {
            Multiset::empty()
        }),
    decreases n,
{
    if n > 0 {
        group_of_one(items, m, j, n - 1);
        if single_keys(items)(n - 1) == single_key(items[j].0) {
            db_key_is_injective(
                TypeMarker::SinglePhrase,
                items[n - 1].0,
                TypeMarker::SinglePhrase,
                items[j].0,
            );
            if j < n - 1 {
                assert(crate::builder::key_lt(items[j].0, items[n - 1].0));
            } else if n - 1 < j {
                assert(crate::builder::key_lt(items[n - 1].0, items[j].0));
            }
            assert(Multiset::empty().add(m(j)) =~= m(j));
        }
    }
}

proof fn single_row_bag(
    bounds: Seq<PhraseId>,
    items: Seq<Item>,
    written: Seq<Seq<GridEntry>>,
    j: int,
    query: MatchKey,
    opts: OptsView,
    meter: Meter,
)
    requires
        keys_ascend(items),
        all_readable(bounds, items),
        hold_written(items, written),
        0 <= j < items.len(),
    ensures
        row_bag(single_row(items[j]), query, opts, meter) == part_matches(
            items,
            written,
            query,
            opts,
            meter,
        )(j),
{
    data_put_singles(bounds, items, j);
    let flats = flattened(listing(items[j].1));
    let lang = asks_language(query, items[j].0);
    db_key_len(TypeMarker::SinglePhrase, items[j].0);
    stored_language_matches(query, TypeMarker::SinglePhrase, items[j].0);
    values_match_their_entries(flats, opts, meter, lang);
    assert(items[j].1 == entries_of(written[j]));
    entries_come_back(written[j]);
    bag_sum_permutes(
        all_entries(flats),
        written[j].map_values(|v: GridEntry| quantized(v)),
        matcher(opts, meter, lang),
    );
}

proof fn phrases_answer(
    bounds: Seq<PhraseId>,
    items: Seq<Item>,
    written: Seq<Seq<GridEntry>>,
    rows: Seq<RowView>,
    query: MatchKey,
    opts: OptsView,
    meter: Meter,
)
    requires
        keys_ascend(items),
        all_readable(bounds, items),
        hold_written(items, written),
        is_database(rows, all_rows(bounds, items)),
    ensures
        rows_bag(scanned(rows, query, TypeMarker::SinglePhrase), query, opts, meter) == asked_bag(
            items,
            written,
            query,
            opts,
            meter,
            items.len() as int,
        ),
{
    let marker = TypeMarker::SinglePhrase;
    let run = scanned(rows, query, marker);
    let n = items.len() as int;
    let m = part_matches(items, written, query, opts, meter);
    let keyof = single_keys(items);
    assert forall|i: int| 0 <= i < rows.len() implies key_has_head((#[trigger] rows[i]).0) by {
        database_key(bounds, items, rows, i);
    }
    scan_keys(rows, query, marker);
    rows_bag_is(run, query, opts, meter);
    assert forall|j: int| 0 <= j < run.len() implies row_bags(query, opts, meter)(
        #[trigger] run[j],
    ) == group_sums(keyof, m, n)(run[j].0) by {
        assert(rows.contains(run[j]));
        let i = choose|i: int| 0 <= i < rows.len() && rows[i] == run[j];
        database_key(bounds, items, rows, i);
        let key = run[j].0;
        assert(key_matches(query, marker, key));
        if is_bin_key(key) {
            let (b, l) = choose|b: PhraseId, l: LanguageSet| key == #[trigger] bin_key(b, l);
            db_key_round_trip(
                TypeMarker::PrefixBin,
                GridKey { phrase_id: b, lang_set: l },
            );
        }
        assert(bounds_key_bytes()[0] == 126u8);
        assert(is_single_key(items, key));
        let q = choose|q: int| 0 <= q < items.len() && key == single_key((#[trigger] items[q]).0);
        data_put_singles(bounds, items, q);
        bounds_row_apart(bounds, items, marker, items[q].0);
        assert(run[j] == single_row(items[q]));
        single_row_bag(bounds, items, written, q, query, opts, meter);
        group_of_one(items, m, q, n);
    }
    keyed_sum(run, row_bags(query, opts, meter), group_sums(keyof, m, n));
    let keys = run.map_values(|r: RowView| r.0);
    let picked = |i: int| phrase_matches(query.match_phrase, items[i].0.phrase_id as nat);
    assert forall|i: int| 0 <= i < n implies (#[trigger] picked(i) <==> keys.contains(keyof(i))) by {
        let key = keyof(i);
        stored_key_matches(query, marker, marker, items[i].0);
        if picked(i) {
            data_put_singles(bounds, items, i);
            bounds_row_apart(bounds, items, marker, items[i].0);
            assert(row_value(rows, key) is Some);
            assert(has_row(rows, key));
            let r = choose|r: int| 0 <= r < rows.len() && (#[trigger] rows[r]).0 == key;
            assert(run.contains(rows[r]));
            let j = choose|j: int| 0 <= j < run.len() && run[j] == rows[r];
            assert(keys[j] == key);
        }
        if keys.contains(key) {
            let j = choose|j: int| 0 <= j < keys.len() && keys[j] == key;
            assert(key_matches(query, marker, run[j].0));
        }
    }
    regrouped(keys, keyof, picked, m, n);
    picked_is_asked(items, written, query, opts, meter, picked, n);
}

// ---------------------------------------------------------------------------------------------
// Rows of bins
// ---------------------------------------------------------------------------------------------

spec fn own_bin(bounds: Seq<PhraseId>, item: Item) -> Option<PhraseId> {
    bin_of(bounds, item.0.phrase_id)
}

/// The key of the bin that an item is in; of one in no bin, its own key.
spec fn bin_keys(bounds: Seq<PhraseId>, items: Seq<Item>) -> spec_fn(int) -> Seq<u8> {
    |i: int|
        match own_bin(bounds, items[i]) {
            Some(bin) => bin_key(bin, items[i].0.lang_set),
            None => single_key(items[i].0),
        }
}

/// What was written under the first `n` keys of a bin and language, as it comes back.
spec fn bin_values(
    bounds: Seq<PhraseId>,
    items: Seq<Item>,
    written: Seq<Seq<GridEntry>>,
    bin: PhraseId,
    lang: LanguageSet,
    n: int,
) -> Seq<GridEntry>
    decreases n,
{
    if n <= 0 {
        Seq::empty()
    } else {
        let before = bin_values(bounds, items, written, bin, lang, n - 1);
        if own_bin(bounds, items[n - 1]) == Some(bin) && items[n - 1].0.lang_set == lang {
            before + written[n - 1].map_values(|v: GridEntry| quantized(v))
        } else {
            before
        }
    }
}

proof fn bin_values_bag(
    bounds: Seq<PhraseId>,
    items: Seq<Item>,
    written: Seq<Seq<GridEntry>>,
    bin: PhraseId,
    lang: LanguageSet,
    n: int,
)
    requires
        hold_written(items, written),
        bounds.len() > 0,
        0 <= n <= items.len(),
    ensures
        bin_values(bounds, items, written, bin, lang, n).to_multiset() == language_bag(
            bin_items(bounds, items.take(n), bin),
            lang,
        ),
    decreases n,
{
    if n == 0 {
        empty_bag(bin_values(bounds, items, written, bin, lang, n));
    } else {
        bin_values_bag(bounds, items, written, bin, lang, n - 1);
        let item = items[n - 1];
        let before = bin_items(bounds, items.take(n - 1), bin);
        assert(items.take(n).drop_last() =~= items.take(n - 1));
        assert(items.take(n).last() == item);
        if own_bin(bounds, item) == Some(bin) {
            assert(before.push(item).drop_last() =~= before);
            if item.0.lang_set == lang {
                entries_come_back(written[n - 1]);
                assert(item.1 == entries_of(written[n - 1]));
                concat_bags(
                    bin_values(bounds, items, written, bin, lang, n - 1),
                    written[n - 1].map_values(|v: GridEntry| quantized(v)),
                );
            }
        }
    }
}

proof fn bin_values_grouped(
    bounds: Seq<PhraseId>,
    items: Seq<Item>,
    written: Seq<Seq<GridEntry>>,
    bin: PhraseId,
    lang: LanguageSet,
    query: MatchKey,
    opts: OptsView,
    meter: Meter,
    n: int,
)
    requires
        0 <= n <= items.len(),
    ensures
        match_bag(
            bin_values(bounds, items, written, bin, lang, n),
            opts,
            meter,
            asks_language(query, GridKey { phrase_id: bin, lang_set: lang }),
        ) == group_sum(
            bin_keys(bounds, items),
            part_matches(items, written, query, opts, meter),
            bin_key(bin, lang),
            n,
        ),
    decreases n,
{
    if n > 0 {
        let asked = asks_language(query, GridKey { phrase_id: bin, lang_set: lang });
        bin_values_grouped(bounds, items, written, bin, lang, query, opts, meter, n - 1);
        let own = own_bin(bounds, items[n - 1]);
        let l = items[n - 1].0.lang_set;
        if bin_keys(bounds, items)(n - 1) == bin_key(bin, lang) {
            let (marker, key) = match own {
                Some(b) => (TypeMarker::PrefixBin, GridKey { phrase_id: b, lang_set: l }),
                None => (TypeMarker::SinglePhrase, items[n - 1].0),
            };
            db_key_is_injective(
                marker,
                key,
                TypeMarker::PrefixBin,
                GridKey { phrase_id: bin, lang_set: lang },
            );
        }
        if own == Some(bin) && l == lang {
            bag_sum_concat(
                bin_values(bounds, items, written, bin, lang, n - 1),
                written[n - 1].map_values(|v: GridEntry| quantized(v)),
                matcher(opts, meter, asked),
            );
        }
    }
}

proof fn bin_has_language(bounds: Seq<PhraseId>, items: Seq<Item>, i: int, n: int)
    requires
        own_bin(bounds, items[i]) is Some,
        0 <= i < n <= items.len(),
    ensures
        languages(bin_items(bounds, items.take(n), own_bin(bounds, items[i])->Some_0)).contains(
            items[i].0.lang_set,
        ),
    decreases n,
{
    let bin = own_bin(bounds, items[i])->Some_0;
    let before = bin_items(bounds, items.take(n - 1), bin);
    assert(items.take(n).drop_last() =~= items.take(n - 1));
    assert(items.take(n).last() == items[n - 1]);
    if own_bin(bounds, items[n - 1]) == Some(bin) {
        languages_grow(before, items[n - 1]);
    }
    if i < n - 1 {
        bin_has_language(bounds, items, i, n - 1);
    }
}

/// A range that begins and ends at boundaries takes a phrase exactly if it takes its bin.
proof fn bins_fill_ranges(bounds: Seq<PhraseId>, start: PhraseId, end: PhraseId, phrase: PhraseId)
    requires
        bounds_ascend(bounds),
        bounds.contains(start),
        bounds.contains(end),
    ensures
        match bin_of(bounds, phrase) {
            Some(bin) => start <= bin < end <==> start <= phrase < end,
            None => phrase < start,
        },
{
    let p = bin_place(bounds, 0, phrase);
    bin_place_bounds(bounds, 0, phrase);
    let s = choose|s: int| 0 <= s < bounds.len() && bounds[s] == start;
    let e = choose|e: int| 0 <= e < bounds.len() && bounds[e] == end;
    if s > 0 {
        assert(bounds[0] < bounds[s]);
    }
    if p > 0 {
        assert(bounds[0] < bounds[p]);
    }
    if bounds[0] <= phrase {
        place_is_last(bounds, 0, phrase);
    }
    if p < s {
        assert(bounds[p] < bounds[s]);
        assert(bounds[p + 1] <= bounds[s]);
    } else {
        assert(bounds[s] <= bounds[p]);
    }
    if p < e {
        assert(bounds[p] < bounds[e]);
        assert(bounds[p + 1] <= bounds[e]);
    } else {
        assert(bounds[e] <= bounds[p]);
    }
}

proof fn bins_answer(
    bounds: Seq<PhraseId>,
    items: Seq<Item>,
    written: Seq<Seq<GridEntry>>,
    rows: Seq<RowView>,
    query: MatchKey,
    start: PhraseId,
    end: PhraseId,
    opts: OptsView,
    meter: Meter,
)
    requires
        keys_ascend(items),
        all_readable(bounds, items),
        hold_written(items, written),
        is_database(rows, all_rows(bounds, items)),
        bounds_ascend(bounds),
        query.match_phrase == (MatchPhrase::Range { start, end }),
        bounds.contains(start),
        bounds.contains(end),
    ensures
        rows_bag(scanned(rows, query, TypeMarker::PrefixBin), query, opts, meter) == asked_bag(
            items,
            written,
            query,
            opts,
            meter,
            items.len() as int,
        ),
{
    let marker = TypeMarker::PrefixBin;
    let run = scanned(rows, query, marker);
    let n = items.len() as int;
    let m = part_matches(items, written, query, opts, meter);
    let keyof = bin_keys(bounds, items);
    assert(items.take(n) =~= items);
    assert forall|i: int| 0 <= i < rows.len() implies key_has_head((#[trigger] rows[i]).0) by {
        database_key(bounds, items, rows, i);
    }
    scan_keys(rows, query, marker);
    rows_bag_is(run, query, opts, meter);
    written_finite(items, written);
    assert forall|j: int| 0 <= j < run.len() implies row_bags(query, opts, meter)(
        #[trigger] run[j],
    ) == group_sums(keyof, m, n)(run[j].0) by {
        assert(rows.contains(run[j]));
        let i = choose|i: int| 0 <= i < rows.len() && rows[i] == run[j];
        database_key(bounds, items, rows, i);
        let key = run[j].0;
        assert(key_matches(query, marker, key));
        if is_single_key(items, key) {
            let q = choose|q: int|
                0 <= q < items.len() && key == single_key((#[trigger] items[q]).0);
            db_key_round_trip(TypeMarker::SinglePhrase, items[q].0);
        }
        assert(bounds_key_bytes()[0] == 126u8);
        assert(is_bin_key(key));
        let (b, l) = choose|b: PhraseId, l: LanguageSet| key == #[trigger] bin_key(b, l);
        let gk = GridKey { phrase_id: b, lang_set: l };
        crate::database::bins_are_read(bounds, items, b, l, rows);
        let flats = flattened(decoded_groups(run[j].1)->Ok_0);
        let lang = asks_language(query, gk);
        db_key_len(marker, gk);
        stored_language_matches(query, marker, gk);
        values_match_their_entries(flats, opts, meter, lang);
        let values = bin_values(bounds, items, written, b, l, n);
        bin_values_bag(bounds, items, written, b, l, n);
        bag_sum_permutes(all_entries(flats), values, matcher(opts, meter, lang));
        bin_values_grouped(bounds, items, written, b, l, query, opts, meter, n);
    }
    keyed_sum(run, row_bags(query, opts, meter), group_sums(keyof, m, n));
    let keys = run.map_values(|r: RowView| r.0);
    let picked = |i: int| phrase_matches(query.match_phrase, items[i].0.phrase_id as nat);
    assert forall|i: int| 0 <= i < n implies (#[trigger] picked(i) <==> keys.contains(keyof(i))) by {
        let key = keyof(i);
        let own = own_bin(bounds, items[i]);
        let b = own->Some_0;
        let l = items[i].0.lang_set;
        bins_fill_ranges(bounds, start, end, items[i].0.phrase_id);
        if own is Some {
            stored_key_matches(query, marker, marker, GridKey { phrase_id: b, lang_set: l });
        } else {
            stored_key_matches(query, marker, TypeMarker::SinglePhrase, items[i].0);
        }
        if picked(i) {
            bin_has_language(bounds, items, i, n);
            crate::database::bins_are_read(bounds, items, b, l, rows);
            assert(row_value(rows, key) is Some);
            assert(has_row(rows, key));
            let r = choose|r: int| 0 <= r < rows.len() && (#[trigger] rows[r]).0 == key;
            assert(run.contains(rows[r]));
            let j = choose|j: int| 0 <= j < run.len() && run[j] == rows[r];
            assert(keys[j] == key);
        }
        if keys.contains(key) {
            let j = choose|j: int| 0 <= j < keys.len() && keys[j] == key;
            assert(key_matches(query, marker, run[j].0));
        }
    }
    regrouped(keys, keyof, picked, m, n);
    picked_is_asked(items, written, query, opts, meter, picked, n);
}

// ---------------------------------------------------------------------------------------------
// Queries
// ---------------------------------------------------------------------------------------------

/// A query with room for all matches gives back what was written under the phrases that it asks
/// for: every grid entry in the bounding box, quantized, as often as it was added. It does so
/// whether it reads the rows of the phrases or those of the prefix bins, as long as the boundaries
/// ascend.
pub proof fn queries_give_back_what_was_written(
    bounds: Seq<PhraseId>,
    items: Seq<Item>,
    written: Seq<Seq<GridEntry>>,
    store: GridStore,
    query: MatchKey,
    opts: OptsView,
    meter: Meter,
    max: nat,
    out: Seq<MatchEntry>,
)
    requires
        keys_ascend(items),
        all_readable(bounds, items),
        hold_written(items, written),
        store.wf(),
        is_database(store.table(), all_rows(bounds, items)),
        query.match_phrase is Exact ==> query.match_phrase->Exact_0 < u32::MAX,
        fetch_plan(query, bounds.to_set()).1 == TypeMarker::PrefixBin ==> bounds_ascend(bounds),
        answers_query(store, query, opts, meter, max, out),
        asked_bag(items, written, query, opts, meter, items.len() as int).len() <= max,
    ensures
        out.to_multiset() == asked_bag(
            items,
            written,
            query,
            opts,
            meter,
            items.len() as int,
        ),
{
    let rows = store.table();
    boundaries_are_read(bounds, items, rows);
    let (range, marker) = fetch_plan(query, bounds.to_set());
    let n = items.len() as int;
    asked_alike(items, written, query, range, opts, meter, n);
    match range.match_phrase {
        MatchPhrase::Range { start, end } => {
            if marker == TypeMarker::PrefixBin {
                crate::order::set_members(bounds, start);
                crate::order::set_members(bounds, end);
                bins_answer(bounds, items, written, rows, range, start, end, opts, meter);
            } else {
                phrases_answer(bounds, items, written, rows, range, opts, meter);
            }
        },
        MatchPhrase::Exact(_) => {},
    }
    assert forall|i: int| 0 <= i < rows.len() implies key_has_head((#[trigger] rows[i]).0) by {
        database_key(bounds, items, rows, i);
    }
    scans_are_complete(rows, range, marker);
    roomy_queries_find_all(store, query, opts, meter, max, out);
}

proof fn asked_alike(
    items: Seq<Item>,
    written: Seq<Seq<GridEntry>>,
    a: MatchKey,
    b: MatchKey,
    opts: OptsView,
    meter: Meter,
    n: int,
)
    requires
        a.lang_set == b.lang_set,
        forall|id: PhraseId| #[trigger]
            phrase_matches(a.match_phrase, id as nat) == phrase_matches(b.match_phrase, id as nat),
    ensures
        asked_bag(items, written, a, opts, meter, n) == asked_bag(
            items,
            written,
            b,
            opts,
            meter,
            n,
        ),
    decreases n,
{
    if n > 0 {
        asked_alike(items, written, a, b, opts, meter, n - 1);
        assert(phrase_matches(a.match_phrase, items[n - 1].0.phrase_id as nat) == phrase_matches(
            b.match_phrase,
            items[n - 1].0.phrase_id as nat,
        ));
    }
}

} // verus!
