//! What a database holds once the rows of a builder were put into it.

use vstd::prelude::*;

use crate::builder::{
    aggregated, all_readable, all_rows, bin_of, bin_place, bin_place_bounds, bin_place_resumes,
    bin_row, bin_rows, data_rows, entries_of, key_lt, keys_ascend, languages, languages_grow,
    listing, place_is_last, readable, run_length, run_length_bounds, single_row, single_rows, Item,
    RowView,
};
use crate::common::{
    boundaries_round_trip, bounds_key_bytes, db_key, db_key_is_injective, db_key_round_trip,
    GridEntry, GridKey, LanguageSet, PhraseId, TypeMarker,
};
use crate::decode::{all_entries, flattened};
use crate::laws::{
    bins_hold_their_phrases, entries_come_back, is_finite, language_bag, quantized,
};
use crate::order::{in_order, in_order_exists, num_u128, set_members};
use crate::outside::decoded_groups;
use crate::store::{row_value, rows_ascend, stored_boundaries};

verus! {

/// The value that the last of the rows with the key has.
pub open spec fn last_put(puts: Seq<RowView>, key: Seq<u8>) -> Option<Seq<u8>>
    decreases puts.len(),
{
    if puts.len() == 0 {
        None
    } else if puts.last().0 == key {
        Some(puts.last().1)
    } else {
        last_put(puts.drop_last(), key)
    }
}

/// The rows are those of a database into which `puts` were put, one after the other: a later row
/// takes the place of an earlier one with the same key.
pub open spec fn is_database(rows: Seq<RowView>, puts: Seq<RowView>) -> bool {
    &&& rows_ascend(rows)
    &&& forall|key: Seq<u8>| #[trigger] row_value(rows, key) == last_put(puts, key)
}

proof fn last_put_concat(a: Seq<RowView>, b: Seq<RowView>, key: Seq<u8>)
    ensures
        last_put(a + b, key) == (if last_put(b, key) is Some {
            last_put(b, key)
        } else {
            last_put(a, key)
        }),
    decreases b.len(),
{
    if b.len() == 0 {
        assert(a + b =~= a);
    } else {
        assert((a + b).drop_last() =~= a + b.drop_last());
        last_put_concat(a, b.drop_last(), key);
    }
}

proof fn last_put_none(puts: Seq<RowView>, key: Seq<u8>)
    requires
        forall|i: int| 0 <= i < puts.len() ==> (#[trigger] puts[i]).0 != key,
    ensures
        last_put(puts, key) is None,
    decreases puts.len(),
{
    if puts.len() > 0 {
        let rest = puts.drop_last();
        assert forall|i: int| 0 <= i < rest.len() implies (#[trigger] rest[i]).0 != key by {
            assert(rest[i] == puts[i]);
        }
        last_put_none(rest, key);
        assert(puts[puts.len() - 1].0 != key);
    }
}

proof fn last_put_only(puts: Seq<RowView>, at: int)
    requires
        0 <= at < puts.len(),
        forall|i: int| 0 <= i < puts.len() && i != at ==> (#[trigger] puts[i]).0 != puts[at].0,
    ensures
        last_put(puts, puts[at].0) == Some(puts[at].1),
    decreases puts.len(),
{
    let last = puts.len() - 1;
    if at < last {
        let rest = puts.drop_last();
        assert forall|i: int| 0 <= i < rest.len() && i != at implies (#[trigger] rest[i]).0
            != rest[at].0 by {
            assert(rest[i] == puts[i]);
        }
        last_put_only(rest, at);
        assert(puts[last].0 != puts[at].0);
    }
}

// ---------------------------------------------------------------------------------------------
// Phrases
// ---------------------------------------------------------------------------------------------

/// The key of the row of a phrase and language.
pub open spec fn single_key(key: GridKey) -> Seq<u8> {
    db_key(TypeMarker::SinglePhrase, key)
}

/// The key of the row of a bin and language.
pub open spec fn bin_key(bin: PhraseId, lang: LanguageSet) -> Seq<u8> {
    db_key(TypeMarker::PrefixBin, GridKey { phrase_id: bin, lang_set: lang })
}

proof fn bin_rows_are_no_singles(bin: Option<PhraseId>, items: Seq<Item>, key: GridKey)
    ensures
        last_put(bin_rows(bin, items), single_key(key)) is None,
{
    let rows = bin_rows(bin, items);
    assert forall|i: int| 0 <= i < rows.len() implies (#[trigger] rows[i]).0 != single_key(
        key,
    ) by {
        let lang = in_order(languages(items), num_u128())[i];
        assert(rows[i] == bin_row(bin->Some_0, items, lang));
        db_key_round_trip(TypeMarker::SinglePhrase, key);
        db_key_round_trip(
            TypeMarker::PrefixBin,
            GridKey { phrase_id: bin->Some_0, lang_set: lang },
        );
    }
    last_put_none(rows, single_key(key));
}

proof fn single_rows_put(items: Seq<Item>, i: int)
    requires
        keys_ascend(items),
        0 <= i < items.len(),
    ensures
        last_put(single_rows(items), single_key(items[i].0)) == Some(single_row(items[i]).1),
{
    let rows = single_rows(items);
    assert forall|j: int| 0 <= j < rows.len() && j != i implies (#[trigger] rows[j]).0
        != rows[i].0 by {
        assert(rows[j] == single_row(items[j]));
        if rows[j].0 == rows[i].0 {
            db_key_is_injective(
                TypeMarker::SinglePhrase,
                items[i].0,
                TypeMarker::SinglePhrase,
                items[j].0,
            );
            if i < j {
                assert(key_lt(items[i].0, items[j].0));
            } else {
                assert(key_lt(items[j].0, items[i].0));
            }
        }
    }
    last_put_only(rows, i);
}

proof fn single_rows_absent(items: Seq<Item>, key: GridKey)
    requires
        forall|i: int| 0 <= i < items.len() ==> (#[trigger] items[i]).0 != key,
    ensures
        last_put(single_rows(items), single_key(key)) is None,
{
    let rows = single_rows(items);
    assert forall|i: int| 0 <= i < rows.len() implies (#[trigger] rows[i]).0 != single_key(
        key,
    ) by {
        assert(rows[i] == single_row(items[i]));
        if rows[i].0 == single_key(key) {
            db_key_is_injective(
                TypeMarker::SinglePhrase,
                items[i].0,
                TypeMarker::SinglePhrase,
                key,
            );
        }
    }
    last_put_none(rows, single_key(key));
}

proof fn parts_ascend(items: Seq<Item>, n: int)
    requires
        keys_ascend(items),
        0 <= n <= items.len(),
    ensures
        keys_ascend(items.take(n)),
        keys_ascend(items.skip(n)),
{
    assert forall|i: int, j: int| 0 <= i < j < items.skip(n).len() implies key_lt(
        (#[trigger] items.skip(n)[i]).0,
        (#[trigger] items.skip(n)[j]).0,
    ) by {
        assert(key_lt(items[i + n].0, items[j + n].0));
    }
}

pub(crate) proof fn data_put_singles(bounds: Seq<PhraseId>, items: Seq<Item>, i: int)
    requires
        keys_ascend(items),
        0 <= i < items.len(),
    ensures
        last_put(data_rows(bounds, items), single_key(items[i].0)) == Some(
            single_row(items[i]).1,
        ),
        all_readable(bounds, items) ==> readable(items[i].1),
    decreases items.len(),
{
    run_length_bounds(bounds, items);
    let n = run_length(bounds, items) as int;
    let group = items.take(n);
    let rest = items.skip(n);
    let key = single_key(items[i].0);
    let bin = bin_of(bounds, items[0].0.phrase_id);
    parts_ascend(items, n);
    last_put_concat(single_rows(group) + bin_rows(bin, group), data_rows(bounds, rest), key);
    last_put_concat(single_rows(group), bin_rows(bin, group), key);
    bin_rows_are_no_singles(bin, group, items[i].0);
    if i < n {
        assert(group[i] == items[i]);
        single_rows_put(group, i);
        assert forall|j: int| 0 <= j < rest.len() implies (#[trigger] rest[j]).0 != items[i].0 by {
            assert(rest[j] == items[j + n]);
            assert(key_lt(items[i].0, items[j + n].0));
        }
        data_absent_singles(bounds, rest, items[i].0);
    } else {
        assert(rest[i - n] == items[i]);
        data_put_singles(bounds, rest, i - n);
    }
}

proof fn data_absent_singles(bounds: Seq<PhraseId>, items: Seq<Item>, key: GridKey)
    requires
        forall|i: int| 0 <= i < items.len() ==> (#[trigger] items[i]).0 != key,
    ensures
        last_put(data_rows(bounds, items), single_key(key)) is None,
    decreases items.len(),
{
    if items.len() > 0 {
        run_length_bounds(bounds, items);
        let n = run_length(bounds, items) as int;
        let group = items.take(n);
        let rest = items.skip(n);
        let bin = bin_of(bounds, items[0].0.phrase_id);
        last_put_concat(
            single_rows(group) + bin_rows(bin, group),
            data_rows(bounds, rest),
            single_key(key),
        );
        last_put_concat(single_rows(group), bin_rows(bin, group), single_key(key));
        bin_rows_are_no_singles(bin, group, key);
        assert forall|i: int| 0 <= i < group.len() implies (#[trigger] group[i]).0 != key by {
            assert(group[i] == items[i]);
        }
        single_rows_absent(group, key);
        assert forall|i: int| 0 <= i < rest.len() implies (#[trigger] rest[i]).0 != key by {
            assert(rest[i] == items[i + n]);
        }
        data_absent_singles(bounds, rest, key);
    }
}

pub(crate) proof fn bounds_row_apart(bounds: Seq<PhraseId>, items: Seq<Item>, marker: TypeMarker, key: GridKey)
    ensures
        last_put(all_rows(bounds, items), db_key(marker, key)) == last_put(
            data_rows(bounds, items),
            db_key(marker, key),
        ),
{
    let rows = all_rows(bounds, items);
    assert(rows.drop_last() =~= data_rows(bounds, items));
    db_key_round_trip(marker, key);
    assert(bounds_key_bytes()[0] == 126u8);
}

/// What was written under a phrase and language is read back: all its grid entries, quantized, each
/// as often as it was added.
pub proof fn written_entries_are_read(
    bounds: Seq<PhraseId>,
    items: Seq<Item>,
    i: int,
    values: Seq<GridEntry>,
    rows: Seq<RowView>,
)
    requires
        keys_ascend(items),
        all_readable(bounds, items),
        0 <= i < items.len(),
        items[i].1 == entries_of(values),
        is_database(rows, all_rows(bounds, items)),
    ensures
        match row_value(rows, db_key(TypeMarker::SinglePhrase, items[i].0)) {
            Some(bytes) => {
                &&& decoded_groups(bytes) is Ok
                &&& decoded_groups(bytes)->Ok_0 == listing(items[i].1)
                &&& all_entries(flattened(decoded_groups(bytes)->Ok_0)).to_multiset()
                    == values.map_values(|v: GridEntry| quantized(v)).to_multiset()
            },
            None => false,
        },
{
    data_put_singles(bounds, items, i);
    bounds_row_apart(bounds, items, TypeMarker::SinglePhrase, items[i].0);
    entries_come_back(values);
}

/// A phrase and language under which nothing was written is not found.
pub proof fn unwritten_keys_are_absent(
    bounds: Seq<PhraseId>,
    items: Seq<Item>,
    key: GridKey,
    rows: Seq<RowView>,
)
    requires
        forall|i: int| 0 <= i < items.len() ==> (#[trigger] items[i]).0 != key,
        is_database(rows, all_rows(bounds, items)),
    ensures
        row_value(rows, db_key(TypeMarker::SinglePhrase, key)) is None,
{
    data_absent_singles(bounds, items, key);
    bounds_row_apart(bounds, items, TypeMarker::SinglePhrase, key);
}

/// A store finds the bin boundaries that the builder was given.
pub proof fn boundaries_are_read(bounds: Seq<PhraseId>, items: Seq<Item>, rows: Seq<RowView>)
    requires
        is_database(rows, all_rows(bounds, items)),
    ensures
        stored_boundaries(rows) == bounds.to_set(),
{
    boundaries_round_trip(bounds);
    assert(row_value(rows, bounds_key_bytes()) == last_put(
        all_rows(bounds, items),
        bounds_key_bytes(),
    ));
}

// ---------------------------------------------------------------------------------------------
// Bins
// ---------------------------------------------------------------------------------------------

/// Each boundary is below those behind it.
pub open spec fn bounds_ascend(bounds: Seq<PhraseId>) -> bool {
    forall|a: int, b: int| 0 <= a < b < bounds.len() ==> bounds[a] < bounds[b]
}

/// The items whose phrases belong to the bin.
pub open spec fn bin_items(bounds: Seq<PhraseId>, items: Seq<Item>, bin: PhraseId) -> Seq<Item>
    decreases items.len(),
{
    if items.len() == 0 {
        Seq::empty()
    } else {
        let before = bin_items(bounds, items.drop_last(), bin);
        if bin_of(bounds, items.last().0.phrase_id) == Some(bin) {
            before.push(items.last())
        } else {
            before
        }
    }
}

proof fn bin_items_concat(bounds: Seq<PhraseId>, a: Seq<Item>, b: Seq<Item>, bin: PhraseId)
    ensures
        bin_items(bounds, a + b, bin) == bin_items(bounds, a, bin) + bin_items(bounds, b, bin),
    decreases b.len(),
{
    if b.len() == 0 {
        assert(a + b =~= a);
        assert(bin_items(bounds, a, bin) + bin_items(bounds, b, bin) =~= bin_items(bounds, a, bin));
    } else {
        assert((a + b).drop_last() =~= a + b.drop_last());
        bin_items_concat(bounds, a, b.drop_last(), bin);
        assert(bin_items(bounds, a + b, bin) =~= bin_items(bounds, a, bin) + bin_items(
            bounds,
            b,
            bin,
        ));
    }
}

proof fn bin_items_all(bounds: Seq<PhraseId>, items: Seq<Item>, bin: PhraseId)
    requires
        forall|i: int|
            0 <= i < items.len() ==> bin_of(bounds, (#[trigger] items[i]).0.phrase_id) == Some(bin),
    ensures
        bin_items(bounds, items, bin) == items,
    decreases items.len(),
{
    if items.len() > 0 {
        let rest = items.drop_last();
        assert forall|i: int| 0 <= i < rest.len() implies bin_of(
            bounds,
            (#[trigger] rest[i]).0.phrase_id,
        ) == Some(bin) by {
            assert(rest[i] == items[i]);
        }
        bin_items_all(bounds, rest, bin);
        assert(bin_of(bounds, items[items.len() - 1].0.phrase_id) == Some(bin));
        assert(rest.push(items.last()) =~= items);
    } else {
        assert(bin_items(bounds, items, bin) =~= items);
    }
}

proof fn bin_items_none(bounds: Seq<PhraseId>, items: Seq<Item>, bin: PhraseId)
    requires
        forall|i: int|
            0 <= i < items.len() ==> bin_of(bounds, (#[trigger] items[i]).0.phrase_id) != Some(bin),
    ensures
        bin_items(bounds, items, bin) == Seq::<Item>::empty(),
    decreases items.len(),
{
    if items.len() > 0 {
        let rest = items.drop_last();
        assert forall|i: int| 0 <= i < rest.len() implies bin_of(
            bounds,
            (#[trigger] rest[i]).0.phrase_id,
        ) != Some(bin) by {
            assert(rest[i] == items[i]);
        }
        bin_items_none(bounds, rest, bin);
        assert(bin_of(bounds, items[items.len() - 1].0.phrase_id) != Some(bin));
    }
}

proof fn run_is_one_bin(bounds: Seq<PhraseId>, items: Seq<Item>)
    requires
        items.len() > 0,
    ensures
        forall|i: int|
            0 <= i < run_length(bounds, items) ==> bin_of(
                bounds,
                (#[trigger] items[i]).0.phrase_id,
            ) == bin_of(bounds, items[0].0.phrase_id),
        run_length(bounds, items) < items.len() ==> bin_of(
            bounds,
            items[run_length(bounds, items) as int].0.phrase_id,
        ) != bin_of(bounds, items[0].0.phrase_id),
    decreases items.len(),
{
    if items.len() > 1 && bin_of(bounds, items[1].0.phrase_id) == bin_of(
        bounds,
        items[0].0.phrase_id,
    ) {
        let rest = items.skip(1);
        run_is_one_bin(bounds, rest);
        run_length_bounds(bounds, rest);
        assert(rest[0] == items[1]);
        assert forall|i: int| 0 <= i < run_length(bounds, items) implies bin_of(
            bounds,
            (#[trigger] items[i]).0.phrase_id,
        ) == bin_of(bounds, items[0].0.phrase_id) by {
            if i > 0 {
                assert(rest[i - 1] == items[i]);
            }
        }
        let n = run_length(bounds, rest) as int;
        if n < rest.len() {
            assert(rest[n] == items[n + 1]);
        }
    }
}

/// The items behind a run belong to other bins.
proof fn bins_do_not_return(bounds: Seq<PhraseId>, items: Seq<Item>, j: int)
    requires
        bounds_ascend(bounds),
        bounds.len() > 0,
        keys_ascend(items),
        run_length(bounds, items) <= j < items.len(),
    ensures
        bin_of(bounds, items[j].0.phrase_id) != bin_of(bounds, items[0].0.phrase_id),
{
    let n = run_length(bounds, items) as int;
    run_length_bounds(bounds, items);
    run_is_one_bin(bounds, items);
    let first = items[0].0.phrase_id;
    let next = items[n].0.phrase_id;
    let phrase = items[j].0.phrase_id;
    assert(key_lt(items[0].0, items[n].0));
    if n < j {
        assert(key_lt(items[n].0, items[j].0));
    }
    bin_place_bounds(bounds, 0, first);
    bin_place_bounds(bounds, 0, next);
    bin_place_bounds(bounds, 0, phrase);
    bin_place_resumes(bounds, 0, first, next);
    bin_place_bounds(bounds, bin_place(bounds, 0, first), next);
    bin_place_resumes(bounds, 0, next, phrase);
    bin_place_bounds(bounds, bin_place(bounds, 0, next), phrase);
    let p = bin_place(bounds, 0, first);
    let q = bin_place(bounds, 0, next);
    if bounds[p] <= first {
        if p > 0 {
            assert(bounds[0] < bounds[p]);
        }
        place_is_last(bounds, 0, next);
        place_is_last(bounds, 0, phrase);
        assert(p < q);
        assert(bounds[p] < bounds[bin_place(bounds, 0, phrase)]);
    } else {
        if q > 0 {
            assert(bounds[0] < bounds[q]);
        }
        place_is_last(bounds, 0, phrase);
    }
}

pub(crate) proof fn languages_finite(items: Seq<Item>)
    ensures
        languages(items).finite(),
    decreases items.len(),
{
    if items.len() == 0 {
        assert(languages(items) =~= Set::empty());
    } else {
        languages_finite(items.drop_last());
        languages_grow(items.drop_last(), items.last());
        assert(items.drop_last().push(items.last()) =~= items);
    }
}

proof fn bin_rows_put(bin: PhraseId, items: Seq<Item>, lang: LanguageSet)
    ensures
        last_put(bin_rows(Some(bin), items), bin_key(bin, lang)) == (if languages(
            items,
        ).contains(lang) {
            Some(bin_row(bin, items, lang).1)
        } else {
            None
        }),
        forall|other: PhraseId| #[trigger]
            last_put(bin_rows(Some(bin), items), bin_key(other, lang)) is Some ==> other == bin,
{
    let order = in_order(languages(items), num_u128());
    let rows = bin_rows(Some(bin), items);
    languages_finite(items);
    in_order_exists(languages(items), num_u128());
    assert forall|i: int, other: PhraseId, l: LanguageSet|
        0 <= i < rows.len() && (#[trigger] rows[i]).0 == #[trigger] bin_key(
            other,
            l,
        ) implies other == bin && l == order[i] by {
        assert(rows[i] == bin_row(bin, items, order[i]));
        db_key_is_injective(
            TypeMarker::PrefixBin,
            GridKey { phrase_id: other, lang_set: l },
            TypeMarker::PrefixBin,
            GridKey { phrase_id: bin, lang_set: order[i] },
        );
    }
    set_members(order, lang);
    if languages(items).contains(lang) {
        let at = choose|i: int| 0 <= i < order.len() && order[i] == lang;
        assert(rows[at] == bin_row(bin, items, lang));
        assert forall|i: int| 0 <= i < rows.len() && i != at implies (#[trigger] rows[i]).0
            != rows[at].0 by {
            assert(order[i] != order[at]);
            assert(rows[at].0 == bin_key(bin, lang));
        }
        last_put_only(rows, at);
    } else {
        assert forall|i: int| 0 <= i < rows.len() implies (#[trigger] rows[i]).0 != bin_key(
            bin,
            lang,
        ) by {
            assert(order.contains(order[i]));
        }
        last_put_none(rows, bin_key(bin, lang));
    }
    assert forall|other: PhraseId| #[trigger]
        last_put(rows, bin_key(other, lang)) is Some implies other == bin by {
        if other != bin {
            last_put_none(rows, bin_key(other, lang));
        }
    }
}

proof fn single_rows_are_no_bins(items: Seq<Item>, bin: PhraseId, lang: LanguageSet)
    ensures
        last_put(single_rows(items), bin_key(bin, lang)) is None,
{
    let rows = single_rows(items);
    assert forall|i: int| 0 <= i < rows.len() implies (#[trigger] rows[i]).0 != bin_key(
        bin,
        lang,
    ) by {
        assert(rows[i] == single_row(items[i]));
        db_key_round_trip(TypeMarker::SinglePhrase, items[i].0);
        db_key_round_trip(TypeMarker::PrefixBin, GridKey { phrase_id: bin, lang_set: lang });
    }
    last_put_none(rows, bin_key(bin, lang));
}

pub(crate) proof fn data_put_bins(bounds: Seq<PhraseId>, items: Seq<Item>, bin: PhraseId, lang: LanguageSet)
    requires
        keys_ascend(items),
        bounds_ascend(bounds),
    ensures
        last_put(data_rows(bounds, items), bin_key(bin, lang)) == (if languages(
            bin_items(bounds, items, bin),
        ).contains(lang) {
            Some(bin_row(bin, bin_items(bounds, items, bin), lang).1)
        } else {
            None
        }),
        all_readable(bounds, items) && languages(bin_items(bounds, items, bin)).contains(lang)
            ==> readable(aggregated(bin_items(bounds, items, bin), lang)),
    decreases items.len(),
{
    let empty = Seq::<Item>::empty();
    assert(languages(empty) =~= Set::empty());
    if items.len() > 0 {
        run_length_bounds(bounds, items);
        run_is_one_bin(bounds, items);
        let n = run_length(bounds, items) as int;
        let group = items.take(n);
        let rest = items.skip(n);
        let own = bin_of(bounds, items[0].0.phrase_id);
        let key = bin_key(bin, lang);
        parts_ascend(items, n);
        assert(items =~= group + rest);
        bin_items_concat(bounds, group, rest, bin);
        last_put_concat(single_rows(group) + bin_rows(own, group), data_rows(bounds, rest), key);
        last_put_concat(single_rows(group), bin_rows(own, group), key);
        single_rows_are_no_bins(group, bin, lang);
        data_put_bins(bounds, rest, bin, lang);
        assert forall|i: int| 0 <= i < group.len() implies bin_of(
            bounds,
            (#[trigger] group[i]).0.phrase_id,
        ) == own by {
            assert(group[i] == items[i]);
        }
        if own is Some {
            bin_rows_put(own->Some_0, group, lang);
        } else {
            last_put_none(bin_rows(own, group), key);
        }
        if own == Some(bin) {
            bin_items_all(bounds, group, bin);
            assert forall|i: int| 0 <= i < rest.len() implies bin_of(
                bounds,
                (#[trigger] rest[i]).0.phrase_id,
            ) != Some(bin) by {
                assert(rest[i] == items[i + n]);
                bins_do_not_return(bounds, items, i + n);
            }
            bin_items_none(bounds, rest, bin);
            assert(group + empty =~= group);
        } else {
            bin_items_none(bounds, group, bin);
            assert(empty + bin_items(bounds, rest, bin) =~= bin_items(bounds, rest, bin));
            assert(last_put(bin_rows(own, group), key) is None);
        }
    }
}

/// The row of a bin and language is there if a phrase of the bin has the language, and then gives
/// back the grid entries of all those phrases, and no others.
pub proof fn bins_are_read(
    bounds: Seq<PhraseId>,
    items: Seq<Item>,
    bin: PhraseId,
    lang: LanguageSet,
    rows: Seq<RowView>,
)
    requires
        keys_ascend(items),
        bounds_ascend(bounds),
        all_readable(bounds, items),
        forall|i: int| 0 <= i < items.len() ==> is_finite((#[trigger] items[i]).1),
        is_database(rows, all_rows(bounds, items)),
    ensures
        match row_value(
            rows,
            db_key(TypeMarker::PrefixBin, GridKey { phrase_id: bin, lang_set: lang }),
        ) {
            Some(bytes) => {
                &&& languages(bin_items(bounds, items, bin)).contains(lang)
                &&& decoded_groups(bytes) is Ok
                &&& all_entries(flattened(decoded_groups(bytes)->Ok_0)).to_multiset()
                    == language_bag(bin_items(bounds, items, bin), lang)
            },
            None => !languages(bin_items(bounds, items, bin)).contains(lang),
        },
{
    let key = GridKey { phrase_id: bin, lang_set: lang };
    data_put_bins(bounds, items, bin, lang);
    bounds_row_apart(bounds, items, TypeMarker::PrefixBin, key);
    let own = bin_items(bounds, items, bin);
    bin_items_finite(bounds, items, bin);
    bins_hold_their_phrases(own, lang);
}

pub(crate) proof fn bin_items_finite(bounds: Seq<PhraseId>, items: Seq<Item>, bin: PhraseId)
    requires
        forall|i: int| 0 <= i < items.len() ==> is_finite((#[trigger] items[i]).1),
    ensures
        forall|i: int|
            0 <= i < bin_items(bounds, items, bin).len() ==> is_finite(
                (#[trigger] bin_items(bounds, items, bin)[i]).1,
            ),
    decreases items.len(),
{
    if items.len() > 0 {
        let rest = items.drop_last();
        assert forall|i: int| 0 <= i < rest.len() implies is_finite((#[trigger] rest[i]).1) by {
            assert(rest[i] == items[i]);
        }
        bin_items_finite(bounds, rest, bin);
        assert(is_finite(items[items.len() - 1].1));
        let before = bin_items(bounds, rest, bin);
        let all = bin_items(bounds, items, bin);
        assert forall|i: int| 0 <= i < all.len() implies is_finite((#[trigger] all[i]).1) by {
            if i < before.len() {
                assert(all[i] == before[i]);
            }
        }
    }
}

} // verus!
