//! What reading gives back of what was written.

use vstd::multiset::Multiset;
use vstd::prelude::*;

use crate::builder::{
    aggregated, coords_at, coords_listing, entries_of, extended, ids_at, listing, merged,
    merged_coords, morton_code, with_entry, CoordsView, EntriesView, Item,
};
use crate::common::{
    level_relev, pack_round_trip, packed_id, relev_level, relev_score, relev_score_round_trip,
    GridEntry, LanguageSet,
};
use crate::decode::{
    all_entries, coord_map, flat_entries, flat_group, flattened, morton_x, morton_y, FlatView,
};
use crate::order::{
    in_order, in_order_exists, in_order_is_unique, num_u32, num_u8, place_in, set_members,
};
use crate::outside::{even_bits, spread_bits};

verus! {

// ---------------------------------------------------------------------------------------------
// Coordinates
// ---------------------------------------------------------------------------------------------

proof fn morton_halves(x: nat, y: nat)
    ensures
        even_bits(spread_bits(x) + 2 * spread_bits(y)) == x,
        even_bits((spread_bits(x) + 2 * spread_bits(y)) / 2) == y,
    decreases x + y,
{
    if x == 0 && y == 0 {
        assert(spread_bits(0) == 0);
        assert(even_bits(0) == 0);
    } else {
        morton_halves(x / 2, y / 2);
        let s = spread_bits(x / 2) + 2 * spread_bits(y / 2);
        let all = spread_bits(x) + 2 * spread_bits(y);
        assert(spread_bits(x) == x % 2 + 4 * spread_bits(x / 2)) by {
            if x == 0 {
                assert(spread_bits(0) == 0);
            }
        }
        assert(spread_bits(y) == y % 2 + 4 * spread_bits(y / 2)) by {
            if y == 0 {
                assert(spread_bits(0) == 0);
            }
        }
        assert(all == x % 2 + 2 * (y % 2) + 4 * s);
        assert(all % 2 == x % 2 && all / 4 == s);
        assert((all / 2) % 2 == y % 2 && (all / 2) / 4 == s / 2);
        assert(even_bits(all) == all % 2 + 2 * even_bits(all / 4)) by {
            if all == 0 {
                assert(even_bits(0) == 0);
            }
        }
        assert(even_bits(all / 2) == (all / 2) % 2 + 2 * even_bits(all / 2 / 4)) by {
            if all / 2 == 0 {
                assert(even_bits(0) == 0);
            }
        }
    }
}

/// The greatest number that `n` spread bits can make.
spec fn spread_max(n: nat) -> nat
    decreases n,
{
    if n == 0 {
        0
    } else {
        1 + 4 * spread_max((n - 1) as nat)
    }
}

spec fn two_to(n: nat) -> nat
    decreases n,
{
    if n == 0 {
        1
    } else {
        2 * two_to((n - 1) as nat)
    }
}

proof fn spread_bound(v: nat, n: nat)
    requires
        v < two_to(n),
    ensures
        spread_bits(v) <= spread_max(n),
    decreases n,
{
    if v > 0 {
        assert(n > 0);
        spread_bound(v / 2, (n - 1) as nat);
    }
}

/// The Morton code of a coordinate gives it back.
pub proof fn morton_round_trip(x: u16, y: u16)
    ensures
        morton_x(morton_code(x, y)) == x,
        morton_y(morton_code(x, y)) == y,
{
    reveal_with_fuel(two_to, 17);
    reveal_with_fuel(spread_max, 17);
    spread_bound(x as nat, 16);
    spread_bound(y as nat, 16);
    morton_halves(x as nat, y as nat);
}

/// Different coordinates have different Morton codes.
pub proof fn morton_codes_differ(x1: u16, y1: u16, x2: u16, y2: u16)
    requires
        morton_code(x1, y1) == morton_code(x2, y2),
    ensures
        x1 == x2,
        y1 == y2,
{
    morton_round_trip(x1, y1);
    morton_round_trip(x2, y2);
}

// ---------------------------------------------------------------------------------------------
// Building
// ---------------------------------------------------------------------------------------------

/// Entries added in two batches are as those added in one.
pub proof fn appending_accumulates(e: EntriesView, a: Seq<GridEntry>, b: Seq<GridEntry>)
    ensures
        extended(extended(e, a), b) == extended(e, a + b),
    decreases b.len(),
{
    if b.len() == 0 {
        assert(a + b =~= a);
    } else {
        assert((a + b).drop_last() =~= a + b.drop_last());
        appending_accumulates(e, a, b.drop_last());
    }
}

proof fn with_entry_merges(e: EntriesView, v: GridEntry)
    ensures
        with_entry(e, v) == merged(e, with_entry(Map::empty(), v)),
{
    let rs = relev_score(v.relev, v.score);
    let m = morton_code(v.x, v.y);
    let id = packed_id(v.id, v.source_phrase_hash);
    let none: EntriesView = Map::empty();
    let nothing: CoordsView = Map::empty();
    let one = with_entry(none, v);
    assert(coords_at(none, rs) =~= nothing);
    assert(ids_at(nothing, m) =~= Seq::empty());
    let after = with_entry(e, v);
    let both = merged(e, one);
    assert(one[rs] =~= nothing.insert(m, seq![id]));
    assert forall|r: u8| both.contains_key(r) implies after[r] == both[r] by {
        if r == rs {
            let c = coords_at(e, rs);
            assert(ids_at(one[rs], m) =~= seq![id]);
            assert(ids_at(c, m).push(id) =~= ids_at(c, m) + seq![id]);
            assert forall|o: u32| o != m implies ids_at(c, o) + #[trigger] ids_at(one[rs], o)
                == ids_at(c, o) by {
                assert(ids_at(c, o) + ids_at(one[rs], o) =~= ids_at(c, o));
            }
            assert(after[r] =~= both[r]);
        } else {
            let c = e[r];
            assert(coords_at(one, r) =~= nothing);
            assert forall|o: u32| ids_at(c, o) + #[trigger] ids_at(nothing, o) == ids_at(
                c,
                o,
            ) by {
                assert(ids_at(c, o) + ids_at(nothing, o) =~= ids_at(c, o));
            }
            assert(merged_coords(c, nothing) =~= c);
        }
    }
    assert(after =~= both);
}

proof fn merged_coords_associate(a: CoordsView, b: CoordsView, c: CoordsView)
    ensures
        merged_coords(merged_coords(a, b), c) == merged_coords(a, merged_coords(b, c)),
{
    let left = merged_coords(merged_coords(a, b), c);
    let right = merged_coords(a, merged_coords(b, c));
    assert forall|m: u32| left.contains_key(m) implies left[m] == right[m] by {
        assert(ids_at(merged_coords(a, b), m) =~= ids_at(a, m) + ids_at(b, m));
        assert(ids_at(merged_coords(b, c), m) =~= ids_at(b, m) + ids_at(c, m));
        assert(left[m] =~= right[m]);
    }
    assert(left =~= right);
}

proof fn merged_associate(a: EntriesView, b: EntriesView, c: EntriesView)
    ensures
        merged(merged(a, b), c) == merged(a, merged(b, c)),
{
    let left = merged(merged(a, b), c);
    let right = merged(a, merged(b, c));
    let nothing: CoordsView = Map::empty();
    assert forall|r: u8| left.contains_key(r) implies left[r] == right[r] by {
        assert(merged_coords(nothing, nothing) =~= nothing);
        assert(coords_at(merged(a, b), r) == merged_coords(coords_at(a, r), coords_at(b, r)));
        assert(coords_at(merged(b, c), r) == merged_coords(coords_at(b, r), coords_at(c, r)));
        merged_coords_associate(coords_at(a, r), coords_at(b, r), coords_at(c, r));
    }
    assert(left =~= right);
}

/// Copying what was built of some values into what was built of others is as building it of both.
pub proof fn merging_is_extending(e: EntriesView, values: Seq<GridEntry>)
    ensures
        merged(e, entries_of(values)) == extended(e, values),
    decreases values.len(),
{
    let none: EntriesView = Map::empty();
    if values.len() == 0 {
        let nothing: CoordsView = Map::empty();
        assert forall|r: u8| e.contains_key(r) implies #[trigger] merged(e, none)[r] == e[r] by {
            let c = e[r];
            assert forall|o: u32| ids_at(c, o) + #[trigger] ids_at(nothing, o) == ids_at(
                c,
                o,
            ) by {
                assert(ids_at(c, o) + ids_at(nothing, o) =~= ids_at(c, o));
            }
            assert(merged_coords(c, nothing) =~= c);
            assert(coords_at(none, r) =~= nothing);
        }
        assert(merged(e, none) =~= e);
    } else {
        let rest = values.drop_last();
        let v = values.last();
        merging_is_extending(e, rest);
        with_entry_merges(entries_of(rest), v);
        with_entry_merges(extended(e, rest), v);
        merged_associate(e, entries_of(rest), with_entry(none, v));
    }
}

/// The features at a place, in the order in which their entries were added.
pub open spec fn features_of(values: Seq<GridEntry>, rs: u8, morton: u32) -> Seq<u32>
    decreases values.len(),
{
    if values.len() == 0 {
        Seq::empty()
    } else {
        let before = features_of(values.drop_last(), rs, morton);
        let v = values.last();
        if relev_score(v.relev, v.score) == rs && morton_code(v.x, v.y) == morton {
            before.push(packed_id(v.id, v.source_phrase_hash))
        } else {
            before
        }
    }
}

/// Entries that are added stand at each place behind the features that were there, in the order in
/// which they are added.
pub proof fn features_stay_in_order(
    e: EntriesView,
    values: Seq<GridEntry>,
    rs: u8,
    morton: u32,
)
    ensures
        ids_at(coords_at(extended(e, values), rs), morton) == ids_at(coords_at(e, rs), morton)
            + features_of(values, rs, morton),
    decreases values.len(),
{
    let had = ids_at(coords_at(e, rs), morton);
    if values.len() > 0 {
        let rest = values.drop_last();
        let v = values.last();
        features_stay_in_order(e, rest, rs, morton);
        features_stay_in_order(
            e,
            rest,
            relev_score(v.relev, v.score),
            morton_code(v.x, v.y),
        );
        let id = packed_id(v.id, v.source_phrase_hash);
        assert((had + features_of(rest, rs, morton)).push(id) =~= had + features_of(
            rest,
            rs,
            morton,
        ).push(id));
    } else {
        assert(had + features_of(values, rs, morton) =~= had);
    }
}

// ---------------------------------------------------------------------------------------------
// Sums over keys
// ---------------------------------------------------------------------------------------------

/// What the keys contribute, all together.
pub open spec fn bag_sum<K, B>(keys: Seq<K>, f: spec_fn(K) -> Multiset<B>) -> Multiset<B>
    decreases keys.len(),
{
    if keys.len() == 0 {
        Multiset::empty()
    } else {
        bag_sum(keys.drop_last(), f).add(f(keys.last()))
    }
}

pub(crate) proof fn bag_sum_same<K, B>(
    keys: Seq<K>,
    f: spec_fn(K) -> Multiset<B>,
    g: spec_fn(K) -> Multiset<B>,
)
    requires
        forall|i: int| 0 <= i < keys.len() ==> f(#[trigger] keys[i]) == g(keys[i]),
    ensures
        bag_sum(keys, f) == bag_sum(keys, g),
    decreases keys.len(),
{
    if keys.len() > 0 {
        assert forall|i: int| 0 <= i < keys.drop_last().len() implies f(
            #[trigger] keys.drop_last()[i],
        ) == g(keys.drop_last()[i]) by {
            assert(keys[i] == keys.drop_last()[i]);
        }
        bag_sum_same(keys.drop_last(), f, g);
        assert(f(keys[keys.len() - 1]) == g(keys[keys.len() - 1]));
    }
}

pub(crate) proof fn bag_sum_adds<K, B>(
    keys: Seq<K>,
    h: spec_fn(K) -> Multiset<B>,
    f: spec_fn(K) -> Multiset<B>,
    g: spec_fn(K) -> Multiset<B>,
)
    requires
        forall|i: int|
            0 <= i < keys.len() ==> h(#[trigger] keys[i]) == f(keys[i]).add(g(keys[i])),
    ensures
        bag_sum(keys, h) == bag_sum(keys, f).add(bag_sum(keys, g)),
    decreases keys.len(),
{
    if keys.len() == 0 {
        assert(bag_sum(keys, h) =~= bag_sum(keys, f).add(bag_sum(keys, g)));
    } else {
        let rest = keys.drop_last();
        assert forall|i: int| 0 <= i < rest.len() implies h(#[trigger] rest[i]) == f(rest[i]).add(
            g(rest[i]),
        ) by {
            assert(keys[i] == rest[i]);
        }
        bag_sum_adds(rest, h, f, g);
        assert(h(keys[keys.len() - 1]) == f(keys.last()).add(g(keys.last())));
        assert(bag_sum(keys, h) =~= bag_sum(keys, f).add(bag_sum(keys, g)));
    }
}

pub(crate) proof fn bag_sum_remove<K, B>(keys: Seq<K>, i: int, f: spec_fn(K) -> Multiset<B>)
    requires
        0 <= i < keys.len(),
    ensures
        bag_sum(keys, f) == bag_sum(keys.remove(i), f).add(f(keys[i])),
    decreases keys.len(),
{
    if i == keys.len() - 1 {
        assert(keys.remove(i) =~= keys.drop_last());
    } else {
        let rest = keys.drop_last();
        bag_sum_remove(rest, i, f);
        assert(keys.remove(i).drop_last() =~= rest.remove(i));
        assert(keys.remove(i).last() == keys.last());
        assert(bag_sum(keys, f) =~= bag_sum(keys.remove(i), f).add(f(keys[i])));
    }
}

/// The order of the keys does not matter.
pub(crate) proof fn bag_sum_permutes<K, B>(a: Seq<K>, b: Seq<K>, f: spec_fn(K) -> Multiset<B>)
    requires
        a.to_multiset() == b.to_multiset(),
    ensures
        bag_sum(a, f) == bag_sum(b, f),
    decreases a.len(),
{
    broadcast use vstd::seq_lib::group_to_multiset_ensures;

    assert(a.to_multiset().len() == a.len() && b.to_multiset().len() == b.len());
    if a.len() > 0 {
        let last = a.len() - 1;
        let j = place_in(a, b, last);
        assert(a.remove(last) =~= a.drop_last());
        assert(a.drop_last().to_multiset() =~= b.remove(j).to_multiset());
        bag_sum_permutes(a.drop_last(), b.remove(j), f);
        bag_sum_remove(b, j, f);
    }
}

pub(crate) proof fn bag_sum_concat<K, B>(a: Seq<K>, b: Seq<K>, f: spec_fn(K) -> Multiset<B>)
    ensures
        bag_sum(a + b, f) == bag_sum(a, f).add(bag_sum(b, f)),
    decreases b.len(),
{
    if b.len() == 0 {
        assert(a + b =~= a);
        assert(bag_sum(a, f).add(bag_sum(b, f)) =~= bag_sum(a, f));
    } else {
        assert((a + b).drop_last() =~= a + b.drop_last());
        bag_sum_concat(a, b.drop_last(), f);
        assert(bag_sum(a + b, f) =~= bag_sum(a, f).add(bag_sum(b, f)));
    }
}

/// Keys that contribute nothing can be left out, and the order does not matter.
pub(crate) proof fn bag_sum_restrict<K, B>(u: Seq<K>, s: Seq<K>, f: spec_fn(K) -> Multiset<B>)
    requires
        u.no_duplicates(),
        s.no_duplicates(),
        forall|k: K| #[trigger] s.contains(k) ==> u.contains(k),
        forall|k: K| #[trigger] u.contains(k) && !s.contains(k) ==> f(k) == Multiset::<B>::empty(),
    ensures
        bag_sum(u, f) == bag_sum(s, f),
    decreases u.len(),
{
    if u.len() == 0 {
        if s.len() > 0 {
            assert(s.contains(s[0]));
        }
    } else {
        let k = u.last();
        let rest = u.drop_last();
        assert(u.contains(u[u.len() - 1]));
        if s.contains(k) {
            let i = choose|i: int| 0 <= i < s.len() && s[i] == k;
            let t = s.remove(i);
            bag_sum_remove(s, i, f);
            assert(t.no_duplicates());
            assert forall|x: K| #[trigger] t.contains(x) implies rest.contains(x) by {
                let j = choose|j: int| 0 <= j < t.len() && t[j] == x;
                let q = if j < i {
                    j
                } else {
                    j + 1
                };
                assert(s[q] == x && q != i);
                assert(s.contains(x));
                let w = choose|w: int| 0 <= w < u.len() && u[w] == x;
                assert(x != k);
                assert(rest[w] == x);
            }
            assert forall|x: K| #[trigger] rest.contains(x) && !t.contains(x) implies f(x)
                == Multiset::<B>::empty() by {
                let w = choose|w: int| 0 <= w < rest.len() && rest[w] == x;
                assert(u[w] == x);
                assert(u.contains(x));
                assert(x != k);
                if s.contains(x) {
                    let q = choose|q: int| 0 <= q < s.len() && s[q] == x;
                    if q < i {
                        assert(t[q] == x);
                    } else {
                        assert(t[q - 1] == x);
                    }
                }
            }
            bag_sum_restrict(rest, t, f);
        } else {
            assert forall|x: K| #[trigger] s.contains(x) implies rest.contains(x) by {
                let w = choose|w: int| 0 <= w < u.len() && u[w] == x;
                assert(rest[w] == x);
            }
            assert forall|x: K| #[trigger] rest.contains(x) && !s.contains(x) implies f(x)
                == Multiset::<B>::empty() by {
                let w = choose|w: int| 0 <= w < rest.len() && rest[w] == x;
                assert(u[w] == x);
                assert(u.contains(x));
            }
            bag_sum_restrict(rest, s, f);
            assert(bag_sum(u, f) =~= bag_sum(rest, f));
        }
    }
}

/// What the keys of either contribute is what those of each contribute.
proof fn bag_sum_union<K, B>(
    u: Seq<K>,
    sa: Seq<K>,
    sb: Seq<K>,
    h: spec_fn(K) -> Multiset<B>,
    f: spec_fn(K) -> Multiset<B>,
    g: spec_fn(K) -> Multiset<B>,
)
    requires
        u.no_duplicates(),
        sa.no_duplicates(),
        sb.no_duplicates(),
        forall|k: K| #[trigger] u.contains(k) <==> sa.contains(k) || sb.contains(k),
        forall|k: K| #[trigger]
            u.contains(k) ==> h(k) == (if sa.contains(k) {
                f(k)
            } else {
                Multiset::<B>::empty()
            }).add(
                if sb.contains(k) {
                    g(k)
                } else {
                    Multiset::<B>::empty()
                },
            ),
    ensures
        bag_sum(u, h) == bag_sum(sa, f).add(bag_sum(sb, g)),
{
    let fa = |k: K|
        if sa.contains(k) {
            f(k)
        } else {
            Multiset::<B>::empty()
        };
    let gb = |k: K|
        if sb.contains(k) {
            g(k)
        } else {
            Multiset::<B>::empty()
        };
    assert forall|i: int| 0 <= i < u.len() implies h(#[trigger] u[i]) == fa(u[i]).add(gb(u[i])) by {
        assert(u.contains(u[i]));
    }
    bag_sum_adds(u, h, fa, gb);
    assert forall|k: K| #[trigger] sa.contains(k) implies u.contains(k) by {
        assert(u.contains(k) <==> sa.contains(k) || sb.contains(k));
    }
    assert forall|k: K| #[trigger] sb.contains(k) implies u.contains(k) by {
        assert(u.contains(k) <==> sa.contains(k) || sb.contains(k));
    }
    bag_sum_restrict(u, sa, fa);
    bag_sum_restrict(u, sb, gb);
    assert forall|i: int| 0 <= i < sa.len() implies fa(#[trigger] sa[i]) == f(sa[i]) by {
        assert(sa.contains(sa[i]));
    }
    assert forall|i: int| 0 <= i < sb.len() implies gb(#[trigger] sb[i]) == g(sb[i]) by {
        assert(sb.contains(sb[i]));
    }
    bag_sum_same(sa, fa, f);
    bag_sum_same(sb, gb, g);
}

// ---------------------------------------------------------------------------------------------
// Stored entries
// ---------------------------------------------------------------------------------------------

/// A grid entry as it comes back: the relevance is that of its level, the score has four bits and
/// the identifier 24.
pub open spec fn quantized(e: GridEntry) -> GridEntry {
    GridEntry {
        relev: level_relev(relev_level(e.relev)),
        score: e.score % 16,
        x: e.x,
        y: e.y,
        id: e.id % 0x100_0000,
        source_phrase_hash: e.source_phrase_hash,
    }
}

/// The grid entries that are read out of stored entries, in whichever order.
pub open spec fn entries_bag(entries: EntriesView) -> Multiset<GridEntry> {
    all_entries(flattened(listing(entries))).to_multiset()
}

/// The entries hold finitely many places.
pub open spec fn is_finite(entries: EntriesView) -> bool {
    &&& entries.dom().finite()
    &&& forall|rs: u8| entries.contains_key(rs) ==> (#[trigger] entries[rs]).dom().finite()
}

spec fn flat_of(rs: u8, morton: u32, ids: Seq<u32>) -> FlatView {
    FlatView { relev: level_relev(rs / 16), score: rs % 16, morton, ids }
}

spec fn place_bags(rs: u8, coords: CoordsView) -> spec_fn(u32) -> Multiset<GridEntry> {
    |m: u32| flat_entries(flat_of(rs, m, coords[m])).to_multiset()
}

spec fn coords_bag(rs: u8, coords: CoordsView) -> Multiset<GridEntry> {
    bag_sum(in_order(coords.dom(), num_u32()), place_bags(rs, coords))
}

spec fn coords_bags(entries: EntriesView) -> spec_fn(u8) -> Multiset<GridEntry> {
    |rs: u8| coords_bag(rs, entries[rs])
}

pub(crate) proof fn concat_bags<A>(a: Seq<A>, b: Seq<A>)
    ensures
        (a + b).to_multiset() == a.to_multiset().add(b.to_multiset()),
{
    vstd::seq_lib::lemma_multiset_commutative(a, b);
}

proof fn all_entries_concat(a: Seq<FlatView>, b: Seq<FlatView>)
    ensures
        all_entries(a + b) == all_entries(a) + all_entries(b),
    decreases b.len(),
{
    if b.len() == 0 {
        assert(a + b =~= a);
        assert(all_entries(a) + all_entries(b) =~= all_entries(a));
    } else {
        assert((a + b).drop_last() =~= a + b.drop_last());
        all_entries_concat(a, b.drop_last());
        assert(all_entries(a + b) =~= all_entries(a) + all_entries(b));
    }
}

pub(crate) proof fn empty_bag<A>(s: Seq<A>)
    requires
        s.len() == 0,
    ensures
        s.to_multiset() == Multiset::<A>::empty(),
{
    broadcast use vstd::seq_lib::group_to_multiset_ensures;

    assert(s.to_multiset().len() == 0);
    assert(s.to_multiset() =~= Multiset::empty());
}

proof fn group_bag(rs: u8, coords: CoordsView, keys: Seq<u32>)
    ensures
        all_entries(keys.map_values(|m: u32| flat_of(rs, m, coords[m]))).to_multiset() == bag_sum(
            keys,
            place_bags(rs, coords),
        ),
    decreases keys.len(),
{
    let f = |m: u32| flat_of(rs, m, coords[m]);
    let flats = keys.map_values(f);
    if keys.len() == 0 {
        empty_bag(all_entries(flats));
    } else {
        group_bag(rs, coords, keys.drop_last());
        assert(flats.drop_last() =~= keys.drop_last().map_values(f));
        concat_bags(all_entries(flats.drop_last()), flat_entries(flats.last()));
    }
}

proof fn listed_coords(coords: CoordsView, keys: Seq<u32>)
    ensures
        coord_map(keys.map_values(|m: u32| (m, coords[m]))).dom() == keys.to_set(),
        forall|m: u32| #[trigger]
            keys.to_set().contains(m) ==> coord_map(keys.map_values(|m: u32| (m, coords[m])))[m]
                == coords[m],
    decreases keys.len(),
{
    let f = |m: u32| (m, coords[m]);
    let list = keys.map_values(f);
    if keys.len() == 0 {
        assert(coord_map(list).dom() =~= keys.to_set());
    } else {
        let rest = keys.drop_last();
        listed_coords(coords, rest);
        assert(list.drop_last() =~= rest.map_values(f));
        assert(keys =~= rest.push(keys.last()));
        rest.lemma_push_to_set_commute(keys.last());
        assert(coord_map(list).dom() =~= keys.to_set());
    }
}

proof fn words_in_order(keys: Set<u32>)
    requires
        keys.finite(),
    ensures
        in_order(keys, num_u32()).to_set() == keys,
        in_order(keys, num_u32()).no_duplicates(),
        forall|k: u32| #[trigger] in_order(keys, num_u32()).contains(k) <==> keys.contains(k),
{
    in_order_exists(keys, num_u32());
    assert forall|k: u32| #[trigger] in_order(keys, num_u32()).contains(k) <==> keys.contains(k) by {
        set_members(in_order(keys, num_u32()), k);
    }
}

proof fn bytes_in_order(keys: Set<u8>)
    requires
        keys.finite(),
    ensures
        in_order(keys, num_u8()).to_set() == keys,
        in_order(keys, num_u8()).no_duplicates(),
        forall|k: u8| #[trigger] in_order(keys, num_u8()).contains(k) <==> keys.contains(k),
{
    in_order_exists(keys, num_u8());
    assert forall|k: u8| #[trigger] in_order(keys, num_u8()).contains(k) <==> keys.contains(k) by {
        set_members(in_order(keys, num_u8()), k);
    }
}

proof fn stored_group_bag(rs: u8, coords: CoordsView)
    requires
        coords.dom().finite(),
    ensures
        all_entries(flat_group((rs, coords_listing(coords)))).to_multiset() == coords_bag(
            rs,
            coords,
        ),
{
    let keys = in_order(coords.dom(), num_u32());
    words_in_order(coords.dom());
    listed_coords(coords, keys);
    let f = |m: u32| (m, coords[m]);
    assert(coords_listing(coords) =~= keys.map_values(f));
    assert(coord_map(coords_listing(coords)) =~= coords);
    let g = |m: u32| flat_of(rs, m, coords[m]);
    assert(flat_group((rs, coords_listing(coords))) =~= keys.map_values(g));
    group_bag(rs, coords, keys);
}

proof fn groups_bag(entries: EntriesView, keys: Seq<u8>)
    requires
        is_finite(entries),
        forall|i: int| 0 <= i < keys.len() ==> entries.contains_key(#[trigger] keys[i]),
    ensures
        all_entries(
            flattened(keys.map_values(|rs: u8| (rs, coords_listing(entries[rs])))),
        ).to_multiset() == bag_sum(keys, coords_bags(entries)),
    decreases keys.len(),
{
    let f = |rs: u8| (rs, coords_listing(entries[rs]));
    let groups = keys.map_values(f);
    if keys.len() == 0 {
        empty_bag(all_entries(flattened(groups)));
    } else {
        let rest = keys.drop_last();
        assert forall|i: int| 0 <= i < rest.len() implies entries.contains_key(
            #[trigger] rest[i],
        ) by {
            assert(rest[i] == keys[i]);
        }
        groups_bag(entries, rest);
        assert(groups.drop_last() =~= rest.map_values(f));
        let before = flattened(groups.drop_last());
        let more = flat_group(groups.last());
        all_entries_concat(before, more);
        concat_bags(all_entries(before), all_entries(more));
        let rs = keys[keys.len() - 1];
        assert(entries.contains_key(rs));
        stored_group_bag(rs, entries[rs]);
    }
}

proof fn entries_bag_is(entries: EntriesView)
    requires
        is_finite(entries),
    ensures
        entries_bag(entries) == bag_sum(
            in_order(entries.dom(), num_u8()).reverse(),
            coords_bags(entries),
        ),
        in_order(entries.dom(), num_u8()).reverse().no_duplicates(),
        forall|k: u8| #[trigger]
            in_order(entries.dom(), num_u8()).reverse().contains(k) <==> entries.contains_key(k),
{
    let up = in_order(entries.dom(), num_u8());
    let keys = up.reverse();
    bytes_in_order(entries.dom());
    assert forall|k: u8| #[trigger] keys.contains(k) <==> entries.contains_key(k) by {
        if keys.contains(k) {
            let i = choose|i: int| 0 <= i < keys.len() && keys[i] == k;
            assert(up[up.len() - 1 - i] == k);
            assert(up.contains(k));
        }
        if up.contains(k) {
            let i = choose|i: int| 0 <= i < up.len() && up[i] == k;
            assert(keys[up.len() - 1 - i] == k);
        }
    }
    assert forall|i: int| 0 <= i < keys.len() implies entries.contains_key(#[trigger] keys[i]) by {
        assert(keys.contains(keys[i]));
    }
    groups_bag(entries, keys);
    let f = |rs: u8| (rs, coords_listing(entries[rs]));
    assert(listing(entries) =~= keys.map_values(f));
}

proof fn coords_bag_merged(rs: u8, a: CoordsView, b: CoordsView)
    requires
        a.dom().finite(),
        b.dom().finite(),
    ensures
        merged_coords(a, b).dom().finite(),
        coords_bag(rs, merged_coords(a, b)) == coords_bag(rs, a).add(coords_bag(rs, b)),
{
    let c = merged_coords(a, b);
    assert(c.dom() =~= a.dom().union(b.dom()));
    let u = in_order(c.dom(), num_u32());
    let sa = in_order(a.dom(), num_u32());
    let sb = in_order(b.dom(), num_u32());
    words_in_order(c.dom());
    words_in_order(a.dom());
    words_in_order(b.dom());
    let h = place_bags(rs, c);
    let f = place_bags(rs, a);
    let g = place_bags(rs, b);
    assert forall|k: u32| #[trigger] u.contains(k) <==> sa.contains(k) || sb.contains(k) by {
        assert(c.contains_key(k) <==> a.contains_key(k) || b.contains_key(k));
    }
    assert forall|k: u32| #[trigger] u.contains(k) implies h(k) == (if sa.contains(k) {
        f(k)
    } else {
        Multiset::<GridEntry>::empty()
    }).add(
        if sb.contains(k) {
            g(k)
        } else {
            Multiset::<GridEntry>::empty()
        },
    ) by {
        let p = flat_entries(flat_of(rs, k, ids_at(a, k)));
        let q = flat_entries(flat_of(rs, k, ids_at(b, k)));
        let both = flat_entries(flat_of(rs, k, c[k]));
        assert(both =~= p + q);
        concat_bags(p, q);
        if !a.contains_key(k) {
            empty_bag(p);
        }
        if !b.contains_key(k) {
            empty_bag(q);
        }
    }
    bag_sum_union(u, sa, sb, h, f, g);
}

proof fn coords_bag_empty(rs: u8)
    ensures
        coords_bag(rs, Map::empty()) == Multiset::<GridEntry>::empty(),
{
    let nothing: CoordsView = Map::empty();
    words_in_order(nothing.dom());
    let keys = in_order(nothing.dom(), num_u32());
    if keys.len() > 0 {
        assert(keys.contains(keys[0]));
    }
}

proof fn merged_finite(a: EntriesView, b: EntriesView)
    requires
        is_finite(a),
        is_finite(b),
    ensures
        is_finite(merged(a, b)),
{
    let c = merged(a, b);
    assert(c.dom() =~= a.dom().union(b.dom()));
    assert forall|rs: u8| c.contains_key(rs) implies (#[trigger] c[rs]).dom().finite() by {
        coords_bag_merged(rs, coords_at(a, rs), coords_at(b, rs));
    }
}

/// What was put together holds the grid entries of both.
pub proof fn merging_adds_up(a: EntriesView, b: EntriesView)
    requires
        is_finite(a),
        is_finite(b),
    ensures
        entries_bag(merged(a, b)) == entries_bag(a).add(entries_bag(b)),
{
    let c = merged(a, b);
    merged_finite(a, b);
    entries_bag_is(a);
    entries_bag_is(b);
    entries_bag_is(c);
    let u = in_order(c.dom(), num_u8()).reverse();
    let sa = in_order(a.dom(), num_u8()).reverse();
    let sb = in_order(b.dom(), num_u8()).reverse();
    let h = coords_bags(c);
    let f = coords_bags(a);
    let g = coords_bags(b);
    assert forall|k: u8| #[trigger] u.contains(k) <==> sa.contains(k) || sb.contains(k) by {
        assert(c.contains_key(k) <==> a.contains_key(k) || b.contains_key(k));
    }
    assert forall|k: u8| #[trigger] u.contains(k) implies h(k) == (if sa.contains(k) {
        f(k)
    } else {
        Multiset::<GridEntry>::empty()
    }).add(
        if sb.contains(k) {
            g(k)
        } else {
            Multiset::<GridEntry>::empty()
        },
    ) by {
        coords_bag_merged(k, coords_at(a, k), coords_at(b, k));
        coords_bag_empty(k);
    }
    bag_sum_union(u, sa, sb, h, f, g);
}

proof fn one_key<K>(k: K)
    ensures
        seq![k].to_set() == set![k],
{
    let s = seq![k];
    assert forall|x: K| s.to_set().contains(x) <==> x == k by {
        set_members(s, x);
        assert(s[0] == k);
    }
    assert(s.to_set() =~= set![k]);
}

proof fn one_entry_bag(v: GridEntry)
    ensures
        is_finite(with_entry(Map::empty(), v)),
        entries_bag(with_entry(Map::empty(), v)) == Multiset::singleton(quantized(v)),
{
    let none: EntriesView = Map::empty();
    let nothing: CoordsView = Map::empty();
    let rs = relev_score(v.relev, v.score);
    let m = morton_code(v.x, v.y);
    let id = packed_id(v.id, v.source_phrase_hash);
    let one = with_entry(none, v);
    assert(coords_at(none, rs) =~= nothing);
    let coords = nothing.insert(m, seq![id]);
    assert(ids_at(nothing, m).push(id) =~= seq![id]);
    assert(one =~= none.insert(rs, coords));
    assert(one.dom() =~= set![rs]);
    assert(coords.dom() =~= set![m]);
    assert(is_finite(one));
    entries_bag_is(one);
    let ks = seq![rs];
    one_key(rs);
    in_order_is_unique(ks, num_u8());
    assert(ks.reverse() =~= ks);
    let ms = seq![m];
    one_key(m);
    in_order_is_unique(ms, num_u32());
    let e = flat_entries(flat_of(rs, m, coords[m]));
    morton_round_trip(v.x, v.y);
    pack_round_trip(v.id, v.source_phrase_hash);
    relev_score_round_trip(v.relev, v.score);
    assert(e =~= seq![quantized(v)]);
    broadcast use vstd::seq_lib::group_to_multiset_ensures;

    assert(e.drop_last() =~= Seq::empty());
    empty_bag(Seq::<GridEntry>::empty());
    assert(Seq::<GridEntry>::empty().push(quantized(v)) =~= e);
    assert(e.to_multiset() =~= Multiset::singleton(quantized(v)));
    let f = place_bags(rs, coords);
    assert(ms.drop_last() =~= Seq::empty());
    assert(bag_sum(ms.drop_last(), f) == Multiset::<GridEntry>::empty());
    assert(f(m) == e.to_multiset());
    assert(bag_sum(ms, f) =~= Multiset::singleton(quantized(v)));
    let g = coords_bags(one);
    assert(ks.drop_last() =~= Seq::empty());
    assert(bag_sum(ks.drop_last(), g) == Multiset::<GridEntry>::empty());
    assert(g(rs) == coords_bag(rs, coords));
    assert(bag_sum(ks, g) =~= Multiset::singleton(quantized(v)));
}

/// What is built of grid entries gives all of them back, quantized, each as often as it was added.
pub proof fn entries_come_back(values: Seq<GridEntry>)
    ensures
        is_finite(entries_of(values)),
        entries_bag(entries_of(values)) == values.map_values(
            |v: GridEntry| quantized(v),
        ).to_multiset(),
    decreases values.len(),
{
    let q = |v: GridEntry| quantized(v);
    if values.len() == 0 {
        let none: EntriesView = Map::empty();
        assert(is_finite(none));
        entries_bag_is(none);
        let keys = in_order(none.dom(), num_u8()).reverse();
        if keys.len() > 0 {
            assert(keys.contains(keys[0]));
        }
        empty_bag(values.map_values(q));
    } else {
        let rest = values.drop_last();
        let v = values.last();
        entries_come_back(rest);
        one_entry_bag(v);
        with_entry_merges(entries_of(rest), v);
        merged_finite(entries_of(rest), with_entry(Map::empty(), v));
        merging_adds_up(entries_of(rest), with_entry(Map::empty(), v));
        broadcast use vstd::seq_lib::group_to_multiset_ensures;

        assert(values.map_values(q) =~= rest.map_values(q).push(quantized(v)));
        assert(entries_bag(entries_of(values)) =~= values.map_values(q).to_multiset());
    }
}

/// The grid entries of the items of a language, in whichever order.
pub open spec fn language_bag(items: Seq<Item>, lang: LanguageSet) -> Multiset<GridEntry>
    decreases items.len(),
{
    if items.len() == 0 {
        Multiset::empty()
    } else if items.last().0.lang_set == lang {
        language_bag(items.drop_last(), lang).add(entries_bag(items.last().1))
    } else {
        language_bag(items.drop_last(), lang)
    }
}

/// A bin holds in each language the grid entries of its phrases in that language, and no others.
pub proof fn bins_hold_their_phrases(items: Seq<Item>, lang: LanguageSet)
    requires
        forall|i: int| 0 <= i < items.len() ==> is_finite((#[trigger] items[i]).1),
    ensures
        is_finite(aggregated(items, lang)),
        entries_bag(aggregated(items, lang)) == language_bag(items, lang),
    decreases items.len(),
{
    if items.len() == 0 {
        entries_come_back(Seq::empty());
        empty_bag(Seq::<GridEntry>::empty().map_values(|v: GridEntry| quantized(v)));
    } else {
        let rest = items.drop_last();
        assert forall|i: int| 0 <= i < rest.len() implies is_finite((#[trigger] rest[i]).1) by {
            assert(rest[i] == items[i]);
        }
        bins_hold_their_phrases(rest, lang);
        assert(is_finite(items[items.len() - 1].1));
        if items.last().0.lang_set == lang {
            merged_finite(aggregated(rest, lang), items.last().1);
            merging_adds_up(aggregated(rest, lang), items.last().1);
        }
    }
}

} // verus!
