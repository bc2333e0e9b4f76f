//! Ranking keys: the one order by which entries, contexts and search steps are compared.

use vstd::multiset::Multiset;
use vstd::prelude::*;

use crate::order::place_in;
use crate::outside::sort_ranks;

verus! {

/// A key by which something is ranked, compared component by component. The last component is the
/// slot under which the ranked value is found again; it also tells equal ranks apart.
pub type RankKey = (i128, u64, u64, u16, u16, u32, usize);

/// `a` ranks below `b`, the slots left out of account.
pub open spec fn rank_below(a: RankKey, b: RankKey) -> bool {
    if a.0 != b.0 {
        a.0 < b.0
    } else if a.1 != b.1 {
        a.1 < b.1
    } else if a.2 != b.2 {
        a.2 < b.2
    } else if a.3 != b.3 {
        a.3 < b.3
    } else if a.4 != b.4 {
        a.4 < b.4
    } else {
        a.5 < b.5
    }
}

/// `a` and `b` have the same rank, the slots left out of account.
pub open spec fn rank_same(a: RankKey, b: RankKey) -> bool {
    a.0 == b.0 && a.1 == b.1 && a.2 == b.2 && a.3 == b.3 && a.4 == b.4 && a.5 == b.5
}

/// The order of the keys as tuples: by rank, then by slot.
pub open spec fn rank_le(a: RankKey, b: RankKey) -> bool {
    rank_below(a, b) || (rank_same(a, b) && a.6 <= b.6)
}

/// Whether `a` ranks below `b`, the slots left out of account.
pub(crate) fn ranks_below(a: &RankKey, b: &RankKey) -> (r: bool)
    ensures
        r == rank_below(*a, *b),
{
    if a.0 != b.0 {
        a.0 < b.0
    } else if a.1 != b.1 {
        a.1 < b.1
    } else if a.2 != b.2 {
        a.2 < b.2
    } else if a.3 != b.3 {
        a.3 < b.3
    } else if a.4 != b.4 {
        a.4 < b.4
    } else {
        a.5 < b.5
    }
}

/// `k` is the smallest key of `keys`.
pub open spec fn is_lowest(keys: Multiset<RankKey>, k: RankKey) -> bool {
    keys.contains(k) && forall|o: RankKey| #[trigger] keys.contains(o) ==> rank_le(k, o)
}

/// `k` is the greatest key of `keys`.
pub open spec fn is_highest(keys: Multiset<RankKey>, k: RankKey) -> bool {
    keys.contains(k) && forall|o: RankKey| #[trigger] keys.contains(o) ==> rank_le(o, k)
}

/// The smallest key of `keys`.
pub open spec fn lowest(keys: Multiset<RankKey>) -> RankKey {
    choose|k: RankKey| is_lowest(keys, k)
}

/// The greatest key of `keys`.
pub open spec fn highest(keys: Multiset<RankKey>) -> RankKey {
    choose|k: RankKey| is_highest(keys, k)
}

/// The order of the keys is total: any two keys compare one way or the other, and both ways only
/// if they are the same key.
pub proof fn rank_order_is_total(a: RankKey, b: RankKey)
    ensures
        rank_le(a, b) || rank_le(b, a),
        rank_le(a, b) && rank_le(b, a) ==> a == b,
{
}

/// The order of the keys is transitive.
pub proof fn rank_order_is_transitive(a: RankKey, b: RankKey, c: RankKey)
    requires
        rank_le(a, b),
        rank_le(b, c),
    ensures
        rank_le(a, c),
{
}

/// A smallest key is the smallest key.
pub proof fn lowest_is_unique(keys: Multiset<RankKey>, k: RankKey)
    requires
        is_lowest(keys, k),
    ensures
        lowest(keys) == k,
{
    let l = lowest(keys);
    assert(is_lowest(keys, l));
    assert(rank_le(k, l) && rank_le(l, k));
    rank_order_is_total(k, l);
}

/// A greatest key is the greatest key.
pub proof fn highest_is_unique(keys: Multiset<RankKey>, k: RankKey)
    requires
        is_highest(keys, k),
    ensures
        highest(keys) == k,
{
    let h = highest(keys);
    assert(is_highest(keys, h));
    assert(rank_le(k, h) && rank_le(h, k));
    rank_order_is_total(k, h);
}

/// Every non-empty collection of keys has a smallest and a greatest key.
pub proof fn extremes_exist(keys: Multiset<RankKey>)
    requires
        keys.len() > 0,
    ensures
        is_lowest(keys, lowest(keys)),
        is_highest(keys, highest(keys)),
    decreases keys.len(),
{
    broadcast use vstd::multiset::group_multiset_axioms;

    let c = keys.choose();
    assert(keys.contains(c));
    let rest = keys.remove(c);
    assert(rest.insert(c) =~= keys);
    if rest.len() == 0 {
        assert forall|o: RankKey| #[trigger] keys.contains(o) implies o == c by {
            if o != c {
                assert(rest.contains(o));
                assert(rest.remove(o).len() == rest.len() - 1);
            }
        }
        assert(is_lowest(keys, c) && is_highest(keys, c));
    } else {
        extremes_exist(rest);
        let l = lowest(rest);
        let h = highest(rest);
        let low = if rank_le(l, c) {
            l
        } else {
            c
        };
        let high = if rank_le(c, h) {
            h
        } else {
            c
        };
        assert forall|o: RankKey| #[trigger] keys.contains(o) implies rank_le(low, o) && rank_le(
            o,
            high,
        ) by {
            if o != c {
                assert(rest.contains(o));
            }
        }
        assert(rest.contains(l) && rest.contains(h));
        assert(is_lowest(keys, low) && is_highest(keys, high));
    }
}

/// `order` lists the places of `keys` by ascending key, each once.
pub open spec fn is_rank_order(keys: Seq<RankKey>, order: Seq<usize>) -> bool {
    &&& order.len() == keys.len()
    &&& order.no_duplicates()
    &&& forall|a: int| 0 <= a < order.len() ==> #[trigger] order[a] < keys.len()
    &&& forall|a: int, b: int|
        0 <= a < b < order.len() ==> rank_le(
            keys[#[trigger] order[a] as int],
            keys[#[trigger] order[b] as int],
        )
}

/// Every place occurs in the order.
pub proof fn rank_order_has_all(keys: Seq<RankKey>, order: Seq<usize>, p: int) -> (a: int)
    requires
        is_rank_order(keys, order),
        0 <= p < keys.len() <= usize::MAX,
    ensures
        0 <= a < order.len(),
        order[a] == p,
{
    let wide = order.map_values(|u: usize| u as int);
    assert(wide.no_duplicates()) by {
        assert forall|a: int, b: int| 0 <= a < b < wide.len() implies wide[a] != wide[b] by {
            assert(order[a] != order[b]);
        }
    }
    let all = vstd::set_lib::set_int_range(0, keys.len() as int);
    vstd::set_lib::lemma_int_range(0, keys.len() as int);
    wide.unique_seq_to_set();
    assert(wide.to_set().subset_of(all)) by {
        assert forall|x: int| wide.to_set().contains(x) implies all.contains(x) by {
            let a = choose|a: int| 0 <= a < wide.len() && wide[a] == x;
            assert(order[a] < keys.len());
        }
    }
    vstd::set_lib::lemma_subset_equality(wide.to_set(), all);
    assert(wide.to_set().contains(p));
    let a = choose|a: int| 0 <= a < wide.len() && wide[a] == p;
    assert(order[a] == p);
    a
}

/// The places of the keys by ascending key. Each key carries its place as its slot.
pub(crate) fn order_by_rank(keys: Vec<RankKey>) -> (order: Vec<usize>)
    requires
        forall|i: int| 0 <= i < keys@.len() ==> (#[trigger] keys@[i]).6 == i,
    ensures
        is_rank_order(keys@, order@),
{
    let ghost before = keys@;
    let mut sorted: Vec<RankKey> = keys;
    sort_ranks(&mut sorted);
    let mut order: Vec<usize> = Vec::new();
    let mut i: usize = 0;
    proof {
        broadcast use vstd::seq_lib::group_to_multiset_ensures;

        assert(sorted@.to_multiset().len() == sorted@.len());
        assert(before.to_multiset().len() == before.len());
        assert(before.no_duplicates()) by {
            assert forall|a: int, b: int| 0 <= a < b < before.len() implies before[a]
                != before[b] by {
                assert(before[a].6 == a && before[b].6 == b);
            }
        }
        before.lemma_multiset_has_no_duplicates();
        sorted@.lemma_multiset_has_no_duplicates_conv();
    }
    while i < sorted.len()
        invariant
            i <= sorted@.len() == before.len(),
            before.to_multiset() == sorted@.to_multiset(),
            forall|j: int| 0 <= j < before.len() ==> (#[trigger] before[j]).6 == j,
            order@.len() == i,
            forall|j: int|
                #![trigger order@[j]]
                0 <= j < i ==> order@[j] < before.len() && before[order@[j] as int] == sorted@[j],
        decreases sorted@.len() - i,
    {
        proof {
            let q = place_in(sorted@, before, i as int);
            assert(before[q].6 == q);
        }
        order.push(sorted[i].6);
        i += 1;
    }
    proof {
        assert forall|a: int, b: int| 0 <= a < b < order@.len() implies order@[a] != order@[b] by {
            assert(sorted@[a] != sorted@[b]);
        }
    }
    order
}

} // verus!
