//! Keys in ascending order.

use std::collections::HashMap;
use vstd::prelude::*;
use vstd::std_specs::iter::IteratorSpec;

use crate::outside::sort_keys;

verus! {

broadcast use vstd::std_specs::hash::group_hash_axioms;

/// Each key of `s` has a lower number than those behind it.
pub open spec fn ascending<K>(s: Seq<K>, num: spec_fn(K) -> int) -> bool {
    forall|i: int, j: int| 0 <= i < j < s.len() ==> num(#[trigger] s[i]) < num(#[trigger] s[j])
}

/// The keys in the ascending order of their numbers, each once.
pub open spec fn in_order<K>(keys: Set<K>, num: spec_fn(K) -> int) -> Seq<K> {
    choose|s: Seq<K>| ascending(s, num) && s.to_set() == keys
}

pub(crate) proof fn set_members<K>(s: Seq<K>, x: K)
    ensures
        s.to_set().contains(x) <==> s.contains(x),
{
}

/// Where the element `a[i]` stands in a sequence of the same elements.
pub proof fn place_in<A>(a: Seq<A>, b: Seq<A>, i: int) -> (j: int)
    requires
        a.to_multiset() == b.to_multiset(),
        0 <= i < a.len(),
    ensures
        0 <= j < b.len(),
        b[j] == a[i],
{
    broadcast use vstd::seq_lib::group_to_multiset_ensures;

    assert(a.contains(a[i]));
    assert(a.to_multiset().count(a[i]) > 0);
    assert(b.contains(a[i]));
    choose|j: int| 0 <= j < b.len() && b[j] == a[i]
}

/// Two ascending sequences of the same keys are the same sequence.
pub proof fn ascending_is_unique<K>(a: Seq<K>, b: Seq<K>, num: spec_fn(K) -> int)
    requires
        ascending(a, num),
        ascending(b, num),
        a.to_set() == b.to_set(),
    ensures
        a == b,
    decreases a.len(),
{
    assert forall|x: K| a.contains(x) <==> b.contains(x) by {
        set_members(a, x);
        set_members(b, x);
    }
    if a.len() == 0 {
        if b.len() > 0 {
            assert(b.contains(b[0]));
        }
        assert(a =~= b);
    } else if b.len() == 0 {
        assert(a.contains(a[0]));
    } else {
        assert(a.contains(a.last()) && b.contains(b.last()));
        let i = choose|i: int| 0 <= i < a.len() && a[i] == b.last();
        let j = choose|j: int| 0 <= j < b.len() && b[j] == a.last();
        assert(num(a[i]) <= num(a.last()) && num(b[j]) <= num(b.last()));
        assert(i == a.len() - 1);
        let ap = a.drop_last();
        let bp = b.drop_last();
        assert forall|x: K| ap.contains(x) <==> bp.contains(x) by {
            if ap.contains(x) {
                let i = choose|i: int| 0 <= i < ap.len() && ap[i] == x;
                assert(a[i] == x && a.contains(x) && num(x) < num(a.last()));
                let j = choose|j: int| 0 <= j < b.len() && b[j] == x;
                assert(bp[j] == x);
            }
            if bp.contains(x) {
                let i = choose|i: int| 0 <= i < bp.len() && bp[i] == x;
                assert(b[i] == x && b.contains(x) && num(x) < num(b.last()));
                let j = choose|j: int| 0 <= j < a.len() && a[j] == x;
                assert(ap[j] == x);
            }
        }
        assert forall|x: K| ap.to_set().contains(x) <==> bp.to_set().contains(x) by {
            set_members(ap, x);
            set_members(bp, x);
        }
        assert(ap.to_set() =~= bp.to_set());
        ascending_is_unique(ap, bp, num);
        assert(a =~= ap.push(a.last()));
        assert(b =~= bp.push(b.last()));
    }
}

/// An ascending sequence is its own keys in order.
pub proof fn in_order_is_unique<K>(s: Seq<K>, num: spec_fn(K) -> int)
    requires
        ascending(s, num),
    ensures
        in_order(s.to_set(), num) == s,
{
    let o = in_order(s.to_set(), num);
    assert(ascending(o, num) && o.to_set() == s.to_set());
    ascending_is_unique(o, s, num);
}

proof fn listed<K>(keys: Set<K>) -> (s: Seq<K>)
    requires
        keys.finite(),
    ensures
        s.to_set() == keys,
        s.no_duplicates(),
    decreases keys.len(),
{
    if keys.len() == 0 {
        let s = Seq::<K>::empty();
        assert(s.to_set() =~= keys);
        s
    } else {
        let c = keys.choose();
        let rest = listed(keys.remove(c));
        let s = rest.push(c);
        assert forall|x: K| s.to_set().contains(x) <==> keys.contains(x) by {
            set_members(s, x);
            set_members(rest, x);
            if rest.contains(x) {
                let i = choose|i: int| 0 <= i < rest.len() && rest[i] == x;
                assert(s[i] == x);
            }
            if x == c {
                assert(s[rest.len() as int] == x);
            }
        }
        assert(s.to_set() =~= keys);
        assert(!rest.contains(c)) by {
            set_members(rest, c);
        }
        s
    }
}

/// Every finite set of keys with different numbers can be put in order.
pub proof fn in_order_exists<K>(keys: Set<K>, num: spec_fn(K) -> int)
    requires
        keys.finite(),
        forall|a: K, b: K| #[trigger] num(a) == #[trigger] num(b) ==> a == b,
    ensures
        ascending(in_order(keys, num), num),
        in_order(keys, num).to_set() == keys,
        in_order(keys, num).len() == keys.len(),
        in_order(keys, num).no_duplicates(),
{
    let less = |a: K, b: K| num(a) <= num(b);
    assert(vstd::relations::total_ordering(less)) by {
        assert forall|a: K, b: K| #[trigger] less(a, b) && #[trigger] less(b, a) implies a == b by {
            assert(num(a) == num(b));
        }
    }
    let list = listed(keys);
    let sorted = list.sort_by(less);
    list.lemma_sort_by_ensures(less);
    broadcast use vstd::seq_lib::group_to_multiset_ensures;

    list.lemma_multiset_has_no_duplicates();
    sorted.lemma_multiset_has_no_duplicates_conv();
    assert forall|x: K| sorted.to_set().contains(x) <==> list.to_set().contains(x) by {
        set_members(sorted, x);
        set_members(list, x);
        assert(sorted.to_multiset().count(x) == list.to_multiset().count(x));
    }
    assert(sorted.to_set() =~= keys);
    assert forall|i: int, j: int| 0 <= i < j < sorted.len() implies num(#[trigger] sorted[i]) < num(
        #[trigger] sorted[j],
    ) by {
        assert(less(sorted[i], sorted[j]));
        assert(sorted[i] != sorted[j]);
    }
    assert(ascending(sorted, num));
    in_order_is_unique(sorted, num);
    sorted.unique_seq_to_set();
}

/// The number of a key.
pub open spec fn num_u8() -> spec_fn(u8) -> int {
    |k: u8| k as int
}

/// The keys of a map in ascending order.
pub(crate) fn byte_keys<V>(m: &HashMap<u8, V>) -> (keys: Vec<u8>)
    ensures
        keys@ == in_order(m@.dom(), num_u8()),
        ascending(keys@, num_u8()),
        keys@.to_set() == m@.dom(),
{
    let mut wide: Vec<u128> = Vec::new();
    let ghost list = m.keys().remaining().unref();
    for k in it: m.keys()
        invariant
            it.seq().unref() == list,
            wide@.len() == it.index(),
            forall|i: int|
                #![trigger list[i]]
                #![trigger wide@[i]]
                0 <= i < wide@.len() ==> wide@[i] == list[i],
    {
        wide.push(*k as u128);
    }
    let ghost before = wide@;
    sort_keys(&mut wide);
    proof {
        broadcast use vstd::seq_lib::group_to_multiset_ensures;

        assert(wide@.to_multiset().len() == wide@.len());
        assert(before.to_multiset().len() == before.len());
        assert(list.no_duplicates());
        assert(before.no_duplicates());
        before.lemma_multiset_has_no_duplicates();
        wide@.lemma_multiset_has_no_duplicates_conv();
        assert forall|i: int| 0 <= i < wide@.len() implies #[trigger] wide@[i] <= u8::MAX by {
            let q = place_in(wide@, before, i);
            assert(before[q] == list[q]);
        }
    }
    let mut keys: Vec<u8> = Vec::new();
    let mut i: usize = 0;
    while i < wide.len()
        invariant
            i <= wide@.len(),
            keys@.len() == i,
            forall|j: int| 0 <= j < wide@.len() ==> #[trigger] wide@[j] <= u8::MAX,
            forall|j: int| 0 <= j < i ==> #[trigger] keys@[j] == wide@[j],
        decreases wide@.len() - i,
    {
        keys.push(wide[i] as u8);
        i += 1;
    }
    proof {
        assert(ascending(keys@, num_u8()));
        assert forall|x: u8| keys@.to_set().contains(x) <==> m@.dom().contains(x) by {
            set_members(keys@, x);
            set_members(list, x);
            if keys@.contains(x) {
                let j = choose|j: int| 0 <= j < keys@.len() && keys@[j] == x;
                assert(wide@[j] == x);
                let q = place_in(wide@, before, j);
                assert(list[q] == x);
            }
            if list.contains(x) {
                let q = choose|q: int| 0 <= q < list.len() && list[q] == x;
                assert(before[q] == x as u128);
                let j = place_in(before, wide@, q);
                assert(keys@[j] == x);
            }
        }
        assert(keys@.to_set() =~= m@.dom());
        in_order_is_unique(keys@, num_u8());
    }
    keys
}

/// The number of a key.
pub open spec fn num_u32() -> spec_fn(u32) -> int {
    |k: u32| k as int
}

/// The keys of a map in ascending order.
pub(crate) fn word_keys<V>(m: &HashMap<u32, V>) -> (keys: Vec<u32>)
    ensures
        keys@ == in_order(m@.dom(), num_u32()),
        ascending(keys@, num_u32()),
        keys@.to_set() == m@.dom(),
{
    let mut wide: Vec<u128> = Vec::new();
    let ghost list = m.keys().remaining().unref();
    for k in it: m.keys()
        invariant
            it.seq().unref() == list,
            wide@.len() == it.index(),
            forall|i: int|
                #![trigger list[i]]
                #![trigger wide@[i]]
                0 <= i < wide@.len() ==> wide@[i] == list[i],
    {
        wide.push(*k as u128);
    }
    let ghost before = wide@;
    sort_keys(&mut wide);
    proof {
        broadcast use vstd::seq_lib::group_to_multiset_ensures;

        assert(wide@.to_multiset().len() == wide@.len());
        assert(before.to_multiset().len() == before.len());
        assert(list.no_duplicates());
        assert(before.no_duplicates());
        before.lemma_multiset_has_no_duplicates();
        wide@.lemma_multiset_has_no_duplicates_conv();
        assert forall|i: int| 0 <= i < wide@.len() implies #[trigger] wide@[i] <= u32::MAX by {
            let q = place_in(wide@, before, i);
            assert(before[q] == list[q]);
        }
    }
    let mut keys: Vec<u32> = Vec::new();
    let mut i: usize = 0;
    while i < wide.len()
        invariant
            i <= wide@.len(),
            keys@.len() == i,
            forall|j: int| 0 <= j < wide@.len() ==> #[trigger] wide@[j] <= u32::MAX,
            forall|j: int| 0 <= j < i ==> #[trigger] keys@[j] == wide@[j],
        decreases wide@.len() - i,
    {
        keys.push(wide[i] as u32);
        i += 1;
    }
    proof {
        assert(ascending(keys@, num_u32()));
        assert forall|x: u32| keys@.to_set().contains(x) <==> m@.dom().contains(x) by {
            set_members(keys@, x);
            set_members(list, x);
            if keys@.contains(x) {
                let j = choose|j: int| 0 <= j < keys@.len() && keys@[j] == x;
                assert(wide@[j] == x);
                let q = place_in(wide@, before, j);
                assert(list[q] == x);
            }
            if list.contains(x) {
                let q = choose|q: int| 0 <= q < list.len() && list[q] == x;
                assert(before[q] == x as u128);
                let j = place_in(before, wide@, q);
                assert(keys@[j] == x);
            }
        }
        assert(keys@.to_set() =~= m@.dom());
        in_order_is_unique(keys@, num_u32());
    }
    keys
}

/// The number of a key.
pub open spec fn num_u64() -> spec_fn(u64) -> int {
    |k: u64| k as int
}

/// The keys of a map in ascending order.
pub(crate) fn long_keys<V>(m: &HashMap<u64, V>) -> (keys: Vec<u64>)
    ensures
        keys@ == in_order(m@.dom(), num_u64()),
        ascending(keys@, num_u64()),
        keys@.to_set() == m@.dom(),
{
    let mut wide: Vec<u128> = Vec::new();
    let ghost list = m.keys().remaining().unref();
    for k in it: m.keys()
        invariant
            it.seq().unref() == list,
            wide@.len() == it.index(),
            forall|i: int|
                #![trigger list[i]]
                #![trigger wide@[i]]
                0 <= i < wide@.len() ==> wide@[i] == list[i],
    {
        wide.push(*k as u128);
    }
    let ghost before = wide@;
    sort_keys(&mut wide);
    proof {
        broadcast use vstd::seq_lib::group_to_multiset_ensures;

        assert(wide@.to_multiset().len() == wide@.len());
        assert(before.to_multiset().len() == before.len());
        assert(list.no_duplicates());
        assert(before.no_duplicates());
        before.lemma_multiset_has_no_duplicates();
        wide@.lemma_multiset_has_no_duplicates_conv();
        assert forall|i: int| 0 <= i < wide@.len() implies #[trigger] wide@[i] <= u64::MAX by {
            let q = place_in(wide@, before, i);
            assert(before[q] == list[q]);
        }
    }
    let mut keys: Vec<u64> = Vec::new();
    let mut i: usize = 0;
    while i < wide.len()
        invariant
            i <= wide@.len(),
            keys@.len() == i,
            forall|j: int| 0 <= j < wide@.len() ==> #[trigger] wide@[j] <= u64::MAX,
            forall|j: int| 0 <= j < i ==> #[trigger] keys@[j] == wide@[j],
        decreases wide@.len() - i,
    {
        keys.push(wide[i] as u64);
        i += 1;
    }
    proof {
        assert(ascending(keys@, num_u64()));
        assert forall|x: u64| keys@.to_set().contains(x) <==> m@.dom().contains(x) by {
            set_members(keys@, x);
            set_members(list, x);
            if keys@.contains(x) {
                let j = choose|j: int| 0 <= j < keys@.len() && keys@[j] == x;
                assert(wide@[j] == x);
                let q = place_in(wide@, before, j);
                assert(list[q] == x);
            }
            if list.contains(x) {
                let q = choose|q: int| 0 <= q < list.len() && list[q] == x;
                assert(before[q] == x as u128);
                let j = place_in(before, wide@, q);
                assert(keys@[j] == x);
            }
        }
        assert(keys@.to_set() =~= m@.dom());
        in_order_is_unique(keys@, num_u64());
    }
    keys
}

/// The number of a key.
pub open spec fn num_u128() -> spec_fn(u128) -> int {
    |k: u128| k as int
}

/// The keys of a map in ascending order.
pub(crate) fn wide_keys<V>(m: &HashMap<u128, V>) -> (keys: Vec<u128>)
    ensures
        keys@ == in_order(m@.dom(), num_u128()),
        ascending(keys@, num_u128()),
        keys@.to_set() == m@.dom(),
{
    let mut wide: Vec<u128> = Vec::new();
    let ghost list = m.keys().remaining().unref();
    for k in it: m.keys()
        invariant
            it.seq().unref() == list,
            wide@.len() == it.index(),
            forall|i: int|
                #![trigger list[i]]
                #![trigger wide@[i]]
                0 <= i < wide@.len() ==> wide@[i] == list[i],
    {
        wide.push(*k as u128);
    }
    let ghost before = wide@;
    sort_keys(&mut wide);
    proof {
        broadcast use vstd::seq_lib::group_to_multiset_ensures;

        assert(wide@.to_multiset().len() == wide@.len());
        assert(before.to_multiset().len() == before.len());
        assert(list.no_duplicates());
        assert(before.no_duplicates());
        before.lemma_multiset_has_no_duplicates();
        wide@.lemma_multiset_has_no_duplicates_conv();
        assert forall|i: int| 0 <= i < wide@.len() implies #[trigger] wide@[i] <= u128::MAX by {
            let q = place_in(wide@, before, i);
            assert(before[q] == list[q]);
        }
    }
    let mut keys: Vec<u128> = Vec::new();
    let mut i: usize = 0;
    while i < wide.len()
        invariant
            i <= wide@.len(),
            keys@.len() == i,
            forall|j: int| 0 <= j < wide@.len() ==> #[trigger] wide@[j] <= u128::MAX,
            forall|j: int| 0 <= j < i ==> #[trigger] keys@[j] == wide@[j],
        decreases wide@.len() - i,
    {
        keys.push(wide[i] as u128);
        i += 1;
    }
    proof {
        assert(ascending(keys@, num_u128()));
        assert forall|x: u128| keys@.to_set().contains(x) <==> m@.dom().contains(x) by {
            set_members(keys@, x);
            set_members(list, x);
            if keys@.contains(x) {
                let j = choose|j: int| 0 <= j < keys@.len() && keys@[j] == x;
                assert(wide@[j] == x);
                let q = place_in(wide@, before, j);
                assert(list[q] == x);
            }
            if list.contains(x) {
                let q = choose|q: int| 0 <= q < list.len() && list[q] == x;
                assert(before[q] == x as u128);
                let j = place_in(before, wide@, q);
                assert(keys@[j] == x);
            }
        }
        assert(keys@.to_set() =~= m@.dom());
        in_order_is_unique(keys@, num_u128());
    }
    keys
}

} // verus!
