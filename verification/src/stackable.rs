//! Stackable tree system for multi-phrase query combination.
//!
//! Builds a tree of valid phrase combinations that can be spatially stacked.
//! For example, "Main" + "Street" + "Seattle" creates a tree of all valid
//! combinations.

use fixedbitset::FixedBitSet;
use std::collections::HashMap;
use vstd::prelude::*;

use crate::arena::{
    given_up, index_known, is_added, is_beaten, with_node_parts, ArenaManager, Nodes, StackableNode,
    LEAF_SOFT_MAX,
};
use crate::combinations::no_parts_make_no_nodes;
use crate::common::{MatchKey, MatchPhrase};
use crate::order::{
    ascending, in_order, in_order_exists, in_order_is_unique, num_u32, place_in, word_keys,
};
use crate::outside::{bitset_bits, bitset_len, clone_bits, sort_keys, NodeIndex};
use crate::store::GridStore;

verus! {

broadcast use vstd::std_specs::hash::group_hash_axioms;

/// Maximum number of indexes.
pub const MAX_INDEXES: usize = 128;

/// The relevance, in trillionths, that a combination must be able to reach.
pub const MIN_STACK_RELEV: i128 = 250_000_000_000;

/// What a billionth of weight is worth in trillionths of relevance.
pub const RELEV_PER_WEIGHT: i128 = 1000;

/// A key to look up, with what restricts the lookup.
#[derive(Copy, Clone, Debug, PartialEq, Eq)]
pub struct MatchKeyWithId {
    pub key: MatchKey,
    /// Identifies the key among all keys of a query
    pub id: u32,
    /// Only matches near the proximity point are wanted
    pub nearby_only: bool,
    /// Only matches within these bounds are wanted
    pub bounds: Option<[u16; 4]>,
    /// Number of letters that the phrase consists of
    pub phrase_length: usize,
}

impl Default for MatchKeyWithId {
    fn default() -> (key: MatchKeyWithId)
        ensures
            key.key.match_phrase == MatchPhrase::Exact(0),
            key.key.lang_set == 0,
            key.id == 0,
            !key.nearby_only,
            key.bounds is None,
            key.phrase_length == 0,
    {
        MatchKeyWithId {
            key: MatchKey { match_phrase: MatchPhrase::Exact(0), lang_set: 0 },
            id: 0,
            nearby_only: false,
            bounds: None,
            phrase_length: 0,
        }
    }
}

/// A part of a query: the keys that it matches in an index.
pub struct PhrasematchSubquery<'a> {
    /// The index
    pub store: &'a GridStore,
    /// The number of the index
    pub idx: u16,
    /// The indexes that this one can not be combined with
    pub non_overlapping_indexes: FixedBitSet,
    /// The share of the query that this part makes up, in billionths
    pub weight: u32,
    pub match_keys: Vec<MatchKeyWithId>,
    /// The words of the query that this part covers, one bit each
    pub mask: u32,
}

// ---------------------------------------------------------------------------------------------
// Bins
// ---------------------------------------------------------------------------------------------

/// The parts of a query of one index type, by their place in the list of parts.
pub struct BinView {
    /// The parts in order
    pub members: Seq<usize>,
    /// The greatest relevance that one of them can have
    pub max: int,
}

struct PhrasematchBin {
    phrasematches: Vec<usize>,
    max_relev: i128,
    max_relev_after_this: i128,
}

impl View for PhrasematchBin {
    type V = BinView;

    closed spec fn view(&self) -> BinView {
        BinView { members: self.phrasematches@, max: self.max_relev as int }
    }
}

/// The greatest relevance of a part, in trillionths.
pub open spec fn part_relev(parts: Seq<PhrasematchSubquery>, p: usize) -> int {
    parts[p as int].weight * RELEV_PER_WEIGHT
}

/// The type of the index of a part.
pub open spec fn part_type(parts: Seq<PhrasematchSubquery>, p: int) -> u32 {
    parts[p].store.type_id as u32
}

/// The index types that occur.
pub open spec fn part_types(parts: Seq<PhrasematchSubquery>) -> Set<u32> {
    Set::new(|t: u32| exists|p: int| 0 <= p < parts.len() && #[trigger] part_type(parts, p) == t)
}

/// The parts of an index type.
pub open spec fn parts_of_type(parts: Seq<PhrasematchSubquery>, t: u32) -> Set<usize> {
    Set::new(|p: usize| p < parts.len() && part_type(parts, p as int) == t)
}

/// The number by which the parts of a bin are ordered: by descending weight, then by index, then
/// by place.
pub open spec fn part_num(parts: Seq<PhrasematchSubquery>) -> spec_fn(usize) -> int {
    |p: usize|
        ((u32::MAX - parts[p as int].weight) * 0x1_0000 + parts[p as int].idx)
            * 0x1_0000_0000_0000_0000 + p
}

/// The greatest relevance of the parts, none being none.
pub open spec fn greatest_relev(parts: Seq<PhrasematchSubquery>, members: Seq<usize>) -> int
    decreases members.len(),
{
    if members.len() == 0 {
        0
    } else {
        let before = greatest_relev(parts, members.drop_last());
        if part_relev(parts, members.last()) > before {
            part_relev(parts, members.last())
        } else {
            before
        }
    }
}

/// The bin of an index type.
pub open spec fn bin_of_type(parts: Seq<PhrasematchSubquery>, t: u32) -> BinView {
    let members = in_order(parts_of_type(parts, t), part_num(parts));
    BinView { members, max: greatest_relev(parts, members) }
}

/// The bins of all index types, in the order of the types.
pub open spec fn bins_of(parts: Seq<PhrasematchSubquery>) -> Seq<BinView> {
    in_order(part_types(parts), num_u32()).map_values(|t: u32| bin_of_type(parts, t))
}

/// The relevance that the bins from `j` on can add up to.
pub open spec fn relev_from(bins: Seq<BinView>, j: int) -> int
    decreases bins.len() - j,
{
    if j >= bins.len() {
        0
    } else {
        bins[j].max + relev_from(bins, j + 1)
    }
}

/// The bins hold parts, in their order.
pub open spec fn bins_fit(parts: Seq<PhrasematchSubquery>, bins: Seq<BinView>) -> bool {
    forall|j: int|
        0 <= j < bins.len() ==> ascending((#[trigger] bins[j]).members, part_num(parts)) && 0
            <= bins[j].max <= 0x400_0000_0000 && forall|q: int|
            0 <= q < bins[j].members.len() ==> (#[trigger] bins[j].members[q]) < parts.len()
                && part_relev(parts, bins[j].members[q]) <= bins[j].max
}

spec fn bins_view(bins: Seq<PhrasematchBin>) -> Seq<BinView> {
    bins.map_values(|b: PhrasematchBin| b@)
}

/// Each bin knows what the bins behind it can add up to.
spec fn sums_fit(bins: Seq<PhrasematchBin>) -> bool {
    forall|j: int|
        0 <= j < bins.len() ==> (#[trigger] bins[j]).max_relev_after_this == relev_from(
            bins_view(bins),
            j + 1,
        )
}

proof fn relev_from_bounds(bins: Seq<BinView>, j: int)
    requires
        0 <= j <= bins.len(),
        forall|k: int| 0 <= k < bins.len() ==> 0 <= (#[trigger] bins[k]).max <= 0x400_0000_0000,
    ensures
        0 <= relev_from(bins, j) <= (bins.len() - j) * 0x400_0000_0000,
    decreases bins.len() - j,
{
    if j < bins.len() {
        relev_from_bounds(bins, j + 1);
    }
}

proof fn greatest_relev_bounds(parts: Seq<PhrasematchSubquery>, members: Seq<usize>)
    ensures
        0 <= greatest_relev(parts, members) <= 0x400_0000_0000,
    decreases members.len(),
{
    if members.len() > 0 {
        greatest_relev_bounds(parts, members.drop_last());
    }
}

/// The code by which a part is sorted.
fn part_code(part: &PhrasematchSubquery, p: usize) -> (code: u128)
    ensures
        code == ((u32::MAX - part.weight) * 0x1_0000 + part.idx) * 0x1_0000_0000_0000_0000 + p,
        code % 0x1_0000_0000_0000_0000 == p,
{
    let high: u128 = (u32::MAX - part.weight) as u128 * 0x1_0000 + part.idx as u128;
    high * 0x1_0000_0000_0000_0000 + p as u128
}

/// The bin of an index type.
fn make_bin(parts: &Vec<PhrasematchSubquery>, t: u32) -> (bin: PhrasematchBin)
    ensures
        bin@ == bin_of_type(parts@, t),
        bin@.members.to_set() == parts_of_type(parts@, t),
        ascending(bin@.members, part_num(parts@)),
        forall|q: int| 0 <= q < bin@.members.len() ==> #[trigger] bin@.members[q] < parts@.len(),
{
    let ghost num = part_num(parts@);
    let mut codes: Vec<u128> = Vec::new();
    let mut places: Ghost<Seq<usize>> = Ghost(Seq::empty());
    let mut i: usize = 0;
    while i < parts.len()
        invariant
            i <= parts@.len(),
            num == part_num(parts@),
            codes@.len() == places@.len(),
            forall|k: int|
                #![trigger codes@[k]]
                #![trigger places@[k]]
                0 <= k < codes@.len() ==> codes@[k] == num(places@[k]) && codes@[k]
                    % 0x1_0000_0000_0000_0000 == places@[k] && places@[k] < i && part_type(
                    parts@,
                    places@[k] as int,
                ) == t,
            forall|a: int, b: int|
                0 <= a < b < places@.len() ==> #[trigger] places@[a] < #[trigger] places@[b],
            forall|p: usize|
                p < i && #[trigger] part_type(parts@, p as int) == t ==> places@.contains(p),
        decreases parts@.len() - i,
    {
        let ghost had = places@;
        if parts[i].store.type_id as u32 == t {
            codes.push(part_code(&parts[i], i));
            proof {
                places@ = places@.push(i);
            }
        }
        proof {
            assert forall|p: usize| p < i + 1 && #[trigger] part_type(parts@, p as int)
                == t implies places@.contains(p) by {
                if p < i {
                    assert(had.contains(p));
                    let k = choose|k: int| 0 <= k < had.len() && had[k] == p;
                    assert(places@[k] == p);
                } else {
                    assert(places@[places@.len() - 1] == p);
                }
            }
        }
        i += 1;
    }
    let ghost before = codes@;
    sort_keys(&mut codes);
    let mut members: Vec<usize> = Vec::new();
    let mut max: i128 = 0;
    let mut k: usize = 0;
    proof {
        broadcast use vstd::seq_lib::group_to_multiset_ensures;

        assert(codes@.to_multiset().len() == codes@.len());
        assert(before.to_multiset().len() == before.len());
        assert(before.no_duplicates());
        before.lemma_multiset_has_no_duplicates();
        codes@.lemma_multiset_has_no_duplicates_conv();
    }
    while k < codes.len()
        invariant
            k <= codes@.len(),
            num == part_num(parts@),
            before.to_multiset() == codes@.to_multiset(),
            before.len() == places@.len(),
            forall|q: int|
                #![trigger before[q]]
                #![trigger places@[q]]
                0 <= q < before.len() ==> before[q] == num(places@[q]) && before[q]
                    % 0x1_0000_0000_0000_0000 == places@[q] && places@[q] < parts@.len()
                    && part_type(parts@, places@[q] as int) == t,
            members@.len() == k,
            forall|q: int|
                0 <= q < k ==> codes@[q] == num(#[trigger] members@[q]) && members@[q]
                    < parts@.len() && part_type(parts@, members@[q] as int) == t,
            max == greatest_relev(parts@, members@),
            0 <= max <= 0x400_0000_0000,
        decreases codes@.len() - k,
    {
        proof {
            let q = place_in(codes@, before, k as int);
            assert(before[q] == num(places@[q]));
        }
        let p: usize = (codes[k] % 0x1_0000_0000_0000_0000) as usize;
        let relev: i128 = parts[p].weight as i128 * RELEV_PER_WEIGHT;
        if relev > max {
            max = relev;
        }
        let ghost had = members@;
        members.push(p);
        proof {
            assert(members@.drop_last() =~= had);
        }
        k += 1;
    }
    proof {
        assert(ascending(members@, num)) by {
            assert forall|a: int, b: int| 0 <= a < b < members@.len() implies num(
                #[trigger] members@[a],
            ) < num(#[trigger] members@[b]) by {
                assert(codes@[a] <= codes@[b]);
                assert(codes@[a] != codes@[b]);
            }
        }
        assert forall|p: usize| members@.to_set().contains(p) <==> parts_of_type(
            parts@,
            t,
        ).contains(p) by {
            if parts_of_type(parts@, t).contains(p) {
                assert(places@.contains(p));
                let q = choose|q: int| 0 <= q < places@.len() && places@[q] == p;
                let j = place_in(before, codes@, q);
                assert(num(members@[j]) == num(p));
                part_num_distinct(parts@, members@[j], p);
                assert(members@.contains(p));
            }
            if members@.contains(p) {
                let j = choose|j: int| 0 <= j < members@.len() && members@[j] == p;
                assert(part_type(parts@, members@[j] as int) == t);
            }
        }
        assert(members@.to_set() =~= parts_of_type(parts@, t));
        in_order_is_unique(members@, num);
    }
    PhrasematchBin { phrasematches: members, max_relev: max, max_relev_after_this: 0 }
}

pub(crate) proof fn part_num_distinct(parts: Seq<PhrasematchSubquery>, a: usize, b: usize)
    requires
        part_num(parts)(a) == part_num(parts)(b),
    ensures
        a == b,
{
    let ha = (u32::MAX - parts[a as int].weight) * 0x1_0000 + parts[a as int].idx;
    let hb = (u32::MAX - parts[b as int].weight) * 0x1_0000 + parts[b as int].idx;
    assert(ha * 0x1_0000_0000_0000_0000 + a == hb * 0x1_0000_0000_0000_0000 + b);
}

/// The parts of an index type can be put in order.
pub(crate) proof fn in_order_of_type(parts: Seq<PhrasematchSubquery>, t: u32)
    ensures
        in_order(parts_of_type(parts, t), part_num(parts)).to_set() == parts_of_type(parts, t),
        ascending(in_order(parts_of_type(parts, t), part_num(parts)), part_num(parts)),
{
    let places = Seq::new(parts.len(), |i: int| i as usize);
    vstd::seq_lib::seq_to_set_is_finite(places);
    assert forall|p: usize| parts_of_type(parts, t).contains(p) implies places.to_set().contains(
        p,
    ) by {
        assert(places[p as int] == p);
    }
    vstd::set_lib::lemma_set_subset_finite(places.to_set(), parts_of_type(parts, t));
    let num = part_num(parts);
    assert forall|a: usize, b: usize| #[trigger] num(a) == #[trigger] num(b) implies a == b by {
        part_num_distinct(parts, a, b);
    }
    in_order_exists(parts_of_type(parts, t), num);
}

/// Bins the parts by the type of their index.
fn make_bins(parts: &Vec<PhrasematchSubquery>) -> (bins: Vec<PhrasematchBin>)
    ensures
        bins_view(bins@) == bins_of(parts@),
        bins_fit(parts@, bins_of(parts@)),
        bins_apart(bins_of(parts@)),
        sums_fit(bins@),
{
    let mut types: HashMap<u32, bool> = HashMap::new();
    let mut i: usize = 0;
    while i < parts.len()
        invariant
            i <= parts@.len(),
            forall|t: u32|
                #![trigger types@.contains_key(t)]
                types@.contains_key(t) <==> exists|p: int|
                    0 <= p < i && #[trigger] part_type(parts@, p) == t,
        decreases parts@.len() - i,
    {
        let t: u32 = parts[i].store.type_id as u32;
        let ghost had = types@;
        types.insert(t, true);
        proof {
            assert forall|u: u32|
                #![trigger types@.contains_key(u)]
                types@.contains_key(u) <==> exists|p: int|
                    0 <= p < i + 1 && #[trigger] part_type(parts@, p) == u by {
                if types@.contains_key(u) {
                    if u == t {
                        assert(part_type(parts@, i as int) == u);
                    } else {
                        assert(had.contains_key(u));
                    }
                }
            }
        }
        i += 1;
    }
    assert(types@.dom() =~= part_types(parts@));
    let order: Vec<u32> = word_keys(&types);
    let ghost want = bins_of(parts@);
    let mut bins: Vec<PhrasematchBin> = Vec::new();
    let mut j: usize = 0;
    while j < order.len()
        invariant
            j <= order@.len(),
            order@ == in_order(part_types(parts@), num_u32()),
            want == bins_of(parts@),
            bins_view(bins@) == want.take(j as int),
            forall|k: int|
                0 <= k < j ==> (#[trigger] want[k]).members.to_set() == parts_of_type(
                    parts@,
                    order@[k],
                ),
            forall|k: int|
                0 <= k < j ==> ascending((#[trigger] want[k]).members, part_num(parts@)) && 0
                    <= want[k].max <= 0x400_0000_0000 && forall|q: int|
                    0 <= q < want[k].members.len() ==> (#[trigger] want[k].members[q])
                        < parts@.len() && part_relev(parts@, want[k].members[q]) <= want[k].max,
        decreases order@.len() - j,
    {
        let bin: PhrasematchBin = make_bin(parts, order[j]);
        let ghost had = bins@;
        proof {
            assert(bin@ == want[j as int]);
            greatest_relev_bounds(parts@, bin@.members);
            assert forall|q: int| 0 <= q < bin@.members.len() implies part_relev(
                parts@,
                #[trigger] bin@.members[q],
            ) <= bin@.max by {
                greatest_relev_is_greatest(parts@, bin@.members, bin@.members[q]);
            }
        }
        bins.push(bin);
        j += 1;
        assert(bins_view(bins@) =~= bins_view(had).push(want[j - 1]));
        assert(bins_view(bins@) =~= want.take(j as int));
    }
    assert(want.take(j as int) =~= want);
    proof {
        bins_of_apart(parts@);
    }
    // What the bins behind each one can add up to
    let n: usize = bins.len();
    let mut sum_so_far: i128 = 0;
    let mut k: usize = n;
    while k > 0
        invariant
            k <= n == bins@.len(),
            bins_view(bins@) == want,
            bins_fit(parts@, want),
            sum_so_far == relev_from(want, k as int),
            forall|j: int|
                k <= j < n ==> (#[trigger] bins@[j]).max_relev_after_this == relev_from(
                    want,
                    j + 1,
                ),
        decreases k,
    {
        k -= 1;
        let ghost had = bins@;
        proof {
            relev_from_bounds(want, k as int);
            relev_from_bounds(want, k + 1);
            assert(want[k as int] == had[k as int]@);
        }
        let max_relev: i128 = bins[k].max_relev;
        bins[k].max_relev_after_this = sum_so_far;
        proof {
            assert forall|j: int| 0 <= j < n implies #[trigger] bins@[j]@ == had[j]@ by {}
            assert(bins_view(bins@) =~= bins_view(had));
        }
        sum_so_far = sum_so_far + max_relev;
    }
    bins
}

// ---------------------------------------------------------------------------------------------
// Trees
// ---------------------------------------------------------------------------------------------

/// A combination of parts, as far as it decides what can be stacked on it.
pub struct Stem {
    /// The last part of the combination
    pub phrasematch: Option<usize>,
    /// The indexes of its parts
    pub bits: Set<usize>,
    pub mask: u32,
    /// What the relevances of its parts add up to
    pub relev: int,
    /// The number of the first bin from which a part can be stacked on it
    pub level: int,
}

/// The combination that a node stands for.
pub open spec fn stem_of(bins: Seq<BinView>, node: StackableNode) -> Stem {
    Stem {
        phrasematch: node.phrasematch,
        bits: bitset_bits(node.bmask),
        mask: node.mask,
        relev: node.max_relev - relev_from(bins, node.level as int),
        level: node.level as int,
    }
}

/// The greatest relevance that a combination can reach with the part `p` of bin `j` stacked on it.
pub open spec fn stacked_relev(
    parts: Seq<PhrasematchSubquery>,
    bins: Seq<BinView>,
    stem: Stem,
    j: int,
    p: usize,
) -> int {
    stem.relev + part_relev(parts, p) + relev_from(bins, j + 1)
}

/// The part `p` of bin `j` can be stacked on the combination: its index does not occur yet, it
/// covers none of its words, it does not conflict with the last part, and the result can become
/// relevant enough.
pub open spec fn can_stack(
    parts: Seq<PhrasematchSubquery>,
    bins: Seq<BinView>,
    stem: Stem,
    j: int,
    p: usize,
) -> bool {
    let index = parts[p as int].idx as usize;
    &&& !stem.bits.contains(index)
    &&& stem.mask & parts[p as int].mask == 0
    &&& stem.phrasematch matches Some(last) ==> !bitset_bits(
        parts[last as int].non_overlapping_indexes,
    ).contains(index)
    &&& stacked_relev(parts, bins, stem, j, p) >= MIN_STACK_RELEV
}

/// The parts among the first `n` of bin `j` that can be stacked on the combination.
pub open spec fn bin_choices(
    parts: Seq<PhrasematchSubquery>,
    bins: Seq<BinView>,
    stem: Stem,
    j: int,
    n: int,
) -> Seq<(int, usize)>
    decreases n,
{
    if n <= 0 {
        Seq::empty()
    } else {
        let before = bin_choices(parts, bins, stem, j, n - 1);
        let p = bins[j].members[n - 1];
        if can_stack(parts, bins, stem, j, p) {
            before.push((j, p))
        } else {
            before
        }
    }
}

/// The parts of the bins before `j` that can be stacked on the combination, each with its bin.
pub open spec fn choices(
    parts: Seq<PhrasematchSubquery>,
    bins: Seq<BinView>,
    stem: Stem,
    j: int,
) -> Seq<(int, usize)>
    decreases j - stem.level,
{
    if j <= stem.level {
        Seq::empty()
    } else {
        choices(parts, bins, stem, j - 1) + bin_choices(
            parts,
            bins,
            stem,
            j - 1,
            bins[j - 1].members.len() as int,
        )
    }
}

/// The combination of no parts.
pub open spec fn empty_stem() -> Stem {
    Stem { phrasematch: None, bits: Set::empty(), mask: 0, relev: 0, level: 0 }
}

/// The combination with the part `p` of bin `j` stacked on it.
pub open spec fn stacked(parts: Seq<PhrasematchSubquery>, stem: Stem, j: int, p: usize) -> Stem {
    Stem {
        phrasematch: Some(p),
        bits: stem.bits.insert(parts[p as int].idx as usize),
        mask: stem.mask | parts[p as int].mask,
        relev: stem.relev + part_relev(parts, p),
        level: j + 1,
    }
}

/// The number of combinations with at least one more part stacked on this one.
pub open spec fn combination_count(
    parts: Seq<PhrasematchSubquery>,
    bins: Seq<BinView>,
    stem: Stem,
) -> nat
    decreases bins.len() - stem.level, choices(parts, bins, stem, bins.len() as int).len() + 1,
{
    stacked_count(parts, bins, stem, choices(parts, bins, stem, bins.len() as int))
}

/// The number of those combinations in which one of the parts that were found comes next.
pub open spec fn stacked_count(
    parts: Seq<PhrasematchSubquery>,
    bins: Seq<BinView>,
    stem: Stem,
    found: Seq<(int, usize)>,
) -> nat
    decreases bins.len() - stem.level, found.len(),
{
    if found.len() == 0 {
        0
    } else {
        let before = stacked_count(parts, bins, stem, found.drop_last());
        let (j, p) = found.last();
        if stem.level <= j < bins.len() {
            before + 1 + combination_count(parts, bins, stacked(parts, stem, j, p))
        } else {
            before
        }
    }
}

/// The node stands for the combination with one more part, of one of the bins from its level on.
pub open spec fn is_child(
    parts: Seq<PhrasematchSubquery>,
    bins: Seq<BinView>,
    stem: Stem,
    node: StackableNode,
) -> bool {
    let j = node.level - 1;
    &&& node.phrasematch is Some
    &&& node.phrasematch->Some_0 < parts.len()
    &&& stem.level <= j < bins.len()
    &&& bins[j].members.contains(node.phrasematch->Some_0)
    &&& can_stack(parts, bins, stem, j, node.phrasematch->Some_0)
    &&& bitset_bits(node.bmask) == stem.bits.insert(
        parts[node.phrasematch->Some_0 as int].idx as usize,
    )
    &&& node.mask == stem.mask | parts[node.phrasematch->Some_0 as int].mask
    &&& node.idx == parts[node.phrasematch->Some_0 as int].idx
    &&& node.zoom == parts[node.phrasematch->Some_0 as int].store.zoom
    &&& node.max_relev == stacked_relev(parts, bins, stem, j, node.phrasematch->Some_0)
}

/// The arena has the node, and it is that of the part.
pub open spec fn holds_part(nodes: Nodes, index: NodeIndex, p: usize) -> bool {
    nodes.contains_key(index) && nodes[index].phrasematch == Some(p)
}

/// A node comes before another: its bin does, or its part does in the bin that they share.
pub open spec fn node_before(
    parts: Seq<PhrasematchSubquery>,
    a: StackableNode,
    b: StackableNode,
) -> bool {
    a.level < b.level || (a.level == b.level && part_num(parts)(a.phrasematch->Some_0) < part_num(
        parts,
    )(b.phrasematch->Some_0))
}

/// One of the children is that of the part.
pub open spec fn part_there(nodes: Nodes, children: Seq<NodeIndex>, p: usize) -> bool {
    exists|k: int| 0 <= k < children.len() && holds_part(nodes, #[trigger] children[k], p)
}

/// One of the children is that of the part, or the arena is full of what is as relevant.
pub open spec fn part_covered(
    parts: Seq<PhrasematchSubquery>,
    bins: Seq<BinView>,
    stem: Stem,
    children: Seq<NodeIndex>,
    choice: (int, usize),
    m: ArenaManager,
) -> bool {
    part_there(m.nodes(), children, choice.1) || m.spent() || (m.full() && stacked_relev(
        parts,
        bins,
        stem,
        choice.0,
        choice.1,
    ) <= m.min_relev)
}

/// A child is a node of the combination with one more part, unless the arena gave it up.
pub open spec fn child_fits(
    parts: Seq<PhrasematchSubquery>,
    bins: Seq<BinView>,
    stem: Stem,
    index: NodeIndex,
    m: ArenaManager,
) -> bool {
    index_known(m, index) && (m.nodes().contains_key(index) ==> is_child(
        parts,
        bins,
        stem,
        m.nodes()[index],
    ))
}

/// Of two children the first comes before the second, unless the arena gave one up.
pub open spec fn in_turn(
    parts: Seq<PhrasematchSubquery>,
    nodes: Nodes,
    a: NodeIndex,
    b: NodeIndex,
) -> bool {
    nodes.contains_key(a) && nodes.contains_key(b) ==> node_before(parts, nodes[a], nodes[b])
}

/// `children` are the children of a combination that can have `found` stacked on it: each is one of
/// these, in their order, or was given up. All are there as long as the arena has room for them; of
/// a full arena those may be missing that are not more relevant than the least of what it holds.
pub open spec fn children_fit(
    parts: Seq<PhrasematchSubquery>,
    bins: Seq<BinView>,
    stem: Stem,
    children: Seq<NodeIndex>,
    found: Seq<(int, usize)>,
    m: ArenaManager,
) -> bool {
    &&& forall|k: int|
        #![trigger children[k]]
        0 <= k < children.len() ==> child_fits(parts, bins, stem, children[k], m)
    &&& forall|a: int, b: int|
        #![trigger children[a], children[b]]
        0 <= a < b < children.len() ==> in_turn(parts, m.nodes(), children[a], children[b])
    &&& children.len() <= found.len()
    &&& m.roomy() ==> children.len() == found.len()
    &&& m.roomy() ==> forall|k: int|
        #![trigger found[k]]
        0 <= k < found.len() ==> holds_part(m.nodes(), children[k], found[k].1)
    &&& forall|q: int|
        #![trigger found[q]]
        0 <= q < found.len() ==> part_covered(parts, bins, stem, children, found[q], m)
}

/// The node's children are those of its combination.
pub open spec fn node_fits(
    parts: Seq<PhrasematchSubquery>,
    bins: Seq<BinView>,
    node: StackableNode,
    m: ArenaManager,
) -> bool {
    let stem = stem_of(bins, node);
    &&& node.level <= bins.len()
    &&& children_fit(
        parts,
        bins,
        stem,
        node.children@,
        choices(parts, bins, stem, bins.len() as int),
        m,
    )
}

/// The children of all nodes of the arena are those of their combinations.
pub open spec fn arena_fits(
    parts: Seq<PhrasematchSubquery>,
    bins: Seq<BinView>,
    m: ArenaManager,
) -> bool {
    forall|i: NodeIndex|
        #![trigger m.nodes()[i]]
        m.nodes().contains_key(i) ==> node_fits(parts, bins, m.nodes()[i], m)
}

/// `m2` is what `m1` can become: it may have new nodes, and, once full, may have lost nodes that it
/// beats.
pub open spec fn later(m1: ArenaManager, m2: ArenaManager) -> bool {
    &&& m1.removed <= m2.removed
    &&& m1.soft_max == m2.soft_max
    &&& m1.added <= m2.added
    &&& m1.full() ==> m2.full() && m1.min_relev <= m2.min_relev
    &&& forall|i: NodeIndex|
        #![trigger m1.nodes().contains_key(i)]
        m1.nodes().contains_key(i) ==> (m2.nodes().contains_key(i) && m2.nodes()[i]
            == m1.nodes()[i]) || (m2.full() && is_beaten(m1.nodes()[i], m2.min_relev) && i.1
            < m2.removed)
    &&& forall|i: NodeIndex|
        #![trigger m2.nodes().contains_key(i)]
        m2.nodes().contains_key(i) ==> if m1.nodes().contains_key(i) {
            m2.nodes()[i] == m1.nodes()[i]
        } else {
            i.1 >= m1.removed
        }
}

pub(crate) proof fn later_is_transitive(m1: ArenaManager, m2: ArenaManager, m3: ArenaManager)
    requires
        later(m1, m2),
        later(m2, m3),
    ensures
        later(m1, m3),
{
    assert forall|i: NodeIndex|
        #![trigger m1.nodes().contains_key(i)]
        m1.nodes().contains_key(i) implies (m3.nodes().contains_key(i) && m3.nodes()[i]
        == m1.nodes()[i]) || (m3.full() && is_beaten(m1.nodes()[i], m3.min_relev) && i.1
        < m3.removed) by {
        if m2.nodes().contains_key(i) {
        }
    }
    assert forall|i: NodeIndex|
        #![trigger m3.nodes().contains_key(i)]
        m3.nodes().contains_key(i) implies if m1.nodes().contains_key(i) {
        m3.nodes()[i] == m1.nodes()[i]
    } else {
        i.1 >= m1.removed
    } by {
        if m2.nodes().contains_key(i) {
        }
    }
}

/// What `add` makes of a manager is a later one.
pub(crate) proof fn added_is_later(
    m1: ArenaManager,
    m2: ArenaManager,
    node: StackableNode,
    index: NodeIndex,
)
    requires
        m1.wf(),
        m2.wf(),
        is_added(m1, node, Some(index), m2),
    ensures
        later(m1, m2),
        m2.nodes().contains_key(index),
        m2.nodes()[index] == node,
{
    let nodes = m1.nodes().insert(index, node);
    let gone = given_up(m1, node, index, m2);
    with_node_parts(m1.nodes(), index, node);
    assert forall|i: NodeIndex|
        #![trigger m1.nodes().contains_key(i)]
        m1.nodes().contains_key(i) implies (m2.nodes().contains_key(i) && m2.nodes()[i]
        == m1.nodes()[i]) || (m2.full() && is_beaten(m1.nodes()[i], m2.min_relev) && i.1
        < m2.removed) by {
        assert(nodes.dom().contains(i));
        if !m2.nodes().contains_key(i) {
            assert(gone.contains(i));
            vstd::set_lib::lemma_set_subset_finite(nodes.dom(), gone);
            vstd::set_lib::lemma_set_empty_equivalency_len(gone);
        }
    }
    if m1.full() {
        if exists|i: NodeIndex| gone.contains(i) {
            let i = choose|i: NodeIndex| gone.contains(i);
            assert(gone.contains(i));
        } else {
            assert(nodes.remove_keys(gone) =~= nodes);
        }
        assert(m2.nodes().dom().contains(index));
        let least = choose|i: NodeIndex|
            m2.nodes().contains_key(i) && #[trigger] m2.nodes()[i].max_relev == m2.min_relev;
        assert(m2.nodes().contains_key(least));
        if least != index {
            assert(m1.nodes().contains_key(least) && m1.min_relev
                <= m1.nodes()[least].max_relev);
        }
    }
}

/// The children of a combination stay so in a later arena.
proof fn children_stay(
    parts: Seq<PhrasematchSubquery>,
    bins: Seq<BinView>,
    stem: Stem,
    children: Seq<NodeIndex>,
    found: Seq<(int, usize)>,
    m1: ArenaManager,
    m2: ArenaManager,
)
    requires
        children_fit(parts, bins, stem, children, found, m1),
        later(m1, m2),
        found_fits(parts, bins, stem, found),
        0 <= stem.level,
    ensures
        children_fit(parts, bins, stem, children, found, m2),
{
    let n1 = m1.nodes();
    let n2 = m2.nodes();
    assert forall|k: int|
        #![trigger children[k]]
        0 <= k < children.len() implies child_fits(parts, bins, stem, children[k], m2) && (
    n2.contains_key(children[k]) ==> n1.contains_key(children[k]) && n2[children[k]]
        == n1[children[k]]) by {
        assert(child_fits(parts, bins, stem, children[k], m1));
        if n1.contains_key(children[k]) {
        } else if n2.contains_key(children[k]) {
        }
    }
    assert forall|a: int, b: int|
        #![trigger children[a], children[b]]
        0 <= a < b < children.len() implies in_turn(parts, n2, children[a], children[b]) by {
        assert(in_turn(parts, n1, children[a], children[b]));
    }
    if m2.roomy() {
        assert forall|k: int|
            #![trigger found[k]]
            0 <= k < found.len() implies holds_part(n2, children[k], found[k].1) by {
            assert(holds_part(n1, children[k], found[k].1));
        }
    }
    assert forall|q: int|
        #![trigger found[q]]
        0 <= q < found.len() implies part_covered(parts, bins, stem, children, found[q], m2) by {
        assert(part_covered(parts, bins, stem, children, found[q], m1));
        let p = found[q].1;
        if part_there(n1, children, p) {
            let k = choose|k: int|
                0 <= k < children.len() && holds_part(n1, #[trigger] children[k], p);
            assert(n1.contains_key(children[k]));
            if n2.contains_key(children[k]) {
                assert(holds_part(n2, children[k], p));
            } else {
                assert(child_fits(parts, bins, stem, children[k], m1));
                same_part_same_bin(parts, bins, found[q].0, n1[children[k]].level - 1, p);
            }
        }
    }
}

/// The choices are parts of their bins, and each part is in one bin only.
pub open spec fn found_fits(
    parts: Seq<PhrasematchSubquery>,
    bins: Seq<BinView>,
    stem: Stem,
    found: Seq<(int, usize)>,
) -> bool {
    &&& bins_apart(bins)
    &&& forall|q: int|
        #![trigger found[q]]
        0 <= q < found.len() ==> 0 <= found[q].0 < bins.len() && bins[found[q].0].members.contains(
            found[q].1,
        )
}

/// Each part is in one bin only.
pub open spec fn bins_apart(bins: Seq<BinView>) -> bool {
    forall|a: int, b: int, p: usize|
        0 <= a < bins.len() && 0 <= b < bins.len() && #[trigger] bins[a].members.contains(p)
            && #[trigger] bins[b].members.contains(p) ==> a == b
}

proof fn same_part_same_bin(
    parts: Seq<PhrasematchSubquery>,
    bins: Seq<BinView>,
    a: int,
    b: int,
    p: usize,
)
    requires
        bins_apart(bins),
        0 <= a < bins.len(),
        0 <= b < bins.len(),
        bins[a].members.contains(p),
        bins[b].members.contains(p),
    ensures
        a == b,
{
}

proof fn bin_choices_fit(
    parts: Seq<PhrasematchSubquery>,
    bins: Seq<BinView>,
    stem: Stem,
    j: int,
    n: int,
)
    requires
        bins_apart(bins),
        0 <= j < bins.len(),
        n <= bins[j].members.len(),
    ensures
        found_fits(parts, bins, stem, bin_choices(parts, bins, stem, j, n)),
    decreases n,
{
    if n > 0 {
        bin_choices_fit(parts, bins, stem, j, n - 1);
        assert(bins[j].members.contains(bins[j].members[n - 1]));
    }
}

proof fn choices_fit(parts: Seq<PhrasematchSubquery>, bins: Seq<BinView>, stem: Stem, j: int)
    requires
        bins_apart(bins),
        0 <= stem.level,
        j <= bins.len(),
    ensures
        found_fits(parts, bins, stem, choices(parts, bins, stem, j)),
    decreases j - stem.level,
{
    if j > stem.level {
        choices_fit(parts, bins, stem, j - 1);
        bin_choices_fit(parts, bins, stem, j - 1, bins[j - 1].members.len() as int);
    }
}

/// The children of all nodes stay those of their combinations in a later arena, apart from those of
/// the new nodes.
proof fn nodes_stay(
    parts: Seq<PhrasematchSubquery>,
    bins: Seq<BinView>,
    node: StackableNode,
    m1: ArenaManager,
    m2: ArenaManager,
)
    requires
        bins_apart(bins),
        node_fits(parts, bins, node, m1),
        later(m1, m2),
    ensures
        node_fits(parts, bins, node, m2),
{
    let stem = stem_of(bins, node);
    choices_fit(parts, bins, stem, bins.len() as int);
    children_stay(
        parts,
        bins,
        stem,
        node.children@,
        choices(parts, bins, stem, bins.len() as int),
        m1,
        m2,
    );
}

proof fn bins_of_apart(parts: Seq<PhrasematchSubquery>)
    requires
        forall|j: int|
            #![trigger bins_of(parts)[j]]
            0 <= j < bins_of(parts).len() ==> bins_of(parts)[j].members.to_set() == parts_of_type(
                parts,
                in_order(part_types(parts), num_u32())[j],
            ),
        ascending(in_order(part_types(parts), num_u32()), num_u32()),
    ensures
        bins_apart(bins_of(parts)),
{
    let bins = bins_of(parts);
    let types = in_order(part_types(parts), num_u32());
    assert forall|a: int, b: int, p: usize|
        0 <= a < bins.len() && 0 <= b < bins.len() && #[trigger] bins[a].members.contains(p)
            && #[trigger] bins[b].members.contains(p) implies a == b by {
        assert(bins[a].members.to_set().contains(p));
        assert(bins[b].members.to_set().contains(p));
        assert(parts_of_type(parts, types[a]).contains(p));
        assert(parts_of_type(parts, types[b]).contains(p));
        if a < b {
            assert(num_u32()(types[a]) < num_u32()(types[b]));
        } else if b < a {
            assert(num_u32()(types[b]) < num_u32()(types[a]));
        }
    }
}

/// The parts can be stacked at all: their indexes are among the first `MAX_INDEXES`.
pub open spec fn parts_fit(parts: Seq<PhrasematchSubquery>) -> bool {
    forall|p: int| 0 <= p < parts.len() ==> (#[trigger] parts[p]).idx < MAX_INDEXES
}

/// The stem of the combination that is being built.
spec fn stem_at(
    last: Option<usize>,
    bmask: FixedBitSet,
    mask: u32,
    relev: int,
    level: int,
) -> Stem {
    Stem { phrasematch: last, bits: bitset_bits(bmask), mask, relev, level }
}

proof fn child_pushed(
    parts: Seq<PhrasematchSubquery>,
    bins: Seq<BinView>,
    stem: Stem,
    children: Seq<NodeIndex>,
    found: Seq<(int, usize)>,
    m: ArenaManager,
    index: NodeIndex,
    j: int,
    n: int,
)
    requires
        bins_fit(parts, bins),
        bins_apart(bins),
        0 <= stem.level <= j < bins.len(),
        0 <= n < bins[j].members.len(),
        found == choices(parts, bins, stem, j) + bin_choices(parts, bins, stem, j, n),
        children_fit(parts, bins, stem, children, found, m),
        children_precede(parts, bins, children, m, j, n),
        m.nodes().contains_key(index),
        m.nodes()[index].phrasematch == Some(bins[j].members[n]),
        m.nodes()[index].level == j + 1,
        is_child(parts, bins, stem, m.nodes()[index]),
    ensures
        children_fit(
            parts,
            bins,
            stem,
            children.push(index),
            found.push((j, bins[j].members[n])),
            m,
        ),
        children_precede(parts, bins, children.push(index), m, j, n + 1),
{
    let more = children.push(index);
    let p = bins[j].members[n];
    let all = found.push((j, p));
    let nodes = m.nodes();
    assert forall|k: int|
        #![trigger more[k]]
        0 <= k < more.len() implies child_fits(parts, bins, stem, more[k], m) by {
        if k < children.len() {
            assert(child_fits(parts, bins, stem, children[k], m));
        }
    }
    assert forall|k: int|
        #![trigger more[k]]
        0 <= k < more.len() implies child_precedes(parts, bins, nodes, more[k], j, n + 1) by {
        if k < children.len() {
            assert(child_precedes(parts, bins, nodes, children[k], j, n));
        } else {
            assert(bins[j].members[n] == p);
        }
    }
    assert forall|a: int, b: int|
        #![trigger more[a], more[b]]
        0 <= a < b < more.len() implies in_turn(parts, nodes, more[a], more[b]) by {
        if b < children.len() {
            assert(in_turn(parts, nodes, children[a], children[b]));
        } else {
            assert(child_precedes(parts, bins, nodes, children[a], j, n));
            if nodes.contains_key(children[a]) && nodes[children[a]].level == j + 1 {
                let q = choose|q: int|
                    0 <= q < n && nodes[children[a]].phrasematch == Some(
                        #[trigger] bins[j].members[q],
                    );
                assert(part_num(parts)(bins[j].members[q]) < part_num(parts)(
                    bins[j].members[n],
                ));
            }
        }
    }
    if m.roomy() {
        assert forall|k: int|
            #![trigger all[k]]
            0 <= k < all.len() implies holds_part(nodes, more[k], all[k].1) by {
            if k < found.len() {
                assert(holds_part(nodes, children[k], found[k].1));
            }
        }
    }
    assert forall|q: int|
        #![trigger all[q]]
        0 <= q < all.len() implies part_covered(parts, bins, stem, more, all[q], m) by {
        if q < found.len() {
            assert(part_covered(parts, bins, stem, children, found[q], m));
            if part_there(nodes, children, found[q].1) {
                let k = choose|k: int|
                    0 <= k < children.len() && holds_part(
                        nodes,
                        #[trigger] children[k],
                        found[q].1,
                    );
                assert(holds_part(nodes, more[k], all[q].1));
            }
        } else {
            assert(holds_part(nodes, more[children.len() as int], p));
        }
    }
}

/// The child comes before the part at place `n` of bin `j`, unless the arena gave it up.
spec fn child_precedes(
    parts: Seq<PhrasematchSubquery>,
    bins: Seq<BinView>,
    nodes: Nodes,
    index: NodeIndex,
    j: int,
    n: int,
) -> bool {
    nodes.contains_key(index) ==> nodes[index].level < j + 1 || (nodes[index].level == j + 1
        && exists|q: int|
        0 <= q < n && nodes[index].phrasematch == Some(#[trigger] bins[j].members[q]))
}

spec fn children_precede(
    parts: Seq<PhrasematchSubquery>,
    bins: Seq<BinView>,
    children: Seq<NodeIndex>,
    m: ArenaManager,
    j: int,
    n: int,
) -> bool {
    forall|k: int|
        #![trigger children[k]]
        0 <= k < children.len() ==> child_precedes(parts, bins, m.nodes(), children[k], j, n)
}

proof fn precede_stays(
    parts: Seq<PhrasematchSubquery>,
    bins: Seq<BinView>,
    stem: Stem,
    children: Seq<NodeIndex>,
    found: Seq<(int, usize)>,
    m1: ArenaManager,
    m2: ArenaManager,
    j: int,
    n: int,
)
    requires
        children_fit(parts, bins, stem, children, found, m1),
        children_precede(parts, bins, children, m1, j, n),
        later(m1, m2),
    ensures
        children_precede(parts, bins, children, m2, j, n),
{
    assert forall|k: int|
        #![trigger children[k]]
        0 <= k < children.len() implies child_precedes(
        parts,
        bins,
        m2.nodes(),
        children[k],
        j,
        n,
    ) by {
        assert(child_fits(parts, bins, stem, children[k], m1));
        assert(child_precedes(parts, bins, m1.nodes(), children[k], j, n));
        if m1.nodes().contains_key(children[k]) {
        } else if m2.nodes().contains_key(children[k]) {
        }
    }
}

proof fn choice_missed(
    parts: Seq<PhrasematchSubquery>,
    bins: Seq<BinView>,
    stem: Stem,
    children: Seq<NodeIndex>,
    found: Seq<(int, usize)>,
    m: ArenaManager,
    choice: (int, usize),
)
    requires
        children_fit(parts, bins, stem, children, found, m),
        m.spent() || (m.full() && stacked_relev(parts, bins, stem, choice.0, choice.1)
            <= m.min_relev),
    ensures
        children_fit(parts, bins, stem, children, found.push(choice), m),
{
    let all = found.push(choice);
    assert forall|q: int|
        #![trigger all[q]]
        0 <= q < all.len() implies part_covered(parts, bins, stem, children, all[q], m) by {
        if q < found.len() {
            assert(part_covered(parts, bins, stem, children, found[q], m));
        }
    }
}

proof fn arena_stays(
    parts: Seq<PhrasematchSubquery>,
    bins: Seq<BinView>,
    m1: ArenaManager,
    m2: ArenaManager,
)
    requires
        bins_apart(bins),
        arena_fits(parts, bins, m1),
        later(m1, m2),
        forall|i: NodeIndex|
            #![trigger m2.nodes().contains_key(i)]
            m2.nodes().contains_key(i) && !m1.nodes().contains_key(i) ==> node_fits(
                parts,
                bins,
                m2.nodes()[i],
                m2,
            ),
    ensures
        arena_fits(parts, bins, m2),
{
    assert forall|i: NodeIndex|
        #![trigger m2.nodes()[i]]
        m2.nodes().contains_key(i) implies node_fits(parts, bins, m2.nodes()[i], m2) by {
        if m1.nodes().contains_key(i) {
            assert(node_fits(parts, bins, m1.nodes()[i], m1));
            nodes_stay(parts, bins, m1.nodes()[i], m1, m2);
        }
    }
}

// ---------------------------------------------------------------------------------------------
// How nodes hang together
// ---------------------------------------------------------------------------------------------

/// The node `k` lists the node `i` as a child, and the arena holds both.
pub open spec fn lists(nodes: Nodes, k: NodeIndex, i: NodeIndex) -> bool {
    nodes.contains_key(k) && nodes.contains_key(i) && nodes[k].children@.contains(i)
}

/// No node is a child of two nodes.
pub open spec fn single_parents(nodes: Nodes) -> bool {
    forall|a: NodeIndex, b: NodeIndex, i: NodeIndex| #[trigger]
        lists(nodes, a, i) && #[trigger] lists(nodes, b, i) ==> a == b
}

/// No node is listed by another node and among the children.
pub open spec fn apart_from(nodes: Nodes, children: Seq<NodeIndex>) -> bool {
    forall|k: NodeIndex, i: NodeIndex| #[trigger] lists(nodes, k, i) ==> !children.contains(i)
}

/// Every node is one of the children or a child of another node.
pub open spec fn all_hang(nodes: Nodes, children: Seq<NodeIndex>) -> bool {
    forall|i: NodeIndex| #[trigger]
        nodes.contains_key(i) ==> children.contains(i) || exists|k: NodeIndex| #[trigger]
            lists(nodes, k, i)
}

/// The children, and the children of the nodes that are not in `m0`, are not in `m0` either.
spec fn fresh_lists(m0: ArenaManager, m: ArenaManager, children: Seq<NodeIndex>) -> bool {
    &&& forall|i: NodeIndex| #[trigger]
        children.contains(i) && m.nodes().contains_key(i) ==> !m0.nodes().contains_key(i)
    &&& forall|k: NodeIndex, i: NodeIndex| #[trigger]
        lists(m.nodes(), k, i) && !m0.nodes().contains_key(k) ==> !m0.nodes().contains_key(i)
}

/// Every node that is not in `m0` is one of the children or a child of another such node.
spec fn new_hang(m0: ArenaManager, m: ArenaManager, children: Seq<NodeIndex>) -> bool {
    forall|i: NodeIndex| #[trigger]
        m.nodes().contains_key(i) && !m0.nodes().contains_key(i) ==> children.contains(i)
            || exists|k: NodeIndex| #[trigger]
            lists(m.nodes(), k, i) && !m0.nodes().contains_key(k)
}

/// What `m` holds beyond `m0` are the trees under the children.
spec fn grown(m0: ArenaManager, m: ArenaManager, children: Seq<NodeIndex>) -> bool {
    &&& single_parents(m.nodes())
    &&& apart_from(m.nodes(), children)
    &&& fresh_lists(m0, m, children)
    &&& !m.spent() ==> new_hang(m0, m, children)
}

/// The children are nodes of the arena, or were.
spec fn all_known(m: ArenaManager, children: Seq<NodeIndex>) -> bool {
    forall|i: NodeIndex| #[trigger] children.contains(i) ==> index_known(m, i)
}

proof fn children_known(
    parts: Seq<PhrasematchSubquery>,
    bins: Seq<BinView>,
    stem: Stem,
    children: Seq<NodeIndex>,
    found: Seq<(int, usize)>,
    m: ArenaManager,
)
    requires
        children_fit(parts, bins, stem, children, found, m),
    ensures
        all_known(m, children),
{
    assert forall|i: NodeIndex| #[trigger] children.contains(i) implies index_known(m, i) by {
        let k = choose|k: int| 0 <= k < children.len() && children[k] == i;
        assert(child_fits(parts, bins, stem, children[k], m));
    }
}

/// A child can become no more relevant than its node.
pub(crate) proof fn child_relev(
    parts: Seq<PhrasematchSubquery>,
    bins: Seq<BinView>,
    node: StackableNode,
    i: NodeIndex,
    m: ArenaManager,
)
    requires
        bins_fit(parts, bins),
        node_fits(parts, bins, node, m),
        node.children@.contains(i),
        m.nodes().contains_key(i),
    ensures
        m.nodes()[i].max_relev <= node.max_relev,
        node.level < m.nodes()[i].level <= bins.len(),
{
    let stem = stem_of(bins, node);
    let child = m.nodes()[i];
    let k = choose|k: int| 0 <= k < node.children@.len() && node.children@[k] == i;
    assert(child_fits(parts, bins, stem, node.children@[k], m));
    let j = child.level - 1;
    let p = child.phrasematch->Some_0;
    let q = choose|q: int| 0 <= q < bins[j].members.len() && bins[j].members[q] == p;
    assert(part_relev(parts, bins[j].members[q]) <= bins[j].max);
    assert forall|k: int| 0 <= k < bins.len() implies 0 <= (#[trigger] bins[k]).max by {}
    relev_from_skips(bins, node.level as int, j);
}

/// A node whose child a later arena holds is in the later arena too.
proof fn parent_stays(
    parts: Seq<PhrasematchSubquery>,
    bins: Seq<BinView>,
    m1: ArenaManager,
    m2: ArenaManager,
    k: NodeIndex,
    i: NodeIndex,
)
    requires
        bins_fit(parts, bins),
        arena_fits(parts, bins, m1),
        m2.wf(),
        later(m1, m2),
        lists(m1.nodes(), k, i),
        m2.nodes().contains_key(i),
    ensures
        lists(m2.nodes(), k, i),
{
    assert(node_fits(parts, bins, m1.nodes()[k], m1));
    child_relev(parts, bins, m1.nodes()[k], i, m1);
    assert(m2.nodes()[i] == m1.nodes()[i]);
    assert(m2.nodes().dom().contains(i));
    assert(m2.min_relev <= m2.nodes()[i].max_relev);
    assert(m1.nodes()[k].children@.len() > 0);
}

/// What a later arena lists of the nodes that were there before, these listed before.
proof fn lists_stay_back(
    parts: Seq<PhrasematchSubquery>,
    bins: Seq<BinView>,
    m1: ArenaManager,
    m2: ArenaManager,
    k: NodeIndex,
    i: NodeIndex,
)
    requires
        arena_fits(parts, bins, m1),
        later(m1, m2),
        lists(m2.nodes(), k, i),
        m1.nodes().contains_key(k),
    ensures
        lists(m1.nodes(), k, i),
{
    assert(m2.nodes()[k] == m1.nodes()[k]);
    let node = m1.nodes()[k];
    assert(node_fits(parts, bins, node, m1));
    let stem = stem_of(bins, node);
    children_known(
        parts,
        bins,
        stem,
        node.children@,
        choices(parts, bins, stem, bins.len() as int),
        m1,
    );
    assert(index_known(m1, i));
}

/// What grows under a new node, grows beside what grew before.
proof fn growth_adds_up(
    parts: Seq<PhrasematchSubquery>,
    bins: Seq<BinView>,
    m0: ArenaManager,
    m: ArenaManager,
    m1: ArenaManager,
    children: Seq<NodeIndex>,
    more: Seq<NodeIndex>,
)
    requires
        bins_fit(parts, bins),
        arena_fits(parts, bins, m),
        m1.wf(),
        later(m0, m),
        later(m, m1),
        grown(m0, m, children),
        grown(m, m1, more),
        all_known(m, children),
    ensures
        grown(m0, m1, children + more),
        forall|i: NodeIndex| #[trigger]
            children.contains(i) && m1.nodes().contains_key(i) ==> !more.contains(i),
{
    let n0 = m0.nodes();
    let n = m.nodes();
    let n1 = m1.nodes();
    let both = children + more;
    assert forall|i: NodeIndex| #[trigger] both.contains(i) <==> children.contains(i)
        || more.contains(i) by {
        if both.contains(i) {
            let k = choose|k: int| 0 <= k < both.len() && both[k] == i;
            if k < children.len() {
                assert(children[k] == i);
            } else {
                assert(more[k - children.len()] == i);
            }
        }
        if children.contains(i) {
            let k = choose|k: int| 0 <= k < children.len() && children[k] == i;
            assert(both[k] == i);
        }
        if more.contains(i) {
            let k = choose|k: int| 0 <= k < more.len() && more[k] == i;
            assert(both[k + children.len()] == i);
        }
    }
    assert forall|i: NodeIndex| #[trigger] children.contains(i) && n1.contains_key(
        i,
    ) implies n.contains_key(i) && !more.contains(i) by {
        assert(index_known(m, i));
    }
    assert forall|k: NodeIndex, i: NodeIndex| #[trigger] lists(n1, k, i) implies !both.contains(
        i,
    ) by {
        if children.contains(i) {
            if n.contains_key(k) {
                lists_stay_back(parts, bins, m, m1, k, i);
            }
        }
    }
    assert forall|i: NodeIndex| #[trigger]
        n1.contains_key(i) && !n.contains_key(i) implies !n0.contains_key(i) by {
    }
    assert forall|i: NodeIndex| #[trigger] both.contains(i) && n1.contains_key(
        i,
    ) implies !n0.contains_key(i) by {
    }
    assert forall|k: NodeIndex, i: NodeIndex| #[trigger] lists(n1, k, i) && !n0.contains_key(
        k,
    ) implies !n0.contains_key(i) by {
        if n.contains_key(k) {
            lists_stay_back(parts, bins, m, m1, k, i);
        } else {
            assert(!n.contains_key(i));
        }
    }
    if !m1.spent() {
        assert forall|i: NodeIndex| #[trigger] n1.contains_key(i) && !n0.contains_key(
            i,
        ) implies both.contains(i) || exists|k: NodeIndex| #[trigger]
            lists(n1, k, i) && !n0.contains_key(k) by {
            if n.contains_key(i) {
                if !children.contains(i) {
                    let k = choose|k: NodeIndex| #[trigger] lists(n, k, i) && !n0.contains_key(k);
                    parent_stays(parts, bins, m, m1, k, i);
                }
            } else if !more.contains(i) {
                let k = choose|k: NodeIndex| #[trigger] lists(n1, k, i) && !n.contains_key(k);
                assert(n1.contains_key(k));
            }
        }
    }
}

/// With the node of a subtree the arena holds the whole subtree.
proof fn subtree_added(
    parts: Seq<PhrasematchSubquery>,
    bins: Seq<BinView>,
    m0: ArenaManager,
    m1: ArenaManager,
    m2: ArenaManager,
    children: Seq<NodeIndex>,
    node: StackableNode,
    index: NodeIndex,
)
    requires
        bins_fit(parts, bins),
        arena_fits(parts, bins, m1),
        node_fits(parts, bins, node, m1),
        m1.wf(),
        m2.wf(),
        later(m0, m1),
        later(m1, m2),
        grown(m0, m1, children + node.children@),
        all_known(m1, children),
        forall|i: NodeIndex| #[trigger]
            children.contains(i) && m1.nodes().contains_key(i) ==> !node.children@.contains(i),
        is_added(m1, node, Some(index), m2),
    ensures
        grown(m0, m2, children.push(index)),
{
    let n0 = m0.nodes();
    let n1 = m1.nodes();
    let n2 = m2.nodes();
    let more = node.children@;
    let both = children + more;
    let pushed = children.push(index);
    let stem = stem_of(bins, node);
    assert(n2.contains_key(index) && n2[index] == node);
    children_known(parts, bins, stem, more, choices(parts, bins, stem, bins.len() as int), m1);
    assert forall|i: NodeIndex| children.contains(i) implies #[trigger] both.contains(i) by {
        let k = choose|k: int| 0 <= k < children.len() && children[k] == i;
        assert(both[k] == i);
    }
    assert forall|i: NodeIndex| more.contains(i) implies #[trigger] both.contains(i) by {
        let k = choose|k: int| 0 <= k < more.len() && more[k] == i;
        assert(both[k + children.len()] == i);
    }
    assert forall|i: NodeIndex| #[trigger] both.contains(i) implies children.contains(i)
        || more.contains(i) by {
        let k = choose|k: int| 0 <= k < both.len() && both[k] == i;
        if k < children.len() {
            assert(children[k] == i);
        } else {
            assert(more[k - children.len()] == i);
        }
    }
    assert forall|i: NodeIndex| #[trigger] pushed.contains(i) <==> children.contains(i) || i
        == index by {
        if pushed.contains(i) {
            let k = choose|k: int| 0 <= k < pushed.len() && pushed[k] == i;
            if k < children.len() {
                assert(children[k] == i);
            }
        }
        if children.contains(i) {
            let k = choose|k: int| 0 <= k < children.len() && children[k] == i;
            assert(pushed[k] == i);
        }
        assert(pushed[children.len() as int] == index);
    }
    assert(!n0.contains_key(index));
    assert forall|k: NodeIndex, i: NodeIndex| #[trigger] lists(n2, k, i) implies i != index
        && n1.contains_key(i) && (k == index ==> more.contains(i)) && (k != index ==> lists(
        n1,
        k,
        i,
    )) by {
        if k == index {
            assert(index_known(m1, i));
        } else {
            assert(n1.contains_key(k));
            lists_stay_back(parts, bins, m1, m2, k, i);
        }
    }
    assert forall|a: NodeIndex, b: NodeIndex, i: NodeIndex| #[trigger] lists(n2, a, i)
        && #[trigger] lists(n2, b, i) implies a == b by {
        if a == index && b != index {
            assert(lists(n1, b, i) && both.contains(i));
        } else if b == index && a != index {
            assert(lists(n1, a, i) && both.contains(i));
        } else if a != index {
            assert(lists(n1, a, i) && lists(n1, b, i));
        }
    }
    assert forall|k: NodeIndex, i: NodeIndex| #[trigger] lists(n2, k, i) implies !pushed.contains(
        i,
    ) by {
        if k != index {
            assert(lists(n1, k, i));
            if children.contains(i) {
                assert(both.contains(i));
            }
        }
    }
    assert forall|i: NodeIndex| #[trigger] pushed.contains(i) && n2.contains_key(
        i,
    ) implies !n0.contains_key(i) by {
        if i != index {
            assert(both.contains(i));
            assert(index_known(m1, i));
            assert(n1.contains_key(i));
        }
    }
    assert forall|k: NodeIndex, i: NodeIndex| #[trigger] lists(n2, k, i) && !n0.contains_key(
        k,
    ) implies !n0.contains_key(i) by {
        if k == index {
            assert(both.contains(i));
        } else {
            assert(lists(n1, k, i));
        }
    }
    if !m2.spent() {
        assert forall|i: NodeIndex| #[trigger] n2.contains_key(i) && !n0.contains_key(
            i,
        ) implies pushed.contains(i) || exists|k: NodeIndex| #[trigger]
            lists(n2, k, i) && !n0.contains_key(k) by {
            if i != index {
                assert(n1.contains_key(i));
                if both.contains(i) {
                    if more.contains(i) {
                        assert(lists(n2, index, i));
                    }
                } else {
                    let k = choose|k: NodeIndex| #[trigger] lists(n1, k, i) && !n0.contains_key(k);
                    parent_stays(parts, bins, m1, m2, k, i);
                }
            }
        }
    }
}

/// Where the node of a subtree is rejected, the arena holds nothing of the subtree.
proof fn subtree_rejected(
    parts: Seq<PhrasematchSubquery>,
    bins: Seq<BinView>,
    m0: ArenaManager,
    m1: ArenaManager,
    children: Seq<NodeIndex>,
    node: StackableNode,
)
    requires
        bins_fit(parts, bins),
        node_fits(parts, bins, node, m1),
        m1.wf(),
        grown(m0, m1, children + node.children@),
        m1.spent() || (m1.full() && is_beaten(node, m1.min_relev)),
    ensures
        grown(m0, m1, children),
{
    let n1 = m1.nodes();
    let more = node.children@;
    let both = children + more;
    assert forall|i: NodeIndex| children.contains(i) implies #[trigger] both.contains(i) by {
        let k = choose|k: int| 0 <= k < children.len() && children[k] == i;
        assert(both[k] == i);
    }
    assert forall|k: NodeIndex, i: NodeIndex| #[trigger] lists(n1, k, i) implies !children.contains(
        i,
    ) by {
        if children.contains(i) {
            assert(both.contains(i));
        }
    }
    assert forall|i: NodeIndex| #[trigger] children.contains(i) && n1.contains_key(
        i,
    ) implies !m0.nodes().contains_key(i) by {
        assert(both.contains(i));
    }
    if !m1.spent() {
        assert forall|i: NodeIndex| #[trigger] n1.contains_key(i) && both.contains(
            i,
        ) implies children.contains(i) by {
            let k = choose|k: int| 0 <= k < both.len() && both[k] == i;
            if k < children.len() {
                assert(children[k] == i);
            } else {
                assert(more[k - children.len()] == i);
                child_relev(parts, bins, node, i, m1);
                assert(n1.dom().contains(i));
                assert(m1.min_relev <= n1[i].max_relev);
            }
        }
    }
}

/// Recursively builds stackable tree from binned phrasematches.
///
/// This is the core tree-building algorithm that creates all valid phrase combinations: what can
/// be stacked on a combination comes from any of the bins behind that of its last part.
///
/// # Parameters
/// - `bins`: Phrasematches grouped by type
/// - `parent`: The last phrase of the combination (None for root)
/// - `bmask`: Bitmask of indexes already used in this branch
/// - `mask`: Combined mask of all phrases in this combination
/// - `parent_idx`: Index of the last phrase
/// - `relev_so_far`: Accumulated relevance
/// - `bin_idx`: First of the remaining bins
/// - `zoom`: Zoom level
/// - `arena`: Arena manager for node allocation
///
/// # Returns
/// Root node of the subtree
fn binned_stackable(
    parts: &Vec<PhrasematchSubquery>,
    bins: &Vec<PhrasematchBin>,
    parent: Option<usize>,
    bmask: FixedBitSet,
    mask: u32,
    parent_idx: u16,
    relev_so_far: i128,
    bin_idx: usize,
    zoom: u16,
    arena: &mut ArenaManager,
) -> (node: StackableNode)
    requires
        parts_fit(parts@),
        bins_fit(parts@, bins_view(bins@)),
        bins_apart(bins_view(bins@)),
        sums_fit(bins@),
        parent is Some ==> parent->Some_0 < parts@.len(),
        bitset_len(bmask) == MAX_INDEXES,
        0 <= relev_so_far <= bin_idx * 0x400_0000_0000,
        bin_idx <= bins@.len(),
        old(arena).wf(),
        arena_fits(parts@, bins_view(bins@), *old(arena)),
        single_parents(old(arena).nodes()),
    ensures
        final(arena).wf(),
        later(*old(arena), *final(arena)),
        arena_fits(parts@, bins_view(bins@), *final(arena)),
        node_fits(parts@, bins_view(bins@), node, *final(arena)),
        grown(*old(arena), *final(arena), node.children@),
        final(arena).added <= old(arena).added + combination_count(
            parts@,
            bins_view(bins@),
            stem_of(bins_view(bins@), node),
        ),
        node.phrasematch == parent,
        bitset_bits(node.bmask) == bitset_bits(bmask),
        node.mask == mask,
        node.idx == parent_idx,
        node.max_relev == relev_so_far + relev_from(bins_view(bins@), bin_idx as int),
        node.zoom == zoom,
        node.level == bin_idx,
    decreases bins@.len() - bin_idx,
{
    let ghost pv = parts@;
    let ghost bv = bins_view(bins@);
    let ghost stem = stem_at(parent, bmask, mask, relev_so_far as int, bin_idx as int);
    let mut children: Vec<NodeIndex> = Vec::new();
    let total: usize = bins.len();
    let mut j: usize = bin_idx;
    proof {
        assert(choices(pv, bv, stem, j as int) =~= Seq::empty());
    }
    // Process remaining bins
    while j < total
        invariant
            bin_idx <= j <= total == bins@.len(),
            pv == parts@,
            bv == bins_view(bins@),
            stem == stem_at(parent, bmask, mask, relev_so_far as int, bin_idx as int),
            parts_fit(pv),
            bins_fit(pv, bv),
            bins_apart(bv),
            sums_fit(bins@),
            parent is Some ==> parent->Some_0 < pv.len(),
            bitset_len(bmask) == MAX_INDEXES,
            0 <= relev_so_far <= bin_idx * 0x400_0000_0000,
            arena.wf(),
            later(*old(arena), *arena),
            arena_fits(pv, bv, *arena),
            grown(*old(arena), *arena, children@),
            arena.added <= old(arena).added + stacked_count(
                pv,
                bv,
                stem,
                choices(pv, bv, stem, j as int),
            ),
            children_fit(pv, bv, stem, children@, choices(pv, bv, stem, j as int), *arena),
            children_precede(pv, bv, children@, *arena, j as int, 0),
        decreases total - j,
    {
        let ghost before = choices(pv, bv, stem, j as int);
        let bin: &PhrasematchBin = &bins[j];
        let max_relev_after_this: i128 = bin.max_relev_after_this;
        let count: usize = bin.phrasematches.len();
        let mut n: usize = 0;
        proof {
            assert(bv[j as int] == bins@[j as int]@);
            assert(before + Seq::<(int, usize)>::empty() =~= before);
            relev_from_bounds(bv, j + 1);
        }
        while n < count
            invariant
                n <= count,
                count == bv[j as int].members.len(),
                bv[j as int].members == bin.phrasematches@,
                bin_idx <= j < total == bins@.len(),
                pv == parts@,
                bv == bins_view(bins@),
                stem == stem_at(parent, bmask, mask, relev_so_far as int, bin_idx as int),
                parts_fit(pv),
                bins_fit(pv, bv),
                bins_apart(bv),
                sums_fit(bins@),
                parent is Some ==> parent->Some_0 < pv.len(),
                bitset_len(bmask) == MAX_INDEXES,
                0 <= relev_so_far <= bin_idx * 0x400_0000_0000,
                max_relev_after_this == relev_from(bv, j + 1),
                0 <= max_relev_after_this <= (total - j) * 0x400_0000_0000,
                arena.wf(),
                later(*old(arena), *arena),
                arena_fits(pv, bv, *arena),
                grown(*old(arena), *arena, children@),
                arena.added <= old(arena).added + stacked_count(
                    pv,
                    bv,
                    stem,
                    before + bin_choices(pv, bv, stem, j as int, n as int),
                ),
                before == choices(pv, bv, stem, j as int),
                children_fit(
                    pv,
                    bv,
                    stem,
                    children@,
                    before + bin_choices(pv, bv, stem, j as int, n as int),
                    *arena,
                ),
                children_precede(pv, bv, children@, *arena, j as int, n as int),
            decreases count - n,
        {
            let ghost found = before + bin_choices(pv, bv, stem, j as int, n as int);
            let p: usize = bin.phrasematches[n];
            proof {
                assert(bv[j as int].members[n as int] == p);
                assert(bv[j as int].members.contains(p));
                assert(pv[p as int].idx < MAX_INDEXES);
            }
            let idx: usize = parts[p].idx as usize;
            let conflict: bool = match parent {
                Some(last) => parts[last].non_overlapping_indexes.contains(idx),
                None => false,
            };
            let new_relev: i128 = relev_so_far + parts[p].weight as i128 * RELEV_PER_WEIGHT;
            let ghost choice = (j as int, p);
            // Skip if this index already used in this branch, if this phrase covers a word that is
            // covered already, if it conflicts with the last one, or if the threshold can't be
            // reached even with all remaining bins
            if !bmask.contains(idx) && mask & parts[p].mask == 0 && !conflict && new_relev + max_relev_after_this
                >= MIN_STACK_RELEV {
                proof {
                    assert(can_stack(pv, bv, stem, j as int, p));
                    assert(bin_choices(pv, bv, stem, j as int, n + 1) == bin_choices(
                        pv,
                        bv,
                        stem,
                        j as int,
                        n as int,
                    ).push(choice));
                    assert(before + bin_choices(pv, bv, stem, j as int, n + 1) =~= found.push(
                        choice,
                    ));
                }
                let mut new_bmask: FixedBitSet = clone_bits(&bmask);
                new_bmask.insert(idx);
                let new_mask: u32 = mask | parts[p].mask;
                let new_zoom: u16 = parts[p].store.zoom;
                let ghost m0 = *arena;
                // Recursively build subtree for this phrase
                let child: StackableNode = binned_stackable(
                    parts,
                    bins,
                    Some(p),
                    new_bmask,
                    new_mask,
                    parts[p].idx,
                    new_relev,
                    j + 1,
                    new_zoom,
                    arena,
                );
                let ghost m1 = *arena;
                let ghost built = child;
                proof {
                    children_known(pv, bv, stem, children@, found, m0);
                    growth_adds_up(pv, bv, *old(arena), m0, m1, children@, built.children@);
                    later_is_transitive(*old(arena), m0, m1);
                    choices_fit(pv, bv, stem, j as int);
                    bin_choices_fit(pv, bv, stem, j as int, n as int);
                    children_stay(pv, bv, stem, children@, found, m0, m1);
                    precede_stays(
                        pv,
                        bv,
                        stem,
                        children@,
                        found,
                        m0,
                        m1,
                        j as int,
                        n as int,
                    );
                    assert(is_child(pv, bv, stem, built));
                    assert(found.push(choice).drop_last() =~= found);
                    assert(stem_of(bv, built) == stacked(pv, stem, j as int, p));
                }
                // Add child to arena and track index
                match arena.add(child) {
                    Some(child_idx) => {
                        proof {
                            let m2 = *arena;
                            added_is_later(m1, m2, built, child_idx);
                            children_known(pv, bv, stem, children@, found, m1);
                            subtree_added(
                                pv,
                                bv,
                                *old(arena),
                                m1,
                                m2,
                                children@,
                                built,
                                child_idx,
                            );
                            later_is_transitive(*old(arena), m1, m2);
                            nodes_stay(pv, bv, built, m1, m2);
                            assert forall|i: NodeIndex|
                                #![trigger m2.nodes().contains_key(i)]
                                m2.nodes().contains_key(i) && !m1.nodes().contains_key(
                                    i,
                                ) implies node_fits(pv, bv, m2.nodes()[i], m2) by {
                                assert(i == child_idx);
                            }
                            arena_stays(pv, bv, m1, m2);
                            children_stay(pv, bv, stem, children@, found, m1, m2);
                            precede_stays(
                                pv,
                                bv,
                                stem,
                                children@,
                                found,
                                m1,
                                m2,
                                j as int,
                                n as int,
                            );
                            child_pushed(
                                pv,
                                bv,
                                stem,
                                children@,
                                found,
                                m2,
                                child_idx,
                                j as int,
                                n as int,
                            );
                        }
                        children.push(child_idx);
                    },
                    None => {
                        proof {
                            subtree_rejected(pv, bv, *old(arena), m1, children@, built);
                            choice_missed(pv, bv, stem, children@, found, m1, choice);
                            precede_grows(pv, bv, children@, m1, j as int, n as int);
                        }
                    },
                }
            } else {
                proof {
                    assert(!can_stack(pv, bv, stem, j as int, p));
                    precede_grows(pv, bv, children@, *arena, j as int, n as int);
                }
            }
            n += 1;
        }
        proof {
            assert(choices(pv, bv, stem, j + 1) == before + bin_choices(
                pv,
                bv,
                stem,
                j as int,
                count as int,
            ));
            next_bin_precedes(pv, bv, children@, *arena, j as int, n as int);
        }
        j += 1;
    }
    proof {
        relev_from_bounds(bv, bin_idx as int);
    }
    let max_relev: i128 = if bin_idx < total {
        proof {
            assert(bv[bin_idx as int] == bins@[bin_idx as int]@);
            relev_from_bounds(bv, bin_idx + 1);
        }
        relev_so_far + bins[bin_idx].max_relev + bins[bin_idx].max_relev_after_this
    } else {
        relev_so_far
    };
    let node = StackableNode {
        phrasematch: parent,
        children,
        bmask,
        mask,
        idx: parent_idx,
        max_relev,
        zoom,
        level: bin_idx,
    };
    assert(stem_of(bv, node) == stem);
    node
}

proof fn precede_grows(
    parts: Seq<PhrasematchSubquery>,
    bins: Seq<BinView>,
    children: Seq<NodeIndex>,
    m: ArenaManager,
    j: int,
    n: int,
)
    requires
        children_precede(parts, bins, children, m, j, n),
    ensures
        children_precede(parts, bins, children, m, j, n + 1),
{
    assert forall|k: int|
        #![trigger children[k]]
        0 <= k < children.len() implies child_precedes(
        parts,
        bins,
        m.nodes(),
        children[k],
        j,
        n + 1,
    ) by {
        assert(child_precedes(parts, bins, m.nodes(), children[k], j, n));
    }
}

proof fn next_bin_precedes(
    parts: Seq<PhrasematchSubquery>,
    bins: Seq<BinView>,
    children: Seq<NodeIndex>,
    m: ArenaManager,
    j: int,
    n: int,
)
    requires
        children_precede(parts, bins, children, m, j, n),
    ensures
        children_precede(parts, bins, children, m, j + 1, 0),
{
    assert forall|k: int|
        #![trigger children[k]]
        0 <= k < children.len() implies child_precedes(
        parts,
        bins,
        m.nodes(),
        children[k],
        j + 1,
        0,
    ) by {
        assert(child_precedes(parts, bins, m.nodes(), children[k], j, n));
    }
}

pub(crate) proof fn bins_by_type(parts: Seq<PhrasematchSubquery>, j: int)
    requires
        0 <= j < bins_of(parts).len(),
    ensures
        forall|p: usize| #[trigger]
            bins_of(parts)[j].members.contains(p) ==> p < parts.len() && part_type(
                parts,
                p as int,
            ) == in_order(part_types(parts), num_u32())[j],
        bins_of(parts).len() == in_order(part_types(parts), num_u32()).len(),
        ascending(in_order(part_types(parts), num_u32()), num_u32()),
{
    let types = in_order(part_types(parts), num_u32());
    let list = Seq::new(parts.len(), |i: int| part_type(parts, i));
    assert forall|t: u32| list.to_set().contains(t) <==> part_types(parts).contains(t) by {
        if part_types(parts).contains(t) {
            let p = choose|p: int| 0 <= p < parts.len() && #[trigger] part_type(parts, p) == t;
            assert(list[p] == t);
        }
        if list.contains(t) {
            let p = choose|p: int| 0 <= p < list.len() && list[p] == t;
            assert(part_type(parts, p) == t);
        }
    }
    assert(list.to_set() =~= part_types(parts));
    vstd::seq_lib::seq_to_set_is_finite(list);
    in_order_exists(part_types(parts), num_u32());
    let t = types[j];
    let places = Seq::new(parts.len(), |i: int| i as usize);
    vstd::seq_lib::seq_to_set_is_finite(places);
    let of_type = parts_of_type(parts, t);
    in_order_of_type(parts, t);
    assert forall|p: usize| #[trigger]
        bins_of(parts)[j].members.contains(p) implies p < parts.len() && part_type(
        parts,
        p as int,
    ) == t by {
        let members = in_order(of_type, part_num(parts));
        assert(bins_of(parts)[j].members == members);
        assert(members.to_set().contains(p));
    }
}

/// The types of the bins occur among the parts.
pub(crate) proof fn types_occur(parts: Seq<PhrasematchSubquery>, j: int)
    requires
        0 <= j < bins_of(parts).len(),
    ensures
        parts.len() > 0,
{
    if parts.len() == 0 {
        assert(part_types(parts) =~= Set::empty());
        in_order_exists(part_types(parts), num_u32());
    }
}

pub(crate) proof fn relev_from_skips(bins: Seq<BinView>, level: int, j: int)
    requires
        0 <= level <= j <= bins.len(),
        forall|k: int| 0 <= k < bins.len() ==> 0 <= (#[trigger] bins[k]).max,
    ensures
        relev_from(bins, j) <= relev_from(bins, level),
    decreases j - level,
{
    if level < j {
        relev_from_skips(bins, level + 1, j);
        assert(0 <= bins[level].max);
    }
}

proof fn greatest_relev_is_greatest(
    parts: Seq<PhrasematchSubquery>,
    members: Seq<usize>,
    p: usize,
)
    requires
        members.contains(p),
    ensures
        part_relev(parts, p) <= greatest_relev(parts, members),
    decreases members.len(),
{
    let rest = members.drop_last();
    if members.last() != p {
        let i = choose|i: int| 0 <= i < members.len() && members[i] == p;
        assert(rest[i] == p);
        greatest_relev_is_greatest(parts, rest, p);
    }
}

/// The bins of the parts hold parts, in their order, and each part is in one of them only.
pub(crate) proof fn bins_of_fit(parts: Seq<PhrasematchSubquery>)
    ensures
        bins_fit(parts, bins_of(parts)),
        bins_apart(bins_of(parts)),
{
    let bins = bins_of(parts);
    let types = in_order(part_types(parts), num_u32());
    assert forall|j: int| 0 <= j < bins.len() implies ascending(
        (#[trigger] bins[j]).members,
        part_num(parts),
    ) && 0 <= bins[j].max <= 0x400_0000_0000 && (forall|q: int|
        0 <= q < bins[j].members.len() ==> (#[trigger] bins[j].members[q]) < parts.len()
            && part_relev(parts, bins[j].members[q]) <= bins[j].max) && bins[j].members.to_set()
        == parts_of_type(parts, types[j]) by {
        bins_by_type(parts, j);
        in_order_of_type(parts, types[j]);
        greatest_relev_bounds(parts, bins[j].members);
        assert forall|q: int| 0 <= q < bins[j].members.len() implies (#[trigger] bins[j].members[q])
            < parts.len() && part_relev(parts, bins[j].members[q]) <= bins[j].max by {
            assert(bins[j].members.contains(bins[j].members[q]));
            greatest_relev_is_greatest(parts, bins[j].members, bins[j].members[q]);
        }
    }
    if bins.len() > 0 {
        bins_by_type(parts, 0);
        bins_of_apart(parts);
    }
}

/// What is stacked on a combination is of a higher index type than its last part and of an index
/// that does not occur in it, covers none of its words, and can become no more relevant than the
/// combination could before.
pub proof fn stacking_is_sound(
    parts: Seq<PhrasematchSubquery>,
    below: Stem,
    node: StackableNode,
    child: StackableNode,
)
    requires
        0 <= below.level,
        is_child(parts, bins_of(parts), below, node),
        is_child(parts, bins_of(parts), stem_of(bins_of(parts), node), child),
    ensures
        parts[node.phrasematch->Some_0 as int].store.type_id
            < parts[child.phrasematch->Some_0 as int].store.type_id,
        !bitset_bits(node.bmask).contains(child.idx as usize),
        bitset_bits(child.bmask) == bitset_bits(node.bmask).insert(child.idx as usize),
        node.mask & parts[child.phrasematch->Some_0 as int].mask == 0,
        child.mask == node.mask | parts[child.phrasematch->Some_0 as int].mask,
        child.max_relev <= node.max_relev,
{
    let bins = bins_of(parts);
    let a = node.level - 1;
    let b = child.level - 1;
    let p = child.phrasematch->Some_0;
    bins_by_type(parts, a);
    bins_by_type(parts, b);
    let types = in_order(part_types(parts), num_u32());
    assert(bins[a].members.contains(node.phrasematch->Some_0));
    assert(bins[b].members.contains(p));
    assert(num_u32()(types[a]) < num_u32()(types[b]));
    assert(part_type(parts, node.phrasematch->Some_0 as int) == types[a]);
    assert(part_type(parts, p as int) == types[b]);
    assert forall|k: int| 0 <= k < bins.len() implies 0 <= (#[trigger] bins[k]).max by {
        greatest_relev_bounds(parts, bins[k].members);
    }
    greatest_relev_is_greatest(parts, bins[b].members, p);
    relev_from_skips(bins, node.level as int, b);
}

/// Complete stackable tree with root node and arena manager.
///
/// The tree represents all valid phrase combinations that can be spatially stacked.
pub struct StackableTree<'a> {
    pub root: StackableNode,
    pub arena: ArenaManager,
    /// The parts of the query that the nodes refer to
    pub phrasematches: &'a Vec<PhrasematchSubquery<'a>>,
}

/// The tree of the combinations of the parts: its root is the empty combination, and the children
/// of each node are what can be stacked on its combination. Each node of the arena hangs in the
/// tree, in one place only, and no more nodes were added than there are combinations.
pub open spec fn is_stack_tree(tree: StackableTree) -> bool {
    let parts = tree.phrasematches@;
    let bins = bins_of(parts);
    &&& tree.root.phrasematch is None
    &&& bitset_bits(tree.root.bmask) == Set::<usize>::empty()
    &&& tree.root.mask == 0
    &&& tree.root.level == 0
    &&& tree.root.zoom == 0
    &&& tree.root.idx == MAX_INDEXES + 1
    &&& tree.root.max_relev == relev_from(bins, 0)
    &&& tree.arena.wf()
    &&& node_fits(parts, bins, tree.root, tree.arena)
    &&& arena_fits(parts, bins, tree.arena)
    &&& single_parents(tree.arena.nodes())
    &&& apart_from(tree.arena.nodes(), tree.root.children@)
    &&& tree.arena.added <= combination_count(parts, bins, empty_stem())
    &&& !tree.arena.spent() ==> all_hang(tree.arena.nodes(), tree.root.children@)
}

/// Builds a stackable tree from a list of phrasematch subqueries.
///
/// # Algorithm
///
/// 1. **Bin by type**: Group phrases by their index type
///    - Example: streets (type=0), cities (type=1), countries (type=2)
///
/// 2. **Calculate max relevance**: For each bin, track max possible relevance
///    - Used for pruning combinations that can't become relevant enough
///
/// 3. **Build tree recursively**: Each level adds one phrase of a later type
///
/// 4. **Arena management**: Keep the best of the leaf combinations
///
/// # Example
///
/// Query: "Main Street Seattle", phrasematches: [streets:"Main Street", cities:"Seattle"]
///
/// ```text
/// Root
///   +- streets:"Main Street" (can stack with cities)
///   |    +- cities:"Seattle" (leaf: complete address)
///   +- cities:"Seattle" (can stand alone)
/// ```
pub fn stackable<'a>(phrasematches: &'a Vec<PhrasematchSubquery<'a>>) -> (tree: StackableTree<'a>)
    requires
        parts_fit(phrasematches@),
    ensures
        is_stack_tree(tree),
        tree.phrasematches@ == phrasematches@,
        tree.arena.soft_max == LEAF_SOFT_MAX,
        phrasematches@.len() == 0 ==> tree.root.children@.len() == 0,
{
    let mut arena: ArenaManager = ArenaManager::new();
    let bins: Vec<PhrasematchBin> = make_bins(phrasematches);
    let root: StackableNode = binned_stackable(
        phrasematches,
        &bins,
        None,
        FixedBitSet::with_capacity(MAX_INDEXES),
        0,
        MAX_INDEXES as u16 + 1,
        0,
        0,
        0,
        &mut arena,
    );
    proof {
        assert(stem_of(bins_of(phrasematches@), root) == empty_stem());
    }
    let tree = StackableTree { root, arena, phrasematches };
    proof {
        if phrasematches@.len() == 0 {
            no_parts_make_no_nodes(tree);
        }
    }
    tree
}

// ---------------------------------------------------------------------------------------------
// Traversal
// ---------------------------------------------------------------------------------------------

/// The nodes of the children that the arena still holds.
pub open spec fn child_nodes(nodes: Nodes, children: Seq<NodeIndex>) -> Seq<StackableNode>
    decreases children.len(),
{
    if children.len() == 0 {
        Seq::empty()
    } else {
        let before = child_nodes(nodes, children.drop_last());
        if nodes.contains_key(children.last()) {
            before.push(nodes[children.last()])
        } else {
            before
        }
    }
}

/// The children of all the nodes, node by node.
pub open spec fn all_child_nodes(nodes: Nodes, of: Seq<StackableNode>) -> Seq<StackableNode>
    decreases of.len(),
{
    if of.len() == 0 {
        Seq::empty()
    } else {
        all_child_nodes(nodes, of.drop_last()) + child_nodes(nodes, of.last().children@)
    }
}

/// The number of nodes of the tree under a node, the node itself among them.
pub open spec fn tree_size(nodes: Nodes, levels: int, node: StackableNode) -> nat
    decreases levels - node.level, node.children@.len() + 1,
{
    1 + children_size(nodes, levels, node.level as int, node.children@)
}

/// The number of nodes of the trees under the children of a node at `level`.
pub open spec fn children_size(
    nodes: Nodes,
    levels: int,
    level: int,
    children: Seq<NodeIndex>,
) -> nat
    decreases levels - level, children.len(),
{
    if children.len() == 0 {
        0
    } else {
        let before = children_size(nodes, levels, level, children.drop_last());
        let index = children.last();
        if nodes.contains_key(index) && level < nodes[index].level <= levels {
            before + tree_size(nodes, levels, nodes[index])
        } else {
            before
        }
    }
}

/// The number of nodes of the trees under the nodes.
pub open spec fn forest_size(nodes: Nodes, levels: int, of: Seq<StackableNode>) -> nat
    decreases of.len(),
{
    if of.len() == 0 {
        0
    } else {
        forest_size(nodes, levels, of.drop_last()) + tree_size(nodes, levels, of.last())
    }
}

proof fn forest_size_concat(
    nodes: Nodes,
    levels: int,
    a: Seq<StackableNode>,
    b: Seq<StackableNode>,
)
    ensures
        forest_size(nodes, levels, a + b) == forest_size(nodes, levels, a) + forest_size(
            nodes,
            levels,
            b,
        ),
    decreases b.len(),
{
    if b.len() == 0 {
        assert(a + b =~= a);
    } else {
        assert((a + b).drop_last() =~= a + b.drop_last());
        forest_size_concat(nodes, levels, a, b.drop_last());
    }
}

/// The children of a node of a tree make up the rest of its size.
pub(crate) proof fn children_make_size(
    nodes: Nodes,
    levels: int,
    level: int,
    children: Seq<NodeIndex>,
)
    requires
        forall|k: int|
            0 <= k < children.len() && nodes.contains_key(#[trigger] children[k]) ==> level
                < nodes[children[k]].level <= levels,
    ensures
        forest_size(nodes, levels, child_nodes(nodes, children)) == children_size(
            nodes,
            levels,
            level,
            children,
        ),
    decreases children.len(),
{
    if children.len() > 0 {
        let rest = children.drop_last();
        assert forall|k: int|
            0 <= k < rest.len() && nodes.contains_key(#[trigger] rest[k]) implies level
            < nodes[rest[k]].level <= levels by {
            assert(rest[k] == children[k]);
        }
        children_make_size(nodes, levels, level, rest);
        let before = child_nodes(nodes, rest);
        assert(children[children.len() - 1] == children.last());
        if nodes.contains_key(children.last()) {
            assert(before.push(nodes[children.last()]).drop_last() =~= before);
        }
    }
}

/// The nodes that the references stand for.
pub open spec fn nodes_of(refs: Seq<&StackableNode>) -> Seq<StackableNode> {
    refs.map_values(|n: &StackableNode| *n)
}

/// The children of a node of a tree are deeper than it.
pub(crate) proof fn children_are_deeper(tree: StackableTree, node: StackableNode)
    requires
        is_stack_tree(tree),
        node_fits(tree.phrasematches@, bins_of(tree.phrasematches@), node, tree.arena),
    ensures
        forall|k: int|
            0 <= k < node.children@.len() && tree.arena.nodes().contains_key(
                #[trigger] node.children@[k],
            ) ==> node.level < tree.arena.nodes()[node.children@[k]].level
                <= bins_of(tree.phrasematches@).len(),
{
    let parts = tree.phrasematches@;
    let bins = bins_of(parts);
    assert forall|k: int|
        0 <= k < node.children@.len() && tree.arena.nodes().contains_key(
            #[trigger] node.children@[k],
        ) implies node.level < tree.arena.nodes()[node.children@[k]].level <= bins.len() by {
        assert(child_fits(parts, bins, stem_of(bins, node), node.children@[k], tree.arena));
    }
}

proof fn forest_size_first(nodes: Nodes, levels: int, of: Seq<StackableNode>)
    requires
        of.len() > 0,
    ensures
        forest_size(nodes, levels, of) == tree_size(nodes, levels, of[0]) + forest_size(
            nodes,
            levels,
            of.skip(1),
        ),
{
    let first = seq![of[0]];
    assert(of =~= first + of.skip(1));
    forest_size_concat(nodes, levels, first, of.skip(1));
    assert(first.drop_last() =~= Seq::empty());
    assert(first.last() == of[0]);
    assert(forest_size(nodes, levels, Seq::empty()) == 0);
}

/// The root, and behind it the children of each of the nodes in turn.
pub open spec fn is_breadth_first(tree: StackableTree, found: Seq<StackableNode>) -> bool {
    found == seq![tree.root] + all_child_nodes(tree.arena.nodes(), found)
}

/// Breadth-first search traversal of stackable tree.
///
/// Returns all nodes in BFS order starting from root: behind the root the children of each node in
/// turn.
pub fn bfs<'t>(tree: &'t StackableTree) -> (node_vec: Vec<&'t StackableNode>)
    requires
        is_stack_tree(*tree),
    ensures
        is_breadth_first(*tree, nodes_of(node_vec@)),
{
    let ghost nodes = tree.arena.nodes();
    let ghost parts = tree.phrasematches@;
    let ghost bins = bins_of(parts);
    let ghost levels = bins.len() as int;
    let mut node_vec: Vec<&'t StackableNode> = Vec::new();
    node_vec.push(&tree.root);
    let mut i: usize = 0;
    proof {
        let v = nodes_of(node_vec@);
        assert(v.take(0) =~= Seq::empty());
        assert(v =~= seq![tree.root] + all_child_nodes(nodes, v.take(0)));
    }
    while i < node_vec.len()
        invariant
            i <= node_vec@.len(),
            is_stack_tree(*tree),
            nodes == tree.arena.nodes(),
            parts == tree.phrasematches@,
            bins == bins_of(parts),
            levels == bins.len(),
            nodes_of(node_vec@) == seq![tree.root] + all_child_nodes(
                nodes,
                nodes_of(node_vec@).take(i as int),
            ),
            forall|k: int|
                0 <= k < node_vec@.len() ==> node_fits(parts, bins, *#[trigger] node_vec@[k], tree.arena),
        decreases forest_size(nodes, levels, nodes_of(node_vec@).skip(i as int)),
    {
        let node: &'t StackableNode = node_vec[i];
        let ghost before = node_vec@;
        let ghost v = nodes_of(before);
        let count: usize = node.children.len();
        let mut k: usize = 0;
        proof {
            assert(node_fits(parts, bins, *before[i as int], tree.arena));
            assert(node.children@.take(0) =~= Seq::empty());
            assert(v + Seq::<StackableNode>::empty() =~= v);
        }
        while k < count
            invariant
                k <= count == node.children@.len(),
                is_stack_tree(*tree),
                nodes == tree.arena.nodes(),
                parts == tree.phrasematches@,
                bins == bins_of(parts),
                v == nodes_of(before),
                before.len() <= node_vec@.len(),
                nodes_of(node_vec@) == v + child_nodes(nodes, node.children@.take(k as int)),
                forall|q: int|
                    0 <= q < node_vec@.len() ==> node_fits(
                        parts,
                        bins,
                        *#[trigger] node_vec@[q],
                        tree.arena,
                    ),
            decreases count - k,
        {
            let ghost had = node_vec@;
            proof {
                assert(node.children@.take(k + 1).drop_last() =~= node.children@.take(k as int));
            }
            match tree.arena.get(node.children[k]) {
                Some(child) => {
                    proof {
                        assert(node_fits(parts, bins, nodes[node.children@[k as int]], tree.arena));
                    }
                    node_vec.push(child);
                    assert(nodes_of(node_vec@) =~= nodes_of(had).push(*child));
                },
                None => {},
            }
            k += 1;
            assert(nodes_of(node_vec@) =~= v + child_nodes(nodes, node.children@.take(k as int)));
        }
        proof {
            let now = nodes_of(node_vec@);
            let kids = child_nodes(nodes, node.children@);
            assert(node.children@.take(k as int) =~= node.children@);
            assert(v[i as int] == *node);
            assert(now.take(i + 1) =~= v.take(i as int).push(*node));
            assert(now.take(i + 1).drop_last() =~= v.take(i as int));
            assert(now =~= seq![tree.root] + all_child_nodes(nodes, now.take(i + 1)));
            // The node has left what is still to be done, its children have joined it
            children_are_deeper(*tree, *node);
            children_make_size(nodes, levels, node.level as int, node.children@);
            forest_size_first(nodes, levels, v.skip(i as int));
            assert(v.skip(i as int).skip(1) =~= v.skip(i + 1));
            assert(now.skip(i + 1) =~= v.skip(i + 1) + kids);
            forest_size_concat(nodes, levels, v.skip(i + 1), kids);
        }
        i += 1;
    }
    proof {
        let v = nodes_of(node_vec@);
        assert(v.take(i as int) =~= v);
    }
    node_vec
}

} // verus!
