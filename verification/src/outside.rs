//! The library's boundary with the crates it builds on.
//!
//! Every item here that is marked `external_body`, and every `assume_specification`, states what
//! an outside function does; nothing in this module is an algorithm of the library itself.

use byteorder::{BigEndian, WriteBytesExt};
use fixedbitset::FixedBitSet;
use fxhash::{FxHashMap, FxHashSet};
use generational_arena::{Arena, Index};
use interval_heap::IntervalHeap;
use itertools::Itertools;
use morton::{deinterleave_morton, interleave_morton};
use smallvec::SmallVec;
use static_bushes::KDBush;
use std::sync::Arc;
use vstd::multiset::Multiset;
use vstd::prelude::*;

use crate::arena::StackableNode;
use crate::decode::{coord_first, in_rank_order, scored_view, ScoredCoord, ScoredView};
use crate::rank::{rank_le, RankKey};
use crate::tree::TreeCoalesceState;

verus! {

// ---------------------------------------------------------------------------------------------
// byteorder
// ---------------------------------------------------------------------------------------------

/// The four bytes of `v`, most significant first.
pub open spec fn be_bytes(v: u32) -> Seq<u8> {
    seq![
        (v / 0x100_0000) as u8,
        (v / 0x1_0000 % 0x100) as u8,
        (v / 0x100 % 0x100) as u8,
        (v % 0x100) as u8,
    ]
}

/// Calls `byteorder::WriteBytesExt::write_u32::<BigEndian>` on a byte vector: the four bytes of
/// `v` are appended, most significant first. Writing into a vector does not fail.
#[verifier::external_body]
pub(crate) fn write_u32_be(out: &mut Vec<u8>, v: u32)
    ensures
        final(out)@ == old(out)@ + be_bytes(v),
{
    out.write_u32::<BigEndian>(v).unwrap();
}

// ---------------------------------------------------------------------------------------------
// morton
// ---------------------------------------------------------------------------------------------

/// The number whose even bits are the bits of `v` and whose odd bits are zero.
pub open spec fn spread_bits(v: nat) -> nat
    decreases v,
{
    if v == 0 {
        0
    } else {
        v % 2 + 4 * spread_bits(v / 2)
    }
}

/// The number made of the even bits of `v`.
pub open spec fn even_bits(v: nat) -> nat
    decreases v,
{
    if v == 0 {
        0
    } else {
        v % 2 + 2 * even_bits(v / 4)
    }
}

/// Calls `morton::interleave_morton`: the bits of `x` become the even bits of the code and the
/// bits of `y` its odd bits.
#[verifier::external_body]
pub(crate) fn interleave(x: u16, y: u16) -> (code: u32)
    ensures
        code == spread_bits(x as nat) + 2 * spread_bits(y as nat),
{
    interleave_morton(x, y)
}

/// Calls `morton::deinterleave_morton`: `x` is read from the even bits of the code and `y` from
/// its odd bits.
#[verifier::external_body]
pub(crate) fn deinterleave(code: u32) -> (xy: (u16, u16))
    ensures
        xy.0 == even_bits(code as nat),
        xy.1 == even_bits(code as nat / 2),
{
    deinterleave_morton(code)
}

// ---------------------------------------------------------------------------------------------
// bincode
// ---------------------------------------------------------------------------------------------

/// The plain form of the coordinates of one relevance and score: each code with its features.
pub open spec fn coords_view(coords: Seq<(u32, Vec<u32>)>) -> Seq<(u32, Seq<u32>)> {
    coords.map_values(|c: (u32, Vec<u32>)| (c.0, c.1@))
}

/// The plain form of a stored value.
pub open spec fn groups_view(groups: Seq<(u8, Vec<(u32, Vec<u32>)>)>) -> Seq<
    (u8, Seq<(u32, Seq<u32>)>),
> {
    groups.map_values(|g: (u8, Vec<(u32, Vec<u32>)>)| (g.0, coords_view(g.1@)))
}

/// The low `n` bytes of `v`, least significant first.
pub open spec fn le_bytes(v: nat, n: nat) -> Seq<u8>
    decreases n,
{
    if n == 0 {
        Seq::empty()
    } else {
        seq![(v % 0x100) as u8] + le_bytes(v / 0x100, (n - 1) as nat)
    }
}

/// The words, each in four bytes.
pub open spec fn encoded_ids(ids: Seq<u32>) -> Seq<u8>
    decreases ids.len(),
{
    if ids.len() == 0 {
        Seq::empty()
    } else {
        encoded_ids(ids.drop_last()) + le_bytes(ids.last() as nat, 4)
    }
}

/// The coordinates: of each its code, the number of its features in eight bytes, and these.
pub open spec fn encoded_coords(coords: Seq<(u32, Seq<u32>)>) -> Seq<u8>
    decreases coords.len(),
{
    if coords.len() == 0 {
        Seq::empty()
    } else {
        encoded_coords(coords.drop_last()) + le_bytes(coords.last().0 as nat, 4) + le_bytes(
            coords.last().1.len(),
            8,
        ) + encoded_ids(coords.last().1)
    }
}

/// The groups: of each its byte, the number of its coordinates in eight bytes, and these.
pub open spec fn encoded_list(groups: Seq<(u8, Seq<(u32, Seq<u32>)>)>) -> Seq<u8>
    decreases groups.len(),
{
    if groups.len() == 0 {
        Seq::empty()
    } else {
        encoded_list(groups.drop_last()) + seq![groups.last().0] + le_bytes(
            groups.last().1.len(),
            8,
        ) + encoded_coords(groups.last().1)
    }
}

/// A stored value as bytes: the number of its groups in eight bytes, and these.
pub open spec fn encoded_groups(groups: Seq<(u8, Seq<(u32, Seq<u32>)>)>) -> Seq<u8> {
    le_bytes(groups.len(), 8) + encoded_list(groups)
}

/// What `bincode::deserialize` reads out of stored bytes: a value, or the text of its error.
pub uninterp spec fn decoded_groups(bytes: Seq<u8>) -> Result<
    Seq<(u8, Seq<(u32, Seq<u32>)>)>,
    Seq<char>,
>;

/// Calls `bincode::serialize` on a stored value. It sets no size limit and writes into a vector,
/// so it succeeds. Numbers are written with the least significant byte first, lists behind their
/// lengths, and pairs as their two parts; `bincode::deserialize` reads the same value back out of
/// the bytes.
#[verifier::external_body]
pub(crate) fn serialize_groups(groups: &Vec<(u8, Vec<(u32, Vec<u32>)>)>) -> (r: Result<
    Vec<u8>,
    String,
>)
    ensures
        r is Ok,
        r->Ok_0@ == encoded_groups(groups_view(groups@)),
        decoded_groups(r->Ok_0@) is Ok && decoded_groups(r->Ok_0@)->Ok_0 == groups_view(groups@),
{
    bincode::serialize(groups).map_err(|e| e.to_string())
}

/// Calls `bincode::deserialize` on stored bytes.
#[verifier::external_body]
pub(crate) fn deserialize_groups(bytes: &Vec<u8>) -> (r: Result<
    Vec<(u8, Vec<(u32, Vec<u32>)>)>,
    String,
>)
    ensures
        r is Ok ==> decoded_groups(bytes@) is Ok && decoded_groups(bytes@)->Ok_0 == groups_view(
            r->Ok_0@,
        ),
        r is Err ==> decoded_groups(bytes@) is Err && decoded_groups(bytes@)->Err_0 == r->Err_0@,
{
    bincode::deserialize(bytes).map_err(|e| e.to_string())
}

// ---------------------------------------------------------------------------------------------
// smallvec
// ---------------------------------------------------------------------------------------------

/// The packed features at one coordinate, held in a `smallvec::SmallVec` that keeps up to four of
/// them without an allocation.
#[verifier::external_body]
pub struct IdList {
    ids: SmallVec<[u32; 4]>,
}

/// The identifiers that a list holds, in order.
pub uninterp spec fn id_list_items(list: IdList) -> Seq<u32>;

impl View for IdList {
    type V = Seq<u32>;

    open spec fn view(&self) -> Seq<u32> {
        id_list_items(*self)
    }
}

impl IdList {
    /// Calls `SmallVec::new`: a list without items.
    #[verifier::external_body]
    pub(crate) fn new() -> (list: IdList)
        ensures
            id_list_items(list) == Seq::<u32>::empty(),
    {
        IdList { ids: SmallVec::new() }
    }

    /// Calls `SmallVec::push`: the item goes to the end of the list.
    #[verifier::external_body]
    pub(crate) fn push(&mut self, id: u32)
        ensures
            id_list_items(*final(self)) == id_list_items(*old(self)).push(id),
    {
        self.ids.push(id);
    }

    /// Calls `SmallVec::to_vec`: the items in order.
    #[verifier::external_body]
    pub(crate) fn to_vec(&self) -> (items: Vec<u32>)
        ensures
            items@ == id_list_items(*self),
    {
        self.ids.to_vec()
    }
}

// ---------------------------------------------------------------------------------------------
// itertools
// ---------------------------------------------------------------------------------------------

/// The order in which `itertools::Itertools::kmerge_by` hands out coordinates that are merged by
/// rank, each from an iterator of its own.
pub uninterp spec fn merged_coords(coords: Seq<ScoredView>) -> Seq<ScoredView>;

/// Calls `itertools::Itertools::kmerge_by` on one-element iterators: the elements are merged so
/// that none stands behind one that it comes before. How elements of which neither comes before the
/// other are ordered is not stated, only that it depends on the given elements alone.
#[verifier::external_body]
pub(crate) fn merge_coords(coords: Vec<ScoredCoord>) -> (merged: Vec<ScoredCoord>)
    ensures
        scored_view(merged@) == merged_coords(scored_view(coords@)),
        scored_view(merged@).to_multiset() == scored_view(coords@).to_multiset(),
        in_rank_order(scored_view(merged@)),
{
    coords.into_iter().map(std::iter::once).kmerge_by(
        |a: &ScoredCoord, b: &ScoredCoord| coord_first(a, b),
    ).collect()
}

/// `zooms` with each run of equal neighbours cut down to one element.
pub open spec fn deduped(zooms: Seq<u16>) -> Seq<u16>
    decreases zooms.len(),
{
    if zooms.len() <= 1 {
        zooms
    } else if zooms.last() == zooms[zooms.len() - 2] {
        deduped(zooms.drop_last())
    } else {
        deduped(zooms.drop_last()).push(zooms.last())
    }
}

/// Calls `itertools::Itertools::dedup`: of each run of equal neighbours one stays.
#[verifier::external_body]
pub(crate) fn dedup_zooms(zooms: Vec<u16>) -> (kept: Vec<u16>)
    ensures
        kept@ == deduped(zooms@),
{
    zooms.into_iter().dedup().collect()
}

// ---------------------------------------------------------------------------------------------
// interval-heap
// ---------------------------------------------------------------------------------------------

/// A double-ended priority queue of rank keys, held in an `interval_heap::IntervalHeap`.
#[verifier::external_body]
pub struct RankHeap {
    heap: IntervalHeap<RankKey>,
}

/// The keys that a heap holds.
pub uninterp spec fn rank_heap_keys(heap: RankHeap) -> Multiset<RankKey>;

impl View for RankHeap {
    type V = Multiset<RankKey>;

    open spec fn view(&self) -> Multiset<RankKey> {
        rank_heap_keys(*self)
    }
}

impl RankHeap {
    /// Calls `IntervalHeap::new`: a heap without keys.
    #[verifier::external_body]
    pub(crate) fn new() -> (heap: RankHeap)
        ensures
            rank_heap_keys(heap) == Multiset::<RankKey>::empty(),
    {
        RankHeap { heap: IntervalHeap::new() }
    }

    /// Calls `IntervalHeap::len`: the number of keys.
    #[verifier::external_body]
    pub(crate) fn len(&self) -> (n: usize)
        ensures
            n == rank_heap_keys(*self).len(),
    {
        self.heap.len()
    }

    /// Calls `IntervalHeap::push`: the key joins the heap.
    #[verifier::external_body]
    pub(crate) fn push(&mut self, key: RankKey)
        ensures
            rank_heap_keys(*final(self)) == rank_heap_keys(*old(self)).insert(key),
    {
        self.heap.push(key);
    }

    /// Calls `IntervalHeap::min`: the smallest key in the order of tuples.
    #[verifier::external_body]
    pub(crate) fn min(&self) -> (key: Option<RankKey>)
        ensures
            match key {
                Some(k) => rank_heap_keys(*self).contains(k) && forall|o: RankKey|
                    rank_heap_keys(*self).contains(o) ==> rank_le(k, o),
                None => rank_heap_keys(*self).len() == 0,
            },
    {
        self.heap.min().copied()
    }

    /// Calls `IntervalHeap::max`: the greatest key in the order of tuples.
    #[verifier::external_body]
    pub(crate) fn max(&self) -> (key: Option<RankKey>)
        ensures
            match key {
                Some(k) => rank_heap_keys(*self).contains(k) && forall|o: RankKey|
                    rank_heap_keys(*self).contains(o) ==> rank_le(o, k),
                None => rank_heap_keys(*self).len() == 0,
            },
    {
        self.heap.max().copied()
    }

    /// Calls `IntervalHeap::pop_min`: the smallest key leaves the heap.
    #[verifier::external_body]
    pub(crate) fn pop_min(&mut self) -> (key: Option<RankKey>)
        ensures
            match key {
                Some(k) => rank_heap_keys(*old(self)).contains(k) && (forall|o: RankKey|
                    rank_heap_keys(*old(self)).contains(o) ==> rank_le(k, o)) && rank_heap_keys(
                    *final(self),
                ) == rank_heap_keys(*old(self)).remove(k),
                None => rank_heap_keys(*old(self)).len() == 0 && rank_heap_keys(*final(self))
                    == rank_heap_keys(*old(self)),
            },
    {
        self.heap.pop_min()
    }

    /// Calls `IntervalHeap::pop_max`: the greatest key leaves the heap.
    #[verifier::external_body]
    pub(crate) fn pop_max(&mut self) -> (key: Option<RankKey>)
        ensures
            match key {
                Some(k) => rank_heap_keys(*old(self)).contains(k) && (forall|o: RankKey|
                    rank_heap_keys(*old(self)).contains(o) ==> rank_le(o, k)) && rank_heap_keys(
                    *final(self),
                ) == rank_heap_keys(*old(self)).remove(k),
                None => rank_heap_keys(*old(self)).len() == 0 && rank_heap_keys(*final(self))
                    == rank_heap_keys(*old(self)),
            },
    {
        self.heap.pop_max()
    }
}

// ---------------------------------------------------------------------------------------------
// fixedbitset
// ---------------------------------------------------------------------------------------------

#[verifier::external_type_specification]
#[verifier::external_body]
pub struct ExFixedBitSet(FixedBitSet);

/// The positions of the bits that are set.
pub uninterp spec fn bitset_bits(bits: FixedBitSet) -> Set<usize>;

/// The number of bits that the set was made with.
pub uninterp spec fn bitset_len(bits: FixedBitSet) -> nat;

/// `FixedBitSet::with_capacity`: the given number of bits, none of them set.
pub assume_specification[ FixedBitSet::with_capacity ](bits: usize) -> (r: FixedBitSet)
    ensures
        bitset_bits(r) == Set::<usize>::empty(),
        bitset_len(r) == bits,
;

/// `FixedBitSet::contains`: whether the bit is set; a bit past the end is not.
pub assume_specification[ FixedBitSet::contains ](bits: &FixedBitSet, bit: usize) -> (r: bool)
    ensures
        r == bitset_bits(*bits).contains(bit),
;

/// `FixedBitSet::insert`: sets the bit. It panics on a bit past the end.
pub assume_specification[ FixedBitSet::insert ](bits: &mut FixedBitSet, bit: usize)
    requires
        bit < bitset_len(*old(bits)),
    ensures
        bitset_bits(*final(bits)) == bitset_bits(*old(bits)).insert(bit),
        bitset_len(*final(bits)) == bitset_len(*old(bits)),
;

/// Calls `FixedBitSet::clone`: a set of the same length with the same bits.
#[verifier::external_body]
pub(crate) fn clone_bits(bits: &FixedBitSet) -> (r: FixedBitSet)
    ensures
        bitset_bits(r) == bitset_bits(*bits),
        bitset_len(r) == bitset_len(*bits),
{
    bits.clone()
}

// ---------------------------------------------------------------------------------------------
// generational-arena
// ---------------------------------------------------------------------------------------------

#[verifier::external_type_specification]
#[verifier::external_body]
#[verifier::reject_recursive_types(T)]
pub struct ExArena<T>(Arena<T>);

/// The position of a node in an arena: its slot and the generation it was inserted in.
pub type NodeIndex = (usize, u64);

/// The nodes of an arena by their index.
pub uninterp spec fn arena_nodes(arena: Arena<StackableNode>) -> Map<NodeIndex, StackableNode>;

/// The generation of an arena: the number of nodes that were removed from it.
pub uninterp spec fn arena_generation(arena: Arena<StackableNode>) -> nat;

/// Calls `Arena::new`: an arena without nodes.
#[verifier::external_body]
pub(crate) fn arena_new() -> (arena: Arena<StackableNode>)
    ensures
        arena_nodes(arena).dom() == Set::<NodeIndex>::empty(),
        arena_generation(arena) == 0,
{
    Arena::new()
}

/// Calls `Arena::insert`: the node is stored under an index of the current generation that no
/// node has. The arena counts its nodes in a machine word.
#[verifier::external_body]
pub(crate) fn arena_insert(arena: &mut Arena<StackableNode>, node: StackableNode) -> (index:
    NodeIndex)
    ensures
        !arena_nodes(*old(arena)).contains_key(index),
        index.1 == arena_generation(*old(arena)),
        arena_nodes(*final(arena)) == arena_nodes(*old(arena)).insert(index, node),
        arena_nodes(*final(arena)).dom().len() <= usize::MAX,
        arena_generation(*final(arena)) == arena_generation(*old(arena)),
{
    arena.insert(node).into_raw_parts()
}

/// Calls `Arena::remove`: the node leaves the arena and the generation moves on. The generation
/// is a 64-bit counter that may not run over.
#[verifier::external_body]
pub(crate) fn arena_remove(arena: &mut Arena<StackableNode>, index: NodeIndex)
    requires
        arena_generation(*old(arena)) < u64::MAX,
    ensures
        arena_nodes(*final(arena)) == arena_nodes(*old(arena)).remove(index),
        arena_generation(*final(arena)) == arena_generation(*old(arena)) + (if arena_nodes(
            *old(arena),
        ).contains_key(index) {
            1nat
        } else {
            0nat
        }),
{
    arena.remove(Index::from_raw_parts(index.0, index.1));
}

/// Calls `Arena::get`: the node at the index, if there is one.
#[verifier::external_body]
pub(crate) fn arena_get(arena: &Arena<StackableNode>, index: NodeIndex) -> (node: Option<
    &StackableNode,
>)
    ensures
        match node {
            Some(n) => arena_nodes(*arena).contains_key(index) && *n == arena_nodes(*arena)[index],
            None => !arena_nodes(*arena).contains_key(index),
        },
{
    arena.get(Index::from_raw_parts(index.0, index.1))
}

// ---------------------------------------------------------------------------------------------
// fxhash
// ---------------------------------------------------------------------------------------------

/// Per relevance the number of leaves and the nodes, held in an `fxhash::FxHashMap`.
#[verifier::external_body]
pub struct RelevBins {
    bins: FxHashMap<i128, (usize, Vec<NodeIndex>)>,
}

/// The bins by their relevance.
pub uninterp spec fn relev_bins(bins: RelevBins) -> Map<i128, (usize, Seq<NodeIndex>)>;

impl View for RelevBins {
    type V = Map<i128, (usize, Seq<NodeIndex>)>;

    open spec fn view(&self) -> Map<i128, (usize, Seq<NodeIndex>)> {
        relev_bins(*self)
    }
}

impl RelevBins {
    /// Calls `FxHashMap::default`: a map without bins.
    #[verifier::external_body]
    pub(crate) fn new() -> (bins: RelevBins)
        ensures
            relev_bins(bins).dom() == Set::<i128>::empty(),
    {
        RelevBins { bins: FxHashMap::default() }
    }

    /// Calls `FxHashMap::insert`: the bin takes the place of one under the same relevance.
    #[verifier::external_body]
    pub(crate) fn insert(&mut self, relev: i128, bin: (usize, Vec<NodeIndex>))
        ensures
            relev_bins(*final(self)) == relev_bins(*old(self)).insert(relev, (bin.0, bin.1@)),
    {
        self.bins.insert(relev, bin);
    }

    /// Calls `FxHashMap::remove`: the bin leaves the map and is handed out.
    #[verifier::external_body]
    pub(crate) fn remove(&mut self, relev: i128) -> (bin: Option<(usize, Vec<NodeIndex>)>)
        ensures
            match bin {
                Some(b) => relev_bins(*old(self)).contains_key(relev) && relev_bins(
                    *old(self),
                )[relev] == (b.0, b.1@),
                None => !relev_bins(*old(self)).contains_key(relev),
            },
            relev_bins(*final(self)) == relev_bins(*old(self)).remove(relev),
    {
        self.bins.remove(&relev)
    }

    /// Calls `FxHashMap::get`: the bin of a relevance, if there is one.
    #[verifier::external_body]
    pub(crate) fn get(&self, relev: i128) -> (bin: Option<&(usize, Vec<NodeIndex>)>)
        ensures
            match bin {
                Some(b) => relev_bins(*self).contains_key(relev) && relev_bins(*self)[relev] == (
                    b.0,
                    b.1@,
                ),
                None => !relev_bins(*self).contains_key(relev),
            },
    {
        self.bins.get(&relev)
    }

    /// Calls `FxHashMap::keys`: every relevance that has a bin, in no particular order.
    #[verifier::external_body]
    pub(crate) fn keys(&self) -> (keys: Vec<i128>)
        ensures
            keys@.to_set() == relev_bins(*self).dom(),
    {
        self.bins.keys().copied().collect()
    }
}

/// A set of numbers, held in an `fxhash::FxHashSet`.
#[verifier::external_body]
pub struct SeenSet {
    seen: FxHashSet<u64>,
}

/// The numbers that a set holds.
pub uninterp spec fn seen_items(set: SeenSet) -> Set<u64>;

impl SeenSet {
    /// Calls `FxHashSet::default`: an empty set.
    #[verifier::external_body]
    pub(crate) fn new() -> (set: SeenSet)
        ensures
            seen_items(set) == Set::<u64>::empty(),
    {
        SeenSet { seen: FxHashSet::default() }
    }

    /// Calls `FxHashSet::insert`: the item is in the set afterwards; the result tells whether it
    /// was not before.
    #[verifier::external_body]
    pub(crate) fn insert(&mut self, item: u64) -> (fresh: bool)
        ensures
            fresh == !seen_items(*old(self)).contains(item),
            seen_items(*final(self)) == seen_items(*old(self)).insert(item),
    {
        self.seen.insert(item)
    }
}

// ---------------------------------------------------------------------------------------------
// static-bushes
// ---------------------------------------------------------------------------------------------

/// A spatial index over points, held in a `static_bushes::KDBush`.
#[verifier::external_body]
pub struct PointIndex {
    bush: KDBush<u16>,
}

/// The points that an index was built from, in order.
pub uninterp spec fn indexed_points(index: PointIndex) -> Seq<(u16, u16)>;

/// `hits` holds the positions of the point, each once.
pub open spec fn are_hits(points: Seq<(u16, u16)>, point: (u16, u16), hits: Seq<usize>) -> bool {
    &&& hits.no_duplicates()
    &&& forall|i: usize| #[trigger]
        hits.contains(i) <==> i < points.len() && points[i as int] == point
}

/// Some point lies in the box, the edges of which belong to it.
pub open spec fn has_point_in(
    points: Seq<(u16, u16)>,
    min_x: u16,
    min_y: u16,
    max_x: u16,
    max_y: u16,
) -> bool {
    exists|i: int|
        0 <= i < points.len() && min_x <= (#[trigger] points[i]).0 <= max_x && min_y <= points[i].1
            <= max_y
}

impl PointIndex {
    /// Calls `KDBush::from_iter`: an index over the points. The identifiers in it are 32 bits
    /// wide.
    #[verifier::external_body]
    pub(crate) fn build(points: &Vec<(u16, u16)>) -> (index: PointIndex)
        requires
            points@.len() <= u32::MAX,
        ensures
            indexed_points(index) == points@,
    {
        PointIndex { bush: points.iter().map(|p| [p.0, p.1]).collect() }
    }

    /// Calls `KDBush::exact_as_vec`: the positions of the points that are exactly `(x, y)`, each
    /// once and in no particular order.
    #[verifier::external_body]
    pub(crate) fn exact(&self, x: u16, y: u16) -> (hits: Vec<usize>)
        ensures
            are_hits(indexed_points(*self), (x, y), hits@),
    {
        self.bush.exact_as_vec(x, y)
    }

    /// Calls `KDBush::search_range` for its first hit: whether some point lies in the box, its
    /// edges belonging to it.
    #[verifier::external_body]
    pub(crate) fn any_in_box(&self, min_x: u16, min_y: u16, max_x: u16, max_y: u16) -> (hit: bool)
        ensures
            hit == has_point_in(indexed_points(*self), min_x, min_y, max_x, max_y),
    {
        self.bush.search_range(min_x, min_y, max_x, max_y).next().is_some()
    }
}

// ---------------------------------------------------------------------------------------------
// std
// ---------------------------------------------------------------------------------------------

/// Calls `Arc::clone`: another handle to the same contexts.
#[verifier::external_body]
pub(crate) fn share_state(state: &Arc<TreeCoalesceState>) -> (handle: Arc<TreeCoalesceState>)
    ensures
        handle == *state,
{
    Arc::clone(state)
}

/// Calls `slice::sort_unstable` on integers: the same numbers in ascending order.
#[verifier::external_body]
pub(crate) fn sort_keys(keys: &mut Vec<u128>)
    ensures
        final(keys)@.to_multiset() == old(keys)@.to_multiset(),
        forall|i: int, j: int|
            0 <= i <= j < final(keys)@.len() ==> final(keys)@[i] <= final(keys)@[j],
{
    keys.sort_unstable();
}

/// Calls `slice::sort_unstable` on rank keys: the same keys in the ascending order of tuples.
#[verifier::external_body]
pub(crate) fn sort_ranks(keys: &mut Vec<RankKey>)
    ensures
        final(keys)@.to_multiset() == old(keys)@.to_multiset(),
        forall|i: int, j: int|
            0 <= i <= j < final(keys)@.len() ==> rank_le(final(keys)@[i], final(keys)@[j]),
{
    keys.sort_unstable();
}

} // verus!
