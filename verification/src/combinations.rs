//! What holds of the nodes of a stackable tree: they are the combinations of the parts, each once,
//! and none is missing that a full arena does not beat.

use vstd::arithmetic::power2::{lemma2_to64, lemma_pow2_strictly_increases, lemma_pow2_unfold, pow2};
use vstd::prelude::*;

use crate::arena::{
    given_up, is_added, is_beaten, leaf_nodes, relev_parts, with_node_parts, ArenaManager, Nodes,
    StackableNode,
};
use crate::order::{in_order, in_order_exists, num_u32, set_members};
use crate::outside::{bitset_bits, NodeIndex};
use crate::stackable::{
    added_is_later, all_child_nodes, bin_choices, bins_apart, bins_by_type, bins_fit, bins_of,
    bins_of_fit, can_stack, child_fits, child_nodes, child_relev, choices, combination_count,
    empty_stem, greatest_relev, holds_part, in_order_of_type, in_turn, is_breadth_first,
    is_stack_tree, later, later_is_transitive, lists, node_before, node_fits, part_covered,
    part_num, part_relev, part_there, part_type, part_types, parts_of_type, relev_from,
    relev_from_skips, stacked, stacked_count, stacked_relev, stem_of, types_occur, BinView,
    PhrasematchSubquery, StackableTree, Stem, RELEV_PER_WEIGHT,
};

verus! {

// ---------------------------------------------------------------------------------------------
// Combinations
// ---------------------------------------------------------------------------------------------

/// Parts that are stacked in turn, each with its bin.
pub type Path = Seq<(int, usize)>;

/// The combination that the parts make.
pub open spec fn stem_along(parts: Seq<PhrasematchSubquery>, path: Path) -> Stem
    decreases path.len(),
{
    if path.len() == 0 {
        empty_stem()
    } else {
        stacked(parts, stem_along(parts, path.drop_last()), path.last().0, path.last().1)
    }
}

/// Each of the parts can be stacked on the combination of those before it.
pub open spec fn is_combination(
    parts: Seq<PhrasematchSubquery>,
    bins: Seq<BinView>,
    path: Path,
) -> bool
    decreases path.len(),
{
    path.len() == 0 || {
        let stem = stem_along(parts, path.drop_last());
        let (j, p) = path.last();
        &&& is_combination(parts, bins, path.drop_last())
        &&& stem.level <= j < bins.len()
        &&& bins[j].members.contains(p)
        &&& can_stack(parts, bins, stem, j, p)
    }
}

/// What the combination of the parts has of each of them.
proof fn stem_has_part(
    parts: Seq<PhrasematchSubquery>,
    bins: Seq<BinView>,
    path: Path,
    a: int,
)
    requires
        is_combination(parts, bins, path),
        0 <= a < path.len(),
    ensures
        0 <= path[a].0 < bins.len(),
        bins[path[a].0].members.contains(path[a].1),
        path[a].0 < stem_along(parts, path).level,
        stem_along(parts, path).bits.contains(parts[path[a].1 as int].idx as usize),
        stem_along(parts, path).mask & parts[path[a].1 as int].mask
            == parts[path[a].1 as int].mask,
    decreases path.len(),
{
    let before = path.drop_last();
    let had = stem_along(parts, before).mask;
    let more = parts[path.last().1 as int].mask;
    if a < path.len() - 1 {
        stem_has_part(parts, bins, before, a);
        let own = parts[path[a].1 as int].mask;
        assert(before[a] == path[a]);
        assert((had | more) & own == own) by (bit_vector)
            requires
                had & own == own,
        ;
    } else {
        if before.len() > 0 {
            stem_has_part(parts, bins, before, 0);
        }
        assert((had | more) & more == more) by (bit_vector);
    }
}

/// Of two parts of a combination the later one is of a higher index type and of another index, and
/// covers other words of the query.
pub proof fn combinations_are_sound(
    parts: Seq<PhrasematchSubquery>,
    path: Path,
    a: int,
    b: int,
)
    requires
        is_combination(parts, bins_of(parts), path),
        0 <= a < b < path.len(),
    ensures
        path[a].1 < parts.len(),
        path[b].1 < parts.len(),
        parts[path[a].1 as int].store.type_id < parts[path[b].1 as int].store.type_id,
        parts[path[a].1 as int].idx != parts[path[b].1 as int].idx,
        parts[path[a].1 as int].mask & parts[path[b].1 as int].mask == 0,
    decreases path.len(),
{
    let bins = bins_of(parts);
    let before = path.drop_last();
    if b < path.len() - 1 {
        combinations_are_sound(parts, before, a, b);
        assert(before[a] == path[a] && before[b] == path[b]);
    } else {
        stem_has_part(parts, bins, before, a);
        assert(before[a] == path[a]);
        let stem = stem_along(parts, before);
        let first = parts[path[a].1 as int].mask;
        let last = parts[path[b].1 as int].mask;
        let mask = stem.mask;
        assert(first & last == 0) by (bit_vector)
            requires
                mask & first == first,
                mask & last == 0,
        ;
        bins_by_type(parts, path[a].0);
        bins_by_type(parts, path[b].0);
        let types = in_order(part_types(parts), num_u32());
        assert(bins[path[a].0].members.contains(path[a].1));
        assert(bins[path[b].0].members.contains(path[b].1));
        assert(num_u32()(types[path[a].0]) < num_u32()(types[path[b].0]));
        assert(part_type(parts, path[a].1 as int) == types[path[a].0]);
        assert(part_type(parts, path[b].1 as int) == types[path[b].0]);
    }
}

/// The greatest relevance that a combination can reach.
pub open spec fn reach(parts: Seq<PhrasematchSubquery>, bins: Seq<BinView>, path: Path) -> int {
    let stem = stem_along(parts, path);
    stem.relev + relev_from(bins, stem.level)
}

/// The nodes on the way from the root to a node.
pub open spec fn is_trail(tree: StackableTree, trail: Seq<NodeIndex>) -> bool
    decreases trail.len(),
{
    trail.len() == 0 || {
        &&& is_trail(tree, trail.drop_last())
        &&& tree.arena.nodes().contains_key(trail.last())
        &&& trail_end(tree, trail.drop_last()).children@.contains(trail.last())
    }
}

/// The node at the end of the way.
pub open spec fn trail_end(tree: StackableTree, trail: Seq<NodeIndex>) -> StackableNode {
    if trail.len() == 0 {
        tree.root
    } else {
        tree.arena.nodes()[trail.last()]
    }
}

/// The part that a node adds, with its bin.
pub open spec fn node_choice(node: StackableNode) -> (int, usize) {
    (node.level - 1, node.phrasematch->Some_0)
}

/// The parts on the way.
pub open spec fn trail_path(tree: StackableTree, trail: Seq<NodeIndex>) -> Path {
    trail.map_values(|i: NodeIndex| node_choice(tree.arena.nodes()[i]))
}

/// The node stands for the combination.
pub open spec fn stands_for(
    parts: Seq<PhrasematchSubquery>,
    bins: Seq<BinView>,
    node: StackableNode,
    path: Path,
) -> bool {
    &&& is_combination(parts, bins, path)
    &&& stem_of(bins, node) == stem_along(parts, path)
    &&& node.max_relev == reach(parts, bins, path)
    &&& path.len() > 0 ==> node.idx == parts[path.last().1 as int].idx
    &&& path.len() > 0 ==> node.zoom == parts[path.last().1 as int].store.zoom
}

proof fn trail_path_drops(tree: StackableTree, trail: Seq<NodeIndex>)
    requires
        trail.len() > 0,
    ensures
        trail_path(tree, trail).len() == trail.len(),
        trail_path(tree, trail).drop_last() == trail_path(tree, trail.drop_last()),
        trail_path(tree, trail).last() == node_choice(tree.arena.nodes()[trail.last()]),
{
    assert(trail_path(tree, trail).drop_last() =~= trail_path(tree, trail.drop_last()));
}

/// The node at the end of a way from the root stands for the combination of the parts on the way.
pub proof fn trails_are_combinations(tree: StackableTree, trail: Seq<NodeIndex>)
    requires
        is_stack_tree(tree),
        is_trail(tree, trail),
    ensures
        stands_for(
            tree.phrasematches@,
            bins_of(tree.phrasematches@),
            trail_end(tree, trail),
            trail_path(tree, trail),
        ),
        node_fits(
            tree.phrasematches@,
            bins_of(tree.phrasematches@),
            trail_end(tree, trail),
            tree.arena,
        ),
    decreases trail.len(),
{
    let parts = tree.phrasematches@;
    let bins = bins_of(parts);
    let nodes = tree.arena.nodes();
    if trail.len() == 0 {
        assert(trail_path(tree, trail) =~= Seq::empty());
        assert(stem_of(bins, tree.root) == empty_stem());
    } else {
        let before = trail.drop_last();
        let parent = trail_end(tree, before);
        let node = nodes[trail.last()];
        trails_are_combinations(tree, before);
        trail_path_drops(tree, trail);
        let k = choose|k: int|
            0 <= k < parent.children@.len() && parent.children@[k] == trail.last();
        assert(child_fits(parts, bins, stem_of(bins, parent), parent.children@[k], tree.arena));
        let (j, p) = node_choice(node);
        assert(stem_of(bins, node) == stacked(parts, stem_of(bins, parent), j, p));
        assert(node_fits(parts, bins, nodes[trail.last()], tree.arena));
    }
}

proof fn trail_to(tree: StackableTree, i: NodeIndex) -> (trail: Seq<NodeIndex>)
    requires
        is_stack_tree(tree),
        !tree.arena.spent(),
        tree.arena.nodes().contains_key(i),
    ensures
        is_trail(tree, trail),
        trail.len() > 0,
        trail.last() == i,
    decreases tree.arena.nodes()[i].level,
{
    let parts = tree.phrasematches@;
    let bins = bins_of(parts);
    let nodes = tree.arena.nodes();
    let before = if tree.root.children@.contains(i) {
        Seq::<NodeIndex>::empty()
    } else {
        let k = choose|k: NodeIndex| #[trigger] lists(nodes, k, i);
        assert(lists(nodes, k, i));
        bins_of_fit(parts);
        assert(node_fits(parts, bins, nodes[k], tree.arena));
        child_relev(parts, bins, nodes[k], i, tree.arena);
        trail_to(tree, k)
    };
    let trail = before.push(i);
    reveal_with_fuel(is_trail, 2);
    assert(trail.drop_last() =~= before);
    trail
}

/// Every node of the arena stands for a combination: that of the parts on its way from the root.
pub proof fn nodes_are_combinations(tree: StackableTree, i: NodeIndex) -> (trail: Seq<NodeIndex>)
    requires
        is_stack_tree(tree),
        !tree.arena.spent(),
        tree.arena.nodes().contains_key(i),
    ensures
        is_trail(tree, trail),
        trail.len() > 0,
        trail.last() == i,
        stands_for(
            tree.phrasematches@,
            bins_of(tree.phrasematches@),
            tree.arena.nodes()[i],
            trail_path(tree, trail),
        ),
{
    let trail = trail_to(tree, i);
    trails_are_combinations(tree, trail);
    trail
}

/// There is only one way from the root to a node.
pub proof fn nodes_hang_once(tree: StackableTree, s: Seq<NodeIndex>, t: Seq<NodeIndex>)
    requires
        is_stack_tree(tree),
        is_trail(tree, s),
        is_trail(tree, t),
        s.len() > 0,
        t.len() > 0,
        s.last() == t.last(),
    ensures
        s == t,
    decreases s.len(),
{
    let nodes = tree.arena.nodes();
    let i = s.last();
    let a = s.drop_last();
    let b = t.drop_last();
    reveal_with_fuel(is_trail, 2);
    if a.len() > 0 {
        assert(lists(nodes, a.last(), i));
    }
    if b.len() > 0 {
        assert(lists(nodes, b.last(), i));
    }
    if a.len() > 0 && b.len() > 0 {
        nodes_hang_once(tree, a, b);
    }
    assert(s =~= a.push(i));
    assert(t =~= b.push(i));
    assert(a =~= b);
}

/// No combination stands in the tree twice: nodes with the same parts on their way from the root
/// are the same node.
pub proof fn combinations_stand_once(tree: StackableTree, s: Seq<NodeIndex>, t: Seq<NodeIndex>)
    requires
        is_stack_tree(tree),
        is_trail(tree, s),
        is_trail(tree, t),
        trail_path(tree, s) == trail_path(tree, t),
    ensures
        s == t,
    decreases s.len(),
{
    let parts = tree.phrasematches@;
    let bins = bins_of(parts);
    let nodes = tree.arena.nodes();
    assert(trail_path(tree, s).len() == s.len());
    assert(trail_path(tree, t).len() == t.len());
    if s.len() > 0 {
        trail_path_drops(tree, s);
        trail_path_drops(tree, t);
        combinations_stand_once(tree, s.drop_last(), t.drop_last());
        let parent = trail_end(tree, s.drop_last());
        trails_are_combinations(tree, s.drop_last());
        let kids = parent.children@;
        let a = choose|a: int| 0 <= a < kids.len() && kids[a] == s.last();
        let b = choose|b: int| 0 <= b < kids.len() && kids[b] == t.last();
        let x = nodes[s.last()];
        let y = nodes[t.last()];
        assert(node_choice(x) == node_choice(y));
        if a < b {
            assert(in_turn(parts, nodes, kids[a], kids[b]));
            assert(node_before(parts, x, y));
        } else if b < a {
            assert(in_turn(parts, nodes, kids[b], kids[a]));
            assert(node_before(parts, y, x));
        }
        assert(s =~= s.drop_last().push(s.last()));
        assert(t =~= t.drop_last().push(t.last()));
    } else {
        assert(s =~= t);
    }
}

proof fn reach_falls(parts: Seq<PhrasematchSubquery>, path: Path)
    requires
        is_combination(parts, bins_of(parts), path),
        path.len() > 0,
    ensures
        reach(parts, bins_of(parts), path) <= reach(parts, bins_of(parts), path.drop_last()),
        reach(parts, bins_of(parts), path) == stacked_relev(
            parts,
            bins_of(parts),
            stem_along(parts, path.drop_last()),
            path.last().0,
            path.last().1,
        ),
        0 <= stem_along(parts, path.drop_last()).level,
    decreases path.len(),
{
    let bins = bins_of(parts);
    let stem = stem_along(parts, path.drop_last());
    let (j, p) = path.last();
    if path.len() > 1 {
        let before = path.drop_last();
        reveal_with_fuel(is_combination, 2);
        reach_falls(parts, before);
        assert(stem_along(parts, before.drop_last()).level <= before.last().0);
        assert(stem == stacked(
            parts,
            stem_along(parts, before.drop_last()),
            before.last().0,
            before.last().1,
        ));
    } else {
        assert(stem == empty_stem());
    }
    bins_of_fit(parts);
    let q = choose|q: int| 0 <= q < bins[j].members.len() && bins[j].members[q] == p;
    assert(part_relev(parts, bins[j].members[q]) <= bins[j].max);
    assert forall|k: int| 0 <= k < bins.len() implies 0 <= (#[trigger] bins[k]).max by {}
    relev_from_skips(bins, stem.level, j);
}

proof fn bin_choices_have(
    parts: Seq<PhrasematchSubquery>,
    bins: Seq<BinView>,
    stem: Stem,
    j: int,
    n: int,
    q: int,
)
    requires
        0 <= q < n <= bins[j].members.len(),
        can_stack(parts, bins, stem, j, bins[j].members[q]),
    ensures
        bin_choices(parts, bins, stem, j, n).contains((j, bins[j].members[q])),
    decreases n,
{
    let all = bin_choices(parts, bins, stem, j, n);
    let before = bin_choices(parts, bins, stem, j, n - 1);
    if q == n - 1 {
        assert(all.last() == (j, bins[j].members[q]));
    } else {
        bin_choices_have(parts, bins, stem, j, n - 1, q);
        let k = choose|k: int| 0 <= k < before.len() && before[k] == (j, bins[j].members[q]);
        assert(all[k] == before[k]);
    }
}

proof fn choices_have(
    parts: Seq<PhrasematchSubquery>,
    bins: Seq<BinView>,
    stem: Stem,
    upto: int,
    j: int,
    p: usize,
)
    requires
        stem.level <= j < upto <= bins.len(),
        0 <= j,
        bins[j].members.contains(p),
        can_stack(parts, bins, stem, j, p),
    ensures
        choices(parts, bins, stem, upto).contains((j, p)),
    decreases upto,
{
    let before = choices(parts, bins, stem, upto - 1);
    let last = bin_choices(parts, bins, stem, upto - 1, bins[upto - 1].members.len() as int);
    let all = choices(parts, bins, stem, upto);
    assert(all == before + last);
    if j == upto - 1 {
        let q = choose|q: int| 0 <= q < bins[j].members.len() && bins[j].members[q] == p;
        bin_choices_have(parts, bins, stem, j, bins[j].members.len() as int, q);
        let k = choose|k: int| 0 <= k < last.len() && last[k] == (j, p);
        assert(all[k + before.len()] == (j, p));
    } else {
        choices_have(parts, bins, stem, upto - 1, j, p);
        let k = choose|k: int| 0 <= k < before.len() && before[k] == (j, p);
        assert(all[k] == (j, p));
    }
}

/// A combination is in the tree if there is room for all, and in a full one if it can become more
/// relevant than the least relevant node.
pub proof fn combinations_are_there(tree: StackableTree, path: Path) -> (trail: Seq<NodeIndex>)
    requires
        is_stack_tree(tree),
        !tree.arena.spent(),
        is_combination(tree.phrasematches@, bins_of(tree.phrasematches@), path),
        !tree.arena.full() || path.len() == 0 || reach(
            tree.phrasematches@,
            bins_of(tree.phrasematches@),
            path,
        ) > tree.arena.min_relev,
    ensures
        is_trail(tree, trail),
        trail_path(tree, trail) == path,
    decreases path.len(),
{
    let parts = tree.phrasematches@;
    let bins = bins_of(parts);
    let nodes = tree.arena.nodes();
    if path.len() == 0 {
        let trail = Seq::<NodeIndex>::empty();
        assert(trail_path(tree, trail) =~= path);
        trail
    } else {
        let (j, p) = path.last();
        reach_falls(parts, path);
        let before = combinations_are_there(tree, path.drop_last());
        let parent = trail_end(tree, before);
        trails_are_combinations(tree, before);
        let stem = stem_of(bins, parent);
        let found = choices(parts, bins, stem, bins.len() as int);
        choices_have(parts, bins, stem, bins.len() as int, j, p);
        let q = choose|q: int| 0 <= q < found.len() && found[q] == (j, p);
        assert(part_covered(parts, bins, stem, parent.children@, found[q], tree.arena));
        assert(part_there(nodes, parent.children@, p));
        let k = choose|k: int|
            0 <= k < parent.children@.len() && holds_part(nodes, #[trigger] parent.children@[k], p);
        let i = parent.children@[k];
        assert(child_fits(parts, bins, stem, i, tree.arena));
        bins_of_fit(parts);
        assert(node_choice(nodes[i]) == (j, p));
        let trail = before.push(i);
        assert(trail.drop_last() =~= before);
        trail_path_drops(tree, trail);
        assert(trail_path(tree, trail) =~= path.drop_last().push((j, p)));
        assert(path =~= path.drop_last().push((j, p)));
        trail
    }
}

// ---------------------------------------------------------------------------------------------
// Which parts are combined
// ---------------------------------------------------------------------------------------------

/// What the weights of the parts add up to, in billionths.
pub open spec fn weights_sum(parts: Seq<PhrasematchSubquery>, list: Seq<usize>) -> int
    decreases list.len(),
{
    if list.len() == 0 {
        0
    } else {
        weights_sum(parts, list.drop_last()) + parts[list.last() as int].weight
    }
}

/// The words that the parts cover together.
pub open spec fn masks_union(parts: Seq<PhrasematchSubquery>, list: Seq<usize>) -> u32
    decreases list.len(),
{
    if list.len() == 0 {
        0
    } else {
        masks_union(parts, list.drop_last()) | parts[list.last() as int].mask
    }
}

/// The parts can be combined, in this order: their index types ascend, their indexes differ, no two
/// of them cover the same word, and none is of an index that the one before it does not go with.
pub open spec fn go_together(parts: Seq<PhrasematchSubquery>, list: Seq<usize>) -> bool {
    &&& forall|i: int| 0 <= i < list.len() ==> (#[trigger] list[i]) < parts.len()
    &&& forall|i: int, j: int|
        #![trigger list[i], list[j]]
        0 <= i < j < list.len() ==> parts[list[i] as int].store.type_id
            < parts[list[j] as int].store.type_id && parts[list[i] as int].idx
            != parts[list[j] as int].idx && parts[list[i] as int].mask & parts[list[j] as int].mask
            == 0
    &&& forall|i: int, j: int|
        #![trigger list[i], list[j]]
        0 <= i < list.len() && j == i + 1 && j < list.len() ==> !bitset_bits(
            parts[list[i] as int].non_overlapping_indexes,
        ).contains(parts[list[j] as int].idx as usize)
}

proof fn bin_of_part(parts: Seq<PhrasematchSubquery>, p: usize) -> (j: int)
    requires
        p < parts.len(),
    ensures
        0 <= j < bins_of(parts).len(),
        bins_of(parts)[j].members.contains(p),
        in_order(part_types(parts), num_u32())[j] == part_type(parts, p as int),
        part_relev(parts, p) <= bins_of(parts)[j].max,
{
    let t = part_type(parts, p as int);
    types_are_those_of_parts(parts);
    let types = in_order(part_types(parts), num_u32());
    assert(part_types(parts).contains(t));
    set_members(types, t);
    let j = choose|j: int| 0 <= j < types.len() && types[j] == t;
    in_order_of_type(parts, t);
    let members = bins_of(parts)[j].members;
    assert(members == in_order(parts_of_type(parts, t), part_num(parts)));
    set_members(members, p);
    bins_of_fit(parts);
    let q = choose|q: int| 0 <= q < members.len() && members[q] == p;
    assert(part_relev(parts, members[q]) <= bins_of(parts)[j].max);
    j
}

/// The parts with their bins.
spec fn path_of(parts: Seq<PhrasematchSubquery>, list: Seq<usize>) -> Path {
    list.map_values(|p: usize| (place_of(parts, p), p))
}

/// The bin of a part.
spec fn place_of(parts: Seq<PhrasematchSubquery>, p: usize) -> int {
    choose|j: int|
        0 <= j < bins_of(parts).len() && #[trigger] bins_of(parts)[j].members.contains(p)
}

proof fn place_is(parts: Seq<PhrasematchSubquery>, p: usize)
    requires
        p < parts.len(),
    ensures
        0 <= place_of(parts, p) < bins_of(parts).len(),
        bins_of(parts)[place_of(parts, p)].members.contains(p),
        in_order(part_types(parts), num_u32())[place_of(parts, p)] == part_type(parts, p as int),
        part_relev(parts, p) <= bins_of(parts)[place_of(parts, p)].max,
{
    let j = bin_of_part(parts, p);
    assert(bins_of(parts)[j].members.contains(p));
    let k = place_of(parts, p);
    bins_by_type(parts, k);
    bins_of_fit(parts);
    let members = bins_of(parts)[k].members;
    let q = choose|q: int| 0 <= q < members.len() && members[q] == p;
    assert(part_relev(parts, members[q]) <= bins_of(parts)[k].max);
}

proof fn places_ascend(parts: Seq<PhrasematchSubquery>, a: usize, b: usize)
    requires
        a < parts.len(),
        b < parts.len(),
        parts[a as int].store.type_id < parts[b as int].store.type_id,
    ensures
        place_of(parts, a) < place_of(parts, b),
{
    place_is(parts, a);
    place_is(parts, b);
    let i = place_of(parts, a);
    let j = place_of(parts, b);
    bins_by_type(parts, i);
    let types = in_order(part_types(parts), num_u32());
    if j < i {
        assert(num_u32()(types[j]) < num_u32()(types[i]));
    }
}

/// What comes behind the first `i` parts adds no more than the bins behind can.
proof fn rest_fits(parts: Seq<PhrasematchSubquery>, list: Seq<usize>, i: int)
    requires
        go_together(parts, list),
        0 < i <= list.len(),
    ensures
        RELEV_PER_WEIGHT * (weights_sum(parts, list) - weights_sum(parts, list.take(i)))
            <= relev_from(bins_of(parts), place_of(parts, list[i - 1]) + 1),
    decreases list.len() - i,
{
    let bins = bins_of(parts);
    let j = place_of(parts, list[i - 1]);
    assert(list[i - 1] < parts.len());
    place_is(parts, list[i - 1]);
    bins_of_fit(parts);
    assert forall|k: int| 0 <= k < bins.len() implies 0 <= (#[trigger] bins[k]).max by {}
    if i == list.len() {
        assert(list.take(i) =~= list);
        relev_from_skips(bins, j + 1, bins.len() as int);
    } else {
        rest_fits(parts, list, i + 1);
        assert(list[i] < parts.len());
        places_ascend(parts, list[i - 1], list[i]);
        place_is(parts, list[i]);
        let m = place_of(parts, list[i]);
        relev_from_skips(bins, j + 1, m);
        assert(list.take(i + 1).drop_last() =~= list.take(i));
        assert(list.take(i + 1).last() == list[i]);
    }
}

proof fn union_is_apart(parts: Seq<PhrasematchSubquery>, list: Seq<usize>, mask: u32)
    requires
        forall|i: int|
            0 <= i < list.len() ==> parts[(#[trigger] list[i]) as int].mask & mask == 0,
    ensures
        masks_union(parts, list) & mask == 0,
    decreases list.len(),
{
    if list.len() == 0 {
        assert(0u32 & mask == 0) by (bit_vector);
    } else {
        let rest = list.drop_last();
        assert forall|i: int| 0 <= i < rest.len() implies parts[(#[trigger] rest[i]) as int].mask
            & mask == 0 by {
            assert(rest[i] == list[i]);
        }
        union_is_apart(parts, rest, mask);
        assert(list[list.len() - 1] == list.last());
        let a = masks_union(parts, rest);
        let b = parts[list.last() as int].mask;
        assert(a & mask == 0 && b & mask == 0 ==> (a | b) & mask == 0) by (bit_vector);
    }
}

/// The combination that the parts make, told by the parts.
proof fn stem_tells(parts: Seq<PhrasematchSubquery>, path: Path, list: Seq<usize>)
    requires
        path.len() == list.len(),
        forall|i: int| 0 <= i < list.len() ==> (#[trigger] path[i]).1 == list[i],
    ensures
        stem_along(parts, path).relev == RELEV_PER_WEIGHT * weights_sum(parts, list),
        stem_along(parts, path).mask == masks_union(parts, list),
        forall|b: usize|
            stem_along(parts, path).bits.contains(b) ==> exists|i: int|
                0 <= i < list.len() && parts[(#[trigger] list[i]) as int].idx as usize == b,
        list.len() > 0 ==> stem_along(parts, path).phrasematch == Some(list.last())
            && stem_along(parts, path).level == path.last().0 + 1,
        list.len() == 0 ==> stem_along(parts, path) == empty_stem(),
    decreases list.len(),
{
    if list.len() > 0 {
        let rest = list.drop_last();
        let before = path.drop_last();
        assert forall|i: int| 0 <= i < rest.len() implies (#[trigger] before[i]).1 == rest[i] by {
            assert(path[i].1 == list[i]);
        }
        stem_tells(parts, before, rest);
        let n = list.len() - 1;
        assert(path[n].1 == list[n]);
        assert forall|b: usize| stem_along(parts, path).bits.contains(b) implies exists|i: int|
            0 <= i < list.len() && parts[(#[trigger] list[i]) as int].idx as usize == b by {
            if stem_along(parts, before).bits.contains(b) {
                let i = choose|i: int|
                    0 <= i < rest.len() && parts[(#[trigger] rest[i]) as int].idx as usize == b;
                assert(list[i] == rest[i]);
            } else {
                assert(parts[list[n] as int].idx as usize == b);
            }
        }
    }
}

proof fn parts_combine(parts: Seq<PhrasematchSubquery>, list: Seq<usize>, n: int)
    requires
        go_together(parts, list),
        4 * weights_sum(parts, list) >= 1_000_000_000,
        0 <= n <= list.len(),
    ensures
        is_combination(parts, bins_of(parts), path_of(parts, list.take(n))),
    decreases n,
{
    let bins = bins_of(parts);
    let now = list.take(n);
    let path = path_of(parts, now);
    if n > 0 {
        parts_combine(parts, list, n - 1);
        let before = list.take(n - 1);
        assert(now.drop_last() =~= before);
        assert(path.drop_last() =~= path_of(parts, before));
        let p = list[n - 1];
        assert(now.last() == p && p < parts.len());
        let j = place_of(parts, p);
        assert(path.last() == (j, p));
        place_is(parts, p);
        let stem = stem_along(parts, path.drop_last());
        stem_tells(parts, path.drop_last(), before);
        if n > 1 {
            assert(before.last() == list[n - 2]);
            assert(list[n - 2] < parts.len());
            assert(parts[list[n - 2] as int].store.type_id < parts[list[n - 1] as int].store.type_id);
            places_ascend(parts, list[n - 2], p);
            assert(path.drop_last().last() == (place_of(parts, list[n - 2]), list[n - 2]));
        }
        assert(stem.level <= j);
        assert forall|i: int| 0 <= i < before.len() implies parts[(
        #[trigger] before[i]) as int].mask & parts[p as int].mask == 0
            && parts[before[i] as int].idx != parts[p as int].idx by {
            assert(before[i] == list[i] && p == list[n - 1]);
        }
        union_is_apart(parts, before, parts[p as int].mask);
        if stem.bits.contains(parts[p as int].idx as usize) {
            let i = choose|i: int|
                0 <= i < before.len() && parts[(#[trigger] before[i]) as int].idx as usize
                    == parts[p as int].idx as usize;
            assert(parts[before[i] as int].idx != parts[p as int].idx);
        }
        rest_fits(parts, list, n);
        assert(weights_sum(parts, now) == weights_sum(parts, before) + parts[p as int].weight);
        assert(can_stack(parts, bins, stem, j, p));
    }
}

/// Parts that go together, and whose weights add up to a quarter or more, are combined: the tree has
/// nodes for them, each a child of the one before, where it did not fill up, or where they add up to
/// more than its least relevant node promises. The last of the nodes covers the words of all of them,
/// and none promises less than they add up to.
pub proof fn parts_that_go_together_are_combined(tree: StackableTree, list: Seq<usize>) -> (trail:
    Seq<NodeIndex>)
    requires
        is_stack_tree(tree),
        !tree.arena.spent(),
        go_together(tree.phrasematches@, list),
        4 * weights_sum(tree.phrasematches@, list) >= 1_000_000_000,
        !tree.arena.full() || 1000 * weights_sum(tree.phrasematches@, list)
            > tree.arena.min_relev,
    ensures
        is_trail(tree, trail),
        trail.len() == list.len(),
        forall|i: int|
            0 <= i < list.len() ==> tree.arena.nodes()[#[trigger] trail[i]].phrasematch == Some(
                list[i],
            ),
        forall|i: int|
            0 <= i < list.len() ==> tree.arena.nodes()[#[trigger] trail[i]].max_relev
                >= 1000 * weights_sum(tree.phrasematches@, list),
        trail_end(tree, trail).mask == masks_union(tree.phrasematches@, list),
{
    let parts = tree.phrasematches@;
    let bins = bins_of(parts);
    let nodes = tree.arena.nodes();
    parts_combine(parts, list, list.len() as int);
    assert(list.take(list.len() as int) =~= list);
    let path = path_of(parts, list);
    stem_tells(parts, path, list);
    if list.len() > 0 {
        rest_fits(parts, list, list.len() as int);
    }
    let trail = combinations_are_there(tree, path);
    assert(trail_path(tree, trail).len() == trail.len());
    trails_are_combinations(tree, trail);
    assert(stem_of(bins, trail_end(tree, trail)).mask == masks_union(parts, list));
    assert forall|i: int| 0 <= i < list.len() implies nodes[#[trigger] trail[i]].phrasematch
        == Some(list[i]) && nodes[trail[i]].max_relev >= 1000 * weights_sum(
        parts,
        list,
    ) by {
        let some = trail.take(i + 1);
        trail_prefix(tree, trail, i + 1);
        trails_are_combinations(tree, some);
        assert(some.last() == trail[i]);
        let node = nodes[trail[i]];
        assert(trail_path(tree, trail)[i] == node_choice(node));
        assert(path[i] == (place_of(parts, list[i]), list[i]));
        assert(trail_path(tree, some) =~= path.take(i + 1));
        assert(path.take(i + 1) =~= path_of(parts, list.take(i + 1)));
        stem_tells(parts, path.take(i + 1), list.take(i + 1));
        rest_fits(parts, list, i + 1);
        assert(path.take(i + 1).last() == path[i]);
        assert(list.take(i + 1).last() == list[i]);
        assert(stem_of(bins, node).phrasematch == node.phrasematch);
    }
    trail
}

proof fn trail_prefix(tree: StackableTree, trail: Seq<NodeIndex>, n: int)
    requires
        is_trail(tree, trail),
        0 <= n <= trail.len(),
    ensures
        is_trail(tree, trail.take(n)),
    decreases trail.len(),
{
    if n < trail.len() {
        trail_prefix(tree, trail.drop_last(), n);
        assert(trail.drop_last().take(n) =~= trail.take(n));
    } else {
        assert(trail.take(n) =~= trail);
    }
}

/// The parts on a way from the root.
pub open spec fn trail_parts(tree: StackableTree, trail: Seq<NodeIndex>) -> Seq<usize> {
    trail.map_values(|i: NodeIndex| tree.arena.nodes()[i].phrasematch->Some_0)
}

proof fn greatest_is_reached(parts: Seq<PhrasematchSubquery>, members: Seq<usize>) -> (p: usize)
    requires
        members.len() > 0,
    ensures
        members.contains(p),
        part_relev(parts, p) == greatest_relev(parts, members) || greatest_relev(parts, members)
            == 0,
        part_relev(parts, p) <= greatest_relev(parts, members),
    decreases members.len(),
{
    let rest = members.drop_last();
    let last = members.last();
    assert(members[members.len() - 1] == last);
    if part_relev(parts, last) > greatest_relev(parts, rest) || rest.len() == 0 {
        assert(rest.len() == 0 ==> greatest_relev(parts, rest) == 0);
        last
    } else {
        let p = greatest_is_reached(parts, rest);
        let k = choose|k: int| 0 <= k < rest.len() && rest[k] == p;
        assert(members[k] == p);
        p
    }
}

/// The most relevant part of each bin from `j` on.
proof fn best_rest(parts: Seq<PhrasematchSubquery>, j: int) -> (more: Seq<usize>)
    requires
        0 <= j <= bins_of(parts).len(),
        parts.len() <= usize::MAX,
    ensures
        more.len() == bins_of(parts).len() - j,
        forall|i: int|
            0 <= i < more.len() ==> (#[trigger] more[i]) < parts.len() && part_type(
                parts,
                more[i] as int,
            ) == in_order(part_types(parts), num_u32())[j + i],
        forall|list: Seq<usize>|
            #![trigger list + more]
            RELEV_PER_WEIGHT * weights_sum(parts, list + more) == RELEV_PER_WEIGHT * weights_sum(
                parts,
                list,
            ) + relev_from(bins_of(parts), j),
    decreases bins_of(parts).len() - j,
{
    let bins = bins_of(parts);
    if j >= bins.len() {
        let more = Seq::<usize>::empty();
        assert forall|list: Seq<usize>| #![trigger list + more]
            RELEV_PER_WEIGHT * weights_sum(parts, list + more) == RELEV_PER_WEIGHT * weights_sum(
                parts,
                list,
            ) + relev_from(bins, j) by {
            assert(list + more =~= list);
        }
        more
    } else {
        let rest = best_rest(parts, j + 1);
        let types = in_order(part_types(parts), num_u32());
        bins_by_type(parts, j);
        let members = bins[j].members;
        type_has_part(parts, j);
        let p = greatest_is_reached(parts, members);
        bins_of_fit(parts);
        assert(part_relev(parts, p) >= 0);
        assert(part_relev(parts, p) == bins[j].max);
        let more = seq![p] + rest;
        assert forall|i: int| 0 <= i < more.len() implies (#[trigger] more[i]) < parts.len()
            && part_type(parts, more[i] as int) == types[j + i] by {
            if i > 0 {
                assert(more[i] == rest[i - 1]);
            }
        }
        assert forall|list: Seq<usize>| #![trigger list + more]
            RELEV_PER_WEIGHT * weights_sum(parts, list + more) == RELEV_PER_WEIGHT * weights_sum(
                parts,
                list,
            ) + relev_from(bins, j) by {
            let longer = list.push(p);
            assert(list + more =~= longer + rest);
            assert(longer.drop_last() =~= list);
            assert(weights_sum(parts, longer) == weights_sum(parts, list)
                + parts[p as int].weight);
        }
        more
    }
}

proof fn type_has_part(parts: Seq<PhrasematchSubquery>, j: int)
    requires
        0 <= j < bins_of(parts).len(),
        parts.len() <= usize::MAX,
    ensures
        bins_of(parts)[j].members.len() > 0,
{
    let types = in_order(part_types(parts), num_u32());
    let t = types[j];
    bins_by_type(parts, j);
    types_are_those_of_parts(parts);
    assert(types.contains(t));
    set_members(types, t);
    let p = choose|p: int| 0 <= p < parts.len() && #[trigger] part_type(parts, p) == t;
    in_order_of_type(parts, t);
    let members = bins_of(parts)[j].members;
    assert(parts_of_type(parts, t).contains(p as usize));
    set_members(members, p as usize);
}

proof fn types_are_those_of_parts(parts: Seq<PhrasematchSubquery>)
    ensures
        part_types(parts).finite(),
        in_order(part_types(parts), num_u32()).to_set() == part_types(parts),
{
    let list = Seq::new(parts.len(), |i: int| part_type(parts, i));
    assert forall|t: u32| list.to_set().contains(t) <==> part_types(parts).contains(t) by {
        if part_types(parts).contains(t) {
            let p = choose|p: int| 0 <= p < parts.len() && #[trigger] part_type(parts, p) == t;
            assert(list[p] == t);
        }
        if list.contains(t) {
            let p = choose|p: int| 0 <= p < list.len() && list[p] == t;
            assert(part_type(parts, p) == t);
        }
    }
    assert(list.to_set() =~= part_types(parts));
    vstd::seq_lib::seq_to_set_is_finite(list);
    in_order_exists(part_types(parts), num_u32());
}

/// The parts on a way from the root go together, and with one part of each higher index type their
/// weights can add up to a quarter or more: `more` are such parts. The node at the end covers the
/// words of the parts on the way, and promises just what all of these add up to.
pub proof fn combined_parts_go_together(tree: StackableTree, trail: Seq<NodeIndex>) -> (more: Seq<
    usize,
>)
    requires
        is_stack_tree(tree),
        is_trail(tree, trail),
        trail.len() > 0,
    ensures
        go_together(tree.phrasematches@, trail_parts(tree, trail)),
        4 * weights_sum(tree.phrasematches@, trail_parts(tree, trail) + more) >= 1_000_000_000,
        forall|i: int| 0 <= i < more.len() ==> (#[trigger] more[i]) < tree.phrasematches@.len(),
        forall|i: int|
            0 <= i < more.len() ==> tree.phrasematches@[trail_parts(
                tree,
                trail,
            ).last() as int].store.type_id < tree.phrasematches@[(
            #[trigger] more[i]) as int].store.type_id,
        forall|i: int, j: int|
            0 <= i < j < more.len() ==> tree.phrasematches@[(
            #[trigger] more[i]) as int].store.type_id < tree.phrasematches@[(
            #[trigger] more[j]) as int].store.type_id,
        trail_end(tree, trail).mask == masks_union(
            tree.phrasematches@,
            trail_parts(tree, trail),
        ),
        trail_end(tree, trail).max_relev == RELEV_PER_WEIGHT * weights_sum(
            tree.phrasematches@,
            trail_parts(tree, trail) + more,
        ),
{
    let parts = tree.phrasematches@;
    let bins = bins_of(parts);
    let nodes = tree.arena.nodes();
    let path = trail_path(tree, trail);
    let list = trail_parts(tree, trail);
    let types = in_order(part_types(parts), num_u32());
    assert(tree.phrasematches.len() == parts.len());
    trails_are_combinations(tree, trail);
    assert forall|i: int| 0 <= i < list.len() implies (#[trigger] path[i]).1 == list[i] by {}
    stem_tells(parts, path, list);
    let n = path.len() - 1;
    stem_has_part(parts, bins, path, n);
    let last = path.last().0;
    let more = best_rest(parts, last + 1);
    assert forall|i: int, j: int| #![trigger list[i], list[j]]
        0 <= i < j < list.len() implies parts[list[i] as int].store.type_id
        < parts[list[j] as int].store.type_id && parts[list[i] as int].idx
        != parts[list[j] as int].idx && parts[list[i] as int].mask & parts[list[j] as int].mask
        == 0 by {
        combinations_are_sound(parts, path, i, j);
        assert(path[i].1 == list[i] && path[j].1 == list[j]);
    }
    assert forall|i: int| 0 <= i < list.len() implies (#[trigger] list[i]) < parts.len() by {
        stem_has_part(parts, bins, path, i);
        bins_by_type(parts, path[i].0);
        assert(path[i].1 == list[i]);
    }
    assert forall|i: int, j: int| #![trigger list[i], list[j]]
        0 <= i < list.len() && j == i + 1 && j < list.len() implies !bitset_bits(
        parts[list[i] as int].non_overlapping_indexes,
    ).contains(parts[list[j] as int].idx as usize) by {
        combination_prefix(parts, bins, path, j + 1);
        let some = path.take(j + 1);
        assert(some.last() == path[j]);
        let before = some.drop_last();
        assert(before =~= path.take(j));
        assert(before.last() == path[i]);
        assert(stem_along(parts, before).phrasematch == Some(path[i].1));
        assert(path[i].1 == list[i] && path[j].1 == list[j]);
    }
    assert(can_stack(parts, bins, stem_along(parts, path.drop_last()), last, path.last().1));
    assert(path.last().1 == list.last()) by {
        assert(path[n].1 == list[n]);
    }
    assert(list.last() == list[n] && list[n] < parts.len());
    bins_by_type(parts, last);
    assert(bins[last].members.contains(path[n].1));
    assert forall|i: int| 0 <= i < more.len() implies parts[list.last() as int].store.type_id
        < parts[(#[trigger] more[i]) as int].store.type_id by {
        assert(num_u32()(types[last]) < num_u32()(types[last + 1 + i]));
    }
    assert forall|i: int, j: int| 0 <= i < j < more.len() implies parts[(
    #[trigger] more[i]) as int].store.type_id < parts[(#[trigger] more[j]) as int].store.type_id by {
        assert(num_u32()(types[last + 1 + i]) < num_u32()(types[last + 1 + j]));
        assert(part_type(parts, more[i] as int) == types[last + 1 + i]);
        assert(part_type(parts, more[j] as int) == types[last + 1 + j]);
    }
    assert(RELEV_PER_WEIGHT * weights_sum(parts, list + more) == RELEV_PER_WEIGHT * weights_sum(
        parts,
        list,
    ) + relev_from(bins, last + 1));
    reach_falls(parts, path);
    more
}

/// A node on a way from the root adds a part.
pub(crate) proof fn node_has_part(tree: StackableTree, trail: Seq<NodeIndex>)
    requires
        is_stack_tree(tree),
        is_trail(tree, trail),
        trail.len() > 0,
    ensures
        trail_end(tree, trail).phrasematch is Some,
{
    let parts = tree.phrasematches@;
    let path = trail_path(tree, trail);
    let list = trail_parts(tree, trail);
    trails_are_combinations(tree, trail);
    assert forall|i: int| 0 <= i < list.len() implies (#[trigger] path[i]).1 == list[i] by {}
    stem_tells(parts, path, list);
}

proof fn combination_prefix(
    parts: Seq<PhrasematchSubquery>,
    bins: Seq<BinView>,
    path: Path,
    n: int,
)
    requires
        is_combination(parts, bins, path),
        0 <= n <= path.len(),
    ensures
        is_combination(parts, bins, path.take(n)),
    decreases path.len(),
{
    if n < path.len() {
        combination_prefix(parts, bins, path.drop_last(), n);
        assert(path.drop_last().take(n) =~= path.take(n));
    } else {
        assert(path.take(n) =~= path);
    }
}

// ---------------------------------------------------------------------------------------------
// How many there are
// ---------------------------------------------------------------------------------------------

/// A tree with fewer combinations than leaves to keep has room for all.
pub proof fn few_combinations_have_room(tree: StackableTree)
    requires
        is_stack_tree(tree),
        combination_count(tree.phrasematches@, bins_of(tree.phrasematches@), empty_stem())
            < tree.arena.soft_max,
    ensures
        tree.arena.roomy(),
{
    relev_parts(tree.arena.nodes(), 0);
}

/// The number of parts in the bins from `level` on.
spec fn parts_from(bins: Seq<BinView>, level: int) -> nat
    decreases bins.len() - level,
{
    if level >= bins.len() {
        0
    } else {
        bins[level].members.len() + parts_from(bins, level + 1)
    }
}

proof fn stem_count(parts: Seq<PhrasematchSubquery>, bins: Seq<BinView>, stem: Stem)
    requires
        0 <= stem.level <= bins.len(),
    ensures
        combination_count(parts, bins, stem) + 1 <= pow2(parts_from(bins, stem.level)),
    decreases bins.len() - stem.level, 1int,
{
    choices_count(parts, bins, stem, bins.len() as int);
    lemma2_to64();
}

proof fn choices_count(parts: Seq<PhrasematchSubquery>, bins: Seq<BinView>, stem: Stem, j: int)
    requires
        0 <= stem.level <= j <= bins.len(),
    ensures
        stacked_count(parts, bins, stem, choices(parts, bins, stem, j)) + pow2(parts_from(bins, j))
            <= pow2(parts_from(bins, stem.level)),
    decreases bins.len() - stem.level, 0int, j,
{
    if j > stem.level {
        choices_count(parts, bins, stem, j - 1);
        bin_count(parts, bins, stem, j - 1, bins[j - 1].members.len() as int);
    }
}

proof fn bin_count(parts: Seq<PhrasematchSubquery>, bins: Seq<BinView>, stem: Stem, j: int, n: int)
    requires
        0 <= stem.level <= j < bins.len(),
        0 <= n <= bins[j].members.len(),
        stacked_count(parts, bins, stem, choices(parts, bins, stem, j)) + pow2(parts_from(bins, j))
            <= pow2(parts_from(bins, stem.level)),
    ensures
        stacked_count(
            parts,
            bins,
            stem,
            choices(parts, bins, stem, j) + bin_choices(parts, bins, stem, j, n),
        ) + pow2((parts_from(bins, j) - n) as nat) <= pow2(parts_from(bins, stem.level)),
    decreases bins.len() - stem.level, 0int, j, n,
{
    let before = choices(parts, bins, stem, j);
    if n == 0 {
        assert(before + bin_choices(parts, bins, stem, j, n) =~= before);
    } else {
        let p = bins[j].members[n - 1];
        let had = before + bin_choices(parts, bins, stem, j, n - 1);
        let rest = (parts_from(bins, j) - n) as nat;
        bin_count(parts, bins, stem, j, n - 1);
        lemma_pow2_unfold(rest + 1);
        if can_stack(parts, bins, stem, j, p) {
            let now = before + bin_choices(parts, bins, stem, j, n);
            assert(now =~= had.push((j, p)));
            assert(now.drop_last() =~= had);
            stem_count(parts, bins, stacked(parts, stem, j, p));
            if parts_from(bins, j + 1) < rest {
                lemma_pow2_strictly_increases(parts_from(bins, j + 1), rest);
            }
        }
    }
}

/// The parts of the bins from `level` on.
spec fn flat_bins(bins: Seq<BinView>, level: int) -> Seq<usize>
    decreases bins.len() - level,
{
    if level >= bins.len() {
        Seq::empty()
    } else {
        bins[level].members + flat_bins(bins, level + 1)
    }
}

proof fn flat_bins_fit(parts: Seq<PhrasematchSubquery>, bins: Seq<BinView>, level: int)
    requires
        bins_fit(parts, bins),
        bins_apart(bins),
        0 <= level <= bins.len(),
    ensures
        flat_bins(bins, level).len() == parts_from(bins, level),
        flat_bins(bins, level).no_duplicates(),
        forall|k: int|
            0 <= k < flat_bins(bins, level).len() ==> #[trigger] flat_bins(bins, level)[k]
                < parts.len() && exists|j: int|
                level <= j < bins.len() && (#[trigger] bins[j]).members.contains(
                    flat_bins(bins, level)[k],
                ),
    decreases bins.len() - level,
{
    if level < bins.len() {
        flat_bins_fit(parts, bins, level + 1);
        let own = bins[level].members;
        let rest = flat_bins(bins, level + 1);
        let all = flat_bins(bins, level);
        assert(all == own + rest);
        assert forall|k: int| 0 <= k < all.len() implies #[trigger] all[k] < parts.len()
            && exists|j: int|
            level <= j < bins.len() && (#[trigger] bins[j]).members.contains(all[k]) by {
            if k < own.len() {
                assert(own[k] < parts.len());
                assert(bins[level].members.contains(all[k]));
            } else {
                assert(rest[k - own.len()] == all[k]);
            }
        }
        assert forall|a: int, b: int| 0 <= a < b < all.len() implies all[a] != all[b] by {
            if b < own.len() {
                assert(part_num(parts)(own[a]) < part_num(parts)(own[b]));
            } else if a < own.len() {
                assert(bins[level].members.contains(own[a]));
                let j = choose|j: int|
                    level + 1 <= j < bins.len() && (#[trigger] bins[j]).members.contains(
                        rest[b - own.len()],
                    );
                assert(bins[j].members.contains(rest[b - own.len()]));
                if all[a] == all[b] {
                    assert(level == j);
                }
            } else {
                assert(rest[a - own.len()] != rest[b - own.len()]);
            }
        }
    }
}

/// There are fewer combinations than there are sets of parts.
pub proof fn few_parts_have_few_combinations(parts: Seq<PhrasematchSubquery>)
    ensures
        combination_count(parts, bins_of(parts), empty_stem()) < pow2(parts.len()),
{
    let bins = bins_of(parts);
    bins_of_fit(parts);
    stem_count(parts, bins, empty_stem());
    flat_bins_fit(parts, bins, 0);
    let all = flat_bins(bins, 0);
    let places = Seq::new(parts.len(), |i: int| i as usize);
    vstd::seq_lib::seq_to_set_is_finite(places);
    all.unique_seq_to_set();
    assert forall|p: usize| all.to_set().contains(p) implies places.to_set().contains(p) by {
        let k = choose|k: int| 0 <= k < all.len() && all[k] == p;
        assert(all[k] < parts.len());
        assert(places[p as int] == p);
    }
    vstd::set_lib::lemma_len_subset(all.to_set(), places.to_set());
    places.lemma_cardinality_of_set();
    if all.len() < parts.len() {
        lemma_pow2_strictly_increases(all.len(), parts.len());
    }
}

/// Without parts there are no nodes, and the root is a leaf.
pub proof fn no_parts_make_no_nodes(tree: StackableTree)
    requires
        is_stack_tree(tree),
        tree.phrasematches@.len() == 0,
    ensures
        tree.arena.nodes().dom() == Set::<NodeIndex>::empty(),
        tree.root.children@.len() == 0,
{
    let parts = tree.phrasematches@;
    let bins = bins_of(parts);
    few_parts_have_few_combinations(parts);
    lemma2_to64();
    few_combinations_have_room(tree);
    assert(tree.arena.nodes().dom() =~= Set::empty());
    if bins.len() > 0 {
        types_occur(parts, 0);
    }
    assert(choices(parts, bins, stem_of(bins, tree.root), bins.len() as int) =~= Seq::empty());
}

// ---------------------------------------------------------------------------------------------
// What an arena keeps
// ---------------------------------------------------------------------------------------------

/// `ms` are the states of an arena to which the nodes are added in turn, with these results.
pub open spec fn are_added(
    ms: Seq<ArenaManager>,
    nodes: Seq<StackableNode>,
    results: Seq<Option<NodeIndex>>,
) -> bool {
    &&& ms.len() == nodes.len() + 1
    &&& results.len() == nodes.len()
    &&& forall|t: int| 0 <= t < ms.len() ==> (#[trigger] ms[t]).wf()
    &&& forall|t: int|
        #![trigger results[t]]
        0 <= t < nodes.len() ==> is_added(ms[t], nodes[t], results[t], ms[t + 1])
}

/// The node is still in the arena, where it was put.
pub open spec fn is_kept(m: ArenaManager, node: StackableNode, result: Option<NodeIndex>) -> bool {
    result matches Some(index) && m.nodes().contains_key(index) && m.nodes()[index] == node
}

proof fn adding_goes_on(
    ms: Seq<ArenaManager>,
    nodes: Seq<StackableNode>,
    results: Seq<Option<NodeIndex>>,
    a: int,
    b: int,
)
    requires
        are_added(ms, nodes, results),
        0 <= a <= b < ms.len(),
    ensures
        later(ms[a], ms[b]),
    decreases b - a,
{
    if a < b {
        adding_goes_on(ms, nodes, results, a, b - 1);
        assert(is_added(ms[b - 1], nodes[b - 1], results[b - 1], ms[b]));
        match results[b - 1] {
            Some(index) => {
                added_is_later(ms[b - 1], ms[b], nodes[b - 1], index);
            },
            None => {},
        }
        later_is_transitive(ms[a], ms[b - 1], ms[b]);
    }
}

/// Whatever was offered to an arena is in it, unless it is full and beats it; and nothing is in it
/// that is less relevant than the least relevance that it tells. Leaves that just come up to that
/// may be there or not: as many of them are as there is room for.
pub proof fn the_best_nodes_are_kept(
    ms: Seq<ArenaManager>,
    nodes: Seq<StackableNode>,
    results: Seq<Option<NodeIndex>>,
    k: int,
)
    requires
        are_added(ms, nodes, results),
        !ms.last().spent(),
        0 <= k < nodes.len(),
    ensures
        !(ms.last().full() && is_beaten(nodes[k], ms.last().min_relev)) ==> is_kept(
            ms.last(),
            nodes[k],
            results[k],
        ),
        is_kept(ms.last(), nodes[k], results[k]) ==> nodes[k].max_relev >= ms.last().min_relev,
        leaf_nodes(ms.last().nodes()).len() <= ms.last().soft_max,
        !ms.last().full() ==> leaf_nodes(ms.last().nodes()).len() < ms.last().soft_max,
{
    let last = ms.last();
    assert(ms[ms.len() - 1] == last);
    assert(is_added(ms[k], nodes[k], results[k], ms[k + 1]));
    assert(ms[k].wf() && ms[k + 1].wf());
    adding_goes_on(ms, nodes, results, k + 1, ms.len() - 1);
    match results[k] {
        Some(index) => {
            added_is_later(ms[k], ms[k + 1], nodes[k], index);
            assert(ms[k + 1].nodes().contains_key(index));
            if last.nodes().contains_key(index) {
                assert(last.nodes().dom().contains(index));
            }
        },
        None => {},
    }
}

/// An arena to which only leaves of one relevance are offered keeps the first of them, as many as
/// it may keep.
pub proof fn equal_leaves_fill_up(
    ms: Seq<ArenaManager>,
    nodes: Seq<StackableNode>,
    results: Seq<Option<NodeIndex>>,
    relev: i128,
    n: int,
)
    requires
        are_added(ms, nodes, results),
        ms[0].nodes().dom() == Set::<NodeIndex>::empty(),
        ms[0].added + nodes.len() < u64::MAX,
        forall|t: int|
            0 <= t < nodes.len() ==> (#[trigger] nodes[t]).children@.len() == 0
                && nodes[t].max_relev == relev,
        0 <= n < ms.len(),
    ensures
        leaf_nodes(ms[n].nodes()).len() == (if n < ms[0].soft_max {
            n
        } else {
            ms[0].soft_max as int
        }),
        ms[n].soft_max == ms[0].soft_max,
        ms[n].added <= ms[0].added + n,
        n > 0 ==> ms[n].min_relev == relev && ms[n].nodes().dom() != Set::<NodeIndex>::empty(),
    decreases n,
{
    if n == 0 {
        assert(leaf_nodes(ms[0].nodes()) =~= Set::empty());
    } else {
        equal_leaves_fill_up(ms, nodes, results, relev, n - 1);
        let m1 = ms[n - 1];
        let m2 = ms[n];
        let node = nodes[n - 1];
        assert(m1.wf() && m2.wf());
        assert(is_added(m1, node, results[n - 1], m2));
        match results[n - 1] {
            Some(index) => {
                let all = m1.nodes().insert(index, node);
                let gone = given_up(m1, node, index, m2);
                with_node_parts(m1.nodes(), index, node);
                assert(all.dom().contains(index));
                assert forall|i: NodeIndex| all.contains_key(i) implies #[trigger] all[i].max_relev
                    >= relev by {
                    if i != index {
                        assert(m1.min_relev <= m1.nodes()[i].max_relev);
                        if n - 1 == 0 {
                            assert(ms[0].nodes().dom().contains(i));
                        }
                    }
                }
                assert(m2.nodes().dom().contains(index));
                if exists|i: NodeIndex| gone.contains(i) {
                    let i = choose|i: NodeIndex| gone.contains(i);
                    assert(gone.contains(i));
                    assert(leaf_nodes(m2.nodes()).subset_of(leaf_nodes(all)));
                    relev_parts(all, 0);
                    vstd::set_lib::lemma_len_subset(leaf_nodes(m2.nodes()), leaf_nodes(all));
                } else {
                    assert(all.remove_keys(gone) =~= all);
                }
                let least = choose|i: NodeIndex|
                    m2.nodes().contains_key(i) && #[trigger] m2.nodes()[i].max_relev
                        == m2.min_relev;
                assert(all.dom().contains(least) && all[least] == m2.nodes()[least]);
                assert(m2.nodes()[index].max_relev == relev);
            },
            None => {
                if n - 1 == 0 {
                    assert(m1.total_leaves == 0);
                }
            },
        }
    }
}

// ---------------------------------------------------------------------------------------------
// Searching
// ---------------------------------------------------------------------------------------------

proof fn child_is_listed(nodes: Nodes, children: Seq<NodeIndex>, k: int)
    requires
        0 <= k < children.len(),
        nodes.contains_key(children[k]),
    ensures
        child_nodes(nodes, children).contains(nodes[children[k]]),
    decreases children.len(),
{
    let rest = children.drop_last();
    let before = child_nodes(nodes, rest);
    let all = child_nodes(nodes, children);
    if k == children.len() - 1 {
        assert(all[before.len() as int] == nodes[children[k]]);
    } else {
        assert(rest[k] == children[k]);
        child_is_listed(nodes, rest, k);
        let i = choose|i: int| 0 <= i < before.len() && before[i] == nodes[children[k]];
        assert(all[i] == nodes[children[k]]);
    }
}

proof fn children_are_listed(nodes: Nodes, of: Seq<StackableNode>, i: int, c: StackableNode)
    requires
        0 <= i < of.len(),
        child_nodes(nodes, of[i].children@).contains(c),
    ensures
        all_child_nodes(nodes, of).contains(c),
    decreases of.len(),
{
    let rest = of.drop_last();
    let before = all_child_nodes(nodes, rest);
    let last = child_nodes(nodes, of.last().children@);
    let all = all_child_nodes(nodes, of);
    if i == of.len() - 1 {
        let k = choose|k: int| 0 <= k < last.len() && last[k] == c;
        assert(all[before.len() + k] == c);
    } else {
        assert(rest[i] == of[i]);
        children_are_listed(nodes, rest, i, c);
        let k = choose|k: int| 0 <= k < before.len() && before[k] == c;
        assert(all[k] == c);
    }
}

/// A breadth-first search begins with the root and comes to every node that a way leads to.
pub proof fn searches_come_to_every_node(
    tree: StackableTree,
    found: Seq<StackableNode>,
    trail: Seq<NodeIndex>,
)
    requires
        is_breadth_first(tree, found),
        is_trail(tree, trail),
    ensures
        found.len() > 0,
        found[0] == tree.root,
        found.contains(trail_end(tree, trail)),
    decreases trail.len(),
{
    let nodes = tree.arena.nodes();
    let kids = all_child_nodes(nodes, found);
    assert(found == seq![tree.root] + kids);
    assert(found[0] == tree.root);
    if trail.len() > 0 {
        let before = trail.drop_last();
        searches_come_to_every_node(tree, found, before);
        let parent = trail_end(tree, before);
        let i = choose|i: int| 0 <= i < found.len() && found[i] == parent;
        let k = choose|k: int|
            0 <= k < parent.children@.len() && parent.children@[k] == trail.last();
        child_is_listed(nodes, parent.children@, k);
        let c = trail_end(tree, trail);
        children_are_listed(nodes, found, i, c);
        let m = choose|m: int| 0 <= m < kids.len() && kids[m] == c;
        assert(found[m + 1] == c);
    }
}

} // verus!
