//! The nodes of a stackable tree, and the arena that keeps the best of them.

use fixedbitset::FixedBitSet;
use generational_arena::Arena;
use vstd::prelude::*;

use crate::outside::{
    arena_generation, arena_get, arena_insert, arena_new, arena_nodes, arena_remove, NodeIndex,
    RelevBins,
};

verus! {

/// Maximum number of leaf nodes to keep in the stackable tree.
///
/// Limits memory usage by pruning low-relevance combinations.
pub const LEAF_SOFT_MAX: usize = 2000;

/// A node in the stackable tree representing a phrase combination: the phrases on the way from the
/// root to the node.
pub struct StackableNode {
    /// The phrase query this node adds, by its place in the list of queries (None for root)
    pub phrasematch: Option<usize>,
    /// Child nodes that can stack with this one. A child that the arena gave up is still listed.
    pub children: Vec<NodeIndex>,
    /// The indexes that have been used in this branch
    pub bmask: FixedBitSet,
    /// Combined mask of all phrases in this combination
    pub mask: u32,
    /// Index of the phrase (0, 1, 2, ...)
    pub idx: u16,
    /// Maximum possible relevance from this node down, in trillionths
    pub max_relev: i128,
    /// Zoom level of the phrase's index
    pub zoom: u16,
    /// The number of the first bin that the children come from
    pub level: usize,
}

impl StackableNode {
    /// Returns true if this node has no children (is a leaf).
    pub fn is_leaf(&self) -> (r: bool)
        ensures
            r == (self.children@.len() == 0),
    {
        self.children.len() == 0
    }
}

/// The nodes of an arena by their index.
pub type Nodes = Map<NodeIndex, StackableNode>;

/// The nodes of a maximum relevance.
pub open spec fn relev_nodes(nodes: Nodes, relev: i128) -> Set<NodeIndex> {
    nodes.dom().filter(|i: NodeIndex| nodes[i].max_relev == relev)
}

/// The nodes without children.
pub open spec fn leaf_nodes(nodes: Nodes) -> Set<NodeIndex> {
    nodes.dom().filter(|i: NodeIndex| nodes[i].children@.len() == 0)
}

/// The nodes of a maximum relevance that have no children.
pub open spec fn relev_leaves(nodes: Nodes, relev: i128) -> Set<NodeIndex> {
    nodes.dom().filter(
        |i: NodeIndex| nodes[i].children@.len() == 0 && nodes[i].max_relev == relev,
    )
}

/// `relev` is the least maximum relevance of the nodes; without nodes, the greatest number.
pub open spec fn is_least_relev(nodes: Nodes, relev: i128) -> bool {
    if nodes.dom() == Set::<NodeIndex>::empty() {
        relev == i128::MAX
    } else {
        &&& exists|i: NodeIndex| nodes.contains_key(i) && #[trigger] nodes[i].max_relev == relev
        &&& forall|i: NodeIndex| nodes.contains_key(i) ==> relev <= #[trigger] nodes[i].max_relev
    }
}

/// Arena-based memory manager for stackable tree nodes.
///
/// Manages node allocation and pruning based on relevance thresholds. Keeps only the top
/// `LEAF_SOFT_MAX` leaf nodes by relevance.
///
/// # Pruning Strategy
/// - Tracks leaf count per relevance level
/// - When full, a better leaf takes the place of one of the lowest relevance bin, and the bin is
///   culled with its last leaf
/// - Maintains min_relev threshold for new insertions
pub struct ArenaManager {
    pub arena: Arena<StackableNode>,
    /// Per maximum relevance the number of leaves and the nodes
    pub relev_map: RelevBins,
    /// Minimum relevance currently in the arena
    pub min_relev: i128,
    /// Total number of leaf nodes
    pub total_leaves: usize,
    /// Number of leaf nodes from which on the arena is full
    pub soft_max: usize,
    /// Number of nodes that were removed, which the arena counts in 64 bits
    pub removed: u64,
    /// Number of nodes that were ever added
    pub added: u64,
}

/// The bins hold exactly the nodes: those of each maximum relevance, each once, with the number of
/// leaves among them.
pub open spec fn bins_match(bins: Map<i128, (usize, Seq<NodeIndex>)>, nodes: Nodes) -> bool {
    &&& forall|r: i128|
        #![trigger bins[r]]
        bins.contains_key(r) ==> bins[r].1.no_duplicates() && bins[r].1.to_set() == relev_nodes(
            nodes,
            r,
        ) && bins[r].0 == relev_leaves(nodes, r).len() && bins[r].1.len() > 0
    &&& forall|i: NodeIndex|
        nodes.contains_key(i) ==> bins.contains_key(#[trigger] nodes[i].max_relev)
}

/// An index is that of a node, or of one that was removed and will not come back.
pub open spec fn index_known(m: ArenaManager, i: NodeIndex) -> bool {
    m.nodes().contains_key(i) || i.1 < m.removed
}

impl ArenaManager {
    /// The nodes by their index.
    pub open spec fn nodes(self) -> Nodes {
        arena_nodes(self.arena)
    }

    /// The arena has as many leaves as it should keep.
    pub open spec fn full(self) -> bool {
        self.total_leaves >= self.soft_max
    }

    /// As many nodes were added as can be counted.
    pub open spec fn spent(self) -> bool {
        self.added == u64::MAX
    }

    /// There is room for every node.
    pub open spec fn roomy(self) -> bool {
        !self.full() && !self.spent()
    }

    /// The counts and bins are those of the nodes.
    pub open spec fn counts_fit(self) -> bool {
        &&& self.nodes().dom().finite()
        &&& bins_match(self.relev_map@, self.nodes())
        &&& is_least_relev(self.nodes(), self.min_relev)
        &&& self.total_leaves == leaf_nodes(self.nodes()).len()
        &&& self.soft_max > 0
        &&& arena_generation(self.arena) == self.removed
        &&& self.added == self.removed + self.nodes().dom().len()
        &&& forall|i: NodeIndex| #[trigger] self.nodes().contains_key(i) ==> i.1 <= self.removed
    }

    /// The counts and bins are those of the nodes. There are not more leaves than should be kept,
    /// and as soon as there are that many, nothing ranks below all of them.
    pub open spec fn wf(self) -> bool {
        &&& self.counts_fit()
        &&& self.total_leaves <= self.soft_max
        &&& self.full() ==> relev_leaves(self.nodes(), self.min_relev).len() > 0
    }

    /// A manager without nodes.
    pub fn new() -> (m: Self)
        ensures
            m.wf(),
            m.nodes() == Map::<NodeIndex, StackableNode>::empty(),
            m.soft_max == LEAF_SOFT_MAX,
            m.removed == 0,
            m.added == 0,
    {
        let m = ArenaManager {
            arena: arena_new(),
            relev_map: RelevBins::new(),
            min_relev: i128::MAX,
            total_leaves: 0,
            soft_max: LEAF_SOFT_MAX,
            removed: 0,
            added: 0,
        };
        proof {
            assert(m.nodes() =~= Map::empty());
            assert(leaf_nodes(m.nodes()) =~= Set::empty());
        }
        m
    }

    /// Whether the arena has as many leaves as it should keep.
    pub fn is_full(&self) -> (r: bool)
        ensures
            r == self.full(),
    {
        self.total_leaves >= self.soft_max
    }

    /// The node at an index, if it is still there.
    pub fn get(&self, index: NodeIndex) -> (node: Option<&StackableNode>)
        ensures
            match node {
                Some(n) => self.nodes().contains_key(index) && *n == self.nodes()[index],
                None => !self.nodes().contains_key(index),
            },
    {
        arena_get(&self.arena, index)
    }
}

/// The nodes without those of a maximum relevance.
pub open spec fn without_relev(nodes: Nodes, relev: i128) -> Nodes {
    nodes.remove_keys(relev_nodes(nodes, relev))
}

/// The node ranks below everything that a full arena with this least relevance keeps; a leaf also
/// if it only comes up to it.
pub open spec fn is_beaten(node: StackableNode, min_relev: i128) -> bool {
    node.max_relev < min_relev || (node.max_relev == min_relev && node.children@.len() == 0)
}

/// The nodes of `m1` with one more that `m2` does not hold.
pub open spec fn given_up(
    m1: ArenaManager,
    node: StackableNode,
    index: NodeIndex,
    m2: ArenaManager,
) -> Set<NodeIndex> {
    m1.nodes().insert(index, node).dom().difference(m2.nodes().dom())
}

/// `m2` is what adding a node makes of `m1`, and `r` where the node is.
///
/// A full arena rejects a node that it beats, and one that has counted as many nodes as it can
/// rejects every node. Otherwise the node is there under a new index, and what was there stays, but
/// for what a full arena beats.
pub open spec fn is_added(
    m1: ArenaManager,
    node: StackableNode,
    r: Option<NodeIndex>,
    m2: ArenaManager,
) -> bool {
    match r {
        None => (m1.spent() || (m1.full() && is_beaten(node, m1.min_relev))) && m2 == m1,
        Some(index) => {
            let nodes = m1.nodes().insert(index, node);
            let gone = given_up(m1, node, index, m2);
            &&& !m1.spent()
            &&& !(m1.full() && is_beaten(node, m1.min_relev))
            &&& !index_known(m1, index)
            &&& index.1 == m1.removed
            &&& m2.nodes() == nodes.remove_keys(gone)
            &&& m2.nodes().contains_key(index)
            &&& forall|i: NodeIndex| #[trigger]
                gone.contains(i) ==> m2.full() && is_beaten(nodes[i], m2.min_relev)
            &&& m2.soft_max == m1.soft_max
            &&& m2.removed == m1.removed + gone.len()
            &&& m2.added == m1.added + 1
        },
    }
}

pub(crate) proof fn relev_parts(nodes: Nodes, relev: i128)
    requires
        nodes.dom().finite(),
    ensures
        relev_nodes(nodes, relev).finite(),
        leaf_nodes(nodes).finite(),
        relev_leaves(nodes, relev).finite(),
        relev_leaves(nodes, relev).len() <= leaf_nodes(nodes).len() <= nodes.dom().len(),
        relev_nodes(nodes, relev).len() <= nodes.dom().len(),
{
    nodes.dom().lemma_len_filter(|i: NodeIndex| nodes[i].max_relev == relev);
    nodes.dom().lemma_len_filter(|i: NodeIndex| nodes[i].children@.len() == 0);
    vstd::set_lib::lemma_len_subset(relev_leaves(nodes, relev), leaf_nodes(nodes));
    vstd::set_lib::lemma_set_subset_finite(nodes.dom(), relev_leaves(nodes, relev));
}

pub(crate) proof fn without_relev_parts(nodes: Nodes, relev: i128)
    requires
        nodes.dom().finite(),
    ensures
        without_relev(nodes, relev).dom().finite(),
        leaf_nodes(without_relev(nodes, relev)).len() == leaf_nodes(nodes).len() - relev_leaves(
            nodes,
            relev,
        ).len(),
        forall|r: i128|
            r != relev ==> #[trigger] relev_nodes(without_relev(nodes, relev), r) == relev_nodes(
                nodes,
                r,
            ),
        forall|r: i128|
            r != relev ==> #[trigger] relev_leaves(without_relev(nodes, relev), r) == relev_leaves(
                nodes,
                r,
            ),
{
    let after = without_relev(nodes, relev);
    relev_parts(nodes, relev);
    vstd::set_lib::lemma_set_subset_finite(nodes.dom(), after.dom());
    assert(leaf_nodes(after) =~= leaf_nodes(nodes).difference(relev_leaves(nodes, relev)));
    vstd::set_lib::lemma_set_difference_len(leaf_nodes(nodes), relev_leaves(nodes, relev));
    assert(leaf_nodes(nodes).intersect(relev_leaves(nodes, relev)) =~= relev_leaves(nodes, relev));
    assert(relev_leaves(nodes, relev).intersect(leaf_nodes(nodes)) =~= relev_leaves(nodes, relev));
    assert(relev_leaves(nodes, relev).difference(leaf_nodes(nodes)) =~= Set::empty());
    assert forall|r: i128| r != relev implies #[trigger] relev_nodes(after, r) == relev_nodes(
        nodes,
        r,
    ) by {
        assert(relev_nodes(after, r) =~= relev_nodes(nodes, r));
    }
    assert forall|r: i128| r != relev implies #[trigger] relev_leaves(after, r) == relev_leaves(
        nodes,
        r,
    ) by {
        assert(relev_leaves(after, r) =~= relev_leaves(nodes, r));
    }
}

pub(crate) proof fn with_node_parts(nodes: Nodes, index: NodeIndex, node: StackableNode)
    requires
        nodes.dom().finite(),
        !nodes.contains_key(index),
    ensures
        nodes.insert(index, node).dom().finite(),
        leaf_nodes(nodes.insert(index, node)).len() == leaf_nodes(nodes).len() + (if node.children@.len()
            == 0 {
            1nat
        } else {
            0
        }),
        relev_nodes(nodes.insert(index, node), node.max_relev) == relev_nodes(
            nodes,
            node.max_relev,
        ).insert(index),
        relev_leaves(nodes.insert(index, node), node.max_relev).len() == relev_leaves(
            nodes,
            node.max_relev,
        ).len() + (if node.children@.len() == 0 {
            1nat
        } else {
            0
        }),
        forall|r: i128|
            r != node.max_relev ==> #[trigger] relev_nodes(nodes.insert(index, node), r)
                == relev_nodes(nodes, r),
        forall|r: i128|
            r != node.max_relev ==> #[trigger] relev_leaves(nodes.insert(index, node), r)
                == relev_leaves(nodes, r),
{
    let after = nodes.insert(index, node);
    let relev = node.max_relev;
    relev_parts(nodes, relev);
    assert(relev_nodes(after, relev) =~= relev_nodes(nodes, relev).insert(index));
    if node.children@.len() == 0 {
        assert(leaf_nodes(after) =~= leaf_nodes(nodes).insert(index));
        assert(relev_leaves(after, relev) =~= relev_leaves(nodes, relev).insert(index));
    } else {
        assert(leaf_nodes(after) =~= leaf_nodes(nodes));
        assert(relev_leaves(after, relev) =~= relev_leaves(nodes, relev));
    }
    assert forall|r: i128| r != relev implies #[trigger] relev_nodes(after, r) == relev_nodes(
        nodes,
        r,
    ) by {
        assert(relev_nodes(after, r) =~= relev_nodes(nodes, r));
    }
    assert forall|r: i128| r != relev implies #[trigger] relev_leaves(after, r) == relev_leaves(
        nodes,
        r,
    ) by {
        assert(relev_leaves(after, r) =~= relev_leaves(nodes, r));
    }
}

/// The least of the keys; without keys, the greatest number.
fn least_key(keys: &Vec<i128>) -> (least: i128)
    ensures
        keys@.len() == 0 ==> least == i128::MAX,
        keys@.len() > 0 ==> keys@.contains(least),
        forall|i: int| 0 <= i < keys@.len() ==> least <= #[trigger] keys@[i],
{
    if keys.len() == 0 {
        return i128::MAX;
    }
    let mut least: i128 = keys[0];
    let mut i: usize = 1;
    while i < keys.len()
        invariant
            1 <= i <= keys@.len(),
            keys@.contains(least),
            forall|j: int| 0 <= j < i ==> least <= #[trigger] keys@[j],
        decreases keys@.len() - i,
    {
        if keys[i] < least {
            least = keys[i];
        }
        i += 1;
    }
    least
}

impl ArenaManager {
    /// Picks the minimum relevance from the bins.
    fn reset_min(&mut self)
        requires
            bins_match(old(self).relev_map@, old(self).nodes()),
        ensures
            *final(self) == (ArenaManager { min_relev: final(self).min_relev, ..*old(self) }),
            is_least_relev(final(self).nodes(), final(self).min_relev),
    {
        let keys: Vec<i128> = self.relev_map.keys();
        self.min_relev = least_key(&keys);
        proof {
            let nodes = self.nodes();
            let bins = self.relev_map@;
            assert forall|i: NodeIndex| nodes.contains_key(i) implies self.min_relev
                <= #[trigger] nodes[i].max_relev by {
                assert(bins.contains_key(nodes[i].max_relev));
                assert(keys@.to_set().contains(nodes[i].max_relev));
                let q = choose|q: int| 0 <= q < keys@.len() && keys@[q] == nodes[i].max_relev;
                assert(self.min_relev <= keys@[q]);
            }
            if nodes.dom() == Set::<NodeIndex>::empty() {
                if keys@.len() > 0 {
                    assert(keys@.to_set().contains(keys@[0]));
                    let r = keys@[0];
                    assert(bins.contains_key(r) && bins[r].1.len() > 0);
                    assert(bins[r].1.to_set().contains(bins[r].1[0]));
                    assert(relev_nodes(nodes, r).contains(bins[r].1[0]));
                    assert(nodes.dom().contains(bins[r].1[0]));
                }
            } else {
                assert(exists|i: NodeIndex| nodes.dom().contains(i)) by {
                    if forall|i: NodeIndex| !nodes.dom().contains(i) {
                        assert(nodes.dom() =~= Set::empty());
                    }
                }
                let some = choose|i: NodeIndex| nodes.dom().contains(i);
                assert(bins.contains_key(nodes[some].max_relev));
                assert(keys@.to_set().contains(nodes[some].max_relev));
                assert(keys@.contains(self.min_relev));
                let r = self.min_relev;
                assert(keys@.to_set().contains(r));
                assert(bins.contains_key(r) && bins[r].1.len() > 0);
                assert(bins[r].1.to_set().contains(bins[r].1[0]));
                assert(relev_nodes(nodes, r).contains(bins[r].1[0]));
                assert(nodes[bins[r].1[0]].max_relev == r);
            }
        }
    }

    /// Removes all nodes in the minimum relevance bin.
    fn cull_min(&mut self)
        requires
            old(self).counts_fit(),
            old(self).nodes().dom() != Set::<NodeIndex>::empty(),
        ensures
            final(self).counts_fit(),
            final(self).nodes() == without_relev(old(self).nodes(), old(self).min_relev),
            final(self).soft_max == old(self).soft_max,
            final(self).added == old(self).added,
            final(self).total_leaves == old(self).total_leaves - relev_leaves(
                old(self).nodes(),
                old(self).min_relev,
            ).len(),
    {
        let ghost nodes = self.nodes();
        let ghost relev = self.min_relev;
        let ghost bins = self.relev_map@;
        let ghost after = without_relev(nodes, relev);
        proof {
            relev_parts(nodes, relev);
            without_relev_parts(nodes, relev);
            least_has_bin(nodes, bins, relev);
        }
        if let Some((min_leaf_count, min_nodes)) = self.relev_map.remove(self.min_relev) {
            self.total_leaves = self.total_leaves - min_leaf_count;
            let ghost gone = min_nodes@;
            proof {
                gone.unique_seq_to_set();
                assert(gone.take(0).to_set() =~= Set::empty());
                assert(nodes.remove_keys(gone.take(0).to_set()) =~= nodes);
            }
            let mut i: usize = 0;
            while i < min_nodes.len()
                invariant
                    i <= min_nodes@.len(),
                    gone == min_nodes@,
                    gone.no_duplicates(),
                    gone.to_set() == relev_nodes(nodes, relev),
                    self.nodes() == nodes.remove_keys(gone.take(i as int).to_set()),
                    self.relev_map@ == bins.remove(relev),
                    self.min_relev == relev,
                    self.total_leaves == leaf_nodes(nodes).len() - relev_leaves(nodes, relev).len(),
                    self.soft_max == old(self).soft_max,
                    self.added == old(self).added,
                    self.removed == old(self).removed + i,
                    arena_generation(self.arena) == self.removed,
                    old(self).removed + gone.len() <= u64::MAX,
                decreases min_nodes@.len() - i,
            {
                let index: NodeIndex = min_nodes[i];
                proof {
                    assert(gone.to_set().contains(gone[i as int]));
                    assert(!gone.take(i as int).contains(index));
                    let before = gone.take(i as int);
                    assert(gone.take(i + 1) =~= before.push(index));
                    before.lemma_push_to_set_commute(index);
                    assert(nodes.remove_keys(gone.take(i + 1).to_set()) =~= nodes.remove_keys(
                        before.to_set(),
                    ).remove(index));
                }
                arena_remove(&mut self.arena, index);
                self.removed = self.removed + 1;
                i += 1;
            }
            proof {
                assert(gone.take(i as int) =~= gone);
            }
        }
        proof {
            let now = bins.remove(relev);
            assert(self.nodes() == after);
            assert(bins_match(now, after)) by {
                assert forall|i: NodeIndex| after.contains_key(i) implies now.contains_key(
                    #[trigger] after[i].max_relev,
                ) by {
                    assert(nodes.contains_key(i) && after[i] == nodes[i]);
                    assert(bins.contains_key(nodes[i].max_relev));
                }
            }
            assert(after.dom() =~= nodes.dom().difference(relev_nodes(nodes, relev)));
            vstd::set_lib::lemma_set_difference_len(nodes.dom(), relev_nodes(nodes, relev));
            assert(nodes.dom().intersect(relev_nodes(nodes, relev)) =~= relev_nodes(nodes, relev));
            assert(relev_nodes(nodes, relev).intersect(nodes.dom()) =~= relev_nodes(nodes, relev));
            assert(relev_nodes(nodes, relev).difference(nodes.dom()) =~= Set::empty());
        }
        self.reset_min();
    }

    /// The place in the list of the last leaf.
    fn last_leaf(&self, list: &Vec<NodeIndex>) -> (k: usize)
        requires
            exists|k: int|
                0 <= k < list@.len() && leaf_nodes(self.nodes()).contains(#[trigger] list@[k]),
        ensures
            k < list@.len(),
            leaf_nodes(self.nodes()).contains(list@[k as int]),
    {
        let mut k: usize = list.len() - 1;
        let ghost some = choose|k: int|
            0 <= k < list@.len() && leaf_nodes(self.nodes()).contains(#[trigger] list@[k]);
        loop
            invariant
                k < list@.len(),
                0 <= some <= k,
                leaf_nodes(self.nodes()).contains(list@[some]),
            ensures
                k < list@.len(),
                leaf_nodes(self.nodes()).contains(list@[k as int]),
            decreases k,
        {
            match arena_get(&self.arena, list[k]) {
                Some(node) => {
                    if node.is_leaf() {
                        break;
                    }
                },
                None => {},
            }
            k -= 1;
        }
        k
    }

    /// Removes one leaf of the minimum relevance bin.
    fn drop_leaf(&mut self) -> (index: NodeIndex)
        requires
            old(self).counts_fit(),
            relev_leaves(old(self).nodes(), old(self).min_relev).len() > 0,
        ensures
            final(self).counts_fit(),
            relev_leaves(old(self).nodes(), old(self).min_relev).contains(index),
            final(self).nodes() == old(self).nodes().remove(index),
            final(self).soft_max == old(self).soft_max,
            final(self).added == old(self).added,
            final(self).total_leaves == old(self).total_leaves - 1,
    {
        let relev: i128 = self.min_relev;
        let ghost nodes = self.nodes();
        let ghost bins = self.relev_map@;
        let (count, mut list): (usize, Vec<NodeIndex>) = match self.relev_map.remove(relev) {
            Some(bin) => bin,
            None => (0, Vec::new()),
        };
        proof {
            relev_parts(nodes, relev);
            let leaves = relev_leaves(nodes, relev);
            vstd::set_lib::lemma_set_empty_equivalency_len(leaves);
            let some = choose|i: NodeIndex| leaves.contains(i);
            assert(leaves.contains(some));
            assert(bins.contains_key(nodes[some].max_relev));
            assert(relev_nodes(nodes, relev).contains(some));
            assert(list@.to_set().contains(some));
            let k = choose|k: int| 0 <= k < list@.len() && list@[k] == some;
            assert(leaf_nodes(nodes).contains(list@[k]));
        }
        let k: usize = self.last_leaf(&list);
        let ghost had = list@;
        let index: NodeIndex = list.remove(k);
        let ghost after = nodes.remove(index);
        proof {
            assert(had.to_set().contains(had[k as int]));
            assert(after.insert(index, nodes[index]) =~= nodes);
            vstd::set_lib::lemma_set_subset_finite(nodes.dom(), after.dom());
            with_node_parts(after, index, nodes[index]);
            assert(list@.no_duplicates());
            assert forall|i: NodeIndex| #[trigger]
                list@.to_set().contains(i) <==> relev_nodes(after, relev).contains(i) by {
                if list@.contains(i) {
                    let q = choose|q: int| 0 <= q < list@.len() && list@[q] == i;
                    let at = if q < k {
                        q
                    } else {
                        q + 1
                    };
                    assert(had[at] == i);
                    assert(had.to_set().contains(i));
                    assert(had[at] != had[k as int]);
                }
                if relev_nodes(after, relev).contains(i) {
                    assert(had.to_set().contains(i));
                    let at = choose|q: int| 0 <= q < had.len() && had[q] == i;
                    assert(list@[if at < k { at } else { at - 1 }] == i);
                }
            }
            assert(list@.to_set() =~= relev_nodes(after, relev));
        }
        arena_remove(&mut self.arena, index);
        self.removed = self.removed + 1;
        self.total_leaves = self.total_leaves - 1;
        if list.len() > 0 {
            self.relev_map.insert(relev, (count - 1, list));
        }
        proof {
            let now = self.relev_map@;
            assert forall|i: NodeIndex| after.contains_key(i) implies now.contains_key(
                #[trigger] after[i].max_relev,
            ) by {
                assert(bins.contains_key(nodes[i].max_relev));
                if nodes[i].max_relev == relev {
                    assert(relev_nodes(after, relev).contains(i));
                    assert(list@.to_set().contains(i));
                }
            }
            assert(bins_match(now, after));
        }
        self.reset_min();
        index
    }

    /// Whether no node of the minimum relevance bin is a leaf.
    fn min_is_leafless(&self) -> (r: bool)
        requires
            self.counts_fit(),
            self.nodes().dom() != Set::<NodeIndex>::empty(),
        ensures
            r == (relev_leaves(self.nodes(), self.min_relev).len() == 0),
    {
        proof {
            least_has_bin(self.nodes(), self.relev_map@, self.min_relev);
        }
        match self.relev_map.get(self.min_relev) {
            Some(bin) => bin.0 == 0,
            None => true,
        }
    }

    /// Adds a node to the arena, potentially pruning low-relevance nodes.
    ///
    /// Returns the index if the node was added, None if it was rejected: the arena is full and the
    /// node ranks below all it holds, or no higher than that if it is a leaf.
    pub fn add(&mut self, node: StackableNode) -> (r: Option<NodeIndex>)
        requires
            old(self).wf(),
        ensures
            final(self).wf(),
            is_added(*old(self), node, r, *final(self)),
    {
        let max_relev: i128 = node.max_relev;
        let is_leaf: bool = node.is_leaf();
        let full: bool = self.is_full();
        let ghost nodes = self.nodes();
        let ghost bins = self.relev_map@;
        let ghost added = node;
        if self.added == u64::MAX {
            return None;
        }
        if full && (max_relev < self.min_relev || (max_relev == self.min_relev && is_leaf)) {
            // Arena is full and this node is no better than our worst - reject it
            return None;
        }
        let arena_index: NodeIndex = arena_insert(&mut self.arena, node);
        let ghost after = nodes.insert(arena_index, added);
        self.added = self.added + 1;
        proof {
            with_node_parts(nodes, arena_index, added);
            relev_parts(nodes, max_relev);
            relev_parts(after, max_relev);
            relev_parts(after, self.min_relev);
        }
        let (mut count, mut list): (usize, Vec<NodeIndex>) = match self.relev_map.remove(max_relev) {
            Some(bin) => bin,
            None => (0, Vec::new()),
        };
        proof {
            if bins.contains_key(max_relev) {
                assert(list@.to_set() == relev_nodes(nodes, max_relev));
                assert(count == relev_leaves(nodes, max_relev).len());
            } else {
                assert(list@.to_set() =~= relev_nodes(nodes, max_relev));
                assert(relev_leaves(nodes, max_relev) =~= Set::empty());
            }
            assert(!list@.contains(arena_index)) by {
                if list@.contains(arena_index) {
                    assert(list@.to_set().contains(arena_index));
                }
            }
        }
        if is_leaf {
            count = count + 1;
            self.total_leaves = self.total_leaves + 1;
        }
        let ghost had = list@;
        list.push(arena_index);
        proof {
            had.lemma_push_to_set_commute(arena_index);
        }
        self.relev_map.insert(max_relev, (count, list));
        proof {
            let now = self.relev_map@;
            assert forall|i: NodeIndex| after.contains_key(i) implies now.contains_key(
                #[trigger] after[i].max_relev,
            ) by {
                if i != arena_index {
                    assert(bins.contains_key(nodes[i].max_relev));
                }
            }
            assert(bins_match(now, after));
            assert(after.dom().contains(arena_index));
            least_with_node(
                nodes,
                arena_index,
                added,
                self.min_relev,
                if max_relev < self.min_relev {
                    max_relev
                } else {
                    self.min_relev
                },
            );
        }
        if max_relev < self.min_relev {
            self.min_relev = max_relev;
        }
        proof {
            assert(after.remove_keys(Set::<NodeIndex>::empty()) =~= after);
            assert(given_up(*old(self), added, arena_index, *self) =~= Set::empty());
        }
        if is_leaf {
            self.prune(Ghost(*old(self)), Ghost(added), Ghost(arena_index));
        } else if full {
            proof {
                assert(relev_leaves(after, self.min_relev).len() > 0);
            }
        }
        Some(arena_index)
    }

    /// Gives up what does not belong to the best leaves, after a leaf was added.
    fn prune(
        &mut self,
        Ghost(before): Ghost<ArenaManager>,
        Ghost(node): Ghost<StackableNode>,
        Ghost(index): Ghost<NodeIndex>,
    )
        requires
            before.wf(),
            node.children@.len() == 0,
            !before.nodes().contains_key(index),
            !(before.full() && is_beaten(node, before.min_relev)),
            old(self).counts_fit(),
            old(self).nodes() == before.nodes().insert(index, node),
            old(self).total_leaves == before.total_leaves + 1,
            old(self).min_relev == (if node.max_relev < before.min_relev {
                node.max_relev
            } else {
                before.min_relev
            }),
            old(self).soft_max == before.soft_max,
            old(self).removed == before.removed,
            old(self).added == before.added + 1,
        ensures
            final(self).wf(),
            final(self).nodes() == old(self).nodes().remove_keys(
                given_up(before, node, index, *final(self)),
            ),
            final(self).nodes().contains_key(index),
            forall|i: NodeIndex| #[trigger]
                given_up(before, node, index, *final(self)).contains(i) ==> final(self).full()
                    && is_beaten(old(self).nodes()[i], final(self).min_relev),
            final(self).removed == before.removed + given_up(
                before,
                node,
                index,
                *final(self),
            ).len(),
            final(self).soft_max == before.soft_max,
            final(self).added == old(self).added,
    {
        let ghost nodes = self.nodes();
        proof {
            assert(nodes.dom().contains(index));
        }
        if self.total_leaves > self.soft_max {
            proof {
                with_node_parts(before.nodes(), index, node);
                assert(relev_leaves(nodes, before.min_relev).len() > 0);
            }
            let gone: NodeIndex = self.drop_leaf();
            proof {
                assert(self.nodes().dom().contains(index));
                least_rises(nodes, self.nodes(), old(self).min_relev, self.min_relev);
            }
        }
        if self.total_leaves >= self.soft_max {
            let mut leafless: bool = self.min_is_leafless();
            while leafless
                invariant
                    self.counts_fit(),
                    self.soft_max == before.soft_max,
                    self.added == old(self).added,
                    self.total_leaves == self.soft_max,
                    nodes == old(self).nodes(),
                    nodes == before.nodes().insert(index, node),
                    node.children@.len() == 0,
                    self.nodes().contains_key(index),
                    self.nodes().submap_of(nodes),
                    forall|i: NodeIndex| #[trigger]
                        nodes.contains_key(i) && !self.nodes().contains_key(i) ==> is_beaten(
                            nodes[i],
                            self.min_relev,
                        ),
                    leafless == (relev_leaves(self.nodes(), self.min_relev).len() == 0),
                decreases self.nodes().dom().len(),
            {
                let ghost now = self.nodes();
                let ghost min = self.min_relev;
                proof {
                    relev_parts(now, min);
                    assert(now.dom().contains(index));
                    assert(nodes.dom().contains(index));
                    if now[index].max_relev == min {
                        assert(relev_leaves(now, min).contains(index));
                        vstd::set_lib::lemma_set_empty_equivalency_len(relev_leaves(now, min));
                    }
                }
                self.cull_min();
                proof {
                    assert(self.nodes().contains_key(index));
                    assert(self.nodes().dom().contains(index));
                    least_rises(now, self.nodes(), min, self.min_relev);
                    let low = choose|i: NodeIndex|
                        now.contains_key(i) && #[trigger] now[i].max_relev == min;
                    assert(relev_nodes(now, min).contains(low));
                    vstd::set_lib::lemma_len_subset(self.nodes().dom(), now.dom().remove(low));
                    let least = choose|i: NodeIndex|
                        self.nodes().contains_key(i) && #[trigger] self.nodes()[i].max_relev
                            == self.min_relev;
                    assert(now.contains_key(least) && !relev_nodes(now, min).contains(least));
                    assert(min < self.min_relev);
                }
                leafless = self.min_is_leafless();
            }
        }
        proof {
            let gone = given_up(before, node, index, *self);
            assert(self.nodes() =~= nodes.remove_keys(gone));
            let kept = self.nodes().dom();
            assert(gone =~= nodes.dom().difference(kept));
            vstd::set_lib::lemma_set_difference_len(nodes.dom(), kept);
            assert(nodes.dom().intersect(kept) =~= kept);
            assert(kept.intersect(nodes.dom()) =~= kept);
            assert(kept.difference(nodes.dom()) =~= Set::empty());
        }
    }
}

/// The least relevance of fewer nodes is not lower.
proof fn least_rises(nodes: Nodes, fewer: Nodes, was: i128, now: i128)
    requires
        is_least_relev(nodes, was),
        is_least_relev(fewer, now),
        fewer.submap_of(nodes),
        fewer.dom() != Set::<NodeIndex>::empty(),
    ensures
        was <= now,
{
    let i = choose|i: NodeIndex| fewer.contains_key(i) && #[trigger] fewer[i].max_relev == now;
    assert(nodes.dom().contains(i) && fewer[i] == nodes[i]);
    assert(was <= nodes[i].max_relev);
}

proof fn least_with_node(nodes: Nodes, index: NodeIndex, node: StackableNode, was: i128, now: i128)
    requires
        is_least_relev(nodes, was),
        now == (if node.max_relev < was {
            node.max_relev
        } else {
            was
        }),
        !nodes.contains_key(index),
    ensures
        is_least_relev(nodes.insert(index, node), now),
{
    let after = nodes.insert(index, node);
    assert(after.dom().contains(index));
    assert(after[index].max_relev == node.max_relev);
    if nodes.dom() != Set::<NodeIndex>::empty() {
        let i = choose|i: NodeIndex| nodes.contains_key(i) && #[trigger] nodes[i].max_relev == was;
        assert(after[i].max_relev == was);
        assert forall|i: NodeIndex| after.contains_key(i) implies now
            <= #[trigger] after[i].max_relev by {
            if i != index {
                assert(was <= nodes[i].max_relev);
            }
        }
    } else {
        assert forall|i: NodeIndex| after.contains_key(i) implies now
            <= #[trigger] after[i].max_relev by {
            if i != index {
                assert(nodes.dom().contains(i));
            }
        }
    }
}

proof fn least_has_bin(nodes: Nodes, bins: Map<i128, (usize, Seq<NodeIndex>)>, relev: i128)
    requires
        bins_match(bins, nodes),
        is_least_relev(nodes, relev),
        nodes.dom() != Set::<NodeIndex>::empty(),
    ensures
        bins.contains_key(relev),
{
    let i = choose|i: NodeIndex| nodes.contains_key(i) && #[trigger] nodes[i].max_relev == relev;
    assert(bins.contains_key(nodes[i].max_relev));
}

} // verus!
