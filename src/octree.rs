//! The octree: builds the hierarchy over a set of bodies in an arena and
//! answers the structural queries of a Barnes-Hut force evaluation.
use crate::arena::OptimizedOctreeNodePool;
use crate::bodies::{BodyEntry, OctreeBody};
use crate::geometry::{
    lemma_half_pow2, lemma_octant_partition, log2, CellBounds, CellPoint, GRID_DEPTH, GRID_SIDE,
};
use crate::model::{
    all_sources, children_node_count, children_sources, counts_wf, entries_from,
    expected_children_count, expected_node_count, in_octant, lemma_children_extend,
    lemma_children_limit, lemma_children_update, lemma_octant_groups_cover,
    lemma_octant_groups_len, lemma_push_wf, links_below, node_wf, nodes_wf, octant_groups_from,
    respects_threshold, subtree_node_count, subtree_sources, children_indices, slot_cleared,
    subtree_indices, children_shape, entries_of, expected_children_shape, expected_occupancy,
    expected_shape, occupancy, subtree_shape,
};
use crate::node::OptimizedOctreeNode;
use std::sync::atomic::{AtomicU64, Ordering};
use vstd::prelude::*;
use vstd::seq_lib::lemma_multiset_commutative;

verus! {

broadcast use vstd::seq_lib::group_seq_properties, vstd::seq_lib::group_to_multiset_ensures,
    vstd::seq_lib::group_filter_ensures;

/// Most bodies one build accepts: a tree over `n` bodies has at most
/// `1 + n * GRID_DEPTH` nodes, and every node needs a `u32` index.
pub const MAX_BODIES: usize = 100000000;

/// Default most bodies per leaf.
pub const DEFAULT_LEAF_THRESHOLD: usize = 4;

/// A cell inside the root grid.
pub open spec fn cell_in_grid(p: CellPoint) -> bool {
    p.x < GRID_SIDE && p.y < GRID_SIDE && p.z < GRID_SIDE
}

/// Barnes-Hut octree over bodies placed on the cell grid.
#[derive(Debug)]
pub struct OptimizedOctree {
    root_index: Option<u32>,
    leaf_threshold: usize,
    node_pool: OptimizedOctreeNodePool,
    force_calculation_count: AtomicU64,
}

impl OptimizedOctree {
    /// The slots of the arena.
    pub closed spec fn nodes(&self) -> Seq<OptimizedOctreeNode> {
        self.node_pool@
    }

    pub closed spec fn root(&self) -> Option<u32> {
        self.root_index
    }

    pub closed spec fn threshold(&self) -> nat {
        self.leaf_threshold as nat
    }

    /// The sources of every body in the tree, leaves in octant order.
    pub open spec fn spec_sources(&self) -> Seq<u32> {
        match self.root() {
            Some(r) => subtree_sources(self.nodes(), r as int),
            None => Seq::empty(),
        }
    }

    /// The arena holds a well-formed tree (or nothing) whose every slot is
    /// in use, and the leaf threshold is at least one.
    pub closed spec fn wf(&self) -> bool {
        &&& self.node_pool.wf()
        &&& self.node_pool.free_list().len() == 0
        &&& nodes_wf(self.node_pool@)
        &&& counts_wf(self.node_pool@)
        &&& self.leaf_threshold >= 1
        &&& match self.root_index {
            Some(r) => r < self.node_pool@.len() && subtree_node_count(self.node_pool@, r as int)
                == self.node_pool@.len(),
            None => self.node_pool@.len() == 0,
        }
    }

    /// The number of nodes in the tree.
    pub open spec fn spec_node_count(&self) -> nat {
        match self.root() {
            Some(r) => subtree_node_count(self.nodes(), r as int),
            None => 0,
        }
    }

    /// The tree holds each body of `bodies` exactly once, every leaf entry
    /// is the body its source names, and the split rule held at every node.
    pub open spec fn built_from(&self, bodies: Seq<OctreeBody>) -> bool {
        &&& bodies.len() <= MAX_BODIES
        &&& self.root().is_some() == (bodies.len() > 0)
        &&& self.spec_sources().to_multiset() == all_sources(bodies.len()).to_multiset()
        &&& entries_from(self.nodes(), bodies)
        &&& respects_threshold(self.nodes(), self.threshold())
        &&& self.nodes().len() <= 1 + bodies.len() * GRID_DEPTH
        &&& self.spec_node_count() == expected_tree_nodes(bodies, self.threshold())
        &&& self.spec_shape() == expected_tree_shape(bodies, self.threshold())
    }

    /// The tree's pre-order shape: cubes, kinds, occupied child slots and
    /// leaf entries.
    pub open spec fn spec_shape(&self) -> Seq<(CellBounds, bool, Seq<bool>, Seq<BodyEntry>)> {
        match self.root() {
            Some(r) => subtree_shape(self.nodes(), r as int),
            None => Seq::empty(),
        }
    }

    /// An empty tree with the default leaf threshold.
    pub fn new() -> (r: Self)
        ensures
            r.wf(),
            r.root() == None::<u32>,
            r.threshold() == DEFAULT_LEAF_THRESHOLD,
    {
        OptimizedOctree {
            root_index: None,
            leaf_threshold: DEFAULT_LEAF_THRESHOLD,
            node_pool: OptimizedOctreeNodePool::new(),
            force_calculation_count: AtomicU64::new(0),
        }
    }

    /// An empty tree whose arena has room for `capacity` nodes.
    pub fn with_pool_capacity(capacity: usize) -> (r: Self)
        ensures
            r.wf(),
            r.root() == None::<u32>,
            r.threshold() == DEFAULT_LEAF_THRESHOLD,
    {
        OptimizedOctree {
            root_index: None,
            leaf_threshold: DEFAULT_LEAF_THRESHOLD,
            node_pool: OptimizedOctreeNodePool::with_capacity(capacity),
            force_calculation_count: AtomicU64::new(0),
        }
    }

    /// The same tree with another leaf threshold, for the next build.
    pub fn with_leaf_threshold(self, leaf_threshold: usize) -> (r: Self)
        requires
            self.wf(),
            leaf_threshold >= 1,
        ensures
            r.wf(),
            r.threshold() == leaf_threshold,
            r.root() == self.root(),
            r.nodes() == self.nodes(),
    {
        let mut s = self;
        s.leaf_threshold = leaf_threshold;
        s
    }

    pub fn leaf_threshold(&self) -> (r: usize)
        ensures
            r == self.threshold(),
    {
        self.leaf_threshold
    }

    pub fn root_index(&self) -> (r: Option<u32>)
        ensures
            r == self.root(),
    {
        self.root_index
    }

    /// The number of arena slots and of free slots.
    pub fn pool_stats(&self) -> (r: (usize, usize))
        requires
            self.wf(),
        ensures
            r.0 == self.nodes().len(),
            r.1 == 0,
    {
        self.node_pool.stats()
    }

    /// Empties the tree and the arena.
    pub fn clear_pool(&mut self)
        requires
            old(self).wf(),
        ensures
            final(self).wf(),
            final(self).root() == None::<u32>,
            final(self).threshold() == old(self).threshold(),
    {
        self.node_pool.clear();
        self.root_index = None;
        proof {
            assert(nodes_wf(self.node_pool@));
            assert(counts_wf(self.node_pool@));
        }
    }

    /// The root node, if the tree holds any body.
    pub fn root_node(&self) -> (r: Option<&OptimizedOctreeNode>)
        requires
            self.wf(),
        ensures
            r.is_some() == self.root().is_some(),
            r.is_some() ==> *r.unwrap() == self.nodes()[self.root().unwrap() as int],
    {
        match self.root_index {
            Some(i) => self.node_pool.get_node(i),
            None => None,
        }
    }

    /// The node at `index`, or `None` when the index names no slot.
    pub fn node(&self, index: u32) -> (r: Option<&OptimizedOctreeNode>)
        ensures
            r.is_some() == (index < self.nodes().len()),
            r.is_some() ==> *r.unwrap() == self.nodes()[index as int],
    {
        self.node_pool.get_node(index)
    }

    /// How many arena slots a tree over `body_count` bodies is likely to
    /// need, rounded up generously so that rebuilds rarely grow the arena.
    pub fn estimate_node_capacity(&self, body_count: usize) -> (r: usize)
        requires
            self.threshold() >= 1,
            body_count <= MAX_BODIES,
        ensures
            r == spec_estimate(body_count as int, self.threshold() as int),
    {
        if body_count <= self.leaf_threshold {
            return 1;
        }
        let leaves = (body_count + self.leaf_threshold - 1) / self.leaf_threshold;
        let internal = if leaves >= 1 {
            (leaves - 1) / 7
        } else {
            0
        };
        proof {
            assert(leaves <= body_count) by (nonlinear_arith)
                requires
                    leaves == (body_count + self.leaf_threshold - 1) / self.leaf_threshold as int,
                    self.leaf_threshold >= 1,
                    body_count >= 1,
            ;
        }
        let total = leaves + internal;
        let with_margin = total * 3 / 2;
        let cap = body_count * 2;
        let bounded = if with_margin < cap {
            with_margin
        } else {
            cap
        };
        if bounded > 16 {
            bounded
        } else {
            16
        }
    }

    /// What a well-formed tree offers its readers.
    pub proof fn lemma_wf_facts(&self)
        requires
            self.wf(),
        ensures
            nodes_wf(self.nodes()),
            counts_wf(self.nodes()),
            self.nodes().len() <= u32::MAX,
            self.threshold() >= 1,
            self.root() matches Some(r) ==> r < self.nodes().len() && subtree_node_count(
                self.nodes(),
                r as int,
            ) == self.nodes().len(),
            self.root() is None ==> self.nodes().len() == 0,
    {
        self.node_pool.lemma_len_bound();
    }

    /// Counts one more force evaluation. The counter is atomic, so queries
    /// running at once do not lose counts.
    pub fn record_force_calculation(&self) {
        self.force_calculation_count.fetch_add(1, Ordering::Relaxed);
    }

    /// The force evaluations counted so far.
    pub fn force_calculation_count(&self) -> u64 {
        self.force_calculation_count.load(Ordering::Relaxed)
    }

    /// Replaces the tree with one over `bodies`. The old tree's nodes go back
    /// to the arena first; the arena keeps its storage unless it is too small
    /// for the new tree's estimated size.
    pub fn build(&mut self, bodies: &Vec<OctreeBody>)
        requires
            old(self).wf(),
            bodies@.len() <= MAX_BODIES,
            forall|i: int| 0 <= i < bodies@.len() ==> cell_in_grid(#[trigger] bodies@[i].cell),
        ensures
            final(self).wf(),
            final(self).threshold() == old(self).threshold(),
            final(self).built_from(bodies@),
            final(self).root() matches Some(r) ==> final(self).nodes()[r as int].cold_data.bounds
                == CellBounds::spec_root(),
    {
        proof {
            assert(self.threshold() >= 1);
        }
        if let Some(old_root) = self.root_index {
            deallocate_tree_recursive(&mut self.node_pool, old_root);
        }
        self.root_index = None;
        let n = bodies.len();
        let estimated = self.estimate_node_capacity(n);
        if self.node_pool.capacity() < estimated {
            self.node_pool = OptimizedOctreeNodePool::with_capacity(estimated);
        } else {
            self.node_pool.clear();
        }
        if n == 0 {
            proof {
                assert(self.spec_sources() =~= Seq::<u32>::empty());
                assert(all_sources(0) =~= Seq::<u32>::empty());
                assert(nodes_wf(self.node_pool@));
                assert(counts_wf(self.node_pool@));
            }
            return;
        }
        let mut group: Vec<u32> = Vec::with_capacity(n);
        let mut i: usize = 0;
        while i < n
            invariant
                i <= n,
                n == bodies@.len(),
                n <= MAX_BODIES,
                group@ == all_sources(i as nat),
            decreases n - i,
        {
            group.push(i as u32);
            i += 1;
            proof {
                assert(group@ =~= all_sources(i as nat));
            }
        }
        let root_bounds = CellBounds::root();
        proof {
            assert(nodes_wf(self.node_pool@));
            assert(counts_wf(self.node_pool@));
            assert(entries_from(self.node_pool@, bodies@));
            assert(respects_threshold(self.node_pool@, self.leaf_threshold as nat));
            assert(n * GRID_DEPTH <= MAX_BODIES * GRID_DEPTH) by (nonlinear_arith)
                requires
                    n <= MAX_BODIES,
            ;
            assert forall|j: int| 0 <= j < group@.len() implies #[trigger] group@[j] < bodies@.len()
                && root_bounds.spec_contains(bodies@[group@[j] as int].cell) by {
                assert(cell_in_grid(bodies@[j].cell));
            }
        }
        let root = Self::build_recursive(&mut self.node_pool, bodies, group, root_bounds, self.leaf_threshold);
        self.root_index = Some(root);
    }

}

/// Appends to `out` the slots of the subtree at `index`, children before
/// their parent.
fn collect_subtree_indices(pool: &OptimizedOctreeNodePool, index: u32, out: &mut Vec<u32>)
    requires
        forall|t: int| 0 <= t < old(out)@.len() ==> #[trigger] old(out)@[t] < pool@.len(),
    ensures
        final(out)@ == old(out)@ + subtree_indices(pool@, index as int),
        forall|t: int| 0 <= t < final(out)@.len() ==> #[trigger] final(out)@[t] < pool@.len(),
    decreases index, 9int,
{
    match pool.get_node(index) {
        Some(node) => {
            if node.is_internal() {
                collect_children_indices(pool, index, node, 0, out);
            } else {
                assert(out@ =~= old(out)@ + Seq::<u32>::empty());
            }
            out.push(index);
            assert(out@ =~= old(out)@ + subtree_indices(pool@, index as int));
        },
        None => {
            assert(out@ =~= old(out)@ + Seq::<u32>::empty());
        },
    }
}

fn collect_children_indices(
    pool: &OptimizedOctreeNodePool,
    index: u32,
    node: &OptimizedOctreeNode,
    k: usize,
    out: &mut Vec<u32>,
)
    requires
        index < pool@.len(),
        *node == pool@[index as int],
        k <= 8,
        forall|t: int| 0 <= t < old(out)@.len() ==> #[trigger] old(out)@[t] < pool@.len(),
    ensures
        final(out)@ == old(out)@ + children_indices(
            pool@,
            node.cold_data.children_indices@,
            index as int,
            k as int,
        ),
        forall|t: int| 0 <= t < final(out)@.len() ==> #[trigger] final(out)@[t] < pool@.len(),
    decreases index, 8 - k,
{
    if k >= 8 {
        assert(out@ =~= old(out)@ + Seq::<u32>::empty());
        return;
    }
    match node.get_child_index(k) {
        Some(c) => {
            if c < index {
                collect_subtree_indices(pool, c, out);
            }
        },
        None => {},
    }
    collect_children_indices(pool, index, node, k + 1, out);
    assert(out@ =~= old(out)@ + children_indices(
        pool@,
        node.cold_data.children_indices@,
        index as int,
        k as int,
    ));
}

/// Returns node `index` and every node below it to the free list, children
/// before their parent, dropping the bodies and child links of each.
fn deallocate_tree_recursive(pool: &mut OptimizedOctreeNodePool, index: u32)
    requires
        old(pool).wf(),
    ensures
        final(pool).wf(),
        final(pool)@.len() == old(pool)@.len(),
        final(pool).free_list() == old(pool).free_list() + subtree_indices(old(pool)@, index as int),
        forall|s: int|
            0 <= s < old(pool)@.len() ==> if subtree_indices(old(pool)@, index as int).contains(
                s as u32,
            ) {
                slot_cleared(#[trigger] final(pool)@[s])
            } else {
                final(pool)@[s] == old(pool)@[s]
            },
{
    let mut slots: Vec<u32> = Vec::new();
    collect_subtree_indices(pool, index, &mut slots);
    proof {
        assert(slots@ =~= subtree_indices(old(pool)@, index as int));
        pool.lemma_len_bound();
    }
    let mut j: usize = 0;
    while j < slots.len()
        invariant
            j <= slots@.len(),
            slots@ == subtree_indices(old(pool)@, index as int),
            forall|t: int| 0 <= t < slots@.len() ==> #[trigger] slots@[t] < old(pool)@.len(),
            old(pool)@.len() <= u32::MAX,
            pool.wf(),
            pool@.len() == old(pool)@.len(),
            pool.free_list() == old(pool).free_list() + slots@.take(j as int),
            forall|s: int|
                0 <= s < old(pool)@.len() ==> if slots@.take(j as int).contains(s as u32) {
                    slot_cleared(#[trigger] pool@[s])
                } else {
                    pool@[s] == old(pool)@[s]
                },
        decreases slots@.len() - j,
    {
        let x = slots[j];
        let ghost prev = pool@;
        pool.deallocate_node(x);
        proof {
            assert(slots@.take(j as int + 1) =~= slots@.take(j as int).push(x));
            assert(pool.free_list() =~= old(pool).free_list() + slots@.take(j as int + 1));
            let before = slots@.take(j as int);
            let after = slots@.take(j as int + 1);
            assert(after =~= before.push(x));
            assert forall|s: int| 0 <= s < old(pool)@.len() implies if after.contains(s as u32) {
                slot_cleared(#[trigger] pool@[s])
            } else {
                pool@[s] == old(pool)@[s]
            } by {
                if s == x as int {
                    assert(after[j as int] == x);
                } else {
                    assert(pool@[s] == prev[s]);
                    assert((s as u32) != x);
                    if before.contains(s as u32) {
                        let t = choose|t: int| 0 <= t < before.len() && before[t] == s as u32;
                        assert(after[t] == s as u32);
                    }
                    if after.contains(s as u32) {
                        let t = choose|t: int| 0 <= t < after.len() && after[t] == s as u32;
                        assert(t != j as int);
                        assert(before[t] == s as u32);
                    }
                }
            }
        }
        j += 1;
    }
    proof {
        assert(slots@.take(slots@.len() as int) =~= slots@);
    }
}

/// The bodies of `group` whose cell lies in octant `k` of `bounds`, in
/// their order in `group`.
fn select_octant(bodies: &Vec<OctreeBody>, group: &Vec<u32>, bounds: &CellBounds, k: usize) -> (r:
    Vec<u32>)
    requires
        bounds.wf(),
        k < 8,
        forall|j: int| 0 <= j < group@.len() ==> #[trigger] group@[j] < bodies@.len(),
    ensures
        r@ == group@.filter(in_octant(bodies@, *bounds, k as nat)),
{
    let ghost pred = in_octant(bodies@, *bounds, k as nat);
    let mut r: Vec<u32> = Vec::new();
    let mut j: usize = 0;
    while j < group.len()
        invariant
            j <= group@.len(),
            bounds.wf(),
            forall|t: int| 0 <= t < group@.len() ==> #[trigger] group@[t] < bodies@.len(),
            pred == in_octant(bodies@, *bounds, k as nat),
            r@ == group@.take(j as int).filter(pred),
        decreases group@.len() - j,
    {
        let s = group[j];
        proof {
            group@.take(j as int).lemma_filter_push(s, pred);
            assert(group@.take(j as int + 1) =~= group@.take(j as int).push(s));
        }
        proof {
            assert(pred(s) == (bounds.spec_octant_of(bodies@[s as int].cell) == k as nat));
        }
        if bounds.child_index(&bodies[s as usize].cell) == k {
            r.push(s);
        }
        j += 1;
    }
    proof {
        assert(group@.take(group@.len() as int) =~= group@);
    }
    r
}

/// A leaf over `bounds` holding the bodies of `group`, in that order.
fn make_leaf(bodies: &Vec<OctreeBody>, group: &Vec<u32>, bounds: CellBounds) -> (r:
    OptimizedOctreeNode)
    requires
        group@.len() <= u32::MAX,
        forall|j: int|
            0 <= j < group@.len() ==> #[trigger] group@[j] < bodies@.len()
                && bounds.spec_contains(bodies@[group@[j] as int].cell),
    ensures
        !r.spec_is_internal(),
        r.cold_data.bounds == bounds,
        r.cold_data.children_indices@ == seq![None::<u32>; 8],
        r.cold_data.body_count == group@.len(),
        r.bodies.wf(),
        r.bodies.sources@ == group@,
        r.bodies@ == entries_of(bodies@, group@),
        forall|j: int|
            0 <= j < r.bodies@.len() ==> {
                let e = #[trigger] r.bodies@[j];
                &&& e.source < bodies@.len()
                &&& e.entity == bodies@[e.source as int].entity
                &&& e.cell == bodies@[e.source as int].cell
                &&& bounds.spec_contains(e.cell)
            },
{
    let mut node = OptimizedOctreeNode::new_external(bounds, group.len());
    let mut j: usize = 0;
    while j < group.len()
        invariant
            j <= group@.len(),
            group@.len() <= u32::MAX,
            !node.spec_is_internal(),
            node.cold_data.bounds == bounds,
            node.cold_data.children_indices@ == seq![None::<u32>; 8],
            node.cold_data.body_count == j,
            node.bodies.wf(),
            node.bodies@.len() == j,
            forall|t: int|
                0 <= t < group@.len() ==> #[trigger] group@[t] < bodies@.len()
                    && bounds.spec_contains(bodies@[group@[t] as int].cell),
            forall|t: int|
                0 <= t < j ==> #[trigger] node.bodies@[t] == (BodyEntry {
                    entity: bodies@[group@[t] as int].entity,
                    cell: bodies@[group@[t] as int].cell,
                    source: group@[t],
                }),
        decreases group@.len() - j,
    {
        let s = group[j];
        let b = bodies[s as usize];
        node.add_body(BodyEntry { entity: b.entity, cell: b.cell, source: s });
        j += 1;
    }
    proof {
        assert forall|t: int| 0 <= t < group@.len() implies node.bodies.sources@[t] == group@[t] by {
            assert(node.bodies@[t].source == node.bodies.sources@[t]);
        }
        assert(node.bodies.sources@ =~= group@);
        assert(node.bodies@ =~= entries_of(bodies@, group@));
    }
    node
}

impl OptimizedOctree {
    /// Builds the subtree over the bodies of `group`, all inside `bounds`,
    /// appending its nodes to the arena with the subtree's root last, and
    /// returns that root's index. A group of at most `leaf_threshold` bodies,
    /// or a cube one cell wide, becomes a leaf; any other group is split by
    /// octant and each non-empty octant becomes a child.
    fn build_recursive(
        pool: &mut OptimizedOctreeNodePool,
        bodies: &Vec<OctreeBody>,
        group: Vec<u32>,
        bounds: CellBounds,
        leaf_threshold: usize,
    ) -> (idx: u32)
        requires
            old(pool).wf(),
            old(pool).free_list().len() == 0,
            nodes_wf(old(pool)@),
            counts_wf(old(pool)@),
            entries_from(old(pool)@, bodies@),
            respects_threshold(old(pool)@, leaf_threshold as nat),
            bounds.wf(),
            group@.len() >= 1,
            group@.len() <= MAX_BODIES,
            forall|j: int|
                0 <= j < group@.len() ==> #[trigger] group@[j] < bodies@.len()
                    && bounds.spec_contains(bodies@[group@[j] as int].cell),
            old(pool)@.len() + 1 + group@.len() * log2(bounds.side as nat) <= u32::MAX,
        ensures
            final(pool).wf(),
            final(pool).free_list().len() == 0,
            nodes_wf(final(pool)@),
            counts_wf(final(pool)@),
            entries_from(final(pool)@, bodies@),
            respects_threshold(final(pool)@, leaf_threshold as nat),
            old(pool)@.is_prefix_of(final(pool)@),
            idx == final(pool)@.len() - 1,
            old(pool)@.len() <= idx,
            final(pool)@.len() <= old(pool)@.len() + 1 + group@.len() * log2(bounds.side as nat),
            final(pool)@.len() == old(pool)@.len() + subtree_node_count(final(pool)@, idx as int),
            final(pool)@[idx as int].cold_data.bounds == bounds,
            subtree_shape(final(pool)@, idx as int) == expected_shape(
                bodies@,
                group@,
                bounds,
                leaf_threshold as nat,
            ),
            subtree_node_count(final(pool)@, idx as int) == expected_node_count(
                bodies@,
                group@,
                bounds,
                leaf_threshold as nat,
            ),
            subtree_sources(final(pool)@, idx as int).to_multiset() == group@.to_multiset(),
        decreases bounds.side,
    {
        let ghost start = pool@;
        proof {
            pool.lemma_len_bound();
        }
        if group.len() <= leaf_threshold || !bounds.can_subdivide() {
            let node = make_leaf(bodies, &group, bounds);
            proof {
                let more = start.push(node);
                assert(more[start.len() as int] == node);
                assert(subtree_sources(more, start.len() as int) == group@);
                assert(occupancy(node.cold_data.children_indices@) =~= seq![false; 8]);
                assert(subtree_shape(more, start.len() as int) =~= expected_shape(
                    bodies@,
                    group@,
                    bounds,
                    leaf_threshold as nat,
                ));
                lemma_push_wf(start, node, bodies@);
                assert forall|i: int| 0 <= i < more.len() implies if (#[trigger] more[i]).spec_is_internal() {
                    more[i].cold_data.body_count > leaf_threshold
                } else {
                    more[i].bodies@.len() <= leaf_threshold || more[i].cold_data.bounds.side == 1
                } by {
                    if i < start.len() {
                        assert(more[i] == start[i]);
                    }
                }
            }
            let idx = pool.allocate_node(node);
            return idx;
        }
        let ghost m = group@.len();
        let ghost level = log2(bounds.side as nat);
        proof {
            lemma_half_pow2(bounds.side as nat);
            lemma_octant_groups_cover(group@, bodies@, bounds);
            assert(octant_groups_from(group@, bodies@, bounds, 0).len() == m);
        }
        let children_bounds = bounds.subdivide_into_children();
        let mut children: [Option<u32>; 8] = [None, None, None, None, None, None, None, None];
        let mut k: usize = 8;
        while k > 0
            invariant
                k <= 8,
                bounds.wf(),
                bounds.side >= 2,
                level == log2(bounds.side as nat),
                level == log2((bounds.side / 2) as nat) + 1,
                m == group@.len(),
                m <= MAX_BODIES,
                m > leaf_threshold,
                octant_groups_from(group@, bodies@, bounds, 0).len() == m,
                forall|j: int| 0 <= j < 8 ==> #[trigger] children_bounds[j] == bounds.spec_child(j as nat),
                forall|j: int| 0 <= j < 8 ==> (#[trigger] children_bounds[j]).wf(),
                forall|j: int|
                    0 <= j < group@.len() ==> #[trigger] group@[j] < bodies@.len()
                        && bounds.spec_contains(bodies@[group@[j] as int].cell),
                start.len() + 1 + m * level <= u32::MAX,
                pool.wf(),
                pool.free_list().len() == 0,
                nodes_wf(pool@),
                counts_wf(pool@),
                entries_from(pool@, bodies@),
                respects_threshold(pool@, leaf_threshold as nat),
                start.is_prefix_of(pool@),
                forall|j: int| 0 <= j < k ==> #[trigger] children@[j] == None::<u32>,
                forall|j: int|
                    k <= j < 8 ==> match #[trigger] children@[j] {
                        Some(c) => start.len() <= c < pool@.len() && pool@[c as int].cold_data.bounds
                            == bounds.spec_child(j as nat) && group@.filter(
                            in_octant(bodies@, bounds, j as nat),
                        ).len() > 0,
                        None => group@.filter(in_octant(bodies@, bounds, j as nat)).len() == 0,
                    },
                children_sources(pool@, children@, pool@.len() as int, k as int).to_multiset()
                    == octant_groups_from(group@, bodies@, bounds, k as nat),
                pool@.len() == start.len() + children_node_count(
                    pool@,
                    children@,
                    pool@.len() as int,
                    k as int,
                ),
                children_node_count(pool@, children@, pool@.len() as int, k as int)
                    == expected_children_count(bodies@, group@, bounds, leaf_threshold as nat, k as int),
                children_shape(pool@, children@, pool@.len() as int, k as int)
                    == expected_children_shape(bodies@, group@, bounds, leaf_threshold as nat, k as int),
                pool@.len() <= start.len() + octant_groups_from(group@, bodies@, bounds, k as nat).len()
                    * level,
            decreases k,
        {
            k -= 1;
            let ghost before = pool@;
            let ghost links = children@;
            let bucket = select_octant(bodies, &group, &bounds, k);
            let ghost mk = bucket@.len();
            let ghost rest = octant_groups_from(group@, bodies@, bounds, (k + 1) as nat);
            proof {
                lemma_octant_groups_len(group@, bodies@, bounds, k as nat);
                assert(octant_groups_from(group@, bodies@, bounds, k as nat).len() == mk + rest.len());
                assert(links_below(links, k + 1, before.len() as int));
            }
            if bucket.len() > 0 {
                proof {
                    assert forall|j: int| 0 <= j < bucket@.len() implies #[trigger] bucket@[j]
                        < bodies@.len() && children_bounds[k as int].spec_contains(
                        bodies@[bucket@[j] as int].cell,
                    ) by {
                        let s = bucket@[j];
                        assert(group@.filter(in_octant(bodies@, bounds, k as nat)).contains(s));
                        group@.lemma_filter_contains_rev(in_octant(bodies@, bounds, k as nat), s);
                        let t = choose|t: int| 0 <= t < group@.len() && group@[t] == s;
                        assert(group@[t] == s);
                        lemma_octant_partition(bounds, bodies@[s as int].cell, k as nat);
                    }
                    assert(mk * (level - 1) + mk == mk * level) by (nonlinear_arith);
                    assert((mk + rest.len()) * level == mk * level + rest.len() * level) by (nonlinear_arith);
                    assert(octant_groups_from(group@, bodies@, bounds, k as nat).len() * level <= m * level) by (nonlinear_arith)
                        requires octant_groups_from(group@, bodies@, bounds, k as nat).len() <= m;
                    assert(mk * (level - 1) <= mk * level) by (nonlinear_arith);
                }
                let c = Self::build_recursive(pool, bodies, bucket, children_bounds[k], leaf_threshold);
                proof {
                    lemma_children_extend(before, pool@, links, before.len() as int, k + 1);
                    lemma_children_limit(pool@, links, before.len() as int, pool@.len() as int, k + 1);
                    lemma_children_update(pool@, links, pool@.len() as int, k + 1, k as int, Some(c));
                    lemma_multiset_commutative(subtree_sources(pool@, c as int),
                        children_sources(pool@, links, pool@.len() as int, k + 1));
                }
                children[k] = Some(c);
                proof {
                    assert(children@ == links.update(k as int, Some(c)));
                    assert(children@[k as int] == Some(c));
                }
            } else {
                proof {
                    assert(bucket@ =~= Seq::<u32>::empty());
                    assert(children@[k as int] == None::<u32>);
                }
            }
        }
        let ghost mid = pool@;
        proof {
            assert(links_below(children@, 0, mid.len() as int));
        }
        let node = OptimizedOctreeNode::new_internal(bounds, children, group.len() as u32);
        proof {
            let more = mid.push(node);
            assert(mid.is_prefix_of(more));
            lemma_children_extend(mid, more, children@, mid.len() as int, 0);
            assert(more[mid.len() as int] == node);
            assert(subtree_sources(more, mid.len() as int) == children_sources(more, children@, mid.len() as int, 0));
            assert(subtree_node_count(more, mid.len() as int) == 1 + children_node_count(more, children@, mid.len() as int, 0));
            assert(occupancy(children@) =~= expected_occupancy(bodies@, group@, bounds));
            assert(subtree_shape(more, mid.len() as int) =~= expected_shape(
                bodies@,
                group@,
                bounds,
                leaf_threshold as nat,
            ));
            assert(node_wf(more, mid.len() as int)) by {
                assert forall|j: int| 0 <= j < 8 implies match #[trigger] node.spec_child(j) {
                    Some(c) => c < mid.len() && more[c as int].cold_data.bounds == bounds.spec_child(j as nat),
                    None => true,
                } by {
                    match node.spec_child(j) {
                        Some(c) => {
                            assert(children@[j] == Some(c));
                            assert(more[c as int] == mid[c as int]);
                        },
                        None => {},
                    }
                }
            }
            assert(subtree_sources(more, mid.len() as int).to_multiset() == group@.to_multiset());
            assert(subtree_sources(more, mid.len() as int).len() == group@.len());
            lemma_push_wf(mid, node, bodies@);
            assert forall|i: int| 0 <= i < more.len() implies if (#[trigger] more[i]).spec_is_internal() {
                more[i].cold_data.body_count > leaf_threshold
            } else {
                more[i].bodies@.len() <= leaf_threshold || more[i].cold_data.bounds.side == 1
            } by {
                if i < mid.len() {
                    assert(more[i] == mid[i]);
                }
            }
            assert(start.is_prefix_of(more));
        }
        let idx = pool.allocate_node(node);
        idx
    }
}

/// The number of nodes of the tree that `build` makes over `bodies` with
/// leaf threshold `t`.
pub open spec fn expected_tree_nodes(bodies: Seq<OctreeBody>, t: nat) -> nat {
    if bodies.len() == 0 {
        0
    } else {
        expected_node_count(bodies, all_sources(bodies.len()), CellBounds::spec_root(), t)
    }
}

/// The shape of the tree that `build` makes over `bodies` with leaf
/// threshold `t`.
pub open spec fn expected_tree_shape(bodies: Seq<OctreeBody>, t: nat) -> Seq<
    (CellBounds, bool, Seq<bool>, Seq<BodyEntry>),
> {
    if bodies.len() == 0 {
        Seq::empty()
    } else {
        expected_shape(bodies, all_sources(bodies.len()), CellBounds::spec_root(), t)
    }
}

/// Two builds of one body set with one leaf threshold give the same tree up
/// to the naming of slots: the same cubes, kinds and occupied child slots
/// node by node in pre-order, and the same bodies in each leaf in the same
/// order. Whatever the trees held before does not matter.
pub proof fn lemma_rebuild_same_tree(
    first: &OptimizedOctree,
    second: &OptimizedOctree,
    bodies: Seq<OctreeBody>,
)
    requires
        first.built_from(bodies),
        second.built_from(bodies),
        first.threshold() == second.threshold(),
    ensures
        first.spec_shape() == second.spec_shape(),
{
}

/// Building one body set twice, with one leaf threshold, gives trees with
/// the same number of nodes that hold the same bodies; whatever was built in
/// between does not matter, since `built_from` speaks of the input alone.
pub proof fn lemma_rebuild_same_counts(
    first: &OptimizedOctree,
    second: &OptimizedOctree,
    bodies: Seq<OctreeBody>,
)
    requires
        first.built_from(bodies),
        second.built_from(bodies),
        first.threshold() == second.threshold(),
    ensures
        first.spec_node_count() == second.spec_node_count(),
        first.spec_sources().to_multiset() == second.spec_sources().to_multiset(),
        first.spec_sources().len() == second.spec_sources().len(),
{
    assert(first.spec_sources().len() == first.spec_sources().to_multiset().len());
    assert(second.spec_sources().len() == second.spec_sources().to_multiset().len());
}

/// Every body of the input is in the built tree exactly once, and the tree
/// holds nothing else.
pub proof fn lemma_body_conservation(tree: &OptimizedOctree, bodies: Seq<OctreeBody>)
    requires
        tree.built_from(bodies),
    ensures
        tree.spec_sources().len() == bodies.len(),
        forall|s: u32| s < bodies.len() ==> tree.spec_sources().to_multiset().count(s) == 1,
        forall|s: u32| s >= bodies.len() ==> tree.spec_sources().to_multiset().count(s) == 0,
{
    let all = all_sources(bodies.len());
    assert(tree.spec_sources().len() == tree.spec_sources().to_multiset().len());
    assert(all.len() == all.to_multiset().len());
    assert forall|i: int, j: int| 0 <= i < all.len() && 0 <= j < all.len() && i != j implies all[i]
        != all[j] by {
        assert(all[i] == i as u32);
        assert(all[j] == j as u32);
    }
    assert(all.no_duplicates());
    all.lemma_multiset_has_no_duplicates();
    assert forall|s: u32| s < bodies.len() implies tree.spec_sources().to_multiset().count(s) == 1 by {
        assert(all[s as int] == s);
        assert(all.contains(s));
    }
    assert forall|s: u32| s >= bodies.len() implies tree.spec_sources().to_multiset().count(s) == 0 by {
        if all.contains(s) {
            let i = choose|i: int| 0 <= i < all.len() && all[i] == s;
            assert(all[i] == i as u32);
        }
    }
}

/// The arena size that `estimate_node_capacity` asks for.
pub open spec fn spec_estimate(n: int, t: int) -> int {
    if n <= t {
        1
    } else {
        let leaves = (n + t - 1) / t;
        let internal = if leaves >= 1 {
            (leaves - 1) / 7
        } else {
            0
        };
        let with_margin = (leaves + internal) * 3 / 2;
        let bounded = if with_margin < n * 2 {
            with_margin
        } else {
            n * 2
        };
        if bounded > 16 {
            bounded
        } else {
            16
        }
    }
}

} // verus!
