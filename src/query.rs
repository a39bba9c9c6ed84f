//! Read-only queries on a built tree: counts, the cubes down to a depth, and
//! the interaction list of a Barnes-Hut force evaluation.
use crate::bodies::BodyEntry;
use crate::geometry::CellBounds;
use crate::model::{
    children_node_count, counts_wf, node_wf, nodes_wf, subtree_node_count, subtree_sources,
};
use crate::node::OptimizedOctreeNode;
use crate::octree::OptimizedOctree;
use vstd::prelude::*;

verus! {

broadcast use vstd::seq_lib::group_seq_properties, vstd::seq_lib::group_filter_ensures;

/// What a force evaluation sums over: one body directly, or a whole node
/// taken as a point mass at its center of mass.
#[derive(Clone, Copy, Debug, PartialEq, Eq, Structural)]
pub enum Interaction {
    Direct(BodyEntry),
    Approximate(u32),
}

/// Node, body and force-evaluation counts of a tree.
#[derive(Clone, Copy, Debug, PartialEq, Eq, Structural)]
pub struct OctreeCounts {
    pub node_count: usize,
    pub body_count: usize,
    pub force_calculation_count: u64,
}

/// Every body in the leaves below node `i`, leaves in octant order.
pub open spec fn subtree_entries(nodes: Seq<OptimizedOctreeNode>, i: int) -> Seq<BodyEntry>
    decreases i, 9int,
{
    if 0 <= i < nodes.len() {
        if nodes[i].spec_is_internal() {
            children_entries(nodes, nodes[i].cold_data.children_indices@, i, 0)
        } else {
            nodes[i].bodies@
        }
    } else {
        Seq::empty()
    }
}

pub open spec fn children_entries(
    nodes: Seq<OptimizedOctreeNode>,
    links: Seq<Option<u32>>,
    limit: int,
    k: int,
) -> Seq<BodyEntry>
    decreases limit, 8 - k,
{
    if 0 <= k < 8 && 0 <= limit {
        match links[k] {
            Some(c) => if c < limit {
                subtree_entries(nodes, c as int) + children_entries(nodes, links, limit, k + 1)
            } else {
                children_entries(nodes, links, limit, k + 1)
            },
            None => children_entries(nodes, links, limit, k + 1),
        }
    } else {
        Seq::empty()
    }
}

/// The cubes of node `i` (at depth `depth`) and of every node below it
/// down to depth `max_depth`, in pre-order; every depth when `max_depth` is
/// `None`.
pub open spec fn bounds_below(
    nodes: Seq<OptimizedOctreeNode>,
    i: int,
    depth: nat,
    max_depth: Option<nat>,
) -> Seq<CellBounds>
    decreases i, 9int,
{
    if 0 <= i < nodes.len() && (max_depth matches Some(m) ==> depth <= m) {
        seq![nodes[i].cold_data.bounds] + if nodes[i].spec_is_internal() {
            children_bounds(nodes, nodes[i].cold_data.children_indices@, i, 0, depth + 1, max_depth)
        } else {
            Seq::empty()
        }
    } else {
        Seq::empty()
    }
}

pub open spec fn children_bounds(
    nodes: Seq<OptimizedOctreeNode>,
    links: Seq<Option<u32>>,
    limit: int,
    k: int,
    depth: nat,
    max_depth: Option<nat>,
) -> Seq<CellBounds>
    decreases limit, 8 - k,
{
    if 0 <= k < 8 && 0 <= limit {
        match links[k] {
            Some(c) => if c < limit {
                bounds_below(nodes, c as int, depth, max_depth) + children_bounds(
                    nodes,
                    links,
                    limit,
                    k + 1,
                    depth,
                    max_depth,
                )
            } else {
                children_bounds(nodes, links, limit, k + 1, depth, max_depth)
            },
            None => children_bounds(nodes, links, limit, k + 1, depth, max_depth),
        }
    } else {
        Seq::empty()
    }
}

pub open spec fn nat_limit(max_depth: Option<usize>) -> Option<nat> {
    match max_depth {
        Some(m) => Some(m as nat),
        None => None,
    }
}

/// The bodies an interaction stands for.
pub open spec fn interaction_entries(nodes: Seq<OptimizedOctreeNode>, it: Interaction) -> Seq<
    BodyEntry,
> {
    match it {
        Interaction::Direct(e) => seq![e],
        Interaction::Approximate(n) => subtree_entries(nodes, n as int),
    }
}

/// The bodies a list of interactions stands for, in order.
pub open spec fn expand(nodes: Seq<OptimizedOctreeNode>, list: Seq<Interaction>) -> Seq<BodyEntry>
    decreases list.len(),
{
    if list.len() == 0 {
        Seq::empty()
    } else {
        expand(nodes, list.drop_last()) + interaction_entries(nodes, list.last())
    }
}

/// The nodes that `accept` may say yes to.
pub open spec fn accepted_by<F: Fn(u32) -> bool>(accept: F) -> spec_fn(u32) -> bool {
    |n: u32| accept.ensures((n,), true)
}

/// `accept` answers each node one way: never both yes and no.
pub open spec fn accept_decides<F: Fn(u32) -> bool>(accept: F) -> bool {
    forall|n: u32| #[trigger] accept.ensures((n,), true) ==> !accept.ensures((n,), false)
}

/// The bodies of a leaf other than `query`, in order, each taken directly.
pub open spec fn direct_list(entries: Seq<BodyEntry>, query: u64) -> Seq<Interaction> {
    entries.filter(other_than(query)).map_values(|e: BodyEntry| Interaction::Direct(e))
}

/// The Barnes-Hut interaction list of node `i`: a leaf gives its bodies
/// other than `query`; an internal node that `accepted` allows is taken
/// whole; any other internal node gives its children's lists joined in
/// octant order.
pub open spec fn barnes_hut_list(
    nodes: Seq<OptimizedOctreeNode>,
    i: int,
    query: u64,
    accepted: spec_fn(u32) -> bool,
) -> Seq<Interaction>
    decreases i, 9int,
{
    if 0 <= i < nodes.len() {
        if nodes[i].spec_is_internal() {
            if accepted(i as u32) {
                seq![Interaction::Approximate(i as u32)]
            } else {
                children_lists(nodes, nodes[i].cold_data.children_indices@, i, 0, query, accepted)
            }
        } else {
            direct_list(nodes[i].bodies@, query)
        }
    } else {
        Seq::empty()
    }
}

/// `barnes_hut_list` of the nodes that `links` names in octants `k` to 7.
pub open spec fn children_lists(
    nodes: Seq<OptimizedOctreeNode>,
    links: Seq<Option<u32>>,
    limit: int,
    k: int,
    query: u64,
    accepted: spec_fn(u32) -> bool,
) -> Seq<Interaction>
    decreases limit, 8 - k,
{
    if 0 <= k < 8 && 0 <= limit {
        match links[k] {
            Some(c) => if c < limit {
                barnes_hut_list(nodes, c as int, query, accepted) + children_lists(
                    nodes,
                    links,
                    limit,
                    k + 1,
                    query,
                    accepted,
                )
            } else {
                children_lists(nodes, links, limit, k + 1, query, accepted)
            },
            None => children_lists(nodes, links, limit, k + 1, query, accepted),
        }
    } else {
        Seq::empty()
    }
}

/// A body other than the one with identity `query`.
pub open spec fn other_than(query: u64) -> spec_fn(BodyEntry) -> bool {
    |e: BodyEntry| e.entity != query
}

pub proof fn lemma_expand_add(nodes: Seq<OptimizedOctreeNode>, a: Seq<Interaction>, b: Seq<Interaction>)
    ensures
        expand(nodes, a + b) == expand(nodes, a) + expand(nodes, b),
    decreases b.len(),
{
    if b.len() == 0 {
        assert(a + b =~= a);
    } else {
        assert((a + b).drop_last() =~= a + b.drop_last());
        assert((a + b).last() == b.last());
        lemma_expand_add(nodes, a, b.drop_last());
        assert(expand(nodes, a + b) =~= expand(nodes, a) + expand(nodes, b));
    }
}

/// Filtering twice by one predicate filters once.
pub proof fn lemma_filter_twice(s: Seq<BodyEntry>, p: spec_fn(BodyEntry) -> bool)
    ensures
        s.filter(p).filter(p) == s.filter(p),
    decreases s.len(),
{
    if s.len() > 0 {
        let t = s.drop_last();
        assert(s =~= t.push(s.last()));
        lemma_filter_twice(t, p);
        t.lemma_filter_push(s.last(), p);
        if p(s.last()) {
            t.filter(p).lemma_filter_push(s.last(), p);
        }
    } else {
        assert(s.filter(p) =~= s);
        assert(s.filter(p).filter(p) =~= s);
    }
}

/// The list holds each body below node `i`, apart from those with identity
/// `query`, exactly once (directly or inside an approximated node); never a
/// body with identity `query` directly; and only internal nodes that
/// `accepted` allows, taken whole.
pub open spec fn interaction_list_of(
    nodes: Seq<OptimizedOctreeNode>,
    i: int,
    query: u64,
    accepted: spec_fn(u32) -> bool,
    list: Seq<Interaction>,
) -> bool {
    &&& expand(nodes, list).filter(other_than(query)) == subtree_entries(nodes, i).filter(
        other_than(query),
    )
    &&& list_items_ok(nodes, query, accepted, list)
}

/// Each item is a body other than `query`, or an internal node that
/// `accepted` allows.
pub open spec fn list_items_ok(
    nodes: Seq<OptimizedOctreeNode>,
    query: u64,
    accepted: spec_fn(u32) -> bool,
    list: Seq<Interaction>,
) -> bool {
    forall|t: int|
        0 <= t < list.len() ==> match #[trigger] list[t] {
            Interaction::Direct(e) => e.entity != query,
            Interaction::Approximate(n) => n < nodes.len() && nodes[n as int].spec_is_internal()
                && accepted(n),
        }
}

/// A list of direct bodies stands for exactly those bodies.
pub proof fn lemma_expand_direct(nodes: Seq<OptimizedOctreeNode>, list: Seq<Interaction>)
    requires
        forall|t: int| 0 <= t < list.len() ==> (#[trigger] list[t]) is Direct,
    ensures
        expand(nodes, list) == list.map_values(|it: Interaction| it->Direct_0),
    decreases list.len(),
{
    if list.len() > 0 {
        lemma_expand_direct(nodes, list.drop_last());
        assert(list.drop_last().map_values(|it: Interaction| it->Direct_0).push(list.last()->Direct_0)
            =~= list.map_values(|it: Interaction| it->Direct_0));
    } else {
        assert(list.map_values(|it: Interaction| it->Direct_0) =~= Seq::<BodyEntry>::empty());
    }
}

/// Concatenating the lists of two parts gives a list of the whole.
pub proof fn lemma_list_concat(
    nodes: Seq<OptimizedOctreeNode>,
    query: u64,
    accepted: spec_fn(u32) -> bool,
    a: Seq<Interaction>,
    ea: Seq<BodyEntry>,
    b: Seq<Interaction>,
    eb: Seq<BodyEntry>,
)
    requires
        expand(nodes, a).filter(other_than(query)) == ea.filter(other_than(query)),
        expand(nodes, b).filter(other_than(query)) == eb.filter(other_than(query)),
        list_items_ok(nodes, query, accepted, a),
        list_items_ok(nodes, query, accepted, b),
    ensures
        expand(nodes, a + b).filter(other_than(query)) == (ea + eb).filter(other_than(query)),
        list_items_ok(nodes, query, accepted, a + b),
{
    lemma_expand_add(nodes, a, b);
    assert forall|t: int| 0 <= t < (a + b).len() implies match #[trigger] (a + b)[t] {
        Interaction::Direct(e) => e.entity != query,
        Interaction::Approximate(n) => n < nodes.len() && nodes[n as int].spec_is_internal()
            && accepted(n),
    } by {
        if t < a.len() {
            assert((a + b)[t] == a[t]);
        } else {
            assert((a + b)[t] == b[t - a.len()]);
        }
    }
}

/// When no node is accepted (the accuracy parameter at zero), the list is
/// the direct sum: every body below node `i` other than `query`, each once,
/// in tree order, and nothing else.
pub proof fn lemma_no_acceptance_gives_direct_sum(
    nodes: Seq<OptimizedOctreeNode>,
    i: int,
    query: u64,
    accepted: spec_fn(u32) -> bool,
    list: Seq<Interaction>,
)
    requires
        interaction_list_of(nodes, i, query, accepted, list),
        forall|n: u32| !#[trigger] accepted(n),
    ensures
        forall|t: int| 0 <= t < list.len() ==> (#[trigger] list[t]) is Direct,
        list.map_values(|it: Interaction| it->Direct_0) == subtree_entries(nodes, i).filter(
            other_than(query),
        ),
{
    assert forall|t: int| 0 <= t < list.len() implies (#[trigger] list[t]) is Direct by {
        match list[t] {
            Interaction::Direct(_) => {},
            Interaction::Approximate(n) => {
                assert(accepted(n));
            },
        }
    }
    lemma_expand_direct(nodes, list);
    let direct = list.map_values(|it: Interaction| it->Direct_0);
    assert forall|t: int| 0 <= t < direct.len() implies other_than(query)(#[trigger] direct[t]) by {
        assert(list[t] is Direct);
    }
    lemma_filter_all(direct, other_than(query));
}

/// Filtering by a predicate that every element meets changes nothing.
pub proof fn lemma_filter_all(s: Seq<BodyEntry>, p: spec_fn(BodyEntry) -> bool)
    requires
        forall|t: int| 0 <= t < s.len() ==> p(#[trigger] s[t]),
    ensures
        s.filter(p) == s,
    decreases s.len(),
{
    if s.len() > 0 {
        let t = s.drop_last();
        assert(s =~= t.push(s.last()));
        assert forall|j: int| 0 <= j < t.len() implies p(#[trigger] t[j]) by {
            assert(t[j] == s[j]);
        }
        lemma_filter_all(t, p);
        t.lemma_filter_push(s.last(), p);
    } else {
        assert(s.filter(p) =~= s);
    }
}

/// Below the depth limit nothing is collected.
pub proof fn lemma_children_bounds_beyond(
    nodes: Seq<OptimizedOctreeNode>,
    links: Seq<Option<u32>>,
    limit: int,
    k: int,
    depth: nat,
    m: nat,
)
    requires
        depth > m,
    ensures
        children_bounds(nodes, links, limit, k, depth, Some(m)).len() == 0,
    decreases 8 - k,
{
    if 0 <= k < 8 && 0 <= limit {
        lemma_children_bounds_beyond(nodes, links, limit, k + 1, depth, m);
        match links[k] {
            Some(c) => {
                assert(bounds_below(nodes, c as int, depth, Some(m)) =~= Seq::<CellBounds>::empty());
            },
            None => {},
        }
    }
}

/// Without a depth limit at least as many cubes are collected as with one.
pub proof fn lemma_bounds_unlimited_most(
    nodes: Seq<OptimizedOctreeNode>,
    i: int,
    depth: nat,
    m: nat,
)
    ensures
        bounds_below(nodes, i, depth, None).len() >= bounds_below(nodes, i, depth, Some(m)).len(),
    decreases i, 9int,
{
    if 0 <= i < nodes.len() && depth <= m && nodes[i].spec_is_internal() {
        lemma_children_bounds_unlimited_most(
            nodes,
            nodes[i].cold_data.children_indices@,
            i,
            0,
            depth + 1,
            m,
        );
    }
}

pub proof fn lemma_children_bounds_unlimited_most(
    nodes: Seq<OptimizedOctreeNode>,
    links: Seq<Option<u32>>,
    limit: int,
    k: int,
    depth: nat,
    m: nat,
)
    ensures
        children_bounds(nodes, links, limit, k, depth, None).len() >= children_bounds(
            nodes,
            links,
            limit,
            k,
            depth,
            Some(m),
        ).len(),
    decreases limit, 8 - k,
{
    if 0 <= k < 8 && 0 <= limit {
        lemma_children_bounds_unlimited_most(nodes, links, limit, k + 1, depth, m);
        match links[k] {
            Some(c) => {
                if c < limit {
                    lemma_bounds_unlimited_most(nodes, c as int, depth, m);
                }
            },
            None => {},
        }
    }
}

/// A deeper limit collects at least as many cubes.
pub proof fn lemma_bounds_deeper_more(nodes: Seq<OptimizedOctreeNode>, i: int, depth: nat, m: nat)
    ensures
        bounds_below(nodes, i, depth, Some(m)).len() <= bounds_below(nodes, i, depth, Some(m + 1)).len(),
    decreases i, 9int,
{
    if 0 <= i < nodes.len() && depth <= m + 1 && nodes[i].spec_is_internal() {
        if depth <= m {
            lemma_children_bounds_deeper_more(
                nodes,
                nodes[i].cold_data.children_indices@,
                i,
                0,
                depth + 1,
                m,
            );
        }
    }
}

pub proof fn lemma_children_bounds_deeper_more(
    nodes: Seq<OptimizedOctreeNode>,
    links: Seq<Option<u32>>,
    limit: int,
    k: int,
    depth: nat,
    m: nat,
)
    ensures
        children_bounds(nodes, links, limit, k, depth, Some(m)).len() <= children_bounds(
            nodes,
            links,
            limit,
            k,
            depth,
            Some(m + 1),
        ).len(),
    decreases limit, 8 - k,
{
    if 0 <= k < 8 && 0 <= limit {
        lemma_children_bounds_deeper_more(nodes, links, limit, k + 1, depth, m);
        match links[k] {
            Some(c) => {
                if c < limit {
                    lemma_bounds_deeper_more(nodes, c as int, depth, m);
                }
            },
            None => {},
        }
    }
}

/// `get_bounds(Some(0))` gives exactly the root's cube when the tree has a
/// root, `get_bounds(None)` gives at least as many cubes as any depth
/// limit, and a deeper limit never gives fewer.
pub proof fn lemma_get_bounds_depth(tree: &OptimizedOctree, d: nat)
    requires
        tree.wf(),
    ensures
        tree.root() is Some ==> tree.spec_bounds(Some(0)).len() == 1,
        tree.spec_bounds(None).len() >= tree.spec_bounds(Some(d)).len(),
        tree.spec_bounds(Some(d)).len() <= tree.spec_bounds(Some(d + 1)).len(),
{
    tree.lemma_wf_facts();
    match tree.root() {
        Some(r) => {
            let nodes = tree.nodes();
            lemma_bounds_unlimited_most(nodes, r as int, 0, d);
            lemma_bounds_deeper_more(nodes, r as int, 0, d);
            if nodes[r as int].spec_is_internal() {
                lemma_children_bounds_beyond(
                    nodes,
                    nodes[r as int].cold_data.children_indices@,
                    r as int,
                    0,
                    1,
                    0,
                );
            }
        },
        None => {},
    }
}

impl OptimizedOctree {
    /// The cubes that `get_bounds(max_depth)` returns.
    pub open spec fn spec_bounds(&self, max_depth: Option<nat>) -> Seq<CellBounds> {
        match self.root() {
            Some(r) => bounds_below(self.nodes(), r as int, 0, max_depth),
            None => Seq::empty(),
        }
    }

    /// The number of nodes in the tree.
    pub fn node_count(&self) -> (r: usize)
        requires
            self.wf(),
        ensures
            r == self.spec_node_count(),
            r == self.nodes().len(),
    {
        proof {
            self.lemma_wf_facts();
        }
        match self.root_index() {
            Some(root) => self.count_nodes_recursive(root),
            None => 0,
        }
    }

    /// The number of bodies in the tree.
    pub fn body_count(&self) -> (r: usize)
        requires
            self.wf(),
        ensures
            r == self.spec_sources().len(),
    {
        proof {
            self.lemma_wf_facts();
        }
        match self.root_index() {
            Some(root) => {
                match self.node(root) {
                    Some(node) => {
                        proof {
                            assert(counts_wf(self.nodes()));
                            assert(node.cold_data.body_count == subtree_sources(
                                self.nodes(),
                                root as int,
                            ).len());
                        }
                        node.cold_data.body_count as usize
                    },
                    None => 0,
                }
            },
            None => 0,
        }
    }

    /// Node and body counts with the force evaluations counted so far.
    pub fn octree_counts(&self) -> (r: OctreeCounts)
        requires
            self.wf(),
        ensures
            r.node_count == self.spec_node_count(),
            r.body_count == self.spec_sources().len(),
    {
        OctreeCounts {
            node_count: self.node_count(),
            body_count: self.body_count(),
            force_calculation_count: self.force_calculation_count(),
        }
    }

    fn count_nodes_recursive(&self, index: u32) -> (r: usize)
        requires
            self.wf(),
            subtree_node_count(self.nodes(), index as int) <= self.nodes().len(),
        ensures
            r == subtree_node_count(self.nodes(), index as int),
        decreases index, 9int,
    {
        proof {
            self.lemma_wf_facts();
        }
        match self.node(index) {
            None => 0,
            Some(node) => {
                if node.is_internal() {
                    1 + self.count_children_recursive(index, node, 0)
                } else {
                    1
                }
            },
        }
    }

    fn count_children_recursive(&self, index: u32, node: &OptimizedOctreeNode, k: usize) -> (r:
        usize)
        requires
            self.wf(),
            index < self.nodes().len(),
            *node == self.nodes()[index as int],
            k <= 8,
            children_node_count(
                self.nodes(),
                node.cold_data.children_indices@,
                index as int,
                k as int,
            ) < self.nodes().len(),
        ensures
            r == children_node_count(
                self.nodes(),
                node.cold_data.children_indices@,
                index as int,
                k as int,
            ),
        decreases index, 8 - k,
    {
        proof {
            self.lemma_wf_facts();
        }
        if k >= 8 {
            return 0;
        }
        let rest = self.count_children_recursive(index, node, k + 1);
        match node.get_child_index(k) {
            Some(c) => {
                if c < index {
                    let here = self.count_nodes_recursive(c);
                    here + rest
                } else {
                    rest
                }
            },
            None => rest,
        }
    }

    /// The cubes of the nodes down to depth `max_depth` (the root is at
    /// depth 0), in pre-order; every node when `max_depth` is `None`.
    pub fn get_bounds(&self, max_depth: Option<usize>) -> (r: Vec<CellBounds>)
        requires
            self.wf(),
        ensures
            r@ == self.spec_bounds(nat_limit(max_depth)),
    {
        proof {
            self.lemma_wf_facts();
        }
        let mut out: Vec<CellBounds> = Vec::new();
        if let Some(root) = self.root_index() {
            self.collect_bounds_recursive(root, &mut out, 0, max_depth);
        }
        proof {
            assert(out@ =~= self.spec_bounds(nat_limit(max_depth)));
        }
        out
    }

    fn collect_bounds_recursive(
        &self,
        index: u32,
        out: &mut Vec<CellBounds>,
        depth: usize,
        max_depth: Option<usize>,
    )
        requires
            self.wf(),
            depth + index <= u32::MAX,
        ensures
            final(out)@ == old(out)@ + bounds_below(
                self.nodes(),
                index as int,
                depth as nat,
                nat_limit(max_depth),
            ),
        decreases index, 9int,
    {
        proof {
            self.lemma_wf_facts();
        }
        if let Some(m) = max_depth {
            if depth > m {
                assert(out@ =~= old(out)@ + Seq::<CellBounds>::empty());
                return;
            }
        }
        match self.node(index) {
            None => {
                assert(out@ =~= old(out)@ + Seq::<CellBounds>::empty());
            },
            Some(node) => {
                out.push(node.bounds());
                if node.is_internal() {
                    self.collect_children_bounds(index, node, 0, out, depth, max_depth);
                    assert(out@ =~= old(out)@ + bounds_below(
                        self.nodes(),
                        index as int,
                        depth as nat,
                        nat_limit(max_depth),
                    ));
                } else {
                    assert(out@ =~= old(out)@ + bounds_below(
                        self.nodes(),
                        index as int,
                        depth as nat,
                        nat_limit(max_depth),
                    ));
                }
            },
        }
    }

    fn collect_children_bounds(
        &self,
        index: u32,
        node: &OptimizedOctreeNode,
        k: usize,
        out: &mut Vec<CellBounds>,
        depth: usize,
        max_depth: Option<usize>,
    )
        requires
            self.wf(),
            index < self.nodes().len(),
            *node == self.nodes()[index as int],
            k <= 8,
            depth + index <= u32::MAX,
        ensures
            final(out)@ == old(out)@ + children_bounds(
                self.nodes(),
                node.cold_data.children_indices@,
                index as int,
                k as int,
                depth as nat + 1,
                nat_limit(max_depth),
            ),
        decreases index, 8 - k,
    {
        if k >= 8 {
            assert(out@ =~= old(out)@ + Seq::<CellBounds>::empty());
            return;
        }
        match node.get_child_index(k) {
            Some(c) => {
                if c < index {
                    self.collect_bounds_recursive(c, out, depth + 1, max_depth);
                }
            },
            None => {},
        }
        self.collect_children_bounds(index, node, k + 1, out, depth, max_depth);
        assert(out@ =~= old(out)@ + children_bounds(
            self.nodes(),
            node.cold_data.children_indices@,
            index as int,
            k as int,
            depth as nat + 1,
            nat_limit(max_depth),
        ));
    }

    /// What a force evaluation on the body with identity `query` sums over,
    /// by the Barnes-Hut rule: a leaf gives each of its bodies but `query`
    /// itself; an internal node for which `accept` holds (the node is far
    /// enough away) is taken whole; any other internal node gives the lists
    /// of its children. Every call is counted once, also on an empty tree.
    pub fn collect_interactions<F: Fn(u32) -> bool>(&self, query: u64, accept: &F) -> (r: Vec<
        Interaction,
    >)
        requires
            self.wf(),
            forall|i: u32| accept.requires((i,)),
            accept_decides(*accept),
        ensures
            r@ == match self.root() {
                Some(root) => barnes_hut_list(self.nodes(), root as int, query, accepted_by(*accept)),
                None => Seq::empty(),
            },
            interaction_list_of(
                self.nodes(),
                match self.root() {
                    Some(root) => root as int,
                    None => -1,
                },
                query,
                accepted_by(*accept),
                r@,
            ),
    {
        proof {
            self.lemma_wf_facts();
        }
        self.record_force_calculation();
        match self.root_index() {
            Some(root) => self.interactions_below(root, query, accept),
            None => {
                let r: Vec<Interaction> = Vec::new();
                proof {
                    assert(expand(self.nodes(), r@) =~= Seq::<BodyEntry>::empty());
                    assert(Seq::<BodyEntry>::empty().filter(other_than(query)) =~= Seq::<
                        BodyEntry,
                    >::empty());
                    assert(r@ =~= Seq::<Interaction>::empty());
                }
                r
            },
        }
    }

    fn interactions_below<F: Fn(u32) -> bool>(&self, index: u32, query: u64, accept: &F) -> (r: Vec<
        Interaction,
    >)
        requires
            self.wf(),
            forall|i: u32| accept.requires((i,)),
            accept_decides(*accept),
        ensures
            r@ == barnes_hut_list(self.nodes(), index as int, query, accepted_by(*accept)),
            interaction_list_of(self.nodes(), index as int, query, accepted_by(*accept), r@),
        decreases index, 9int,
    {
        proof {
            self.lemma_wf_facts();
        }
        let ghost nodes = self.nodes();
        let ghost q = other_than(query);
        let mut r: Vec<Interaction> = Vec::new();
        match self.node(index) {
            None => {
                proof {
                    assert(expand(nodes, r@) =~= Seq::<BodyEntry>::empty());
                    assert(Seq::<BodyEntry>::empty().filter(q) =~= Seq::<BodyEntry>::empty());
                    assert(r@ =~= barnes_hut_list(nodes, index as int, query, accepted_by(*accept)));
                }
            },
            Some(node) => {
                proof {
                    assert(nodes_wf(nodes));
                    assert(node_wf(nodes, index as int));
                }
                if node.is_external() {
                    let n = node.bodies.len();
                    let mut j: usize = 0;
                    while j < n
                        invariant
                            j <= n,
                            n == node.bodies@.len(),
                            node.bodies.wf(),
                            q == other_than(query),
                            forall|t: int| 0 <= t < r@.len() ==> (#[trigger] r@[t]) is Direct,
                            expand(nodes, r@) == node.bodies@.take(j as int).filter(q),
                            forall|t: int|
                                0 <= t < r@.len() ==> match #[trigger] r@[t] {
                                    Interaction::Direct(e) => e.entity != query,
                                    Interaction::Approximate(_) => false,
                                },
                            list_items_ok(nodes, query, accepted_by(*accept), r@),
                            r@ == direct_list(node.bodies@.take(j as int), query),
                        decreases n - j,
                    {
                        let e = node.bodies.get(j).unwrap();
                        proof {
                            node.bodies@.take(j as int).lemma_filter_push(e, q);
                            assert(node.bodies@.take(j as int + 1) =~= node.bodies@.take(
                                j as int,
                            ).push(e));
                        }
                        if e.entity != query {
                            let ghost before = r@;
                            r.push(Interaction::Direct(e));
                            proof {
                                assert(r@.drop_last() == before);
                                assert(expand(nodes, r@) == expand(nodes, before) + seq![e]);
                                assert(expand(nodes, r@) =~= expand(nodes, before).push(e));
                                assert(r@ =~= direct_list(node.bodies@.take(j as int + 1), query));
                            }
                        } else {
                            proof {
                                assert(r@ =~= direct_list(node.bodies@.take(j as int + 1), query));
                            }
                        }
                        j += 1;
                    }
                    proof {
                        assert(node.bodies@.take(n as int) =~= node.bodies@);
                        lemma_filter_twice(node.bodies@, q);
                        assert(r@ == barnes_hut_list(nodes, index as int, query, accepted_by(*accept)));
                    }
                } else {
                    let take_whole = accept(index);
                    if take_whole {
                        r.push(Interaction::Approximate(index));
                        proof {
                            assert(accepted_by(*accept)(index));
                            assert(r@ =~= seq![Interaction::Approximate(index)]);
                            assert(r@.drop_last() =~= Seq::<Interaction>::empty());
                            assert(expand(nodes, r@.drop_last()) =~= Seq::<BodyEntry>::empty());
                            assert(r@.last() == Interaction::Approximate(index));
                            assert(expand(nodes, r@) =~= subtree_entries(nodes, index as int));
                        }
                    } else {
                        proof {
                            assert(!accepted_by(*accept)(index));
                        }
                        r = self.interactions_of_children(index, node, 0, query, accept);
                    }
                }
            },
        }
        r
    }

    fn interactions_of_children<F: Fn(u32) -> bool>(
        &self,
        index: u32,
        node: &OptimizedOctreeNode,
        k: usize,
        query: u64,
        accept: &F,
    ) -> (r: Vec<Interaction>)
        requires
            self.wf(),
            index < self.nodes().len(),
            *node == self.nodes()[index as int],
            k <= 8,
            forall|i: u32| accept.requires((i,)),
            accept_decides(*accept),
        ensures
            r@ == children_lists(
                self.nodes(),
                node.cold_data.children_indices@,
                index as int,
                k as int,
                query,
                accepted_by(*accept),
            ),
            expand(self.nodes(), r@).filter(other_than(query)) == children_entries(
                self.nodes(),
                node.cold_data.children_indices@,
                index as int,
                k as int,
            ).filter(other_than(query)),
            list_items_ok(self.nodes(), query, accepted_by(*accept), r@),
        decreases index, 8 - k,
    {
        let ghost nodes = self.nodes();
        let ghost links = node.cold_data.children_indices@;
        if k >= 8 {
            let r: Vec<Interaction> = Vec::new();
            proof {
                assert(expand(nodes, r@) =~= Seq::<BodyEntry>::empty());
                assert(Seq::<BodyEntry>::empty().filter(other_than(query)) =~= Seq::<
                    BodyEntry,
                >::empty());
                assert(r@ =~= Seq::<Interaction>::empty());
            }
            return r;
        }
        let mut rest = self.interactions_of_children(index, node, k + 1, query, accept);
        match node.get_child_index(k) {
            Some(c) => {
                if c < index {
                    let mut here = self.interactions_below(c, query, accept);
                    let ghost a = here@;
                    let ghost b = rest@;
                    here.append(&mut rest);
                    proof {
                        lemma_list_concat(
                            nodes,
                            query,
                            accepted_by(*accept),
                            a,
                            subtree_entries(nodes, c as int),
                            b,
                            children_entries(nodes, links, index as int, k + 1),
                        );
                        assert(here@ == a + b);
                    }
                    here
                } else {
                    rest
                }
            },
            None => rest,
        }
    }
}

} // verus!
