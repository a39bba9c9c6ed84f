//! The tree as a mathematical object: what a node holds below it, read off
//! the arena's slots, and the facts the builder's proof rests on.
use crate::bodies::{BodyEntry, OctreeBody};
use crate::geometry::{lemma_octant_round_trip, CellBounds};
use crate::node::OptimizedOctreeNode;
use vstd::multiset::Multiset;
use vstd::prelude::*;

verus! {

broadcast use vstd::seq_lib::group_seq_properties, vstd::seq_lib::group_to_multiset_ensures;

/// The `source` of every body in the leaves below node `i`, leaves taken in
/// octant order.
pub open spec fn subtree_sources(nodes: Seq<OptimizedOctreeNode>, i: int) -> Seq<u32>
    decreases i, 9int,
{
    if 0 <= i < nodes.len() {
        if nodes[i].spec_is_internal() {
            children_sources(nodes, nodes[i].cold_data.children_indices@, i, 0)
        } else {
            nodes[i].bodies.sources@
        }
    } else {
        Seq::empty()
    }
}

/// `subtree_sources` of the nodes that `links` names in octants `k` to 7.
/// A link counts only when it is below `limit`, the index of the node that
/// holds the links; the builder only makes such links.
pub open spec fn children_sources(
    nodes: Seq<OptimizedOctreeNode>,
    links: Seq<Option<u32>>,
    limit: int,
    k: int,
) -> Seq<u32>
    decreases limit, 8 - k,
{
    if 0 <= k < 8 && 0 <= limit {
        match links[k] {
            Some(c) => if c < limit {
                subtree_sources(nodes, c as int) + children_sources(nodes, links, limit, k + 1)
            } else {
                children_sources(nodes, links, limit, k + 1)
            },
            None => children_sources(nodes, links, limit, k + 1),
        }
    } else {
        Seq::empty()
    }
}

/// The number of nodes reachable from node `i`, itself included.
pub open spec fn subtree_node_count(nodes: Seq<OptimizedOctreeNode>, i: int) -> nat
    decreases i, 9int,
{
    if 0 <= i < nodes.len() {
        if nodes[i].spec_is_internal() {
            1 + children_node_count(nodes, nodes[i].cold_data.children_indices@, i, 0)
        } else {
            1
        }
    } else {
        0
    }
}

/// `subtree_node_count` summed over the nodes that `links` names in octants
/// `k` to 7, under the same rule as `children_sources`.
pub open spec fn children_node_count(
    nodes: Seq<OptimizedOctreeNode>,
    links: Seq<Option<u32>>,
    limit: int,
    k: int,
) -> nat
    decreases limit, 8 - k,
{
    if 0 <= k < 8 && 0 <= limit {
        match links[k] {
            Some(c) => if c < limit {
                subtree_node_count(nodes, c as int) + children_node_count(nodes, links, limit, k + 1)
            } else {
                children_node_count(nodes, links, limit, k + 1)
            },
            None => children_node_count(nodes, links, limit, k + 1),
        }
    } else {
        0
    }
}

/// Every link in octants `k` to 7 is below `limit`.
pub open spec fn links_below(links: Seq<Option<u32>>, k: int, limit: int) -> bool {
    forall|j: int|
        k <= j < 8 ==> match #[trigger] links[j] {
            Some(c) => c < limit,
            None => true,
        }
}

/// The slots reachable from node `i` through links below their holder,
/// children before their parent and children in octant order.
pub open spec fn subtree_indices(nodes: Seq<OptimizedOctreeNode>, i: int) -> Seq<u32>
    decreases i, 9int,
{
    if 0 <= i < nodes.len() {
        (if nodes[i].spec_is_internal() {
            children_indices(nodes, nodes[i].cold_data.children_indices@, i, 0)
        } else {
            Seq::empty()
        }).push(i as u32)
    } else {
        Seq::empty()
    }
}

/// `subtree_indices` of the nodes that `links` names in octants `k` to 7.
pub open spec fn children_indices(
    nodes: Seq<OptimizedOctreeNode>,
    links: Seq<Option<u32>>,
    limit: int,
    k: int,
) -> Seq<u32>
    decreases limit, 8 - k,
{
    if 0 <= k < 8 && 0 <= limit {
        match links[k] {
            Some(c) => if c < limit {
                subtree_indices(nodes, c as int) + children_indices(nodes, links, limit, k + 1)
            } else {
                children_indices(nodes, links, limit, k + 1)
            },
            None => children_indices(nodes, links, limit, k + 1),
        }
    } else {
        Seq::empty()
    }
}

/// A slot whose bodies and child links have been dropped.
pub open spec fn slot_cleared(n: OptimizedOctreeNode) -> bool {
    &&& n.bodies@.len() == 0
    &&& n.cold_data.children_indices@ == seq![None::<u32>; 8]
}

/// The numbers `0 .. n`: the sources of a tree that holds every body of an
/// input of length `n` once.
pub open spec fn all_sources(n: nat) -> Seq<u32> {
    Seq::new(n, |i: int| i as u32)
}

/// Node `i` on its own is well formed: its cube is valid, its leaf entries
/// lie in its cube, and each child has a lower index and the cube of its
/// octant.
pub open spec fn node_wf(nodes: Seq<OptimizedOctreeNode>, i: int) -> bool {
    let n = nodes[i];
    &&& n.bodies.wf()
    &&& n.cold_data.bounds.wf()
    &&& forall|j: int|
        0 <= j < n.bodies@.len() ==> n.cold_data.bounds.spec_contains(
            (#[trigger] n.bodies@[j]).cell,
        )
    &&& n.spec_is_internal() ==> forall|k: int|
        0 <= k < 8 ==> match #[trigger] n.spec_child(k) {
            Some(c) => c < i && nodes[c as int].cold_data.bounds == n.cold_data.bounds.spec_child(
                k as nat,
            ),
            None => true,
        }
}

/// Every slot is well formed.
pub open spec fn nodes_wf(nodes: Seq<OptimizedOctreeNode>) -> bool {
    forall|i: int| 0 <= i < nodes.len() ==> #[trigger] node_wf(nodes, i)
}

/// Every entry of every slot is the body of `input` that its `source` names.
pub open spec fn entries_from(nodes: Seq<OptimizedOctreeNode>, input: Seq<OctreeBody>) -> bool {
    forall|i: int, j: int|
        0 <= i < nodes.len() && 0 <= j < nodes[i].bodies@.len() ==> {
            let e = #[trigger] nodes[i].bodies@[j];
            &&& e.source < input.len()
            &&& e.entity == input[e.source as int].entity
            &&& e.cell == input[e.source as int].cell
        }
}

/// The count kept in each node is the number of bodies below it.
pub open spec fn counts_wf(nodes: Seq<OptimizedOctreeNode>) -> bool {
    forall|i: int|
        0 <= i < nodes.len() ==> (#[trigger] nodes[i]).cold_data.body_count == subtree_sources(
            nodes,
            i,
        ).len()
}

/// A leaf holds at most `threshold` bodies unless its cube is one cell wide,
/// and an internal node holds more than `threshold`.
pub open spec fn respects_threshold(nodes: Seq<OptimizedOctreeNode>, threshold: nat) -> bool {
    forall|i: int|
        0 <= i < nodes.len() ==> if (#[trigger] nodes[i]).spec_is_internal() {
            nodes[i].cold_data.body_count > threshold
        } else {
            nodes[i].bodies@.len() <= threshold || nodes[i].cold_data.bounds.side == 1
        }
}

/// Source `s` names a body of `input` in octant `k` of `bounds`.
pub open spec fn in_octant(input: Seq<OctreeBody>, bounds: CellBounds, k: nat) -> spec_fn(u32) -> bool {
    |s: u32| s < input.len() && bounds.spec_octant_of(input[s as int].cell) == k
}

/// The multiset union of the octant groups `k` to 7 of `group`.
pub open spec fn octant_groups_from(
    group: Seq<u32>,
    input: Seq<OctreeBody>,
    bounds: CellBounds,
    k: nat,
) -> Multiset<u32>
    decreases 8 - k,
{
    if k < 8 {
        group.filter(in_octant(input, bounds, k)).to_multiset().add(
            octant_groups_from(group, input, bounds, k + 1),
        )
    } else {
        Multiset::empty()
    }
}

/// The number of nodes the builder makes for the bodies of `group` inside
/// `bounds` with leaf threshold `t`: one leaf when the group is small enough
/// or the cube one cell wide, else one internal node over a subtree for each
/// non-empty octant.
pub open spec fn expected_node_count(
    input: Seq<OctreeBody>,
    group: Seq<u32>,
    bounds: CellBounds,
    t: nat,
) -> nat
    decreases bounds.side, 9int,
{
    if group.len() <= t || bounds.side < 2 {
        1
    } else {
        1 + expected_children_count(input, group, bounds, t, 0)
    }
}

pub open spec fn expected_children_count(
    input: Seq<OctreeBody>,
    group: Seq<u32>,
    bounds: CellBounds,
    t: nat,
    k: int,
) -> nat
    decreases bounds.side, 8 - k,
{
    if 0 <= k < 8 && bounds.side >= 2 {
        let f = group.filter(in_octant(input, bounds, k as nat));
        (if f.len() > 0 {
            expected_node_count(input, f, bounds.spec_child(k as nat), t)
        } else {
            0
        }) + expected_children_count(input, group, bounds, t, k + 1)
    } else {
        0
    }
}

/// What a node shows of itself: its cube, whether it is internal, which
/// child slots hold a link, and its leaf entries in order.
pub open spec fn node_shape(n: OptimizedOctreeNode) -> (CellBounds, bool, Seq<bool>, Seq<BodyEntry>) {
    (n.cold_data.bounds, n.spec_is_internal(), occupancy(n.cold_data.children_indices@), n.bodies@)
}

/// Which of the eight child slots hold a link.
pub open spec fn occupancy(links: Seq<Option<u32>>) -> Seq<bool> {
    Seq::new(8, |k: int| links[k] is Some)
}

/// The shapes of node `i` and of every node below it, in pre-order. Two
/// subtrees with equal shapes are the same tree up to the naming of slots.
pub open spec fn subtree_shape(nodes: Seq<OptimizedOctreeNode>, i: int) -> Seq<
    (CellBounds, bool, Seq<bool>, Seq<BodyEntry>),
>
    decreases i, 9int,
{
    if 0 <= i < nodes.len() {
        seq![node_shape(nodes[i])] + if nodes[i].spec_is_internal() {
            children_shape(nodes, nodes[i].cold_data.children_indices@, i, 0)
        } else {
            Seq::empty()
        }
    } else {
        Seq::empty()
    }
}

pub open spec fn children_shape(
    nodes: Seq<OptimizedOctreeNode>,
    links: Seq<Option<u32>>,
    limit: int,
    k: int,
) -> Seq<(CellBounds, bool, Seq<bool>, Seq<BodyEntry>)>
    decreases limit, 8 - k,
{
    if 0 <= k < 8 && 0 <= limit {
        match links[k] {
            Some(c) => if c < limit {
                subtree_shape(nodes, c as int) + children_shape(nodes, links, limit, k + 1)
            } else {
                children_shape(nodes, links, limit, k + 1)
            },
            None => children_shape(nodes, links, limit, k + 1),
        }
    } else {
        Seq::empty()
    }
}

/// The leaf entries for the bodies of `group`, in order.
pub open spec fn entries_of(input: Seq<OctreeBody>, group: Seq<u32>) -> Seq<BodyEntry> {
    Seq::new(
        group.len(),
        |t: int|
            BodyEntry {
                entity: input[group[t] as int].entity,
                cell: input[group[t] as int].cell,
                source: group[t],
            },
    )
}

/// Which octants of `bounds` hold a body of `group`.
pub open spec fn expected_occupancy(input: Seq<OctreeBody>, group: Seq<u32>, bounds: CellBounds) -> Seq<
    bool,
> {
    Seq::new(8, |k: int| group.filter(in_octant(input, bounds, k as nat)).len() > 0)
}

/// The shape of the subtree the builder makes for `group` inside `bounds`
/// with leaf threshold `t`: a function of these values alone.
pub open spec fn expected_shape(
    input: Seq<OctreeBody>,
    group: Seq<u32>,
    bounds: CellBounds,
    t: nat,
) -> Seq<(CellBounds, bool, Seq<bool>, Seq<BodyEntry>)>
    decreases bounds.side, 9int,
{
    if group.len() <= t || bounds.side < 2 {
        seq![(bounds, false, seq![false; 8], entries_of(input, group))]
    } else {
        seq![(bounds, true, expected_occupancy(input, group, bounds), Seq::<BodyEntry>::empty())]
            + expected_children_shape(input, group, bounds, t, 0)
    }
}

pub open spec fn expected_children_shape(
    input: Seq<OctreeBody>,
    group: Seq<u32>,
    bounds: CellBounds,
    t: nat,
    k: int,
) -> Seq<(CellBounds, bool, Seq<bool>, Seq<BodyEntry>)>
    decreases bounds.side, 8 - k,
{
    if 0 <= k < 8 && bounds.side >= 2 {
        let f = group.filter(in_octant(input, bounds, k as nat));
        (if f.len() > 0 {
            expected_shape(input, f, bounds.spec_child(k as nat), t)
        } else {
            Seq::empty()
        }) + expected_children_shape(input, group, bounds, t, k + 1)
    } else {
        Seq::empty()
    }
}

/// Appending slots changes nothing below an existing node.
pub proof fn lemma_subtree_extend(
    nodes: Seq<OptimizedOctreeNode>,
    more: Seq<OptimizedOctreeNode>,
    i: int,
)
    requires
        nodes.is_prefix_of(more),
        0 <= i < nodes.len(),
    ensures
        subtree_sources(more, i) == subtree_sources(nodes, i),
        subtree_node_count(more, i) == subtree_node_count(nodes, i),
        subtree_shape(more, i) == subtree_shape(nodes, i),
    decreases i, 9int,
{
    assert(more[i] == nodes[i]);
    if nodes[i].spec_is_internal() {
        lemma_children_extend(nodes, more, nodes[i].cold_data.children_indices@, i, 0);
    }
}

pub proof fn lemma_children_extend(
    nodes: Seq<OptimizedOctreeNode>,
    more: Seq<OptimizedOctreeNode>,
    links: Seq<Option<u32>>,
    limit: int,
    k: int,
)
    requires
        nodes.is_prefix_of(more),
        0 <= limit <= nodes.len(),
        0 <= k <= 8,
    ensures
        children_sources(more, links, limit, k) == children_sources(nodes, links, limit, k),
        children_node_count(more, links, limit, k) == children_node_count(nodes, links, limit, k),
        children_shape(more, links, limit, k) == children_shape(nodes, links, limit, k),
    decreases limit, 8 - k,
{
    if k < 8 {
        lemma_children_extend(nodes, more, links, limit, k + 1);
        match links[k] {
            Some(c) => {
                if c < limit {
                    lemma_subtree_extend(nodes, more, c as int);
                }
            },
            None => {},
        }
    }
}

/// The limit does not matter while every link is below both values.
pub proof fn lemma_children_limit(
    nodes: Seq<OptimizedOctreeNode>,
    links: Seq<Option<u32>>,
    l1: int,
    l2: int,
    k: int,
)
    requires
        0 <= l1,
        0 <= l2,
        0 <= k <= 8,
        links_below(links, k, l1),
        links_below(links, k, l2),
    ensures
        children_sources(nodes, links, l1, k) == children_sources(nodes, links, l2, k),
        children_node_count(nodes, links, l1, k) == children_node_count(nodes, links, l2, k),
        children_shape(nodes, links, l1, k) == children_shape(nodes, links, l2, k),
    decreases 8 - k,
{
    if k < 8 {
        assert(links[k] == links[k]);
        lemma_children_limit(nodes, links, l1, l2, k + 1);
    }
}

/// Changing a link below octant `k` leaves octants `k` to 7 as they were.
pub proof fn lemma_children_update(
    nodes: Seq<OptimizedOctreeNode>,
    links: Seq<Option<u32>>,
    limit: int,
    k: int,
    j: int,
    v: Option<u32>,
)
    requires
        0 <= j < k <= 8,
        links.len() == 8,
    ensures
        children_sources(nodes, links.update(j, v), limit, k) == children_sources(
            nodes,
            links,
            limit,
            k,
        ),
        children_node_count(nodes, links.update(j, v), limit, k) == children_node_count(
            nodes,
            links,
            limit,
            k,
        ),
        children_shape(nodes, links.update(j, v), limit, k) == children_shape(
            nodes,
            links,
            limit,
            k,
        ),
    decreases 8 - k,
{
    if k < 8 {
        lemma_children_update(nodes, links, limit, k + 1, j, v);
    }
}

/// Pushing one slot keeps every per-slot property of the earlier slots.
pub proof fn lemma_push_wf(
    nodes: Seq<OptimizedOctreeNode>,
    node: OptimizedOctreeNode,
    input: Seq<OctreeBody>,
)
    requires
        nodes_wf(nodes),
        counts_wf(nodes),
        entries_from(nodes, input),
        node_wf(nodes.push(node), nodes.len() as int),
        node.cold_data.body_count == subtree_sources(nodes.push(node), nodes.len() as int).len(),
        forall|j: int|
            0 <= j < node.bodies@.len() ==> {
                let e = #[trigger] node.bodies@[j];
                &&& e.source < input.len()
                &&& e.entity == input[e.source as int].entity
                &&& e.cell == input[e.source as int].cell
            },
    ensures
        nodes_wf(nodes.push(node)),
        counts_wf(nodes.push(node)),
        entries_from(nodes.push(node), input),
{
    let more = nodes.push(node);
    assert(nodes.is_prefix_of(more));
    assert forall|i: int| 0 <= i < more.len() implies #[trigger] node_wf(more, i) by {
        if i < nodes.len() {
            assert(node_wf(nodes, i));
            assert(more[i] == nodes[i]);
            let n = nodes[i];
            if n.spec_is_internal() {
                assert forall|k: int| 0 <= k < 8 implies match #[trigger] n.spec_child(k) {
                    Some(c) => c < i && more[c as int].cold_data.bounds
                        == n.cold_data.bounds.spec_child(k as nat),
                    None => true,
                } by {
                    match n.spec_child(k) {
                        Some(c) => {
                            assert(c < i);
                            assert(more[c as int] == nodes[c as int]);
                        },
                        None => {},
                    }
                }
            }
        }
    }
    assert forall|i: int| 0 <= i < more.len() implies (#[trigger] more[i]).cold_data.body_count
        == subtree_sources(more, i).len() by {
        if i < nodes.len() {
            lemma_subtree_extend(nodes, more, i);
            assert(nodes[i] == more[i]);
        }
    }
}

/// Counting one value: a filtered sequence has it as often as the whole
/// when the value passes the filter, and never otherwise.
pub proof fn lemma_filter_count(s: Seq<u32>, p: spec_fn(u32) -> bool, v: u32)
    ensures
        s.filter(p).to_multiset().count(v) == if p(v) {
            s.to_multiset().count(v)
        } else {
            0
        },
    decreases s.len(),
{
    if s.len() == 0 {
        assert(s.filter(p) =~= Seq::<u32>::empty());
    } else {
        let t = s.drop_last();
        let x = s.last();
        assert(s =~= t.push(x));
        lemma_filter_count(t, p, x);
        lemma_filter_count(t, p, v);
        t.lemma_filter_push(x, p);
    }
}

/// The octant groups `k` to 7 hold each value of `group` as often as
/// `group` does when its octant is `k` or more.
pub proof fn lemma_octant_groups_count(
    group: Seq<u32>,
    input: Seq<OctreeBody>,
    bounds: CellBounds,
    k: nat,
    v: u32,
)
    requires
        k <= 8,
    ensures
        octant_groups_from(group, input, bounds, k).count(v) == if in_octant_from(input, bounds, k, v) {
            group.to_multiset().count(v)
        } else {
            0
        },
    decreases 8 - k,
{
    if k < 8 {
        lemma_octant_groups_count(group, input, bounds, k + 1, v);
        lemma_filter_count(group, in_octant(input, bounds, k), v);
    }
}

/// Source `v` is a body of `input` whose octant is `k` or above (below 8).
pub open spec fn in_octant_from(input: Seq<OctreeBody>, bounds: CellBounds, k: nat, v: u32) -> bool {
    v < input.len() && k <= bounds.spec_octant_of(input[v as int].cell) < 8
}

/// Splitting a group of valid sources into its eight octant groups loses
/// and duplicates nothing.
pub proof fn lemma_octant_groups_cover(group: Seq<u32>, input: Seq<OctreeBody>, bounds: CellBounds)
    requires
        forall|j: int| 0 <= j < group.len() ==> #[trigger] group[j] < input.len(),
    ensures
        octant_groups_from(group, input, bounds, 0) =~= group.to_multiset(),
{
    assert forall|v: u32| octant_groups_from(group, input, bounds, 0).count(v) == group.to_multiset().count(
        v,
    ) by {
        lemma_octant_groups_count(group, input, bounds, 0, v);
        let c = input[v as int].cell;
        let b = bounds.spec_center();
        lemma_octant_round_trip(c.x >= b.x, c.y >= b.y, c.z >= b.z);
        if group.to_multiset().count(v) > 0 {
            assert(group.contains(v));
        }
    }
}

/// The octant groups from `k` on are never larger than the whole group.
pub proof fn lemma_octant_groups_len(
    group: Seq<u32>,
    input: Seq<OctreeBody>,
    bounds: CellBounds,
    k: nat,
)
    requires
        k <= 8,
    ensures
        octant_groups_from(group, input, bounds, k).len() <= octant_groups_from(
            group,
            input,
            bounds,
            0,
        ).len(),
    decreases k,
{
    if k > 0 {
        lemma_octant_groups_len(group, input, bounds, (k - 1) as nat);
    }
}

} // verus!
