use stardrift_octree::{
    BodyEntry, CellBounds, CellPoint, NodeType, OptimizedOctreeBodies, OptimizedOctreeNode,
    OptimizedOctreeNodePool,
};

fn entry(entity: u64, source: u32) -> BodyEntry {
    BodyEntry { entity, cell: CellPoint::new(source, 1, 2), source }
}

fn leaf() -> OptimizedOctreeNode {
    OptimizedOctreeNode::new_external(CellBounds::new(CellPoint::new(0, 0, 0), 4), 2)
}

#[test]
fn body_block_keeps_parallel_arrays() {
    let mut block = OptimizedOctreeBodies::with_capacity(4);
    assert!(block.is_empty());
    block.push(entry(10, 0));
    block.push(entry(11, 1));
    block.push(entry(12, 2));
    assert_eq!(block.len(), 3);
    assert_eq!(block.entities, vec![10, 11, 12]);
    assert_eq!(block.sources, vec![0, 1, 2]);
    assert_eq!(block.get(1), Some(entry(11, 1)));
    assert_eq!(block.get(3), None);
    block.clear();
    assert_eq!(block.len(), 0);
    assert_eq!(block.get(0), None);
}

#[test]
fn leaf_counts_its_bodies() {
    let mut node = leaf();
    assert!(node.is_external());
    assert!(!node.is_internal());
    assert_eq!(node.body_count(), 0);
    node.add_body(entry(1, 0));
    node.add_body(entry(2, 1));
    assert_eq!(node.body_count(), 2);
    assert_eq!(node.cold_data.body_count, 2);
    assert_eq!(node.bounds(), CellBounds::new(CellPoint::new(0, 0, 0), 4));
}

#[test]
fn internal_node_links_children() {
    let mut node = OptimizedOctreeNode::new_internal(
        CellBounds::new(CellPoint::new(0, 0, 0), 4),
        [None; 8],
        9,
    );
    assert!(node.is_internal());
    assert_eq!(node.cold_data.node_type, NodeType::Internal);
    assert_eq!(node.body_count(), 9);
    node.set_child_index(3, Some(17));
    assert_eq!(node.get_child_index(3), Some(17));
    assert_eq!(node.get_child_index(4), None);
    node.release();
    assert_eq!(node.get_child_index(3), None);
}

#[test]
fn pool_appends_then_reuses_freed_slots() {
    let mut pool = OptimizedOctreeNodePool::new();
    assert!(pool.is_empty());
    assert_eq!(pool.allocate_node(leaf()), 0);
    assert_eq!(pool.allocate_node(leaf()), 1);
    assert_eq!(pool.allocate_node(leaf()), 2);
    assert_eq!(pool.stats(), (3, 0));
    pool.deallocate_node(1);
    assert_eq!(pool.stats(), (3, 1));
    let mut marked = leaf();
    marked.add_body(entry(77, 5));
    assert_eq!(pool.allocate_node(marked), 1);
    assert_eq!(pool.get_node(1).unwrap().bodies.get(0), Some(entry(77, 5)));
    assert_eq!(pool.stats(), (3, 0));
    assert_eq!(pool.allocate_node(leaf()), 3);
    assert_eq!(pool.len(), 4);
}

#[test]
fn pool_reuses_last_freed_first() {
    let mut pool = OptimizedOctreeNodePool::with_capacity(8);
    for _ in 0..4 {
        pool.allocate_node(leaf());
    }
    pool.deallocate_node(0);
    pool.deallocate_node(2);
    assert_eq!(pool.allocate_node(leaf()), 2);
    assert_eq!(pool.allocate_node(leaf()), 0);
    assert_eq!(pool.allocate_node(leaf()), 4);
}

#[test]
fn pool_ignores_unknown_indices() {
    let mut pool = OptimizedOctreeNodePool::new();
    pool.allocate_node(leaf());
    assert!(pool.get_node(0).is_some());
    assert!(pool.get_node(1).is_none());
    assert!(pool.get_node_mut(5).is_none());
    pool.deallocate_node(7);
    assert_eq!(pool.stats(), (1, 0));
}

#[test]
fn pool_frees_node_contents() {
    let mut pool = OptimizedOctreeNodePool::new();
    let mut node = leaf();
    node.add_body(entry(4, 0));
    let i = pool.allocate_node(node);
    assert_eq!(pool.get_node(i).unwrap().bodies.len(), 1);
    pool.deallocate_node(i);
    assert_eq!(pool.get_node(i).unwrap().bodies.len(), 0);
}

#[test]
fn pool_edits_in_place() {
    let mut pool = OptimizedOctreeNodePool::new();
    let i = pool.allocate_node(leaf());
    if let Some(node) = pool.get_node_mut(i) {
        node.add_body(entry(9, 3));
    }
    assert_eq!(pool.get_node(i).unwrap().bodies.get(0), Some(entry(9, 3)));
}

#[test]
fn pool_clear_empties_everything() {
    let mut pool = OptimizedOctreeNodePool::with_capacity(16);
    pool.allocate_node(leaf());
    pool.allocate_node(leaf());
    pool.deallocate_node(0);
    pool.clear();
    assert_eq!(pool.stats(), (0, 0));
    assert!(pool.is_empty());
    assert!(pool.capacity() >= 2);
    assert_eq!(pool.allocate_node(leaf()), 0);
}
