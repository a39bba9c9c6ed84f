use stardrift_octree::{
    BodyEntry, CellBounds, CellPoint, Interaction, OctreeBody, OptimizedOctree, GRID_SIDE,
};

fn body(entity: u64, x: u32, y: u32, z: u32) -> OctreeBody {
    OctreeBody { entity, cell: CellPoint::new(x, y, z) }
}

/// Deterministic scattered cells.
fn scattered(count: usize, seed: u64) -> Vec<OctreeBody> {
    let mut state = seed;
    let mut next = move || {
        state = state.wrapping_mul(6364136223846793005).wrapping_add(1442695040888963407);
        ((state >> 33) as u32) % GRID_SIDE
    };
    (0..count).map(|i| {
        let x = next();
        let y = next();
        let z = next();
        body(i as u64, x, y, z)
    }).collect()
}

fn all_sources(tree: &OptimizedOctree) -> Vec<u32> {
    let list = tree.collect_interactions(u64::MAX, &|_| false);
    let mut sources: Vec<u32> = list
        .iter()
        .map(|it| match it {
            Interaction::Direct(e) => e.source,
            Interaction::Approximate(_) => panic!("nothing is approximated"),
        })
        .collect();
    sources.sort();
    sources
}

#[test]
fn empty_build_gives_empty_tree() {
    let mut tree = OptimizedOctree::new();
    tree.build(&Vec::new());
    assert_eq!(tree.root_index(), None);
    assert!(tree.root_node().is_none());
    assert_eq!(tree.node_count(), 0);
    assert_eq!(tree.body_count(), 0);
    assert!(tree.get_bounds(None).is_empty());
    assert_eq!(tree.force_calculation_count(), 0);
    assert!(tree.collect_interactions(0, &|_| false).is_empty());
    assert_eq!(tree.force_calculation_count(), 1);
}

#[test]
fn test_optimized_octree_root_node_access() {
    let mut tree = OptimizedOctree::new();
    assert!(tree.root_node().is_none(), "Empty octree should have no root node");
    tree.build(&vec![body(0, 100, 100, 100), body(1, 200, 300, 100)]);
    let root = tree.root_node();
    assert!(root.is_some(), "Populated octree should have a root node");
    assert_eq!(root.unwrap().body_count(), 2, "Root node should contain both bodies");
}

#[test]
fn rebuild_gives_same_tree() {
    let bodies = scattered(150, 13);
    let mut tree = OptimizedOctree::new().with_leaf_threshold(2);
    tree.build(&scattered(40, 99));
    tree.build(&bodies);
    let mut fresh = OptimizedOctree::new().with_leaf_threshold(2);
    fresh.build(&bodies);
    assert_eq!(tree.get_bounds(None), fresh.get_bounds(None));
    let leaves = |t: &OptimizedOctree| -> Vec<Vec<u32>> {
        let mut out = Vec::new();
        for i in 0..t.node_count() as u32 {
            let node = t.node(i).unwrap();
            if node.is_external() {
                out.push(node.bodies.sources.clone());
            }
        }
        out
    };
    assert_eq!(leaves(&tree), leaves(&fresh));
}

#[test]
fn single_body_feels_no_force_from_itself() {
    let mut tree = OptimizedOctree::new();
    tree.build(&vec![body(42, 100, 200, 300)]);
    assert_eq!(tree.node_count(), 1);
    assert_eq!(tree.body_count(), 1);
    assert!(tree.root_node().unwrap().is_external());
    assert!(tree.collect_interactions(42, &|_| false).is_empty());
    assert!(tree.collect_interactions(42, &|_| true).is_empty());
}

#[test]
fn two_bodies_interact_directly() {
    let mut tree = OptimizedOctree::new();
    let a = body(0, 0, 0, 0);
    let b = body(1, 1000, 0, 0);
    tree.build(&vec![a, b]);
    let list = tree.collect_interactions(0, &|_| false);
    assert_eq!(
        list,
        vec![Interaction::Direct(BodyEntry { entity: 1, cell: b.cell, source: 1 })]
    );
    let list = tree.collect_interactions(1, &|_| false);
    assert_eq!(
        list,
        vec![Interaction::Direct(BodyEntry { entity: 0, cell: a.cell, source: 0 })]
    );
    assert_eq!(tree.force_calculation_count(), 2);
}

#[test]
fn four_octants_with_threshold_one_make_five_nodes() {
    let mut tree = OptimizedOctree::new().with_leaf_threshold(1);
    tree.build(&vec![body(0, 10, 10, 10)]);
    assert_eq!(tree.node_count(), 1);
    let h = GRID_SIDE - 10;
    let bodies = vec![body(0, 10, 10, 10), body(1, h, 10, 10), body(2, 10, h, 10), body(3, 10, 10, h)];
    tree.build(&bodies);
    assert_eq!(tree.node_count(), 5);
    assert_eq!(tree.pool_stats(), (5, 0));
    assert_eq!(tree.body_count(), 4);
    let root = tree.root_node().unwrap();
    assert!(root.is_internal());
    assert_eq!(root.cold_data.bounds, CellBounds::root());
    assert!(root.get_child_index(0).is_some());
    assert!(root.get_child_index(1).is_some());
    assert!(root.get_child_index(2).is_some());
    assert!(root.get_child_index(4).is_some());
    assert!(root.get_child_index(3).is_none());
    assert!(root.get_child_index(7).is_none());
}

#[test]
fn small_sets_stay_in_one_leaf() {
    let mut tree = OptimizedOctree::new();
    tree.build(&scattered(4, 7));
    assert_eq!(tree.node_count(), 1);
    assert!(tree.root_node().unwrap().is_external());
    tree.build(&scattered(5, 7));
    assert!(tree.root_node().unwrap().is_internal());
}

#[test]
fn every_body_is_stored_once() {
    let bodies = scattered(500, 42);
    let mut tree = OptimizedOctree::new();
    tree.build(&bodies);
    assert_eq!(tree.body_count(), 500);
    assert_eq!(all_sources(&tree), (0..500u32).collect::<Vec<_>>());
}

#[test]
fn leaves_respect_threshold() {
    let bodies = scattered(300, 3);
    let mut tree = OptimizedOctree::new().with_leaf_threshold(2);
    tree.build(&bodies);
    let n = tree.node_count() as u32;
    let mut leaf_bodies = 0;
    for i in 0..n {
        let node = tree.node(i).unwrap();
        if node.is_external() {
            assert!(node.bodies.len() <= 2);
            leaf_bodies += node.bodies.len();
            for j in 0..node.bodies.len() {
                let e = node.bodies.get(j).unwrap();
                assert_eq!(bodies[e.source as usize].cell, e.cell);
                assert!(node.bounds().contains(&e.cell));
            }
        } else {
            assert!(node.body_count() > 2);
        }
    }
    assert_eq!(leaf_bodies, 300);
}

#[test]
fn coincident_bodies_stop_at_one_cell() {
    let bodies: Vec<OctreeBody> = (0..10).map(|i| body(i, 5, 5, 5)).collect();
    let mut tree = OptimizedOctree::new().with_leaf_threshold(1);
    tree.build(&bodies);
    assert_eq!(tree.node_count(), 25);
    assert_eq!(tree.body_count(), 10);
    let mut deepest = 0;
    for i in 0..25u32 {
        let node = tree.node(i).unwrap();
        if node.is_external() {
            assert_eq!(node.bounds().size(), 1);
            assert_eq!(node.bodies.len(), 10);
            deepest += 1;
        }
    }
    assert_eq!(deepest, 1);
}

#[test]
fn rebuild_gives_same_counts() {
    let bodies = scattered(200, 11);
    let mut tree = OptimizedOctree::new();
    tree.build(&bodies);
    let first = tree.octree_counts();
    tree.build(&bodies);
    let second = tree.octree_counts();
    tree.build(&Vec::new());
    assert_eq!(tree.node_count(), 0);
    tree.build(&bodies);
    let third = tree.octree_counts();
    let mut fresh = OptimizedOctree::new();
    fresh.build(&bodies);
    let fourth = fresh.octree_counts();
    for c in [second, third, fourth] {
        assert_eq!(c.node_count, first.node_count);
        assert_eq!(c.body_count, first.body_count);
    }
    assert_eq!(all_sources(&tree), all_sources(&fresh));
}

#[test]
fn bounds_by_depth() {
    let mut tree = OptimizedOctree::new().with_leaf_threshold(1);
    tree.build(&scattered(64, 5));
    let root_only = tree.get_bounds(Some(0));
    assert_eq!(root_only, vec![CellBounds::root()]);
    let one = tree.get_bounds(Some(1));
    let all = tree.get_bounds(None);
    assert!(one.len() >= root_only.len());
    assert!(tree.get_bounds(Some(2)).len() >= one.len());
    assert!(all.len() >= one.len());
    assert_eq!(all.len(), tree.node_count());
    assert_eq!(all[0], CellBounds::root());
    for b in &one[1..] {
        assert_eq!(b.size(), GRID_SIDE / 2);
    }
}

#[test]
fn single_body_has_one_bound() {
    let mut tree = OptimizedOctree::new().with_leaf_threshold(1);
    tree.build(&vec![body(0, 1, 2, 3)]);
    assert_eq!(tree.get_bounds(None).len(), 1);
    assert_eq!(tree.get_bounds(Some(5)).len(), 1);
}

#[test]
fn accepted_root_is_taken_whole() {
    let mut tree = OptimizedOctree::new();
    tree.build(&scattered(50, 9));
    let root = tree.root_index().unwrap();
    assert_eq!(tree.collect_interactions(3, &|_| true), vec![Interaction::Approximate(root)]);
    assert_eq!(tree.force_calculation_count(), 1);
}

#[test]
fn interactions_skip_only_the_query() {
    let bodies = scattered(120, 21);
    let mut tree = OptimizedOctree::new();
    tree.build(&bodies);
    let list = tree.collect_interactions(17, &|_| false);
    assert_eq!(list.len(), 119);
    for it in &list {
        match it {
            Interaction::Direct(e) => assert_ne!(e.entity, 17),
            Interaction::Approximate(_) => panic!("nothing is approximated"),
        }
    }
}

#[test]
fn partial_acceptance_still_covers_every_other_body() {
    let bodies = scattered(200, 8);
    let mut tree = OptimizedOctree::new();
    tree.build(&bodies);
    let root = tree.root_index().unwrap();
    let accept = |i: u32| i != root && i % 3 == 0;
    let list = tree.collect_interactions(5, &accept);
    let mut covered: Vec<u32> = Vec::new();
    let mut stack: Vec<u32> = Vec::new();
    for it in &list {
        match it {
            Interaction::Direct(e) => covered.push(e.source),
            Interaction::Approximate(n) => {
                assert!(tree.node(*n).unwrap().is_internal());
                stack.push(*n);
            }
        }
    }
    while let Some(n) = stack.pop() {
        let node = tree.node(n).unwrap();
        if node.is_external() {
            covered.extend(node.bodies.sources.iter().copied());
        } else {
            for k in 0..8 {
                if let Some(c) = node.get_child_index(k) {
                    stack.push(c);
                }
            }
        }
    }
    covered.retain(|&s| s != 5);
    covered.sort();
    let expected: Vec<u32> = (0..200u32).filter(|&s| s != 5).collect();
    assert_eq!(covered, expected);
}

#[test]
fn capacity_estimate_values() {
    let tree = OptimizedOctree::new();
    assert_eq!(tree.estimate_node_capacity(3), 1);
    assert_eq!(tree.estimate_node_capacity(4), 1);
    assert_eq!(tree.estimate_node_capacity(5), 16);
    assert_eq!(tree.estimate_node_capacity(100), 42);
    assert_eq!(tree.estimate_node_capacity(1000), 427);
}

#[test]
fn clear_pool_drops_tree() {
    let mut tree = OptimizedOctree::with_pool_capacity(32);
    tree.build(&scattered(40, 1));
    assert!(tree.pool_stats().0 > 0);
    tree.clear_pool();
    assert_eq!(tree.root_index(), None);
    assert_eq!(tree.pool_stats(), (0, 0));
    assert_eq!(tree.leaf_threshold(), 4);
}
