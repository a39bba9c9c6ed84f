use stardrift_octree::{octant_index, octant_is_high, CellBounds, CellPoint, GRID_SIDE};

#[test]
fn octant_bits_follow_axes() {
    assert_eq!(octant_index(false, false, false), 0);
    assert_eq!(octant_index(true, false, false), 1);
    assert_eq!(octant_index(false, true, false), 2);
    assert_eq!(octant_index(true, true, false), 3);
    assert_eq!(octant_index(false, false, true), 4);
    assert_eq!(octant_index(true, false, true), 5);
    assert_eq!(octant_index(false, true, true), 6);
    assert_eq!(octant_index(true, true, true), 7);
}

#[test]
fn octant_bits_read_back() {
    for k in 0..8usize {
        let x = octant_is_high(k, 0);
        let y = octant_is_high(k, 1);
        let z = octant_is_high(k, 2);
        assert_eq!(octant_index(x, y, z), k);
    }
    assert!(octant_is_high(5, 0));
    assert!(!octant_is_high(5, 1));
    assert!(octant_is_high(5, 2));
}

#[test]
fn root_cube_center_and_size() {
    let root = CellBounds::root();
    assert_eq!(root.size(), GRID_SIDE);
    assert_eq!(root.center(), CellPoint::new(8388608, 8388608, 8388608));
    assert!(root.contains(&CellPoint::new(0, 0, 0)));
    assert!(root.contains(&CellPoint::new(GRID_SIDE - 1, 0, GRID_SIDE - 1)));
    assert!(!root.contains(&CellPoint::new(GRID_SIDE, 0, 0)));
}

#[test]
fn subdivision_gives_octant_cubes() {
    let b = CellBounds::new(CellPoint::new(8, 16, 0), 8);
    let children = b.subdivide_into_children();
    assert_eq!(children[0], CellBounds::new(CellPoint::new(8, 16, 0), 4));
    assert_eq!(children[1], CellBounds::new(CellPoint::new(12, 16, 0), 4));
    assert_eq!(children[2], CellBounds::new(CellPoint::new(8, 20, 0), 4));
    assert_eq!(children[3], CellBounds::new(CellPoint::new(12, 20, 0), 4));
    assert_eq!(children[4], CellBounds::new(CellPoint::new(8, 16, 4), 4));
    assert_eq!(children[7], CellBounds::new(CellPoint::new(12, 20, 4), 4));
    for k in 0..8usize {
        assert_eq!(children[k], b.child(k));
    }
}

#[test]
fn point_on_center_goes_to_high_octant() {
    let b = CellBounds::new(CellPoint::new(0, 0, 0), 16);
    let c = b.center();
    assert_eq!(c, CellPoint::new(8, 8, 8));
    for _ in 0..3 {
        assert_eq!(b.child_index(&c), 7);
    }
    assert!(b.child(7).contains(&c));
    for k in 0..7usize {
        assert!(!b.child(k).contains(&c));
    }
    assert_eq!(b.child_index(&CellPoint::new(7, 7, 7)), 0);
    assert_eq!(b.child_index(&CellPoint::new(8, 7, 7)), 1);
    assert_eq!(b.child_index(&CellPoint::new(7, 15, 8)), 6);
}

#[test]
fn one_cell_cube_cannot_split() {
    let b = CellBounds::new(CellPoint::new(3, 3, 3), 1);
    assert!(!b.can_subdivide());
    assert!(CellBounds::new(CellPoint::new(2, 2, 2), 2).can_subdivide());
}
