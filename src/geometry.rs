//! Cell-space geometry: positions quantised onto a cubic grid of
//! `GRID_SIDE` cells per axis, and cubic bounds that split into eight octants.
use vstd::prelude::*;

verus! {

/// Number of times the root cube can be halved before a cube is one cell wide.
pub const GRID_DEPTH: u32 = 24;

/// Cells per axis of the root cube (two to the power `GRID_DEPTH`).
pub const GRID_SIDE: u32 = 16777216;

/// A grid cell, one coordinate per axis.
#[derive(Clone, Copy, Debug, PartialEq, Eq, Structural)]
pub struct CellPoint {
    pub x: u32,
    pub y: u32,
    pub z: u32,
}

/// A cube of cells: `min` is its lowest corner, `side` its width in cells on
/// every axis. It covers `min.c <= c < min.c + side` on each axis `c`.
#[derive(Clone, Copy, Debug, PartialEq, Eq, Structural)]
pub struct CellBounds {
    pub min: CellPoint,
    pub side: u32,
}

/// `n` is a power of two.
pub open spec fn is_pow2(n: nat) -> bool
    decreases n,
{
    if n <= 1 {
        n == 1
    } else {
        n % 2 == 0 && is_pow2(n / 2)
    }
}

/// How many times `n` can be halved before it reaches one.
pub open spec fn log2(n: nat) -> nat
    decreases n,
{
    if n <= 1 {
        0
    } else {
        1 + log2(n / 2)
    }
}

/// The octant number of a point relative to a center: bit 0 for the x axis,
/// bit 1 for y, bit 2 for z, each set when the coordinate is at or above the
/// center on that axis.
pub open spec fn spec_octant(x_high: bool, y_high: bool, z_high: bool) -> nat {
    (if x_high {
        1nat
    } else {
        0nat
    }) + (if y_high {
        2nat
    } else {
        0nat
    }) + (if z_high {
        4nat
    } else {
        0nat
    })
}

/// Whether octant `k` lies on the high side of axis `axis` (0, 1 or 2).
pub open spec fn spec_octant_high(k: nat, axis: nat) -> bool {
    if axis == 0 {
        k % 2 == 1
    } else if axis == 1 {
        (k / 2) % 2 == 1
    } else {
        (k / 4) % 2 == 1
    }
}

/// Combines the three per-axis comparisons into an octant number.
pub fn octant_index(x_high: bool, y_high: bool, z_high: bool) -> (r: usize)
    ensures
        r == spec_octant(x_high, y_high, z_high),
        r < 8,
{
    let dx: usize = if x_high {
        1
    } else {
        0
    };
    let dy: usize = if y_high {
        2
    } else {
        0
    };
    let dz: usize = if z_high {
        4
    } else {
        0
    };
    dx + dy + dz
}

/// Whether octant `k` is on the high side of `axis`: the inverse of
/// `octant_index`, used to pick each child's corner.
pub fn octant_is_high(k: usize, axis: usize) -> (r: bool)
    requires
        k < 8,
        axis < 3,
    ensures
        r == spec_octant_high(k as nat, axis as nat),
{
    if axis == 0 {
        k % 2 == 1
    } else if axis == 1 {
        (k / 2) % 2 == 1
    } else {
        (k / 4) % 2 == 1
    }
}

/// Reading an octant number back axis by axis gives the three comparisons it
/// was made from, so the octant of a point and the child that holds it agree.
pub proof fn lemma_octant_round_trip(x_high: bool, y_high: bool, z_high: bool)
    ensures
        spec_octant(x_high, y_high, z_high) < 8,
        spec_octant_high(spec_octant(x_high, y_high, z_high), 0) == x_high,
        spec_octant_high(spec_octant(x_high, y_high, z_high), 1) == y_high,
        spec_octant_high(spec_octant(x_high, y_high, z_high), 2) == z_high,
{
}

impl CellPoint {
    pub fn new(x: u32, y: u32, z: u32) -> (r: CellPoint)
        ensures
            r == (CellPoint { x, y, z }),
    {
        CellPoint { x, y, z }
    }
}

impl CellBounds {
    /// The cube lies inside the root grid and its side is a power of two.
    pub open spec fn wf(&self) -> bool {
        &&& self.side >= 1
        &&& is_pow2(self.side as nat)
        &&& self.min.x + self.side <= GRID_SIDE
        &&& self.min.y + self.side <= GRID_SIDE
        &&& self.min.z + self.side <= GRID_SIDE
    }

    pub open spec fn spec_center(&self) -> CellPoint {
        CellPoint {
            x: (self.min.x + self.side / 2) as u32,
            y: (self.min.y + self.side / 2) as u32,
            z: (self.min.z + self.side / 2) as u32,
        }
    }

    pub open spec fn spec_contains(&self, p: CellPoint) -> bool {
        &&& self.min.x <= p.x < self.min.x + self.side
        &&& self.min.y <= p.y < self.min.y + self.side
        &&& self.min.z <= p.z < self.min.z + self.side
    }

    /// The octant of `p`: at or above the center on an axis is the high side.
    pub open spec fn spec_octant_of(&self, p: CellPoint) -> nat {
        let c = self.spec_center();
        spec_octant(p.x >= c.x, p.y >= c.y, p.z >= c.z)
    }

    /// The cube of octant `k`: half the side, its corner at the center on
    /// each axis where `k` is high and at `min` elsewhere.
    pub open spec fn spec_child(&self, k: nat) -> CellBounds {
        let c = self.spec_center();
        CellBounds {
            min: CellPoint {
                x: if spec_octant_high(k, 0) {
                    c.x
                } else {
                    self.min.x
                },
                y: if spec_octant_high(k, 1) {
                    c.y
                } else {
                    self.min.y
                },
                z: if spec_octant_high(k, 2) {
                    c.z
                } else {
                    self.min.z
                },
            },
            side: self.side / 2,
        }
    }

    pub open spec fn spec_root() -> CellBounds {
        CellBounds { min: CellPoint { x: 0, y: 0, z: 0 }, side: GRID_SIDE }
    }

    /// The root cube of the grid.
    pub fn root() -> (r: CellBounds)
        ensures
            r.wf(),
            r == CellBounds::spec_root(),
            log2(r.side as nat) == GRID_DEPTH,
    {
        proof {
            reveal_with_fuel(is_pow2, 25);
            reveal_with_fuel(log2, 25);
        }
        CellBounds { min: CellPoint { x: 0, y: 0, z: 0 }, side: GRID_SIDE }
    }

    pub fn new(min: CellPoint, side: u32) -> (r: CellBounds)
        ensures
            r == (CellBounds { min, side }),
    {
        CellBounds { min, side }
    }

    pub fn center(&self) -> (r: CellPoint)
        requires
            self.wf(),
        ensures
            r == self.spec_center(),
    {
        let half = self.side / 2;
        CellPoint { x: self.min.x + half, y: self.min.y + half, z: self.min.z + half }
    }

    /// Width of the cube in cells.
    pub fn size(&self) -> (r: u32)
        ensures
            r == self.side,
    {
        self.side
    }

    pub fn contains(&self, p: &CellPoint) -> (r: bool)
        requires
            self.wf(),
        ensures
            r == self.spec_contains(*p),
    {
        self.min.x <= p.x && p.x < self.min.x + self.side && self.min.y <= p.y && p.y
            < self.min.y + self.side && self.min.z <= p.z && p.z < self.min.z + self.side
    }

    /// A cube one cell wide cannot be divided further.
    pub fn can_subdivide(&self) -> (r: bool)
        ensures
            r == (self.side >= 2),
    {
        self.side >= 2
    }

    /// The octant of `p`, by the rule that a coordinate equal to the center
    /// goes to the high side.
    pub fn child_index(&self, p: &CellPoint) -> (r: usize)
        requires
            self.wf(),
        ensures
            r == self.spec_octant_of(*p),
            r < 8,
    {
        let c = self.center();
        octant_index(p.x >= c.x, p.y >= c.y, p.z >= c.z)
    }

    /// The cube of octant `k`.
    pub fn child(&self, k: usize) -> (r: CellBounds)
        requires
            self.wf(),
            self.side >= 2,
            k < 8,
        ensures
            r == self.spec_child(k as nat),
            r.wf(),
    {
        let c = self.center();
        proof {
            lemma_half_pow2(self.side as nat);
        }
        let x = if octant_is_high(k, 0) {
            c.x
        } else {
            self.min.x
        };
        let y = if octant_is_high(k, 1) {
            c.y
        } else {
            self.min.y
        };
        let z = if octant_is_high(k, 2) {
            c.z
        } else {
            self.min.z
        };
        CellBounds { min: CellPoint { x, y, z }, side: self.side / 2 }
    }

    /// The eight octant cubes, indexed by octant number.
    pub fn subdivide_into_children(&self) -> (r: [CellBounds; 8])
        requires
            self.wf(),
            self.side >= 2,
        ensures
            forall|k: int| 0 <= k < 8 ==> #[trigger] r[k] == self.spec_child(k as nat),
            forall|k: int| 0 <= k < 8 ==> (#[trigger] r[k]).wf(),
    {
        let r = [
            self.child(0),
            self.child(1),
            self.child(2),
            self.child(3),
            self.child(4),
            self.child(5),
            self.child(6),
            self.child(7),
        ];
        assert forall|k: int| 0 <= k < 8 implies #[trigger] r[k] == self.spec_child(k as nat)
            && r[k].wf() by {
            if k == 0 {
            } else if k == 1 {
            } else if k == 2 {
            } else if k == 3 {
            } else if k == 4 {
            } else if k == 5 {
            } else if k == 6 {
            } else {
            }
        }
        r
    }
}

/// Half of a power of two of at least two is a power of two, one step lower.
pub proof fn lemma_half_pow2(n: nat)
    requires
        is_pow2(n),
        n >= 2,
    ensures
        is_pow2(n / 2),
        n % 2 == 0,
        n / 2 >= 1,
        log2(n) == log2(n / 2) + 1,
{
}

/// Every point of a cube lies in exactly one of its octants, the one that
/// `spec_octant_of` names; this is also what makes the assignment of a point
/// on the center deterministic.
pub proof fn lemma_octant_partition(b: CellBounds, p: CellPoint, k: nat)
    requires
        b.wf(),
        b.side >= 2,
        b.spec_contains(p),
        k < 8,
    ensures
        b.spec_child(k).spec_contains(p) <==> k == b.spec_octant_of(p),
        b.spec_octant_of(p) < 8,
{
    lemma_half_pow2(b.side as nat);
    let c = b.spec_center();
    lemma_octant_round_trip(p.x >= c.x, p.y >= c.y, p.z >= c.z);
    if b.spec_child(k).spec_contains(p) {
        assert(spec_octant_high(k, 0) == (p.x >= c.x));
        assert(spec_octant_high(k, 1) == (p.y >= c.y));
        assert(spec_octant_high(k, 2) == (p.z >= c.z));
        assert(k == b.spec_octant_of(p));
    }
}

/// A point on the center of a cube goes to the octant that is high on every
/// axis.
pub proof fn lemma_center_goes_high(b: CellBounds)
    requires
        b.wf(),
    ensures
        b.spec_octant_of(b.spec_center()) == 7,
{
}

} // verus!
