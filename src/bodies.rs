//! Bodies and the struct-of-arrays block that a leaf keeps them in.
use crate::geometry::CellPoint;
use vstd::prelude::*;

verus! {

/// A body as the tree sees it: an identity, used only to leave a body out of
/// its own force sum, and the grid cell of its position.
#[derive(Clone, Copy, Debug, PartialEq, Eq, Structural)]
pub struct OctreeBody {
    pub entity: u64,
    pub cell: CellPoint,
}

/// One body of a leaf: its identity, its cell, and `source`, its position in
/// the sequence the tree was built from (where the caller keeps its mass and
/// exact position).
#[derive(Clone, Copy, Debug, PartialEq, Eq, Structural)]
pub struct BodyEntry {
    pub entity: u64,
    pub cell: CellPoint,
    pub source: u32,
}

/// Bodies of a leaf as three parallel arrays of one length.
#[derive(Clone, Debug)]
pub struct OptimizedOctreeBodies {
    pub entities: Vec<u64>,
    pub cells: Vec<CellPoint>,
    pub sources: Vec<u32>,
}

impl View for OptimizedOctreeBodies {
    type V = Seq<BodyEntry>;

    open spec fn view(&self) -> Seq<BodyEntry> {
        Seq::new(
            self.entities@.len(),
            |i: int|
                BodyEntry {
                    entity: self.entities@[i],
                    cell: self.cells@[i],
                    source: self.sources@[i],
                },
        )
    }
}

impl OptimizedOctreeBodies {
    /// The three arrays have one length.
    pub open spec fn wf(&self) -> bool {
        &&& self.cells@.len() == self.entities@.len()
        &&& self.sources@.len() == self.entities@.len()
    }

    pub fn new() -> (r: Self)
        ensures
            r.wf(),
            r@ == Seq::<BodyEntry>::empty(),
    {
        let r = OptimizedOctreeBodies { entities: Vec::new(), cells: Vec::new(), sources: Vec::new() };
        assert(r@ =~= Seq::<BodyEntry>::empty());
        r
    }

    /// An empty block with room for `capacity` bodies.
    pub fn with_capacity(capacity: usize) -> (r: Self)
        ensures
            r.wf(),
            r@ == Seq::<BodyEntry>::empty(),
    {
        let r = OptimizedOctreeBodies {
            entities: Vec::with_capacity(capacity),
            cells: Vec::with_capacity(capacity),
            sources: Vec::with_capacity(capacity),
        };
        assert(r@ =~= Seq::<BodyEntry>::empty());
        r
    }

    pub fn len(&self) -> (r: usize)
        requires
            self.wf(),
        ensures
            r == self@.len(),
    {
        self.entities.len()
    }

    pub fn is_empty(&self) -> (r: bool)
        requires
            self.wf(),
        ensures
            r == (self@.len() == 0),
    {
        self.entities.len() == 0
    }

    /// Appends one body at the end of all three arrays.
    pub fn push(&mut self, entry: BodyEntry)
        requires
            old(self).wf(),
        ensures
            final(self).wf(),
            final(self)@ == old(self)@.push(entry),
    {
        self.entities.push(entry.entity);
        self.cells.push(entry.cell);
        self.sources.push(entry.source);
        assert(self@ =~= old(self)@.push(entry));
    }

    pub fn clear(&mut self)
        ensures
            final(self).wf(),
            final(self)@ == Seq::<BodyEntry>::empty(),
    {
        self.entities.clear();
        self.cells.clear();
        self.sources.clear();
        assert(self@ =~= Seq::<BodyEntry>::empty());
    }

    /// The body at `index`, or `None` past the end.
    pub fn get(&self, index: usize) -> (r: Option<BodyEntry>)
        requires
            self.wf(),
        ensures
            r == (if index < self@.len() {
                Some(self@[index as int])
            } else {
                None
            }),
    {
        if index < self.entities.len() {
            Some(
                BodyEntry {
                    entity: self.entities[index],
                    cell: self.cells[index],
                    source: self.sources[index],
                },
            )
        } else {
            None
        }
    }
}

} // verus!
