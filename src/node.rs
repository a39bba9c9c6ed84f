//! Tree nodes: internal nodes with up to eight children, and leaves that
//! hold their bodies.
use crate::bodies::{BodyEntry, OptimizedOctreeBodies};
use crate::geometry::CellBounds;
use vstd::prelude::*;

verus! {

#[derive(Clone, Copy, Debug, PartialEq, Eq, Structural)]
pub enum NodeType {
    Internal,
    External,
}

/// What a node keeps besides its bodies: its cube, the arena indices of its
/// children by octant, the number of bodies below it, and its kind.
#[derive(Clone, Debug)]
pub struct ColdNodeData {
    pub bounds: CellBounds,
    pub children_indices: [Option<u32>; 8],
    pub body_count: u32,
    pub node_type: NodeType,
}

#[derive(Clone, Debug)]
pub struct OptimizedOctreeNode {
    pub cold_data: ColdNodeData,
    /// Only a leaf holds bodies.
    pub bodies: OptimizedOctreeBodies,
}

impl OptimizedOctreeNode {
    pub open spec fn spec_is_internal(&self) -> bool {
        self.cold_data.node_type == NodeType::Internal
    }

    pub open spec fn spec_child(&self, k: int) -> Option<u32> {
        self.cold_data.children_indices@[k]
    }

    /// An internal node over `bounds` with the given children and count.
    pub fn new_internal(bounds: CellBounds, children_indices: [Option<u32>; 8], body_count: u32) -> (r:
        Self)
        ensures
            r.cold_data.bounds == bounds,
            r.cold_data.children_indices == children_indices,
            r.cold_data.body_count == body_count,
            r.cold_data.node_type == NodeType::Internal,
            r.bodies.wf(),
            r.bodies@ == Seq::<BodyEntry>::empty(),
    {
        OptimizedOctreeNode {
            cold_data: ColdNodeData { bounds, children_indices, body_count, node_type: NodeType::Internal },
            bodies: OptimizedOctreeBodies::new(),
        }
    }

    /// An empty leaf over `bounds`, with room for `capacity` bodies.
    pub fn new_external(bounds: CellBounds, capacity: usize) -> (r: Self)
        ensures
            r.cold_data.bounds == bounds,
            r.cold_data.children_indices@ == seq![None::<u32>; 8],
            r.cold_data.body_count == 0,
            r.cold_data.node_type == NodeType::External,
            r.bodies.wf(),
            r.bodies@ == Seq::<BodyEntry>::empty(),
    {
        let r = OptimizedOctreeNode {
            cold_data: ColdNodeData {
                bounds,
                children_indices: [None, None, None, None, None, None, None, None],
                body_count: 0,
                node_type: NodeType::External,
            },
            bodies: OptimizedOctreeBodies::with_capacity(capacity),
        };
        assert(r.cold_data.children_indices@ =~= seq![None::<u32>; 8]);
        r
    }

    pub fn is_internal(&self) -> (r: bool)
        ensures
            r == self.spec_is_internal(),
    {
        match self.cold_data.node_type {
            NodeType::Internal => true,
            NodeType::External => false,
        }
    }

    pub fn is_external(&self) -> (r: bool)
        ensures
            r == !self.spec_is_internal(),
    {
        !self.is_internal()
    }

    pub fn bounds(&self) -> (r: CellBounds)
        ensures
            r == self.cold_data.bounds,
    {
        self.cold_data.bounds
    }

    /// Bodies held by a leaf, or counted below an internal node.
    pub fn body_count(&self) -> (r: usize)
        requires
            self.bodies.wf(),
        ensures
            r == (if self.spec_is_internal() {
                self.cold_data.body_count as nat
            } else {
                self.bodies@.len()
            }),
    {
        if self.is_external() {
            self.bodies.len()
        } else {
            self.cold_data.body_count as usize
        }
    }

    /// Appends a body to a leaf and keeps its count in step.
    pub fn add_body(&mut self, entry: BodyEntry)
        requires
            old(self).bodies.wf(),
            old(self).bodies@.len() < u32::MAX,
        ensures
            final(self).bodies.wf(),
            final(self).bodies@ == old(self).bodies@.push(entry),
            final(self).cold_data.body_count == final(self).bodies@.len(),
            final(self).cold_data.bounds == old(self).cold_data.bounds,
            final(self).cold_data.children_indices == old(self).cold_data.children_indices,
            final(self).cold_data.node_type == old(self).cold_data.node_type,
    {
        self.bodies.push(entry);
        self.cold_data.body_count = self.bodies.len() as u32;
    }

    pub fn set_child_index(&mut self, child_index: usize, node_index: Option<u32>)
        requires
            child_index < 8,
        ensures
            final(self).cold_data.children_indices@ == old(
                self,
            ).cold_data.children_indices@.update(child_index as int, node_index),
            final(self).cold_data.bounds == old(self).cold_data.bounds,
            final(self).cold_data.body_count == old(self).cold_data.body_count,
            final(self).cold_data.node_type == old(self).cold_data.node_type,
            final(self).bodies == old(self).bodies,
    {
        self.cold_data.children_indices[child_index] = node_index;
        assert(self.cold_data.children_indices@ =~= old(self).cold_data.children_indices@.update(
            child_index as int,
            node_index,
        ));
    }

    pub fn get_child_index(&self, child_index: usize) -> (r: Option<u32>)
        requires
            child_index < 8,
        ensures
            r == self.spec_child(child_index as int),
    {
        self.cold_data.children_indices[child_index]
    }

    /// Drops the bodies and the child links, as when the slot is freed.
    pub fn release(&mut self)
        ensures
            final(self).bodies.wf(),
            final(self).bodies@ == Seq::<BodyEntry>::empty(),
            final(self).cold_data.children_indices@ == seq![None::<u32>; 8],
            final(self).cold_data.bounds == old(self).cold_data.bounds,
            final(self).cold_data.body_count == old(self).cold_data.body_count,
            final(self).cold_data.node_type == old(self).cold_data.node_type,
    {
        self.bodies.clear();
        self.cold_data.children_indices = [None, None, None, None, None, None, None, None];
        assert(self.cold_data.children_indices@ =~= seq![None::<u32>; 8]);
    }
}

} // verus!
