//! An index-addressed pool of nodes that reuses freed slots.
use crate::node::OptimizedOctreeNode;
use vstd::prelude::*;

verus! {

/// Relies on `Vec::capacity`: how many nodes fit before the storage grows.
/// What the allocator handed out is not known in advance, so nothing is
/// promised of the number.
#[verifier::external_body]
fn vec_capacity(v: &Vec<OptimizedOctreeNode>) -> (r: usize) {
    v.capacity()
}

/// Nodes addressed by `u32` index. Freed slots go on a free list and are
/// handed out again, last freed first, before the storage grows.
#[derive(Debug)]
pub struct OptimizedOctreeNodePool {
    nodes: Vec<OptimizedOctreeNode>,
    free_indices: Vec<u32>,
}

impl View for OptimizedOctreeNodePool {
    type V = Seq<OptimizedOctreeNode>;

    /// Every slot, in use or free.
    closed spec fn view(&self) -> Seq<OptimizedOctreeNode> {
        self.nodes@
    }
}

impl OptimizedOctreeNodePool {
    /// The slots waiting to be reused, the next one to go last.
    pub closed spec fn free_list(&self) -> Seq<u32> {
        self.free_indices@
    }

    /// Every slot has a `u32` index, and every free index names a slot.
    pub closed spec fn wf(&self) -> bool {
        &&& self.nodes@.len() <= u32::MAX
        &&& forall|i: int|
            0 <= i < self.free_indices@.len() ==> #[trigger] self.free_indices@[i]
                < self.nodes@.len()
    }

    /// Every slot of a well-formed pool has a `u32` index.
    pub proof fn lemma_len_bound(&self)
        requires
            self.wf(),
        ensures
            self@.len() <= u32::MAX,
    {
    }

    pub fn new() -> (r: Self)
        ensures
            r.wf(),
            r@ == Seq::<OptimizedOctreeNode>::empty(),
            r.free_list() == Seq::<u32>::empty(),
    {
        OptimizedOctreeNodePool { nodes: Vec::new(), free_indices: Vec::new() }
    }

    /// An empty pool with room for `capacity` nodes.
    pub fn with_capacity(capacity: usize) -> (r: Self)
        ensures
            r.wf(),
            r@ == Seq::<OptimizedOctreeNode>::empty(),
            r.free_list() == Seq::<u32>::empty(),
    {
        OptimizedOctreeNodePool {
            nodes: Vec::with_capacity(capacity),
            free_indices: Vec::with_capacity(capacity / 4),
        }
    }

    /// Stores `node` in the most recently freed slot, or in a new slot at the
    /// end when none is free, and returns its index.
    pub fn allocate_node(&mut self, node: OptimizedOctreeNode) -> (r: u32)
        requires
            old(self).wf(),
            old(self).free_list().len() > 0 || old(self)@.len() < u32::MAX,
        ensures
            final(self).wf(),
            r < final(self)@.len(),
            final(self)@[r as int] == node,
            old(self).free_list().len() > 0 ==> {
                &&& r == old(self).free_list().last()
                &&& final(self).free_list() == old(self).free_list().drop_last()
                &&& final(self)@ == old(self)@.update(r as int, node)
            },
            old(self).free_list().len() == 0 ==> {
                &&& r == old(self)@.len()
                &&& final(self).free_list() == old(self).free_list()
                &&& final(self)@ == old(self)@.push(node)
            },
    {
        if let Some(index) = self.free_indices.pop() {
            proof {
                assert(old(self).free_indices@[old(self).free_indices@.len() - 1] == index);
            }
            self.nodes.set(index as usize, node);
            index
        } else {
            let index = self.nodes.len() as u32;
            self.nodes.push(node);
            index
        }
    }

    /// The node at `index`, or `None` when the index names no slot.
    pub fn get_node(&self, index: u32) -> (r: Option<&OptimizedOctreeNode>)
        ensures
            r.is_some() == (index < self@.len()),
            r.is_some() ==> *r.unwrap() == self@[index as int],
    {
        if (index as usize) < self.nodes.len() {
            Some(&self.nodes[index as usize])
        } else {
            None
        }
    }

    /// The node at `index` for changing in place, or `None` when the index
    /// names no slot. Whatever the caller leaves in the node is what the slot
    /// holds afterwards.
    pub fn get_node_mut(&mut self, index: u32) -> (r: Option<&mut OptimizedOctreeNode>)
        requires
            old(self).wf(),
        ensures
            r.is_some() == (index < old(self)@.len()),
            r matches Some(n) ==> {
                &&& *n == old(self)@[index as int]
                &&& final(self)@ == old(self)@.update(index as int, *final(n))
                &&& final(self).free_list() == old(self).free_list()
            },
            r is None ==> *final(self) == *old(self),
    {
        if (index as usize) < self.nodes.len() {
            Some(&mut self.nodes[index as usize])
        } else {
            None
        }
    }

    /// Returns a slot to the free list after dropping the bodies and child
    /// links of its node; an index that names no slot is ignored. Children
    /// are not freed.
    pub fn deallocate_node(&mut self, index: u32)
        requires
            old(self).wf(),
        ensures
            final(self).wf(),
            index < old(self)@.len() ==> {
                &&& final(self).free_list() == old(self).free_list().push(index)
                &&& final(self)@.len() == old(self)@.len()
                &&& forall|i: int|
                    0 <= i < old(self)@.len() && i != index ==> #[trigger] final(self)@[i]
                        == old(self)@[i]
                &&& final(self)@[index as int].bodies@.len() == 0
                &&& final(self)@[index as int].cold_data.children_indices@ == seq![None::<u32>; 8]
            },
            index >= old(self)@.len() ==> *final(self) == *old(self),
    {
        if (index as usize) < self.nodes.len() {
            self.nodes[index as usize].release();
            self.free_indices.push(index);
        }
    }

    /// Drops every node and every free slot; the storage is kept.
    pub fn clear(&mut self)
        ensures
            final(self).wf(),
            final(self)@ == Seq::<OptimizedOctreeNode>::empty(),
            final(self).free_list() == Seq::<u32>::empty(),
    {
        self.nodes.clear();
        self.free_indices.clear();
    }

    /// The number of slots and the number of free slots.
    pub fn stats(&self) -> (r: (usize, usize))
        ensures
            r.0 == self@.len(),
            r.1 == self.free_list().len(),
    {
        (self.nodes.len(), self.free_indices.len())
    }

    pub fn capacity(&self) -> usize {
        vec_capacity(&self.nodes)
    }

    pub fn len(&self) -> (r: usize)
        ensures
            r == self@.len(),
    {
        self.nodes.len()
    }

    pub fn is_empty(&self) -> (r: bool)
        ensures
            r == (self@.len() == 0),
    {
        self.nodes.len() == 0
    }
}

} // verus!
