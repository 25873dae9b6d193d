//! The node store: the one owner of all nodes of a list.
//!
//! A node is known by its identity, the index of its slot. Links between
//! nodes are identities, never references, so a caller may hold any number
//! of them while it rewires one node at a time.

use vstd::prelude::*;

verus! {

/// A stored node: an element and, for each level the node takes part in,
/// the identity of the next node at that level.
struct Node<T> {
    elem: T,
    next: Vec<Option<usize>>,
}

/// What a node holds, as plain values.
pub struct NodeView<T> {
    pub elem: T,
    pub next: Seq<Option<usize>>,
}

impl<T> View for Node<T> {
    type V = NodeView<T>;

    closed spec fn view(&self) -> NodeView<T> {
        NodeView { elem: self.elem, next: self.next@ }
    }
}

/// An arena of nodes. Slots of freed nodes are kept in `free` and used
/// again before the arena grows.
pub struct NodeStore<T> {
    slots: Vec<Option<Node<T>>>,
    free: Vec<usize>,
    live: usize,
}

impl<T> View for NodeStore<T> {
    type V = Map<usize, NodeView<T>>;

    /// The live nodes by identity.
    closed spec fn view(&self) -> Map<usize, NodeView<T>> {
        Map::new(
            |id: usize| id < self.slots@.len() && self.slots@[id as int].is_some(),
            |id: usize| self.slots@[id as int].unwrap()@,
        )
    }
}

impl<T> NodeStore<T> {
    /// The free list names empty slots, each once, and the count of live
    /// nodes is right.
    pub closed spec fn wf(&self) -> bool {
        &&& self.free@.no_duplicates()
        &&& forall|j: int|
            0 <= j < self.free@.len() ==> (#[trigger] self.free@[j]) < self.slots@.len()
                && self.slots@[self.free@[j] as int].is_none()
        &&& self.live + self.free@.len() == self.slots@.len()
        &&& self@.dom().finite()
        &&& self@.dom().len() == self.live
    }

    /// An empty store.
    pub fn new() -> (s: Self)
        ensures
            s.wf(),
            s@ == Map::<usize, NodeView<T>>::empty(),
    {
        let s = NodeStore { slots: Vec::new(), free: Vec::new(), live: 0 };
        assert(s@ =~= Map::<usize, NodeView<T>>::empty());
        s
    }

    /// The number of live nodes.
    pub fn len(&self) -> (n: usize)
        requires
            self.wf(),
        ensures
            n == self@.dom().len(),
    {
        self.live
    }

    /// Stores a new node that holds `elem` and has `height` levels, none of
    /// them linked yet, and returns its identity, which no live node has.
    pub fn allocate(&mut self, elem: T, height: usize) -> (id: usize)
        requires
            old(self).wf(),
        ensures
            final(self).wf(),
            !old(self)@.dom().contains(id),
            final(self)@ == old(self)@.insert(
                id,
                NodeView { elem, next: Seq::new(height as nat, |i: int| None::<usize>) },
            ),
    {
        let mut next: Vec<Option<usize>> = Vec::new();
        while next.len() < height
            invariant
                next@.len() <= height,
                forall|i: int| 0 <= i < next@.len() ==> next@[i].is_none(),
            decreases height - next@.len(),
        {
            next.push(None);
        }
        assert(next@ =~= Seq::new(height as nat, |i: int| None::<usize>));
        let node = Node { elem, next };
        let id = match self.free.pop() {
            Some(id) => {
                self.slots[id] = Some(node);
                id
            },
            None => {
                self.slots.push(Some(node));
                self.slots.len() - 1
            },
        };
        assert(self.slots@.len() == self.slots.len());
        self.live = self.live + 1;
        proof {
            assert(self@ =~= old(self)@.insert(id, node@));
            assert forall|j: int| 0 <= j < self.free@.len() implies (#[trigger] self.free@[j])
                < self.slots@.len() && self.slots@[self.free@[j] as int].is_none() by {
                assert(self.free@[j] == old(self).free@[j]);
            }
        }
        id
    }

    /// The element of node `id`.
    pub fn elem(&self, id: usize) -> (e: &T)
        requires
            self.wf(),
            self@.dom().contains(id),
        ensures
            *e == self@[id].elem,
    {
        &self.slots[id].as_ref().unwrap().elem
    }

    /// The number of levels of node `id`.
    pub fn height(&self, id: usize) -> (h: usize)
        requires
            self.wf(),
            self@.dom().contains(id),
        ensures
            h == self@[id].next.len(),
    {
        self.slots[id].as_ref().unwrap().next.len()
    }

    /// The link of node `id` at `level`.
    pub fn next(&self, id: usize, level: usize) -> (link: Option<usize>)
        requires
            self.wf(),
            self@.dom().contains(id),
            level < self@[id].next.len(),
        ensures
            link == self@[id].next[level as int],
    {
        self.slots[id].as_ref().unwrap().next[level]
    }

    /// Sets the link of node `id` at `level`.
    pub fn set_next(&mut self, id: usize, level: usize, link: Option<usize>)
        requires
            old(self).wf(),
            old(self)@.dom().contains(id),
            level < old(self)@[id].next.len(),
        ensures
            final(self).wf(),
            final(self)@ == old(self)@.insert(
                id,
                NodeView {
                    elem: old(self)@[id].elem,
                    next: old(self)@[id].next.update(level as int, link),
                },
            ),
    {
        match &mut self.slots[id] {
            Some(node) => {
                node.next[level] = link;
            },
            None => {},
        }
        proof {
            assert(self@ =~= old(self)@.insert(
                id,
                NodeView {
                    elem: old(self)@[id].elem,
                    next: old(self)@[id].next.update(level as int, link),
                },
            ));
        }
    }

    /// Frees node `id`: its identity is live no more.
    pub fn release(&mut self, id: usize)
        requires
            old(self).wf(),
            old(self)@.dom().contains(id),
        ensures
            final(self).wf(),
            final(self)@ == old(self)@.remove(id),
    {
        self.slots[id] = None;
        self.free.push(id);
        self.live = self.live - 1;
        proof {
            assert(self@ =~= old(self)@.remove(id));
        }
    }

    /// Frees every node.
    pub fn clear(&mut self)
        requires
            old(self).wf(),
        ensures
            final(self).wf(),
            final(self)@ == Map::<usize, NodeView<T>>::empty(),
    {
        self.slots.clear();
        self.free.clear();
        self.live = 0;
        proof {
            assert(self@ =~= Map::<usize, NodeView<T>>::empty());
        }
    }
}

} // verus!
