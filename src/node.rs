use vstd::prelude::*;

verus! {

/// One registered element: its own id, the id of its parent, and its rank.
/// A node whose parent is itself is the representative of its set.
#[derive(Clone, Copy, Debug)]
pub struct Node {
    item: usize,
    parent: usize,
    rank: usize,
}

impl Node {
    /// The id this node stands for.
    pub closed spec fn item_spec(&self) -> usize {
        self.item
    }

    /// The id of this node's parent.
    pub closed spec fn parent_spec(&self) -> usize {
        self.parent
    }

    /// The rank of this node.
    pub closed spec fn rank_spec(&self) -> usize {
        self.rank
    }

    /// A fresh singleton: its own parent, with rank one.
    pub fn new(item: usize) -> (n: Self)
        ensures
            n.item_spec() == item,
            n.parent_spec() == item,
            n.rank_spec() == 1,
    {
        Node { item, parent: item, rank: 1 }
    }

    pub fn item(&self) -> (r: usize)
        ensures
            r == self.item_spec(),
    {
        self.item
    }

    pub fn parent(&self) -> (r: usize)
        ensures
            r == self.parent_spec(),
    {
        self.parent
    }

    pub fn set_parent(&mut self, parent: usize)
        ensures
            final(self).parent_spec() == parent,
            final(self).item_spec() == old(self).item_spec(),
            final(self).rank_spec() == old(self).rank_spec(),
    {
        self.parent = parent;
    }

    pub fn rank(&self) -> (r: usize)
        ensures
            r == self.rank_spec(),
    {
        self.rank
    }

    pub fn set_rank(&mut self, rank: usize)
        ensures
            final(self).rank_spec() == rank,
            final(self).item_spec() == old(self).item_spec(),
            final(self).parent_spec() == old(self).parent_spec(),
    {
        self.rank = rank;
    }

    pub fn is_representative(&self) -> (r: bool)
        ensures
            r == (self.parent_spec() == self.item_spec()),
    {
        self.item == self.parent
    }
}

impl AsRef<usize> for Node {
    fn as_ref(&self) -> (r: &usize)
        ensures
            *r == self.item_spec(),
    {
        &self.item
    }
}

} // verus!
