//! A node of a best-first search over borrowed items.

use vstd::prelude::*;

verus! {

/// A search node: the item reached, the cost `g` of the path to it, the
/// estimate `h` of the cost that remains, and the item it was reached from.
pub struct PathfindingNode<'a, T> {
    node: &'a T,
    g: usize,
    h: usize,
    previous: &'a T,
}

impl<'a, T> PathfindingNode<'a, T> {
    pub closed spec fn spec_node(&self) -> T {
        *self.node
    }

    pub closed spec fn spec_g(&self) -> usize {
        self.g
    }

    pub closed spec fn spec_h(&self) -> usize {
        self.h
    }

    pub closed spec fn spec_previous(&self) -> T {
        *self.previous
    }

    pub fn new(node: &'a T, g: usize, h: usize, previous: &'a T) -> (created: Self)
        ensures
            created.spec_node() == *node,
            created.spec_g() == g,
            created.spec_h() == h,
            created.spec_previous() == *previous,
    {
        PathfindingNode { node, g, h, previous }
    }

    pub fn get_node(&self) -> (node: &'a T)
        ensures
            *node == self.spec_node(),
    {
        self.node
    }

    pub fn get_g(&self) -> (g: usize)
        ensures
            g == self.spec_g(),
    {
        self.g
    }

    pub fn get_h(&self) -> (h: usize)
        ensures
            h == self.spec_h(),
    {
        self.h
    }

    pub fn get_previous(&self) -> (previous: &'a T)
        ensures
            *previous == self.spec_previous(),
    {
        self.previous
    }
}

} // verus!
