use crate::graph::{LinkIndex, NodeIndex};
use vstd::prelude::*;

verus! {

/// The shortest-path search shared by the landmark preprocessing and the A* router. Its search
/// loop works on floating-point distances and runs outside this library; the bookkeeping it
/// relies on is below.
#[derive(Debug, Clone, Copy)]
pub struct Dijkstra {}

/// The bookkeeping of a one-to-one search: the target node and, for every node reached so far,
/// the link through which it was reached (its parent link), which is what the path extraction
/// reads.
#[derive(Debug, Clone)]
pub struct AltOptions {
    pub to_node: NodeIndex,
    pub parents: Vec<Option<LinkIndex>>,
}

impl AltOptions {
    /// Bookkeeping for a search towards `to_node`, starting from the given parent links.
    pub fn new(to_node: NodeIndex, parents: Vec<Option<LinkIndex>>) -> (r: Self)
        ensures
            r.to_node == to_node,
            r.parents@ == parents@,
    {
        AltOptions { to_node, parents }
    }

    /// Whether the search has reached its target.
    pub fn reached_end(&self, current_node: NodeIndex) -> (r: bool)
        ensures
            r == (current_node == self.to_node),
    {
        self.to_node == current_node
    }

    /// Records that `child` was reached through the link `parent_link`.
    pub fn set_parent_opt(&mut self, child: NodeIndex, parent_link: LinkIndex)
        requires
            child < old(self).parents@.len(),
        ensures
            final(self).to_node == old(self).to_node,
            final(self).parents@ == old(self).parents@.update(child as int, Some(parent_link)),
    {
        self.parents.set(child, Some(parent_link));
    }

    /// The parent links that the search recorded, for the path extraction.
    pub fn build_result(self) -> (r: Vec<Option<LinkIndex>>)
        ensures
            r@ == self.parents@,
    {
        self.parents
    }

    /// The target of the search.
    pub fn get_to_node_opt(&self) -> (r: Option<NodeIndex>)
        ensures
            r == Some(self.to_node),
    {
        Some(self.to_node)
    }
}

} // verus!
