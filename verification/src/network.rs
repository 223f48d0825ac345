use std::collections::HashMap;
use vstd::prelude::*;

verus! {

/// A node of the road network as the routing code sees it: its id and the ids of the links
/// that enter and leave it.
#[derive(Debug)]
pub struct NetworkNode {
    pub id: u64,
    pub in_links: Vec<u64>,
    pub out_links: Vec<u64>,
}

/// A link of the road network as the routing code sees it: its id, the ids of the nodes it
/// connects and the ids of the modes allowed on it.
#[derive(Debug)]
pub struct NetworkLink {
    pub id: u64,
    pub from: u64,
    pub to: u64,
    pub modes: Vec<u64>,
}

impl Clone for NetworkNode {
    fn clone(&self) -> (r: Self)
        ensures
            r.id == self.id,
            r.in_links@ == self.in_links@,
            r.out_links@ == self.out_links@,
    {
        NetworkNode {
            id: self.id,
            in_links: copy_ids(&self.in_links),
            out_links: copy_ids(&self.out_links),
        }
    }
}

impl Clone for NetworkLink {
    fn clone(&self) -> (r: Self)
        ensures
            r.id == self.id,
            r.from == self.from,
            r.to == self.to,
            r.modes@ == self.modes@,
    {
        NetworkLink { id: self.id, from: self.from, to: self.to, modes: copy_ids(&self.modes) }
    }
}

/// Copies a list of ids element by element.
pub fn copy_ids(ids: &Vec<u64>) -> (r: Vec<u64>)
    ensures
        r@ == ids@,
{
    let mut r: Vec<u64> = Vec::new();
    let mut i: usize = 0;
    while i < ids.len()
        invariant
            i <= ids.len(),
            r@ == ids@.subrange(0, i as int),
        decreases ids.len() - i,
    {
        r.push(ids[i]);
        i = i + 1;
        proof {
            assert(r@ =~= ids@.subrange(0, i as int));
        }
    }
    proof {
        assert(r@ =~= ids@);
    }
    r
}

impl NetworkLink {
    /// Whether the link allows the given mode.
    pub fn contains_mode(&self, mode: u64) -> (r: bool)
        ensures
            r == self.modes@.contains(mode),
    {
        let mut i: usize = 0;
        while i < self.modes.len()
            invariant
                i <= self.modes.len(),
                forall|k: int| 0 <= k < i ==> self.modes@[k] != mode,
            decreases self.modes.len() - i,
        {
            if self.modes[i] == mode {
                return true;
            }
            i = i + 1;
        }
        false
    }
}

/// The road network: its nodes, kept in ascending order of their ids, and its links by id.
pub struct Network {
    pub nodes: Vec<NetworkNode>,
    pub links: HashMap<u64, NetworkLink>,
}

impl Network {
    /// The nodes are in strictly ascending order of their ids, and every link is stored under
    /// its own id.
    pub open spec fn wf(&self) -> bool {
        &&& forall|i: int, j: int|
            0 <= i < j < self.nodes@.len() ==> self.nodes@[i].id < self.nodes@[j].id
        &&& forall|k: u64| #[trigger]
            self.links@.contains_key(k) ==> self.links@[k].id == k
    }

    /// The link with the given id.
    pub fn get_link(&self, id: u64) -> (r: &NetworkLink)
        requires
            self.links@.contains_key(id),
        ensures
            *r == self.links@[id],
    {
        self.links.get(&id).unwrap()
    }

    /// All nodes of the network, in ascending order of their ids.
    pub fn get_all_nodes_sorted(&self) -> (r: &Vec<NetworkNode>)
        ensures
            r@ == self.nodes@,
    {
        &self.nodes
    }
}

} // verus!
