use crate::graph::{ForwardBackwardRoutingGraph, GraphError, LinkIndex, NodeIndex};
use vstd::prelude::*;

verus! {

broadcast use vstd::std_specs::hash::group_hash_axioms;

/// The start node of the link with forward index `e`, read from the backward graph.
pub open spec fn start_of(g: &ForwardBackwardRoutingGraph, e: int) -> int {
    g.backward_graph.head@[g.backward_of(e)] as int
}

/// Following the parent links from `node` reaches a node without parent within `fuel` steps,
/// and every parent link on the way is a link of the graph.
pub open spec fn terminates(
    g: &ForwardBackwardRoutingGraph,
    parents: Seq<Option<LinkIndex>>,
    node: int,
    fuel: nat,
) -> bool
    decreases fuel,
{
    match parents[node] {
        None => true,
        Some(e) => fuel > 0 && e < g.m() && terminates(g, parents, start_of(g, e as int), (fuel - 1) as nat),
    }
}

/// The ids of the parent links met when following the parents from `node`, last link first
/// reversed: the path of links that ends at `node`.
pub open spec fn link_chain(
    g: &ForwardBackwardRoutingGraph,
    parents: Seq<Option<LinkIndex>>,
    node: int,
    fuel: nat,
) -> Seq<u64>
    decreases fuel,
{
    match parents[node] {
        None => Seq::empty(),
        Some(e) => if fuel > 0 {
            link_chain(g, parents, start_of(g, e as int), (fuel - 1) as nat).push(
                g.forward_link_id_by_index@[e as int],
            )
        } else {
            Seq::empty()
        },
    }
}

/// The id of the start node of the link with the given id, in a consistent graph.
pub open spec fn start_node_of(g: &ForwardBackwardRoutingGraph, link: u64) -> u64 {
    g.node_id_by_index@[g.backward_graph.head@[g.backward_link_index_by_id@[link] as int] as int]
}

/// The id of the end node of the link with the given id.
pub open spec fn end_node_of(g: &ForwardBackwardRoutingGraph, link: u64) -> u64 {
    g.node_id_by_index@[g.forward_graph.head@[g.forward_link_index_by_id@[link] as int] as int]
}

/// The path connects the links: it starts at the end node of `from_link` and ends at the start
/// node of `to_link`; an empty path fits when that end node is that start node.
pub open spec fn path_fits(g: &ForwardBackwardRoutingGraph, path: Seq<u64>, from_link: u64, to_link: u64) -> bool {
    if path.len() == 0 {
        end_node_of(g, from_link) == start_node_of(g, to_link)
    } else {
        start_node_of(g, path[0]) == end_node_of(g, from_link) && end_node_of(g, path.last())
            == start_node_of(g, to_link)
    }
}

/// Checks that the path starts at the end node of `from_link` and ends at the start node of
/// `to_link`.
pub fn verify_path(
    graph: &ForwardBackwardRoutingGraph,
    path: &Vec<u64>,
    from_link: u64,
    to_link: u64,
) -> (r: Result<bool, GraphError>)
    requires
        graph.consistent(),
        graph.forward_link_index_by_id@.contains_key(to_link),
        forall|k: int| 0 <= k < path@.len() ==> graph.forward_link_index_by_id@.contains_key(#[trigger] path@[k]),
    ensures
        !graph.forward_link_index_by_id@.contains_key(from_link) ==> r == Err::<bool, GraphError>(
            GraphError::LinkIdNotFound(from_link),
        ),
        graph.forward_link_index_by_id@.contains_key(from_link) ==> r == Ok::<bool, GraphError>(
            path_fits(graph, path@, from_link, to_link),
        ),
{
    let end_node_of_from_link = graph.get_end_node(from_link)?;
    let start_node_of_to_link = graph.get_start_node(to_link)?;
    if path.len() == 0 {
        return Ok(end_node_of_from_link == start_node_of_to_link);
    }
    let last_index = path.len() - 1;
    let first_node_of_path = graph.get_start_node(path[0])?;
    let last_node_of_path = graph.get_end_node(path[last_index])?;
    Ok(first_node_of_path == end_node_of_from_link && last_node_of_path == start_node_of_to_link)
}


/// Follows the parent links back from the start node of `to_link`, collecting the links in
/// path order, and checks that the path leads from `from_link` to `to_link`: `Ok(None)` when it
/// does not.
pub fn extract_link_path(
    graph: &ForwardBackwardRoutingGraph,
    to_link: u64,
    from_link: u64,
    parent_links: Vec<Option<LinkIndex>>,
) -> (r: Result<Option<Vec<u64>>, GraphError>)
    requires
        graph.consistent(),
        parent_links@.len() == graph.n(),
        graph.forward_link_index_by_id@.contains_key(to_link) ==> terminates(
            graph,
            parent_links@,
            graph.node_index_by_id@[start_node_of(graph, to_link)] as int,
            graph.n(),
        ),
    ensures
        !graph.forward_link_index_by_id@.contains_key(to_link) ==> r == Err::<Option<Vec<u64>>, GraphError>(
            GraphError::LinkIdNotFound(to_link),
        ),
        graph.forward_link_index_by_id@.contains_key(to_link) && !graph.forward_link_index_by_id@.contains_key(from_link)
            ==> r == Err::<Option<Vec<u64>>, GraphError>(GraphError::LinkIdNotFound(from_link)),
        graph.forward_link_index_by_id@.contains_key(to_link) && graph.forward_link_index_by_id@.contains_key(from_link)
            ==> {
            let path = link_chain(
                graph,
                parent_links@,
                graph.node_index_by_id@[start_node_of(graph, to_link)] as int,
                graph.n(),
            );
            &&& path_fits(graph, path, from_link, to_link) ==> (r matches Ok(Some(p)) && p@ == path)
            &&& !path_fits(graph, path, from_link, to_link) ==> (r matches Ok(None))
        },
{
    let to_node_id = graph.get_start_node(to_link)?;
    proof {
        let h = graph.backward_graph.head@[graph.backward_link_index_by_id@[to_link] as int];
        assert(graph.backward_link_index_by_id@[to_link] < graph.m());
        assert(h < graph.n());
        assert(graph.node_index_by_id@.contains_key(graph.node_id_by_index@[h as int]));
    }
    let to_node_idx = graph.get_node_idx_from_id(to_node_id);
    let ghost start = to_node_idx as int;
    let ghost total = graph.n();

    let mut reversed: Vec<u64> = Vec::new();
    let mut current_node: NodeIndex = to_node_idx;
    let ghost mut fuel: nat = total;
    loop
        invariant
            graph.consistent(),
            parent_links@.len() == graph.n(),
            0 <= current_node < graph.n(),
            terminates(graph, parent_links@, current_node as int, fuel),
            fuel <= total,
            link_chain(graph, parent_links@, start, total) == link_chain(
                graph,
                parent_links@,
                current_node as int,
                fuel,
            ) + reversed@.reverse(),
            forall|k: int| 0 <= k < reversed@.len() ==> graph.forward_link_index_by_id@.contains_key(#[trigger] reversed@[k]),
        ensures
            parent_links@[current_node as int] is None,
        decreases fuel,
    {
        match parent_links[current_node] {
            None => {
                break ;
            },
            Some(parent_link) => {
                let ghost rev0 = reversed@;
                let id = graph.get_link_id_from_idx(parent_link)?;
                let next = graph.get_start_node_as_idx(parent_link)?;
                proof {
                    assert(graph.backward_link_index_by_id@.contains_key(
                        graph.forward_link_id_by_index@[parent_link as int],
                    ));
                    assert(graph.forward_link_index_by_id@.contains_key(id));
                    assert(rev0.push(id).reverse() =~= seq![id] + rev0.reverse());
                    assert(link_chain(graph, parent_links@, current_node as int, fuel) == link_chain(
                        graph,
                        parent_links@,
                        next as int,
                        (fuel - 1) as nat,
                    ).push(id));
                    assert(link_chain(graph, parent_links@, next as int, (fuel - 1) as nat).push(id)
                        + rev0.reverse() =~= link_chain(graph, parent_links@, next as int, (fuel - 1) as nat)
                        + rev0.push(id).reverse());
                    fuel = (fuel - 1) as nat;
                }
                reversed.push(id);
                current_node = next;
            },
        }
    }
    let mut link_path: Vec<u64> = Vec::new();
    let mut k: usize = reversed.len();
    while k > 0
        invariant
            k <= reversed@.len(),
            link_path@ == reversed@.subrange(k as int, reversed@.len() as int).reverse(),
        decreases k,
    {
        k = k - 1;
        link_path.push(reversed[k]);
        proof {
            assert(reversed@.subrange(k as int, reversed@.len() as int).reverse() =~= reversed@.subrange(
                k + 1,
                reversed@.len() as int,
            ).reverse().push(reversed@[k as int]));
        }
    }
    proof {
        assert(reversed@.subrange(0, reversed@.len() as int) =~= reversed@);
        assert(link_chain(graph, parent_links@, current_node as int, fuel) =~= Seq::<u64>::empty());
        assert(link_path@ =~= link_chain(graph, parent_links@, start, total));
        assert forall|k: int| 0 <= k < link_path@.len() implies graph.forward_link_index_by_id@.contains_key(
            #[trigger] link_path@[k],
        ) by {
            assert(link_path@[k] == reversed@[reversed@.len() - 1 - k]);
        }
    }

    if !verify_path(graph, &link_path, from_link, to_link)? {
        return Ok(None);
    }
    Ok(Some(link_path))
}

/// Every parent link of a node ends at that node: the parent links are those through which a
/// search reached the nodes.
pub open spec fn parents_consistent(g: &ForwardBackwardRoutingGraph, parents: Seq<Option<LinkIndex>>) -> bool {
    forall|v: int|
        0 <= v < parents.len() && (#[trigger] parents[v]) is Some ==> parents[v]->0 < g.m()
            && g.forward_graph.head@[parents[v]->0 as int] == v
}

/// Following parent links that end at their nodes yields a connected path: each link of the
/// chain ends where the next one starts, and the last one ends at the node the chain leads to.
pub proof fn lemma_link_chain_connected(
    g: &ForwardBackwardRoutingGraph,
    parents: Seq<Option<LinkIndex>>,
    node: int,
    fuel: nat,
)
    requires
        g.consistent(),
        parents.len() == g.n(),
        0 <= node < g.n(),
        parents_consistent(g, parents),
        terminates(g, parents, node, fuel),
    ensures
        forall|k: int|
            0 <= k < link_chain(g, parents, node, fuel).len() - 1 ==> end_node_of(
                g,
                #[trigger] link_chain(g, parents, node, fuel)[k],
            ) == start_node_of(g, link_chain(g, parents, node, fuel)[k + 1]),
        link_chain(g, parents, node, fuel).len() > 0 ==> end_node_of(
            g,
            link_chain(g, parents, node, fuel).last(),
        ) == g.node_id_by_index@[node],
    decreases fuel,
{
    match parents[node] {
        None => {},
        Some(e) => {
            let prev = start_of(g, e as int);
            let id = g.forward_link_id_by_index@[e as int];
            assert(g.forward_link_index_by_id@.contains_key(id));
            assert(g.forward_link_index_by_id@[id] == e);
            assert(end_node_of(g, id) == g.node_id_by_index@[node]);
            assert(g.backward_link_index_by_id@.contains_key(id));
            assert(g.backward_of(e as int) < g.m());
            assert(0 <= prev < g.n());
            lemma_link_chain_connected(g, parents, prev, (fuel - 1) as nat);
            let c0 = link_chain(g, parents, prev, (fuel - 1) as nat);
            let c = link_chain(g, parents, node, fuel);
            assert(c == c0.push(id));
            assert(start_node_of(g, id) == g.node_id_by_index@[prev]);
            assert forall|k: int| 0 <= k < c.len() - 1 implies end_node_of(g, #[trigger] c[k])
                == start_node_of(g, c[k + 1]) by {
                if k < c0.len() - 1 {
                    assert(c[k] == c0[k] && c[k + 1] == c0[k + 1]);
                } else {
                    assert(c[k] == c0.last());
                    assert(c[k + 1] == id);
                }
            }
        },
    }
}

} // verus!
