use crate::graph::{lemma_edge_source, CsrGraph, ForwardBackwardRoutingGraph, LinkIndex, NodeIndex};
use crate::network::{Network, NetworkLink, NetworkNode};
use itertools::Itertools;
use std::collections::HashMap;
use vstd::prelude::*;
use vstd::relations::{sorted_by, total_ordering};

verus! {

broadcast use vstd::std_specs::hash::group_hash_axioms;

/// The order `<=` on ids.
pub open spec fn id_le(a: u64, b: u64) -> bool {
    a <= b
}

/// The ids in ascending order.
pub open spec fn ascending(ids: Seq<u64>) -> Seq<u64> {
    ids.sort_by(|a: u64, b: u64| id_le(a, b))
}

/// Link `l` may be used for the mode: every link when no mode is given, else only the links
/// that allow the mode.
pub open spec fn allows(net: &Network, l: u64, mode: Option<u64>) -> bool {
    match mode {
        None => true,
        Some(m) => net.links@[l].modes@.contains(m),
    }
}

/// The ids of `ids`, in their order, that the mode may use.
pub open spec fn keep_allowed(net: &Network, ids: Seq<u64>, mode: Option<u64>) -> Seq<u64>
    decreases ids.len(),
{
    if ids.len() == 0 {
        Seq::empty()
    } else {
        let rest = keep_allowed(net, ids.drop_last(), mode);
        if allows(net, ids.last(), mode) {
            rest.push(ids.last())
        } else {
            rest
        }
    }
}

/// The links among `ids` that the mode may use, in ascending order of their ids.
pub open spec fn selected(net: &Network, ids: Seq<u64>, mode: Option<u64>) -> Seq<u64> {
    keep_allowed(net, ascending(ids), mode)
}

/// The selected outgoing links of the `i`-th node.
pub open spec fn out_sel(net: &Network, mode: Option<u64>, i: int) -> Seq<u64> {
    selected(net, net.nodes@[i].out_links@, mode)
}

/// The selected incoming links of the `i`-th node.
pub open spec fn in_sel(net: &Network, mode: Option<u64>, i: int) -> Seq<u64> {
    selected(net, net.nodes@[i].in_links@, mode)
}

/// The selected outgoing links of the first `k` nodes, one node after the other.
pub open spec fn out_flat(net: &Network, mode: Option<u64>, k: int) -> Seq<u64>
    decreases k,
{
    if k <= 0 {
        Seq::empty()
    } else {
        out_flat(net, mode, k - 1) + out_sel(net, mode, k - 1)
    }
}

/// The selected incoming links of the first `k` nodes, one node after the other.
pub open spec fn in_flat(net: &Network, mode: Option<u64>, k: int) -> Seq<u64>
    decreases k,
{
    if k <= 0 {
        Seq::empty()
    } else {
        in_flat(net, mode, k - 1) + in_sel(net, mode, k - 1)
    }
}

/// The map that sends each id to the position of its last occurrence in `ids`.
pub open spec fn index_map(ids: Seq<u64>) -> Map<u64, usize>
    decreases ids.len(),
{
    if ids.len() == 0 {
        Map::empty()
    } else {
        index_map(ids.drop_last()).insert(ids.last(), (ids.len() - 1) as usize)
    }
}

/// The ids of the network's nodes, in order.
pub open spec fn node_ids(net: &Network) -> Seq<u64> {
    net.nodes@.map_values(|n: NetworkNode| n.id)
}

/// What the conversion needs of the network: every link that a node names exists, and every
/// link that the mode may use starts and ends at a node of the network.
pub open spec fn convertible(net: &Network, mode: Option<u64>) -> bool {
    &&& net.wf()
    &&& forall|i: int, k: int|
        #![trigger net.nodes@[i].out_links@[k]]
        0 <= i < net.nodes@.len() && 0 <= k < net.nodes@[i].out_links@.len()
            ==> net.links@.contains_key(net.nodes@[i].out_links@[k])
    &&& forall|i: int, k: int|
        #![trigger net.nodes@[i].in_links@[k]]
        0 <= i < net.nodes@.len() && 0 <= k < net.nodes@[i].in_links@.len()
            ==> net.links@.contains_key(net.nodes@[i].in_links@[k])
    &&& forall|l: u64|
        #![trigger net.links@[l]]
        net.links@.contains_key(l) && allows(net, l, mode) ==> node_ids(net).contains(
            net.links@[l].to,
        ) && node_ids(net).contains(net.links@[l].from)
    &&& out_flat(net, mode, net.nodes@.len() as int).len() == in_flat(
        net,
        mode,
        net.nodes@.len() as int,
    ).len()
    &&& out_flat(net, mode, net.nodes@.len() as int).len() <= usize::MAX
    &&& net.nodes@.len() < usize::MAX
}

/// `g` is the graph that the conversion builds from the network for the mode: the nodes in the
/// network's order; for each node its selected outgoing (forward) and incoming (backward) links
/// in ascending order of their ids; each forward head the index of the link's end node and each
/// backward head the index of the link's start node; and the maps from ids to the positions
/// of their last occurrence.
pub open spec fn is_conversion(net: &Network, mode: Option<u64>, g: &ForwardBackwardRoutingGraph) -> bool {
    let n = net.nodes@.len() as int;
    &&& g.node_id_by_index@ == node_ids(net)
    &&& g.node_index_by_id@ == index_map(node_ids(net))
    &&& g.forward_link_id_by_index@ == out_flat(net, mode, n)
    &&& g.backward_link_id_by_index@ == in_flat(net, mode, n)
    &&& g.forward_link_index_by_id@ == index_map(out_flat(net, mode, n))
    &&& g.backward_link_index_by_id@ == index_map(in_flat(net, mode, n))
    &&& g.forward_graph.first_out@.len() == n + 1
    &&& g.backward_graph.first_out@.len() == n + 1
    &&& forall|i: int| 0 <= i <= n ==> #[trigger] g.forward_graph.first_out@[i] == out_flat(net, mode, i).len()
    &&& forall|i: int| 0 <= i <= n ==> #[trigger] g.backward_graph.first_out@[i] == in_flat(net, mode, i).len()
    &&& g.forward_graph.head@.len() == g.forward_link_id_by_index@.len()
    &&& g.backward_graph.head@.len() == g.backward_link_id_by_index@.len()
    &&& forall|j: int|
        0 <= j < g.forward_graph.head@.len() ==> #[trigger] g.forward_graph.head@[j]
            == g.node_index_by_id@[net.links@[g.forward_link_id_by_index@[j]].to]
    &&& forall|j: int|
        0 <= j < g.backward_graph.head@.len() ==> #[trigger] g.backward_graph.head@[j]
            == g.node_index_by_id@[net.links@[g.backward_link_id_by_index@[j]].from]
    &&& g.link_by_link_id@ == net.links@
    &&& g.node_by_node_id@.dom() == node_ids(net).to_set()
    &&& forall|i: int|
        0 <= i < n ==> {
            let nd = #[trigger] g.node_by_node_id@[net.nodes@[i].id];
            &&& nd.id == net.nodes@[i].id
            &&& nd.in_links@ == net.nodes@[i].in_links@
            &&& nd.out_links@ == net.nodes@[i].out_links@
        }
}

/// Calls `Itertools::sorted_by_key` with the id itself as the key. The crate collects the items
/// and sorts them with the standard library's `sort_by_key`, so the result holds the same ids,
/// as often as before, in ascending order.
#[verifier::external_body]
fn sorted_link_ids(ids: &[u64]) -> (r: Vec<u64>)
    ensures
        r@.to_multiset() == ids@.to_multiset(),
        sorted_by(r@, |a: u64, b: u64| id_le(a, b)),
{
    ids.iter().copied().sorted_by_key(|l| *l).collect()
}

proof fn lemma_id_le_total()
    ensures
        total_ordering(|a: u64, b: u64| id_le(a, b)),
{
}

/// The links among `link_ids` that the mode may use, in ascending order of their ids.
fn get_links<'net>(link_ids: &[u64], network: &'net Network, mode: Option<u64>) -> (r: Vec<
    &'net NetworkLink,
>)
    requires
        network.wf(),
        forall|k: int| 0 <= k < link_ids@.len() ==> network.links@.contains_key(#[trigger] link_ids@[k]),
    ensures
        r@.len() == selected(network, link_ids@, mode).len(),
        forall|k: int|
            0 <= k < r@.len() ==> *(#[trigger] r@[k]) == network.links@[selected(network, link_ids@, mode)[k]],
{
    let sorted = sorted_link_ids(link_ids);
    proof {
        let leq = |a: u64, b: u64| id_le(a, b);
        lemma_id_le_total();
        link_ids@.lemma_sort_by_ensures(leq);
        vstd::seq_lib::lemma_sorted_unique(sorted@, ascending(link_ids@), leq);
        assert forall|k: int| 0 <= k < sorted@.len() implies network.links@.contains_key(
            #[trigger] sorted@[k],
        ) by {
            broadcast use vstd::seq_lib::group_to_multiset_ensures;
            assert(sorted@.to_multiset().count(sorted@[k]) > 0);
            assert(link_ids@.contains(sorted@[k]));
        }
    }
    let mut r: Vec<&'net NetworkLink> = Vec::new();
    let mut i: usize = 0;
    while i < sorted.len()
        invariant
            network.wf(),
            sorted@ == ascending(link_ids@),
            forall|k: int| 0 <= k < sorted@.len() ==> network.links@.contains_key(#[trigger] sorted@[k]),
            i <= sorted@.len(),
            r@.len() == keep_allowed(network, sorted@.subrange(0, i as int), mode).len(),
            forall|k: int|
                0 <= k < r@.len() ==> *(#[trigger] r@[k]) == network.links@[keep_allowed(
                    network,
                    sorted@.subrange(0, i as int),
                    mode,
                )[k]],
        decreases sorted.len() - i,
    {
        let id = sorted[i];
        let link = network.links.get(&id).unwrap();
        let keep = match mode {
            Some(m) => link.contains_mode(m),
            None => true,
        };
        proof {
            assert(sorted@.subrange(0, i + 1).drop_last() =~= sorted@.subrange(0, i as int));
        }
        if keep {
            r.push(link);
        }
        i = i + 1;
    }
    proof {
        assert(sorted@.subrange(0, sorted@.len() as int) =~= sorted@);
    }
    r
}


/// Every kept id is allowed for the mode and occurs in the input, and no more ids are kept
/// than there were.
pub proof fn lemma_keep_allowed(net: &Network, ids: Seq<u64>, mode: Option<u64>)
    ensures
        keep_allowed(net, ids, mode).len() <= ids.len(),
        forall|k: int|
            0 <= k < keep_allowed(net, ids, mode).len() ==> allows(
                net,
                #[trigger] keep_allowed(net, ids, mode)[k],
                mode,
            ) && ids.contains(keep_allowed(net, ids, mode)[k]),
    decreases ids.len(),
{
    if ids.len() > 0 {
        lemma_keep_allowed(net, ids.drop_last(), mode);
        let rest = keep_allowed(net, ids.drop_last(), mode);
        assert forall|k: int| 0 <= k < rest.len() implies ids.contains(#[trigger] rest[k]) by {
            let w = choose|w: int| 0 <= w < ids.drop_last().len() && ids.drop_last()[w] == rest[k];
            assert(ids[w] == rest[k]);
        }
        assert(ids[ids.len() - 1] == ids.last());
    }
}

/// The selected links are allowed for the mode and are among the given ids.
pub proof fn lemma_selected(net: &Network, ids: Seq<u64>, mode: Option<u64>)
    ensures
        forall|k: int|
            0 <= k < selected(net, ids, mode).len() ==> allows(
                net,
                #[trigger] selected(net, ids, mode)[k],
                mode,
            ) && ids.contains(selected(net, ids, mode)[k]),
{
    lemma_id_le_total();
    ids.lemma_sort_by_ensures(|a: u64, b: u64| id_le(a, b));
    lemma_keep_allowed(net, ascending(ids), mode);
    assert forall|k: int| 0 <= k < selected(net, ids, mode).len() implies ids.contains(
        #[trigger] selected(net, ids, mode)[k],
    ) by {
        broadcast use vstd::seq_lib::group_to_multiset_ensures;
        let x = selected(net, ids, mode)[k];
        assert(ascending(ids).contains(x));
        assert(ascending(ids).to_multiset().count(x) > 0);
    }
}

/// The ids that `index_map` holds are those of the sequence, each stored at a position where it
/// occurs.
pub proof fn lemma_index_map(ids: Seq<u64>)
    requires
        ids.len() <= usize::MAX,
    ensures
        forall|x: u64| #[trigger] index_map(ids).contains_key(x) <==> ids.contains(x),
        forall|x: u64|
            #[trigger] index_map(ids).contains_key(x) ==> index_map(ids)[x] < ids.len() && ids[index_map(
                ids,
            )[x] as int] == x,
    decreases ids.len(),
{
    if ids.len() > 0 {
        let dl = ids.drop_last();
        let last = ids.last();
        lemma_index_map(dl);
        assert(index_map(ids) == index_map(dl).insert(last, (ids.len() - 1) as usize));
        assert(ids[ids.len() - 1] == last);
        assert forall|x: u64| #[trigger] index_map(ids).contains_key(x) <==> ids.contains(x) by {
            if ids.contains(x) && x != last {
                let w = choose|w: int| 0 <= w < ids.len() && ids[w] == x;
                assert(w < ids.len() - 1);
                assert(dl[w] == x);
                assert(dl.contains(x));
            }
            if dl.contains(x) {
                let w = choose|w: int| 0 <= w < dl.len() && dl[w] == x;
                assert(ids[w] == x);
            }
        }
        assert forall|x: u64| #[trigger] index_map(ids).contains_key(x) implies index_map(ids)[x]
            < ids.len() && ids[index_map(ids)[x] as int] == x by {
            if x != last {
                assert(index_map(dl).contains_key(x));
                assert(dl[index_map(dl)[x] as int] == x);
            }
        }
    }
}

/// With distinct ids, `index_map` is the exact inverse of the sequence.
pub proof fn lemma_index_map_distinct(ids: Seq<u64>)
    requires
        ids.no_duplicates(),
        ids.len() <= usize::MAX,
    ensures
        crate::graph::ids_inverse(ids, index_map(ids)),
    decreases ids.len(),
{
    lemma_index_map(ids);
    if ids.len() > 0 {
        let dl = ids.drop_last();
        let last = ids.last();
        lemma_index_map_distinct(dl);
        assert(index_map(ids) == index_map(dl).insert(last, (ids.len() - 1) as usize));
        assert forall|i: int| 0 <= i < ids.len() implies #[trigger] index_map(ids).contains_key(ids[i])
            && index_map(ids)[ids[i]] == i by {
            if i < ids.len() - 1 {
                assert(dl[i] == ids[i]);
                assert(ids[i] != ids[ids.len() - 1]);
                assert(index_map(dl).contains_key(dl[i]));
            }
        }
    }
}

/// The flattened lists only grow with more nodes.
pub proof fn lemma_flat_mono(net: &Network, mode: Option<u64>, i: int, j: int)
    requires
        0 <= i <= j,
    ensures
        out_flat(net, mode, i).len() <= out_flat(net, mode, j).len(),
        in_flat(net, mode, i).len() <= in_flat(net, mode, j).len(),
    decreases j - i,
{
    if i < j {
        lemma_flat_mono(net, mode, i, j - 1);
    }
}


/// The map from each id to the position of its last occurrence.
fn index_by_id(ids: &Vec<u64>) -> (r: HashMap<u64, usize>)
    ensures
        r@ == index_map(ids@),
{
    let mut r: HashMap<u64, usize> = HashMap::new();
    let mut i: usize = 0;
    while i < ids.len()
        invariant
            i <= ids@.len(),
            r@ == index_map(ids@.subrange(0, i as int)),
        decreases ids.len() - i,
    {
        proof {
            let s = ids@.subrange(0, i + 1);
            assert(s.drop_last() =~= ids@.subrange(0, i as int));
            assert(s.last() == ids@[i as int]);
        }
        r.insert(ids[i], i);
        i = i + 1;
    }
    proof {
        assert(ids@.subrange(0, ids@.len() as int) =~= ids@);
    }
    r
}

/// Appends the ids of the links, and as heads the indices of their end nodes (`use_to`) or of
/// their start nodes.
fn append_links(
    links: &Vec<&NetworkLink>,
    node_indices: &HashMap<u64, usize>,
    use_to: bool,
    head: &mut Vec<usize>,
    ids: &mut Vec<u64>,
)
    requires
        forall|k: int|
            0 <= k < links@.len() ==> node_indices@.contains_key(
                if use_to {
                    (#[trigger] links@[k]).to
                } else {
                    links@[k].from
                },
            ),
        old(head)@.len() == old(ids)@.len(),
    ensures
        final(ids)@ == old(ids)@ + links@.map_values(|l: &NetworkLink| l.id),
        final(head)@.len() == final(ids)@.len(),
        forall|j: int| 0 <= j < old(head)@.len() ==> #[trigger] final(head)@[j] == old(head)@[j],
        forall|k: int|
            0 <= k < links@.len() ==> #[trigger] final(head)@[old(head)@.len() + k]
                == node_indices@[if use_to {
                links@[k].to
            } else {
                links@[k].from
            }],
{
    let ghost head0 = head@;
    let ghost ids0 = ids@;
    let mut k: usize = 0;
    while k < links.len()
        invariant
            forall|t: int|
                0 <= t < links@.len() ==> node_indices@.contains_key(
                    if use_to {
                        (#[trigger] links@[t]).to
                    } else {
                        links@[t].from
                    },
                ),
            head0.len() == ids0.len(),
            k <= links@.len(),
            ids@ == ids0 + links@.subrange(0, k as int).map_values(|l: &NetworkLink| l.id),
            head@.len() == ids@.len(),
            forall|j: int| 0 <= j < head0.len() ==> #[trigger] head@[j] == head0[j],
            forall|t: int|
                0 <= t < k ==> #[trigger] head@[head0.len() + t] == node_indices@[if use_to {
                    links@[t].to
                } else {
                    links@[t].from
                }],
        decreases links.len() - k,
    {
        let link = links[k];
        let end = if use_to {
            link.to
        } else {
            link.from
        };
        let idx = *node_indices.get(&end).unwrap();
        head.push(idx);
        ids.push(link.id);
        proof {
            assert(links@.subrange(0, k + 1).map_values(|l: &NetworkLink| l.id) =~= links@.subrange(
                0,
                k as int,
            ).map_values(|l: &NetworkLink| l.id).push(link.id));
        }
        k = k + 1;
    }
    proof {
        assert(links@.subrange(0, links@.len() as int) =~= links@);
    }
}

/// Converts the network into a forward-backward routing graph for the mode: only links that
/// allow the mode are kept (all links when no mode is given).
pub fn convert_network_for_mode(network: &Network, mode: Option<u64>) -> (g:
    ForwardBackwardRoutingGraph)
    requires
        convertible(network, mode),
    ensures
        is_conversion(network, mode, &g),
{
    let nodes = network.get_all_nodes_sorted();
    let n = nodes.len();
    let ghost nn = n as int;

    let mut node_id_by_index: Vec<u64> = Vec::new();
    let mut node_by_node_id: HashMap<u64, NetworkNode> = HashMap::new();
    let mut i: usize = 0;
    while i < n
        invariant
            network.wf(),
            nodes@ == network.nodes@,
            n == nodes@.len(),
            i <= n,
            node_id_by_index@ == node_ids(network).subrange(0, i as int),
            node_by_node_id@.dom() == node_ids(network).subrange(0, i as int).to_set(),
            forall|t: int|
                0 <= t < i ==> {
                    let nd = #[trigger] node_by_node_id@[network.nodes@[t].id];
                    &&& nd.id == network.nodes@[t].id
                    &&& nd.in_links@ == network.nodes@[t].in_links@
                    &&& nd.out_links@ == network.nodes@[t].out_links@
                },
        decreases n - i,
    {
        let node = &nodes[i];
        node_id_by_index.push(node.id);
        node_by_node_id.insert(node.id, node.clone());
        proof {
            assert(node_ids(network).subrange(0, i + 1) =~= node_ids(network).subrange(
                0,
                i as int,
            ).push(node.id));
            assert forall|t: int| 0 <= t < i implies network.nodes@[t].id != node.id by {}
            let s0 = node_ids(network).subrange(0, i as int);
            assert(node_by_node_id@.dom() =~= s0.push(node.id).to_set()) by {
                assert forall|x: u64| s0.push(node.id).contains(x) <==> (s0.contains(x) || x == node.id) by {
                    if s0.push(node.id).contains(x) && x != node.id {
                        let w = choose|w: int| 0 <= w < s0.push(node.id).len() && s0.push(node.id)[w] == x;
                        assert(s0[w] == x);
                    }
                    if s0.contains(x) {
                        let w = choose|w: int| 0 <= w < s0.len() && s0[w] == x;
                        assert(s0.push(node.id)[w] == x);
                    }
                    if x == node.id {
                        assert(s0.push(node.id)[s0.len() as int] == x);
                    }
                }
            }
        }
        i = i + 1;
    }
    proof {
        assert(node_ids(network).subrange(0, nn) =~= node_ids(network));
    }
    let node_indices = index_by_id(&node_id_by_index);
    proof {
        lemma_index_map(node_ids(network));
    }

    let mut forward_first_out: Vec<LinkIndex> = Vec::new();
    let mut forward_head: Vec<NodeIndex> = Vec::new();
    let mut forward_link_id_by_index: Vec<u64> = Vec::new();
    let mut backward_first_out: Vec<LinkIndex> = Vec::new();
    let mut backward_head: Vec<NodeIndex> = Vec::new();
    let mut backward_link_id_by_index: Vec<u64> = Vec::new();
    let mut forward_links_before: usize = 0;
    let mut backward_links_before: usize = 0;

    let mut i: usize = 0;
    while i < n
        invariant
            convertible(network, mode),
            nodes@ == network.nodes@,
            n == nodes@.len(),
            nn == n,
            i <= n,
            node_indices@ == index_map(node_ids(network)),
            forall|x: u64| #[trigger] node_indices@.contains_key(x) <==> node_ids(network).contains(x),
            forward_first_out@.len() == i,
            backward_first_out@.len() == i,
            forall|t: int| 0 <= t < i ==> #[trigger] forward_first_out@[t] == out_flat(network, mode, t).len(),
            forall|t: int| 0 <= t < i ==> #[trigger] backward_first_out@[t] == in_flat(network, mode, t).len(),
            forward_link_id_by_index@ == out_flat(network, mode, i as int),
            backward_link_id_by_index@ == in_flat(network, mode, i as int),
            forward_links_before == forward_link_id_by_index@.len(),
            backward_links_before == backward_link_id_by_index@.len(),
            forward_head@.len() == forward_link_id_by_index@.len(),
            backward_head@.len() == backward_link_id_by_index@.len(),
            forall|j: int|
                0 <= j < forward_head@.len() ==> #[trigger] forward_head@[j]
                    == node_indices@[network.links@[forward_link_id_by_index@[j]].to],
            forall|j: int|
                0 <= j < backward_head@.len() ==> #[trigger] backward_head@[j]
                    == node_indices@[network.links@[backward_link_id_by_index@[j]].from],
        decreases n - i,
    {
        forward_first_out.push(forward_links_before);
        backward_first_out.push(backward_links_before);
        let node = &nodes[i];
        proof {
            assert forall|k: int| 0 <= k < node.out_links@.len() implies network.links@.contains_key(
                #[trigger] node.out_links@[k],
            ) by {
                assert(network.nodes@[i as int].out_links@[k] == node.out_links@[k]);
            }
            assert forall|k: int| 0 <= k < node.in_links@.len() implies network.links@.contains_key(
                #[trigger] node.in_links@[k],
            ) by {
                assert(network.nodes@[i as int].in_links@[k] == node.in_links@[k]);
            }
        }
        let outgoing_links = get_links(node.out_links.as_slice(), network, mode);
        let ingoing_links = get_links(node.in_links.as_slice(), network, mode);
        let ghost osel = out_sel(network, mode, i as int);
        let ghost isel = in_sel(network, mode, i as int);
        proof {
            lemma_selected(network, node.out_links@, mode);
            lemma_selected(network, node.in_links@, mode);
            lemma_flat_mono(network, mode, i + 1, nn);
            assert(out_flat(network, mode, i + 1) == out_flat(network, mode, i as int) + osel);
            assert(in_flat(network, mode, i + 1) == in_flat(network, mode, i as int) + isel);
            assert forall|k: int| 0 <= k < outgoing_links@.len() implies node_indices@.contains_key(
                (#[trigger] outgoing_links@[k]).to,
            ) by {
                assert(allows(network, osel[k], mode));
                assert(network.links@.contains_key(osel[k]));
                assert(network.links@[osel[k]] == *outgoing_links@[k]);
            }
            assert forall|k: int| 0 <= k < ingoing_links@.len() implies node_indices@.contains_key(
                (#[trigger] ingoing_links@[k]).from,
            ) by {
                assert(allows(network, isel[k], mode));
                assert(network.links@.contains_key(isel[k]));
                assert(network.links@[isel[k]] == *ingoing_links@[k]);
            }
            assert(outgoing_links@.map_values(|l: &NetworkLink| l.id) =~= osel) by {
                assert forall|k: int| 0 <= k < osel.len() implies outgoing_links@[k].id == osel[k] by {
                    assert(network.links@.contains_key(osel[k]));
                }
            }
            assert(ingoing_links@.map_values(|l: &NetworkLink| l.id) =~= isel) by {
                assert forall|k: int| 0 <= k < isel.len() implies ingoing_links@[k].id == isel[k] by {
                    assert(network.links@.contains_key(isel[k]));
                }
            }
        }
        let ghost fh0 = forward_head@;
        let ghost bh0 = backward_head@;
        let ghost fid0 = forward_link_id_by_index@;
        let ghost bid0 = backward_link_id_by_index@;
        forward_links_before = forward_links_before + outgoing_links.len();
        backward_links_before = backward_links_before + ingoing_links.len();
        append_links(&outgoing_links, &node_indices, true, &mut forward_head, &mut forward_link_id_by_index);
        append_links(&ingoing_links, &node_indices, false, &mut backward_head, &mut backward_link_id_by_index);
        proof {
            assert forall|j: int|
                0 <= j < forward_head@.len() implies #[trigger] forward_head@[j]
                    == node_indices@[network.links@[forward_link_id_by_index@[j]].to] by {
                if j >= fh0.len() {
                    let k = j - fh0.len();
                    assert(forward_head@[fh0.len() + k] == node_indices@[outgoing_links@[k].to]);
                    assert(forward_link_id_by_index@[j] == osel[k]);
                    assert(network.links@.contains_key(osel[k]));
                    assert(network.links@[osel[k]] == *outgoing_links@[k]);
                } else {
                    assert(forward_head@[j] == fh0[j]);
                    assert(forward_link_id_by_index@[j] == fid0[j]);
                }
            }
            assert forall|j: int|
                0 <= j < backward_head@.len() implies #[trigger] backward_head@[j]
                    == node_indices@[network.links@[backward_link_id_by_index@[j]].from] by {
                if j >= bh0.len() {
                    let k = j - bh0.len();
                    assert(backward_head@[bh0.len() + k] == node_indices@[ingoing_links@[k].from]);
                    assert(backward_link_id_by_index@[j] == isel[k]);
                    assert(network.links@.contains_key(isel[k]));
                    assert(network.links@[isel[k]] == *ingoing_links@[k]);
                } else {
                    assert(backward_head@[j] == bh0[j]);
                    assert(backward_link_id_by_index@[j] == bid0[j]);
                }
            }
        }
        i = i + 1;
    }
    forward_first_out.push(forward_head.len());
    backward_first_out.push(backward_head.len());

    let forward_link_index_by_id = index_by_id(&forward_link_id_by_index);
    let backward_link_index_by_id = index_by_id(&backward_link_id_by_index);
    let link_by_link_id = network.links.clone();

    let forward_graph = CsrGraph::new(forward_first_out, forward_head);
    let backward_graph = CsrGraph::new(backward_first_out, backward_head);
    let g = ForwardBackwardRoutingGraph::new(
        forward_graph,
        backward_graph,
        node_by_node_id,
        link_by_link_id,
        node_indices,
        node_id_by_index,
        forward_link_id_by_index,
        backward_link_id_by_index,
        forward_link_index_by_id,
        backward_link_index_by_id,
    );
    proof {
        assert(g.forward_graph.first_out@[nn] == out_flat(network, mode, nn).len());
        assert(g.backward_graph.first_out@[nn] == in_flat(network, mode, nn).len());
    }
    g
}


/// Converts the network into one forward-backward routing graph per mode.
pub fn convert_network_with_modes(network: &Network, modes: &Vec<u64>) -> (r: HashMap<
    u64,
    ForwardBackwardRoutingGraph,
>)
    requires
        forall|k: int| 0 <= k < modes@.len() ==> convertible(network, Some(#[trigger] modes@[k])),
    ensures
        r@.dom() == modes@.to_set(),
        forall|mode: u64| #[trigger] r@.contains_key(mode) ==> is_conversion(network, Some(mode), &r@[mode]),
{
    let mut r: HashMap<u64, ForwardBackwardRoutingGraph> = HashMap::new();
    let mut i: usize = 0;
    while i < modes.len()
        invariant
            forall|k: int| 0 <= k < modes@.len() ==> convertible(network, Some(#[trigger] modes@[k])),
            i <= modes@.len(),
            r@.dom() == modes@.subrange(0, i as int).to_set(),
            forall|mode: u64| #[trigger] r@.contains_key(mode) ==> is_conversion(network, Some(mode), &r@[mode]),
        decreases modes.len() - i,
    {
        let mode = modes[i];
        let g = convert_network_for_mode(network, Some(mode));
        r.insert(mode, g);
        proof {
            let s0 = modes@.subrange(0, i as int);
            assert(modes@.subrange(0, i + 1) =~= s0.push(mode));
            assert(r@.dom() =~= s0.push(mode).to_set()) by {
                assert forall|x: u64| s0.push(mode).contains(x) <==> (s0.contains(x) || x == mode) by {
                    if s0.push(mode).contains(x) && x != mode {
                        let w = choose|w: int| 0 <= w < s0.push(mode).len() && s0.push(mode)[w] == x;
                        assert(s0[w] == x);
                    }
                    if s0.contains(x) {
                        let w = choose|w: int| 0 <= w < s0.len() && s0[w] == x;
                        assert(s0.push(mode)[w] == x);
                    }
                    if x == mode {
                        assert(s0.push(mode)[s0.len() as int] == x);
                    }
                }
            }
        }
        i = i + 1;
    }
    proof {
        assert(modes@.subrange(0, modes@.len() as int) =~= modes@);
    }
    r
}

/// Every id in the first `k` flattened lists is a link of the network that the mode may use.
pub proof fn lemma_flat_allowed(net: &Network, mode: Option<u64>, k: int)
    requires
        convertible(net, mode),
        k <= net.nodes@.len(),
    ensures
        forall|p: int|
            0 <= p < out_flat(net, mode, k).len() ==> net.links@.contains_key(
                #[trigger] out_flat(net, mode, k)[p],
            ) && allows(net, out_flat(net, mode, k)[p], mode),
        forall|p: int|
            0 <= p < in_flat(net, mode, k).len() ==> net.links@.contains_key(
                #[trigger] in_flat(net, mode, k)[p],
            ) && allows(net, in_flat(net, mode, k)[p], mode),
    decreases k,
{
    if k > 0 {
        lemma_flat_allowed(net, mode, k - 1);
        let i = k - 1;
        lemma_selected(net, net.nodes@[i].out_links@, mode);
        lemma_selected(net, net.nodes@[i].in_links@, mode);
        let a = out_flat(net, mode, k - 1);
        let b = out_sel(net, mode, k - 1);
        assert(out_flat(net, mode, k) == a + b);
        assert forall|p: int| 0 <= p < out_flat(net, mode, k).len() implies net.links@.contains_key(
            #[trigger] out_flat(net, mode, k)[p],
        ) && allows(net, out_flat(net, mode, k)[p], mode) by {
            if p < a.len() {
                assert(out_flat(net, mode, k)[p] == a[p]);
            } else {
                let l = b[p - a.len()];
                assert(out_flat(net, mode, k)[p] == l);
                assert(net.nodes@[i].out_links@.contains(l));
                let w = choose|w: int| 0 <= w < net.nodes@[i].out_links@.len() && net.nodes@[i].out_links@[w] == l;
                assert(net.links@.contains_key(net.nodes@[i].out_links@[w]));
            }
        }
        let c = in_flat(net, mode, k - 1);
        let d = in_sel(net, mode, k - 1);
        assert(in_flat(net, mode, k) == c + d);
        assert forall|p: int| 0 <= p < in_flat(net, mode, k).len() implies net.links@.contains_key(
            #[trigger] in_flat(net, mode, k)[p],
        ) && allows(net, in_flat(net, mode, k)[p], mode) by {
            if p < c.len() {
                assert(in_flat(net, mode, k)[p] == c[p]);
            } else {
                let l = d[p - c.len()];
                assert(in_flat(net, mode, k)[p] == l);
                assert(net.nodes@[i].in_links@.contains(l));
                let w = choose|w: int| 0 <= w < net.nodes@[i].in_links@.len() && net.nodes@[i].in_links@[w] == l;
                assert(net.links@.contains_key(net.nodes@[i].in_links@[w]));
            }
        }
    }
}

/// A converted graph is well formed when no link occurs twice among the selected outgoing
/// links, nor among the selected incoming links.
pub proof fn lemma_conversion_wf(net: &Network, mode: Option<u64>, g: &ForwardBackwardRoutingGraph)
    requires
        convertible(net, mode),
        is_conversion(net, mode, g),
        out_flat(net, mode, net.nodes@.len() as int).no_duplicates(),
        in_flat(net, mode, net.nodes@.len() as int).no_duplicates(),
    ensures
        g.wf(),
{
    let n = net.nodes@.len() as int;
    let ids = node_ids(net);
    lemma_index_map(ids);
    assert(ids.no_duplicates()) by {
        assert forall|a: int, b: int| 0 <= a < ids.len() && 0 <= b < ids.len() && a != b implies ids[a]
            != ids[b] by {
            if a < b {
                assert(net.nodes@[a].id < net.nodes@[b].id);
            } else {
                assert(net.nodes@[b].id < net.nodes@[a].id);
            }
        }
    }
    lemma_index_map_distinct(ids);
    lemma_index_map_distinct(out_flat(net, mode, n));
    lemma_index_map_distinct(in_flat(net, mode, n));
    lemma_flat_allowed(net, mode, n);
    assert forall|i: int, j: int| 0 <= i <= j <= n implies g.forward_graph.first_out@[i]
        <= g.forward_graph.first_out@[j] && g.backward_graph.first_out@[i]
        <= g.backward_graph.first_out@[j] by {
        lemma_flat_mono(net, mode, i, j);
        assert(g.forward_graph.first_out@[i] == out_flat(net, mode, i).len());
        assert(g.forward_graph.first_out@[j] == out_flat(net, mode, j).len());
        assert(g.backward_graph.first_out@[i] == in_flat(net, mode, i).len());
        assert(g.backward_graph.first_out@[j] == in_flat(net, mode, j).len());
    }
    assert(g.forward_graph.first_out@[0] == out_flat(net, mode, 0).len());
    assert(g.backward_graph.first_out@[0] == in_flat(net, mode, 0).len());
    assert(g.forward_graph.first_out@[n] == out_flat(net, mode, n).len());
    assert(g.backward_graph.first_out@[n] == in_flat(net, mode, n).len());
    assert forall|e: int| 0 <= e < g.m() implies (#[trigger] g.forward_graph.head@[e]) < g.n() by {
        let l = out_flat(net, mode, n)[e];
        assert(net.links@.contains_key(l) && allows(net, l, mode));
        let t = net.links@[l].to;
        assert(ids.contains(t));
        assert(index_map(ids).contains_key(t));
        assert(g.forward_graph.head@[e] == index_map(ids)[t]);
    }
    assert forall|e: int| 0 <= e < g.m() implies (#[trigger] g.backward_graph.head@[e]) < g.n() by {
        let l = in_flat(net, mode, n)[e];
        assert(net.links@.contains_key(l) && allows(net, l, mode));
        let t = net.links@[l].from;
        assert(ids.contains(t));
        assert(index_map(ids).contains_key(t));
        assert(g.backward_graph.head@[e] == index_map(ids)[t]);
    }
}

/// Every link that a node lists leaves (for its out-links) or enters (for its in-links) that node,
/// and is listed at its other end too: among the in-links of its end node, or the out-links of its
/// start node.
pub open spec fn links_listed_at_ends(net: &Network) -> bool {
    &&& forall|i: int, k: int|
        #![trigger net.nodes@[i].out_links@[k]]
        0 <= i < net.nodes@.len() && 0 <= k < net.nodes@[i].out_links@.len() ==> {
            let l = net.nodes@[i].out_links@[k];
            &&& net.links@[l].from == net.nodes@[i].id
            &&& exists|j: int|
                0 <= j < net.nodes@.len() && net.nodes@[j].id == net.links@[l].to
                    && #[trigger] net.nodes@[j].in_links@.contains(l)
        }
    &&& forall|j: int, k: int|
        #![trigger net.nodes@[j].in_links@[k]]
        0 <= j < net.nodes@.len() && 0 <= k < net.nodes@[j].in_links@.len() ==> {
            let l = net.nodes@[j].in_links@[k];
            &&& net.links@[l].to == net.nodes@[j].id
            &&& exists|i: int|
                0 <= i < net.nodes@.len() && net.nodes@[i].id == net.links@[l].from
                    && #[trigger] net.nodes@[i].out_links@.contains(l)
        }
}

proof fn lemma_keep_allowed_complete(net: &Network, ids: Seq<u64>, mode: Option<u64>, l: u64)
    requires
        ids.contains(l),
        allows(net, l, mode),
    ensures
        keep_allowed(net, ids, mode).contains(l),
    decreases ids.len(),
{
    if ids.last() == l {
        let r = keep_allowed(net, ids, mode);
        assert(r[r.len() - 1] == l);
    } else {
        let w = choose|w: int| 0 <= w < ids.len() && ids[w] == l;
        assert(ids.drop_last()[w] == l);
        lemma_keep_allowed_complete(net, ids.drop_last(), mode, l);
        let rest = keep_allowed(net, ids.drop_last(), mode);
        let t = choose|t: int| 0 <= t < rest.len() && rest[t] == l;
        assert(keep_allowed(net, ids, mode)[t] == l);
    }
}

/// A listed link that the mode may use is among the selected links.
proof fn lemma_selected_complete(net: &Network, ids: Seq<u64>, mode: Option<u64>, l: u64)
    requires
        ids.contains(l),
        allows(net, l, mode),
    ensures
        selected(net, ids, mode).contains(l),
{
    broadcast use vstd::seq_lib::group_to_multiset_ensures;

    lemma_id_le_total();
    ids.lemma_sort_by_ensures(|a: u64, b: u64| id_le(a, b));
    assert(ids.to_multiset().count(l) > 0);
    assert(ascending(ids).contains(l));
    lemma_keep_allowed_complete(net, ascending(ids), mode, l);
}

/// The flattened lists of the first `k` nodes begin the flattened lists of the first `n`.
proof fn lemma_flat_prefix(net: &Network, mode: Option<u64>, k: int, n: int)
    requires
        0 <= k <= n,
    ensures
        out_flat(net, mode, k).len() <= out_flat(net, mode, n).len(),
        forall|p: int| 0 <= p < out_flat(net, mode, k).len() ==> #[trigger] out_flat(net, mode, n)[p] == out_flat(net, mode, k)[p],
        in_flat(net, mode, k).len() <= in_flat(net, mode, n).len(),
        forall|p: int| 0 <= p < in_flat(net, mode, k).len() ==> #[trigger] in_flat(net, mode, n)[p] == in_flat(net, mode, k)[p],
    decreases n - k,
{
    if k < n {
        lemma_flat_prefix(net, mode, k, n - 1);
        assert(out_flat(net, mode, n) == out_flat(net, mode, n - 1) + out_sel(net, mode, n - 1));
        assert(in_flat(net, mode, n) == in_flat(net, mode, n - 1) + in_sel(net, mode, n - 1));
    }
}

/// The positions of row `i` of the flattened lists hold the selected links of node `i`.
proof fn lemma_flat_row(net: &Network, mode: Option<u64>, i: int, n: int)
    requires
        0 <= i < n,
    ensures
        out_flat(net, mode, i + 1).len() == out_flat(net, mode, i).len() + out_sel(net, mode, i).len(),
        forall|p: int|
            0 <= p < out_sel(net, mode, i).len() ==> out_flat(net, mode, n)[out_flat(net, mode, i).len() + p]
                == #[trigger] out_sel(net, mode, i)[p],
        in_flat(net, mode, i + 1).len() == in_flat(net, mode, i).len() + in_sel(net, mode, i).len(),
        forall|p: int|
            0 <= p < in_sel(net, mode, i).len() ==> in_flat(net, mode, n)[in_flat(net, mode, i).len() + p]
                == #[trigger] in_sel(net, mode, i)[p],
{
    lemma_flat_prefix(net, mode, i + 1, n);
    assert(out_flat(net, mode, i + 1) == out_flat(net, mode, i) + out_sel(net, mode, i));
    assert(in_flat(net, mode, i + 1) == in_flat(net, mode, i) + in_sel(net, mode, i));
    assert forall|p: int| 0 <= p < out_sel(net, mode, i).len() implies out_flat(net, mode, n)[out_flat(
        net,
        mode,
        i,
    ).len() + p] == #[trigger] out_sel(net, mode, i)[p] by {
        assert(out_flat(net, mode, i + 1)[out_flat(net, mode, i).len() + p] == out_sel(net, mode, i)[p]);
    }
    assert forall|p: int| 0 <= p < in_sel(net, mode, i).len() implies in_flat(net, mode, n)[in_flat(
        net,
        mode,
        i,
    ).len() + p] == #[trigger] in_sel(net, mode, i)[p] by {
        assert(in_flat(net, mode, i + 1)[in_flat(net, mode, i).len() + p] == in_sel(net, mode, i)[p]);
    }
}

/// For a network that lists each link at both its ends, a converted graph is consistent: the
/// backward graph holds exactly the links of the forward graph, reversed, so the start node that
/// the graph reports for each link leaving a node is that node.
pub proof fn lemma_conversion_consistent(net: &Network, mode: Option<u64>, g: &ForwardBackwardRoutingGraph)
    requires
        convertible(net, mode),
        is_conversion(net, mode, g),
        out_flat(net, mode, net.nodes@.len() as int).no_duplicates(),
        in_flat(net, mode, net.nodes@.len() as int).no_duplicates(),
        links_listed_at_ends(net),
    ensures
        g.consistent(),
{
    let n = net.nodes@.len() as int;
    let ids = node_ids(net);
    let of = out_flat(net, mode, n);
    let inf = in_flat(net, mode, n);
    lemma_conversion_wf(net, mode, g);
    lemma_index_map(ids);
    lemma_index_map(of);
    lemma_index_map(inf);
    assert(ids.no_duplicates()) by {
        assert forall|a: int, b: int| 0 <= a < ids.len() && 0 <= b < ids.len() && a != b implies ids[a]
            != ids[b] by {
            if a < b {
                assert(net.nodes@[a].id < net.nodes@[b].id);
            } else {
                assert(net.nodes@[b].id < net.nodes@[a].id);
            }
        }
    }
    lemma_index_map_distinct(ids);
    // Each link of the forward graph is among the selected out-links of the node its row belongs
    // to, and is listed as an in-link of its end node, so it is in the backward graph.
    assert forall|e: int| 0 <= e < g.m() implies #[trigger] g.backward_link_index_by_id@.contains_key(
        g.forward_link_id_by_index@[e],
    ) by {
        lemma_edge_source(&g.forward_graph, g.n(), g.m(), e);
        let i = choose|i: int| g.forward_graph.leaves(i, e);
        lemma_flat_row(net, mode, i, n);
        let p = e - out_flat(net, mode, i).len();
        let l = out_sel(net, mode, i)[p];
        assert(of[e] == l);
        lemma_selected(net, net.nodes@[i].out_links@, mode);
        assert(net.nodes@[i].out_links@.contains(l));
        let k = choose|k: int| 0 <= k < net.nodes@[i].out_links@.len() && net.nodes@[i].out_links@[k] == l;
        assert(net.nodes@[i].out_links@[k] == l);
        let j = choose|j: int|
            0 <= j < net.nodes@.len() && net.nodes@[j].id == net.links@[l].to
                && #[trigger] net.nodes@[j].in_links@.contains(l);
        lemma_selected_complete(net, net.nodes@[j].in_links@, mode, l);
        let q = choose|q: int| 0 <= q < in_sel(net, mode, j).len() && in_sel(net, mode, j)[q] == l;
        lemma_flat_row(net, mode, j, n);
        lemma_flat_prefix(net, mode, j + 1, n);
        assert(inf[in_flat(net, mode, j).len() + q] == l);
        assert(inf.contains(l));
    }
    // Symmetrically, each link of the backward graph is in the forward graph.
    assert forall|kb: int| 0 <= kb < g.m() implies #[trigger] g.forward_link_index_by_id@.contains_key(
        g.backward_link_id_by_index@[kb],
    ) by {
        lemma_edge_source(&g.backward_graph, g.n(), g.m(), kb);
        let j = choose|j: int| g.backward_graph.leaves(j, kb);
        lemma_flat_row(net, mode, j, n);
        let p = kb - in_flat(net, mode, j).len();
        let l = in_sel(net, mode, j)[p];
        assert(inf[kb] == l);
        lemma_selected(net, net.nodes@[j].in_links@, mode);
        assert(net.nodes@[j].in_links@.contains(l));
        let k = choose|k: int| 0 <= k < net.nodes@[j].in_links@.len() && net.nodes@[j].in_links@[k] == l;
        assert(net.nodes@[j].in_links@[k] == l);
        let i = choose|i: int|
            0 <= i < net.nodes@.len() && net.nodes@[i].id == net.links@[l].from
                && #[trigger] net.nodes@[i].out_links@.contains(l);
        lemma_selected_complete(net, net.nodes@[i].out_links@, mode, l);
        let q = choose|q: int| 0 <= q < out_sel(net, mode, i).len() && out_sel(net, mode, i)[q] == l;
        lemma_flat_row(net, mode, i, n);
        lemma_flat_prefix(net, mode, i + 1, n);
        assert(of[out_flat(net, mode, i).len() + q] == l);
        assert(of.contains(l));
    }
    // A link leaving node i starts at node i, and its backward position lies in the row of its
    // end node.
    assert forall|i: int, e: int| #[trigger] g.forward_graph.leaves(i, e) implies g.backward_graph.head@[
        g.backward_of(e)] == i && g.backward_graph.leaves(
        g.forward_graph.head@[e] as int,
        g.backward_of(e),
    ) by {
        assert(g.forward_graph.first_out@[i + 1] <= g.forward_graph.first_out@[n]);
        lemma_flat_row(net, mode, i, n);
        let p = e - out_flat(net, mode, i).len();
        let l = out_sel(net, mode, i)[p];
        assert(of[e] == l);
        lemma_selected(net, net.nodes@[i].out_links@, mode);
        let k = choose|k: int| 0 <= k < net.nodes@[i].out_links@.len() && net.nodes@[i].out_links@[k] == l;
        assert(net.nodes@[i].out_links@[k] == l);
        assert(net.links@[l].from == net.nodes@[i].id);
        assert(g.backward_link_index_by_id@.contains_key(l));
        let pos = g.backward_of(e);
        assert(pos == index_map(inf)[l] as int);
        assert(inf[pos] == l);
        assert(g.backward_graph.head@[pos] == index_map(ids)[net.links@[l].from]);
        assert(ids[i] == net.nodes@[i].id);
        assert(index_map(ids).contains_key(ids[i]));
        assert(g.backward_graph.head@[pos] == i);
        lemma_edge_source(&g.backward_graph, g.n(), g.m(), pos);
        let j = choose|j: int| g.backward_graph.leaves(j, pos);
        lemma_flat_row(net, mode, j, n);
        let q = pos - in_flat(net, mode, j).len();
        assert(in_sel(net, mode, j)[q] == l);
        lemma_selected(net, net.nodes@[j].in_links@, mode);
        let kk = choose|kk: int| 0 <= kk < net.nodes@[j].in_links@.len() && net.nodes@[j].in_links@[kk] == l;
        assert(net.nodes@[j].in_links@[kk] == l);
        assert(net.links@[l].to == net.nodes@[j].id);
        assert(ids[j] == net.nodes@[j].id);
        assert(index_map(ids).contains_key(ids[j]));
        assert(g.forward_graph.head@[e] == index_map(ids)[net.links@[l].to]);
        assert(g.forward_graph.head@[e] == j);
    }
}

/// The network lists every link at both of its ends, and only there: each link that a node
/// lists exists and leaves (for its out-links) or enters (for its in-links) that node; no node
/// lists a link twice; and every link is listed among the out-links of its start node and the
/// in-links of its end node.
pub open spec fn links_at_ends(net: &Network) -> bool {
    &&& forall|i: int, k: int|
        #![trigger net.nodes@[i].out_links@[k]]
        0 <= i < net.nodes@.len() && 0 <= k < net.nodes@[i].out_links@.len() ==> {
            &&& net.links@.contains_key(net.nodes@[i].out_links@[k])
            &&& net.links@[net.nodes@[i].out_links@[k]].from == net.nodes@[i].id
        }
    &&& forall|j: int, k: int|
        #![trigger net.nodes@[j].in_links@[k]]
        0 <= j < net.nodes@.len() && 0 <= k < net.nodes@[j].in_links@.len() ==> {
            &&& net.links@.contains_key(net.nodes@[j].in_links@[k])
            &&& net.links@[net.nodes@[j].in_links@[k]].to == net.nodes@[j].id
        }
    &&& forall|i: int|
        0 <= i < net.nodes@.len() ==> (#[trigger] net.nodes@[i]).out_links@.no_duplicates()
            && net.nodes@[i].in_links@.no_duplicates()
    &&& forall|l: u64|
        #[trigger] net.links@.contains_key(l) ==> {
            &&& exists|i: int|
                0 <= i < net.nodes@.len() && net.nodes@[i].id == net.links@[l].from
                    && #[trigger] net.nodes@[i].out_links@.contains(l)
            &&& exists|j: int|
                0 <= j < net.nodes@.len() && net.nodes@[j].id == net.links@[l].to
                    && #[trigger] net.nodes@[j].in_links@.contains(l)
        }
}

/// The links of the network that the mode may use.
pub open spec fn allowed_links(net: &Network, mode: Option<u64>) -> Set<u64> {
    Set::new(|l: u64| net.links@.contains_key(l) && allows(net, l, mode))
}

/// The ids kept from a list without repeats come without repeats.
proof fn lemma_keep_allowed_no_dups(net: &Network, ids: Seq<u64>, mode: Option<u64>)
    requires
        ids.no_duplicates(),
    ensures
        keep_allowed(net, ids, mode).no_duplicates(),
    decreases ids.len(),
{
    if ids.len() > 0 {
        let dl = ids.drop_last();
        assert(dl.no_duplicates());
        lemma_keep_allowed_no_dups(net, dl, mode);
        lemma_keep_allowed(net, dl, mode);
        let rest = keep_allowed(net, dl, mode);
        if allows(net, ids.last(), mode) {
            assert forall|k: int| 0 <= k < rest.len() implies rest[k] != ids.last() by {
                let w = choose|w: int| 0 <= w < dl.len() && dl[w] == rest[k];
                assert(ids[w] == dl[w]);
                assert(ids[ids.len() - 1] == ids.last());
            }
        }
    }
}

/// A link is selected from a list exactly when the list holds it and the mode may use it; the
/// selection of a list without repeats has no repeats.
proof fn lemma_selected_exact(net: &Network, ids: Seq<u64>, mode: Option<u64>)
    ensures
        forall|x: u64| #[trigger] selected(net, ids, mode).contains(x) <==> (ids.contains(x) && allows(net, x, mode)),
        ids.no_duplicates() ==> selected(net, ids, mode).no_duplicates(),
{
    lemma_selected(net, ids, mode);
    assert forall|x: u64| #[trigger] selected(net, ids, mode).contains(x) <==> (ids.contains(x) && allows(net, x, mode)) by {
        if ids.contains(x) && allows(net, x, mode) {
            lemma_selected_complete(net, ids, mode, x);
        }
    }
    if ids.no_duplicates() {
        broadcast use vstd::seq_lib::group_to_multiset_ensures;

        lemma_id_le_total();
        ids.lemma_sort_by_ensures(|a: u64, b: u64| id_le(a, b));
        let asc = ascending(ids);
        ids.lemma_multiset_has_no_duplicates();
        assert(asc.to_multiset() == ids.to_multiset());
        asc.lemma_multiset_has_no_duplicates_conv();
        lemma_keep_allowed_no_dups(net, asc, mode);
    }
}

/// A link is in the flattened lists of the first `k` nodes exactly when it is selected for one
/// of them.
proof fn lemma_flat_contains(net: &Network, mode: Option<u64>, k: int)
    requires
        0 <= k,
    ensures
        forall|x: u64|
            #[trigger] out_flat(net, mode, k).contains(x) <==> exists|i: int|
                0 <= i < k && #[trigger] out_sel(net, mode, i).contains(x),
        forall|x: u64|
            #[trigger] in_flat(net, mode, k).contains(x) <==> exists|i: int|
                0 <= i < k && #[trigger] in_sel(net, mode, i).contains(x),
    decreases k,
{
    if k > 0 {
        lemma_flat_contains(net, mode, k - 1);
        let a = out_flat(net, mode, k - 1);
        let b = out_sel(net, mode, k - 1);
        let c = in_flat(net, mode, k - 1);
        let d = in_sel(net, mode, k - 1);
        assert(out_flat(net, mode, k) == a + b);
        assert(in_flat(net, mode, k) == c + d);
        assert forall|x: u64| #[trigger] (a + b).contains(x) <==> (a.contains(x) || b.contains(x)) by {
            if (a + b).contains(x) {
                let w = choose|w: int| 0 <= w < (a + b).len() && (a + b)[w] == x;
                if w < a.len() {
                    assert(a[w] == x);
                } else {
                    assert(b[w - a.len()] == x);
                }
            }
            if a.contains(x) {
                let w = choose|w: int| 0 <= w < a.len() && a[w] == x;
                assert((a + b)[w] == x);
            }
            if b.contains(x) {
                let w = choose|w: int| 0 <= w < b.len() && b[w] == x;
                assert((a + b)[a.len() + w] == x);
            }
        }
        assert forall|x: u64| #[trigger] (c + d).contains(x) <==> (c.contains(x) || d.contains(x)) by {
            if (c + d).contains(x) {
                let w = choose|w: int| 0 <= w < (c + d).len() && (c + d)[w] == x;
                if w < c.len() {
                    assert(c[w] == x);
                } else {
                    assert(d[w - c.len()] == x);
                }
            }
            if c.contains(x) {
                let w = choose|w: int| 0 <= w < c.len() && c[w] == x;
                assert((c + d)[w] == x);
            }
            if d.contains(x) {
                let w = choose|w: int| 0 <= w < d.len() && d[w] == x;
                assert((c + d)[c.len() + w] == x);
            }
        }
    }
}

/// In a network that lists each link at both its ends, a link selected as an out-link of node
/// `i` starts at node `i`, and one selected as an in-link of node `j` ends at node `j`.
proof fn lemma_sel_ends(net: &Network, mode: Option<u64>, i: int, x: u64)
    requires
        links_at_ends(net),
        0 <= i < net.nodes@.len(),
    ensures
        out_sel(net, mode, i).contains(x) ==> net.links@.contains_key(x) && net.links@[x].from == net.nodes@[i].id
            && allows(net, x, mode),
        in_sel(net, mode, i).contains(x) ==> net.links@.contains_key(x) && net.links@[x].to == net.nodes@[i].id
            && allows(net, x, mode),
{
    lemma_selected_exact(net, net.nodes@[i].out_links@, mode);
    lemma_selected_exact(net, net.nodes@[i].in_links@, mode);
    if out_sel(net, mode, i).contains(x) {
        let k = choose|k: int| 0 <= k < net.nodes@[i].out_links@.len() && net.nodes@[i].out_links@[k] == x;
        assert(net.nodes@[i].out_links@[k] == x);
    }
    if in_sel(net, mode, i).contains(x) {
        let k = choose|k: int| 0 <= k < net.nodes@[i].in_links@.len() && net.nodes@[i].in_links@[k] == x;
        assert(net.nodes@[i].in_links@[k] == x);
    }
}

/// The flattened lists of the first `k` nodes have no repeats.
proof fn lemma_flat_no_dups(net: &Network, mode: Option<u64>, k: int)
    requires
        net.wf(),
        links_at_ends(net),
        0 <= k <= net.nodes@.len(),
    ensures
        out_flat(net, mode, k).no_duplicates(),
        in_flat(net, mode, k).no_duplicates(),
    decreases k,
{
    if k > 0 {
        lemma_flat_no_dups(net, mode, k - 1);
        lemma_flat_contains(net, mode, k - 1);
        let last = k - 1;
        lemma_selected_exact(net, net.nodes@[last].out_links@, mode);
        lemma_selected_exact(net, net.nodes@[last].in_links@, mode);
        let a = out_flat(net, mode, k - 1);
        let b = out_sel(net, mode, last);
        let c = in_flat(net, mode, k - 1);
        let d = in_sel(net, mode, last);
        assert forall|p: int, q: int| 0 <= p < a.len() && 0 <= q < b.len() implies a[p] != b[q] by {
            let x = a[p];
            if x == b[q] {
                assert(a.contains(x));
                let i = choose|i: int| 0 <= i < k - 1 && #[trigger] out_sel(net, mode, i).contains(x);
                lemma_sel_ends(net, mode, i, x);
                assert(b.contains(x));
                lemma_sel_ends(net, mode, last, x);
                assert(net.nodes@[i].id < net.nodes@[last].id);
            }
        }
        assert forall|p: int, q: int| 0 <= p < c.len() && 0 <= q < d.len() implies c[p] != d[q] by {
            let x = c[p];
            if x == d[q] {
                assert(c.contains(x));
                let i = choose|i: int| 0 <= i < k - 1 && #[trigger] in_sel(net, mode, i).contains(x);
                lemma_sel_ends(net, mode, i, x);
                assert(d.contains(x));
                lemma_sel_ends(net, mode, last, x);
                assert(net.nodes@[i].id < net.nodes@[last].id);
            }
        }
        vstd::seq_lib::lemma_no_dup_in_concat(a, b);
        vstd::seq_lib::lemma_no_dup_in_concat(c, d);
        assert(out_flat(net, mode, k) == a + b);
        assert(in_flat(net, mode, k) == c + d);
    }
}

/// For a network that lists each link at both its ends, the forward and the backward link lists
/// of the converted graph each hold every link that the mode may use exactly once, and nothing
/// else: both are arrangements of the allowed links, so they are equally long.
pub proof fn lemma_conversion_lists_allowed_links(net: &Network, mode: Option<u64>)
    requires
        net.wf(),
        links_at_ends(net),
    ensures
        out_flat(net, mode, net.nodes@.len() as int).no_duplicates(),
        in_flat(net, mode, net.nodes@.len() as int).no_duplicates(),
        out_flat(net, mode, net.nodes@.len() as int).to_set() == allowed_links(net, mode),
        in_flat(net, mode, net.nodes@.len() as int).to_set() == allowed_links(net, mode),
        out_flat(net, mode, net.nodes@.len() as int).len() == allowed_links(net, mode).len(),
        in_flat(net, mode, net.nodes@.len() as int).len() == allowed_links(net, mode).len(),
{
    let n = net.nodes@.len() as int;
    let of = out_flat(net, mode, n);
    let inf = in_flat(net, mode, n);
    lemma_flat_no_dups(net, mode, n);
    lemma_flat_contains(net, mode, n);
    assert forall|x: u64| of.to_set().contains(x) <==> allowed_links(net, mode).contains(x) by {
        if of.contains(x) {
            let i = choose|i: int| 0 <= i < n && #[trigger] out_sel(net, mode, i).contains(x);
            lemma_sel_ends(net, mode, i, x);
        }
        if allowed_links(net, mode).contains(x) {
            assert(net.links@.contains_key(x));
            let i = choose|i: int|
                0 <= i < net.nodes@.len() && net.nodes@[i].id == net.links@[x].from
                    && #[trigger] net.nodes@[i].out_links@.contains(x);
            lemma_selected_exact(net, net.nodes@[i].out_links@, mode);
            assert(out_sel(net, mode, i).contains(x));
        }
    }
    assert forall|x: u64| inf.to_set().contains(x) <==> allowed_links(net, mode).contains(x) by {
        if inf.contains(x) {
            let i = choose|i: int| 0 <= i < n && #[trigger] in_sel(net, mode, i).contains(x);
            lemma_sel_ends(net, mode, i, x);
        }
        if allowed_links(net, mode).contains(x) {
            assert(net.links@.contains_key(x));
            let j = choose|j: int|
                0 <= j < net.nodes@.len() && net.nodes@[j].id == net.links@[x].to
                    && #[trigger] net.nodes@[j].in_links@.contains(x);
            lemma_selected_exact(net, net.nodes@[j].in_links@, mode);
            assert(in_sel(net, mode, j).contains(x));
        }
    }
    assert(of.to_set() =~= allowed_links(net, mode));
    assert(inf.to_set() =~= allowed_links(net, mode));
    of.unique_seq_to_set();
    inf.unique_seq_to_set();
}

/// The graph converted for a mode from a network that lists each link at both its ends holds,
/// in its forward link list and again in its backward link list, every link that the mode may
/// use exactly once and nothing else; the last entry of each `first_out` is their number.
pub proof fn lemma_converted_graph_lists_allowed_links(
    net: &Network,
    mode: Option<u64>,
    g: &ForwardBackwardRoutingGraph,
)
    requires
        net.wf(),
        links_at_ends(net),
        is_conversion(net, mode, g),
    ensures
        g.forward_link_id_by_index@.no_duplicates(),
        g.backward_link_id_by_index@.no_duplicates(),
        g.forward_link_id_by_index@.to_set() == allowed_links(net, mode),
        g.backward_link_id_by_index@.to_set() == allowed_links(net, mode),
        g.forward_graph.first_out@[net.nodes@.len() as int] == allowed_links(net, mode).len(),
        g.backward_graph.first_out@[net.nodes@.len() as int] == allowed_links(net, mode).len(),
{
    lemma_conversion_lists_allowed_links(net, mode);
    let n = net.nodes@.len() as int;
    assert(g.forward_graph.first_out@[n] == out_flat(net, mode, n).len());
    assert(g.backward_graph.first_out@[n] == in_flat(net, mode, n).len());
}

/// A network that lists each link at both its ends can be converted for any mode, as long as
/// its counts fit the machine.
pub proof fn lemma_convertible_from_links_at_ends(net: &Network, mode: Option<u64>)
    requires
        net.wf(),
        links_at_ends(net),
        net.links@.dom().len() <= usize::MAX,
        net.nodes@.len() < usize::MAX,
    ensures
        convertible(net, mode),
{
    lemma_conversion_lists_allowed_links(net, mode);
    assert(net.links@.dom().finite());
    assert(allowed_links(net, mode).subset_of(net.links@.dom()));
    vstd::set_lib::lemma_len_subset(allowed_links(net, mode), net.links@.dom());
    let ids = node_ids(net);
    assert forall|l: u64| #[trigger] net.links@.contains_key(l) && allows(net, l, mode) implies ids.contains(
        net.links@[l].to,
    ) && ids.contains(net.links@[l].from) by {
        let i = choose|i: int|
            0 <= i < net.nodes@.len() && net.nodes@[i].id == net.links@[l].from
                && #[trigger] net.nodes@[i].out_links@.contains(l);
        let j = choose|j: int|
            0 <= j < net.nodes@.len() && net.nodes@[j].id == net.links@[l].to
                && #[trigger] net.nodes@[j].in_links@.contains(l);
        assert(ids[i] == net.links@[l].from);
        assert(ids[j] == net.links@[l].to);
    }
}

/// A graph converted from a network that lists each link at both its ends is consistent: the
/// backward graph holds exactly the links of the forward graph, reversed, so the start node
/// that the graph reports for each link leaving a node is that node.
pub proof fn lemma_conversion_consistent_at_ends(
    net: &Network,
    mode: Option<u64>,
    g: &ForwardBackwardRoutingGraph,
)
    requires
        net.wf(),
        links_at_ends(net),
        net.links@.dom().len() <= usize::MAX,
        net.nodes@.len() < usize::MAX,
        is_conversion(net, mode, g),
    ensures
        g.consistent(),
{
    lemma_convertible_from_links_at_ends(net, mode);
    lemma_conversion_lists_allowed_links(net, mode);
    assert(links_listed_at_ends(net)) by {
        assert forall|i: int, k: int|
            0 <= i < net.nodes@.len() && 0 <= k < net.nodes@[i].out_links@.len() implies {
            let l = #[trigger] net.nodes@[i].out_links@[k];
            &&& net.links@[l].from == net.nodes@[i].id
            &&& exists|j: int|
                0 <= j < net.nodes@.len() && net.nodes@[j].id == net.links@[l].to
                    && #[trigger] net.nodes@[j].in_links@.contains(l)
        } by {
            let l = net.nodes@[i].out_links@[k];
            assert(net.links@.contains_key(l));
        }
        assert forall|j: int, k: int|
            0 <= j < net.nodes@.len() && 0 <= k < net.nodes@[j].in_links@.len() implies {
            let l = #[trigger] net.nodes@[j].in_links@[k];
            &&& net.links@[l].to == net.nodes@[j].id
            &&& exists|i: int|
                0 <= i < net.nodes@.len() && net.nodes@[i].id == net.links@[l].from
                    && #[trigger] net.nodes@[i].out_links@.contains(l)
        } by {
            let l = net.nodes@[j].in_links@[k];
            assert(net.links@.contains_key(l));
        }
    }
    lemma_conversion_consistent(net, mode, g);
}

/// Whether the list holds the id.
fn ids_contain(ids: &Vec<u64>, x: u64) -> (r: bool)
    ensures
        r == ids@.contains(x),
{
    let mut i: usize = 0;
    while i < ids.len()
        invariant
            i <= ids@.len(),
            forall|k: int| 0 <= k < i ==> ids@[k] != x,
        decreases ids.len() - i,
    {
        if ids[i] == x {
            return true;
        }
        i = i + 1;
    }
    false
}

/// Whether no id occurs twice in the list.
fn ids_distinct(ids: &Vec<u64>) -> (r: bool)
    ensures
        r == ids@.no_duplicates(),
{
    let mut i: usize = 0;
    while i < ids.len()
        invariant
            i <= ids@.len(),
            forall|a: int, b: int| 0 <= a < b < ids@.len() && a < i ==> ids@[a] != ids@[b],
        decreases ids.len() - i,
    {
        let mut j: usize = i + 1;
        while j < ids.len()
            invariant
                i < ids@.len(),
                i + 1 <= j <= ids@.len(),
                forall|b: int| i < b < j ==> ids@[i as int] != ids@[b],
            decreases ids.len() - j,
        {
            if ids[i] == ids[j] {
                return false;
            }
            j = j + 1;
        }
        i = i + 1;
    }
    true
}

/// Whether every link that the node lists exists and leaves it (`out`) or enters it.
fn node_lists_ok(net: &Network, i: usize, out: bool) -> (r: bool)
    requires
        i < net.nodes@.len(),
    ensures
        out ==> r == forall|k: int|
            0 <= k < net.nodes@[i as int].out_links@.len() ==> net.links@.contains_key(
                #[trigger] net.nodes@[i as int].out_links@[k],
            ) && net.links@[net.nodes@[i as int].out_links@[k]].from == net.nodes@[i as int].id,
        !out ==> r == forall|k: int|
            0 <= k < net.nodes@[i as int].in_links@.len() ==> net.links@.contains_key(
                #[trigger] net.nodes@[i as int].in_links@[k],
            ) && net.links@[net.nodes@[i as int].in_links@[k]].to == net.nodes@[i as int].id,
{
    let node = &net.nodes[i];
    let ids = if out {
        &node.out_links
    } else {
        &node.in_links
    };
    let mut k: usize = 0;
    while k < ids.len()
        invariant
            node == net.nodes@[i as int],
            out ==> ids@ == node.out_links@,
            !out ==> ids@ == node.in_links@,
            k <= ids@.len(),
            forall|q: int|
                0 <= q < k ==> net.links@.contains_key(#[trigger] ids@[q]) && (if out {
                    net.links@[ids@[q]].from == node.id
                } else {
                    net.links@[ids@[q]].to == node.id
                }),
        decreases ids.len() - k,
    {
        match net.links.get(&ids[k]) {
            None => {
                return false;
            },
            Some(link) => {
                let end = if out {
                    link.from
                } else {
                    link.to
                };
                if end != node.id {
                    return false;
                }
            },
        }
        k = k + 1;
    }
    true
}

/// Whether some node with the given id lists the link among its out-links (`out`) or its
/// in-links.
fn listed_at(net: &Network, node_id: u64, l: u64, out: bool) -> (r: bool)
    ensures
        out ==> r == exists|i: int|
            0 <= i < net.nodes@.len() && net.nodes@[i].id == node_id && #[trigger] net.nodes@[i].out_links@.contains(l),
        !out ==> r == exists|i: int|
            0 <= i < net.nodes@.len() && net.nodes@[i].id == node_id && #[trigger] net.nodes@[i].in_links@.contains(l),
{
    let mut i: usize = 0;
    while i < net.nodes.len()
        invariant
            i <= net.nodes@.len(),
            out ==> forall|q: int|
                0 <= q < i ==> !(net.nodes@[q].id == node_id && #[trigger] net.nodes@[q].out_links@.contains(l)),
            !out ==> forall|q: int|
                0 <= q < i ==> !(net.nodes@[q].id == node_id && #[trigger] net.nodes@[q].in_links@.contains(l)),
        decreases net.nodes.len() - i,
    {
        let node = &net.nodes[i];
        if node.id == node_id {
            let found = if out {
                ids_contain(&node.out_links, l)
            } else {
                ids_contain(&node.in_links, l)
            };
            if found {
                return true;
            }
        }
        i = i + 1;
    }
    false
}

/// The link is listed among the out-links of a node with its start id and among the
/// in-links of a node with its end id.
spec fn listed_at_both_ends(net: &Network, l: u64) -> bool {
    &&& exists|a: int|
        0 <= a < net.nodes@.len() && net.nodes@[a].id == net.links@[l].from
            && #[trigger] net.nodes@[a].out_links@.contains(l)
    &&& exists|b: int|
        0 <= b < net.nodes@.len() && net.nodes@[b].id == net.links@[l].to
            && #[trigger] net.nodes@[b].in_links@.contains(l)
}

/// Whether the network lists each link at both its ends, and only there (`links_at_ends`).
pub fn has_links_at_ends(net: &Network) -> (r: bool)
    ensures
        r == links_at_ends(net),
{
    let mut i: usize = 0;
    while i < net.nodes.len()
        invariant
            i <= net.nodes@.len(),
            forall|q: int, k: int|
                #![trigger net.nodes@[q].out_links@[k]]
                0 <= q < i && 0 <= k < net.nodes@[q].out_links@.len() ==> {
                    &&& net.links@.contains_key(net.nodes@[q].out_links@[k])
                    &&& net.links@[net.nodes@[q].out_links@[k]].from == net.nodes@[q].id
                },
            forall|q: int, k: int|
                #![trigger net.nodes@[q].in_links@[k]]
                0 <= q < i && 0 <= k < net.nodes@[q].in_links@.len() ==> {
                    &&& net.links@.contains_key(net.nodes@[q].in_links@[k])
                    &&& net.links@[net.nodes@[q].in_links@[k]].to == net.nodes@[q].id
                },
            forall|q: int|
                0 <= q < i ==> (#[trigger] net.nodes@[q]).out_links@.no_duplicates()
                    && net.nodes@[q].in_links@.no_duplicates(),
        decreases net.nodes.len() - i,
    {
        let outs_ok = node_lists_ok(net, i, true);
        if !outs_ok {
            return false;
        }
        let ins_ok = node_lists_ok(net, i, false);
        if !ins_ok {
            return false;
        }
        if !ids_distinct(&net.nodes[i].out_links) || !ids_distinct(&net.nodes[i].in_links) {
            return false;
        }
        i = i + 1;
    }
    let ids = crate::collections::map_keys(&net.links);
    let mut j: usize = 0;
    while j < ids.len()
        invariant
            i == net.nodes@.len(),
            ids@.to_set() == net.links@.dom(),
            j <= ids@.len(),
            forall|q: int, k: int|
                #![trigger net.nodes@[q].out_links@[k]]
                0 <= q < i && 0 <= k < net.nodes@[q].out_links@.len() ==> {
                    &&& net.links@.contains_key(net.nodes@[q].out_links@[k])
                    &&& net.links@[net.nodes@[q].out_links@[k]].from == net.nodes@[q].id
                },
            forall|q: int, k: int|
                #![trigger net.nodes@[q].in_links@[k]]
                0 <= q < i && 0 <= k < net.nodes@[q].in_links@.len() ==> {
                    &&& net.links@.contains_key(net.nodes@[q].in_links@[k])
                    &&& net.links@[net.nodes@[q].in_links@[k]].to == net.nodes@[q].id
                },
            forall|q: int|
                0 <= q < i ==> (#[trigger] net.nodes@[q]).out_links@.no_duplicates()
                    && net.nodes@[q].in_links@.no_duplicates(),
            forall|t: int| 0 <= t < j ==> listed_at_both_ends(net, #[trigger] ids@[t]),
        decreases ids.len() - j,
    {
        let l = ids[j];
        proof {
            assert(ids@.to_set().contains(l));
        }
        let link = net.links.get(&l).unwrap();
        let from_ok = listed_at(net, link.from, l, true);
        let to_ok = listed_at(net, link.to, l, false);
        if !from_ok || !to_ok {
            return false;
        }
        proof {
            assert(*link == net.links@[l]);
            assert(listed_at_both_ends(net, l));
            assert(ids@[j as int] == l);
        }
        j = j + 1;
    }
    proof {
        assert forall|l: u64| #[trigger] net.links@.contains_key(l) implies listed_at_both_ends(
            net,
            l,
        ) by {
            assert(ids@.to_set().contains(l));
            let t = choose|t: int| 0 <= t < ids@.len() && ids@[t] == l;
            assert(ids@[t] == l);
        }
    }
    true
}

} // verus!
