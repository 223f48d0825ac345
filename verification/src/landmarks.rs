use crate::graph::{ForwardBackwardRoutingGraph, NodeIndex};
use rand::rngs::StdRng;
use rand::seq::IteratorRandom;
use rand::SeedableRng;
use vstd::prelude::*;

verus! {

/// The most landmarks that the landmark-based router uses.
pub const DEFAULT_NUMBER_OF_LANDMARKS: usize = 16;

/// The seed of the generator that picks the landmarks, so that every run picks the same ones.
pub const LANDMARK_SEED: u64 = 42;

/// How many landmarks a graph with `num_nodes` nodes gets: one per 16 nodes, rounded up, for
/// graphs of fewer than 256 nodes, and 16 for larger graphs.
pub open spec fn number_of_landmarks_spec(num_nodes: nat) -> nat {
    if num_nodes < 256 {
        ((num_nodes + 15) / 16) as nat
    } else {
        16
    }
}

/// How many landmarks a graph with `num_nodes` nodes gets.
pub fn number_of_landmarks(num_nodes: usize) -> (r: usize)
    ensures
        r == number_of_landmarks_spec(num_nodes as nat),
{
    if num_nodes < DEFAULT_NUMBER_OF_LANDMARKS * DEFAULT_NUMBER_OF_LANDMARKS {
        (num_nodes + 15) / 16
    } else {
        DEFAULT_NUMBER_OF_LANDMARKS
    }
}

/// Calls `IteratorRandom::sample` of the rand crate on the node indices `0..num_nodes`, with a
/// `StdRng` seeded from `seed`. The crate documents that it samples `amount` distinct elements,
/// or all of them when there are fewer; which ones it picks, and in which order, depends on the
/// generator, whose output the crate documents as platform dependent, so that is left unsaid.
#[verifier::external_body]
fn sample_node_indices(num_nodes: usize, amount: usize, seed: u64) -> (r: Vec<NodeIndex>)
    ensures
        r@.len() == if amount <= num_nodes {
            amount
        } else {
            num_nodes
        },
        r@.no_duplicates(),
        forall|i: int| 0 <= i < r@.len() ==> r@[i] < num_nodes,
{
    (0..num_nodes).sample(&mut StdRng::seed_from_u64(seed), amount)
}

/// Picks the landmarks of a graph: as many distinct node indices of the graph as
/// `number_of_landmarks` gives, drawn by a generator with a fixed seed.
pub fn choose_landmarks(graph: &ForwardBackwardRoutingGraph) -> (r: Vec<NodeIndex>)
    requires
        graph.wf(),
    ensures
        r@.len() == number_of_landmarks_spec(graph.n()),
        r@.no_duplicates(),
        forall|i: int| 0 <= i < r@.len() ==> r@[i] < graph.n(),
{
    let num_nodes = graph.num_nodes();
    let amount = number_of_landmarks(num_nodes);
    sample_node_indices(num_nodes, amount, LANDMARK_SEED)
}

} // verus!
