use vstd::prelude::*;

verus! {

/// Who holds the population of a scenario: the scenario itself, with the whole population (at
/// startup and at the end), or the partitions, each with a share of it.
#[derive(Debug)]
pub enum GlobalPopulation<P> {
    Full(P),
    Partitioned,
}

/// A share of the population that is handed from one phase of the simulation to the next.
#[derive(Debug)]
pub struct PopulationShard<P> {
    pub population: P,
}

} // verus!
