use std::collections::HashMap;
use vstd::prelude::*;

verus! {

/// The part of an agent's plan that travels with the agent's backpack.
#[derive(Debug)]
pub struct BackpackPlan {}

impl BackpackPlan {
    /// An empty plan.
    pub fn new() -> (r: Self)
        ensures
            r == (BackpackPlan {}),
    {
        BackpackPlan {}
    }
}

/// Records timing information for one partition of the simulation.
#[derive(Debug, Clone, Copy, PartialEq, Eq, Structural)]
pub struct Benchmark {
    pub rank: u32,
}

impl Benchmark {
    /// One benchmark for each of the partitions, with ranks 0 to `num_parts - 1` in order.
    pub fn setup_benchmark(num_parts: u32) -> (r: Vec<Benchmark>)
        ensures
            r@.len() == num_parts,
            forall|i: int| 0 <= i < r@.len() ==> (#[trigger] r@[i]).rank == i,
    {
        let mut r: Vec<Benchmark> = Vec::new();
        let mut n: u32 = 0;
        while n < num_parts
            invariant
                n <= num_parts,
                r@.len() == n,
                forall|i: int| 0 <= i < r@.len() ==> (#[trigger] r@[i]).rank == i,
            decreases num_parts - n,
        {
            r.push(Benchmark { rank: n });
            n = n + 1;
        }
        r
    }
}

/// The events that matter for scoring an agent and the part of its plan that travel with the
/// agent from partition to partition, with the partition it started on.
#[derive(Debug)]
pub struct Backpack<E> {
    pub person_id: u64,
    pub events: Vec<E>,
    pub backpack_plan: BackpackPlan,
    pub starting_partition: i32,
}

impl<E> Backpack<E> {
    /// An empty backpack of a person that starts on the given partition.
    pub fn new(person_id: u64, starting_partition: i32) -> (r: Self)
        ensures
            r.person_id == person_id,
            r.starting_partition == starting_partition,
            r.events@.len() == 0,
    {
        Backpack { person_id, events: Vec::new(), backpack_plan: BackpackPlan::new(), starting_partition }
    }

    /// Adds an event that matters for scoring.
    pub fn add_special_scoring_event(&mut self, event: E)
        ensures
            final(self).events@ == old(self).events@.push(event),
            final(self).person_id == old(self).person_id,
            final(self).starting_partition == old(self).starting_partition,
    {
        self.events.push(event);
    }

    /// The text that the backpack is sent as; it is the same for every backpack, as the
    /// backpack's contents are not written into it yet.
    pub fn to_message(self) -> (r: String)
        ensures
            r@ == "Hello"@,
    {
        String::from_str("Hello")
    }
}

/// The backpacks of the persons on a partition, by person.
#[derive(Debug)]
pub struct BackpackDataCollector<E> {
    pub person_id2backpack: HashMap<u64, Backpack<E>>,
}

impl<E> BackpackDataCollector<E> {
    /// A collector without backpacks.
    pub fn new() -> (r: Self)
        ensures
            r.person_id2backpack@ == Map::<u64, Backpack<E>>::empty(),
    {
        BackpackDataCollector { person_id2backpack: HashMap::new() }
    }

    /// Adds an event that matters for scoring to the backpack of the person, which must have
    /// one.
    pub fn add_special_scoring_event(&mut self, person: u64, event: E)
        requires
            old(self).person_id2backpack@.contains_key(person),
        ensures
            final(self).person_id2backpack@.dom() == old(self).person_id2backpack@.dom(),
            forall|p: u64|
                p != person && #[trigger] final(self).person_id2backpack@.contains_key(p)
                    ==> final(self).person_id2backpack@[p] == old(self).person_id2backpack@[p],
            final(self).person_id2backpack@[person].events@ == old(self).person_id2backpack@[person].events@.push(event),
            final(self).person_id2backpack@[person].person_id == old(self).person_id2backpack@[person].person_id,
            final(self).person_id2backpack@[person].starting_partition
                == old(self).person_id2backpack@[person].starting_partition,
    {
        let mut backpack = self.person_id2backpack.remove(&person).unwrap();
        backpack.add_special_scoring_event(event);
        self.person_id2backpack.insert(person, backpack);
        proof {
            assert(self.person_id2backpack@.dom() =~= old(self).person_id2backpack@.dom());
        }
    }
}

} // verus!
