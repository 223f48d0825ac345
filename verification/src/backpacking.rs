use crate::experienced_plans::{
    plan_accepts, plan_finishable, plan_finished_as, plan_stepped, ExperiencedEvent, PartialPlan,
};
use crate::collections::map_keys;
use crate::homesending::{PartitionEventKind, ScoringEventKind};
use crate::trip_structure::InternalPlan;
use crate::occupancy::{no_repeats, occupants, person_set, VehicleOccupancy};
use std::collections::{HashMap, HashSet};
use vstd::prelude::*;

verus! {

broadcast use vstd::std_specs::hash::group_hash_axioms;

/// The message with which a partition of the backpacking scoring announces that it has
/// finished, with the time it finished at.
#[derive(Debug, Clone, Copy, PartialEq, Eq, Structural)]
pub struct FinishMessage {
    pub time: u32,
}

/// The persons whose backpacks an event goes to in the backpacking scoring: the occupants of the
/// vehicle for the vehicle events (a link enter of an unknown vehicle reaches nobody), the named
/// person for the person events, and nobody otherwise.
pub open spec fn backpack_recipients(occ: Map<u64, Set<u64>>, kind: ScoringEventKind) -> Set<u64> {
    match kind {
        ScoringEventKind::LinkEnter { vehicle } => occupants(occ, vehicle),
        ScoringEventKind::VehicleEntersTraffic { vehicle } => occupants(occ, vehicle),
        ScoringEventKind::VehicleLeavesTraffic { vehicle } => occupants(occ, vehicle),
        ScoringEventKind::PersonArrival { person } => set![person],
        ScoringEventKind::PersonDeparture { person } => set![person],
        ScoringEventKind::ActivityStart { person } => set![person],
        ScoringEventKind::ActivityEnd { person } => set![person],
        ScoringEventKind::TeleportationArrival { person } => set![person],
        ScoringEventKind::PersonEntersVehicle { person, .. } => set![person],
        ScoringEventKind::PersonLeavesVehicle { person, .. } => set![person],
        ScoringEventKind::Other => Set::empty(),
    }
}

/// A vehicle event (a link enter, a vehicle entering or leaving traffic) reaches the backpacks
/// of exactly the persons sitting in the vehicle; a person event, boarding and alighting among
/// them, reaches the backpack of exactly the person it names; any other event reaches nobody.
pub proof fn lemma_backpack_recipients(occ: Map<u64, Set<u64>>, kind: ScoringEventKind)
    ensures
        kind matches ScoringEventKind::LinkEnter { vehicle } ==> backpack_recipients(occ, kind) == occupants(occ, vehicle),
        kind matches ScoringEventKind::VehicleEntersTraffic { vehicle } ==> backpack_recipients(occ, kind) == occupants(occ, vehicle),
        kind matches ScoringEventKind::VehicleLeavesTraffic { vehicle } ==> backpack_recipients(occ, kind) == occupants(occ, vehicle),
        kind matches ScoringEventKind::PersonArrival { person } ==> backpack_recipients(occ, kind) == set![person],
        kind matches ScoringEventKind::PersonDeparture { person } ==> backpack_recipients(occ, kind) == set![person],
        kind matches ScoringEventKind::ActivityStart { person } ==> backpack_recipients(occ, kind) == set![person],
        kind matches ScoringEventKind::ActivityEnd { person } ==> backpack_recipients(occ, kind) == set![person],
        kind matches ScoringEventKind::TeleportationArrival { person } ==> backpack_recipients(occ, kind) == set![person],
        kind matches ScoringEventKind::PersonEntersVehicle { person, .. } ==> backpack_recipients(occ, kind) == set![person],
        kind matches ScoringEventKind::PersonLeavesVehicle { person, .. } ==> backpack_recipients(occ, kind) == set![person],
        kind is Other ==> backpack_recipients(occ, kind).is_empty(),
{
}

/// The event is a link enter of a vehicle whose persons are not known yet but are on their way:
/// it waits until they have arrived.
pub open spec fn deferred_event(
    occ: Map<u64, Set<u64>>,
    pending: Set<u64>,
    kind: ScoringEventKind,
) -> bool {
    kind matches ScoringEventKind::LinkEnter { vehicle } && !occ.contains_key(vehicle) && pending.contains(
        vehicle,
    )
}

/// The backpack of a person: who it belongs to, the partition it started on, and the partial
/// plan it carries. It travels with the person from partition to partition.
#[derive(Debug)]
pub struct Backpack<P> {
    pub person_id: u64,
    pub starting_partition: u32,
    pub plan: P,
}

impl<P> Backpack<P> {
    /// The backpack of a person that starts on the given partition, with the given plan.
    pub fn new(person_id: u64, starting_partition: u32, plan: P) -> (r: Self)
        ensures
            r == (Backpack { person_id, starting_partition, plan }),
    {
        Backpack { person_id, starting_partition, plan }
    }

    /// The partition the backpack started on.
    pub fn get_starting_partion(&self) -> (r: u32)
        ensures
            r == self.starting_partition,
    {
        self.starting_partition
    }
}

impl Backpack<PartialPlan> {
    /// Hands an event of the person to the plan that the backpack carries.
    pub fn handle_event(&mut self, e: &ExperiencedEvent)
        requires
            plan_accepts(old(self).plan@, *e),
        ensures
            plan_stepped(old(self).plan@, final(self).plan@, *e),
            final(self).person_id == old(self).person_id,
            final(self).starting_partition == old(self).starting_partition,
    {
        self.plan.handle_event(e);
    }

    /// The person and the plan the person experienced.
    pub fn finish(self) -> (r: (u64, InternalPlan))
        requires
            plan_finishable(self.plan@),
        ensures
            r.0 == self.person_id,
            plan_finished_as(self.plan@, r.1),
    {
        (self.person_id, self.plan.finish())
    }
}

/// Whether the event is a link enter of a vehicle whose persons are not known yet but are on
/// their way.
fn is_deferred(occupancy: &VehicleOccupancy, pending: &HashSet<u64>, kind: ScoringEventKind) -> (r: bool)
    ensures
        r == deferred_event(occupancy@, pending@, kind),
{
    match kind {
        ScoringEventKind::LinkEnter { vehicle } => !occupancy.vehicles.contains_key(&vehicle)
            && pending.contains(&vehicle),
        _ => false,
    }
}

/// The persons whose backpacks receive the event, each once.
fn event_recipients(occupancy: &VehicleOccupancy, kind: ScoringEventKind) -> (r: Vec<u64>)
    requires
        occupancy.wf(),
    ensures
        person_set(r@) == backpack_recipients(occupancy@, kind),
        no_repeats(r@),
        kind matches ScoringEventKind::LinkEnter { vehicle } ==> person_set(r@) == occupants(occupancy@, vehicle),
        kind matches ScoringEventKind::VehicleEntersTraffic { vehicle } ==> person_set(r@) == occupants(occupancy@, vehicle),
        kind matches ScoringEventKind::VehicleLeavesTraffic { vehicle } ==> person_set(r@) == occupants(occupancy@, vehicle),
        kind matches ScoringEventKind::PersonArrival { person } ==> r@ == seq![person],
        kind matches ScoringEventKind::PersonDeparture { person } ==> r@ == seq![person],
        kind matches ScoringEventKind::ActivityStart { person } ==> r@ == seq![person],
        kind matches ScoringEventKind::ActivityEnd { person } ==> r@ == seq![person],
        kind matches ScoringEventKind::TeleportationArrival { person } ==> r@ == seq![person],
        kind matches ScoringEventKind::PersonEntersVehicle { person, .. } ==> r@ == seq![person],
        kind matches ScoringEventKind::PersonLeavesVehicle { person, .. } ==> r@ == seq![person],
        kind is Other ==> r@.len() == 0,
{
    proof {
        lemma_backpack_recipients(occupancy@, kind);
    }
    match kind {
        ScoringEventKind::LinkEnter { vehicle } => occupancy.passengers(vehicle),
        ScoringEventKind::VehicleEntersTraffic { vehicle } => occupancy.passengers(vehicle),
        ScoringEventKind::VehicleLeavesTraffic { vehicle } => occupancy.passengers(vehicle),
        ScoringEventKind::PersonArrival { person } => vec![person],
        ScoringEventKind::PersonDeparture { person } => vec![person],
        ScoringEventKind::ActivityStart { person } => vec![person],
        ScoringEventKind::ActivityEnd { person } => vec![person],
        ScoringEventKind::TeleportationArrival { person } => vec![person],
        ScoringEventKind::PersonEntersVehicle { person, .. } => vec![person],
        ScoringEventKind::PersonLeavesVehicle { person, .. } => vec![person],
        ScoringEventKind::Other => {
            let r: Vec<u64> = Vec::new();
            proof {
                assert(person_set(r@) =~= Set::<u64>::empty());
            }
            r
        },
    }
}

/// The backpacks after `event` has been handed to the backpacks of `persons`: each of those
/// plans takes the event, and every other backpack stays as it was.
pub open spec fn delivered(
    before: Map<u64, Backpack<PartialPlan>>,
    after: Map<u64, Backpack<PartialPlan>>,
    persons: Set<u64>,
    event: ExperiencedEvent,
) -> bool {
    &&& after.dom() == before.dom()
    &&& forall|p: u64|
        #[trigger] after.contains_key(p) && !persons.contains(p) ==> after[p] == before[p]
    &&& forall|p: u64|
        #[trigger] after.contains_key(p) && persons.contains(p) ==> {
            &&& plan_stepped(before[p].plan@, after[p].plan@, event)
            &&& after[p].person_id == before[p].person_id
            &&& after[p].starting_partition == before[p].starting_partition
        }
}

impl BackpackingDataCollector<ExperiencedEvent, PartialPlan> {
    /// Handles an event: a link enter of a vehicle whose persons are on their way is held back;
    /// otherwise the event is handed to the backpack of every person it concerns, which must be
    /// here and able to take it.
    pub fn deliver_event(&mut self, kind: ScoringEventKind, event: ExperiencedEvent)
        requires
            old(self).occupancy.wf(),
            !deferred_event(old(self).occupancy@, old(self).pending_vehicles@, kind) ==> forall|p: u64|
                #[trigger] backpack_recipients(old(self).occupancy@, kind).contains(p) ==> old(self).backpacks@.contains_key(p)
                    && plan_accepts(old(self).backpacks@[p].plan@, event),
        ensures
            final(self).rank == old(self).rank,
            final(self).occupancy == old(self).occupancy,
            final(self).pending_vehicles == old(self).pending_vehicles,
            deferred_event(old(self).occupancy@, old(self).pending_vehicles@, kind) ==> {
                &&& final(self).deferred_link_events@ == old(self).deferred_link_events@.push(event)
                &&& final(self).backpacks@ == old(self).backpacks@
            },
            !deferred_event(old(self).occupancy@, old(self).pending_vehicles@, kind) ==> {
                &&& final(self).deferred_link_events@ == old(self).deferred_link_events@
                &&& delivered(
                    old(self).backpacks@,
                    final(self).backpacks@,
                    backpack_recipients(old(self).occupancy@, kind),
                    event,
                )
            },
            !deferred_event(old(self).occupancy@, old(self).pending_vehicles@, kind) ==> (kind matches ScoringEventKind::LinkEnter { vehicle } ==> delivered(old(self).backpacks@, final(self).backpacks@, occupants(old(self).occupancy@, vehicle), event)),
            kind matches ScoringEventKind::VehicleEntersTraffic { vehicle } ==> delivered(old(self).backpacks@, final(self).backpacks@, occupants(old(self).occupancy@, vehicle), event),
            kind matches ScoringEventKind::VehicleLeavesTraffic { vehicle } ==> delivered(old(self).backpacks@, final(self).backpacks@, occupants(old(self).occupancy@, vehicle), event),
            kind matches ScoringEventKind::PersonArrival { person } ==> delivered(old(self).backpacks@, final(self).backpacks@, set![person], event),
            kind matches ScoringEventKind::PersonDeparture { person } ==> delivered(old(self).backpacks@, final(self).backpacks@, set![person], event),
            kind matches ScoringEventKind::ActivityStart { person } ==> delivered(old(self).backpacks@, final(self).backpacks@, set![person], event),
            kind matches ScoringEventKind::ActivityEnd { person } ==> delivered(old(self).backpacks@, final(self).backpacks@, set![person], event),
            kind matches ScoringEventKind::TeleportationArrival { person } ==> delivered(old(self).backpacks@, final(self).backpacks@, set![person], event),
            kind matches ScoringEventKind::PersonEntersVehicle { person, .. } ==> delivered(old(self).backpacks@, final(self).backpacks@, set![person], event),
            kind matches ScoringEventKind::PersonLeavesVehicle { person, .. } ==> delivered(old(self).backpacks@, final(self).backpacks@, set![person], event),
            kind is Other ==> final(self).backpacks@ == old(self).backpacks@,
    {
        proof {
            lemma_backpack_recipients(old(self).occupancy@, kind);
        }
        if is_deferred(&self.occupancy, &self.pending_vehicles, kind) {
            self.deferred_link_events.push(event);
            return;
        }
        let persons = event_recipients(&self.occupancy, kind);
        let ghost before = self.backpacks@;
        let ghost all = person_set(persons@);
        let mut i: usize = 0;
        while i < persons.len()
            invariant
                i <= persons@.len(),
                no_repeats(persons@),
                all == person_set(persons@),
                self.rank == old(self).rank,
                self.occupancy == old(self).occupancy,
                self.pending_vehicles == old(self).pending_vehicles,
                self.deferred_link_events == old(self).deferred_link_events,
                forall|p: u64| #[trigger] all.contains(p) ==> before.contains_key(p) && plan_accepts(before[p].plan@, event),
                self.backpacks@.dom() == before.dom(),
                forall|p: u64|
                    #[trigger] self.backpacks@.contains_key(p) && !persons@.take(i as int).contains(p)
                        ==> self.backpacks@[p] == before[p],
                forall|p: u64|
                    #[trigger] self.backpacks@.contains_key(p) && persons@.take(i as int).contains(p) ==> {
                        &&& plan_stepped(before[p].plan@, self.backpacks@[p].plan@, event)
                        &&& self.backpacks@[p].person_id == before[p].person_id
                        &&& self.backpacks@[p].starting_partition == before[p].starting_partition
                    },
            decreases persons.len() - i,
        {
            let p = persons[i];
            let ghost taken = persons@.take(i as int);
            let ghost next = persons@.take(i + 1);
            proof {
                assert(all.contains(p));
                assert(!taken.contains(p)) by {
                    if taken.contains(p) {
                        let w = choose|w: int| 0 <= w < taken.len() && taken[w] == p;
                        assert(persons@[w] == persons@[i as int]);
                    }
                }
                assert forall|q: u64| next.contains(q) <==> (taken.contains(q) || q == p) by {
                    if next.contains(q) {
                        let w = choose|w: int| 0 <= w < next.len() && next[w] == q;
                        if w < i {
                            assert(taken[w] == q);
                        }
                    }
                    if taken.contains(q) {
                        let w = choose|w: int| 0 <= w < taken.len() && taken[w] == q;
                        assert(next[w] == q);
                    }
                    if q == p {
                        assert(next[i as int] == q);
                    }
                }
            }
            let mut backpack = self.backpacks.remove(&p).unwrap();
            backpack.handle_event(&event);
            self.backpacks.insert(p, backpack);
            proof {
                assert(self.backpacks@.dom() =~= before.dom());
            }
            i = i + 1;
        }
        proof {
            assert(persons@.take(persons@.len() as int) == persons@);
        }
    }
}

/// The backpacks after a new backpack, starting on `rank`, has been made for each person with
/// its plan, in order; a later one replaces an earlier one of the same person.
pub open spec fn with_new_backpacks<P>(
    m: Map<u64, Backpack<P>>,
    persons: Seq<(u64, P)>,
    rank: u32,
) -> Map<u64, Backpack<P>>
    decreases persons.len(),
{
    if persons.len() == 0 {
        m
    } else {
        let (p, plan) = persons.last();
        with_new_backpacks(m, persons.drop_last(), rank).insert(
            p,
            Backpack { person_id: p, starting_partition: rank, plan },
        )
    }
}

/// The backpack of a person that did not start on `rank` and has to go back to the partition it
/// started on.
pub open spec fn is_foreign<P>(m: Map<u64, Backpack<P>>, p: u64, rank: u32) -> bool {
    m.contains_key(p) && m[p].starting_partition != rank
}

/// What a partition of the backpacking scoring does with a partition event: hand a leaving
/// vehicle with its persons, or a leaving person's backpack, to the partition it goes to, or wait
/// for the backpack of a person, or the persons of a vehicle, that entered.
#[derive(Debug)]
pub enum BackpackAction<P> {
    SendVehicle { to: u32, vehicle: u64, persons: Vec<u64> },
    SendBackpack { to: u32, backpack: Backpack<P> },
    WaitForBackpack { person: u64 },
    WaitForVehicle { vehicle: u64 },
}

/// The bookkeeping of the backpacking scoring on one partition: who sits in which vehicle, the
/// vehicles that crossed into the partition while their persons are still on their way, the
/// link enters of those vehicles, held back until the persons arrive, and the backpacks of the
/// persons on the partition, by person.
#[derive(Debug)]
pub struct BackpackingDataCollector<E, P> {
    pub occupancy: VehicleOccupancy,
    pub pending_vehicles: HashSet<u64>,
    pub deferred_link_events: Vec<E>,
    pub rank: u32,
    pub backpacks: HashMap<u64, Backpack<P>>,
}

impl<E, P> BackpackingDataCollector<E, P> {
    /// Every backpack is kept under the id of its person.
    pub open spec fn backpacks_keyed(&self) -> bool {
        forall|p: u64| #[trigger] self.backpacks@.contains_key(p) ==> self.backpacks@[p].person_id == p
    }

    /// A collector of partition `rank` that knows no vehicle and holds no event and no backpack.
    pub fn new(rank: u32) -> (r: Self)
        ensures
            r.occupancy.wf(),
            r.occupancy@ == Map::<u64, Set<u64>>::empty(),
            r.pending_vehicles@ == Set::<u64>::empty(),
            r.deferred_link_events@.len() == 0,
            r.rank == rank,
            r.backpacks@ == Map::<u64, Backpack<P>>::empty(),
            r.backpacks_keyed(),
    {
        BackpackingDataCollector {
            occupancy: VehicleOccupancy::new(),
            pending_vehicles: HashSet::new(),
            deferred_link_events: Vec::new(),
            rank,
            backpacks: HashMap::new(),
        }
    }

    /// Gives each person of the population a new backpack, starting on this partition, with
    /// its plan.
    pub fn generate_backpacks_for_population(&mut self, persons: Vec<(u64, P)>)
        requires
            old(self).backpacks_keyed(),
        ensures
            final(self).backpacks@ == with_new_backpacks(old(self).backpacks@, persons@, old(self).rank),
            final(self).backpacks_keyed(),
            final(self).rank == old(self).rank,
            final(self).occupancy == old(self).occupancy,
            final(self).pending_vehicles == old(self).pending_vehicles,
            final(self).deferred_link_events == old(self).deferred_link_events,
    {
        broadcast use vstd::std_specs::vec::axiom_spec_into_iter;

        let ghost all = persons@;
        let ghost start = self.backpacks@;
        let ghost rank = self.rank;
        let ghost occupancy = self.occupancy;
        let ghost pending = self.pending_vehicles;
        let ghost deferred = self.deferred_link_events;
        for entry in it: persons.into_iter()
            invariant
                it.seq() == all,
                self.rank == rank,
                self.occupancy == occupancy,
                self.pending_vehicles == pending,
                self.deferred_link_events == deferred,
                self.backpacks@ == with_new_backpacks(start, all.take(it.index()), rank),
                self.backpacks_keyed(),
        {
            let ghost i = it.index();
            proof {
                assert(all.take(i + 1).drop_last() == all.take(i));
                assert(all.take(i + 1).last() == entry);
            }
            let (person_id, plan) = entry;
            let backpack = Backpack::new(person_id, self.rank, plan);
            self.backpacks.insert(person_id, backpack);
        }
        proof {
            assert(all.take(all.len() as int) == all);
        }
    }

    /// Takes the backpack of a person who leaves the partition; the person must have one here.
    pub fn remove_leaving_backpack(&mut self, person_id: u64) -> (r: Backpack<P>)
        requires
            old(self).backpacks@.contains_key(person_id),
            old(self).backpacks_keyed(),
        ensures
            r == old(self).backpacks@[person_id],
            r.person_id == person_id,
            final(self).backpacks@ == old(self).backpacks@.remove(person_id),
            final(self).backpacks_keyed(),
            final(self).rank == old(self).rank,
            final(self).occupancy == old(self).occupancy,
            final(self).pending_vehicles == old(self).pending_vehicles,
            final(self).deferred_link_events == old(self).deferred_link_events,
    {
        self.backpacks.remove(&person_id).unwrap()
    }

    /// Keeps the backpack of a person who arrived on the partition, under the person's id.
    pub fn add_arriving_backpack(&mut self, backpack: Backpack<P>)
        requires
            old(self).backpacks_keyed(),
        ensures
            final(self).backpacks@ == old(self).backpacks@.insert(backpack.person_id, backpack),
            final(self).backpacks_keyed(),
            final(self).rank == old(self).rank,
            final(self).occupancy == old(self).occupancy,
            final(self).pending_vehicles == old(self).pending_vehicles,
            final(self).deferred_link_events == old(self).deferred_link_events,
    {
        self.backpacks.insert(backpack.person_id, backpack);
    }

    /// At the end of the simulation, takes every backpack that started on another partition, to
    /// be sent back there; the backpacks that started here stay.
    pub fn take_foreign_backpacks(&mut self) -> (r: Vec<Backpack<P>>)
        requires
            old(self).backpacks_keyed(),
        ensures
            forall|p: u64|
                #[trigger] final(self).backpacks@.contains_key(p) <==> (old(self).backpacks@.contains_key(p)
                    && !is_foreign(old(self).backpacks@, p, old(self).rank)),
            forall|p: u64|
                #[trigger] final(self).backpacks@.contains_key(p) ==> final(self).backpacks@[p]
                    == old(self).backpacks@[p],
            forall|p: u64|
                is_foreign(old(self).backpacks@, p, old(self).rank) <==> exists|k: int|
                    0 <= k < r@.len() && (#[trigger] r@[k]).person_id == p,
            forall|k: int|
                0 <= k < r@.len() ==> #[trigger] r@[k] == old(self).backpacks@[r@[k].person_id],
            forall|a: int, b: int| 0 <= a < b < r@.len() ==> r@[a].person_id != r@[b].person_id,
            forall|p: u64|
                #[trigger] final(self).backpacks@.contains_key(p) ==> final(self).backpacks@[p].starting_partition
                    == final(self).rank,
            final(self).backpacks_keyed(),
            final(self).rank == old(self).rank,
            final(self).occupancy == old(self).occupancy,
            final(self).pending_vehicles == old(self).pending_vehicles,
            final(self).deferred_link_events == old(self).deferred_link_events,
    {
        let owners = map_keys(&self.backpacks);
        let ghost before = self.backpacks@;
        let ghost rank = self.rank;
        let ghost occupancy = self.occupancy;
        let ghost pending = self.pending_vehicles;
        let ghost deferred = self.deferred_link_events;
        let mut r: Vec<Backpack<P>> = Vec::new();
        let mut i: usize = 0;
        while i < owners.len()
            invariant
                i <= owners@.len(),
                owners@.to_set() == before.dom(),
                owners@.no_duplicates(),
                self.rank == rank,
                self.occupancy == occupancy,
                self.pending_vehicles == pending,
                self.deferred_link_events == deferred,
                self.backpacks_keyed(),
                forall|q: u64| before.contains_key(q) ==> #[trigger] before[q].person_id == q,
                forall|q: u64|
                    #[trigger] self.backpacks@.contains_key(q) <==> (before.contains_key(q) && !(
                    is_foreign(before, q, rank) && owners@.take(i as int).contains(q))),
                forall|q: u64|
                    #[trigger] self.backpacks@.contains_key(q) ==> self.backpacks@[q] == before[q],
                forall|q: u64|
                    (is_foreign(before, q, rank) && owners@.take(i as int).contains(q)) <==> exists|
                        k: int,
                    |
                        0 <= k < r@.len() && (#[trigger] r@[k]).person_id == q,
                forall|k: int| 0 <= k < r@.len() ==> #[trigger] r@[k] == before[r@[k].person_id],
                forall|k: int| 0 <= k < r@.len() ==> owners@.take(i as int).contains(#[trigger] r@[k].person_id),
                forall|a: int, b: int| 0 <= a < b < r@.len() ==> r@[a].person_id != r@[b].person_id,
            decreases owners.len() - i,
        {
            let p = owners[i];
            let ghost taken = owners@.take(i as int);
            let ghost next = owners@.take(i + 1);
            proof {
                assert(owners@.to_set().contains(p));
                assert(before.contains_key(p));
                assert(!taken.contains(p)) by {
                    if taken.contains(p) {
                        let w = choose|w: int| 0 <= w < taken.len() && taken[w] == p;
                        assert(owners@[w] == owners@[i as int]);
                    }
                }
                assert(next == taken.push(p));
                assert forall|q: u64| next.contains(q) <==> (taken.contains(q) || q == p) by {
                    if next.contains(q) {
                        let w = choose|w: int| 0 <= w < next.len() && next[w] == q;
                        if w < i {
                            assert(taken[w] == q);
                        }
                    }
                    if taken.contains(q) {
                        let w = choose|w: int| 0 <= w < taken.len() && taken[w] == q;
                        assert(next[w] == q);
                    }
                    if q == p {
                        assert(next[i as int] == q);
                    }
                }
                assert(self.backpacks@.contains_key(p));
            }
            let foreign = match self.backpacks.get(&p) {
                Some(b) => b.starting_partition != self.rank,
                None => false,
            };
            if foreign {
                let b = self.backpacks.remove(&p).unwrap();
                let ghost r_old = r@;
                r.push(b);
                proof {
                    assert(b == before[p]);
                    assert(b.person_id == p);
                    assert(r@[r_old.len() as int] == b);
                    assert forall|a: int, c: int| 0 <= a < c < r@.len() implies r@[a].person_id
                        != r@[c].person_id by {
                        if c == r_old.len() {
                            assert(r_old[a].person_id != p) by {
                                assert(taken.contains(r_old[a].person_id));
                            }
                        } else {
                            assert(r_old[a].person_id != r_old[c].person_id);
                        }
                    }
                    assert forall|q: u64|
                        (is_foreign(before, q, rank) && next.contains(q)) <==> exists|k: int|
                            0 <= k < r@.len() && (#[trigger] r@[k]).person_id == q by {
                        if is_foreign(before, q, rank) && next.contains(q) {
                            if q == p {
                                assert(r@[r_old.len() as int].person_id == q);
                            } else {
                                let k = choose|k: int| 0 <= k < r_old.len() && (#[trigger] r_old[k]).person_id == q;
                                assert(r@[k].person_id == q);
                            }
                        }
                        if exists|k: int| 0 <= k < r@.len() && (#[trigger] r@[k]).person_id == q {
                            let k = choose|k: int| 0 <= k < r@.len() && (#[trigger] r@[k]).person_id == q;
                            if k < r_old.len() {
                                assert(r_old[k].person_id == q);
                            }
                        }
                    }
                }
            } else {
                proof {
                    assert(!is_foreign(before, p, rank));
                }
            }
            i = i + 1;
        }
        proof {
            assert(owners@.take(owners@.len() as int) == owners@);
            assert forall|q: u64| before.contains_key(q) implies owners@.contains(q) by {
                assert(owners@.to_set().contains(q));
            }
        }
        r
    }

    /// Decides which persons' backpacks receive the event. A link enter of a vehicle whose
    /// persons are still on their way is held back and reaches nobody now.
    pub fn handle_event(&mut self, kind: ScoringEventKind, event: E) -> (r: Vec<u64>)
        requires
            old(self).occupancy.wf(),
        ensures
            final(self).rank == old(self).rank,
            final(self).backpacks == old(self).backpacks,
            final(self).occupancy == old(self).occupancy,
            final(self).pending_vehicles == old(self).pending_vehicles,
            deferred_event(old(self).occupancy@, old(self).pending_vehicles@, kind) ==> {
                &&& r@.len() == 0
                &&& final(self).deferred_link_events@ == old(self).deferred_link_events@.push(event)
            },
            !deferred_event(old(self).occupancy@, old(self).pending_vehicles@, kind) ==> {
                &&& person_set(r@) == backpack_recipients(old(self).occupancy@, kind)
                &&& no_repeats(r@)
                &&& final(self).deferred_link_events@ == old(self).deferred_link_events@
            },
            !deferred_event(old(self).occupancy@, old(self).pending_vehicles@, kind) ==> (kind matches ScoringEventKind::LinkEnter { vehicle } ==> person_set(r@) == occupants(old(self).occupancy@, vehicle)),
            kind matches ScoringEventKind::VehicleEntersTraffic { vehicle } ==> person_set(r@) == occupants(old(self).occupancy@, vehicle),
            kind matches ScoringEventKind::VehicleLeavesTraffic { vehicle } ==> person_set(r@) == occupants(old(self).occupancy@, vehicle),
            kind matches ScoringEventKind::PersonArrival { person } ==> r@ == seq![person],
            kind matches ScoringEventKind::PersonDeparture { person } ==> r@ == seq![person],
            kind matches ScoringEventKind::ActivityStart { person } ==> r@ == seq![person],
            kind matches ScoringEventKind::ActivityEnd { person } ==> r@ == seq![person],
            kind matches ScoringEventKind::TeleportationArrival { person } ==> r@ == seq![person],
            kind matches ScoringEventKind::PersonEntersVehicle { person, .. } ==> r@ == seq![person],
            kind matches ScoringEventKind::PersonLeavesVehicle { person, .. } ==> r@ == seq![person],
            kind is Other ==> r@.len() == 0,
    {
        if is_deferred(&self.occupancy, &self.pending_vehicles, kind) {
            self.deferred_link_events.push(event);
            return Vec::new();
        }
        event_recipients(&self.occupancy, kind)
    }

    /// Takes the held-back link enters, in the order they came, for handling again once the
    /// persons of their vehicles have arrived.
    pub fn replay_deferred_link_events(&mut self) -> (r: Vec<E>)
        ensures
            final(self).rank == old(self).rank,
            final(self).backpacks == old(self).backpacks,
            r@ == old(self).deferred_link_events@,
            final(self).deferred_link_events@.len() == 0,
            final(self).occupancy == old(self).occupancy,
            final(self).pending_vehicles == old(self).pending_vehicles,
    {
        let mut taken: Vec<E> = Vec::new();
        std::mem::swap(&mut taken, &mut self.deferred_link_events);
        taken
    }

    /// A vehicle crossed into the partition; its persons are on their way.
    pub fn wait_for_vehicle(&mut self, vehicle: u64)
        ensures
            final(self).rank == old(self).rank,
            final(self).backpacks == old(self).backpacks,
            final(self).pending_vehicles@ == old(self).pending_vehicles@.insert(vehicle),
            final(self).occupancy == old(self).occupancy,
            final(self).deferred_link_events == old(self).deferred_link_events,
    {
        self.pending_vehicles.insert(vehicle);
    }

    /// The persons of a vehicle have arrived: the vehicle is no longer waited for.
    pub fn add_arriving_vehicle(&mut self, vehicle: u64, persons: Vec<u64>)
        requires
            old(self).occupancy.wf(),
            no_repeats(persons@),
        ensures
            final(self).rank == old(self).rank,
            final(self).backpacks == old(self).backpacks,
            final(self).occupancy.wf(),
            final(self).occupancy@ == old(self).occupancy@.insert(vehicle, person_set(persons@)),
            final(self).pending_vehicles@ == old(self).pending_vehicles@.remove(vehicle),
            final(self).deferred_link_events == old(self).deferred_link_events,
    {
        self.occupancy.put_vehicle(vehicle, persons);
        self.pending_vehicles.remove(&vehicle);
    }

    /// Forgets a vehicle that leaves the partition and returns its persons; none when the
    /// vehicle was unknown.
    pub fn remove_leaving_vehicles(&mut self, vehicle_id: u64) -> (r: Vec<u64>)
        requires
            old(self).occupancy.wf(),
        ensures
            final(self).rank == old(self).rank,
            final(self).backpacks == old(self).backpacks,
            final(self).occupancy.wf(),
            final(self).occupancy@ == old(self).occupancy@.remove(vehicle_id),
            person_set(r@) == occupants(old(self).occupancy@, vehicle_id),
            no_repeats(r@),
            final(self).pending_vehicles == old(self).pending_vehicles,
            final(self).deferred_link_events == old(self).deferred_link_events,
    {
        self.occupancy.remove_vehicle(vehicle_id)
    }

    /// Decides what to do with a partition event. A vehicle that leaves is forgotten here and
    /// handed, with its persons, to the partition it goes to; a person who leaves takes the
    /// backpack along, which must be here. A person who enters is waited for with the backpack;
    /// a vehicle that enters is waited for with its persons.
    pub fn handle_partition_event(&mut self, kind: PartitionEventKind) -> (r: BackpackAction<P>)
        requires
            old(self).occupancy.wf(),
            old(self).backpacks_keyed(),
            kind matches PartitionEventKind::AgentLeavesPartition { person, .. }
                ==> old(self).backpacks@.contains_key(person),
        ensures
            final(self).occupancy.wf(),
            final(self).backpacks_keyed(),
            final(self).rank == old(self).rank,
            final(self).deferred_link_events == old(self).deferred_link_events,
            match kind {
                PartitionEventKind::VehicleLeavesPartition { vehicle, to } => {
                    &&& final(self).occupancy@ == old(self).occupancy@.remove(vehicle)
                    &&& final(self).pending_vehicles == old(self).pending_vehicles
                    &&& final(self).backpacks == old(self).backpacks
                    &&& r matches BackpackAction::SendVehicle { to: t, vehicle: v, persons } && t == to
                        && v == vehicle && person_set(persons@) == occupants(old(self).occupancy@, vehicle)
                        && no_repeats(persons@)
                },
                PartitionEventKind::AgentLeavesPartition { person, to } => {
                    &&& final(self).occupancy == old(self).occupancy
                    &&& final(self).pending_vehicles == old(self).pending_vehicles
                    &&& final(self).backpacks@ == old(self).backpacks@.remove(person)
                    &&& r matches BackpackAction::SendBackpack { to: t, backpack } && t == to && backpack
                        == old(self).backpacks@[person]
                },
                PartitionEventKind::AgentEntersPartition { person } => {
                    &&& final(self).occupancy == old(self).occupancy
                    &&& final(self).pending_vehicles == old(self).pending_vehicles
                    &&& final(self).backpacks == old(self).backpacks
                    &&& r matches BackpackAction::WaitForBackpack { person: q } && q == person
                },
                PartitionEventKind::VehicleEntersPartition { vehicle } => {
                    &&& final(self).occupancy == old(self).occupancy
                    &&& final(self).pending_vehicles@ == old(self).pending_vehicles@.insert(vehicle)
                    &&& final(self).backpacks == old(self).backpacks
                    &&& r matches BackpackAction::WaitForVehicle { vehicle: v } && v == vehicle
                },
            },
    {
        match kind {
            PartitionEventKind::VehicleLeavesPartition { vehicle, to } => {
                let persons = self.remove_leaving_vehicles(vehicle);
                BackpackAction::SendVehicle { to, vehicle, persons }
            },
            PartitionEventKind::AgentLeavesPartition { person, to } => {
                let backpack = self.remove_leaving_backpack(person);
                BackpackAction::SendBackpack { to, backpack }
            },
            PartitionEventKind::AgentEntersPartition { person } => BackpackAction::WaitForBackpack {
                person,
            },
            PartitionEventKind::VehicleEntersPartition { vehicle } => {
                self.wait_for_vehicle(vehicle);
                BackpackAction::WaitForVehicle { vehicle }
            },
        }
    }
}

impl<E> BackpackingDataCollector<E, PartialPlan> {
    /// At the end of the simulation, once the backpacks have come home, finishes the plan in
    /// every backpack and hands over each person with the plan; no backpack is kept.
    pub fn finish_backpacks(&mut self) -> (r: Vec<(u64, InternalPlan)>)
        requires
            old(self).backpacks_keyed(),
            forall|p: u64|
                #[trigger] old(self).backpacks@.contains_key(p) ==> plan_finishable(old(self).backpacks@[p].plan@),
        ensures
            final(self).backpacks@ == Map::<u64, Backpack<PartialPlan>>::empty(),
            forall|p: u64|
                old(self).backpacks@.contains_key(p) <==> exists|k: int|
                    0 <= k < r@.len() && (#[trigger] r@[k]).0 == p,
            forall|k: int|
                0 <= k < r@.len() ==> old(self).backpacks@.contains_key((#[trigger] r@[k]).0)
                    && plan_finished_as(old(self).backpacks@[r@[k].0].plan@, r@[k].1),
            forall|a: int, b: int| 0 <= a < b < r@.len() ==> r@[a].0 != r@[b].0,
            final(self).rank == old(self).rank,
            final(self).occupancy == old(self).occupancy,
            final(self).pending_vehicles == old(self).pending_vehicles,
            final(self).deferred_link_events == old(self).deferred_link_events,
    {
        let persons = map_keys(&self.backpacks);
        let ghost before = self.backpacks@;
        let mut r: Vec<(u64, InternalPlan)> = Vec::new();
        let mut i: usize = 0;
        while i < persons.len()
            invariant
                i <= persons@.len(),
                persons@.to_set() == before.dom(),
                persons@.no_duplicates(),
                forall|p: u64| #[trigger] before.contains_key(p) ==> plan_finishable(before[p].plan@),
                forall|p: u64| before.contains_key(p) ==> #[trigger] before[p].person_id == p,
                r@.len() == i,
                forall|k: int| 0 <= k < i ==> (#[trigger] r@[k]).0 == persons@[k],
                forall|k: int| 0 <= k < i ==> plan_finished_as(before[(#[trigger] r@[k]).0].plan@, r@[k].1),
                forall|p: u64|
                    #[trigger] self.backpacks@.contains_key(p) <==> (before.contains_key(p)
                        && !persons@.take(i as int).contains(p)),
                forall|p: u64| #[trigger] self.backpacks@.contains_key(p) ==> self.backpacks@[p] == before[p],
                self.rank == old(self).rank,
                self.occupancy == old(self).occupancy,
                self.pending_vehicles == old(self).pending_vehicles,
                self.deferred_link_events == old(self).deferred_link_events,
            decreases persons.len() - i,
        {
            let p = persons[i];
            proof {
                let taken = persons@.take(i as int);
                let next = persons@.take(i + 1);
                assert(persons@.to_set().contains(p));
                assert(!taken.contains(p)) by {
                    if taken.contains(p) {
                        let w = choose|w: int| 0 <= w < taken.len() && taken[w] == p;
                        assert(persons@[w] == persons@[i as int]);
                    }
                }
                assert forall|q: u64| next.contains(q) <==> (taken.contains(q) || q == p) by {
                    if next.contains(q) {
                        let w = choose|w: int| 0 <= w < next.len() && next[w] == q;
                        if w < i {
                            assert(taken[w] == q);
                        }
                    }
                    if taken.contains(q) {
                        let w = choose|w: int| 0 <= w < taken.len() && taken[w] == q;
                        assert(next[w] == q);
                    }
                    if q == p {
                        assert(next[i as int] == q);
                    }
                }
            }
            let backpack = self.backpacks.remove(&p).unwrap();
            let (person, plan) = backpack.finish();
            r.push((person, plan));
            i = i + 1;
        }
        proof {
            assert(persons@.take(persons@.len() as int) == persons@);
            assert forall|q: u64| before.contains_key(q) implies persons@.contains(q) by {
                assert(persons@.to_set().contains(q));
            }
            assert(self.backpacks@ =~= Map::<u64, Backpack<PartialPlan>>::empty());
            assert forall|q: u64| before.contains_key(q) <==> exists|k: int| 0 <= k < r@.len() && (#[trigger] r@[k]).0 == q by {
                if before.contains_key(q) {
                    assert(persons@.contains(q));
                    let k = choose|k: int| 0 <= k < persons@.len() && persons@[k] == q;
                    assert(r@[k].0 == q);
                }
                if exists|k: int| 0 <= k < r@.len() && (#[trigger] r@[k]).0 == q {
                    let k = choose|k: int| 0 <= k < r@.len() && (#[trigger] r@[k]).0 == q;
                    assert(persons@.to_set().contains(persons@[k]));
                }
            }
            assert forall|a: int, b: int| 0 <= a < b < r@.len() implies r@[a].0 != r@[b].0 by {
                assert(persons@[a] != persons@[b]);
            }
        }
        r
    }
}

} // verus!
