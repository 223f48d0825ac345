use crate::collections::map_keys;
use crate::experienced_plans::{
    experienced_plan, initial_plan, plan_finishable, plan_finished_as, replayable, replayed_as,
    ExperiencedEvent, PartialPlanView,
};
use crate::occupancy::{no_repeats, occupants, person_set, VehicleOccupancy};
use crate::trip_structure::InternalPlan;
use std::collections::HashMap;
use vstd::prelude::*;

verus! {

broadcast use vstd::std_specs::hash::group_hash_axioms;

/// The events that the home-sending scoring looks at, with the person or vehicle they name;
/// all other events are `Other`.
#[derive(Debug, Clone, Copy, PartialEq, Eq, Structural)]
pub enum ScoringEventKind {
    LinkEnter { vehicle: u64 },
    VehicleEntersTraffic { vehicle: u64 },
    VehicleLeavesTraffic { vehicle: u64 },
    PersonArrival { person: u64 },
    PersonDeparture { person: u64 },
    ActivityStart { person: u64 },
    ActivityEnd { person: u64 },
    TeleportationArrival { person: u64 },
    PersonEntersVehicle { person: u64, vehicle: u64 },
    PersonLeavesVehicle { person: u64, vehicle: u64 },
    Other,
}

/// Where an event for a person goes: to the collector of this partition when the person is at
/// home here, otherwise to the person's home partition.
#[derive(Debug, Clone, Copy, PartialEq, Eq, Structural)]
pub enum Delivery {
    Local,
    Leaving(u32),
}

/// The events that a partition sends to the home partitions of persons, by person.
#[derive(Debug)]
pub struct EventMessage<E> {
    pub events: HashMap<u64, Vec<E>>,
}

/// The partition events that a partition sends on, by person.
#[derive(Debug)]
pub struct PartitionEventMessage<P> {
    pub partition_events: HashMap<u64, P>,
}

/// The message with which a partition of the home-sending scoring announces that it has
/// finished.
#[derive(Debug)]
pub struct FinishMessage {}

/// The partition events: a vehicle or a person leaving for another partition, or entering this
/// one.
#[derive(Debug, Clone, Copy, PartialEq, Eq, Structural)]
pub enum PartitionEventKind {
    VehicleLeavesPartition { vehicle: u64, to: u32 },
    VehicleEntersPartition { vehicle: u64 },
    AgentLeavesPartition { person: u64, to: u32 },
    AgentEntersPartition { person: u64 },
}

/// What a partition does with a partition event: hand a leaving vehicle with its persons to the
/// partition it goes to, send the event on to the person's home partition, open a block for a
/// person who came back to its home partition here, or nothing.
#[derive(Debug)]
pub enum PartitionAction {
    SendVehicle { to: u32, vehicle: u64, persons: Vec<u64> },
    SendToHome { home: u32, person: u64 },
    OpenBlockHere { person: u64 },
    Ignore,
}

/// The persons an event concerns: the occupants of the vehicle for the vehicle events (none
/// when the vehicle is unknown), the named person for the person events, and nobody otherwise.
pub open spec fn affected_persons(occ: Map<u64, Set<u64>>, kind: ScoringEventKind) -> Set<u64> {
    match kind {
        ScoringEventKind::LinkEnter { vehicle } => occupants(occ, vehicle),
        ScoringEventKind::VehicleEntersTraffic { vehicle } => occupants(occ, vehicle),
        ScoringEventKind::VehicleLeavesTraffic { vehicle } => occupants(occ, vehicle),
        ScoringEventKind::PersonArrival { person } => set![person],
        ScoringEventKind::PersonDeparture { person } => set![person],
        ScoringEventKind::ActivityStart { person } => set![person],
        ScoringEventKind::ActivityEnd { person } => set![person],
        ScoringEventKind::TeleportationArrival { person } => set![person],
        ScoringEventKind::PersonEntersVehicle { person, .. } => set![person],
        ScoringEventKind::PersonLeavesVehicle { person, .. } => set![person],
        ScoringEventKind::Other => Set::empty(),
    }
}

/// A vehicle event (a link enter, a vehicle entering or leaving traffic) concerns exactly the
/// persons sitting in the vehicle; a person event, boarding and alighting among them, concerns
/// exactly the person it names; any other event concerns nobody.
pub proof fn lemma_event_concerns(occ: Map<u64, Set<u64>>, kind: ScoringEventKind)
    ensures
        kind matches ScoringEventKind::LinkEnter { vehicle } ==> affected_persons(occ, kind) == occupants(occ, vehicle),
        kind matches ScoringEventKind::VehicleEntersTraffic { vehicle } ==> affected_persons(occ, kind) == occupants(occ, vehicle),
        kind matches ScoringEventKind::VehicleLeavesTraffic { vehicle } ==> affected_persons(occ, kind) == occupants(occ, vehicle),
        kind matches ScoringEventKind::PersonArrival { person } ==> affected_persons(occ, kind) == set![person],
        kind matches ScoringEventKind::PersonDeparture { person } ==> affected_persons(occ, kind) == set![person],
        kind matches ScoringEventKind::ActivityStart { person } ==> affected_persons(occ, kind) == set![person],
        kind matches ScoringEventKind::ActivityEnd { person } ==> affected_persons(occ, kind) == set![person],
        kind matches ScoringEventKind::TeleportationArrival { person } ==> affected_persons(occ, kind) == set![person],
        kind matches ScoringEventKind::PersonEntersVehicle { person, .. } ==> affected_persons(occ, kind) == set![person],
        kind matches ScoringEventKind::PersonLeavesVehicle { person, .. } ==> affected_persons(occ, kind) == set![person],
        kind is Other ==> affected_persons(occ, kind).is_empty(),
{
}

/// The occupancy after the vehicles and their persons have been recorded in order, each
/// replacing what was known of its vehicle.
pub open spec fn with_vehicles(occ: Map<u64, Set<u64>>, s: Seq<(u64, Vec<u64>)>) -> Map<u64, Set<u64>>
    decreases s.len(),
{
    if s.len() == 0 {
        occ
    } else {
        with_vehicles(occ, s.drop_last()).insert(s.last().0, person_set(s.last().1@))
    }
}

/// The collector of the home-sending scoring on one partition: it knows every person's home
/// partition, holds the events of the persons at home here, and keeps track of who sits in
/// which vehicle.
#[derive(Debug)]
pub struct HomeSendingDataCollector<E> {
    pub person_id2home_partition: HashMap<u64, u32>,
    pub rank: u32,
    pub person_id2events: HashMap<u64, Vec<E>>,
    pub occupancy: VehicleOccupancy,
}

impl<E> HomeSendingDataCollector<E> {
    /// The delivery of an event for a person with the given home partition.
    pub open spec fn delivery_for(&self, p: u64) -> Delivery {
        if self.person_id2home_partition@[p] == self.rank {
            Delivery::Local
        } else {
            Delivery::Leaving(self.person_id2home_partition@[p])
        }
    }

    /// A collector with an empty list of events for every person of the population.
    pub fn new(persons: &[u64], person_id2home_partition: HashMap<u64, u32>, rank: u32) -> (c: Self)
        ensures
            c.occupancy.wf(),
            c.occupancy@ == Map::<u64, Set<u64>>::empty(),
            c.rank == rank,
            c.person_id2home_partition@ == person_id2home_partition@,
            forall|p: u64| #[trigger] c.person_id2events@.contains_key(p) <==> persons@.contains(p),
            forall|p: u64| #[trigger] c.person_id2events@.contains_key(p) ==> c.person_id2events@[p]@.len() == 0,
    {
        let mut events: HashMap<u64, Vec<E>> = HashMap::new();
        let mut i: usize = 0;
        while i < persons.len()
            invariant
                i <= persons@.len(),
                forall|p: u64|
                    #[trigger] events@.contains_key(p) <==> persons@.subrange(0, i as int).contains(p),
                forall|p: u64| #[trigger] events@.contains_key(p) ==> events@[p]@.len() == 0,
            decreases persons.len() - i,
        {
            let ghost before = events@;
            events.insert(persons[i], Vec::new());
            proof {
                let pre0 = persons@.subrange(0, i as int);
                let pre1 = persons@.subrange(0, i + 1);
                assert(pre1 =~= pre0.push(persons@[i as int]));
                assert forall|p: u64| #[trigger] events@.contains_key(p) <==> pre1.contains(p) by {
                    if pre0.contains(p) {
                        let t = choose|t: int| 0 <= t < pre0.len() && pre0[t] == p;
                        assert(pre1[t] == p);
                    }
                    if pre1.contains(p) && p != persons@[i as int] {
                        let t = choose|t: int| 0 <= t < pre1.len() && pre1[t] == p;
                        assert(pre0[t] == p);
                    }
                    assert(pre1[i as int] == persons@[i as int]);
                }
            }
            i = i + 1;
        }
        proof {
            assert(persons@.subrange(0, persons@.len() as int) =~= persons@);
        }
        HomeSendingDataCollector {
            person_id2home_partition,
            rank,
            person_id2events: events,
            occupancy: VehicleOccupancy::new(),
        }
    }

    /// Whether the person's home partition is this one.
    pub fn is_person_at_home(&self, person_id: u64) -> (r: bool)
        requires
            self.person_id2home_partition@.contains_key(person_id),
        ensures
            r == (self.person_id2home_partition@[person_id] == self.rank),
    {
        *self.person_id2home_partition.get(&person_id).unwrap() == self.rank
    }

    /// Records the vehicles that arrived from another partition, with their persons.
    pub fn add_arriving_vehicles(&mut self, arriving: Vec<(u64, Vec<u64>)>)
        requires
            old(self).occupancy.wf(),
            forall|k: int| 0 <= k < arriving@.len() ==> no_repeats((#[trigger] arriving@[k]).1@),
        ensures
            final(self).occupancy.wf(),
            final(self).occupancy@ == with_vehicles(old(self).occupancy@, arriving@),
            final(self).person_id2home_partition == old(self).person_id2home_partition,
            final(self).rank == old(self).rank,
            final(self).person_id2events == old(self).person_id2events,
    {
        let ghost occ0 = self.occupancy@;
        let ghost all = arriving@;
        let total = arriving.len();
        let mut arriving = arriving;
        let mut rest: Vec<(u64, Vec<u64>)> = Vec::new();
        // Reverse the list so that the vehicles can be taken from its end in their order.
        while arriving.len() > 0
            invariant
                all == arriving@ + rest@.reverse(),
            decreases arriving.len(),
        {
            let ghost a0 = arriving@;
            let ghost r0 = rest@;
            let x = arriving.pop().unwrap();
            rest.push(x);
            proof {
                assert(a0 =~= arriving@.push(x));
                assert(rest@.reverse() =~= seq![x] + r0.reverse());
                assert(all =~= arriving@ + rest@.reverse());
            }
        }
        proof {
            assert(all =~= rest@.reverse());
        }
        let mut done: usize = 0;
        while rest.len() > 0
            invariant
                self.occupancy.wf(),
                all == all.subrange(0, done as int) + rest@.reverse(),
                done <= all.len(),
                all.len() == total,
                done + rest@.len() == total,
                self.occupancy@ == with_vehicles(occ0, all.subrange(0, done as int)),
                forall|k: int| 0 <= k < all.len() ==> no_repeats((#[trigger] all[k]).1@),
                self.person_id2home_partition == old(self).person_id2home_partition,
                self.rank == old(self).rank,
                self.person_id2events == old(self).person_id2events,
            decreases rest.len(),
        {
            let ghost r0 = rest@;
            let (vehicle, persons) = rest.pop().unwrap();
            proof {
                assert(r0 =~= rest@.push((vehicle, persons)));
                assert(r0.reverse() =~= seq![(vehicle, persons)] + rest@.reverse());
                assert(all[done as int] == (vehicle, persons));
                assert(no_repeats(persons@));
            }
            let ghost pv = persons@;
            self.occupancy.put_vehicle(vehicle, persons);
            proof {
                assert(all.subrange(0, done + 1).drop_last() =~= all.subrange(0, done as int));
                assert(all.subrange(0, done + 1).last() == (vehicle, persons));
                assert(all =~= all.subrange(0, done + 1) + rest@.reverse());
            }
            done = done + 1;
        }
        proof {
            assert(all.subrange(0, done as int) =~= all);
        }
    }

    /// Appends events that arrived for a person, in their order.
    pub fn add_arriving_events(&mut self, person_id: u64, arriving_events: Vec<E>)
        requires
            old(self).person_id2events@.contains_key(person_id),
        ensures
            final(self).person_id2events@ == old(self).person_id2events@.insert(
                person_id,
                final(self).person_id2events@[person_id],
            ),
            final(self).person_id2events@[person_id]@ == old(self).person_id2events@[person_id]@
                + arriving_events@,
            final(self).person_id2home_partition == old(self).person_id2home_partition,
            final(self).rank == old(self).rank,
            final(self).occupancy == old(self).occupancy,
    {
        let mut arriving_events = arriving_events;
        let mut list = self.person_id2events.remove(&person_id).unwrap();
        list.append(&mut arriving_events);
        self.person_id2events.insert(person_id, list);
    }

    /// Forgets a vehicle that leaves the partition and returns its persons; none when the vehicle
    /// was unknown.
    pub fn remove_leaving_vehicles(&mut self, vehicle_id: u64) -> (r: Vec<u64>)
        requires
            old(self).occupancy.wf(),
        ensures
            final(self).occupancy.wf(),
            final(self).occupancy@ == old(self).occupancy@.remove(vehicle_id),
            person_set(r@) == occupants(old(self).occupancy@, vehicle_id),
            no_repeats(r@),
            final(self).person_id2home_partition == old(self).person_id2home_partition,
            final(self).rank == old(self).rank,
            final(self).person_id2events == old(self).person_id2events,
    {
        self.occupancy.remove_vehicle(vehicle_id)
    }

    /// A person entered a vehicle.
    pub fn on_person_enters_vehicle(&mut self, vehicle: u64, person: u64)
        requires
            old(self).occupancy.wf(),
        ensures
            final(self).occupancy.wf(),
            final(self).occupancy@ == old(self).occupancy@.insert(
                vehicle,
                occupants(old(self).occupancy@, vehicle).insert(person),
            ),
            final(self).person_id2home_partition == old(self).person_id2home_partition,
            final(self).rank == old(self).rank,
            final(self).person_id2events == old(self).person_id2events,
    {
        self.occupancy.board(vehicle, person);
    }

    /// A person left a vehicle: the vehicle is forgotten with all its persons.
    pub fn on_person_leaves_vehicle(&mut self, vehicle: u64)
        requires
            old(self).occupancy.wf(),
        ensures
            final(self).occupancy.wf(),
            final(self).occupancy@ == old(self).occupancy@.remove(vehicle),
            final(self).person_id2home_partition == old(self).person_id2home_partition,
            final(self).rank == old(self).rank,
            final(self).person_id2events == old(self).person_id2events,
    {
        let _persons = self.occupancy.remove_vehicle(vehicle);
    }

    /// Decides what to do with a partition event. A vehicle that leaves is forgotten here and
    /// handed, with its persons, to the partition it goes to. A person who leaves has the event
    /// sent to its home partition; so has a person who enters, unless this partition is the
    /// person's home, where a block is opened for it instead. A vehicle that enters is left to
    /// the events that follow.
    pub fn handle_partition_event(&mut self, kind: PartitionEventKind) -> (r: PartitionAction)
        requires
            old(self).occupancy.wf(),
            kind matches PartitionEventKind::AgentLeavesPartition { person, .. }
                ==> old(self).person_id2home_partition@.contains_key(person),
            kind matches PartitionEventKind::AgentEntersPartition { person }
                ==> old(self).person_id2home_partition@.contains_key(person),
        ensures
            final(self).occupancy.wf(),
            final(self).person_id2home_partition == old(self).person_id2home_partition,
            final(self).rank == old(self).rank,
            final(self).person_id2events == old(self).person_id2events,
            match kind {
                PartitionEventKind::VehicleLeavesPartition { vehicle, to } => {
                    &&& final(self).occupancy@ == old(self).occupancy@.remove(vehicle)
                    &&& r matches PartitionAction::SendVehicle { to: t, vehicle: v, persons }
                        && t == to && v == vehicle && person_set(persons@) == occupants(
                        old(self).occupancy@,
                        vehicle,
                    ) && no_repeats(persons@)
                },
                PartitionEventKind::AgentLeavesPartition { person, .. } => {
                    &&& final(self).occupancy@ == old(self).occupancy@
                    &&& r matches PartitionAction::SendToHome { home, person: q } && q == person
                        && home == old(self).person_id2home_partition@[person]
                },
                PartitionEventKind::AgentEntersPartition { person } => {
                    &&& final(self).occupancy@ == old(self).occupancy@
                    &&& old(self).person_id2home_partition@[person] == old(self).rank ==> (
                    r matches PartitionAction::OpenBlockHere { person: q } && q == person)
                    &&& old(self).person_id2home_partition@[person] != old(self).rank ==> (
                    r matches PartitionAction::SendToHome { home, person: q } && q == person
                        && home == old(self).person_id2home_partition@[person])
                },
                PartitionEventKind::VehicleEntersPartition { .. } => {
                    &&& final(self).occupancy@ == old(self).occupancy@
                    &&& r matches PartitionAction::Ignore
                },
            },
    {
        match kind {
            PartitionEventKind::VehicleLeavesPartition { vehicle, to } => {
                let persons = self.remove_leaving_vehicles(vehicle);
                PartitionAction::SendVehicle { to, vehicle, persons }
            },
            PartitionEventKind::AgentLeavesPartition { person, .. } => {
                let home = *self.person_id2home_partition.get(&person).unwrap();
                PartitionAction::SendToHome { home, person }
            },
            PartitionEventKind::AgentEntersPartition { person } => {
                if self.is_person_at_home(person) {
                    PartitionAction::OpenBlockHere { person }
                } else {
                    let home = *self.person_id2home_partition.get(&person).unwrap();
                    PartitionAction::SendToHome { home, person }
                }
            },
            PartitionEventKind::VehicleEntersPartition { .. } => PartitionAction::Ignore,
        }
    }

    /// Decides, for an event, which persons it concerns and where it goes for each of them:
    /// kept on this partition for a person at home here, sent to the home partition otherwise.
    pub fn handle_event(&self, kind: ScoringEventKind) -> (r: Vec<(u64, Delivery)>)
        requires
            self.occupancy.wf(),
            forall|p: u64|
                #[trigger] affected_persons(self.occupancy@, kind).contains(p)
                    ==> self.person_id2home_partition@.contains_key(p),
        ensures
            forall|p: u64|
                affected_persons(self.occupancy@, kind).contains(p) <==> exists|k: int|
                    0 <= k < r@.len() && (#[trigger] r@[k]).0 == p,
            forall|k: int| 0 <= k < r@.len() ==> (#[trigger] r@[k]).1 == self.delivery_for(r@[k].0),
            forall|k: int|
                0 <= k < r@.len() ==> ((#[trigger] r@[k]).1 == Delivery::Local
                    <==> self.person_id2home_partition@[r@[k].0] == self.rank),
            forall|k: int|
                0 <= k < r@.len() && self.person_id2home_partition@[(#[trigger] r@[k]).0] != self.rank
                    ==> r@[k].1 == Delivery::Leaving(self.person_id2home_partition@[r@[k].0]),
            forall|a: int, b: int| 0 <= a < b < r@.len() ==> r@[a].0 != r@[b].0,
            kind matches ScoringEventKind::LinkEnter { vehicle } ==> forall|p: u64|
                occupants(self.occupancy@, vehicle).contains(p) <==> exists|k: int|
                    0 <= k < r@.len() && (#[trigger] r@[k]).0 == p,
            kind matches ScoringEventKind::VehicleEntersTraffic { vehicle } ==> forall|p: u64|
                occupants(self.occupancy@, vehicle).contains(p) <==> exists|k: int|
                    0 <= k < r@.len() && (#[trigger] r@[k]).0 == p,
            kind matches ScoringEventKind::VehicleLeavesTraffic { vehicle } ==> forall|p: u64|
                occupants(self.occupancy@, vehicle).contains(p) <==> exists|k: int|
                    0 <= k < r@.len() && (#[trigger] r@[k]).0 == p,
            kind matches ScoringEventKind::PersonArrival { person } ==> r@.len() == 1 && r@[0].0 == person,
            kind matches ScoringEventKind::PersonDeparture { person } ==> r@.len() == 1 && r@[0].0 == person,
            kind matches ScoringEventKind::ActivityStart { person } ==> r@.len() == 1 && r@[0].0 == person,
            kind matches ScoringEventKind::ActivityEnd { person } ==> r@.len() == 1 && r@[0].0 == person,
            kind matches ScoringEventKind::TeleportationArrival { person } ==> r@.len() == 1 && r@[0].0 == person,
            kind matches ScoringEventKind::PersonEntersVehicle { person, .. } ==> r@.len() == 1 && r@[0].0 == person,
            kind matches ScoringEventKind::PersonLeavesVehicle { person, .. } ==> r@.len() == 1 && r@[0].0 == person,
            kind is Other ==> r@.len() == 0,
    {
        proof {
            lemma_event_concerns(self.occupancy@, kind);
        }
        let persons: Vec<u64> = match kind {
            ScoringEventKind::LinkEnter { vehicle } => self.occupancy.passengers(vehicle),
            ScoringEventKind::VehicleEntersTraffic { vehicle } => self.occupancy.passengers(vehicle),
            ScoringEventKind::VehicleLeavesTraffic { vehicle } => self.occupancy.passengers(vehicle),
            ScoringEventKind::PersonArrival { person } => vec![person],
            ScoringEventKind::PersonDeparture { person } => vec![person],
            ScoringEventKind::ActivityStart { person } => vec![person],
            ScoringEventKind::ActivityEnd { person } => vec![person],
            ScoringEventKind::TeleportationArrival { person } => vec![person],
            ScoringEventKind::PersonEntersVehicle { person, .. } => vec![person],
            ScoringEventKind::PersonLeavesVehicle { person, .. } => vec![person],
            ScoringEventKind::Other => Vec::new(),
        };
        proof {
            assert(person_set(persons@) =~= affected_persons(self.occupancy@, kind));
            assert(no_repeats(persons@));
        }
        let mut r: Vec<(u64, Delivery)> = Vec::new();
        let mut i: usize = 0;
        while i < persons.len()
            invariant
                i <= persons@.len(),
                no_repeats(persons@),
                person_set(persons@) == affected_persons(self.occupancy@, kind),
                forall|p: u64|
                    #[trigger] affected_persons(self.occupancy@, kind).contains(p)
                        ==> self.person_id2home_partition@.contains_key(p),
                r@.len() == i,
                forall|k: int| 0 <= k < i ==> (#[trigger] r@[k]).0 == persons@[k],
                forall|k: int| 0 <= k < r@.len() ==> (#[trigger] r@[k]).1 == self.delivery_for(r@[k].0),
            decreases persons.len() - i,
        {
            let person = persons[i];
            proof {
                assert(person_set(persons@).contains(person));
            }
            let target = *self.person_id2home_partition.get(&person).unwrap();
            let delivery = if target == self.rank {
                Delivery::Local
            } else {
                Delivery::Leaving(target)
            };
            r.push((person, delivery));
            i = i + 1;
        }
        proof {
            assert forall|p: u64|
                affected_persons(self.occupancy@, kind).contains(p) <==> exists|k: int|
                    0 <= k < r@.len() && (#[trigger] r@[k]).0 == p by {
                if person_set(persons@).contains(p) {
                    let k = choose|k: int| 0 <= k < persons@.len() && persons@[k] == p;
                    assert(r@[k].0 == p);
                }
                if exists|k: int| 0 <= k < r@.len() && (#[trigger] r@[k]).0 == p {
                    let k = choose|k: int| 0 <= k < r@.len() && (#[trigger] r@[k]).0 == p;
                    assert(persons@[k] == p);
                }
            }
        }
        r
    }
}

/// The events of a person can be taken in order by a new plan, and the plan they lead to can be
/// finished.
pub open spec fn events_replayable(events: Seq<ExperiencedEvent>) -> bool {
    &&& replayable(initial_plan(), events)
    &&& forall|r: PartialPlanView| #[trigger] replayed_as(initial_plan(), events, r) ==> plan_finishable(r)
}

/// `plan` is the plan that the events rebuild.
pub open spec fn rebuilt_from(events: Seq<ExperiencedEvent>, plan: InternalPlan) -> bool {
    exists|r: PartialPlanView| #[trigger] replayed_as(initial_plan(), events, r) && plan_finished_as(r, plan)
}

impl HomeSendingDataCollector<ExperiencedEvent> {
    /// At the end of the simulation, rebuilds the plan of every person at home here from the
    /// person's events, and hands over each person with the plan; no events are kept.
    pub fn finish(&mut self) -> (r: Vec<(u64, InternalPlan)>)
        requires
            forall|p: u64|
                #[trigger] old(self).person_id2events@.contains_key(p) ==> events_replayable(
                    old(self).person_id2events@[p]@,
                ),
        ensures
            final(self).person_id2events@ == Map::<u64, Vec<ExperiencedEvent>>::empty(),
            forall|p: u64|
                old(self).person_id2events@.contains_key(p) <==> exists|k: int|
                    0 <= k < r@.len() && (#[trigger] r@[k]).0 == p,
            forall|k: int|
                0 <= k < r@.len() ==> old(self).person_id2events@.contains_key((#[trigger] r@[k]).0)
                    && rebuilt_from(old(self).person_id2events@[r@[k].0]@, r@[k].1),
            forall|a: int, b: int| 0 <= a < b < r@.len() ==> r@[a].0 != r@[b].0,
            final(self).person_id2home_partition == old(self).person_id2home_partition,
            final(self).rank == old(self).rank,
            final(self).occupancy == old(self).occupancy,
    {
        let persons = map_keys(&self.person_id2events);
        let ghost before = self.person_id2events@;
        let mut r: Vec<(u64, InternalPlan)> = Vec::new();
        let mut i: usize = 0;
        while i < persons.len()
            invariant
                i <= persons@.len(),
                persons@.to_set() == before.dom(),
                persons@.no_duplicates(),
                forall|p: u64| #[trigger] before.contains_key(p) ==> events_replayable(before[p]@),
                r@.len() == i,
                forall|k: int| 0 <= k < i ==> (#[trigger] r@[k]).0 == persons@[k],
                forall|k: int| 0 <= k < i ==> rebuilt_from(before[(#[trigger] r@[k]).0]@, r@[k].1),
                forall|p: u64|
                    #[trigger] self.person_id2events@.contains_key(p) <==> (before.contains_key(p)
                        && !persons@.take(i as int).contains(p)),
                forall|p: u64|
                    #[trigger] self.person_id2events@.contains_key(p) ==> self.person_id2events@[p]
                        == before[p],
                self.person_id2home_partition == old(self).person_id2home_partition,
                self.rank == old(self).rank,
                self.occupancy == old(self).occupancy,
            decreases persons.len() - i,
        {
            let p = persons[i];
            proof {
                assert(persons@.to_set().contains(p));
                assert(!persons@.take(i as int).contains(p)) by {
                    let taken = persons@.take(i as int);
                    if taken.contains(p) {
                        let w = choose|w: int| 0 <= w < taken.len() && taken[w] == p;
                        assert(persons@[w] == persons@[i as int]);
                    }
                }
                assert(persons@.take(i + 1) == persons@.take(i as int).push(p));
                let taken = persons@.take(i as int);
                let next = persons@.take(i + 1);
                assert forall|q: u64| next.contains(q) <==> (taken.contains(q) || q == p) by {
                    if next.contains(q) {
                        let w = choose|w: int| 0 <= w < next.len() && next[w] == q;
                        if w < i {
                            assert(taken[w] == q);
                        }
                    }
                    if taken.contains(q) {
                        let w = choose|w: int| 0 <= w < taken.len() && taken[w] == q;
                        assert(next[w] == q);
                    }
                    if q == p {
                        assert(next[i as int] == q);
                    }
                }
            }
            let events = self.person_id2events.remove(&p).unwrap();
            let plan = experienced_plan(&events);
            r.push((p, plan));
            i = i + 1;
        }
        proof {
            assert(persons@.take(persons@.len() as int) == persons@);
            assert forall|q: u64| before.contains_key(q) implies persons@.contains(q) by {
                assert(persons@.to_set().contains(q));
            }
            assert(self.person_id2events@ =~= Map::<u64, Vec<ExperiencedEvent>>::empty());
            assert forall|q: u64| before.contains_key(q) <==> exists|k: int| 0 <= k < r@.len() && (#[trigger] r@[k]).0 == q by {
                if before.contains_key(q) {
                    assert(persons@.contains(q));
                    let k = choose|k: int| 0 <= k < persons@.len() && persons@[k] == q;
                    assert(r@[k].0 == q);
                }
                if exists|k: int| 0 <= k < r@.len() && (#[trigger] r@[k]).0 == q {
                    let k = choose|k: int| 0 <= k < r@.len() && (#[trigger] r@[k]).0 == q;
                    assert(persons@.to_set().contains(persons@[k]));
                }
            }
            assert forall|a: int, b: int| 0 <= a < b < r@.len() implies r@[a].0 != r@[b].0 by {
                assert(persons@[a] != persons@[b]);
            }
        }
        r
    }
}

/// The events of one person collected on one partition while the person was there: whether an
/// enter event opened the block, the events, and the partition the person left for once the
/// block is closed.
#[derive(Debug)]
pub struct EventBlock<E> {
    pub entered: bool,
    pub events: Vec<E>,
    pub leave_to: Option<u32>,
}

/// The position of the block of partition `rank` in a person's blocks, if there is one.
pub open spec fn block_index<E>(blocks: Seq<(u32, EventBlock<E>)>, rank: u32) -> Option<int> {
    if exists|i: int| 0 <= i < blocks.len() && blocks[i].0 == rank {
        Some(choose|i: int| 0 <= i < blocks.len() && blocks[i].0 == rank)
    } else {
        None
    }
}

/// No partition has two blocks of the person.
pub open spec fn ranks_unique<E>(blocks: Seq<(u32, EventBlock<E>)>) -> bool {
    forall|a: int, b: int| 0 <= a < b < blocks.len() ==> blocks[a].0 != blocks[b].0
}

/// Handing on closed blocks: starting at partition `cur`, as long as the block of the current
/// partition is closed, its events are handed on and the person's current partition becomes
/// the one it left for. The result: the handed-on event lists in order, the final current
/// partition, and the blocks that remain.
pub open spec fn flush<E>(blocks: Seq<(u32, EventBlock<E>)>, cur: u32) -> (Seq<Seq<E>>, u32, Seq<
    (u32, EventBlock<E>),
>)
    decreases blocks.len(),
{
    match block_index(blocks, cur) {
        Some(i) => match blocks[i].1.leave_to {
            Some(next) => {
                let (rest, last, remaining) = flush(blocks.remove(i), next);
                (seq![blocks[i].1.events@] + rest, last, remaining)
            },
            None => (Seq::empty(), cur, blocks),
        },
        None => (Seq::empty(), cur, blocks),
    }
}

/// Finds the block of partition `rank` among a person's blocks.
fn find_block<E>(blocks: &Vec<(u32, EventBlock<E>)>, rank: u32) -> (r: Option<usize>)
    requires
        ranks_unique(blocks@),
    ensures
        r is None <==> block_index(blocks@, rank) is None,
        r matches Some(i) ==> block_index(blocks@, rank) == Some(i as int) && i < blocks@.len(),
{
    let mut i: usize = 0;
    while i < blocks.len()
        invariant
            i <= blocks@.len(),
            ranks_unique(blocks@),
            forall|k: int| 0 <= k < i ==> blocks@[k].0 != rank,
        decreases blocks.len() - i,
    {
        if blocks[i].0 == rank {
            proof {
                let c = choose|c: int| 0 <= c < blocks@.len() && blocks@[c].0 == rank;
                assert(c == i);
            }
            return Some(i);
        }
        i = i + 1;
    }
    None
}

proof fn lemma_remove_keeps_unique<E>(blocks: Seq<(u32, EventBlock<E>)>, i: int)
    requires
        ranks_unique(blocks),
        0 <= i < blocks.len(),
    ensures
        ranks_unique(blocks.remove(i)),
{
    assert forall|a: int, b: int| 0 <= a < b < blocks.remove(i).len() implies blocks.remove(i)[a].0
        != blocks.remove(i)[b].0 by {
        let aa = if a < i { a } else { a + 1 };
        let bb = if b < i { b } else { b + 1 };
        assert(blocks.remove(i)[a] == blocks[aa]);
        assert(blocks.remove(i)[b] == blocks[bb]);
    }
}

/// Handing on closed blocks loses no block and makes none up: every block is either handed on
/// or remains, and the remaining blocks are blocks the person had.
pub proof fn lemma_flush_conserves_blocks<E>(blocks: Seq<(u32, EventBlock<E>)>, cur: u32)
    requires
        ranks_unique(blocks),
    ensures
        flush(blocks, cur).0.len() + flush(blocks, cur).2.len() == blocks.len(),
        forall|k: int|
            0 <= k < flush(blocks, cur).2.len() ==> blocks.contains(#[trigger] flush(blocks, cur).2[k]),
        ranks_unique(flush(blocks, cur).2),
    decreases blocks.len(),
{
    match block_index(blocks, cur) {
        Some(i) => {
            let c = choose|i: int| 0 <= i < blocks.len() && blocks[i].0 == cur;
            assert(0 <= c < blocks.len());
            match blocks[i].1.leave_to {
                Some(next) => {
                    lemma_remove_keeps_unique(blocks, i);
                    lemma_flush_conserves_blocks(blocks.remove(i), next);
                    assert forall|k: int|
                        0 <= k < flush(blocks, cur).2.len() implies blocks.contains(
                        #[trigger] flush(blocks, cur).2[k],
                    ) by {
                        let x = flush(blocks, cur).2[k];
                        assert(blocks.remove(i).contains(x));
                        let t = choose|t: int| 0 <= t < blocks.remove(i).len() && blocks.remove(i)[t] == x;
                        if t < i {
                            assert(blocks[t] == x);
                        } else {
                            assert(blocks[t + 1] == x);
                        }
                    }
                },
                None => {
                    assert forall|k: int| 0 <= k < blocks.len() implies blocks.contains(#[trigger] blocks[k]) by {
                    }
                },
            }
        },
        None => {
            assert forall|k: int| 0 <= k < blocks.len() implies blocks.contains(#[trigger] blocks[k]) by {
            }
        },
    }
}

proof fn lemma_push_contains(s: Seq<u64>, x: u64, q: u64)
    ensures
        s.push(x).contains(q) <==> (s.contains(q) || q == x),
{
    if s.contains(q) {
        let t = choose|t: int| 0 <= t < s.len() && s[t] == q;
        assert(s.push(x)[t] == q);
    }
    if s.push(x).contains(q) && q != x {
        let t = choose|t: int| 0 <= t < s.push(x).len() && s.push(x)[t] == q;
        assert(s[t] == q);
    }
    assert(s.push(x)[s.len() as int] == x);
}

/// The blocks of the persons whose events arrive at a partition, and the partition each person
/// is currently in as far as the blocks handed on so far say.
#[derive(Debug)]
pub struct EventBlocks<E> {
    pub persons: Vec<u64>,
    pub blocks: HashMap<u64, Vec<(u32, EventBlock<E>)>>,
    pub current_partition: HashMap<u64, u32>,
}

impl<E> EventBlocks<E> {
    /// No person has two blocks for one partition, and the listed persons, each once, are
    /// those with blocks.
    pub open spec fn wf(&self) -> bool {
        &&& forall|p: u64| #[trigger] self.blocks@.contains_key(p) ==> ranks_unique(self.blocks@[p]@)
        &&& no_repeats(self.persons@)
        &&& forall|p: u64| self.blocks@.contains_key(p) <==> self.persons@.contains(p)
    }

    /// The blocks of a person; none when the person has no entry.
    pub open spec fn blocks_of(&self, p: u64) -> Seq<(u32, EventBlock<E>)> {
        if self.blocks@.contains_key(p) {
            self.blocks@[p]@
        } else {
            Seq::empty()
        }
    }

    /// Every person of the population starts at partition `rank` with an open block there.
    pub fn new(persons: &[u64], rank: u32) -> (r: Self)
        ensures
            r.wf(),
            forall|p: u64| #[trigger] r.current_partition@.contains_key(p) <==> persons@.contains(p),
            forall|p: u64| #[trigger] r.current_partition@.contains_key(p) ==> r.current_partition@[p] == rank,
            forall|p: u64| #[trigger] r.blocks@.contains_key(p) <==> persons@.contains(p),
            forall|p: u64|
                #[trigger] r.blocks@.contains_key(p) ==> {
                    &&& r.blocks@[p]@.len() == 1
                    &&& r.blocks@[p]@[0].0 == rank
                    &&& !r.blocks@[p]@[0].1.entered
                    &&& r.blocks@[p]@[0].1.events@.len() == 0
                    &&& r.blocks@[p]@[0].1.leave_to is None
                },
    {
        let mut blocks: HashMap<u64, Vec<(u32, EventBlock<E>)>> = HashMap::new();
        let mut current: HashMap<u64, u32> = HashMap::new();
        let mut listed: Vec<u64> = Vec::new();
        let mut i: usize = 0;
        while i < persons.len()
            invariant
                i <= persons@.len(),
                no_repeats(listed@),
                forall|p: u64| #[trigger] blocks@.contains_key(p) <==> listed@.contains(p),
                forall|p: u64| #[trigger] current@.contains_key(p) <==> persons@.subrange(0, i as int).contains(p),
                forall|p: u64| #[trigger] current@.contains_key(p) ==> current@[p] == rank,
                forall|p: u64| #[trigger] blocks@.contains_key(p) <==> persons@.subrange(0, i as int).contains(p),
                forall|p: u64|
                    #[trigger] blocks@.contains_key(p) ==> {
                        &&& blocks@[p]@.len() == 1
                        &&& blocks@[p]@[0].0 == rank
                        &&& !blocks@[p]@[0].1.entered
                        &&& blocks@[p]@[0].1.events@.len() == 0
                        &&& blocks@[p]@[0].1.leave_to is None
                    },
            decreases persons.len() - i,
        {
            let p = persons[i];
            let ghost listed0 = listed@;
            if !blocks.contains_key(&p) {
                listed.push(p);
            }
            let mut v: Vec<(u32, EventBlock<E>)> = Vec::new();
            v.push((rank, EventBlock { entered: false, events: Vec::new(), leave_to: None }));
            blocks.insert(p, v);
            current.insert(p, rank);
            proof {
                let pre0 = persons@.subrange(0, i as int);
                let pre1 = persons@.subrange(0, i + 1);
                assert(pre1 =~= pre0.push(p));
                assert forall|q: u64| pre1.contains(q) <==> (pre0.contains(q) || q == p) by {
                    if pre0.contains(q) {
                        let t = choose|t: int| 0 <= t < pre0.len() && pre0[t] == q;
                        assert(pre1[t] == q);
                    }
                    if pre1.contains(q) && q != p {
                        let t = choose|t: int| 0 <= t < pre1.len() && pre1[t] == q;
                        assert(pre0[t] == q);
                    }
                    assert(pre1[i as int] == p);
                }
                if !listed0.contains(p) {
                    assert(listed@ == listed0.push(p));
                    assert forall|q: u64| listed@.contains(q) <==> (listed0.contains(q) || q == p) by {
                        if listed0.contains(q) {
                            let t = choose|t: int| 0 <= t < listed0.len() && listed0[t] == q;
                            assert(listed@[t] == q);
                        }
                        if listed@.contains(q) && q != p {
                            let t = choose|t: int| 0 <= t < listed@.len() && listed@[t] == q;
                            assert(listed0[t] == q);
                        }
                        assert(listed@[listed0.len() as int] == p);
                    }
                }
            }
            i = i + 1;
        }
        proof {
            assert(persons@.subrange(0, persons@.len() as int) =~= persons@);
        }
        EventBlocks { persons: listed, blocks, current_partition: current }
    }

    /// Opens a block for the person on partition `rank`; the person must not have one there.
    pub fn open_block(&mut self, person_id: u64, rank: u32, entered: bool)
        requires
            old(self).wf(),
            block_index(old(self).blocks_of(person_id), rank) is None,
        ensures
            final(self).wf(),
            final(self).current_partition == old(self).current_partition,
            old(self).persons@.contains(person_id) ==> final(self).persons == old(self).persons,
            !old(self).persons@.contains(person_id) ==> final(self).persons@ == old(self).persons@.push(person_id),
            final(self).blocks@ == old(self).blocks@.insert(person_id, final(self).blocks@[person_id]),
            final(self).blocks@[person_id]@.len() == old(self).blocks_of(person_id).len() + 1,
            final(self).blocks@[person_id]@.drop_last() == old(self).blocks_of(person_id),
            final(self).blocks@[person_id]@.last().0 == rank,
            final(self).blocks@[person_id]@.last().1.entered == entered,
            final(self).blocks@[person_id]@.last().1.events@.len() == 0,
            final(self).blocks@[person_id]@.last().1.leave_to is None,
    {
        let ghost before = self.blocks_of(person_id);
        let ghost listed0 = self.persons@;
        let known = self.blocks.contains_key(&person_id);
        let mut v = match self.blocks.remove(&person_id) {
            Some(v) => v,
            None => Vec::new(),
        };
        proof {
            assert(v@ == before);
        }
        if !known {
            self.persons.push(person_id);
            proof {
                assert(self.persons@ == listed0.push(person_id));
                assert(!listed0.contains(person_id));
                assert forall|q: u64| self.persons@.contains(q) <==> (listed0.contains(q) || q == person_id) by {
                    if listed0.contains(q) {
                        let t = choose|t: int| 0 <= t < listed0.len() && listed0[t] == q;
                        assert(self.persons@[t] == q);
                    }
                    if self.persons@.contains(q) && q != person_id {
                        let t = choose|t: int| 0 <= t < self.persons@.len() && self.persons@[t] == q;
                        assert(listed0[t] == q);
                    }
                    assert(self.persons@[listed0.len() as int] == person_id);
                }
            }
        }
        v.push((rank, EventBlock { entered, events: Vec::new(), leave_to: None }));
        proof {
            assert(v@.drop_last() == before);
            assert forall|a: int, b: int| 0 <= a < b < v@.len() implies v@[a].0 != v@[b].0 by {
                if b == v@.len() - 1 {
                    assert(v@[a] == before[a]);
                    if before[a].0 == rank {
                        assert(block_index(before, rank) is Some);
                    }
                } else {
                    assert(v@[a] == before[a] && v@[b] == before[b]);
                }
            }
        }
        let ghost blocks0 = old(self).blocks@;
        self.blocks.insert(person_id, v);
        proof {
            assert forall|q: u64| self.blocks@.contains_key(q) <==> self.persons@.contains(q) by {
                if !known {
                    lemma_push_contains(listed0, person_id, q);
                }
                if q != person_id {
                    assert(self.blocks@.contains_key(q) == blocks0.contains_key(q));
                }
            }
        }
    }

    /// Closes the person's block on partition `rank`, recording the partition the person left
    /// for, and hands on closed blocks: while the block of the person's current partition is
    /// closed, it is removed, its events are handed on, and the current partition becomes the
    /// one the person left for. Returns the handed-on event lists, in order.
    pub fn close_block(&mut self, person_id: u64, rank: u32, leave_to: u32) -> (r: Vec<Vec<E>>)
        requires
            old(self).wf(),
            block_index(old(self).blocks_of(person_id), rank) is Some,
            old(self).current_partition@.contains_key(person_id),
        ensures
            final(self).wf(),
            final(self).persons == old(self).persons,
            ({
                let i = block_index(old(self).blocks_of(person_id), rank)->0;
                let before = old(self).blocks_of(person_id);
                let closed = before.update(
                    i,
                    (rank, EventBlock { leave_to: Some(leave_to), ..before[i].1 }),
                );
                let (handed, last, remaining) = flush(
                    closed,
                    old(self).current_partition@[person_id],
                );
                &&& r@.map_values(|v: Vec<E>| v@) == handed
                &&& final(self).current_partition@ == old(self).current_partition@.insert(person_id, last)
                &&& final(self).blocks@ == old(self).blocks@.insert(person_id, final(self).blocks@[person_id])
                &&& final(self).blocks@[person_id]@ == remaining
            }),
    {
        let ghost before = self.blocks_of(person_id);
        let ghost blocks0 = self.blocks@;
        let mut v = self.blocks.remove(&person_id).unwrap();
        let i = find_block(&v, rank).unwrap();
        {
            let entry = &mut v[i];
            entry.1.leave_to = Some(leave_to);
        }
        let ghost closed = v@;
        proof {
            assert(closed =~= before.update(
                i as int,
                (rank, EventBlock { leave_to: Some(leave_to), ..before[i as int].1 }),
            ));
            assert forall|a: int, b: int| 0 <= a < b < v@.len() implies v@[a].0 != v@[b].0 by {
                assert(a != i ==> v@[a] == before[a]);
                assert(b != i ==> v@[b] == before[b]);
            }
        }
        let cur0 = *self.current_partition.get(&person_id).unwrap();
        let mut cur = cur0;
        let mut handed: Vec<Vec<E>> = Vec::new();
        loop
            invariant
                ranks_unique(v@),
                flush(closed, cur0) == (
                    handed@.map_values(|w: Vec<E>| w@) + flush(v@, cur).0,
                    flush(v@, cur).1,
                    flush(v@, cur).2,
                ),
            ensures
                ranks_unique(v@),
                flush(closed, cur0) == (handed@.map_values(|w: Vec<E>| w@), cur, v@),
            decreases v@.len(),
        {
            match find_block(&v, cur) {
                None => {
                    proof {
                        assert(handed@.map_values(|w: Vec<E>| w@) + Seq::<Seq<E>>::empty()
                            =~= handed@.map_values(|w: Vec<E>| w@));
                    }
                    break ;
                },
                Some(j) => {
                    if v[j].1.leave_to.is_none() {
                        proof {
                            assert(handed@.map_values(|w: Vec<E>| w@) + Seq::<Seq<E>>::empty()
                                =~= handed@.map_values(|w: Vec<E>| w@));
                        }
                        break ;
                    }
                    let ghost v0 = v@;
                    let ghost h0 = handed@.map_values(|w: Vec<E>| w@);
                    let (_, block) = v.remove(j);
                    proof {
                        lemma_remove_keeps_unique(v0, j as int);
                    }
                    let next = block.leave_to.unwrap();
                    let ghost ev = block.events@;
                    handed.push(block.events);
                    proof {
                        assert(handed@.map_values(|w: Vec<E>| w@) =~= h0.push(ev));
                        assert(flush(v0, cur).0 == seq![ev] + flush(v@, next).0);
                        assert(h0 + (seq![ev] + flush(v@, next).0) =~= h0.push(ev) + flush(v@, next).0);
                    }
                    cur = next;
                },
            }
        }
        self.blocks.insert(person_id, v);
        self.current_partition.insert(person_id, cur);
        proof {
            assert forall|q: u64| self.blocks@.contains_key(q) <==> self.persons@.contains(q) by {
                if q != person_id {
                    assert(self.blocks@.contains_key(q) == blocks0.contains_key(q));
                }
            }
        }
        handed
    }

    /// Hands on the last block of every person at the end of the simulation; each person must
    /// have exactly one block left. Returns each listed person with the events of that block.
    pub fn finish_blocks(&mut self) -> (r: Vec<(u64, Vec<E>)>)
        requires
            old(self).wf(),
            forall|p: u64| #[trigger] old(self).blocks@.contains_key(p) ==> old(self).blocks@[p]@.len() == 1,
        ensures
            final(self).wf(),
            final(self).persons@.len() == 0,
            final(self).blocks@ == Map::<u64, Vec<(u32, EventBlock<E>)>>::empty(),
            final(self).current_partition == old(self).current_partition,
            r@.len() == old(self).persons@.len(),
            forall|k: int|
                0 <= k < r@.len() ==> (#[trigger] r@[k]).0 == old(self).persons@[k] && r@[k].1@
                    == old(self).blocks@[old(self).persons@[k]]@[0].1.events@,
    {
        let ghost persons0 = self.persons@;
        let ghost blocks0 = self.blocks@;
        let mut persons: Vec<u64> = Vec::new();
        std::mem::swap(&mut persons, &mut self.persons);
        let mut r: Vec<(u64, Vec<E>)> = Vec::new();
        let mut i: usize = 0;
        proof {
            assert(persons0.subrange(0, persons0.len() as int) =~= persons0);
        }
        while i < persons.len()
            invariant
                self.persons@.len() == 0,
                self.current_partition == old(self).current_partition,
                persons@ == persons0,
                no_repeats(persons0),
                i <= persons@.len(),
                r@.len() == i,
                forall|p: u64| blocks0.contains_key(p) <==> persons0.contains(p),
                forall|p: u64| #[trigger] blocks0.contains_key(p) ==> blocks0[p]@.len() == 1,
                forall|p: u64|
                    #[trigger] self.blocks@.contains_key(p) <==> persons0.subrange(i as int, persons0.len() as int).contains(p),
                forall|p: u64| #[trigger] self.blocks@.contains_key(p) ==> self.blocks@[p] == blocks0[p],
                forall|k: int|
                    0 <= k < i ==> (#[trigger] r@[k]).0 == persons0[k] && r@[k].1@ == blocks0[persons0[k]]@[0].1.events@,
            decreases persons.len() - i,
        {
            let p = persons[i];
            proof {
                let rest = persons0.subrange(i as int, persons0.len() as int);
                assert(rest[0] == p);
                assert(rest.contains(p));
                assert(self.blocks@.contains_key(p));
                assert(persons0[i as int] == p);
                assert(persons0.contains(p));
                assert(blocks0.contains_key(p));
            }
            let mut v = self.blocks.remove(&p).unwrap();
            let (_, block) = v.remove(0);
            r.push((p, block.events));
            proof {
                let rest0 = persons0.subrange(i as int, persons0.len() as int);
                let rest1 = persons0.subrange(i + 1, persons0.len() as int);
                assert(rest0 =~= seq![p] + rest1);
                assert forall|q: u64| #[trigger] self.blocks@.contains_key(q) <==> rest1.contains(q) by {
                    if rest1.contains(q) {
                        let t = choose|t: int| 0 <= t < rest1.len() && rest1[t] == q;
                        assert(rest0[t + 1] == q);
                        assert(persons0[i + 1 + t] == q);
                        assert(q != p);
                    }
                    if rest0.contains(q) && q != p {
                        let t = choose|t: int| 0 <= t < rest0.len() && rest0[t] == q;
                        assert(t != 0);
                        assert(rest1[t - 1] == q);
                    }
                }
            }
            i = i + 1;
        }
        proof {
            assert forall|q: u64| !self.blocks@.contains_key(q) by {
                assert(persons0.subrange(i as int, persons0.len() as int).len() == 0);
            }
            assert(self.blocks@ =~= Map::<u64, Vec<(u32, EventBlock<E>)>>::empty());
        }
        r
    }

    /// Appends events to the person's block on partition `rank`, which must exist.
    pub fn push_events_on_block(&mut self, person_id: u64, rank: u32, events: Vec<E>)
        requires
            old(self).wf(),
            block_index(old(self).blocks_of(person_id), rank) is Some,
        ensures
            final(self).wf(),
            final(self).current_partition == old(self).current_partition,
            final(self).persons == old(self).persons,
            ({
                let i = block_index(old(self).blocks_of(person_id), rank)->0;
                let b = old(self).blocks_of(person_id)[i].1;
                &&& final(self).blocks@ == old(self).blocks@.insert(person_id, final(self).blocks@[person_id])
                &&& final(self).blocks@[person_id]@.len() == old(self).blocks_of(person_id).len()
                &&& forall|k: int|
                    0 <= k < old(self).blocks_of(person_id).len() && k != i
                        ==> #[trigger] final(self).blocks@[person_id]@[k] == old(self).blocks_of(person_id)[k]
                &&& final(self).blocks@[person_id]@[i].0 == rank
                &&& final(self).blocks@[person_id]@[i].1.entered == b.entered
                &&& final(self).blocks@[person_id]@[i].1.leave_to == b.leave_to
                &&& final(self).blocks@[person_id]@[i].1.events@ == b.events@ + events@
            }),
    {
        let ghost before = self.blocks_of(person_id);
        let mut v = self.blocks.remove(&person_id).unwrap();
        let i = find_block(&v, rank).unwrap();
        let mut events = events;
        let ghost ev = events@;
        {
            let entry = &mut v[i];
            entry.1.events.append(&mut events);
        }
        proof {
            assert forall|a: int, b: int| 0 <= a < b < v@.len() implies v@[a].0 != v@[b].0 by {
                assert(a != i ==> v@[a] == before[a]);
                assert(b != i ==> v@[b] == before[b]);
            }
        }
        self.blocks.insert(person_id, v);
    }
}

} // verus!
