use crate::collections::map_keys;
use crate::homesending::ScoringEventKind;
use crate::occupancy::{no_repeats, occupants, person_set, VehicleOccupancy};
use std::collections::HashMap;
use vstd::multiset::Multiset;
use vstd::prelude::*;

verus! {

/// Assigns persons, or vehicles, to one of a number of collectors by their id.
#[derive(Debug, Clone, Copy)]
pub struct CollectorHash {
    pub num_collectors: u32,
}

impl CollectorHash {
    /// The collector of the id: the id modulo the number of collectors.
    pub fn apply(&self, id: u64) -> (r: u32)
        requires
            self.num_collectors > 0,
        ensures
            r == id % (self.num_collectors as u64),
            r < self.num_collectors,
    {
        (id % (self.num_collectors as u64)) as u32
    }
}

/// The hash that assigns persons to collectors.
pub fn person_hash(num_collectors: u32) -> (h: CollectorHash)
    ensures
        h.num_collectors == num_collectors,
{
    CollectorHash { num_collectors }
}

/// The hash that assigns vehicles to collectors.
pub fn vehicle_hash(num_collectors: u32) -> (h: CollectorHash)
    ensures
        h.num_collectors == num_collectors,
{
    CollectorHash { num_collectors }
}

/// Where a partition forwards an event in the mapping scoring: to the collector of the person,
/// or to the collector of the vehicle, with the person or vehicle it is about.
#[derive(Debug, Clone, Copy, PartialEq, Eq, Structural)]
pub enum Forward {
    Person { person: u64, target: u32 },
    Vehicle { vehicle: u64, target: u32 },
}

/// Forwards a partition's events to the collectors of the mapping scoring. Collectors are
/// numbered after the partitions.
#[derive(Debug, Clone, Copy)]
pub struct MappingDataForwarder {
    pub person_hash: CollectorHash,
    pub vehicle_hash: CollectorHash,
    pub num_partitions: u32,
}

/// The forwarding of an event: person events go to the collector of the person, vehicle events
/// (boarding and alighting among them) to the collector of the vehicle, other events nowhere.
pub open spec fn forwarding(f: MappingDataForwarder, kind: ScoringEventKind) -> Option<Forward> {
    let by_person = |p: u64| Some(
        Forward::Person {
            person: p,
            target: ((p % (f.person_hash.num_collectors as u64)) + f.num_partitions) as u32,
        },
    );
    let by_vehicle = |v: u64| Some(
        Forward::Vehicle {
            vehicle: v,
            target: ((v % (f.vehicle_hash.num_collectors as u64)) + f.num_partitions) as u32,
        },
    );
    match kind {
        ScoringEventKind::LinkEnter { vehicle } => by_vehicle(vehicle),
        ScoringEventKind::VehicleEntersTraffic { vehicle } => by_vehicle(vehicle),
        ScoringEventKind::VehicleLeavesTraffic { vehicle } => by_vehicle(vehicle),
        ScoringEventKind::PersonEntersVehicle { vehicle, .. } => by_vehicle(vehicle),
        ScoringEventKind::PersonLeavesVehicle { vehicle, .. } => by_vehicle(vehicle),
        ScoringEventKind::PersonArrival { person } => by_person(person),
        ScoringEventKind::PersonDeparture { person } => by_person(person),
        ScoringEventKind::ActivityStart { person } => by_person(person),
        ScoringEventKind::ActivityEnd { person } => by_person(person),
        ScoringEventKind::TeleportationArrival { person } => by_person(person),
        ScoringEventKind::Other => None,
    }
}

/// Every vehicle event (a link enter, a vehicle entering or leaving traffic, a person boarding
/// or alighting) goes to the collector of its vehicle, numbered after the partitions, and names
/// the vehicle; every person event goes to the collector of its person and names the person;
/// any other event goes nowhere.
pub proof fn lemma_forwarding_targets(f: MappingDataForwarder, kind: ScoringEventKind)
    requires
        f.person_hash.num_collectors > 0,
        f.vehicle_hash.num_collectors > 0,
        f.person_hash.num_collectors + f.num_partitions <= u32::MAX,
        f.vehicle_hash.num_collectors + f.num_partitions <= u32::MAX,
    ensures
        kind matches ScoringEventKind::LinkEnter { vehicle } ==> forwarding(f, kind) matches Some(Forward::Vehicle { vehicle: v, target: t }) && v == vehicle
            && t == vehicle % (f.vehicle_hash.num_collectors as u64) + f.num_partitions,
        kind matches ScoringEventKind::VehicleEntersTraffic { vehicle } ==> forwarding(f, kind) matches Some(Forward::Vehicle { vehicle: v, target: t }) && v == vehicle
            && t == vehicle % (f.vehicle_hash.num_collectors as u64) + f.num_partitions,
        kind matches ScoringEventKind::VehicleLeavesTraffic { vehicle } ==> forwarding(f, kind) matches Some(Forward::Vehicle { vehicle: v, target: t }) && v == vehicle
            && t == vehicle % (f.vehicle_hash.num_collectors as u64) + f.num_partitions,
        kind matches ScoringEventKind::PersonEntersVehicle { vehicle, .. } ==> forwarding(f, kind) matches Some(Forward::Vehicle { vehicle: v, target: t }) && v == vehicle
            && t == vehicle % (f.vehicle_hash.num_collectors as u64) + f.num_partitions,
        kind matches ScoringEventKind::PersonLeavesVehicle { vehicle, .. } ==> forwarding(f, kind) matches Some(Forward::Vehicle { vehicle: v, target: t }) && v == vehicle
            && t == vehicle % (f.vehicle_hash.num_collectors as u64) + f.num_partitions,
        kind matches ScoringEventKind::PersonArrival { person } ==> forwarding(f, kind) matches Some(Forward::Person { person: q, target: t }) && q == person
            && t == person % (f.person_hash.num_collectors as u64) + f.num_partitions,
        kind matches ScoringEventKind::PersonDeparture { person } ==> forwarding(f, kind) matches Some(Forward::Person { person: q, target: t }) && q == person
            && t == person % (f.person_hash.num_collectors as u64) + f.num_partitions,
        kind matches ScoringEventKind::ActivityStart { person } ==> forwarding(f, kind) matches Some(Forward::Person { person: q, target: t }) && q == person
            && t == person % (f.person_hash.num_collectors as u64) + f.num_partitions,
        kind matches ScoringEventKind::ActivityEnd { person } ==> forwarding(f, kind) matches Some(Forward::Person { person: q, target: t }) && q == person
            && t == person % (f.person_hash.num_collectors as u64) + f.num_partitions,
        kind matches ScoringEventKind::TeleportationArrival { person } ==> forwarding(f, kind) matches Some(Forward::Person { person: q, target: t }) && q == person
            && t == person % (f.person_hash.num_collectors as u64) + f.num_partitions,
        kind is Other ==> forwarding(f, kind) is None,
{
}

impl MappingDataForwarder {
    /// A forwarder with the given hashes, for the given number of partitions.
    pub fn new(person_hash: CollectorHash, vehicle_hash: CollectorHash, num_partitions: u32) -> (r: Self)
        ensures
            r.person_hash == person_hash,
            r.vehicle_hash == vehicle_hash,
            r.num_partitions == num_partitions,
    {
        MappingDataForwarder { person_hash, vehicle_hash, num_partitions }
    }

    /// Decides where the event goes.
    pub fn handle_event(&self, kind: ScoringEventKind) -> (r: Option<Forward>)
        requires
            self.person_hash.num_collectors > 0,
            self.vehicle_hash.num_collectors > 0,
            self.person_hash.num_collectors + self.num_partitions <= u32::MAX,
            self.vehicle_hash.num_collectors + self.num_partitions <= u32::MAX,
        ensures
            r == forwarding(*self, kind),
            kind matches ScoringEventKind::LinkEnter { vehicle } ==> r matches Some(Forward::Vehicle { vehicle: v, target: t }) && v == vehicle
                && t == vehicle % (self.vehicle_hash.num_collectors as u64) + self.num_partitions,
            kind matches ScoringEventKind::VehicleEntersTraffic { vehicle } ==> r matches Some(Forward::Vehicle { vehicle: v, target: t }) && v == vehicle
                && t == vehicle % (self.vehicle_hash.num_collectors as u64) + self.num_partitions,
            kind matches ScoringEventKind::VehicleLeavesTraffic { vehicle } ==> r matches Some(Forward::Vehicle { vehicle: v, target: t }) && v == vehicle
                && t == vehicle % (self.vehicle_hash.num_collectors as u64) + self.num_partitions,
            kind matches ScoringEventKind::PersonEntersVehicle { vehicle, .. } ==> r matches Some(Forward::Vehicle { vehicle: v, target: t }) && v == vehicle
                && t == vehicle % (self.vehicle_hash.num_collectors as u64) + self.num_partitions,
            kind matches ScoringEventKind::PersonLeavesVehicle { vehicle, .. } ==> r matches Some(Forward::Vehicle { vehicle: v, target: t }) && v == vehicle
                && t == vehicle % (self.vehicle_hash.num_collectors as u64) + self.num_partitions,
            kind matches ScoringEventKind::PersonArrival { person } ==> r matches Some(Forward::Person { person: q, target: t }) && q == person
                && t == person % (self.person_hash.num_collectors as u64) + self.num_partitions,
            kind matches ScoringEventKind::PersonDeparture { person } ==> r matches Some(Forward::Person { person: q, target: t }) && q == person
                && t == person % (self.person_hash.num_collectors as u64) + self.num_partitions,
            kind matches ScoringEventKind::ActivityStart { person } ==> r matches Some(Forward::Person { person: q, target: t }) && q == person
                && t == person % (self.person_hash.num_collectors as u64) + self.num_partitions,
            kind matches ScoringEventKind::ActivityEnd { person } ==> r matches Some(Forward::Person { person: q, target: t }) && q == person
                && t == person % (self.person_hash.num_collectors as u64) + self.num_partitions,
            kind matches ScoringEventKind::TeleportationArrival { person } ==> r matches Some(Forward::Person { person: q, target: t }) && q == person
                && t == person % (self.person_hash.num_collectors as u64) + self.num_partitions,
            kind is Other ==> r is None,
    {
        proof {
            lemma_forwarding_targets(*self, kind);
        }
        match kind {
            ScoringEventKind::LinkEnter { vehicle } => Some(self.forward_vehicle(vehicle)),
            ScoringEventKind::VehicleEntersTraffic { vehicle } => Some(self.forward_vehicle(vehicle)),
            ScoringEventKind::VehicleLeavesTraffic { vehicle } => Some(self.forward_vehicle(vehicle)),
            ScoringEventKind::PersonEntersVehicle { vehicle, .. } => Some(self.forward_vehicle(vehicle)),
            ScoringEventKind::PersonLeavesVehicle { vehicle, .. } => Some(self.forward_vehicle(vehicle)),
            ScoringEventKind::PersonArrival { person } => Some(self.forward_person(person)),
            ScoringEventKind::PersonDeparture { person } => Some(self.forward_person(person)),
            ScoringEventKind::ActivityStart { person } => Some(self.forward_person(person)),
            ScoringEventKind::ActivityEnd { person } => Some(self.forward_person(person)),
            ScoringEventKind::TeleportationArrival { person } => Some(self.forward_person(person)),
            ScoringEventKind::Other => None,
        }
    }

    fn forward_person(&self, person: u64) -> (r: Forward)
        requires
            self.person_hash.num_collectors > 0,
            self.person_hash.num_collectors + self.num_partitions <= u32::MAX,
        ensures
            r == (Forward::Person {
                person,
                target: ((person % (self.person_hash.num_collectors as u64)) + self.num_partitions) as u32,
            }),
    {
        Forward::Person { person, target: self.person_hash.apply(person) + self.num_partitions }
    }

    fn forward_vehicle(&self, vehicle: u64) -> (r: Forward)
        requires
            self.vehicle_hash.num_collectors > 0,
            self.vehicle_hash.num_collectors + self.num_partitions <= u32::MAX,
        ensures
            r == (Forward::Vehicle {
                vehicle,
                target: ((vehicle % (self.vehicle_hash.num_collectors as u64)) + self.num_partitions) as u32,
            }),
    {
        Forward::Vehicle { vehicle, target: self.vehicle_hash.apply(vehicle) + self.num_partitions }
    }
}

/// The kinds of vehicle events that a collector forwards to the persons in the vehicle; the
/// boarding and alighting events name the person and the vehicle.
#[derive(Debug, Clone, Copy, PartialEq, Eq, Structural)]
pub enum VehicleEventKind {
    LinkEnter,
    VehicleEntersTraffic,
    VehicleLeavesTraffic,
    PersonEntersVehicle { person: u64, vehicle: u64 },
    PersonLeavesVehicle { person: u64, vehicle: u64 },
}

/// A vehicle event as it arrives at a collector: the vehicle it was sent for, its kind and its
/// sequence number.
#[derive(Debug, Clone, Copy, PartialEq, Eq, Structural)]
pub struct VehicleEvent {
    pub vehicle: u64,
    pub kind: VehicleEventKind,
    pub c: u32,
}

/// The occupancy after the event: boarding adds the person to the named vehicle, alighting
/// removes the person from it.
pub open spec fn occ_step(occ: Map<u64, Set<u64>>, ev: VehicleEvent) -> Map<u64, Set<u64>> {
    match ev.kind {
        VehicleEventKind::PersonEntersVehicle { person, vehicle } => occ.insert(
            vehicle,
            occupants(occ, vehicle).insert(person),
        ),
        VehicleEventKind::PersonLeavesVehicle { person, vehicle } => occ.insert(
            vehicle,
            occ[vehicle].remove(person),
        ),
        _ => occ,
    }
}

/// The persons that receive the event: those in the vehicle it was sent for, read after a
/// boarding is recorded and before an alighting is.
pub open spec fn recipients(occ: Map<u64, Set<u64>>, ev: VehicleEvent) -> Set<u64> {
    match ev.kind {
        VehicleEventKind::PersonEntersVehicle { .. } => occ_step(occ, ev)[ev.vehicle],
        _ => occ[ev.vehicle],
    }
}

/// A person who boards a vehicle receives the boarding event and is in the vehicle afterwards;
/// a person who alights from the vehicle the event was sent for receives the alighting event
/// and is no longer in it afterwards; the other vehicle events reach exactly the persons in
/// the vehicle and change nobody's seat.
pub proof fn lemma_boarding_and_alighting(occ: Map<u64, Set<u64>>, ev: VehicleEvent)
    ensures
        ev.kind matches VehicleEventKind::PersonEntersVehicle { person, vehicle } ==> (vehicle == ev.vehicle
            ==> recipients(occ, ev).contains(person) && occ_step(occ, ev)[vehicle].contains(person)),
        ev.kind matches VehicleEventKind::PersonLeavesVehicle { person, vehicle } ==> (vehicle == ev.vehicle
            && occ.contains_key(vehicle) && occ[vehicle].contains(person) ==> recipients(occ, ev).contains(person)
            && !occ_step(occ, ev)[vehicle].contains(person)),
        (ev.kind is LinkEnter || ev.kind is VehicleEntersTraffic || ev.kind is VehicleLeavesTraffic) ==> {
            &&& recipients(occ, ev) == occ[ev.vehicle]
            &&& occ_step(occ, ev) == occ
        },
{
}

/// The occupancy after the first `n` events.
pub open spec fn occ_after(occ0: Map<u64, Set<u64>>, evs: Seq<VehicleEvent>, n: int) -> Map<
    u64,
    Set<u64>,
>
    decreases n,
{
    if n <= 0 {
        occ0
    } else {
        occ_step(occ_after(occ0, evs, n - 1), evs[n - 1])
    }
}

/// The vehicles that handling the event looks up are known.
pub open spec fn event_lookups_ok(occ: Map<u64, Set<u64>>, ev: VehicleEvent) -> bool {
    match ev.kind {
        VehicleEventKind::PersonEntersVehicle { .. } => occ_step(occ, ev).contains_key(ev.vehicle),
        VehicleEventKind::PersonLeavesVehicle { vehicle, .. } => occ.contains_key(ev.vehicle)
            && occ.contains_key(vehicle),
        _ => occ.contains_key(ev.vehicle),
    }
}

/// Every vehicle that handling the events in order looks up is known when it is looked up.
pub open spec fn lookups_ok(occ0: Map<u64, Set<u64>>, evs: Seq<VehicleEvent>) -> bool {
    forall|k: int| 0 <= k < evs.len() ==> event_lookups_ok(#[trigger] occ_after(occ0, evs, k), evs[k])
}

/// What person `p` receives of the first `n` events: the positions and sequence numbers of the
/// events it is a recipient of, in order.
pub open spec fn routed_to(occ0: Map<u64, Set<u64>>, evs: Seq<VehicleEvent>, p: u64, n: int) -> Seq<
    (usize, u32),
>
    decreases n,
{
    if n <= 0 {
        Seq::empty()
    } else {
        let prev = routed_to(occ0, evs, p, n - 1);
        if recipients(occ_after(occ0, evs, n - 1), evs[n - 1]).contains(p) {
            prev.push(((n - 1) as usize, evs[n - 1].c))
        } else {
            prev
        }
    }
}

/// `out` holds, for every person that receives any of the first `n` events, what it receives.
pub open spec fn routed_map(
    out: Map<u64, Vec<(usize, u32)>>,
    occ0: Map<u64, Set<u64>>,
    evs: Seq<VehicleEvent>,
    n: int,
    p: u64,
) -> bool {
    &&& out.contains_key(p) <==> routed_to(occ0, evs, p, n).len() > 0
    &&& out.contains_key(p) ==> out[p]@ == routed_to(occ0, evs, p, n)
}

/// Forwards arriving vehicle events to the persons in the vehicles, keeping track of who
/// boards and leaves which vehicle. The result gives, for every person that receives an event,
/// the positions of its events in `events` with their sequence numbers, in order.
pub fn route_vehicle_events(occupancy: &mut VehicleOccupancy, events: &[VehicleEvent]) -> (r: HashMap<
    u64,
    Vec<(usize, u32)>,
>)
    requires
        old(occupancy).wf(),
        lookups_ok(old(occupancy)@, events@),
    ensures
        final(occupancy).wf(),
        final(occupancy)@ == occ_after(old(occupancy)@, events@, events@.len() as int),
        forall|p: u64|
            #[trigger] routed_map(r@, old(occupancy)@, events@, events@.len() as int, p),
{
    let ghost occ0 = occupancy@;
    let mut out: HashMap<u64, Vec<(usize, u32)>> = HashMap::new();
    let mut k: usize = 0;
    while k < events.len()
        invariant
            k <= events@.len(),
            occupancy.wf(),
            occupancy@ == occ_after(occ0, events@, k as int),
            lookups_ok(occ0, events@),
            forall|p: u64| #[trigger] routed_map(out@, occ0, events@, k as int, p),
        decreases events.len() - k,
    {
        let ev = events[k];
        let ghost occ_k = occupancy@;
        proof {
            assert(event_lookups_ok(occ_after(occ0, events@, k as int), events@[k as int]));
        }
        let persons: Vec<u64> = match ev.kind {
            VehicleEventKind::PersonEntersVehicle { person, vehicle } => {
                occupancy.board(vehicle, person);
                occupancy.passengers(ev.vehicle)
            },
            VehicleEventKind::PersonLeavesVehicle { person, vehicle } => {
                let ps = occupancy.passengers(ev.vehicle);
                occupancy.alight(vehicle, person);
                ps
            },
            _ => occupancy.passengers(ev.vehicle),
        };
        proof {
            assert(occupancy@ == occ_step(occ_k, ev));
            assert(person_set(persons@) == recipients(occ_k, ev));
        }
        let mut j: usize = 0;
        while j < persons.len()
            invariant
                k < events@.len(),
                ev == events@[k as int],
                j <= persons@.len(),
                no_repeats(persons@),
                person_set(persons@) == recipients(occ_after(occ0, events@, k as int), ev),
                forall|p: u64|
                    persons@.subrange(0, j as int).contains(p) ==> #[trigger] routed_map(
                        out@,
                        occ0,
                        events@,
                        k + 1,
                        p,
                    ),
                forall|p: u64|
                    !persons@.subrange(0, j as int).contains(p) ==> #[trigger] routed_map(
                        out@,
                        occ0,
                        events@,
                        k as int,
                        p,
                    ),
            decreases persons.len() - j,
        {
            let person = persons[j];
            let ghost before = out@;
            let mut list = match out.remove(&person) {
                Some(l) => l,
                None => Vec::new(),
            };
            let ghost l0 = list@;
            proof {
                assert(routed_map(before, occ0, events@, k as int, person));
                if !before.contains_key(person) {
                    assert(l0 =~= routed_to(occ0, events@, person, k as int));
                }
                assert(l0 == routed_to(occ0, events@, person, k as int));
            }
            list.push((k, ev.c));
            out.insert(person, list);
            proof {
                let pre0 = persons@.subrange(0, j as int);
                let pre1 = persons@.subrange(0, j + 1);
                assert(pre1 =~= pre0.push(person));
                assert(!pre0.contains(person)) by {
                    if pre0.contains(person) {
                        let t = choose|t: int| 0 <= t < pre0.len() && pre0[t] == person;
                        assert(persons@[t] == persons@[j as int]);
                    }
                };
                assert(persons@[j as int] == person);
                assert(person_set(persons@).contains(person));
                assert(routed_map(before, occ0, events@, k as int, person));
                assert(routed_to(occ0, events@, person, k + 1) == routed_to(
                    occ0,
                    events@,
                    person,
                    k as int,
                ).push((k, ev.c)));
                assert forall|p: u64| pre1.contains(p) implies #[trigger] routed_map(
                    out@,
                    occ0,
                    events@,
                    k + 1,
                    p,
                ) by {
                    if p == person {
                        assert(out@[person]@ == l0.push((k, ev.c)));
                    } else {
                        let t = choose|t: int| 0 <= t < pre1.len() && pre1[t] == p;
                        assert(pre0[t] == p);
                        assert(routed_map(before, occ0, events@, k + 1, p));
                    }
                }
                assert forall|p: u64| !pre1.contains(p) implies #[trigger] routed_map(
                    out@,
                    occ0,
                    events@,
                    k as int,
                    p,
                ) by {
                    assert(pre1[j as int] == person);
                    if pre0.contains(p) {
                        let t = choose|t: int| 0 <= t < pre0.len() && pre0[t] == p;
                        assert(pre1[t] == p);
                    }
                    assert(routed_map(before, occ0, events@, k as int, p));
                }
            }
            j = j + 1;
        }
        proof {
            assert(persons@.subrange(0, persons@.len() as int) =~= persons@);
            assert forall|p: u64| #[trigger] routed_map(out@, occ0, events@, k + 1, p) by {
                if !persons@.contains(p) {
                    assert(!recipients(occ_after(occ0, events@, k as int), ev).contains(p));
                    assert(routed_map(out@, occ0, events@, k as int, p));
                }
            }
        }
        k = k + 1;
    }
    out
}

/// `a` comes no later than `b`: by time, then by sequence number.
pub open spec fn key_le(a: (u32, u32), b: (u32, u32)) -> bool {
    a.0 < b.0 || (a.0 == b.0 && a.1 <= b.1)
}

/// The entries are ordered by time, then by sequence number.
pub open spec fn in_time_order<E>(s: Seq<(u32, u32, E)>) -> bool {
    forall|i: int, j: int| 0 <= i < j < s.len() ==> key_le((s[i].0, s[i].1), (s[j].0, s[j].1))
}

spec fn desc_empty<E>() -> Seq<(u32, u32, E)> {
    Seq::empty()
}

/// Splits the waiting entries of one person at the watermark: the entries at or before it are
/// released in time order, the later ones are kept.
pub fn release_upto<E>(entries: Vec<(u32, u32, E)>, watermark: u32) -> (r: (
    Vec<(u32, u32, E)>,
    Vec<(u32, u32, E)>,
))
    ensures
        r.0@.to_multiset().add(r.1@.to_multiset()) == entries@.to_multiset(),
        forall|i: int| 0 <= i < r.0@.len() ==> (#[trigger] r.0@[i]).0 <= watermark,
        forall|i: int| 0 <= i < r.1@.len() ==> (#[trigger] r.1@[i]).0 > watermark,
        in_time_order(r.0@),
{
    broadcast use vstd::seq_lib::group_to_multiset_ensures, vstd::multiset::group_multiset_axioms;

    let ghost all = entries@;
    let mut entries = entries;
    let mut kept: Vec<(u32, u32, E)> = Vec::new();
    proof {
        assert(entries@.to_multiset().add(desc_empty::<E>().to_multiset()).add(
            kept@.to_multiset(),
        ) =~= all.to_multiset());
    }
    // `desc` holds the entries to release taken so far, latest first.
    let mut desc: Vec<(u32, u32, E)> = Vec::new();
    while entries.len() > 0
        invariant
            entries@.to_multiset().add(desc@.to_multiset()).add(kept@.to_multiset())
                == all.to_multiset(),
            forall|i: int, j: int|
                0 <= i < j < desc@.len() ==> key_le((desc@[j].0, desc@[j].1), (desc@[i].0, desc@[i].1)),
            forall|i: int| 0 <= i < desc@.len() ==> (#[trigger] desc@[i]).0 <= watermark,
            forall|i: int| 0 <= i < kept@.len() ==> (#[trigger] kept@[i]).0 > watermark,
        decreases entries.len(),
    {
        let ghost e0 = entries@;
        let x = entries.pop().unwrap();
        proof {
            assert(e0 =~= entries@.push(x));
            vstd::seq_lib::to_multiset_build(entries@, x);
        }
        if x.0 > watermark {
            let ghost k0 = kept@;
            kept.push(x);
            proof {
                assert(kept@ == k0.push(x));
                vstd::seq_lib::to_multiset_build(k0, x);
                assert(entries@.to_multiset().add(desc@.to_multiset()).add(kept@.to_multiset())
                    =~= all.to_multiset());
            }
        } else {
            let mut pos: usize = 0;
            while pos < desc.len() && (desc[pos].0 > x.0 || (desc[pos].0 == x.0 && desc[pos].1
                >= x.1))
                invariant
                    pos <= desc@.len(),
                    forall|k: int| 0 <= k < pos ==> key_le((x.0, x.1), (desc@[k].0, desc@[k].1)),
                decreases desc.len() - pos,
            {
                pos = pos + 1;
            }
            let ghost d0 = desc@;
            desc.insert(pos, x);
            proof {
                assert(desc@ == d0.insert(pos as int, x));
                vstd::seq_lib::to_multiset_insert(d0, pos as int, x);
                assert(entries@.to_multiset().add(desc@.to_multiset()).add(kept@.to_multiset())
                    =~= all.to_multiset());
                assert forall|i: int, j: int| 0 <= i < j < desc@.len() implies key_le(
                    (desc@[j].0, desc@[j].1),
                    (desc@[i].0, desc@[i].1),
                ) by {
                    if j < pos {
                        assert(desc@[i] == d0[i] && desc@[j] == d0[j]);
                    } else if j == pos {
                        assert(desc@[i] == d0[i]);
                    } else if i < pos {
                        assert(desc@[i] == d0[i] && desc@[j] == d0[j - 1]);
                    } else if i == pos {
                        assert(desc@[j] == d0[j - 1]);
                        assert(!key_le((x.0, x.1), (d0[pos as int].0, d0[pos as int].1)));
                        assert(key_le((d0[j - 1].0, d0[j - 1].1), (d0[pos as int].0, d0[pos as int].1)));
                    } else {
                        assert(desc@[i] == d0[i - 1] && desc@[j] == d0[j - 1]);
                    }
                }
                assert forall|i: int| 0 <= i < desc@.len() implies (#[trigger] desc@[i]).0
                    <= watermark by {
                    if i != pos {
                        if i < pos {
                            assert(desc@[i] == d0[i]);
                        } else {
                            assert(desc@[i] == d0[i - 1]);
                        }
                    }
                }
            }
        }
    }
    proof {
        assert(entries@ =~= Seq::<(u32, u32, E)>::empty());
    }
    let mut released: Vec<(u32, u32, E)> = Vec::new();
    while desc.len() > 0
        invariant
            desc@.to_multiset().add(released@.to_multiset()).add(kept@.to_multiset())
                == all.to_multiset(),
            forall|i: int, j: int|
                0 <= i < j < desc@.len() ==> key_le((desc@[j].0, desc@[j].1), (desc@[i].0, desc@[i].1)),
            forall|i: int| 0 <= i < desc@.len() ==> (#[trigger] desc@[i]).0 <= watermark,
            forall|i: int| 0 <= i < released@.len() ==> (#[trigger] released@[i]).0 <= watermark,
            in_time_order(released@),
            forall|i: int, j: int|
                0 <= i < released@.len() && 0 <= j < desc@.len() ==> key_le(
                    (released@[i].0, released@[i].1),
                    (desc@[j].0, desc@[j].1),
                ),
        decreases desc.len(),
    {
        let ghost d0 = desc@;
        let ghost r0 = released@;
        let x = desc.pop().unwrap();
        proof {
            assert(d0 =~= desc@.push(x));
            vstd::seq_lib::to_multiset_build(desc@, x);
        }
        released.push(x);
        proof {
            assert(released@ == r0.push(x));
            vstd::seq_lib::to_multiset_build(r0, x);
            assert(desc@.to_multiset().add(released@.to_multiset()).add(kept@.to_multiset())
                =~= all.to_multiset());
        }
    }
    proof {
        assert(desc@ =~= Seq::<(u32, u32, E)>::empty());
        assert(released@.to_multiset().add(kept@.to_multiset()) =~= all.to_multiset());
    }
    (released, kept)
}

/// The entries that a list of (person, entries) pairs holds for person `p`, taken together.
pub open spec fn entries_for<E>(s: Seq<(u64, Vec<(u32, u32, E)>)>, p: u64) -> Multiset<
    (u32, u32, E),
>
    decreases s.len(),
{
    if s.len() == 0 {
        Multiset::empty()
    } else {
        entries_for(s.drop_last(), p).add(
            if s.last().0 == p {
                s.last().1@.to_multiset()
            } else {
                Multiset::empty()
            },
        )
    }
}

/// The entries waiting for person `p`.
pub open spec fn waiting<E>(queues: Map<u64, Vec<(u32, u32, E)>>, p: u64) -> Multiset<
    (u32, u32, E),
> {
    if queues.contains_key(p) {
        queues[p]@.to_multiset()
    } else {
        Multiset::empty()
    }
}

/// The pairs of partition and collector that reported the watermark time, with `pair` added
/// if it was not among them.
pub open spec fn pairs_with(buffer: Map<u32, Vec<(u32, u32)>>, time: u32, pair: (u32, u32)) -> Seq<
    (u32, u32),
> {
    let s = if buffer.contains_key(time) {
        buffer[time]@
    } else {
        Seq::empty()
    };
    if s.contains(pair) {
        s
    } else {
        s.push(pair)
    }
}

/// The collector that the events of person `p` go to: its person hash, counted after the
/// partitions.
pub open spec fn person_collector(p: u64, num_partitions: u32, num_collectors: u32) -> u32 {
    ((p % (num_collectors as u64)) + num_partitions) as u32
}

/// The grouped result holds a list for person `p` under collector `t`.
pub open spec fn has_routed(r: Map<u32, HashMap<u64, Vec<(usize, u32)>>>, t: u32, p: u64) -> bool {
    r.contains_key(t) && r[t]@.contains_key(p)
}

/// The collector of the mapping scoring: it keeps track of who sits in which vehicle, holds the
/// events that arrived for each person until every partition has passed their time, and
/// releases them in time order when the watermark advances.
#[derive(Debug)]
pub struct MappingDataCollector<E> {
    pub num_partitions: u32,
    pub num_collectors: u32,
    pub occupancy: VehicleOccupancy,
    pub persons: Vec<u64>,
    pub queues: HashMap<u64, Vec<(u32, u32, E)>>,
    pub watermark: u32,
    pub watermark_buffer: HashMap<u32, Vec<(u32, u32)>>,
}

/// Whether the pair is among the pairs.
fn contains_pair(pairs: &Vec<(u32, u32)>, pair: (u32, u32)) -> (r: bool)
    ensures
        r == pairs@.contains(pair),
{
    let mut i: usize = 0;
    while i < pairs.len()
        invariant
            i <= pairs@.len(),
            forall|k: int| 0 <= k < i ==> pairs@[k] != pair,
        decreases pairs.len() - i,
    {
        if pairs[i].0 == pair.0 && pairs[i].1 == pair.1 {
            return true;
        }
        i = i + 1;
    }
    false
}

impl<E> MappingDataCollector<E> {
    /// The occupancy is well formed, no person is listed twice, and the listed persons are
    /// exactly those with a queue.
    pub open spec fn wf(&self) -> bool {
        &&& self.occupancy.wf()
        &&& no_repeats(self.persons@)
        &&& forall|p: u64| self.queues@.contains_key(p) <==> self.persons@.contains(p)
    }

    /// Every pair of partition and collector has reported `time` once this pair is counted.
    pub open spec fn completes(&self, origin: u32, collector: u32, time: u32) -> bool {
        pairs_with(self.watermark_buffer@, time, (origin, collector)).len() == self.num_partitions
            * self.num_collectors
    }

    /// A collector that knows no vehicle, holds no event and has seen no watermark.
    pub fn new(num_partitions: u32, num_collectors: u32) -> (c: Self)
        ensures
            c.wf(),
            c.num_partitions == num_partitions,
            c.num_collectors == num_collectors,
            c.occupancy@ == Map::<u64, Set<u64>>::empty(),
            c.queues@ == Map::<u64, Vec<(u32, u32, E)>>::empty(),
            c.watermark == 0,
            c.watermark_buffer@ == Map::<u32, Vec<(u32, u32)>>::empty(),
    {
        let c = MappingDataCollector {
            num_partitions,
            num_collectors,
            occupancy: VehicleOccupancy::new(),
            persons: Vec::new(),
            queues: HashMap::new(),
            watermark: 0,
            watermark_buffer: HashMap::new(),
        };
        c
    }

    /// Forwards arriving vehicle events to the persons in the vehicles (see
    /// `route_vehicle_events`), grouped by the collector each person belongs to: the events of
    /// person `p` go to collector `person_hash(p) + num_partitions`. The result gives, by
    /// collector and then by person, the positions of the person's events in `events` with their
    /// sequence numbers, in order.
    pub fn add_arriving_vehicle_events(&mut self, events: &[VehicleEvent]) -> (r: HashMap<
        u32,
        HashMap<u64, Vec<(usize, u32)>>,
    >)
        requires
            old(self).wf(),
            old(self).num_collectors > 0,
            old(self).num_partitions + old(self).num_collectors <= u32::MAX,
            lookups_ok(old(self).occupancy@, events@),
        ensures
            final(self).wf(),
            final(self).occupancy@ == occ_after(old(self).occupancy@, events@, events@.len() as int),
            forall|t: u32, p: u64|
                #[trigger] has_routed(r@, t, p) <==> (routed_to(
                    old(self).occupancy@,
                    events@,
                    p,
                    events@.len() as int,
                ).len() > 0 && t == person_collector(p, old(self).num_partitions, old(self).num_collectors)),
            forall|t: u32, p: u64|
                #[trigger] has_routed(r@, t, p) ==> r@[t]@[p]@ == routed_to(
                    old(self).occupancy@,
                    events@,
                    p,
                    events@.len() as int,
                ),
            final(self).num_partitions == old(self).num_partitions,
            final(self).num_collectors == old(self).num_collectors,
            final(self).queues == old(self).queues,
            final(self).persons == old(self).persons,
            final(self).watermark == old(self).watermark,
            final(self).watermark_buffer == old(self).watermark_buffer,
    {
        let ghost occ0 = self.occupancy@;
        let mut by_person = route_vehicle_events(&mut self.occupancy, events);
        let ghost flat = by_person@;
        let n = events.len();
        let persons = map_keys(&by_person);
        let hash = person_hash(self.num_collectors);
        let num_partitions = self.num_partitions;
        let ghost nc = self.num_collectors;
        let mut r: HashMap<u32, HashMap<u64, Vec<(usize, u32)>>> = HashMap::new();
        let mut i: usize = 0;
        while i < persons.len()
            invariant
                i <= persons@.len(),
                persons@.to_set() == flat.dom(),
                persons@.no_duplicates(),
                hash.num_collectors == nc,
                nc > 0,
                num_partitions + nc <= u32::MAX,
                forall|p: u64|
                    #[trigger] by_person@.contains_key(p) <==> (flat.contains_key(p)
                        && !persons@.take(i as int).contains(p)),
                forall|p: u64| #[trigger] by_person@.contains_key(p) ==> by_person@[p] == flat[p],
                forall|t: u32, p: u64|
                    #[trigger] has_routed(r@, t, p) <==> (flat.contains_key(p) && persons@.take(
                        i as int,
                    ).contains(p) && t == person_collector(p, num_partitions, nc)),
                forall|t: u32, p: u64| #[trigger] has_routed(r@, t, p) ==> r@[t]@[p] == flat[p],
            decreases persons.len() - i,
        {
            let p = persons[i];
            let ghost taken = persons@.take(i as int);
            let ghost next = persons@.take(i + 1);
            proof {
                assert(persons@.to_set().contains(p));
                assert(!taken.contains(p)) by {
                    if taken.contains(p) {
                        let w = choose|w: int| 0 <= w < taken.len() && taken[w] == p;
                        assert(persons@[w] == persons@[i as int]);
                    }
                }
                assert forall|q: u64| next.contains(q) <==> (taken.contains(q) || q == p) by {
                    if next.contains(q) {
                        let w = choose|w: int| 0 <= w < next.len() && next[w] == q;
                        if w < i {
                            assert(taken[w] == q);
                        }
                    }
                    if taken.contains(q) {
                        let w = choose|w: int| 0 <= w < taken.len() && taken[w] == q;
                        assert(next[w] == q);
                    }
                    if q == p {
                        assert(next[i as int] == q);
                    }
                }
            }
            let list = by_person.remove(&p).unwrap();
            let target = hash.apply(p) + num_partitions;
            let ghost before = r@;
            let mut lists = match r.remove(&target) {
                Some(l) => l,
                None => HashMap::new(),
            };
            let ghost lists_before = lists@;
            lists.insert(p, list);
            r.insert(target, lists);
            proof {
                assert(target == person_collector(p, num_partitions, nc));
                assert forall|t: u32, q: u64| #[trigger] has_routed(r@, t, q) <==> (flat.contains_key(q)
                    && next.contains(q) && t == person_collector(q, num_partitions, nc)) by {
                    if t == target {
                        assert(r@[t]@ == lists@);
                        if before.contains_key(t) {
                            assert(lists_before == before[t]@);
                        }
                        if has_routed(before, t, q) {
                            assert(taken.contains(q));
                        }
                    } else {
                        if has_routed(before, t, q) {
                            assert(taken.contains(q));
                        }
                    }
                }
                assert forall|t: u32, q: u64| #[trigger] has_routed(r@, t, q) implies r@[t]@[q] == flat[q] by {
                    if t == target {
                        assert(r@[t]@ == lists@);
                        if before.contains_key(t) {
                            assert(lists_before == before[t]@);
                        }
                        if q != p {
                            assert(has_routed(before, t, q));
                        }
                    } else {
                        assert(has_routed(before, t, q));
                    }
                }
            }
            i = i + 1;
        }
        proof {
            assert(persons@.take(persons@.len() as int) == persons@);
            assert forall|q: u64| flat.contains_key(q) implies persons@.contains(q) by {
                assert(persons@.to_set().contains(q));
            }
            assert forall|t: u32, q: u64| #[trigger] has_routed(r@, t, q) <==> (routed_to(
                occ0,
                events@,
                q,
                events@.len() as int,
            ).len() > 0 && t == person_collector(q, num_partitions, nc)) by {
                assert(routed_map(flat, occ0, events@, events@.len() as int, q));
            }
            assert forall|t: u32, q: u64| #[trigger] has_routed(r@, t, q) implies r@[t]@[q]@ == routed_to(
                occ0,
                events@,
                q,
                events@.len() as int,
            ) by {
                assert(routed_map(flat, occ0, events@, events@.len() as int, q));
            }
        }
        r
    }

    /// Records that partition `origin` has passed `time` as seen by collector `collector`. Once
    /// every pair of partition and collector has reported the time, the watermark advances to
    /// it and every person's events at or before it are released, in time order; the result
    /// holds them by person, for the persons that have any.
    pub fn add_arriving_watermark(&mut self, origin: u32, collector: u32, time: u32) -> (r: Vec<
        (u64, Vec<(u32, u32, E)>),
    >)
        requires
            old(self).wf(),
            old(self).num_partitions * old(self).num_collectors <= u32::MAX,
            old(self).completes(origin, collector, time) ==> old(self).watermark <= time,
        ensures
            final(self).wf(),
            final(self).num_partitions == old(self).num_partitions,
            final(self).num_collectors == old(self).num_collectors,
            final(self).occupancy == old(self).occupancy,
            final(self).watermark >= old(self).watermark,
            !old(self).completes(origin, collector, time) ==> {
                &&& final(self).watermark == old(self).watermark
                &&& final(self).queues@ == old(self).queues@
                &&& final(self).watermark_buffer@.remove(time) == old(self).watermark_buffer@.remove(time)
                &&& final(self).watermark_buffer@.contains_key(time)
                &&& final(self).watermark_buffer@[time]@ == pairs_with(
                    old(self).watermark_buffer@,
                    time,
                    (origin, collector),
                )
                &&& r@.len() == 0
            },
            old(self).completes(origin, collector, time) ==> {
                &&& final(self).watermark == time
                &&& final(self).watermark_buffer@ == old(self).watermark_buffer@.remove(time)
                &&& forall|p: u64|
                    #[trigger] waiting(old(self).queues@, p) == waiting(final(self).queues@, p).add(
                        entries_for(r@, p),
                    )
                &&& forall|p: u64, x: (u32, u32, E)|
                    #[trigger] waiting(final(self).queues@, p).count(x) > 0 ==> x.0 > time
                &&& forall|k: int|
                    0 <= k < r@.len() ==> {
                        &&& (#[trigger] r@[k]).1@.len() > 0
                        &&& in_time_order(r@[k].1@)
                        &&& forall|i: int| 0 <= i < r@[k].1@.len() ==> r@[k].1@[i].0 <= time
                    }
                &&& forall|a: int, b: int| 0 <= a < b < r@.len() ==> r@[a].0 != r@[b].0
            },
    {
        broadcast use vstd::multiset::group_multiset_axioms, vstd::seq_lib::group_to_multiset_ensures;

        let ghost b0 = self.watermark_buffer@;
        let mut pairs = match self.watermark_buffer.remove(&time) {
            Some(v) => v,
            None => Vec::new(),
        };
        proof {
            if !b0.contains_key(time) {
                assert(pairs@ =~= Seq::<(u32, u32)>::empty());
            }
        }
        if !contains_pair(&pairs, (origin, collector)) {
            pairs.push((origin, collector));
        }
        let needed = self.num_partitions * self.num_collectors;
        if pairs.len() != needed as usize {
            self.watermark_buffer.insert(time, pairs);
            proof {
                assert(self.watermark_buffer@.remove(time) =~= b0.remove(time));
            }
            return Vec::new();
        }
        self.watermark = time;
        proof {
            assert(self.watermark_buffer@ =~= b0.remove(time));
        }
        let ghost q0 = self.queues@;
        let mut released: Vec<(u64, Vec<(u32, u32, E)>)> = Vec::new();
        let mut i: usize = 0;
        while i < self.persons.len()
            invariant
                self.wf(),
                i <= self.persons@.len(),
                self.watermark == time,
                self.num_partitions == old(self).num_partitions,
                self.num_collectors == old(self).num_collectors,
                self.occupancy == old(self).occupancy,
                self.watermark_buffer@ == b0.remove(time),
                self.persons == old(self).persons,
                forall|p: u64|
                    #[trigger] waiting(q0, p) == waiting(self.queues@, p).add(
                        entries_for(released@, p),
                    ),
                forall|j: int, x: (u32, u32, E)|
                    0 <= j < i && #[trigger] waiting(self.queues@, self.persons@[j]).count(x) > 0
                        ==> x.0 > time,
                forall|k: int|
                    0 <= k < released@.len() ==> {
                        &&& (#[trigger] released@[k]).1@.len() > 0
                        &&& in_time_order(released@[k].1@)
                        &&& forall|t: int| 0 <= t < released@[k].1@.len() ==> released@[k].1@[t].0 <= time
                        &&& exists|j: int| 0 <= j < i && self.persons@[j] == released@[k].0
                    },
                forall|a: int, b: int| 0 <= a < b < released@.len() ==> released@[a].0 != released@[b].0,
            decreases self.persons.len() - i,
        {
            let person = self.persons[i];
            let ghost qb = self.queues@;
            let ghost rb = released@;
            proof {
                assert(self.persons@.contains(person));
            }
            let q = self.queues.remove(&person).unwrap();
            let (out, kept) = release_upto(q, time);
            let ghost out_v = out@;
            let ghost kept_v = kept@;
            self.queues.insert(person, kept);
            if out.len() > 0 {
                released.push((person, out));
                proof {
                    assert(released@.drop_last() == rb);
                }
            }
            proof {
                assert forall|p: u64| #[trigger] waiting(q0, p) == waiting(self.queues@, p).add(
                    entries_for(released@, p),
                ) by {
                    assert(waiting(q0, p) == waiting(qb, p).add(entries_for(rb, p)));
                    if p == person {
                        assert(waiting(qb, p) == out_v.to_multiset().add(kept_v.to_multiset()));
                        if out_v.len() > 0 {
                            assert(released@.last().1@ == out_v);
                            assert(entries_for(released@, p) =~= entries_for(rb, p).add(
                                out_v.to_multiset(),
                            ));
                        } else {
                            assert(out_v =~= Seq::<(u32, u32, E)>::empty());
                            vstd::seq_lib::to_multiset_len(out_v);
                            assert(out_v.to_multiset().len() == 0);
                            vstd::multiset::lemma_multiset_empty_len(out_v.to_multiset());
                            assert(released@ == rb);
                            assert(entries_for(released@, p) =~= entries_for(rb, p).add(
                                out_v.to_multiset(),
                            ));
                        }
                        assert(waiting(self.queues@, p) == kept_v.to_multiset());
                        assert(waiting(q0, p) =~= kept_v.to_multiset().add(out_v.to_multiset()).add(
                            entries_for(rb, p),
                        ));
                        assert(waiting(q0, p) =~= waiting(self.queues@, p).add(
                            entries_for(released@, p),
                        ));
                    } else {
                        assert(waiting(self.queues@, p) == waiting(qb, p));
                        if out_v.len() > 0 {
                            assert(entries_for(released@, p) =~= entries_for(rb, p));
                        }
                    }
                }
                assert forall|j: int, x: (u32, u32, E)|
                    0 <= j < i + 1 && #[trigger] waiting(self.queues@, self.persons@[j]).count(x)
                        > 0 implies x.0 > time by {
                    if j == i {
                        assert(waiting(self.queues@, person) == kept_v.to_multiset());
                        vstd::seq_lib::to_multiset_contains(kept_v, x);
                        assert(kept_v.contains(x));
                        let t = choose|t: int| 0 <= t < kept_v.len() && kept_v[t] == x;
                        assert(kept_v[t].0 > time);
                    } else {
                        assert(self.persons@[j] != person);
                        assert(waiting(self.queues@, self.persons@[j]) == waiting(
                            qb,
                            self.persons@[j],
                        ));
                    }
                }
                assert forall|k: int| 0 <= k < released@.len() implies exists|j: int|
                    0 <= j < i + 1 && self.persons@[j] == (#[trigger] released@[k]).0 by {
                    if k < rb.len() {
                        assert(released@[k] == rb[k]);
                        let j = choose|j: int| 0 <= j < i && self.persons@[j] == rb[k].0;
                        assert(0 <= j < i + 1);
                    } else {
                        assert(self.persons@[i as int] == released@[k].0);
                    }
                }
                assert forall|a: int, b: int|
                    0 <= a < b < released@.len() implies released@[a].0 != released@[b].0 by {
                    if b == rb.len() {
                        assert(released@[a] == rb[a]);
                        let j = choose|j: int| 0 <= j < i && self.persons@[j] == rb[a].0;
                        assert(self.persons@[j] != self.persons@[i as int]);
                    } else {
                        assert(released@[a] == rb[a] && released@[b] == rb[b]);
                    }
                }
            }
            i = i + 1;
        }
        proof {
            assert forall|p: u64, x: (u32, u32, E)|
                #[trigger] waiting(self.queues@, p).count(x) > 0 implies x.0 > time by {
                assert(self.queues@.contains_key(p));
                assert(self.persons@.contains(p));
                let j = choose|j: int| 0 <= j < self.persons@.len() && self.persons@[j] == p;
                assert(waiting(self.queues@, self.persons@[j]).count(x) > 0);
            }
        }
        released
    }

    /// Queues events that arrived for persons; each entry holds the event's time, its sequence
    /// number and the event.
    pub fn add_arriving_person_events(&mut self, arriving: Vec<(u64, Vec<(u32, u32, E)>)>)
        requires
            old(self).wf(),
        ensures
            final(self).wf(),
            forall|p: u64|
                #[trigger] waiting(final(self).queues@, p) == waiting(old(self).queues@, p).add(
                    entries_for(arriving@, p),
                ),
            final(self).num_partitions == old(self).num_partitions,
            final(self).num_collectors == old(self).num_collectors,
            final(self).occupancy == old(self).occupancy,
            final(self).watermark == old(self).watermark,
            final(self).watermark_buffer == old(self).watermark_buffer,
    {
        broadcast use vstd::multiset::group_multiset_axioms;

        let ghost q0 = self.queues@;
        let ghost a0 = arriving@;
        let mut arriving = arriving;
        while arriving.len() > 0
            invariant
                self.wf(),
                forall|p: u64|
                    #[trigger] waiting(self.queues@, p).add(entries_for(arriving@, p)) == waiting(
                        q0,
                        p,
                    ).add(entries_for(a0, p)),
                self.num_partitions == old(self).num_partitions,
                self.num_collectors == old(self).num_collectors,
                self.occupancy == old(self).occupancy,
                self.watermark == old(self).watermark,
                self.watermark_buffer == old(self).watermark_buffer,
            decreases arriving.len(),
        {
            let ghost rem = arriving@;
            let ghost qb = self.queues@;
            let ghost pb = self.persons@;
            let (person, events) = arriving.pop().unwrap();
            proof {
                assert(rem.drop_last() =~= arriving@);
            }
            let ghost evs = events@;
            let mut events = events;
            if self.queues.contains_key(&person) {
                let mut q = self.queues.remove(&person).unwrap();
                let ghost qv = q@;
                q.append(&mut events);
                proof {
                    vstd::seq_lib::lemma_multiset_commutative(qv, evs);
                }
                self.queues.insert(person, q);
            } else {
                self.queues.insert(person, events);
                self.persons.push(person);
            }
            proof {
                assert forall|p: u64| #[trigger] waiting(self.queues@, p).add(
                    entries_for(arriving@, p),
                ) == waiting(q0, p).add(entries_for(a0, p)) by {
                    assert(waiting(qb, p).add(entries_for(rem, p)) == waiting(q0, p).add(
                        entries_for(a0, p),
                    ));
                    if p == person {
                        assert(waiting(self.queues@, p) =~= waiting(qb, p).add(evs.to_multiset()));
                        assert(waiting(self.queues@, p).add(entries_for(arriving@, p)) =~= waiting(
                            qb,
                            p,
                        ).add(entries_for(rem, p)));
                    } else {
                        assert(waiting(self.queues@, p) == waiting(qb, p));
                        assert(entries_for(rem, p) =~= entries_for(arriving@, p));
                    }
                }
                if !qb.contains_key(person) {
                    assert(self.persons@ == pb.push(person));
                    assert(!pb.contains(person));
                    assert forall|p: u64| self.queues@.contains_key(p) <==> self.persons@.contains(
                        p,
                    ) by {
                        if p != person && self.persons@.contains(p) {
                            let t = choose|t: int|
                                0 <= t < self.persons@.len() && self.persons@[t] == p;
                            assert(pb[t] == p);
                        }
                        if pb.contains(p) {
                            let t = choose|t: int| 0 <= t < pb.len() && pb[t] == p;
                            assert(self.persons@[t] == p);
                        }
                        assert(self.persons@[pb.len() as int] == person);
                    }
                }
            }
        }
        proof {
            assert forall|p: u64| #[trigger] waiting(self.queues@, p) == waiting(q0, p).add(
                entries_for(a0, p),
            ) by {
                assert(entries_for(arriving@, p) =~= Multiset::empty());
                assert(waiting(self.queues@, p) =~= waiting(self.queues@, p).add(
                    entries_for(arriving@, p),
                ));
            }
        }
    }
}

} // verus!
