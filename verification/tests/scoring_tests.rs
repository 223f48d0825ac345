use rust_qsim::homesending::{
    Delivery, EventBlocks, HomeSendingDataCollector, PartitionAction, PartitionEventKind,
    ScoringEventKind,
};
use rust_qsim::finish_barrier::{finish_targets, FinishBarrier, WatermarkBarrier};
use rust_qsim::mapping_broker::{collector_targets, on_watermark, watermark_due, LeavingEvents, WatermarkAction};
use rust_qsim::mapping::{
    person_hash, release_upto, route_vehicle_events, vehicle_hash, Forward, MappingDataCollector,
    MappingDataForwarder, VehicleEvent, VehicleEventKind,
};
use rust_qsim::occupancy::VehicleOccupancy;
use rust_qsim::backpacking::{Backpack, BackpackAction, BackpackingDataCollector, FinishMessage};
use rust_qsim::scoring::{Backpack as ScoringBackpack, BackpackDataCollector, BackpackPlan, Benchmark};
use rust_qsim::state_machine_buffer::{EventType, State, StateMachineBuffer, StateMachineBufferBuilder};
use std::collections::HashMap;

fn sorted(mut v: Vec<u64>) -> Vec<u64> {
    v.sort();
    v
}

#[test]
fn person_and_vehicle_hashes_take_the_id_modulo_the_collectors() {
    let h = person_hash(3);
    assert_eq!(h.apply(7), 1);
    assert_eq!(h.apply(9), 0);
    let v = vehicle_hash(4);
    assert_eq!(v.apply(7), 3);
    assert_eq!(v.apply(u64::MAX), 3);
}

#[test]
fn occupancy_tracks_boarding_and_alighting() {
    let mut occ = VehicleOccupancy::new();
    occ.board(10, 1);
    occ.board(10, 2);
    occ.board(10, 1);
    assert_eq!(sorted(occ.passengers(10)), vec![1, 2]);
    occ.alight(10, 1);
    assert_eq!(occ.passengers(10), vec![2]);
    assert!(occ.passengers(11).is_empty());
    assert_eq!(occ.remove_vehicle(10), vec![2]);
    assert!(occ.passengers(10).is_empty());
    assert!(occ.remove_vehicle(10).is_empty());
}

#[test]
fn vehicle_events_go_to_the_persons_on_board() {
    let mut occ = VehicleOccupancy::new();
    let events = vec![
        VehicleEvent { vehicle: 5, kind: VehicleEventKind::PersonEntersVehicle { person: 1, vehicle: 5 }, c: 0 },
        VehicleEvent { vehicle: 5, kind: VehicleEventKind::VehicleEntersTraffic, c: 1 },
        VehicleEvent { vehicle: 5, kind: VehicleEventKind::PersonEntersVehicle { person: 2, vehicle: 5 }, c: 2 },
        VehicleEvent { vehicle: 5, kind: VehicleEventKind::LinkEnter, c: 3 },
        VehicleEvent { vehicle: 5, kind: VehicleEventKind::PersonLeavesVehicle { person: 1, vehicle: 5 }, c: 4 },
        VehicleEvent { vehicle: 5, kind: VehicleEventKind::VehicleLeavesTraffic, c: 5 },
    ];
    let routed = route_vehicle_events(&mut occ, &events);
    assert_eq!(routed[&1], vec![(0, 0), (1, 1), (2, 2), (3, 3), (4, 4)]);
    assert_eq!(routed[&2], vec![(2, 2), (3, 3), (4, 4), (5, 5)]);
    assert_eq!(routed.len(), 2);
    assert_eq!(occ.passengers(5), vec![2]);
}

#[test]
fn watermark_releases_events_in_time_order_once_every_pair_reported() {
    let mut collector: MappingDataCollector<&str> = MappingDataCollector::new(2, 1);
    collector.add_arriving_person_events(vec![
        (7, vec![(20, 0, "late"), (10, 1, "b"), (10, 0, "a")]),
        (8, vec![(30, 0, "x")]),
    ]);
    collector.add_arriving_person_events(vec![(7, vec![(15, 0, "c")])]);
    assert!(collector.add_arriving_watermark(0, 2, 15).is_empty());
    assert_eq!(collector.watermark, 0);
    // The same pair again does not complete the watermark.
    assert!(collector.add_arriving_watermark(0, 2, 15).is_empty());
    let released = collector.add_arriving_watermark(1, 2, 15);
    assert_eq!(collector.watermark, 15);
    assert_eq!(released.len(), 1);
    assert_eq!(released[0].0, 7);
    assert_eq!(released[0].1, vec![(10, 0, "a"), (10, 1, "b"), (15, 0, "c")]);
    assert_eq!(collector.queues[&7], vec![(20, 0, "late")]);
    assert_eq!(collector.queues[&8], vec![(30, 0, "x")]);
    assert!(collector.watermark_buffer.is_empty());
}

#[test]
fn release_upto_splits_at_the_watermark() {
    let (released, kept) = release_upto(vec![(5, 2, 'x'), (9, 0, 'y'), (5, 1, 'z'), (1, 7, 'w')], 5);
    assert_eq!(released, vec![(1, 7, 'w'), (5, 1, 'z'), (5, 2, 'x')]);
    assert_eq!(kept, vec![(9, 0, 'y')]);
}

#[test]
fn mapping_collector_routes_vehicle_events_with_its_occupancy() {
    let mut collector: MappingDataCollector<u8> = MappingDataCollector::new(1, 1);
    let routed = collector.add_arriving_vehicle_events(&[
        VehicleEvent { vehicle: 3, kind: VehicleEventKind::PersonEntersVehicle { person: 4, vehicle: 3 }, c: 9 },
    ]);
    assert_eq!(routed[&1][&4], vec![(0, 9)]);
    assert_eq!(routed.len(), 1);
    assert_eq!(collector.occupancy.passengers(3), vec![4]);
}

#[test]
fn mapping_collector_groups_routed_events_by_the_persons_collector() {
    let mut collector: MappingDataCollector<u8> = MappingDataCollector::new(3, 2);
    let routed = collector.add_arriving_vehicle_events(&[
        VehicleEvent { vehicle: 8, kind: VehicleEventKind::PersonEntersVehicle { person: 4, vehicle: 8 }, c: 0 },
        VehicleEvent { vehicle: 8, kind: VehicleEventKind::PersonEntersVehicle { person: 7, vehicle: 8 }, c: 1 },
        VehicleEvent { vehicle: 8, kind: VehicleEventKind::LinkEnter, c: 2 },
    ]);
    // Person 4 belongs to collector 4 % 2 + 3 = 3, person 7 to collector 7 % 2 + 3 = 4.
    assert_eq!(routed.len(), 2);
    assert_eq!(routed[&3][&4], vec![(0, 0), (1, 1), (2, 2)]);
    assert_eq!(routed[&4][&7], vec![(1, 1), (2, 2)]);
    assert_eq!(routed[&3].len(), 1);
}

fn homesending() -> HomeSendingDataCollector<&'static str> {
    let mut home = HashMap::new();
    home.insert(1, 0);
    home.insert(2, 1);
    HomeSendingDataCollector::new(&[1, 2], home, 0)
}

#[test]
fn homesending_keeps_events_of_persons_at_home_and_sends_the_others() {
    let mut c = homesending();
    assert!(c.is_person_at_home(1));
    assert!(!c.is_person_at_home(2));
    assert_eq!(
        c.handle_event(ScoringEventKind::ActivityEnd { person: 1 }),
        vec![(1, Delivery::Local)]
    );
    assert_eq!(
        c.handle_event(ScoringEventKind::PersonDeparture { person: 2 }),
        vec![(2, Delivery::Leaving(1))]
    );
    assert!(c.handle_event(ScoringEventKind::LinkEnter { vehicle: 9 }).is_empty());
    c.on_person_enters_vehicle(9, 1);
    c.on_person_enters_vehicle(9, 2);
    let mut r = c.handle_event(ScoringEventKind::LinkEnter { vehicle: 9 });
    r.sort_by_key(|x| x.0);
    assert_eq!(r, vec![(1, Delivery::Local), (2, Delivery::Leaving(1))]);
    assert!(c.handle_event(ScoringEventKind::Other).is_empty());
    c.on_person_leaves_vehicle(9);
    assert!(c.handle_event(ScoringEventKind::VehicleLeavesTraffic { vehicle: 9 }).is_empty());
}

#[test]
fn homesending_collects_arriving_events_and_vehicles() {
    let mut c = homesending();
    c.add_arriving_events(1, vec!["a", "b"]);
    c.add_arriving_events(1, vec!["c"]);
    assert_eq!(c.person_id2events[&1], vec!["a", "b", "c"]);
    assert!(c.person_id2events[&2].is_empty());
    c.add_arriving_vehicles(vec![(4, vec![1, 2]), (5, vec![2])]);
    assert_eq!(sorted(c.remove_leaving_vehicles(4)), vec![1, 2]);
    assert!(c.remove_leaving_vehicles(4).is_empty());
    assert_eq!(c.remove_leaving_vehicles(5), vec![2]);
}

#[test]
fn benchmarks_are_numbered_by_partition() {
    let b = Benchmark::setup_benchmark(3);
    assert_eq!(b, vec![Benchmark { rank: 0 }, Benchmark { rank: 1 }, Benchmark { rank: 2 }]);
    assert!(Benchmark::setup_benchmark(0).is_empty());
    let _plan = BackpackPlan::new();
    assert_eq!(FinishMessage { time: 4 }.time, 4);
}

#[test]
fn default_state_machine_holds_a_departure_until_it_is_safe_again() {
    let mut m: StateMachineBuffer<&str> = StateMachineBuffer::default_state_machine_buffer();
    assert_eq!(m.current_state, State(7, true));
    assert_eq!(m.next_state(EventType::ActivityEnd), Some(State(0, false)));
    assert_eq!(m.next_state(EventType::LinkEnter), None);
    assert!(m.process_event(3, EventType::ActivityEnd, "end").is_empty());
    assert_eq!(m.current_state, State(0, false));
    assert!(m.process_event(1, EventType::PersonDeparture, "departure").is_empty());
    assert_eq!(m.current_state, State(1, false));
    assert_eq!(m.buffer.len(), 2);
    let released = m.process_event(2, EventType::TeleportationArrival, "teleported");
    assert_eq!(released, vec!["departure", "teleported", "end"]);
    assert_eq!(m.current_state, State(7, true));
    assert!(m.buffer.is_empty());
}

#[test]
fn releasing_state_returns_buffered_events_by_key() {
    let builder = StateMachineBufferBuilder::new(vec!["waiting"])
        .add_state("done", true)
        .add_transition("safe", EventType::PersonDeparture, "waiting")
        .add_transition("waiting", EventType::PersonDeparture, "waiting")
        .add_transition("waiting", EventType::PersonArrival, "done");
    assert_eq!(builder.state_of("waiting"), Some(State(0, false)));
    assert_eq!(builder.state_of("safe"), Some(State(1, true)));
    assert_eq!(builder.state_of("done"), Some(State(0, true)));
    assert_eq!(builder.state_of("nowhere"), None);
    assert_eq!(
        builder.transition_from(State(0, false), EventType::PersonArrival),
        Some(State(0, true))
    );
    assert_eq!(builder.transition_from(State(1, true), EventType::LinkEnter), None);
    let mut m: StateMachineBuffer<&str> = builder.build();
    assert_eq!(m.current_state, State(1, true));
    assert!(m.process_event(5, EventType::PersonDeparture, "five").is_empty());
    assert_eq!(m.current_state, State(0, false));
    assert!(m.process_event(2, EventType::PersonDeparture, "two").is_empty());
    let released = m.process_event(4, EventType::PersonArrival, "four");
    assert_eq!(released, vec!["two", "four", "five"]);
    assert_eq!(m.current_state, State(0, true));
    assert!(m.buffer.is_empty());
}

#[test]
fn events_in_the_safe_state_come_straight_back() {
    let mut m: StateMachineBuffer<&str> = StateMachineBufferBuilder::new(vec![])
        .add_transition("safe", EventType::LinkEnter, "safe")
        .build();
    assert_eq!(m.process_event(9, EventType::LinkEnter, "first"), vec!["first"]);
    assert_eq!(m.process_event(3, EventType::LinkEnter, "second"), vec!["second"]);
    assert!(m.buffer.is_empty());
}

#[test]
fn event_blocks_hand_on_events_in_the_order_of_the_partitions_visited() {
    let mut blocks: EventBlocks<&str> = EventBlocks::new(&[1, 2], 0);
    blocks.push_events_on_block(1, 0, vec!["a", "b"]);
    // The person's block from partition 1 arrives before the block of partition 0 is closed.
    blocks.open_block(1, 1, true);
    blocks.push_events_on_block(1, 1, vec!["c"]);
    assert!(blocks.close_block(1, 1, 2).is_empty());
    assert_eq!(blocks.current_partition[&1], 0);
    let handed = blocks.close_block(1, 0, 1);
    assert_eq!(handed, vec![vec!["a", "b"], vec!["c"]]);
    assert_eq!(blocks.current_partition[&1], 2);
    blocks.open_block(1, 2, true);
    blocks.push_events_on_block(1, 2, vec!["d"]);
    let finished = blocks.finish_blocks();
    assert_eq!(finished, vec![(1, vec!["d"]), (2, vec![])]);
    assert!(blocks.blocks.is_empty());
}

#[test]
fn forwarder_sends_person_events_by_person_and_vehicle_events_by_vehicle() {
    let f = MappingDataForwarder::new(person_hash(3), vehicle_hash(2), 4);
    assert_eq!(
        f.handle_event(ScoringEventKind::ActivityEnd { person: 7 }),
        Some(Forward::Person { person: 7, target: 5 })
    );
    assert_eq!(
        f.handle_event(ScoringEventKind::PersonEntersVehicle { person: 7, vehicle: 9 }),
        Some(Forward::Vehicle { vehicle: 9, target: 5 })
    );
    assert_eq!(
        f.handle_event(ScoringEventKind::LinkEnter { vehicle: 10 }),
        Some(Forward::Vehicle { vehicle: 10, target: 4 })
    );
    assert_eq!(f.handle_event(ScoringEventKind::Other), None);
}

#[test]
fn backpacking_holds_back_link_enters_of_vehicles_on_their_way() {
    let mut c: BackpackingDataCollector<&str, ()> = BackpackingDataCollector::new(0);
    assert!(c.handle_event(ScoringEventKind::LinkEnter { vehicle: 3 }, "unknown").is_empty());
    assert!(c.deferred_link_events.is_empty());
    c.wait_for_vehicle(3);
    assert!(c.handle_event(ScoringEventKind::LinkEnter { vehicle: 3 }, "held").is_empty());
    assert_eq!(c.deferred_link_events, vec!["held"]);
    c.add_arriving_vehicle(3, vec![8, 9]);
    let replay = c.replay_deferred_link_events();
    assert_eq!(replay, vec!["held"]);
    let mut persons = c.handle_event(ScoringEventKind::LinkEnter { vehicle: 3 }, "again");
    persons.sort();
    assert_eq!(persons, vec![8, 9]);
    assert_eq!(c.handle_event(ScoringEventKind::ActivityStart { person: 4 }, "act"), vec![4]);
    assert!(c.handle_event(ScoringEventKind::Other, "other").is_empty());
    assert_eq!(c.remove_leaving_vehicles(3).len(), 2);
    assert!(c.handle_event(ScoringEventKind::VehicleLeavesTraffic { vehicle: 3 }, "x").is_empty());
}

#[test]
fn homesending_partition_events_go_home_or_open_a_block() {
    let mut c = homesending();
    c.on_person_enters_vehicle(9, 1);
    c.on_person_enters_vehicle(9, 2);
    match c.handle_partition_event(PartitionEventKind::VehicleLeavesPartition { vehicle: 9, to: 3 }) {
        PartitionAction::SendVehicle { to, vehicle, persons } => {
            assert_eq!(to, 3);
            assert_eq!(vehicle, 9);
            assert_eq!(sorted(persons), vec![1, 2]);
        }
        other => panic!("unexpected action {:?}", other),
    }
    assert!(c.handle_event(ScoringEventKind::LinkEnter { vehicle: 9 }).is_empty());
    match c.handle_partition_event(PartitionEventKind::AgentLeavesPartition { person: 1, to: 2 }) {
        PartitionAction::SendToHome { home, person } => assert_eq!((home, person), (0, 1)),
        other => panic!("unexpected action {:?}", other),
    }
    match c.handle_partition_event(PartitionEventKind::AgentEntersPartition { person: 1 }) {
        PartitionAction::OpenBlockHere { person } => assert_eq!(person, 1),
        other => panic!("unexpected action {:?}", other),
    }
    match c.handle_partition_event(PartitionEventKind::AgentEntersPartition { person: 2 }) {
        PartitionAction::SendToHome { home, person } => assert_eq!((home, person), (1, 2)),
        other => panic!("unexpected action {:?}", other),
    }
    assert!(matches!(
        c.handle_partition_event(PartitionEventKind::VehicleEntersPartition { vehicle: 4 }),
        PartitionAction::Ignore
    ));
}

#[test]
fn backpacks_travel_with_their_persons_and_go_home_at_the_end() {
    let mut c: BackpackingDataCollector<&str, &str> = BackpackingDataCollector::new(1);
    c.generate_backpacks_for_population(vec![(10, "plan of 10"), (11, "plan of 11")]);
    assert_eq!(c.backpacks.len(), 2);
    assert_eq!(c.backpacks[&10].get_starting_partion(), 1);

    match c.handle_partition_event(PartitionEventKind::AgentLeavesPartition { person: 10, to: 2 }) {
        BackpackAction::SendBackpack { to, backpack } => {
            assert_eq!(to, 2);
            assert_eq!(backpack.person_id, 10);
            assert_eq!(backpack.plan, "plan of 10");
        }
        other => panic!("unexpected action {:?}", other),
    }
    assert!(!c.backpacks.contains_key(&10));
    match c.handle_partition_event(PartitionEventKind::AgentEntersPartition { person: 12 }) {
        BackpackAction::WaitForBackpack { person } => assert_eq!(person, 12),
        other => panic!("unexpected action {:?}", other),
    }
    c.add_arriving_backpack(Backpack::new(12, 0, "plan of 12"));
    c.add_arriving_backpack(Backpack::new(13, 3, "plan of 13"));

    let mut foreign = c.take_foreign_backpacks();
    foreign.sort_by_key(|b| b.person_id);
    let homes: Vec<(u64, u32)> = foreign.iter().map(|b| (b.person_id, b.get_starting_partion())).collect();
    assert_eq!(homes, vec![(12, 0), (13, 3)]);
    assert_eq!(c.backpacks.len(), 1);
    assert!(c.backpacks.contains_key(&11));
}

#[test]
fn backpacking_partition_events_for_vehicles() {
    let mut c: BackpackingDataCollector<&str, ()> = BackpackingDataCollector::new(0);
    c.add_arriving_vehicle(5, vec![1, 2]);
    match c.handle_partition_event(PartitionEventKind::VehicleLeavesPartition { vehicle: 5, to: 4 }) {
        BackpackAction::SendVehicle { to, vehicle, persons } => {
            assert_eq!((to, vehicle), (4, 5));
            assert_eq!(sorted(persons), vec![1, 2]);
        }
        other => panic!("unexpected action {:?}", other),
    }
    match c.handle_partition_event(PartitionEventKind::VehicleEntersPartition { vehicle: 6 }) {
        BackpackAction::WaitForVehicle { vehicle } => assert_eq!(vehicle, 6),
        other => panic!("unexpected action {:?}", other),
    }
    assert!(c.pending_vehicles.contains(&6));
    assert!(c.handle_event(ScoringEventKind::LinkEnter { vehicle: 6 }, "held").is_empty());
    assert_eq!(c.deferred_link_events, vec!["held"]);
}

#[test]
fn finish_is_announced_to_every_other_partition() {
    assert_eq!(finish_targets(1, 4), vec![0, 2, 3]);
    assert_eq!(finish_targets(0, 1), Vec::<u32>::new());
    assert_eq!(finish_targets(5, 2), vec![0, 1]);
}

#[test]
fn finish_barrier_completes_once_every_other_partition_finished() {
    let mut b = FinishBarrier::new(1, 3);
    assert!(!b.is_complete());
    b.record_finish(0);
    assert!(!b.is_complete());
    b.record_finish(0);
    assert!(!b.is_complete());
    b.record_finish(2);
    assert!(b.is_complete());
    let single = FinishBarrier::new(0, 1);
    assert!(single.is_complete());
}

#[test]
fn special_scoring_events_go_into_the_persons_backpack() {
    let mut c: BackpackDataCollector<&str> = BackpackDataCollector::new();
    c.person_id2backpack.insert(3, ScoringBackpack::new(3, 1));
    c.person_id2backpack.insert(4, ScoringBackpack::new(4, 2));
    c.add_special_scoring_event(3, "activity start");
    c.add_special_scoring_event(3, "activity end");
    assert_eq!(c.person_id2backpack[&3].events, vec!["activity start", "activity end"]);
    assert!(c.person_id2backpack[&4].events.is_empty());
    let b = c.person_id2backpack.remove(&4).unwrap();
    assert_eq!(b.starting_partition, 2);
    assert_eq!(b.to_message(), "Hello");
}

#[test]
fn leaving_events_are_numbered_in_the_order_they_were_added() {
    let mut l: LeavingEvents<&str> = LeavingEvents::new();
    l.add_leaving_person_event(2, 10, "a");
    l.add_leaving_vehicle_event(3, 7, "b");
    l.add_leaving_person_event(2, 10, "c");
    l.add_leaving_person_event(2, 11, "d");
    assert_eq!(l.counter, 4);
    let (persons, vehicles) = l.take_all();
    assert_eq!(persons[&2][&10], vec![("a", 0), ("c", 2)]);
    assert_eq!(persons[&2][&11], vec![("d", 3)]);
    assert_eq!(vehicles[&3][&7], vec![("b", 1)]);
    assert!(l.person_events.is_empty() && l.vehicle_events.is_empty());
    l.add_leaving_person_event(2, 10, "e");
    assert_eq!(l.person_events[&2][&10], vec![("e", 4)]);
}

#[test]
fn watermarks_are_sent_on_the_sync_interval_and_passed_on_once() {
    assert!(watermark_due(20, 10, false));
    assert!(!watermark_due(25, 10, false));
    assert!(watermark_due(25, 10, true));
    assert_eq!(collector_targets(3, 2), vec![3, 4]);
    assert_eq!(on_watermark(1, 99, 0, 50), WatermarkAction::PassOn { origin: 0, time: 50 });
    assert_eq!(
        on_watermark(2, 0, 4, 50),
        WatermarkAction::Record { origin: 0, collector: 4, time: 50, last: false }
    );
    assert_eq!(
        on_watermark(2, 1, 3, u32::MAX),
        WatermarkAction::Record { origin: 1, collector: 3, time: u32::MAX, last: true }
    );
}

#[test]
fn watermark_barrier_completes_once_every_pair_sent_its_last_watermark() {
    let mut b = WatermarkBarrier::new(2, 2);
    b.record_last(0, 2);
    b.record_last(1, 2);
    b.record_last(0, 3);
    b.record_last(0, 3);
    assert!(!b.is_complete());
    b.record_last(1, 3);
    assert!(b.is_complete());
}
