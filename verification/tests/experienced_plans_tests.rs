use rust_qsim::backpacking::{Backpack, BackpackingDataCollector};
use rust_qsim::experienced_plans::{ExperiencedEvent, PartialPlan};
use rust_qsim::homesending::{HomeSendingDataCollector, ScoringEventKind};
use std::collections::HashMap;
use rust_qsim::trip_structure::{InternalPlanElement, InternalRoute};

const WALK: u64 = 1;
const CAR: u64 = 2;
const SECOND: u128 = 1_000_000_000;

fn replay(events: Vec<ExperiencedEvent>) -> PartialPlan {
    let mut plan = PartialPlan::default();
    for e in &events {
        plan.handle_event(e);
    }
    plan
}

#[test]
fn experienced_plan_of_a_car_trip() {
    let plan = replay(vec![
        ExperiencedEvent::ActivityEnd { time: 100, link: 1, act_type: "home".to_string() },
        ExperiencedEvent::PersonDeparture { time: 100, link: 1, leg_mode: CAR, routing_mode: CAR },
        ExperiencedEvent::PersonEntersVehicle { vehicle: 7 },
        ExperiencedEvent::Other,
        ExperiencedEvent::LinkEnter { link: 2 },
        ExperiencedEvent::LinkEnter { link: 3 },
        ExperiencedEvent::PersonArrival { time: 160, link: 3 },
        ExperiencedEvent::ActivityStart { time: 160, link: 3, act_type: "work".to_string() },
    ]);
    let finished = plan.finish();
    assert!(finished.selected);
    assert_eq!(finished.elements.len(), 3);
    match &finished.elements[0] {
        InternalPlanElement::Activity(a) => {
            assert_eq!(a.act_type, "home");
            assert_eq!(a.link_id, 1);
            assert_eq!(a.start_time, None);
            assert_eq!(a.end_time, Some(100));
        }
        _ => panic!("expected the home activity"),
    }
    match &finished.elements[1] {
        InternalPlanElement::Leg(l) => {
            assert_eq!(l.mode, CAR);
            assert_eq!(l.routing_mode, Some(CAR));
            assert_eq!(l.dep_time, Some(100));
            assert_eq!(l.trav_time, Some(60 * SECOND));
            match &l.route {
                Some(InternalRoute::Network(nr)) => {
                    assert_eq!(nr.route, vec![2, 3]);
                    assert_eq!(nr.generic.start_link, 1);
                    assert_eq!(nr.generic.end_link, 3);
                    assert_eq!(nr.generic.trav_time, Some(60 * SECOND));
                    assert_eq!(nr.generic.distance_ok, None);
                    assert_eq!(nr.generic.vehicle, Some(7));
                }
                _ => panic!("expected a network route"),
            }
        }
        _ => panic!("expected the car leg"),
    }
    match &finished.elements[2] {
        InternalPlanElement::Activity(a) => {
            assert_eq!(a.act_type, "work");
            assert_eq!(a.start_time, Some(160));
            assert_eq!(a.end_time, None);
        }
        _ => panic!("expected the work activity"),
    }
}

#[test]
fn experienced_plan_of_a_teleported_walk() {
    let plan = replay(vec![
        ExperiencedEvent::ActivityEnd { time: 10, link: 4, act_type: "home".to_string() },
        ExperiencedEvent::PersonDeparture { time: 10, link: 4, leg_mode: WALK, routing_mode: WALK },
        ExperiencedEvent::TeleportationArrival { distance_ok: true },
        ExperiencedEvent::PersonArrival { time: 70, link: 5 },
    ]);
    assert!(plan.current_activity.is_none());
    let finished = plan.finish();
    assert_eq!(finished.elements.len(), 2);
    match &finished.elements[1] {
        InternalPlanElement::Leg(l) => match &l.route {
            Some(InternalRoute::Generic(g)) => {
                assert_eq!((g.start_link, g.end_link), (4, 5));
                assert_eq!(g.trav_time, Some(60 * SECOND));
                assert_eq!(g.distance_ok, Some(true));
                assert_eq!(g.vehicle, None);
            }
            _ => panic!("expected a teleported route"),
        },
        _ => panic!("expected the walk leg"),
    }
}

#[test]
fn experienced_plan_without_finished_elements_is_empty_and_not_selected() {
    let plan = replay(vec![ExperiencedEvent::Other]);
    let finished = plan.finish();
    assert!(!finished.selected);
    assert!(finished.elements.is_empty());
}

#[test]
fn backpack_carries_the_experienced_plan_of_its_person() {
    let mut backpack = Backpack::new(12, 0, PartialPlan::default());
    backpack.handle_event(&ExperiencedEvent::ActivityEnd {
        time: 5,
        link: 9,
        act_type: "home".to_string(),
    });
    let (person, plan) = backpack.finish();
    assert_eq!(person, 12);
    assert!(plan.selected);
    assert_eq!(plan.elements.len(), 1);
    assert_eq!(plan.elements[0].as_activity().unwrap().end_time, Some(5));
}

#[test]
fn home_partition_rebuilds_the_plans_of_its_persons_at_the_end() {
    let mut home = HashMap::new();
    home.insert(1, 0);
    home.insert(2, 0);
    let mut c: HomeSendingDataCollector<ExperiencedEvent> = HomeSendingDataCollector::new(&[1, 2], home, 0);
    c.add_arriving_events(
        1,
        vec![
            ExperiencedEvent::ActivityEnd { time: 30, link: 8, act_type: "home".to_string() },
            ExperiencedEvent::PersonDeparture { time: 30, link: 8, leg_mode: WALK, routing_mode: WALK },
            ExperiencedEvent::TeleportationArrival { distance_ok: false },
            ExperiencedEvent::PersonArrival { time: 90, link: 9 },
            ExperiencedEvent::ActivityStart { time: 90, link: 9, act_type: "shop".to_string() },
        ],
    );
    let mut plans = c.finish();
    plans.sort_by_key(|(p, _)| *p);
    assert_eq!(plans.len(), 2);
    assert_eq!(plans[0].0, 1);
    assert!(plans[0].1.selected);
    assert_eq!(plans[0].1.elements.len(), 3);
    assert_eq!(plans[1].0, 2);
    assert!(!plans[1].1.selected);
    assert!(plans[1].1.elements.is_empty());
    assert!(c.person_id2events.is_empty());
}

#[test]
fn backpacks_that_came_home_hand_over_their_plans() {
    let mut c: BackpackingDataCollector<&str, PartialPlan> = BackpackingDataCollector::new(0);
    c.generate_backpacks_for_population(vec![(1, PartialPlan::default()), (2, PartialPlan::default())]);
    c.backpacks.get_mut(&1).unwrap().handle_event(&ExperiencedEvent::ActivityEnd {
        time: 7,
        link: 3,
        act_type: "home".to_string(),
    });
    let mut plans = c.finish_backpacks();
    plans.sort_by_key(|(p, _)| *p);
    assert_eq!(plans.len(), 2);
    assert_eq!(plans[0].0, 1);
    assert_eq!(plans[0].1.elements.len(), 1);
    assert_eq!(plans[1].0, 2);
    assert!(plans[1].1.elements.is_empty());
    assert!(c.backpacks.is_empty());
}

#[test]
fn events_are_handed_to_the_backpacks_of_the_persons_they_concern() {
    let mut c: BackpackingDataCollector<ExperiencedEvent, PartialPlan> = BackpackingDataCollector::new(0);
    c.generate_backpacks_for_population(vec![(1, PartialPlan::default()), (2, PartialPlan::default())]);
    c.deliver_event(
        ScoringEventKind::ActivityEnd { person: 1 },
        ExperiencedEvent::ActivityEnd { time: 4, link: 6, act_type: "home".to_string() },
    );
    assert_eq!(c.backpacks[&1].plan.elements.len(), 1);
    assert!(c.backpacks[&2].plan.elements.is_empty());
    c.wait_for_vehicle(9);
    c.deliver_event(ScoringEventKind::LinkEnter { vehicle: 9 }, ExperiencedEvent::LinkEnter { link: 5 });
    assert_eq!(c.deferred_link_events.len(), 1);
    assert!(c.backpacks[&1].plan.current_leg.is_none());
}
