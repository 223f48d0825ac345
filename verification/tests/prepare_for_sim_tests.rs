use rust_qsim::network::{Network, NetworkLink, NetworkNode};
use rust_qsim::prepare_for_sim::{
    assess_trip, generic_route_is_valid, network_route_is_valid, resolve_main_mode, trip_is_valid,
    trip_legs, TripAssessment, TripPreparationError,
};
use rust_qsim::routing::{complete_route, path_to_elements, set_routing_mode, RoutingError};
use rust_qsim::trip_structure::{
    get_trip_spans_default, InternalActivity, InternalGenericRoute, InternalLeg,
    InternalNetworkRoute, InternalPlanElement, InternalRoute, TripSpan,
};
use std::collections::HashMap;

const WALK: u64 = 1;
const CAR: u64 = 2;
const BIKE: u64 = 3;
const SECOND: u128 = 1_000_000_000;

/// Nodes 0 to `link_count`, and link `i` (from 1) from node `i - 1` to node `i`, allowing the
/// given modes.
fn sequential_network(link_count: u64, modes: Vec<u64>) -> Network {
    let mut nodes = Vec::new();
    for id in 0..=link_count {
        let mut in_links = Vec::new();
        let mut out_links = Vec::new();
        if id > 0 {
            in_links.push(id);
        }
        if id < link_count {
            out_links.push(id + 1);
        }
        nodes.push(NetworkNode { id, in_links, out_links });
    }
    let mut links = HashMap::new();
    for id in 1..=link_count {
        links.insert(id, NetworkLink { id, from: id - 1, to: id, modes: modes.clone() });
    }
    Network { nodes, links }
}

fn act(act_type: &str, link_id: u64) -> InternalPlanElement {
    InternalPlanElement::Activity(InternalActivity { act_type: act_type.to_string(), link_id, start_time: None, end_time: None })
}

fn generic(start: u64, end: u64, secs: u128) -> InternalGenericRoute {
    InternalGenericRoute {
        start_link: start,
        end_link: end,
        trav_time: Some(secs * SECOND),
        distance_ok: Some(true),
        vehicle: None,
    }
}

fn walk_leg(link: u64, routing_mode: Option<u64>) -> InternalPlanElement {
    InternalPlanElement::Leg(InternalLeg {
        mode: WALK,
        routing_mode,
        dep_time: None,
        trav_time: Some(SECOND),
        route: Some(InternalRoute::Generic(generic(link, link, 1))),
    })
}

fn car_leg(links: Vec<u64>, routing_mode: Option<u64>) -> InternalPlanElement {
    let g = generic(links[0], links[links.len() - 1], 2);
    InternalPlanElement::Leg(InternalLeg {
        mode: CAR,
        routing_mode,
        dep_time: None,
        trav_time: Some(2 * SECOND),
        route: Some(InternalRoute::Network(InternalNetworkRoute { generic: g, route: links })),
    })
}

/// home - walk - car interaction - car - car interaction - walk - work, routed for car.
fn routed_plan() -> Vec<InternalPlanElement> {
    vec![
        act("home", 1),
        walk_leg(1, Some(CAR)),
        act("car interaction", 1),
        car_leg(vec![1, 2], Some(CAR)),
        act("car interaction", 2),
        walk_leg(2, Some(CAR)),
        act("work", 2),
    ]
}

fn unrouted_plan() -> Vec<InternalPlanElement> {
    vec![
        act("home", 1),
        InternalPlanElement::Leg(InternalLeg {
            mode: CAR,
            routing_mode: Some(CAR),
            dep_time: None,
            trav_time: None,
            route: None,
        }),
        act("work", 2),
    ]
}

fn only_span(elements: &[InternalPlanElement]) -> TripSpan {
    let spans = get_trip_spans_default(elements);
    assert_eq!(spans.len(), 1);
    spans[0]
}

#[test]
fn routed_network_trip_is_valid() {
    let network = sequential_network(2, vec![CAR]);
    let elements = routed_plan();
    let span = only_span(&elements);
    let result = assess_trip(&network, &[CAR], WALK, span, &elements);
    assert!(matches!(result, Ok(TripAssessment::Valid)));
}

#[test]
fn unrouted_trip_needs_routing_with_its_mode() {
    let network = sequential_network(2, vec![CAR]);
    let elements = unrouted_plan();
    let span = only_span(&elements);
    let result = assess_trip(&network, &[CAR], WALK, span, &elements);
    assert!(matches!(result, Ok(TripAssessment::NeedsRouting(CAR))));
}

#[test]
fn network_trip_without_access_and_egress_needs_routing() {
    let network = sequential_network(2, vec![CAR]);
    let elements = vec![act("home", 1), car_leg(vec![1, 2], Some(CAR)), act("work", 2)];
    let span = only_span(&elements);
    assert!(matches!(
        assess_trip(&network, &[CAR], WALK, span, &elements),
        Ok(TripAssessment::NeedsRouting(CAR))
    ));
    // The same trip is fine where car is not simulated on the network.
    assert!(matches!(
        assess_trip(&network, &[], WALK, span, &elements),
        Ok(TripAssessment::Valid)
    ));
}

#[test]
fn trip_with_only_stage_activities_has_no_legs() {
    let network = sequential_network(2, vec![CAR]);
    let elements = vec![act("home", 1), act("car interaction", 1), act("work", 2)];
    let span = only_span(&elements);
    assert!(matches!(
        assess_trip(&network, &[CAR], WALK, span, &elements),
        Err(TripPreparationError::NoLegs)
    ));
}

#[test]
fn two_routing_modes_are_ambiguous() {
    let network = sequential_network(2, vec![CAR]);
    let elements = vec![
        act("home", 1),
        walk_leg(1, Some(CAR)),
        act("car interaction", 1),
        walk_leg(1, Some(BIKE)),
        act("work", 2),
    ];
    let span = only_span(&elements);
    assert!(matches!(
        assess_trip(&network, &[CAR], WALK, span, &elements),
        Err(TripPreparationError::AmbiguousMainMode)
    ));
}

#[test]
fn single_leg_without_routing_mode_takes_its_mode() {
    let elements = vec![walk_leg(1, None)];
    let legs = trip_legs(&elements);
    assert!(matches!(resolve_main_mode(&legs), Ok(WALK)));
    let network = sequential_network(2, vec![CAR]);
    let plan = vec![act("home", 1), walk_leg(1, None), act("work", 1)];
    let span = only_span(&plan);
    assert!(matches!(
        assess_trip(&network, &[CAR], WALK, span, &plan),
        Ok(TripAssessment::NeedsRouting(WALK))
    ));
}

#[test]
fn two_legs_without_routing_modes_are_ambiguous() {
    let elements = vec![walk_leg(1, None), act("x interaction", 1), walk_leg(1, None)];
    let legs = trip_legs(&elements);
    assert_eq!(legs.len(), 2);
    assert!(matches!(resolve_main_mode(&legs), Err(TripPreparationError::AmbiguousMainMode)));
    assert!(matches!(resolve_main_mode(&[]), Err(TripPreparationError::NoLegs)));
}

#[test]
fn network_route_checks() {
    let network = sequential_network(3, vec![CAR]);
    let g = generic(1, 3, 5);
    assert!(network_route_is_valid(&network, &[1, 2, 3], CAR, &g));
    assert!(!network_route_is_valid(&network, &[1, 3], CAR, &g), "links must be connected");
    assert!(!network_route_is_valid(&network, &[2, 3], CAR, &g), "must start on the start link");
    assert!(!network_route_is_valid(&network, &[1, 2], CAR, &g), "must end on the end link");
    assert!(!network_route_is_valid(&network, &[1, 2, 3], BIKE, &g), "links must allow the mode");
    assert!(!network_route_is_valid(&network, &[], CAR, &g));
}

#[test]
fn generic_route_checks() {
    let mut g = generic(1, 1, 1);
    assert!(generic_route_is_valid(&g));
    g.distance_ok = Some(false);
    assert!(!generic_route_is_valid(&g));
    g.distance_ok = None;
    assert!(!generic_route_is_valid(&g));
    let mut g = generic(1, 1, 1);
    g.trav_time = None;
    assert!(!generic_route_is_valid(&g));
}

#[test]
fn trip_check_needs_two_stage_activities_for_network_modes() {
    let network = sequential_network(2, vec![CAR]);
    let elements = vec![
        act("home", 1),
        walk_leg(1, Some(CAR)),
        car_leg(vec![1, 2], Some(CAR)),
        act("car interaction", 2),
        walk_leg(2, Some(CAR)),
        act("work", 2),
    ];
    let span = only_span(&elements);
    let legs = trip_legs(span.trip_elements(&elements));
    assert!(!trip_is_valid(&network, &[CAR], WALK, span, &elements, CAR, &legs));
    let routed = routed_plan();
    let span = only_span(&routed);
    let legs = trip_legs(span.trip_elements(&routed));
    assert!(trip_is_valid(&network, &[CAR], WALK, span, &routed, CAR, &legs));
    assert!(!trip_is_valid(&network, &[CAR], WALK, span, &routed, BIKE, &legs));
}

#[test]
fn routing_marks_every_leg_with_the_mode() {
    let mut elements = vec![walk_leg(1, None), act("car interaction", 1), car_leg(vec![1], None)];
    set_routing_mode(&mut elements, CAR);
    for e in &elements {
        if let InternalPlanElement::Leg(l) = e {
            assert_eq!(l.routing_mode, Some(CAR));
        }
    }
    let routed = complete_route(CAR, "car", Some(Ok(vec![walk_leg(5, Some(WALK))]))).unwrap();
    match &routed[0] {
        InternalPlanElement::Leg(l) => {
            assert_eq!(l.routing_mode, Some(CAR));
            assert_eq!(l.mode, WALK);
        }
        _ => panic!("expected a leg"),
    }
}

#[test]
fn missing_routing_module_is_reported_with_the_mode() {
    let error = complete_route(CAR, "car", None).unwrap_err();
    assert_eq!(error.to_message(), "No routing module found for mode car");
    let error = complete_route(
        CAR,
        "car",
        Some(Err(RoutingError::NoPath {
            mode: "car".to_string(),
            from: "a".to_string(),
            to: "b".to_string(),
        })),
    )
    .unwrap_err();
    assert_eq!(error.to_message(), "No route found from a to b with mode car");
    assert_eq!(
        RoutingError::MissingEndTime { mode: "pt".to_string() }.to_message(),
        "Routing for mode pt produced elements without a determinable end time"
    );
    assert_eq!(
        RoutingError::Unsupported { mode: "ride".to_string() }.to_message(),
        "Routing for mode ride is not implemented"
    );
}

#[test]
fn path_to_elements_builds_one_network_leg_over_the_path() {
    let elements = path_to_elements(vec![2, 3], 1, 4, CAR, 7 * SECOND, true, Some(9));
    assert_eq!(elements.len(), 1);
    match &elements[0] {
        InternalPlanElement::Leg(l) => {
            assert_eq!(l.mode, CAR);
            assert_eq!(l.routing_mode, None);
            assert_eq!(l.trav_time, Some(7 * SECOND));
            match &l.route {
                Some(InternalRoute::Network(nr)) => {
                    assert_eq!(nr.route, vec![1, 2, 3, 4]);
                    assert_eq!(nr.generic.start_link, 1);
                    assert_eq!(nr.generic.end_link, 4);
                    assert_eq!(nr.generic.trav_time, Some(7 * SECOND));
                    assert_eq!(nr.generic.distance_ok, Some(true));
                    assert_eq!(nr.generic.vehicle, Some(9));
                }
                _ => panic!("expected a network route"),
            }
        }
        _ => panic!("expected a leg"),
    }
}

#[test]
fn path_to_elements_on_one_link_holds_that_link_only() {
    let elements = path_to_elements(Vec::new(), 5, 5, WALK, 0, false, None);
    match &elements[0] {
        InternalPlanElement::Leg(l) => match &l.route {
            Some(InternalRoute::Network(nr)) => {
                assert_eq!(nr.route, vec![5]);
                assert_eq!(nr.generic.start_link, 5);
                assert_eq!(nr.generic.end_link, 5);
                assert_eq!(nr.generic.vehicle, None);
            }
            _ => panic!("expected a network route"),
        },
        _ => panic!("expected a leg"),
    }
}
