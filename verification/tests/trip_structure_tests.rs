use rust_qsim::trip_structure::{
    find_trip_span_starting_at_activity, find_trip_span_starting_at_activity_default,
    get_trip_spans, get_trip_spans_default, identify_main_mode, InternalActivity, InternalLeg,
    InternalPlanElement, TripSpan,
};

const WALK: u64 = 1;
const CAR: u64 = 2;

fn act(act_type: &str, link_id: u64) -> InternalPlanElement {
    InternalPlanElement::Activity(InternalActivity { act_type: act_type.to_string(), link_id, start_time: None, end_time: None })
}

fn leg(mode: u64, routing_mode: Option<u64>) -> InternalPlanElement {
    InternalPlanElement::Leg(InternalLeg { mode, routing_mode, dep_time: None, trav_time: None, route: None })
}

/// home - walk - car interaction - car - car interaction - walk - work - walk - shop
fn plan() -> Vec<InternalPlanElement> {
    vec![
        act("home", 1),
        leg(WALK, Some(CAR)),
        act("car interaction", 1),
        leg(CAR, Some(CAR)),
        act("car interaction", 2),
        leg(WALK, Some(CAR)),
        act("work", 2),
        leg(WALK, None),
        act("shop", 3),
    ]
}

#[test]
fn trip_spans_run_between_main_activities() {
    let spans = get_trip_spans_default(&plan());
    assert_eq!(
        spans,
        vec![
            TripSpan { origin_index: 0, destination_index: 6 },
            TripSpan { origin_index: 6, destination_index: 8 }
        ]
    );
}

#[test]
fn adjacent_main_activities_make_no_trip() {
    let elements = vec![act("home", 1), act("work", 2), leg(WALK, None), act("home", 1)];
    assert_eq!(
        get_trip_spans_default(&elements),
        vec![TripSpan { origin_index: 1, destination_index: 3 }]
    );
    assert!(get_trip_spans_default(&[]).is_empty());
    assert!(get_trip_spans_default(&[leg(WALK, None)]).is_empty());
}

#[test]
fn custom_stage_rule_decides_the_boundaries() {
    let elements = plan();
    let spans = get_trip_spans(&elements, |a: &InternalActivity| a.act_type == "work");
    assert_eq!(
        spans,
        vec![
            TripSpan { origin_index: 0, destination_index: 2 },
            TripSpan { origin_index: 2, destination_index: 4 },
            TripSpan { origin_index: 4, destination_index: 8 }
        ]
    );
}

#[test]
fn finds_first_trip_from_an_index() {
    let elements = plan();
    assert_eq!(
        find_trip_span_starting_at_activity_default(&elements, 0),
        Some(TripSpan { origin_index: 0, destination_index: 6 })
    );
    assert_eq!(
        find_trip_span_starting_at_activity_default(&elements, 1),
        Some(TripSpan { origin_index: 6, destination_index: 8 })
    );
    assert_eq!(find_trip_span_starting_at_activity_default(&elements, 7), None);
    assert_eq!(find_trip_span_starting_at_activity_default(&elements, 9), None);
    assert_eq!(
        find_trip_span_starting_at_activity(&elements, 3, |a: &InternalActivity| a.is_interaction()),
        Some(TripSpan { origin_index: 6, destination_index: 8 })
    );
}

#[test]
fn stage_activities_are_recognised_by_their_type() {
    assert!(InternalActivity { act_type: "car interaction".to_string(), link_id: 0, start_time: None, end_time: None }.is_interaction());
    assert!(InternalActivity { act_type: "interaction".to_string(), link_id: 0, start_time: None, end_time: None }.is_interaction());
    assert!(!InternalActivity { act_type: "interactio".to_string(), link_id: 0, start_time: None, end_time: None }.is_interaction());
    assert!(!InternalActivity { act_type: "home".to_string(), link_id: 0, start_time: None, end_time: None }.is_interaction());
}

#[test]
fn main_mode_comes_from_the_first_leg() {
    assert_eq!(identify_main_mode(&[leg(WALK, Some(CAR)), act("car interaction", 1)]), Some(CAR));
    assert_eq!(identify_main_mode(&[leg(WALK, None)]), Some(WALK));
    assert_eq!(identify_main_mode(&[leg(WALK, None), leg(CAR, None)]), None);
    assert_eq!(identify_main_mode(&[act("car interaction", 1), leg(CAR, Some(CAR))]), None);
    assert_eq!(identify_main_mode(&[]), None);
}

#[test]
fn span_accessors_and_replacement() {
    let mut elements = plan();
    let span = TripSpan { origin_index: 6, destination_index: 8 };
    assert_eq!(span.origin(&elements).act_type, "work");
    assert_eq!(span.destination(&elements).act_type, "shop");
    assert_eq!(span.trip_elements(&elements).len(), 1);
    span.origin_mut(&mut elements).link_id = 42;
    assert_eq!(span.origin(&elements).link_id, 42);
    span.destination_mut(&mut elements).act_type = "leisure".to_string();
    assert_eq!(span.destination(&elements).act_type, "leisure");
    if let InternalPlanElement::Leg(l) = &mut span.trip_elements_mut(&mut elements)[0] {
        l.routing_mode = Some(WALK);
    }
    match &elements[7] {
        InternalPlanElement::Leg(l) => assert_eq!(l.routing_mode, Some(WALK)),
        _ => panic!("expected a leg"),
    }
    span.replace_trip_elements(
        &mut elements,
        vec![leg(WALK, Some(CAR)), act("car interaction", 2), leg(CAR, Some(CAR))],
    );
    assert_eq!(elements.len(), 11);
    assert_eq!(span.origin(&elements).act_type, "work");
    match &elements[10] {
        InternalPlanElement::Activity(a) => assert_eq!(a.act_type, "leisure"),
        _ => panic!("expected the destination activity"),
    }
    let new_span = TripSpan { origin_index: 6, destination_index: 10 };
    assert_eq!(new_span.trip_elements(&elements).len(), 3);
}

const BIKE: u64 = 3;
const PT: u64 = 4;

fn make_activity(act_type: &str, link: u64) -> InternalPlanElement {
    act(act_type, link)
}

fn make_leg(mode: u64) -> InternalPlanElement {
    leg(mode, Some(mode))
}

fn act_type_at(plan: &[InternalPlanElement], i: usize) -> String {
    plan[i].as_activity().unwrap().act_type.clone()
}

#[test]
fn test_identify_main_mode_routing_mode() {
    let trip = vec![leg(CAR, Some(CAR))];
    assert_eq!(identify_main_mode(&trip), Some(CAR));
}

#[test]
fn test_identify_main_mode_single_leg_mode() {
    let trip = vec![leg(BIKE, None)];
    assert_eq!(identify_main_mode(&trip), Some(BIKE));
}

#[test]
fn test_identify_main_mode_no_mode() {
    let trip: Vec<InternalPlanElement> = vec![];
    assert_eq!(identify_main_mode(&trip), None);
}

#[test]
fn test_get_trips_basic() {
    let plan = vec![
        make_activity("home", 1),
        make_leg(CAR),
        make_activity("work", 2),
        make_leg(WALK),
        make_activity("shop", 3),
    ];
    let spans = get_trip_spans_default(&plan);
    assert_eq!(spans.len(), 2);
    assert_eq!(spans[0].origin(&plan).act_type, "home");
    assert_eq!(spans[0].destination(&plan).act_type, "work");
    assert_eq!(spans[0].trip_elements(&plan).len(), 1);
    assert_eq!(spans[1].origin(&plan).act_type, "work");
    assert_eq!(spans[1].destination(&plan).act_type, "shop");
    assert_eq!(spans[1].trip_elements(&plan).len(), 1);
}

#[test]
fn test_get_trips_with_stage_activity() {
    let plan = vec![
        make_activity("home", 1),
        make_leg(CAR),
        make_activity("car interaction", 2),
        make_leg(CAR),
        make_activity("work", 3),
    ];
    let spans = get_trip_spans_default(&plan);
    assert_eq!(spans.len(), 1);
    assert_eq!(spans[0].origin(&plan).act_type, "home");
    assert_eq!(spans[0].destination(&plan).act_type, "work");
    assert_eq!(spans[0].trip_elements(&plan).len(), 3);
}

#[test]
fn test_get_trips_no_trips() {
    let plan = vec![make_activity("home", 1), make_activity("work", 2)];
    assert!(get_trip_spans_default(&plan).is_empty());
}

#[test]
fn test_get_trips_empty() {
    let plan: Vec<InternalPlanElement> = vec![];
    assert!(get_trip_spans_default(&plan).is_empty());
}

#[test]
fn test_get_trip_spans_default_basic() {
    let plan = vec![
        make_activity("home", 1),
        make_leg(CAR),
        make_activity("work", 2),
        make_leg(WALK),
        make_activity("shop", 3),
    ];
    let spans = get_trip_spans_default(&plan);
    assert_eq!(spans.len(), 2);
    assert_eq!(
        spans,
        vec![
            TripSpan { origin_index: 0, destination_index: 2 },
            TripSpan { origin_index: 2, destination_index: 4 },
        ]
    );
    assert_eq!(spans[0].origin(&plan).act_type, "home");
    assert_eq!(spans[1].destination(&plan).act_type, "shop");
}

#[test]
fn test_trip_span_mutation_helpers() {
    let mut plan = vec![
        make_activity("home", 1),
        make_leg(CAR),
        make_activity("work", 2),
        make_leg(WALK),
        make_activity("shop", 3),
    ];
    let span = find_trip_span_starting_at_activity_default(&plan, 2).unwrap();
    span.origin_mut(&mut plan).act_type = "office".to_string();
    span.trip_elements_mut(&mut plan)[0] = make_leg(BIKE);
    span.destination_mut(&mut plan).act_type = "mall".to_string();

    assert_eq!(act_type_at(&plan, 2), "office");
    assert_eq!(plan[3].as_leg().unwrap().mode, BIKE);
    assert_eq!(act_type_at(&plan, 4), "mall");
}

#[test]
fn test_trip_span_replace_middle() {
    let mut plan = vec![
        make_activity("home", 1),
        make_leg(CAR),
        make_activity("work", 2),
        make_leg(WALK),
        make_activity("shop", 3),
    ];
    let span = find_trip_span_starting_at_activity_default(&plan, 0).unwrap();
    span.replace_trip_elements(
        &mut plan,
        vec![make_leg(PT), make_activity("pt interaction", 99), make_leg(PT)],
    );

    assert_eq!(plan.len(), 7);
    assert_eq!(act_type_at(&plan, 0), "home");
    assert_eq!(plan[1].as_leg().unwrap().mode, PT);
    assert_eq!(act_type_at(&plan, 2), "pt interaction");
    assert_eq!(plan[3].as_leg().unwrap().mode, PT);
    assert_eq!(act_type_at(&plan, 4), "work");
}

#[test]
fn test_find_trip_span_starting_at_activity_default_basic_read_only() {
    let plan = vec![
        make_activity("home", 1),
        make_leg(CAR),
        make_activity("work", 2),
        make_leg(WALK),
        make_activity("shop", 3),
    ];
    let span = find_trip_span_starting_at_activity_default(&plan, 0).unwrap();
    assert_eq!(span.origin(&plan).act_type, "home");
    assert_eq!(span.destination(&plan).act_type, "work");
    assert_eq!(span.trip_elements(&plan).len(), 1);

    let span2 = find_trip_span_starting_at_activity_default(&plan, 2).unwrap();
    assert_eq!(span2.origin(&plan).act_type, "work");
    assert_eq!(span2.destination(&plan).act_type, "shop");
    assert_eq!(span2.trip_elements(&plan).len(), 1);

    assert!(find_trip_span_starting_at_activity_default(&plan, 4).is_none());
}

#[test]
fn test_find_trip_span_starting_at_activity_default_with_stage() {
    let plan = vec![
        make_activity("home", 1),
        make_leg(CAR),
        make_activity("car interaction", 2),
        make_leg(CAR),
        make_activity("work", 3),
    ];
    let span = find_trip_span_starting_at_activity_default(&plan, 0).unwrap();
    assert_eq!(span.origin(&plan).act_type, "home");
    assert_eq!(span.destination(&plan).act_type, "work");
    assert_eq!(span.trip_elements(&plan).len(), 3);
    assert!(find_trip_span_starting_at_activity_default(&plan, 2).is_none());
}

#[test]
fn test_find_trip_span_starting_at_activity_default_empty() {
    let plan: Vec<InternalPlanElement> = vec![];
    assert!(find_trip_span_starting_at_activity_default(&plan, 0).is_none());
}
