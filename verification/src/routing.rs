use crate::trip_structure::{
    InternalGenericRoute, InternalLeg, InternalNetworkRoute, InternalPlanElement, InternalRoute,
};
use vstd::prelude::*;

verus! {

/// Why routing a trip failed.
#[derive(Debug)]
pub enum RoutingError {
    MissingModule { mode: String },
    NoPath { mode: String, from: String, to: String },
    MissingEndTime { mode: String },
    Unsupported { mode: String },
}

/// The A* heuristic that estimates every remaining cost as zero, which turns A* into Dijkstra's
/// search. Its estimate is a floating-point number and is computed outside this library.
#[derive(Debug, Clone, Copy)]
pub struct ZeroHeuristic;

/// Travel time and travel cost from the free speed of the links alone. The values are
/// floating-point numbers and are computed outside this library.
#[derive(Debug, Clone, Copy)]
pub struct FreeSpeedTravelTimeAndDisutility {}

/// Travel time and travel cost from the free speed of the links, capped by the maximum speed of
/// the vehicle when one is given. The values are floating-point numbers and are computed outside
/// this library.
#[derive(Debug, Clone, Copy)]
pub struct FreeOrMaxSpeedTravelTimeAndDisutility;

/// The outcome of a routing query in its older form: the travel time and the path of link ids,
/// each when known.
#[derive(Debug)]
pub struct CustomQueryResult {
    pub travel_time: Option<u32>,
    pub path: Option<Vec<u64>>,
}

/// The text of a routing error.
pub open spec fn routing_error_text(e: RoutingError) -> Seq<char> {
    match e {
        RoutingError::MissingModule { mode } => "No routing module found for mode "@ + mode@,
        RoutingError::NoPath { mode, from, to } => "No route found from "@ + from@ + " to "@ + to@
            + " with mode "@ + mode@,
        RoutingError::MissingEndTime { mode } => "Routing for mode "@ + mode@
            + " produced elements without a determinable end time"@,
        RoutingError::Unsupported { mode } => "Routing for mode "@ + mode@ + " is not implemented"@,
    }
}

impl RoutingError {
    /// The text of the error.
    pub fn to_message(&self) -> (r: String)
        ensures
            r@ == routing_error_text(*self),
    {
        match self {
            RoutingError::MissingModule { mode } => {
                let mut s = String::from_str("No routing module found for mode ");
                s.append(mode.as_str());
                s
            },
            RoutingError::NoPath { mode, from, to } => {
                let mut s = String::from_str("No route found from ");
                s.append(from.as_str());
                s.append(" to ");
                s.append(to.as_str());
                s.append(" with mode ");
                s.append(mode.as_str());
                proof {
                    assert(s@ =~= routing_error_text(*self));
                }
                s
            },
            RoutingError::MissingEndTime { mode } => {
                let mut s = String::from_str("Routing for mode ");
                s.append(mode.as_str());
                s.append(" produced elements without a determinable end time");
                s
            },
            RoutingError::Unsupported { mode } => {
                let mut s = String::from_str("Routing for mode ");
                s.append(mode.as_str());
                s.append(" is not implemented");
                s
            },
        }
    }
}

/// The plan element with its routing mode set to `mode` when it is a leg.
pub open spec fn with_routing_mode(e: InternalPlanElement, mode: u64) -> InternalPlanElement {
    match e {
        InternalPlanElement::Leg(l) => InternalPlanElement::Leg(
            InternalLeg { routing_mode: Some(mode), ..l },
        ),
        InternalPlanElement::Activity(a) => InternalPlanElement::Activity(a),
    }
}

/// Marks every leg of a freshly routed trip with the mode it was routed for.
pub fn set_routing_mode(elements: &mut Vec<InternalPlanElement>, mode: u64)
    ensures
        final(elements)@.len() == old(elements)@.len(),
        forall|i: int|
            0 <= i < old(elements)@.len() ==> final(elements)@[i] == with_routing_mode(
                #[trigger] old(elements)@[i],
                mode,
            ),
{
    let ghost before = elements@;
    let mut i: usize = 0;
    while i < elements.len()
        invariant
            elements@.len() == before.len(),
            i <= elements@.len(),
            forall|j: int| 0 <= j < i ==> elements@[j] == with_routing_mode(#[trigger] before[j], mode),
            forall|j: int| i <= j < elements@.len() ==> #[trigger] elements@[j] == before[j],
        decreases elements.len() - i,
    {
        match &mut elements[i] {
            InternalPlanElement::Leg(leg) => {
                leg.routing_mode = Some(mode);
            },
            InternalPlanElement::Activity(_) => {},
        }
        i = i + 1;
    }
}

/// Completes routing a trip with a mode, given what the routing module for the mode gave back
/// (`None` when there is no module for the mode): a missing module is an error naming the mode,
/// an error of the module is passed on, and otherwise every leg of the routed trip is marked with
/// the mode.
pub fn complete_route(
    mode: u64,
    mode_name: &str,
    outcome: Option<Result<Vec<InternalPlanElement>, RoutingError>>,
) -> (r: Result<Vec<InternalPlanElement>, RoutingError>)
    ensures
        outcome is None ==> (r matches Err(RoutingError::MissingModule { mode: m }) && m@ == mode_name@),
        outcome matches Some(Err(e)) ==> r == Err::<Vec<InternalPlanElement>, RoutingError>(e),
        outcome matches Some(Ok(v)) ==> (r matches Ok(w) && w@.len() == v@.len() && forall|i: int|
            0 <= i < v@.len() ==> w@[i] == with_routing_mode(#[trigger] v@[i], mode)),
{
    match outcome {
        None => Err(RoutingError::MissingModule { mode: mode_name.to_string() }),
        Some(Err(e)) => Err(e),
        Some(Ok(elements)) => {
            let mut elements = elements;
            set_routing_mode(&mut elements, mode);
            Ok(elements)
        },
    }
}

/// The links that a vehicle drives from link `from` to link `to` along `path`: `from` alone when
/// the two are the same link, else `from`, the links of the path and `to`.
pub open spec fn route_links(path: Seq<u64>, from: u64, to: u64) -> Seq<u64> {
    if from == to {
        seq![from]
    } else {
        seq![from] + path + seq![to]
    }
}

/// The route from link `from` to link `to` starts on `from` and ends on `to`; it is the one
/// link when the two are the same, and otherwise holds the links of the path, in order, between
/// the two.
pub proof fn lemma_route_links_ends(path: Seq<u64>, from: u64, to: u64)
    ensures
        route_links(path, from, to).len() > 0,
        route_links(path, from, to)[0] == from,
        route_links(path, from, to).last() == to,
        from == to ==> route_links(path, from, to).len() == 1,
        from != to ==> route_links(path, from, to).len() == path.len() + 2 && route_links(
            path,
            from,
            to,
        ).subrange(1, path.len() + 1 as int) == path,
{
    if from != to {
        assert(route_links(path, from, to).subrange(1, path.len() + 1 as int) =~= path);
    }
}

/// The single leg that drives a least-cost path from link `from` to link `to` with `mode`: a
/// network route over `route_links`, starting at `from` and ending at `to`, with the path's
/// travel time on the route and on the leg, whether the route's distance is usable, and the
/// vehicle, when one is given. The leg has no routing mode yet.
pub fn path_to_elements(
    path: Vec<u64>,
    from: u64,
    to: u64,
    mode: u64,
    travel_time: u128,
    distance_ok: bool,
    vehicle: Option<u64>,
) -> (r: Vec<InternalPlanElement>)
    ensures
        r@.len() == 1,
        r@[0] matches InternalPlanElement::Leg(leg) && {
            &&& leg.mode == mode
            &&& leg.routing_mode is None
            &&& leg.dep_time is None
            &&& leg.trav_time == Some(travel_time)
            &&& leg.route matches Some(InternalRoute::Network(nr)) && {
                &&& nr.route@ == route_links(path@, from, to)
                &&& nr.route@.len() > 0
                &&& nr.route@[0] == from
                &&& nr.route@.last() == to
                &&& from == to ==> nr.route@.len() == 1
                &&& from != to ==> nr.route@.len() == path@.len() + 2
                    && nr.route@.subrange(1, nr.route@.len() - 1) == path@
                &&& nr.generic == (InternalGenericRoute {
                    start_link: from,
                    end_link: to,
                    trav_time: Some(travel_time),
                    distance_ok: Some(distance_ok),
                    vehicle,
                })
            }
        },
{
    proof {
        lemma_route_links_ends(path@, from, to);
    }
    let mut route: Vec<u64> = Vec::new();
    route.push(from);
    if from != to {
        let mut i: usize = 0;
        while i < path.len()
            invariant
                0 <= i <= path@.len(),
                route@ == seq![from] + path@.subrange(0, i as int),
            decreases path.len() - i,
        {
            route.push(path[i]);
            proof {
                assert(path@.subrange(0, i + 1) == path@.subrange(0, i as int).push(path@[i as int]));
            }
            i = i + 1;
        }
        route.push(to);
        proof {
            assert(path@.subrange(0, path@.len() as int) == path@);
        }
    }
    let generic = InternalGenericRoute {
        start_link: from,
        end_link: to,
        trav_time: Some(travel_time),
        distance_ok: Some(distance_ok),
        vehicle,
    };
    let leg = InternalLeg {
        mode,
        routing_mode: None,
        dep_time: None,
        trav_time: Some(travel_time),
        route: Some(InternalRoute::Network(InternalNetworkRoute { generic, route })),
    };
    let mut r: Vec<InternalPlanElement> = Vec::new();
    r.push(InternalPlanElement::Leg(leg));
    r
}

} // verus!
