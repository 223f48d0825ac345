use crate::network::Network;
use crate::routing::{with_routing_mode, RoutingError};
use crate::trip_structure::{
    InternalActivity, InternalGenericRoute, InternalLeg, InternalPlanElement, InternalRoute,
    TripSpan,
};
use vstd::prelude::*;

verus! {

/// Why a trip could not be prepared for the simulation.
#[derive(Debug)]
pub enum TripPreparationError {
    NoLegs,
    AmbiguousMainMode,
    MissingDepartureTime,
    MissingVehicle { mode: String, default_vehicle: String },
    Routing(RoutingError),
}

/// What the check of a trip found: it can be simulated as it is, or it has to be routed anew
/// with the given mode.
#[derive(Debug, PartialEq, Eq, Structural)]
pub enum TripAssessment {
    Valid,
    NeedsRouting(u64),
}

/// The legs among the given plan elements, in order.
pub open spec fn legs_of(elements: Seq<InternalPlanElement>) -> Seq<InternalLeg>
    decreases elements.len(),
{
    if elements.len() == 0 {
        Seq::empty()
    } else {
        let rest = legs_of(elements.drop_last());
        match elements.last() {
            InternalPlanElement::Leg(l) => rest.push(l),
            InternalPlanElement::Activity(_) => rest,
        }
    }
}

/// The legs that a sequence of references points to.
pub open spec fn derefs(legs: Seq<&InternalLeg>) -> Seq<InternalLeg> {
    Seq::new(legs.len(), |i: int| *legs[i])
}

/// `m` is the one routing mode that the legs name: some leg names it and no leg names another.
pub open spec fn sole_routing_mode(legs: Seq<InternalLeg>, m: u64) -> bool {
    &&& exists|i: int| 0 <= i < legs.len() && (#[trigger] legs[i]).routing_mode == Some(m)
    &&& forall|i: int|
        0 <= i < legs.len() && (#[trigger] legs[i]).routing_mode is Some ==> legs[i].routing_mode
            == Some(m)
}

/// The main mode of a trip with at least one leg: the one routing mode that its legs name;
/// failing that, for a trip of one leg, the mode of that leg; `None` when it is ambiguous.
pub open spec fn main_mode_of_legs(legs: Seq<InternalLeg>) -> Option<u64> {
    if exists|m: u64| sole_routing_mode(legs, m) {
        Some(choose|m: u64| sole_routing_mode(legs, m))
    } else if legs.len() == 1 {
        Some(legs[0].mode)
    } else {
        None
    }
}

/// The generic part of a route is usable: its travel time is known and its distance is present,
/// finite and not negative.
pub open spec fn generic_route_valid(g: InternalGenericRoute) -> bool {
    g.distance_ok == Some(true) && g.trav_time is Some
}

/// A network route is usable for a leg of the given mode: it starts on the start link and ends
/// on the end link of its generic part, every link allows the mode, and each link ends where the
/// next one begins.
pub open spec fn network_route_valid(
    net: &Network,
    route: Seq<u64>,
    mode: u64,
    g: InternalGenericRoute,
) -> bool {
    &&& route.len() > 0
    &&& route[0] == g.start_link
    &&& route.last() == g.end_link
    &&& forall|k: int| 0 <= k < route.len() ==> net.links@[#[trigger] route[k]].modes@.contains(mode)
    &&& forall|k: int|
        0 <= k < route.len() - 1 ==> net.links@[#[trigger] route[k]].to == net.links@[route[k
            + 1]].from
}

/// A leg is usable as it is: it has a travel time and a route, the generic part of the route is
/// usable and, for a network route, the route is usable for the mode of the leg.
pub open spec fn leg_valid(net: &Network, leg: InternalLeg) -> bool {
    match leg.route {
        None => false,
        Some(r) => {
            &&& leg.trav_time is Some
            &&& generic_route_valid(r.generic_spec())
            &&& match r {
                InternalRoute::Network(nr) => network_route_valid(net, nr.route@, leg.mode, nr.generic),
                InternalRoute::Generic(_) => true,
            }
        },
    }
}

/// The leg has a route on the road network.
pub open spec fn is_network_route(route: Option<InternalRoute>) -> bool {
    route matches Some(InternalRoute::Network(_))
}

/// The number of stage activities among the plan elements.
pub open spec fn interaction_count(elements: Seq<InternalPlanElement>) -> nat
    decreases elements.len(),
{
    if elements.len() == 0 {
        0
    } else {
        interaction_count(elements.drop_last()) + match elements.last() {
            InternalPlanElement::Activity(a) => if a.is_interaction_spec() {
                1nat
            } else {
                0nat
            },
            InternalPlanElement::Leg(_) => 0nat,
        }
    }
}

/// A trip with main mode `mode` can be simulated as it is: every leg carries `mode` as its
/// routing mode and is usable, and, where `mode` is simulated on the network, the trip starts
/// and ends with an access/egress leg, has a network leg of `mode` and at least two stage
/// activities.
pub open spec fn trip_valid(
    net: &Network,
    main_modes: Seq<u64>,
    access_egress_mode: u64,
    trip: Seq<InternalPlanElement>,
    mode: u64,
    legs: Seq<InternalLeg>,
) -> bool {
    &&& forall|i: int| 0 <= i < legs.len() ==> (#[trigger] legs[i]).routing_mode == Some(mode)
    &&& forall|i: int| 0 <= i < legs.len() ==> leg_valid(net, #[trigger] legs[i])
    &&& main_modes.contains(mode) ==> {
        &&& legs.len() > 0
        &&& legs[0].mode == access_egress_mode
        &&& legs.last().mode == access_egress_mode
        &&& exists|i: int|
            0 <= i < legs.len() && (#[trigger] legs[i]).mode == mode && is_network_route(legs[i].route)
        &&& interaction_count(trip) >= 2
    }
}

/// A usable trip carries its main mode as the routing mode of every leg, and every leg has a
/// travel time and a route; where that mode is simulated on the network, its first and its last
/// leg are access/egress legs, one of its legs drives the main mode on a network route, and it
/// has at least two stage activities.
pub proof fn lemma_valid_network_trip_ends_with_access_egress(
    net: &Network,
    main_modes: Seq<u64>,
    access_egress_mode: u64,
    trip: Seq<InternalPlanElement>,
    mode: u64,
    legs: Seq<InternalLeg>,
)
    ensures
        trip_valid(net, main_modes, access_egress_mode, trip, mode, legs) ==> forall|i: int|
            0 <= i < legs.len() ==> (#[trigger] legs[i]).routing_mode == Some(mode) && legs[i].trav_time is Some
                && legs[i].route is Some,
        trip_valid(net, main_modes, access_egress_mode, trip, mode, legs) && main_modes.contains(mode)
            ==> interaction_count(trip) >= 2,
        trip_valid(net, main_modes, access_egress_mode, trip, mode, legs) && main_modes.contains(mode) ==> {
            &&& legs.len() > 0
            &&& legs[0].mode == access_egress_mode
            &&& legs[legs.len() - 1].mode == access_egress_mode
            &&& exists|i: int|
                0 <= i < legs.len() && (#[trigger] legs[i]).mode == mode && legs[i].route matches Some(
                    InternalRoute::Network(_),
                )
        },
{
}

/// Every link that the check of this leg looks up is in the network: the check reads the links
/// of a network route once the route starts and ends where its generic part says.
pub open spec fn leg_lookups_defined(net: &Network, leg: InternalLeg) -> bool {
    match leg.route {
        Some(InternalRoute::Network(nr)) => {
            (leg.trav_time is Some && generic_route_valid(nr.generic) && nr.route@.len() > 0
                && nr.route@[0] == nr.generic.start_link && nr.route@.last() == nr.generic.end_link)
                ==> forall|k: int|
                0 <= k < nr.route@.len() ==> net.links@.contains_key(#[trigger] nr.route@[k])
        },
        _ => true,
    }
}

/// Every link that the check of a trip with main mode `mode` looks up is in the network. The
/// legs are checked in order, and the check stops at the first leg that is not usable.
pub open spec fn trip_lookups_defined(net: &Network, legs: Seq<InternalLeg>, mode: u64) -> bool {
    (forall|i: int| 0 <= i < legs.len() ==> (#[trigger] legs[i]).routing_mode == Some(mode))
        ==> forall|i: int|
        0 <= i < legs.len() && (forall|j: int| 0 <= j < i ==> leg_valid(net, #[trigger] legs[j]))
            ==> leg_lookups_defined(net, #[trigger] legs[i])
}

proof fn lemma_legs_step(s: Seq<InternalPlanElement>, i: int)
    requires
        0 <= i < s.len(),
    ensures
        legs_of(s.subrange(0, i + 1)) == match s[i] {
            InternalPlanElement::Leg(l) => legs_of(s.subrange(0, i)).push(l),
            InternalPlanElement::Activity(_) => legs_of(s.subrange(0, i)),
        },
        interaction_count(s.subrange(0, i + 1)) == interaction_count(s.subrange(0, i)) + match s[i] {
            InternalPlanElement::Activity(a) => if a.is_interaction_spec() {
                1nat
            } else {
                0nat
            },
            InternalPlanElement::Leg(_) => 0nat,
        },
{
    assert(s.subrange(0, i + 1).drop_last() =~= s.subrange(0, i));
}

/// The legs among the elements of a trip, in order.
pub fn trip_legs<'a>(trip: &'a [InternalPlanElement]) -> (r: Vec<&'a InternalLeg>)
    ensures
        derefs(r@) == legs_of(trip@),
{
    let mut r: Vec<&'a InternalLeg> = Vec::new();
    let mut i: usize = 0;
    while i < trip.len()
        invariant
            i <= trip.len(),
            derefs(r@) == legs_of(trip@.subrange(0, i as int)),
        decreases trip.len() - i,
    {
        proof {
            lemma_legs_step(trip@, i as int);
        }
        match &trip[i] {
            InternalPlanElement::Leg(l) => {
                r.push(l);
                proof {
                    assert(derefs(r@) =~= legs_of(trip@.subrange(0, i as int)).push(*l));
                }
            },
            InternalPlanElement::Activity(_) => {},
        }
        i = i + 1;
    }
    proof {
        assert(trip@.subrange(0, trip@.len() as int) =~= trip@);
    }
    r
}

/// Returns the main mode of a trip from its legs: the one routing mode that the legs name;
/// failing that, for a trip of one leg, its mode. A trip without legs, and a trip whose main
/// mode is ambiguous, are errors.
pub fn resolve_main_mode(legs: &[&InternalLeg]) -> (r: Result<u64, TripPreparationError>)
    ensures
        derefs(legs@).len() == 0 ==> r matches Err(TripPreparationError::NoLegs),
        derefs(legs@).len() > 0 ==> match main_mode_of_legs(derefs(legs@)) {
            Some(m) => r == Ok::<u64, TripPreparationError>(m),
            None => r matches Err(TripPreparationError::AmbiguousMainMode),
        },
{
    let ghost ls = derefs(legs@);
    if legs.len() == 0 {
        return Err(TripPreparationError::NoLegs);
    }
    let mut routing_modes: Vec<u64> = Vec::new();
    let mut i: usize = 0;
    while i < legs.len()
        invariant
            ls == derefs(legs@),
            i <= legs@.len(),
            forall|a: int, b: int|
                0 <= a < b < routing_modes@.len() ==> routing_modes@[a] != routing_modes@[b],
            forall|k: int|
                0 <= k < routing_modes@.len() ==> exists|j: int|
                    0 <= j < i && (#[trigger] ls[j]).routing_mode == Some(
                        #[trigger] routing_modes@[k],
                    ),
            forall|j: int|
                0 <= j < i && (#[trigger] ls[j]).routing_mode is Some ==> routing_modes@.contains(
                    ls[j].routing_mode->0,
                ),
        decreases legs.len() - i,
    {
        if let Some(m) = legs[i].routing_mode {
            let mut seen = false;
            let mut k: usize = 0;
            while k < routing_modes.len()
                invariant
                    k <= routing_modes@.len(),
                    seen == exists|t: int| 0 <= t < k && routing_modes@[t] == m,
                decreases routing_modes.len() - k,
            {
                if routing_modes[k] == m {
                    seen = true;
                }
                k = k + 1;
            }
            if !seen {
                let ghost before = routing_modes@;
                routing_modes.push(m);
                proof {
                    assert(ls[i as int].routing_mode == Some(m));
                    assert forall|k: int| 0 <= k < routing_modes@.len() implies exists|j: int|
                        0 <= j < i + 1 && (#[trigger] ls[j]).routing_mode == Some(
                            #[trigger] routing_modes@[k],
                        ) by {
                        if k == routing_modes@.len() - 1 {
                            assert(ls[i as int].routing_mode == Some(routing_modes@[k]));
                        } else {
                            let j = choose|j: int|
                                0 <= j < i && (#[trigger] ls[j]).routing_mode == Some(
                                    routing_modes@[k],
                                );
                            assert(ls[j].routing_mode == Some(routing_modes@[k]));
                        }
                    }
                    assert forall|j: int|
                        0 <= j < i + 1 && (#[trigger] ls[j]).routing_mode is Some implies routing_modes@.contains(
                            ls[j].routing_mode->0,
                        ) by {
                        if j == i {
                            assert(routing_modes@[routing_modes@.len() - 1] == m);
                        } else {
                            assert(before.contains(ls[j].routing_mode->0));
                            let t = choose|t: int|
                                0 <= t < before.len() && before[t] == ls[j].routing_mode->0;
                            assert(routing_modes@[t] == ls[j].routing_mode->0);
                        }
                    }
                }
            }
        }
        i = i + 1;
    }
    if routing_modes.len() == 1 {
        let m = routing_modes[0];
        proof {
            assert(sole_routing_mode(ls, m)) by {
                let j = choose|j: int| 0 <= j < i && (#[trigger] ls[j]).routing_mode == Some(
                    routing_modes@[0],
                );
                assert(ls[j].routing_mode == Some(m));
                assert forall|j: int|
                    0 <= j < ls.len() && (#[trigger] ls[j]).routing_mode is Some implies ls[j].routing_mode
                        == Some(m) by {
                    assert(routing_modes@.contains(ls[j].routing_mode->0));
                }
            }
            let c = choose|c: u64| sole_routing_mode(ls, c);
            assert(c == m) by {
                let j = choose|j: int| 0 <= j < ls.len() && (#[trigger] ls[j]).routing_mode == Some(c);
                assert(ls[j].routing_mode is Some);
            }
        }
        return Ok(m);
    }
    proof {
        assert forall|m: u64| !sole_routing_mode(ls, m) by {
            if sole_routing_mode(ls, m) {
                let j = choose|j: int| 0 <= j < ls.len() && (#[trigger] ls[j]).routing_mode == Some(m);
                assert(routing_modes@.contains(m));
                assert(routing_modes@.len() >= 2);
                let a = routing_modes@[0];
                let b = routing_modes@[1];
                let ja = choose|j: int| 0 <= j < i && (#[trigger] ls[j]).routing_mode == Some(
                    routing_modes@[0],
                );
                let jb = choose|j: int| 0 <= j < i && (#[trigger] ls[j]).routing_mode == Some(
                    routing_modes@[1],
                );
                assert(ls[ja].routing_mode is Some);
                assert(ls[jb].routing_mode is Some);
            }
        }
    }
    if legs.len() == 1 {
        Ok(legs[0].mode)
    } else {
        Err(TripPreparationError::AmbiguousMainMode)
    }
}

/// The elements of a plan strictly between the boundary activities of a trip.
pub open spec fn trip_of(span: TripSpan, elements: Seq<InternalPlanElement>) -> Seq<InternalPlanElement> {
    elements.subrange(span.origin_index + 1, span.destination_index as int)
}

/// Whether the generic part of a route is usable: its travel time is known and its distance is
/// present, finite and not negative.
pub fn generic_route_is_valid(route: &InternalGenericRoute) -> (r: bool)
    ensures
        r == generic_route_valid(*route),
{
    match route.distance_ok {
        Some(ok) => ok && route.trav_time.is_some(),
        None => false,
    }
}

/// Checks whether a network route is usable for a leg of the given mode: it starts with the start
/// link and ends with the end link of its generic part, all its links allow the mode, and each
/// link ends where the next one begins.
pub fn network_route_is_valid(
    network: &Network,
    route: &[u64],
    mode: u64,
    generic: &InternalGenericRoute,
) -> (r: bool)
    requires
        (route@.len() > 0 && route@[0] == generic.start_link && route@.last() == generic.end_link)
            ==> forall|k: int| 0 <= k < route@.len() ==> network.links@.contains_key(#[trigger] route@[k]),
    ensures
        r == network_route_valid(network, route@, mode, *generic),
{
    if route.len() == 0 || route[0] != generic.start_link || route[route.len() - 1] != generic.end_link {
        return false;
    }
    let mut i: usize = 0;
    while i < route.len()
        invariant
            i <= route@.len(),
            route@.len() > 0,
            forall|k: int| 0 <= k < route@.len() ==> network.links@.contains_key(#[trigger] route@[k]),
            forall|k: int| 0 <= k < i ==> network.links@[#[trigger] route@[k]].modes@.contains(mode),
            forall|k: int|
                0 <= k < i && k < route@.len() - 1 ==> network.links@[#[trigger] route@[k]].to
                    == network.links@[route@[k + 1]].from,
        decreases route.len() - i,
    {
        let link = network.get_link(route[i]);
        if !link.contains_mode(mode) {
            return false;
        }
        if i + 1 < route.len() {
            let next = network.get_link(route[i + 1]);
            if link.to != next.from {
                return false;
            }
        }
        i = i + 1;
    }
    true
}

/// Whether `x` is among the ids.
fn contains_id(ids: &[u64], x: u64) -> (r: bool)
    ensures
        r == ids@.contains(x),
{
    let mut i: usize = 0;
    while i < ids.len()
        invariant
            i <= ids@.len(),
            forall|k: int| 0 <= k < i ==> ids@[k] != x,
        decreases ids.len() - i,
    {
        if ids[i] == x {
            return true;
        }
        i = i + 1;
    }
    false
}

/// The number of stage activities among the plan elements.
fn count_interactions(elements: &[InternalPlanElement]) -> (r: usize)
    ensures
        r == interaction_count(elements@),
{
    let mut count: usize = 0;
    let mut i: usize = 0;
    while i < elements.len()
        invariant
            i <= elements@.len(),
            count <= i,
            count == interaction_count(elements@.subrange(0, i as int)),
        decreases elements.len() - i,
    {
        proof {
            lemma_legs_step(elements@, i as int);
        }
        match &elements[i] {
            InternalPlanElement::Activity(a) => {
                if a.is_interaction() {
                    count = count + 1;
                }
            },
            InternalPlanElement::Leg(_) => {},
        }
        i = i + 1;
    }
    proof {
        assert(elements@.subrange(0, elements@.len() as int) =~= elements@);
    }
    count
}

/// Checks whether a trip with the given main mode can be simulated as it is: every leg carries
/// the main mode as its routing mode, has a travel time and a usable route; where the mode is
/// simulated on the network, the trip must in addition start and end with an access/egress leg,
/// contain a network leg of the main mode and at least two stage activities.
pub fn trip_is_valid(
    network: &Network,
    main_modes: &[u64],
    access_egress_mode: u64,
    span: TripSpan,
    elements: &[InternalPlanElement],
    mode: u64,
    legs: &[&InternalLeg],
) -> (r: bool)
    requires
        span.origin_index < span.destination_index <= elements@.len(),
        trip_lookups_defined(network, derefs(legs@), mode),
    ensures
        r == trip_valid(
            network,
            main_modes@,
            access_egress_mode,
            trip_of(span, elements@),
            mode,
            derefs(legs@),
        ),
        r ==> forall|i: int|
            0 <= i < legs@.len() ==> (#[trigger] legs@[i]).routing_mode == Some(mode) && legs@[i].trav_time is Some
                && legs@[i].route is Some,
        r && main_modes@.contains(mode) ==> interaction_count(trip_of(span, elements@)) >= 2,
        r && main_modes@.contains(mode) ==> {
            &&& legs@.len() > 0
            &&& legs@[0].mode == access_egress_mode
            &&& legs@[legs@.len() - 1].mode == access_egress_mode
            &&& exists|i: int|
                0 <= i < legs@.len() && (#[trigger] legs@[i]).mode == mode && legs@[i].route matches Some(
                    InternalRoute::Network(_),
                )
        },
{
    proof {
        lemma_valid_network_trip_ends_with_access_egress(
            network,
            main_modes@,
            access_egress_mode,
            trip_of(span, elements@),
            mode,
            derefs(legs@),
        );
        assert forall|i: int| 0 <= i < legs@.len() implies #[trigger] legs@[i] == derefs(legs@)[i] by {}
    }
    let ghost ls = derefs(legs@);
    let mut i: usize = 0;
    while i < legs.len()
        invariant
            i <= legs@.len(),
            ls == derefs(legs@),
            forall|j: int| 0 <= j < i ==> (#[trigger] ls[j]).routing_mode == Some(mode),
        decreases legs.len() - i,
    {
        proof {
            assert(ls[i as int] == *legs@[i as int]);
        }
        match legs[i].routing_mode {
            Some(m) => {
                if m != mode {
                    return false;
                }
            },
            None => {
                return false;
            },
        }
        i = i + 1;
    }
    let mut i: usize = 0;
    while i < legs.len()
        invariant
            i <= legs@.len(),
            ls == derefs(legs@),
            forall|j: int| 0 <= j < ls.len() ==> (#[trigger] ls[j]).routing_mode == Some(mode),
            trip_lookups_defined(network, ls, mode),
            forall|j: int| 0 <= j < i ==> leg_valid(network, #[trigger] ls[j]),
        decreases legs.len() - i,
    {
        let leg = legs[i];
        proof {
            assert(leg_lookups_defined(network, ls[i as int]));
        }
        if leg.trav_time.is_none() {
            return false;
        }
        let route = match &leg.route {
            Some(route) => route,
            None => {
                return false;
            },
        };
        let generic = route.as_generic();
        if !generic_route_is_valid(generic) {
            return false;
        }
        match route {
            InternalRoute::Network(nr) => {
                if !network_route_is_valid(network, nr.route.as_slice(), leg.mode, generic) {
                    return false;
                }
            },
            InternalRoute::Generic(_) => {},
        }
        i = i + 1;
    }
    if contains_id(main_modes, mode) {
        if legs.len() == 0 {
            return false;
        }
        if legs[0].mode != access_egress_mode || legs[legs.len() - 1].mode != access_egress_mode {
            return false;
        }
        let mut has_network_main_leg = false;
        let mut i: usize = 0;
        while i < legs.len()
            invariant
                i <= legs@.len(),
                ls == derefs(legs@),
                has_network_main_leg == exists|j: int|
                    0 <= j < i && (#[trigger] ls[j]).mode == mode && is_network_route(ls[j].route),
            decreases legs.len() - i,
        {
            let leg = legs[i];
            proof {
                assert(ls[i as int] == *leg);
            }
            if leg.mode == mode {
                match &leg.route {
                    Some(InternalRoute::Network(_)) => {
                        has_network_main_leg = true;
                    },
                    _ => {},
                }
            }
            proof {
                if has_network_main_leg {
                    if ls[i as int].mode == mode && is_network_route(ls[i as int].route) {
                        assert(0 <= i < i + 1);
                    } else {
                        let j = choose|j: int|
                            0 <= j < i && (#[trigger] ls[j]).mode == mode && is_network_route(ls[j].route);
                        assert(0 <= j < i + 1);
                    }
                }
            }
            i = i + 1;
        }
        let trip = span.trip_elements(elements);
        let interactions = count_interactions(trip);
        if !has_network_main_leg || interactions < 2 {
            return false;
        }
    }
    true
}

/// Assesses a trip: finds its main mode from its legs and checks whether the trip can be
/// simulated as it is, or has to be routed anew with that mode.
pub fn assess_trip(
    network: &Network,
    main_modes: &[u64],
    access_egress_mode: u64,
    span: TripSpan,
    elements: &[InternalPlanElement],
) -> (r: Result<TripAssessment, TripPreparationError>)
    requires
        span.origin_index < span.destination_index <= elements@.len(),
        forall|m: u64|
            #[trigger] trip_lookups_defined(network, legs_of(trip_of(span, elements@)), m),
    ensures
        legs_of(trip_of(span, elements@)).len() == 0 ==> r matches Err(TripPreparationError::NoLegs),
        legs_of(trip_of(span, elements@)).len() > 0 ==> match main_mode_of_legs(
            legs_of(trip_of(span, elements@)),
        ) {
            Some(m) => r == Ok::<TripAssessment, TripPreparationError>(
                if trip_valid(
                    network,
                    main_modes@,
                    access_egress_mode,
                    trip_of(span, elements@),
                    m,
                    legs_of(trip_of(span, elements@)),
                ) {
                    TripAssessment::Valid
                } else {
                    TripAssessment::NeedsRouting(m)
                },
            ),
            None => r matches Err(TripPreparationError::AmbiguousMainMode),
        },
        r == Ok::<TripAssessment, TripPreparationError>(TripAssessment::Valid) ==> {
            let legs = legs_of(trip_of(span, elements@));
            &&& main_mode_of_legs(legs) is Some
            &&& forall|i: int|
                0 <= i < legs.len() ==> (#[trigger] legs[i]).routing_mode == main_mode_of_legs(legs)
            &&& main_modes@.contains(main_mode_of_legs(legs).unwrap()) ==> {
                &&& legs.len() > 0
                &&& legs[0].mode == access_egress_mode
                &&& legs[legs.len() - 1].mode == access_egress_mode
            }
        },
{
    proof {
        let legs = legs_of(trip_of(span, elements@));
        if let Some(m) = main_mode_of_legs(legs) {
            lemma_valid_network_trip_ends_with_access_egress(
                network,
                main_modes@,
                access_egress_mode,
                trip_of(span, elements@),
                m,
                legs,
            );
        }
    }
    let trip = span.trip_elements(elements);
    let legs = trip_legs(trip);
    let mode = match resolve_main_mode(legs.as_slice()) {
        Ok(mode) => mode,
        Err(e) => {
            return Err(e);
        },
    };
    proof {
        assert(trip_lookups_defined(network, legs_of(trip_of(span, elements@)), mode));
    }
    if trip_is_valid(network, main_modes, access_egress_mode, span, elements, mode, legs.as_slice()) {
        Ok(TripAssessment::Valid)
    } else {
        Ok(TripAssessment::NeedsRouting(mode))
    }
}

/// Marking the elements of a freshly routed trip with its mode keeps its legs in number and
/// order, changes nothing but their routing mode, and makes every leg carry the mode; so the
/// first condition of a usable trip holds for the mode.
pub proof fn lemma_marked_legs_carry_mode(
    routed: Seq<InternalPlanElement>,
    marked: Seq<InternalPlanElement>,
    mode: u64,
)
    requires
        marked.len() == routed.len(),
        forall|i: int| 0 <= i < routed.len() ==> marked[i] == with_routing_mode(#[trigger] routed[i], mode),
    ensures
        legs_of(marked).len() == legs_of(routed).len(),
        forall|i: int|
            0 <= i < legs_of(marked).len() ==> (#[trigger] legs_of(marked)[i]) == (InternalLeg {
                routing_mode: Some(mode),
                ..legs_of(routed)[i]
            }),
        forall|i: int| 0 <= i < legs_of(marked).len() ==> (#[trigger] legs_of(marked)[i]).routing_mode == Some(mode),
    decreases routed.len(),
{
    if routed.len() > 0 {
        lemma_marked_legs_carry_mode(routed.drop_last(), marked.drop_last(), mode);
        assert(marked.last() == with_routing_mode(routed.last(), mode));
    }
}

} // verus!
