use crate::trip_structure::{
    InternalActivity, InternalGenericRoute, InternalLeg, InternalNetworkRoute, InternalPlan,
    InternalPlanElement, InternalRoute,
};
use vstd::prelude::*;

verus! {

/// Nanoseconds in a second.
pub const NANOS_PER_SECOND: u128 = 1_000_000_000;

/// The events from which the plan that a person experienced is rebuilt, with what the plan takes
/// from them. Times are in seconds. The coordinate of an activity and the positions on the links
/// at which a vehicle enters and leaves traffic are floating-point values that the rebuilt plan
/// does not hold; a teleportation carries whether its distance is usable. All other events,
/// those of vehicles entering and leaving traffic among them, are `Other`.
#[derive(Debug)]
pub enum ExperiencedEvent {
    PersonDeparture { time: u32, link: u64, leg_mode: u64, routing_mode: u64 },
    PersonArrival { time: u32, link: u64 },
    ActivityStart { time: u32, link: u64, act_type: String },
    ActivityEnd { time: u32, link: u64, act_type: String },
    PersonEntersVehicle { vehicle: u64 },
    LinkEnter { link: u64 },
    TeleportationArrival { distance_ok: bool },
    Other,
}

/// Whether a route being rebuilt was teleported or driven on the network.
#[derive(Debug, Clone, Copy, PartialEq, Eq, Structural)]
pub enum PartialRouteType {
    Generic,
    Network,
}

/// The route of a leg while it is being rebuilt: its kind once known, where and when it started
/// and ended, whether its distance is usable, the vehicle, and the links entered on the way.
#[derive(Debug)]
pub struct PartialRoute {
    pub route_type: Option<PartialRouteType>,
    pub start_link: Option<u64>,
    pub end_link: Option<u64>,
    pub start_time: Option<u32>,
    pub end_time: Option<u32>,
    pub distance_ok: Option<bool>,
    pub vehicle: Option<u64>,
    pub route: Vec<u64>,
}

/// What a route being rebuilt holds.
pub struct PartialRouteView {
    pub route_type: Option<PartialRouteType>,
    pub start_link: Option<u64>,
    pub end_link: Option<u64>,
    pub start_time: Option<u32>,
    pub end_time: Option<u32>,
    pub distance_ok: Option<bool>,
    pub vehicle: Option<u64>,
    pub route: Seq<u64>,
}

impl View for PartialRoute {
    type V = PartialRouteView;

    open spec fn view(&self) -> PartialRouteView {
        PartialRouteView {
            route_type: self.route_type,
            start_link: self.start_link,
            end_link: self.end_link,
            start_time: self.start_time,
            end_time: self.end_time,
            distance_ok: self.distance_ok,
            vehicle: self.vehicle,
            route: self.route@,
        }
    }
}

/// A route about which nothing is known yet.
pub open spec fn empty_route() -> PartialRouteView {
    PartialRouteView {
        route_type: None,
        start_link: None,
        end_link: None,
        start_time: None,
        end_time: None,
        distance_ok: None,
        vehicle: None,
        route: Seq::empty(),
    }
}

/// The route after an event: a departure gives where and when it starts, an arrival where and
/// when it ends, entering a vehicle makes it a network route driven by that vehicle, a link
/// enter adds the link, and a teleportation makes it a teleported route.
pub open spec fn route_after(r: PartialRouteView, e: ExperiencedEvent) -> PartialRouteView {
    match e {
        ExperiencedEvent::PersonDeparture { time, link, .. } => PartialRouteView {
            start_time: Some(time),
            start_link: Some(link),
            ..r
        },
        ExperiencedEvent::PersonArrival { time, link } => PartialRouteView {
            end_time: Some(time),
            end_link: Some(link),
            ..r
        },
        ExperiencedEvent::PersonEntersVehicle { vehicle } => PartialRouteView {
            route_type: Some(PartialRouteType::Network),
            vehicle: Some(vehicle),
            ..r
        },
        ExperiencedEvent::LinkEnter { link } => PartialRouteView { route: r.route.push(link), ..r },
        ExperiencedEvent::TeleportationArrival { distance_ok } => PartialRouteView {
            route_type: Some(PartialRouteType::Generic),
            distance_ok: Some(distance_ok),
            ..r
        },
        _ => r,
    }
}

/// A route takes an event unless it would turn a teleported route into a network route or the
/// other way round.
pub open spec fn route_accepts(r: PartialRouteView, e: ExperiencedEvent) -> bool {
    match e {
        ExperiencedEvent::PersonEntersVehicle { .. } => r.route_type != Some(PartialRouteType::Generic),
        ExperiencedEvent::TeleportationArrival { .. } => r.route_type != Some(PartialRouteType::Network),
        _ => true,
    }
}

/// A route can be finished once its kind, its ends and their times are known, it does not end
/// before it starts, and a teleported route knows its distance and a network route its vehicle.
pub open spec fn route_finishable(r: PartialRouteView) -> bool {
    &&& r.route_type is Some
    &&& r.start_link is Some
    &&& r.end_link is Some
    &&& r.start_time is Some
    &&& r.end_time is Some
    &&& r.start_time.unwrap() <= r.end_time.unwrap()
    &&& r.route_type == Some(PartialRouteType::Generic) ==> r.distance_ok is Some
    &&& r.route_type == Some(PartialRouteType::Network) ==> r.vehicle is Some
}

/// The generic part of a finished route: its ends, the time between its start and its end in
/// nanoseconds, whether its distance is usable, and its vehicle.
pub open spec fn finished_generic(r: PartialRouteView) -> InternalGenericRoute {
    InternalGenericRoute {
        start_link: r.start_link.unwrap(),
        end_link: r.end_link.unwrap(),
        trav_time: Some(((r.end_time.unwrap() - r.start_time.unwrap()) * NANOS_PER_SECOND) as u128),
        distance_ok: r.distance_ok,
        vehicle: r.vehicle,
    }
}

/// `out` is the route finished from `r`: a teleported route is its generic part alone, a network
/// route adds the links entered.
pub open spec fn route_finished_as(r: PartialRouteView, out: InternalRoute) -> bool {
    match r.route_type {
        Some(PartialRouteType::Generic) => out == InternalRoute::Generic(finished_generic(r)),
        Some(PartialRouteType::Network) => out matches InternalRoute::Network(nr) && nr.generic
            == finished_generic(r) && nr.route@ == r.route,
        None => false,
    }
}

impl Default for PartialRoute {
    fn default() -> (r: Self)
        ensures
            r@ == empty_route(),
    {
        PartialRoute {
            route_type: None,
            start_link: None,
            end_link: None,
            start_time: None,
            end_time: None,
            distance_ok: None,
            vehicle: None,
            route: Vec::new(),
        }
    }
}

impl PartialRoute {
    /// Takes what the route needs from an event.
    pub fn handle_event(&mut self, e: &ExperiencedEvent)
        requires
            route_accepts(old(self)@, *e),
        ensures
            final(self)@ == route_after(old(self)@, *e),
    {
        match e {
            ExperiencedEvent::PersonDeparture { time, link, .. } => {
                self.start_time = Some(*time);
                self.start_link = Some(*link);
            },
            ExperiencedEvent::PersonArrival { time, link } => {
                self.end_time = Some(*time);
                self.end_link = Some(*link);
            },
            ExperiencedEvent::PersonEntersVehicle { vehicle } => {
                self.route_type = Some(PartialRouteType::Network);
                self.vehicle = Some(*vehicle);
            },
            ExperiencedEvent::LinkEnter { link } => {
                self.route.push(*link);
            },
            ExperiencedEvent::TeleportationArrival { distance_ok } => {
                self.route_type = Some(PartialRouteType::Generic);
                self.distance_ok = Some(*distance_ok);
            },
            _ => {},
        }
    }

    /// The finished route.
    pub fn finish(self) -> (out: InternalRoute)
        requires
            route_finishable(self@),
        ensures
            route_finished_as(self@, out),
    {
        let start_time = self.start_time.unwrap();
        let end_time = self.end_time.unwrap();
        let seconds: u128 = (end_time - start_time) as u128;
        let generic = InternalGenericRoute {
            start_link: self.start_link.unwrap(),
            end_link: self.end_link.unwrap(),
            trav_time: Some(seconds * NANOS_PER_SECOND),
            distance_ok: self.distance_ok,
            vehicle: self.vehicle,
        };
        match self.route_type {
            Some(PartialRouteType::Generic) => InternalRoute::Generic(generic),
            _ => InternalRoute::Network(InternalNetworkRoute { generic, route: self.route }),
        }
    }
}

/// A leg while it is being rebuilt: its mode and routing mode, when it departed, how long it
/// took, in seconds, and its route.
#[derive(Debug)]
pub struct PartialLeg {
    pub mode: Option<u64>,
    pub routing_mode: Option<u64>,
    pub dep_time: Option<u32>,
    pub trav_time: Option<u32>,
    pub partial_route: PartialRoute,
}

/// What a leg being rebuilt holds.
pub struct PartialLegView {
    pub mode: Option<u64>,
    pub routing_mode: Option<u64>,
    pub dep_time: Option<u32>,
    pub trav_time: Option<u32>,
    pub route: PartialRouteView,
}

impl View for PartialLeg {
    type V = PartialLegView;

    open spec fn view(&self) -> PartialLegView {
        PartialLegView {
            mode: self.mode,
            routing_mode: self.routing_mode,
            dep_time: self.dep_time,
            trav_time: self.trav_time,
            route: self.partial_route@,
        }
    }
}

/// A leg about which nothing is known yet.
pub open spec fn empty_leg() -> PartialLegView {
    PartialLegView { mode: None, routing_mode: None, dep_time: None, trav_time: None, route: empty_route() }
}

/// The leg after an event: a departure gives its modes and its departure time, an arrival the
/// time since the departure, and the route takes what it needs from every event.
pub open spec fn leg_after(l: PartialLegView, e: ExperiencedEvent) -> PartialLegView {
    match e {
        ExperiencedEvent::PersonDeparture { time, leg_mode, routing_mode, .. } => PartialLegView {
            mode: Some(leg_mode),
            routing_mode: Some(routing_mode),
            dep_time: Some(time),
            route: route_after(l.route, e),
            ..l
        },
        ExperiencedEvent::PersonArrival { time, .. } => PartialLegView {
            trav_time: Some((time - l.dep_time.unwrap()) as u32),
            route: route_after(l.route, e),
            ..l
        },
        _ => PartialLegView { route: route_after(l.route, e), ..l },
    }
}

/// A leg takes an event when its route does, and an arrival only after a departure and not
/// before it.
pub open spec fn leg_accepts(l: PartialLegView, e: ExperiencedEvent) -> bool {
    &&& route_accepts(l.route, e)
    &&& e matches ExperiencedEvent::PersonArrival { time, .. } ==> l.dep_time is Some
        && l.dep_time.unwrap() <= time
}

/// A leg can be finished once its modes and travel time are known and its route can be
/// finished.
pub open spec fn leg_finishable(l: PartialLegView) -> bool {
    &&& l.mode is Some
    &&& l.routing_mode is Some
    &&& l.trav_time is Some
    &&& route_finishable(l.route)
}

/// `out` is the leg finished from `l`: its modes, departure time, travel time in nanoseconds and
/// finished route.
pub open spec fn leg_finished_as(l: PartialLegView, out: InternalLeg) -> bool {
    &&& out.mode == l.mode.unwrap()
    &&& out.routing_mode == l.routing_mode
    &&& out.dep_time == l.dep_time
    &&& out.trav_time == Some((l.trav_time.unwrap() * NANOS_PER_SECOND) as u128)
    &&& out.route matches Some(r) && route_finished_as(l.route, r)
}

impl Default for PartialLeg {
    fn default() -> (r: Self)
        ensures
            r@ == empty_leg(),
    {
        PartialLeg {
            mode: None,
            routing_mode: None,
            dep_time: None,
            trav_time: None,
            partial_route: PartialRoute::default(),
        }
    }
}

impl PartialLeg {
    /// Takes what the leg and its route need from an event.
    pub fn handle_event(&mut self, e: &ExperiencedEvent)
        requires
            leg_accepts(old(self)@, *e),
        ensures
            final(self)@ == leg_after(old(self)@, *e),
    {
        match e {
            ExperiencedEvent::PersonArrival { time, .. } => {
                let dep_time = self.dep_time.unwrap();
                self.trav_time = Some(*time - dep_time);
            },
            ExperiencedEvent::PersonDeparture { time, leg_mode, routing_mode, .. } => {
                self.mode = Some(*leg_mode);
                self.routing_mode = Some(*routing_mode);
                self.dep_time = Some(*time);
            },
            _ => {},
        }
        self.partial_route.handle_event(e);
    }

    /// The finished leg.
    pub fn finish(self) -> (out: InternalLeg)
        requires
            leg_finishable(self@),
        ensures
            leg_finished_as(self@, out),
    {
        let seconds: u128 = self.trav_time.unwrap() as u128;
        let route = self.partial_route.finish();
        InternalLeg {
            mode: self.mode.unwrap(),
            routing_mode: self.routing_mode,
            dep_time: self.dep_time,
            trav_time: Some(seconds * NANOS_PER_SECOND),
            route: Some(route),
        }
    }
}

/// An activity while it is being rebuilt: its type, its link, and when it started and ended.
#[derive(Debug)]
pub struct PartialActivity {
    pub act_type: Option<String>,
    pub link_id: Option<u64>,
    pub start_time: Option<u32>,
    pub end_time: Option<u32>,
}

/// What an activity being rebuilt holds.
pub struct PartialActivityView {
    pub act_type: Option<Seq<char>>,
    pub link_id: Option<u64>,
    pub start_time: Option<u32>,
    pub end_time: Option<u32>,
}

impl View for PartialActivity {
    type V = PartialActivityView;

    open spec fn view(&self) -> PartialActivityView {
        PartialActivityView {
            act_type: match self.act_type {
                Some(t) => Some(t@),
                None => None,
            },
            link_id: self.link_id,
            start_time: self.start_time,
            end_time: self.end_time,
        }
    }
}

/// An activity about which nothing is known yet.
pub open spec fn empty_activity() -> PartialActivityView {
    PartialActivityView { act_type: None, link_id: None, start_time: None, end_time: None }
}

/// The activity after an event: its start and its end each give its type, its link and the
/// time.
pub open spec fn activity_after(a: PartialActivityView, e: ExperiencedEvent) -> PartialActivityView {
    match e {
        ExperiencedEvent::ActivityStart { time, link, act_type } => PartialActivityView {
            act_type: Some(act_type@),
            link_id: Some(link),
            start_time: Some(time),
            ..a
        },
        ExperiencedEvent::ActivityEnd { time, link, act_type } => PartialActivityView {
            act_type: Some(act_type@),
            link_id: Some(link),
            end_time: Some(time),
            ..a
        },
        _ => a,
    }
}

/// An activity can be finished once its type and link are known.
pub open spec fn activity_finishable(a: PartialActivityView) -> bool {
    a.act_type is Some && a.link_id is Some
}

/// `out` is the activity finished from `a`.
pub open spec fn activity_finished_as(a: PartialActivityView, out: InternalActivity) -> bool {
    &&& out.act_type@ == a.act_type.unwrap()
    &&& out.link_id == a.link_id.unwrap()
    &&& out.start_time == a.start_time
    &&& out.end_time == a.end_time
}

impl Default for PartialActivity {
    fn default() -> (r: Self)
        ensures
            r@ == empty_activity(),
    {
        PartialActivity { act_type: None, link_id: None, start_time: None, end_time: None }
    }
}

impl PartialActivity {
    /// Takes what the activity needs from an event.
    pub fn handle_event(&mut self, e: &ExperiencedEvent)
        ensures
            final(self)@ == activity_after(old(self)@, *e),
    {
        match e {
            ExperiencedEvent::ActivityStart { time, link, act_type } => {
                self.act_type = Some(act_type.clone());
                self.link_id = Some(*link);
                self.start_time = Some(*time);
            },
            ExperiencedEvent::ActivityEnd { time, link, act_type } => {
                self.act_type = Some(act_type.clone());
                self.link_id = Some(*link);
                self.end_time = Some(*time);
            },
            _ => {},
        }
    }

    /// The finished activity.
    pub fn finish(self) -> (out: InternalActivity)
        requires
            activity_finishable(self@),
        ensures
            activity_finished_as(self@, out),
    {
        InternalActivity {
            act_type: self.act_type.unwrap(),
            link_id: self.link_id.unwrap(),
            start_time: self.start_time,
            end_time: self.end_time,
        }
    }
}

/// The plan that a person experienced, while it is being rebuilt from the person's events: the
/// finished elements, and the activity and the leg under way.
#[derive(Debug)]
pub struct PartialPlan {
    pub elements: Vec<InternalPlanElement>,
    pub current_activity: Option<PartialActivity>,
    pub current_leg: Option<PartialLeg>,
}

/// What a plan being rebuilt holds.
pub struct PartialPlanView {
    pub elements: Seq<InternalPlanElement>,
    pub current_activity: Option<PartialActivityView>,
    pub current_leg: Option<PartialLegView>,
}

impl View for PartialPlan {
    type V = PartialPlanView;

    open spec fn view(&self) -> PartialPlanView {
        PartialPlanView {
            elements: self.elements@,
            current_activity: match self.current_activity {
                Some(a) => Some(a@),
                None => None,
            },
            current_leg: match self.current_leg {
                Some(l) => Some(l@),
                None => None,
            },
        }
    }
}

/// The plan once an event has opened what it begins: a departure opens a new leg, an activity
/// start a new activity.
pub open spec fn plan_opened(p: PartialPlanView, e: ExperiencedEvent) -> PartialPlanView {
    match e {
        ExperiencedEvent::PersonDeparture { .. } => PartialPlanView { current_leg: Some(empty_leg()), ..p },
        ExperiencedEvent::ActivityStart { .. } => PartialPlanView {
            current_activity: Some(empty_activity()),
            ..p
        },
        _ => p,
    }
}

/// The plan once the event has also been handed on: to the leg under way if there is one, else
/// to the activity under way.
pub open spec fn plan_handled(p: PartialPlanView, e: ExperiencedEvent) -> PartialPlanView {
    let o = plan_opened(p, e);
    match o.current_leg {
        Some(l) => PartialPlanView { current_leg: Some(leg_after(l, e)), ..o },
        None => match o.current_activity {
            Some(a) => PartialPlanView { current_activity: Some(activity_after(a, e)), ..o },
            None => o,
        },
    }
}

/// A plan takes an event when the event fits the plan's state: a departure comes with no leg
/// under way and an activity start with no activity under way; something is under way to take
/// the event, and a leg under way accepts it; an arrival finds a leg that can then be finished
/// and an activity end an activity that can then be finished.
pub open spec fn plan_accepts(p: PartialPlanView, e: ExperiencedEvent) -> bool {
    let o = plan_opened(p, e);
    let h = plan_handled(p, e);
    &&& e is PersonDeparture ==> p.current_leg is None
    &&& e is ActivityStart ==> p.current_activity is None
    &&& o.current_leg is Some || o.current_activity is Some
    &&& o.current_leg matches Some(l) ==> leg_accepts(l, e)
    &&& e is PersonArrival ==> (h.current_leg matches Some(l) && leg_finishable(l))
    &&& e is ActivityEnd ==> (h.current_activity matches Some(a) && activity_finishable(a))
}

/// `q` is the plan `p` after the event `e`: the event is opened and handed on as
/// `plan_handled` says; an arrival then finishes the leg under way and appends it, an activity
/// end the activity under way.
pub open spec fn plan_stepped(p: PartialPlanView, q: PartialPlanView, e: ExperiencedEvent) -> bool {
    let h = plan_handled(p, e);
    &&& e is PersonArrival ==> {
        &&& q.current_leg is None
        &&& q.current_activity == h.current_activity
        &&& q.elements.len() == h.elements.len() + 1
        &&& q.elements.drop_last() == h.elements
        &&& q.elements.last() matches InternalPlanElement::Leg(l) && leg_finished_as(h.current_leg.unwrap(), l)
    }
    &&& e is ActivityEnd ==> {
        &&& q.current_activity is None
        &&& q.current_leg == h.current_leg
        &&& q.elements.len() == h.elements.len() + 1
        &&& q.elements.drop_last() == h.elements
        &&& q.elements.last() matches InternalPlanElement::Activity(a) && activity_finished_as(
            h.current_activity.unwrap(),
            a,
        )
    }
    &&& !(e is PersonArrival) && !(e is ActivityEnd) ==> q == h
}

/// A plan can be finished when it has no finished element, or the activity under way, if any,
/// can be finished.
pub open spec fn plan_finishable(p: PartialPlanView) -> bool {
    p.elements.len() > 0 ==> (p.current_activity matches Some(a) ==> activity_finishable(a))
}

/// `out` is the plan finished from `p`: an unselected plan without elements when no element was
/// finished; otherwise the selected plan of the finished elements, followed by the activity under
/// way, finished, if there is one.
pub open spec fn plan_finished_as(p: PartialPlanView, out: InternalPlan) -> bool {
    &&& p.elements.len() == 0 ==> !out.selected && out.elements@.len() == 0
    &&& p.elements.len() > 0 ==> out.selected && match p.current_activity {
        None => out.elements@ == p.elements,
        Some(a) => {
            &&& out.elements@.len() == p.elements.len() + 1
            &&& out.elements@.drop_last() == p.elements
            &&& out.elements@.last() matches InternalPlanElement::Activity(x) && activity_finished_as(a, x)
        },
    }
}

impl Default for PartialPlan {
    /// A plan with no element yet whose person is at its first activity.
    fn default() -> (r: Self)
        ensures
            r@ == (PartialPlanView {
                elements: Seq::empty(),
                current_activity: Some(empty_activity()),
                current_leg: None,
            }),
    {
        PartialPlan {
            elements: Vec::new(),
            current_activity: Some(PartialActivity::default()),
            current_leg: None,
        }
    }
}

impl PartialPlan {
    /// The person departs: a new leg begins.
    fn handle_person_departure(&mut self)
        requires
            old(self).current_leg is None,
        ensures
            final(self)@ == (PartialPlanView { current_leg: Some(empty_leg()), ..old(self)@ }),
    {
        self.current_leg = Some(PartialLeg::default());
    }

    /// The person arrives: the leg under way is finished and appended.
    fn handle_person_arrival(&mut self)
        requires
            old(self)@.current_leg matches Some(l) && leg_finishable(l),
        ensures
            final(self)@.current_leg is None,
            final(self)@.current_activity == old(self)@.current_activity,
            final(self)@.elements.len() == old(self)@.elements.len() + 1,
            final(self)@.elements.drop_last() == old(self)@.elements,
            final(self)@.elements.last() matches InternalPlanElement::Leg(l) && leg_finished_as(
                old(self)@.current_leg.unwrap(),
                l,
            ),
    {
        let leg = self.current_leg.take().unwrap();
        let finished = leg.finish();
        self.elements.push(InternalPlanElement::Leg(finished));
        proof {
            assert(self@.elements.drop_last() =~= old(self)@.elements);
        }
    }

    /// An activity starts.
    fn handle_activity_start(&mut self)
        requires
            old(self).current_activity is None,
        ensures
            final(self)@ == (PartialPlanView { current_activity: Some(empty_activity()), ..old(self)@ }),
    {
        self.current_activity = Some(PartialActivity::default());
    }

    /// The activity under way ends: it is finished and appended.
    fn handle_activity_end(&mut self)
        requires
            old(self)@.current_activity matches Some(a) && activity_finishable(a),
        ensures
            final(self)@.current_activity is None,
            final(self)@.current_leg == old(self)@.current_leg,
            final(self)@.elements.len() == old(self)@.elements.len() + 1,
            final(self)@.elements.drop_last() == old(self)@.elements,
            final(self)@.elements.last() matches InternalPlanElement::Activity(a)
                && activity_finished_as(old(self)@.current_activity.unwrap(), a),
    {
        let activity = self.current_activity.take().unwrap();
        let finished = activity.finish();
        self.elements.push(InternalPlanElement::Activity(finished));
        proof {
            assert(self@.elements.drop_last() =~= old(self)@.elements);
        }
    }

    /// Takes an event of the person: opens what it begins, hands it to the leg or activity
    /// under way, and finishes what it ends.
    pub fn handle_event(&mut self, e: &ExperiencedEvent)
        requires
            plan_accepts(old(self)@, *e),
        ensures
            plan_stepped(old(self)@, final(self)@, *e),
    {
        match e {
            ExperiencedEvent::PersonDeparture { .. } => self.handle_person_departure(),
            ExperiencedEvent::ActivityStart { .. } => self.handle_activity_start(),
            _ => {},
        }
        if self.current_leg.is_some() {
            let mut leg = self.current_leg.take().unwrap();
            leg.handle_event(e);
            self.current_leg = Some(leg);
        } else if self.current_activity.is_some() {
            let mut activity = self.current_activity.take().unwrap();
            activity.handle_event(e);
            self.current_activity = Some(activity);
        }
        match e {
            ExperiencedEvent::PersonArrival { .. } => self.handle_person_arrival(),
            ExperiencedEvent::ActivityEnd { .. } => self.handle_activity_end(),
            _ => {},
        }
    }

    /// The experienced plan: none of its elements when no event finished one; otherwise the
    /// selected plan of the finished elements, followed by the activity under way, finished.
    pub fn finish(self) -> (out: InternalPlan)
        requires
            plan_finishable(self@),
        ensures
            plan_finished_as(self@, out),
    {
        if self.elements.len() == 0 {
            return InternalPlan { selected: false, elements: Vec::new() };
        }
        let mut elements = self.elements;
        let ghost before = elements@;
        match self.current_activity {
            Some(activity) => {
                let finished = activity.finish();
                elements.push(InternalPlanElement::Activity(finished));
                proof {
                    assert(elements@.drop_last() =~= before);
                }
            },
            None => {},
        }
        InternalPlan { selected: true, elements }
    }
}

/// The state of a plan with no element yet whose person is at its first activity.
pub open spec fn initial_plan() -> PartialPlanView {
    PartialPlanView { elements: Seq::empty(), current_activity: Some(empty_activity()), current_leg: None }
}

/// `r` is a state that `start` can reach by taking the events in order.
pub open spec fn replayed_as(start: PartialPlanView, events: Seq<ExperiencedEvent>, r: PartialPlanView) -> bool
    decreases events.len(),
{
    if events.len() == 0 {
        r == start
    } else {
        exists|q: PartialPlanView|
            #![trigger plan_stepped(q, r, events.last())]
            replayed_as(start, events.drop_last(), q) && plan_stepped(q, r, events.last())
    }
}

/// Every event fits the state that the events before it lead to.
pub open spec fn replayable(start: PartialPlanView, events: Seq<ExperiencedEvent>) -> bool
    decreases events.len(),
{
    if events.len() == 0 {
        true
    } else {
        &&& replayable(start, events.drop_last())
        &&& forall|q: PartialPlanView|
            #[trigger] replayed_as(start, events.drop_last(), q) ==> plan_accepts(q, events.last())
    }
}

/// The events that a sequence can take in order, it can take in any prefix.
proof fn lemma_replayable_prefix(start: PartialPlanView, events: Seq<ExperiencedEvent>, k: int)
    requires
        replayable(start, events),
        0 <= k <= events.len(),
    ensures
        replayable(start, events.take(k)),
    decreases events.len() - k,
{
    if k < events.len() {
        lemma_replayable_prefix(start, events, k + 1);
        assert(events.take(k + 1).drop_last() =~= events.take(k));
    } else {
        assert(events.take(k) =~= events);
    }
}

/// Rebuilds the plan that a person experienced from the person's events, in order, and
/// finishes it.
pub fn experienced_plan(events: &Vec<ExperiencedEvent>) -> (out: InternalPlan)
    requires
        replayable(initial_plan(), events@),
        forall|r: PartialPlanView| #[trigger] replayed_as(initial_plan(), events@, r) ==> plan_finishable(r),
    ensures
        exists|r: PartialPlanView|
            #[trigger] replayed_as(initial_plan(), events@, r) && plan_finished_as(r, out),
{
    let mut plan = PartialPlan::default();
    let mut i: usize = 0;
    proof {
        assert(events@.take(0) =~= Seq::<ExperiencedEvent>::empty());
    }
    while i < events.len()
        invariant
            i <= events@.len(),
            replayable(initial_plan(), events@),
            replayed_as(initial_plan(), events@.take(i as int), plan@),
        decreases events.len() - i,
    {
        let ghost before = plan@;
        proof {
            lemma_replayable_prefix(initial_plan(), events@, i + 1);
            assert(events@.take(i + 1).drop_last() =~= events@.take(i as int));
            assert(events@.take(i + 1).last() == events@[i as int]);
        }
        plan.handle_event(&events[i]);
        proof {
            assert(plan_stepped(before, plan@, events@.take(i + 1).last()));
        }
        i = i + 1;
    }
    proof {
        assert(events@.take(events@.len() as int) =~= events@);
    }
    let ghost last = plan@;
    let out = plan.finish();
    proof {
        assert(replayed_as(initial_plan(), events@, last));
    }
    out
}

} // verus!
