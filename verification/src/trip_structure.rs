use vstd::prelude::*;
use vstd::string::*;

verus! {

/// An activity of a plan: its type, the link where it takes place, and when it starts and ends,
/// in seconds, where known.
#[derive(Debug)]
pub struct InternalActivity {
    pub act_type: String,
    pub link_id: u64,
    pub start_time: Option<u32>,
    pub end_time: Option<u32>,
}

/// The part of a route that every route has: where it starts and ends, its travel time, whether
/// its distance is known and usable (present, finite and not negative), and the vehicle that
/// drives it.
#[derive(Debug)]
pub struct InternalGenericRoute {
    pub start_link: u64,
    pub end_link: u64,
    pub trav_time: Option<u128>,
    pub distance_ok: Option<bool>,
    pub vehicle: Option<u64>,
}

/// A route on the road network: the generic part and the ids of the links driven, in order.
#[derive(Debug)]
pub struct InternalNetworkRoute {
    pub generic: InternalGenericRoute,
    pub route: Vec<u64>,
}

/// The route of a leg.
#[derive(Debug)]
pub enum InternalRoute {
    Generic(InternalGenericRoute),
    Network(InternalNetworkRoute),
}

impl InternalRoute {
    /// The generic part of the route.
    pub open spec fn generic_spec(self) -> InternalGenericRoute {
        match self {
            InternalRoute::Generic(g) => g,
            InternalRoute::Network(n) => n.generic,
        }
    }

    /// The generic part of the route.
    pub fn as_generic(&self) -> (r: &InternalGenericRoute)
        ensures
            *r == self.generic_spec(),
    {
        match self {
            InternalRoute::Generic(g) => g,
            InternalRoute::Network(n) => &n.generic,
        }
    }
}

/// A leg of a plan: its mode, the routing mode of the trip it belongs to when known, its
/// departure time in seconds and its travel time in nanoseconds when known, and its route when it
/// has one. Modes are given by their ids.
#[derive(Debug)]
pub struct InternalLeg {
    pub mode: u64,
    pub routing_mode: Option<u64>,
    pub dep_time: Option<u32>,
    pub trav_time: Option<u128>,
    pub route: Option<InternalRoute>,
}

/// A plan: whether it is the selected plan of its person, and its elements. Its score, a
/// floating-point value, is not held here.
#[derive(Debug)]
pub struct InternalPlan {
    pub selected: bool,
    pub elements: Vec<InternalPlanElement>,
}

/// An element of a flat plan.
#[derive(Debug)]
pub enum InternalPlanElement {
    Activity(InternalActivity),
    Leg(InternalLeg),
}

/// The characters of the word that marks stage activities.
pub open spec fn interaction_word() -> Seq<char> {
    seq!['i', 'n', 't', 'e', 'r', 'a', 'c', 't', 'i', 'o', 'n']
}

/// `word` occurs in `s` as a contiguous piece.
pub open spec fn occurs_in(word: Seq<char>, s: Seq<char>) -> bool {
    exists|i: int| 0 <= i && i + word.len() <= s.len() && #[trigger] s.subrange(i, i + word.len()) == word
}

/// The characters of a string slice.
fn chars_of(s: &str) -> (r: Vec<char>)
    ensures
        r@ == s@,
{
    let n = s.unicode_len();
    let mut r: Vec<char> = Vec::new();
    let mut i: usize = 0;
    while i < n
        invariant
            n == s@.len(),
            i <= n,
            r@ == s@.subrange(0, i as int),
        decreases n - i,
    {
        r.push(s.get_char(i));
        i = i + 1;
        proof {
            assert(r@ =~= s@.subrange(0, i as int));
        }
    }
    proof {
        assert(r@ =~= s@);
    }
    r
}

/// Whether `word` occurs in `s` as a contiguous piece.
fn occurs(word: &Vec<char>, s: &Vec<char>) -> (r: bool)
    ensures
        r == occurs_in(word@, s@),
{
    if word.len() > s.len() {
        return false;
    }
    if word.len() == 0 {
        proof {
            assert(s@.subrange(0, 0int + word@.len()) =~= word@);
        }
        return true;
    }
    let last = s.len() - word.len();
    let mut i: usize = 0;
    while i <= last
        invariant
            last == s@.len() - word@.len(),
            0 < word@.len() <= s@.len(),
            s@.len() <= usize::MAX,
            i <= last + 1,
            forall|k: int| 0 <= k < i ==> #[trigger] s@.subrange(k, k + word@.len()) != word@,
        decreases last + 1 - i,
    {
        let mut j: usize = 0;
        let mut same = true;
        while j < word.len()
            invariant
                i <= last,
                last == s@.len() - word@.len(),
                0 < word@.len() <= s@.len(),
                s@.len() <= usize::MAX,
                j <= word@.len(),
                same == (forall|t: int| 0 <= t < j ==> s@[i + t] == word@[t]),
            decreases word.len() - j,
        {
            if s[i + j] != word[j] {
                same = false;
            }
            j = j + 1;
        }
        if same {
            proof {
                assert(s@.subrange(i as int, i + word@.len()) =~= word@);
            }
            return true;
        }
        proof {
            assert(s@.subrange(i as int, i + word@.len()) != word@) by {
                let t = choose|t: int| 0 <= t < word@.len() && s@[i + t] != word@[t];
                assert(s@.subrange(i as int, i + word@.len())[t] == s@[i + t]);
            }
        }
        i = i + 1;
    }
    proof {
        assert forall|k: int| 0 <= k && k + word@.len() <= s@.len() implies #[trigger] s@.subrange(
            k,
            k + word@.len(),
        ) != word@ by {
            assert(k < i);
        }
    }
    false
}

impl InternalActivity {
    /// A stage activity: its type contains the word "interaction".
    pub open spec fn is_interaction_spec(&self) -> bool {
        occurs_in(interaction_word(), self.act_type@)
    }

    /// Whether the activity is a stage activity, i.e. its type contains the word
    /// "interaction".
    pub fn is_interaction(&self) -> (r: bool)
        ensures
            r == self.is_interaction_spec(),
    {
        let word = vec!['i', 'n', 't', 'e', 'r', 'a', 'c', 't', 'i', 'o', 'n'];
        proof {
            assert(word@ =~= interaction_word());
        }
        let s = chars_of(self.act_type.as_str());
        occurs(&word, &s)
    }
}

impl InternalPlanElement {
    /// The activity, when the element is one.
    pub fn as_activity(&self) -> (r: Option<&InternalActivity>)
        ensures
            match *self {
                InternalPlanElement::Activity(a) => r == Some(&a),
                InternalPlanElement::Leg(_) => r is None,
            },
    {
        match self {
            InternalPlanElement::Activity(a) => Some(a),
            InternalPlanElement::Leg(_) => None,
        }
    }

    /// The leg, when the element is one.
    pub fn as_leg(&self) -> (r: Option<&InternalLeg>)
        ensures
            match *self {
                InternalPlanElement::Leg(l) => r == Some(&l),
                InternalPlanElement::Activity(_) => r is None,
            },
    {
        match self {
            InternalPlanElement::Leg(l) => Some(l),
            InternalPlanElement::Activity(_) => None,
        }
    }
}


/// The main mode of a trip: the routing mode of its first leg; failing that, for a trip of
/// exactly one leg, the mode of that leg.
pub open spec fn main_mode(trip: Seq<InternalPlanElement>) -> Option<u64> {
    if trip.len() == 0 {
        None
    } else {
        match trip[0] {
            InternalPlanElement::Leg(l) => match l.routing_mode {
                Some(m) => Some(m),
                None => if trip.len() == 1 {
                    Some(l.mode)
                } else {
                    None
                },
            },
            InternalPlanElement::Activity(_) => None,
        }
    }
}

/// Returns the main mode for a trip based on its leg sequence.
pub fn identify_main_mode(trip_elements: &[InternalPlanElement]) -> (r: Option<u64>)
    ensures
        r == main_mode(trip_elements@),
{
    if trip_elements.len() > 0 {
        if let Some(leg) = trip_elements[0].as_leg() {
            if let Some(m) = leg.routing_mode {
                return Some(m);
            }
            if trip_elements.len() == 1 {
                return Some(leg.mode);
            }
        }
    }
    None
}

/// Identifies a trip inside a flat plan by the indices of its boundary activities.
#[derive(Debug, PartialEq, Eq, Clone, Copy, Structural)]
pub struct TripSpan {
    pub origin_index: usize,
    pub destination_index: usize,
}

/// The result of scanning the first `k` plan elements: the trips found so far and the index of
/// the last main (non-stage) activity, or -1 when there was none.
pub open spec fn scan(
    plan: Seq<InternalPlanElement>,
    stage: spec_fn(InternalActivity) -> bool,
    k: int,
) -> (Seq<TripSpan>, int)
    decreases k,
{
    if k <= 0 {
        (Seq::empty(), -1)
    } else {
        let (trips, origin) = scan(plan, stage, k - 1);
        let cur = k - 1;
        match plan[cur] {
            InternalPlanElement::Leg(_) => (trips, origin),
            InternalPlanElement::Activity(a) => if stage(a) {
                (trips, origin)
            } else if origin == -1 {
                (trips, cur)
            } else if cur - origin > 1 {
                (
                    trips.push(
                        TripSpan { origin_index: origin as usize, destination_index: cur as usize },
                    ),
                    cur,
                )
            } else {
                (trips, cur)
            },
        }
    }
}

/// Element `i` of the plan is a main activity: an activity that is not a stage activity.
pub open spec fn is_main_activity(
    plan: Seq<InternalPlanElement>,
    stage: spec_fn(InternalActivity) -> bool,
    i: int,
) -> bool {
    plan[i] matches InternalPlanElement::Activity(a) && !stage(a)
}

/// The trip runs from one main activity to a later one, has at least one element between them,
/// and everything between them is a leg or a stage activity.
pub open spec fn span_ok(
    plan: Seq<InternalPlanElement>,
    stage: spec_fn(InternalActivity) -> bool,
    t: TripSpan,
) -> bool {
    &&& t.origin_index + 1 < t.destination_index
    &&& t.destination_index < plan.len()
    &&& is_main_activity(plan, stage, t.origin_index as int)
    &&& is_main_activity(plan, stage, t.destination_index as int)
    &&& forall|k: int|
        t.origin_index < k < t.destination_index ==> !#[trigger] is_main_activity(plan, stage, k)
}

proof fn lemma_scan_spans(plan: Seq<InternalPlanElement>, stage: spec_fn(InternalActivity) -> bool, k: int)
    requires
        0 <= k <= plan.len(),
        plan.len() <= usize::MAX,
    ensures
        forall|t: int|
            0 <= t < scan(plan, stage, k).0.len() ==> span_ok(plan, stage, #[trigger] scan(plan, stage, k).0[t]),
        forall|a: int, b: int|
            0 <= a < b < scan(plan, stage, k).0.len() ==> scan(plan, stage, k).0[a].destination_index
                <= scan(plan, stage, k).0[b].origin_index,
        scan(plan, stage, k).1 != -1 ==> {
            &&& 0 <= scan(plan, stage, k).1 < k
            &&& is_main_activity(plan, stage, scan(plan, stage, k).1)
            &&& forall|j: int| scan(plan, stage, k).1 < j < k ==> !#[trigger] is_main_activity(plan, stage, j)
            &&& forall|t: int|
                0 <= t < scan(plan, stage, k).0.len() ==> (#[trigger] scan(plan, stage, k).0[t]).destination_index
                    <= scan(plan, stage, k).1
        },
        scan(plan, stage, k).1 == -1 ==> scan(plan, stage, k).0.len() == 0,
    decreases k,
{
    if k > 0 {
        lemma_scan_spans(plan, stage, k - 1);
        let (trips, origin) = scan(plan, stage, k - 1);
        let cur = k - 1;
        match plan[cur] {
            InternalPlanElement::Leg(_) => {},
            InternalPlanElement::Activity(a) => {
                if !stage(a) && origin != -1 && cur - origin > 1 {
                    let t = TripSpan { origin_index: origin as usize, destination_index: cur as usize };
                    assert(t.origin_index == origin && t.destination_index == cur);
                    assert(is_main_activity(plan, stage, cur));
                    assert(span_ok(plan, stage, t));
                    assert(scan(plan, stage, k).0 == trips.push(t));
                    assert forall|x: int, y: int|
                        0 <= x < y < trips.push(t).len() implies trips.push(t)[x].destination_index
                        <= trips.push(t)[y].origin_index by {
                        if y == trips.len() {
                            assert(trips.push(t)[x] == trips[x]);
                        } else {
                            assert(trips.push(t)[x] == trips[x] && trips.push(t)[y] == trips[y]);
                        }
                    }
                }
            },
        }
    }
}

/// Every trip found in a plan runs from a main activity to a later main activity with at
/// least one element between them, and everything between them is a leg or a stage activity;
/// the trips come in plan order and do not overlap.
pub proof fn lemma_trips_well_formed(plan: Seq<InternalPlanElement>, stage: spec_fn(InternalActivity) -> bool)
    requires
        plan.len() <= usize::MAX,
    ensures
        forall|t: int| 0 <= t < trips_of(plan, stage).len() ==> span_ok(plan, stage, #[trigger] trips_of(plan, stage)[t]),
        forall|a: int, b: int|
            0 <= a < b < trips_of(plan, stage).len() ==> trips_of(plan, stage)[a].destination_index
                <= trips_of(plan, stage)[b].origin_index,
{
    lemma_scan_spans(plan, stage, plan.len() as int);
}

/// The trips of a plan: between each two consecutive main activities (those that are not stage
/// activities) that have other elements between them.
pub open spec fn trips_of(plan: Seq<InternalPlanElement>, stage: spec_fn(InternalActivity) -> bool) -> Seq<TripSpan> {
    scan(plan, stage, plan.len() as int).0
}

/// `f` can be called on every activity.
pub open spec fn callable<F: Fn(&InternalActivity) -> bool>(f: F) -> bool {
    forall|a: InternalActivity| #[trigger] f.requires((&a,))
}

/// Every answer of `f` is the one that the rule `stage` gives.
pub open spec fn agrees<F: Fn(&InternalActivity) -> bool>(f: F, stage: spec_fn(InternalActivity) -> bool) -> bool {
    forall|a: InternalActivity, b: bool| #[trigger] f.ensures((&a,), b) ==> b == stage(a)
}

/// The scan of the first `k` elements under the rule `stage` found the trips `trips` and
/// the last main activity `origin`.
pub open spec fn scanned(
    plan: Seq<InternalPlanElement>,
    stage: spec_fn(InternalActivity) -> bool,
    k: int,
    trips: Seq<TripSpan>,
    origin: Option<usize>,
) -> bool {
    &&& trips == scan(plan, stage, k).0
    &&& match origin {
        None => scan(plan, stage, k).1 == -1,
        Some(o) => scan(plan, stage, k).1 == o as int && o < k,
    }
}

/// The default stage-activity rule: activities whose type contains "interaction".
pub open spec fn default_rule() -> spec_fn(InternalActivity) -> bool {
    |a: InternalActivity| a.is_interaction_spec()
}

fn trip_spans<F>(plan_elements: &[InternalPlanElement], is_stage_activity: F) -> (r: Vec<TripSpan>)
    where
        F: Fn(&InternalActivity) -> bool,
    requires
        callable(is_stage_activity),
    ensures
        forall|stage: spec_fn(InternalActivity) -> bool|
            #[trigger] agrees(is_stage_activity, stage) ==> r@ == trips_of(plan_elements@, stage),
        forall|t: int|
            0 <= t < r@.len() ==> (#[trigger] r@[t]).origin_index + 1 < r@[t].destination_index
                && r@[t].destination_index < plan_elements@.len(),
{
    let mut trips: Vec<TripSpan> = Vec::new();
    let mut origin_activity_index: Option<usize> = None;
    let mut current_index: usize = 0;
    while current_index < plan_elements.len()
        invariant
            callable(is_stage_activity),
            current_index <= plan_elements@.len(),
            origin_activity_index matches Some(o) ==> o < current_index,
            forall|t: int|
                0 <= t < trips@.len() ==> (#[trigger] trips@[t]).origin_index + 1 < trips@[t].destination_index
                    && trips@[t].destination_index < current_index,
            forall|stage: spec_fn(InternalActivity) -> bool|
                #[trigger] agrees(is_stage_activity, stage) ==> scanned(
                    plan_elements@,
                    stage,
                    current_index as int,
                    trips@,
                    origin_activity_index,
                ),
        decreases plan_elements.len() - current_index,
    {
        let ghost trips0 = trips@;
        let ghost origin0 = origin_activity_index;
        let pe = &plan_elements[current_index];
        match pe.as_activity() {
            None => {},
            Some(act) => {
                let is_stage = is_stage_activity(act);
                if !is_stage {
                    match origin_activity_index {
                        None => {
                            origin_activity_index = Some(current_index);
                        },
                        Some(origin) => {
                            if current_index - origin > 1 {
                                trips.push(
                                    TripSpan { origin_index: origin, destination_index: current_index },
                                );
                            }
                            origin_activity_index = Some(current_index);
                        },
                    }
                }
                proof {
                    assert forall|stage: spec_fn(InternalActivity) -> bool|
                        #[trigger] agrees(is_stage_activity, stage) implies scanned(
                            plan_elements@,
                            stage,
                            current_index + 1,
                            trips@,
                            origin_activity_index,
                        ) by {
                        assert(scanned(plan_elements@, stage, current_index as int, trips0, origin0));
                        assert(is_stage == stage(*act));
                    }
                }
            },
        }
        current_index = current_index + 1;
    }
    trips
}

/// Returns the spans of all trips in the plan, with the given rule for stage activities.
pub fn get_trip_spans<F>(plan_elements: &[InternalPlanElement], is_stage_activity: F) -> (r: Vec<TripSpan>)
    where
        F: Fn(&InternalActivity) -> bool,
    requires
        callable(is_stage_activity),
    ensures
        forall|stage: spec_fn(InternalActivity) -> bool|
            #[trigger] agrees(is_stage_activity, stage) ==> r@ == trips_of(plan_elements@, stage),
{
    trip_spans(plan_elements, is_stage_activity)
}


/// Returns the spans of all trips, with stage activities those whose type contains
/// "interaction".
pub fn get_trip_spans_default(plan_elements: &[InternalPlanElement]) -> (r: Vec<TripSpan>)
    ensures
        r@ == trips_of(plan_elements@, default_rule()),
{
    let rule = |a: &InternalActivity| -> (b: bool)
        ensures
            b == a.is_interaction_spec(),
        { a.is_interaction() };
    proof {
        assert(agrees(rule, default_rule()));
    }
    get_trip_spans(plan_elements, rule)
}

/// The first trip of the plan from index `start` on, with its indices in the whole plan.
pub open spec fn first_trip_from(
    plan: Seq<InternalPlanElement>,
    start: int,
    stage: spec_fn(InternalActivity) -> bool,
) -> Option<TripSpan> {
    let trips = trips_of(plan.subrange(start, plan.len() as int), stage);
    if trips.len() == 0 {
        None
    } else {
        Some(
            TripSpan {
                origin_index: (start + trips[0].origin_index) as usize,
                destination_index: (start + trips[0].destination_index) as usize,
            },
        )
    }
}

/// Elements `o` and `d` are consecutive main activities of the plan with at least one element
/// between them: exactly what a trip runs between.
pub open spec fn consecutive_mains(
    plan: Seq<InternalPlanElement>,
    stage: spec_fn(InternalActivity) -> bool,
    o: int,
    d: int,
) -> bool {
    &&& 0 <= o
    &&& o + 1 < d
    &&& d < plan.len()
    &&& is_main_activity(plan, stage, o)
    &&& is_main_activity(plan, stage, d)
    &&& forall|k: int| o < k < d ==> !#[trigger] is_main_activity(plan, stage, k)
}

/// When the scan has found no main activity yet, there is none among the elements scanned.
proof fn lemma_scan_none(plan: Seq<InternalPlanElement>, stage: spec_fn(InternalActivity) -> bool, k: int)
    requires
        0 <= k <= plan.len(),
        scan(plan, stage, k).1 == -1,
    ensures
        forall|j: int| 0 <= j < k ==> !#[trigger] is_main_activity(plan, stage, j),
    decreases k,
{
    if k > 0 {
        let (trips, origin) = scan(plan, stage, k - 1);
        match plan[k - 1] {
            InternalPlanElement::Leg(_) => {},
            InternalPlanElement::Activity(a) => {
                if !stage(a) {
                    assert(scan(plan, stage, k).1 == k - 1);
                }
            },
        }
        assert(scan(plan, stage, k - 1).1 == -1);
        lemma_scan_none(plan, stage, k - 1);
    }
}

/// Every pair of consecutive main activities among the first `k` elements is a trip that the
/// scan has found.
proof fn lemma_scan_complete(plan: Seq<InternalPlanElement>, stage: spec_fn(InternalActivity) -> bool, k: int)
    requires
        0 <= k <= plan.len(),
        plan.len() <= usize::MAX,
    ensures
        forall|o: int, d: int|
            #[trigger] consecutive_mains(plan, stage, o, d) && d < k ==> scan(plan, stage, k).0.contains(
                TripSpan { origin_index: o as usize, destination_index: d as usize },
            ),
    decreases k,
{
    if k > 0 {
        lemma_scan_complete(plan, stage, k - 1);
        lemma_scan_spans(plan, stage, k - 1);
        let (trips, origin) = scan(plan, stage, k - 1);
        let cur = k - 1;
        assert forall|o: int, d: int|
            #[trigger] consecutive_mains(plan, stage, o, d) && d < k implies scan(plan, stage, k).0.contains(
                TripSpan { origin_index: o as usize, destination_index: d as usize },
            ) by {
            let t = TripSpan { origin_index: o as usize, destination_index: d as usize };
            if d < cur {
                assert(trips.contains(t));
                let w = choose|w: int| 0 <= w < trips.len() && trips[w] == t;
                match plan[cur] {
                    InternalPlanElement::Leg(_) => {},
                    InternalPlanElement::Activity(a) => {
                        if !stage(a) && origin != -1 && cur - origin > 1 {
                            let u = TripSpan { origin_index: origin as usize, destination_index: cur as usize };
                            assert(scan(plan, stage, k).0 == trips.push(u));
                            assert(trips.push(u)[w] == t);
                        }
                    },
                }
            } else {
                assert(d == cur);
                assert(is_main_activity(plan, stage, o));
                if origin == -1 {
                    lemma_scan_none(plan, stage, cur);
                    assert(!is_main_activity(plan, stage, o));
                }
                assert(origin != -1);
                if origin < o {
                    assert(!is_main_activity(plan, stage, o));
                }
                if origin > o {
                    assert(!is_main_activity(plan, stage, origin));
                }
                assert(origin == o);
                assert(scan(plan, stage, k).0 == trips.push(t));
                assert(trips.push(t)[trips.len() as int] == t);
            }
        }
    }
}

/// The trips of a plan are exactly the pairs of consecutive main activities with at least one
/// element between them, in the order of their origins.
proof fn lemma_trips_exact(plan: Seq<InternalPlanElement>, stage: spec_fn(InternalActivity) -> bool)
    requires
        plan.len() <= usize::MAX,
    ensures
        forall|i: int|
            0 <= i < trips_of(plan, stage).len() ==> consecutive_mains(
                plan,
                stage,
                (#[trigger] trips_of(plan, stage)[i]).origin_index as int,
                trips_of(plan, stage)[i].destination_index as int,
            ),
        forall|o: int, d: int|
            #[trigger] consecutive_mains(plan, stage, o, d) ==> trips_of(plan, stage).contains(
                TripSpan { origin_index: o as usize, destination_index: d as usize },
            ),
        forall|a: int, b: int|
            0 <= a < b < trips_of(plan, stage).len() ==> trips_of(plan, stage)[a].origin_index
                < trips_of(plan, stage)[b].origin_index,
{
    lemma_trips_well_formed(plan, stage);
    lemma_scan_complete(plan, stage, plan.len() as int);
    let trips = trips_of(plan, stage);
    assert forall|i: int| 0 <= i < trips.len() implies consecutive_mains(
        plan,
        stage,
        (#[trigger] trips[i]).origin_index as int,
        trips[i].destination_index as int,
    ) by {
        assert(span_ok(plan, stage, trips[i]));
    }
    assert forall|a: int, b: int| 0 <= a < b < trips.len() implies trips[a].origin_index < trips[b].origin_index by {
        assert(span_ok(plan, stage, trips[a]));
    }
}

/// The trip found from index `start` on is the trip of the whole plan with the smallest origin
/// at or after `start`; there is none when no trip of the plan starts at or after `start`.
pub proof fn lemma_first_trip_from_is_first_of_plan(
    plan: Seq<InternalPlanElement>,
    start: int,
    stage: spec_fn(InternalActivity) -> bool,
)
    requires
        0 <= start <= plan.len(),
        plan.len() <= usize::MAX,
    ensures
        first_trip_from(plan, start, stage) matches Some(t) ==> {
            &&& trips_of(plan, stage).contains(t)
            &&& t.origin_index >= start
            &&& forall|i: int|
                0 <= i < trips_of(plan, stage).len() && (#[trigger] trips_of(plan, stage)[i]).origin_index
                    >= start ==> trips_of(plan, stage)[i].origin_index >= t.origin_index
        },
        first_trip_from(plan, start, stage) is None ==> forall|i: int|
            0 <= i < trips_of(plan, stage).len() ==> (#[trigger] trips_of(plan, stage)[i]).origin_index < start,
{
    let rest = plan.subrange(start, plan.len() as int);
    lemma_trips_exact(plan, stage);
    lemma_trips_exact(rest, stage);
    let all = trips_of(plan, stage);
    let sub = trips_of(rest, stage);
    assert forall|i: int| 0 <= i < rest.len() implies #[trigger] is_main_activity(rest, stage, i)
        == is_main_activity(plan, stage, start + i) by {
        assert(rest[i] == plan[start + i]);
    }
    // A trip of the plan that starts at or after `start` is a trip of the rest, shifted.
    assert forall|i: int| 0 <= i < all.len() && (#[trigger] all[i]).origin_index >= start implies sub.contains(
        TripSpan {
            origin_index: (all[i].origin_index - start) as usize,
            destination_index: (all[i].destination_index - start) as usize,
        },
    ) by {
        let o = all[i].origin_index as int;
        let d = all[i].destination_index as int;
        assert(consecutive_mains(plan, stage, o, d));
        assert(is_main_activity(rest, stage, o - start));
        assert(is_main_activity(rest, stage, d - start));
        assert forall|k: int| o - start < k < d - start implies !#[trigger] is_main_activity(rest, stage, k) by {
            assert(!is_main_activity(plan, stage, start + k));
        }
        assert(consecutive_mains(rest, stage, o - start, d - start));
    }
    if sub.len() > 0 {
        let o0 = sub[0].origin_index as int;
        let d0 = sub[0].destination_index as int;
        let t = TripSpan { origin_index: (start + o0) as usize, destination_index: (start + d0) as usize };
        assert(consecutive_mains(rest, stage, o0, d0));
        assert(is_main_activity(plan, stage, start + o0));
        assert(is_main_activity(plan, stage, start + d0));
        assert forall|k: int| start + o0 < k < start + d0 implies !#[trigger] is_main_activity(plan, stage, k) by {
            assert(!is_main_activity(rest, stage, k - start));
        }
        assert(consecutive_mains(plan, stage, start + o0, start + d0));
        assert(first_trip_from(plan, start, stage) == Some(t));
        assert forall|i: int|
            0 <= i < all.len() && (#[trigger] all[i]).origin_index >= start implies all[i].origin_index
            >= t.origin_index by {
            let u = TripSpan {
                origin_index: (all[i].origin_index - start) as usize,
                destination_index: (all[i].destination_index - start) as usize,
            };
            assert(sub.contains(u));
            let j = choose|j: int| 0 <= j < sub.len() && sub[j] == u;
            if j > 0 {
                assert(sub[0].origin_index < sub[j].origin_index);
            }
        }
    } else {
        assert forall|i: int| 0 <= i < all.len() implies (#[trigger] all[i]).origin_index < start by {
            if all[i].origin_index >= start {
                let u = TripSpan {
                    origin_index: (all[i].origin_index - start) as usize,
                    destination_index: (all[i].destination_index - start) as usize,
                };
                assert(sub.contains(u));
            }
        }
    }
}

/// Finds the first trip span that starts at or after the given index.
pub fn find_trip_span_starting_at_activity<F>(
    plan_elements: &[InternalPlanElement],
    start_index: usize,
    is_stage_activity: F,
) -> (r: Option<TripSpan>)
    where
        F: Fn(&InternalActivity) -> bool,
    requires
        callable(is_stage_activity),
        start_index <= plan_elements@.len(),
    ensures
        forall|stage: spec_fn(InternalActivity) -> bool|
            #[trigger] agrees(is_stage_activity, stage) ==> r == first_trip_from(
                plan_elements@,
                start_index as int,
                stage,
            ),
{
    let rest = vstd::slice::slice_subrange(plan_elements, start_index, plan_elements.len());
    let spans = trip_spans(rest, is_stage_activity);
    if spans.len() == 0 {
        return None;
    }
    let span = spans[0];
    Some(
        TripSpan {
            origin_index: start_index + span.origin_index,
            destination_index: start_index + span.destination_index,
        },
    )
}


/// Finds the first trip span that starts at or after the given index, with stage activities
/// those whose type contains "interaction".
pub fn find_trip_span_starting_at_activity_default(
    plan_elements: &[InternalPlanElement],
    start_index: usize,
) -> (r: Option<TripSpan>)
    requires
        start_index <= plan_elements@.len(),
    ensures
        r == first_trip_from(plan_elements@, start_index as int, default_rule()),
{
    let rule = |a: &InternalActivity| -> (b: bool)
        ensures
            b == a.is_interaction_spec(),
        { a.is_interaction() };
    proof {
        assert(agrees(rule, default_rule()));
    }
    find_trip_span_starting_at_activity(plan_elements, start_index, rule)
}

/// The activity at the given index of the plan.
fn activity_at(plan_elements: &[InternalPlanElement], index: usize) -> (r: &InternalActivity)
    requires
        index < plan_elements@.len(),
        plan_elements@[index as int] is Activity,
    ensures
        plan_elements@[index as int] == InternalPlanElement::Activity(*r),
{
    match &plan_elements[index] {
        InternalPlanElement::Activity(activity) => activity,
        InternalPlanElement::Leg(_) => vstd::pervasive::unreached(),
    }
}

/// Mutable access to the activity at the given index of the plan.
fn activity_at_mut(plan_elements: &mut [InternalPlanElement], index: usize) -> (r: &mut InternalActivity)
    requires
        index < old(plan_elements)@.len(),
        old(plan_elements)@[index as int] is Activity,
    ensures
        old(plan_elements)@[index as int] == InternalPlanElement::Activity(*r),
        final(plan_elements)@ == old(plan_elements)@.update(
            index as int,
            InternalPlanElement::Activity(*final(r)),
        ),
{
    match &mut plan_elements[index] {
        InternalPlanElement::Activity(activity) => activity,
        InternalPlanElement::Leg(_) => vstd::pervasive::unreached(),
    }
}


impl TripSpan {
    /// The origin activity of this trip.
    pub fn origin<'a>(&self, plan_elements: &'a [InternalPlanElement]) -> (r: &'a InternalActivity)
        requires
            self.origin_index < plan_elements@.len(),
            plan_elements@[self.origin_index as int] is Activity,
        ensures
            plan_elements@[self.origin_index as int] == InternalPlanElement::Activity(*r),
    {
        activity_at(plan_elements, self.origin_index)
    }

    /// The destination activity of this trip.
    pub fn destination<'a>(&self, plan_elements: &'a [InternalPlanElement]) -> (r: &'a InternalActivity)
        requires
            self.destination_index < plan_elements@.len(),
            plan_elements@[self.destination_index as int] is Activity,
        ensures
            plan_elements@[self.destination_index as int] == InternalPlanElement::Activity(*r),
    {
        activity_at(plan_elements, self.destination_index)
    }

    /// The plan elements between origin and destination.
    pub fn trip_elements<'a>(&self, plan_elements: &'a [InternalPlanElement]) -> (r: &'a [InternalPlanElement])
        requires
            self.origin_index < self.destination_index <= plan_elements@.len(),
        ensures
            r@ == plan_elements@.subrange(self.origin_index + 1, self.destination_index as int),
    {
        vstd::slice::slice_subrange(plan_elements, self.origin_index + 1, self.destination_index)
    }

    /// Mutable access to the origin activity.
    pub fn origin_mut<'a>(&self, plan_elements: &'a mut [InternalPlanElement]) -> (r: &'a mut InternalActivity)
        requires
            self.origin_index < old(plan_elements)@.len(),
            old(plan_elements)@[self.origin_index as int] is Activity,
        ensures
            old(plan_elements)@[self.origin_index as int] == InternalPlanElement::Activity(*r),
            final(plan_elements)@ == old(plan_elements)@.update(
                self.origin_index as int,
                InternalPlanElement::Activity(*final(r)),
            ),
    {
        activity_at_mut(plan_elements, self.origin_index)
    }

    /// Mutable access to the destination activity.
    pub fn destination_mut<'a>(&self, plan_elements: &'a mut [InternalPlanElement]) -> (r: &'a mut InternalActivity)
        requires
            self.destination_index < old(plan_elements)@.len(),
            old(plan_elements)@[self.destination_index as int] is Activity,
        ensures
            old(plan_elements)@[self.destination_index as int] == InternalPlanElement::Activity(*r),
            final(plan_elements)@ == old(plan_elements)@.update(
                self.destination_index as int,
                InternalPlanElement::Activity(*final(r)),
            ),
    {
        activity_at_mut(plan_elements, self.destination_index)
    }

    /// Mutable access to the plan elements between origin and destination.
    pub fn trip_elements_mut<'a>(&self, plan_elements: &'a mut [InternalPlanElement]) -> (r: &'a mut [InternalPlanElement])
        requires
            self.origin_index < self.destination_index <= old(plan_elements)@.len(),
        ensures
            r@ == old(plan_elements)@.subrange(self.origin_index + 1, self.destination_index as int),
            final(plan_elements)@ == old(plan_elements)@.subrange(0, self.origin_index + 1) + final(r)@
                + old(plan_elements)@.subrange(
                self.destination_index as int,
                old(plan_elements)@.len() as int,
            ),
    {
        let (left, _right) = plan_elements.split_at_mut(self.destination_index);
        let (_before, middle) = left.split_at_mut(self.origin_index + 1);
        middle
    }

    /// Replaces the plan elements between origin and destination.
    pub fn replace_trip_elements(
        &self,
        plan_elements: &mut Vec<InternalPlanElement>,
        new_elements: Vec<InternalPlanElement>,
    )
        requires
            self.origin_index < self.destination_index <= old(plan_elements)@.len(),
        ensures
            final(plan_elements)@ == old(plan_elements)@.subrange(0, self.origin_index + 1) + new_elements@
                + old(plan_elements)@.subrange(
                self.destination_index as int,
                old(plan_elements)@.len() as int,
            ),
    {
        let mut new_elements = new_elements;
        let mut tail = plan_elements.split_off(self.destination_index);
        plan_elements.truncate(self.origin_index + 1);
        plan_elements.append(&mut new_elements);
        plan_elements.append(&mut tail);
    }
}

} // verus!
