use vstd::prelude::*;

verus! {

broadcast use vstd::seq_lib::group_to_multiset_ensures;

/// The kinds of simulation events that drive the buffer's state machine.
#[derive(Debug, Clone, Copy, PartialEq, Eq, Structural)]
pub enum EventType {
    ActivityEnd,
    ActivityStart,
    LinkEnter,
    PersonArrival,
    PersonDeparture,
    PersonEntersVehicle,
    PersonLeavesVehicle,
    TeleportationArrival,
    VehicleEntersTraffic,
    VehicleLeavesTraffic,
}

/// A state of the machine: its number, and whether reaching it releases the buffered events.
#[derive(Debug, Clone, Copy, PartialEq, Eq, Structural)]
pub struct State(pub u16, pub bool);

/// The map from state names to states that a list of (name, state) pairs describes; a later
/// pair overrides an earlier one with the same name.
pub open spec fn names_map(s: Seq<(String, State)>) -> Map<Seq<char>, State>
    decreases s.len(),
{
    if s.len() == 0 {
        Map::empty()
    } else {
        names_map(s.drop_last()).insert(s.last().0@, s.last().1)
    }
}

/// The transition map that a list of (state, event type, new state) triples describes; a
/// later triple overrides an earlier one.
pub open spec fn trans_map(s: Seq<(State, EventType, State)>) -> Map<(State, EventType), State>
    decreases s.len(),
{
    if s.len() == 0 {
        Map::empty()
    } else {
        trans_map(s.drop_last()).insert((s.last().0, s.last().1), s.last().2)
    }
}

/// The keys of the entries never decrease.
pub open spec fn keys_sorted<E>(s: Seq<(u32, E)>) -> bool {
    forall|i: int, j: int| 0 <= i < j < s.len() ==> s[i].0 <= s[j].0
}

/// `r` holds the events of the entries in an order in which their keys never decrease.
pub open spec fn released_in_key_order<E>(entries: Seq<(u32, E)>, r: Seq<E>) -> bool {
    exists|s: Seq<(u32, E)>|
        #![trigger s.to_multiset()]
        s.to_multiset() == entries.to_multiset() && keys_sorted(s) && r == s.map_values(
            |e: (u32, E)| e.1,
        )
}

/// Entries after position `i` that do not carry the name leave its meaning as the prefix gave
/// it.
proof fn lemma_names_suffix(s: Seq<(String, State)>, i: int, name: Seq<char>)
    requires
        0 <= i <= s.len(),
        forall|k: int| i <= k < s.len() ==> (#[trigger] s[k]).0@ != name,
    ensures
        names_map(s).contains_key(name) == names_map(s.subrange(0, i)).contains_key(name),
        names_map(s).contains_key(name) ==> names_map(s)[name] == names_map(s.subrange(0, i))[name],
    decreases s.len() - i,
{
    if i < s.len() {
        lemma_names_suffix(s.drop_last(), i, name);
        assert(s.drop_last().subrange(0, i) =~= s.subrange(0, i));
        assert(s[s.len() - 1] == s.last());
    } else {
        assert(s.subrange(0, i) =~= s);
    }
}

/// Triples after position `i` that do not carry the key leave its meaning as the prefix gave
/// it.
proof fn lemma_trans_suffix(s: Seq<(State, EventType, State)>, i: int, key: (State, EventType))
    requires
        0 <= i <= s.len(),
        forall|k: int| i <= k < s.len() ==> ((#[trigger] s[k]).0, s[k].1) != key,
    ensures
        trans_map(s).contains_key(key) == trans_map(s.subrange(0, i)).contains_key(key),
        trans_map(s).contains_key(key) ==> trans_map(s)[key] == trans_map(s.subrange(0, i))[key],
    decreases s.len() - i,
{
    if i < s.len() {
        lemma_trans_suffix(s.drop_last(), i, key);
        assert(s.drop_last().subrange(0, i) =~= s.subrange(0, i));
        assert(s[s.len() - 1] == s.last());
    } else {
        assert(s.subrange(0, i) =~= s);
    }
}

/// The state that the name stands for, if any: the last pair with that name.
fn lookup_name(names: &Vec<(String, State)>, name: &String) -> (r: Option<State>)
    ensures
        names_map(names@).contains_key(name@) ==> r == Some(names_map(names@)[name@]),
        !names_map(names@).contains_key(name@) ==> r is None,
{
    let mut i = names.len();
    while i > 0
        invariant
            i <= names@.len(),
            forall|k: int| i <= k < names@.len() ==> (#[trigger] names@[k]).0@ != name@,
        decreases i,
    {
        if names[i - 1].0 == *name {
            proof {
                lemma_names_suffix(names@, i as int, name@);
                assert(names@.subrange(0, i as int).drop_last() =~= names@.subrange(0, i - 1));
            }
            return Some(names[i - 1].1);
        }
        i = i - 1;
    }
    proof {
        lemma_names_suffix(names@, 0, name@);
    }
    None
}

/// The new state of the transition from `state` on `event_type`, if there is one: the last
/// triple with that key.
fn lookup_transition(
    transitions: &Vec<(State, EventType, State)>,
    state: State,
    event_type: EventType,
) -> (r: Option<State>)
    ensures
        trans_map(transitions@).contains_key((state, event_type)) ==> r == Some(
            trans_map(transitions@)[(state, event_type)],
        ),
        !trans_map(transitions@).contains_key((state, event_type)) ==> r is None,
{
    let mut i = transitions.len();
    while i > 0
        invariant
            i <= transitions@.len(),
            forall|k: int|
                i <= k < transitions@.len() ==> ((#[trigger] transitions@[k]).0, transitions@[k].1) != (
                    state,
                    event_type,
                ),
        decreases i,
    {
        let t = &transitions[i - 1];
        if t.0 == state && t.1 == event_type {
            proof {
                lemma_trans_suffix(transitions@, i as int, (state, event_type));
                assert(transitions@.subrange(0, i as int).drop_last() =~= transitions@.subrange(0, i - 1));
            }
            return Some(t.2);
        }
        i = i - 1;
    }
    proof {
        lemma_trans_suffix(transitions@, 0, (state, event_type));
    }
    None
}


/// Takes all entries and returns their events in an order in which their keys never
/// decrease.
fn release_sorted<E>(entries: Vec<(u32, E)>) -> (r: Vec<E>)
    ensures
        released_in_key_order(entries@, r@),
{
    let ghost all = entries@;
    let mut entries = entries;
    // `desc` holds the entries taken so far, with keys that never increase.
    let mut desc: Vec<(u32, E)> = Vec::new();
    while entries.len() > 0
        invariant
            entries@.to_multiset().add(desc@.to_multiset()) == all.to_multiset(),
            forall|i: int, j: int| 0 <= i < j < desc@.len() ==> desc@[i].0 >= desc@[j].0,
        decreases entries.len(),
    {
        let ghost e0 = entries@;
        let x = entries.pop().unwrap();
        proof {
            assert(e0 =~= entries@.push(x));
        }
        let mut pos: usize = 0;
        while pos < desc.len() && desc[pos].0 >= x.0
            invariant
                pos <= desc@.len(),
                forall|k: int| 0 <= k < pos ==> desc@[k].0 >= x.0,
            decreases desc.len() - pos,
        {
            pos = pos + 1;
        }
        let ghost d0 = desc@;
        desc.insert(pos, x);
        proof {
            assert(desc@ == d0.insert(pos as int, x));
            vstd::seq_lib::to_multiset_insert(d0, pos as int, x);
            assert forall|i: int, j: int| 0 <= i < j < desc@.len() implies desc@[i].0 >= desc@[j].0 by {
                if pos < d0.len() {
                    assert(d0[pos as int].0 < x.0);
                }
            }
        }
    }
    proof {
        assert(entries@ =~= Seq::<(u32, E)>::empty());
        assert(desc@.to_multiset() =~= all.to_multiset());
    }
    let ghost d_all = desc@;
    let ghost mut popped: Seq<(u32, E)> = Seq::empty();
    let mut r: Vec<E> = Vec::new();
    while desc.len() > 0
        invariant
            desc@.to_multiset().add(popped.to_multiset()) == all.to_multiset(),
            forall|i: int, j: int| 0 <= i < j < desc@.len() ==> desc@[i].0 >= desc@[j].0,
            keys_sorted(popped),
            forall|i: int, j: int| 0 <= i < popped.len() && 0 <= j < desc@.len() ==> popped[i].0 <= desc@[j].0,
            r@ == popped.map_values(|e: (u32, E)| e.1),
        decreases desc.len(),
    {
        let ghost d0 = desc@;
        let x = desc.pop().unwrap();
        proof {
            assert(d0 =~= desc@.push(x));
            assert(popped.push(x).map_values(|e: (u32, E)| e.1) =~= popped.map_values(|e: (u32, E)| e.1).push(x.1));
            popped = popped.push(x);
        }
        r.push(x.1);
    }
    proof {
        assert(desc@ =~= Seq::<(u32, E)>::empty());
        assert(popped.to_multiset() =~= all.to_multiset());
    }
    r
}

/// A buffer that keeps scoring events in order across partitions. A state machine, driven by
/// the kinds of the arriving events, decides when the buffered events can be released: on a
/// transition into a releasing state all buffered events and the new one leave the buffer,
/// ordered by their sorting keys; otherwise the new event is buffered.
pub struct StateMachineBuffer<E> {
    pub n: u16,
    pub state_name2state: Vec<(String, State)>,
    pub transitions: Vec<(State, EventType, State)>,
    pub current_state: State,
    pub buffer: Vec<(u32, E)>,
}

impl<E> StateMachineBuffer<E> {
    /// Creates a machine in the state named "safe", with an empty buffer.
    fn new(
        n: u16,
        state_name2state: Vec<(String, State)>,
        transitions: Vec<(State, EventType, State)>,
    ) -> (m: Self)
        requires
            names_map(state_name2state@).contains_key(safe_name()),
        ensures
            m.n == n,
            m.state_name2state@ == state_name2state@,
            m.transitions@ == transitions@,
            m.current_state == names_map(state_name2state@)[safe_name()],
            m.buffer@.len() == 0,
    {
        let safe = String::from_str("safe");
        proof {
            reveal_strlit("safe");
            assert(safe@ =~= safe_name());
        }
        let starting_state = lookup_name(&state_name2state, &safe).unwrap();
        Self {
            n,
            state_name2state,
            transitions,
            current_state: starting_state,
            buffer: Vec::new(),
        }
    }

    /// The state that an event of the given kind leads to from the current state, if the
    /// machine has such a transition.
    pub fn next_state(&self, event_type: EventType) -> (r: Option<State>)
        ensures
            trans_map(self.transitions@).contains_key((self.current_state, event_type)) ==> r == Some(
                trans_map(self.transitions@)[(self.current_state, event_type)],
            ),
            !trans_map(self.transitions@).contains_key((self.current_state, event_type)) ==> r is None,
    {
        lookup_transition(&self.transitions, self.current_state, event_type)
    }

    /// Feeds an event with its sorting key and kind to the machine, which moves to the state
    /// that the transition leads to, and returns the events that are released: none while the
    /// new state does not release (the event is buffered), else all buffered events and the new
    /// one, ordered by their keys.
    pub fn process_event(&mut self, sorting_key: u32, event_type: EventType, event: E) -> (r: Vec<E>)
        requires
            trans_map(old(self).transitions@).contains_key((old(self).current_state, event_type)),
        ensures
            ({
                let new_state = trans_map(old(self).transitions@)[(old(self).current_state, event_type)];
                let arrived = old(self).buffer@.push((sorting_key, event));
                &&& new_state.1 ==> {
                    &&& final(self).current_state == new_state
                    &&& final(self).buffer@.len() == 0
                    &&& released_in_key_order(arrived, r@)
                }
                &&& !new_state.1 ==> {
                    &&& final(self).current_state == new_state
                    &&& final(self).buffer@ == arrived
                    &&& r@.len() == 0
                }
            }),
            final(self).n == old(self).n,
            final(self).state_name2state@ == old(self).state_name2state@,
            final(self).transitions@ == old(self).transitions@,
    {
        let new_state = lookup_transition(&self.transitions, self.current_state, event_type).unwrap();
        if new_state.1 {
            self.current_state = new_state;
            if self.buffer.len() == 0 {
                let ghost arrived = self.buffer@.push((sorting_key, event));
                proof {
                    let s = seq![(sorting_key, event)];
                    assert(s =~= arrived);
                    assert(s.map_values(|e: (u32, E)| e.1) =~= seq![event]);
                }
                let mut r: Vec<E> = Vec::new();
                r.push(event);
                proof {
                    assert(r@ =~= arrived.map_values(|e: (u32, E)| e.1));
                    assert(keys_sorted(arrived));
                    assert(released_in_key_order(arrived, r@)) by {
                        assert(arrived.to_multiset() == arrived.to_multiset());
                    }
                }
                return r;
            }
            self.buffer.push((sorting_key, event));
            let mut taken: Vec<(u32, E)> = Vec::new();
            std::mem::swap(&mut taken, &mut self.buffer);
            return release_sorted(taken);
        }
        self.current_state = new_state;
        self.buffer.push((sorting_key, event));
        Vec::new()
    }
}

/// The name of the machine's starting state.
pub open spec fn safe_name() -> Seq<char> {
    seq!['s', 'a', 'f', 'e']
}


/// Builds a state machine buffer: named states, then transitions between them.
pub struct StateMachineBufferBuilder {
    pub n: u16,
    pub state_name2state: Vec<(String, State)>,
    pub transitions: Vec<(State, EventType, State)>,
}

/// The names of the given states, followed by "safe".
pub open spec fn with_safe(states: Seq<&'static str>) -> Seq<Seq<char>> {
    states.map_values(|s: &'static str| s@).push(safe_name())
}

impl StateMachineBufferBuilder {
    /// Starts a builder with the given states and the state "safe" after them, numbered in that
    /// order (as 16-bit numbers); only "safe" releases the buffered events.
    pub fn new(states: Vec<&'static str>) -> (b: Self)
        ensures
            b.n == 0,
            b.transitions@.len() == 0,
            b.state_name2state@.len() == states@.len() + 1,
            forall|i: int|
                0 <= i < b.state_name2state@.len() ==> (#[trigger] b.state_name2state@[i]).0@
                    == with_safe(states@)[i] && b.state_name2state@[i].1 == State(
                    i as u16,
                    i == states@.len(),
                ),
    {
        let mut states = states;
        states.push("safe");
        proof {
            reveal_strlit("safe");
        }
        let mut names: Vec<(String, State)> = Vec::new();
        let mut i: usize = 0;
        while i < states.len()
            invariant
                states@.len() >= 1,
                states@.last()@ == safe_name(),
                i <= states@.len(),
                names@.len() == i,
                forall|k: int|
                    0 <= k < i ==> (#[trigger] names@[k]).0@ == states@[k]@ && names@[k].1 == State(
                        k as u16,
                        k == states@.len() - 1,
                    ),
            decreases states.len() - i,
        {
            let name = states[i].to_owned();
            let releasing = i + 1 == states.len();
            names.push((name, State(i as u16, releasing)));
            i = i + 1;
        }
        proof {
            let orig = states@.drop_last();
            assert forall|k: int| 0 <= k < names@.len() implies (#[trigger] names@[k]).0@ == with_safe(
                orig,
            )[k] by {
                if k < orig.len() {
                    assert(states@[k] == orig[k]);
                }
            }
        }
        Self { n: 0, state_name2state: names, transitions: Vec::new() }
    }

    /// Adds (or redefines) a state under the next number.
    pub fn add_state(self, name: &'static str, emit: bool) -> (b: Self)
        requires
            self.n < u16::MAX,
        ensures
            b.n == self.n + 1,
            b.state_name2state@.len() == self.state_name2state@.len() + 1,
            b.state_name2state@.drop_last() == self.state_name2state@,
            b.state_name2state@.last().0@ == name@,
            b.state_name2state@.last().1 == State(self.n, emit),
            names_map(b.state_name2state@) == names_map(self.state_name2state@).insert(name@, State(self.n, emit)),
            b.transitions@ == self.transitions@,
    {
        let mut b = self;
        let s = State(b.n, emit);
        b.state_name2state.push((name.to_owned(), s));
        b.n = b.n + 1;
        proof {
            assert(b.state_name2state@.drop_last() =~= self.state_name2state@);
        }
        b
    }

    /// Adds the transition from one named state to another on the given kind of event.
    pub fn add_transition(self, state_name: &str, event_type: EventType, new_state_name: &str) -> (b: Self)
        requires
            names_map(self.state_name2state@).contains_key(state_name@),
            names_map(self.state_name2state@).contains_key(new_state_name@),
            !trans_map(self.transitions@).contains_key(
                (names_map(self.state_name2state@)[state_name@], event_type),
            ),
        ensures
            b.n == self.n,
            b.state_name2state@ == self.state_name2state@,
            b.transitions@ == self.transitions@.push(
                (
                    names_map(self.state_name2state@)[state_name@],
                    event_type,
                    names_map(self.state_name2state@)[new_state_name@],
                ),
            ),
    {
        let mut b = self;
        let from = lookup_name(&b.state_name2state, &state_name.to_owned()).unwrap();
        let to = lookup_name(&b.state_name2state, &new_state_name.to_owned()).unwrap();
        b.transitions.push((from, event_type, to));
        b
    }

    /// The state with the given name, if there is one.
    pub fn state_of(&self, name: &str) -> (r: Option<State>)
        ensures
            names_map(self.state_name2state@).contains_key(name@) ==> r == Some(
                names_map(self.state_name2state@)[name@],
            ),
            !names_map(self.state_name2state@).contains_key(name@) ==> r is None,
    {
        lookup_name(&self.state_name2state, &name.to_owned())
    }

    /// The state that an event of the given kind leads to from the given state, if a
    /// transition has been added for them.
    pub fn transition_from(&self, state: State, event_type: EventType) -> (r: Option<State>)
        ensures
            trans_map(self.transitions@).contains_key((state, event_type)) ==> r == Some(
                trans_map(self.transitions@)[(state, event_type)],
            ),
            !trans_map(self.transitions@).contains_key((state, event_type)) ==> r is None,
    {
        lookup_transition(&self.transitions, state, event_type)
    }

    /// The machine with the built states and transitions, starting in the state "safe".
    pub fn build<E>(self) -> (m: StateMachineBuffer<E>)
        requires
            names_map(self.state_name2state@).contains_key(safe_name()),
        ensures
            m.n == self.n,
            m.state_name2state@ == self.state_name2state@,
            m.transitions@ == self.transitions@,
            m.current_state == names_map(self.state_name2state@)[safe_name()],
            m.buffer@.len() == 0,
    {
        StateMachineBuffer::new(self.n, self.state_name2state, self.transitions)
    }
}


/// The transitions of the default machine, with its states numbered in the order Departure,
/// D.1, D.2, D.3, Arrival, A.1, A.2, safe.
pub open spec fn default_transition_table() -> Seq<(State, EventType, State)> {
    seq![
        (State(7u16, true), EventType::ActivityEnd, State(0u16, false)),
        (State(7u16, true), EventType::VehicleLeavesTraffic, State(4u16, false)),
        (State(7u16, true), EventType::PersonLeavesVehicle, State(4u16, false)),
        (State(7u16, true), EventType::PersonArrival, State(4u16, false)),
        (State(7u16, true), EventType::ActivityStart, State(4u16, false)),
        (State(0u16, false), EventType::PersonDeparture, State(1u16, false)),
        (State(1u16, false), EventType::PersonEntersVehicle, State(2u16, false)),
        (State(1u16, false), EventType::VehicleLeavesTraffic, State(2u16, false)),
        (State(1u16, false), EventType::TeleportationArrival, State(7u16, true)),
        (State(2u16, false), EventType::PersonEntersVehicle, State(3u16, false)),
        (State(2u16, false), EventType::VehicleEntersTraffic, State(3u16, false)),
        (State(3u16, false), EventType::LinkEnter, State(7u16, true)),
        (State(3u16, false), EventType::VehicleLeavesTraffic, State(4u16, false)),
        (State(3u16, false), EventType::PersonLeavesVehicle, State(4u16, false)),
        (State(3u16, false), EventType::PersonArrival, State(4u16, false)),
        (State(3u16, false), EventType::ActivityStart, State(4u16, false)),
        (State(4u16, false), EventType::VehicleLeavesTraffic, State(5u16, false)),
        (State(4u16, false), EventType::PersonLeavesVehicle, State(5u16, false)),
        (State(4u16, false), EventType::PersonArrival, State(5u16, false)),
        (State(4u16, false), EventType::ActivityStart, State(5u16, false)),
        (State(5u16, false), EventType::VehicleLeavesTraffic, State(6u16, false)),
        (State(5u16, false), EventType::PersonLeavesVehicle, State(6u16, false)),
        (State(5u16, false), EventType::PersonArrival, State(6u16, false)),
        (State(5u16, false), EventType::ActivityStart, State(6u16, false)),
        (State(6u16, false), EventType::VehicleLeavesTraffic, State(7u16, true)),
        (State(6u16, false), EventType::PersonLeavesVehicle, State(7u16, true)),
        (State(6u16, false), EventType::PersonArrival, State(7u16, true)),
        (State(6u16, false), EventType::ActivityStart, State(7u16, true))
    ]
}

/// The states of the default machine by name; only "safe" releases the buffer.
pub open spec fn default_states() -> Map<Seq<char>, State> {
    map![
        "Departure"@ => State(0u16, false),
        "D.1"@ => State(1u16, false),
        "D.2"@ => State(2u16, false),
        "D.3"@ => State(3u16, false),
        "Arrival"@ => State(4u16, false),
        "A.1"@ => State(5u16, false),
        "A.2"@ => State(6u16, false),
        "safe"@ => State(7u16, true)
    ]
}

/// The key of a transition triple.
pub open spec fn key_of(t: (State, EventType, State)) -> (State, EventType) {
    (t.0, t.1)
}

/// A key that no triple carries is not in the transition map.
proof fn lemma_trans_absent(s: Seq<(State, EventType, State)>, key: (State, EventType))
    requires
        forall|k: int| 0 <= k < s.len() ==> key_of(#[trigger] s[k]) != key,
    ensures
        !trans_map(s).contains_key(key),
    decreases s.len(),
{
    if s.len() > 0 {
        assert forall|k: int| 0 <= k < s.drop_last().len() implies key_of(#[trigger] s.drop_last()[k]) != key by {
            assert(s.drop_last()[k] == s[k]);
        }
        lemma_trans_absent(s.drop_last(), key);
        assert(s[s.len() - 1] == s.last());
    }
}


/// The default states are found under their names.
proof fn lemma_default_states()
    ensures
        default_states().contains_key("Departure"@) && default_states()["Departure"@] == State(0u16, false),
        default_states().contains_key("D.1"@) && default_states()["D.1"@] == State(1u16, false),
        default_states().contains_key("D.2"@) && default_states()["D.2"@] == State(2u16, false),
        default_states().contains_key("D.3"@) && default_states()["D.3"@] == State(3u16, false),
        default_states().contains_key("Arrival"@) && default_states()["Arrival"@] == State(4u16, false),
        default_states().contains_key("A.1"@) && default_states()["A.1"@] == State(5u16, false),
        default_states().contains_key("A.2"@) && default_states()["A.2"@] == State(6u16, false),
        default_states().contains_key("safe"@) && default_states()["safe"@] == State(7u16, true),
{
    reveal_strlit("Departure");
    reveal_strlit("D.1");
    reveal_strlit("D.2");
    reveal_strlit("D.3");
    reveal_strlit("Arrival");
    reveal_strlit("A.1");
    reveal_strlit("A.2");
    reveal_strlit("safe");
    assert("Departure"@.len() != "D.1"@.len());
    assert("Departure"@.len() != "D.2"@.len());
    assert("Departure"@.len() != "D.3"@.len());
    assert("Departure"@.len() != "Arrival"@.len());
    assert("Departure"@.len() != "A.1"@.len());
    assert("Departure"@.len() != "A.2"@.len());
    assert("Departure"@.len() != "safe"@.len());
    assert("D.1"@[2] != "D.2"@[2]);
    assert("D.1"@[2] != "D.3"@[2]);
    assert("D.1"@.len() != "Arrival"@.len());
    assert("D.1"@[0] != "A.1"@[0]);
    assert("D.1"@[0] != "A.2"@[0]);
    assert("D.1"@.len() != "safe"@.len());
    assert("D.2"@[2] != "D.3"@[2]);
    assert("D.2"@.len() != "Arrival"@.len());
    assert("D.2"@[0] != "A.1"@[0]);
    assert("D.2"@[0] != "A.2"@[0]);
    assert("D.2"@.len() != "safe"@.len());
    assert("D.3"@.len() != "Arrival"@.len());
    assert("D.3"@[0] != "A.1"@[0]);
    assert("D.3"@[0] != "A.2"@[0]);
    assert("D.3"@.len() != "safe"@.len());
    assert("Arrival"@.len() != "A.1"@.len());
    assert("Arrival"@.len() != "A.2"@.len());
    assert("Arrival"@.len() != "safe"@.len());
    assert("A.1"@[2] != "A.2"@[2]);
    assert("A.1"@.len() != "safe"@.len());
    assert("A.2"@.len() != "safe"@.len());
}

impl<E> StateMachineBuffer<E> {
    /// The machine that orders the events of departures and arrivals: states Departure, D.1,
    /// D.2, D.3, Arrival, A.1, A.2 and safe, of which only safe releases, with the transitions of
    /// `default_transition_table`.
    pub fn default_state_machine_buffer() -> (m: StateMachineBuffer<E>)
        ensures
            m.n == 0,
            names_map(m.state_name2state@) == default_states(),
            m.transitions@ == default_transition_table(),
            m.current_state == State(7u16, true),
            m.buffer@.len() == 0,
    {
        let states = vec!["Departure", "D.1", "D.2", "D.3", "Arrival", "A.1", "A.2"];
        let b = StateMachineBufferBuilder::new(states);
        proof {
            lemma_default_states();
        reveal_strlit("Departure");
        reveal_strlit("D.1");
        reveal_strlit("D.2");
        reveal_strlit("D.3");
        reveal_strlit("Arrival");
        reveal_strlit("A.1");
        reveal_strlit("A.2");
        reveal_strlit("safe");
            reveal_with_fuel(names_map, 9);
            let names = b.state_name2state@;
            assert(names_map(names) =~= default_states()) by {
                assert(names.len() == 8);
                assert(names.drop_last().drop_last().drop_last().drop_last().drop_last().drop_last().drop_last().drop_last().len() == 0);
                let ss = with_safe(states@);
                assert(ss =~= seq!["Departure"@, "D.1"@, "D.2"@, "D.3"@, "Arrival"@, "A.1"@, "A.2"@, safe_name()]);
                assert(names[0].0@ == "Departure"@ && names[0].1 == State(0u16, false));
                assert(names[1].0@ == "D.1"@ && names[1].1 == State(1u16, false));
                assert(names[2].0@ == "D.2"@ && names[2].1 == State(2u16, false));
                assert(names[3].0@ == "D.3"@ && names[3].1 == State(3u16, false));
                assert(names[4].0@ == "Arrival"@ && names[4].1 == State(4u16, false));
                assert(names[5].0@ == "A.1"@ && names[5].1 == State(5u16, false));
                assert(names[6].0@ == "A.2"@ && names[6].1 == State(6u16, false));
                assert(names[7].0@ == "safe"@ && names[7].1 == State(7u16, true));
            }
        }
        let b = b.add_transition("safe", EventType::ActivityEnd, "Departure");
        proof {
            assert(names_map(b.state_name2state@)["safe"@] == State(7u16, true));
            lemma_trans_absent(b.transitions@, (State(7u16, true), EventType::VehicleLeavesTraffic));
        }
        let b = b.add_transition("safe", EventType::VehicleLeavesTraffic, "Arrival");
        proof {
            assert(names_map(b.state_name2state@)["safe"@] == State(7u16, true));
            lemma_trans_absent(b.transitions@, (State(7u16, true), EventType::PersonLeavesVehicle));
        }
        let b = b.add_transition("safe", EventType::PersonLeavesVehicle, "Arrival");
        proof {
            assert(names_map(b.state_name2state@)["safe"@] == State(7u16, true));
            lemma_trans_absent(b.transitions@, (State(7u16, true), EventType::PersonArrival));
        }
        let b = b.add_transition("safe", EventType::PersonArrival, "Arrival");
        proof {
            assert(names_map(b.state_name2state@)["safe"@] == State(7u16, true));
            lemma_trans_absent(b.transitions@, (State(7u16, true), EventType::ActivityStart));
        }
        let b = b.add_transition("safe", EventType::ActivityStart, "Arrival");
        proof {
            assert(names_map(b.state_name2state@)["Departure"@] == State(0u16, false));
            lemma_trans_absent(b.transitions@, (State(0u16, false), EventType::PersonDeparture));
        }
        let b = b.add_transition("Departure", EventType::PersonDeparture, "D.1");
        proof {
            assert(names_map(b.state_name2state@)["D.1"@] == State(1u16, false));
            lemma_trans_absent(b.transitions@, (State(1u16, false), EventType::PersonEntersVehicle));
        }
        let b = b.add_transition("D.1", EventType::PersonEntersVehicle, "D.2");
        proof {
            assert(names_map(b.state_name2state@)["D.1"@] == State(1u16, false));
            lemma_trans_absent(b.transitions@, (State(1u16, false), EventType::VehicleLeavesTraffic));
        }
        let b = b.add_transition("D.1", EventType::VehicleLeavesTraffic, "D.2");
        proof {
            assert(names_map(b.state_name2state@)["D.1"@] == State(1u16, false));
            lemma_trans_absent(b.transitions@, (State(1u16, false), EventType::TeleportationArrival));
        }
        let b = b.add_transition("D.1", EventType::TeleportationArrival, "safe");
        proof {
            assert(names_map(b.state_name2state@)["D.2"@] == State(2u16, false));
            lemma_trans_absent(b.transitions@, (State(2u16, false), EventType::PersonEntersVehicle));
        }
        let b = b.add_transition("D.2", EventType::PersonEntersVehicle, "D.3");
        proof {
            assert(names_map(b.state_name2state@)["D.2"@] == State(2u16, false));
            lemma_trans_absent(b.transitions@, (State(2u16, false), EventType::VehicleEntersTraffic));
        }
        let b = b.add_transition("D.2", EventType::VehicleEntersTraffic, "D.3");
        proof {
            assert(names_map(b.state_name2state@)["D.3"@] == State(3u16, false));
            lemma_trans_absent(b.transitions@, (State(3u16, false), EventType::LinkEnter));
        }
        let b = b.add_transition("D.3", EventType::LinkEnter, "safe");
        proof {
            assert(names_map(b.state_name2state@)["D.3"@] == State(3u16, false));
            lemma_trans_absent(b.transitions@, (State(3u16, false), EventType::VehicleLeavesTraffic));
        }
        let b = b.add_transition("D.3", EventType::VehicleLeavesTraffic, "Arrival");
        proof {
            assert(names_map(b.state_name2state@)["D.3"@] == State(3u16, false));
            lemma_trans_absent(b.transitions@, (State(3u16, false), EventType::PersonLeavesVehicle));
        }
        let b = b.add_transition("D.3", EventType::PersonLeavesVehicle, "Arrival");
        proof {
            assert(names_map(b.state_name2state@)["D.3"@] == State(3u16, false));
            lemma_trans_absent(b.transitions@, (State(3u16, false), EventType::PersonArrival));
        }
        let b = b.add_transition("D.3", EventType::PersonArrival, "Arrival");
        proof {
            assert(names_map(b.state_name2state@)["D.3"@] == State(3u16, false));
            lemma_trans_absent(b.transitions@, (State(3u16, false), EventType::ActivityStart));
        }
        let b = b.add_transition("D.3", EventType::ActivityStart, "Arrival");
        proof {
            assert(names_map(b.state_name2state@)["Arrival"@] == State(4u16, false));
            lemma_trans_absent(b.transitions@, (State(4u16, false), EventType::VehicleLeavesTraffic));
        }
        let b = b.add_transition("Arrival", EventType::VehicleLeavesTraffic, "A.1");
        proof {
            assert(names_map(b.state_name2state@)["Arrival"@] == State(4u16, false));
            lemma_trans_absent(b.transitions@, (State(4u16, false), EventType::PersonLeavesVehicle));
        }
        let b = b.add_transition("Arrival", EventType::PersonLeavesVehicle, "A.1");
        proof {
            assert(names_map(b.state_name2state@)["Arrival"@] == State(4u16, false));
            lemma_trans_absent(b.transitions@, (State(4u16, false), EventType::PersonArrival));
        }
        let b = b.add_transition("Arrival", EventType::PersonArrival, "A.1");
        proof {
            assert(names_map(b.state_name2state@)["Arrival"@] == State(4u16, false));
            lemma_trans_absent(b.transitions@, (State(4u16, false), EventType::ActivityStart));
        }
        let b = b.add_transition("Arrival", EventType::ActivityStart, "A.1");
        proof {
            assert(names_map(b.state_name2state@)["A.1"@] == State(5u16, false));
            lemma_trans_absent(b.transitions@, (State(5u16, false), EventType::VehicleLeavesTraffic));
        }
        let b = b.add_transition("A.1", EventType::VehicleLeavesTraffic, "A.2");
        proof {
            assert(names_map(b.state_name2state@)["A.1"@] == State(5u16, false));
            lemma_trans_absent(b.transitions@, (State(5u16, false), EventType::PersonLeavesVehicle));
        }
        let b = b.add_transition("A.1", EventType::PersonLeavesVehicle, "A.2");
        proof {
            assert(names_map(b.state_name2state@)["A.1"@] == State(5u16, false));
            lemma_trans_absent(b.transitions@, (State(5u16, false), EventType::PersonArrival));
        }
        let b = b.add_transition("A.1", EventType::PersonArrival, "A.2");
        proof {
            assert(names_map(b.state_name2state@)["A.1"@] == State(5u16, false));
            lemma_trans_absent(b.transitions@, (State(5u16, false), EventType::ActivityStart));
        }
        let b = b.add_transition("A.1", EventType::ActivityStart, "A.2");
        proof {
            assert(names_map(b.state_name2state@)["A.2"@] == State(6u16, false));
            lemma_trans_absent(b.transitions@, (State(6u16, false), EventType::VehicleLeavesTraffic));
        }
        let b = b.add_transition("A.2", EventType::VehicleLeavesTraffic, "safe");
        proof {
            assert(names_map(b.state_name2state@)["A.2"@] == State(6u16, false));
            lemma_trans_absent(b.transitions@, (State(6u16, false), EventType::PersonLeavesVehicle));
        }
        let b = b.add_transition("A.2", EventType::PersonLeavesVehicle, "safe");
        proof {
            assert(names_map(b.state_name2state@)["A.2"@] == State(6u16, false));
            lemma_trans_absent(b.transitions@, (State(6u16, false), EventType::PersonArrival));
        }
        let b = b.add_transition("A.2", EventType::PersonArrival, "safe");
        proof {
            assert(names_map(b.state_name2state@)["A.2"@] == State(6u16, false));
            lemma_trans_absent(b.transitions@, (State(6u16, false), EventType::ActivityStart));
        }
        let b = b.add_transition("A.2", EventType::ActivityStart, "safe");
        proof {
            assert(b.transitions@ =~= default_transition_table());
            assert(default_states().contains_key(safe_name()));
        }
        b.build()
    }
}

} // verus!
