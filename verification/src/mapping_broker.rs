use std::collections::HashMap;
use vstd::prelude::*;

verus! {

broadcast use vstd::std_specs::hash::group_hash_axioms;

/// Events waiting to be sent, by target partition and then by person or vehicle id, each with
/// its sequence number.
pub type TargetBuffer<E> = HashMap<u32, HashMap<u64, Vec<(E, u32)>>>;

/// Whether the buffer holds a list of events for `id` towards `target`.
pub open spec fn has_list<E>(m: Map<u32, HashMap<u64, Vec<(E, u32)>>>, target: u32, id: u64) -> bool {
    m.contains_key(target) && m[target]@.contains_key(id)
}

/// The events waiting for `id` towards `target`, in the order they were added; none when the
/// buffer holds no list for them.
pub open spec fn waiting<E>(m: Map<u32, HashMap<u64, Vec<(E, u32)>>>, target: u32, id: u64) -> Seq<(E, u32)> {
    if has_list(m, target, id) {
        m[target]@[id]@
    } else {
        Seq::empty()
    }
}

/// `n` is `m` with `entry` appended to the events for `id` towards `target`, and nothing else
/// changed.
pub open spec fn appended<E>(
    m: Map<u32, HashMap<u64, Vec<(E, u32)>>>,
    n: Map<u32, HashMap<u64, Vec<(E, u32)>>>,
    target: u32,
    id: u64,
    entry: (E, u32),
) -> bool {
    &&& forall|t: u32| #[trigger] n.contains_key(t) <==> (m.contains_key(t) || t == target)
    &&& forall|t: u32, q: u64|
        #[trigger] has_list(n, t, q) <==> (has_list(m, t, q) || (t == target && q == id))
    &&& forall|t: u32, q: u64|
        #[trigger] waiting(n, t, q) == if t == target && q == id {
            waiting(m, t, q).push(entry)
        } else {
            waiting(m, t, q)
        }
}

/// Appends an entry to the events for `id` towards `target`.
fn push_entry<E>(buffer: &mut TargetBuffer<E>, target: u32, id: u64, entry: (E, u32))
    ensures
        appended(old(buffer)@, final(buffer)@, target, id, entry),
{
    let ghost before = buffer@;
    let mut lists = match buffer.remove(&target) {
        Some(l) => l,
        None => HashMap::new(),
    };
    let ghost lists_before = lists@;
    let mut list = match lists.remove(&id) {
        Some(v) => v,
        None => Vec::new(),
    };
    list.push(entry);
    lists.insert(id, list);
    buffer.insert(target, lists);
    proof {
        assert forall|t: u32, q: u64| #[trigger] has_list(buffer@, t, q) <==> (has_list(before, t, q) || (
        t == target && q == id)) by {
            if t == target {
                assert(buffer@[t]@ == lists@);
                if before.contains_key(t) {
                    assert(lists_before == before[t]@);
                }
            }
        }
        assert forall|t: u32, q: u64| #[trigger] waiting(buffer@, t, q) == if t == target && q == id {
            waiting(before, t, q).push(entry)
        } else {
            waiting(before, t, q)
        } by {
            if t == target {
                assert(buffer@[t]@ == lists@);
                if before.contains_key(t) {
                    assert(lists_before == before[t]@);
                }
            }
        }
    }
}

/// The events that a partition of the mapping scoring sends on to the collectors, by target and
/// by person or vehicle, each numbered in the order it was added, with one counter for both
/// kinds.
#[derive(Debug)]
pub struct LeavingEvents<E> {
    pub counter: u32,
    pub person_events: TargetBuffer<E>,
    pub vehicle_events: TargetBuffer<E>,
}

impl<E> LeavingEvents<E> {
    /// No event waits, and numbering starts at zero.
    pub fn new() -> (r: Self)
        ensures
            r.counter == 0,
            r.person_events@ == Map::<u32, HashMap<u64, Vec<(E, u32)>>>::empty(),
            r.vehicle_events@ == Map::<u32, HashMap<u64, Vec<(E, u32)>>>::empty(),
    {
        LeavingEvents { counter: 0, person_events: HashMap::new(), vehicle_events: HashMap::new() }
    }

    /// Adds an event of a person for the collector `target`, numbered with the counter, which
    /// then advances.
    pub fn add_leaving_person_event(&mut self, target: u32, person_id: u64, event: E)
        requires
            old(self).counter < u32::MAX,
        ensures
            final(self).counter == old(self).counter + 1,
            appended(
                old(self).person_events@,
                final(self).person_events@,
                target,
                person_id,
                (event, old(self).counter),
            ),
            final(self).vehicle_events == old(self).vehicle_events,
    {
        let n = self.counter;
        push_entry(&mut self.person_events, target, person_id, (event, n));
        self.counter = n + 1;
    }

    /// Adds an event of a vehicle for the collector `target`, numbered with the counter, which
    /// then advances.
    pub fn add_leaving_vehicle_event(&mut self, target: u32, vehicle_id: u64, event: E)
        requires
            old(self).counter < u32::MAX,
        ensures
            final(self).counter == old(self).counter + 1,
            appended(
                old(self).vehicle_events@,
                final(self).vehicle_events@,
                target,
                vehicle_id,
                (event, old(self).counter),
            ),
            final(self).person_events == old(self).person_events,
    {
        let n = self.counter;
        push_entry(&mut self.vehicle_events, target, vehicle_id, (event, n));
        self.counter = n + 1;
    }

    /// Takes the waiting events of persons and of vehicles, to be sent; the counter goes on.
    pub fn take_all(&mut self) -> (r: (TargetBuffer<E>, TargetBuffer<E>))
        ensures
            r.0@ == old(self).person_events@,
            r.1@ == old(self).vehicle_events@,
            final(self).person_events@ == Map::<u32, HashMap<u64, Vec<(E, u32)>>>::empty(),
            final(self).vehicle_events@ == Map::<u32, HashMap<u64, Vec<(E, u32)>>>::empty(),
            final(self).counter == old(self).counter,
    {
        let mut persons: TargetBuffer<E> = HashMap::new();
        let mut vehicles: TargetBuffer<E> = HashMap::new();
        std::mem::swap(&mut persons, &mut self.person_events);
        std::mem::swap(&mut vehicles, &mut self.vehicle_events);
        (persons, vehicles)
    }
}

/// A partition sends its watermark at the times that are multiples of the sync interval, and
/// whenever it is forced to.
pub fn watermark_due(time: u32, sync_interval: u32, force_sync: bool) -> (r: bool)
    requires
        sync_interval > 0,
    ensures
        r == (time % sync_interval == 0 || force_sync),
{
    time % sync_interval == 0 || force_sync
}

/// The collectors, numbered after the partitions: `num_partitions` and the `num_collectors - 1`
/// numbers that follow it.
pub fn collector_targets(num_partitions: u32, num_collectors: u32) -> (r: Vec<u32>)
    requires
        num_partitions + num_collectors <= u32::MAX + 1,
    ensures
        r@.len() == num_collectors,
        forall|i: int| 0 <= i < num_collectors ==> r@[i] == num_partitions + i,
{
    let mut r: Vec<u32> = Vec::new();
    let mut i: u32 = 0;
    while i < num_collectors
        invariant
            i <= num_collectors,
            num_partitions + num_collectors <= u32::MAX + 1,
            r@.len() == i,
            forall|k: int| 0 <= k < i ==> r@[k] == num_partitions + k,
        decreases num_collectors - i,
    {
        r.push(num_partitions + i);
        i = i + 1;
    }
    r
}

/// What a collector does with a watermark: pass one that came straight from a partition on to
/// every collector, naming the partition as its origin; record one that another collector
/// passed on, which is the last one of that origin and collector when its time is the largest.
#[derive(Debug, Clone, Copy, PartialEq, Eq, Structural)]
pub enum WatermarkAction {
    PassOn { origin: u32, time: u32 },
    Record { origin: u32, collector: u32, time: u32, last: bool },
}

/// Decides what to do with a watermark of the given hop (1 from a partition, 2 from a collector)
/// that came from `from`.
pub fn on_watermark(hop: u32, origin: u32, from: u32, time: u32) -> (r: WatermarkAction)
    requires
        hop == 1 || hop == 2,
    ensures
        hop == 1 ==> r == (WatermarkAction::PassOn { origin: from, time }),
        hop == 2 ==> r == (WatermarkAction::Record { origin, collector: from, time, last: time == u32::MAX }),
{
    if hop == 1 {
        WatermarkAction::PassOn { origin: from, time }
    } else {
        WatermarkAction::Record { origin, collector: from, time, last: time == u32::MAX }
    }
}

} // verus!
