use std::collections::HashMap;
use vstd::prelude::*;

verus! {

broadcast use vstd::std_specs::hash::group_hash_axioms;

/// How a travel time is read from the bins: the value of the time's bin, or a linear
/// interpolation between the centres of neighbouring bins.
#[derive(Clone, Copy, Debug, PartialEq, Eq, Structural)]
pub enum TravelTimeGetter {
    Average,
    LinearInterpolation,
}

/// The number of bins of `bin_size` nanoseconds needed to cover the times up to `max_time`
/// nanoseconds: one more than the number of whole bins in `max_time`.
pub fn number_of_bins(bin_size: u128, max_time: u128) -> (r: usize)
    requires
        bin_size > 0,
        max_time / bin_size + 1 <= usize::MAX,
    ensures
        r == max_time / bin_size + 1,
{
    let bins = max_time / bin_size + 1;
    bins as usize
}

/// The bin of a time (nanoseconds): the number of whole bins before it, at most the last bin.
pub fn time_slot(time: u128, bin_size: u128, num_bins: usize) -> (r: usize)
    requires
        bin_size > 0,
        num_bins >= 1,
    ensures
        r == if time / bin_size < num_bins - 1 {
            (time / bin_size) as int
        } else {
            num_bins - 1
        },
{
    let slot = time / bin_size;
    let slot: usize = if slot <= usize::MAX as u128 {
        slot as usize
    } else {
        usize::MAX
    };
    if slot < num_bins - 1 {
        slot
    } else {
        num_bins - 1
    }
}

/// `a - b`, or 0 when `b` is larger.
pub open spec fn saturating_sub(a: u128, b: u128) -> u128 {
    if a >= b {
        (a - b) as u128
    } else {
        0
    }
}

/// The value of bin `i` before the cascade: the observed mean, or the freespeed travel time
/// when the bin has no observation.
pub open spec fn raw_bin(observed: Seq<Option<u128>>, freespeed: u128, i: int) -> u128 {
    match observed[i] {
        Some(t) => t,
        None => freespeed,
    }
}

/// The consolidated value of bin `i`: its raw value, but never less than the previous
/// consolidated bin minus one bin size.
pub open spec fn consolidated(observed: Seq<Option<u128>>, freespeed: u128, bin_size: u128, i: int) -> u128
    decreases i,
{
    if i <= 0 {
        raw_bin(observed, freespeed, 0)
    } else {
        let lower_bound = saturating_sub(consolidated(observed, freespeed, bin_size, i - 1), bin_size);
        let raw = raw_bin(observed, freespeed, i);
        if raw < lower_bound {
            lower_bound
        } else {
            raw
        }
    }
}

/// A consolidated bin never lies below its raw value (the observed mean, or the freespeed travel
/// time), never drops more than one bin size below the bin before it, and is raised only as far
/// as that bound.
pub proof fn lemma_consolidation_bounds(
    observed: Seq<Option<u128>>,
    freespeed: u128,
    bin_size: u128,
    i: int,
)
    requires
        0 <= i < observed.len(),
    ensures
        consolidated(observed, freespeed, bin_size, i) >= raw_bin(observed, freespeed, i),
        i > 0 ==> consolidated(observed, freespeed, bin_size, i) >= saturating_sub(
            consolidated(observed, freespeed, bin_size, i - 1),
            bin_size,
        ),
        i > 0 ==> (consolidated(observed, freespeed, bin_size, i) == raw_bin(observed, freespeed, i)
            || consolidated(observed, freespeed, bin_size, i) == saturating_sub(
            consolidated(observed, freespeed, bin_size, i - 1),
            bin_size,
        )),
{
}

/// Builds the travel time of each bin (nanoseconds): the observed mean where the bin has
/// observations, else the freespeed travel time; and then no bin may drop by more than one bin
/// size below its predecessor.
pub fn build_consolidated_travel_times(
    observed: &Vec<Option<u128>>,
    freespeed_travel_time: u128,
    bin_size: u128,
) -> (r: Vec<u128>)
    ensures
        r@.len() == observed@.len(),
        forall|i: int|
            0 <= i < r@.len() ==> #[trigger] r@[i] == consolidated(
                observed@,
                freespeed_travel_time,
                bin_size,
                i,
            ),
{
    let mut result: Vec<u128> = Vec::new();
    let mut i: usize = 0;
    while i < observed.len()
        invariant
            i <= observed@.len(),
            result@.len() == i,
            forall|k: int| 0 <= k < i ==> #[trigger] result@[k] == raw_bin(observed@, freespeed_travel_time, k),
        decreases observed.len() - i,
    {
        let value = match observed[i] {
            Some(t) => t,
            None => freespeed_travel_time,
        };
        result.push(value);
        i = i + 1;
    }
    let mut i: usize = 1;
    while i < result.len()
        invariant
            1 <= i,
            result@.len() == observed@.len(),
            i <= result@.len() || result@.len() == 0,
            forall|k: int| 0 <= k < i && k < result@.len() ==> #[trigger] result@[k] == consolidated(
                observed@,
                freespeed_travel_time,
                bin_size,
                k,
            ),
            forall|k: int| i <= k < result@.len() ==> #[trigger] result@[k] == raw_bin(observed@, freespeed_travel_time, k),
        decreases result.len() - i,
    {
        let previous = result[i - 1];
        let lower_bound = if previous >= bin_size {
            previous - bin_size
        } else {
            0
        };
        if result[i] < lower_bound {
            result.set(i, lower_bound);
        }
        i = i + 1;
    }
    result
}

/// Travel times that the partitions submit for one iteration, until all have arrived.
#[derive(Debug)]
pub struct PendingTravelTimes<T> {
    pub iteration: Option<u32>,
    pub last_published_iteration: Option<u32>,
    pub parts: Vec<Option<T>>,
    pub received: usize,
}

/// The number of parts that have arrived.
pub open spec fn count_received<T>(parts: Seq<Option<T>>) -> nat
    decreases parts.len(),
{
    if parts.len() == 0 {
        0
    } else {
        count_received(parts.drop_last()) + if parts.last() is Some {
            1nat
        } else {
            0nat
        }
    }
}

/// A submission for `iteration` from `rank` is accepted: the rank exists, the iteration comes
/// after the last published one, no other iteration is pending, and the rank has not submitted
/// yet.
pub open spec fn submission_accepted<T>(p: &PendingTravelTimes<T>, iteration: u32, rank: u32) -> bool {
    &&& (rank as int) < p.parts@.len()
    &&& p.last_published_iteration matches Some(last) ==> iteration > last
    &&& p.iteration matches Some(active) ==> active == iteration
    &&& p.parts@[rank as int] is None
}

impl<T> PendingTravelTimes<T> {
    /// The counter matches the arrived parts, and without a pending iteration no part has
    /// arrived.
    pub open spec fn wf(&self) -> bool {
        &&& self.received == count_received(self.parts@)
        &&& self.iteration is None ==> self.received == 0
        &&& self.received < self.parts@.len()
    }

    /// Nothing pending yet, for the given number of partitions.
    pub fn new(num_parts: usize) -> (p: Self)
        requires
            num_parts > 0,
        ensures
            p.wf(),
            p.iteration is None,
            p.last_published_iteration is None,
            p.parts@.len() == num_parts,
            forall|k: int| 0 <= k < num_parts ==> p.parts@[k] is None,
    {
        let mut parts: Vec<Option<T>> = Vec::new();
        let mut i: usize = 0;
        while i < num_parts
            invariant
                i <= num_parts,
                parts@.len() == i,
                forall|k: int| 0 <= k < i ==> parts@[k] is None,
                count_received(parts@) == 0,
            decreases num_parts - i,
        {
            proof {
                assert(parts@.push(None).drop_last() =~= parts@);
            }
            parts.push(None);
            i = i + 1;
        }
        PendingTravelTimes { iteration: None, last_published_iteration: None, parts, received: 0 }
    }
}


/// Setting an empty slot to a value raises the count by one.
proof fn lemma_count_set<T>(parts: Seq<Option<T>>, k: int, v: T)
    requires
        0 <= k < parts.len(),
        parts[k] is None,
    ensures
        count_received(parts.update(k, Some(v))) == count_received(parts) + 1,
    decreases parts.len(),
{
    if k < parts.len() - 1 {
        lemma_count_set(parts.drop_last(), k, v);
        assert(parts.update(k, Some(v)).drop_last() =~= parts.drop_last().update(k, Some(v)));
    } else {
        assert(parts.update(k, Some(v)).drop_last() =~= parts.drop_last());
    }
}

/// The count is at most the number of slots, and reaches it only when every slot is filled.
proof fn lemma_count_full<T>(parts: Seq<Option<T>>)
    ensures
        count_received(parts) <= parts.len(),
        count_received(parts) == parts.len() ==> forall|k: int| 0 <= k < parts.len() ==> (#[trigger] parts[k]) is Some,
    decreases parts.len(),
{
    if parts.len() > 0 {
        lemma_count_full(parts.drop_last());
        assert forall|k: int| 0 <= k < parts.drop_last().len() implies parts[k] == parts.drop_last()[k] by {}
    }
}

/// The values of filled slots.
pub open spec fn unwrap_all<T>(parts: Seq<Option<T>>) -> Seq<T> {
    parts.map_values(|o: Option<T>| o->0)
}

impl<T> PendingTravelTimes<T> {
    /// Whether a submission for `iteration` from `rank` would be accepted.
    pub fn accepts(&self, iteration: u32, rank: u32) -> (r: bool)
        ensures
            r == submission_accepted(self, iteration, rank),
    {
        if rank as usize >= self.parts.len() {
            return false;
        }
        match self.last_published_iteration {
            Some(last) => {
                if iteration <= last {
                    return false;
                }
            },
            None => {},
        }
        match self.iteration {
            Some(active) => {
                if active != iteration {
                    return false;
                }
            },
            None => {},
        }
        self.parts[rank as usize].is_none()
    }

    /// Takes the travel times of one partition. When the last partition of the iteration has
    /// submitted, the iteration is published: the parts of all partitions are returned in rank
    /// order and the pending state is cleared.
    pub fn submit(&mut self, iteration: u32, rank: u32, times: T) -> (r: Option<Vec<T>>)
        requires
            old(self).wf(),
            submission_accepted(old(self), iteration, rank),
        ensures
            final(self).wf(),
            final(self).parts@.len() == old(self).parts@.len(),
            ({
                let filled = old(self).parts@.update(rank as int, Some(times));
                if old(self).received + 1 == old(self).parts@.len() {
                    &&& r matches Some(v) && v@ == unwrap_all(filled)
                    &&& final(self).iteration is None
                    &&& final(self).last_published_iteration == Some(iteration)
                    &&& forall|k: int| 0 <= k < final(self).parts@.len() ==> (#[trigger] final(self).parts@[k]) is None
                } else {
                    &&& r is None
                    &&& final(self).iteration == Some(iteration)
                    &&& final(self).last_published_iteration == old(self).last_published_iteration
                    &&& final(self).parts@ == filled
                }
            }),
    {
        let rank = rank as usize;
        let num_parts = self.parts.len();
        if self.iteration.is_none() {
            self.iteration = Some(iteration);
        }
        let ghost parts0 = self.parts@;
        self.parts.set(rank, Some(times));
        proof {
            lemma_count_set(parts0, rank as int, times);
            assert(self.parts@ == parts0.update(rank as int, Some(times)));
        }
        self.received = self.received + 1;
        if self.received == self.parts.len() {
            let ghost filled = self.parts@;
            proof {
                lemma_count_full(filled);
            }
            let mut times_by_partition: Vec<T> = Vec::new();
            let mut k: usize = 0;
            while k < self.parts.len()
                invariant
                    self.parts@.len() == filled.len(),
                    k <= filled.len(),
                    forall|t: int| 0 <= t < k ==> (#[trigger] self.parts@[t]) is None,
                    forall|t: int| k <= t < filled.len() ==> #[trigger] self.parts@[t] == filled[t],
                    forall|t: int| 0 <= t < filled.len() ==> (#[trigger] filled[t]) is Some,
                    times_by_partition@ == unwrap_all(filled).subrange(0, k as int),
                decreases filled.len() - k,
            {
                let mut part: Option<T> = None;
                std::mem::swap(&mut part, &mut self.parts[k]);
                let value = part.unwrap();
                proof {
                    assert(unwrap_all(filled).subrange(0, k + 1) =~= unwrap_all(filled).subrange(0, k as int).push(value));
                }
                times_by_partition.push(value);
                k = k + 1;
            }
            proof {
                assert(unwrap_all(filled).subrange(0, filled.len() as int) =~= unwrap_all(filled));
                assert(count_received(self.parts@) == 0) by {
                    lemma_count_zero(self.parts@);
                }
            }
            self.iteration = None;
            self.last_published_iteration = Some(iteration);
            self.received = 0;
            return Some(times_by_partition);
        }
        None
    }
}

/// Only empty slots count nothing.
proof fn lemma_count_zero<T>(parts: Seq<Option<T>>)
    requires
        forall|k: int| 0 <= k < parts.len() ==> (#[trigger] parts[k]) is None,
    ensures
        count_received(parts) == 0,
    decreases parts.len(),
{
    if parts.len() > 0 {
        assert forall|k: int| 0 <= k < parts.drop_last().len() implies (#[trigger] parts.drop_last()[k]) is None by {
            assert(parts.drop_last()[k] == parts[k]);
        }
        lemma_count_zero(parts.drop_last());
        assert(parts[parts.len() - 1] == parts.last());
    }
}

/// A travel time observed on a link: the network mode of the vehicle, the link, the bin of the
/// time the vehicle entered the link, and the time it spent on the link (nanoseconds).
#[derive(Debug, Clone, Copy, PartialEq, Eq, Structural)]
pub struct LinkObservation {
    pub mode: u64,
    pub link: u64,
    pub slot: usize,
    pub travel_time: u128,
}

/// The bookkeeping of one partition's travel-time collection: the network mode of each vehicle
/// in traffic and the link each vehicle entered last, with the time it entered. Each leave of a
/// link that follows an enter yields an observation; the bins that average the observations
/// hold floating-point means and are kept outside this library.
#[derive(Debug)]
pub struct PartitionTravelTimeCollector {
    pub bin_size: u128,
    pub num_bins: usize,
    pub vehicle_modes: HashMap<u64, u64>,
    pub active_link_enters_by_vehicle: HashMap<u64, (u64, u128)>,
}

impl PartitionTravelTimeCollector {
    /// The collector has at least one bin of a positive size.
    pub open spec fn wf(&self) -> bool {
        self.bin_size > 0 && self.num_bins >= 1
    }

    /// A collector with bins of `bin_size` nanoseconds that cover the times up to `max_time`.
    pub fn new(bin_size: u128, max_time: u128) -> (c: Self)
        requires
            bin_size > 0,
            max_time / bin_size + 1 <= usize::MAX,
        ensures
            c.wf(),
            c.bin_size == bin_size,
            c.num_bins == max_time / bin_size + 1,
            c.vehicle_modes@ == Map::<u64, u64>::empty(),
            c.active_link_enters_by_vehicle@ == Map::<u64, (u64, u128)>::empty(),
    {
        PartitionTravelTimeCollector {
            bin_size,
            num_bins: number_of_bins(bin_size, max_time),
            vehicle_modes: HashMap::new(),
            active_link_enters_by_vehicle: HashMap::new(),
        }
    }

    /// The network mode recorded for the vehicle, if any.
    pub fn vehicle_mode(&self, vehicle: u64) -> (r: Option<u64>)
        ensures
            self.vehicle_modes@.contains_key(vehicle) ==> r == Some(self.vehicle_modes@[vehicle]),
            !self.vehicle_modes@.contains_key(vehicle) ==> r is None,
    {
        match self.vehicle_modes.get(&vehicle) {
            Some(m) => Some(*m),
            None => None,
        }
    }

    /// The link the vehicle entered last and the time it entered, if any.
    pub fn active_link_enter(&self, vehicle: u64) -> (r: Option<(u64, u128)>)
        ensures
            self.active_link_enters_by_vehicle@.contains_key(vehicle) ==> r == Some(
                self.active_link_enters_by_vehicle@[vehicle],
            ),
            !self.active_link_enters_by_vehicle@.contains_key(vehicle) ==> r is None,
    {
        match self.active_link_enters_by_vehicle.get(&vehicle) {
            Some(a) => Some(*a),
            None => None,
        }
    }

    /// Assigning a mode is allowed: the vehicle has no mode yet, or this one.
    pub open spec fn mode_assignable(&self, vehicle: u64, mode: u64) -> bool {
        self.vehicle_modes@.contains_key(vehicle) ==> self.vehicle_modes@[vehicle] == mode
    }

    /// Records the network mode of a vehicle; a vehicle never changes its mode.
    fn assign_vehicle_mode(&mut self, vehicle: u64, mode: u64)
        requires
            old(self).mode_assignable(vehicle, mode),
        ensures
            final(self).vehicle_modes@ == old(self).vehicle_modes@.insert(vehicle, mode),
            final(self).active_link_enters_by_vehicle == old(self).active_link_enters_by_vehicle,
            final(self).bin_size == old(self).bin_size,
            final(self).num_bins == old(self).num_bins,
    {
        self.vehicle_modes.insert(vehicle, mode);
    }

    /// A vehicle enters traffic with the given network mode.
    pub fn process_vehicle_enters_traffic_event(&mut self, vehicle: u64, network_mode: u64)
        requires
            old(self).mode_assignable(vehicle, network_mode),
        ensures
            final(self).vehicle_modes@ == old(self).vehicle_modes@.insert(vehicle, network_mode),
            final(self).active_link_enters_by_vehicle == old(self).active_link_enters_by_vehicle,
            final(self).bin_size == old(self).bin_size,
            final(self).num_bins == old(self).num_bins,
    {
        self.assign_vehicle_mode(vehicle, network_mode);
    }

    /// A vehicle enters the partition with the given network mode.
    pub fn process_vehicle_enters_partition_event(&mut self, vehicle: u64, network_mode: u64)
        requires
            old(self).mode_assignable(vehicle, network_mode),
        ensures
            final(self).vehicle_modes@ == old(self).vehicle_modes@.insert(vehicle, network_mode),
            final(self).active_link_enters_by_vehicle == old(self).active_link_enters_by_vehicle,
            final(self).bin_size == old(self).bin_size,
            final(self).num_bins == old(self).num_bins,
    {
        self.assign_vehicle_mode(vehicle, network_mode);
    }

    /// A vehicle with a known mode enters a link at the given time (nanoseconds).
    pub fn process_link_enter_event(&mut self, vehicle: u64, link: u64, time: u128)
        requires
            old(self).vehicle_modes@.contains_key(vehicle),
        ensures
            final(self).active_link_enters_by_vehicle@ == old(self).active_link_enters_by_vehicle@.insert(
                vehicle,
                (link, time),
            ),
            final(self).vehicle_modes == old(self).vehicle_modes,
            final(self).bin_size == old(self).bin_size,
            final(self).num_bins == old(self).num_bins,
    {
        self.active_link_enters_by_vehicle.insert(vehicle, (link, time));
    }

    /// A vehicle leaves a link at the given time. When the vehicle's mode is known and it
    /// entered a link before, that enter is consumed and the observation returned: the time on
    /// the link, in the bin of the enter time. Otherwise nothing is observed, and for a vehicle
    /// without a mode nothing changes.
    pub fn process_link_leave_event(&mut self, vehicle: u64, time: u128) -> (r: Option<LinkObservation>)
        requires
            old(self).wf(),
            old(self).active_link_enters_by_vehicle@.contains_key(vehicle)
                ==> old(self).active_link_enters_by_vehicle@[vehicle].1 <= time,
        ensures
            final(self).wf(),
            final(self).vehicle_modes == old(self).vehicle_modes,
            final(self).bin_size == old(self).bin_size,
            final(self).num_bins == old(self).num_bins,
            !old(self).vehicle_modes@.contains_key(vehicle) ==> {
                &&& r is None
                &&& final(self).active_link_enters_by_vehicle@ == old(self).active_link_enters_by_vehicle@
            },
            old(self).vehicle_modes@.contains_key(vehicle) ==> {
                &&& final(self).active_link_enters_by_vehicle@ == old(self).active_link_enters_by_vehicle@.remove(vehicle)
                &&& !old(self).active_link_enters_by_vehicle@.contains_key(vehicle) ==> r is None
                &&& old(self).active_link_enters_by_vehicle@.contains_key(vehicle) ==> {
                    let (link, enter) = old(self).active_link_enters_by_vehicle@[vehicle];
                    let slot = enter / old(self).bin_size;
                    r == Some(
                        LinkObservation {
                            mode: old(self).vehicle_modes@[vehicle],
                            link,
                            slot: (if slot < old(self).num_bins - 1 {
                                slot as int
                            } else {
                                old(self).num_bins - 1
                            }) as usize,
                            travel_time: (time - enter) as u128,
                        },
                    )
                }
            },
    {
        let mode = match self.vehicle_modes.get(&vehicle) {
            Some(m) => *m,
            None => {
                return None;
            },
        };
        let (link, enter) = match self.active_link_enters_by_vehicle.remove(&vehicle) {
            Some(active) => active,
            None => {
                return None;
            },
        };
        let travel_time = time - enter;
        let slot = time_slot(enter, self.bin_size, self.num_bins);
        Some(LinkObservation { mode, link, slot, travel_time })
    }

    /// Forgets the vehicle's mode and its last link enter.
    fn clear_vehicle_state(&mut self, vehicle: u64)
        ensures
            final(self).vehicle_modes@ == old(self).vehicle_modes@.remove(vehicle),
            final(self).active_link_enters_by_vehicle@ == old(self).active_link_enters_by_vehicle@.remove(vehicle),
            final(self).bin_size == old(self).bin_size,
            final(self).num_bins == old(self).num_bins,
    {
        self.vehicle_modes.remove(&vehicle);
        self.active_link_enters_by_vehicle.remove(&vehicle);
    }

    /// A vehicle leaves traffic: its state is forgotten.
    pub fn process_vehicle_leaves_traffic_event(&mut self, vehicle: u64)
        ensures
            final(self).vehicle_modes@ == old(self).vehicle_modes@.remove(vehicle),
            final(self).active_link_enters_by_vehicle@ == old(self).active_link_enters_by_vehicle@.remove(vehicle),
            final(self).bin_size == old(self).bin_size,
            final(self).num_bins == old(self).num_bins,
    {
        self.clear_vehicle_state(vehicle);
    }

    /// A vehicle leaves the partition: its state is forgotten.
    pub fn process_vehicle_leaves_partition_event(&mut self, vehicle: u64)
        ensures
            final(self).vehicle_modes@ == old(self).vehicle_modes@.remove(vehicle),
            final(self).active_link_enters_by_vehicle@ == old(self).active_link_enters_by_vehicle@.remove(vehicle),
            final(self).bin_size == old(self).bin_size,
            final(self).num_bins == old(self).num_bins,
    {
        self.clear_vehicle_state(vehicle);
    }

    /// Forgets every vehicle's state for a new iteration.
    pub fn reset(&mut self)
        ensures
            final(self).vehicle_modes@ == Map::<u64, u64>::empty(),
            final(self).active_link_enters_by_vehicle@ == Map::<u64, (u64, u128)>::empty(),
            final(self).bin_size == old(self).bin_size,
            final(self).num_bins == old(self).num_bins,
    {
        self.vehicle_modes.clear();
        self.active_link_enters_by_vehicle.clear();
    }
}

} // verus!
