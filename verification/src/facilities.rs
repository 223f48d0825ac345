use vstd::prelude::*;

verus! {

/// The days, or groups of days, for which a facility gives opening times.
#[derive(Debug, Clone, Copy, PartialEq, Eq, Structural)]
pub enum OpenDay {
    Mon,
    Tue,
    Wed,
    Thu,
    Fri,
    Sat,
    Sun,
    Wkday,
    Wkend,
    Wk,
}

/// An opening time of a facility: the day and the times it opens and closes, in nanoseconds
/// since the start of the simulation day.
#[derive(Debug, Clone, Copy, PartialEq, Eq, Structural)]
pub struct OpeningTime {
    pub day: OpenDay,
    pub start_time: u128,
    pub end_time: u128,
}

/// A facility that stands for a link of the network.
#[derive(Debug)]
pub struct LinkFacility {}

/// A facility that stands for a transit stop.
#[derive(Debug)]
pub struct TransitStopFacility {}

} // verus!
