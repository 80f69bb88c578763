use vstd::prelude::*;

verus! {

/// A station identifier: the hash of the station's name.
pub type StationID = u64;

/// A train identifier: the hash of the train's name.
pub type TrainID = u64;

/// A track-interval identifier: the ordered pair of the stations it
/// connects.
pub type IntervalID = (StationID, StationID);

/// Reversal of an interval identifier.
pub trait IntervalIDExt: core::marker::Sized {
    /// The identifier as seen from the opposite direction.
    spec fn rev_spec(&self) -> Self;

    /// Swap the two stations of the identifier.
    fn reverse(&self) -> (r: Self)
        ensures
            r == self.rev_spec(),
    ;
}

impl IntervalIDExt for (u64, u64) {
    open spec fn rev_spec(&self) -> (u64, u64) {
        (self.1, self.0)
    }

    fn reverse(&self) -> (r: (u64, u64)) {
        (self.1, self.0)
    }
}

/// A time of day or a duration, in whole seconds.
#[derive(Debug, Clone, Copy, PartialEq, Eq, Structural)]
pub struct Time(pub u32);

impl Time {
    /// A time of the given number of seconds.
    pub fn new(seconds: u32) -> (r: Time)
        ensures
            r.0 == seconds,
    {
        Time(seconds)
    }

    /// The whole value in seconds.
    pub fn seconds(&self) -> (r: u32)
        ensures
            r == self.0,
    {
        self.0
    }

    /// The second within the current minute.
    pub fn second(&self) -> (r: u32)
        ensures
            r == self.0 % 60,
    {
        self.0 % 60
    }

    /// The whole value in minutes, rounded down.
    pub fn minutes(&self) -> (r: u32)
        ensures
            r == self.0 / 60,
    {
        self.0 / 60
    }

    /// The minute within the current hour.
    pub fn minute(&self) -> (r: u32)
        ensures
            r == (self.0 / 60) % 60,
    {
        (self.0 / 60) % 60
    }

    /// The whole value in hours, rounded down.
    pub fn hours(&self) -> (r: u32)
        ensures
            r == self.0 / 3600,
    {
        self.0 / 3600
    }

    /// The hour within the current day.
    pub fn hour(&self) -> (r: u32)
        ensures
            r == (self.0 / 3600) % 24,
    {
        (self.0 / 3600) % 24
    }
}

/// A physical length of a track interval, in whole meters.
#[derive(Debug, Clone, Copy, PartialEq, Eq, Structural)]
pub struct IntervalLength(pub u32);

impl IntervalLength {
    /// A length of the given number of meters.
    pub fn new(meters: u32) -> (r: IntervalLength)
        ensures
            r.0 == meters,
    {
        IntervalLength(meters)
    }

    /// The whole length in meters.
    pub fn meters(&self) -> (r: u32)
        ensures
            r == self.0,
    {
        self.0
    }
}

/// How physical interval lengths are mapped onto the position axis.
#[derive(Debug, Clone, Copy, PartialEq, Eq, Structural)]
pub enum ScaleMode {
    /// Position is proportional to physical length.
    Linear,
    /// Position grows with the logarithm of physical length.
    Logarithmic,
    /// Every interval takes the same room.
    Uniform,
}

/// What a train does at a stop.
#[derive(Debug, Clone, Copy, PartialEq, Eq, Structural, Hash)]
pub enum TrainAction {
    Compose,
    Decompose,
    Outbound,
    Inbound,
}

/// Which directions of travel a track interval allows.
#[derive(Debug, Clone, Copy, PartialEq, Eq, Structural)]
pub enum Direction {
    Bidirectional,
    Forward,
    Backward,
}

/// One stop of a train's schedule.
#[derive(Debug, Clone, Copy, PartialEq, Eq, Structural)]
pub struct ScheduleEntry {
    /// When the train arrives at the station.
    pub arrival: Time,
    /// When it leaves again; never before it arrives.
    pub departure: Time,
    /// The station stopped at.
    pub station: StationID,
}

/// A track interval between two stations.
#[derive(Debug, Clone, Copy, PartialEq, Eq, Structural)]
pub struct Interval {
    /// The physical length of the interval.
    pub length: IntervalLength,
}

/// In the window of three stations starting at `i`, the second and third
/// station are the same.
pub open spec fn adjacent_repeat_at(ids: Seq<u64>, i: int) -> bool {
    ids[i + 1] == ids[i + 2]
}

/// In the window of three stations starting at `i`, the first and third
/// station are the same: the middle station would begin and end the same
/// interval.
pub open spec fn straddle_at(ids: Seq<u64>, i: int) -> bool {
    ids[i] == ids[i + 2]
}

/// The window of three stations starting at `i` is free of both conflicts.
pub open spec fn window_ok(ids: Seq<u64>, i: int) -> bool {
    !adjacent_repeat_at(ids, i) && !straddle_at(ids, i)
}

/// Scan a drawn-station sequence for ordering conflicts, window by window.
///
/// Returns the first window with a conflict, together with `true` for a
/// repeated adjacent station (checked first) and `false` for a station
/// that both begins the previous interval and ends the next; `None` when
/// every window is clean.
pub fn station_order_conflict(ids: &Vec<u64>) -> (r: Option<(usize, bool)>)
    ensures
        match r {
            None => forall|j: int| 0 <= j && j + 2 < ids@.len() ==> window_ok(ids@, j),
            Some((i, rep)) => {
                &&& 0 <= i as int + 2 < ids@.len()
                &&& (forall|j: int| 0 <= j < i as int ==> window_ok(ids@, j))
                &&& (rep ==> adjacent_repeat_at(ids@, i as int))
                &&& (!rep ==> !adjacent_repeat_at(ids@, i as int) && straddle_at(ids@, i as int))
            },
        },
{
    if ids.len() < 3 {
        proof {
            assert forall|j: int| 0 <= j && j + 2 < ids@.len() implies window_ok(ids@, j) by {
                assert(false);
            }
        }
        return None;
    }
    let n = ids.len();
    let mut i: usize = 0;
    while i + 2 < n
        invariant
            n == ids@.len(),
            3 <= n,
            0 <= i,
            i + 2 <= n,
            forall|j: int| 0 <= j < i ==> window_ok(ids@, j),
        decreases n - i,
    {
        if ids[i + 1] == ids[i + 2] {
            return Some((i, true));
        }
        if ids[i] == ids[i + 2] {
            return Some((i, false));
        }
        i = i + 1;
    }
    proof {
        assert forall|j: int| 0 <= j && j + 2 < ids@.len() implies window_ok(ids@, j) by {
            assert(j < i);
        }
    }
    None
}

} // verus!
